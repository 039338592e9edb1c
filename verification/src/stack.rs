//! The CHIP-8 call stack: sixteen return addresses.
use vstd::prelude::*;

verus! {

/// The number of return addresses the call stack holds.
pub const STACK_DEPTH: usize = 16;

/// A bounded stack of return addresses.
pub struct Stack {
    stack: [usize; 16],
    pointer: usize,
}

impl Stack {
    #[verifier::type_invariant]
    spec fn inv(self) -> bool {
        self.pointer <= STACK_DEPTH
    }

    /// The addresses on the stack, the most recently pushed last.
    pub closed spec fn view(&self) -> Seq<usize> {
        self.stack@.subrange(0, self.pointer as int)
    }

    /// An empty stack.
    pub fn new() -> (s: Self)
        ensures
            s@ == Seq::<usize>::empty(),
    {
        Self { stack: [0; 16], pointer: 0 }
    }

    /// The number of addresses on the stack.
    pub fn len(&self) -> (r: usize)
        ensures
            r == self@.len(),
    {
        proof {
            use_type_invariant(self);
        }
        self.pointer
    }

    /// Pushes a return address.
    pub fn push(&mut self, value: usize)
        requires
            old(self)@.len() < STACK_DEPTH,
        ensures
            final(self)@ == old(self)@.push(value),
    {
        proof {
            use_type_invariant(&*self);
        }
        let p = self.pointer;
        let mut st = self.stack;
        st[p] = value;
        self.stack = st;
        self.pointer = p + 1;
    }

    /// Pops the most recently pushed return address.
    pub fn pop(&mut self) -> (r: usize)
        requires
            old(self)@.len() > 0,
        ensures
            r == old(self)@.last(),
            final(self)@ == old(self)@.drop_last(),
    {
        proof {
            use_type_invariant(&*self);
        }
        self.pointer = self.pointer - 1;
        self.stack[self.pointer]
    }
}

/// What is popped is what was pushed last, and the pop leaves the stack as it
/// was before the push.
pub proof fn lemma_push_pop(s: Seq<usize>, value: usize)
    ensures
        s.push(value).last() == value,
        s.push(value).drop_last() == s,
{
    assert(s.push(value).drop_last() =~= s);
}

} // verus!
