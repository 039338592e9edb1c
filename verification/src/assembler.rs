//! An assembler that emits CHIP-8 code into program memory, with register
//! allocation for named and anonymous variables, structured `if` and loop
//! blocks, and a data section for sprites.
use vstd::prelude::*;
use crate::table::DataTable;
use crate::cpu::{be_word, words_be};
use crate::bits::{bit_length, num_bits, byte_bit, check_bit_8, set_bit_8, lemma_set_then_check_8};

verus! {

/// Where emitted code starts.
pub const PROGRAM_START: u16 = 0x200;

/// The length of program memory after `PROGRAM_START`.
pub const PROGRAM_LEN: u16 = 0xDFF;

/// Where the data section starts; code stops before it.
pub const DATA_SECTION: u16 = 0x8FF;

/// What a register holds.
pub enum Assignment {
    /// The register is free.
    Unassigned,
    /// A temporary value.
    Anonymous,
    /// A named variable.
    Nonymous(String),
}

/// What a register holds, as the contracts see it.
pub enum Slot {
    Free,
    Temp,
    Var(Seq<char>),
}

impl View for Assignment {
    type V = Slot;

    open spec fn view(&self) -> Slot {
        match self {
            Assignment::Unassigned => Slot::Free,
            Assignment::Anonymous => Slot::Temp,
            Assignment::Nonymous(n) => Slot::Var(n@),
        }
    }
}

/// An open block: the address of an `if` jump still to be patched, or the
/// start of a loop body with its trip count.
pub enum Section {
    If(u16),
    Loop(u16, Valued),
}

/// A value that an instruction operates on.
pub enum Valued {
    Literal(u8),
    Symbol(String),
    Data(String),
    Expression(Vec<(Valued, Ops)>),
    Register(u8),
}

impl Clone for Valued {
    fn clone(&self) -> (r: Self)
        ensures
            same_value(r, *self),
        decreases self,
    {
        match self {
            Valued::Literal(x) => Valued::Literal(*x),
            Valued::Symbol(name) => Valued::Symbol(name.clone()),
            Valued::Data(name) => Valued::Data(name.clone()),
            Valued::Register(x) => Valued::Register(*x),
            Valued::Expression(e) => {
                let mut out: Vec<(Valued, Ops)> = Vec::new();
                let mut k: usize = 0;
                while k < e.len()
                    invariant
                        *self == Valued::Expression(*e),
                        k <= e@.len(),
                        out@.len() == k,
                        forall|i: int| 0 <= i < k ==> same_value(#[trigger] out[i].0, e[i].0) && out[i].1 == e[i].1,
                    decreases e@.len() - k,
                {
                    proof {
                        assert(decreases_to!(*e => e[k as int]));
                        assert(decreases_to!(*self => self->Expression_0));
                        assert(self->Expression_0 == *e);
                        assert(decreases_to!(e[k as int] => e[k as int].0));
                        assert(decreases_to!(*self => e[k as int].0));
                    }
                    let c = e[k].0.clone();
                    out.push((c, e[k].1));
                    k += 1;
                }
                Valued::Expression(out)
            },
        }
    }
}

/// Whether two values are the same: the same variant, with names and
/// literals equal and expressions the same element by element.
pub open spec fn same_value(a: Valued, b: Valued) -> bool
    decreases a,
{
    match (a, b) {
        (Valued::Literal(x), Valued::Literal(y)) => x == y,
        (Valued::Symbol(x), Valued::Symbol(y)) => x@ == y@,
        (Valued::Data(x), Valued::Data(y)) => x@ == y@,
        (Valued::Register(x), Valued::Register(y)) => x == y,
        (Valued::Expression(x), Valued::Expression(y)) => x.len() == y.len() && forall|i: int|
            0 <= i < x.len() ==> same_value(#[trigger] x[i].0, y[i].0) && x[i].1 == y[i].1,
        _ => false,
    }
}

impl<'a> From<&'a str> for Valued {
    /// A variable of that name.
    fn from(value: &'a str) -> (r: Self)
        ensures
            r matches Valued::Symbol(n) && n@ == value@,
    {
        Valued::Symbol(value.to_owned())
    }
}

/// A `String` is fixed by its characters only up to equality of views, so
/// the conversion from `&str` is specified by the `ensures` of `from` (a
/// variable whose name has the same characters) rather than by `from_spec`.
impl<'a> vstd::std_specs::convert::FromSpecImpl<&'a str> for Valued {
    open spec fn obeys_from_spec() -> bool {
        false
    }

    open spec fn from_spec(value: &'a str) -> Valued {
        Valued::Symbol(choose|n: String| n@ == value@)
    }
}

impl From<u8> for Valued {
    fn from(value: u8) -> (r: Self) {
        Valued::Literal(value)
    }
}

impl vstd::std_specs::convert::FromSpecImpl<u8> for Valued {
    open spec fn obeys_from_spec() -> bool {
        true
    }

    open spec fn from_spec(value: u8) -> Valued {
        Valued::Literal(value)
    }
}

/// An operator of an expression, applied to the running value.
#[derive(Clone, Copy)]
pub enum Ops {
    Add,
    Subtract,
    Multiply,
    Shl,
    Shr,
    BitAnd,
    BitOr,
    BitXor,
}

/// Whether a copied sprite is mirrored horizontally (`.0`) and vertically (`.1`).
pub struct Flip(pub bool, pub bool);

/// The assembler's state: the registers, the named data blocks, program
/// memory, the next code and data addresses, the open blocks and the loop
/// counter registers.
pub struct State {
    assignments: [Assignment; 16],
    datas: DataTable,
    program: [u8; 4096],
    pcc: u16,
    pcd: u16,
    send_forward: Vec<Section>,
    non_user_stack: Vec<u8>,
}

/// What the assembler's state holds.
pub struct StateView {
    pub regs: Seq<Slot>,
    pub datas: Map<Seq<char>, (u16, u16)>,
    pub program: Seq<u8>,
    pub pcc: u16,
    pub pcd: u16,
    pub sections: Seq<Section>,
    pub loop_regs: Seq<u8>,
}

impl View for State {
    type V = StateView;

    closed spec fn view(&self) -> StateView {
        StateView {
            regs: self.assignments@.map_values(|a: Assignment| a@),
            datas: self.datas@,
            program: self.program@,
            pcc: self.pcc,
            pcd: self.pcd,
            sections: self.send_forward@,
            loop_regs: self.non_user_stack@,
        }
    }
}

/// The facts that hold of every state reached from `State::new` by the
/// public operations: sixteen registers, 4096 bytes of memory, the code
/// address at or above `PROGRAM_START`, the data address at or above
/// `DATA_SECTION`, VF held by the variable `overflow`, and no loop counter
/// in VF.
pub open spec fn valid(s: StateView) -> bool {
    &&& s.regs.len() == 16
    &&& s.program.len() == 4096
    &&& s.pcc >= PROGRAM_START
    &&& s.pcd >= DATA_SECTION
    &&& s.regs[15] == Slot::Var("overflow"@)
    &&& forall|k: int| 0 <= k < s.loop_regs.len() ==> #[trigger] s.loop_regs[k] != 15
}

/// What every public operation keeps from state `a` to state `b`: a valid
/// state stays valid, and neither the code address nor the data address
/// goes down.
pub open spec fn keeps(a: StateView, b: StateView) -> bool {
    &&& valid(a) ==> valid(b)
    &&& a.pcc <= b.pcc
    &&& a.pcd <= b.pcd
}

/// The state with byte `b` appended to the code, if the code has not reached
/// the data section.
pub open spec fn with_byte(s: StateView, b: u8) -> Option<StateView> {
    if s.pcc < DATA_SECTION {
        Some(StateView { program: s.program.update(s.pcc as int, b), pcc: (s.pcc + 1) as u16, ..s })
    } else {
        None
    }
}

/// The state with the two bytes of an instruction appended to the code.
pub open spec fn with_pair(s: StateView, b0: u8, b1: u8) -> Option<StateView> {
    match with_byte(s, b0) {
        Some(s1) => with_byte(s1, b1),
        None => None,
    }
}

/// Appends an instruction to `o`, if `o` is a state.
pub open spec fn then_pair(o: Option<StateView>, b0: u8, b1: u8) -> Option<StateView> {
    match o {
        Some(s) => with_pair(s, b0, b1),
        None => None,
    }
}

/// A byte made of two nibbles, `hi` in the upper four bits.
pub open spec fn nib2(hi: u8, lo: u8) -> u8 {
    ((hi << 4u8) | lo) as u8
}

/// Whether register `k` is the lowest free one.
pub open spec fn is_first_free(regs: Seq<Slot>, k: int) -> bool {
    &&& 0 <= k < regs.len()
    &&& regs[k] is Free
    &&& forall|j: int| 0 <= j < k ==> !(#[trigger] regs[j] is Free)
}

/// The lowest free register.
pub open spec fn first_free(regs: Seq<Slot>) -> Option<int> {
    if exists|k: int| is_first_free(regs, k) {
        Some(choose|k: int| is_first_free(regs, k))
    } else {
        None
    }
}

/// Whether register `k` holds the variable `name`.
pub open spec fn holds_name(regs: Seq<Slot>, k: int, name: Seq<char>) -> bool {
    regs[k] == Slot::Var(name)
}

/// Whether register `k` is the lowest that holds the variable `name`.
pub open spec fn is_first_named(regs: Seq<Slot>, k: int, name: Seq<char>) -> bool {
    &&& 0 <= k < regs.len()
    &&& holds_name(regs, k, name)
    &&& forall|j: int| 0 <= j < k ==> !#[trigger] holds_name(regs, j, name)
}

/// The register that holds the variable `name`.
pub open spec fn named_register(regs: Seq<Slot>, name: Seq<char>) -> Option<int> {
    if exists|k: int| is_first_named(regs, k, name) {
        Some(choose|k: int| is_first_named(regs, k, name))
    } else {
        None
    }
}

/// Whether a register may be given `a`: a variable needs a name that is not
/// empty, and a register cannot be given back as free this way.
pub open spec fn assignable(a: Slot) -> bool {
    match a {
        Slot::Free => false,
        Slot::Temp => true,
        Slot::Var(n) => n.len() > 0,
    }
}

/// The state with the lowest free register given `a`, and that register.
pub open spec fn with_register(s: StateView, a: Slot) -> Option<(StateView, u8)> {
    match first_free(s.regs) {
        Some(k) => if assignable(a) {
            Some((StateView { regs: s.regs.update(k, a), ..s }, k as u8))
        } else {
            None
        },
        None => None,
    }
}

/// The state with register `v` freed.
pub open spec fn with_freed(s: StateView, v: u8) -> Option<StateView> {
    if v < 16 {
        Some(StateView { regs: s.regs.update(v as int, Slot::Free), ..s })
    } else {
        None
    }
}

/// Frees register `v`, if `o` is a state.
pub open spec fn then_freed(o: Option<StateView>, v: u8) -> Option<StateView> {
    match o {
        Some(s) => with_freed(s, v),
        None => None,
    }
}

/// The number of free registers.
pub open spec fn free_count(regs: Seq<Slot>) -> nat {
    regs.filter(|a: Slot| a is Free).len()
}

/// The register that holds `name`, as a byte.
pub open spec fn lookup(s: StateView, name: Seq<char>) -> Option<u8> {
    match named_register(s.regs, name) {
        Some(k) => Some(k as u8),
        None => None,
    }
}

/// The high byte of a word.
pub open spec fn hi8(w: u16) -> u8 {
    (w / 256) as u8
}

/// The low byte of a word.
pub open spec fn lo8(w: u16) -> u8 {
    (w % 256) as u8
}

/// The state with the variable or register number `x` tested, skipping the
/// next instruction when it equals `cond` (3XNN) or, with no `cond`, when it
/// is not zero (4X00).
pub open spec fn with_test(s: StateView, cond: Option<u8>, x: u8) -> Option<StateView> {
    match cond {
        Some(nn) => with_pair(s, nib2(3, x), nn),
        None => with_pair(s, nib2(4, x), 0),
    }
}

/// The state with an `if` block opened: two bytes of code reserved for the
/// jump past the block, to be patched when the block ends.
pub open spec fn open_if(s: StateView) -> Option<StateView> {
    if s.pcc + 2 <= u16::MAX {
        Some(
            StateView {
                sections: s.sections.push(Section::If(s.pcc)),
                pcc: (s.pcc + 2) as u16,
                ..s
            },
        )
    } else {
        None
    }
}

/// `if_start` once the tested register `x` is known.
pub open spec fn if_at(s: StateView, cond: Option<u8>, x: u8) -> Option<StateView> {
    match with_test(s, cond, x) {
        Some(s1) => open_if(s1),
        None => None,
    }
}

/// The state with the innermost open block, which must be an `if`, closed:
/// its reserved bytes become a jump (1NNN) to the current code address.
pub open spec fn if_closed(s: StateView) -> Option<StateView> {
    if s.sections.len() == 0 {
        None
    } else {
        match s.sections.last() {
            Section::If(a) => if a + 1 < 4096 {
                Some(
                    StateView {
                        program: s.program.update(a as int, nib2(1, hi8(s.pcc))).update(
                            a + 1,
                            lo8(s.pcc),
                        ),
                        sections: s.sections.drop_last(),
                        ..s
                    },
                )
            } else {
                None
            },
            Section::Loop(..) => None,
        }
    }
}

/// The state with a counted loop opened: a register given `a` and set to
/// zero (6X00), pushed as the loop counter, and the loop start recorded
/// with its trip count.
pub open spec fn loop_opened(s: StateView, count: Valued, a: Slot) -> Option<StateView> {
    match with_register(s, a) {
        Some((s1, x)) => match with_pair(s1, nib2(6, x), 0) {
            Some(s2) => Some(
                StateView {
                    loop_regs: s2.loop_regs.push(x),
                    sections: s2.sections.push(Section::Loop(s2.pcc, count)),
                    ..s2
                },
            ),
            None => None,
        },
        None => None,
    }
}

/// The state with the innermost open block, which must be a counted loop,
/// closed: its counter is incremented (7X01), compared with the trip count
/// (3XNN for a literal, 5XY0 for a variable), a jump back to the loop start
/// follows (1NNN), and the counter register is freed.
pub open spec fn loop_closed(s: StateView) -> Option<StateView> {
    if s.sections.len() == 0 || s.loop_regs.len() == 0 {
        None
    } else {
        match s.sections.last() {
            Section::Loop(start, count) => {
                let lr = s.loop_regs.last();
                let s1 = StateView {
                    sections: s.sections.drop_last(),
                    loop_regs: s.loop_regs.drop_last(),
                    ..s
                };
                let s2 = with_pair(s1, nib2(7, lr), 1);
                let s3 = match count {
                    Valued::Literal(nn) => then_pair(s2, nib2(3, lr), nn),
                    Valued::Symbol(name) => match lookup(s1, name@) {
                        Some(y) => then_pair(s2, nib2(5, lr), nib2(y, 0)),
                        None => None,
                    },
                    _ => None,
                };
                then_freed(then_pair(s3, nib2(1, hi8(start)), lo8(start)), lr)
            },
            Section::If(..) => None,
        }
    }
}

/// The state with the innermost open block, which must be a loop, closed as
/// a `while` loop: with a variable condition, the next instruction is skipped
/// when it is not zero (4X00); then a jump back to the loop start (1NNN).
pub open spec fn while_closed(s: StateView, condition: Valued) -> Option<StateView> {
    if s.sections.len() == 0 || s.loop_regs.len() == 0 {
        None
    } else {
        match s.sections.last() {
            Section::Loop(start, _) => {
                let s1 = StateView {
                    sections: s.sections.drop_last(),
                    loop_regs: s.loop_regs.drop_last(),
                    ..s
                };
                let s2 = match condition {
                    Valued::Symbol(name) => match lookup(s1, name@) {
                        Some(x) => with_pair(s1, nib2(4, x), 0),
                        None => None,
                    },
                    _ => Some(s1),
                };
                then_pair(s2, nib2(1, hi8(start)), lo8(start))
            },
            Section::If(..) => None,
        }
    }
}

/// The memory `p` with `bytes` written from address `at`.
pub open spec fn splice(p: Seq<u8>, at: int, bytes: Seq<u8>) -> Seq<u8> {
    Seq::new(p.len(), |a: int| if at <= a < at + bytes.len() { bytes[a - at] } else { p[a] })
}

/// The state with `bytes` placed in the data section under `name`.
pub open spec fn with_data(s: StateView, name: Seq<char>, bytes: Seq<u8>) -> Option<StateView> {
    if s.pcd + bytes.len() <= 4096 {
        Some(
            StateView {
                datas: s.datas.insert(name, (s.pcd, bytes.len() as u16)),
                program: splice(s.program, s.pcd as int, bytes),
                pcd: (s.pcd + bytes.len()) as u16,
                ..s
            },
        )
    } else {
        None
    }
}

/// The state with the instruction `b0 b1` emitted `k` times.
pub open spec fn repeated(s: StateView, b0: u8, b1: u8, k: nat) -> Option<StateView>
    decreases k,
{
    if k == 0 {
        Some(s)
    } else {
        then_pair(repeated(s, b0, b1, (k - 1) as nat), b0, b1)
    }
}

/// The code that multiplies register `v` by the literal `by`, accumulating
/// in `vd`, for the `k` lowest bits of `by`: for each bit, VD += V (8DV4)
/// when the bit is set, then V is doubled (8V0E).
pub open spec fn mul_by_literal(s: StateView, v: u8, vd: u8, by: u8, k: nat) -> Option<StateView>
    decreases k,
{
    if k == 0 {
        Some(s)
    } else {
        let s1 = mul_by_literal(s, v, vd, by, (k - 1) as nat);
        let s2 = if by & (1u8 << ((k - 1) as u8)) != 0 {
            then_pair(s1, nib2(8, vd), nib2(v, 4))
        } else {
            s1
        };
        then_pair(s2, nib2(8, v), nib2(0, 0xE))
    }
}

/// The code that multiplies register `v` by the variable `name`,
/// accumulating in `vd`: a loop over the eight bits of the variable, with a
/// shifting one-bit mask and a test register, adding V to VD for each set
/// bit and doubling V.
pub open spec fn mul_by_variable(s: StateView, v: u8, vd: u8, name: Seq<char>) -> Option<StateView> {
    match lookup(s, name) {
        Some(vb) => match with_register(s, Slot::Temp) {
            Some((s1, vs)) => match with_register(s1, Slot::Temp) {
                Some((s2, vt)) => {
                    let s3 = with_pair(s2, nib2(6, vs), 1);
                    let s4 = match s3 {
                        Some(x) => loop_opened(x, Valued::Literal(8), Slot::Temp),
                        None => None,
                    };
                    let s5 = then_pair(s4, nib2(8, vt), nib2(vb, 0));
                    let s6 = then_pair(s5, nib2(8, vt), nib2(vs, 2));
                    let s7 = match s6 {
                        Some(x) => if_at(x, None, vt),
                        None => None,
                    };
                    let s8 = then_pair(s7, nib2(8, vd), nib2(v, 4));
                    let s9 = match s8 {
                        Some(x) => if_closed(x),
                        None => None,
                    };
                    let s10 = then_pair(s9, nib2(8, vs), nib2(0, 0xE));
                    let s11 = then_pair(s10, nib2(8, v), nib2(0, 0xE));
                    let s12 = match s11 {
                        Some(x) => loop_closed(x),
                        None => None,
                    };
                    then_freed(then_freed(s12, vs), vt)
                },
                None => None,
            },
            None => None,
        },
        None => None,
    }
}

/// The code for `V *= operand`: a temporary accumulator cleared (6D00),
/// the multiplication, the result moved back (8VD0), the accumulator freed.
pub open spec fn multiplied(s: StateView, v: u8, operand: Valued) -> Option<StateView> {
    match with_register(s, Slot::Temp) {
        Some((s1, vd)) => match with_pair(s1, nib2(6, vd), 0) {
            Some(s2) => {
                let s3 = match operand {
                    Valued::Symbol(n) => mul_by_variable(s2, v, vd, n@),
                    Valued::Literal(by) => mul_by_literal(s2, v, vd, by, bit_length(by)),
                    _ => None,
                };
                then_freed(then_pair(s3, nib2(8, v), nib2(vd, 0)), vd)
            },
            None => None,
        },
        None => None,
    }
}

/// The code for `V = V operator operand`.
pub open spec fn operated(s: StateView, v: u8, operand: Valued, operator: Ops) -> Option<StateView> {
    match operator {
        Ops::Add => match operand {
            Valued::Literal(ov) => with_pair(s, nib2(7, v), ov),
            Valued::Symbol(n) => match lookup(s, n@) {
                Some(y) => with_pair(s, nib2(8, v), nib2(y, 4)),
                None => None,
            },
            Valued::Register(y) => with_pair(s, nib2(8, v), nib2(y, 4)),
            _ => None,
        },
        Ops::Subtract => match operand {
            Valued::Symbol(n) => match lookup(s, n@) {
                Some(y) => with_pair(s, nib2(8, v), nib2(y, 5)),
                None => None,
            },
            _ => None,
        },
        Ops::Multiply => multiplied(s, v, operand),
        Ops::Shl => match operand {
            Valued::Literal(k) => if k <= 7 {
                repeated(s, nib2(8, v), nib2(0, 0xE), k as nat)
            } else {
                None
            },
            _ => None,
        },
        Ops::BitAnd => match operand {
            Valued::Symbol(n) => match lookup(s, n@) {
                Some(y) => with_pair(s, nib2(8, v), nib2(y, 2)),
                None => None,
            },
            _ => None,
        },
        _ => None,
    }
}

/// The code for the operations of an expression, applied in order to `v`.
pub open spec fn operated_all(s: StateView, v: u8, e: Seq<(Valued, Ops)>) -> Option<StateView>
    decreases e.len(),
{
    if e.len() == 0 {
        Some(s)
    } else {
        match operated_all(s, v, e.drop_last()) {
            Some(s1) => operated(s1, v, e.last().0, e.last().1),
            None => None,
        }
    }
}

/// The state after `if_start`: the tested register is the variable's, the
/// given register, or a temporary that the expression is computed into and
/// that is freed after the test.
pub open spec fn if_opened(s: StateView, cond: Option<u8>, variable: Valued) -> Option<StateView> {
    match variable {
        Valued::Symbol(n) => match lookup(s, n@) {
            Some(x) => if_at(s, cond, x),
            None => None,
        },
        Valued::Register(x) => if_at(s, cond, x),
        Valued::Expression(e) => match with_register(s, Slot::Temp) {
            Some((s1, d)) => match operated_all(s1, d, e@) {
                Some(s2) => match with_test(s2, cond, d) {
                    Some(s3) => match with_freed(s3, d) {
                        Some(s4) => open_if(s4),
                        None => None,
                    },
                    None => None,
                },
                None => None,
            },
            None => None,
        },
        _ => None,
    }
}

/// The state after `assign`: the target is the variable's register (given
/// one if it has none) or the given register; a literal is loaded (6XNN),
/// a variable or register copied (8XY0), an expression applied in place.
pub open spec fn assigned(s: StateView, variable: Valued, value: Valued) -> Option<StateView> {
    let target = match variable {
        Valued::Symbol(n) => match lookup(s, n@) {
            Some(x) => Some((s, x)),
            None => with_register(s, Slot::Var(n@)),
        },
        Valued::Register(x) => Some((s, x)),
        _ => None,
    };
    match target {
        Some((s1, x)) => match value {
            Valued::Literal(nn) => with_pair(s1, nib2(6, x), nn),
            Valued::Symbol(n) => match lookup(s1, n@) {
                Some(y) => with_pair(s1, nib2(8, x), nib2(y, 0)),
                None => None,
            },
            Valued::Register(y) => with_pair(s1, nib2(8, x), nib2(y, 0)),
            Valued::Expression(e) => operated_all(s1, x, e@),
            Valued::Data(_) => None,
        },
        None => None,
    }
}

/// A byte with its bits in reverse order.
pub open spec fn mirror(b: u8) -> u8 {
    ((b & 1) << 7u8) | ((b & 2) << 5u8) | ((b & 4) << 3u8) | ((b & 8) << 1u8) | ((b & 16) >> 1u8)
        | ((b & 32) >> 3u8) | ((b & 64) >> 5u8) | ((b & 128) >> 7u8)
}

/// The `len` bytes of `program` from `at`, in reverse order if `fy`, each
/// mirrored if `fx`.
pub open spec fn flipped(program: Seq<u8>, at: int, len: int, fx: bool, fy: bool) -> Seq<u8> {
    Seq::new(
        len as nat,
        |k: int|
            {
                let b = if fy { program[at + len - 1 - k] } else { program[at + k] };
                if fx { mirror(b) } else { b }
            },
    )
}

/// The state after `data_flipped`: the block `data` copied, flipped, into
/// the data section under `name`.
pub open spec fn data_copied(s: StateView, name: Seq<char>, data: Valued, fx: bool, fy: bool) -> Option<StateView> {
    match data {
        Valued::Data(src) => if s.datas.contains_key(src@) {
            let (at, len) = s.datas[src@];
            if len == 0 || at + len <= 4096 {
                with_data(s, name, flipped(s.program, at as int, len as int, fx, fy))
            } else {
                None
            }
        } else {
            None
        },
        _ => None,
    }
}

/// A coordinate of `draw` in a register: a literal is loaded into a new
/// temporary register (6XNN), a variable is used where it is.
pub open spec fn coordinate(s: StateView, val: Valued) -> Option<(StateView, u8)> {
    match val {
        Valued::Literal(nn) => match with_register(s, Slot::Temp) {
            Some((s1, r)) => match with_pair(s1, nib2(6, r), nn) {
                Some(s2) => Some((s2, r)),
                None => None,
            },
            None => None,
        },
        Valued::Symbol(n) => match lookup(s, n@) {
            Some(r) => Some((s, r)),
            None => None,
        },
        _ => None,
    }
}

/// The index register pointed at the sprite to draw: a font character
/// through a temporary register (6XNN, FX29), or a data block (ANNN).
pub open spec fn sprite_source(s: StateView, data: Valued) -> Option<StateView> {
    match data {
        Valued::Literal(c) => match with_register(s, Slot::Temp) {
            Some((s1, t)) => then_freed(then_pair(with_pair(s1, nib2(6, t), c), nib2(0xF, t), 0x29), t),
            None => None,
        },
        Valued::Data(n) => if s.datas.contains_key(n@) {
            with_pair(s, nib2(0xA, hi8(s.datas[n@].0)), lo8(s.datas[n@].0))
        } else {
            None
        },
        _ => None,
    }
}

/// The state after `draw`: coordinates, sprite address, the draw itself
/// (DXYN), and the temporaries of literal coordinates freed.
pub open spec fn drawn(s: StateView, data: Valued, xval: Valued, yval: Valued, rows: Valued) -> Option<StateView> {
    match coordinate(s, xval) {
        Some((s1, x)) => match coordinate(s1, yval) {
            Some((s2, y)) => match rows {
                Valued::Literal(n) => {
                    let s4 = then_pair(sprite_source(s2, data), nib2(0xD, x), nib2(y, n));
                    let s5 = if xval is Literal { then_freed(s4, x) } else { s4 };
                    if yval is Literal { then_freed(s5, y) } else { s5 }
                },
                _ => None,
            },
            None => None,
        },
        None => None,
    }
}

/// Whether `draw` asks for more rows than the data block holds.
pub open spec fn too_many_rows(s: StateView, data: Valued, rows: Valued) -> bool {
    &&& data matches Valued::Data(n)
    &&& rows matches Valued::Literal(r)
    &&& s.datas.contains_key(n@)
    &&& r > s.datas[n@].1
}

proof fn lemma_mirror_bits(r: u8, b: u8)
    by (bit_vector)
    requires
        ((r >> 7u8) & 1 == 1) == ((b >> 0u8) & 1 == 1),
        ((r >> 6u8) & 1 == 1) == ((b >> 1u8) & 1 == 1),
        ((r >> 5u8) & 1 == 1) == ((b >> 2u8) & 1 == 1),
        ((r >> 4u8) & 1 == 1) == ((b >> 3u8) & 1 == 1),
        ((r >> 3u8) & 1 == 1) == ((b >> 4u8) & 1 == 1),
        ((r >> 2u8) & 1 == 1) == ((b >> 5u8) & 1 == 1),
        ((r >> 1u8) & 1 == 1) == ((b >> 6u8) & 1 == 1),
        ((r >> 0u8) & 1 == 1) == ((b >> 7u8) & 1 == 1),
    ensures
        r == mirror(b),
{
}

proof fn lemma_repeated_prefix(s: StateView, b0: u8, b1: u8, j: nat, k: nat)
    requires
        j <= k,
        repeated(s, b0, b1, k) is Some,
    ensures
        repeated(s, b0, b1, j) is Some,
    decreases k,
{
    if j < k {
        lemma_repeated_prefix(s, b0, b1, j, (k - 1) as nat);
    }
}

proof fn lemma_mul_by_literal_prefix(s: StateView, v: u8, vd: u8, by: u8, j: nat, k: nat)
    requires
        j <= k,
        mul_by_literal(s, v, vd, by, k) is Some,
    ensures
        mul_by_literal(s, v, vd, by, j) is Some,
    decreases k,
{
    if j < k {
        lemma_mul_by_literal_prefix(s, v, vd, by, j, (k - 1) as nat);
    }
}

proof fn lemma_operated_all_prefix(s: StateView, v: u8, e: Seq<(Valued, Ops)>, j: int)
    requires
        0 <= j <= e.len(),
        operated_all(s, v, e) is Some,
    ensures
        operated_all(s, v, e.take(j)) is Some,
    decreases e.len(),
{
    if j < e.len() {
        assert(e.drop_last().take(j) =~= e.take(j));
        lemma_operated_all_prefix(s, v, e.drop_last(), j);
    } else {
        assert(e.take(j) =~= e);
    }
}

/// The lowest free register is the one `first_free` gives.
pub proof fn lemma_first_free_unique(regs: Seq<Slot>, k: int)
    requires
        is_first_free(regs, k),
    ensures
        first_free(regs) == Some(k),
{
    let c = choose|c: int| is_first_free(regs, c);
    assert(is_first_free(regs, c));
    if c < k {
        assert(!(regs[c] is Free));
    } else if c > k {
        assert(!(regs[k] is Free));
    }
}

/// The lowest register that holds `name` is the one `named_register` gives.
pub proof fn lemma_first_named_unique(regs: Seq<Slot>, k: int, name: Seq<char>)
    requires
        is_first_named(regs, k, name),
    ensures
        named_register(regs, name) == Some(k),
{
    let c = choose|c: int| is_first_named(regs, c, name);
    assert(is_first_named(regs, c, name));
    if c < k {
        assert(!holds_name(regs, c, name));
    } else if c > k {
        assert(!holds_name(regs, k, name));
    }
}

impl State {
    /// A fresh assembler: every register free but VF, which holds the
    /// variable `overflow`; no data blocks; zeroed memory; code at
    /// `PROGRAM_START`, data at `DATA_SECTION`; no open blocks.
    pub fn new() -> (s: Self)
        ensures
            forall|k: int| 0 <= k < 15 ==> s@.regs[k] is Free,
            s@.regs.len() == 16,
            holds_name(s@.regs, 15, "overflow"@),
            valid(s@),
            s@.datas == Map::<Seq<char>, (u16, u16)>::empty(),
            s@.program == Seq::new(4096, |a: int| 0u8),
            s@.pcc == PROGRAM_START,
            s@.pcd == DATA_SECTION,
            s@.sections == Seq::<Section>::empty(),
            s@.loop_regs == Seq::<u8>::empty(),
    {
        let s = Self {
            assignments: [
                Assignment::Unassigned,
                Assignment::Unassigned,
                Assignment::Unassigned,
                Assignment::Unassigned,
                Assignment::Unassigned,
                Assignment::Unassigned,
                Assignment::Unassigned,
                Assignment::Unassigned,
                Assignment::Unassigned,
                Assignment::Unassigned,
                Assignment::Unassigned,
                Assignment::Unassigned,
                Assignment::Unassigned,
                Assignment::Unassigned,
                Assignment::Unassigned,
                Assignment::Nonymous("overflow".to_owned()),
            ],
            datas: DataTable::new(),
            program: [0; 4096],
            pcc: PROGRAM_START,
            pcd: DATA_SECTION,
            send_forward: Vec::new(),
            non_user_stack: Vec::new(),
        };
        assert(s@.program =~= Seq::new(4096, |a: int| 0u8));
        s
    }

    /// Appends byte `b` to the code.
    fn byte_push(&mut self, b: u8)
        requires
            with_byte(old(self)@, b) is Some,
        ensures
            keeps(old(self)@, final(self)@),
            final(self)@ == with_byte(old(self)@, b).unwrap(),
    {
        let p = self.pcc;
        self.program[p as usize] = b;
        self.pcc = p + 1;
        assert(self@ =~= with_byte(old(self)@, b).unwrap());
    }

    /// Gives `a` the lowest free register and returns that register.
    fn find_register(&mut self, a: Assignment) -> (r: u8)
        requires
            with_register(old(self)@, a@) is Some,
        ensures
            valid(old(self)@) ==> r != 15,
            keeps(old(self)@, final(self)@),
            (final(self)@, r) == with_register(old(self)@, a@).unwrap(),
    {
        let mut v: u8 = 0;
        while v < 16
            invariant
                v <= 16,
                self@ == old(self)@,
                forall|j: int| 0 <= j < v ==> !(#[trigger] self@.regs[j] is Free),
            ensures
                v < 16 ==> is_first_free(self@.regs, v as int),
                v == 16 ==> forall|j: int| 0 <= j < 16 ==> !(#[trigger] self@.regs[j] is Free),
                self@ == old(self)@,
            decreases 16 - v,
        {
            if matches!(self.assignments[v as usize], Assignment::Unassigned) {
                break;
            }
            v += 1;
        }
        if v < 16 {
            proof {
                lemma_first_free_unique(self@.regs, v as int);
            }
            self.assignments[v as usize] = a;
            assert(self@.regs =~= with_register(old(self)@, a@).unwrap().0.regs);
            v
        } else {
            assert(first_free(self@.regs) is None);
            0
        }
    }

    /// Frees register `v`.
    fn dissasign(&mut self, v: u8)
        requires
            with_freed(old(self)@, v) is Some,
        ensures
            v != 15 ==> keeps(old(self)@, final(self)@),
            final(self)@ == with_freed(old(self)@, v).unwrap(),
    {
        self.assignments[v as usize] = Assignment::Unassigned;
        assert(self@.regs =~= with_freed(old(self)@, v).unwrap().regs);
    }

    /// The register that holds the variable `name`, if one does.
    pub fn try_get(&self, name: &str) -> (r: Option<u8>)
        ensures
            r == lookup(self@, name@),
    {
        let key = name.to_owned();
        let mut i: u8 = 0;
        while i < 16
            invariant
                i <= 16,
                key@ == name@,
                self@.regs.len() == 16,
                forall|j: int| 0 <= j < i ==> !#[trigger] holds_name(self@.regs, j, name@),
            decreases 16 - i,
        {
            match &self.assignments[i as usize] {
                Assignment::Nonymous(n) => {
                    if *n == key {
                        proof {
                            lemma_first_named_unique(self@.regs, i as int, name@);
                        }
                        return Some(i);
                    }
                },
                _ => {},
            }
            i += 1;
        }
        None
    }

    /// The register that holds the variable `name`.
    pub fn get(&self, name: &str) -> (r: u8)
        requires
            lookup(self@, name@) is Some,
        ensures
            Some(r) == lookup(self@, name@),
    {
        match self.try_get(name) {
            Some(i) => i,
            None => 0,
        }
    }

    /// A variable name is good when it is not empty.
    pub fn is_a_good_name(name: &str) -> (r: Result<(), ()>)
        ensures
            r is Ok <==> name@.len() > 0,
    {
        if name.is_empty() {
            return Err(());
        }
        Ok(())
    }

    /// Every state has sixteen registers and 4096 bytes of memory.
    pub proof fn lemma_shape(&self)
        ensures
            self@.regs.len() == 16,
            self@.program.len() == 4096,
    {
    }

    /// The address where the next instruction goes.
    pub fn code_address(&self) -> (r: u16)
        ensures
            r == self@.pcc,
    {
        self.pcc
    }

    /// The address where the next data block goes.
    pub fn data_address(&self) -> (r: u16)
        ensures
            r == self@.pcd,
    {
        self.pcd
    }

    /// The address and length of the data block `name`.
    pub fn data_entry(&self, name: &str) -> (r: Option<(u16, u16)>)
        ensures
            r == (if self@.datas.contains_key(name@) { Some(self@.datas[name@]) } else { None::<(u16, u16)> }),
    {
        self.datas.get(name)
    }

    /// Whether some register is free.
    pub fn has_free_register(&self) -> (r: bool)
        ensures
            r == (first_free(self@.regs) is Some),
    {
        let mut v: usize = 0;
        while v < 16
            invariant
                v <= 16,
                self@.regs.len() == 16,
                forall|j: int| 0 <= j < v ==> !(#[trigger] self@.regs[j] is Free),
            decreases 16 - v,
        {
            if matches!(self.assignments[v], Assignment::Unassigned) {
                proof {
                    lemma_first_free_unique(self@.regs, v as int);
                }
                return true;
            }
            v += 1;
        }
        false
    }

    /// The number of free registers.
    pub fn free_registers(&self) -> (r: u8)
        ensures
            r == free_count(self@.regs),
    {
        let mut c: u8 = 0;
        let mut v: usize = 0;
        assert(self@.regs.take(0) =~= Seq::<Slot>::empty());
        proof {
            reveal_with_fuel(Seq::<_>::filter, 1);
        }
        while v < 16
            invariant
                v <= 16,
                c <= v,
                self@.regs.len() == 16,
                c == self@.regs.take(v as int).filter(|a: Slot| a is Free).len(),
            decreases 16 - v,
        {
            proof {
                reveal_with_fuel(Seq::<_>::filter, 1);
                assert(self@.regs.take(v + 1).drop_last() =~= self@.regs.take(v as int));
            }
            if matches!(self.assignments[v], Assignment::Unassigned) {
                c += 1;
            }
            v += 1;
        }
        assert(self@.regs.take(16) =~= self@.regs);
        c
    }

    /// The big-endian instruction words of program memory from `start` to `end`.
    pub fn program_words(&self, start: u16, end: u16) -> (words: Vec<u16>)
        requires
            start < end <= 4096,
        ensures
            words@.len() == (end - start) / 2,
            forall|k: int|
                0 <= k < words@.len() ==> #[trigger] words@[k] == be_word(
                    self@.program[start + 2 * k],
                    self@.program[start + 2 * k + 1],
                ),
    {
        words_be(self.program.as_slice(), start as usize, end as usize)
    }

    /// Copies the program area, from `PROGRAM_START` to the end of memory, into
    /// a machine's memory.
    pub fn copy_program_to_memory(&self, chunk: &mut [u8; 0x1000])
        ensures
            final(chunk)@ == old(chunk)@.subrange(0, 0x200) + self@.program.subrange(0x200, 0x1000),
    {
        let mut a: usize = 0x200;
        while a < 0x1000
            invariant
                0x200 <= a <= 0x1000,
                chunk@.len() == 0x1000,
                forall|j: int| 0 <= j < 0x1000 ==> #[trigger] chunk@[j] == if 0x200 <= j < a {
                    self@.program[j]
                } else {
                    old(chunk)@[j]
                },
            decreases 0x1000 - a,
        {
            chunk[a] = self.program[a];
            a += 1;
        }
        assert(chunk@ =~= old(chunk)@.subrange(0, 0x200) + self@.program.subrange(0x200, 0x1000));
    }
}


/// A byte made of two nibbles, `hi` in the upper four bits.
pub fn nibbles(hi: u8, lo: u8) -> (r: u8)
    ensures
        r == nib2(hi, lo),
{
    (hi << 4) | lo
}

/// Emits the instruction made of bytes `b0` and `b1`.
fn instruction(state: &mut State, b0: u8, b1: u8)
    requires
        with_pair(old(state)@, b0, b1) is Some,
    ensures
        keeps(old(state)@, final(state)@),
        final(state)@ == with_pair(old(state)@, b0, b1).unwrap(),
{
    state.byte_push(b0);
    state.byte_push(b1);
}

/// Reserves two bytes of code, left as they are.
pub fn gap(state: &mut State)
    requires
        old(state)@.pcc + 2 <= u16::MAX,
    ensures
        keeps(old(state)@, final(state)@),
        final(state)@ == (StateView { pcc: (old(state)@.pcc + 2) as u16, ..old(state)@ }),
{
    state.pcc += 2;
}

/// Emits the instruction word `instruction`, high byte first.
pub fn place(state: &mut State, instruction: u16)
    requires
        with_pair(old(state)@, hi8(instruction), lo8(instruction)) is Some,
    ensures
        keeps(old(state)@, final(state)@),
        final(state)@ == with_pair(old(state)@, hi8(instruction), lo8(instruction)).unwrap(),
{
    let hi = (instruction / 256) as u8;
    let lo = (instruction % 256) as u8;
    state.byte_push(hi);
    state.byte_push(lo);
}

/// Emits 7X01: adds one to the variable `name`.
pub fn increment(state: &mut State, name: &str)
    requires
        lookup(old(state)@, name@) is Some,
        with_pair(old(state)@, nib2(7, lookup(old(state)@, name@).unwrap()), 1) is Some,
    ensures
        keeps(old(state)@, final(state)@),
        final(state)@ == with_pair(old(state)@, nib2(7, lookup(old(state)@, name@).unwrap()), 1).unwrap(),
{
    let x = state.get(name);
    instruction(state, nibbles(0x7, x), 0x1);
}

/// Places `bytes` in the data section and records them under `name`.
pub fn data(state: &mut State, name: &str, bytes: &[u8])
    requires
        with_data(old(state)@, name@, bytes@) is Some,
    ensures
        keeps(old(state)@, final(state)@),
        final(state)@ == with_data(old(state)@, name@, bytes@).unwrap(),
{
    let len = bytes.len() as u16;
    state.datas.insert(name, state.pcd, len);
    let ghost p0 = state.program@;
    let ghost d0 = state.pcd;
    let mut k: usize = 0;
    while k < bytes.len()
        invariant
            k <= bytes@.len(),
            d0 + bytes@.len() <= 4096,
            state.pcd == d0 + k,
            state.program@.len() == 4096,
            forall|a: int| 0 <= a < 4096 ==> #[trigger] state.program@[a] == if d0 <= a < d0 + k {
                bytes@[a - d0]
            } else {
                p0[a]
            },
            state.datas@ == old(state)@.datas.insert(name@, (d0, len)),
            state.assignments == old(state).assignments,
            state.pcc == old(state).pcc,
            state.send_forward == old(state).send_forward,
            state.non_user_stack == old(state).non_user_stack,
            p0 == old(state)@.program,
            d0 == old(state)@.pcd,
            len == bytes@.len(),
        decreases bytes@.len() - k,
    {
        let pcd = state.pcd;
        state.program[pcd as usize] = bytes[k];
        state.pcd = pcd + 1;
        k += 1;
    }
    assert(state@.program =~= splice(p0, d0 as int, bytes@));
    assert(state@.regs =~= old(state)@.regs);
}

/// Opens an `if` block on register `x`: the block runs when `x` equals
/// `condition`, or, with no condition, when `x` is not zero.
fn if_start_at(state: &mut State, condition: Option<u8>, x: u8)
    requires
        if_at(old(state)@, condition, x) is Some,
    ensures
        keeps(old(state)@, final(state)@),
        final(state)@ == if_at(old(state)@, condition, x).unwrap(),
{
    match condition {
        Some(nn) => {
            instruction(state, nibbles(0x3, x), nn);
        },
        None => {
            instruction(state, nibbles(0x4, x), 0x00);
        },
    }
    let p = state.pcc;
    state.send_forward.push(Section::If(p));
    state.pcc = p + 2;
}

/// Closes the innermost open block, an `if`: its reserved bytes become a
/// jump to the code that follows the block.
pub fn if_end(state: &mut State)
    requires
        if_closed(old(state)@) is Some,
    ensures
        keeps(old(state)@, final(state)@),
        final(state)@ == if_closed(old(state)@).unwrap(),
{
    let s = state.send_forward.pop().unwrap();
    if let Section::If(copy_to_addr) = s {
        let copy_to_addr = copy_to_addr as usize;
        let pcc = state.pcc;
        state.program[copy_to_addr] = nibbles(0x1, (pcc / 256) as u8);
        state.program[copy_to_addr + 1] = (pcc % 256) as u8;
        assert(state@.program =~= if_closed(old(state)@).unwrap().program);
    }
}

/// Opens a counted loop that runs `count` times, its counter in a new
/// register: the variable `name`, or a temporary one.
pub fn loop_start(state: &mut State, count: Valued, name: Option<&str>)
    requires
        loop_opened(
            old(state)@,
            count,
            match name {
                Some(n) => Slot::Var(n@),
                None => Slot::Temp,
            },
        ) is Some,
    ensures
        keeps(old(state)@, final(state)@),
        final(state)@ == loop_opened(
            old(state)@,
            count,
            match name {
                Some(n) => Slot::Var(n@),
                None => Slot::Temp,
            },
        ).unwrap(),
{
    let x = match name {
        Some(name) => state.find_register(Assignment::Nonymous(name.to_owned())),
        None => state.find_register(Assignment::Anonymous),
    };
    instruction(state, nibbles(0x6, x), 0x0);
    state.non_user_stack.push(x);
    let p = state.pcc;
    state.send_forward.push(Section::Loop(p, count));
}

/// Closes the innermost open block, a counted loop.
pub fn loop_end(state: &mut State)
    requires
        loop_closed(old(state)@) is Some,
    ensures
        keeps(old(state)@, final(state)@),
        final(state)@ == loop_closed(old(state)@).unwrap(),
{
    let s = state.send_forward.pop().unwrap();
    if let Section::Loop(jump_back_addr, count) = s {
        let loop_reg = state.non_user_stack.pop().unwrap();
        instruction(state, nibbles(0x7, loop_reg), 1);
        match count {
            Valued::Literal(nn) => {
                instruction(state, nibbles(0x3, loop_reg), nn);
            },
            Valued::Symbol(ref name) => {
                let y = state.get(name);
                instruction(state, nibbles(0x5, loop_reg), nibbles(y, 0x0));
            },
            _ => {},
        }
        instruction(state, nibbles(0x1, (jump_back_addr / 256) as u8), (jump_back_addr % 256) as u8);
        state.dissasign(loop_reg);
    }
}

/// Opens a `while` loop: no counter register, and the loop start recorded.
pub fn while_loop_start(state: &mut State)
    ensures
        keeps(old(state)@, final(state)@),
        final(state)@ == (StateView {
            loop_regs: old(state)@.loop_regs.push(16),
            sections: old(state)@.sections.push(Section::Loop(old(state)@.pcc, Valued::Register(0))),
            ..old(state)@
        }),
{
    state.non_user_stack.push(16);
    let p = state.pcc;
    state.send_forward.push(Section::Loop(p, Valued::Register(0)));
}

/// Closes the innermost open block as a `while` loop: with a variable
/// `condition`, the jump back is skipped once the variable is not zero, so
/// the loop repeats while it is zero; otherwise the loop repeats for ever.
pub fn while_loop_end(state: &mut State, condition: Valued)
    requires
        while_closed(old(state)@, condition) is Some,
    ensures
        keeps(old(state)@, final(state)@),
        final(state)@ == while_closed(old(state)@, condition).unwrap(),
{
    state.non_user_stack.pop().unwrap();
    let s = state.send_forward.pop().unwrap();
    if let Section::Loop(loop_start, _) = s {
        if let Valued::Symbol(name) = condition {
            let x = state.get(&name);
            instruction(state, nibbles(0x4, x), 0x0);
        }
        instruction(state, nibbles(0x1, (loop_start / 256) as u8), (loop_start % 256) as u8);
    }
}


/// Emits the code for `V *= operand`.
fn multiply(state: &mut State, v_var: u8, operand: &Valued)
    requires
        multiplied(old(state)@, v_var, *operand) is Some,
    ensures
        keeps(old(state)@, final(state)@),
        final(state)@ == multiplied(old(state)@, v_var, *operand).unwrap(),
{
    let ghost s_in = state@;
    let v_dest = state.find_register(Assignment::Anonymous);
    instruction(state, nibbles(0x6, v_dest), 0x0);
    let ghost s2 = state@;
    match operand {
        Valued::Symbol(name) => {
            let v_by = state.get(name);
            let v_shift = state.find_register(Assignment::Anonymous);
            let v_test = state.find_register(Assignment::Anonymous);
            instruction(state, nibbles(0x6, v_shift), 0x1);
            loop_start(state, Valued::Literal(8), None);
            instruction(state, nibbles(0x8, v_test), nibbles(v_by, 0x0));
            instruction(state, nibbles(0x8, v_test), nibbles(v_shift, 0x2));
            if_start_at(state, None, v_test);
            instruction(state, nibbles(0x8, v_dest), nibbles(v_var, 0x4));
            if_end(state);
            instruction(state, nibbles(0x8, v_shift), nibbles(0, 0xE));
            instruction(state, nibbles(0x8, v_var), nibbles(0, 0xE));
            loop_end(state);
            state.dissasign(v_shift);
            state.dissasign(v_test);
        },
        Valued::Literal(by) => {
            let by = *by;
            let bits = num_bits(by);
            let mut i: u8 = 0;
            proof {
                lemma_mul_by_literal_prefix(s2, v_var, v_dest, by, 0, bit_length(by));
            }
            while i < bits
                invariant
                    i <= bits,
                    bits == bit_length(by),
                    bits <= 8,
                    mul_by_literal(s2, v_var, v_dest, by, bit_length(by)) is Some,
                    state@ == mul_by_literal(s2, v_var, v_dest, by, i as nat).unwrap(),
                    keeps(s_in, state@),
                    valid(s_in) ==> v_dest != 15,
                decreases bits - i,
            {
                proof {
                    lemma_mul_by_literal_prefix(s2, v_var, v_dest, by, (i + 1) as nat, bit_length(by));
                }
                if by & (1u8 << i) != 0 {
                    instruction(state, nibbles(0x8, v_dest), nibbles(v_var, 0x4));
                }
                instruction(state, nibbles(0x8, v_var), nibbles(0, 0xE));
                i += 1;
            }
        },
        _ => {},
    }
    instruction(state, nibbles(0x8, v_var), nibbles(v_dest, 0x0));
    state.dissasign(v_dest);
}

/// Emits the code for `V = V operator operand`.
fn operate(state: &mut State, v_var: u8, operand: &Valued, operator: &Ops)
    requires
        operated(old(state)@, v_var, *operand, *operator) is Some,
    ensures
        keeps(old(state)@, final(state)@),
        final(state)@ == operated(old(state)@, v_var, *operand, *operator).unwrap(),
{
    match operator {
        Ops::Add => {
            match operand {
                Valued::Literal(ovalue) => {
                    instruction(state, nibbles(0x7, v_var), *ovalue);
                },
                Valued::Symbol(oname) => {
                    let v_op = state.get(oname);
                    instruction(state, nibbles(0x8, v_var), nibbles(v_op, 0x4));
                },
                Valued::Register(v_op) => {
                    instruction(state, nibbles(0x8, v_var), nibbles(*v_op, 0x4));
                },
                _ => {},
            }
        },
        Ops::Subtract => {
            match operand {
                Valued::Symbol(oname) => {
                    let y = state.get(oname);
                    instruction(state, nibbles(0x8, v_var), nibbles(y, 0x5));
                },
                _ => {},
            }
        },
        Ops::Multiply => {
            multiply(state, v_var, operand);
        },
        Ops::Shl => {
            match operand {
                Valued::Literal(value) => {
                    let value = *value;
                    let ghost s0 = state@;
                    let mut i: u8 = 0;
                    while i < value
                        invariant
                            i <= value,
                            value <= 7,
                            repeated(s0, nib2(8, v_var), nib2(0, 0xE), value as nat) is Some,
                            state@ == repeated(s0, nib2(8, v_var), nib2(0, 0xE), i as nat).unwrap(),
                            keeps(s0, state@),
                        decreases value - i,
                    {
                        proof {
                            lemma_repeated_prefix(s0, nib2(8, v_var), nib2(0, 0xE), (i + 1) as nat, value as nat);
                        }
                        instruction(state, nibbles(0x8, v_var), nibbles(0, 0xE));
                        i += 1;
                    }
                },
                _ => {},
            }
        },
        Ops::BitAnd => {
            match operand {
                Valued::Symbol(name) => {
                    let y = state.get(name);
                    instruction(state, nibbles(0x8, v_var), nibbles(y, 0x2));
                },
                _ => {},
            }
        },
        _ => {},
    }
}

/// Emits the code for every operation of an expression, in order, on `v`.
fn operate_all(state: &mut State, v_var: u8, expr: &Vec<(Valued, Ops)>)
    requires
        operated_all(old(state)@, v_var, expr@) is Some,
    ensures
        keeps(old(state)@, final(state)@),
        final(state)@ == operated_all(old(state)@, v_var, expr@).unwrap(),
{
    let ghost s0 = state@;
    let mut k: usize = 0;
    assert(expr@.take(0) =~= Seq::<(Valued, Ops)>::empty());
    while k < expr.len()
        invariant
            k <= expr@.len(),
            operated_all(s0, v_var, expr@) is Some,
            state@ == operated_all(s0, v_var, expr@.take(k as int)).unwrap(),
            keeps(s0, state@),
        decreases expr@.len() - k,
    {
        proof {
            lemma_operated_all_prefix(s0, v_var, expr@, k + 1);
            assert(expr@.take(k + 1).drop_last() =~= expr@.take(k as int));
        }
        let (operand, operator) = &expr[k];
        operate(state, v_var, operand, operator);
        k += 1;
    }
    assert(expr@.take(k as int) =~= expr@);
}

/// Opens an `if` block that runs when `variable` equals `condition`, or,
/// with no condition, when it is not zero. An expression is computed into a
/// temporary register first.
pub fn if_start(state: &mut State, condition: Option<u8>, variable: Valued)
    requires
        if_opened(old(state)@, condition, variable) is Some,
    ensures
        keeps(old(state)@, final(state)@),
        final(state)@ == if_opened(old(state)@, condition, variable).unwrap(),
{
    match variable {
        Valued::Symbol(ref name) => {
            let x = state.get(name);
            if_start_at(state, condition, x);
        },
        Valued::Register(x) => {
            if_start_at(state, condition, x);
        },
        Valued::Expression(ref expr) => {
            let v_dest = state.find_register(Assignment::Anonymous);
            operate_all(state, v_dest, expr);
            match condition {
                Some(nn) => {
                    instruction(state, nibbles(0x3, v_dest), nn);
                },
                None => {
                    instruction(state, nibbles(0x4, v_dest), 0x00);
                },
            }
            state.dissasign(v_dest);
            let p = state.pcc;
            state.send_forward.push(Section::If(p));
            state.pcc = p + 2;
        },
        _ => {},
    }
}

/// Assigns `value` to `variable`: a variable with no register is given the
/// lowest free one.
pub fn assign(state: &mut State, variable: Valued, value: Valued)
    requires
        assigned(old(state)@, variable, value) is Some,
    ensures
        keeps(old(state)@, final(state)@),
        final(state)@ == assigned(old(state)@, variable, value).unwrap(),
{
    let x = match variable {
        Valued::Symbol(name) => {
            if let Some(x) = state.try_get(&name) {
                x
            } else {
                state.find_register(Assignment::Nonymous(name))
            }
        },
        Valued::Register(x) => x,
        _ => 0,
    };
    match value {
        Valued::Literal(nn) => {
            instruction(state, nibbles(0x6, x), nn);
        },
        Valued::Symbol(ref name) => {
            let y = state.get(name);
            instruction(state, nibbles(0x8, x), nibbles(y, 0x0));
        },
        Valued::Register(y) => {
            instruction(state, nibbles(0x8, x), nibbles(y, 0x0));
        },
        Valued::Data(_) => {},
        Valued::Expression(ref expression) => {
            operate_all(state, x, expression);
        },
    }
}


/// Reverses the order of the bits of a byte.
pub fn reverse_bits(b: u8) -> (r: u8)
    ensures
        r == mirror(b),
        forall|k: u8| k < 8 ==> byte_bit(r, k) == byte_bit(b, (7 - k) as u8),
{
    let mut r: u8 = 0;
    let mut k: u8 = 0;
    assert forall|j: u8| j < 8 implies !byte_bit(0u8, j) by {
        let js = (7 - j) as u8;
        assert((0u8 >> js) & 1 == 0) by (bit_vector);
    }
    while k < 8
        invariant
            k <= 8,
            forall|j: u8| j < k ==> byte_bit(r, j) == byte_bit(b, (7 - j) as u8),
            forall|j: u8| k <= j < 8 ==> !byte_bit(r, j),
        decreases 8 - k,
    {
        let old_r = r;
        set_bit_8(&mut r, k, check_bit_8(b, 7 - k));
        proof {
            assert forall|j: u8| j < 8 && j != k implies byte_bit(r, j) == byte_bit(old_r, j) by {
                lemma_set_then_check_8(old_r, k, j, byte_bit(b, (7 - k) as u8));
            }
            lemma_set_then_check_8(old_r, k, k, byte_bit(b, (7 - k) as u8));
        }
        k += 1;
    }
    proof {
        assert(byte_bit(r, 0) == byte_bit(b, 7));
        assert(byte_bit(r, 1) == byte_bit(b, 6));
        assert(byte_bit(r, 2) == byte_bit(b, 5));
        assert(byte_bit(r, 3) == byte_bit(b, 4));
        assert(byte_bit(r, 4) == byte_bit(b, 3));
        assert(byte_bit(r, 5) == byte_bit(b, 2));
        assert(byte_bit(r, 6) == byte_bit(b, 1));
        assert(byte_bit(r, 7) == byte_bit(b, 0));
        lemma_mirror_bits_from_flags(r, b);
    }
    r
}

proof fn lemma_mirror_bits_from_flags(r: u8, b: u8)
    requires
        byte_bit(r, 0) == byte_bit(b, 7),
        byte_bit(r, 1) == byte_bit(b, 6),
        byte_bit(r, 2) == byte_bit(b, 5),
        byte_bit(r, 3) == byte_bit(b, 4),
        byte_bit(r, 4) == byte_bit(b, 3),
        byte_bit(r, 5) == byte_bit(b, 2),
        byte_bit(r, 6) == byte_bit(b, 1),
        byte_bit(r, 7) == byte_bit(b, 0),
    ensures
        r == mirror(b),
{
    lemma_mirror_bits(r, b);
}

/// Copies the data block `data`, flipped as `flip` says, into the data
/// section under `name`, and returns the copied bytes.
pub fn data_flipped(state: &mut State, name: &str, data: Valued, flip: Flip) -> (bytes: Vec<u8>)
    requires
        data_copied(old(state)@, name@, data, flip.0, flip.1) is Some,
    ensures
        keeps(old(state)@, final(state)@),
        final(state)@ == data_copied(old(state)@, name@, data, flip.0, flip.1).unwrap(),
        data matches Valued::Data(src) && bytes@ == flipped(
            old(state)@.program,
            old(state)@.datas[src@].0 as int,
            old(state)@.datas[src@].1 as int,
            flip.0,
            flip.1,
        ),
{
    let (pcd, len) = match data {
        Valued::Data(ref src) => state.datas.get(src).unwrap(),
        _ => (0, 0),
    };
    let Flip(x, y) = flip;
    let mut bytes = Vec::<u8>::new();
    let mut k: u16 = 0;
    while k < len
        invariant
            k <= len,
            len == 0 || pcd + len <= 4096,
            bytes@ == flipped(state@.program, pcd as int, len as int, x, y).take(k as int),
        decreases len - k,
    {
        let idx = if y { pcd + len - 1 - k } else { pcd + k };
        let byte = state.program[idx as usize];
        if x {
            bytes.push(reverse_bits(byte));
        } else {
            bytes.push(byte);
        }
        k += 1;
        assert(bytes@ =~= flipped(state@.program, pcd as int, len as int, x, y).take(k as int));
    }
    assert(bytes@ =~= flipped(state@.program, pcd as int, len as int, x, y));
    self::data(state, name, bytes.as_slice());
    bytes
}

/// Emits a coordinate of `draw` into a register.
fn draw_coordinate(state: &mut State, val: &Valued) -> (r: u8)
    requires
        coordinate(old(state)@, *val) is Some,
    ensures
        valid(old(state)@) && *val is Literal ==> r != 15,
        keeps(old(state)@, final(state)@),
        (final(state)@, r) == coordinate(old(state)@, *val).unwrap(),
{
    match val {
        Valued::Literal(nn) => {
            let x = state.find_register(Assignment::Anonymous);
            instruction(state, nibbles(0x6, x), *nn);
            x
        },
        Valued::Symbol(name) => state.get(name),
        _ => 0,
    }
}

/// Emits the code that draws the sprite `data` (a font character or a data
/// block) at (`xval`, `yval`), `rows` rows high. Returns whether more rows
/// are asked for than the data block holds.
pub fn draw(state: &mut State, data: Valued, xval: Valued, yval: Valued, rows: Valued) -> (warning: bool)
    requires
        drawn(old(state)@, data, xval, yval, rows) is Some,
    ensures
        keeps(old(state)@, final(state)@),
        final(state)@ == drawn(old(state)@, data, xval, yval, rows).unwrap(),
        warning == too_many_rows(old(state)@, data, rows),
{
    let ghost s0 = state@;
    let x = draw_coordinate(state, &xval);
    let y = draw_coordinate(state, &yval);
    let mut warning = false;
    match data {
        Valued::Literal(font_character) => {
            let t = state.find_register(Assignment::Anonymous);
            instruction(state, nibbles(0x6, t), font_character);
            instruction(state, nibbles(0xF, t), 0x29);
            state.dissasign(t);
        },
        Valued::Data(ref name) => {
            let (nnn, count) = state.datas.get(name).unwrap();
            if let Valued::Literal(r) = rows {
                if r as u16 > count {
                    warning = true;
                }
            }
            instruction(state, nibbles(0xA, (nnn / 256) as u8), (nnn % 256) as u8);
        },
        _ => {},
    }
    let n = match rows {
        Valued::Literal(value) => value,
        _ => 0,
    };
    instruction(state, nibbles(0xD, x), nibbles(y, n));
    if matches!(xval, Valued::Literal(_)) {
        state.dissasign(x);
    }
    if matches!(yval, Valued::Literal(_)) {
        state.dissasign(y);
    }
    warning
}

} // verus!
