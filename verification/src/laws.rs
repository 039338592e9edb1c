//! Properties that hold across the operations of the interpreter and the
//! assembler.
use vstd::prelude::*;
use crate::assembler::{
    StateView, Slot, Valued, mirror, with_pair, hi8, lo8, with_register, with_freed,
    first_free, is_first_free, lookup, assigned, named_register, holds_name, is_first_named, nib2,
    if_closed, lemma_first_named_unique, with_data, valid, keeps, data_copied, flipped, loop_closed, Section,
    if_opened, with_test, open_if, operated_all, splice, operated, repeated, mul_by_literal,
    mul_by_variable, multiplied, Ops, then_pair, loop_opened,
};
use crate::cpu::{
    Machine, step, draw_display, drawn_rows, sprite_mask, op_of, x_of, y_of, n_of, nn_of, nnn_of,
    be_word, alu,
};

verus! {

/// Mirroring a byte twice gives the byte back.
pub proof fn law_mirror_involutive(b: u8)
    ensures
        mirror(mirror(b)) == b,
{
    assert(mirror(mirror(b)) == b) by (bit_vector);
}

/// Drawing the same sprite twice at the same place leaves the display as it
/// was: every drawn pixel is flipped twice.
pub proof fn law_draw_twice_erases(d: Seq<u64>, mem: Seq<u8>, i: usize, n: u16, x: u8, y: u8)
    ensures
        draw_display(draw_display(d, mem, i, n, x, y), mem, i, n, x, y) == d,
{
    let d1 = draw_display(d, mem, i, n, x, y);
    let d2 = draw_display(d1, mem, i, n, x, y);
    assert forall|r: int| 0 <= r < d.len() implies d2[r] == d[r] by {
        if y <= r < y + drawn_rows(n, y) {
            let m = sprite_mask(mem[i + (r - y)], x);
            let a = d[r];
            assert((a ^ m) ^ m == a) by (bit_vector);
        }
    }
    assert(d2 =~= d);
}

/// Executing the same DXYN twice, with neither coordinate in VF, leaves the
/// display as it was.
pub proof fn law_draw_instruction_twice_erases(w: u16, m: Machine, r1: u8, r2: u8)
    requires
        op_of(w) == 0xD,
        x_of(w) != 15,
        y_of(w) != 15,
        m.v.len() == 16,
    ensures
        step(w, step(w, m, r1), r2).display == m.display,
{
    let m1 = step(w, m, r1);
    assert(m1.v[x_of(w) as int] == m.v[x_of(w) as int]);
    assert(m1.v[y_of(w) as int] == m.v[y_of(w) as int]);
    law_draw_twice_erases(
        m.display,
        m.mem,
        m.i,
        n_of(w),
        (m.v[x_of(w) as int] % 64) as u8,
        (m.v[y_of(w) as int] % 32) as u8,
    );
}

/// A subroutine call (2NNN) followed by a return (00EE) gives back the
/// machine as it was before the call.
pub proof fn law_call_then_return(w: u16, m: Machine, r1: u8, r2: u8)
    requires
        op_of(w) == 0x2,
    ensures
        step(0x00EE, step(w, m, r1), r2) == m,
{
    let m1 = step(w, m, r1);
    assert(op_of(0x00EE) == 0 && nnn_of(0x00EE) == 0x0EE);
    assert(m1.stack.drop_last() =~= m.stack);
}

/// FX33 stores the decimal digits of VX: hundreds, tens and ones, which
/// make up VX again.
pub proof fn law_decimal_digits(w: u16, m: Machine, r: u8)
    requires
        op_of(w) == 0xF,
        nn_of(w) == 0x33,
        m.i + 2 < m.mem.len(),
    ensures
        ({
            let m1 = step(w, m, r);
            let i = m.i as int;
            &&& m1.mem[i] < 10 && m1.mem[i + 1] < 10 && m1.mem[i + 2] < 10
            &&& 100 * m1.mem[i] + 10 * m1.mem[i + 1] + m1.mem[i + 2] == m.v[x_of(w) as int]
        }),
{
}

/// Storing registers V0..VX at I (FX55) and loading them back from I (FX65)
/// leaves the registers as they were.
pub proof fn law_store_then_load(x: u16, m: Machine, r1: u8, r2: u8)
    requires
        x < 16,
        m.v.len() == 16,
    ensures
        step((0xF065 + x * 256) as u16, step((0xF055 + x * 256) as u16, m, r1), r2).v == m.v,
{
    let ws = (0xF055 + x * 256) as u16;
    let wl = (0xF065 + x * 256) as u16;
    assert(op_of(ws) == 0xF && nn_of(ws) == 0x55 && x_of(ws) == x);
    assert(op_of(wl) == 0xF && nn_of(wl) == 0x65 && x_of(wl) == x);
    let m1 = step(ws, m, r1);
    let m2 = step(wl, m1, r2);
    assert(m2.v =~= m.v);
}

proof fn lemma_word_fields(hi: u8, lo: u8)
    ensures
        op_of(be_word(hi, lo)) == hi / 16,
        x_of(be_word(hi, lo)) == hi % 16,
        y_of(be_word(hi, lo)) == lo / 16,
        n_of(be_word(hi, lo)) == lo % 16,
        nn_of(be_word(hi, lo)) == lo,
        nnn_of(be_word(hi, lo)) == (hi % 16) * 256 + lo,
{
    let w = be_word(hi, lo);
    assert(w == hi * 256 + lo);
    lemma_split_word(w as int, hi as int, lo as int);
}

proof fn lemma_split_word(w: int, hi: int, lo: int)
    by (nonlinear_arith)
    requires
        0 <= hi < 256,
        0 <= lo < 256,
        w == hi * 256 + lo,
    ensures
        w / 4096 == hi / 16,
        (w / 256) % 16 == hi % 16,
        (w / 16) % 16 == lo / 16,
        w % 16 == lo % 16,
        w % 256 == lo,
        w % 4096 == (hi % 16) * 256 + lo,
{
}

proof fn lemma_nib2(hi: u8, lo: u8)
    requires
        hi < 16,
        lo < 16,
    ensures
        nib2(hi, lo) == hi * 16 + lo,
{
    assert(((hi << 4u8) | lo) as u8 == hi * 16 + lo) by (bit_vector)
        requires
            hi < 16,
            lo < 16,
    ;
}

/// A word placed in the program and copied into machine memory is fetched
/// back as the same word.
pub proof fn law_place_then_fetch(s: StateView, w: u16, chunk: Seq<u8>)
    requires
        valid(s),
        chunk.len() == 4096,
        with_pair(s, hi8(w), lo8(w)) is Some,
    ensures
        ({
            let s1 = with_pair(s, hi8(w), lo8(w)).unwrap();
            let mem = chunk.subrange(0, 0x200) + s1.program.subrange(0x200, 0x1000);
            be_word(mem[s.pcc as int], mem[s.pcc + 1]) == w
        }),
{
    let s1 = with_pair(s, hi8(w), lo8(w)).unwrap();
    let mem = chunk.subrange(0, 0x200) + s1.program.subrange(0x200, 0x1000);
    assert(mem[s.pcc as int] == hi8(w));
    assert(mem[s.pcc + 1] == lo8(w));
    assert((w / 256) * 256 + w % 256 == w);
}

/// Taking a register and freeing it again leaves the registers as they were.
pub proof fn law_take_then_free(s: StateView, a: Slot)
    requires
        s.regs.len() == 16,
        with_register(s, a) is Some,
    ensures
        with_freed(with_register(s, a).unwrap().0, with_register(s, a).unwrap().1).unwrap().regs
            == s.regs,
{
    let k = first_free(s.regs).unwrap();
    assert(is_first_free(s.regs, k));
    let (s1, r) = with_register(s, a).unwrap();
    assert(with_freed(s1, r).unwrap().regs =~= s.regs);
}

/// A variable assigned a literal for the first time is found afterwards in
/// the register it was given: the lowest one that was free.
pub proof fn law_assign_then_lookup(s: StateView, name: String, nn: u8)
    requires
        lookup(s, name@) is None,
        assigned(s, Valued::Symbol(name), Valued::Literal(nn)) is Some,
    ensures
        lookup(assigned(s, Valued::Symbol(name), Valued::Literal(nn)).unwrap(), name@) == Some(
            first_free(s.regs).unwrap() as u8,
        ),
{
    let k = first_free(s.regs).unwrap();
    assert(is_first_free(s.regs, k));
    let s2 = assigned(s, Valued::Symbol(name), Valued::Literal(nn)).unwrap();
    assert(s2.regs == s.regs.update(k, Slot::Var(name@)));
    assert(named_register(s.regs, name@) is None);
    assert forall|j: int| 0 <= j < k implies !#[trigger] holds_name(s2.regs, j, name@) by {
        if holds_name(s2.regs, j, name@) {
            assert(holds_name(s.regs, j, name@));
            lemma_least_named(s.regs, name@, j);
        }
    }
    assert(is_first_named(s2.regs, k, name@));
    lemma_first_named_unique(s2.regs, k, name@);
}

proof fn lemma_least_named(regs: Seq<Slot>, name: Seq<char>, j: int)
    requires
        0 <= j < regs.len(),
        holds_name(regs, j, name),
    ensures
        named_register(regs, name) is Some,
    decreases j,
{
    if forall|i: int| 0 <= i < j ==> !#[trigger] holds_name(regs, i, name) {
        assert(is_first_named(regs, j, name));
    } else {
        let i = choose|i: int| 0 <= i < j && #[trigger] holds_name(regs, i, name);
        lemma_least_named(regs, name, i);
    }
}

/// The load that `assign` emits for a literal into a register sets that
/// register to the literal when the interpreter executes it.
pub proof fn law_assign_literal_executes(s: StateView, x: u8, nn: u8, m: Machine, r: u8)
    requires
        x < 16,
        s.program.len() == 4096,
        assigned(s, Valued::Register(x), Valued::Literal(nn)) is Some,
    ensures
        ({
            let s1 = assigned(s, Valued::Register(x), Valued::Literal(nn)).unwrap();
            let w = be_word(s1.program[s.pcc as int], s1.program[s.pcc + 1]);
            step(w, m, r) == (Machine { v: m.v.update(x as int, nn), ..m })
        }),
{
    let s1 = assigned(s, Valued::Register(x), Valued::Literal(nn)).unwrap();
    lemma_nib2(6, x);
    assert(s1.program[s.pcc as int] == nib2(6, x));
    assert(s1.program[s.pcc + 1] == nn);
    lemma_word_fields(nib2(6, x), nn);
}

/// The instruction that `increment` emits adds one, modulo 256, to the
/// variable's register when the interpreter executes it.
pub proof fn law_increment_executes(s: StateView, name: Seq<char>, m: Machine, r: u8)
    requires
        s.program.len() == 4096,
        s.regs.len() == 16,
        lookup(s, name) is Some,
        with_pair(s, nib2(7, lookup(s, name).unwrap()), 1) is Some,
    ensures
        ({
            let x = lookup(s, name).unwrap();
            let s1 = with_pair(s, nib2(7, x), 1).unwrap();
            let w = be_word(s1.program[s.pcc as int], s1.program[s.pcc + 1]);
            step(w, m, r) == (Machine { v: m.v.update(x as int, ((m.v[x as int] + 1) % 256) as u8), ..m })
        }),
{
    let k = named_register(s.regs, name).unwrap();
    assert(is_first_named(s.regs, k, name));
    let x = lookup(s, name).unwrap();
    let s1 = with_pair(s, nib2(7, x), 1).unwrap();
    lemma_nib2(7, x);
    lemma_word_fields(nib2(7, x), 1);
}

/// The jump that `if_end` writes into the bytes reserved by `if_start`
/// lands, when executed, on the first instruction after the block.
pub proof fn law_if_jump_lands_after_block(s: StateView, m: Machine, r: u8)
    requires
        s.program.len() == 4096,
        s.pcc < 4096,
        if_closed(s) is Some,
    ensures
        ({
            let a = s.sections.last()->If_0;
            let s1 = if_closed(s).unwrap();
            let w = be_word(s1.program[a as int], s1.program[a + 1]);
            step(w, m, r) == (Machine { pc: s.pcc as usize, ..m })
        }),
{
    let a = s.sections.last()->If_0;
    let s1 = if_closed(s).unwrap();
    let hi = hi8(s.pcc);
    let lo = lo8(s.pcc);
    assert(hi < 16);
    lemma_nib2(1, hi);
    assert(s1.program[a as int] == nib2(1, hi));
    assert(s1.program[a + 1] == lo);
    lemma_word_fields(nib2(1, hi), lo);
    assert(hi * 256 + lo == s.pcc);
}


/// The bytes of a data block read back from its recorded address.
pub proof fn law_data_reads_back(s: StateView, name: Seq<char>, bytes: Seq<u8>)
    requires
        s.program.len() == 4096,
        with_data(s, name, bytes) is Some,
    ensures
        ({
            let s1 = with_data(s, name, bytes).unwrap();
            let (at, len) = s1.datas[name];
            &&& len == bytes.len()
            &&& s1.program.subrange(at as int, at + len) == bytes
        }),
{
    let s1 = with_data(s, name, bytes).unwrap();
    assert(s1.program.subrange(s.pcd as int, s.pcd + bytes.len()) =~= bytes);
}

/// A copy with neither flip is the block's bytes as they are.
pub proof fn law_unflipped_copy(program: Seq<u8>, at: int, len: int)
    requires
        0 <= at,
        0 <= len,
        at + len <= program.len(),
    ensures
        flipped(program, at, len, false, false) == program.subrange(at, at + len),
{
    assert(flipped(program, at, len, false, false) =~= program.subrange(at, at + len));
}

/// Flipping a copy twice, with the same flips, gives the bytes back.
pub proof fn law_flip_twice(program: Seq<u8>, at: int, len: int, fx: bool, fy: bool)
    requires
        0 <= at,
        0 <= len,
        at + len <= program.len(),
    ensures
        flipped(flipped(program, at, len, fx, fy), 0, len, fx, fy) == program.subrange(at, at + len),
{
    let once = flipped(program, at, len, fx, fy);
    let twice = flipped(once, 0, len, fx, fy);
    assert forall|k: int| 0 <= k < len implies twice[k] == program[at + k] by {
        if fx {
            law_mirror_involutive(program[at + k]);
        }
    }
    assert(twice =~= program.subrange(at, at + len));
}

/// The jump that closes a counted loop lands, when executed, on the first
/// instruction of the loop body.
pub proof fn law_loop_jumps_back(s: StateView, m: Machine, r: u8)
    requires
        s.program.len() == 4096,
        s.sections.len() > 0,
        s.sections.last() matches Section::Loop(start, Valued::Literal(_)) && start < 4096,
        loop_closed(s) is Some,
    ensures
        ({
            let start = s.sections.last()->Loop_0;
            let s1 = loop_closed(s).unwrap();
            let w = be_word(s1.program[s.pcc + 4], s1.program[s.pcc + 5]);
            step(w, m, r) == (Machine { pc: start as usize, ..m })
        }),
{
    let start = s.sections.last()->Loop_0;
    let s1 = loop_closed(s).unwrap();
    let hi = hi8(start);
    let lo = lo8(start);
    assert(hi < 16);
    lemma_nib2(1, hi);
    assert(s1.program[s.pcc + 4] == nib2(1, hi));
    assert(s1.program[s.pcc + 5] == lo);
    lemma_word_fields(nib2(1, hi), lo);
    assert(hi * 256 + lo == start);
}


/// What every operation keeps carries over a sequence of operations: from
/// a valid state, every later state is valid, and the code and data
/// addresses never go down.
pub proof fn law_keeps_chains(a: StateView, b: StateView, c: StateView)
    requires
        keeps(a, b),
        keeps(b, c),
    ensures
        keeps(a, c),
{
}

/// A data block copied twice with the same flips, the second copy taken of
/// the first, holds the block's bytes again.
pub proof fn law_copy_twice_restores(
    s: StateView,
    a: String,
    b: String,
    c: Seq<char>,
    bs: Seq<u8>,
    fx: bool,
    fy: bool,
)
    requires
        valid(s),
        s.pcd + 3 * bs.len() <= 4096,
    ensures
        ({
            let s1 = with_data(s, a@, bs).unwrap();
            let s2 = data_copied(s1, b@, Valued::Data(a), fx, fy);
            s2 is Some && ({
                let s3 = data_copied(s2.unwrap(), c, Valued::Data(b), fx, fy);
                s3 is Some && ({
                    let (at, len) = s3.unwrap().datas[c];
                    &&& len == bs.len()
                    &&& s3.unwrap().program.subrange(at as int, at + len) == bs
                })
            })
        }),
{
    let len = bs.len() as int;
    let p0 = s.pcd as int;
    let s1 = with_data(s, a@, bs).unwrap();
    law_data_reads_back(s, a@, bs);
    assert(s1.datas[a@] == (s.pcd, bs.len() as u16));
    let once = flipped(s1.program, p0, len, fx, fy);
    let s2 = with_data(s1, b@, once).unwrap();
    assert(data_copied(s1, b@, Valued::Data(a), fx, fy) == Some(s2));
    let p1 = p0 + len;
    assert(s2.datas[b@] == ((p0 + len) as u16, len as u16));
    let twice = flipped(s2.program, p1, len, fx, fy);
    assert(twice =~= flipped(once, 0, len, fx, fy));
    law_flip_twice(s1.program, p0, len, fx, fy);
    assert(s1.program.subrange(p0, p0 + len) =~= bs);
    let s3 = with_data(s2, c, twice).unwrap();
    assert(data_copied(s2, c, Valued::Data(b), fx, fy) == Some(s3));
    law_data_reads_back(s2, c, twice);
}


/// The arithmetic instructions 8XYN that set VF, with VX not VF: VF is a
/// single bit, and together with the new VX it makes up the exact result.
/// A right shift (8XY6) leaves half of VX and the bit shifted out; a left
/// shift (8XYE) double VX less the bit shifted out times 256; an addition
/// (8XY4) the sum with the carry; a subtraction (8XY5, 8XY7) the difference
/// with VF set exactly when nothing was borrowed.
pub proof fn law_alu_flags(x: u16, y: u16, m: Machine, r: u8)
    requires
        x < 15,
        y < 16,
        m.v.len() == 16,
    ensures
        ({
            let vx = m.v[x as int] as int;
            let vy = m.v[y as int] as int;
            let w = (0x8000 + x * 256 + y * 16) as u16;
            let shr = step((w + 6) as u16, m, r).v;
            let shl = step((w + 0xE) as u16, m, r).v;
            let add = step((w + 4) as u16, m, r).v;
            let sub = step((w + 5) as u16, m, r).v;
            let subn = step((w + 7) as u16, m, r).v;
            &&& shr[15] <= 1 && 2 * shr[x as int] + shr[15] == vx
            &&& shl[15] <= 1 && shl[x as int] + 256 * shl[15] == 2 * vx
            &&& add[15] <= 1 && add[x as int] + 256 * add[15] == vx + vy
            &&& sub[15] <= 1 && sub[x as int] == vx - vy + 256 * (1 - sub[15]) && (sub[15] == 1
                <==> vx >= vy)
            &&& subn[15] <= 1 && subn[x as int] == vy - vx + 256 * (1 - subn[15]) && (subn[15] == 1
                <==> vy >= vx)
        }),
{
    let w = (0x8000 + x * 256 + y * 16) as u16;
    lemma_alu_op(x, y, 6, m, r);
    lemma_alu_op(x, y, 0xE, m, r);
    lemma_alu_op(x, y, 4, m, r);
    lemma_alu_op(x, y, 5, m, r);
    lemma_alu_op(x, y, 7, m, r);
    assert((0x8000 + x * 256 + y * 16 + 6) as u16 == (w + 6) as u16);
    assert((0x8000 + x * 256 + y * 16 + 0xE) as u16 == (w + 0xE) as u16);
    assert((0x8000 + x * 256 + y * 16 + 4) as u16 == (w + 4) as u16);
    assert((0x8000 + x * 256 + y * 16 + 5) as u16 == (w + 5) as u16);
    assert((0x8000 + x * 256 + y * 16 + 7) as u16 == (w + 7) as u16);
}

#[verifier::spinoff_prover]
#[verifier::rlimit(80)]
proof fn lemma_alu_op(x: u16, y: u16, n: u16, m: Machine, r: u8)
    requires
        x < 15,
        y < 16,
        n == 4 || n == 5 || n == 6 || n == 7 || n == 0xE,
        m.v.len() == 16,
    ensures
        ({
            let vx = m.v[x as int] as int;
            let vy = m.v[y as int] as int;
            let v2 = step((0x8000 + x * 256 + y * 16 + n) as u16, m, r).v;
            &&& v2[15] <= 1
            &&& n == 6 ==> 2 * v2[x as int] + v2[15] == vx
            &&& n == 0xE ==> v2[x as int] + 256 * v2[15] == 2 * vx
            &&& n == 4 ==> v2[x as int] + 256 * v2[15] == vx + vy
            &&& n == 5 ==> v2[x as int] == vx - vy + 256 * (1 - v2[15]) && (v2[15] == 1 <==> vx >= vy)
            &&& n == 7 ==> v2[x as int] == vy - vx + 256 * (1 - v2[15]) && (v2[15] == 1 <==> vy >= vx)
        }),
{
    let w = (0x8000 + x * 256 + y * 16 + n) as u16;
    lemma_fields_of(w as int, 8, x as int, y as int, n as int);
    assert(step(w, m, r).v == alu(m.v, x as int, y as int, n));
}

proof fn lemma_fields_of(w: int, o: int, x: int, y: int, n: int)
    by (nonlinear_arith)
    requires
        0 <= o < 16,
        0 <= x < 16,
        0 <= y < 16,
        0 <= n < 16,
        w == o * 4096 + x * 256 + y * 16 + n,
    ensures
        w / 4096 == o,
        (w / 256) % 16 == x,
        (w / 16) % 16 == y,
        w % 16 == n,
{
}

/// After DXYN, VF is 1 exactly when some pixel of the display went from lit
/// to dark, in whichever row, and 0 otherwise.
pub proof fn law_draw_flag_marks_erased_pixels(w: u16, m: Machine, r: u8)
    requires
        op_of(w) == 0xD,
        m.v.len() == 16,
        m.display.len() == 32,
    ensures
        ({
            let m2 = step(w, m, r);
            &&& m2.v[15] == 0 || m2.v[15] == 1
            &&& (m2.v[15] == 1) == (exists|row: int|
                0 <= row < 32 && #[trigger] (m.display[row] & !m2.display[row]) != 0)
        }),
{
    let m2 = step(w, m, r);
    let x0 = (m.v[x_of(w) as int] % 64) as u8;
    let y0 = (m.v[y_of(w) as int] % 32) as u8;
    let n = n_of(w);
    assert forall|row: int| 0 <= row < 32 implies (#[trigger] (m.display[row] & !m2.display[row]) != 0)
        == (y0 <= row < y0 + drawn_rows(n, y0) && (m.display[row] & sprite_mask(
        m.mem[m.i + (row - y0)],
        x0,
    )) != 0) by {
        let a = m.display[row];
        if y0 <= row < y0 + drawn_rows(n, y0) {
            let k = sprite_mask(m.mem[m.i + (row - y0)], x0);
            assert(a & !(a ^ k) == a & k) by (bit_vector);
        } else {
            assert(a & !a == 0) by (bit_vector);
        }
    }
    if m2.v[15] == 1 {
        let row = choose|row: int|
            y0 <= row < y0 + drawn_rows(n, y0) && #[trigger] (m.display[row] & sprite_mask(
                m.mem[m.i + (row - y0)],
                x0,
            )) != 0;
        assert(0 <= row < 32);
        assert((m.display[row] & !m2.display[row]) != 0);
    }
}


/// The test that `if_start` emits, just before the two bytes it reserves
/// for the jump past the block: executed on any machine, it skips that jump,
/// entering the block, exactly when the tested register equals the
/// condition, or, with no condition, when it is not zero. The tested
/// register is the given one, the variable's, or a temporary that holds an
/// expression.
#[verifier::spinoff_prover]
#[verifier::rlimit(50)]
pub proof fn law_if_test_enters_block(s: StateView, cond: Option<u8>, variable: Valued, m: Machine, r: u8)
    requires
        valid(s),
        if_opened(s, cond, variable) is Some,
        variable matches Valued::Register(x) ==> x < 16,
        m.v.len() == 16,
    ensures
        ({
            let s1 = if_opened(s, cond, variable).unwrap();
            let w = be_word(s1.program[s1.pcc - 4], s1.program[s1.pcc - 3]);
            let t = m.v[x_of(w) as int];
            &&& variable matches Valued::Register(x) ==> x_of(w) == x
            &&& variable matches Valued::Symbol(n) ==> x_of(w) == lookup(s, n@).unwrap()
            &&& step(w, m, r) == (Machine {
                pc: (if (match cond {
                    Some(c) => t == c,
                    None => t != 0,
                }) {
                    m.pc + 2
                } else {
                    m.pc as int
                }) as usize,
                ..m
            })
        }),
{
    let s1 = if_opened(s, cond, variable).unwrap();
    // the tested register and the state the test is appended to
    let (t0, x) = match variable {
        Valued::Symbol(n) => {
            let k = named_register(s.regs, n@).unwrap();
            assert(is_first_named(s.regs, k, n@));
            (s, lookup(s, n@).unwrap())
        },
        Valued::Register(x) => (s, x),
        Valued::Expression(e) => {
            let k = first_free(s.regs).unwrap();
            assert(is_first_free(s.regs, k));
            let (sa, d) = with_register(s, Slot::Temp).unwrap();
            (operated_all(sa, d, e@).unwrap(), d)
        },
        _ => (s, 0),
    };
    assert(x < 16);
    if let Valued::Expression(e) = variable {
        let (sa, d) = with_register(s, Slot::Temp).unwrap();
        lemma_operated_all_len(sa, d, e@);
    }
    assert(t0.program.len() == 4096);
    let o: u8 = if cond is Some { 3 } else { 4 };
    let nn: u8 = match cond {
        Some(c) => c,
        None => 0,
    };
    let t1 = with_test(t0, cond, x).unwrap();
    assert(t1 == with_pair(t0, nib2(o, x), nn).unwrap());
    assert(t1.pcc == t0.pcc + 2);
    assert(t1.program[t0.pcc as int] == nib2(o, x));
    assert(t1.program[t0.pcc + 1] == nn);
    assert(s1.program == t1.program && s1.pcc == t1.pcc + 2);
    lemma_nib2(o, x);
    lemma_word_fields(nib2(o, x), nn);
}

/// A copy made by `data_flipped` holds, at each position `k`, the source
/// byte at `k`, or at `len - 1 - k` when flipped vertically; each copied
/// byte has the bits of its source byte, in reverse order when flipped
/// horizontally. The copy goes to the data address, with the source's length.
pub proof fn law_flipped_copy_bytes(s: StateView, name: Seq<char>, src: String, fx: bool, fy: bool)
    requires
        s.program.len() == 4096,
        data_copied(s, name, Valued::Data(src), fx, fy) is Some,
    ensures
        ({
            let (at, len) = s.datas[src@];
            let s2 = data_copied(s, name, Valued::Data(src), fx, fy).unwrap();
            &&& s2.datas[name] == (s.pcd, len)
            &&& forall|k: int, j: u8|
                0 <= k < len && j < 8 ==> (#[trigger] (s2.program[s.pcd + k] >> j) & 1) == ((s.program[at
                    + (if fy { len - 1 - k } else { k })] >> (if fx { (7 - j) as u8 } else { j })) & 1)
        }),
{
    let (at, len) = s.datas[src@];
    let bytes = flipped(s.program, at as int, len as int, fx, fy);
    let s2 = data_copied(s, name, Valued::Data(src), fx, fy).unwrap();
    assert(s2 == with_data(s, name, bytes).unwrap());
    assert forall|k: int, j: u8|
        0 <= k < len && j < 8 implies (#[trigger] (s2.program[s.pcd + k] >> j) & 1) == ((s.program[at
            + (if fy { len - 1 - k } else { k })] >> (if fx { (7 - j) as u8 } else { j })) & 1) by {
        assert(s2.program[s.pcd + k] == bytes[k]);
        let b = s.program[at + (if fy { len - 1 - k } else { k })];
        if fx {
            assert(bytes[k] == mirror(b));
            assert((mirror(b) >> j) & 1 == (b >> ((7 - j) as u8)) & 1) by (bit_vector)
                requires
                    j < 8,
            ;
        }
    }
}


proof fn lemma_repeated_len(s: StateView, b0: u8, b1: u8, k: nat)
    requires
        s.program.len() == 4096,
        repeated(s, b0, b1, k) is Some,
    ensures
        repeated(s, b0, b1, k).unwrap().program.len() == s.program.len(),
    decreases k,
{
    if k > 0 {
        let p = repeated(s, b0, b1, (k - 1) as nat);
        assert(p is Some);
        lemma_repeated_len(s, b0, b1, (k - 1) as nat);
    }
}

proof fn lemma_mul_by_literal_len(s: StateView, v: u8, vd: u8, by: u8, k: nat)
    requires
        s.program.len() == 4096,
        mul_by_literal(s, v, vd, by, k) is Some,
    ensures
        mul_by_literal(s, v, vd, by, k).unwrap().program.len() == s.program.len(),
    decreases k,
{
    if k > 0 {
        let p = mul_by_literal(s, v, vd, by, (k - 1) as nat);
        assert(p is Some) by {
            if p is None {
                let s2 = if by & (1u8 << ((k - 1) as u8)) != 0 {
                    then_pair(p, nib2(8, vd), nib2(v, 4))
                } else {
                    p
                };
                assert(s2 is None);
            }
        }
        lemma_mul_by_literal_len(s, v, vd, by, (k - 1) as nat);
    }
}

#[verifier::rlimit(60)]
#[verifier::spinoff_prover]
proof fn lemma_mul_by_variable_len(s: StateView, v: u8, vd: u8, name: Seq<char>)
    requires
        s.program.len() == 4096,
        mul_by_variable(s, v, vd, name) is Some,
    ensures
        mul_by_variable(s, v, vd, name).unwrap().program.len() == s.program.len(),
{
}

proof fn lemma_operated_len(s: StateView, v: u8, operand: Valued, operator: Ops)
    requires
        s.program.len() == 4096,
        operated(s, v, operand, operator) is Some,
    ensures
        operated(s, v, operand, operator).unwrap().program.len() == s.program.len(),
{
    match operator {
        Ops::Shl => {
            if let Valued::Literal(k) = operand {
                lemma_repeated_len(s, nib2(8, v), nib2(0, 0xE), k as nat);
            }
        },
        Ops::Multiply => {
            let (s1, vd) = with_register(s, Slot::Temp).unwrap();
            let s2 = with_pair(s1, nib2(6, vd), 0).unwrap();
            match operand {
                Valued::Symbol(n) => {
                    lemma_mul_by_variable_len(s2, v, vd, n@);
                },
                Valued::Literal(by) => {
                    lemma_mul_by_literal_len(s2, v, vd, by, crate::bits::bit_length(by));
                },
                _ => {},
            }
        },
        _ => {},
    }
}

proof fn lemma_operated_all_len(s: StateView, v: u8, e: Seq<(Valued, Ops)>)
    requires
        s.program.len() == 4096,
        operated_all(s, v, e) is Some,
    ensures
        operated_all(s, v, e).unwrap().program.len() == s.program.len(),
    decreases e.len(),
{
    if e.len() > 0 {
        let p = operated_all(s, v, e.drop_last());
        assert(p is Some);
        lemma_operated_all_len(s, v, e.drop_last());
        lemma_operated_len(p.unwrap(), v, e.last().0, e.last().1);
    }
}

} // verus!
