//! What emitted programs compute when the interpreter runs them.
use vstd::prelude::*;
use vstd::arithmetic::div_mod::{lemma_add_mod_noop, lemma_mul_mod_noop_left, lemma_mod_breakdown, lemma_small_mod};
use crate::assembler::{
    StateView, Slot, Valued, valid, with_pair, then_pair, nib2, with_register,
    first_free, is_first_free, mul_by_literal, multiplied, hi8, lo8, open_if, if_closed,
    loop_opened, loop_closed, mul_by_variable, lookup, named_register, holds_name, is_first_named,
    lemma_first_named_unique, Section, repeated, operated, Ops, while_closed, assigned,
    coordinate, drawn, sprite_source, operated_all, if_opened,
};
use crate::bits::bit_length;
use crate::cpu::{Machine, step, be_word, op_of, x_of, y_of, n_of, nn_of, alu, draw_display, draw_collides};

verus! {

/// Two to the power `k`.
pub open spec fn pw(k: nat) -> nat
    decreases k,
{
    if k == 0 { 1 } else { 2 * pw((k - 1) as nat) }
}

/// One fetch-and-execute cycle: the word at the program counter is read from
/// the machine's memory, the program counter moves past it, and the word is
/// executed.
pub open spec fn run_one(m: Machine) -> Machine {
    step(
        be_word(m.mem[m.pc as int], m.mem[m.pc + 1]),
        Machine { pc: (m.pc + 2) as usize, ..m },
        0,
    )
}

/// `n` fetch-and-execute cycles.
pub open spec fn run(m: Machine, n: nat) -> Machine
    decreases n,
{
    if n == 0 { m } else { run_one(run(m, (n - 1) as nat)) }
}

/// The number of words that multiplying by the `k` lowest bits of `by`
/// emits: two for a set bit, one for a clear bit.
pub open spec fn mul_literal_len(by: u8, k: nat) -> nat
    decreases k,
{
    if k == 0 {
        0
    } else {
        mul_literal_len(by, (k - 1) as nat) + if by & (1u8 << ((k - 1) as u8)) != 0 { 2nat } else { 1nat }
    }
}

proof fn lemma_pw_pos(k: nat)
    ensures
        pw(k) > 0,
    decreases k,
{
    if k > 0 {
        lemma_pw_pos((k - 1) as nat);
    }
}

proof fn lemma_pw_small()
    ensures
        pw(0) == 1, pw(1) == 2, pw(2) == 4, pw(3) == 8, pw(4) == 16, pw(5) == 32, pw(6) == 64,
        pw(7) == 128, pw(8) == 256,
{
    reveal_with_fuel(pw, 9);
}

proof fn lemma_bit_test(by: u8, i: nat)
    requires
        i < 8,
    ensures
        (by & (1u8 << (i as u8)) != 0) == (((by as nat) / pw(i)) % 2 == 1),
{
    lemma_pw_small();
    if i == 0 {
        assert((by & (1u8 << 0u8) != 0) == ((by / 1) % 2 == 1)) by (bit_vector);
    } else if i == 1 {
        assert((by & (1u8 << 1u8) != 0) == ((by / 2) % 2 == 1)) by (bit_vector);
    } else if i == 2 {
        assert((by & (1u8 << 2u8) != 0) == ((by / 4) % 2 == 1)) by (bit_vector);
    } else if i == 3 {
        assert((by & (1u8 << 3u8) != 0) == ((by / 8) % 2 == 1)) by (bit_vector);
    } else if i == 4 {
        assert((by & (1u8 << 4u8) != 0) == ((by / 16) % 2 == 1)) by (bit_vector);
    } else if i == 5 {
        assert((by & (1u8 << 5u8) != 0) == ((by / 32) % 2 == 1)) by (bit_vector);
    } else if i == 6 {
        assert((by & (1u8 << 6u8) != 0) == ((by / 64) % 2 == 1)) by (bit_vector);
    } else {
        assert((by & (1u8 << 7u8) != 0) == ((by / 128) % 2 == 1)) by (bit_vector);
    }
}

proof fn lemma_bit_length_mod(by: u8)
    ensures
        bit_length(by) <= 8,
        (by as nat) % pw(bit_length(by)) == by,
{
    lemma_pw_small();
    assert((by as nat) < pw(bit_length(by)));
    lemma_small_mod(by as nat, pw(bit_length(by)));
}

/// Appending an instruction leaves the bytes before the code address as they were.
proof fn lemma_pair_keeps_prefix(s: StateView, b0: u8, b1: u8)
    requires
        s.program.len() == 4096,
        with_pair(s, b0, b1) is Some,
    ensures
        ({
            let t = with_pair(s, b0, b1).unwrap();
            &&& t.pcc == s.pcc + 2
            &&& t.program.len() == s.program.len()
            &&& t.program[s.pcc as int] == b0
            &&& t.program[s.pcc + 1] == b1
            &&& forall|a: int| 0 <= a < s.pcc ==> #[trigger] t.program[a] == s.program[a]
            &&& t.regs == s.regs
        }),
{
}

/// The layout of the code for a multiplication by a literal: it grows by
/// whole instructions and never rewrites what it has emitted.
proof fn lemma_mul_layout(s0: StateView, v: u8, vd: u8, by: u8, j: nat, k: nat)
    requires
        s0.program.len() == 4096,
        j <= k,
        mul_by_literal(s0, v, vd, by, k) is Some,
    ensures
        mul_by_literal(s0, v, vd, by, j) is Some,
        ({
            let sj = mul_by_literal(s0, v, vd, by, j).unwrap();
            let sk = mul_by_literal(s0, v, vd, by, k).unwrap();
            &&& sk.pcc == s0.pcc + 2 * mul_literal_len(by, k)
            &&& sj.pcc <= sk.pcc
            &&& sk.program.len() == s0.program.len()
            &&& sk.regs == s0.regs
            &&& forall|a: int| 0 <= a < sj.pcc ==> #[trigger] sk.program[a] == sj.program[a]
        }),
    decreases k,
{
    if k > 0 {
        let km = (k - 1) as nat;
        let s1 = mul_by_literal(s0, v, vd, by, km);
        let bitset = by & (1u8 << (km as u8)) != 0;
        let s2 = if bitset { then_pair(s1, nib2(8, vd), nib2(v, 4)) } else { s1 };
        assert(s1 is Some && s2 is Some) by {
            if s1 is None {
                assert(s2 is None);
            }
        }
        lemma_mul_layout(s0, v, vd, by, km, km);
        if bitset {
            lemma_pair_keeps_prefix(s1.unwrap(), nib2(8, vd), nib2(v, 4));
        }
        lemma_pair_keeps_prefix(s2.unwrap(), nib2(8, v), nib2(0, 0xE));
        if j < k {
            lemma_mul_layout(s0, v, vd, by, j, km);
        }
    }
}

proof fn lemma_word_of(hi: u8, lo: u8)
    ensures
        op_of(be_word(hi, lo)) == hi / 16,
        x_of(be_word(hi, lo)) == hi % 16,
        y_of(be_word(hi, lo)) == lo / 16,
        n_of(be_word(hi, lo)) == lo % 16,
        nn_of(be_word(hi, lo)) == lo,
{
    let w = be_word(hi, lo);
    assert(w == hi * 256 + lo);
    lemma_split(w as int, hi as int, lo as int);
}

proof fn lemma_split(w: int, hi: int, lo: int)
    by (nonlinear_arith)
    requires
        0 <= hi < 256,
        0 <= lo < 256,
        w == hi * 256 + lo,
    ensures
        w / 4096 == hi / 16,
        (w / 256) % 16 == hi % 16,
        (w / 16) % 16 == lo / 16,
        w % 16 == lo % 16,
        w % 256 == lo,
{
}

proof fn lemma_nibbles(hi: u8, lo: u8)
    requires
        hi < 16,
        lo < 16,
    ensures
        nib2(hi, lo) == hi * 16 + lo,
        nib2(hi, lo) / 16 == hi,
        nib2(hi, lo) % 16 == lo,
{
    assert(((hi << 4u8) | lo) as u8 == hi * 16 + lo) by (bit_vector)
        requires
            hi < 16,
            lo < 16,
    ;
}

proof fn lemma_accumulate(d: int, vv: int, lo: int, p: int)
    requires
        0 <= d,
        0 <= vv,
        0 <= lo,
        0 <= p,
    ensures
        ((d + vv * lo) % 256 + (vv * p) % 256) % 256 == (d + vv * (lo + p)) % 256,
        (((vv * p) % 256) * 2) % 256 == (vv * (p * 2)) % 256,
{
    lemma_add_mod_noop(d + vv * lo, vv * p, 256);
    assert(d + vv * lo + vv * p == d + vv * (lo + p)) by (nonlinear_arith);
    lemma_mul_mod_noop_left(vv * p, 2, 256);
    assert((vv * p) * 2 == vv * (p * 2)) by (nonlinear_arith);
}

/// Running the code for the `k` lowest bits of a multiplication by `by`
/// adds V times those bits to VD and doubles V `k` times.
#[verifier::rlimit(60)]
#[verifier::spinoff_prover]
proof fn lemma_mul_run(s0: StateView, v: u8, vd: u8, by: u8, k: nat, m: Machine)
    requires
        s0.program.len() == 4096,
        k <= 8,
        v < 15,
        vd < 15,
        v != vd,
        mul_by_literal(s0, v, vd, by, k) is Some,
        m.pc == s0.pcc,
        m.v.len() == 16,
        forall|a: int|
            s0.pcc <= a < mul_by_literal(s0, v, vd, by, k).unwrap().pcc ==> #[trigger] m.mem[a]
                == mul_by_literal(s0, v, vd, by, k).unwrap().program[a],
    ensures
        ({
            let r = run(m, mul_literal_len(by, k));
            &&& r.pc == mul_by_literal(s0, v, vd, by, k).unwrap().pcc
            &&& r.mem == m.mem
            &&& r.v.len() == 16
            &&& r.v[vd as int] == (m.v[vd as int] + m.v[v as int] * ((by as nat) % pw(k))) % 256
            &&& r.v[v as int] == (m.v[v as int] * pw(k)) % 256
        }),
    decreases k,
{
    let sk = mul_by_literal(s0, v, vd, by, k).unwrap();
    if k == 0 {
        assert((by as nat) % 1 == 0);
        assert((m.v[vd as int] as int) % 256 == m.v[vd as int]);
        assert((m.v[v as int] as int) % 256 == m.v[v as int]);
    } else {
        let km = (k - 1) as nat;
        lemma_mul_layout(s0, v, vd, by, km, k);
        lemma_mul_layout(s0, v, vd, by, km, km);
        lemma_pw_pos(km);
        let s1 = mul_by_literal(s0, v, vd, by, km).unwrap();
        lemma_mul_run(s0, v, vd, by, km, m);
        let r1 = run(m, mul_literal_len(by, km));
        let bitset = by & (1u8 << (km as u8)) != 0;
        lemma_bit_test(by, km);
        let p = pw(km);
        lemma_mod_breakdown(by as int, p as int, 2);
        assert(pw(k) == p * 2);
        let dd = m.v[vd as int] as int;
        let vv = m.v[v as int] as int;
        let lo = ((by as nat) % p) as int;
        lemma_accumulate(dd, vv, lo, p as int);
        if bitset {
            let s2 = with_pair(s1, nib2(8, vd), nib2(v, 4)).unwrap();
            lemma_pair_keeps_prefix(s1, nib2(8, vd), nib2(v, 4));
            lemma_pair_keeps_prefix(s2, nib2(8, v), nib2(0, 0xE));
            assert(m.mem[s1.pcc as int] == nib2(8, vd));
            assert(m.mem[s1.pcc + 1] == nib2(v, 4));
            assert(m.mem[s1.pcc + 2] == nib2(8, v));
            assert(m.mem[s1.pcc + 3] == nib2(0, 0xE));
            lemma_step_add(r1, v, vd);
            let r2 = run_one(r1);
            lemma_step_double(r2, v, vd);
            let r3 = run_one(r2);
            assert(run(m, (mul_literal_len(by, km) + 1) as nat) == r2);
            assert(run(m, (mul_literal_len(by, km) + 2) as nat) == r3);
            assert(mul_literal_len(by, k) == mul_literal_len(by, km) + 2);
            assert(((by as nat) / p) % 2 == 1);
            assert((by as nat) % pw(k) == lo + p);
        } else {
            lemma_pair_keeps_prefix(s1, nib2(8, v), nib2(0, 0xE));
            assert(m.mem[s1.pcc as int] == nib2(8, v));
            assert(m.mem[s1.pcc + 1] == nib2(0, 0xE));
            lemma_step_double(r1, v, vd);
            let r2 = run_one(r1);
            assert(run(m, (mul_literal_len(by, km) + 1) as nat) == r2);
            assert(mul_literal_len(by, k) == mul_literal_len(by, km) + 1);
            assert(((by as nat) / p) % 2 == 0);
            assert((by as nat) % pw(k) == lo);
        }
    }
}

/// 8DV4 adds V to VD.
proof fn lemma_step_add(r: Machine, v: u8, vd: u8)
    requires
        v < 15,
        vd < 15,
        v != vd,
        r.v.len() == 16,
        r.pc < 0x1000,
        r.mem[r.pc as int] == nib2(8, vd),
        r.mem[r.pc + 1] == nib2(v, 4),
    ensures
        ({
            let r2 = run_one(r);
            &&& r2.pc == r.pc + 2
            &&& r2.mem == r.mem
            &&& r2.v.len() == 16
            &&& r2.v[vd as int] == (r.v[vd as int] + r.v[v as int]) % 256
            &&& r2.v[v as int] == r.v[v as int]
        }),
{
    lemma_nibbles(8, vd);
    lemma_nibbles(v, 4);
    lemma_word_of(nib2(8, vd), nib2(v, 4));
}

/// 8V0E doubles V, dropping the carry.
proof fn lemma_step_double(r: Machine, v: u8, vd: u8)
    requires
        v < 15,
        vd < 15,
        v != vd,
        r.v.len() == 16,
        r.pc < 0x1000,
        r.mem[r.pc as int] == nib2(8, v),
        r.mem[r.pc + 1] == nib2(0, 0xE),
    ensures
        ({
            let r2 = run_one(r);
            &&& r2.pc == r.pc + 2
            &&& r2.mem == r.mem
            &&& r2.v.len() == 16
            &&& r2.v[v as int] == (r.v[v as int] * 2) % 256
            &&& r2.v[vd as int] == r.v[vd as int]
        }),
{
    lemma_nibbles(8, v);
    lemma_nibbles(0, 0xE);
    lemma_word_of(nib2(8, v), nib2(0, 0xE));
}

/// 8VD0 copies VD into V.
proof fn lemma_step_move(r: Machine, v: u8, vd: u8)
    requires
        v < 15,
        vd < 15,
        r.v.len() == 16,
        r.pc < 0x1000,
        r.mem[r.pc as int] == nib2(8, v),
        r.mem[r.pc + 1] == nib2(vd, 0),
    ensures
        ({
            let r2 = run_one(r);
            &&& r2.pc == r.pc + 2
            &&& r2.v[v as int] == r.v[vd as int]
        }),
{
    lemma_nibbles(8, v);
    lemma_nibbles(vd, 0);
    lemma_word_of(nib2(8, v), nib2(vd, 0));
}

/// 6X00 clears X.
proof fn lemma_step_clear(r: Machine, x: u8)
    requires
        x < 15,
        r.v.len() == 16,
        r.pc < 0x1000,
        r.mem[r.pc as int] == nib2(6, x),
        r.mem[r.pc + 1] == 0,
    ensures
        ({
            let r2 = run_one(r);
            &&& r2.pc == r.pc + 2
            &&& r2.mem == r.mem
            &&& r2.v == r.v.update(x as int, 0u8)
        }),
{
    lemma_nibbles(6, x);
    lemma_word_of(nib2(6, x), 0);
}

proof fn lemma_run_add(m: Machine, a: nat, b: nat)
    ensures
        run(m, a + b) == run(run(m, a), b),
    decreases b,
{
    if b > 0 {
        lemma_run_add(m, a, (b - 1) as nat);
        assert(run(m, a + b) == run_one(run(m, (a + b - 1) as nat)));
    }
}

/// Running the code that `V *= by` emits for a literal `by`, from its first
/// word to its end, leaves V times `by`, modulo 256, in V.
pub proof fn law_multiply_by_literal_runs(s: StateView, v: u8, by: u8, m: Machine)
    requires
        valid(s),
        v < 15,
        !(s.regs[v as int] is Free),
        multiplied(s, v, Valued::Literal(by)) is Some,
        m.pc == s.pcc,
        m.v.len() == 16,
        forall|a: int|
            s.pcc <= a < multiplied(s, v, Valued::Literal(by)).unwrap().pcc ==> #[trigger] m.mem[a]
                == multiplied(s, v, Valued::Literal(by)).unwrap().program[a],
    ensures
        ({
            let s1 = multiplied(s, v, Valued::Literal(by)).unwrap();
            let r = run(m, ((s1.pcc - s.pcc) / 2) as nat);
            &&& r.pc == s1.pcc
            &&& r.v[v as int] == (m.v[v as int] * by) % 256
        }),
{
    let vd_i = first_free(s.regs).unwrap();
    assert(is_first_free(s.regs, vd_i));
    let (sa, vd) = with_register(s, Slot::Temp).unwrap();
    assert(vd as int == vd_i);
    assert(vd != 15 && vd != v && vd < 16);
    let sb = with_pair(sa, nib2(6, vd), 0).unwrap();
    let bl = bit_length(by);
    lemma_bit_length_mod(by);
    let sc = mul_by_literal(sb, v, vd, by, bl).unwrap();
    assert(mul_by_literal(sb, v, vd, by, bl) is Some);
    let sd = with_pair(sc, nib2(8, v), nib2(vd, 0)).unwrap();
    let se = multiplied(s, v, Valued::Literal(by)).unwrap();
    assert(se.program == sd.program && se.pcc == sd.pcc);
    lemma_pair_keeps_prefix(sa, nib2(6, vd), 0);
    lemma_mul_layout(sb, v, vd, by, 0, bl);
    lemma_pair_keeps_prefix(sc, nib2(8, v), nib2(vd, 0));
    let len = mul_literal_len(by, bl);
    // the clear of the accumulator
    assert(m.mem[s.pcc as int] == nib2(6, vd));
    assert(m.mem[s.pcc + 1] == 0);
    lemma_step_clear(m, vd);
    let m1 = run_one(m);
    assert(run(m, 1) == m1) by {
        reveal_with_fuel(run, 2);
    }
    // the multiplication proper
    assert forall|a: int| sb.pcc <= a < sc.pcc implies #[trigger] m1.mem[a] == sc.program[a] by {
        assert(m.mem[a] == se.program[a]);
    }
    lemma_mul_run(sb, v, vd, by, bl, m1);
    let m2 = run(m1, len);
    lemma_run_add(m, 1, len);
    // the move of the result
    assert(m2.mem[sc.pcc as int] == nib2(8, v));
    assert(m2.mem[sc.pcc + 1] == nib2(vd, 0));
    lemma_step_move(m2, v, vd);
    assert(run(m, 1 + len + 1) == run_one(run(m, 1 + len)));
    assert((se.pcc - s.pcc) / 2 == len + 2);
}

/// 8XYN: the arithmetic instruction on X and Y.
proof fn lemma_op_alu(r: Machine, x: u8, y: u8, n: u8)
    requires
        x < 16,
        y < 16,
        n < 16,
        r.v.len() == 16,
        r.pc < 0x1000,
        r.mem[r.pc as int] == nib2(8, x),
        r.mem[r.pc + 1] == nib2(y, n),
    ensures
        run_one(r) == (Machine { pc: (r.pc + 2) as usize, v: alu(r.v, x as int, y as int, n as u16), ..r }),
{
    lemma_nibbles(8, x);
    lemma_nibbles(y, n);
    lemma_word_of(nib2(8, x), nib2(y, n));
}

/// 6XNN and 7XNN: load X, add to X.
proof fn lemma_op_imm(r: Machine, o: u8, x: u8, nn: u8)
    requires
        o == 6 || o == 7,
        x < 16,
        r.v.len() == 16,
        r.pc < 0x1000,
        r.mem[r.pc as int] == nib2(o, x),
        r.mem[r.pc + 1] == nn,
    ensures
        run_one(r) == (Machine {
            pc: (r.pc + 2) as usize,
            v: r.v.update(x as int, if o == 6 { nn } else { ((r.v[x as int] + nn) % 256) as u8 }),
            ..r
        }),
{
    lemma_nibbles(o, x);
    lemma_word_of(nib2(o, x), nn);
}

/// 3XNN and 4XNN: skip the next instruction when X equals, or does not
/// equal, NN.
proof fn lemma_op_skip(r: Machine, o: u8, x: u8, nn: u8)
    requires
        o == 3 || o == 4,
        x < 16,
        r.v.len() == 16,
        r.pc < 0x1000,
        r.mem[r.pc as int] == nib2(o, x),
        r.mem[r.pc + 1] == nn,
    ensures
        run_one(r) == (Machine {
            pc: (if (o == 3) == (r.v[x as int] == nn) { r.pc + 4 } else { r.pc + 2 }) as usize,
            ..r
        }),
{
    lemma_nibbles(o, x);
    lemma_word_of(nib2(o, x), nn);
}

/// 1NNN: jump to NNN.
proof fn lemma_op_jump(r: Machine, a: u16)
    requires
        a < 0x1000,
        r.pc < 0x1000,
        r.mem[r.pc as int] == nib2(1, hi8(a)),
        r.mem[r.pc + 1] == lo8(a),
    ensures
        run_one(r) == (Machine { pc: a as usize, ..r }),
{
    assert(hi8(a) < 16);
    lemma_nibbles(1, hi8(a));
    lemma_word_of(nib2(1, hi8(a)), lo8(a));
    assert(hi8(a) * 256 + lo8(a) == a);
}

proof fn lemma_pw_shift(j: nat)
    requires
        j < 8,
    ensures
        (1u8 << (j as u8)) as nat == pw(j),
{
    lemma_pw_small();
    if j == 0 {
        assert(1u8 << 0u8 == 1) by (bit_vector);
    } else if j == 1 {
        assert(1u8 << 1u8 == 2) by (bit_vector);
    } else if j == 2 {
        assert(1u8 << 2u8 == 4) by (bit_vector);
    } else if j == 3 {
        assert(1u8 << 3u8 == 8) by (bit_vector);
    } else if j == 4 {
        assert(1u8 << 4u8 == 16) by (bit_vector);
    } else if j == 5 {
        assert(1u8 << 5u8 == 32) by (bit_vector);
    } else if j == 6 {
        assert(1u8 << 6u8 == 64) by (bit_vector);
    } else {
        assert(1u8 << 7u8 == 128) by (bit_vector);
    }
}

/// The bytes of the code for `V *= variable`, from its first address `p`:
/// VD, VS, VT and VC are the accumulator, the bit mask, the test register
/// and the loop counter; VB holds the variable.
#[verifier::opaque]
pub open spec fn mul_variable_code(mem: Seq<u8>, p: int, v: u8, vd: u8, vs: u8, vt: u8, vc: u8, vb: u8) -> bool {
    &&& mem[p] == nib2(6, vd) && mem[p + 1] == 0
    &&& mem[p + 2] == nib2(6, vs) && mem[p + 3] == 1
    &&& mem[p + 4] == nib2(6, vc) && mem[p + 5] == 0
    &&& mem[p + 6] == nib2(8, vt) && mem[p + 7] == nib2(vb, 0)
    &&& mem[p + 8] == nib2(8, vt) && mem[p + 9] == nib2(vs, 2)
    &&& mem[p + 10] == nib2(4, vt) && mem[p + 11] == 0
    &&& mem[p + 12] == nib2(1, hi8((p + 16) as u16)) && mem[p + 13] == lo8((p + 16) as u16)
    &&& mem[p + 14] == nib2(8, vd) && mem[p + 15] == nib2(v, 4)
    &&& mem[p + 16] == nib2(8, vs) && mem[p + 17] == nib2(0, 0xE)
    &&& mem[p + 18] == nib2(8, v) && mem[p + 19] == nib2(0, 0xE)
    &&& mem[p + 20] == nib2(7, vc) && mem[p + 21] == 1
    &&& mem[p + 22] == nib2(3, vc) && mem[p + 23] == 8
    &&& mem[p + 24] == nib2(1, hi8((p + 6) as u16)) && mem[p + 25] == lo8((p + 6) as u16)
    &&& mem[p + 26] == nib2(8, v) && mem[p + 27] == nib2(vd, 0)
}

/// The registers at the start of round `j` of the multiplication loop.
pub open spec fn mul_variable_round(r: Machine, j: nat, v0: u8, b: u8, v: u8, vd: u8, vs: u8, vc: u8, vb: u8) -> bool {
    &&& r.v.len() == 16
    &&& r.v[vd as int] == (v0 * ((b as nat) % pw(j))) % 256
    &&& r.v[v as int] == (v0 * pw(j)) % 256
    &&& (j < 8 ==> r.v[vs as int] == pw(j))
    &&& r.v[vc as int] == j
    &&& r.v[vb as int] == b
}

/// Whether the registers are distinct and below VF.
pub open spec fn distinct_below_vf(v: u8, vd: u8, vs: u8, vt: u8, vc: u8, vb: u8) -> bool {
    &&& v < 15 && vd < 15 && vs < 15 && vt < 15 && vc < 15 && vb < 15
    &&& v != vd && v != vs && v != vt && v != vc && v != vb
    &&& vd != vs && vd != vt && vd != vc && vd != vb
    &&& vs != vt && vs != vc && vs != vb
    &&& vt != vc && vt != vb
    &&& vc != vb
}

proof fn lemma_run_small(r: Machine)
    ensures
        run(r, 1) == run_one(r),
        run(r, 3) == run_one(run_one(run_one(r))),
        run(r, 4) == run_one(run_one(run_one(run_one(r)))),
{
    reveal_with_fuel(run, 5);
}

/// The test of one bit: VT = VB & VS, then the skip over the jump when it is set.
proof fn lemma_round_test(r: Machine, p: int, j: nat, b: u8, v: u8, vd: u8, vs: u8, vt: u8, vc: u8, vb: u8)
    requires
        0 <= p,
        p + 28 < 0x1000,
        j < 8,
        distinct_below_vf(v, vd, vs, vt, vc, vb),
        mul_variable_code(r.mem, p, v, vd, vs, vt, vc, vb),
        r.pc == p + 6,
        r.v.len() == 16,
        r.v[vb as int] == b,
        r.v[vs as int] == pw(j),
    ensures
        ({
            let r3 = run(r, 3);
            &&& r3.mem == r.mem
            &&& r3.v.len() == 16
            &&& r3.v[v as int] == r.v[v as int]
            &&& r3.v[vd as int] == r.v[vd as int]
            &&& r3.v[vs as int] == r.v[vs as int]
            &&& r3.v[vc as int] == r.v[vc as int]
            &&& r3.v[vb as int] == r.v[vb as int]
            &&& r3.pc == if b & (1u8 << (j as u8)) != 0 { p + 14 } else { p + 12 }
        }),
{
    reveal(mul_variable_code);
    lemma_pw_shift(j);
    lemma_run_small(r);
    let r1 = run_one(r);
    lemma_op_alu(r, vt, vb, 0);
    let r2 = run_one(r1);
    lemma_op_alu(r1, vt, vs, 2);
    lemma_op_skip(r2, 4, vt, 0);
    assert(r2.v =~= r.v.update(vt as int, b & (1u8 << (j as u8))));
}

/// After the test: the addition VD += V when the bit is set, or the jump
/// over it when not.
proof fn lemma_round_add(r: Machine, p: int, bit: bool, v: u8, vd: u8, vs: u8, vt: u8, vc: u8, vb: u8)
    requires
        0 <= p,
        p + 28 < 0x1000,
        distinct_below_vf(v, vd, vs, vt, vc, vb),
        mul_variable_code(r.mem, p, v, vd, vs, vt, vc, vb),
        r.pc == if bit { p + 14 } else { p + 12 },
        r.v.len() == 16,
    ensures
        ({
            let r4 = run(r, 1);
            &&& r4.mem == r.mem
            &&& r4.pc == p + 16
            &&& r4.v.len() == 16
            &&& r4.v[vd as int] == if bit { (r.v[vd as int] + r.v[v as int]) % 256 } else { r.v[vd as int] as int }
            &&& r4.v[v as int] == r.v[v as int]
            &&& r4.v[vs as int] == r.v[vs as int]
            &&& r4.v[vc as int] == r.v[vc as int]
            &&& r4.v[vb as int] == r.v[vb as int]
        }),
{
    reveal(mul_variable_code);
    lemma_run_small(r);
    if bit {
        lemma_op_alu(r, vd, v, 4);
    } else {
        lemma_op_jump(r, (p + 16) as u16);
    }
}

/// The shifts of the mask and of V, the count, and the test of the count.
proof fn lemma_round_step(r: Machine, p: int, v: u8, vd: u8, vs: u8, vt: u8, vc: u8, vb: u8)
    requires
        0 <= p,
        p + 28 < 0x1000,
        distinct_below_vf(v, vd, vs, vt, vc, vb),
        mul_variable_code(r.mem, p, v, vd, vs, vt, vc, vb),
        r.pc == p + 16,
        r.v.len() == 16,
    ensures
        ({
            let r8 = run(r, 4);
            &&& r8.mem == r.mem
            &&& r8.v.len() == 16
            &&& r8.v[vs as int] == (r.v[vs as int] * 2) % 256
            &&& r8.v[v as int] == (r.v[v as int] * 2) % 256
            &&& r8.v[vc as int] == (r.v[vc as int] + 1) % 256
            &&& r8.v[vd as int] == r.v[vd as int]
            &&& r8.v[vb as int] == r.v[vb as int]
            &&& r8.pc == if (r.v[vc as int] + 1) % 256 == 8 { p + 26 } else { p + 24 }
        }),
{
    reveal(mul_variable_code);
    lemma_run_small(r);
    let r5 = run_one(r);
    lemma_op_alu(r, vs, 0, 0xE);
    let r6 = run_one(r5);
    lemma_op_alu(r5, v, 0, 0xE);
    let r7 = run_one(r6);
    lemma_op_imm(r6, 7, vc, 1);
    lemma_op_skip(r7, 3, vc, 8);
}

/// The first four cycles of a round: the bit test and the addition.
#[verifier::rlimit(80)]
#[verifier::spinoff_prover]
proof fn lemma_round_first(
    r: Machine,
    p: int,
    j: nat,
    v0: u8,
    b: u8,
    v: u8,
    vd: u8,
    vs: u8,
    vt: u8,
    vc: u8,
    vb: u8,
)
    requires
        0 <= p,
        p + 28 < 0x1000,
        j < 8,
        distinct_below_vf(v, vd, vs, vt, vc, vb),
        mul_variable_code(r.mem, p, v, vd, vs, vt, vc, vb),
        r.pc == p + 6,
        mul_variable_round(r, j, v0, b, v, vd, vs, vc, vb),
    ensures
        ({
            let r4 = run(r, 4);
            &&& r4.mem == r.mem
            &&& r4.pc == p + 16
            &&& r4.v.len() == 16
            &&& r4.v[vd as int] == (v0 * ((b as nat) % pw(j + 1))) % 256
            &&& r4.v[v as int] == (v0 * pw(j)) % 256
            &&& r4.v[vs as int] == pw(j)
            &&& r4.v[vc as int] == j
            &&& r4.v[vb as int] == b
        }),
{
    lemma_round_values(j, v0, b);
    let bit = b & (1u8 << (j as u8)) != 0;
    lemma_round_test(r, p, j, b, v, vd, vs, vt, vc, vb);
    let r3 = run(r, 3);
    lemma_round_add(r3, p, bit, v, vd, vs, vt, vc, vb);
    lemma_run_add(r, 3, 1);
}

/// The rest of a round: shifts, count, test of the count, jump back.
#[verifier::rlimit(80)]
#[verifier::spinoff_prover]
proof fn lemma_round_second(
    r: Machine,
    p: int,
    j: nat,
    v0: u8,
    b: u8,
    v: u8,
    vd: u8,
    vs: u8,
    vt: u8,
    vc: u8,
    vb: u8,
)
    requires
        0 <= p,
        p + 28 < 0x1000,
        j < 8,
        distinct_below_vf(v, vd, vs, vt, vc, vb),
        mul_variable_code(r.mem, p, v, vd, vs, vt, vc, vb),
        r.pc == p + 16,
        r.v.len() == 16,
        r.v[vd as int] == (v0 * ((b as nat) % pw(j + 1))) % 256,
        r.v[v as int] == (v0 * pw(j)) % 256,
        r.v[vs as int] == pw(j),
        r.v[vc as int] == j,
        r.v[vb as int] == b,
    ensures
        ({
            let r2 = run(r, if j < 7 { 5nat } else { 4nat });
            &&& r2.mem == r.mem
            &&& r2.pc == if j < 7 { p + 6 } else { p + 26 }
            &&& mul_variable_round(r2, j + 1, v0, b, v, vd, vs, vc, vb)
        }),
{
    lemma_round_values(j, v0, b);
    lemma_round_step(r, p, v, vd, vs, vt, vc, vb);
    let r8 = run(r, 4);
    if j < 7 {
        lemma_round_back(r8, p, v, vd, vs, vt, vc, vb);
        lemma_run_add(r, 4, 1);
    }
}

/// One round of the multiplication loop: nine cycles back to the loop start,
/// or eight to the end of the loop in the last round.
proof fn lemma_mul_variable_round(
    r: Machine,
    p: int,
    j: nat,
    v0: u8,
    b: u8,
    v: u8,
    vd: u8,
    vs: u8,
    vt: u8,
    vc: u8,
    vb: u8,
)
    requires
        0 <= p,
        p + 28 < 0x1000,
        j < 8,
        distinct_below_vf(v, vd, vs, vt, vc, vb),
        mul_variable_code(r.mem, p, v, vd, vs, vt, vc, vb),
        r.pc == p + 6,
        mul_variable_round(r, j, v0, b, v, vd, vs, vc, vb),
    ensures
        ({
            let r2 = run(r, if j < 7 { 9nat } else { 8nat });
            &&& r2.mem == r.mem
            &&& r2.pc == if j < 7 { p + 6 } else { p + 26 }
            &&& mul_variable_round(r2, j + 1, v0, b, v, vd, vs, vc, vb)
        }),
{
    lemma_round_first(r, p, j, v0, b, v, vd, vs, vt, vc, vb);
    let r4 = run(r, 4);
    lemma_round_second(r4, p, j, v0, b, v, vd, vs, vt, vc, vb);
    lemma_run_add(r, 4, if j < 7 { 5nat } else { 4nat });
}

proof fn lemma_round_values(j: nat, v0: u8, b: u8)
    requires
        j < 8,
    ensures
        ({
            let pj = pw(j);
            let d = (v0 * ((b as nat) % pj)) % 256;
            let vv = (v0 * pj) % 256;
            &&& pw(j + 1) == pj * 2
            &&& (if b & (1u8 << (j as u8)) != 0 { (d + vv) % 256 } else { d }) == (v0 * ((b as nat)
                % pw(j + 1))) % 256
            &&& (vv * 2) % 256 == (v0 * pw(j + 1)) % 256
            &&& j < 7 ==> (pj * 2) % 256 == pw(j + 1)
            &&& j < 8 ==> pj < 256
        }),
{
    lemma_pw_small();
    lemma_bit_test(b, j);
    lemma_pw_pos(j);
    let pj = pw(j);
    lemma_mod_breakdown(b as int, pj as int, 2);
    lemma_accumulate(0, v0 as int, ((b as nat) % pj) as int, pj as int);
    assert(pw(j + 1) == pj * 2);
    assert(pj <= 128) by {
        if j == 0 {} else if j == 1 {} else if j == 2 {} else if j == 3 {} else if j == 4 {}
        else if j == 5 {} else if j == 6 {} else {}
    }
    if j < 7 {
        assert(pj <= 64) by {
            if j == 0 {} else if j == 1 {} else if j == 2 {} else if j == 3 {} else if j == 4 {}
            else if j == 5 {} else {}
        }
        lemma_small_mod(pj * 2, 256);
    }
    let d = (v0 * ((b as nat) % pj)) % 256;
    let vv = (v0 * pj) % 256;
    assert((b as int) % ((pj as int) * 2) == (pj as int) * (((b as int) / (pj as int)) % 2) + (b as int) % (pj as int));
    assert((b as nat) % pw(j + 1) == (b as int) % ((pj as int) * 2));
    assert((b as nat) % pj == (b as int) % (pj as int));
    assert((b as nat) / pj == (b as int) / (pj as int));
    if b & (1u8 << (j as u8)) != 0 {
        assert(((b as nat) / pj) % 2 == 1);
        assert(((b as int) / (pj as int)) % 2 == 1);
        let t = ((b as int) / (pj as int)) % 2;
        assert((pj as int) * t == pj as int) by (nonlinear_arith)
            requires
                t == 1,
        ;
        assert((b as nat) % pw(j + 1) == (b as nat) % pj + pj);
        let lo = ((b as nat) % pj) as int;
        lemma_add_mod_noop(v0 * lo, v0 * (pj as int), 256);
        assert(v0 * lo + v0 * (pj as int) == v0 * (lo + pj)) by (nonlinear_arith);
        assert((d + vv) % 256 == (v0 * ((b as nat) % pw(j + 1))) % 256);
    } else {
        assert(((b as nat) / pj) % 2 == 0);
        assert(((b as int) / (pj as int)) % 2 == 0);
        let t = ((b as int) / (pj as int)) % 2;
        assert((pj as int) * t == 0) by (nonlinear_arith)
            requires
                t == 0,
        ;
        assert((b as nat) % pw(j + 1) == (b as nat) % pj);
    }
}

/// The jump back to the loop start.
proof fn lemma_round_back(r: Machine, p: int, v: u8, vd: u8, vs: u8, vt: u8, vc: u8, vb: u8)
    requires
        0 <= p,
        p + 28 < 0x1000,
        mul_variable_code(r.mem, p, v, vd, vs, vt, vc, vb),
        r.pc == p + 24,
    ensures
        run(r, 1) == (Machine { pc: (p + 6) as usize, ..r }),
{
    reveal(mul_variable_code);
    lemma_run_small(r);
    lemma_op_jump(r, (p + 6) as u16);
}

/// The cycles that the rounds from `j` to the last take.
pub open spec fn rounds_len(j: nat) -> nat {
    if j < 8 { (9 * (7 - j) + 8) as nat } else { 0 }
}

proof fn lemma_mul_variable_loop(
    r: Machine,
    p: int,
    j: nat,
    v0: u8,
    b: u8,
    v: u8,
    vd: u8,
    vs: u8,
    vt: u8,
    vc: u8,
    vb: u8,
)
    requires
        0 <= p,
        p + 28 < 0x1000,
        j < 8,
        distinct_below_vf(v, vd, vs, vt, vc, vb),
        mul_variable_code(r.mem, p, v, vd, vs, vt, vc, vb),
        r.pc == p + 6,
        mul_variable_round(r, j, v0, b, v, vd, vs, vc, vb),
    ensures
        ({
            let r2 = run(r, rounds_len(j));
            &&& r2.mem == r.mem
            &&& r2.pc == p + 26
            &&& mul_variable_round(r2, 8, v0, b, v, vd, vs, vc, vb)
        }),
    decreases 8 - j,
{
    lemma_mul_variable_round(r, p, j, v0, b, v, vd, vs, vt, vc, vb);
    if j < 7 {
        let r9 = run(r, 9);
        lemma_mul_variable_loop(r9, p, j + 1, v0, b, v, vd, vs, vt, vc, vb);
        lemma_run_add(r, 9, rounds_len(j + 1));
        assert(rounds_len(j) == 9 + rounds_len(j + 1));
    }
}

/// Running the code for `V *= variable` from its first word: 75 cycles
/// reach its end with V times the variable, modulo 256, in V.
proof fn lemma_mul_variable_exec(
    m: Machine,
    p: int,
    v: u8,
    vd: u8,
    vs: u8,
    vt: u8,
    vc: u8,
    vb: u8,
)
    requires
        0 <= p,
        p + 28 < 0x1000,
        distinct_below_vf(v, vd, vs, vt, vc, vb),
        mul_variable_code(m.mem, p, v, vd, vs, vt, vc, vb),
        m.pc == p,
        m.v.len() == 16,
    ensures
        ({
            let r = run(m, 75);
            &&& r.pc == p + 28
            &&& r.v[v as int] == (m.v[v as int] * m.v[vb as int]) % 256
            &&& r.v[vb as int] == m.v[vb as int]
        }),
{
    let v0 = m.v[v as int];
    let b = m.v[vb as int];
    lemma_mul_variable_prologue(m, p, v, vd, vs, vt, vc, vb);
    let r3 = run(m, 3);
    lemma_mul_variable_loop(r3, p, 0, v0, b, v, vd, vs, vt, vc, vb);
    lemma_run_add(m, 3, rounds_len(0));
    let r74 = run(m, 74);
    assert(r74 == run(r3, rounds_len(0)));
    lemma_pw_small();
    lemma_small_mod(b as nat, 256);
    assert(r74.v[vd as int] == (v0 * b) % 256);
    lemma_mul_variable_epilogue(r74, p, v, vd, vs, vt, vc, vb);
    lemma_run_add(m, 74, 1);
}

/// 6D00, 6S01, 6C00: the registers of the loop set up.
#[verifier::rlimit(60)]
#[verifier::spinoff_prover]
proof fn lemma_mul_variable_prologue(m: Machine, p: int, v: u8, vd: u8, vs: u8, vt: u8, vc: u8, vb: u8)
    requires
        0 <= p,
        p + 28 < 0x1000,
        distinct_below_vf(v, vd, vs, vt, vc, vb),
        mul_variable_code(m.mem, p, v, vd, vs, vt, vc, vb),
        m.pc == p,
        m.v.len() == 16,
    ensures
        ({
            let r3 = run(m, 3);
            &&& r3.mem == m.mem
            &&& r3.pc == p + 6
            &&& mul_variable_round(r3, 0, m.v[v as int], m.v[vb as int], v, vd, vs, vc, vb)
        }),
{
    reveal(mul_variable_code);
    lemma_pw_small();
    lemma_run_small(m);
    let r1 = run_one(m);
    lemma_op_imm(m, 6, vd, 0);
    let r2 = run_one(r1);
    lemma_op_imm(r1, 6, vs, 1);
    lemma_op_imm(r2, 6, vc, 0);
    let v0 = m.v[v as int];
    let b = m.v[vb as int];
    assert((b as nat) % pw(0) == 0);
    assert((v0 * 0) % 256 == 0);
    assert((v0 * pw(0)) % 256 == v0);
}

/// 8VD0: the product moved into V.
#[verifier::spinoff_prover]
proof fn lemma_mul_variable_epilogue(r: Machine, p: int, v: u8, vd: u8, vs: u8, vt: u8, vc: u8, vb: u8)
    requires
        0 <= p,
        p + 28 < 0x1000,
        distinct_below_vf(v, vd, vs, vt, vc, vb),
        mul_variable_code(r.mem, p, v, vd, vs, vt, vc, vb),
        r.pc == p + 26,
        r.v.len() == 16,
    ensures
        run(r, 1).pc == p + 28,
        run(r, 1).v[v as int] == r.v[vd as int],
        run(r, 1).v[vb as int] == r.v[vb as int],
{
    reveal(mul_variable_code);
    lemma_run_small(r);
    lemma_op_alu(r, v, vd, 0);
}

/// Taking a temporary register picks a free one below VF.
proof fn lemma_take_temp(s: StateView)
    requires
        s.regs.len() == 16,
        s.regs[15] is Var,
        with_register(s, Slot::Temp) is Some,
    ensures
        ({
            let (t, k) = with_register(s, Slot::Temp).unwrap();
            &&& k < 15
            &&& s.regs[k as int] is Free
            &&& t == (StateView { regs: s.regs.update(k as int, Slot::Temp), ..s })
        }),
{
    let k = first_free(s.regs).unwrap();
    assert(is_first_free(s.regs, k));
}

/// Marking a free register as a temporary does not change which register
/// holds a variable.
proof fn lemma_lookup_after_temp(s: StateView, k: int, name: Seq<char>)
    requires
        0 <= k < s.regs.len(),
        s.regs[k] is Free,
    ensures
        lookup((StateView { regs: s.regs.update(k, Slot::Temp), ..s }), name) == lookup(s, name),
{
    lemma_lookup_after_taking(s, k, Slot::Temp, name);
}

/// Giving a free register to anything but the variable `name` does not
/// change which register holds `name`.
proof fn lemma_lookup_after_taking(s: StateView, k: int, a: Slot, name: Seq<char>)
    requires
        0 <= k < s.regs.len(),
        s.regs[k] is Free,
        a != Slot::Var(name),
    ensures
        lookup((StateView { regs: s.regs.update(k, a), ..s }), name) == lookup(s, name),
{
    let r2 = s.regs.update(k, a);
    assert forall|i: int| 0 <= i < s.regs.len() implies holds_name(r2, i, name) == holds_name(s.regs, i, name) by {}
    if named_register(s.regs, name) is Some {
        let c = named_register(s.regs, name).unwrap();
        assert(is_first_named(s.regs, c, name));
        assert forall|j: int| 0 <= j < c implies !#[trigger] holds_name(r2, j, name) by {
            assert(holds_name(r2, j, name) == holds_name(s.regs, j, name));
        }
        assert(holds_name(r2, c, name) == holds_name(s.regs, c, name));
        assert(is_first_named(r2, c, name));
        lemma_first_named_unique(r2, c, name);
    } else {
        if named_register(r2, name) is Some {
            let c = named_register(r2, name).unwrap();
            assert(is_first_named(r2, c, name));
            assert forall|j: int| 0 <= j < c implies !#[trigger] holds_name(s.regs, j, name) by {
                assert(holds_name(r2, j, name) == holds_name(s.regs, j, name));
            }
            assert(holds_name(r2, c, name) == holds_name(s.regs, c, name));
            assert(is_first_named(s.regs, c, name));
            lemma_first_named_unique(s.regs, c, name);
        }
    }
}

/// The code emitted for `V *= variable`: its bytes, its length, and the
/// registers it uses.
#[verifier::rlimit(100)]
#[verifier::spinoff_prover]
proof fn lemma_mul_variable_layout(s: StateView, v: u8, name: String)
    requires
        valid(s),
        v < 15,
        !(s.regs[v as int] is Free),
        lookup(s, name@) is Some,
        lookup(s, name@).unwrap() < 15,
        lookup(s, name@).unwrap() != v,
        multiplied(s, v, Valued::Symbol(name)) is Some,
    ensures
        ({
            let f = multiplied(s, v, Valued::Symbol(name)).unwrap();
            &&& f.pcc == s.pcc + 28
            &&& exists|vd: u8, vs: u8, vt: u8, vc: u8|
                distinct_below_vf(v, vd, vs, vt, vc, lookup(s, name@).unwrap())
                && #[trigger] mul_variable_code(f.program, s.pcc as int, v, vd, vs, vt, vc, lookup(s, name@).unwrap())
        }),
{
    let p = s.pcc as int;
    let vb = lookup(s, name@).unwrap();
    let kb = named_register(s.regs, name@).unwrap();
    assert(is_first_named(s.regs, kb, name@));
    lemma_take_temp(s);
    let (s1, vd) = with_register(s, Slot::Temp).unwrap();
    lemma_lookup_after_temp(s, vd as int, name@);
    let s2 = with_pair(s1, nib2(6, vd), 0).unwrap();
    lemma_pair_keeps_prefix(s1, nib2(6, vd), 0);
    assert(lookup(s2, name@) == Some(vb));
    lemma_take_temp(s2);
    let (t1, vs) = with_register(s2, Slot::Temp).unwrap();
    lemma_lookup_after_temp(s2, vs as int, name@);
    lemma_take_temp(t1);
    let (t2, vt) = with_register(t1, Slot::Temp).unwrap();
    lemma_lookup_after_temp(t1, vt as int, name@);
    let t3 = with_pair(t2, nib2(6, vs), 1).unwrap();
    lemma_pair_keeps_prefix(t2, nib2(6, vs), 1);
    lemma_take_temp(t3);
    let (u1, vc) = with_register(t3, Slot::Temp).unwrap();
    let u2 = with_pair(u1, nib2(6, vc), 0).unwrap();
    lemma_pair_keeps_prefix(u1, nib2(6, vc), 0);
    let t4 = loop_opened(t3, Valued::Literal(8), Slot::Temp).unwrap();
    assert(t4.program == u2.program && t4.pcc == u2.pcc && t4.regs == u2.regs);
    assert(t4.sections == u2.sections.push(Section::Loop((p + 6) as u16, Valued::Literal(8))));
    assert(t4.loop_regs == u2.loop_regs.push(vc));
    let t5 = with_pair(t4, nib2(8, vt), nib2(vb, 0)).unwrap();
    lemma_pair_keeps_prefix(t4, nib2(8, vt), nib2(vb, 0));
    let t6 = with_pair(t5, nib2(8, vt), nib2(vs, 2)).unwrap();
    lemma_pair_keeps_prefix(t5, nib2(8, vt), nib2(vs, 2));
    let t6b = with_pair(t6, nib2(4, vt), 0).unwrap();
    lemma_pair_keeps_prefix(t6, nib2(4, vt), 0);
    let t7 = open_if(t6b).unwrap();
    let t8 = with_pair(t7, nib2(8, vd), nib2(v, 4)).unwrap();
    lemma_pair_keeps_prefix(t7, nib2(8, vd), nib2(v, 4));
    let t9 = if_closed(t8).unwrap();
    assert(t8.sections.last() == Section::If((p + 12) as u16));
    assert(t9.pcc == p + 16);
    let t10 = with_pair(t9, nib2(8, vs), nib2(0, 0xE)).unwrap();
    lemma_pair_keeps_prefix(t9, nib2(8, vs), nib2(0, 0xE));
    let t11 = with_pair(t10, nib2(8, v), nib2(0, 0xE)).unwrap();
    lemma_pair_keeps_prefix(t10, nib2(8, v), nib2(0, 0xE));
    assert(t11.sections.last() == Section::Loop((p + 6) as u16, Valued::Literal(8)));
    assert(t11.loop_regs.last() == vc);
    let w0 = StateView { sections: t11.sections.drop_last(), loop_regs: t11.loop_regs.drop_last(), ..t11 };
    let w1 = with_pair(w0, nib2(7, vc), 1).unwrap();
    lemma_pair_keeps_prefix(w0, nib2(7, vc), 1);
    let w2 = with_pair(w1, nib2(3, vc), 8).unwrap();
    lemma_pair_keeps_prefix(w1, nib2(3, vc), 8);
    let w3 = with_pair(w2, nib2(1, hi8((p + 6) as u16)), lo8((p + 6) as u16)).unwrap();
    lemma_pair_keeps_prefix(w2, nib2(1, hi8((p + 6) as u16)), lo8((p + 6) as u16));
    let t12 = loop_closed(t11).unwrap();
    assert(t12.program == w3.program && t12.pcc == w3.pcc);
    let s3 = mul_by_variable(s2, v, vd, name@).unwrap();
    assert(s3.program == w3.program && s3.pcc == w3.pcc);
    let s4 = with_pair(s3, nib2(8, v), nib2(vd, 0)).unwrap();
    lemma_pair_keeps_prefix(s3, nib2(8, v), nib2(vd, 0));
    let f = multiplied(s, v, Valued::Symbol(name)).unwrap();
    assert(f.program == s4.program && f.pcc == s4.pcc);
    assert(distinct_below_vf(v, vd, vs, vt, vc, vb));
    reveal(mul_variable_code);
    assert(mul_variable_code(f.program, p, v, vd, vs, vt, vc, vb));
}

/// Running the code that `V *= variable` emits, from its first word, for
/// 75 cycles, leaves V times the variable, modulo 256, in V and the
/// variable as it was; the program counter is then at the end of the code.
pub proof fn law_multiply_by_variable_runs(s: StateView, v: u8, name: String, m: Machine)
    requires
        valid(s),
        v < 15,
        !(s.regs[v as int] is Free),
        lookup(s, name@) is Some,
        lookup(s, name@).unwrap() < 15,
        lookup(s, name@).unwrap() != v,
        multiplied(s, v, Valued::Symbol(name)) is Some,
        m.pc == s.pcc,
        m.v.len() == 16,
        forall|a: int|
            s.pcc <= a < multiplied(s, v, Valued::Symbol(name)).unwrap().pcc ==> #[trigger] m.mem[a]
                == multiplied(s, v, Valued::Symbol(name)).unwrap().program[a],
    ensures
        ({
            let f = multiplied(s, v, Valued::Symbol(name)).unwrap();
            let b = lookup(s, name@).unwrap();
            let r = run(m, 75);
            &&& f.pcc == s.pcc + 28
            &&& r.pc == f.pcc
            &&& r.v[v as int] == (m.v[v as int] * m.v[b as int]) % 256
            &&& r.v[b as int] == m.v[b as int]
        }),
{
    lemma_mul_variable_layout(s, v, name);
    let f = multiplied(s, v, Valued::Symbol(name)).unwrap();
    let b = lookup(s, name@).unwrap();
    let p = s.pcc as int;
    let (vd, vs, vt, vc) = choose|vd: u8, vs: u8, vt: u8, vc: u8|
        distinct_below_vf(v, vd, vs, vt, vc, b)
        && #[trigger] mul_variable_code(f.program, p, v, vd, vs, vt, vc, b);
    assert(mul_variable_code(m.mem, p, v, vd, vs, vt, vc, b)) by {
        reveal(mul_variable_code);
    }
    lemma_mul_variable_exec(m, p, v, vd, vs, vt, vc, b);
}

/// The layout of an instruction emitted `k` times: it grows by whole
/// instructions and never rewrites what it has emitted.
proof fn lemma_repeated_layout(s0: StateView, b0: u8, b1: u8, j: nat, k: nat)
    requires
        s0.program.len() == 4096,
        j <= k,
        repeated(s0, b0, b1, k) is Some,
    ensures
        repeated(s0, b0, b1, j) is Some,
        ({
            let sj = repeated(s0, b0, b1, j).unwrap();
            let sk = repeated(s0, b0, b1, k).unwrap();
            &&& sk.pcc == s0.pcc + 2 * k
            &&& sj.pcc <= sk.pcc
            &&& sk.program.len() == 4096
            &&& forall|a: int| 0 <= a < sj.pcc ==> #[trigger] sk.program[a] == sj.program[a]
            &&& k > 0 ==> sk.program[s0.pcc + 2 * (k - 1)] == b0 && sk.program[s0.pcc + 2 * (k - 1) + 1] == b1
        }),
    decreases k,
{
    if k > 0 {
        let km = (k - 1) as nat;
        let s1 = repeated(s0, b0, b1, km);
        assert(s1 is Some);
        lemma_repeated_layout(s0, b0, b1, km, km);
        lemma_pair_keeps_prefix(s1.unwrap(), b0, b1);
        if j < k {
            lemma_repeated_layout(s0, b0, b1, j, km);
        }
    }
}

/// Running `j` left shifts of V (8V0E) multiplies V by 2^j, modulo 256.
proof fn lemma_shift_run(s0: StateView, v: u8, j: nat, k: nat, m: Machine)
    requires
        s0.program.len() == 4096,
        v < 15,
        j <= k,
        k <= 7,
        repeated(s0, nib2(8, v), nib2(0, 0xE), k) is Some,
        m.pc == s0.pcc,
        m.v.len() == 16,
        forall|a: int|
            s0.pcc <= a < repeated(s0, nib2(8, v), nib2(0, 0xE), k).unwrap().pcc ==> #[trigger] m.mem[a]
                == repeated(s0, nib2(8, v), nib2(0, 0xE), k).unwrap().program[a],
    ensures
        ({
            let r = run(m, j);
            &&& r.pc == s0.pcc + 2 * j
            &&& r.mem == m.mem
            &&& r.v.len() == 16
            &&& r.v[v as int] == (m.v[v as int] * pw(j)) % 256
            &&& forall|i: int| 0 <= i < 15 && i != v ==> #[trigger] r.v[i] == m.v[i]
        }),
    decreases j,
{
    if j == 0 {
        assert(pw(0) == 1);
        assert(m.v[v as int] * pw(0) == m.v[v as int]);
        assert((m.v[v as int] as int) % 256 == m.v[v as int]);
    } else {
        let jm = (j - 1) as nat;
        lemma_shift_run(s0, v, jm, k, m);
        let r1 = run(m, jm);
        lemma_repeated_layout(s0, nib2(8, v), nib2(0, 0xE), j, k);
        lemma_repeated_layout(s0, nib2(8, v), nib2(0, 0xE), j, j);
        let pos = s0.pcc + 2 * jm;
        assert(r1.mem[pos] == nib2(8, v));
        assert(r1.mem[pos + 1] == nib2(0, 0xE));
        lemma_op_alu(r1, v, 0, 0xE);
        lemma_pw_pos(jm);
        lemma_accumulate(0, m.v[v as int] as int, 0, pw(jm) as int);
        assert(pw(j) == pw(jm) * 2);
        let r = run_one(r1);
        assert(run(m, j) == r);
        assert(r.v[v as int] == ((r1.v[v as int] * 2) % 256) as u8);
        assert(r1.v[v as int] == (m.v[v as int] * pw(jm)) % 256);
        assert((((m.v[v as int] * pw(jm)) % 256) * 2) % 256 == (m.v[v as int] * (pw(jm) * 2)) % 256);
        assert(r.v[v as int] == (r1.v[v as int] * 2) % 256);
        assert(r.v[v as int] == (m.v[v as int] * (pw(jm) * 2)) % 256);
        assert(m.v[v as int] * (pw(jm) * 2) == m.v[v as int] * pw(j));
    }
}

/// The code that `V <<= k` emits holds exactly `k` instructions; run from
/// its first word, they leave V times 2^k, modulo 256, in V.
pub proof fn law_shift_left_runs(s: StateView, v: u8, k: u8, m: Machine)
    requires
        valid(s),
        v < 15,
        operated(s, v, Valued::Literal(k), Ops::Shl) is Some,
        m.pc == s.pcc,
        m.v.len() == 16,
        forall|a: int|
            s.pcc <= a < operated(s, v, Valued::Literal(k), Ops::Shl).unwrap().pcc ==> #[trigger] m.mem[a]
                == operated(s, v, Valued::Literal(k), Ops::Shl).unwrap().program[a],
    ensures
        ({
            let s1 = operated(s, v, Valued::Literal(k), Ops::Shl).unwrap();
            let r = run(m, k as nat);
            &&& s1.pcc == s.pcc + 2 * k
            &&& r.pc == s1.pcc
            &&& r.mem == m.mem
            &&& r.v.len() == 16
            &&& r.v[v as int] == (m.v[v as int] * pw(k as nat)) % 256
            &&& forall|i: int| 0 <= i < 15 && i != v ==> #[trigger] r.v[i] == m.v[i]
        }),
{
    lemma_repeated_layout(s, nib2(8, v), nib2(0, 0xE), k as nat, k as nat);
    lemma_shift_run(s, v, k as nat, k as nat, m);
}

/// The operations of an expression that emit one instruction: adding a
/// literal, a variable or a register, subtracting a variable, and-ing with a
/// variable. Run from its word, the code moves on by one instruction and
/// leaves in V the sum modulo 256, the difference modulo 256, or the bitwise
/// and; no register but V and VF changes, and the memory stays as it was.
#[verifier::spinoff_prover]
#[verifier::rlimit(60)]
pub proof fn law_operation_runs(s: StateView, v: u8, operand: Valued, operator: Ops, m: Machine)
    requires
        valid(s),
        v < 15,
        operator is Add || operator is Subtract || operator is BitAnd,
        operand matches Valued::Register(y) ==> y < 16,
        operated(s, v, operand, operator) is Some,
        m.pc == s.pcc,
        m.v.len() == 16,
        m.mem[s.pcc as int] == operated(s, v, operand, operator).unwrap().program[s.pcc as int],
        m.mem[s.pcc + 1] == operated(s, v, operand, operator).unwrap().program[s.pcc + 1],
    ensures
        ({
            let s1 = operated(s, v, operand, operator).unwrap();
            let a = m.v[v as int];
            let b: u8 = match operand {
                Valued::Literal(c) => c,
                Valued::Symbol(n) => m.v[lookup(s, n@).unwrap() as int],
                Valued::Register(y) => m.v[y as int],
                _ => 0,
            };
            let r = run_one(m);
            &&& s1.pcc == s.pcc + 2
            &&& r.pc == s1.pcc
            &&& r.mem == m.mem
            &&& r.v.len() == 16
            &&& r.v[v as int] == (match operator {
                Ops::Add => ((a + b) % 256) as u8,
                Ops::Subtract => ((a - b + 256) % 256) as u8,
                _ => a & b,
            })
            &&& forall|i: int| 0 <= i < 15 && i != v ==> #[trigger] r.v[i] == m.v[i]
        }),
{
    let s1 = operated(s, v, operand, operator).unwrap();
    let y: u8 = match operand {
        Valued::Symbol(n) => {
            if lookup(s, n@) is Some {
                let k = named_register(s.regs, n@).unwrap();
                assert(is_first_named(s.regs, k, n@));
            }
            match lookup(s, n@) {
                Some(y) => y,
                None => 0,
            }
        },
        Valued::Register(y) => y,
        _ => 0,
    };
    assert(y < 16);
    match operand {
        Valued::Literal(c) => {
            assert(operator is Add);
            assert(s1 == with_pair(s, nib2(7, v), c).unwrap());
            lemma_op_imm(m, 7, v, c);
        },
        _ => {
            let n: u8 = if operator is Add { 4 } else if operator is Subtract { 5 } else { 2 };
            assert(s1 == with_pair(s, nib2(8, v), nib2(y, n)).unwrap());
            lemma_op_alu(m, v, y, n);
        },
    }
}

/// The code that closes a counted loop, run from its first word: the
/// counter goes up by one, modulo 256; when it then equals the trip count
/// the loop is left, two instructions on, past the jump back; otherwise a
/// third instruction jumps back to the loop start. No other register changes.
#[verifier::spinoff_prover]
#[verifier::rlimit(60)]
pub proof fn law_loop_close_runs(s: StateView, m: Machine)
    requires
        valid(s),
        s.sections.len() > 0,
        s.loop_regs.len() > 0,
        s.loop_regs.last() < 16,
        s.sections.last() matches Section::Loop(start, Valued::Literal(_)) && start < 4096,
        loop_closed(s) is Some,
        m.pc == s.pcc,
        m.v.len() == 16,
        forall|a: int|
            s.pcc <= a < s.pcc + 6 ==> #[trigger] m.mem[a] == loop_closed(s).unwrap().program[a],
    ensures
        ({
            let start = s.sections.last()->Loop_0;
            let count = s.sections.last()->Loop_1->Literal_0;
            let lr = s.loop_regs.last();
            let c1 = ((m.v[lr as int] + 1) % 256) as u8;
            let r2 = run(m, 2);
            let r3 = run(m, 3);
            &&& loop_closed(s).unwrap().pcc == s.pcc + 6
            &&& r2.v == m.v.update(lr as int, c1)
            &&& r2 == (Machine {
                pc: (if c1 == count { s.pcc + 6 } else { s.pcc + 4 }) as usize,
                v: m.v.update(lr as int, c1),
                ..m
            })
            &&& c1 == count ==> r2.pc == s.pcc + 6
            &&& c1 != count ==> r3.pc == start && r3.v == r2.v
            &&& c1 != count ==> r3 == (Machine { pc: start as usize, ..r2 })
        }),
{
    let start = s.sections.last()->Loop_0;
    let count = s.sections.last()->Loop_1->Literal_0;
    let lr = s.loop_regs.last();
    let s1 = loop_closed(s).unwrap();
    assert(lr != 15);
    assert(s1.program[s.pcc as int] == nib2(7, lr));
    assert(s1.program[s.pcc + 1] == 1);
    assert(s1.program[s.pcc + 2] == nib2(3, lr));
    assert(s1.program[s.pcc + 3] == count);
    assert(s1.program[s.pcc + 4] == nib2(1, hi8(start)));
    assert(s1.program[s.pcc + 5] == lo8(start));
    let r1 = run(m, 1);
    assert(run(m, 0) == m);
    lemma_op_imm(m, 7, lr, 1);
    assert(r1 == run_one(m));
    lemma_op_skip(r1, 3, lr, count);
    let r2 = run(m, 2);
    assert(r2 == run_one(r1));
    if r2.pc == s.pcc + 4 {
        lemma_op_jump(r2, start);
        assert(run(m, 3) == run_one(r2));
    }
}

/// The code that closes a `while` loop on a variable, run from its first
/// word: when the variable is not zero the loop is left, past the jump back;
/// when it is zero, the next instruction jumps back to the loop start.
/// Registers are left as they were.
#[verifier::spinoff_prover]
#[verifier::rlimit(60)]
pub proof fn law_while_close_runs(s: StateView, name: String, m: Machine)
    requires
        valid(s),
        s.sections.len() > 0,
        s.loop_regs.len() > 0,
        s.sections.last() matches Section::Loop(start, _) && start < 4096,
        while_closed(s, Valued::Symbol(name)) is Some,
        m.pc == s.pcc,
        m.v.len() == 16,
        forall|a: int|
            s.pcc <= a < s.pcc + 4 ==> #[trigger] m.mem[a] == while_closed(s, Valued::Symbol(name)).unwrap().program[a],
    ensures
        ({
            let start = s.sections.last()->Loop_0;
            let x = lookup(s, name@).unwrap();
            let r1 = run(m, 1);
            let r2 = run(m, 2);
            &&& while_closed(s, Valued::Symbol(name)).unwrap().pcc == s.pcc + 4
            &&& r1.v == m.v
            &&& m.v[x as int] != 0 ==> r1.pc == s.pcc + 4
            &&& m.v[x as int] == 0 ==> r2.pc == start && r2.v == m.v
        }),
{
    let start = s.sections.last()->Loop_0;
    let s1 = while_closed(s, Valued::Symbol(name)).unwrap();
    let k = named_register(s.regs, name@).unwrap();
    assert(is_first_named(s.regs, k, name@));
    let x = lookup(s, name@).unwrap();
    assert(x < 16);
    assert(s1.program[s.pcc as int] == nib2(4, x));
    assert(s1.program[s.pcc + 1] == 0);
    assert(s1.program[s.pcc + 2] == nib2(1, hi8(start)));
    assert(s1.program[s.pcc + 3] == lo8(start));
    assert(run(m, 0) == m);
    lemma_op_skip(m, 4, x, 0);
    let r1 = run(m, 1);
    assert(r1 == run_one(m));
    if m.v[x as int] == 0 {
        lemma_op_jump(r1, start);
        assert(run(m, 2) == run_one(r1));
    }
}

/// A variable or register assigned a variable or register copies its value
/// when the emitted instruction runs: the target's register then holds the
/// source's value, and nothing else changes. The target is the given
/// register, the variable's register, or, for a new variable, the lowest
/// free one.
#[verifier::spinoff_prover]
#[verifier::rlimit(60)]
pub proof fn law_assign_copy_runs(s: StateView, variable: Valued, value: Valued, m: Machine)
    requires
        valid(s),
        variable is Symbol || variable is Register,
        value is Symbol || value is Register,
        variable matches Valued::Register(x) ==> x < 16,
        value matches Valued::Register(y) ==> y < 16,
        assigned(s, variable, value) is Some,
        m.pc == s.pcc,
        m.v.len() == 16,
        forall|a: int|
            s.pcc <= a < s.pcc + 2 ==> #[trigger] m.mem[a] == assigned(s, variable, value).unwrap().program[a],
    ensures
        ({
            let s1 = assigned(s, variable, value).unwrap();
            let t: int = match variable {
                Valued::Register(x) => x as int,
                Valued::Symbol(n) => match lookup(s, n@) {
                    Some(x) => x as int,
                    None => first_free(s.regs).unwrap(),
                },
                _ => 0,
            };
            let b: u8 = match value {
                Valued::Register(y) => m.v[y as int],
                Valued::Symbol(n) => match lookup(s, n@) {
                    Some(y) => m.v[y as int],
                    None => m.v[first_free(s.regs).unwrap()],
                },
                _ => 0,
            };
            let r = run_one(m);
            &&& s1.pcc == s.pcc + 2
            &&& r == (Machine { pc: s1.pcc as usize, v: m.v.update(t, b), ..m })
        }),
{
    let s1 = assigned(s, variable, value).unwrap();
    let (s0, x) = match variable {
        Valued::Symbol(n) => {
            if lookup(s, n@) is Some {
                let k = named_register(s.regs, n@).unwrap();
                assert(is_first_named(s.regs, k, n@));
                (s, lookup(s, n@).unwrap())
            } else {
                let k = first_free(s.regs).unwrap();
                assert(is_first_free(s.regs, k));
                with_register(s, Slot::Var(n@)).unwrap()
            }
        },
        Valued::Register(x) => (s, x),
        _ => (s, 0),
    };
    assert(x < 16);
    let y: u8 = match value {
        Valued::Symbol(n) => {
            if let Valued::Symbol(vn) = variable {
                if lookup(s, vn@) is None {
                    let k = first_free(s.regs).unwrap();
                    if n@ != vn@ {
                        lemma_lookup_after_taking(s, k, Slot::Var(vn@), n@);
                    } else {
                        let sl = assigned(s, variable, Valued::Literal(0));
                        assert(sl is Some && sl.unwrap().regs == s0.regs);
                        crate::laws::law_assign_then_lookup(s, vn, 0);
                        assert(lookup(s0, n@) == lookup(sl.unwrap(), n@));
                    }
                }
            }
            let k = named_register(s0.regs, n@).unwrap();
            assert(is_first_named(s0.regs, k, n@));
            lookup(s0, n@).unwrap()
        },
        Valued::Register(y) => y,
        _ => 0,
    };
    assert(y < 16);
    assert(s1 == with_pair(s0, nib2(8, x), nib2(y, 0)).unwrap());
    lemma_op_alu(m, x, y, 0);
}

/// The code for one coordinate of `draw`, run from its first word: a literal
/// is loaded into a temporary register by one instruction, a variable is
/// used where it is and costs nothing.
#[verifier::spinoff_prover]
#[verifier::rlimit(60)]
proof fn lemma_coordinate_runs(s: StateView, val: Valued, m: Machine)
    requires
        s.regs.len() == 16,
        s.program.len() == 4096,
        s.regs[15] is Var,
        val is Literal || val is Symbol,
        coordinate(s, val) is Some,
        m.pc == s.pcc,
        m.v.len() == 16,
        val is Literal ==> m.mem[s.pcc as int] == coordinate(s, val).unwrap().0.program[s.pcc as int]
            && m.mem[s.pcc + 1] == coordinate(s, val).unwrap().0.program[s.pcc + 1],
    ensures
        ({
            let (s1, reg) = coordinate(s, val).unwrap();
            let c: nat = if val is Literal { 1 } else { 0 };
            let value: u8 = match val {
                Valued::Literal(a) => a,
                Valued::Symbol(nm) => m.v[lookup(s, nm@).unwrap() as int],
                _ => 0,
            };
            &&& reg < 16
            &&& s1.pcc == s.pcc + 2 * c
            &&& s1.program.len() == 4096
            &&& s1.regs.len() == 16
            &&& s1.regs[15] is Var
            &&& s1.datas == s.datas
            &&& s1.program.subrange(0, s.pcc as int) == s.program.subrange(0, s.pcc as int)
            &&& forall|nm: Seq<char>| #[trigger] lookup(s1, nm) == lookup(s, nm)
            &&& val is Literal ==> reg < 15 && s1.regs[reg as int] is Temp
            &&& run(m, c) == (Machine { pc: s1.pcc as usize, v: m.v.update(reg as int, value), ..m })
        }),
{
    assert(run(m, 0) == m);
    match val {
        Valued::Literal(a) => {
            lemma_take_temp(s);
            let (sa, reg) = with_register(s, Slot::Temp).unwrap();
            assert forall|nm: Seq<char>| #[trigger] lookup(sa, nm) == lookup(s, nm) by {
                lemma_lookup_after_temp(s, reg as int, nm);
            }
            lemma_pair_keeps_prefix(sa, nib2(6, reg), a);
            let s1 = coordinate(s, val).unwrap().0;
            assert(s1.program.subrange(0, s.pcc as int) =~= s.program.subrange(0, s.pcc as int));
            lemma_op_imm(m, 6, reg, a);
            assert(run(m, 1) == run_one(m));
            assert(s1.pcc == s.pcc + 2);
            assert(s1.regs[reg as int] is Temp);
            assert(reg < 15);
            assert(s1.regs == sa.regs);
            assert forall|nm: Seq<char>| #[trigger] lookup(s1, nm) == lookup(s, nm) by {
                assert(lookup(sa, nm) == lookup(s, nm));
            }
            assert(run(m, 1) == (Machine { pc: s1.pcc as usize, v: m.v.update(reg as int, a), ..m }));
        },
        Valued::Symbol(nm) => {
            let k = named_register(s.regs, nm@).unwrap();
            assert(is_first_named(s.regs, k, nm@));
            let reg = lookup(s, nm@).unwrap();
            assert(m.v.update(reg as int, m.v[reg as int]) =~= m.v);
        },
        _ => {},
    }
}

/// The code that `draw` emits for a data block, run from its first word:
/// each literal coordinate costs one load, the index register is pointed at
/// the block, and the sprite is drawn at the two coordinates, wrapped to the
/// screen, with VF telling whether a lit pixel was turned off. The memory is
/// left as it was.
#[verifier::spinoff_prover]
#[verifier::rlimit(50)]
pub proof fn law_draw_data_runs(s: StateView, name: String, xval: Valued, yval: Valued, n: u8, m: Machine)
    requires
        valid(s),
        xval is Literal || xval is Symbol,
        yval is Literal || yval is Symbol,
        n < 16,
        s.datas.contains_key(name@),
        s.datas[name@].0 < 4096,
        drawn(s, Valued::Data(name), xval, yval, Valued::Literal(n)) is Some,
        m.pc == s.pcc,
        m.v.len() == 16,
        forall|a: int|
            s.pcc <= a < drawn(s, Valued::Data(name), xval, yval, Valued::Literal(n)).unwrap().pcc
                ==> #[trigger] m.mem[a] == drawn(s, Valued::Data(name), xval, yval, Valued::Literal(n)).unwrap().program[a],
    ensures
        ({
            let f = drawn(s, Valued::Data(name), xval, yval, Valued::Literal(n)).unwrap();
            let at = s.datas[name@].0;
            let xv: u8 = match xval {
                Valued::Literal(a) => a,
                Valued::Symbol(nm) => m.v[lookup(s, nm@).unwrap() as int],
                _ => 0,
            };
            let yv: u8 = match yval {
                Valued::Literal(b) => b,
                Valued::Symbol(nm) => m.v[lookup(s, nm@).unwrap() as int],
                _ => 0,
            };
            let k: nat = (if xval is Literal { 1nat } else { 0nat }) + (if yval is Literal { 1nat } else { 0nat }) + 2;
            let r = run(m, k);
            &&& f.pcc == s.pcc + 2 * k
            &&& r.pc == f.pcc
            &&& r.i == at
            &&& r.mem == m.mem
            &&& r.display == draw_display(m.display, m.mem, at as usize, n as u16, xv % 64, yv % 32)
            &&& r.v[15] == (if draw_collides(m.display, m.mem, at as usize, n as u16, xv % 64, yv % 32) { 1u8 } else { 0u8 })
        }),
{
    let f = drawn(s, Valued::Data(name), xval, yval, Valued::Literal(n)).unwrap();
    let at = s.datas[name@].0;
    let cx: nat = if xval is Literal { 1 } else { 0 };
    let cy: nat = if yval is Literal { 1 } else { 0 };
    let (s1, x) = coordinate(s, xval).unwrap();
    let (s2, y) = coordinate(s1, yval).unwrap();
    let s3 = with_pair(s2, nib2(0xA, hi8(at)), lo8(at)).unwrap();
    let s4 = with_pair(s3, nib2(0xD, x), nib2(y, n)).unwrap();
    assert(f.program == s4.program && f.pcc == s4.pcc);
    lemma_pair_keeps_prefix(s2, nib2(0xA, hi8(at)), lo8(at));
    lemma_pair_keeps_prefix(s3, nib2(0xD, x), nib2(y, n));
    // the first coordinate
    if xval is Literal {
        let c1 = coordinate(s, xval).unwrap().0;
        assert(c1.pcc == s.pcc + 2) by {
            lemma_take_temp(s);
        }
        lemma_coordinate_runs(s1, yval, Machine { pc: s1.pcc as usize, mem: s2.program, ..m });
        assert(s2.program.subrange(0, s1.pcc as int)[s.pcc as int] == s1.program.subrange(0, s1.pcc as int)[s.pcc as int]);
        assert(s2.program.subrange(0, s1.pcc as int)[s.pcc + 1] == s1.program.subrange(0, s1.pcc as int)[s.pcc + 1]);
        assert(m.mem[s.pcc as int] == f.program[s.pcc as int]);
        assert(m.mem[s.pcc + 1] == f.program[s.pcc + 1]);
    }
    lemma_coordinate_runs(s, xval, m);
    let m1 = run(m, cx);
    // the second coordinate
    if yval is Literal {
        assert(m1.mem[s1.pcc as int] == f.program[s1.pcc as int]);
        assert(m1.mem[s1.pcc + 1] == f.program[s1.pcc + 1]);
    }
    lemma_coordinate_runs(s1, yval, m1);
    let m2 = run(m1, cy);
    lemma_run_add(m, cx, cy);
    assert(m2 == run(m, cx + cy));
    // the values of the coordinate registers
    let xv: u8 = match xval {
        Valued::Literal(a) => a,
        Valued::Symbol(nm) => m.v[lookup(s, nm@).unwrap() as int],
        _ => 0,
    };
    let yv: u8 = match yval {
        Valued::Literal(b) => b,
        Valued::Symbol(nm) => m.v[lookup(s, nm@).unwrap() as int],
        _ => 0,
    };
    if let Valued::Symbol(nm) = yval {
        let ky = named_register(s1.regs, nm@).unwrap();
        assert(is_first_named(s1.regs, ky, nm@));
        assert(lookup(s1, nm@) == lookup(s, nm@));
        if xval is Literal {
            assert(s1.regs[x as int] is Temp);
            assert(y != x);
        }
    } else {
        let kf = first_free(s1.regs).unwrap();
        assert(is_first_free(s1.regs, kf));
        assert(s2.regs[y as int] is Temp);
        if let Valued::Symbol(nm) = xval {
            let kx = named_register(s.regs, nm@).unwrap();
            assert(is_first_named(s.regs, kx, nm@));
            assert(s1.regs[x as int] is Var);
        }
        assert(y != x);
    }
    assert(m2.v[x as int] == xv);
    assert(m2.v[y as int] == yv);
    // ANNN
    let p3 = s2.pcc as int;
    assert(m.mem[p3] == nib2(0xA, hi8(at)));
    assert(m.mem[p3 + 1] == lo8(at));
    assert(hi8(at) < 16);
    lemma_nibbles(0xA, hi8(at));
    lemma_word_of(nib2(0xA, hi8(at)), lo8(at));
    assert(hi8(at) * 256 + lo8(at) == at);
    let m3 = run_one(m2);
    assert(m3 == (Machine { pc: (p3 + 2) as usize, i: at as usize, ..m2 }));
    // DXYN
    assert(m.mem[p3 + 2] == nib2(0xD, x));
    assert(m.mem[p3 + 3] == nib2(y, n));
    lemma_nibbles(0xD, x);
    lemma_nibbles(y, n);
    lemma_word_of(nib2(0xD, x), nib2(y, n));
    let m4 = run_one(m3);
    assert(run(m, cx + cy + 1) == m3);
    assert(run(m, cx + cy + 2) == m4);
}

/// The instruction that opens a counted loop, run: the counter register,
/// the lowest free one, is set to zero, and the loop start recorded is the
/// instruction right after it.
#[verifier::spinoff_prover]
#[verifier::rlimit(60)]
pub proof fn law_loop_open_runs(s: StateView, count: Valued, a: Slot, m: Machine)
    requires
        valid(s),
        loop_opened(s, count, a) is Some,
        m.pc == s.pcc,
        m.v.len() == 16,
        forall|p: int| s.pcc <= p < s.pcc + 2 ==> #[trigger] m.mem[p] == loop_opened(s, count, a).unwrap().program[p],
    ensures
        ({
            let s1 = loop_opened(s, count, a).unwrap();
            let x = s1.loop_regs.last();
            &&& s1.pcc == s.pcc + 2
            &&& x == first_free(s.regs).unwrap()
            &&& s1.sections.last() == Section::Loop(s1.pcc, count)
            &&& run_one(m) == (Machine { pc: s1.pcc as usize, v: m.v.update(x as int, 0), ..m })
        }),
{
    let k = first_free(s.regs).unwrap();
    assert(is_first_free(s.regs, k));
    let (sa, x) = with_register(s, a).unwrap();
    lemma_pair_keeps_prefix(sa, nib2(6, x), 0);
    lemma_op_imm(m, 6, x, 0);
}

/// The code that points the index register at a sprite, run from its first
/// word: for a data block one instruction sets it to the block's address;
/// for a font character two instructions load the character into a
/// temporary register and set it to that character's glyph, five bytes per
/// glyph. No register but that temporary changes.
#[verifier::spinoff_prover]
#[verifier::rlimit(60)]
pub proof fn law_sprite_source_runs(s: StateView, data: Valued, m: Machine)
    requires
        valid(s),
        data is Literal || data is Data,
        data matches Valued::Data(nm) ==> s.datas[nm@].0 < 4096,
        sprite_source(s, data) is Some,
        m.pc == s.pcc,
        m.v.len() == 16,
        forall|p: int|
            s.pcc <= p < sprite_source(s, data).unwrap().pcc ==> #[trigger] m.mem[p] == sprite_source(s, data).unwrap().program[p],
    ensures
        ({
            let s1 = sprite_source(s, data).unwrap();
            let c: nat = if data is Literal { 2 } else { 1 };
            let r = run(m, c);
            &&& s1.pcc == s.pcc + 2 * c
            &&& r.pc == s1.pcc
            &&& r.i == (match data {
                Valued::Data(nm) => s.datas[nm@].0 as int,
                Valued::Literal(ch) => 5 * ch,
                _ => 0,
            })
            &&& r.mem == m.mem
            &&& r.display == m.display
            &&& forall|j: int| 0 <= j < 16 && !(s.regs[j] is Free) ==> #[trigger] r.v[j] == m.v[j]
        }),
{
    assert(run(m, 0) == m);
    match data {
        Valued::Data(nm) => {
            let at = s.datas[nm@].0;
            assert(hi8(at) < 16);
            lemma_nibbles(0xA, hi8(at));
            lemma_word_of(nib2(0xA, hi8(at)), lo8(at));
            assert(hi8(at) * 256 + lo8(at) == at);
            assert(run(m, 1) == run_one(m));
        },
        Valued::Literal(ch) => {
            lemma_take_temp(s);
            let (s1, t) = with_register(s, Slot::Temp).unwrap();
            let s2 = with_pair(s1, nib2(6, t), ch).unwrap();
            lemma_pair_keeps_prefix(s1, nib2(6, t), ch);
            lemma_pair_keeps_prefix(s2, nib2(0xF, t), 0x29);
            lemma_op_imm(m, 6, t, ch);
            let m1 = run_one(m);
            assert(run(m, 1) == m1);
            lemma_nibbles(0xF, t);
            lemma_word_of(nib2(0xF, t), 0x29);
            assert(run(m, 2) == run_one(m1));
        },
        _ => {},
    }
}

/// Whether an operation of an expression is one that the interpreter runs
/// instruction by instruction on V alone: an addition, a subtraction, an and
/// or a left shift, whose operand is not VF.
pub open spec fn simple_operation(s: StateView, item: (Valued, Ops)) -> bool {
    &&& item.1 is Add || item.1 is Subtract || item.1 is BitAnd || item.1 is Shl
    &&& item.0 matches Valued::Register(y) ==> y < 15
    &&& item.0 matches Valued::Symbol(n) ==> lookup(s, n@) != Some(15u8)
}

/// The number of instructions an operation runs: `k` for a shift by `k`,
/// one for the others.
pub open spec fn operation_cycles(item: (Valued, Ops)) -> nat {
    match (item.1, item.0) {
        (Ops::Shl, Valued::Literal(k)) => k as nat,
        _ => 1,
    }
}

/// The number of instructions an expression runs.
pub open spec fn expression_cycles(e: Seq<(Valued, Ops)>) -> nat
    decreases e.len(),
{
    if e.len() == 0 {
        0
    } else {
        expression_cycles(e.drop_last()) + operation_cycles(e.last())
    }
}

/// The value of an operand while V holds `cur`: a literal, or the register
/// of a variable or a given register, which is `cur` when it is V itself.
pub open spec fn operand_value(s: StateView, v: u8, operand: Valued, regs: Seq<u8>, cur: u8) -> u8 {
    let y: Option<u8> = match operand {
        Valued::Symbol(n) => lookup(s, n@),
        Valued::Register(y) => Some(y),
        _ => None,
    };
    match operand {
        Valued::Literal(c) => c,
        _ => match y {
            Some(y) => if y == v { cur } else { regs[y as int] },
            None => 0,
        },
    }
}

/// `cur` after one operation with operand value `b`, in 8-bit arithmetic.
pub open spec fn operation_result(item: (Valued, Ops), cur: u8, b: u8) -> u8 {
    match item.1 {
        Ops::Add => ((cur + b) % 256) as u8,
        Ops::Subtract => ((cur - b + 256) % 256) as u8,
        Ops::BitAnd => cur & b,
        Ops::Shl => match item.0 {
            Valued::Literal(k) => ((cur * pw(k as nat)) % 256) as u8,
            _ => cur,
        },
        _ => cur,
    }
}

/// The value of V after the operations of an expression, applied in order
/// from its value `a`, with the other registers holding `regs`.
pub open spec fn expression_value(s: StateView, v: u8, e: Seq<(Valued, Ops)>, regs: Seq<u8>, a: u8) -> u8
    decreases e.len(),
{
    if e.len() == 0 {
        a
    } else {
        let cur = expression_value(s, v, e.drop_last(), regs, a);
        operation_result(e.last(), cur, operand_value(s, v, e.last().0, regs, cur))
    }
}

/// Emitting an instruction `k` times changes nothing but the code and the
/// code address.
proof fn lemma_repeated_frame(s: StateView, b0: u8, b1: u8, k: nat)
    requires
        repeated(s, b0, b1, k) is Some,
    ensures
        ({
            let r = repeated(s, b0, b1, k).unwrap();
            r == (StateView { program: r.program, pcc: r.pcc, ..s })
        }),
    decreases k,
{
    if k > 0 {
        assert(repeated(s, b0, b1, (k - 1) as nat) is Some);
        lemma_repeated_frame(s, b0, b1, (k - 1) as nat);
    }
}

/// An operation that runs on V alone changes nothing of the state but the
/// code after the code address and the code address itself.
#[verifier::spinoff_prover]
#[verifier::rlimit(60)]
proof fn lemma_simple_operation_frame(s: StateView, v: u8, item: (Valued, Ops))
    requires
        s.program.len() == 4096,
        simple_operation(s, item),
        operated(s, v, item.0, item.1) is Some,
    ensures
        ({
            let r = operated(s, v, item.0, item.1).unwrap();
            &&& r == (StateView { program: r.program, pcc: r.pcc, ..s })
            &&& r.pcc == s.pcc + 2 * operation_cycles(item)
            &&& r.program.len() == 4096
            &&& forall|a: int| 0 <= a < s.pcc ==> #[trigger] r.program[a] == s.program[a]
        }),
{
    if item.1 is Shl {
        let k = item.0->Literal_0;
        lemma_repeated_frame(s, nib2(8, v), nib2(0, 0xE), k as nat);
        lemma_repeated_layout(s, nib2(8, v), nib2(0, 0xE), 0, k as nat);
    } else {
        let b0 = operated(s, v, item.0, item.1).unwrap().program[s.pcc as int];
        let b1 = operated(s, v, item.0, item.1).unwrap().program[s.pcc + 1];
        assert(operated(s, v, item.0, item.1) == with_pair(s, b0, b1));
        lemma_pair_keeps_prefix(s, b0, b1);
    }
}

/// The code of an expression made of additions, subtractions, ands and
/// left shifts, run from its first word for as many cycles as it has
/// instructions, applies the operations to V in order: V then holds the
/// expression's value, in 8-bit arithmetic, and no other register below VF
/// changes.
#[verifier::spinoff_prover]
#[verifier::rlimit(60)]
pub proof fn law_expression_runs(s: StateView, v: u8, e: Seq<(Valued, Ops)>, m: Machine)
    requires
        valid(s),
        v < 15,
        forall|k: int| 0 <= k < e.len() ==> simple_operation(s, #[trigger] e[k]),
        operated_all(s, v, e) is Some,
        m.pc == s.pcc,
        m.v.len() == 16,
        forall|a: int|
            s.pcc <= a < operated_all(s, v, e).unwrap().pcc ==> #[trigger] m.mem[a] == operated_all(s, v, e).unwrap().program[a],
    ensures
        ({
            let f = operated_all(s, v, e).unwrap();
            let c = expression_cycles(e);
            let r = run(m, c);
            &&& f == (StateView { program: f.program, pcc: f.pcc, ..s })
            &&& f.pcc == s.pcc + 2 * c
            &&& r.pc == f.pcc
            &&& r.mem == m.mem
            &&& r.v.len() == 16
            &&& r.v[v as int] == expression_value(s, v, e, m.v, m.v[v as int])
            &&& forall|i: int| 0 <= i < 15 && i != v ==> #[trigger] r.v[i] == m.v[i]
        }),
    decreases e.len(),
{
    if e.len() == 0 {
        assert(run(m, 0) == m);
    } else {
        let e1 = e.drop_last();
        let item = e.last();
        let s1 = operated_all(s, v, e1).unwrap();
        let f = operated_all(s, v, e).unwrap();
        assert(simple_operation(s, e[e.len() - 1]));
        assert forall|k: int| 0 <= k < e1.len() implies simple_operation(s, #[trigger] e1[k]) by {
            assert(e1[k] == e[k]);
        }
        lemma_expression_frame(s, v, e1);
        assert(lookup(s1, item.0->Symbol_0@) == lookup(s, item.0->Symbol_0@));
        assert(simple_operation(s1, item));
        lemma_simple_operation_frame(s1, v, item);
        law_expression_runs(s, v, e1, m);
        let c1 = expression_cycles(e1);
        let m1 = run(m, c1);
        let cur = expression_value(s, v, e1, m.v, m.v[v as int]);
        let cl = operation_cycles(item);
        assert forall|a: int| s1.pcc <= a < f.pcc implies #[trigger] m1.mem[a] == operated(s1, v, item.0, item.1).unwrap().program[a] by {}
        if item.1 is Shl {
            let k = item.0->Literal_0;
            assert(valid(s1));
            law_shift_left_runs(s1, v, k, m1);
        } else {
            law_operation_runs(s1, v, item.0, item.1, m1);
            if let Valued::Symbol(n) = item.0 {
                let kn = named_register(s.regs, n@).unwrap();
                assert(is_first_named(s.regs, kn, n@));
            }
        }
        lemma_run_add(m, c1, cl);
        assert(run(m, expression_cycles(e)) == run(m1, cl));
    }
}

/// The code of such an expression changes nothing of the state but the code
/// and the code address.
#[verifier::spinoff_prover]
#[verifier::rlimit(60)]
proof fn lemma_expression_frame(s: StateView, v: u8, e: Seq<(Valued, Ops)>)
    requires
        s.program.len() == 4096,
        forall|k: int| 0 <= k < e.len() ==> simple_operation(s, #[trigger] e[k]),
        operated_all(s, v, e) is Some,
    ensures
        ({
            let f = operated_all(s, v, e).unwrap();
            &&& f == (StateView { program: f.program, pcc: f.pcc, ..s })
            &&& f.pcc == s.pcc + 2 * expression_cycles(e)
            &&& f.program.len() == 4096
            &&& forall|a: int| 0 <= a < s.pcc ==> #[trigger] f.program[a] == s.program[a]
        }),
    decreases e.len(),
{
    if e.len() > 0 {
        let e1 = e.drop_last();
        assert forall|k: int| 0 <= k < e1.len() implies simple_operation(s, #[trigger] e1[k]) by {
            assert(e1[k] == e[k]);
        }
        assert(simple_operation(s, e[e.len() - 1]));
        lemma_expression_frame(s, v, e1);
        let s1 = operated_all(s, v, e1).unwrap();
        assert(lookup(s1, e.last().0->Symbol_0@) == lookup(s, e.last().0->Symbol_0@));
        assert(simple_operation(s1, e.last()));
        lemma_simple_operation_frame(s1, v, e.last());
    }
}

/// The value of an expression depends on the state only through which
/// register holds each variable.
proof fn lemma_expression_value_lookups(s: StateView, t: StateView, v: u8, e: Seq<(Valued, Ops)>, regs: Seq<u8>, a: u8)
    requires
        forall|n: Seq<char>| #[trigger] lookup(s, n) == lookup(t, n),
    ensures
        expression_value(s, v, e, regs, a) == expression_value(t, v, e, regs, a),
    decreases e.len(),
{
    if e.len() > 0 {
        lemma_expression_value_lookups(s, t, v, e.drop_last(), regs, a);
        if let Valued::Symbol(n) = e.last().0 {
            assert(lookup(s, n@) == lookup(t, n@));
        }
    }
}

/// The code of `if_start` on an expression, run from its first word: the
/// expression is computed into the lowest free register, then tested; the
/// block is entered exactly when the expression's value equals the
/// condition, or, with no condition, is not zero. Otherwise the program
/// counter stops at the jump past the block.
#[verifier::spinoff_prover]
#[verifier::rlimit(60)]
pub proof fn law_if_expression_runs(s: StateView, cond: Option<u8>, variable: Valued, m: Machine)
    requires
        valid(s),
        variable is Expression,
        forall|k: int|
            0 <= k < variable->Expression_0@.len() ==> simple_operation(s, #[trigger] variable->Expression_0@[k]),
        if_opened(s, cond, variable) is Some,
        m.pc == s.pcc,
        m.v.len() == 16,
        forall|a: int|
            s.pcc <= a < if_opened(s, cond, variable).unwrap().pcc - 2 ==> #[trigger] m.mem[a] == if_opened(s, cond, variable).unwrap().program[a],
    ensures
        ({
            let f = if_opened(s, cond, variable).unwrap();
            let e = variable->Expression_0@;
            let d = first_free(s.regs).unwrap();
            let value = expression_value(s, d as u8, e, m.v, m.v[d]);
            let r = run(m, expression_cycles(e) + 1);
            let enter = match cond {
                Some(c) => value == c,
                None => value != 0,
            };
            &&& f.pcc == s.pcc + 2 * expression_cycles(e) + 4
            &&& r.pc == (if enter { f.pcc as int } else { f.pcc - 2 })
        }),
{
    let f = if_opened(s, cond, variable).unwrap();
    let e = variable->Expression_0@;
    lemma_take_temp(s);
    let (s1, d) = with_register(s, Slot::Temp).unwrap();
    let k = first_free(s.regs).unwrap();
    assert(is_first_free(s.regs, k));
    assert forall|n: Seq<char>| #[trigger] lookup(s, n) == lookup(s1, n) by {
        lemma_lookup_after_temp(s, d as int, n);
    }
    assert forall|j: int| 0 <= j < e.len() implies simple_operation(s1, #[trigger] e[j]) by {
        assert(simple_operation(s, e[j]));
        if let Valued::Symbol(n) = e[j].0 {
            assert(lookup(s, n@) == lookup(s1, n@));
        }
    }
    assert(valid(s1));
    let s2 = operated_all(s1, d, e).unwrap();
    lemma_expression_frame(s1, d, e);
    let o: u8 = if cond is Some { 3 } else { 4 };
    let nn: u8 = match cond {
        Some(c) => c,
        None => 0,
    };
    let s3 = with_pair(s2, nib2(o, d), nn).unwrap();
    lemma_pair_keeps_prefix(s2, nib2(o, d), nn);
    assert(f.program == s3.program && f.pcc == s3.pcc + 2);
    law_expression_runs(s1, d, e, m);
    lemma_expression_value_lookups(s, s1, d, e, m.v, m.v[d as int]);
    let c = expression_cycles(e);
    let m2 = run(m, c);
    assert(m2.mem[s2.pcc as int] == nib2(o, d));
    assert(m2.mem[s2.pcc + 1] == nn);
    lemma_op_skip(m2, o, d, nn);
    assert(run(m, c + 1) == run_one(m2));
}

/// Whether the body of a loop, from `start`, reaches `end` in `b` cycles on
/// every machine with memory `mem`, keeping the memory and the counter
/// register `lr`.
pub open spec fn body_keeps_counter(mem: Seq<u8>, start: int, end: int, b: nat, lr: u8) -> bool {
    forall|m2: Machine|
        m2.pc == start && m2.mem == mem && m2.v.len() == 16 ==> {
            let r = #[trigger] run(m2, b);
            &&& r.pc == end
            &&& r.mem == mem
            &&& r.v.len() == 16
            &&& r.v[lr as int] == m2.v[lr as int]
        }
}

/// A counted loop runs its body as many times as its count says (256 times
/// for a count of zero, which the 8-bit counter reaches by wrapping): given
/// a body that goes from the loop start to the closing code in `b` cycles
/// without touching the counter, the loop start is reached with the counter
/// at each `i` below the count, after `i` rounds of `b + 3` cycles, and the
/// loop is left, past the jump back, with the counter at the count.
#[verifier::spinoff_prover]
#[verifier::rlimit(60)]
pub proof fn law_counted_loop_runs(s: StateView, b: nat, m: Machine)
    requires
        valid(s),
        s.sections.len() > 0,
        s.loop_regs.len() > 0,
        s.loop_regs.last() < 16,
        s.sections.last() matches Section::Loop(start, Valued::Literal(_)) && start < 4096,
        loop_closed(s) is Some,
        body_keeps_counter(m.mem, s.sections.last()->Loop_0 as int, s.pcc as int, b, s.loop_regs.last()),
        m.pc == s.sections.last()->Loop_0,
        m.v.len() == 16,
        m.v[s.loop_regs.last() as int] == 0,
        forall|a: int|
            s.pcc <= a < s.pcc + 6 ==> #[trigger] m.mem[a] == loop_closed(s).unwrap().program[a],
    ensures
        ({
            let start = s.sections.last()->Loop_0;
            let count = s.sections.last()->Loop_1->Literal_0;
            let lr = s.loop_regs.last();
            let rounds: nat = if count == 0 { 256 } else { count as nat };
            let r = run(m, (rounds * (b + 3) - 1) as nat);
            &&& forall|i: nat| i < rounds ==> {
                let ri = #[trigger] run(m, i * (b + 3));
                ri.pc == start && ri.v[lr as int] == i
            }
            &&& r.pc == s.pcc + 6
            &&& r.v[lr as int] == count
            &&& r.mem == m.mem
        }),
{
    let start = s.sections.last()->Loop_0;
    let count = s.sections.last()->Loop_1->Literal_0;
    let lr = s.loop_regs.last();
    let rounds: nat = if count == 0 { 256 } else { count as nat };
    assert forall|i: nat| i < rounds implies {
        let ri = #[trigger] run(m, i * (b + 3));
        ri.pc == start && ri.v[lr as int] == i
    } by {
        lemma_loop_rounds(s, b, m, i);
    }
    let j = (rounds - 1) as nat;
    lemma_loop_rounds(s, b, m, j);
    let mj = run(m, j * (b + 3));
    let mb = run(mj, b);
    assert(mb.pc == s.pcc && mb.v[lr as int] == j);
    law_loop_close_runs(s, mb);
    assert(((mb.v[lr as int] + 1) % 256) as u8 == count);
    lemma_run_add(m, j * (b + 3), b);
    lemma_run_add(m, j * (b + 3) + b, 2);
    assert(j * (b + 3) + b + 2 == rounds * (b + 3) - 1) by (nonlinear_arith)
        requires
            j + 1 == rounds,
    ;
}

/// The loop start is reached the `i`-th time, for each `i` below the
/// count, with the counter at `i` and the memory as it was.
#[verifier::spinoff_prover]
#[verifier::rlimit(60)]
proof fn lemma_loop_rounds(s: StateView, b: nat, m: Machine, i: nat)
    requires
        valid(s),
        s.sections.len() > 0,
        s.loop_regs.len() > 0,
        s.loop_regs.last() < 16,
        s.sections.last() matches Section::Loop(start, Valued::Literal(_)) && start < 4096,
        loop_closed(s) is Some,
        body_keeps_counter(m.mem, s.sections.last()->Loop_0 as int, s.pcc as int, b, s.loop_regs.last()),
        m.pc == s.sections.last()->Loop_0,
        m.v.len() == 16,
        m.v[s.loop_regs.last() as int] == 0,
        forall|a: int|
            s.pcc <= a < s.pcc + 6 ==> #[trigger] m.mem[a] == loop_closed(s).unwrap().program[a],
        i < (if s.sections.last()->Loop_1->Literal_0 == 0 { 256 } else { s.sections.last()->Loop_1->Literal_0 as nat }),
    ensures
        ({
            let ri = run(m, i * (b + 3));
            &&& ri.pc == s.sections.last()->Loop_0
            &&& ri.v[s.loop_regs.last() as int] == i
            &&& ri.mem == m.mem
            &&& ri.v.len() == 16
        }),
    decreases i,
{
    let lr = s.loop_regs.last();
    let count = s.sections.last()->Loop_1->Literal_0;
    if i == 0 {
        assert(run(m, 0) == m);
    } else {
        let k = (i - 1) as nat;
        lemma_loop_rounds(s, b, m, k);
        let mk = run(m, k * (b + 3));
        let mb = run(mk, b);
        assert(mb.pc == s.pcc && mb.v[lr as int] == k);
        law_loop_close_runs(s, mb);
        assert(((mb.v[lr as int] + 1) % 256) as u8 != count);
        lemma_run_add(m, k * (b + 3), b);
        lemma_run_add(m, k * (b + 3) + b, 3);
        assert(k * (b + 3) + b + 3 == i * (b + 3)) by (nonlinear_arith)
            requires
                k + 1 == i,
        ;
    }
}

} // verus!
