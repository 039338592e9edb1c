//! What each CHIP-8 instruction does, stated instruction by instruction in
//! terms of the machine before and after.
use vstd::prelude::*;
use crate::bits::{row_bit, byte_bit};
use crate::cpu::{Machine, step, op_of, x_of, y_of, n_of, nn_of, nnn_of, drawn_rows};

verus! {

proof fn lemma_xyn(w: int, o: int, x: int, y: int, n: int)
    by (nonlinear_arith)
    requires
        0 <= o < 16,
        0 <= x < 16,
        0 <= y < 16,
        0 <= n < 16,
        w == o * 4096 + x * 256 + y * 16 + n,
    ensures
        w / 4096 == o,
        (w / 256) % 16 == x,
        (w / 16) % 16 == y,
        w % 16 == n,
        w % 256 == y * 16 + n,
        w % 4096 == x * 256 + y * 16 + n,
{
}

/// The word with nibbles `o`, `x`, `y`, `n`.
pub open spec fn word(o: int, x: int, y: int, n: int) -> u16 {
    (o * 4096 + x * 256 + y * 16 + n) as u16
}

proof fn lemma_word(o: int, x: int, y: int, n: int)
    requires
        0 <= o < 16,
        0 <= x < 16,
        0 <= y < 16,
        0 <= n < 16,
    ensures
        op_of(word(o, x, y, n)) == o,
        x_of(word(o, x, y, n)) == x,
        y_of(word(o, x, y, n)) == y,
        n_of(word(o, x, y, n)) == n,
        nn_of(word(o, x, y, n)) == y * 16 + n,
        nnn_of(word(o, x, y, n)) == x * 256 + y * 16 + n,
{
    lemma_xyn(o * 4096 + x * 256 + y * 16 + n, o, x, y, n);
}

/// 8XY0..8XY3 set VX to VY, VX | VY, VX & VY, VX ^ VY; nothing else changes.
pub proof fn law_register_ops(x: int, y: int, m: Machine, r: u8)
    requires
        0 <= x < 16,
        0 <= y < 16,
    ensures
        step(word(8, x, y, 0), m, r) == (Machine { v: m.v.update(x, m.v[y]), ..m }),
        step(word(8, x, y, 1), m, r) == (Machine { v: m.v.update(x, m.v[x] | m.v[y]), ..m }),
        step(word(8, x, y, 2), m, r) == (Machine { v: m.v.update(x, m.v[x] & m.v[y]), ..m }),
        step(word(8, x, y, 3), m, r) == (Machine { v: m.v.update(x, m.v[x] ^ m.v[y]), ..m }),
{
    lemma_word(8, x, y, 0);
    lemma_word(8, x, y, 1);
    lemma_word(8, x, y, 2);
    lemma_word(8, x, y, 3);
}

/// 6XNN sets VX to NN; 7XNN adds NN to VX, modulo 256, with VF untouched;
/// CXNN sets VX to the random byte masked with NN.
pub proof fn law_immediates(x: int, nn: int, m: Machine, r: u8)
    requires
        0 <= x < 16,
        0 <= nn < 256,
    ensures
        step(word(6, x, nn / 16, nn % 16), m, r) == (Machine { v: m.v.update(x, nn as u8), ..m }),
        step(word(7, x, nn / 16, nn % 16), m, r) == (Machine {
            v: m.v.update(x, ((m.v[x] + nn) % 256) as u8),
            ..m
        }),
        step(word(0xC, x, nn / 16, nn % 16), m, r) == (Machine { v: m.v.update(x, r & (nn as u8)), ..m }),
{
    lemma_word(6, x, nn / 16, nn % 16);
    lemma_word(7, x, nn / 16, nn % 16);
    lemma_word(0xC, x, nn / 16, nn % 16);
}

/// The skips move the program counter past the next instruction exactly
/// when their comparison holds: 3XNN when VX equals NN, 4XNN when it does
/// not, 5XY0 when VX equals VY, 9XY0 when it does not.
pub proof fn law_skips(x: int, y: int, nn: int, m: Machine, r: u8)
    requires
        0 <= x < 16,
        0 <= y < 16,
        0 <= nn < 256,
        m.pc + 2 <= usize::MAX,
    ensures
        step(word(3, x, nn / 16, nn % 16), m, r).pc == if m.v[x] == nn { m.pc + 2 } else { m.pc as int },
        step(word(4, x, nn / 16, nn % 16), m, r).pc == if m.v[x] != nn { m.pc + 2 } else { m.pc as int },
        step(word(5, x, y, 0), m, r).pc == if m.v[x] == m.v[y] { m.pc + 2 } else { m.pc as int },
        step(word(9, x, y, 0), m, r).pc == if m.v[x] != m.v[y] { m.pc + 2 } else { m.pc as int },
        step(word(3, x, nn / 16, nn % 16), m, r).v == m.v,
        step(word(4, x, nn / 16, nn % 16), m, r).v == m.v,
        step(word(5, x, y, 0), m, r).v == m.v,
        step(word(9, x, y, 0), m, r).v == m.v,
{
    lemma_word(3, x, nn / 16, nn % 16);
    lemma_word(4, x, nn / 16, nn % 16);
    lemma_word(5, x, y, 0);
    lemma_word(9, x, y, 0);
}

/// 1NNN jumps to NNN; 2NNN jumps there and pushes the address it came
/// from; ANNN points I at NNN; 00E0 clears the display; 00EE returns to the
/// last pushed address.
pub proof fn law_control(a: int, m: Machine, r: u8)
    requires
        0 <= a < 4096,
    ensures
        step(word(1, a / 256, (a / 16) % 16, a % 16), m, r) == (Machine { pc: a as usize, ..m }),
        step(word(2, a / 256, (a / 16) % 16, a % 16), m, r) == (Machine {
            pc: a as usize,
            stack: m.stack.push(m.pc),
            ..m
        }),
        step(word(0xA, a / 256, (a / 16) % 16, a % 16), m, r) == (Machine { i: a as usize, ..m }),
        step(0x00E0, m, r) == (Machine { display: Seq::new(32, |k: int| 0u64), ..m }),
        step(0x00EE, m, r) == (Machine { pc: m.stack.last(), stack: m.stack.drop_last(), ..m }),
{
    lemma_word(1, a / 256, (a / 16) % 16, a % 16);
    lemma_word(2, a / 256, (a / 16) % 16, a % 16);
    lemma_word(0xA, a / 256, (a / 16) % 16, a % 16);
    lemma_word(0, 0, 0xE, 0);
    lemma_word(0, 0, 0xE, 0xE);
    assert(word(0, 0, 0xE, 0) == 0x00E0);
    assert(word(0, 0, 0xE, 0xE) == 0x00EE);
}

/// FX07 reads the delay timer into VX; FX15 and FX18 set the delay and
/// sound timers from VX; FX1E adds VX to I; FX29 points I at the five-byte
/// font glyph of VX.
pub proof fn law_timers_and_index(x: int, m: Machine, r: u8)
    requires
        0 <= x < 16,
    ensures
        step(word(0xF, x, 0, 7), m, r) == (Machine { v: m.v.update(x, m.timer), ..m }),
        step(word(0xF, x, 1, 5), m, r) == (Machine { timer: m.v[x], ..m }),
        step(word(0xF, x, 1, 8), m, r) == (Machine { sound: m.v[x], ..m }),
        step(word(0xF, x, 1, 0xE), m, r) == (Machine { i: (m.i + m.v[x]) as usize, ..m }),
        step(word(0xF, x, 2, 9), m, r) == (Machine { i: (5 * m.v[x]) as usize, ..m }),
{
    lemma_word(0xF, x, 0, 7);
    lemma_word(0xF, x, 1, 5);
    lemma_word(0xF, x, 1, 8);
    lemma_word(0xF, x, 1, 0xE);
    lemma_word(0xF, x, 2, 9);
}

/// FX55 writes V0..VX to memory from I on, as far as memory reaches, and
/// changes nothing else; FX65 reads V0..VX back from there.
pub proof fn law_store_and_load(x: int, m: Machine, r: u8)
    requires
        0 <= x < 16,
        m.v.len() == 16,
    ensures
        ({
            let st = step(word(0xF, x, 5, 5), m, r);
            &&& st.mem.len() == m.mem.len()
            &&& st.v == m.v && st.i == m.i && st.pc == m.pc
            &&& forall|a: int|
                0 <= a < m.mem.len() ==> #[trigger] st.mem[a] == if m.i <= a <= m.i + x {
                    m.v[a - m.i]
                } else {
                    m.mem[a]
                }
        }),
        ({
            let ld = step(word(0xF, x, 6, 5), m, r);
            &&& ld.mem == m.mem && ld.i == m.i && ld.pc == m.pc
            &&& ld.v.len() == 16
            &&& forall|k: int|
                0 <= k < 16 ==> #[trigger] ld.v[k] == if k <= x && m.i + k < m.mem.len() {
                    m.mem[m.i + k]
                } else {
                    m.v[k]
                }
        }),
{
    lemma_word(0xF, x, 5, 5);
    lemma_word(0xF, x, 6, 5);
}

proof fn lemma_sprite_bit(d: u64, x: u64, c: u64)
    by (bit_vector)
    requires
        d < 256,
        x < 64,
        c < 64,
    ensures
        ((((d << 56u64) >> x) >> ((63 - c) as u64)) & 1 == 1) == (x <= c && c < x + 8 && ((d >> ((7 - (c - x)) as u64)) & 1 == 1)),
{
}

/// DXYN flips exactly the pixels that the sprite covers: in each drawn row
/// (from VY, at most N rows, not past the bottom), the pixel in column `c`
/// flips when `c` lies within the eight columns from VX and the sprite
/// byte for that row has the matching bit set; every other pixel stays.
/// Coordinates wrap at 64 and 32; nothing wraps past the edges.
pub proof fn law_draw_pixels(w: u16, m: Machine, r: u8, row: int, c: u8)
    requires
        op_of(w) == 0xD,
        m.v.len() == 16,
        m.display.len() == 32,
        0 <= row < 32,
        c < 64,
    ensures
        ({
            let m2 = step(w, m, r);
            let x0 = m.v[x_of(w) as int] % 64;
            let y0 = m.v[y_of(w) as int] % 32;
            row_bit(m.display[row] ^ m2.display[row], c) == (y0 <= row < y0 + n_of(w)
                && x0 <= c < x0 + 8 && byte_bit(m.mem[m.i + (row - y0)], (c - x0) as u8))
        }),
{
    let m2 = step(w, m, r);
    let x0 = (m.v[x_of(w) as int] % 64) as u8;
    let y0 = (m.v[y_of(w) as int] % 32) as u8;
    let a = m.display[row];
    let sh = (63 - c) as u64;
    assert((y0 <= row < y0 + drawn_rows(n_of(w), y0)) == (y0 <= row < y0 + n_of(w)));
    if y0 <= row < y0 + drawn_rows(n_of(w), y0) {
        let d = m.mem[m.i + (row - y0)];
        let mask = ((d as u64) << 56u64) >> (x0 as u64);
        assert(m2.display[row] == a ^ mask);
        assert(a ^ (a ^ mask) == mask) by (bit_vector);
        lemma_sprite_bit(d as u64, x0 as u64, c as u64);
        if x0 <= c < x0 + 8 {
            let k = (c - x0) as u8;
            assert(((d as u64 >> (7 - (c as u64 - x0 as u64)) as u64) & 1 == 1) == ((d >> (7 - k) as u8) & 1
                == 1)) by (bit_vector)
                requires
                    k < 8,
                    k == c - x0,
            ;
        }
    } else {
        assert(m2.display[row] == a);
        assert(((a ^ a) >> sh) & 1 == 0) by (bit_vector);
    }
}

} // verus!
