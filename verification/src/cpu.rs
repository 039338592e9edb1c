//! Executing CHIP-8 instructions.
use vstd::prelude::*;
use crate::bits::{check_bit_64, set_bit_64, check_bit_8, row_mask};
use crate::stack::Stack;

verus! {

/// The pixels that sprite byte `data` covers when drawn with its leftmost
/// pixel at column `x` of a 64-pixel row; pixels past the right edge are cut.
pub open spec fn sprite_mask(data: u8, x: u8) -> u64 {
    ((data as u64) << 56u64) >> (x as u64)
}

/// The pixels covered by the `k` leftmost bits of `data`, drawn at column `x`.
pub open spec fn partial_mask(d: u64, x: u64, k: u64) -> u64 {
    (((d >> ((8 - k) as u64)) << ((8 - k) as u64)) << 56u64) >> x
}

proof fn lemma_partial_empty(d: u64, x: u64)
    by (bit_vector)
    requires
        d < 256,
        x < 64,
    ensures
        partial_mask(d, x, 0) == 0,
{
}

proof fn lemma_partial_full(d: u64, x: u64, k: u64)
    by (bit_vector)
    requires
        d < 256,
        x < 64,
        k <= 8,
        x + k >= 64,
    ensures
        partial_mask(d, x, k) == (d << 56u64) >> x,
{
}

proof fn lemma_partial_all(d: u64, x: u64)
    by (bit_vector)
    requires
        d < 256,
        x < 64,
    ensures
        partial_mask(d, x, 8) == (d << 56u64) >> x,
{
}

proof fn lemma_partial_step(d: u64, x: u64, k: u64)
    by (bit_vector)
    requires
        d < 256,
        x < 64,
        k < 8,
        x + k < 64,
    ensures
        partial_mask(d, x, k) & (1u64 << ((63 - (x + k)) as u64)) == 0,
        (d >> ((7 - k) as u64)) & 1 == 1 ==> partial_mask(d, x, (k + 1) as u64) == partial_mask(d, x, k)
            | (1u64 << ((63 - (x + k)) as u64)),
        (d >> ((7 - k) as u64)) & 1 != 1 ==> partial_mask(d, x, (k + 1) as u64) == partial_mask(d, x, k),
{
}

proof fn lemma_toggle(row: u64, cur: u64, p: u64, bit: u64, s: u64, hit: bool)
    by (bit_vector)
    requires
        s < 64,
        bit == 1u64 << s,
        cur == row ^ p,
        p & bit == 0,
        hit == ((row & p) != 0),
    ensures
        ((cur & bit) != 0) == ((row & bit) != 0),
        (cur & bit) != 0 ==> (cur & !bit) == row ^ (p | bit),
        (cur & bit) == 0 ==> (cur | bit) == row ^ (p | bit),
        (hit || (row & bit) != 0) == ((row & (p | bit)) != 0),
{
}

proof fn lemma_bit_u8_u64(data: u8, k: u8)
    by (bit_vector)
    requires
        k < 8,
    ensures
        ((data >> (7 - k) as u8) & 1 == 1) == (((data as u64) >> (7 - k) as u64) & 1 == 1),
{
}

proof fn lemma_row_bit_mask(cur: u64, s: u64)
    by (bit_vector)
    requires
        s < 64,
    ensures
        ((cur >> s) & 1 == 1) == ((cur & (1u64 << s)) != 0),
{
}

/// Draws one sprite byte at column `x` of a display row: the covered pixels
/// flip. The flag tells whether a lit pixel was turned off.
pub fn draw_row(row: u64, data: u8, x: u8) -> (r: (u64, bool))
    requires
        x < 64,
    ensures
        r.0 == row ^ sprite_mask(data, x),
        r.1 == ((row & sprite_mask(data, x)) != 0),
{
    let mut cur = row;
    let mut hit = false;
    let mut ix: u8 = 0;
    let ghost d = data as u64;
    proof {
        lemma_partial_empty(d, x as u64);
        assert(row ^ 0u64 == row) by (bit_vector);
        assert(row & 0u64 == 0) by (bit_vector);
    }
    while ix < 8
        invariant
            x < 64,
            d == data as u64,
            ix <= 8,
            cur == row ^ partial_mask(d, x as u64, ix as u64),
            hit == ((row & partial_mask(d, x as u64, ix as u64)) != 0),
            x + ix <= 64,
            x + ix >= 64 ==> partial_mask(d, x as u64, ix as u64) == sprite_mask(data, x),
            ix == 8 ==> partial_mask(d, x as u64, ix as u64) == sprite_mask(data, x),
        ensures
            partial_mask(d, x as u64, ix as u64) == sprite_mask(data, x),
            cur == row ^ partial_mask(d, x as u64, ix as u64),
            hit == ((row & partial_mask(d, x as u64, ix as u64)) != 0),
        decreases 8 - ix,
    {
        let xx = x + ix;
        if xx == 64 {
            break;
        }
        let ghost p = partial_mask(d, x as u64, ix as u64);
        let ghost bit = row_mask(xx);
        proof {
            lemma_partial_step(d, x as u64, ix as u64);
            lemma_bit_u8_u64(data, ix);
            lemma_row_bit_mask(cur, (63 - xx) as u64);
            lemma_toggle(row, cur, p, bit, (63 - xx) as u64, hit);
            assert(bit == 1u64 << ((63 - (x as u64 + ix as u64)) as u64));
        }
        if check_bit_8(data, ix) {
            if check_bit_64(cur, xx) {
                set_bit_64(&mut cur, xx, false);
                hit = true;
            } else {
                set_bit_64(&mut cur, xx, true);
            }
        }
        ix += 1;
        proof {
            if ix == 8 {
                lemma_partial_all(d, x as u64);
            } else if x + ix >= 64 {
                lemma_partial_full(d, x as u64, ix as u64);
            }
        }
    }
    (cur, hit)
}


/// How many of `n` sprite rows fit on the display when the first lands on row `y`.
pub open spec fn drawn_rows(n: u16, y: u8) -> int {
    if n <= 32 - y { n as int } else { 32 - y }
}

/// The display after drawing the `n`-row sprite at `mem[i..]` with its top-left
/// pixel at (`x`, `y`): rows below the bottom edge are not drawn.
pub open spec fn draw_display(d: Seq<u64>, mem: Seq<u8>, i: usize, n: u16, x: u8, y: u8) -> Seq<u64> {
    Seq::new(
        d.len(),
        |r: int|
            if y <= r < y + drawn_rows(n, y) {
                d[r] ^ sprite_mask(mem[i + (r - y)], x)
            } else {
                d[r]
            },
    )
}

/// Whether drawing that sprite turns off a lit pixel.
pub open spec fn draw_collides(d: Seq<u64>, mem: Seq<u8>, i: usize, n: u16, x: u8, y: u8) -> bool {
    exists|r: int|
        y <= r < y + drawn_rows(n, y) && #[trigger] (d[r] & sprite_mask(mem[i + (r - y)], x)) != 0
}

/// The display after drawing the first `k` rows of the sprite.
spec fn draw_display_upto(d: Seq<u64>, mem: Seq<u8>, i: usize, k: int, x: u8, y: u8) -> Seq<u64> {
    Seq::new(
        d.len(),
        |r: int|
            if y <= r < y + k {
                d[r] ^ sprite_mask(mem[i + (r - y)], x)
            } else {
                d[r]
            },
    )
}

/// Whether the first `k` rows of the sprite turn off a lit pixel.
spec fn draw_collides_upto(d: Seq<u64>, mem: Seq<u8>, i: usize, k: int, x: u8, y: u8) -> bool {
    exists|r: int| y <= r < y + k && #[trigger] (d[r] & sprite_mask(mem[i + (r - y)], x)) != 0
}

/// DXYN: draws the `n`-row sprite at `chunk[i..]` at the position held in
/// registers `xr` and `yr`; VF becomes 1 if a lit pixel was turned off, else 0.
pub fn draw_sprite(d: &mut [u64; 32], v: &mut [u8; 16], i: usize, chunk: &[u8], xr: usize, yr: usize, n: u16)
    requires
        xr < 16,
        yr < 16,
        n < 16,
        i + n <= usize::MAX,
        i + drawn_rows(n, (old(v)@[yr as int] % 32) as u8) <= chunk@.len(),
    ensures
        ({
            let x0 = (old(v)@[xr as int] % 64) as u8;
            let y0 = (old(v)@[yr as int] % 32) as u8;
            &&& final(d)@ == draw_display(old(d)@, chunk@, i, n, x0, y0)
            &&& final(v)@ == old(v)@.update(
                15,
                if draw_collides(old(d)@, chunk@, i, n, x0, y0) { 1u8 } else { 0u8 },
            )
        }),
{
    let x: u8 = v[xr] % 64;
    let mut y: u8 = v[yr] % 32;
    let ghost y0 = y;
    let ghost d0 = d@;
    let ghost v0 = v@;
    v[15] = 0;
    let end = i + n as usize;
    let mut ii = i;
    assert(d@ =~= draw_display_upto(d0, chunk@, i, 0, x, y0));
    while ii < end
        invariant_except_break
            i <= ii <= end,
        invariant
            x < 64,
            y0 < 32,
            d0.len() == 32,
            v0.len() == 16,
            end == i + n,
            n < 16,
            y == y0 + (ii - i),
            y <= 32,
            i <= ii,
            ii - i <= n,
            i + drawn_rows(n, y0) <= chunk@.len(),
            d@ == draw_display_upto(d0, chunk@, i, ii - i, x, y0),
            v@ == v0.update(
                15,
                if draw_collides_upto(d0, chunk@, i, ii - i, x, y0) { 1u8 } else { 0u8 },
            ),
        ensures
            d@ == draw_display_upto(d0, chunk@, i, drawn_rows(n, y0), x, y0),
            v@ == v0.update(
                15,
                if draw_collides_upto(d0, chunk@, i, drawn_rows(n, y0), x, y0) { 1u8 } else { 0u8 },
            ),
        decreases end - ii,
    {
        if y == 32 {
            assert(ii - i == drawn_rows(n, y0));
            break;
        }
        let data_row = chunk[ii];
        assert(d@[y as int] == d0[y0 + (ii - i)]);
        let (row, hit) = draw_row(d[y as usize], data_row, x);
        let ghost k = ii - i;
        d[y as usize] = row;
        if hit {
            v[15] = 1;
        }
        ii += 1;
        y += 1;
        proof {
            assert(d@ =~= draw_display_upto(d0, chunk@, i, k + 1, x, y0));
            let r = y0 + k;
            assert(i + (r - y0) == i + k);
            if hit {
                assert(d0[r] & sprite_mask(chunk@[i + (r - y0)], x) != 0);
                assert(draw_collides_upto(d0, chunk@, i, k + 1, x, y0));
            } else {
                assert(d0[r] & sprite_mask(chunk@[i + (r - y0)], x) == 0);
                assert(draw_collides_upto(d0, chunk@, i, k + 1, x, y0) == draw_collides_upto(d0, chunk@, i, k, x, y0));
            }
            assert(v@ =~= v0.update(
                15,
                if draw_collides_upto(d0, chunk@, i, k + 1, x, y0) { 1u8 } else { 0u8 },
            ));
        }
    }
    assert(draw_display_upto(d0, chunk@, i, drawn_rows(n, y0), x, y0) =~= draw_display(d0, chunk@, i, n, x, y0));
}


/// The registers after the arithmetic instruction 8XYN with the given `n`;
/// VF (register 15) takes the carry, borrow or shifted-out bit where the
/// instruction sets one. Unknown `n` leaves the registers unchanged.
pub open spec fn alu(v: Seq<u8>, x: int, y: int, n: u16) -> Seq<u8> {
    let vx = v[x];
    let vy = v[y];
    if n == 0 {
        v.update(x, vy)
    } else if n == 1 {
        v.update(x, vx | vy)
    } else if n == 2 {
        v.update(x, vx & vy)
    } else if n == 3 {
        v.update(x, vx ^ vy)
    } else if n == 4 {
        v.update(x, ((vx + vy) % 256) as u8).update(15, if vx + vy > 255 { 1u8 } else { 0u8 })
    } else if n == 5 {
        v.update(x, ((vx - vy + 256) % 256) as u8).update(15, if vx >= vy { 1u8 } else { 0u8 })
    } else if n == 6 {
        v.update(x, vx / 2).update(15, vx % 2)
    } else if n == 7 {
        v.update(x, ((vy - vx + 256) % 256) as u8).update(15, if vy >= vx { 1u8 } else { 0u8 })
    } else if n == 0xE {
        v.update(x, ((vx * 2) % 256) as u8).update(15, vx / 128)
    } else {
        v
    }
}

proof fn lemma_shift_bits(a: u8)
    by (bit_vector)
    ensures
        (a & 1 == 1) == (a % 2 == 1),
        a >> 1 == a / 2,
        (a & 0x80 == 0x80) == (a / 128 == 1),
        a / 128 <= 1,
        (a << 1) == ((a * 2) % 256) as u8,
{
}

/// 8XYN: the register-to-register arithmetic and logic instructions.
pub fn execute_alu(v: &mut [u8; 16], x: usize, y: usize, n: u16)
    requires
        x < 16,
        y < 16,
    ensures
        final(v)@ == alu(old(v)@, x as int, y as int, n),
{
    proof {
        lemma_shift_bits(v@[x as int]);
    }
    match n {
        0x0 => {
            v[x] = v[y];
        },
        0x1 => {
            v[x] = v[x] | v[y];
        },
        0x2 => {
            v[x] = v[x] & v[y];
        },
        0x3 => {
            v[x] = v[x] ^ v[y];
        },
        0x4 => {
            match v[x].checked_add(v[y]) {
                Some(val) => {
                    v[x] = val;
                    v[0xF] = 0;
                },
                None => {
                    v[x] = v[x].wrapping_add(v[y]);
                    v[0xF] = 1;
                },
            }
        },
        0x5 => {
            match v[x].checked_sub(v[y]) {
                Some(val) => {
                    v[x] = val;
                    v[0xF] = 1;
                },
                None => {
                    v[x] = v[x].wrapping_sub(v[y]);
                    v[0xF] = 0;
                },
            }
        },
        0x6 => {
            let f: u8 = if v[x] & 0b00000001 == 0b00000001 {
                1
            } else {
                0
            };
            v[x] = v[x] >> 1;
            v[0xF] = f;
        },
        0x7 => {
            match v[y].checked_sub(v[x]) {
                Some(val) => {
                    v[x] = val;
                    v[0xF] = 1;
                },
                None => {
                    v[x] = v[y].wrapping_sub(v[x]);
                    v[0xF] = 0;
                },
            }
        },
        0xE => {
            let f: u8 = if v[x] & 0b10000000 == 0b10000000 {
                1
            } else {
                0
            };
            v[x] = v[x] << 1;
            v[0xF] = f;
        },
        _ => {},
    }
}


/// The first nibble of an instruction word: its kind.
pub open spec fn op_of(w: u16) -> u16 {
    w / 4096
}

/// The second nibble of an instruction word: the register X.
pub open spec fn x_of(w: u16) -> u16 {
    (w / 256) % 16
}

/// The third nibble of an instruction word: the register Y.
pub open spec fn y_of(w: u16) -> u16 {
    (w / 16) % 16
}

/// The last nibble of an instruction word: N.
pub open spec fn n_of(w: u16) -> u16 {
    w % 16
}

/// The low byte of an instruction word: NN.
pub open spec fn nn_of(w: u16) -> u16 {
    w % 256
}

/// The low twelve bits of an instruction word: the address NNN.
pub open spec fn nnn_of(w: u16) -> u16 {
    w % 4096
}

proof fn lemma_fields(w: u16)
    by (bit_vector)
    ensures
        (w >> 12) & 0x000F == w / 4096,
        (w >> 8) & 0x000F == (w / 256) % 16,
        (w >> 4) & 0x000F == (w / 16) % 16,
        w & 0x000F == w % 16,
        w & 0x00FF == w % 256,
        w & 0x0FFF == w % 4096,
{
}

/// The whole state of a CHIP-8 machine: display rows, registers V0..VF, the
/// index register I, the program counter, memory, the call stack and the two
/// timers.
#[verifier::ext_equal]
pub struct Machine {
    pub display: Seq<u64>,
    pub v: Seq<u8>,
    pub i: usize,
    pub pc: usize,
    pub mem: Seq<u8>,
    pub stack: Seq<usize>,
    pub timer: u8,
    pub sound: u8,
}

/// The machine that the separate pieces of state make up.
pub open spec fn machine(
    d: [u64; 32],
    v: [u8; 16],
    i: usize,
    pc: usize,
    mem: Seq<u8>,
    stack: Seq<usize>,
    t: u8,
    st: u8,
) -> Machine {
    Machine { display: d@, v: v@, i, pc, mem, stack, timer: t, sound: st }
}

/// The machine with the next instruction skipped.
pub open spec fn skip(m: Machine) -> Machine {
    Machine { pc: (m.pc + 2) as usize, ..m }
}

/// The memory after FX55: registers V0..VX stored at I onward, as far as
/// memory reaches.
pub open spec fn store_registers(mem: Seq<u8>, v: Seq<u8>, i: usize, x: int) -> Seq<u8> {
    Seq::new(mem.len(), |a: int| if i <= a <= i + x { v[a - i] } else { mem[a] })
}

/// The registers after FX65: V0..VX loaded from I onward, as far as memory
/// reaches.
pub open spec fn load_registers(v: Seq<u8>, mem: Seq<u8>, i: usize, x: int) -> Seq<u8> {
    Seq::new(v.len(), |k: int| if 0 <= k <= x && i + k < mem.len() { mem[i + k] } else { v[k] })
}

/// The machine after an FXNN instruction.
pub open spec fn misc(nn: u16, x: int, m: Machine) -> Machine {
    let vx = m.v[x];
    if nn == 0x07 {
        Machine { v: m.v.update(x, m.timer), ..m }
    } else if nn == 0x15 {
        Machine { timer: vx, ..m }
    } else if nn == 0x18 {
        Machine { sound: vx, ..m }
    } else if nn == 0x1E {
        Machine { i: (m.i + vx) as usize, ..m }
    } else if nn == 0x29 {
        Machine { i: (5 * vx) as usize, ..m }
    } else if nn == 0x33 {
        Machine {
            mem: m.mem.update(m.i as int, vx / 100).update(m.i + 1, (vx % 100) / 10).update(
                m.i + 2,
                vx % 10,
            ),
            ..m
        }
    } else if nn == 0x55 {
        Machine { mem: store_registers(m.mem, m.v, m.i, x), ..m }
    } else if nn == 0x65 {
        Machine { v: load_registers(m.v, m.mem, m.i, x), ..m }
    } else {
        m
    }
}

/// The machine after executing instruction `w`; `rnd` is the random byte that
/// CXNN masks.
pub open spec fn step(w: u16, m: Machine, rnd: u8) -> Machine {
    let op = op_of(w);
    let x = x_of(w) as int;
    let y = y_of(w) as int;
    let n = n_of(w);
    let nn = nn_of(w);
    let nnn = nnn_of(w);
    if op == 0x0 {
        if nnn == 0x0EE {
            Machine { pc: m.stack.last(), stack: m.stack.drop_last(), ..m }
        } else if nnn == 0x0E0 {
            Machine { display: Seq::new(32, |r: int| 0u64), ..m }
        } else {
            m
        }
    } else if op == 0x1 {
        Machine { pc: nnn as usize, ..m }
    } else if op == 0x2 {
        Machine { stack: m.stack.push(m.pc), pc: nnn as usize, ..m }
    } else if op == 0x3 {
        if m.v[x] == nn { skip(m) } else { m }
    } else if op == 0x4 {
        if m.v[x] != nn { skip(m) } else { m }
    } else if op == 0x5 {
        if m.v[x] == m.v[y] { skip(m) } else { m }
    } else if op == 0x6 {
        Machine { v: m.v.update(x, nn as u8), ..m }
    } else if op == 0x7 {
        Machine { v: m.v.update(x, ((m.v[x] + nn) % 256) as u8), ..m }
    } else if op == 0x8 {
        Machine { v: alu(m.v, x, y, n), ..m }
    } else if op == 0x9 {
        if m.v[x] != m.v[y] { skip(m) } else { m }
    } else if op == 0xA {
        Machine { i: nnn as usize, ..m }
    } else if op == 0xC {
        Machine { v: m.v.update(x, rnd & (nn as u8)), ..m }
    } else if op == 0xD {
        let x0 = (m.v[x] % 64) as u8;
        let y0 = (m.v[y] % 32) as u8;
        Machine {
            display: draw_display(m.display, m.mem, m.i, n, x0, y0),
            v: m.v.update(
                15,
                if draw_collides(m.display, m.mem, m.i, n, x0, y0) { 1u8 } else { 0u8 },
            ),
            ..m
        }
    } else if op == 0xF {
        misc(nn, x, m)
    } else {
        m
    }
}

/// Whether instruction `w` can execute on machine `m`: its kind is known,
/// the stack has room for a call and an entry for a return, a skip does not
/// run the program counter past its range, and the memory that a draw or a
/// decimal store reaches exists.
pub open spec fn step_ok(w: u16, m: Machine) -> bool {
    let op = op_of(w);
    let x = x_of(w) as int;
    let y = y_of(w) as int;
    let n = n_of(w);
    let nn = nn_of(w);
    let nnn = nnn_of(w);
    &&& op != 0xB && op != 0xE
    &&& op == 0x0 && nnn == 0x0EE ==> m.stack.len() > 0
    &&& op == 0x2 ==> m.stack.len() < 16
    &&& op == 0x3 && m.v[x] == nn ==> m.pc + 2 <= usize::MAX
    &&& op == 0x4 && m.v[x] != nn ==> m.pc + 2 <= usize::MAX
    &&& op == 0x5 && m.v[x] == m.v[y] ==> m.pc + 2 <= usize::MAX
    &&& op == 0x9 && m.v[x] != m.v[y] ==> m.pc + 2 <= usize::MAX
    &&& op == 0xD ==> m.i + n <= usize::MAX && m.i + drawn_rows(n, (m.v[y] % 32) as u8)
        <= m.mem.len()
    &&& op == 0xF && nn == 0x1E ==> m.i + m.v[x] <= usize::MAX
    &&& op == 0xF && nn == 0x33 ==> m.i + 2 < m.mem.len()
}

/// FXNN: timers, the index register, decimal conversion and register
/// stores and loads.
pub fn execute_misc(
    nn: u16,
    x: usize,
    v: &mut [u8; 16],
    i: &mut usize,
    chunk: &mut [u8],
    t: &mut u8,
    st: &mut u8,
)
    requires
        x < 16,
        nn < 256,
        nn == 0x1E ==> *old(i) + old(v)@[x as int] <= usize::MAX,
        nn == 0x33 ==> *old(i) + 2 < old(chunk)@.len(),
    ensures
        ({
            let m0 = Machine {
                display: Seq::empty(),
                v: old(v)@,
                i: *old(i),
                pc: 0,
                mem: old(chunk)@,
                stack: Seq::empty(),
                timer: *old(t),
                sound: *old(st),
            };
            let m1 = misc(nn, x as int, m0);
            &&& final(v)@ == m1.v
            &&& *final(i) == m1.i
            &&& final(chunk)@ == m1.mem
            &&& *final(t) == m1.timer
            &&& *final(st) == m1.sound
        }),
{
    match nn {
        0x0A => {},
        0x07 => {
            v[x] = *t;
        },
        0x15 => {
            *t = v[x];
        },
        0x18 => {
            *st = v[x];
        },
        0x1E => {
            *i += v[x] as usize;
        },
        0x29 => {
            let address = 5 * (v[x] as usize);
            *i = address;
        },
        0x33 => {
            let number = v[x];
            let hundreds = number / 100;
            let tens = (number % 100) / 10;
            let ones = number % 10;
            chunk[*i] = hundreds;
            chunk[*i + 1] = tens;
            chunk[*i + 2] = ones;
        },
        0x55 => {
            let base = *i;
            let ghost c0 = chunk@;
            let mut vi: usize = 0;
            while vi <= x
                invariant_except_break
                    vi <= x + 1,
                invariant
                    x < 16,
                    chunk@.len() == c0.len(),
                    base == *i,
                    vi > 0 ==> base + vi <= chunk@.len(),
                    forall|a: int|
                        0 <= a < c0.len() ==> #[trigger] chunk@[a] == if base <= a < base + vi {
                            v@[a - base]
                        } else {
                            c0[a]
                        },
                ensures
                    chunk@ =~= store_registers(c0, v@, base, x as int),
                decreases x + 1 - vi,
            {
                if base + vi >= chunk.len() {
                    break;
                }
                chunk[base + vi] = v[vi];
                vi += 1;
            }
        },
        0x65 => {
            let base = *i;
            let ghost v0 = v@;
            let mut vi: usize = 0;
            while vi <= x
                invariant_except_break
                    vi <= x + 1,
                invariant
                    x < 16,
                    v0.len() == 16,
                    base == *i,
                    vi > 0 ==> base + vi <= chunk@.len(),
                    forall|k: int|
                        0 <= k < 16 ==> #[trigger] v@[k] == if k < vi {
                            chunk@[base + k]
                        } else {
                            v0[k]
                        },
                ensures
                    v@ =~= load_registers(v0, chunk@, base, x as int),
                decreases x + 1 - vi,
            {
                if base + vi >= chunk.len() {
                    break;
                }
                v[vi] = chunk[base + vi];
                vi += 1;
            }
        },
        _ => {},
    }
}


/// The big-endian word made of a high and a low byte.
pub open spec fn be_word(hi: u8, lo: u8) -> u16 {
    (hi * 256 + lo) as u16
}

/// Loads the big-endian instruction word at the program counter and moves the
/// program counter past it.
pub fn fetch(pc: &mut usize, chunk: &[u8; 4096]) -> (instruction: u16)
    requires
        *old(pc) + 1 < 4096,
    ensures
        instruction == be_word(chunk@[*old(pc) as int], chunk@[*old(pc) + 1]),
        *final(pc) == *old(pc) + 2,
{
    let instruction = (chunk[*pc] as u16) * 256 + (chunk[*pc + 1] as u16);
    *pc += 2;
    instruction
}

/// The big-endian words of `s[start..end]`, two bytes each; an odd last
/// byte is left out.
pub fn words_be(s: &[u8], start: usize, end: usize) -> (words: Vec<u16>)
    requires
        start < end <= s@.len(),
    ensures
        words@.len() == (end - start) / 2,
        forall|k: int|
            0 <= k < words@.len() ==> #[trigger] words@[k] == be_word(
                s@[start + 2 * k],
                s@[start + 2 * k + 1],
            ),
{
    let len = end - start;
    let mut words = Vec::new();
    let mut i: usize = 0;
    loop
        invariant
            start < end <= s@.len(),
            len == end - start,
            i % 2 == 0,
            i <= len,
            words@.len() == i / 2,
            forall|k: int|
                0 <= k < words@.len() ==> #[trigger] words@[k] == be_word(
                    s@[start + 2 * k],
                    s@[start + 2 * k + 1],
                ),
        ensures
            words@.len() == (end - start) / 2,
            forall|k: int|
                0 <= k < words@.len() ==> #[trigger] words@[k] == be_word(
                    s@[start + 2 * k],
                    s@[start + 2 * k + 1],
                ),
        decreases len - i,
    {
        if i >= len - 1 {
            break;
        }
        let word = (s[start + i] as u16) * 256 + (s[start + i + 1] as u16);
        words.push(word);
        i += 2;
    }
    words
}

/// Fetches the next instruction, or halts on a zero word: then the program
/// counter is left on that word and nothing is returned.
pub fn fetch_or_halt(pc: &mut usize, chunk: &[u8; 4096]) -> (r: Option<u16>)
    requires
        *old(pc) + 1 < 4096,
    ensures
        ({
            let w = be_word(chunk@[*old(pc) as int], chunk@[*old(pc) + 1]);
            if w == 0 {
                r is None && *final(pc) == *old(pc)
            } else {
                r == Some(w) && *final(pc) == *old(pc) + 2
            }
        }),
{
    let instruction = fetch(pc, chunk);
    if instruction == 0 {
        *pc -= 2;
        None
    } else {
        Some(instruction)
    }
}

/// Executes one instruction; `rnd` is the random byte that CXNN masks.
pub fn execute(
    instruction: u16,
    rnd: u8,
    d: &mut [u64; 32],
    v: &mut [u8; 16],
    i: &mut usize,
    pc: &mut usize,
    chunk: &mut [u8],
    stack: &mut Stack,
    t: &mut u8,
    st: &mut u8,
)
    requires
        step_ok(
            instruction,
            machine(*old(d), *old(v), *old(i), *old(pc), old(chunk)@, old(stack)@, *old(t), *old(st)),
        ),
    ensures
        machine(*final(d), *final(v), *final(i), *final(pc), final(chunk)@, final(stack)@, *final(t), *final(st))
            == step(
            instruction,
            machine(*old(d), *old(v), *old(i), *old(pc), old(chunk)@, old(stack)@, *old(t), *old(st)),
            rnd,
        ),
{
    proof {
        lemma_fields(instruction);
    }
    let first_nibble = (instruction >> 12) & 0x000F;
    let x = ((instruction >> 8) & 0x000F) as usize;
    let y = ((instruction >> 4) & 0x000F) as usize;
    let n = instruction & 0x000F;
    let nn = instruction & 0x00FF;
    let nnn = instruction & 0x0FFF;
    match first_nibble {
        0x0 => {
            match nnn {
                0x0EE => {
                    *pc = stack.pop();
                },
                0x0E0 => {
                    *d = [0_u64; 32];
                    assert(d@ =~= Seq::new(32, |r: int| 0u64));
                },
                _ => {},
            }
        },
        0x1 => {
            *pc = nnn as usize;
        },
        0x2 => {
            stack.push(*pc);
            *pc = nnn as usize;
        },
        0x3 => {
            if (v[x] as u16) == nn {
                *pc += 2;
            }
        },
        0x4 => {
            if (v[x] as u16) != nn {
                *pc += 2;
            }
        },
        0x5 => {
            if v[x] == v[y] {
                *pc += 2;
            }
        },
        0x6 => {
            v[x] = nn as u8;
        },
        0x7 => {
            v[x] = v[x].wrapping_add(nn as u8);
        },
        0x8 => {
            execute_alu(v, x, y, n);
        },
        0x9 => {
            if v[x] != v[y] {
                *pc += 2;
            }
        },
        0xA => {
            *i = nnn as usize;
        },
        0xC => {
            v[x] = rnd & (nn as u8);
        },
        0xD => {
            draw_sprite(d, v, *i, chunk, x, y, n);
        },
        0xF => {
            execute_misc(nn, x, v, i, chunk, t, st);
        },
        _ => {
            assert(false);
        },
    }
}

/// Whether `instruction` can execute on the machine made of these pieces
/// (see `step_ok`).
pub fn can_execute(
    instruction: u16,
    d: &[u64; 32],
    v: &[u8; 16],
    i: usize,
    pc: usize,
    chunk: &[u8],
    stack: &Stack,
    t: u8,
    st: u8,
) -> (r: bool)
    ensures
        r == step_ok(instruction, machine(*d, *v, i, pc, chunk@, stack@, t, st)),
{
    proof {
        lemma_fields(instruction);
    }
    let op = (instruction >> 12) & 0x000F;
    let x = ((instruction >> 8) & 0x000F) as usize;
    let y = ((instruction >> 4) & 0x000F) as usize;
    let n = instruction & 0x000F;
    let nn = instruction & 0x00FF;
    let nnn = instruction & 0x0FFF;
    let skip_room = pc <= usize::MAX - 2;
    match op {
        0x0 => nnn != 0x0EE || stack.len() > 0,
        0x2 => stack.len() < 16,
        0x3 => (v[x] as u16) != nn || skip_room,
        0x4 => (v[x] as u16) == nn || skip_room,
        0x5 => v[x] != v[y] || skip_room,
        0x9 => v[x] == v[y] || skip_room,
        0xB => false,
        0xE => false,
        0xD => {
            let y0 = v[y] % 32;
            let rows: usize = if n <= 32 - y0 as u16 {
                n as usize
            } else {
                (32 - y0) as usize
            };
            i <= usize::MAX - n as usize && i <= chunk.len() && rows <= chunk.len() - i
        },
        0xF => {
            if nn == 0x1E {
                i <= usize::MAX - v[x] as usize
            } else if nn == 0x33 {
                i < chunk.len() && 2 < chunk.len() - i
            } else {
                true
            }
        },
        _ => true,
    }
}

/// Executes one instruction, drawing a random byte for CXNN.
pub fn decode(
    instruction: u16,
    d: &mut [u64; 32],
    v: &mut [u8; 16],
    i: &mut usize,
    pc: &mut usize,
    chunk: &mut [u8],
    stack: &mut Stack,
    t: &mut u8,
    st: &mut u8,
)
    requires
        step_ok(
            instruction,
            machine(*old(d), *old(v), *old(i), *old(pc), old(chunk)@, old(stack)@, *old(t), *old(st)),
        ),
    ensures
        exists|rnd: u8|
            machine(*final(d), *final(v), *final(i), *final(pc), final(chunk)@, final(stack)@, *final(t), *final(st))
                == #[trigger] step(
                instruction,
                machine(*old(d), *old(v), *old(i), *old(pc), old(chunk)@, old(stack)@, *old(t), *old(st)),
                rnd,
            ),
{
    let rnd = if (instruction >> 12) & 0x000F == 0xC {
        random_byte()
    } else {
        0
    };
    execute(instruction, rnd, d, v, i, pc, chunk, stack, t, st);
}

/// One timer tick: the delay timer counts down while it is above zero, and,
/// while the sound timer is above zero, the delay timer counts down once more
/// (the sound timer itself is left as it is).
pub fn tick_timers(timer: &mut u8, sound_timer: &mut u8)
    requires
        *old(sound_timer) > 0 ==> *old(timer) > 1,
    ensures
        *final(timer) == *old(timer) - (if *old(timer) > 0 { 1int } else { 0int }) - (if *old(
            sound_timer,
        ) > 0 { 1int } else { 0int }),
        *final(sound_timer) == *old(sound_timer),
{
    if *timer > 0 {
        *timer -= 1;
    }
    if *sound_timer > 0 {
        *timer -= 1;
    }
}

/// Draws a byte from `rand::random::<u8>()`, the thread-local generator of
/// the `rand` crate. Nothing is claimed of the value: any byte may come back.
/// (`rand` panics if the thread-local generator cannot be seeded by the
/// operating system.)
#[verifier::external_body]
fn random_byte() -> (r: u8) {
    rand::random::<u8>()
}

} // verus!
