use chip8::cpu::{can_execute, decode, execute, fetch, fetch_or_halt, tick_timers, words_be};
use chip8::stack::Stack;

struct Vm {
    d: [u64; 32],
    v: [u8; 16],
    i: usize,
    pc: usize,
    mem: Vec<u8>,
    stack: Stack,
    t: u8,
    st: u8,
}

impl Vm {
    fn new() -> Vm {
        Vm { d: [0; 32], v: [0; 16], i: 0, pc: 0x200, mem: vec![0; 4096], stack: Stack::new(), t: 0, st: 0 }
    }

    fn run(&mut self, w: u16) {
        assert!(can_execute(w, &self.d, &self.v, self.i, self.pc, &self.mem, &self.stack, self.t, self.st));
        execute(w, 0, &mut self.d, &mut self.v, &mut self.i, &mut self.pc, &mut self.mem, &mut self.stack, &mut self.t, &mut self.st);
    }

    fn ok(&self, w: u16) -> bool {
        can_execute(w, &self.d, &self.v, self.i, self.pc, &self.mem, &self.stack, self.t, self.st)
    }
}

#[test]
fn fetch_reads_big_endian_and_advances() {
    let mut chunk = [0u8; 4096];
    chunk[0x200] = 0x6A;
    chunk[0x201] = 0x42;
    let mut pc = 0x200usize;
    assert_eq!(fetch(&mut pc, &chunk), 0x6A42);
    assert_eq!(pc, 0x202);
}

#[test]
fn fetch_or_halt_stops_on_a_zero_word() {
    let mut chunk = [0u8; 4096];
    chunk[0x200] = 0x00;
    chunk[0x201] = 0xE0;
    let mut pc = 0x200usize;
    assert_eq!(fetch_or_halt(&mut pc, &chunk), Some(0x00E0));
    assert_eq!(pc, 0x202);
    assert_eq!(fetch_or_halt(&mut pc, &chunk), None);
    assert_eq!(pc, 0x202);
}

#[test]
fn clear_screen_zeroes_the_display() {
    let mut vm = Vm::new();
    vm.d = [u64::MAX; 32];
    vm.run(0x00E0);
    assert_eq!(vm.d, [0; 32]);
}

#[test]
fn jump_sets_the_program_counter() {
    let mut vm = Vm::new();
    vm.run(0x1ABC);
    assert_eq!(vm.pc, 0xABC);
}

#[test]
fn call_then_return_restores_pc_and_stack() {
    let mut vm = Vm::new();
    vm.pc = 0x204;
    vm.run(0x2300);
    assert_eq!(vm.pc, 0x300);
    assert_eq!(vm.stack.len(), 1);
    vm.run(0x00EE);
    assert_eq!(vm.pc, 0x204);
    assert_eq!(vm.stack.len(), 0);
}

#[test]
fn return_with_empty_stack_cannot_execute() {
    let vm = Vm::new();
    assert!(!vm.ok(0x00EE));
}

#[test]
fn call_with_full_stack_cannot_execute() {
    let mut vm = Vm::new();
    for _ in 0..16 {
        vm.run(0x2300);
    }
    assert!(!vm.ok(0x2300));
}

#[test]
fn unknown_kinds_cannot_execute() {
    let vm = Vm::new();
    assert!(!vm.ok(0xB123));
    assert!(!vm.ok(0xE19E));
    assert!(vm.ok(0x0123));
}

#[test]
fn skips_compare_registers() {
    let mut vm = Vm::new();
    vm.v[3] = 0x42;
    vm.v[4] = 0x42;
    vm.run(0x3342);
    assert_eq!(vm.pc, 0x202);
    vm.run(0x3341);
    assert_eq!(vm.pc, 0x202);
    vm.run(0x4341);
    assert_eq!(vm.pc, 0x204);
    vm.run(0x4342);
    assert_eq!(vm.pc, 0x204);
    vm.run(0x5340);
    assert_eq!(vm.pc, 0x206);
    vm.run(0x9340);
    assert_eq!(vm.pc, 0x206);
    vm.v[4] = 1;
    vm.run(0x9340);
    assert_eq!(vm.pc, 0x208);
}

#[test]
fn skip_past_the_end_of_the_address_range_cannot_execute() {
    let mut vm = Vm::new();
    vm.pc = usize::MAX - 1;
    assert!(!vm.ok(0x3000));
    assert!(vm.ok(0x3001));
}

#[test]
fn load_and_add_immediate() {
    let mut vm = Vm::new();
    vm.run(0x6AFE);
    assert_eq!(vm.v[0xA], 0xFE);
    vm.run(0x7A03);
    assert_eq!(vm.v[0xA], 0x01);
    assert_eq!(vm.v[0xF], 0);
}

#[test]
fn alu_logic() {
    let mut vm = Vm::new();
    vm.v[1] = 0b1100;
    vm.v[2] = 0b1010;
    vm.run(0x8121);
    assert_eq!(vm.v[1], 0b1110);
    vm.v[1] = 0b1100;
    vm.run(0x8122);
    assert_eq!(vm.v[1], 0b1000);
    vm.v[1] = 0b1100;
    vm.run(0x8123);
    assert_eq!(vm.v[1], 0b0110);
    vm.run(0x8120);
    assert_eq!(vm.v[1], 0b1010);
}

#[test]
fn alu_add_sets_carry() {
    let mut vm = Vm::new();
    vm.v[1] = 200;
    vm.v[2] = 100;
    vm.run(0x8124);
    assert_eq!(vm.v[1], 44);
    assert_eq!(vm.v[0xF], 1);
    vm.v[1] = 20;
    vm.run(0x8124);
    assert_eq!(vm.v[1], 120);
    assert_eq!(vm.v[0xF], 0);
}

#[test]
fn alu_subtract_sets_no_borrow() {
    let mut vm = Vm::new();
    vm.v[1] = 10;
    vm.v[2] = 3;
    vm.run(0x8125);
    assert_eq!(vm.v[1], 7);
    assert_eq!(vm.v[0xF], 1);
    vm.run(0x8215);
    assert_eq!(vm.v[2], 252);
    assert_eq!(vm.v[0xF], 0);
    vm.v[1] = 3;
    vm.v[2] = 10;
    vm.run(0x8127);
    assert_eq!(vm.v[1], 7);
    assert_eq!(vm.v[0xF], 1);
    vm.v[1] = 10;
    vm.v[2] = 3;
    vm.run(0x8127);
    assert_eq!(vm.v[1], 249);
    assert_eq!(vm.v[0xF], 0);
}

#[test]
fn alu_shifts_keep_the_shifted_bit() {
    let mut vm = Vm::new();
    vm.v[1] = 0b1000_0011;
    vm.run(0x8106);
    assert_eq!(vm.v[1], 0b0100_0001);
    assert_eq!(vm.v[0xF], 1);
    vm.v[1] = 0b1000_0011;
    vm.run(0x810E);
    assert_eq!(vm.v[1], 0b0000_0110);
    assert_eq!(vm.v[0xF], 1);
    vm.v[1] = 0b0100_0010;
    vm.run(0x810E);
    assert_eq!(vm.v[1], 0b1000_0100);
    assert_eq!(vm.v[0xF], 0);
    vm.run(0x8108);
    assert_eq!(vm.v[1], 0b1000_0100);
}

#[test]
fn index_register_and_font_address() {
    let mut vm = Vm::new();
    vm.run(0xA123);
    assert_eq!(vm.i, 0x123);
    vm.v[2] = 5;
    vm.run(0xF21E);
    assert_eq!(vm.i, 0x128);
    vm.v[3] = 0xA;
    vm.run(0xF329);
    assert_eq!(vm.i, 50);
}

#[test]
fn random_masked_with_zero_is_zero() {
    let mut vm = Vm::new();
    vm.v[4] = 0xFF;
    decode(0xC400, &mut vm.d, &mut vm.v, &mut vm.i, &mut vm.pc, &mut vm.mem, &mut vm.stack, &mut vm.t, &mut vm.st);
    assert_eq!(vm.v[4], 0);
    decode(0xC40F, &mut vm.d, &mut vm.v, &mut vm.i, &mut vm.pc, &mut vm.mem, &mut vm.stack, &mut vm.t, &mut vm.st);
    assert!(vm.v[4] <= 0x0F);
    let mut vm2 = Vm::new();
    execute(0xC40F, 0xAB, &mut vm2.d, &mut vm2.v, &mut vm2.i, &mut vm2.pc, &mut vm2.mem, &mut vm2.stack, &mut vm2.t, &mut vm2.st);
    assert_eq!(vm2.v[4], 0x0B);
}

#[test]
fn timers_load_and_store() {
    let mut vm = Vm::new();
    vm.v[5] = 60;
    vm.run(0xF515);
    assert_eq!(vm.t, 60);
    vm.run(0xF518);
    assert_eq!(vm.st, 60);
    vm.t = 7;
    vm.run(0xF607);
    assert_eq!(vm.v[6], 7);
}

#[test]
fn decimal_digits() {
    let mut vm = Vm::new();
    vm.v[7] = 254;
    vm.i = 0x300;
    vm.run(0xF733);
    assert_eq!(&vm.mem[0x300..0x303], &[2, 5, 4]);
    vm.i = 4094;
    assert!(!vm.ok(0xF733));
}

#[test]
fn store_then_load_registers() {
    let mut vm = Vm::new();
    for k in 0..16 {
        vm.v[k] = (k as u8) * 3 + 1;
    }
    vm.i = 0x400;
    vm.run(0xF355);
    assert_eq!(&vm.mem[0x400..0x405], &[1, 4, 7, 10, 0]);
    let saved = vm.v;
    vm.v = [0; 16];
    vm.run(0xF365);
    assert_eq!(&vm.v[0..4], &saved[0..4]);
    assert_eq!(vm.v[4], 0);
}

#[test]
fn store_stops_at_the_end_of_memory() {
    let mut vm = Vm::new();
    vm.mem = vec![0; 4];
    vm.v = [9; 16];
    vm.i = 2;
    vm.run(0xF555);
    assert_eq!(vm.mem, vec![0, 0, 9, 9]);
    vm.v = [0; 16];
    vm.run(0xF565);
    assert_eq!(&vm.v[0..3], &[9, 9, 0]);
}

#[test]
fn draw_flips_pixels_and_reports_collision() {
    let mut vm = Vm::new();
    vm.mem[0x300] = 0xF0;
    vm.mem[0x301] = 0x90;
    vm.i = 0x300;
    vm.v[0] = 2;
    vm.v[1] = 3;
    vm.run(0xD012);
    assert_eq!(vm.d[3], 0xF0u64 << 54);
    assert_eq!(vm.d[4], 0x90u64 << 54);
    assert_eq!(vm.v[0xF], 0);
    vm.run(0xD012);
    assert_eq!(vm.d, [0; 32]);
    assert_eq!(vm.v[0xF], 1);
}

#[test]
fn draw_clips_at_the_edges() {
    let mut vm = Vm::new();
    vm.mem[0x300] = 0xFF;
    vm.mem[0x301] = 0xFF;
    vm.mem[0x302] = 0xFF;
    vm.i = 0x300;
    vm.v[0] = 60;
    vm.v[1] = 31;
    vm.run(0xD013);
    assert_eq!(vm.d[31], 0xF);
    for r in 0..31 {
        assert_eq!(vm.d[r], 0);
    }
    vm.v[0] = 64 + 1;
    vm.v[1] = 32;
    vm.run(0xD011);
    assert_eq!(vm.d[0], 0x7F80_0000_0000_0000);
}

#[test]
fn draw_needs_its_sprite_in_memory() {
    let mut vm = Vm::new();
    vm.mem = vec![0; 0x302];
    vm.i = 0x300;
    vm.v[1] = 0;
    assert!(!vm.ok(0xD013));
    assert!(vm.ok(0xD012));
    vm.v[1] = 31;
    assert!(vm.ok(0xD01F));
}

#[test]
fn words_be_pairs_bytes() {
    let bytes = [0x12u8, 0x34, 0xAB, 0xCD, 0xEF];
    assert_eq!(words_be(&bytes, 0, 5), vec![0x1234, 0xABCD]);
    assert_eq!(words_be(&bytes, 1, 5), vec![0x34AB, 0xCDEF]);
    assert_eq!(words_be(&bytes, 4, 5), Vec::<u16>::new());
}

#[test]
fn tick_timers_counts_down() {
    let mut t = 3u8;
    let mut st = 0u8;
    tick_timers(&mut t, &mut st);
    assert_eq!((t, st), (2, 0));
    let mut t = 0u8;
    tick_timers(&mut t, &mut st);
    assert_eq!((t, st), (0, 0));
    let mut t = 5u8;
    let mut st = 4u8;
    tick_timers(&mut t, &mut st);
    assert_eq!((t, st), (3, 4));
}
