use chip8::assembler::{
    assign, data, data_flipped, draw, gap, if_end, if_start, increment, loop_end, loop_start, place,
    reverse_bits, while_loop_end, while_loop_start, Flip, Ops, State, Valued,
};
use chip8::cpu::{can_execute, execute, fetch};
use chip8::stack::Stack;

fn sym(name: &str) -> Valued {
    Valued::Symbol(name.to_string())
}

fn words(state: &State, start: u16) -> Vec<u16> {
    state.program_words(start, state.code_address())
}

/// Runs the emitted program from 0x200 until it reaches a zero word; returns the registers.
fn run(state: &State) -> [u8; 16] {
    let mut chunk = [0u8; 4096];
    state.copy_program_to_memory(&mut chunk);
    let mut d = [0u64; 32];
    let mut v = [0u8; 16];
    let mut i = 0usize;
    let mut pc = 0x200usize;
    let mut stack = Stack::new();
    let mut t = 0u8;
    let mut st = 0u8;
    for _ in 0..10_000 {
        let w = fetch(&mut pc, &chunk);
        if w == 0 {
            return v;
        }
        assert!(can_execute(w, &d, &v, i, pc, &chunk, &stack, t, st));
        execute(w, 0, &mut d, &mut v, &mut i, &mut pc, &mut chunk, &mut stack, &mut t, &mut st);
    }
    panic!("program did not stop");
}

#[test]
fn new_state_starts_empty() {
    let s = State::new();
    assert_eq!(s.code_address(), 0x200);
    assert_eq!(s.data_address(), 0x8FF);
    assert_eq!(s.try_get("overflow"), Some(15));
    assert_eq!(s.try_get("a"), None);
    assert!(s.has_free_register());
    assert_eq!(s.data_entry("g"), None);
}

#[test]
fn assign_literal_and_copy() {
    let mut s = State::new();
    assign(&mut s, sym("a"), Valued::Literal(5));
    assign(&mut s, sym("b"), sym("a"));
    assign(&mut s, Valued::Register(3), Valued::Register(1));
    assign(&mut s, sym("a"), Valued::Literal(9));
    assert_eq!(s.try_get("a"), Some(0));
    assert_eq!(s.try_get("b"), Some(1));
    assert_eq!(words(&s, 0x200), vec![0x6005, 0x8100, 0x8310, 0x6009]);
    let v = run(&s);
    assert_eq!(v[0], 9);
    assert_eq!(v[1], 5);
    assert_eq!(v[3], 5);
}

#[test]
fn assign_expressions() {
    let mut s = State::new();
    assign(&mut s, sym("a"), Valued::Literal(5));
    assign(&mut s, sym("b"), Valued::Literal(3));
    assign(
        &mut s,
        sym("a"),
        Valued::Expression(vec![(Valued::Literal(1), Ops::Add), (sym("b"), Ops::Add), (Valued::Register(1), Ops::Add)]),
    );
    assign(&mut s, sym("a"), Valued::Expression(vec![(sym("b"), Ops::Subtract)]));
    assign(&mut s, sym("a"), Valued::Expression(vec![(Valued::Literal(2), Ops::Shl)]));
    assign(&mut s, sym("a"), Valued::Expression(vec![(sym("b"), Ops::BitAnd)]));
    assert_eq!(
        words(&s, 0x200),
        vec![0x6005, 0x6103, 0x7001, 0x8014, 0x8014, 0x8015, 0x800E, 0x800E, 0x8012]
    );
    let v = run(&s);
    // ((5 + 1 + 3 + 3) - 3) << 2 = 36, and 36 & 3 = 0
    assert_eq!(v[0], 0);
}

#[test]
fn multiply_by_literal() {
    let mut s = State::new();
    assign(&mut s, sym("a"), Valued::Literal(7));
    assign(&mut s, sym("a"), Valued::Expression(vec![(Valued::Literal(3), Ops::Multiply)]));
    assert_eq!(words(&s, 0x200), vec![0x6007, 0x6100, 0x8104, 0x800E, 0x8104, 0x800E, 0x8010]);
    assert!(s.try_get("a") == Some(0));
    let v = run(&s);
    assert_eq!(v[0], 21);
}

#[test]
fn multiply_by_zero_literal() {
    let mut s = State::new();
    assign(&mut s, sym("a"), Valued::Literal(7));
    assign(&mut s, sym("a"), Valued::Expression(vec![(Valued::Literal(0), Ops::Multiply)]));
    assert_eq!(words(&s, 0x200), vec![0x6007, 0x6100, 0x8010]);
    let v = run(&s);
    assert_eq!(v[0], 0);
}

#[test]
fn multiply_by_variable() {
    let mut s = State::new();
    assign(&mut s, sym("a"), Valued::Literal(5));
    assign(&mut s, sym("b"), Valued::Literal(3));
    assign(&mut s, sym("a"), Valued::Expression(vec![(sym("b"), Ops::Multiply)]));
    assert_eq!(
        words(&s, 0x200),
        vec![
            0x6005, 0x6103, 0x6200, 0x6301, 0x6500, 0x8410, 0x8432, 0x4400, 0x1214, 0x8204, 0x830E,
            0x800E, 0x7501, 0x3508, 0x120A, 0x8020,
        ]
    );
    // the temporaries are free again
    assign(&mut s, sym("c"), Valued::Literal(1));
    assert_eq!(s.try_get("c"), Some(2));
    let v = run(&s);
    assert_eq!(v[0], 15);
    assert_eq!(v[1], 3);
}

#[test]
fn if_block_runs_when_equal() {
    let mut s = State::new();
    assign(&mut s, sym("a"), Valued::Literal(0));
    if_start(&mut s, Some(0), sym("a"));
    assign(&mut s, sym("a"), Valued::Literal(7));
    if_end(&mut s);
    assign(&mut s, sym("b"), Valued::Literal(1));
    if_start(&mut s, Some(3), sym("b"));
    assign(&mut s, sym("b"), Valued::Literal(9));
    if_end(&mut s);
    assert_eq!(words(&s, 0x200), vec![0x6000, 0x3000, 0x1208, 0x6007, 0x6101, 0x3103, 0x1210, 0x6109]);
    let v = run(&s);
    assert_eq!(v[0], 7);
    assert_eq!(v[1], 1);
}

#[test]
fn if_on_expression_uses_a_temporary() {
    let mut s = State::new();
    assign(&mut s, sym("a"), Valued::Literal(2));
    if_start(&mut s, None, Valued::Expression(vec![(sym("a"), Ops::Add), (Valued::Literal(1), Ops::Add)]));
    assign(&mut s, sym("a"), Valued::Literal(8));
    if_end(&mut s);
    assert_eq!(words(&s, 0x200), vec![0x6002, 0x8104, 0x7101, 0x4100, 0x120C, 0x6008]);
    assert!(s.has_free_register());
    let v = run(&s);
    assert_eq!(v[0], 8);
}

#[test]
fn counted_loop() {
    let mut s = State::new();
    assign(&mut s, sym("a"), Valued::Literal(0));
    loop_start(&mut s, Valued::Literal(3), Some("i"));
    assert_eq!(s.try_get("i"), Some(1));
    increment(&mut s, "a");
    loop_end(&mut s);
    assert_eq!(s.try_get("i"), None);
    assert_eq!(words(&s, 0x200), vec![0x6000, 0x6100, 0x7001, 0x7101, 0x3103, 0x1204]);
    let v = run(&s);
    assert_eq!(v[0], 3);
}

#[test]
fn counted_loop_to_a_variable() {
    let mut s = State::new();
    assign(&mut s, sym("n"), Valued::Literal(4));
    assign(&mut s, sym("a"), Valued::Literal(0));
    loop_start(&mut s, sym("n"), None);
    assign(&mut s, sym("a"), Valued::Expression(vec![(Valued::Literal(2), Ops::Add)]));
    loop_end(&mut s);
    assert_eq!(words(&s, 0x200), vec![0x6004, 0x6100, 0x6200, 0x7102, 0x7201, 0x5200, 0x1206]);
    let v = run(&s);
    assert_eq!(v[1], 8);
}

#[test]
fn while_loop_repeats_while_zero() {
    let mut s = State::new();
    assign(&mut s, sym("a"), Valued::Literal(0));
    assign(&mut s, sym("b"), Valued::Literal(0));
    assign(&mut s, sym("c"), Valued::Literal(4));
    while_loop_start(&mut s);
    increment(&mut s, "b");
    assign(&mut s, sym("a"), sym("b"));
    assign(&mut s, sym("a"), Valued::Expression(vec![(sym("c"), Ops::BitAnd)]));
    while_loop_end(&mut s, sym("a"));
    assert_eq!(words(&s, 0x200), vec![0x6000, 0x6100, 0x6204, 0x7101, 0x8010, 0x8022, 0x4000, 0x1206]);
    let v = run(&s);
    assert_eq!(v[1], 4);
}

#[test]
fn while_loop_without_variable_only_jumps_back() {
    let mut s = State::new();
    while_loop_start(&mut s);
    gap(&mut s);
    while_loop_end(&mut s, Valued::Literal(1));
    assert_eq!(s.program_words(0x200, 0x204), vec![0x0000, 0x1200]);
}

#[test]
fn data_blocks_and_flipped_copies() {
    let mut s = State::new();
    data(&mut s, "g", &[1, 2, 3]);
    assert_eq!(s.data_entry("g"), Some((0x8FF, 3)));
    assert_eq!(s.data_address(), 0x902);
    let copied = data_flipped(&mut s, "gg", Valued::Data("g".to_string()), Flip(true, true));
    assert_eq!(copied, vec![0xC0, 0x40, 0x80]);
    assert_eq!(s.data_entry("gg"), Some((0x902, 3)));
    let copied = data_flipped(&mut s, "gy", Valued::Data("g".to_string()), Flip(false, true));
    assert_eq!(copied, vec![3, 2, 1]);
    let copied = data_flipped(&mut s, "gx", Valued::Data("g".to_string()), Flip(true, false));
    assert_eq!(copied, vec![0x80, 0x40, 0xC0]);
    let back = data_flipped(&mut s, "ggg", Valued::Data("gg".to_string()), Flip(true, true));
    assert_eq!(back, vec![1, 2, 3]);
    assert_eq!(s.data_address(), 0x8FF + 15);
    let mut chunk = [0u8; 4096];
    s.copy_program_to_memory(&mut chunk);
    assert_eq!(&chunk[0x8FF..0x905], &[1, 2, 3, 0xC0, 0x40, 0x80]);
    // replacing a block keeps one entry under the name
    data(&mut s, "g", &[9]);
    assert_eq!(s.data_entry("g"), Some((0x8FF + 15, 1)));
}

#[test]
fn unflipped_copy_is_the_same_bytes() {
    let mut s = State::new();
    data(&mut s, "g", &[0x12, 0x34, 0x56]);
    let copied = data_flipped(&mut s, "h", Valued::Data("g".to_string()), Flip(false, false));
    assert_eq!(copied, vec![0x12, 0x34, 0x56]);
    assert_eq!(s.data_entry("h"), Some((0x902, 3)));
}

#[test]
fn free_registers_are_counted() {
    let mut s = State::new();
    assert_eq!(s.free_registers(), 15);
    assign(&mut s, sym("a"), Valued::Literal(1));
    assert_eq!(s.free_registers(), 14);
    assign(&mut s, sym("a"), Valued::Expression(vec![(Valued::Literal(5), Ops::Multiply)]));
    assert_eq!(s.free_registers(), 14);
}

#[test]
fn data_of_nothing() {
    let mut s = State::new();
    data(&mut s, "e", &[]);
    assert_eq!(s.data_entry("e"), Some((0x8FF, 0)));
    assert_eq!(data_flipped(&mut s, "f", Valued::Data("e".to_string()), Flip(true, true)), Vec::<u8>::new());
    assert_eq!(s.data_address(), 0x8FF);
}

#[test]
fn draw_data_sprite_at_literal_position() {
    let mut s = State::new();
    data(&mut s, "g", &[0xFF, 0x81, 0xFF]);
    let warning = draw(&mut s, Valued::Data("g".to_string()), Valued::Literal(10), Valued::Literal(5), Valued::Literal(3));
    assert!(!warning);
    assert_eq!(words(&s, 0x200), vec![0x600A, 0x6105, 0xA8FF, 0xD013]);
    assert!(s.try_get("a").is_none());
    let warning = draw(&mut s, Valued::Data("g".to_string()), Valued::Literal(10), Valued::Literal(5), Valued::Literal(4));
    assert!(warning);
    // the temporaries were freed: the same registers are used again
    assert_eq!(words(&s, 0x208), vec![0x600A, 0x6105, 0xA8FF, 0xD014]);
}

#[test]
fn draw_font_character_at_variables() {
    let mut s = State::new();
    assign(&mut s, sym("x"), Valued::Literal(1));
    assign(&mut s, sym("y"), Valued::Literal(2));
    let warning = draw(&mut s, Valued::Literal(0xA), sym("x"), sym("y"), Valued::Literal(5));
    assert!(!warning);
    assert_eq!(words(&s, 0x200), vec![0x6001, 0x6102, 0x620A, 0xF229, 0xD015]);
    assert_eq!(s.try_get("x"), Some(0));
}

#[test]
fn place_gap_and_fetch_back() {
    let mut s = State::new();
    place(&mut s, 0x6A42);
    gap(&mut s);
    place(&mut s, 0x00E0);
    assert_eq!(s.code_address(), 0x206);
    let mut chunk = [0xEEu8; 4096];
    s.copy_program_to_memory(&mut chunk);
    assert_eq!(chunk[0x1FF], 0xEE);
    let mut pc = 0x200usize;
    assert_eq!(fetch(&mut pc, &chunk), 0x6A42);
    assert_eq!(fetch(&mut pc, &chunk), 0x0000);
    assert_eq!(fetch(&mut pc, &chunk), 0x00E0);
}

#[test]
fn increment_emits_add_one() {
    let mut s = State::new();
    assign(&mut s, sym("k"), Valued::Literal(255));
    increment(&mut s, "k");
    increment(&mut s, "overflow");
    assert_eq!(words(&s, 0x200), vec![0x60FF, 0x7001, 0x7F01]);
    let v = run(&s);
    assert_eq!(v[0], 0);
    assert_eq!(v[15], 1);
}

#[test]
fn registers_run_out() {
    let mut s = State::new();
    let names = ["r0", "r1", "r2", "r3", "r4", "r5", "r6", "r7", "r8", "r9", "ra", "rb", "rc", "rd", "re"];
    for (k, name) in names.iter().enumerate() {
        assert!(s.has_free_register());
        assign(&mut s, sym(name), Valued::Literal(k as u8));
        assert_eq!(s.try_get(name), Some(k as u8));
    }
    assert!(!s.has_free_register());
}

#[test]
fn reverse_bits_mirrors() {
    assert_eq!(reverse_bits(0b1100_0001), 0b1000_0011);
    assert_eq!(reverse_bits(0x01), 0x80);
    assert_eq!(reverse_bits(0x00), 0x00);
    assert_eq!(reverse_bits(0xF0), 0x0F);
    for b in 0..=255u8 {
        assert_eq!(reverse_bits(reverse_bits(b)), b);
        assert_eq!(reverse_bits(b), b.reverse_bits());
    }
}

#[test]
fn valued_from_byte_is_a_literal() {
    assert!(matches!(Valued::from(7u8), Valued::Literal(7)));
}

#[test]
fn valued_from_name_is_a_variable() {
    match Valued::from("m1") {
        Valued::Symbol(n) => assert_eq!(n, "m1"),
        _ => panic!("not a variable"),
    }
}

#[test]
fn clone_copies_nested_expressions() {
    let e = Valued::Expression(vec![(sym("a"), Ops::Add), (Valued::Literal(3), Ops::Multiply)]);
    match e.clone() {
        Valued::Expression(items) => {
            assert_eq!(items.len(), 2);
            assert!(matches!(&items[0], (Valued::Symbol(n), Ops::Add) if n == "a"));
            assert!(matches!(&items[1], (Valued::Literal(3), Ops::Multiply)));
        }
        _ => panic!("not an expression"),
    }
    assert!(matches!(Valued::Register(4).clone(), Valued::Register(4)));
}

/// Runs `cycles` cycles of the emitted code from `start` with the given registers.
fn run_from(state: &State, start: usize, v: [u8; 16], cycles: usize) -> (usize, [u8; 16]) {
    let mut chunk = [0u8; 4096];
    state.copy_program_to_memory(&mut chunk);
    let mut d = [0u64; 32];
    let mut v = v;
    let mut i = 0usize;
    let mut pc = start;
    let mut stack = Stack::new();
    let mut t = 0u8;
    let mut st = 0u8;
    for _ in 0..cycles {
        let w = fetch(&mut pc, &chunk);
        assert!(can_execute(w, &d, &v, i, pc, &chunk, &stack, t, st));
        execute(w, 0, &mut d, &mut v, &mut i, &mut pc, &mut chunk, &mut stack, &mut t, &mut st);
    }
    (pc, v)
}

#[test]
fn multiplication_by_a_variable_takes_75_cycles() {
    let mut s = State::new();
    assign(&mut s, sym("a"), Valued::Literal(0));
    assign(&mut s, sym("b"), Valued::Literal(0));
    let start = s.code_address() as usize;
    assign(&mut s, sym("a"), Valued::Expression(vec![(sym("b"), Ops::Multiply)]));
    assert_eq!(s.code_address() as usize, start + 28);
    for (a, b) in [(7u8, 9u8), (200, 3), (0, 255), (255, 255), (13, 0)] {
        let mut v = [0u8; 16];
        v[0] = a;
        v[1] = b;
        let (pc, v) = run_from(&s, start, v, 75);
        assert_eq!(pc, start + 28);
        assert_eq!(v[0], a.wrapping_mul(b));
        assert_eq!(v[1], b);
    }
}

#[test]
fn multiplication_by_a_literal_runs_straight() {
    for by in [0u8, 1, 5, 128, 255] {
        let mut s = State::new();
        assign(&mut s, sym("a"), Valued::Literal(0));
        let start = s.code_address() as usize;
        assign(&mut s, sym("a"), Valued::Expression(vec![(Valued::Literal(by), Ops::Multiply)]));
        let end = s.code_address() as usize;
        let mut v = [0u8; 16];
        v[0] = 11;
        let (pc, v) = run_from(&s, start, v, (end - start) / 2);
        assert_eq!(pc, end);
        assert_eq!(v[0], 11u8.wrapping_mul(by));
    }
}

#[test]
fn good_names_are_not_empty() {
    assert!(State::is_a_good_name("").is_err());
    assert!(State::is_a_good_name("x").is_ok());
}
