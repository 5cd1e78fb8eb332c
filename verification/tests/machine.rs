use tape_machine::instruction::Instruction;
use tape_machine::instruction::Instruction::{
    Input, JumpIfNonZero, JumpIfZero, Move, Mutate, Output, Reset, Transfer,
};
use tape_machine::interpreter::{Program, INITIAL_TAPE};
use tape_machine::linker::link_branches;
use tape_machine::parser::{compile, parse};

fn run_all(insts: Vec<Instruction>, input: &[u8]) -> (Program, Vec<u8>, usize) {
    let mut machine = Program::new(insts);
    let mut output = Vec::new();
    let steps = machine.run(input, &mut output, 1_000_000);
    (machine, output, steps)
}

#[test]
fn new_machine_has_a_zero_tape() {
    let machine = Program::new(vec![Output]);
    assert_eq!(machine.tape().len(), INITIAL_TAPE);
    assert_eq!(INITIAL_TAPE, 10240);
    assert!(machine.tape().iter().all(|c| *c == 0));
    assert_eq!(machine.cursor(), 0);
    assert_eq!(machine.steps(), 0);
    assert!(!machine.halted());
    assert!(machine.can_step());
    assert_eq!(machine.instructions(), &vec![Output]);
}

#[test]
fn empty_program_is_halted() {
    let (machine, output, steps) = run_all(vec![], &[]);
    assert!(machine.halted());
    assert!(!machine.can_step());
    assert_eq!(steps, 0);
    assert_eq!(output, vec![]);
}

#[test]
fn increment_wraps_at_255() {
    let (machine, _, steps) = run_all(vec![Mutate(255), Mutate(1)], &[]);
    assert_eq!(machine.tape()[0], 0);
    assert_eq!(steps, 2);
    let mut machine = Program::new(vec![Mutate(255), Mutate(1)]);
    machine.step(None);
    assert_eq!(machine.tape()[0], 255);
    machine.step(None);
    assert_eq!(machine.tape()[0], 0);
}

#[test]
fn decrement_wraps_at_zero() {
    let (machine, _, _) = run_all(vec![Mutate(-1)], &[]);
    assert_eq!(machine.tape()[0], 255);
}

#[test]
fn mutate_adds_modulo_256() {
    let (machine, _, _) = run_all(vec![Mutate(1000)], &[]);
    assert_eq!(machine.tape()[0], 232);
    let (machine, _, _) = run_all(vec![Mutate(-1000)], &[]);
    assert_eq!(machine.tape()[0], 24);
    let (machine, _, _) = run_all(vec![Mutate(isize::MIN)], &[]);
    assert_eq!(machine.tape()[0], 0);
    let (machine, _, _) = run_all(vec![Mutate(isize::MAX)], &[]);
    assert_eq!(machine.tape()[0], 255);
}

#[test]
fn move_left_of_the_tape_doubles_it() {
    let (machine, _, _) = run_all(vec![Mutate(7), Move(1), Mutate(9), Move(-2), Mutate(5)], &[]);
    assert_eq!(machine.tape().len(), 2 * INITIAL_TAPE);
    assert_eq!(machine.cursor(), INITIAL_TAPE - 1);
    assert_eq!(machine.tape()[INITIAL_TAPE - 1], 5);
    assert_eq!(machine.tape()[INITIAL_TAPE], 7);
    assert_eq!(machine.tape()[INITIAL_TAPE + 1], 9);
    let others = machine
        .tape()
        .iter()
        .enumerate()
        .filter(|(i, _)| *i < INITIAL_TAPE - 1 || *i > INITIAL_TAPE + 1);
    for (_, c) in others {
        assert_eq!(*c, 0);
    }
}

#[test]
fn move_right_of_the_tape_grows_it_to_twice_the_target() {
    let (machine, _, _) = run_all(vec![Mutate(3), Move(10240), Mutate(4)], &[]);
    assert_eq!(machine.tape().len(), 20480);
    assert_eq!(machine.cursor(), 10240);
    assert_eq!(machine.tape()[0], 3);
    assert_eq!(machine.tape()[10240], 4);
    let (machine, _, _) = run_all(vec![Move(15000)], &[]);
    assert_eq!(machine.tape().len(), 30000);
    assert_eq!(machine.cursor(), 15000);
}

#[test]
fn move_on_the_tape_does_not_grow_it() {
    let (machine, _, _) = run_all(vec![Move(10239), Move(-10239), Move(5)], &[]);
    assert_eq!(machine.tape().len(), INITIAL_TAPE);
    assert_eq!(machine.cursor(), 5);
}

#[test]
fn allocate_location_keeps_the_cursor() {
    let mut machine = Program::new(vec![Mutate(1)]);
    machine.step(None);
    assert_eq!(machine.allocate_location(-3), INITIAL_TAPE - 3);
    assert_eq!(machine.cursor(), 0);
    assert_eq!(machine.tape().len(), 2 * INITIAL_TAPE);
    assert_eq!(machine.tape()[INITIAL_TAPE], 1);
    assert_eq!(machine.allocate_location(17), 17);
    assert_eq!(machine.tape().len(), 2 * INITIAL_TAPE);
    assert_eq!(machine.allocate_location(20480), 20480);
    assert_eq!(machine.tape().len(), 40960);
    assert_eq!(machine.tape()[INITIAL_TAPE], 1);
}

#[test]
fn move_far_left_doubles_the_tape_as_often_as_needed() {
    let (machine, _, steps) = run_all(vec![Mutate(7), Move(-10241), Mutate(5)], &[]);
    assert!(machine.halted());
    assert_eq!(steps, 3);
    assert_eq!(machine.tape().len(), 4 * INITIAL_TAPE);
    assert_eq!(machine.cursor(), 3 * INITIAL_TAPE - 10241);
    assert_eq!(machine.tape()[3 * INITIAL_TAPE - 10241], 5);
    assert_eq!(machine.tape()[3 * INITIAL_TAPE], 7);
    let (machine, _, _) = run_all(vec![Move(-100000)], &[]);
    assert_eq!(machine.tape().len(), 16 * INITIAL_TAPE);
    assert_eq!(machine.cursor(), 15 * INITIAL_TAPE - 100000);
}

#[test]
fn merged_move_reaches_what_the_moves_reach() {
    let (a, _, steps_a) = run_all(vec![Mutate(1), Move(-10240), Move(-1), Mutate(2)], &[]);
    let (b, _, steps_b) = run_all(vec![Mutate(1), Move(-10241), Mutate(2)], &[]);
    assert!(a.halted());
    assert!(b.halted());
    assert_eq!(steps_a, 4);
    assert_eq!(steps_b, 3);
    assert_eq!(a.tape(), b.tape());
    assert_eq!(a.cursor(), b.cursor());
    assert_eq!(a.cursor(), 2 * INITIAL_TAPE - 1);
}

#[test]
fn move_out_of_reach_stops_the_machine() {
    let mut machine = Program::new(vec![Move(isize::MAX)]);
    assert!(!machine.can_step());
    assert!(!machine.halted());
    let mut output = Vec::new();
    assert_eq!(machine.run(&[], &mut output, 100), 0);
    assert!(!machine.halted());
    assert_eq!(machine.tape().len(), INITIAL_TAPE);
    let machine = Program::new(vec![Move(isize::MAX / 2 + 1)]);
    assert!(!machine.can_step());
    let machine = Program::new(vec![Move(isize::MAX / 2)]);
    assert!(machine.can_step());
    let machine = Program::new(vec![Move(isize::MIN)]);
    assert!(!machine.can_step());
    let machine = Program::new(vec![Transfer(isize::MIN, 1)]);
    assert!(!machine.can_step());
    let machine = Program::new(vec![Move(-10241)]);
    assert!(machine.can_step());
    let machine = Program::new(vec![Move(-(1 << 40))]);
    assert!(machine.can_step());
}

#[test]
fn input_fills_the_cell() {
    let (machine, output, _) = run_all(vec![Input, Output, Move(1), Input, Output], &[65, 66, 67]);
    assert_eq!(output, vec![65, 66]);
    assert_eq!(machine.tape()[0], 65);
    assert_eq!(machine.tape()[1], 66);
}

#[test]
fn exhausted_input_leaves_the_cell() {
    let (machine, output, steps) = run_all(vec![Mutate(9), Input, Output, Input, Output], &[4]);
    assert_eq!(output, vec![4, 4]);
    assert_eq!(machine.tape()[0], 4);
    assert_eq!(steps, 5);
    let (machine, _, _) = run_all(vec![Mutate(9), Input], &[]);
    assert_eq!(machine.tape()[0], 9);
}

#[test]
fn step_takes_its_event_and_gives_its_action() {
    let mut machine = Program::new(vec![Input, Output, Mutate(1), Output]);
    assert!(machine.wants_input());
    assert_eq!(machine.step(Some(42)), None);
    assert!(!machine.wants_input());
    assert_eq!(machine.step(Some(1)), Some(42));
    assert_eq!(machine.step(None), None);
    assert_eq!(machine.step(None), Some(43));
    assert!(machine.halted());
    assert!(!machine.wants_input());
    assert_eq!(machine.steps(), 4);
}

#[test]
fn reset_zeroes_the_cell() {
    let (machine, _, steps) = run_all(vec![Mutate(200), Reset], &[]);
    assert_eq!(machine.tape()[0], 0);
    assert_eq!(steps, 2);
}

#[test]
fn transfer_adds_the_product_and_zeroes_the_source() {
    let (machine, _, _) = run_all(vec![Mutate(5), Move(1), Mutate(2), Move(-1), Transfer(1, 3)], &[]);
    assert_eq!(machine.tape()[0], 0);
    assert_eq!(machine.tape()[1], 17);
    assert_eq!(machine.cursor(), 0);
    let (machine, _, _) = run_all(vec![Mutate(100), Transfer(2, 3)], &[]);
    assert_eq!(machine.tape()[2], 44);
    let (machine, _, _) = run_all(vec![Mutate(3), Move(1), Mutate(10), Move(-1), Transfer(1, -2)], &[]);
    assert_eq!(machine.tape()[1], 4);
    let (machine, _, _) = run_all(vec![Mutate(3), Transfer(1, -2)], &[]);
    assert_eq!(machine.tape()[1], 250);
    let (machine, _, _) = run_all(vec![Mutate(7), Transfer(0, 5)], &[]);
    assert_eq!(machine.tape()[0], 0);
}

#[test]
fn transfer_left_of_the_tape_rebases_the_cursor() {
    let (machine, _, _) = run_all(vec![Mutate(6), Transfer(-1, 2)], &[]);
    assert_eq!(machine.tape().len(), 2 * INITIAL_TAPE);
    assert_eq!(machine.cursor(), INITIAL_TAPE);
    assert_eq!(machine.tape()[INITIAL_TAPE], 0);
    assert_eq!(machine.tape()[INITIAL_TAPE - 1], 12);
}

#[test]
fn transfer_right_of_the_tape_grows_it() {
    let (machine, _, _) = run_all(vec![Mutate(6), Transfer(12000, 1)], &[]);
    assert_eq!(machine.tape().len(), 24000);
    assert_eq!(machine.cursor(), 0);
    assert_eq!(machine.tape()[0], 0);
    assert_eq!(machine.tape()[12000], 6);
}

#[test]
fn transfer_equals_the_loop_it_replaces() {
    let mut plain = parse("+++++>++<[>>+++<<-]>>.");
    assert_eq!(link_branches(&mut plain), Ok(()));
    let folded = compile("+++++>++<[>>+++<<-]>>.").unwrap();
    assert!(folded.contains(&Transfer(2, 3)));
    let (a, out_a, _) = run_all(plain, &[]);
    let (b, out_b, _) = run_all(folded, &[]);
    assert_eq!(out_a, vec![15]);
    assert_eq!(out_a, out_b);
    assert_eq!(a.tape(), b.tape());
    assert_eq!(a.cursor(), b.cursor());
}

#[test]
fn branches_skip_and_repeat() {
    let (_, output, steps) = run_all(vec![JumpIfZero(2), Output, JumpIfNonZero(-2), Mutate(1), Output], &[]);
    assert_eq!(output, vec![1]);
    assert_eq!(steps, 3);
    let (_, output, _) = run_all(
        vec![Mutate(3), JumpIfZero(3), Output, Mutate(-1), JumpIfNonZero(-3)],
        &[],
    );
    assert_eq!(output, vec![3, 2, 1]);
}

#[test]
fn empty_loop_round_trip() {
    let mut insts = parse("+[]");
    assert_eq!(link_branches(&mut insts), Ok(()));
    assert_eq!(insts, vec![Mutate(1), JumpIfZero(1), JumpIfNonZero(-1)]);
    let mut machine = Program::new(insts);
    machine.step(None);
    machine.step(None);
    machine.step(None);
    let mut output = Vec::new();
    assert_eq!(machine.run(&[], &mut output, 4), 4);
    assert!(!machine.halted());
    let mut skipped = Program::new(vec![JumpIfZero(1), JumpIfNonZero(-1)]);
    skipped.step(None);
    assert!(skipped.halted());
}

#[test]
fn branch_out_of_the_program_halts() {
    let (machine, _, steps) = run_all(vec![JumpIfZero(100), Output], &[]);
    assert!(machine.halted());
    assert_eq!(steps, 1);
    assert_eq!(machine.prog_counter(), 101);
    let (machine, _, steps) = run_all(vec![Mutate(1), JumpIfNonZero(-100), Output], &[]);
    assert!(machine.halted());
    assert_eq!(steps, 2);
    assert_eq!(machine.prog_counter(), 3);
    let (machine, output, steps) = run_all(vec![Output, Mutate(1), JumpIfNonZero(isize::MIN)], &[]);
    assert!(machine.halted());
    assert_eq!(output, vec![0]);
    assert_eq!(steps, 3);
}

#[test]
fn fired_branch_adds_its_offset_and_one() {
    let (machine, _, _) = run_all(vec![JumpIfZero(1)], &[]);
    assert!(machine.halted());
    assert_eq!(machine.prog_counter(), 2);
    let (machine, _, _) = run_all(vec![JumpIfZero(isize::MAX)], &[]);
    assert!(machine.halted());
    assert_eq!(machine.prog_counter(), isize::MAX as usize + 1);
    let (machine, _, _) = run_all(vec![Mutate(1), JumpIfNonZero(0)], &[]);
    assert_eq!(machine.prog_counter(), 2);
    let (machine, _, _) = run_all(vec![Mutate(1), JumpIfZero(5), Output], &[]);
    assert_eq!(machine.prog_counter(), 3);
    let mut machine = Program::new(vec![Mutate(1), Mutate(1), JumpIfNonZero(-2)]);
    machine.step(None);
    machine.step(None);
    machine.step(None);
    assert_eq!(machine.prog_counter(), 1);
    assert!(!machine.halted());
}

#[test]
fn run_stops_at_the_step_limit() {
    let insts = compile("+[>+<]").unwrap();
    let mut machine = Program::new(insts);
    let mut output = Vec::new();
    assert_eq!(machine.run(&[], &mut output, 1000), 1000);
    assert!(!machine.halted());
    assert_eq!(machine.steps(), 1000);
    assert_eq!(machine.run(&[], &mut output, 1000), 1000);
    assert_eq!(machine.run(&[], &mut output, 1500), 1500);
    assert_eq!(machine.run(&[], &mut output, 0), 1500);
}

#[test]
fn optimised_program_writes_the_same_bytes_in_fewer_steps() {
    let src = "++++++++[>++++++++<-]>+.+.+.>++++++++++.[-]<[-]";
    let mut plain = parse(src);
    assert_eq!(link_branches(&mut plain), Ok(()));
    let optimised = compile(src).unwrap();
    assert!(optimised.len() < plain.len());
    let (a, out_plain, steps_plain) = run_all(plain, &[]);
    let (b, out_optimised, steps_optimised) = run_all(optimised, &[]);
    assert!(a.halted());
    assert!(b.halted());
    assert_eq!(out_plain, b"ABC\n".to_vec());
    assert_eq!(out_optimised, out_plain);
    assert!(steps_optimised <= steps_plain);
    assert_eq!(steps_plain, 281);
    assert_eq!(steps_optimised, 15);
    assert_eq!(a.tape(), b.tape());
}

#[test]
fn echo_until_input_ends() {
    let insts = compile(",[.[-],]").unwrap();
    let (machine, output, _) = run_all(insts, b"hi!");
    assert_eq!(output, b"hi!".to_vec());
    assert!(machine.halted());
}

#[test]
fn reset_loop_takes_one_step_and_two_per_unit() {
    let mut looped = vec![Mutate(5)];
    looped.extend(parse("[-]"));
    assert_eq!(link_branches(&mut looped), Ok(()));
    assert_eq!(looped, vec![Mutate(5), JumpIfZero(2), Mutate(-1), JumpIfNonZero(-2)]);
    let (a, _, steps_loop) = run_all(looped, &[]);
    let (b, _, steps_reset) = run_all(vec![Mutate(5), Reset], &[]);
    assert_eq!(steps_loop, 1 + 1 + 2 * 5);
    assert_eq!(steps_reset, 2);
    assert_eq!(a.tape(), b.tape());
    assert_eq!(a.cursor(), b.cursor());
}

#[test]
fn transfer_loop_takes_one_step_and_five_per_unit() {
    let mut looped = vec![Mutate(4)];
    looped.extend(vec![JumpIfZero(0), Move(-3), Mutate(7), Move(3), Mutate(-1), JumpIfNonZero(0)]);
    assert_eq!(link_branches(&mut looped), Ok(()));
    let (a, _, steps_loop) = run_all(looped, &[]);
    let (b, _, steps_transfer) = run_all(vec![Mutate(4), Transfer(-3, 7)], &[]);
    assert_eq!(steps_loop, 1 + 1 + 5 * 4);
    assert_eq!(steps_transfer, 2);
    assert_eq!(a.tape(), b.tape());
    assert_eq!(a.cursor(), b.cursor());
    assert_eq!(a.cursor(), INITIAL_TAPE);
    assert_eq!(a.tape()[INITIAL_TAPE - 3], 28);
    assert_eq!(a.tape()[INITIAL_TAPE], 0);
}

#[test]
fn transfer_of_a_zero_cell_only_grows_the_tape() {
    let (machine, _, _) = run_all(vec![Transfer(-1, 9)], &[]);
    assert_eq!(machine.tape().len(), 2 * INITIAL_TAPE);
    assert!(machine.tape().iter().all(|c| *c == 0));
    assert_eq!(machine.cursor(), INITIAL_TAPE);
}

#[test]
fn run_appends_to_the_output() {
    let mut machine = Program::new(vec![Mutate(1), Output, Mutate(1), Output]);
    let mut output = vec![9, 9];
    assert_eq!(machine.run(&[], &mut output, 2), 2);
    assert_eq!(output, vec![9, 9, 1]);
    assert_eq!(machine.run(&[], &mut output, usize::MAX), 4);
    assert_eq!(output, vec![9, 9, 1, 2]);
    assert!(machine.halted());
}
