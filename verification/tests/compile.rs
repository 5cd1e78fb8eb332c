use tape_machine::instruction::Instruction;
use tape_machine::instruction::Instruction::{
    Input, JumpIfNonZero, JumpIfZero, Move, Mutate, Output, Reset, Transfer,
};
use tape_machine::linker::{link_branches, BracketError};
use tape_machine::optimizer::{find_resets, find_transfers, merge_general, optimize, RunKind};
use tape_machine::parser::{compile, parse};

#[test]
fn parse_maps_the_eight_symbols() {
    assert_eq!(
        parse("+-><,.[]"),
        vec![
            Mutate(1),
            Mutate(-1),
            Move(1),
            Move(-1),
            Input,
            Output,
            JumpIfZero(0),
            JumpIfNonZero(0)
        ]
    );
}

#[test]
fn parse_drops_other_characters() {
    assert_eq!(parse("a + b\n- é #"), vec![Mutate(1), Mutate(-1)]);
    assert_eq!(parse(""), Vec::<Instruction>::new());
    assert_eq!(parse("hello world"), Vec::<Instruction>::new());
}

#[test]
fn parse_does_not_check_balance() {
    assert_eq!(parse("]["), vec![JumpIfNonZero(0), JumpIfZero(0)]);
}

#[test]
fn run_of_mutates_becomes_its_sum() {
    let mut insts = parse("+++--");
    optimize(&mut insts);
    assert_eq!(insts, vec![Mutate(1)]);
    assert_eq!(compile("+++--"), Ok(vec![Mutate(1)]));
    assert_eq!(compile("-----"), Ok(vec![Mutate(-5)]));
}

#[test]
fn run_with_zero_sum_disappears() {
    let mut insts = parse("+-");
    optimize(&mut insts);
    assert_eq!(insts, Vec::<Instruction>::new());
    assert_eq!(compile("+-"), Ok(vec![]));
    assert_eq!(compile("><<>"), Ok(vec![]));
}

#[test]
fn merging_moves_leaves_mutates_alone() {
    let mut insts = vec![Move(2), Move(3), Mutate(1), Mutate(1), Move(-1), Input, Move(4), Move(-4)];
    merge_general(&mut insts, RunKind::Move);
    assert_eq!(insts, vec![Move(5), Mutate(1), Mutate(1), Move(-1), Input]);
    merge_general(&mut insts, RunKind::Mutate);
    assert_eq!(insts, vec![Move(5), Mutate(2), Move(-1), Input]);
}

#[test]
fn merging_removes_a_single_zero_delta() {
    let mut insts = vec![Output, Mutate(0), Output];
    merge_general(&mut insts, RunKind::Mutate);
    assert_eq!(insts, vec![Output, Output]);
    let mut empty: Vec<Instruction> = vec![];
    merge_general(&mut empty, RunKind::Move);
    assert_eq!(empty, vec![]);
}

#[test]
fn vanished_run_lets_neighbours_merge_in_the_next_round() {
    assert_eq!(compile("+><+"), Ok(vec![Mutate(2)]));
}

#[test]
fn reset_loop_compiles_to_reset() {
    assert_eq!(compile("[-]"), Ok(vec![Reset]));
    assert_eq!(compile("+[-]."), Ok(vec![Mutate(1), Reset, Output]));
}

#[test]
fn find_resets_needs_the_exact_pattern() {
    let mut insts = vec![JumpIfZero(0), Mutate(-2), JumpIfNonZero(0)];
    find_resets(&mut insts);
    assert_eq!(insts, vec![JumpIfZero(0), Mutate(-2), JumpIfNonZero(0)]);
    let mut insts = vec![JumpIfZero(0), Mutate(-1), JumpIfNonZero(0), JumpIfZero(0), Mutate(-1)];
    find_resets(&mut insts);
    assert_eq!(insts, vec![Reset, JumpIfZero(0), Mutate(-1)]);
    let mut short = vec![JumpIfZero(0), Mutate(-1)];
    find_resets(&mut short);
    assert_eq!(short, vec![JumpIfZero(0), Mutate(-1)]);
    let mut empty: Vec<Instruction> = vec![];
    find_resets(&mut empty);
    assert_eq!(empty, vec![]);
}

#[test]
fn transfer_loop_compiles_to_transfer() {
    assert_eq!(compile("[>+<-]"), Ok(vec![Transfer(1, 1)]));
    assert_eq!(compile(">[>+<-]"), Ok(vec![Move(1), Transfer(1, 1)]));
    assert_eq!(compile("[<<+++>>-]"), Ok(vec![Transfer(-2, 3)]));
}

#[test]
fn find_transfers_needs_the_exact_pattern() {
    let pattern = vec![JumpIfZero(0), Move(3), Mutate(-2), Move(-3), Mutate(-1), JumpIfNonZero(0)];
    let mut insts = pattern.clone();
    find_transfers(&mut insts);
    assert_eq!(insts, vec![Transfer(3, -2)]);
    let mut insts = vec![JumpIfZero(0), Move(3), Mutate(1), Move(-2), Mutate(-1), JumpIfNonZero(0)];
    let kept = insts.clone();
    find_transfers(&mut insts);
    assert_eq!(insts, kept);
    let mut insts = vec![JumpIfZero(0), Move(3), Mutate(1), Move(-3), Mutate(-2), JumpIfNonZero(0)];
    let kept = insts.clone();
    find_transfers(&mut insts);
    assert_eq!(insts, kept);
    let mut insts = vec![
        JumpIfZero(0),
        Move(isize::MIN),
        Mutate(1),
        Move(isize::MIN),
        Mutate(-1),
        JumpIfNonZero(0),
    ];
    let kept = insts.clone();
    find_transfers(&mut insts);
    assert_eq!(insts, kept);
    let mut insts = vec![Output];
    insts.extend(pattern);
    insts.push(Input);
    find_transfers(&mut insts);
    assert_eq!(insts, vec![Output, Transfer(3, -2), Input]);
}

#[test]
fn other_loops_are_left_to_the_linker() {
    assert_eq!(
        compile("[->+>+<<]"),
        Ok(vec![
            JumpIfZero(7),
            Mutate(-1),
            Move(1),
            Mutate(1),
            Move(1),
            Mutate(1),
            Move(-2),
            JumpIfNonZero(-7)
        ])
    );
}

#[test]
fn loop_with_the_decrement_first_is_no_transfer() {
    assert_eq!(
        compile("[->+<]"),
        Ok(vec![
            JumpIfZero(5),
            Mutate(-1),
            Move(1),
            Mutate(1),
            Move(-1),
            JumpIfNonZero(-5)
        ])
    );
}

#[test]
fn linker_resolves_nested_pairs() {
    let mut insts = parse("[[][]]");
    assert_eq!(link_branches(&mut insts), Ok(()));
    assert_eq!(
        insts,
        vec![
            JumpIfZero(5),
            JumpIfZero(1),
            JumpIfNonZero(-1),
            JumpIfZero(1),
            JumpIfNonZero(-1),
            JumpIfNonZero(-5)
        ]
    );
}

#[test]
fn linked_offsets_are_mutual_negatives() {
    let mut insts = parse("+[>[.-]<[,]-]");
    assert_eq!(link_branches(&mut insts), Ok(()));
    for (p, i) in insts.iter().enumerate() {
        if let JumpIfZero(o) = i {
            let q = (p as isize + o) as usize;
            assert!(q > p);
            assert_eq!(insts[q], JumpIfNonZero(-o));
        }
    }
}

#[test]
fn lone_opening_bracket_is_an_error() {
    assert_eq!(compile("["), Err(BracketError::UnmatchedOpening(0)));
}

#[test]
fn lone_closing_bracket_is_an_error() {
    assert_eq!(compile("]"), Err(BracketError::UnmatchedClosing(0)));
}

#[test]
fn error_positions_count_optimised_instructions() {
    assert_eq!(compile("+++]"), Err(BracketError::UnmatchedClosing(1)));
    assert_eq!(compile("[-]+["), Err(BracketError::UnmatchedOpening(2)));
}

#[test]
fn innermost_unclosed_bracket_is_reported() {
    assert_eq!(compile("[.[.[."), Err(BracketError::UnmatchedOpening(4)));
    assert_eq!(compile("[.].[.[.].[."), Err(BracketError::UnmatchedOpening(10)));
    assert_eq!(compile("[.[.]"), Err(BracketError::UnmatchedOpening(0)));
}

#[test]
fn first_unmatched_closing_bracket_wins() {
    assert_eq!(compile("[.].].["), Err(BracketError::UnmatchedClosing(4)));
    assert_eq!(BracketError::UnmatchedClosing(4).position(), 4);
    assert_eq!(BracketError::UnmatchedOpening(7).position(), 7);
}

#[test]
fn pairs_before_a_failure_stay_linked() {
    let mut insts = parse("[.].]");
    assert_eq!(link_branches(&mut insts), Err(BracketError::UnmatchedClosing(4)));
    assert_eq!(
        insts,
        vec![JumpIfZero(2), Output, JumpIfNonZero(-2), Output, JumpIfNonZero(0)]
    );
    let mut insts = parse("[[.]");
    assert_eq!(link_branches(&mut insts), Err(BracketError::UnmatchedOpening(0)));
    assert_eq!(insts, vec![JumpIfZero(0), JumpIfZero(2), Output, JumpIfNonZero(-2)]);
}

#[test]
fn optimising_twice_changes_nothing_more() {
    for src in ["+++[>++<-]>.", "+-+-[-]>><<[>+<-]", "[[-]]", "+[-]-", ">+<->+<-", ",[.,]"] {
        let mut once = parse(src);
        optimize(&mut once);
        let mut twice = once.clone();
        optimize(&mut twice);
        assert_eq!(once, twice);
        assert!(once.len() <= parse(src).len());
        assert!(!once.contains(&Mutate(0)));
        assert!(!once.contains(&Move(0)));
    }
}

#[test]
fn folding_exposes_runs_for_the_next_round() {
    let mut insts = parse("+[-]-[-]");
    optimize(&mut insts);
    assert_eq!(insts, vec![Mutate(1), Reset, Mutate(-1), Reset]);
    let mut insts = parse("[>><<-]");
    optimize(&mut insts);
    assert_eq!(insts, vec![Reset]);
    let mut insts = parse("[>+-<-]");
    optimize(&mut insts);
    assert_eq!(insts, vec![Reset]);
}

#[test]
fn optimising_keeps_the_balance_of_the_brackets() {
    for src in ["[-]", "[-]]", "[[-]", "[>+<-]", "[>+<-]]", "+[[>+<-]", "][", "", "[[][]]"] {
        let mut plain = parse(src);
        let unoptimised = link_branches(&mut plain);
        assert_eq!(compile(src).is_ok(), unoptimised.is_ok());
    }
}

#[test]
fn long_run_is_summed_exactly() {
    let src = "+".repeat(1000) + &"-".repeat(300);
    assert_eq!(compile(&src), Ok(vec![Mutate(700)]));
    let src = "<".repeat(513);
    assert_eq!(compile(&src), Ok(vec![Move(-513)]));
}

#[test]
fn large_deltas_apart_are_left_alone() {
    let mut insts = vec![Move(isize::MAX), Output, Move(isize::MAX)];
    optimize(&mut insts);
    assert_eq!(insts, vec![Move(isize::MAX), Output, Move(isize::MAX)]);
    let mut insts = vec![Mutate(isize::MIN), Input, Mutate(isize::MIN), Mutate(isize::MAX)];
    merge_general(&mut insts, RunKind::Mutate);
    assert_eq!(insts, vec![Mutate(isize::MIN), Input, Mutate(-1)]);
    let mut insts = vec![Move(isize::MAX), Move(-isize::MAX), Move(isize::MIN)];
    merge_general(&mut insts, RunKind::Move);
    assert_eq!(insts, vec![Move(isize::MIN)]);
}

#[test]
fn instructions_between_a_linked_pair_are_balanced() {
    let mut insts = parse("+[>[.-]<[,[-]]-].");
    assert_eq!(link_branches(&mut insts), Ok(()));
    for (p, i) in insts.iter().enumerate() {
        if let JumpIfZero(o) = i {
            assert!(*o > 0);
            let q = p + *o as usize;
            assert!(q < insts.len());
            let mut depth = 0;
            for inner in &insts[p + 1..q] {
                match inner {
                    JumpIfZero(_) => depth += 1,
                    JumpIfNonZero(_) => depth -= 1,
                    _ => {}
                }
                assert!(depth >= 0);
            }
            assert_eq!(depth, 0);
        }
    }
}
