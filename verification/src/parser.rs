use vstd::prelude::*;
use vstd::std_specs::iter::IteratorSpec;
use crate::instruction::Instruction;
use crate::linker::{balanced, link_branches, linked, unmatched_closing, unmatched_opening, BracketError};
use crate::optimizer::{
    cost, lemma_light_rounds_fit, lemma_optimized_balanced, lemma_weight_push, optimize,
    optimized, weight,
};

verus! {

/// The instruction that one source character stands for, if any.
pub open spec fn token(c: char) -> Option<Instruction> {
    if c == '+' {
        Some(Instruction::Mutate(1))
    } else if c == '-' {
        Some(Instruction::Mutate(-1isize))
    } else if c == '>' {
        Some(Instruction::Move(1))
    } else if c == '<' {
        Some(Instruction::Move(-1isize))
    } else if c == ',' {
        Some(Instruction::Input)
    } else if c == '.' {
        Some(Instruction::Output)
    } else if c == '[' {
        Some(Instruction::JumpIfZero(0))
    } else if c == ']' {
        Some(Instruction::JumpIfNonZero(0))
    } else {
        None
    }
}

/// The instructions of a source text: those of its meaningful characters,
/// in order.
pub open spec fn parsed(src: Seq<char>) -> Seq<Instruction>
    decreases src.len(),
{
    if src.len() == 0 {
        Seq::empty()
    } else {
        match token(src.last()) {
            Some(i) => parsed(src.drop_last()).push(i),
            None => parsed(src.drop_last()),
        }
    }
}

/// The instruction that one source character stands for, if any.
fn parse_token(c: char) -> (r: Option<Instruction>)
    ensures
        r == token(c),
{
    match c {
        '+' => Some(Instruction::Mutate(1)),
        '-' => Some(Instruction::Mutate(-1)),
        '>' => Some(Instruction::Move(1)),
        '<' => Some(Instruction::Move(-1)),
        ',' => Some(Instruction::Input),
        '.' => Some(Instruction::Output),
        '[' => Some(Instruction::JumpIfZero(0)),
        ']' => Some(Instruction::JumpIfNonZero(0)),
        _ => None,
    }
}

/// Tokenises a source text. Characters without a meaning are dropped.
pub fn parse(src: &str) -> (insts: Vec<Instruction>)
    ensures
        insts@ == parsed(src@),
{
    broadcast use vstd::string::group_string_axioms;
    let mut insts: Vec<Instruction> = Vec::new();
    let mut it = src.chars();
    let ghost mut done: Seq<char> = Seq::empty();
    loop
        invariant
            it.obeys_prophetic_iter_laws(),
            done + it.remaining() == src@,
            insts@ == parsed(done),
            it.decrease() is Some,
        decreases it.decrease()->0,
    {
        let ghost before = it.remaining();
        match it.next() {
            Some(c) => {
                proof {
                    assert(done.push(c).drop_last() == done);
                    assert(done.push(c) + it.remaining() == done + before);
                    done = done.push(c);
                }
                match parse_token(c) {
                    Some(i) => insts.push(i),
                    None => {},
                }
            },
            None => {
                proof {
                    assert(done + before == done);
                }
                return insts;
            },
        }
    }
}

/// A source text yields no more instructions than it has characters, and
/// each of them moves or changes by one at most.
pub proof fn lemma_parsed_weight(src: Seq<char>)
    ensures
        weight(parsed(src)) <= parsed(src).len() <= src.len(),
    decreases src.len(),
{
    if src.len() == 0 {
        lemma_weight_push(Seq::empty(), Instruction::Input);
    } else {
        lemma_parsed_weight(src.drop_last());
        match token(src.last()) {
            Some(i) => {
                lemma_weight_push(parsed(src.drop_last()), i);
                assert(cost(i) <= 1);
            },
            None => {},
        }
    }
}

/// Compiles a source text: tokenises it, optimises the instructions and
/// links the brackets. Succeeds exactly where the brackets of the source
/// are balanced; fails at a bracket of the optimised instructions that has
/// no partner, with that bracket's position among them.
pub fn compile(src: &str) -> (r: Result<Vec<Instruction>, BracketError>)
    requires
        src@.len() <= isize::MAX,
    ensures
        r is Ok <==> balanced(parsed(src@)),
        match r {
            Ok(insts) => {
                &&& insts@ == linked(
                    optimized(parsed(src@)),
                    optimized(parsed(src@)).len() as int,
                )
                &&& insts@.len() <= src@.len()
            },
            Err(BracketError::UnmatchedClosing(p)) => unmatched_closing(
                optimized(parsed(src@)),
                p as int,
            ),
            Err(BracketError::UnmatchedOpening(p)) => unmatched_opening(
                optimized(parsed(src@)),
                p as int,
            ),
        },
{
    let mut insts = parse(src);
    proof {
        lemma_parsed_weight(src@);
        lemma_light_rounds_fit(insts@);
        lemma_optimized_balanced(insts@);
    }
    optimize(&mut insts);
    match link_branches(&mut insts) {
        Ok(_) => Ok(insts),
        Err(e) => Err(e),
    }
}

} // verus!
