use vstd::prelude::*;
use crate::instruction::Instruction;
use crate::linker::{balanced, depth, opens};

verus! {

/// The two kinds of instruction whose runs are merged.
#[derive(Debug, Clone, Copy, PartialEq, Eq, Structural)]
pub enum RunKind {
    /// Runs of `Move`.
    Move,
    /// Runs of `Mutate`.
    Mutate,
}

/// The delta of an instruction of the given kind; `None` for any other.
pub open spec fn delta(kind: RunKind, i: Instruction) -> Option<isize> {
    match (kind, i) {
        (RunKind::Move, Instruction::Move(d)) => Some(d),
        (RunKind::Mutate, Instruction::Mutate(d)) => Some(d),
        _ => None,
    }
}

/// The instruction of the given kind with the given delta.
pub open spec fn with_delta(kind: RunKind, d: int) -> Instruction {
    match kind {
        RunKind::Move => Instruction::Move(d as isize),
        RunKind::Mutate => Instruction::Mutate(d as isize),
    }
}

/// The absolute value of a delta.
pub open spec fn magnitude(d: isize) -> nat {
    if d < 0 {
        (-d) as nat
    } else {
        d as nat
    }
}

/// The magnitude of the delta of a `Move` or `Mutate`; zero for any other
/// instruction.
pub open spec fn cost(i: Instruction) -> nat {
    match i {
        Instruction::Move(d) => magnitude(d),
        Instruction::Mutate(d) => magnitude(d),
        _ => 0,
    }
}

/// The magnitudes of all `Move` and `Mutate` deltas of a sequence, added
/// up. No delta that merging can produce is larger.
pub open spec fn weight(s: Seq<Instruction>) -> nat
    decreases s.len(),
{
    if s.len() == 0 {
        0
    } else {
        weight(s.drop_last()) + cost(s.last())
    }
}

/// The length of the run of instructions of the given kind that `s` starts
/// with.
pub open spec fn run_len(kind: RunKind, s: Seq<Instruction>) -> nat
    decreases s.len(),
{
    if s.len() == 0 || delta(kind, s[0]) is None {
        0
    } else {
        1 + run_len(kind, s.skip(1))
    }
}

/// The sum of the deltas of the run that `s` starts with.
pub open spec fn run_sum(kind: RunKind, s: Seq<Instruction>) -> int
    decreases s.len(),
{
    if s.len() == 0 || delta(kind, s[0]) is None {
        0
    } else {
        delta(kind, s[0])->0 + run_sum(kind, s.skip(1))
    }
}

/// `s` with every maximal run of instructions of the given kind replaced by
/// one instruction that holds the sum of the run's deltas, or by nothing
/// where that sum is zero.
pub open spec fn merged(kind: RunKind, s: Seq<Instruction>) -> Seq<Instruction>
    decreases s.len(),
    via merged_decreases
{
    if s.len() == 0 {
        s
    } else if delta(kind, s[0]) is None {
        seq![s[0]] + merged(kind, s.skip(1))
    } else {
        let rest = merged(kind, s.skip(run_len(kind, s) as int));
        if run_sum(kind, s) == 0 {
            rest
        } else {
            seq![with_delta(kind, run_sum(kind, s))] + rest
        }
    }
}

/// A run that starts `s` is not empty, so what follows it is shorter.
#[via_fn]
proof fn merged_decreases(kind: RunKind, s: Seq<Instruction>) {
    lemma_run_len_bound(kind, s);
}

/// A run is no longer than the sequence it starts.
pub proof fn lemma_run_len_bound(kind: RunKind, s: Seq<Instruction>)
    ensures
        run_len(kind, s) <= s.len(),
        s.len() > 0 && delta(kind, s[0]) is Some ==> run_len(kind, s) >= 1,
    decreases s.len(),
{
    if s.len() > 0 && delta(kind, s[0]) is Some {
        lemma_run_len_bound(kind, s.skip(1));
    }
}

/// `s` starts with a loop that only counts its cell down to zero.
pub open spec fn starts_with_reset(s: Seq<Instruction>) -> bool {
    &&& s.len() >= 3
    &&& s[0] == Instruction::JumpIfZero(0)
    &&& s[1] == Instruction::Mutate(-1isize)
    &&& s[2] == Instruction::JumpIfNonZero(0)
}

/// `s` with each such loop, found from left to right, replaced by `Reset`.
pub open spec fn resets_folded(s: Seq<Instruction>) -> Seq<Instruction>
    decreases s.len(),
{
    if s.len() == 0 {
        s
    } else if starts_with_reset(s) {
        seq![Instruction::Reset] + resets_folded(s.skip(3))
    } else {
        seq![s[0]] + resets_folded(s.skip(1))
    }
}

/// `s` starts with a loop that counts its cell down to zero and on each
/// round adds to one other cell: a move, a change, the move back, the
/// decrement. Returns the move and the change.
pub open spec fn starts_with_transfer(s: Seq<Instruction>) -> Option<(isize, isize)> {
    if s.len() >= 6 {
        match (s[0], s[1], s[2], s[3], s[4], s[5]) {
            (
                Instruction::JumpIfZero(_),
                Instruction::Move(d),
                Instruction::Mutate(m),
                Instruction::Move(f),
                Instruction::Mutate(c),
                Instruction::JumpIfNonZero(_),
            ) => if d + f == 0 && c == -1 {
                Some((d, m))
            } else {
                None
            },
            _ => None,
        }
    } else {
        None
    }
}

/// `s` with each such loop, found from left to right, replaced by
/// `Transfer`.
pub open spec fn transfers_folded(s: Seq<Instruction>) -> Seq<Instruction>
    decreases s.len(),
{
    if s.len() == 0 {
        s
    } else {
        match starts_with_transfer(s) {
            Some((d, m)) => seq![Instruction::Transfer(d, m)] + transfers_folded(s.skip(6)),
            None => seq![s[0]] + transfers_folded(s.skip(1)),
        }
    }
}

/// One round of the four passes.
pub open spec fn round(s: Seq<Instruction>) -> Seq<Instruction> {
    transfers_folded(resets_folded(merged(RunKind::Mutate, merged(RunKind::Move, s))))
}

/// Rounds repeated until one leaves the length as it was.
pub open spec fn optimized(s: Seq<Instruction>) -> Seq<Instruction>
    decreases s.len(),
{
    let r = round(s);
    if r.len() < s.len() {
        optimized(r)
    } else {
        r
    }
}

/// The running sums of the run that `s` starts with, counted on from
/// `acc`, are all within an `isize`.
pub open spec fn sums_fit(kind: RunKind, s: Seq<Instruction>, acc: int) -> bool
    decreases s.len(),
{
    if s.len() == 0 || delta(kind, s[0]) is None {
        true
    } else {
        let next = acc + delta(kind, s[0])->0;
        isize::MIN <= next <= isize::MAX && sums_fit(kind, s.skip(1), next)
    }
}

/// In every maximal run of the given kind, the running sums of the deltas
/// are within an `isize`: the run can be summed up.
pub open spec fn runs_fit(kind: RunKind, s: Seq<Instruction>) -> bool
    decreases s.len(),
    via runs_fit_decreases
{
    if s.len() == 0 {
        true
    } else if delta(kind, s[0]) is None {
        runs_fit(kind, s.skip(1))
    } else {
        sums_fit(kind, s, 0) && runs_fit(kind, s.skip(run_len(kind, s) as int))
    }
}

/// A run that starts `s` is not empty, so what follows it is shorter.
#[via_fn]
proof fn runs_fit_decreases(kind: RunKind, s: Seq<Instruction>) {
    lemma_run_len_bound(kind, s);
}

/// The runs of `Move`, and then those of `Mutate`, can be summed up.
pub open spec fn round_fits(s: Seq<Instruction>) -> bool {
    runs_fit(RunKind::Move, s) && runs_fit(RunKind::Mutate, merged(RunKind::Move, s))
}

/// The runs can be summed up in every round that optimising takes.
pub open spec fn rounds_fit(s: Seq<Instruction>) -> bool
    decreases s.len(),
{
    round_fits(s) && (round(s).len() < s.len() ==> rounds_fit(round(s)))
}

/// The weight of a concatenation is the sum of the weights.
pub proof fn lemma_weight_concat(a: Seq<Instruction>, b: Seq<Instruction>)
    ensures
        weight(a + b) == weight(a) + weight(b),
    decreases b.len(),
{
    if b.len() == 0 {
        assert(a + b == a);
    } else {
        assert((a + b).drop_last() == a + b.drop_last());
        lemma_weight_concat(a, b.drop_last());
    }
}

/// An instruction appended adds its cost to the weight.
pub proof fn lemma_weight_push(a: Seq<Instruction>, x: Instruction)
    ensures
        weight(a.push(x)) == weight(a) + cost(x),
        weight(Seq::<Instruction>::empty()) == 0,
{
    assert(a.push(x).drop_last() == a);
}

/// The weight of what is left after the first `n` instructions, split at
/// the next instruction.
proof fn lemma_weight_skip(s: Seq<Instruction>, n: int)
    requires
        0 <= n < s.len(),
    ensures
        weight(s.skip(n)) == cost(s[n]) + weight(s.skip(n + 1)),
        weight(s.skip(n + 1)) <= weight(s.skip(n)) <= weight(s),
{
    let one = seq![s[n]];
    assert(s.skip(n) == one + s.skip(n + 1));
    lemma_weight_concat(one, s.skip(n + 1));
    lemma_weight_push(Seq::empty(), s[n]);
    assert(Seq::<Instruction>::empty().push(s[n]) == one);
    assert(s == s.take(n) + s.skip(n));
    lemma_weight_concat(s.take(n), s.skip(n));
}

/// The delta of an instruction of the given kind.
fn delta_of(kind: RunKind, i: Instruction) -> (d: Option<isize>)
    ensures
        d == delta(kind, i),
{
    match (kind, i) {
        (RunKind::Move, Instruction::Move(d)) => Some(d),
        (RunKind::Mutate, Instruction::Mutate(d)) => Some(d),
        _ => None,
    }
}

/// The instruction of the given kind with the given delta.
fn make(kind: RunKind, d: isize) -> (i: Instruction)
    ensures
        i == with_delta(kind, d as int),
{
    match kind {
        RunKind::Move => Instruction::Move(d),
        RunKind::Mutate => Instruction::Mutate(d),
    }
}

/// Replaces every maximal run of instructions of the given kind by one
/// instruction with the sum of the run's deltas, or by nothing where the
/// sum is zero.
pub fn merge_general(insts: &mut Vec<Instruction>, kind: RunKind)
    requires
        runs_fit(kind, old(insts)@),
    ensures
        final(insts)@ == merged(kind, old(insts)@),
        final(insts)@.len() <= old(insts)@.len(),
{
    let ghost s = insts@;
    let ghost mut out: Seq<Instruction> = Seq::empty();
    let n = insts.len();
    let mut r: usize = 0;
    let mut w: usize = 0;
    assert(s.skip(0) == s);
    while r < n
        invariant
            insts@.len() == n == s.len(),
            w <= r <= n,
            forall|k: int| r <= k < n ==> insts@[k] == s[k],
            insts@.subrange(0, w as int) == out,
            out + merged(kind, s.skip(r as int)) == merged(kind, s),
            runs_fit(kind, s.skip(r as int)),
        decreases n - r,
    {
        let cur = insts[r];
        let ghost rest = s.skip(r as int);
        proof {
            assert(rest.skip(1) == s.skip(r + 1));
        }
        match delta_of(kind, cur) {
            None => {
                insts.set(w, cur);
                proof {
                    assert(insts@.subrange(0, w + 1) == out.push(cur));
                    assert(out.push(cur) + merged(kind, s.skip(r + 1)) == out + merged(kind, rest));
                    out = out.push(cur);
                }
                w = w + 1;
                r = r + 1;
            },
            Some(first) => {
                let mut t: isize = first;
                let mut j: usize = r + 1;
                while j < n && delta_of(kind, insts[j]).is_some()
                    invariant
                        insts@.len() == n == s.len(),
                        r < j <= n,
                        forall|k: int| r <= k < n ==> insts@[k] == s[k],
                        run_len(kind, rest) == (j - r) + run_len(kind, s.skip(j as int)),
                        run_sum(kind, rest) == t + run_sum(kind, s.skip(j as int)),
                        sums_fit(kind, s.skip(j as int), t as int),
                    decreases n - j,
                {
                    let d = delta_of(kind, insts[j]).unwrap();
                    proof {
                        assert(s.skip(j as int).skip(1) == s.skip(j + 1));
                    }
                    t = t + d;
                    j = j + 1;
                }
                proof {
                    assert(rest.skip(j - r) == s.skip(j as int));
                }
                if t != 0 {
                    let merged_run = make(kind, t);
                    insts.set(w, merged_run);
                    proof {
                        assert(insts@.subrange(0, w + 1) == out.push(merged_run));
                        assert(out.push(merged_run) + merged(kind, s.skip(j as int)) == out
                            + merged(kind, rest));
                        out = out.push(merged_run);
                    }
                    w = w + 1;
                }
                r = j;
            },
        }
    }
    insts.truncate(w);
    proof {
        assert(merged(kind, s.skip(n as int)) == Seq::<Instruction>::empty());
        assert(out + Seq::<Instruction>::empty() == out);
    }
}

/// The weight of what is left after the first `n + k` instructions is no
/// more than that of what is left after the first `n`.
proof fn lemma_weight_skip_more(s: Seq<Instruction>, n: int, k: nat)
    requires
        0 <= n,
        n + k <= s.len(),
    ensures
        weight(s.skip(n + k)) <= weight(s.skip(n)) <= weight(s),
    decreases k,
{
    if k == 0 {
        assert(s == s.take(n) + s.skip(n));
        lemma_weight_concat(s.take(n), s.skip(n));
    } else {
        lemma_weight_skip_more(s, n, (k - 1) as nat);
        lemma_weight_skip(s, n + k - 1);
    }
}

/// Whether a reset loop starts at `r`.
fn reset_at(insts: &Vec<Instruction>, r: usize) -> (found: bool)
    requires
        r < insts.len(),
    ensures
        found == starts_with_reset(insts@.skip(r as int)),
{
    if insts.len() - r < 3 {
        return false;
    }
    match (insts[r], insts[r + 1], insts[r + 2]) {
        (Instruction::JumpIfZero(0), Instruction::Mutate(-1), Instruction::JumpIfNonZero(0)) => true,
        _ => false,
    }
}

/// Replaces each loop that only counts its cell down to zero by `Reset`,
/// in one sweep from left to right.
pub fn find_resets(insts: &mut Vec<Instruction>)
    ensures
        final(insts)@ == resets_folded(old(insts)@),
        final(insts)@.len() <= old(insts)@.len(),
{
    let ghost s = insts@;
    let ghost mut out: Seq<Instruction> = Seq::empty();
    let n = insts.len();
    let mut r: usize = 0;
    let mut w: usize = 0;
    assert(s.skip(0) == s);
    while r < n
        invariant
            insts@.len() == n == s.len(),
            w <= r <= n,
            forall|k: int| r <= k < n ==> insts@[k] == s[k],
            insts@.subrange(0, w as int) == out,
            out + resets_folded(s.skip(r as int)) == resets_folded(s),
        decreases n - r,
    {
        let ghost rest = s.skip(r as int);
        assert(insts@.skip(r as int) == rest);
        let found = reset_at(insts, r);
        let cur = if found {
            Instruction::Reset
        } else {
            insts[r]
        };
        let width: usize = if found {
            3
        } else {
            1
        };
        insts.set(w, cur);
        proof {
            assert(rest.skip(width as int) == s.skip(r + width));
            assert(insts@.subrange(0, w + 1) == out.push(cur));
            assert(out.push(cur) + resets_folded(s.skip(r + width)) == out + resets_folded(rest));
            out = out.push(cur);
        }
        w = w + 1;
        r = r + width;
    }
    insts.truncate(w);
    proof {
        assert(resets_folded(s.skip(n as int)) == Seq::<Instruction>::empty());
        assert(out + Seq::<Instruction>::empty() == out);
    }
}

/// The move and the change of the transfer loop that starts at `r`, if
/// one does.
fn transfer_at(insts: &Vec<Instruction>, r: usize) -> (found: Option<(isize, isize)>)
    requires
        r < insts.len(),
    ensures
        found == starts_with_transfer(insts@.skip(r as int)),
{
    if insts.len() - r < 6 {
        return None;
    }
    match (insts[r], insts[r + 1], insts[r + 2], insts[r + 3], insts[r + 4], insts[r + 5]) {
        (
            Instruction::JumpIfZero(_),
            Instruction::Move(d),
            Instruction::Mutate(m),
            Instruction::Move(f),
            Instruction::Mutate(c),
            Instruction::JumpIfNonZero(_),
        ) => {
            if f != isize::MIN && d == -f && c == -1 {
                Some((d, m))
            } else {
                None
            }
        },
        _ => None,
    }
}

/// Replaces each loop that counts its cell down to zero while it adds to
/// one other cell by `Transfer`, in one sweep from left to right.
pub fn find_transfers(insts: &mut Vec<Instruction>)
    ensures
        final(insts)@ == transfers_folded(old(insts)@),
        final(insts)@.len() <= old(insts)@.len(),
{
    let ghost s = insts@;
    let ghost mut out: Seq<Instruction> = Seq::empty();
    let n = insts.len();
    let mut r: usize = 0;
    let mut w: usize = 0;
    assert(s.skip(0) == s);
    while r < n
        invariant
            insts@.len() == n == s.len(),
            w <= r <= n,
            forall|k: int| r <= k < n ==> insts@[k] == s[k],
            insts@.subrange(0, w as int) == out,
            out + transfers_folded(s.skip(r as int)) == transfers_folded(s),
        decreases n - r,
    {
        let ghost rest = s.skip(r as int);
        assert(insts@.skip(r as int) == rest);
        let found = transfer_at(insts, r);
        let cur = match found {
            Some((d, m)) => Instruction::Transfer(d, m),
            None => insts[r],
        };
        let width: usize = if found.is_some() {
            6
        } else {
            1
        };
        insts.set(w, cur);
        proof {
            assert(rest.skip(width as int) == s.skip(r + width));
            assert(insts@.subrange(0, w + 1) == out.push(cur));
            assert(out.push(cur) + transfers_folded(s.skip(r + width)) == out + transfers_folded(
                rest,
            ));
            out = out.push(cur);
        }
        w = w + 1;
        r = r + width;
    }
    insts.truncate(w);
    proof {
        assert(transfers_folded(s.skip(n as int)) == Seq::<Instruction>::empty());
        assert(out + Seq::<Instruction>::empty() == out);
    }
}

/// Rewrites the instructions to a shorter sequence: merges the runs of
/// `Move` and of `Mutate` and folds the two loops that have an instruction
/// of their own, round after round until a round leaves the length as it
/// was. The sums that the rounds take have to fit in an
/// `isize`; they do wherever the magnitudes of all deltas together fit.
pub fn optimize(insts: &mut Vec<Instruction>)
    requires
        rounds_fit(old(insts)@),
    ensures
        final(insts)@ == optimized(old(insts)@),
        final(insts)@.len() <= old(insts)@.len(),
{
    loop
        invariant_except_break
            optimized(insts@) == optimized(old(insts)@),
            rounds_fit(insts@),
        invariant
            insts@.len() <= old(insts)@.len(),
        ensures
            insts@ == optimized(old(insts)@),
        decreases insts@.len(),
    {
        let old_len = insts.len();
        merge_general(insts, RunKind::Move);
        merge_general(insts, RunKind::Mutate);
        find_resets(insts);
        find_transfers(insts);
        if insts.len() == old_len {
            break;
        }
    }
}

/// All instructions of `s` are of the given kind.
pub open spec fn all_of(kind: RunKind, s: Seq<Instruction>) -> bool {
    forall|i: int| 0 <= i < s.len() ==> delta(kind, #[trigger] s[i]) is Some
}

/// Running sums that fit end in a sum of the whole run that fits.
pub proof fn lemma_sums_fit_total(kind: RunKind, s: Seq<Instruction>, acc: int)
    requires
        sums_fit(kind, s, acc),
        isize::MIN <= acc <= isize::MAX,
    ensures
        isize::MIN <= acc + run_sum(kind, s) <= isize::MAX,
    decreases s.len(),
{
    if s.len() > 0 && delta(kind, s[0]) is Some {
        lemma_sums_fit_total(kind, s.skip(1), acc + delta(kind, s[0])->0);
    }
}

/// An instruction in front of a sequence adds its cost to the weight.
proof fn lemma_weight_cons(x: Instruction, rest: Seq<Instruction>)
    ensures
        weight(seq![x] + rest) == cost(x) + weight(rest),
{
    lemma_weight_concat(seq![x], rest);
    lemma_weight_push(Seq::empty(), x);
    assert(Seq::<Instruction>::empty().push(x) == seq![x]);
}

/// The sum of the run that `s` starts with, and what follows the run,
/// together weigh no more than `s`.
proof fn lemma_run_weight(kind: RunKind, s: Seq<Instruction>)
    ensures
        run_len(kind, s) <= s.len(),
        run_sum(kind, s) + weight(s.skip(run_len(kind, s) as int)) <= weight(s),
        -run_sum(kind, s) + weight(s.skip(run_len(kind, s) as int)) <= weight(s),
    decreases s.len(),
{
    assert(s.skip(0) == s);
    if s.len() > 0 && delta(kind, s[0]) is Some {
        let t = s.skip(1);
        lemma_run_weight(kind, t);
        lemma_weight_skip(s, 0);
        assert(t.skip(run_len(kind, t) as int) == s.skip(run_len(kind, s) as int));
    }
}

/// Running sums fit where the sum so far and the weight of what follows
/// fit together.
proof fn lemma_light_sums_fit(kind: RunKind, s: Seq<Instruction>, acc: int)
    requires
        acc + weight(s) <= isize::MAX,
        -acc + weight(s) <= isize::MAX,
    ensures
        sums_fit(kind, s, acc),
    decreases s.len(),
{
    if s.len() > 0 && delta(kind, s[0]) is Some {
        assert(s.skip(0) == s);
        lemma_weight_skip(s, 0);
        lemma_light_sums_fit(kind, s.skip(1), acc + delta(kind, s[0])->0);
    }
}

/// Every run of a sequence whose weight fits can be summed up.
pub proof fn lemma_light_runs_fit(kind: RunKind, s: Seq<Instruction>)
    requires
        weight(s) <= isize::MAX,
    ensures
        runs_fit(kind, s),
    decreases s.len(),
{
    if s.len() > 0 {
        assert(s.skip(0) == s);
        if delta(kind, s[0]) is None {
            lemma_weight_skip(s, 0);
            lemma_light_runs_fit(kind, s.skip(1));
        } else {
            lemma_run_len_bound(kind, s);
            lemma_run_weight(kind, s);
            lemma_light_sums_fit(kind, s, 0);
            lemma_light_runs_fit(kind, s.skip(run_len(kind, s) as int));
        }
    }
}

/// Merging adds no weight.
proof fn lemma_merged_weight(kind: RunKind, s: Seq<Instruction>)
    requires
        weight(s) <= isize::MAX,
    ensures
        weight(merged(kind, s)) <= weight(s),
    decreases s.len(),
{
    if s.len() > 0 {
        assert(s.skip(0) == s);
        if delta(kind, s[0]) is None {
            lemma_weight_skip(s, 0);
            lemma_merged_weight(kind, s.skip(1));
            lemma_weight_cons(s[0], merged(kind, s.skip(1)));
        } else {
            let after = s.skip(run_len(kind, s) as int);
            lemma_run_len_bound(kind, s);
            lemma_run_weight(kind, s);
            lemma_merged_weight(kind, after);
            lemma_weight_cons(with_delta(kind, run_sum(kind, s)), merged(kind, after));
        }
    }
}

/// Folding the reset loops adds no weight.
proof fn lemma_resets_folded_weight(s: Seq<Instruction>)
    ensures
        weight(resets_folded(s)) <= weight(s),
    decreases s.len(),
{
    if s.len() > 0 {
        assert(s.skip(0) == s);
        if starts_with_reset(s) {
            lemma_weight_skip_more(s, 0, 3);
            lemma_resets_folded_weight(s.skip(3));
            lemma_weight_cons(Instruction::Reset, resets_folded(s.skip(3)));
        } else {
            lemma_weight_skip(s, 0);
            lemma_resets_folded_weight(s.skip(1));
            lemma_weight_cons(s[0], resets_folded(s.skip(1)));
        }
    }
}

/// Folding the transfer loops adds no weight.
proof fn lemma_transfers_folded_weight(s: Seq<Instruction>)
    ensures
        weight(transfers_folded(s)) <= weight(s),
    decreases s.len(),
{
    if s.len() > 0 {
        assert(s.skip(0) == s);
        match starts_with_transfer(s) {
            Some((d, m)) => {
                lemma_weight_skip_more(s, 0, 6);
                lemma_transfers_folded_weight(s.skip(6));
                lemma_weight_cons(Instruction::Transfer(d, m), transfers_folded(s.skip(6)));
            },
            None => {
                lemma_weight_skip(s, 0);
                lemma_transfers_folded_weight(s.skip(1));
                lemma_weight_cons(s[0], transfers_folded(s.skip(1)));
            },
        }
    }
}

/// A sequence whose deltas' magnitudes together fit in an `isize` can be
/// optimised: no sum that any round takes is larger.
pub proof fn lemma_light_rounds_fit(s: Seq<Instruction>)
    requires
        weight(s) <= isize::MAX,
    ensures
        rounds_fit(s),
        weight(round(s)) <= weight(s),
    decreases s.len(),
{
    let a = merged(RunKind::Move, s);
    let b = merged(RunKind::Mutate, a);
    let c = resets_folded(b);
    lemma_light_runs_fit(RunKind::Move, s);
    lemma_merged_weight(RunKind::Move, s);
    lemma_light_runs_fit(RunKind::Mutate, a);
    lemma_merged_weight(RunKind::Mutate, a);
    lemma_resets_folded_weight(b);
    lemma_transfers_folded_weight(c);
    if round(s).len() < s.len() {
        lemma_light_rounds_fit(round(s));
    }
}

/// A sequence of one kind is one run.
proof fn lemma_run_of_all(kind: RunKind, s: Seq<Instruction>)
    requires
        all_of(kind, s),
    ensures
        run_len(kind, s) == s.len(),
    decreases s.len(),
{
    if s.len() > 0 {
        assert(delta(kind, s[0]) is Some);
        lemma_run_of_all(kind, s.skip(1));
    }
}

/// Merging one kind leaves a sequence without that kind as it is.
proof fn lemma_merged_without(kind: RunKind, s: Seq<Instruction>)
    requires
        forall|i: int| 0 <= i < s.len() ==> delta(kind, #[trigger] s[i]) is None,
    ensures
        merged(kind, s) == s,
    decreases s.len(),
{
    if s.len() > 0 {
        assert(delta(kind, s[0]) is None);
        lemma_merged_without(kind, s.skip(1));
        assert(seq![s[0]] + s.skip(1) == s);
    }
}

/// Neither fold changes a sequence of fewer than three instructions.
proof fn lemma_folds_short(s: Seq<Instruction>)
    requires
        s.len() <= 2,
    ensures
        resets_folded(s) == s,
        transfers_folded(s) == s,
    decreases s.len(),
{
    if s.len() > 0 {
        lemma_folds_short(s.skip(1));
        assert(seq![s[0]] + s.skip(1) == s);
    }
}

/// What a run of `k` instructions of one kind is optimised to: the one
/// instruction that holds the sum of their deltas, or nothing where the
/// sum is zero.
pub open spec fn collapsed(kind: RunKind, s: Seq<Instruction>) -> Seq<Instruction> {
    if run_sum(kind, s) == 0 {
        Seq::empty()
    } else {
        seq![with_delta(kind, run_sum(kind, s))]
    }
}

/// One round collapses a sequence of one kind.
proof fn lemma_round_of_run(kind: RunKind, s: Seq<Instruction>)
    requires
        all_of(kind, s),
    ensures
        round(s) == collapsed(kind, s),
{
    let other = match kind {
        RunKind::Move => RunKind::Mutate,
        RunKind::Mutate => RunKind::Move,
    };
    let c = collapsed(kind, s);
    assert forall|i: int| 0 <= i < s.len() implies delta(other, #[trigger] s[i]) is None by {
        assert(delta(kind, s[i]) is Some);
    }
    assert forall|i: int| 0 <= i < c.len() implies delta(other, #[trigger] c[i]) is None by {}
    lemma_merged_without(other, s);
    lemma_merged_without(other, c);
    if s.len() == 0 {
        assert(merged(kind, s) == c);
    } else {
        assert(delta(kind, s[0]) is Some);
        lemma_run_of_all(kind, s);
        assert(s.skip(s.len() as int) == Seq::<Instruction>::empty());
        assert(merged(kind, Seq::<Instruction>::empty()) == Seq::<Instruction>::empty());
        assert(merged(kind, s) =~= c);
    }
    lemma_folds_short(c);
}

/// A run of increments and decrements is optimised to exactly one `Mutate`
/// with the signed sum, or to nothing where the sum is zero; a run of
/// moves likewise to one `Move`.
pub proof fn lemma_run_optimized(kind: RunKind, s: Seq<Instruction>)
    requires
        all_of(kind, s),
        runs_fit(kind, s),
    ensures
        optimized(s) == collapsed(kind, s),
        isize::MIN <= run_sum(kind, s) <= isize::MAX,
{
    let c = collapsed(kind, s);
    lemma_round_of_run(kind, s);
    if s.len() > 0 {
        assert(delta(kind, s[0]) is Some);
        lemma_sums_fit_total(kind, s, 0);
    }
    if c.len() < s.len() {
        assert(all_of(kind, c));
        lemma_round_of_run(kind, c);
        if c.len() > 0 {
            assert(c.skip(1) == Seq::<Instruction>::empty());
            assert(run_sum(kind, c.skip(1)) == 0);
            assert(run_sum(kind, c) == run_sum(kind, s));
        }
        assert(round(c) == c);
        assert(optimized(c) == c);
        assert(optimized(s) == optimized(c));
    } else {
        assert(optimized(s) == c);
    }
}

/// Instructions that each move or change by one at most weigh no more
/// than their number.
proof fn lemma_unit_weight(s: Seq<Instruction>)
    requires
        forall|i: int| 0 <= i < s.len() ==> cost(#[trigger] s[i]) <= 1,
    ensures
        weight(s) <= s.len(),
    decreases s.len(),
{
    if s.len() > 0 {
        let t = s.drop_last();
        assert forall|i: int| 0 <= i < t.len() implies cost(#[trigger] t[i]) <= 1 by {
            assert(t[i] == s[i]);
        }
        lemma_unit_weight(t);
        assert(cost(s.last()) <= 1);
    }
}

/// A run of increments and decrements, as many as a vector can hold, is
/// optimised to exactly one `Mutate` with their signed sum, or to nothing
/// where the sum is zero.
pub proof fn lemma_unit_run_optimized(s: Seq<Instruction>)
    requires
        forall|i: int|
            0 <= i < s.len() ==> #[trigger] s[i] == Instruction::Mutate(1) || s[i]
                == Instruction::Mutate(-1isize),
        s.len() <= isize::MAX,
    ensures
        rounds_fit(s),
        optimized(s) == collapsed(RunKind::Mutate, s),
        -s.len() <= run_sum(RunKind::Mutate, s) <= s.len(),
{
    assert forall|i: int| 0 <= i < s.len() implies cost(#[trigger] s[i]) <= 1 by {}
    assert(all_of(RunKind::Mutate, s)) by {
        assert forall|i: int| 0 <= i < s.len() implies delta(RunKind::Mutate, #[trigger] s[i])
            is Some by {}
    }
    lemma_unit_weight(s);
    lemma_light_rounds_fit(s);
    lemma_light_runs_fit(RunKind::Mutate, s);
    lemma_run_weight(RunKind::Mutate, s);
    lemma_run_optimized(RunKind::Mutate, s);
}

/// Merging never lengthens a sequence, and changes every sequence that it
/// does not shorten in nothing.
pub proof fn lemma_merged_len(kind: RunKind, s: Seq<Instruction>)
    ensures
        merged(kind, s).len() <= s.len(),
        merged(kind, s).len() == s.len() ==> merged(kind, s) == s,
    decreases s.len(),
{
    if s.len() == 0 {
    } else if delta(kind, s[0]) is None {
        lemma_merged_len(kind, s.skip(1));
        assert(seq![s[0]] + s.skip(1) == s);
    } else {
        let n = run_len(kind, s) as int;
        lemma_run_len_bound(kind, s);
        lemma_merged_len(kind, s.skip(n));
        if merged(kind, s).len() == s.len() {
            assert(n == 1);
            assert(run_sum(kind, s.skip(1)) == 0);
            assert(seq![s[0]] + s.skip(1) == s);
        }
    }
}

/// Folding the reset loops never lengthens a sequence, and changes every
/// sequence that it does not shorten in nothing.
pub proof fn lemma_resets_folded_len(s: Seq<Instruction>)
    ensures
        resets_folded(s).len() <= s.len(),
        resets_folded(s).len() == s.len() ==> resets_folded(s) == s,
    decreases s.len(),
{
    if s.len() == 0 {
    } else if starts_with_reset(s) {
        lemma_resets_folded_len(s.skip(3));
    } else {
        lemma_resets_folded_len(s.skip(1));
        assert(seq![s[0]] + s.skip(1) == s);
    }
}

/// Folding the transfer loops never lengthens a sequence, and changes
/// every sequence that it does not shorten in nothing.
pub proof fn lemma_transfers_folded_len(s: Seq<Instruction>)
    ensures
        transfers_folded(s).len() <= s.len(),
        transfers_folded(s).len() == s.len() ==> transfers_folded(s) == s,
    decreases s.len(),
{
    if s.len() == 0 {
    } else if starts_with_transfer(s) is Some {
        lemma_transfers_folded_len(s.skip(6));
    } else {
        lemma_transfers_folded_len(s.skip(1));
        assert(seq![s[0]] + s.skip(1) == s);
    }
}

/// A sequence that merging leaves as it is holds no zero delta of that
/// kind and no two instructions of that kind side by side.
pub proof fn lemma_merged_same(kind: RunKind, s: Seq<Instruction>)
    requires
        merged(kind, s) == s,
    ensures
        forall|i: int| 0 <= i < s.len() ==> delta(kind, #[trigger] s[i]) != Some(0isize),
        forall|i: int|
            0 <= i < s.len() - 1 ==> delta(kind, #[trigger] s[i]) is None || delta(kind, s[i + 1])
                is None,
    decreases s.len(),
{
    if s.len() > 0 {
        let t = s.skip(1);
        lemma_merged_len(kind, t);
        if delta(kind, s[0]) is None {
            assert(merged(kind, s).skip(1) == merged(kind, t));
        } else {
            let n = run_len(kind, s) as int;
            lemma_run_len_bound(kind, s);
            lemma_merged_len(kind, s.skip(n));
            assert(n == 1);
            assert(run_sum(kind, t) == 0);
            assert(merged(kind, s).skip(1) == merged(kind, t));
            assert(t.len() > 0 ==> delta(kind, t[0]) is None);
        }
        lemma_merged_same(kind, t);
        assert forall|i: int| 0 <= i < s.len() implies delta(kind, #[trigger] s[i]) != Some(
            0isize,
        ) by {
            if i > 0 {
                assert(s[i] == t[i - 1]);
            }
        }
        assert forall|i: int| 0 <= i < s.len() - 1 implies delta(kind, #[trigger] s[i]) is None
            || delta(kind, s[i + 1]) is None by {
            if i > 0 {
                assert(s[i] == t[i - 1]);
                assert(s[i + 1] == t[i]);
            } else {
                assert(s[1] == t[0]);
            }
        }
    }
}

/// A round never lengthens a sequence, and a round that does not shorten
/// it changes nothing: no pass of it does.
pub proof fn lemma_round_len(s: Seq<Instruction>)
    ensures
        round(s).len() <= s.len(),
        round(s).len() == s.len() ==> {
            &&& round(s) == s
            &&& merged(RunKind::Move, s) == s
            &&& merged(RunKind::Mutate, s) == s
            &&& resets_folded(s) == s
            &&& transfers_folded(s) == s
        },
{
    let a = merged(RunKind::Move, s);
    let b = merged(RunKind::Mutate, a);
    let c = resets_folded(b);
    lemma_merged_len(RunKind::Move, s);
    lemma_merged_len(RunKind::Mutate, a);
    lemma_resets_folded_len(b);
    lemma_transfers_folded_len(c);
}

/// Optimising reaches a fixed point: the result is no longer than what
/// was given, no pass changes it, and it holds no `Move` and no `Mutate`
/// with a zero delta.
pub proof fn lemma_optimized_fixed(s: Seq<Instruction>)
    ensures
        optimized(s).len() <= s.len(),
        round(optimized(s)) == optimized(s),
        optimized(optimized(s)) == optimized(s),
        merged(RunKind::Move, optimized(s)) == optimized(s),
        merged(RunKind::Mutate, optimized(s)) == optimized(s),
        resets_folded(optimized(s)) == optimized(s),
        transfers_folded(optimized(s)) == optimized(s),
        forall|i: int|
            0 <= i < optimized(s).len() ==> (#[trigger] optimized(s)[i]) != Instruction::Move(0)
                && optimized(s)[i] != Instruction::Mutate(0),
    decreases s.len(),
{
    let r = round(s);
    let o = optimized(s);
    lemma_round_len(s);
    if r.len() < s.len() {
        lemma_optimized_fixed(r);
    } else {
        assert(o == s);
        assert(optimized(o) == o);
        lemma_merged_same(RunKind::Move, o);
        lemma_merged_same(RunKind::Mutate, o);
        assert forall|i: int| 0 <= i < o.len() implies (#[trigger] o[i]) != Instruction::Move(0)
            && o[i] != Instruction::Mutate(0) by {
            assert(delta(RunKind::Move, o[i]) != Some(0isize));
            assert(delta(RunKind::Mutate, o[i]) != Some(0isize));
        }
    }
}

/// The brackets of `s`, read from the front at nesting depth `d`, close
/// nothing that is not open and leave nothing open.
pub open spec fn closes_from(s: Seq<Instruction>, d: int) -> bool
    decreases s.len(),
{
    if s.len() == 0 {
        d == 0
    } else {
        d + opens(s[0]) >= 0 && closes_from(s.skip(1), d + opens(s[0]))
    }
}

/// The depth after `k` instructions, split at the first of them.
proof fn lemma_depth_skip(s: Seq<Instruction>, k: int)
    requires
        1 <= k <= s.len(),
    ensures
        depth(s, k) == opens(s[0]) + depth(s.skip(1), k - 1),
    decreases k,
{
    if k > 1 {
        lemma_depth_skip(s, k - 1);
        assert(s.skip(1)[k - 2] == s[k - 1]);
    } else {
        assert(depth(s, 0) == 0);
        assert(depth(s.skip(1), 0) == 0);
    }
}

/// Reading from the front at depth zero finds what `balanced` says.
pub proof fn lemma_closes_from(s: Seq<Instruction>, d: int)
    requires
        d >= 0,
    ensures
        closes_from(s, d) <==> {
            &&& forall|k: int| 0 <= k <= s.len() ==> d + #[trigger] depth(s, k) >= 0
            &&& d + depth(s, s.len() as int) == 0
        },
        d == 0 ==> (closes_from(s, d) <==> balanced(s)),
    decreases s.len(),
{
    assert(depth(s, 0) == 0);
    if s.len() > 0 {
        let t = s.skip(1);
        let o = opens(s[0]);
        lemma_depth_skip(s, 1);
        assert(depth(t, 0) == 0);
        lemma_depth_skip(s, s.len() as int);
        if d + o >= 0 {
            lemma_closes_from(t, d + o);
            if closes_from(s, d) {
                assert forall|k: int| 0 <= k <= s.len() implies d + #[trigger] depth(s, k)
                    >= 0 by {
                    if k >= 1 {
                        lemma_depth_skip(s, k);
                        assert(d + o + depth(t, k - 1) >= 0);
                    }
                }
            }
            if (forall|k: int| 0 <= k <= s.len() ==> d + #[trigger] depth(s, k) >= 0) && d + depth(
                s,
                s.len() as int,
            ) == 0 {
                assert forall|k: int| 0 <= k <= t.len() implies d + o + #[trigger] depth(t, k)
                    >= 0 by {
                    lemma_depth_skip(s, k + 1);
                    assert(d + depth(s, k + 1) >= 0);
                }
            }
        } else {
            assert(d + depth(s, 1) < 0);
        }
    }
}

/// Instructions that are no brackets change nothing for those that follow.
proof fn lemma_closes_from_skip(s: Seq<Instruction>, d: int, n: int)
    requires
        d >= 0,
        0 <= n <= s.len(),
        forall|i: int| 0 <= i < n ==> opens(#[trigger] s[i]) == 0,
    ensures
        closes_from(s, d) == closes_from(s.skip(n), d),
    decreases n,
{
    if n == 0 {
        assert(s.skip(0) == s);
    } else {
        let t = s.skip(1);
        assert(opens(s[0]) == 0);
        assert forall|i: int| 0 <= i < n - 1 implies opens(#[trigger] t[i]) == 0 by {
            assert(t[i] == s[i + 1]);
        }
        lemma_closes_from_skip(t, d, n - 1);
        assert(t.skip(n - 1) == s.skip(n));
    }
}

/// The instructions of a run are no brackets.
proof fn lemma_run_opens(kind: RunKind, s: Seq<Instruction>)
    ensures
        forall|i: int| 0 <= i < run_len(kind, s) ==> opens(#[trigger] s[i]) == 0,
    decreases s.len(),
{
    if s.len() > 0 && delta(kind, s[0]) is Some {
        let t = s.skip(1);
        lemma_run_opens(kind, t);
        lemma_run_len_bound(kind, s);
        assert forall|i: int| 0 <= i < run_len(kind, s) implies opens(#[trigger] s[i]) == 0 by {
            if i > 0 {
                assert(s[i] == t[i - 1]);
            }
        }
    }
}

/// An instruction in front of a sequence is read first.
proof fn lemma_closes_from_cons(x: Instruction, rest: Seq<Instruction>, d: int)
    ensures
        closes_from(seq![x] + rest, d) == (d + opens(x) >= 0 && closes_from(rest, d + opens(x))),
{
    assert((seq![x] + rest).skip(1) == rest);
}

/// Merging leaves the brackets as they are.
proof fn lemma_merged_closes(kind: RunKind, s: Seq<Instruction>, d: int)
    requires
        d >= 0,
    ensures
        closes_from(merged(kind, s), d) == closes_from(s, d),
    decreases s.len(),
{
    if s.len() == 0 {
    } else if delta(kind, s[0]) is None {
        lemma_closes_from_cons(s[0], merged(kind, s.skip(1)), d);
        if d + opens(s[0]) >= 0 {
            lemma_merged_closes(kind, s.skip(1), d + opens(s[0]));
        }
    } else {
        let n = run_len(kind, s) as int;
        lemma_run_len_bound(kind, s);
        lemma_run_opens(kind, s);
        lemma_closes_from_skip(s, d, n);
        lemma_merged_closes(kind, s.skip(n), d);
        lemma_closes_from_cons(
            with_delta(kind, run_sum(kind, s)),
            merged(kind, s.skip(n)),
            d,
        );
    }
}

/// Folding a reset loop takes out a pair of brackets that match.
proof fn lemma_resets_folded_closes(s: Seq<Instruction>, d: int)
    requires
        d >= 0,
    ensures
        closes_from(resets_folded(s), d) == closes_from(s, d),
    decreases s.len(),
{
    if s.len() == 0 {
    } else if starts_with_reset(s) {
        let rest = s.skip(3);
        lemma_resets_folded_closes(rest, d);
        lemma_closes_from_cons(Instruction::Reset, resets_folded(rest), d);
        assert(s.skip(1).skip(1).skip(1) == rest);
        assert(s.skip(1)[0] == s[1]);
        assert(s.skip(1).skip(1)[0] == s[2]);
        assert(closes_from(s, d) == closes_from(s.skip(1), d + 1));
        assert(closes_from(s.skip(1), d + 1) == closes_from(s.skip(1).skip(1), d + 1));
    } else {
        lemma_closes_from_cons(s[0], resets_folded(s.skip(1)), d);
        if d + opens(s[0]) >= 0 {
            lemma_resets_folded_closes(s.skip(1), d + opens(s[0]));
        }
    }
}

/// Folding a transfer loop takes out a pair of brackets that match.
proof fn lemma_transfers_folded_closes(s: Seq<Instruction>, d: int)
    requires
        d >= 0,
    ensures
        closes_from(transfers_folded(s), d) == closes_from(s, d),
    decreases s.len(),
{
    if s.len() == 0 {
    } else if starts_with_transfer(s) is Some {
        let rest = s.skip(6);
        let (m, c) = starts_with_transfer(s)->0;
        lemma_transfers_folded_closes(rest, d);
        lemma_closes_from_cons(Instruction::Transfer(m, c), transfers_folded(rest), d);
        let t = s.skip(1);
        assert(closes_from(s, d) == closes_from(t, d + 1));
        assert forall|i: int| 0 <= i < 4 implies opens(#[trigger] t[i]) == 0 by {
            assert(t[i] == s[i + 1]);
        }
        lemma_closes_from_skip(t, d + 1, 4);
        let u = t.skip(4);
        assert(u[0] == s[5]);
        assert(u.skip(1) == rest);
        assert(closes_from(u, d + 1) == closes_from(rest, d));
    } else {
        lemma_closes_from_cons(s[0], transfers_folded(s.skip(1)), d);
        if d + opens(s[0]) >= 0 {
            lemma_transfers_folded_closes(s.skip(1), d + opens(s[0]));
        }
    }
}

/// Optimising neither mends nor breaks the brackets: the result is
/// balanced exactly where what was given is.
pub proof fn lemma_optimized_balanced(s: Seq<Instruction>)
    ensures
        balanced(round(s)) == balanced(s),
        balanced(optimized(s)) == balanced(s),
    decreases s.len(),
{
    let a = merged(RunKind::Move, s);
    let b = merged(RunKind::Mutate, a);
    let c = resets_folded(b);
    let r = round(s);
    lemma_merged_closes(RunKind::Move, s, 0);
    lemma_merged_closes(RunKind::Mutate, a, 0);
    lemma_resets_folded_closes(b, 0);
    lemma_transfers_folded_closes(c, 0);
    lemma_closes_from(s, 0);
    lemma_closes_from(r, 0);
    if r.len() < s.len() {
        lemma_optimized_balanced(r);
    }
}

} // verus!
