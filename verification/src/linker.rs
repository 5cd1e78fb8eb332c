use vstd::prelude::*;
use crate::instruction::Instruction;
use crate::interpreter::branch_target;

verus! {

/// A bracket without a partner, with its position among the instructions.
#[derive(Debug, Clone, Copy, PartialEq, Eq, Structural)]
pub enum BracketError {
    /// A `JumpIfZero` that no later `JumpIfNonZero` closes.
    UnmatchedOpening(usize),
    /// A `JumpIfNonZero` that no earlier `JumpIfZero` opens.
    UnmatchedClosing(usize),
}

impl BracketError {
    /// The position of the bracket among the instructions.
    pub open spec fn spec_position(self) -> usize {
        match self {
            BracketError::UnmatchedOpening(p) => p,
            BracketError::UnmatchedClosing(p) => p,
        }
    }

    /// The position of the bracket among the instructions.
    #[verifier::when_used_as_spec(spec_position)]
    pub fn position(self) -> (p: usize)
        ensures
            p == self.spec_position(),
    {
        match self {
            BracketError::UnmatchedOpening(p) => p,
            BracketError::UnmatchedClosing(p) => p,
        }
    }
}

/// What an instruction adds to the nesting depth.
pub open spec fn opens(i: Instruction) -> int {
    match i {
        Instruction::JumpIfZero(_) => 1,
        Instruction::JumpIfNonZero(_) => -1,
        _ => 0,
    }
}

/// The nesting depth after the first `n` instructions: the brackets opened
/// less the brackets closed.
pub open spec fn depth(s: Seq<Instruction>, n: int) -> int
    decreases n,
{
    if n <= 0 {
        0
    } else {
        depth(s, n - 1) + opens(s[n - 1])
    }
}

/// Among the first `n` instructions no bracket closes what was not opened.
pub open spec fn never_negative(s: Seq<Instruction>, n: int) -> bool {
    forall|k: int| 0 <= k <= n ==> #[trigger] depth(s, k) >= 0
}

/// Every bracket has its partner.
pub open spec fn balanced(s: Seq<Instruction>) -> bool {
    never_negative(s, s.len() as int) && depth(s, s.len() as int) == 0
}

/// The instruction at `p` is the first closing bracket without an opening
/// one.
pub open spec fn unmatched_closing(s: Seq<Instruction>, p: int) -> bool {
    &&& 0 <= p < s.len()
    &&& s[p] is JumpIfNonZero
    &&& depth(s, p) == 0
    &&& never_negative(s, p)
}

/// No closing bracket lacks its opening one, and the instruction at `p` is
/// the innermost opening bracket that is never closed: the last one.
pub open spec fn unmatched_opening(s: Seq<Instruction>, p: int) -> bool {
    &&& 0 <= p < s.len()
    &&& never_negative(s, s.len() as int)
    &&& s[p] is JumpIfZero
    &&& depth(s, p) < depth(s, s.len() as int)
    &&& forall|k: int| p < k <= s.len() ==> #[trigger] depth(s, k) >= depth(s, s.len() as int)
}

/// The bracket opened at `p` is closed at `q`.
pub open spec fn matches(s: Seq<Instruction>, p: int, q: int) -> bool {
    &&& 0 <= p < q < s.len()
    &&& s[p] is JumpIfZero
    &&& s[q] is JumpIfNonZero
    &&& depth(s, q + 1) == depth(s, p)
    &&& forall|k: int| p < k <= q ==> #[trigger] depth(s, k) > depth(s, p)
}

/// Where the bracket opened at `p` is closed, if it is.
pub open spec fn closer(s: Seq<Instruction>, p: int) -> Option<int> {
    if exists|q: int| matches(s, p, q) {
        Some(choose|q: int| matches(s, p, q))
    } else {
        None
    }
}

/// Where the bracket closed at `q` was opened, if it was.
pub open spec fn opener(s: Seq<Instruction>, q: int) -> Option<int> {
    if exists|p: int| matches(s, p, q) {
        Some(choose|p: int| matches(s, p, q))
    } else {
        None
    }
}

/// The instruction at `i` once the pairs that close before `stop` are
/// linked: each bracket of such a pair holds the distance to its partner,
/// forward from the opening one and backward from the closing one.
pub open spec fn linked_at(s: Seq<Instruction>, i: int, stop: int) -> Instruction {
    match s[i] {
        Instruction::JumpIfZero(_) => match closer(s, i) {
            Some(q) => if q < stop {
                Instruction::JumpIfZero((q - i) as isize)
            } else {
                s[i]
            },
            None => s[i],
        },
        Instruction::JumpIfNonZero(_) => match opener(s, i) {
            Some(p) => if i < stop {
                Instruction::JumpIfNonZero((p - i) as isize)
            } else {
                s[i]
            },
            None => s[i],
        },
        _ => s[i],
    }
}

/// The instructions once the pairs that close before `stop` are linked.
pub open spec fn linked(s: Seq<Instruction>, stop: int) -> Seq<Instruction> {
    Seq::new(s.len(), |i: int| linked_at(s, i, stop))
}

/// A closing bracket has one opening bracket at most.
pub proof fn lemma_opener_unique(s: Seq<Instruction>, a: int, b: int, q: int)
    requires
        matches(s, a, q),
        matches(s, b, q),
    ensures
        a == b,
{
    if a < b {
        assert(depth(s, b) > depth(s, a));
    } else if b < a {
        assert(depth(s, a) > depth(s, b));
    }
}

/// An opening bracket has one closing bracket at most.
pub proof fn lemma_closer_unique(s: Seq<Instruction>, p: int, a: int, b: int)
    requires
        matches(s, p, a),
        matches(s, p, b),
    ensures
        a == b,
{
    if a < b {
        assert(depth(s, a + 1) > depth(s, p));
    } else if b < a {
        assert(depth(s, b + 1) > depth(s, p));
    }
}

/// The outcome of linking is determined: a sequence is balanced, or has a
/// first closing bracket without an opening one, or has an innermost
/// opening bracket that is never closed, and only one of the three; and
/// there is one such bracket only.
pub proof fn lemma_outcome_determined(s: Seq<Instruction>, p: int, q: int)
    ensures
        !(balanced(s) && unmatched_closing(s, p)),
        !(balanced(s) && unmatched_opening(s, p)),
        !(unmatched_closing(s, p) && unmatched_opening(s, q)),
        unmatched_closing(s, p) && unmatched_closing(s, q) ==> p == q,
        unmatched_opening(s, p) && unmatched_opening(s, q) ==> p == q,
{
    if unmatched_closing(s, p) {
        assert(depth(s, p + 1) == depth(s, p) + opens(s[p]));
        assert(depth(s, p + 1) < 0);
    }
    if unmatched_closing(s, q) {
        assert(depth(s, q + 1) == depth(s, q) + opens(s[q]));
        assert(depth(s, q + 1) < 0);
    }
    if unmatched_opening(s, p) && unmatched_opening(s, q) {
        if p < q {
            assert(depth(s, q) >= depth(s, s.len() as int));
        } else if q < p {
            assert(depth(s, p) >= depth(s, s.len() as int));
        }
    }
}

/// The stack of the scan after `cur` instructions: the opening brackets
/// not yet closed, outermost first.
spec fn pending(s: Seq<Instruction>, stack: Seq<usize>, cur: int) -> bool {
    &&& stack.len() == depth(s, cur)
    &&& forall|j: int|
        0 <= j < stack.len() ==> {
            &&& 0 <= (#[trigger] stack[j]) < cur
            &&& s[stack[j] as int] is JumpIfZero
            &&& depth(s, stack[j] as int) == j
        }
    &&& forall|j: int, k: int|
        0 <= j < stack.len() && stack[j] < k <= cur ==> #[trigger] depth(s, k) > depth(
            s,
            #[trigger] stack[j] as int,
        )
}

/// Links a pair of brackets in the instructions linked so far.
proof fn lemma_link_pair(s: Seq<Instruction>, before: Seq<Instruction>, p: int, q: int)
    requires
        matches(s, p, q),
        before == linked(s, q),
        s.len() <= isize::MAX,
    ensures
        before.update(q, Instruction::JumpIfNonZero((p - q) as isize)).update(
            p,
            Instruction::JumpIfZero((q - p) as isize),
        ) == linked(s, q + 1),
{
    let after = before.update(q, Instruction::JumpIfNonZero((p - q) as isize)).update(
        p,
        Instruction::JumpIfZero((q - p) as isize),
    );
    assert forall|i: int| 0 <= i < s.len() implies after[i] == linked_at(s, i, q + 1) by {
        if i == p {
            let c = closer(s, p)->0;
            lemma_closer_unique(s, p, c, q);
        } else if i == q {
            let o = opener(s, q)->0;
            lemma_opener_unique(s, o, p, q);
        } else if s[i] is JumpIfZero && closer(s, i) is Some {
            let c = closer(s, i)->0;
            if c == q {
                lemma_opener_unique(s, i, p, q);
            }
        }
    }
    assert(after =~= linked(s, q + 1));
}

/// Resolves every pair of brackets into relative jumps: the opening
/// bracket gets the distance forward to the closing one, the closing one
/// the distance back. Fails at the first closing bracket that has no
/// opening one, with the pairs before it linked, or, where there is none,
/// at the innermost opening bracket that is never closed, with all pairs
/// linked.
pub fn link_branches(insts: &mut [Instruction]) -> (r: Result<(), BracketError>)
    requires
        old(insts)@.len() <= isize::MAX,
    ensures
        r is Ok <==> balanced(old(insts)@),
        match r {
            Ok(_) => final(insts)@ == linked(old(insts)@, old(insts)@.len() as int),
            Err(BracketError::UnmatchedClosing(p)) => {
                &&& unmatched_closing(old(insts)@, p as int)
                &&& final(insts)@ == linked(old(insts)@, p as int)
            },
            Err(BracketError::UnmatchedOpening(p)) => {
                &&& unmatched_opening(old(insts)@, p as int)
                &&& final(insts)@ == linked(old(insts)@, old(insts)@.len() as int)
            },
        },
{
    let ghost s = insts@;
    let n = insts.len();
    let mut current: usize = 0;
    let mut bracket_stack: Vec<usize> = Vec::new();
    assert(insts@ =~= linked(s, 0)) by {
        assert forall|i: int| 0 <= i < s.len() implies s[i] == linked_at(s, i, 0) by {
            if s[i] is JumpIfZero && closer(s, i) is Some {
                assert(matches(s, i, closer(s, i)->0));
            }
        }
    }
    while current < n
        invariant
            s == old(insts)@,
            s.len() == n <= isize::MAX,
            current <= n,
            never_negative(s, current as int),
            pending(s, bracket_stack@, current as int),
            insts@ == linked(s, current as int),
        decreases n - current,
    {
        let ghost before = insts@;
        assert(before.len() == n);
        assert(before[current as int] == linked_at(s, current as int, current as int));
        match insts[current] {
            Instruction::JumpIfZero(_) => {
                bracket_stack.push(current);
            },
            Instruction::JumpIfNonZero(_) => {
                match bracket_stack.pop() {
                    None => {
                        assert(depth(s, current + 1) < 0);
                        return Err(BracketError::UnmatchedClosing(current));
                    },
                    Some(opening) => {
                        assert(bracket_stack@.push(opening)[bracket_stack@.len() as int] == opening);
                        assert(matches(s, opening as int, current as int));
                        insts[current] = Instruction::JumpIfNonZero(opening as isize - current as isize);
                        insts[opening] = Instruction::JumpIfZero(current as isize - opening as isize);
                        proof {
                            lemma_link_pair(s, before, opening as int, current as int);
                        }
                    },
                }
            },
            _ => {},
        }
        proof {
            if !(s[current as int] is JumpIfNonZero) {
                assert forall|i: int| 0 <= i < s.len() implies linked_at(s, i, current as int)
                    == linked_at(s, i, current + 1) by {
                    if s[i] is JumpIfZero && closer(s, i) is Some {
                        assert(matches(s, i, closer(s, i)->0));
                    }
                }
                assert(insts@ =~= linked(s, current + 1));
            }
        }
        current = current + 1;
    }
    if bracket_stack.len() == 0 {
        Ok(())
    } else {
        let opening = bracket_stack[bracket_stack.len() - 1];
        Err(BracketError::UnmatchedOpening(opening))
    }
}

/// Looks back from `k` for the bracket that opens the one closed at `q`.
proof fn lemma_find_opener(s: Seq<Instruction>, q: int, k: int) -> (p: int)
    requires
        0 <= k < q < s.len(),
        s[q] is JumpIfNonZero,
        depth(s, q + 1) >= 0,
        forall|j: int| k < j <= q ==> #[trigger] depth(s, j) > depth(s, q + 1),
    ensures
        matches(s, p, q),
    decreases k,
{
    assert(depth(s, k + 1) == depth(s, k) + opens(s[k]));
    if depth(s, k) <= depth(s, q + 1) {
        k
    } else {
        assert(k > 0) by {
            assert(depth(s, 0) == 0);
        }
        lemma_find_opener(s, q, k - 1)
    }
}

/// Looks on from `k` for the bracket that closes the one opened at `p`.
proof fn lemma_find_closer(s: Seq<Instruction>, p: int, k: int) -> (q: int)
    requires
        0 <= p < k < s.len(),
        s[p] is JumpIfZero,
        depth(s, s.len() as int) <= depth(s, p),
        forall|j: int| p < j <= k ==> #[trigger] depth(s, j) > depth(s, p),
    ensures
        matches(s, p, q),
    decreases s.len() - k,
{
    assert(depth(s, k + 1) == depth(s, k) + opens(s[k]));
    if depth(s, k + 1) <= depth(s, p) {
        k
    } else {
        lemma_find_closer(s, p, k + 1)
    }
}

/// Where no bracket closes what was not opened, every closing bracket has
/// its opening one.
pub proof fn lemma_closing_has_opener(s: Seq<Instruction>, q: int)
    requires
        0 <= q < s.len(),
        s[q] is JumpIfNonZero,
        never_negative(s, q + 1),
    ensures
        opener(s, q) is Some,
        matches(s, opener(s, q)->0, q),
{
    assert(depth(s, q + 1) == depth(s, q) + opens(s[q]));
    assert(depth(s, q + 1) >= 0);
    assert(q > 0) by {
        assert(depth(s, 0) == 0);
    }
    let p = lemma_find_opener(s, q, q - 1);
}

/// Where the brackets are balanced, every opening bracket has its closing
/// one.
pub proof fn lemma_opening_has_closer(s: Seq<Instruction>, p: int)
    requires
        0 <= p < s.len(),
        s[p] is JumpIfZero,
        balanced(s),
    ensures
        closer(s, p) is Some,
        matches(s, p, closer(s, p)->0),
{
    assert(depth(s, p + 1) == depth(s, p) + opens(s[p]));
    assert(depth(s, p) >= 0);
    assert(p + 1 < s.len());
    let q = lemma_find_closer(s, p, p + 1);
}

/// A linked pair of brackets holds each other's distance: the offsets are
/// each other's negatives. The opening bracket, when it fires, sends the
/// pointer to the instruction after the closing one; the closing bracket,
/// when it fires, sends it back to the instruction after the opening one.
pub proof fn lemma_linked_pair(s: Seq<Instruction>, p: int, q: int)
    requires
        matches(s, p, q),
        s.len() <= isize::MAX,
    ensures
        linked(s, s.len() as int)[p] == Instruction::JumpIfZero((q - p) as isize),
        linked(s, s.len() as int)[q] == Instruction::JumpIfNonZero((p - q) as isize),
        (q - p) as isize == q - p,
        (p - q) as isize == p - q,
        branch_target(s.len(), p as nat, q - p) == q + 1,
        branch_target(s.len(), q as nat, p - q) == p + 1,
{
    lemma_closer_unique(s, p, closer(s, p)->0, q);
    lemma_opener_unique(s, opener(s, q)->0, p, q);
}

/// The depth within a stretch of the instructions is the depth within the
/// whole, counted from the stretch's start.
proof fn lemma_depth_subrange(s: Seq<Instruction>, a: int, b: int, k: int)
    requires
        0 <= a <= b <= s.len(),
        0 <= k <= b - a,
    ensures
        depth(s.subrange(a, b), k) == depth(s, a + k) - depth(s, a),
    decreases k,
{
    if k > 0 {
        lemma_depth_subrange(s, a, b, k - 1);
        assert(s.subrange(a, b)[k - 1] == s[a + k - 1]);
    }
}

/// The instructions between a pair of brackets are balanced among
/// themselves.
pub proof fn lemma_pair_encloses_balanced(s: Seq<Instruction>, p: int, q: int)
    requires
        matches(s, p, q),
    ensures
        balanced(s.subrange(p + 1, q)),
{
    let inner = s.subrange(p + 1, q);
    assert(depth(s, p + 1) == depth(s, p) + opens(s[p]));
    assert(depth(s, q + 1) == depth(s, q) + opens(s[q]));
    assert forall|k: int| 0 <= k <= inner.len() implies #[trigger] depth(inner, k) >= 0 by {
        lemma_depth_subrange(s, p + 1, q, k);
        assert(depth(s, p + 1 + k) > depth(s, p));
    }
    lemma_depth_subrange(s, p + 1, q, q - p - 1);
}

/// Linking balanced brackets resolves every one of them: each opening
/// bracket points forward to a closing one that points back to it, so that
/// entering a loop and leaving it at once, or closing a round and staying
/// in the loop, lands the pointer just behind the partner.
pub proof fn lemma_linked_round_trip(s: Seq<Instruction>, i: int)
    requires
        balanced(s),
        s.len() <= isize::MAX,
        0 <= i < s.len(),
    ensures
        match linked(s, s.len() as int)[i] {
            Instruction::JumpIfZero(o) => {
                &&& s[i] is JumpIfZero
                &&& o > 0
                &&& i + o < s.len()
                &&& matches(s, i, i + o)
                &&& balanced(s.subrange(i + 1, i + o))
                &&& linked(s, s.len() as int)[i + o] == Instruction::JumpIfNonZero((-o) as isize)
                &&& branch_target(s.len(), i as nat, o as int) == i + o + 1
                &&& branch_target(s.len(), (i + o) as nat, -o) == i + 1
            },
            Instruction::JumpIfNonZero(o) => {
                &&& s[i] is JumpIfNonZero
                &&& o < 0
                &&& i + o >= 0
                &&& matches(s, i + o, i)
                &&& balanced(s.subrange(i + o + 1, i))
                &&& linked(s, s.len() as int)[i + o] == Instruction::JumpIfZero((-o) as isize)
                &&& branch_target(s.len(), i as nat, o as int) == i + o + 1
                &&& branch_target(s.len(), (i + o) as nat, -o) == i + 1
            },
            other => other == s[i],
        },
{
    if s[i] is JumpIfZero {
        lemma_opening_has_closer(s, i);
        lemma_linked_pair(s, i, closer(s, i)->0);
        lemma_pair_encloses_balanced(s, i, closer(s, i)->0);
    } else if s[i] is JumpIfNonZero {
        lemma_closing_has_opener(s, i);
        lemma_linked_pair(s, opener(s, i)->0, i);
        lemma_pair_encloses_balanced(s, opener(s, i)->0, i);
    }
}

} // verus!
