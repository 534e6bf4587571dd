//! Termination measure for the backtracking search. The per-position
//! candidate-stack lengths, read in traversal order, are interpreted as
//! the digits of a base-ten number; every backtracking step (discarding a
//! candidate, possibly after refilling a later position's stack) makes
//! that number strictly smaller.
use vstd::prelude::*;

verus! {

/// Ten to the power `n`.
pub open spec fn pow10(n: nat) -> nat
    decreases n,
{
    if n == 0 {
        1
    } else {
        10 * pow10((n - 1) as nat)
    }
}

pub proof fn lemma_pow10_pos(n: nat)
    ensures
        pow10(n) >= 1,
    decreases n,
{
    if n > 0 {
        lemma_pow10_pos((n - 1) as nat);
    }
}

/// A sequence of stack lengths read as the digits of a base-ten number,
/// most significant entry first.
pub open spec fn stacks_measure(s: Seq<nat>) -> nat
    decreases s.len(),
{
    if s.len() == 0 {
        0
    } else {
        s[0] * pow10((s.len() - 1) as nat) + stacks_measure(s.subrange(1, s.len() as int))
    }
}

/// Every entry is a legal digit count: at most nine candidates per cell.
pub open spec fn all_at_most_nine(s: Seq<nat>) -> bool {
    forall|i: int| 0 <= i < s.len() ==> s[i] <= 9
}

pub proof fn lemma_measure_bound(s: Seq<nat>)
    requires
        all_at_most_nine(s),
    ensures
        stacks_measure(s) < pow10(s.len()),
    decreases s.len(),
{
    if s.len() == 0 {
    } else {
        let tail = s.subrange(1, s.len() as int);
        assert forall|i: int| 0 <= i < tail.len() implies tail[i] <= 9 by {
            assert(tail[i] == s[i + 1]);
        }
        lemma_measure_bound(tail);
        let w = pow10((s.len() - 1) as nat);
        lemma_pow10_pos((s.len() - 1) as nat);
        assert(s[0] * w <= 9 * w) by (nonlinear_arith)
            requires s[0] <= 9, w >= 1;
        assert(pow10(s.len()) == 10 * w);
    }
}

/// If two equally long digit sequences agree strictly before position `p`
/// and the first is smaller at `p`, the first denotes the smaller number,
/// whatever either holds after `p`.
pub proof fn lemma_measure_lt(s: Seq<nat>, t: Seq<nat>, p: int)
    requires
        s.len() == t.len(),
        0 <= p < s.len(),
        forall|i: int| 0 <= i < p ==> s[i] == t[i],
        s[p] < t[p],
        all_at_most_nine(s),
    ensures
        stacks_measure(s) < stacks_measure(t),
    decreases p,
{
    let w = pow10((s.len() - 1) as nat);
    let s_tail = s.subrange(1, s.len() as int);
    let t_tail = t.subrange(1, t.len() as int);
    if p == 0 {
        assert forall|i: int| 0 <= i < s_tail.len() implies s_tail[i] <= 9 by {
            assert(s_tail[i] == s[i + 1]);
        }
        lemma_measure_bound(s_tail);
        assert(stacks_measure(s) < s[0] * w + w);
        assert(s[0] * w + w == (s[0] + 1) * w) by (nonlinear_arith);
        assert((s[0] + 1) * w <= t[0] * w) by (nonlinear_arith)
            requires s[0] + 1 <= t[0], w >= 0;
        assert(stacks_measure(t) >= t[0] * w);
    } else {
        assert forall|i: int| 0 <= i < s_tail.len() implies s_tail[i] <= 9 by {
            assert(s_tail[i] == s[i + 1]);
        }
        assert forall|i: int| 0 <= i < p - 1 implies s_tail[i] == t_tail[i] by {
            assert(s_tail[i] == s[i + 1] && t_tail[i] == t[i + 1]);
        }
        assert(s_tail[p - 1] == s[p] && t_tail[p - 1] == t[p]);
        lemma_measure_lt(s_tail, t_tail, p - 1);
        assert(s[0] == t[0]);
    }
}

} // verus!
