use crate::canon::{
    canon_goal, canon_goals, canon_hyps, is_canon_goals, lemma_canon_goals, lemma_canon_hyps,
    GoalV,
};
use crate::logic::Formula;
use crate::strategies::{tactic_result, StrategyArg};
use vstd::prelude::*;
use vstd::set_lib::{lemma_len_subset, lemma_set_union_finite_iff};

verus! {

// ---------------------------------------------------------------------------
// The search space of the solver is finite: every formula that a tactic produces
// is a sub-formula of the input or `True`, and a canonical proof over a finite set
// of formulas is one of finitely many.
// ---------------------------------------------------------------------------

pub open spec fn subformulas(f: Formula) -> Set<Formula>
    decreases f,
{
    match f {
        Formula::Imp(a, b) => set![f].union(subformulas(*a)).union(subformulas(*b)),
        Formula::Conj(a, b) => set![f].union(subformulas(*a)).union(subformulas(*b)),
        Formula::Disj(a, b) => set![f].union(subformulas(*a)).union(subformulas(*b)),
        _ => set![f],
    }
}

/// The direct sub-formulas of `f` lie in `s`.
pub open spec fn children_in(f: Formula, s: Set<Formula>) -> bool {
    match f {
        Formula::Imp(a, b) => s.contains(*a) && s.contains(*b),
        Formula::Conj(a, b) => s.contains(*a) && s.contains(*b),
        Formula::Disj(a, b) => s.contains(*a) && s.contains(*b),
        _ => true,
    }
}

/// A finite set of formulas, closed under taking sub-formulas, with `True`.
pub open spec fn closed(s: Set<Formula>) -> bool {
    &&& s.finite()
    &&& s.contains(Formula::Top)
    &&& forall|f: Formula| #[trigger] s.contains(f) ==> children_in(f, s)
}

pub open spec fn goal_within(g: GoalV, s: Set<Formula>) -> bool {
    s.contains(g.0) && forall|j: int| 0 <= j < g.1.len() ==> s.contains(#[trigger] g.1[j])
}

pub open spec fn within(gs: Seq<GoalV>, s: Set<Formula>) -> bool {
    forall|i: int| 0 <= i < gs.len() ==> goal_within(#[trigger] gs[i], s)
}

pub proof fn lemma_subformulas(f: Formula)
    ensures
        subformulas(f).finite(),
        subformulas(f).contains(f),
        forall|g: Formula| #[trigger] subformulas(f).contains(g) ==> children_in(g, subformulas(f)),
    decreases f,
{
    match f {
        Formula::Imp(a, b) => {
            lemma_subformulas(*a);
            lemma_subformulas(*b);
        },
        Formula::Conj(a, b) => {
            lemma_subformulas(*a);
            lemma_subformulas(*b);
        },
        Formula::Disj(a, b) => {
            lemma_subformulas(*a);
            lemma_subformulas(*b);
        },
        _ => {},
    }
}

pub open spec fn hyps_forms(hs: Seq<Formula>) -> Set<Formula>
    decreases hs.len(),
{
    if hs.len() == 0 {
        Set::empty()
    } else {
        hyps_forms(hs.drop_last()).union(subformulas(hs.last()))
    }
}

/// `True` and the sub-formulas of every conclusion and hypothesis.
pub open spec fn goals_forms(gs: Seq<GoalV>) -> Set<Formula>
    decreases gs.len(),
{
    if gs.len() == 0 {
        set![Formula::Top]
    } else {
        goals_forms(gs.drop_last()).union(subformulas(gs.last().0)).union(hyps_forms(gs.last().1))
    }
}

pub open spec fn sub_closed(s: Set<Formula>) -> bool {
    forall|f: Formula| #[trigger] s.contains(f) ==> children_in(f, s)
}

proof fn lemma_union_sub_closed(a: Set<Formula>, b: Set<Formula>)
    requires
        sub_closed(a),
        sub_closed(b),
    ensures
        sub_closed(a.union(b)),
{
    assert forall|f: Formula| #[trigger] a.union(b).contains(f) implies children_in(f, a.union(b)) by {
        if a.contains(f) {
            assert(children_in(f, a));
        } else {
            assert(children_in(f, b));
        }
    }
}

proof fn lemma_hyps_forms(hs: Seq<Formula>)
    ensures
        hyps_forms(hs).finite(),
        sub_closed(hyps_forms(hs)),
        forall|j: int| 0 <= j < hs.len() ==> hyps_forms(hs).contains(#[trigger] hs[j]),
    decreases hs.len(),
{
    if hs.len() > 0 {
        let p = hs.drop_last();
        lemma_hyps_forms(p);
        lemma_subformulas(hs.last());
        lemma_union_sub_closed(hyps_forms(p), subformulas(hs.last()));
        lemma_set_union_finite_iff(hyps_forms(p), subformulas(hs.last()));
        assert forall|j: int| 0 <= j < hs.len() implies hyps_forms(hs).contains(#[trigger] hs[j]) by {
            if j < p.len() {
                assert(p[j] == hs[j]);
            }
        }
    }
}

/// The formulas of a goal list form a closed set that holds all of them.
pub proof fn lemma_goals_forms(gs: Seq<GoalV>)
    ensures
        closed(goals_forms(gs)),
        within(gs, goals_forms(gs)),
    decreases gs.len(),
{
    if gs.len() > 0 {
        let p = gs.drop_last();
        let g = gs.last();
        lemma_goals_forms(p);
        lemma_subformulas(g.0);
        lemma_hyps_forms(g.1);
        let a = goals_forms(p);
        lemma_union_sub_closed(a, subformulas(g.0));
        lemma_union_sub_closed(a.union(subformulas(g.0)), hyps_forms(g.1));
        lemma_set_union_finite_iff(a, subformulas(g.0));
        lemma_set_union_finite_iff(a.union(subformulas(g.0)), hyps_forms(g.1));
        let s = goals_forms(gs);
        assert forall|i: int| 0 <= i < gs.len() implies goal_within(#[trigger] gs[i], s) by {
            if i < p.len() {
                assert(p[i] == gs[i]);
                assert(goal_within(p[i], a));
            } else {
                assert(gs[i] == g);
            }
        }
    }
}

/// A tactic that succeeds keeps every formula inside a closed set.
pub proof fn lemma_tactic_within(goals: Seq<GoalV>, a: int, t: StrategyArg, s: Set<Formula>)
    requires
        closed(s),
        within(goals, s),
        0 <= a < goals.len(),
        tactic_result(goals, a, t) is Ok,
    ensures
        within(tactic_result(goals, a, t)->Ok_0, s),
{
    let c = goals[a].0;
    let hs = goals[a].1;
    assert(goal_within(goals[a], s));
    assert(children_in(c, s));
    assert forall|j: int| 0 <= j < hs.len() implies children_in(#[trigger] hs[j], s) by {
        assert(s.contains(hs[j]));
    }
    let r = tactic_result(goals, a, t)->Ok_0;
    assert forall|i: int| 0 <= i < r.len() implies goal_within(#[trigger] r[i], s) by {
        if i < goals.len() && i != a {
            assert(r[i] == goals[i]);
        } else {
            let ng = r[i];
            assert forall|j: int| 0 <= j < ng.1.len() implies s.contains(#[trigger] ng.1[j]) by {
                if j < hs.len() {
                    assert(s.contains(hs[j]));
                }
            }
        }
    }
}

/// Canonicalisation keeps every formula inside a set.
pub proof fn lemma_canon_within(gs: Seq<GoalV>, s: Set<Formula>)
    requires
        within(gs, s),
    ensures
        within(canon_goals(gs), s),
{
    lemma_canon_goals(gs);
    let r = canon_goals(gs);
    assert forall|i: int| 0 <= i < r.len() implies goal_within(#[trigger] r[i], s) by {
        assert(r.contains(r[i]));
        let k = choose|k: int|
            0 <= k < gs.len() && gs[k].0 != Formula::Top && #[trigger] canon_goal(gs[k]) == r[i];
        assert(goal_within(gs[k], s));
        lemma_canon_hyps(gs[k].1);
        let h = canon_hyps(gs[k].1);
        assert forall|j: int| 0 <= j < h.len() implies s.contains(#[trigger] h[j]) by {
            assert(h.contains(h[j]));
            let m = choose|m: int| 0 <= m < gs[k].1.len() && gs[k].1[m] == h[j];
        }
    }
}

// ---------------------------------------------------------------------------
// Counting.
// ---------------------------------------------------------------------------

/// Sequences of length at most `n` over `x`.
pub open spec fn short_seqs<A>(x: Set<A>, n: nat) -> Set<Seq<A>>
    decreases n,
{
    if n == 0 {
        set![Seq::empty()]
    } else {
        let prev = short_seqs(x, (n - 1) as nat);
        prev.union(prev.map(|t: Seq<A>| x.map(|a: A| t.push(a))).flatten())
    }
}

pub proof fn lemma_short_seqs<A>(x: Set<A>, n: nat)
    requires
        x.finite(),
    ensures
        short_seqs(x, n).finite(),
        forall|t: Seq<A>|
            t.len() <= n && (forall|i: int| 0 <= i < t.len() ==> x.contains(#[trigger] t[i]))
                ==> #[trigger] short_seqs(x, n).contains(t),
    decreases n,
{
    if n == 0 {
        assert forall|t: Seq<A>|
            t.len() <= n && (forall|i: int| 0 <= i < t.len() ==> x.contains(#[trigger] t[i]))
                implies #[trigger] short_seqs(x, n).contains(t) by {
            assert(t =~= Seq::<A>::empty());
        }
    } else {
        let m = (n - 1) as nat;
        lemma_short_seqs(x, m);
        let prev = short_seqs(x, m);
        let f = |t: Seq<A>| x.map(|a: A| t.push(a));
        let outer = prev.map(f);
        prev.lemma_map_finite(f);
        assert forall|u: Set<Seq<A>>| outer.contains(u) implies #[trigger] u.finite() by {
            let t = choose|t: Seq<A>| prev.contains(t) && f(t) == u;
            x.lemma_map_finite(|a: A| t.push(a));
        }
        outer.lemma_flatten_finite();
        lemma_set_union_finite_iff(prev, outer.flatten());
        assert forall|t: Seq<A>|
            t.len() <= n && (forall|i: int| 0 <= i < t.len() ==> x.contains(#[trigger] t[i]))
                implies #[trigger] short_seqs(x, n).contains(t) by {
            if t.len() <= m {
                assert(prev.contains(t));
            } else {
                let p = t.drop_last();
                assert forall|i: int| 0 <= i < p.len() implies x.contains(#[trigger] p[i]) by {
                    assert(x.contains(t[i]));
                }
                assert(prev.contains(p));
                assert(p.push(t.last()) =~= t);
                assert(x.contains(t[t.len() - 1]));
                assert(f(p).contains(t));
                assert(outer.contains(f(p)));
                assert(outer.flatten().contains(t));
            }
        }
    }
}

/// Goals over `s` whose hypothesis lists are no longer than `s` is large.
pub open spec fn goal_space(s: Set<Formula>) -> Set<GoalV> {
    s.map(|c: Formula| short_seqs(s, s.len()).map(|h: Seq<Formula>| (c, h))).flatten()
}

/// Goal lists over the goal space, no longer than it is large.
pub open spec fn state_space(s: Set<Formula>) -> Set<Seq<GoalV>> {
    short_seqs(goal_space(s), goal_space(s).len())
}

/// A list of distinct values from a finite set is no longer than the set is large.
pub proof fn lemma_distinct_bound<A>(t: Seq<A>, x: Set<A>)
    requires
        x.finite(),
        t.no_duplicates(),
        forall|i: int| 0 <= i < t.len() ==> x.contains(#[trigger] t[i]),
    ensures
        t.len() <= x.len(),
{
    t.unique_seq_to_set();
    assert(t.to_set().subset_of(x)) by {
        assert forall|a: A| t.to_set().contains(a) implies x.contains(a) by {
            let i = choose|i: int| 0 <= i < t.len() && t[i] == a;
        }
    }
    lemma_len_subset(t.to_set(), x);
}

pub proof fn lemma_goal_space(s: Set<Formula>)
    requires
        s.finite(),
    ensures
        goal_space(s).finite(),
        forall|g: GoalV|
            s.contains(g.0) && g.1.no_duplicates() && (forall|j: int|
                0 <= j < g.1.len() ==> s.contains(#[trigger] g.1[j])) ==> #[trigger] goal_space(
                s,
            ).contains(g),
{
    let h = short_seqs(s, s.len());
    lemma_short_seqs(s, s.len());
    let f = |c: Formula| h.map(|q: Seq<Formula>| (c, q));
    let outer = s.map(f);
    s.lemma_map_finite(f);
    assert forall|u: Set<GoalV>| outer.contains(u) implies #[trigger] u.finite() by {
        let c = choose|c: Formula| s.contains(c) && f(c) == u;
        h.lemma_map_finite(|q: Seq<Formula>| (c, q));
    }
    outer.lemma_flatten_finite();
    assert forall|g: GoalV|
        s.contains(g.0) && g.1.no_duplicates() && (forall|j: int|
            0 <= j < g.1.len() ==> s.contains(#[trigger] g.1[j])) implies #[trigger] goal_space(
        s,
    ).contains(g) by {
        lemma_distinct_bound(g.1, s);
        assert(h.contains(g.1));
        assert(f(g.0).contains((g.0, g.1)));
        assert(outer.contains(f(g.0)));
    }
}

/// Every canonical goal list over `s` lies in the state space of `s`, which is finite.
pub proof fn lemma_state_space(s: Set<Formula>)
    requires
        s.finite(),
    ensures
        state_space(s).finite(),
        forall|gs: Seq<GoalV>| is_canon_goals(gs) && within(gs, s) ==> #[trigger] state_space(
            s,
        ).contains(gs),
{
    lemma_goal_space(s);
    let gsp = goal_space(s);
    lemma_short_seqs(gsp, gsp.len());
    assert forall|gs: Seq<GoalV>| is_canon_goals(gs) && within(gs, s) implies #[trigger] state_space(
        s,
    ).contains(gs) by {
        assert forall|i: int| 0 <= i < gs.len() implies gsp.contains(#[trigger] gs[i]) by {
            assert(goal_within(gs[i], s));
            assert(gs[i].1.no_duplicates());
        }
        lemma_distinct_bound(gs, gsp);
    }
}

} // verus!
