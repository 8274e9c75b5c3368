use crate::logic::{formula_cmp, lemma_formula_cmp_zero, Formula};
use vstd::prelude::*;

verus! {

/// Model of a goal: its conclusion and its hypotheses, in order.
pub type GoalV = (Formula, Seq<Formula>);

// ---------------------------------------------------------------------------
// Orders on hypothesis lists and on goals.
// ---------------------------------------------------------------------------

/// Lexicographic comparison of formula lists, a proper prefix first.
pub open spec fn list_cmp(a: Seq<Formula>, b: Seq<Formula>) -> int
    decreases a.len(),
{
    if a.len() == 0 {
        if b.len() == 0 {
            0
        } else {
            -1
        }
    } else if b.len() == 0 {
        1
    } else if formula_cmp(a[0], b[0]) != 0 {
        formula_cmp(a[0], b[0])
    } else {
        list_cmp(a.drop_first(), b.drop_first())
    }
}

/// Goals compare by conclusion, then by hypothesis list.
pub open spec fn goal_cmp(a: GoalV, b: GoalV) -> int {
    if formula_cmp(a.0, b.0) != 0 {
        formula_cmp(a.0, b.0)
    } else {
        list_cmp(a.1, b.1)
    }
}

pub proof fn lemma_list_cmp_zero(a: Seq<Formula>, b: Seq<Formula>)
    ensures
        (list_cmp(a, b) == 0) == (a == b),
    decreases a.len(),
{
    if a.len() == 0 && b.len() == 0 {
        assert(a =~= b);
    } else if a.len() > 0 && b.len() > 0 {
        lemma_formula_cmp_zero(a[0], b[0]);
        if a[0] == b[0] {
            lemma_list_cmp_zero(a.drop_first(), b.drop_first());
            if a.drop_first() == b.drop_first() {
                assert(a =~= seq![a[0]] + a.drop_first());
                assert(b =~= seq![b[0]] + b.drop_first());
            }
        }
    }
}

pub proof fn lemma_goal_cmp_zero(a: GoalV, b: GoalV)
    ensures
        (goal_cmp(a, b) == 0) == (a == b),
{
    lemma_formula_cmp_zero(a.0, b.0);
    lemma_list_cmp_zero(a.1, b.1);
}

pub proof fn lemma_text_cmp_antisym(a: Seq<char>, b: Seq<char>)
    ensures
        crate::logic::text_cmp(a, b) == -crate::logic::text_cmp(b, a),
    decreases a.len(),
{
    if a.len() > 0 && b.len() > 0 && a[0] == b[0] {
        lemma_text_cmp_antisym(a.drop_first(), b.drop_first());
    }
}

pub proof fn lemma_formula_cmp_antisym(a: Formula, b: Formula)
    ensures
        formula_cmp(a, b) == -formula_cmp(b, a),
    decreases a,
{
    match (a, b) {
        (Formula::Atom(x), Formula::Atom(y)) => lemma_text_cmp_antisym(x, y),
        (Formula::Imp(a1, a2), Formula::Imp(b1, b2)) => {
            lemma_formula_cmp_antisym(*a1, *b1);
            lemma_formula_cmp_antisym(*a2, *b2);
        },
        (Formula::Conj(a1, a2), Formula::Conj(b1, b2)) => {
            lemma_formula_cmp_antisym(*a1, *b1);
            lemma_formula_cmp_antisym(*a2, *b2);
        },
        (Formula::Disj(a1, a2), Formula::Disj(b1, b2)) => {
            lemma_formula_cmp_antisym(*a1, *b1);
            lemma_formula_cmp_antisym(*a2, *b2);
        },
        _ => {},
    }
}

pub proof fn lemma_list_cmp_antisym(a: Seq<Formula>, b: Seq<Formula>)
    ensures
        list_cmp(a, b) == -list_cmp(b, a),
    decreases a.len(),
{
    if a.len() > 0 && b.len() > 0 {
        lemma_formula_cmp_antisym(a[0], b[0]);
        lemma_list_cmp_antisym(a.drop_first(), b.drop_first());
    }
}

pub proof fn lemma_goal_cmp_antisym(a: GoalV, b: GoalV)
    ensures
        goal_cmp(a, b) == -goal_cmp(b, a),
{
    lemma_formula_cmp_antisym(a.0, b.0);
    lemma_list_cmp_antisym(a.1, b.1);
}

// ---------------------------------------------------------------------------
// Sorted insertion, for any three-way comparison.
// ---------------------------------------------------------------------------

/// A three-way comparison that is zero exactly on equal values and antisymmetric.
pub open spec fn proper_cmp<T>(cmp: spec_fn(T, T) -> int) -> bool {
    &&& forall|a: T, b: T| #[trigger] cmp(a, b) == 0 <==> a == b
    &&& forall|a: T, b: T| #[trigger] cmp(a, b) == -cmp(b, a)
}

pub open spec fn formula_order() -> spec_fn(Formula, Formula) -> int {
    |a: Formula, b: Formula| formula_cmp(a, b)
}

pub open spec fn goal_order() -> spec_fn(GoalV, GoalV) -> int {
    |a: GoalV, b: GoalV| goal_cmp(a, b)
}

pub proof fn lemma_orders_proper()
    ensures
        proper_cmp(formula_order()),
        proper_cmp(goal_order()),
{
    assert forall|a: Formula, b: Formula| #[trigger]
        formula_order()(a, b) == 0 <==> a == b by {
        lemma_formula_cmp_zero(a, b);
    }
    assert forall|a: Formula, b: Formula| #[trigger]
        formula_order()(a, b) == -formula_order()(b, a) by {
        lemma_formula_cmp_antisym(a, b);
    }
    assert forall|a: GoalV, b: GoalV| #[trigger] goal_order()(a, b) == 0 <==> a == b by {
        lemma_goal_cmp_zero(a, b);
    }
    assert forall|a: GoalV, b: GoalV| #[trigger]
        goal_order()(a, b) == -goal_order()(b, a) by {
        lemma_goal_cmp_antisym(a, b);
    }
}

/// `x` inserted into `s` after every element not greater than it.
pub open spec fn insert_sorted<T>(s: Seq<T>, x: T, cmp: spec_fn(T, T) -> int) -> Seq<T>
    decreases s.len(),
{
    if s.len() == 0 {
        seq![x]
    } else if cmp(s.last(), x) <= 0 {
        s.push(x)
    } else {
        insert_sorted(s.drop_last(), x, cmp).push(s.last())
    }
}

/// Each element strictly below the next.
pub open spec fn strictly_sorted<T>(s: Seq<T>, cmp: spec_fn(T, T) -> int) -> bool {
    forall|i: int| 0 <= i < s.len() - 1 ==> #[trigger] cmp(s[i], s[i + 1]) < 0
}

pub proof fn lemma_push_contains<T>(s: Seq<T>, x: T)
    ensures
        forall|y: T| #[trigger] s.push(x).contains(y) <==> (s.contains(y) || y == x),
{
    assert forall|y: T| #[trigger] s.push(x).contains(y) <==> (s.contains(y) || y == x) by {
        if s.contains(y) {
            let k = choose|k: int| 0 <= k < s.len() && s[k] == y;
            assert(s.push(x)[k] == y);
        }
        if s.push(x).contains(y) && y != x {
            let k = choose|k: int| 0 <= k < s.len() + 1 && s.push(x)[k] == y;
            assert(s[k] == y);
        }
        if y == x {
            assert(s.push(x)[s.len() as int] == y);
        }
    }
}

pub proof fn lemma_insert_sorted_contains<T>(s: Seq<T>, x: T, cmp: spec_fn(T, T) -> int)
    ensures
        forall|y: T| #[trigger] insert_sorted(s, x, cmp).contains(y) <==> (s.contains(y) || y == x),
        insert_sorted(s, x, cmp).len() == s.len() + 1,
    decreases s.len(),
{
    if s.len() > 0 && cmp(s.last(), x) > 0 {
        lemma_insert_sorted_contains(s.drop_last(), x, cmp);
        let r = insert_sorted(s.drop_last(), x, cmp);
        lemma_push_contains(r, s.last());
        lemma_push_contains(s.drop_last(), s.last());
        assert(s.drop_last().push(s.last()) =~= s);
    } else if s.len() > 0 {
        lemma_push_contains(s, x);
    } else {
        lemma_push_contains(s, x);
        assert(s.push(x) =~= seq![x]);
    }
}

/// Inserting a new value into a strictly sorted list without repeats keeps it so.
pub proof fn lemma_insert_sorted_sorted<T>(s: Seq<T>, x: T, cmp: spec_fn(T, T) -> int)
    requires
        proper_cmp(cmp),
        strictly_sorted(s, cmp),
        s.no_duplicates(),
        !s.contains(x),
    ensures
        strictly_sorted(insert_sorted(s, x, cmp), cmp),
        insert_sorted(s, x, cmp).no_duplicates(),
        insert_sorted(s, x, cmp).len() > 0,
        s.len() > 0 ==> insert_sorted(s, x, cmp).last() == x || insert_sorted(s, x, cmp).last()
            == s.last(),
    decreases s.len(),
{
    lemma_insert_sorted_contains(s, x, cmp);
    if s.len() == 0 {
    } else if cmp(s.last(), x) <= 0 {
        assert(cmp(s.last(), x) != 0);
        let r = s.push(x);
        assert forall|i: int, j: int| 0 <= i < j < r.len() implies r[i] != r[j] by {
            if j == s.len() {
                assert(s.contains(r[i]));
            }
        }
    } else {
        let p = s.drop_last();
        let l = s.last();
        assert(strictly_sorted(p, cmp)) by {
            assert forall|i: int| 0 <= i < p.len() - 1 implies #[trigger] cmp(p[i], p[i + 1]) < 0 by {
                assert(cmp(s[i], s[i + 1]) < 0);
            }
        }
        assert(!p.contains(x)) by {
            if p.contains(x) {
                let k = choose|k: int| 0 <= k < p.len() && p[k] == x;
                assert(s[k] == x);
            }
        }
        lemma_insert_sorted_sorted(p, x, cmp);
        lemma_insert_sorted_contains(p, x, cmp);
        let q = insert_sorted(p, x, cmp);
        let r = q.push(l);
        assert(!p.contains(l)) by {
            if p.contains(l) {
                let k = choose|k: int| 0 <= k < p.len() && p[k] == l;
                assert(s[k] == s[s.len() - 1]);
            }
        }
        assert(cmp(x, l) < 0) by {
            assert(cmp(l, x) == -cmp(x, l));
            assert(s.contains(l)) by {
                assert(s[s.len() - 1] == l);
            }
        }
        if p.len() > 0 {
            assert(cmp(p.last(), l) < 0) by {
                let i = s.len() - 2;
                assert(cmp(s[i], s[i + 1]) < 0);
            }
        }
        assert(cmp(q.last(), l) < 0);
        assert forall|i: int| 0 <= i < r.len() - 1 implies #[trigger] cmp(r[i], r[i + 1]) < 0 by {
            if i + 1 < q.len() {
                assert(cmp(q[i], q[i + 1]) < 0);
            }
        }
        assert forall|i: int, j: int| 0 <= i < j < r.len() implies r[i] != r[j] by {
            if j == q.len() {
                assert(q.contains(r[i]));
            }
        }
    }
}

/// On a strictly sorted list whose last element is new, insertion appends.
pub proof fn lemma_insert_sorted_last<T>(s: Seq<T>, cmp: spec_fn(T, T) -> int)
    requires
        s.len() > 0,
        strictly_sorted(s, cmp),
    ensures
        insert_sorted(s.drop_last(), s.last(), cmp) == s,
{
    let p = s.drop_last();
    if p.len() > 0 {
        let i = s.len() - 2;
        assert(cmp(s[i], s[i + 1]) < 0);
        assert(p.push(s.last()) =~= s);
    } else {
        assert(seq![s.last()] =~= s);
    }
}

// ---------------------------------------------------------------------------
// Canonical form.
// ---------------------------------------------------------------------------

/// Hypotheses sorted, without repeats, without `True`.
pub open spec fn canon_hyps(hs: Seq<Formula>) -> Seq<Formula>
    decreases hs.len(),
{
    if hs.len() == 0 {
        seq![]
    } else {
        let prev = canon_hyps(hs.drop_last());
        let x = hs.last();
        if x == Formula::Top || prev.contains(x) {
            prev
        } else {
            insert_sorted(prev, x, formula_order())
        }
    }
}

pub open spec fn canon_goal(g: GoalV) -> GoalV {
    (g.0, canon_hyps(g.1))
}

/// Goals with canonical hypotheses, sorted, without repeats, without those whose
/// conclusion is `True`.
pub open spec fn canon_goals(gs: Seq<GoalV>) -> Seq<GoalV>
    decreases gs.len(),
{
    if gs.len() == 0 {
        seq![]
    } else {
        let prev = canon_goals(gs.drop_last());
        let g = gs.last();
        if g.0 == Formula::Top || prev.contains(canon_goal(g)) {
            prev
        } else {
            insert_sorted(prev, canon_goal(g), goal_order())
        }
    }
}

/// A hypothesis list in canonical form.
pub open spec fn is_canon_hyps(hs: Seq<Formula>) -> bool {
    &&& strictly_sorted(hs, formula_order())
    &&& hs.no_duplicates()
    &&& !hs.contains(Formula::Top)
}

/// A goal list in canonical form.
pub open spec fn is_canon_goals(gs: Seq<GoalV>) -> bool {
    &&& strictly_sorted(gs, goal_order())
    &&& gs.no_duplicates()
    &&& forall|i: int| 0 <= i < gs.len() ==> #[trigger] gs[i].0 != Formula::Top && is_canon_hyps(
        gs[i].1,
    )
}

/// The canonical hypotheses are canonical and are those of `hs` but `True`.
pub proof fn lemma_canon_hyps(hs: Seq<Formula>)
    ensures
        is_canon_hyps(canon_hyps(hs)),
        forall|f: Formula| #[trigger]
            canon_hyps(hs).contains(f) <==> (hs.contains(f) && f != Formula::Top),
    decreases hs.len(),
{
    if hs.len() > 0 {
        let p = hs.drop_last();
        let x = hs.last();
        lemma_canon_hyps(p);
        let prev = canon_hyps(p);
        if !(x == Formula::Top || prev.contains(x)) {
            lemma_orders_proper();
            lemma_insert_sorted_sorted(prev, x, formula_order());
            lemma_insert_sorted_contains(prev, x, formula_order());
        }
        assert forall|f: Formula| hs.contains(f) <==> (p.contains(f) || f == x) by {
            if hs.contains(f) && f != x {
                let k = choose|k: int| 0 <= k < hs.len() && hs[k] == f;
                assert(p[k] == f);
            }
            if p.contains(f) {
                let k = choose|k: int| 0 <= k < p.len() && p[k] == f;
                assert(hs[k] == f);
            }
            if f == x {
                assert(hs[hs.len() - 1] == f);
            }
        }
    }
}

/// A canonical hypothesis list is its own canonical form.
pub proof fn lemma_canon_hyps_fixed(hs: Seq<Formula>)
    requires
        is_canon_hyps(hs),
    ensures
        canon_hyps(hs) == hs,
    decreases hs.len(),
{
    if hs.len() > 0 {
        let p = hs.drop_last();
        let x = hs.last();
        assert(is_canon_hyps(p)) by {
            assert forall|i: int| 0 <= i < p.len() - 1 implies #[trigger] formula_order()(
                p[i],
                p[i + 1],
            ) < 0 by {
                assert(formula_order()(hs[i], hs[i + 1]) < 0);
            }
            if p.contains(Formula::Top) {
                let k = choose|k: int| 0 <= k < p.len() && p[k] == Formula::Top;
                assert(hs[k] == Formula::Top);
            }
        }
        lemma_canon_hyps_fixed(p);
        assert(!p.contains(x)) by {
            if p.contains(x) {
                let k = choose|k: int| 0 <= k < p.len() && p[k] == x;
                assert(hs[k] == hs[hs.len() - 1]);
            }
        }
        assert(x != Formula::Top) by {
            assert(hs[hs.len() - 1] == x);
        }
        lemma_insert_sorted_last(hs, formula_order());
    }
}

/// The canonical goals are canonical, and are the canonical forms of the goals of `gs`
/// whose conclusion is not `True`.
pub proof fn lemma_canon_goals(gs: Seq<GoalV>)
    ensures
        is_canon_goals(canon_goals(gs)),
        forall|g: GoalV| #[trigger]
            canon_goals(gs).contains(g) <==> exists|i: int|
                0 <= i < gs.len() && gs[i].0 != Formula::Top && #[trigger] canon_goal(gs[i]) == g,
    decreases gs.len(),
{
    if gs.len() > 0 {
        let p = gs.drop_last();
        let x = gs.last();
        lemma_canon_goals(p);
        let prev = canon_goals(p);
        let cg = canon_goal(x);
        lemma_canon_hyps(x.1);
        if !(x.0 == Formula::Top || prev.contains(cg)) {
            lemma_orders_proper();
            lemma_insert_sorted_sorted(prev, cg, goal_order());
            lemma_insert_sorted_contains(prev, cg, goal_order());
        }
        let r = canon_goals(gs);
        assert forall|i: int| 0 <= i < r.len() implies #[trigger] r[i].0 != Formula::Top
            && is_canon_hyps(r[i].1) by {
            assert(r.contains(r[i]));
            if prev.contains(r[i]) {
                let k = choose|k: int| 0 <= k < prev.len() && prev[k] == r[i];
            }
        }
        assert forall|g: GoalV| #[trigger]
            r.contains(g) <==> exists|i: int|
                0 <= i < gs.len() && gs[i].0 != Formula::Top && #[trigger] canon_goal(gs[i]) == g by {
            if r.contains(g) {
                if prev.contains(g) {
                    let i = choose|i: int|
                        0 <= i < p.len() && p[i].0 != Formula::Top && #[trigger] canon_goal(p[i])
                            == g;
                    assert(gs[i] == p[i]);
                } else {
                    assert(gs[gs.len() - 1] == x);
                }
            }
            if exists|i: int|
                0 <= i < gs.len() && gs[i].0 != Formula::Top && #[trigger] canon_goal(gs[i]) == g {
                let i = choose|i: int|
                    0 <= i < gs.len() && gs[i].0 != Formula::Top && #[trigger] canon_goal(gs[i])
                        == g;
                if i < p.len() {
                    assert(p[i] == gs[i]);
                }
            }
        }
    }
}

/// A canonical goal list is its own canonical form.
pub proof fn lemma_canon_goals_fixed(gs: Seq<GoalV>)
    requires
        is_canon_goals(gs),
    ensures
        canon_goals(gs) == gs,
    decreases gs.len(),
{
    if gs.len() > 0 {
        let p = gs.drop_last();
        let x = gs.last();
        assert(is_canon_goals(p)) by {
            assert forall|i: int| 0 <= i < p.len() - 1 implies #[trigger] goal_order()(
                p[i],
                p[i + 1],
            ) < 0 by {
                assert(goal_order()(gs[i], gs[i + 1]) < 0);
            }
            assert forall|i: int| 0 <= i < p.len() implies #[trigger] p[i].0 != Formula::Top
                && is_canon_hyps(p[i].1) by {
                assert(gs[i] == p[i]);
            }
        }
        lemma_canon_goals_fixed(p);
        assert(gs[gs.len() - 1] == x);
        lemma_canon_hyps_fixed(x.1);
        assert(canon_goal(x) == x);
        assert(!p.contains(x)) by {
            if p.contains(x) {
                let k = choose|k: int| 0 <= k < p.len() && p[k] == x;
                assert(gs[k] == gs[gs.len() - 1]);
            }
        }
        lemma_insert_sorted_last(gs, goal_order());
    }
}

/// Canonicalisation is idempotent.
pub proof fn lemma_canon_goals_idempotent(gs: Seq<GoalV>)
    ensures
        canon_goals(canon_goals(gs)) == canon_goals(gs),
{
    lemma_canon_goals(gs);
    lemma_canon_goals_fixed(canon_goals(gs));
}

/// Sorted insertion puts `x` at the position `j` after which every element is greater.
pub proof fn lemma_insert_sorted_at<T>(s: Seq<T>, x: T, cmp: spec_fn(T, T) -> int, j: int)
    requires
        0 <= j <= s.len(),
        forall|k: int| j <= k < s.len() ==> #[trigger] cmp(s[k], x) > 0,
        j == 0 || cmp(s[j - 1], x) <= 0,
    ensures
        insert_sorted(s, x, cmp) == s.insert(j, x),
    decreases s.len(),
{
    if s.len() == 0 {
        assert(s.insert(j, x) =~= seq![x]);
    } else if cmp(s.last(), x) <= 0 {
        if j < s.len() {
            assert(cmp(s[s.len() - 1], x) > 0);
        }
        assert(s.insert(j, x) =~= s.push(x));
    } else {
        let p = s.drop_last();
        assert(j < s.len());
        assert forall|k: int| j <= k < p.len() implies #[trigger] cmp(p[k], x) > 0 by {
            assert(cmp(s[k], x) > 0);
        }
        if j > 0 {
            assert(p[j - 1] == s[j - 1]);
        }
        lemma_insert_sorted_at(p, x, cmp, j);
        assert(p.insert(j, x).push(s.last()) =~= s.insert(j, x));
    }
}

/// Each element not above the next.
pub open spec fn sorted_by<T>(s: Seq<T>, cmp: spec_fn(T, T) -> int) -> bool {
    forall|i: int| 0 <= i < s.len() - 1 ==> #[trigger] cmp(s[i], s[i + 1]) <= 0
}

pub open spec fn antisymmetric<T>(cmp: spec_fn(T, T) -> int) -> bool {
    forall|a: T, b: T| #[trigger] cmp(a, b) == -cmp(b, a)
}

/// Sorted insertion keeps a list sorted.
pub proof fn lemma_insert_sorted_keeps_order<T>(s: Seq<T>, x: T, cmp: spec_fn(T, T) -> int)
    requires
        antisymmetric(cmp),
        sorted_by(s, cmp),
    ensures
        sorted_by(insert_sorted(s, x, cmp), cmp),
        insert_sorted(s, x, cmp).len() == s.len() + 1,
        s.len() > 0 ==> insert_sorted(s, x, cmp).last() == x || insert_sorted(s, x, cmp).last()
            == s.last(),
    decreases s.len(),
{
    if s.len() > 0 && cmp(s.last(), x) > 0 {
        let p = s.drop_last();
        let l = s.last();
        assert(sorted_by(p, cmp)) by {
            assert forall|i: int| 0 <= i < p.len() - 1 implies #[trigger] cmp(p[i], p[i + 1]) <= 0 by {
                assert(cmp(s[i], s[i + 1]) <= 0);
            }
        }
        lemma_insert_sorted_keeps_order(p, x, cmp);
        let q = insert_sorted(p, x, cmp);
        assert(cmp(x, l) < 0) by {
            assert(cmp(l, x) == -cmp(x, l));
        }
        if p.len() > 0 {
            let i = s.len() - 2;
            assert(cmp(s[i], s[i + 1]) <= 0);
        }
        assert(cmp(q.last(), l) <= 0);
        let r = q.push(l);
        assert forall|i: int| 0 <= i < r.len() - 1 implies #[trigger] cmp(r[i], r[i + 1]) <= 0 by {
            if i + 1 < q.len() {
                assert(cmp(q[i], q[i + 1]) <= 0);
            }
        }
    } else if s.len() > 0 {
        let r = s.push(x);
        assert forall|i: int| 0 <= i < r.len() - 1 implies #[trigger] cmp(r[i], r[i + 1]) <= 0 by {
            if i + 1 < s.len() {
                assert(cmp(s[i], s[i + 1]) <= 0);
            }
        }
    }
}

} // verus!
