use crate::canon::{
    antisymmetric, insert_sorted, lemma_insert_sorted_at, lemma_insert_sorted_contains,
    lemma_insert_sorted_keeps_order, sorted_by, GoalV,
};
use crate::logic::{disj, Formula, Prop};
use crate::strategies::{
    tactic_result,
    contains_prop, goal_model, hyps_model, Goal, ProofView, StrategyArg,
};
use std::rc::Rc;
use vstd::prelude::*;
use vstd::string::StringExecFns;

verus! {

/// A ranked tactic: priority (lower is tried first), goal index, tactic.
pub type Step = (usize, usize, StrategyArg);

pub open spec fn step(p: int, g: int, t: StrategyArg) -> Step {
    (p as usize, g as usize, t)
}

/// Steps that the conclusion `c` of goal `g` offers.
pub open spec fn concl_steps(g: int, c: Formula) -> Seq<Step> {
    match c {
        Formula::Imp(_, _) => seq![step(3, g, StrategyArg::Intro)],
        Formula::Conj(_, _) => seq![step(3, g, StrategyArg::Split)],
        Formula::Disj(x, y) => if *x == Formula::Bottom {
            seq![step(3, g, StrategyArg::OrSplit(false)), step(4, g, StrategyArg::OrSplit(true))]
        } else if *y == Formula::Bottom {
            seq![step(3, g, StrategyArg::OrSplit(true)), step(4, g, StrategyArg::OrSplit(false))]
        } else {
            seq![step(3, g, StrategyArg::OrSplit(true)), step(3, g, StrategyArg::OrSplit(false))]
        },
        _ => seq![],
    }
}

/// Steps that the shape of hypothesis `i` offers. For a disjunction, as for a
/// disjunctive conclusion, keeping the side that is not `False` is preferred.
pub open spec fn hyp_shape_steps(g: int, c: Formula, hs: Seq<Formula>, i: int) -> Seq<Step> {
    let iu = i as usize;
    match hs[i] {
        Formula::Bottom => seq![step(0, g, StrategyArg::FalseIsHyp)],
        Formula::Imp(x, y) => if *y == c {
            if hs.contains(*x) {
                seq![step(2, g, StrategyArg::Apply(iu))]
            } else {
                seq![step(4, g, StrategyArg::Apply(iu))]
            }
        } else {
            seq![]
        },
        Formula::Conj(_, _) => seq![step(4, g, StrategyArg::HypSplit(iu))],
        Formula::Disj(x, y) => if *x == Formula::Bottom {
            seq![
                step(4, g, StrategyArg::HypOrSplit(iu, true)),
                step(2, g, StrategyArg::HypOrSplit(iu, false)),
            ]
        } else if *y == Formula::Bottom {
            seq![
                step(2, g, StrategyArg::HypOrSplit(iu, true)),
                step(4, g, StrategyArg::HypOrSplit(iu, false)),
            ]
        } else {
            seq![
                step(4, g, StrategyArg::HypOrSplit(iu, true)),
                step(4, g, StrategyArg::HypOrSplit(iu, false)),
            ]
        },
        _ => seq![],
    }
}

pub open spec fn exact_steps(g: int, c: Formula, hs: Seq<Formula>, i: int) -> Seq<Step> {
    if hs[i] == c {
        seq![step(1, g, StrategyArg::Exact(i as usize))]
    } else {
        seq![]
    }
}

/// Forward uses of hypothesis `i` in the hypotheses `k < n` that are implications from it.
pub open spec fn apply_in_steps(g: int, hs: Seq<Formula>, i: int, n: int) -> Seq<Step>
    decreases n,
{
    if n <= 0 {
        seq![]
    } else {
        let k = n - 1;
        apply_in_steps(g, hs, i, k) + if k != i && hs[k] is Imp && *hs[k]->Imp_0 == hs[i] {
            seq![step(4, g, StrategyArg::ApplyIn(i as usize, k as usize, true))]
        } else {
            seq![]
        }
    }
}

pub open spec fn hyp_steps(g: int, c: Formula, hs: Seq<Formula>, i: int) -> Seq<Step> {
    hyp_shape_steps(g, c, hs, i) + exact_steps(g, c, hs, i) + apply_in_steps(g, hs, i, hs.len() as int)
}

/// Steps of the hypotheses `i < n`.
pub open spec fn hyps_steps(g: int, c: Formula, hs: Seq<Formula>, n: int) -> Seq<Step>
    decreases n,
{
    if n <= 0 {
        seq![]
    } else {
        hyps_steps(g, c, hs, n - 1) + hyp_steps(g, c, hs, n - 1)
    }
}

/// Steps of goal `g`; a goal whose conclusion is `True` offers none.
pub open spec fn goal_steps(g: int, goal: GoalV) -> Seq<Step> {
    if goal.0 == Formula::Top {
        seq![]
    } else {
        concl_steps(g, goal.0) + hyps_steps(g, goal.0, goal.1, goal.1.len() as int)
    }
}

/// Steps of the goals `g < n`, in goal order.
pub open spec fn goals_steps(goals: Seq<GoalV>, n: int) -> Seq<Step>
    decreases n,
{
    if n <= 0 {
        seq![]
    } else {
        goals_steps(goals, n - 1) + goal_steps(n - 1, goals[n - 1])
    }
}

pub open spec fn flag(b: bool) -> int {
    if b {
        1
    } else {
        0
    }
}

/// The derived order of `StrategyArg`: variant first, then the fields; unused
/// fields count as zero.
pub open spec fn arg_key(t: StrategyArg) -> Seq<int> {
    match t {
        StrategyArg::Intro => seq![0, 0, 0, 0],
        StrategyArg::Split => seq![1, 0, 0, 0],
        StrategyArg::HypSplit(i) => seq![2, i as int, 0, 0],
        StrategyArg::OrSplit(b) => seq![3, flag(b), 0, 0],
        StrategyArg::HypOrSplit(i, b) => seq![4, i as int, flag(b), 0],
        StrategyArg::FalseIsHyp => seq![5, 0, 0, 0],
        StrategyArg::Exact(i) => seq![6, i as int, 0, 0],
        StrategyArg::Apply(i) => seq![7, i as int, 0, 0],
        StrategyArg::ApplyIn(i, j, b) => seq![8, i as int, j as int, flag(b)],
    }
}

pub open spec fn step_key(s: Step) -> Seq<int> {
    seq![s.0 as int, s.1 as int] + arg_key(s.2)
}

/// Lexicographic comparison of integer lists, a proper prefix first.
pub open spec fn key_cmp(a: Seq<int>, b: Seq<int>) -> int
    decreases a.len(),
{
    if a.len() == 0 {
        if b.len() == 0 {
            0
        } else {
            -1
        }
    } else if b.len() == 0 {
        1
    } else if a[0] < b[0] {
        -1
    } else if a[0] > b[0] {
        1
    } else {
        key_cmp(a.drop_first(), b.drop_first())
    }
}

pub open spec fn step_order() -> spec_fn(Step, Step) -> int {
    |a: Step, b: Step| key_cmp(step_key(a), step_key(b))
}

/// Stable sort by the step order.
pub open spec fn sort_steps(s: Seq<Step>) -> Seq<Step>
    decreases s.len(),
{
    if s.len() == 0 {
        seq![]
    } else {
        insert_sorted(sort_steps(s.drop_last()), s.last(), step_order())
    }
}

/// Every step that would succeed on some goal, ranked.
pub open spec fn applicable(p: ProofView) -> Seq<Step> {
    sort_steps(goals_steps(p.goals, p.goals.len() as int))
}

pub proof fn lemma_sort_steps_contains(s: Seq<Step>)
    ensures
        forall|x: Step| #[trigger] sort_steps(s).contains(x) <==> s.contains(x),
        sort_steps(s).len() == s.len(),
    decreases s.len(),
{
    if s.len() > 0 {
        lemma_sort_steps_contains(s.drop_last());
        lemma_insert_sorted_contains(sort_steps(s.drop_last()), s.last(), step_order());
        assert forall|x: Step| s.contains(x) <==> (s.drop_last().contains(x) || x == s.last()) by {
            if s.contains(x) && x != s.last() {
                let k = choose|k: int| 0 <= k < s.len() && s[k] == x;
                assert(s.drop_last()[k] == x);
            }
            if s.drop_last().contains(x) {
                let k = choose|k: int| 0 <= k < s.len() - 1 && s.drop_last()[k] == x;
                assert(s[k] == x);
            }
            if x == s.last() {
                assert(s[s.len() - 1] == x);
            }
        }
    }
}

proof fn lemma_key_cmp_antisym(a: Seq<int>, b: Seq<int>)
    ensures
        key_cmp(a, b) == -key_cmp(b, a),
    decreases a.len(),
{
    if a.len() > 0 && b.len() > 0 {
        lemma_key_cmp_antisym(a.drop_first(), b.drop_first());
    }
}

proof fn lemma_step_order_antisymmetric()
    ensures
        antisymmetric(step_order()),
{
    assert forall|a: Step, b: Step| #[trigger] step_order()(a, b) == -step_order()(b, a) by {
        lemma_key_cmp_antisym(step_key(a), step_key(b));
    }
}

proof fn lemma_sort_steps_sorted(s: Seq<Step>)
    ensures
        sorted_by(sort_steps(s), step_order()),
    decreases s.len(),
{
    if s.len() > 0 {
        lemma_sort_steps_sorted(s.drop_last());
        lemma_step_order_antisymmetric();
        lemma_insert_sorted_keeps_order(sort_steps(s.drop_last()), s.last(), step_order());
    }
}

/// The ranked steps are the steps that the goals offer, as many, ordered by priority,
/// then goal index, then tactic.
pub proof fn lemma_applicable_ranked(p: ProofView)
    ensures
        sorted_by(applicable(p), step_order()),
        applicable(p).len() == goals_steps(p.goals, p.goals.len() as int).len(),
        forall|s: Step| #[trigger]
            applicable(p).contains(s) <==> goals_steps(p.goals, p.goals.len() as int).contains(s),
{
    lemma_sort_steps_sorted(goals_steps(p.goals, p.goals.len() as int));
    lemma_sort_steps_contains(goals_steps(p.goals, p.goals.len() as int));
}

proof fn lemma_hyps_steps_include(g: int, c: Formula, hs: Seq<Formula>, n: int, i: int, s: Step)
    requires
        0 <= i < n,
        hyp_steps(g, c, hs, i).contains(s),
    ensures
        hyps_steps(g, c, hs, n).contains(s),
    decreases n,
{
    let a = hyps_steps(g, c, hs, n - 1);
    let b = hyp_steps(g, c, hs, n - 1);
    if i < n - 1 {
        lemma_hyps_steps_include(g, c, hs, n - 1, i, s);
        let k = choose|k: int| 0 <= k < a.len() && a[k] == s;
        assert((a + b)[k] == s);
    } else {
        let k = choose|k: int| 0 <= k < b.len() && b[k] == s;
        assert((a + b)[a.len() + k] == s);
    }
}

proof fn lemma_goals_steps_include(goals: Seq<GoalV>, n: int, g: int, s: Step)
    requires
        0 <= g < n <= goals.len(),
        goal_steps(g, goals[g]).contains(s),
    ensures
        goals_steps(goals, n).contains(s),
    decreases n,
{
    let a = goals_steps(goals, n - 1);
    let b = goal_steps(n - 1, goals[n - 1]);
    if g < n - 1 {
        lemma_goals_steps_include(goals, n - 1, g, s);
        let k = choose|k: int| 0 <= k < a.len() && a[k] == s;
        assert((a + b)[k] == s);
    } else {
        let k = choose|k: int| 0 <= k < b.len() && b[k] == s;
        assert((a + b)[a.len() + k] == s);
    }
}

/// A hypothesis `x | y` of an open goal is narrowed preferably to the side that is not
/// `False`, as a disjunctive conclusion is: with `x` `False`, keeping `y` is ranked 2 and
/// keeping `x` 4; with only `y` `False`, the other way round; with neither, both 4.
pub proof fn lemma_hyp_or_ranking(p: ProofView, g: int, i: int, x: Formula, y: Formula)
    requires
        0 <= g < p.goals.len() <= usize::MAX,
        p.goals[g].0 != Formula::Top,
        0 <= i < p.goals[g].1.len() <= usize::MAX,
        p.goals[g].1[i] == disj(x, y),
    ensures
        ({
            let (pl, pr) = if x == Formula::Bottom {
                (4usize, 2usize)
            } else if y == Formula::Bottom {
                (2usize, 4usize)
            } else {
                (4usize, 4usize)
            };
            &&& applicable(p).contains((pl, g as usize, StrategyArg::HypOrSplit(i as usize, true)))
            &&& applicable(p).contains((pr, g as usize, StrategyArg::HypOrSplit(i as usize, false)))
        }),
{
    let c = p.goals[g].0;
    let hs = p.goals[g].1;
    let sh = hyp_shape_steps(g, c, hs, i);
    let hst = hyp_steps(g, c, hs, i);
    let raw = goals_steps(p.goals, p.goals.len() as int);
    lemma_sort_steps_contains(raw);
    assert forall|k: int| 0 <= k < sh.len() implies hst.contains(#[trigger] sh[k]) by {
        assert(hst[k] == sh[k]);
    }
    assert forall|k: int| 0 <= k < sh.len() implies raw.contains(#[trigger] sh[k]) by {
        assert(hst.contains(sh[k]));
        lemma_hyps_steps_include(g, c, hs, hs.len() as int, i, sh[k]);
        let cs = concl_steps(g, c);
        let hy = hyps_steps(g, c, hs, hs.len() as int);
        let j = choose|j: int| 0 <= j < hy.len() && hy[j] == sh[k];
        assert((cs + hy)[cs.len() + j] == sh[k]);
        lemma_goals_steps_include(p.goals, p.goals.len() as int, g, sh[k]);
    }
    assert(raw.contains(sh[0]));
    assert(raw.contains(sh[1]));
}

proof fn lemma_concat_contains<A>(a: Seq<A>, b: Seq<A>, x: A)
    requires
        (a + b).contains(x),
    ensures
        a.contains(x) || b.contains(x),
{
    let k = choose|k: int| 0 <= k < (a + b).len() && (a + b)[k] == x;
    if k < a.len() {
        assert(a[k] == x);
    } else {
        assert(b[k - a.len()] == x);
    }
}

/// The step `s` succeeds on goal `g` of `goals`.
pub open spec fn step_succeeds(goals: Seq<GoalV>, g: int, s: Step) -> bool {
    s.1 as int == g && tactic_result(goals, g, s.2) is Ok
}

proof fn lemma_apply_in_steps_succeed(goals: Seq<GoalV>, g: int, i: int, n: int, s: Step)
    requires
        0 <= g < goals.len() <= usize::MAX,
        0 <= i < goals[g].1.len() <= usize::MAX,
        n <= goals[g].1.len(),
        apply_in_steps(g, goals[g].1, i, n).contains(s),
    ensures
        step_succeeds(goals, g, s),
    decreases n,
{
    let hs = goals[g].1;
    if n > 0 {
        let k = n - 1;
        let tail = if k != i && hs[k] is Imp && *hs[k]->Imp_0 == hs[i] {
            seq![step(4, g, StrategyArg::ApplyIn(i as usize, k as usize, true))]
        } else {
            seq![]
        };
        lemma_concat_contains(apply_in_steps(g, hs, i, k), tail, s);
        if apply_in_steps(g, hs, i, k).contains(s) {
            lemma_apply_in_steps_succeed(goals, g, i, k, s);
        } else {
            assert(tail[0] == s);
        }
    }
}

proof fn lemma_hyp_steps_succeed(goals: Seq<GoalV>, g: int, i: int, s: Step)
    requires
        0 <= g < goals.len() <= usize::MAX,
        0 <= i < goals[g].1.len() <= usize::MAX,
        hyp_steps(g, goals[g].0, goals[g].1, i).contains(s),
    ensures
        step_succeeds(goals, g, s),
{
    let c = goals[g].0;
    let hs = goals[g].1;
    let sh = hyp_shape_steps(g, c, hs, i);
    let ex = exact_steps(g, c, hs, i);
    let ai = apply_in_steps(g, hs, i, hs.len() as int);
    lemma_concat_contains(sh + ex, ai, s);
    if ai.contains(s) {
        lemma_apply_in_steps_succeed(goals, g, i, hs.len() as int, s);
    } else {
        lemma_concat_contains(sh, ex, s);
        if ex.contains(s) {
            assert(ex[0] == s);
        } else {
            let k = choose|k: int| 0 <= k < sh.len() && sh[k] == s;
            if hs[i] == Formula::Bottom {
                assert(hs.contains(hs[i]));
            }
        }
    }
}

proof fn lemma_hyps_steps_succeed(goals: Seq<GoalV>, g: int, n: int, s: Step)
    requires
        0 <= g < goals.len() <= usize::MAX,
        goals[g].1.len() <= usize::MAX,
        n <= goals[g].1.len(),
        hyps_steps(g, goals[g].0, goals[g].1, n).contains(s),
    ensures
        step_succeeds(goals, g, s),
    decreases n,
{
    if n > 0 {
        lemma_concat_contains(
            hyps_steps(g, goals[g].0, goals[g].1, n - 1),
            hyp_steps(g, goals[g].0, goals[g].1, n - 1),
            s,
        );
        if hyps_steps(g, goals[g].0, goals[g].1, n - 1).contains(s) {
            lemma_hyps_steps_succeed(goals, g, n - 1, s);
        } else {
            lemma_hyp_steps_succeed(goals, g, n - 1, s);
        }
    }
}

proof fn lemma_goals_steps_succeed(goals: Seq<GoalV>, n: int, s: Step)
    requires
        goals.len() <= usize::MAX,
        forall|g: int| 0 <= g < goals.len() ==> (#[trigger] goals[g]).1.len() <= usize::MAX,
        n <= goals.len(),
        goals_steps(goals, n).contains(s),
    ensures
        0 <= s.1 < goals.len(),
        step_succeeds(goals, s.1 as int, s),
    decreases n,
{
    if n > 0 {
        let g = n - 1;
        lemma_concat_contains(goals_steps(goals, g), goal_steps(g, goals[g]), s);
        if goals_steps(goals, g).contains(s) {
            lemma_goals_steps_succeed(goals, g, s);
        } else {
            let c = goals[g].0;
            let hs = goals[g].1;
            let cs = concl_steps(g, c);
            let hst = hyps_steps(g, c, hs, hs.len() as int);
            lemma_concat_contains(cs, hst, s);
            if cs.contains(s) {
                let k = choose|k: int| 0 <= k < cs.len() && cs[k] == s;
            } else {
                lemma_hyps_steps_succeed(goals, g, hs.len() as int, s);
            }
        }
    }
}

/// Every ranked step succeeds once its goal is made active.
pub proof fn lemma_applicable_succeed(p: ProofView, s: Step)
    requires
        p.goals.len() <= usize::MAX,
        forall|g: int| 0 <= g < p.goals.len() ==> (#[trigger] p.goals[g]).1.len() <= usize::MAX,
        applicable(p).contains(s),
    ensures
        (s.1 as int) < p.goals.len(),
        tactic_result(p.goals, s.1 as int, s.2) is Ok,
{
    lemma_sort_steps_contains(goals_steps(p.goals, p.goals.len() as int));
    lemma_goals_steps_succeed(p.goals, p.goals.len() as int, s);
}

// ---------------------------------------------------------------------------
// Computing the steps.
// ---------------------------------------------------------------------------

fn key_of(t: StrategyArg) -> (r: (usize, usize, usize, usize))
    ensures
        arg_key(t) == seq![r.0 as int, r.1 as int, r.2 as int, r.3 as int],
{
    match t {
        StrategyArg::Intro => (0, 0, 0, 0),
        StrategyArg::Split => (1, 0, 0, 0),
        StrategyArg::HypSplit(i) => (2, i, 0, 0),
        StrategyArg::OrSplit(b) => (3, if b { 1 } else { 0 }, 0, 0),
        StrategyArg::HypOrSplit(i, b) => (4, i, if b { 1 } else { 0 }, 0),
        StrategyArg::FalseIsHyp => (5, 0, 0, 0),
        StrategyArg::Exact(i) => (6, i, 0, 0),
        StrategyArg::Apply(i) => (7, i, 0, 0),
        StrategyArg::ApplyIn(i, j, b) => (8, i, j, if b { 1 } else { 0 }),
    }
}

fn cmp_usize(a: usize, b: usize) -> (r: i8)
    ensures
        r == (if a < b {
            -1i8
        } else if a > b {
            1i8
        } else {
            0i8
        }),
{
    if a < b {
        -1
    } else if a > b {
        1
    } else {
        0
    }
}

proof fn lemma_key_cmp_cons(x: int, a: Seq<int>, y: int, b: Seq<int>)
    ensures
        key_cmp(seq![x] + a, seq![y] + b) == if x < y {
            -1
        } else if x > y {
            1
        } else {
            key_cmp(a, b)
        },
{
    assert((seq![x] + a).drop_first() =~= a);
    assert((seq![y] + b).drop_first() =~= b);
}

fn compare_keys(a: &[usize; 6], b: &[usize; 6]) -> (r: i8)
    ensures
        r as int == key_cmp(a@.map_values(|x: usize| x as int), b@.map_values(|x: usize| x as int)),
{
    let ghost ma = a@.map_values(|x: usize| x as int);
    let ghost mb = b@.map_values(|x: usize| x as int);
    let mut i: usize = 0;
    assert(ma.skip(0) =~= ma);
    assert(mb.skip(0) =~= mb);
    while i < 6
        invariant
            i <= 6,
            ma == a@.map_values(|x: usize| x as int),
            mb == b@.map_values(|x: usize| x as int),
            key_cmp(ma, mb) == key_cmp(ma.skip(i as int), mb.skip(i as int)),
        decreases 6 - i,
    {
        proof {
            assert(ma.skip(i as int) =~= seq![ma[i as int]] + ma.skip(i + 1));
            assert(mb.skip(i as int) =~= seq![mb[i as int]] + mb.skip(i + 1));
            lemma_key_cmp_cons(ma[i as int], ma.skip(i + 1), mb[i as int], mb.skip(i + 1));
        }
        let c = cmp_usize(a[i], b[i]);
        if c != 0 {
            return c;
        }
        i = i + 1;
    }
    assert(ma.skip(6) =~= Seq::<int>::empty());
    assert(mb.skip(6) =~= Seq::<int>::empty());
    0
}

fn key_array(s: &Step) -> (r: [usize; 6])
    ensures
        r@.map_values(|x: usize| x as int) == step_key(*s),
{
    let k = key_of(s.2);
    let r = [s.0, s.1, k.0, k.1, k.2, k.3];
    assert(r@.map_values(|x: usize| x as int) =~= step_key(*s));
    r
}

fn compare_steps(a: &Step, b: &Step) -> (r: i8)
    ensures
        r as int == key_cmp(step_key(*a), step_key(*b)),
{
    compare_keys(&key_array(a), &key_array(b))
}

fn insert_step_sorted(v: &mut Vec<Step>, x: Step)
    ensures
        final(v)@ == insert_sorted(old(v)@, x, step_order()),
{
    let mut j: usize = v.len();
    while j > 0 && compare_steps(&v[j - 1], &x) > 0
        invariant
            j <= v.len(),
            v@ == old(v)@,
            forall|k: int| j <= k < v@.len() ==> #[trigger] step_order()(v@[k], x) > 0,
        decreases j,
    {
        j = j - 1;
    }
    proof {
        lemma_insert_sorted_at(v@, x, step_order(), j as int);
    }
    v.insert(j, x);
}

pub(crate) fn sort_step_list(s: &Vec<Step>) -> (r: Vec<Step>)
    ensures
        r@ == sort_steps(s@),
{
    let mut acc: Vec<Step> = Vec::new();
    let mut i: usize = 0;
    assert(s@.take(0) =~= Seq::<Step>::empty());
    while i < s.len()
        invariant
            i <= s.len(),
            acc@ == sort_steps(s@.take(i as int)),
        decreases s.len() - i,
    {
        assert(s@.take(i + 1).drop_last() =~= s@.take(i as int));
        assert(s@.take(i + 1).last() == s@[i as int]);
        insert_step_sorted(&mut acc, s[i]);
        i = i + 1;
    }
    assert(s@.take(s.len() as int) =~= s@);
    acc
}

fn push_concl_steps(out: &mut Vec<Step>, g: usize, c: &Prop)
    ensures
        final(out)@ == old(out)@ + concl_steps(g as int, c@),
{
    let ghost before = out@;
    match c {
        Prop::Implies(_, _) => out.push((3, g, StrategyArg::Intro)),
        Prop::And(_, _) => out.push((3, g, StrategyArg::Split)),
        Prop::Or(x, y) => {
            if (**x).is_false() {
                out.push((3, g, StrategyArg::OrSplit(false)));
                out.push((4, g, StrategyArg::OrSplit(true)));
            } else if (**y).is_false() {
                out.push((3, g, StrategyArg::OrSplit(true)));
                out.push((4, g, StrategyArg::OrSplit(false)));
            } else {
                out.push((3, g, StrategyArg::OrSplit(true)));
                out.push((3, g, StrategyArg::OrSplit(false)));
            }
        },
        _ => {},
    }
    assert(out@ =~= before + concl_steps(g as int, c@));
}

fn push_hyp_steps(out: &mut Vec<Step>, g: usize, c: &Prop, hs: &Vec<Rc<Prop>>, i: usize)
    requires
        i < hs.len(),
    ensures
        final(out)@ == old(out)@ + hyp_steps(g as int, c@, hyps_model(hs@), i as int),
{
    let ghost m = hyps_model(hs@);
    let ghost before = out@;
    let h: &Prop = &*hs[i];
    assert(h@ == m[i as int]);
    match h {
        Prop::False => out.push((0, g, StrategyArg::FalseIsHyp)),
        Prop::Implies(x, y) => {
            if (**y).same(c) {
                if contains_prop(hs, &**x) {
                    out.push((2, g, StrategyArg::Apply(i)));
                } else {
                    out.push((4, g, StrategyArg::Apply(i)));
                }
            }
        },
        Prop::And(_, _) => out.push((4, g, StrategyArg::HypSplit(i))),
        Prop::Or(x, y) => {
            if (**x).is_false() {
                out.push((4, g, StrategyArg::HypOrSplit(i, true)));
                out.push((2, g, StrategyArg::HypOrSplit(i, false)));
            } else if (**y).is_false() {
                out.push((2, g, StrategyArg::HypOrSplit(i, true)));
                out.push((4, g, StrategyArg::HypOrSplit(i, false)));
            } else {
                out.push((4, g, StrategyArg::HypOrSplit(i, true)));
                out.push((4, g, StrategyArg::HypOrSplit(i, false)));
            }
        },
        _ => {},
    }
    assert(out@ =~= before + hyp_shape_steps(g as int, c@, m, i as int));
    let ghost mid = out@;
    if h.same(c) {
        out.push((1, g, StrategyArg::Exact(i)));
    }
    assert(out@ =~= mid + exact_steps(g as int, c@, m, i as int));
    let ghost mid2 = out@;
    let n = hs.len();
    let mut k: usize = 0;
    assert(out@ =~= mid2 + apply_in_steps(g as int, m, i as int, 0));
    while k < n
        invariant
            n == hs.len(),
            i < n,
            k <= n,
            m == hyps_model(hs@),
            h@ == m[i as int],
            out@ == mid2 + apply_in_steps(g as int, m, i as int, k as int),
        decreases n - k,
    {
        let ghost prev = out@;
        if k != i {
            match &*hs[k] {
                Prop::Implies(x, _) => {
                    assert(m[k as int] == hs@[k as int]@);
                    if (**x).same(h) {
                        out.push((4, g, StrategyArg::ApplyIn(i, k, true)));
                    }
                },
                _ => {},
            }
        }
        assert(out@ =~= mid2 + apply_in_steps(g as int, m, i as int, k + 1));
        k = k + 1;
    }
    assert(out@ =~= before + hyp_steps(g as int, c@, m, i as int));
}

pub(crate) fn push_goal_steps(out: &mut Vec<Step>, g: usize, goal: &Goal)
    ensures
        final(out)@ == old(out)@ + goal_steps(g as int, goal_model(*goal)),
{
    let ghost before = out@;
    let ghost m = hyps_model(goal.1@);
    if goal.0.is_true() {
        assert(out@ =~= before + goal_steps(g as int, goal_model(*goal)));
        return;
    }
    push_concl_steps(out, g, &goal.0);
    let ghost mid = out@;
    let n = goal.1.len();
    let mut i: usize = 0;
    assert(out@ =~= mid + hyps_steps(g as int, goal.0@, m, 0));
    while i < n
        invariant
            n == goal.1.len(),
            i <= n,
            m == hyps_model(goal.1@),
            out@ == mid + hyps_steps(g as int, goal.0@, m, i as int),
        decreases n - i,
    {
        push_hyp_steps(out, g, &goal.0, &goal.1, i);
        assert(out@ =~= mid + hyps_steps(g as int, goal.0@, m, i + 1));
        i = i + 1;
    }
    assert(out@ =~= before + goal_steps(g as int, goal_model(*goal)));
}

// ---------------------------------------------------------------------------
// Laws.
// ---------------------------------------------------------------------------

proof fn lemma_apply_in_steps_kind(g: int, hs: Seq<Formula>, i: int, n: int)
    ensures
        forall|s: Step| #[trigger] apply_in_steps(g, hs, i, n).contains(s) ==> s.2 is ApplyIn,
    decreases n,
{
    if n > 0 {
        lemma_apply_in_steps_kind(g, hs, i, n - 1);
        let k = n - 1;
        let a = apply_in_steps(g, hs, i, k);
        let b = if k != i && hs[k] is Imp && *hs[k]->Imp_0 == hs[i] {
            seq![step(4, g, StrategyArg::ApplyIn(i as usize, k as usize, true))]
        } else {
            seq![]
        };
        assert forall|s: Step| #[trigger] (a + b).contains(s) implies s.2 is ApplyIn by {
            let j = choose|j: int| 0 <= j < (a + b).len() && (a + b)[j] == s;
            if j < a.len() {
                assert(a.contains(a[j]));
            } else {
                assert(b[j - a.len()] == s);
            }
        }
    }
}

/// Hypotheses never offer a tactic on the conclusion's disjunction.
proof fn lemma_hyps_steps_no_or_split(g: int, c: Formula, hs: Seq<Formula>, n: int)
    ensures
        forall|s: Step| #[trigger] hyps_steps(g, c, hs, n).contains(s) ==> !(s.2 is OrSplit),
    decreases n,
{
    if n > 0 {
        lemma_hyps_steps_no_or_split(g, c, hs, n - 1);
        lemma_apply_in_steps_kind(g, hs, n - 1, hs.len() as int);
        let a = hyps_steps(g, c, hs, n - 1);
        let sh = hyp_shape_steps(g, c, hs, n - 1);
        let ex = exact_steps(g, c, hs, n - 1);
        let ai = apply_in_steps(g, hs, n - 1, hs.len() as int);
        let b = sh + ex + ai;
        assert forall|s: Step| #[trigger] (a + b).contains(s) implies !(s.2 is OrSplit) by {
            let j = choose|j: int| 0 <= j < (a + b).len() && (a + b)[j] == s;
            if j < a.len() {
                assert(a.contains(a[j]));
            } else if j < a.len() + sh.len() {
                assert(sh[j - a.len()] == s);
            } else if j < a.len() + sh.len() + ex.len() {
                assert(ex[j - a.len() - sh.len()] == s);
            } else {
                assert(ai[j - a.len() - sh.len() - ex.len()] == s);
                assert(ai.contains(s));
            }
        }
    }
}

/// With one goal `a | False` (`a` not `False`), choosing the left disjunct is ranked 3
/// and choosing `False` is ranked 4: the true branch is tried first.
pub proof fn lemma_or_false_prefers_left(p: ProofView, a: Formula, hs: Seq<Formula>)
    requires
        p.goals == seq![(disj(a, Formula::Bottom), hs)],
        a != Formula::Bottom,
    ensures
        applicable(p).contains((3usize, 0usize, StrategyArg::OrSplit(true))),
        applicable(p).contains((4usize, 0usize, StrategyArg::OrSplit(false))),
        forall|s: Step| #[trigger]
            applicable(p).contains(s) && s.2 == StrategyArg::OrSplit(true) ==> s.0 == 3,
        forall|s: Step| #[trigger]
            applicable(p).contains(s) && s.2 == StrategyArg::OrSplit(false) ==> s.0 == 4,
{
    let c = disj(a, Formula::Bottom);
    let raw = goals_steps(p.goals, 1);
    let cs = concl_steps(0, c);
    let hsteps = hyps_steps(0, c, hs, hs.len() as int);
    assert(goals_steps(p.goals, 0) =~= Seq::<Step>::empty());
    assert(raw =~= cs + hsteps);
    assert(cs =~= seq![
        (3usize, 0usize, StrategyArg::OrSplit(true)),
        (4usize, 0usize, StrategyArg::OrSplit(false)),
    ]);
    lemma_sort_steps_contains(raw);
    lemma_hyps_steps_no_or_split(0, c, hs, hs.len() as int);
    assert(raw[0] == (3usize, 0usize, StrategyArg::OrSplit(true)));
    assert(raw[1] == (4usize, 0usize, StrategyArg::OrSplit(false)));
    assert forall|s: Step| #[trigger] raw.contains(s) && s.2 is OrSplit implies cs.contains(s) by {
        let j = choose|j: int| 0 <= j < raw.len() && raw[j] == s;
        if j >= cs.len() {
            assert(hsteps[j - cs.len()] == s);
            assert(hsteps.contains(s));
        } else {
            assert(cs[j] == s);
        }
    }
}

// ---------------------------------------------------------------------------
// Text of a tactic, as the commands that name it.
// ---------------------------------------------------------------------------

pub open spec fn digit_char(d: nat) -> char {
    if d == 0 {
        '0'
    } else if d == 1 {
        '1'
    } else if d == 2 {
        '2'
    } else if d == 3 {
        '3'
    } else if d == 4 {
        '4'
    } else if d == 5 {
        '5'
    } else if d == 6 {
        '6'
    } else if d == 7 {
        '7'
    } else if d == 8 {
        '8'
    } else {
        '9'
    }
}

/// Decimal digits of `n`, without leading zeros.
pub open spec fn decimal(n: nat) -> Seq<char>
    decreases n,
{
    if n < 10 {
        seq![digit_char(n)]
    } else {
        decimal(n / 10).push(digit_char(n % 10))
    }
}

fn digit_text(d: usize) -> (r: &'static str)
    requires
        d < 10,
    ensures
        r@ == seq![digit_char(d as nat)],
{
    proof {
        reveal_strlit("0");
        reveal_strlit("1");
        reveal_strlit("2");
        reveal_strlit("3");
        reveal_strlit("4");
        reveal_strlit("5");
        reveal_strlit("6");
        reveal_strlit("7");
        reveal_strlit("8");
        reveal_strlit("9");
    }
    let r = if d == 0 {
        "0"
    } else if d == 1 {
        "1"
    } else if d == 2 {
        "2"
    } else if d == 3 {
        "3"
    } else if d == 4 {
        "4"
    } else if d == 5 {
        "5"
    } else if d == 6 {
        "6"
    } else if d == 7 {
        "7"
    } else if d == 8 {
        "8"
    } else {
        "9"
    };
    assert(r@ =~= seq![digit_char(d as nat)]);
    r
}

pub fn decimal_string(n: usize) -> (r: String)
    ensures
        r@ == decimal(n as nat),
    decreases n,
{
    if n < 10 {
        String::from_str(digit_text(n))
    } else {
        let mut s = decimal_string(n / 10);
        s.append(digit_text(n % 10));
        s
    }
}

pub open spec fn arg_text(t: StrategyArg) -> Seq<char> {
    match t {
        StrategyArg::Intro => "intro"@,
        StrategyArg::Split => "split"@,
        StrategyArg::HypSplit(i) => "hyp_split "@ + decimal(i as nat),
        StrategyArg::OrSplit(true) => "left"@,
        StrategyArg::OrSplit(false) => "right"@,
        StrategyArg::HypOrSplit(i, true) => "hyp_left "@ + decimal(i as nat),
        StrategyArg::HypOrSplit(i, false) => "hyp_right "@ + decimal(i as nat),
        StrategyArg::FalseIsHyp => "false_is_hyp"@,
        StrategyArg::Exact(i) => "exact "@ + decimal(i as nat),
        StrategyArg::Apply(i) => "apply "@ + decimal(i as nat),
        StrategyArg::ApplyIn(i, j, _) => "apply_in_hyp_keep "@ + decimal(i as nat) + " "@ + decimal(
            j as nat,
        ),
    }
}

fn with_number(prefix: &str, n: usize) -> (r: String)
    ensures
        r@ == prefix@ + decimal(n as nat),
{
    let mut s = String::from_str(prefix);
    let d = decimal_string(n);
    s.append(d.as_str());
    s
}

impl StrategyArg {
    /// The command text of the tactic: `intro`, `hyp_split 2`, `apply_in_hyp_keep 0 1`, ...
    pub fn to_string(&self) -> (r: String)
        ensures
            r@ == arg_text(*self),
    {
        match *self {
            StrategyArg::Intro => String::from_str("intro"),
            StrategyArg::Split => String::from_str("split"),
            StrategyArg::HypSplit(i) => with_number("hyp_split ", i),
            StrategyArg::OrSplit(true) => String::from_str("left"),
            StrategyArg::OrSplit(false) => String::from_str("right"),
            StrategyArg::HypOrSplit(i, true) => with_number("hyp_left ", i),
            StrategyArg::HypOrSplit(i, false) => with_number("hyp_right ", i),
            StrategyArg::FalseIsHyp => String::from_str("false_is_hyp"),
            StrategyArg::Exact(i) => with_number("exact ", i),
            StrategyArg::Apply(i) => with_number("apply ", i),
            StrategyArg::ApplyIn(i, j, _) => {
                let mut s = with_number("apply_in_hyp_keep ", i);
                s.append(" ");
                let d = decimal_string(j);
                s.append(d.as_str());
                s
            },
        }
    }
}

} // verus!
