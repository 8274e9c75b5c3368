use crate::applicable::{applicable, Step};
use crate::canon::{is_canon_goals, lemma_canon_goals, GoalV};
use crate::logic::Formula;
use crate::space::{
    closed, lemma_canon_within, lemma_distinct_bound, lemma_goals_forms, lemma_state_space,
    lemma_tactic_within, goals_forms, state_space, within,
};
use crate::strategies::{clean_view, tactic_on, Proof, ProofView};
use vstd::prelude::*;

verus! {

pub open spec fn on_goal(c: ProofView, g: int) -> ProofView {
    ProofView { goals: c.goals, active: g }
}

pub open spec fn at_first(gs: Seq<GoalV>) -> ProofView {
    ProofView { goals: gs, active: 0 }
}

/// The state that step `s` leads to from `c`, when `s` is ranked applicable on `c`
/// and succeeds on its goal.
pub open spec fn successor(c: ProofView, s: Step) -> Option<ProofView> {
    if applicable(c).contains(s) && (s.1 as int) < c.goals.len() && tactic_on(
        on_goal(c, s.1 as int),
        s.2,
    ) is Ok {
        Some(tactic_on(on_goal(c, s.1 as int), s.2)->Ok_0)
    } else {
        None
    }
}

/// `steps` solves `p`: from the canonical form of `p` each step leads on, and the
/// canonical form of the last state has no goal.
pub open spec fn solves(p: ProofView, steps: Seq<Step>) -> bool
    decreases steps.len(),
{
    let c = clean_view(p);
    if steps.len() == 0 {
        c.goals.len() == 0
    } else {
        match successor(c, steps[0]) {
            Some(n) => solves(n, steps.drop_first()),
            None => false,
        }
    }
}

/// The depth-first search from `p` with the visited canonical states `visited`: whether
/// it closes every goal, the steps that it takes, and the visited states after it. A
/// state already visited is pruned; the steps ranked applicable on the canonical state
/// are tried in their order, and the first that leads to a solution wins. `fuel` bounds
/// the depth; the solver gives as much as there are canonical states to visit.
pub open spec fn dfs(p: ProofView, visited: Seq<Seq<GoalV>>, fuel: nat) -> (
    bool,
    Seq<Step>,
    Seq<Seq<GoalV>>,
)
    decreases fuel, 0int,
{
    let c = clean_view(p);
    if visited.contains(c.goals) || fuel == 0 {
        (false, seq![], visited)
    } else if c.goals.len() == 0 {
        (true, seq![], visited.push(c.goals))
    } else {
        dfs_steps(c, applicable(c), 0, visited.push(c.goals), (fuel - 1) as nat)
    }
}

/// The search from the canonical state `c` with the ranked steps `cands` from `i` on.
pub open spec fn dfs_steps(
    c: ProofView,
    cands: Seq<Step>,
    i: int,
    visited: Seq<Seq<GoalV>>,
    fuel: nat,
) -> (bool, Seq<Step>, Seq<Seq<GoalV>>)
    decreases fuel, cands.len() - i,
{
    if i < 0 || i >= cands.len() {
        (false, seq![], visited)
    } else {
        match successor(c, cands[i]) {
            None => dfs_steps(c, cands, i + 1, visited, fuel),
            Some(n) => {
                let r = dfs(n, visited, fuel);
                if r.0 {
                    (true, seq![cands[i]] + r.1, r.2)
                } else {
                    dfs_steps(c, cands, i + 1, r.2, fuel)
                }
            },
        }
    }
}

/// What the solver finds from `p`.
pub open spec fn search_outcome(p: ProofView) -> (bool, Seq<Step>, Seq<Seq<GoalV>>) {
    dfs(p, seq![], state_space(goals_forms(p.goals)).len())
}

pub open spec fn goals_of(v: Seq<Proof>) -> Seq<Seq<GoalV>> {
    v.map_values(|q: Proof| q@.goals)
}

/// Visited states: distinct canonical goal lists over `space`, first goal active.
pub open spec fn visited_ok(v: Seq<Proof>, space: Set<Formula>) -> bool {
    &&& goals_of(v).no_duplicates()
    &&& forall|i: int|
        0 <= i < v.len() ==> is_canon_goals(#[trigger] v[i]@.goals) && within(v[i]@.goals, space)
            && v[i]@.active == 0
}

/// The states at `lo..hi` have goals, and whatever they lead to is in `vs`.
pub open spec fn explored(vs: Seq<Seq<GoalV>>, lo: int, hi: int) -> bool {
    forall|i: int|
        lo <= i < hi ==> (#[trigger] vs[i]).len() > 0 && forall|s: Step|
            #[trigger] successor(at_first(vs[i]), s) is Some ==> vs.contains(
                clean_view(successor(at_first(vs[i]), s)->Some_0).goals,
            )
}

pub open spec fn extends<A>(old_s: Seq<A>, new_s: Seq<A>) -> bool {
    old_s.len() <= new_s.len() && new_s.take(old_s.len() as int) == old_s
}

proof fn lemma_explored_extend(v: Seq<Seq<GoalV>>, w: Seq<Seq<GoalV>>, lo: int, hi: int)
    requires
        explored(v, lo, hi),
        0 <= lo,
        hi <= v.len(),
        extends(v, w),
    ensures
        explored(w, lo, hi),
{
    assert forall|i: int| lo <= i < hi implies (#[trigger] w[i]).len() > 0 && forall|s: Step|
        #[trigger] successor(at_first(w[i]), s) is Some ==> w.contains(
            clean_view(successor(at_first(w[i]), s)->Some_0).goals,
        ) by {
        assert(w[i] == w.take(v.len() as int)[i]);
        assert(w[i] == v[i]);
        assert forall|s: Step| #[trigger] successor(at_first(w[i]), s) is Some implies w.contains(
            clean_view(successor(at_first(w[i]), s)->Some_0).goals,
        ) by {
            let x = clean_view(successor(at_first(v[i]), s)->Some_0).goals;
            assert(v.contains(x));
            let k = choose|k: int| 0 <= k < v.len() && v[k] == x;
            assert(w[k] == w.take(v.len() as int)[k]);
        }
    }
}

fn contains_state(visited: &Vec<Proof>, p: &Proof) -> (r: bool)
    ensures
        r == goals_of(visited@).contains(p@.goals),
{
    let mut i: usize = 0;
    while i < visited.len()
        invariant
            i <= visited.len(),
            forall|k: int| 0 <= k < i ==> (#[trigger] visited@[k])@.goals != p@.goals,
        decreases visited.len() - i,
    {
        if visited[i].same_goals(p) {
            assert(goals_of(visited@)[i as int] == p@.goals);
            return true;
        }
        i = i + 1;
    }
    assert(!goals_of(visited@).contains(p@.goals)) by {
        if goals_of(visited@).contains(p@.goals) {
            let k = choose|k: int| 0 <= k < goals_of(visited@).len() && goals_of(visited@)[k] == p@.goals;
            assert(visited@[k]@.goals == p@.goals);
        }
    }
    false
}

/// Depth-first search from `p`, pruning states already in `visited`.
fn search(
    p: &Proof,
    visited: &mut Vec<Proof>,
    steps: &mut Vec<Step>,
    Ghost(space): Ghost<Set<Formula>>,
    Ghost(fuel): Ghost<nat>,
) -> (found: bool)
    requires
        closed(space),
        within(p@.goals, space),
        visited_ok(old(visited)@, space),
        old(visited)@.len() + fuel >= state_space(space).len(),
    ensures
        dfs(p@, goals_of(old(visited)@), fuel).0 == found,
        dfs(p@, goals_of(old(visited)@), fuel).2 == goals_of(final(visited)@),
        found ==> dfs(p@, goals_of(old(visited)@), fuel).1 == final(steps)@.skip(
            old(steps)@.len() as int,
        ),
        visited_ok(final(visited)@, space),
        extends(goals_of(old(visited)@), goals_of(final(visited)@)),
        goals_of(final(visited)@).contains(clean_view(p@).goals),
        found ==> extends(old(steps)@, final(steps)@) && solves(
            p@,
            final(steps)@.skip(old(steps)@.len() as int),
        ),
        !found ==> final(steps)@ == old(steps)@ && explored(
            goals_of(final(visited)@),
            old(visited)@.len() as int,
            final(visited)@.len() as int,
        ),
        clean_view(p@).goals.len() == 0 && old(visited)@.len() == 0 ==> found && final(steps)@
            == old(steps)@,
    decreases fuel,
{
    let ghost v0 = visited@;
    let ghost s0 = steps@;
    let local = p.cleaned();
    proof {
        lemma_canon_within(p@.goals, space);
        lemma_canon_goals(p@.goals);
        assert(steps@.skip(steps@.len() as int) =~= Seq::<Step>::empty());
        assert(steps@.take(steps@.len() as int) =~= steps@);
        assert(goals_of(visited@).take(visited@.len() as int) =~= goals_of(visited@));
    }
    if contains_state(visited, &local) {
        return false;
    }
    let start = visited.len();
    visited.push(local.duplicate());
    proof {
        assert(goals_of(visited@) =~= goals_of(v0).push(local@.goals));
        assert(goals_of(visited@)[start as int] == local@.goals);
        assert(goals_of(visited@).take(start as int) =~= goals_of(v0));
        assert forall|i: int| 0 <= i < visited@.len() implies is_canon_goals(
            #[trigger] visited@[i]@.goals,
        ) && within(visited@[i]@.goals, space) && visited@[i]@.active == 0 by {
            if i < start {
                assert(visited@[i] == v0[i]);
            }
        }
        lemma_state_space(space);
        assert forall|i: int| 0 <= i < goals_of(visited@).len() implies state_space(space).contains(
            #[trigger] goals_of(visited@)[i],
        ) by {
            assert(is_canon_goals(visited@[i]@.goals) && within(visited@[i]@.goals, space));
        }
        lemma_distinct_bound(goals_of(visited@), state_space(space));
    }
    assert(fuel > 0);
    let ghost v1 = goals_of(visited@);
    if local.number_of_goals() == 0 {
        return true;
    }
    let cands = local.get_applicable_strategies();
    let mut i: usize = 0;
    while i < cands.len()
        invariant
            closed(space),
            local@ == clean_view(p@),
            local.well_formed(),
            local@.goals.len() > 0,
            within(local@.goals, space),
            cands@ == applicable(local@),
            i <= cands.len(),
            start == v0.len(),
            v0.len() + fuel >= state_space(space).len(),
            fuel > 0,
            dfs(p@, goals_of(v0), fuel) == dfs_steps(
                local@,
                cands@,
                i as int,
                goals_of(visited@),
                (fuel - 1) as nat,
            ),
            v0 == old(visited)@,
            s0 == old(steps)@,
            visited_ok(visited@, space),
            visited@.len() > start,
            visited@.len() <= state_space(space).len(),
            extends(goals_of(v0), goals_of(visited@)),
            goals_of(visited@)[start as int] == local@.goals,
            steps@ == s0,
            explored(goals_of(visited@), start + 1, visited@.len() as int),
            forall|k: int|
                0 <= k < i ==> #[trigger] successor(local@, cands@[k]) is Some ==> goals_of(
                    visited@,
                ).contains(clean_view(successor(local@, cands@[k])->Some_0).goals),
        decreases cands.len() - i,
    {
        let s = cands[i];
        assert(applicable(local@).contains(s)) by {
            assert(cands@[i as int] == s);
        }
        let mut next = local.duplicate();
        let ghost vi = visited@;
        match next.set_active_goal(s.1) {
            Ok(()) => {
                match next.execute(&s.2) {
                    Ok(()) => {
                        assert(successor(local@, s) == Some(next@));
                        proof {
                            lemma_tactic_within(local@.goals, s.1 as int, s.2, space);
                            lemma_state_space(space);
                            lemma_distinct_bound(goals_of(visited@), state_space(space));
                        }
                        steps.push(s);
                        let ghost r = dfs(next@, goals_of(vi), (fuel - 1) as nat);
                        if search(&next, visited, steps, Ghost(space), Ghost((fuel - 1) as nat)) {
                            proof {
                                let rest = steps@.skip(s0.len() as int + 1);
                                assert(steps@.take(s0.len() as int + 1) == s0.push(s));
                                assert(steps@.take(s0.len() as int + 1)[s0.len() as int] == s);
                                assert(steps@.skip(s0.len() as int) =~= seq![s] + rest);
                                assert((seq![s] + rest).drop_first() =~= rest);
                                assert((seq![s] + rest)[0] == s);
                                assert(steps@.take(s0.len() as int) =~= s0);
                                assert(solves(next@, rest));
                                assert(clean_view(p@) == local@);
                                assert(solves(p@, seq![s] + rest));
                                assert(r.1 == rest);
                                assert(goals_of(visited@).take(v0.len() as int) =~= goals_of(
                                    visited@,
                                ).take(vi.len() as int).take(v0.len() as int));
                            }
                            return true;
                        }
                        steps.pop();
                        assert(steps@ =~= s0);
                        proof {
                            lemma_state_space(space);
                            lemma_distinct_bound(goals_of(visited@), state_space(space));
                            lemma_explored_extend(goals_of(vi), goals_of(visited@), start + 1, vi.len() as int);
                            assert(goals_of(visited@)[start as int] == goals_of(visited@).take(vi.len() as int)[start as int]);
                            assert(extends(goals_of(v0), goals_of(visited@))) by {
                                assert(goals_of(visited@).take(v0.len() as int) =~= goals_of(visited@).take(vi.len() as int).take(v0.len() as int));
                            }
                            assert forall|k: int|
                                0 <= k < i + 1 implies #[trigger] successor(local@, cands@[k]) is Some ==> goals_of(
                                    visited@,
                                ).contains(clean_view(successor(local@, cands@[k])->Some_0).goals) by {
                                if k < i && successor(local@, cands@[k]) is Some {
                                    let x = clean_view(successor(local@, cands@[k])->Some_0).goals;
                                    let m = choose|m: int| 0 <= m < goals_of(vi).len() && goals_of(vi)[m] == x;
                                    assert(goals_of(visited@)[m] == goals_of(visited@).take(vi.len() as int)[m]);
                                }
                            }
                        }
                    },
                    Err(_) => {
                        assert(successor(local@, s) is None);
                    },
                }
            },
            Err(_) => {
                assert(successor(local@, s) is None);
            },
        }
        i = i + 1;
    }
    proof {
        assert forall|s: Step| #[trigger] successor(local@, s) is Some implies goals_of(visited@).contains(
            clean_view(successor(local@, s)->Some_0).goals,
        ) by {
            assert(cands@.contains(s));
            let k = choose|k: int| 0 <= k < cands@.len() && cands@[k] == s;
            assert(successor(local@, cands@[k]) is Some);
        }
        assert(at_first(goals_of(visited@)[start as int]) == local@);
    }
    false
}

/// When `vs` holds the canonical goals of `p`, and every state of `vs` has goals and
/// leads only to states of `vs`, no sequence of steps solves `p`.
proof fn lemma_unsolvable(vs: Seq<Seq<GoalV>>, p: ProofView, steps: Seq<Step>)
    requires
        explored(vs, 0, vs.len() as int),
        vs.contains(clean_view(p).goals),
    ensures
        !solves(p, steps),
    decreases steps.len(),
{
    let c = clean_view(p);
    let k = choose|k: int| 0 <= k < vs.len() && vs[k] == c.goals;
    assert(at_first(vs[k]) == c);
    if steps.len() > 0 {
        if successor(c, steps[0]) is Some {
            lemma_unsolvable(vs, successor(c, steps[0])->Some_0, steps.drop_first());
        }
    }
}

/// Searches for a sequence of ranked steps that closes every goal. The search is
/// exhaustive: `Err` means that no such sequence exists.
pub fn auto(proof: &Proof) -> (r: Result<Vec<Step>, ()>)
    ensures
        match r {
            Ok(steps) => search_outcome(proof@).0 && steps@ == search_outcome(proof@).1 && solves(
                proof@,
                steps@,
            ),
            Err(()) => !search_outcome(proof@).0 && forall|steps: Seq<Step>| !solves(proof@, steps),
        },
        clean_view(proof@).goals.len() == 0 ==> (r matches Ok(steps) && steps@.len() == 0),
{
    let ghost space = goals_forms(proof@.goals);
    proof {
        lemma_goals_forms(proof@.goals);
    }
    let mut visited: Vec<Proof> = Vec::new();
    let mut steps: Vec<Step> = Vec::new();
    assert(goals_of(visited@) =~= Seq::<Seq<GoalV>>::empty());
    if search(
        proof,
        &mut visited,
        &mut steps,
        Ghost(space),
        Ghost(state_space(space).len()),
    ) {
        assert(steps@.skip(0) =~= steps@);
        Ok(steps)
    } else {
        proof {
            assert forall|st: Seq<Step>| !solves(proof@, st) by {
                lemma_unsolvable(goals_of(visited@), proof@, st);
            }
        }
        Err(())
    }
}

} // verus!
