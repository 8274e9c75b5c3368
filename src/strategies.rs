use crate::applicable::{applicable, goals_steps, push_goal_steps, sort_step_list, Step};
use crate::canon::{
    canon_goal, canon_goals, canon_hyps, formula_order, goal_cmp, goal_order, insert_sorted,
    lemma_canon_goals_idempotent, lemma_goal_cmp_zero, lemma_insert_sorted_at, list_cmp, GoalV,
};
use crate::logic::{conj, imp, rpn_text, Formula, Prop};
use crate::persist::{goal_lines, prefixed};
use std::rc::Rc;
use vstd::prelude::*;

verus! {

/// A goal: a conclusion and its hypotheses.
pub type Goal = (Rc<Prop>, Vec<Rc<Prop>>);

/// An ordered list of goals and the index of the active one.
#[derive(Clone, Debug, PartialEq, Eq)]
pub struct Proof {
    pub goals: Vec<Goal>,
    active_goal: usize,
}

/// A tactic with its arguments.
#[derive(Clone, Copy, Debug, PartialEq, Eq, PartialOrd, Ord)]
pub enum StrategyArg {
    Intro,
    Split,
    HypSplit(usize),
    OrSplit(bool),
    HypOrSplit(usize, bool),
    FalseIsHyp,
    Exact(usize),
    Apply(usize),
    ApplyIn(usize, usize, bool),
}

/// Why a tactic did not apply.
#[derive(Clone, Copy, Debug, PartialEq, Eq)]
pub enum TacticError {
    NoGoal,
    OutOfRange,
    NotApplicable,
}

pub open spec fn hyps_model(hs: Seq<Rc<Prop>>) -> Seq<Formula> {
    hs.map_values(|h: Rc<Prop>| h@)
}

pub open spec fn goal_model(g: Goal) -> GoalV {
    (g.0@, hyps_model(g.1@))
}

pub open spec fn goals_model(gs: Seq<Goal>) -> Seq<GoalV> {
    gs.map_values(|g: Goal| goal_model(g))
}

/// Model of a proof: the goals and the active index.
pub struct ProofView {
    pub goals: Seq<GoalV>,
    pub active: int,
}

impl View for Proof {
    type V = ProofView;

    closed spec fn view(&self) -> ProofView {
        ProofView { goals: goals_model(self.goals@), active: self.active_goal as int }
    }
}

/// The active index is that of a goal, or zero when there is none.
pub open spec fn active_ok(p: ProofView) -> bool {
    if p.goals.len() == 0 {
        p.active == 0
    } else {
        0 <= p.active < p.goals.len()
    }
}

// ---------------------------------------------------------------------------
// What each tactic does to the goals.
// ---------------------------------------------------------------------------

/// The goals after `t` on the goal at `a`, or why `t` does not apply.
pub open spec fn tactic_result(goals: Seq<GoalV>, a: int, t: StrategyArg) -> Result<
    Seq<GoalV>,
    TacticError,
> {
    if goals.len() == 0 {
        Err(TacticError::NoGoal)
    } else {
        let c = goals[a].0;
        let hs = goals[a].1;
        match t {
            StrategyArg::Intro => match c {
                Formula::Imp(x, y) => Ok(goals.update(a, (*y, hs.push(*x)))),
                _ => Err(TacticError::NotApplicable),
            },
            StrategyArg::Split => match c {
                Formula::Conj(x, y) => Ok(goals.update(a, (*x, hs)).push((*y, hs))),
                _ => Err(TacticError::NotApplicable),
            },
            StrategyArg::HypSplit(i) => if i >= hs.len() {
                Err(TacticError::OutOfRange)
            } else {
                match hs[i as int] {
                    Formula::Conj(x, y) => Ok(goals.update(a, (c, hs.update(i as int, *x).push(*y)))),
                    _ => Err(TacticError::NotApplicable),
                }
            },
            StrategyArg::OrSplit(left) => match c {
                Formula::Disj(x, y) => Ok(
                    goals.update(
                        a,
                        (
                            if left {
                                *x
                            } else {
                                *y
                            },
                            hs,
                        ),
                    ),
                ),
                _ => Err(TacticError::NotApplicable),
            },
            StrategyArg::HypOrSplit(i, left) => if i >= hs.len() {
                Err(TacticError::OutOfRange)
            } else {
                match hs[i as int] {
                    Formula::Disj(x, y) => Ok(
                        goals.update(
                            a,
                            (
                                c,
                                hs.update(
                                    i as int,
                                    if left {
                                        *x
                                    } else {
                                        *y
                                    },
                                ),
                            ),
                        ),
                    ),
                    _ => Err(TacticError::NotApplicable),
                }
            },
            StrategyArg::FalseIsHyp => if hs.contains(Formula::Bottom) {
                Ok(goals.update(a, (Formula::Top, hs)))
            } else {
                Err(TacticError::NotApplicable)
            },
            StrategyArg::Exact(i) => if i >= hs.len() {
                Err(TacticError::OutOfRange)
            } else if hs[i as int] == c {
                Ok(goals.update(a, (Formula::Top, hs)))
            } else {
                Err(TacticError::NotApplicable)
            },
            StrategyArg::Apply(i) => if i >= hs.len() {
                Err(TacticError::OutOfRange)
            } else {
                match hs[i as int] {
                    Formula::Imp(x, y) => if *y == c {
                        Ok(goals.update(a, (*x, hs)))
                    } else {
                        Err(TacticError::NotApplicable)
                    },
                    _ => Err(TacticError::NotApplicable),
                }
            },
            StrategyArg::ApplyIn(target, source, keep_old) => if target >= hs.len() || source
                >= hs.len() {
                Err(TacticError::OutOfRange)
            } else {
                match hs[source as int] {
                    Formula::Imp(x, y) => if *x == hs[target as int] {
                        Ok(
                            goals.update(
                                a,
                                (
                                    c,
                                    if keep_old {
                                        hs.push(*y)
                                    } else {
                                        hs.update(target as int, *y)
                                    },
                                ),
                            ),
                        )
                    } else {
                        Err(TacticError::NotApplicable)
                    },
                    _ => Err(TacticError::NotApplicable),
                }
            },
        }
    }
}

/// Messages of `Proof::execute`.
pub open spec fn execute_message(e: TacticError) -> &'static str {
    match e {
        TacticError::NoGoal => "No goal to execute strategy on.",
        TacticError::OutOfRange => "Out of bounds",
        TacticError::NotApplicable => "Strategy could not be applied",
    }
}

/// Messages of the tactic methods of `Proof` (`intro`, `split`, ...).
pub open spec fn tactic_message(e: TacticError) -> &'static str {
    match e {
        TacticError::NoGoal => "No goal to test strategy",
        TacticError::OutOfRange => "Out of bounds",
        TacticError::NotApplicable => "Strategy could not be applied",
    }
}

/// The goals and active index after `t`, or why it does not apply.
pub open spec fn tactic_on(p: ProofView, t: StrategyArg) -> Result<ProofView, TacticError> {
    match tactic_result(p.goals, p.active, t) {
        Ok(gs) => Ok(ProofView { goals: gs, active: p.active }),
        Err(e) => Err(e),
    }
}

pub open spec fn clean_view(p: ProofView) -> ProofView {
    ProofView { goals: canon_goals(p.goals), active: 0 }
}

fn message_for_execute(e: TacticError) -> (r: &'static str)
    ensures
        r == execute_message(e),
{
    match e {
        TacticError::NoGoal => "No goal to execute strategy on.",
        TacticError::OutOfRange => "Out of bounds",
        TacticError::NotApplicable => "Strategy could not be applied",
    }
}

fn message_for_tactic(e: TacticError) -> (r: &'static str)
    ensures
        r == tactic_message(e),
{
    match e {
        TacticError::NoGoal => "No goal to test strategy",
        TacticError::OutOfRange => "Out of bounds",
        TacticError::NotApplicable => "Strategy could not be applied",
    }
}

/// A copy of a hypothesis list; the propositions are shared.
pub fn copy_hyps(hs: &Vec<Rc<Prop>>) -> (r: Vec<Rc<Prop>>)
    ensures
        r@ == hs@,
{
    let mut out: Vec<Rc<Prop>> = Vec::new();
    let mut i: usize = 0;
    while i < hs.len()
        invariant
            i <= hs.len(),
            out@ == hs@.take(i as int),
        decreases hs.len() - i,
    {
        out.push(hs[i].clone());
        i = i + 1;
        assert(out@ =~= hs@.take(i as int));
    }
    assert(hs@.take(hs.len() as int) =~= hs@);
    out
}

impl Proof {
    /// The invariant of a proof: when there are goals, the active index is one of them.
    pub open spec fn well_formed(&self) -> bool {
        active_ok(self@)
    }

    pub fn new() -> (r: Proof)
        ensures
            r@.goals.len() == 0,
            r@.active == 0,
            r.well_formed(),
    {
        Proof { goals: Vec::new(), active_goal: 0 }
    }

    /// A proof with the given goals, the first one active.
    pub fn from_goals(goals: Vec<Goal>) -> (r: Proof)
        ensures
            r@.goals == goals_model(goals@),
            r@.active == 0,
            r.well_formed(),
    {
        Proof { goals, active_goal: 0 }
    }

    pub fn number_of_goals(&self) -> (r: usize)
        ensures
            r == self@.goals.len(),
    {
        self.goals.len()
    }

    pub fn active_goal_index(&self) -> (r: usize)
        ensures
            r == self@.active,
    {
        self.active_goal
    }

    pub fn set_active_goal(&mut self, i: usize) -> (r: Result<(), &'static str>)
        ensures
            i < old(self)@.goals.len() ==> r == Ok::<(), &'static str>(()) && final(self)@.active
                == i,
            i >= old(self)@.goals.len() ==> r == Err::<(), &'static str>("Out of bounds")
                && final(self)@.active == old(self)@.active,
            final(self)@.goals == old(self)@.goals,
            old(self).well_formed() ==> final(self).well_formed(),
    {
        if i >= self.goals.len() {
            Err("Out of bounds")
        } else {
            self.active_goal = i;
            Ok(())
        }
    }

    /// Appends a goal with no hypotheses.
    pub fn add_goal_from_prop(&mut self, goal: Prop)
        requires
            old(self)@.goals.len() < usize::MAX,
        ensures
            final(self)@.goals == old(self)@.goals.push((goal@, Seq::empty())),
            final(self)@.active == old(self)@.active,
            old(self).well_formed() ==> final(self).well_formed(),
    {
        self.goals.push((Rc::new(goal), Vec::new()));
        proof {
            assert(hyps_model(Seq::<Rc<Prop>>::empty()) =~= Seq::<Formula>::empty());
            assert(goals_model(self.goals@) =~= goals_model(old(self).goals@).push(
                (goal@, Seq::empty()),
            ));
        }
    }

    /// Appends a hypothesis to the active goal.
    pub fn add_hyp_from_prop(&mut self, hyp: Prop)
        requires
            old(self).well_formed(),
            old(self)@.goals.len() > 0,
        ensures
            final(self)@.goals == old(self)@.goals.update(
                old(self)@.active,
                (old(self)@.goals[old(self)@.active].0, old(self)@.goals[old(self)@.active].1.push(hyp@)),
            ),
            final(self)@.active == old(self)@.active,
            final(self).well_formed(),
    {
        let a = self.active_goal;
        let concl = self.goals[a].0.clone();
        let mut hyps = copy_hyps(&self.goals[a].1);
        hyps.push(Rc::new(hyp));
        assert(hyps_model(hyps@) =~= hyps_model(self.goals@[a as int].1@).push(hyp@));
        self.replace_goal(a, concl, hyps);
    }

    fn replace_goal(&mut self, a: usize, concl: Rc<Prop>, hyps: Vec<Rc<Prop>>)
        requires
            a < old(self)@.goals.len(),
        ensures
            final(self)@.goals == old(self)@.goals.update(a as int, (concl@, hyps_model(hyps@))),
            final(self)@.active == old(self)@.active,
    {
        let ghost before = self.goals@;
        self.goals.set(a, (concl, hyps));
        proof {
            assert(goals_model(self.goals@) =~= goals_model(before).update(
                a as int,
                (concl@, hyps_model(hyps@)),
            ));
        }
    }
}

fn find_false(hs: &Vec<Rc<Prop>>) -> (r: bool)
    ensures
        r == hyps_model(hs@).contains(Formula::Bottom),
{
    let mut i: usize = 0;
    while i < hs.len()
        invariant
            i <= hs.len(),
            forall|k: int| 0 <= k < i ==> (#[trigger] hs@[k])@ != Formula::Bottom,
        decreases hs.len() - i,
    {
        if hs[i].is_false() {
            assert(hyps_model(hs@)[i as int] == Formula::Bottom);
            return true;
        }
        i = i + 1;
    }
    assert(!hyps_model(hs@).contains(Formula::Bottom)) by {
        if hyps_model(hs@).contains(Formula::Bottom) {
            let k = choose|k: int|
                0 <= k < hyps_model(hs@).len() && hyps_model(hs@)[k] == Formula::Bottom;
            assert((hs@[k])@ == Formula::Bottom);
        }
    }
    false
}

impl Proof {
    /// Applies `t` to the active goal; on failure nothing changes.
    fn apply_tactic(&mut self, t: &StrategyArg) -> (r: Result<(), TacticError>)
        requires
            old(self).well_formed(),
        ensures
            final(self).well_formed(),
            match tactic_on(old(self)@, *t) {
                Ok(v) => r == Ok::<(), TacticError>(()) && final(self)@ == v,
                Err(e) => r == Err::<(), TacticError>(e) && final(self)@ == old(self)@,
            },
    {
        if self.goals.len() == 0 {
            return Err(TacticError::NoGoal);
        }
        let ghost before = self@;
        let a = self.active_goal;
        let concl: Rc<Prop> = self.goals[a].0.clone();
        let n = self.goals[a].1.len();
        let ghost c = before.goals[a as int].0;
        let ghost hs = before.goals[a as int].1;
        assert(concl@ == c);
        assert(hs == hyps_model(self.goals@[a as int].1@));
        assert(n == hs.len());
        match *t {
            StrategyArg::Intro => {
                match &*concl {
                    Prop::Implies(x, y) => {
                        let mut hyps = copy_hyps(&self.goals[a].1);
                        hyps.push(x.clone());
                        assert(hyps_model(hyps@) =~= hs.push((**x)@));
                        self.replace_goal(a, y.clone(), hyps);
                        Ok(())
                    },
                    _ => Err(TacticError::NotApplicable),
                }
            },
            StrategyArg::Split => {
                match &*concl {
                    Prop::And(x, y) => {
                        let hyps1 = copy_hyps(&self.goals[a].1);
                        let hyps2 = copy_hyps(&self.goals[a].1);
                        assert(hyps_model(hyps1@) == hs);
                        assert(hyps_model(hyps2@) == hs);
                        self.replace_goal(a, x.clone(), hyps1);
                        let ghost mid = self.goals@;
                        self.goals.push((y.clone(), hyps2));
                        assert(goals_model(self.goals@) =~= goals_model(mid).push(((**y)@, hs)));
                        Ok(())
                    },
                    _ => Err(TacticError::NotApplicable),
                }
            },
            StrategyArg::HypSplit(i) => {
                if i >= n {
                    return Err(TacticError::OutOfRange);
                }
                let h: Rc<Prop> = self.goals[a].1[i].clone();
                assert(h@ == hs[i as int]);
                match &*h {
                    Prop::And(x, y) => {
                        let mut hyps = copy_hyps(&self.goals[a].1);
                        hyps.set(i, x.clone());
                        hyps.push(y.clone());
                        assert(hyps_model(hyps@) =~= hs.update(i as int, (**x)@).push((**y)@));
                        self.replace_goal(a, concl.clone(), hyps);
                        Ok(())
                    },
                    _ => Err(TacticError::NotApplicable),
                }
            },
            StrategyArg::OrSplit(left) => {
                match &*concl {
                    Prop::Or(x, y) => {
                        let hyps = copy_hyps(&self.goals[a].1);
                        assert(hyps_model(hyps@) == hs);
                        let side = if left {
                            x.clone()
                        } else {
                            y.clone()
                        };
                        self.replace_goal(a, side, hyps);
                        Ok(())
                    },
                    _ => Err(TacticError::NotApplicable),
                }
            },
            StrategyArg::HypOrSplit(i, left) => {
                if i >= n {
                    return Err(TacticError::OutOfRange);
                }
                let h: Rc<Prop> = self.goals[a].1[i].clone();
                assert(h@ == hs[i as int]);
                match &*h {
                    Prop::Or(x, y) => {
                        let side = if left {
                            x.clone()
                        } else {
                            y.clone()
                        };
                        let mut hyps = copy_hyps(&self.goals[a].1);
                        hyps.set(i, side);
                        assert(hyps_model(hyps@) =~= hs.update(i as int, side@));
                        self.replace_goal(a, concl.clone(), hyps);
                        Ok(())
                    },
                    _ => Err(TacticError::NotApplicable),
                }
            },
            StrategyArg::FalseIsHyp => {
                if find_false(&self.goals[a].1) {
                    let hyps = copy_hyps(&self.goals[a].1);
                    assert(hyps_model(hyps@) == hs);
                    self.replace_goal(a, Rc::new(Prop::True), hyps);
                    Ok(())
                } else {
                    Err(TacticError::NotApplicable)
                }
            },
            StrategyArg::Exact(i) => {
                if i >= n {
                    return Err(TacticError::OutOfRange);
                }
                if self.goals[a].1[i].same(&concl) {
                    let hyps = copy_hyps(&self.goals[a].1);
                    assert(hyps_model(hyps@) == hs);
                    self.replace_goal(a, Rc::new(Prop::True), hyps);
                    Ok(())
                } else {
                    Err(TacticError::NotApplicable)
                }
            },
            StrategyArg::Apply(i) => {
                if i >= n {
                    return Err(TacticError::OutOfRange);
                }
                let h: Rc<Prop> = self.goals[a].1[i].clone();
                assert(h@ == hs[i as int]);
                match &*h {
                    Prop::Implies(x, y) => {
                        if (**y).same(&concl) {
                            let hyps = copy_hyps(&self.goals[a].1);
                            assert(hyps_model(hyps@) == hs);
                            self.replace_goal(a, x.clone(), hyps);
                            Ok(())
                        } else {
                            Err(TacticError::NotApplicable)
                        }
                    },
                    _ => Err(TacticError::NotApplicable),
                }
            },
            StrategyArg::ApplyIn(target, source, keep_old) => {
                if target >= n || source >= n {
                    return Err(TacticError::OutOfRange);
                }
                let h: Rc<Prop> = self.goals[a].1[source].clone();
                assert(h@ == hs[source as int]);
                assert((self.goals@[a as int].1@[target as int])@ == hs[target as int]);
                match &*h {
                    Prop::Implies(x, y) => {
                        if (**x).same(&self.goals[a].1[target]) {
                            let mut hyps = copy_hyps(&self.goals[a].1);
                            if keep_old {
                                hyps.push(y.clone());
                                assert(hyps_model(hyps@) =~= hs.push((**y)@));
                            } else {
                                hyps.set(target, y.clone());
                                assert(hyps_model(hyps@) =~= hs.update(target as int, (**y)@));
                            }
                            self.replace_goal(a, concl.clone(), hyps);
                            Ok(())
                        } else {
                            Err(TacticError::NotApplicable)
                        }
                    },
                    _ => Err(TacticError::NotApplicable),
                }
            },
        }
    }

    /// Applies a tactic to the active goal.
    pub fn execute(&mut self, strat: &StrategyArg) -> (r: Result<(), &'static str>)
        requires
            old(self).well_formed(),
        ensures
            final(self).well_formed(),
            match tactic_on(old(self)@, *strat) {
                Ok(v) => r == Ok::<(), &'static str>(()) && final(self)@ == v,
                Err(e) => r == Err::<(), &'static str>(execute_message(e)) && final(self)@ == old(
                    self,
                )@,
            },
    {
        match self.apply_tactic(strat) {
            Ok(()) => Ok(()),
            Err(e) => Err(message_for_execute(e)),
        }
    }
}

/// The result and the state after a tactic method of `Proof` applied `t` to `before`.
pub open spec fn tactic_outcome(
    before: ProofView,
    t: StrategyArg,
    after: ProofView,
    r: Result<(), &'static str>,
) -> bool {
    match tactic_on(before, t) {
        Ok(v) => r == Ok::<(), &'static str>(()) && after == v,
        Err(e) => r == Err::<(), &'static str>(tactic_message(e)) && after == before,
    }
}

/// Backward use of a hypothesis in another: `source` is `A => B` and `target` is `B`;
/// `A` is appended, or replaces `target` unless `keep_old`.
pub open spec fn apply_in_backward(
    goals: Seq<GoalV>,
    a: int,
    target: int,
    source: int,
    keep_old: bool,
) -> Result<Seq<GoalV>, TacticError> {
    if goals.len() == 0 {
        Err(TacticError::NoGoal)
    } else {
        let c = goals[a].0;
        let hs = goals[a].1;
        if target < 0 || target >= hs.len() || source < 0 || source >= hs.len() {
            Err(TacticError::OutOfRange)
        } else {
            match hs[source] {
                Formula::Imp(x, y) => if *y == hs[target] {
                    Ok(
                        goals.update(
                            a,
                            (
                                c,
                                if keep_old {
                                    hs.push(*x)
                                } else {
                                    hs.update(target, *x)
                                },
                            ),
                        ),
                    )
                } else {
                    Err(TacticError::NotApplicable)
                },
                _ => Err(TacticError::NotApplicable),
            }
        }
    }
}

/// Closes the active goal when one of its hypotheses is its conclusion.
pub open spec fn assumption_result(goals: Seq<GoalV>, a: int) -> Result<Seq<GoalV>, TacticError> {
    if goals.len() == 0 {
        Err(TacticError::NoGoal)
    } else if goals[a].1.contains(goals[a].0) {
        Ok(goals.update(a, (Formula::Top, goals[a].1)))
    } else {
        Err(TacticError::NotApplicable)
    }
}

pub open spec fn result_outcome(
    before: ProofView,
    res: Result<Seq<GoalV>, TacticError>,
    after: ProofView,
    r: Result<(), &'static str>,
) -> bool {
    match res {
        Ok(gs) => r == Ok::<(), &'static str>(()) && after.goals == gs && after.active
            == before.active,
        Err(e) => r == Err::<(), &'static str>(tactic_message(e)) && after == before,
    }
}

impl Proof {
    fn tactic(&mut self, t: StrategyArg) -> (r: Result<(), &'static str>)
        requires
            old(self).well_formed(),
        ensures
            final(self).well_formed(),
            tactic_outcome(old(self)@, t, final(self)@, r),
    {
        match self.apply_tactic(&t) {
            Ok(()) => Ok(()),
            Err(e) => Err(message_for_tactic(e)),
        }
    }

    /// From `A => B`, proves `B` with `A` as a new last hypothesis.
    pub fn intro(&mut self) -> (r: Result<(), &'static str>)
        requires
            old(self).well_formed(),
        ensures
            final(self).well_formed(),
            tactic_outcome(old(self)@, StrategyArg::Intro, final(self)@, r),
    {
        self.tactic(StrategyArg::Intro)
    }

    /// From `A ^ B`, proves `A` here and `B` in a new last goal.
    pub fn split(&mut self) -> (r: Result<(), &'static str>)
        requires
            old(self).well_formed(),
        ensures
            final(self).well_formed(),
            tactic_outcome(old(self)@, StrategyArg::Split, final(self)@, r),
    {
        self.tactic(StrategyArg::Split)
    }

    /// Hypothesis `i`, `A ^ B`, becomes `A`; `B` is appended.
    pub fn hyp_split(&mut self, i: usize) -> (r: Result<(), &'static str>)
        requires
            old(self).well_formed(),
        ensures
            final(self).well_formed(),
            tactic_outcome(old(self)@, StrategyArg::HypSplit(i), final(self)@, r),
    {
        self.tactic(StrategyArg::HypSplit(i))
    }

    /// From `A | B`, proves `A` (`left`) or `B`.
    pub fn or_split(&mut self, left: bool) -> (r: Result<(), &'static str>)
        requires
            old(self).well_formed(),
        ensures
            final(self).well_formed(),
            tactic_outcome(old(self)@, StrategyArg::OrSplit(left), final(self)@, r),
    {
        self.tactic(StrategyArg::OrSplit(left))
    }

    pub fn left(&mut self) -> (r: Result<(), &'static str>)
        requires
            old(self).well_formed(),
        ensures
            final(self).well_formed(),
            tactic_outcome(old(self)@, StrategyArg::OrSplit(true), final(self)@, r),
    {
        self.or_split(true)
    }

    pub fn right(&mut self) -> (r: Result<(), &'static str>)
        requires
            old(self).well_formed(),
        ensures
            final(self).well_formed(),
            tactic_outcome(old(self)@, StrategyArg::OrSplit(false), final(self)@, r),
    {
        self.or_split(false)
    }

    /// Hypothesis `i`, `A | B`, becomes `A` (`left`) or `B`.
    pub fn hyp_or_split(&mut self, left: bool, i: usize) -> (r: Result<(), &'static str>)
        requires
            old(self).well_formed(),
        ensures
            final(self).well_formed(),
            tactic_outcome(old(self)@, StrategyArg::HypOrSplit(i, left), final(self)@, r),
    {
        self.tactic(StrategyArg::HypOrSplit(i, left))
    }

    pub fn hyp_left(&mut self, i: usize) -> (r: Result<(), &'static str>)
        requires
            old(self).well_formed(),
        ensures
            final(self).well_formed(),
            tactic_outcome(old(self)@, StrategyArg::HypOrSplit(i, true), final(self)@, r),
    {
        self.hyp_or_split(true, i)
    }

    pub fn hyp_right(&mut self, i: usize) -> (r: Result<(), &'static str>)
        requires
            old(self).well_formed(),
        ensures
            final(self).well_formed(),
            tactic_outcome(old(self)@, StrategyArg::HypOrSplit(i, false), final(self)@, r),
    {
        self.hyp_or_split(false, i)
    }

    /// Closes the active goal when `False` is among its hypotheses.
    pub fn false_is_hyp(&mut self) -> (r: Result<(), &'static str>)
        requires
            old(self).well_formed(),
        ensures
            final(self).well_formed(),
            tactic_outcome(old(self)@, StrategyArg::FalseIsHyp, final(self)@, r),
    {
        self.tactic(StrategyArg::FalseIsHyp)
    }

    /// Closes the active goal when hypothesis `i` is its conclusion.
    pub fn goal_is_exact_hyp(&mut self, i: usize) -> (r: Result<(), &'static str>)
        requires
            old(self).well_formed(),
        ensures
            final(self).well_formed(),
            tactic_outcome(old(self)@, StrategyArg::Exact(i), final(self)@, r),
    {
        self.tactic(StrategyArg::Exact(i))
    }

    /// Closes the active goal when some hypothesis is its conclusion.
    pub fn assumption(&mut self) -> (r: Result<(), &'static str>)
        requires
            old(self).well_formed(),
        ensures
            final(self).well_formed(),
            result_outcome(old(self)@, assumption_result(old(self)@.goals, old(self)@.active), final(self)@, r),
    {
        if self.goals.len() == 0 {
            return Err("No goal to test strategy");
        }
        let ghost before = self@;
        let size = self.goals[self.active_goal].1.len();
        let mut i: usize = 0;
        while i < size
            invariant
                self.well_formed(),
                self@ == before,
                before == old(self)@,
                before.goals.len() > 0,
                size == before.goals[before.active].1.len(),
                i <= size,
                forall|k: int|
                    0 <= k < i ==> #[trigger] before.goals[before.active].1[k]
                        != before.goals[before.active].0,
            decreases size - i,
        {
            match self.goal_is_exact_hyp(i) {
                Ok(()) => {
                    assert(tactic_on(before, StrategyArg::Exact(i)) is Ok);
                    assert(before.goals[before.active].1[i as int] == before.goals[before.active].0);
                    assert(before.goals[before.active].1.contains(before.goals[before.active].0));
                    assert(self@.goals == before.goals.update(
                        before.active,
                        (Formula::Top, before.goals[before.active].1),
                    ));
                    return Ok(());
                },
                _ => {},
            }
            i = i + 1;
        }
        Err("Strategy could not be applied")
    }

    /// Hypothesis `i`, `A => B`, turns a conclusion `B` into `A`.
    pub fn apply(&mut self, i: usize) -> (r: Result<(), &'static str>)
        requires
            old(self).well_formed(),
        ensures
            final(self).well_formed(),
            tactic_outcome(old(self)@, StrategyArg::Apply(i), final(self)@, r),
    {
        self.tactic(StrategyArg::Apply(i))
    }

    /// Hypothesis `i_applied`, `A => B`, used backward on hypothesis `i_target`, `B`:
    /// `A` is appended when `keep_old`, else it replaces `B`.
    pub fn apply_in_hyp(&mut self, i_target: usize, i_applied: usize, keep_old: bool) -> (r: Result<
        (),
        &'static str,
    >)
        requires
            old(self).well_formed(),
        ensures
            final(self).well_formed(),
            result_outcome(
                old(self)@,
                apply_in_backward(
                    old(self)@.goals,
                    old(self)@.active,
                    i_target as int,
                    i_applied as int,
                    keep_old,
                ),
                final(self)@,
                r,
            ),
    {
        if self.goals.len() == 0 {
            return Err("No goal to test strategy");
        }
        let ghost before = self@;
        let a = self.active_goal;
        let concl: Rc<Prop> = self.goals[a].0.clone();
        let n = self.goals[a].1.len();
        let ghost hs = before.goals[a as int].1;
        assert(concl@ == before.goals[a as int].0);
        assert(hs == hyps_model(self.goals@[a as int].1@));
        if i_target >= n {
            return Err("Out of bounds");
        }
        if i_applied >= n {
            return Err("Out of bounds");
        }
        let h: Rc<Prop> = self.goals[a].1[i_applied].clone();
        assert(h@ == hs[i_applied as int]);
        assert((self.goals@[a as int].1@[i_target as int])@ == hs[i_target as int]);
        match &*h {
            Prop::Implies(x, y) => {
                if (**y).same(&self.goals[a].1[i_target]) {
                    let mut hyps = copy_hyps(&self.goals[a].1);
                    if keep_old {
                        hyps.push(x.clone());
                        assert(hyps_model(hyps@) =~= hs.push((**x)@));
                    } else {
                        hyps.set(i_target, x.clone());
                        assert(hyps_model(hyps@) =~= hs.update(i_target as int, (**x)@));
                    }
                    self.replace_goal(a, concl, hyps);
                    Ok(())
                } else {
                    Err("Strategy could not be applied")
                }
            },
            _ => Err("Strategy could not be applied"),
        }
    }
}

// ---------------------------------------------------------------------------
// Canonical form.
// ---------------------------------------------------------------------------

pub(crate) fn contains_prop(hs: &Vec<Rc<Prop>>, x: &Prop) -> (r: bool)
    ensures
        r == hyps_model(hs@).contains(x@),
{
    let mut i: usize = 0;
    while i < hs.len()
        invariant
            i <= hs.len(),
            forall|k: int| 0 <= k < i ==> (#[trigger] hs@[k])@ != x@,
        decreases hs.len() - i,
    {
        if hs[i].same(x) {
            assert(hyps_model(hs@)[i as int] == x@);
            return true;
        }
        i = i + 1;
    }
    assert(!hyps_model(hs@).contains(x@)) by {
        if hyps_model(hs@).contains(x@) {
            let k = choose|k: int| 0 <= k < hyps_model(hs@).len() && hyps_model(hs@)[k] == x@;
            assert((hs@[k])@ == x@);
        }
    }
    false
}

fn insert_prop_sorted(hs: &mut Vec<Rc<Prop>>, x: Rc<Prop>)
    ensures
        hyps_model(final(hs)@) == insert_sorted(hyps_model(old(hs)@), x@, formula_order()),
{
    let ghost m = hyps_model(hs@);
    let mut j: usize = hs.len();
    while j > 0 && hs[j - 1].compare(&x) > 0
        invariant
            j <= hs.len(),
            hs@ == old(hs)@,
            m == hyps_model(hs@),
            forall|k: int| j <= k < m.len() ==> #[trigger] formula_order()(m[k], x@) > 0,
        decreases j,
    {
        j = j - 1;
    }
    proof {
        lemma_insert_sorted_at(m, x@, formula_order(), j as int);
    }
    hs.insert(j, x);
    assert(hyps_model(hs@) =~= m.insert(j as int, x@));
}

fn canon_hyp_list(hs: &Vec<Rc<Prop>>) -> (r: Vec<Rc<Prop>>)
    ensures
        hyps_model(r@) == canon_hyps(hyps_model(hs@)),
{
    let ghost m = hyps_model(hs@);
    let mut acc: Vec<Rc<Prop>> = Vec::new();
    let mut i: usize = 0;
    assert(m.take(0) =~= Seq::<Formula>::empty());
    assert(hyps_model(acc@) =~= Seq::<Formula>::empty());
    while i < hs.len()
        invariant
            i <= hs.len(),
            m == hyps_model(hs@),
            hyps_model(acc@) == canon_hyps(m.take(i as int)),
        decreases hs.len() - i,
    {
        let x = hs[i].clone();
        assert(m.take(i + 1).drop_last() =~= m.take(i as int));
        assert(m.take(i + 1).last() == x@);
        if x.is_true() || contains_prop(&acc, &x) {
        } else {
            insert_prop_sorted(&mut acc, x);
        }
        i = i + 1;
    }
    assert(m.take(hs.len() as int) =~= m);
    acc
}

fn compare_lists(a: &Vec<Rc<Prop>>, b: &Vec<Rc<Prop>>) -> (r: i8)
    ensures
        r as int == list_cmp(hyps_model(a@), hyps_model(b@)),
{
    let ghost ma = hyps_model(a@);
    let ghost mb = hyps_model(b@);
    let mut i: usize = 0;
    assert(ma.skip(0) =~= ma);
    assert(mb.skip(0) =~= mb);
    while i < a.len() && i < b.len()
        invariant
            ma == hyps_model(a@),
            mb == hyps_model(b@),
            i <= a.len(),
            i <= b.len(),
            list_cmp(ma, mb) == list_cmp(ma.skip(i as int), mb.skip(i as int)),
        decreases a.len() - i,
    {
        let c = a[i].compare(&b[i]);
        assert(ma.skip(i as int)[0] == ma[i as int]);
        assert(mb.skip(i as int)[0] == mb[i as int]);
        if c != 0 {
            return c;
        }
        assert(ma.skip(i as int).drop_first() =~= ma.skip(i + 1));
        assert(mb.skip(i as int).drop_first() =~= mb.skip(i + 1));
        i = i + 1;
    }
    if a.len() == b.len() {
        0
    } else if i == a.len() {
        -1
    } else {
        1
    }
}

fn compare_goals(a: &Goal, b: &Goal) -> (r: i8)
    ensures
        r as int == goal_cmp(goal_model(*a), goal_model(*b)),
{
    let c = a.0.compare(&b.0);
    if c != 0 {
        c
    } else {
        compare_lists(&a.1, &b.1)
    }
}

fn contains_goal(gs: &Vec<Goal>, x: &Goal) -> (r: bool)
    ensures
        r == goals_model(gs@).contains(goal_model(*x)),
{
    let mut i: usize = 0;
    while i < gs.len()
        invariant
            i <= gs.len(),
            forall|k: int| 0 <= k < i ==> goal_model(#[trigger] gs@[k]) != goal_model(*x),
        decreases gs.len() - i,
    {
        let c = compare_goals(&gs[i], x);
        proof {
            lemma_goal_cmp_zero(goal_model(gs@[i as int]), goal_model(*x));
        }
        if c == 0 {
            assert(goals_model(gs@)[i as int] == goal_model(*x));
            return true;
        }
        i = i + 1;
    }
    assert(!goals_model(gs@).contains(goal_model(*x))) by {
        if goals_model(gs@).contains(goal_model(*x)) {
            let k = choose|k: int|
                0 <= k < goals_model(gs@).len() && goals_model(gs@)[k] == goal_model(*x);
            assert(goal_model(gs@[k]) == goal_model(*x));
        }
    }
    false
}

fn insert_goal_sorted(gs: &mut Vec<Goal>, x: Goal)
    ensures
        goals_model(final(gs)@) == insert_sorted(goals_model(old(gs)@), goal_model(x), goal_order()),
{
    let ghost m = goals_model(gs@);
    let mut j: usize = gs.len();
    while j > 0 && compare_goals(&gs[j - 1], &x) > 0
        invariant
            j <= gs.len(),
            gs@ == old(gs)@,
            m == goals_model(gs@),
            forall|k: int| j <= k < m.len() ==> #[trigger] goal_order()(m[k], goal_model(x)) > 0,
        decreases j,
    {
        j = j - 1;
    }
    proof {
        lemma_insert_sorted_at(m, goal_model(x), goal_order(), j as int);
    }
    gs.insert(j, x);
    assert(goals_model(gs@) =~= m.insert(j as int, goal_model(x)));
}

fn canon_goal_list(gs: &Vec<Goal>) -> (r: Vec<Goal>)
    ensures
        goals_model(r@) == canon_goals(goals_model(gs@)),
{
    let ghost m = goals_model(gs@);
    let mut acc: Vec<Goal> = Vec::new();
    let mut i: usize = 0;
    assert(m.take(0) =~= Seq::<GoalV>::empty());
    assert(goals_model(acc@) =~= Seq::<GoalV>::empty());
    while i < gs.len()
        invariant
            i <= gs.len(),
            m == goals_model(gs@),
            goals_model(acc@) == canon_goals(m.take(i as int)),
        decreases gs.len() - i,
    {
        let cg: Goal = (gs[i].0.clone(), canon_hyp_list(&gs[i].1));
        assert(m.take(i + 1).drop_last() =~= m.take(i as int));
        assert(m.take(i + 1).last() == m[i as int]);
        assert(goal_model(cg) == canon_goal(m[i as int]));
        if gs[i].0.is_true() || contains_goal(&acc, &cg) {
        } else {
            insert_goal_sorted(&mut acc, cg);
        }
        i = i + 1;
    }
    assert(m.take(gs.len() as int) =~= m);
    acc
}

impl Proof {
    /// The canonical form of this proof, which is left as it is.
    pub fn cleaned(&self) -> (r: Proof)
        ensures
            r@ == clean_view(self@),
            r.well_formed(),
    {
        Proof { goals: canon_goal_list(&self.goals), active_goal: 0 }
    }

    /// A copy that shares the propositions.
    pub fn duplicate(&self) -> (r: Proof)
        ensures
            r@ == self@,
    {
        let mut goals: Vec<Goal> = Vec::new();
        let mut i: usize = 0;
        while i < self.goals.len()
            invariant
                i <= self.goals.len(),
                goals_model(goals@) == goals_model(self.goals@).take(i as int),
            decreases self.goals.len() - i,
        {
            let g: Goal = (self.goals[i].0.clone(), copy_hyps(&self.goals[i].1));
            assert(goal_model(g) == goal_model(self.goals@[i as int]));
            let ghost before = goals@;
            goals.push(g);
            assert(goals_model(goals@) =~= goals_model(before).push(goal_model(g)));
            i = i + 1;
            assert(goals_model(goals@) =~= goals_model(self.goals@).take(i as int));
        }
        assert(goals_model(self.goals@).take(self.goals.len() as int) =~= goals_model(self.goals@));
        Proof { goals, active_goal: self.active_goal }
    }

    /// Whether both proofs have the same goals.
    pub fn same_goals(&self, other: &Proof) -> (r: bool)
        ensures
            r == (self@.goals == other@.goals),
    {
        let ghost a = goals_model(self.goals@);
        let ghost b = goals_model(other.goals@);
        if self.goals.len() != other.goals.len() {
            assert(a.len() != b.len());
            return false;
        }
        let mut i: usize = 0;
        while i < self.goals.len()
            invariant
                i <= self.goals.len(),
                self.goals.len() == other.goals.len(),
                a == goals_model(self.goals@),
                b == goals_model(other.goals@),
                forall|k: int| 0 <= k < i ==> a[k] == b[k],
            decreases self.goals.len() - i,
        {
            let c = compare_goals(&self.goals[i], &other.goals[i]);
            proof {
                lemma_goal_cmp_zero(a[i as int], b[i as int]);
            }
            if c != 0 {
                return false;
            }
            i = i + 1;
        }
        assert(a =~= b);
        true
    }

    /// The saved form of goal `g`.
    pub(crate) fn goal_to_lines(&self, g: usize) -> (r: Vec<String>)
        requires
            g < self@.goals.len(),
        ensures
            r@.map_values(|l: String| l@) == goal_lines(self@.goals[g as int]),
    {
        proof {
            reveal_strlit("G:");
            reveal_strlit("H:");
            assert("G:"@ =~= seq!['G', ':']);
            assert("H:"@ =~= seq!['H', ':']);
        }
        let goal = &self.goals[g];
        let ghost hs = hyps_model(goal.1@);
        let mut out: Vec<String> = Vec::new();
        out.push(prefixed("G:", &goal.0));
        let mut k: usize = 0;
        assert(out@.map_values(|l: String| l@) =~= seq![seq!['G', ':'] + rpn_text(goal.0@)]
            + hs.take(0).map_values(|h: Formula| seq!['H', ':'] + rpn_text(h)));
        while k < goal.1.len()
            invariant
                k <= goal.1.len(),
                hs == hyps_model(goal.1@),
                "H:"@ == seq!['H', ':'],
                out@.map_values(|l: String| l@) == seq![seq!['G', ':'] + rpn_text(goal.0@)]
                    + hs.take(k as int).map_values(|h: Formula| seq!['H', ':'] + rpn_text(h)),
            decreases goal.1.len() - k,
        {
            let h: &Prop = &goal.1[k];
            let line = prefixed("H:", h);
            assert(hs[k as int] == h@);
            assert(line@ == seq!['H', ':'] + rpn_text(hs[k as int]));
            let ghost before = out@;
            out.push(line);
            k = k + 1;
            assert(out@.map_values(|l: String| l@) =~= before.map_values(|l: String| l@).push(
                seq!['H', ':'] + rpn_text(hs[k - 1]),
            ));
            assert(hs.take(k as int).map_values(|h: Formula| seq!['H', ':'] + rpn_text(h))
                =~= hs.take(k - 1).map_values(|h: Formula| seq!['H', ':'] + rpn_text(h)).push(
                seq!['H', ':'] + rpn_text(hs[k - 1]),
            ));
            assert(out@.map_values(|l: String| l@) =~= seq![seq!['G', ':'] + rpn_text(goal.0@)]
                + hs.take(k as int).map_values(|h: Formula| seq!['H', ':'] + rpn_text(h)));
        }
        assert(hs.take(goal.1.len() as int) =~= hs);
        out
    }

    /// Canonical form: in each goal the hypotheses sorted, without repeats and
    /// without `True`; the goals sorted, without repeats and without those whose
    /// conclusion is `True`; the first goal active.
    pub fn clean(&mut self)
        ensures
            final(self)@ == clean_view(old(self)@),
            final(self).well_formed(),
    {
        let goals = canon_goal_list(&self.goals);
        self.goals = goals;
        self.active_goal = 0;
    }
}

/// Canonicalising a proof twice gives what canonicalising it once gives.
pub proof fn lemma_clean_idempotent(p: ProofView)
    ensures
        clean_view(clean_view(p)) == clean_view(p),
{
    lemma_canon_goals_idempotent(p.goals);
}

impl Proof {
    /// Every (priority, goal index, tactic) that would succeed with that goal active,
    /// sorted by priority, then goal index, then tactic.
    pub fn get_applicable_strategies(&self) -> (r: Vec<Step>)
        ensures
            r@ == applicable(self@),
    {
        let ghost gm = goals_model(self.goals@);
        let mut raw: Vec<Step> = Vec::new();
        let mut gi: usize = 0;
        while gi < self.goals.len()
            invariant
                gi <= self.goals.len(),
                gm == goals_model(self.goals@),
                raw@ == goals_steps(gm, gi as int),
            decreases self.goals.len() - gi,
        {
            let ghost prev = raw@;
            push_goal_steps(&mut raw, gi, &self.goals[gi]);
            assert(raw@ == goals_steps(gm, gi + 1));
            gi = gi + 1;
        }
        sort_step_list(&raw)
    }
}

// ---------------------------------------------------------------------------
// Laws of the tactics.
// ---------------------------------------------------------------------------

/// Intro on a conclusion `a => b` succeeds: the conclusion becomes `b` and `a` is the
/// new last hypothesis; no other goal changes. On any other conclusion it fails as not
/// applicable.
pub proof fn lemma_intro(p: ProofView, a: Formula, b: Formula)
    requires
        active_ok(p),
        p.goals.len() > 0,
    ensures
        p.goals[p.active].0 == imp(a, b) ==> tactic_on(p, StrategyArg::Intro) is Ok && ({
            let q = tactic_on(p, StrategyArg::Intro)->Ok_0;
            &&& q.goals.len() == p.goals.len()
            &&& q.active == p.active
            &&& q.goals[p.active].0 == b
            &&& q.goals[p.active].1 == p.goals[p.active].1.push(a)
            &&& forall|j: int| 0 <= j < p.goals.len() && j != p.active ==> q.goals[j] == p.goals[j]
        }),
        !(p.goals[p.active].0 is Imp) ==> tactic_on(p, StrategyArg::Intro) == Err::<
            ProofView,
            TacticError,
        >(TacticError::NotApplicable),
{
}

/// Split on a conclusion `a ^ b` adds exactly one goal: the active goal now concludes
/// `a`, the new last goal concludes `b`, and both keep the hypotheses of the split goal.
pub proof fn lemma_split(p: ProofView, a: Formula, b: Formula)
    requires
        active_ok(p),
        p.goals.len() > 0,
        p.goals[p.active].0 == conj(a, b),
    ensures
        tactic_on(p, StrategyArg::Split) is Ok,
        ({
            let q = tactic_on(p, StrategyArg::Split)->Ok_0;
            &&& q.goals.len() == p.goals.len() + 1
            &&& q.goals[p.active] == (a, p.goals[p.active].1)
            &&& q.goals[q.goals.len() - 1] == (b, p.goals[p.active].1)
            &&& forall|j: int| 0 <= j < p.goals.len() && j != p.active ==> q.goals[j] == p.goals[j]
        }),
{
}

/// A forward use of hypothesis `source` in hypothesis `target` that succeeds keeps
/// every hypothesis and appends one when `keep_old`; otherwise it overwrites `target`
/// in place and keeps the others.
pub proof fn lemma_apply_in(p: ProofView, target: usize, source: usize, keep_old: bool)
    requires
        active_ok(p),
        tactic_on(p, StrategyArg::ApplyIn(target, source, keep_old)) is Ok,
    ensures
        ({
            let hs = p.goals[p.active].1;
            let q = tactic_on(p, StrategyArg::ApplyIn(target, source, keep_old))->Ok_0;
            let nh = q.goals[p.active].1;
            let b = *hs[source as int]->Imp_1;
            &&& q.goals.len() == p.goals.len()
            &&& q.goals[p.active].0 == p.goals[p.active].0
            &&& hs[source as int] is Imp
            &&& *hs[source as int]->Imp_0 == hs[target as int]
            &&& keep_old ==> nh == hs.push(b)
            &&& keep_old ==> nh.len() == hs.len() + 1 && forall|i: int|
                0 <= i < hs.len() ==> nh[i] == hs[i]
            &&& !keep_old ==> nh.len() == hs.len() && nh[target as int] == b && forall|i: int|
                0 <= i < hs.len() && i != target ==> nh[i] == hs[i]
        }),
{
}

} // verus!
