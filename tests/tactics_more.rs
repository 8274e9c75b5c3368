use poulet::logic::Prop;
use poulet::strategies::{Proof, StrategyArg};
use std::rc::Rc;

fn name(s: &str) -> Prop {
    Prop::from_name(String::from(s))
}

fn rc(p: Prop) -> Rc<Prop> {
    Rc::new(p)
}

#[test]
fn clean_twice_equals_clean_once() {
    let mut proof = Proof::from_goals(vec![
        (rc(name("b")), vec![rc(name("c")), rc(Prop::True), rc(name("a")), rc(name("c"))]),
        (rc(Prop::True), vec![rc(name("z"))]),
        (rc(name("b")), vec![rc(name("a")), rc(name("c"))]),
        (rc(Prop::imply(name("a"), name("b"))), vec![]),
    ]);
    let _ = proof.set_active_goal(2);
    proof.clean();
    let once = proof.clone();
    proof.clean();
    assert_eq!(proof, once);
    assert_eq!(proof.number_of_goals(), 2);
    assert_eq!(proof.active_goal_index(), 0);
    assert_eq!(proof.goals[0], (rc(name("b")), vec![rc(name("a")), rc(name("c"))]));
}

#[test]
fn intro_appends_antecedent_last() {
    let mut proof = Proof::from_goals(vec![(
        rc(Prop::imply(name("x"), Prop::and(name("y"), name("z")))),
        vec![rc(name("h0")), rc(name("h1"))],
    )]);
    assert_eq!(proof.execute(&StrategyArg::Intro), Ok(()));
    assert_eq!(
        proof.goals[0],
        (
            rc(Prop::and(name("y"), name("z"))),
            vec![rc(name("h0")), rc(name("h1")), rc(name("x"))]
        )
    );
    assert_eq!(proof.execute(&StrategyArg::Intro), Err("Strategy could not be applied"));
}

#[test]
fn split_adds_one_goal_with_same_hypotheses() {
    let mut proof = Proof::from_goals(vec![
        (rc(Prop::and(name("a"), name("b"))), vec![rc(name("h"))]),
        (rc(name("other")), vec![]),
    ]);
    assert_eq!(proof.split(), Ok(()));
    assert_eq!(proof.number_of_goals(), 3);
    assert_eq!(proof.goals[0], (rc(name("a")), vec![rc(name("h"))]));
    assert_eq!(proof.goals[1], (rc(name("other")), vec![]));
    assert_eq!(proof.goals[2], (rc(name("b")), vec![rc(name("h"))]));
    assert_eq!(proof.active_goal_index(), 0);
}

#[test]
fn apply_in_keep_old_appends() {
    let mut proof = Proof::from_goals(vec![(
        rc(name("goal")),
        vec![rc(name("a")), rc(Prop::imply(name("a"), name("b")))],
    )]);
    assert_eq!(proof.execute(&StrategyArg::ApplyIn(0, 1, true)), Ok(()));
    assert_eq!(
        proof.goals[0].1,
        vec![rc(name("a")), rc(Prop::imply(name("a"), name("b"))), rc(name("b"))]
    );
}

#[test]
fn apply_in_replaces_in_place() {
    let mut proof = Proof::from_goals(vec![(
        rc(name("goal")),
        vec![rc(name("a")), rc(Prop::imply(name("a"), name("b"))), rc(name("c"))],
    )]);
    assert_eq!(proof.execute(&StrategyArg::ApplyIn(0, 1, false)), Ok(()));
    assert_eq!(
        proof.goals[0].1,
        vec![rc(name("b")), rc(Prop::imply(name("a"), name("b"))), rc(name("c"))]
    );
    assert_eq!(
        proof.execute(&StrategyArg::ApplyIn(2, 1, false)),
        Err("Strategy could not be applied")
    );
    assert_eq!(proof.execute(&StrategyArg::ApplyIn(3, 1, false)), Err("Out of bounds"));
    assert_eq!(proof.execute(&StrategyArg::ApplyIn(0, 3, true)), Err("Out of bounds"));
}

#[test]
fn apply_in_hyp_works_backward() {
    let mut proof = Proof::from_goals(vec![(
        rc(name("goal")),
        vec![rc(name("b")), rc(Prop::imply(name("a"), name("b")))],
    )]);
    assert_eq!(proof.apply_in_hyp(0, 1, true), Ok(()));
    assert_eq!(
        proof.goals[0].1,
        vec![rc(name("b")), rc(Prop::imply(name("a"), name("b"))), rc(name("a"))]
    );
    assert_eq!(proof.apply_in_hyp(0, 1, false), Ok(()));
    assert_eq!(proof.goals[0].1[0], rc(name("a")));
    assert_eq!(proof.apply_in_hyp(0, 1, false), Err("Strategy could not be applied"));
    assert_eq!(proof.apply_in_hyp(5, 1, false), Err("Out of bounds"));
    assert_eq!(proof.apply_in_hyp(0, 5, false), Err("Out of bounds"));
}

#[test]
fn closing_tactics() {
    let mut proof = Proof::from_goals(vec![
        (rc(name("g")), vec![rc(name("x")), rc(name("g"))]),
        (rc(name("g")), vec![rc(Prop::False)]),
        (rc(name("g")), vec![rc(name("x"))]),
    ]);
    assert_eq!(proof.goal_is_exact_hyp(0), Err("Strategy could not be applied"));
    assert_eq!(proof.goal_is_exact_hyp(2), Err("Out of bounds"));
    assert_eq!(proof.execute(&StrategyArg::Exact(1)), Ok(()));
    assert_eq!(proof.goals[0].0, rc(Prop::True));

    let _ = proof.set_active_goal(1);
    assert_eq!(proof.false_is_hyp(), Ok(()));
    assert_eq!(proof.goals[1].0, rc(Prop::True));

    let _ = proof.set_active_goal(2);
    assert_eq!(proof.assumption(), Err("Strategy could not be applied"));
    assert_eq!(proof.execute(&StrategyArg::FalseIsHyp), Err("Strategy could not be applied"));
    proof.add_hyp_from_prop(name("g"));
    assert_eq!(proof.assumption(), Ok(()));
    assert_eq!(proof.goals[2].0, rc(Prop::True));
    proof.clean();
    assert_eq!(proof.number_of_goals(), 0);
}

#[test]
fn apply_and_hypothesis_disjunctions() {
    let mut proof = Proof::from_goals(vec![(
        rc(name("b")),
        vec![rc(Prop::imply(name("a"), name("b"))), rc(Prop::or(name("p"), name("q")))],
    )]);
    assert_eq!(proof.apply(1), Err("Strategy could not be applied"));
    assert_eq!(proof.apply(2), Err("Out of bounds"));
    assert_eq!(proof.apply(0), Ok(()));
    assert_eq!(proof.goals[0].0, rc(name("a")));
    assert_eq!(proof.hyp_right(1), Ok(()));
    assert_eq!(proof.goals[0].1[1], rc(name("q")));
    assert_eq!(proof.hyp_left(1), Err("Strategy could not be applied"));
    assert_eq!(proof.hyp_split(1), Err("Strategy could not be applied"));
    assert_eq!(proof.hyp_split(7), Err("Out of bounds"));
}

#[test]
fn ranking_of_hypotheses() {
    let proof = Proof::from_goals(vec![(
        rc(name("b")),
        vec![
            rc(Prop::imply(name("a"), name("b"))),
            rc(name("a")),
            rc(Prop::or(Prop::False, name("c"))),
            rc(Prop::and(name("d"), name("e"))),
            rc(Prop::False),
            rc(name("b")),
        ],
    )]);
    assert_eq!(
        proof.get_applicable_strategies(),
        vec![
            (0, 0, StrategyArg::FalseIsHyp),
            (1, 0, StrategyArg::Exact(5)),
            (2, 0, StrategyArg::HypOrSplit(2, false)),
            (2, 0, StrategyArg::Apply(0)),
            (4, 0, StrategyArg::HypSplit(3)),
            (4, 0, StrategyArg::HypOrSplit(2, true)),
            (4, 0, StrategyArg::ApplyIn(1, 0, true)),
        ]
    );
    let without_antecedent = Proof::from_goals(vec![(
        rc(name("b")),
        vec![rc(Prop::imply(name("a"), name("b")))],
    )]);
    assert_eq!(
        without_antecedent.get_applicable_strategies(),
        vec![(4, 0, StrategyArg::Apply(0))]
    );
}

#[test]
fn ranking_of_or_false_hypothesis_keeps_other_side() {
    let proof = Proof::from_goals(vec![(
        rc(name("c")),
        vec![rc(Prop::or(Prop::False, name("b"))), rc(Prop::or(name("a"), Prop::False))],
    )]);
    assert_eq!(
        proof.get_applicable_strategies(),
        vec![
            (2, 0, StrategyArg::HypOrSplit(0, false)),
            (2, 0, StrategyArg::HypOrSplit(1, true)),
            (4, 0, StrategyArg::HypOrSplit(0, true)),
            (4, 0, StrategyArg::HypOrSplit(1, false)),
        ]
    );
}

#[test]
fn auto_narrows_disjunctive_hypothesis_to_true_side() {
    let mut proof = Proof::new();
    proof.add_goal_from_prop(Prop::imply(Prop::or(Prop::False, name("b")), name("b")));
    assert_eq!(
        poulet::backtrack::auto(&proof),
        Ok(vec![
            (3, 0, StrategyArg::Intro),
            (2, 0, StrategyArg::HypOrSplit(0, false)),
            (1, 0, StrategyArg::Exact(0)),
        ])
    );
}

#[test]
fn ranking_of_or_false_conclusion_prefers_true_branch() {
    let proof = Proof::from_goals(vec![(
        rc(Prop::or(name("a"), Prop::False)),
        vec![rc(name("h"))],
    )]);
    let ranked = proof.get_applicable_strategies();
    assert_eq!(
        ranked,
        vec![(3, 0, StrategyArg::OrSplit(true)), (4, 0, StrategyArg::OrSplit(false))]
    );
}

#[test]
fn ranking_spans_all_goals() {
    let proof = Proof::from_goals(vec![
        (rc(Prop::and(name("a"), name("b"))), vec![]),
        (rc(name("c")), vec![rc(Prop::False)]),
    ]);
    assert_eq!(
        proof.get_applicable_strategies(),
        vec![(0, 1, StrategyArg::FalseIsHyp), (3, 0, StrategyArg::Split)]
    );
}

#[test]
fn auto_identity_then_replay_closes_everything() {
    let mut proof = Proof::new();
    proof.add_goal_from_prop(Prop::imply(name("a"), name("a")));
    let steps = poulet::backtrack::auto(&proof).unwrap();
    assert_eq!(steps, vec![(3, 0, StrategyArg::Intro), (1, 0, StrategyArg::Exact(0))]);
    for (_, goal, tactic) in steps {
        proof.clean();
        assert_eq!(proof.set_active_goal(goal), Ok(()));
        assert_eq!(proof.execute(&tactic), Ok(()));
    }
    proof.clean();
    assert_eq!(proof.number_of_goals(), 0);
}

#[test]
fn auto_solves_commuted_conjunction() {
    let mut proof = Proof::new();
    proof.add_goal_from_prop(Prop::imply(
        Prop::and(name("a"), name("b")),
        Prop::and(name("b"), name("a")),
    ));
    let steps = poulet::backtrack::auto(&proof).unwrap();
    assert!(!steps.is_empty());
    for (_, goal, tactic) in steps {
        proof.clean();
        assert_eq!(proof.set_active_goal(goal), Ok(()));
        assert_eq!(proof.execute(&tactic), Ok(()));
    }
    proof.clean();
    assert_eq!(proof.number_of_goals(), 0);
}

#[test]
fn auto_vacuous_when_every_goal_is_true() {
    let mut proof = Proof::new();
    proof.add_goal_from_prop(Prop::True);
    assert_eq!(poulet::backtrack::auto(&proof), Ok(vec![]));
}

#[test]
fn auto_fails_on_distinct_atoms() {
    let mut proof = Proof::new();
    proof.add_goal_from_prop(Prop::imply(name("a"), name("b")));
    proof.add_goal_from_prop(Prop::imply(name("a"), name("a")));
    assert_eq!(poulet::backtrack::auto(&proof), Err(()));
}

#[test]
fn auto_uses_false_hypothesis() {
    let mut proof = Proof::new();
    proof.add_goal_from_prop(Prop::imply(Prop::False, name("anything")));
    assert_eq!(
        poulet::backtrack::auto(&proof),
        Ok(vec![(3, 0, StrategyArg::Intro), (0, 0, StrategyArg::FalseIsHyp)])
    );
}
