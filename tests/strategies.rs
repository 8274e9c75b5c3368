use poulet::logic::Prop;
use poulet::strategies::{Proof, StrategyArg};
use std::rc::Rc;

#[test]
fn strategies_new() {
    let mut new_proof = Proof::new();
    assert_eq!(new_proof, Proof::from_goals(vec![]));
    assert_eq!(new_proof.number_of_goals(), 0);
    assert_eq!(new_proof.active_goal_index(), 0);
    assert_eq!(new_proof.set_active_goal(0), Err("Out of bounds"));
    assert_eq!(new_proof.set_active_goal(1), Err("Out of bounds"));
    assert_eq!(
        new_proof.execute(&StrategyArg::Intro),
        Err("No goal to execute strategy on.")
    );

    let mut new_proof = Proof::new();
    assert_eq!(new_proof, Proof::from_goals(vec![]));
    assert_eq!(new_proof.number_of_goals(), 0);
    assert_eq!(new_proof.active_goal_index(), 0);
    assert_eq!(new_proof.set_active_goal(0), Err("Out of bounds"));
    assert_eq!(new_proof.set_active_goal(1), Err("Out of bounds"));
    assert_eq!(new_proof.intro(), Err("No goal to test strategy"));
    assert_eq!(new_proof.split(), Err("No goal to test strategy"));
    assert_eq!(new_proof.left(), Err("No goal to test strategy"));
    assert_eq!(new_proof.right(), Err("No goal to test strategy"));
    assert_eq!(new_proof.hyp_left(0), Err("No goal to test strategy"));
    assert_eq!(new_proof.hyp_right(0), Err("No goal to test strategy"));
    assert_eq!(new_proof.false_is_hyp(), Err("No goal to test strategy"));
    assert_eq!(
        new_proof.goal_is_exact_hyp(0),
        Err("No goal to test strategy")
    );
    assert_eq!(new_proof.assumption(), Err("No goal to test strategy"));
    assert_eq!(new_proof.apply(0), Err("No goal to test strategy"));
    assert_eq!(
        new_proof.apply_in_hyp(0, 0, false),
        Err("No goal to test strategy")
    );
}

#[test]
fn strategies_add_goals() {
    for _ in 0..2 {
        let mut proof = Proof::new();

        proof.add_goal_from_prop(Prop::True);
        assert_eq!(proof.number_of_goals(), 1);
        assert_eq!(proof.active_goal_index(), 0);
        assert_eq!(proof.set_active_goal(0), Ok(()));
        assert_eq!(proof.set_active_goal(1), Err("Out of bounds"));
        assert_eq!(proof.goals, vec![(Rc::new(Prop::True), vec![])]);

        proof.add_goal_from_prop(Prop::False);
        assert_eq!(proof.number_of_goals(), 2);
        assert_eq!(proof.active_goal_index(), 0);
        assert_eq!(proof.set_active_goal(0), Ok(()));
        assert_eq!(proof.set_active_goal(1), Ok(()));
        assert_eq!(
            proof.goals,
            vec![
                (Rc::new(Prop::True), vec![]),
                (Rc::new(Prop::False), vec![])
            ]
        );
    }
}

#[test]
fn strategies_clean() {
    for _ in 0..2 {
        let mut proof = Proof::from_goals(vec![
            (Rc::new(Prop::False), vec![]),
            (Rc::new(Prop::True), vec![]),
            (Rc::new(Prop::from_name(String::from("name"))), vec![]),
            (Rc::new(Prop::True), vec![]),
            (
                Rc::new(Prop::imply(Prop::True, Prop::False)),
                vec![
                    Rc::new(Prop::from_name(String::from("b"))),
                    Rc::new(Prop::from_name(String::from("a"))),
                    Rc::new(Prop::True),
                ],
            ),
            (
                Rc::new(Prop::False),
                vec![
                    Rc::new(Prop::from_name(String::from("b"))),
                    Rc::new(Prop::from_name(String::from("a"))),
                    Rc::new(Prop::True),
                ],
            ),
        ]);
        let cleaned_proof = Proof::from_goals(vec![
            (Rc::new(Prop::from_name(String::from("name"))), vec![]),
            (
                Rc::new(Prop::imply(Prop::True, Prop::False)),
                vec![
                    Rc::new(Prop::from_name(String::from("a"))),
                    Rc::new(Prop::from_name(String::from("b"))),
                ],
            ),
            (Rc::new(Prop::False), vec![]),
            (
                Rc::new(Prop::False),
                vec![
                    Rc::new(Prop::from_name(String::from("a"))),
                    Rc::new(Prop::from_name(String::from("b"))),
                ],
            ),
        ]);

        proof.clean();

        assert_eq!(proof, cleaned_proof);
    }
}

#[test]
fn strategies_intro() {
    let mut proof_before = Proof::from_goals(vec![
        (
            Rc::new(Prop::imply(
                Prop::from_name(String::from("a")),
                Prop::from_name(String::from("b")),
            )),
            vec![],
        ),
        (Rc::new(Prop::True), vec![]),
        (Rc::new(Prop::False), vec![]),
        (Rc::new(Prop::from_name(String::from("name"))), vec![]),
        (
            Rc::new(Prop::and(
                Prop::from_name(String::from("a")),
                Prop::from_name(String::from("b")),
            )),
            vec![],
        ),
        (
            Rc::new(Prop::or(
                Prop::from_name(String::from("a")),
                Prop::from_name(String::from("b")),
            )),
            vec![],
        ),
    ]);

    let proof_after = Proof::from_goals(vec![
        (
            Rc::new(Prop::from_name(String::from("b"))),
            vec![Rc::new(Prop::from_name(String::from("a")))],
        ),
        (Rc::new(Prop::True), vec![]),
        (Rc::new(Prop::False), vec![]),
        (Rc::new(Prop::from_name(String::from("name"))), vec![]),
        (
            Rc::new(Prop::and(
                Prop::from_name(String::from("a")),
                Prop::from_name(String::from("b")),
            )),
            vec![],
        ),
        (
            Rc::new(Prop::or(
                Prop::from_name(String::from("a")),
                Prop::from_name(String::from("b")),
            )),
            vec![],
        ),
    ]);

    assert_eq!(proof_before.execute(&StrategyArg::Intro), Ok(()));
    assert_eq!(proof_before, proof_after);
    let _ = proof_before.set_active_goal(1);
    assert_eq!(
        proof_before.execute(&StrategyArg::Intro),
        Err("Strategy could not be applied")
    );
    let _ = proof_before.set_active_goal(2);
    assert_eq!(
        proof_before.execute(&StrategyArg::Intro),
        Err("Strategy could not be applied")
    );
    let _ = proof_before.set_active_goal(3);
    assert_eq!(
        proof_before.execute(&StrategyArg::Intro),
        Err("Strategy could not be applied")
    );
    let _ = proof_before.set_active_goal(4);
    assert_eq!(
        proof_before.execute(&StrategyArg::Intro),
        Err("Strategy could not be applied")
    );
    let _ = proof_before.set_active_goal(5);
    assert_eq!(
        proof_before.execute(&StrategyArg::Intro),
        Err("Strategy could not be applied")
    );

    let mut proof_before = Proof::from_goals(vec![(
        Rc::new(Prop::imply(
            Prop::from_name(String::from("a")),
            Prop::from_name(String::from("b")),
        )),
        vec![],
    )]);

    let proof_after = Proof::from_goals(vec![(
        Rc::new(Prop::from_name(String::from("b"))),
        vec![Rc::new(Prop::from_name(String::from("a")))],
    )]);

    assert_eq!(proof_before.intro(), Ok(()));
    assert_eq!(proof_before, proof_after);
}

#[test]
fn split() {
    let mut proof_before = Proof::from_goals(vec![
        (
            Rc::new(Prop::and(
                Prop::from_name(String::from("a")),
                Prop::from_name(String::from("b")),
            )),
            vec![],
        ),
        (Rc::new(Prop::True), vec![]),
        (Rc::new(Prop::False), vec![]),
        (Rc::new(Prop::from_name(String::from("name"))), vec![]),
        (
            Rc::new(Prop::imply(
                Prop::from_name(String::from("a")),
                Prop::from_name(String::from("b")),
            )),
            vec![],
        ),
        (
            Rc::new(Prop::or(
                Prop::from_name(String::from("a")),
                Prop::from_name(String::from("b")),
            )),
            vec![],
        ),
    ]);

    let proof_after = Proof::from_goals(vec![
        (Rc::new(Prop::from_name(String::from("a"))), vec![]),
        (Rc::new(Prop::True), vec![]),
        (Rc::new(Prop::False), vec![]),
        (Rc::new(Prop::from_name(String::from("name"))), vec![]),
        (
            Rc::new(Prop::imply(
                Prop::from_name(String::from("a")),
                Prop::from_name(String::from("b")),
            )),
            vec![],
        ),
        (
            Rc::new(Prop::or(
                Prop::from_name(String::from("a")),
                Prop::from_name(String::from("b")),
            )),
            vec![],
        ),
        (Rc::new(Prop::from_name(String::from("b"))), vec![]),
    ]);

    assert_eq!(proof_before.execute(&StrategyArg::Split), Ok(()));
    assert_eq!(proof_before, proof_after);
    assert_eq!(
        proof_before.execute(&StrategyArg::Split),
        Err("Strategy could not be applied")
    );
    for i in 1..7 {
        let _ = proof_before.set_active_goal(i);
        assert_eq!(
            proof_before.execute(&StrategyArg::Split),
            Err("Strategy could not be applied")
        );
    }
}

#[test]
fn hyp_split() {
    let mut proof_before = Proof::from_goals(vec![(
        Rc::new(Prop::False),
        vec![
            Rc::new(Prop::and(
                Prop::from_name(String::from("a")),
                Prop::from_name(String::from("b")),
            )),
            Rc::new(Prop::True),
            Rc::new(Prop::False),
            Rc::new(Prop::from_name(String::from("name"))),
            Rc::new(Prop::imply(
                Prop::from_name(String::from("a")),
                Prop::from_name(String::from("b")),
            )),
            Rc::new(Prop::or(
                Prop::from_name(String::from("a")),
                Prop::from_name(String::from("b")),
            )),
        ],
    )]);

    let proof_after = Proof::from_goals(vec![(
        Rc::new(Prop::False),
        vec![
            Rc::new(Prop::from_name(String::from("a"))),
            Rc::new(Prop::True),
            Rc::new(Prop::False),
            Rc::new(Prop::from_name(String::from("name"))),
            Rc::new(Prop::imply(
                Prop::from_name(String::from("a")),
                Prop::from_name(String::from("b")),
            )),
            Rc::new(Prop::or(
                Prop::from_name(String::from("a")),
                Prop::from_name(String::from("b")),
            )),
            Rc::new(Prop::from_name(String::from("b"))),
        ],
    )]);

    assert_eq!(proof_before.execute(&StrategyArg::HypSplit(0)), Ok(()));
    assert_eq!(proof_before, proof_after);
    for i in 1..7 {
        assert_eq!(
            proof_before.execute(&StrategyArg::HypSplit(i)),
            Err("Strategy could not be applied")
        );
    }
    assert_eq!(
        proof_before.execute(&StrategyArg::HypSplit(8)),
        Err("Out of bounds")
    )
}

#[test]
fn or_split() {
    let mut proof_before_left = Proof::from_goals(vec![
        (
            Rc::new(Prop::or(
                Prop::from_name(String::from("a")),
                Prop::from_name(String::from("b")),
            )),
            vec![],
        ),
        (Rc::new(Prop::True), vec![]),
        (Rc::new(Prop::False), vec![]),
        (Rc::new(Prop::from_name(String::from("name"))), vec![]),
        (
            Rc::new(Prop::imply(
                Prop::from_name(String::from("a")),
                Prop::from_name(String::from("b")),
            )),
            vec![],
        ),
        (
            Rc::new(Prop::and(
                Prop::from_name(String::from("a")),
                Prop::from_name(String::from("b")),
            )),
            vec![],
        ),
    ]);

    let tail = || {
        vec![
            (Rc::new(Prop::True), vec![]),
            (Rc::new(Prop::False), vec![]),
            (Rc::new(Prop::from_name(String::from("name"))), vec![]),
            (
                Rc::new(Prop::imply(
                    Prop::from_name(String::from("a")),
                    Prop::from_name(String::from("b")),
                )),
                vec![],
            ),
            (
                Rc::new(Prop::and(
                    Prop::from_name(String::from("a")),
                    Prop::from_name(String::from("b")),
                )),
                vec![],
            ),
        ]
    };

    let mut goals_left = vec![(Rc::new(Prop::from_name(String::from("a"))), vec![])];
    goals_left.extend(tail());
    let proof_after_left = Proof::from_goals(goals_left);

    let mut proof_before_right = proof_before_left.clone();

    let mut goals_right = vec![(Rc::new(Prop::from_name(String::from("b"))), vec![])];
    goals_right.extend(tail());
    let proof_after_right = Proof::from_goals(goals_right);

    assert_eq!(
        proof_before_left.execute(&StrategyArg::OrSplit(true)),
        Ok(())
    );
    assert_eq!(proof_before_left, proof_after_left);
    assert_eq!(
        proof_before_right.execute(&StrategyArg::OrSplit(false)),
        Ok(())
    );
    assert_eq!(proof_before_right, proof_after_right);

    assert_eq!(
        proof_before_left.execute(&StrategyArg::OrSplit(true)),
        Err("Strategy could not be applied")
    );
    for i in 1..7 {
        let _ = proof_before_left.set_active_goal(i);
        assert_eq!(
            proof_before_left.execute(&StrategyArg::OrSplit(true)),
            Err("Strategy could not be applied")
        );
    }
}

#[test]
fn applicable_strategies() {
    let empty_proof = Proof::new();
    assert_eq!(empty_proof.get_applicable_strategies(), vec![]);

    let only_name = Proof::from_goals(vec![(Rc::new(Prop::Name(String::from("a"))), vec![])]);
    assert_eq!(only_name.get_applicable_strategies(), vec![]);

    let only_true = Proof::from_goals(vec![(Rc::new(Prop::True), vec![])]);
    assert_eq!(only_true.get_applicable_strategies(), vec![]);

    let only_false = Proof::from_goals(vec![(Rc::new(Prop::False), vec![])]);
    assert_eq!(only_false.get_applicable_strategies(), vec![]);

    let one_intro = Proof::from_goals(vec![(
        Rc::new(Prop::imply(
            Prop::Name(String::from("a")),
            Prop::Name(String::from("b")),
        )),
        vec![],
    )]);
    assert_eq!(
        one_intro.get_applicable_strategies(),
        vec![(3, 0, StrategyArg::Intro)]
    );

    let one_split = Proof::from_goals(vec![(
        Rc::new(Prop::and(
            Prop::Name(String::from("a")),
            Prop::Name(String::from("b")),
        )),
        vec![],
    )]);
    assert_eq!(
        one_split.get_applicable_strategies(),
        vec![(3, 0, StrategyArg::Split)]
    );

    let left_right_no_false = Proof::from_goals(vec![(
        Rc::new(Prop::or(
            Prop::Name(String::from("a")),
            Prop::Name(String::from("b")),
        )),
        vec![],
    )]);
    assert_eq!(
        left_right_no_false.get_applicable_strategies(),
        vec![
            (3, 0, StrategyArg::OrSplit(false)),
            (3, 0, StrategyArg::OrSplit(true))
        ]
    );

    let left_right_false = Proof::from_goals(vec![(
        Rc::new(Prop::or(Prop::Name(String::from("a")), Prop::False)),
        vec![],
    )]);
    assert_eq!(
        left_right_false.get_applicable_strategies(),
        vec![
            (3, 0, StrategyArg::OrSplit(true)),
            (4, 0, StrategyArg::OrSplit(false))
        ]
    );

    let left_false_right = Proof::from_goals(vec![(
        Rc::new(Prop::or(Prop::False, Prop::Name(String::from("b")))),
        vec![],
    )]);
    assert_eq!(
        left_false_right.get_applicable_strategies(),
        vec![
            (3, 0, StrategyArg::OrSplit(false)),
            (4, 0, StrategyArg::OrSplit(true))
        ]
    );
}
