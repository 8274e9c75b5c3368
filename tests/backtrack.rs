use poulet::logic::Prop;
use poulet::strategies::{Proof, StrategyArg};

#[test]
fn empty() {
    let empty_proof = Proof::new();
    let result = poulet::backtrack::auto(&empty_proof);
    assert_eq!(result, Ok(vec![]))
}

#[test]
fn impossible() {
    let mut proof = Proof::new();
    proof.add_goal_from_prop(Prop::Name(String::from("a")));
    let result = poulet::backtrack::auto(&proof);
    assert_eq!(result, Err(()));
}

#[test]
fn simple_ok() {
    let mut proof = Proof::new();
    proof.add_goal_from_prop(Prop::imply(
        Prop::Name(String::from("a")),
        Prop::Name(String::from("a")),
    ));
    assert_eq!(
        poulet::backtrack::auto(&proof),
        Ok(vec![(3, 0, StrategyArg::Intro), (1, 0, StrategyArg::Exact(0))])
    )
}

#[test]
fn simple_fail() {
    let mut proof = Proof::new();
    proof.add_goal_from_prop(Prop::imply(
        Prop::Name(String::from("a")),
        Prop::Name(String::from("b")),
    ));
    assert_eq!(poulet::backtrack::auto(&proof), Err(()))
}

#[test]
fn already_visited_state_simple() {
    let mut proof = Proof::new();
    proof.add_goal_from_prop(Prop::or(
        Prop::imply(Prop::Name(String::from("a")), Prop::Name(String::from("b"))),
        Prop::imply(Prop::Name(String::from("a")), Prop::Name(String::from("b"))),
    ));
    assert_eq!(poulet::backtrack::auto(&proof), Err(()))
}
