use poulet::logic::Prop;
use poulet::session::{parse_input, read_command, Command, Reply};
use poulet::strategies::{Proof, StrategyArg};
use std::rc::Rc;

fn name(s: &str) -> Prop {
    Prop::from_name(String::from(s))
}

#[test]
fn commands_drive_a_proof() {
    let mut proof = Proof::new();
    let mut prevs: Vec<Proof> = vec![];
    assert_eq!(parse_input(&mut proof, &mut prevs, "  add_goal_rpn a b ^ b a ^ =>\n"), Ok(Reply::Done));
    assert_eq!(proof.number_of_goals(), 1);
    assert_eq!(parse_input(&mut proof, &mut prevs, "intro"), Ok(Reply::Done));
    assert_eq!(proof.goals[0].1, vec![Rc::new(Prop::and(name("a"), name("b")))]);
    assert_eq!(parse_input(&mut proof, &mut prevs, "hyp_split 0"), Ok(Reply::Done));
    assert_eq!(parse_input(&mut proof, &mut prevs, "split"), Ok(Reply::Done));
    assert_eq!(proof.number_of_goals(), 2);
    assert_eq!(parse_input(&mut proof, &mut prevs, "exact 1"), Ok(Reply::Done));
    assert_eq!(parse_input(&mut proof, &mut prevs, "set_active 2"), Ok(Reply::Done));
    assert_eq!(proof.active_goal_index(), 1);
    assert_eq!(parse_input(&mut proof, &mut prevs, "exact +0"), Ok(Reply::Done));
    assert_eq!(parse_input(&mut proof, &mut prevs, "clean"), Ok(Reply::Done));
    assert_eq!(proof.number_of_goals(), 0);
}

#[test]
fn command_errors() {
    let mut proof = Proof::new();
    let mut prevs: Vec<Proof> = vec![];
    assert_eq!(parse_input(&mut proof, &mut prevs, "frobnicate"), Err("Unknown command"));
    assert_eq!(parse_input(&mut proof, &mut prevs, "frob nicate"), Err("Unknown command"));
    assert_eq!(parse_input(&mut proof, &mut prevs, "intro"), Err("No goal to execute strategy on."));
    assert_eq!(parse_input(&mut proof, &mut prevs, "set_active 0"), Err("Invalid argument"));
    assert_eq!(parse_input(&mut proof, &mut prevs, "set_active x"), Err("Invalid argument"));
    assert_eq!(parse_input(&mut proof, &mut prevs, "set_active 1"), Err("Out of bounds"));
    assert_eq!(parse_input(&mut proof, &mut prevs, "exact -1"), Err("Invalid argument"));
    assert_eq!(
        parse_input(&mut proof, &mut prevs, "exact 99999999999999999999999"),
        Err("Invalid argument")
    );
    assert_eq!(
        parse_input(&mut proof, &mut prevs, "exact"),
        Err("missing argument: <hyp id (0..N)>")
    );
    assert_eq!(
        parse_input(&mut proof, &mut prevs, "set_active"),
        Err("missing argument: <goal index (1..N)>")
    );
    assert_eq!(
        parse_input(&mut proof, &mut prevs, "add_goal_rpn"),
        Err("missing argument: <proposition rpn format>")
    );
    assert_eq!(
        parse_input(&mut proof, &mut prevs, "add_goal_rpn a =>"),
        Err("During parsing of '=>', two items expected in accumulator, found one")
    );
    assert_eq!(
        parse_input(&mut proof, &mut prevs, "apply_in"),
        Err("missing arguments: <hyp id (0..N) target> <hyp id (0..N) to apply>")
    );
    assert_eq!(
        parse_input(&mut proof, &mut prevs, "apply_in 1"),
        Err("missing argument: <hyp id (0..N) to apply>")
    );
    assert_eq!(
        parse_input(&mut proof, &mut prevs, "apply_in 1 x"),
        Err("first argument incorrect: <hyp id (0..N) target>")
    );
    assert_eq!(
        parse_input(&mut proof, &mut prevs, "apply_in x 1"),
        Err("second argument incorrect: <hyp id (0..N) to apply>")
    );
    assert_eq!(
        parse_input(&mut proof, &mut prevs, "apply_in x y"),
        Err("arguments incorrect: <hyp id (0..N) target> <hyp id (0..N) to apply>")
    );
    assert_eq!(parse_input(&mut proof, &mut prevs, "back"), Err("Cannot go back further"));
    assert_eq!(parse_input(&mut proof, &mut prevs, "quit"), Ok(Reply::Quit));
    assert_eq!(parse_input(&mut proof, &mut prevs, "info"), Ok(Reply::Info));
}

#[test]
fn history_and_reset() {
    let mut proof = Proof::new();
    let mut prevs: Vec<Proof> = vec![];
    let before = proof.clone();
    assert_eq!(parse_input(&mut proof, &mut prevs, "add_goal_rpn a a =>"), Ok(Reply::Done));
    prevs.push(before);
    assert_eq!(parse_input(&mut proof, &mut prevs, "back"), Ok(Reply::Back));
    assert_eq!(proof.number_of_goals(), 0);
    assert!(prevs.is_empty());
    assert_eq!(parse_input(&mut proof, &mut prevs, "add_goal_rpn a a =>"), Ok(Reply::Done));
    prevs.push(Proof::new());
    assert_eq!(parse_input(&mut proof, &mut prevs, "purge"), Ok(Reply::Done));
    assert_eq!(proof.number_of_goals(), 0);
    assert!(prevs.is_empty());
}

#[test]
fn auto_command_solves_and_resets() {
    let mut proof = Proof::new();
    let mut prevs: Vec<Proof> = vec![];
    assert_eq!(parse_input(&mut proof, &mut prevs, "add_goal_rpn a a =>"), Ok(Reply::Done));
    assert_eq!(
        parse_input(&mut proof, &mut prevs, "auto"),
        Ok(Reply::Solved(vec![(3, 0, StrategyArg::Intro), (1, 0, StrategyArg::Exact(0))]))
    );
    assert_eq!(proof.number_of_goals(), 0);
    assert_eq!(parse_input(&mut proof, &mut prevs, "add_goal_rpn a b =>"), Ok(Reply::Done));
    assert_eq!(parse_input(&mut proof, &mut prevs, "auto"), Err("Could not solve using auto"));
    assert_eq!(proof.number_of_goals(), 1);
}

#[test]
fn file_commands_are_handed_back() {
    let mut proof = Proof::new();
    let mut prevs: Vec<Proof> = vec![];
    assert_eq!(
        parse_input(&mut proof, &mut prevs, "load   some/file.txt  "),
        Ok(Reply::Load(String::from("some/file.txt")))
    );
    assert_eq!(
        parse_input(&mut proof, &mut prevs, "save out"),
        Ok(Reply::Save(String::from("out")))
    );
    assert!(matches!(read_command("apply_in_keep 2  3"), Ok(Command::Run(StrategyArg::ApplyIn(2, 3, true)))));
    assert!(matches!(read_command("hyp_left 4"), Ok(Command::Run(StrategyArg::HypOrSplit(4, true)))));
    assert!(matches!(read_command("right"), Ok(Command::Run(StrategyArg::OrSplit(false)))));
}

#[test]
fn saved_lines_read_back() {
    let proof = Proof::from_goals(vec![
        (Rc::new(Prop::imply(name("a"), name("b"))), vec![Rc::new(name("a"))]),
        (Rc::new(Prop::False), vec![]),
    ]);
    let lines = proof.to_lines();
    assert_eq!(lines, vec!["G:a b =>", "H:a", "G:F"]);
    let loaded = Proof::from_lines(&lines).unwrap();
    assert_eq!(loaded.goals, proof.goals);
    assert_eq!(loaded.active_goal_index(), 1);
}

#[test]
fn loading_lines() {
    let lines = vec![
        String::from("comment without colon"),
        String::from("X:ignored"),
        String::from("G:a b ^"),
        String::from("H: b"),
        String::from("H:c"),
    ];
    let proof = Proof::from_lines(&lines).unwrap();
    assert_eq!(proof.number_of_goals(), 1);
    assert_eq!(proof.goals[0].1, vec![Rc::new(name("b")), Rc::new(name("c"))]);
    assert_eq!(
        Proof::from_lines(&vec![String::from("H:a")]),
        Err("Hypothesis before any goal")
    );
    assert_eq!(
        Proof::from_lines(&vec![String::from("G:a b")]),
        Err("At the end of parsing, > 1 item left unused in the accumulator")
    );
}

#[test]
fn tactic_text() {
    assert_eq!(StrategyArg::Intro.to_string(), "intro");
    assert_eq!(StrategyArg::HypSplit(12).to_string(), "hyp_split 12");
    assert_eq!(StrategyArg::OrSplit(true).to_string(), "left");
    assert_eq!(StrategyArg::OrSplit(false).to_string(), "right");
    assert_eq!(StrategyArg::HypOrSplit(0, false).to_string(), "hyp_right 0");
    assert_eq!(StrategyArg::FalseIsHyp.to_string(), "false_is_hyp");
    assert_eq!(StrategyArg::Exact(105).to_string(), "exact 105");
    assert_eq!(StrategyArg::ApplyIn(3, 40, true).to_string(), "apply_in_hyp_keep 3 40");
    assert_eq!(poulet::applicable::decimal_string(usize::MAX), usize::MAX.to_string());
}
