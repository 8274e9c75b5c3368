use poulet::logic::Prop;
use std::rc::Rc;

fn name(s: &str) -> Prop {
    Prop::from_name(String::from(s))
}

#[test]
fn eq_base() {
    let true_a = Prop::True;
    let true_b = Prop::True;
    let false_a = Prop::False;
    let false_b = Prop::False;
    let name_a = Prop::Name(String::from("name"));
    let name_b = Prop::Name(String::from("name"));
    assert_eq!(true_a, true_b);
    assert_eq!(false_a, false_b);
    assert_eq!(name_a, name_b);
}

#[test]
fn eq_nested() {
    let imply_a = Prop::Implies(Rc::new(Prop::True), Rc::new(Prop::True));
    let imply_b = Prop::Implies(Rc::new(Prop::True), Rc::new(Prop::True));
    let and_a = Prop::And(
        Rc::new(Prop::True),
        Rc::new(Prop::Name(String::from("name"))),
    );
    let and_b = Prop::And(
        Rc::new(Prop::True),
        Rc::new(Prop::Name(String::from("name"))),
    );
    let or_a = Prop::Or(
        Rc::new(Prop::False),
        Rc::new(Prop::Name(String::from("name"))),
    );
    let or_b = Prop::Or(
        Rc::new(Prop::False),
        Rc::new(Prop::Name(String::from("name"))),
    );
    let nested_a = Prop::Implies(
        Rc::new(Prop::Implies(Rc::new(Prop::True), Rc::new(Prop::True))),
        Rc::new(Prop::False),
    );
    let nested_b = Prop::Implies(
        Rc::new(Prop::Implies(Rc::new(Prop::True), Rc::new(Prop::True))),
        Rc::new(Prop::False),
    );
    assert_eq!(imply_a, imply_b);
    assert_eq!(and_a, and_b);
    assert_eq!(or_a, or_b);
    assert_eq!(nested_a, nested_b);
}

#[test]
fn constructors() {
    let name = Prop::from_name(String::from("name"));
    assert_eq!(name, Prop::Name(String::from("name")));

    let imply = Prop::imply(Prop::True, Prop::False);
    assert_eq!(
        imply,
        Prop::Implies(Rc::new(Prop::True), Rc::new(Prop::False))
    );

    let and = Prop::and(Prop::True, Prop::False);
    assert_eq!(and, Prop::And(Rc::new(Prop::True), Rc::new(Prop::False)));

    let or = Prop::or(Prop::True, Prop::False);
    assert_eq!(or, Prop::Or(Rc::new(Prop::True), Rc::new(Prop::False)));

    let not = Prop::not(Prop::True);
    assert_eq!(
        not,
        Prop::Implies(Rc::new(Prop::True), Rc::new(Prop::False))
    );
}

#[test]
fn parse_rpn() {
    let rpn_true = "T";
    let rpn_false = "F";
    let rpn_name = "name";

    assert_eq!(Prop::parse_rpn(rpn_true), Ok(Prop::True));
    assert_eq!(Prop::parse_rpn(rpn_false), Ok(Prop::False));
    assert_eq!(
        Prop::parse_rpn(rpn_name),
        Ok(Prop::from_name(String::from("name")))
    );

    let rpn_simple_imply = "a b =>";
    let rpn_simple_and = "a b ^";
    let rpn_simple_or = "a b |";
    let rpn_simple_not = "a !";

    assert_eq!(
        Prop::parse_rpn(rpn_simple_imply),
        Ok(Prop::imply(
            Prop::from_name(String::from("a")),
            Prop::from_name(String::from("b"))
        ))
    );
    assert_eq!(
        Prop::parse_rpn(rpn_simple_and),
        Ok(Prop::and(
            Prop::from_name(String::from("a")),
            Prop::from_name(String::from("b"))
        ))
    );
    assert_eq!(
        Prop::parse_rpn(rpn_simple_or),
        Ok(Prop::or(
            Prop::from_name(String::from("a")),
            Prop::from_name(String::from("b"))
        ))
    );
    assert_eq!(
        Prop::parse_rpn(rpn_simple_not),
        Ok(Prop::imply(Prop::from_name(String::from("a")), Prop::False))
    );

    let rpn_complex = "a b => c ^ d d => |";
    assert_eq!(
        Prop::parse_rpn(rpn_complex),
        Ok(Prop::or(
            Prop::and(
                Prop::imply(
                    Prop::from_name(String::from("a")),
                    Prop::from_name(String::from("b"))
                ),
                Prop::from_name(String::from("c"))
            ),
            Prop::imply(
                Prop::from_name(String::from("d")),
                Prop::from_name(String::from("d"))
            )
        ))
    )
}

#[test]
fn parse_rpn_bad() {
    assert_eq!(
        Prop::parse_rpn(""),
        Err("At the end of parsing, accumulator is empty")
    );
    assert_eq!(
        Prop::parse_rpn("a b"),
        Err("At the end of parsing, > 1 item left unused in the accumulator")
    );

    assert_eq!(
        Prop::parse_rpn("a =>"),
        Err("During parsing of '=>', two items expected in accumulator, found one")
    );
    assert_eq!(
        Prop::parse_rpn("=>"),
        Err("During parsing of '=>', two items expected in accumulator, found zero")
    );

    assert_eq!(
        Prop::parse_rpn("a ^"),
        Err("During parsing of '^', two items expected in accumulator, found one")
    );
    assert_eq!(
        Prop::parse_rpn("^"),
        Err("During parsing of '^', two items expected in accumulator, found zero")
    );

    assert_eq!(
        Prop::parse_rpn("a |"),
        Err("During parsing of '|', two items expected in accumulator, found one")
    );
    assert_eq!(
        Prop::parse_rpn("|"),
        Err("During parsing of '|', two items expected in accumulator, found zero")
    );

    assert_eq!(
        Prop::parse_rpn("!"),
        Err("During parsing of '!', one item expected in accumulator, found zero")
    );
}

#[test]
fn strings() {
    assert_eq!(Prop::True.to_string(), "T");
    assert_eq!(Prop::False.to_string(), "F");
    assert_eq!(Prop::Name(String::from("name")).to_string(), "name");

    assert_eq!(
        Prop::imply(Prop::Name(String::from("a")), Prop::Name(String::from("b"))).to_string(),
        "( a => b )"
    );
    assert_eq!(
        Prop::and(Prop::Name(String::from("a")), Prop::Name(String::from("b"))).to_string(),
        "( a ^ b )"
    );
    assert_eq!(
        Prop::or(Prop::Name(String::from("a")), Prop::Name(String::from("b"))).to_string(),
        "( a | b )"
    );
}

#[test]
fn strings_rpn() {
    assert_eq!(Prop::True.to_string_rpn(), "T");
    assert_eq!(Prop::False.to_string_rpn(), "F");
    assert_eq!(Prop::Name(String::from("name")).to_string_rpn(), "name");

    assert_eq!(
        Prop::imply(Prop::Name(String::from("a")), Prop::Name(String::from("b")))
            .to_string_rpn(),
        "a b =>"
    );
    assert_eq!(
        Prop::and(Prop::Name(String::from("a")), Prop::Name(String::from("b"))).to_string_rpn(),
        "a b ^"
    );
    assert_eq!(
        Prop::or(Prop::Name(String::from("a")), Prop::Name(String::from("b"))).to_string_rpn(),
        "a b |"
    );
}

#[test]
fn parse_rpn_equiv_and_spacing() {
    assert_eq!(
        Prop::parse_rpn("  a\tb  <=>\n"),
        Ok(Prop::and(
            Prop::imply(name("a"), name("b")),
            Prop::imply(name("b"), name("a"))
        ))
    );
    assert_eq!(
        Prop::parse_rpn("a <=>"),
        Err("During parsing of '<=>', two items expected in accumulator, found one")
    );
    assert_eq!(
        Prop::parse_rpn("<=>"),
        Err("During parsing of '<=>', two items expected in accumulator, found zero")
    );
    assert_eq!(Prop::parse_rpn(" \u{3000} "), Err("At the end of parsing, accumulator is empty"));
}

#[test]
fn rpn_round_trip_on_nested_proposition() {
    let p = Prop::or(
        Prop::and(Prop::imply(name("a"), name("bee")), Prop::True),
        Prop::not(Prop::or(name("c"), Prop::False)),
    );
    let text = p.to_string_rpn();
    assert_eq!(text, "a bee => T ^ c F | F => |");
    assert_eq!(Prop::parse_rpn(&text), Ok(p));
}

#[test]
fn infix_of_nested_proposition() {
    let p = Prop::imply(Prop::and(name("a"), Prop::False), Prop::or(Prop::True, name("b")));
    assert_eq!(p.to_string(), "( ( a ^ F ) => ( T | b ) )");
}

#[test]
fn depth_and_items() {
    assert_eq!(Prop::True.depth(), 1);
    assert_eq!(Prop::False.items(), 1);
    let p_complex = Prop::imply(
        Prop::imply(Prop::not(Prop::False), Prop::and(Prop::True, Prop::False)),
        Prop::or(Prop::from_name(String::from("name")), Prop::False),
    );
    assert_eq!(p_complex.depth(), 4);
    assert_eq!(p_complex.items(), 11);
    assert_eq!(p_complex.items_checked(), Some(11));
    assert_eq!(Prop::imply(Prop::True, Prop::False).depth(), 2);
    assert_eq!(Prop::imply(Prop::True, Prop::False).items(), 3);
}

#[test]
fn structural_compare_and_same() {
    assert!(name("a").same(&name("a")));
    assert!(!name("a").same(&name("b")));
    assert_eq!(name("a").compare(&name("b")), -1);
    assert_eq!(name("ab").compare(&name("a")), 1);
    assert_eq!(name("z").compare(&Prop::imply(Prop::True, Prop::True)), -1);
    assert_eq!(Prop::False.compare(&Prop::True), 1);
    assert_eq!(
        Prop::imply(name("a"), name("b")).compare(&Prop::imply(name("a"), name("b"))),
        0
    );
}
