use std::rc::Rc;
use vstd::prelude::*;
use vstd::string::StringExecFns;

verus! {

/// Mathematical model of a proposition: the tree that a `Prop` denotes,
/// with atom names as character sequences.
pub enum Formula {
    Atom(Seq<char>),
    Imp(Box<Formula>, Box<Formula>),
    Conj(Box<Formula>, Box<Formula>),
    Disj(Box<Formula>, Box<Formula>),
    Top,
    Bottom,
}

pub open spec fn imp(a: Formula, b: Formula) -> Formula {
    Formula::Imp(Box::new(a), Box::new(b))
}

pub open spec fn conj(a: Formula, b: Formula) -> Formula {
    Formula::Conj(Box::new(a), Box::new(b))
}

pub open spec fn disj(a: Formula, b: Formula) -> Formula {
    Formula::Disj(Box::new(a), Box::new(b))
}

/// A proposition of propositional logic. Sub-propositions are shared, never mutated.
#[derive(Clone, PartialEq, Eq, PartialOrd, Ord, Debug)]
pub enum Prop {
    Name(String),
    Implies(Rc<Prop>, Rc<Prop>),
    And(Rc<Prop>, Rc<Prop>),
    Or(Rc<Prop>, Rc<Prop>),
    True,
    False,
}

pub open spec fn model(p: Prop) -> Formula
    decreases p,
{
    match p {
        Prop::Name(s) => Formula::Atom(s@),
        Prop::Implies(a, b) => imp(model(*a), model(*b)),
        Prop::And(a, b) => conj(model(*a), model(*b)),
        Prop::Or(a, b) => disj(model(*a), model(*b)),
        Prop::True => Formula::Top,
        Prop::False => Formula::Bottom,
    }
}

impl View for Prop {
    type V = Formula;

    open spec fn view(&self) -> Formula {
        model(*self)
    }
}

// ---------------------------------------------------------------------------
// Structural total order: variant first, then the children from left to right.
// Atom names compare lexicographically by code point, a proper prefix first.
// ---------------------------------------------------------------------------

pub open spec fn sign(x: int) -> int {
    if x < 0 {
        -1
    } else if x > 0 {
        1
    } else {
        0
    }
}

pub open spec fn text_cmp(a: Seq<char>, b: Seq<char>) -> int
    decreases a.len(),
{
    if a.len() == 0 {
        if b.len() == 0 {
            0
        } else {
            -1
        }
    } else if b.len() == 0 {
        1
    } else if a[0] != b[0] {
        sign((a[0] as u32) - (b[0] as u32))
    } else {
        text_cmp(a.drop_first(), b.drop_first())
    }
}

pub open spec fn tag(f: Formula) -> int {
    match f {
        Formula::Atom(_) => 0,
        Formula::Imp(_, _) => 1,
        Formula::Conj(_, _) => 2,
        Formula::Disj(_, _) => 3,
        Formula::Top => 4,
        Formula::Bottom => 5,
    }
}

/// Three-way comparison of formulas: -1, 0 or 1.
pub open spec fn formula_cmp(a: Formula, b: Formula) -> int
    decreases a,
{
    if tag(a) != tag(b) {
        sign(tag(a) - tag(b))
    } else {
        match (a, b) {
            (Formula::Atom(x), Formula::Atom(y)) => text_cmp(x, y),
            (Formula::Imp(a1, a2), Formula::Imp(b1, b2)) => {
                let c = formula_cmp(*a1, *b1);
                if c != 0 {
                    c
                } else {
                    formula_cmp(*a2, *b2)
                }
            },
            (Formula::Conj(a1, a2), Formula::Conj(b1, b2)) => {
                let c = formula_cmp(*a1, *b1);
                if c != 0 {
                    c
                } else {
                    formula_cmp(*a2, *b2)
                }
            },
            (Formula::Disj(a1, a2), Formula::Disj(b1, b2)) => {
                let c = formula_cmp(*a1, *b1);
                if c != 0 {
                    c
                } else {
                    formula_cmp(*a2, *b2)
                }
            },
            _ => 0,
        }
    }
}

pub proof fn lemma_text_cmp_zero(a: Seq<char>, b: Seq<char>)
    ensures
        (text_cmp(a, b) == 0) == (a == b),
        -1 <= text_cmp(a, b) <= 1,
    decreases a.len(),
{
    if a.len() == 0 && b.len() == 0 {
        assert(a =~= b);
    } else if a.len() > 0 && b.len() > 0 && a[0] == b[0] {
        lemma_text_cmp_zero(a.drop_first(), b.drop_first());
        if a.drop_first() == b.drop_first() {
            assert(a =~= seq![a[0]] + a.drop_first());
            assert(b =~= seq![b[0]] + b.drop_first());
        }
    } else if a.len() > 0 && b.len() > 0 {
        lemma_char_code_injective(a[0], b[0]);
    }
}

/// The comparison is zero exactly on equal formulas.
pub proof fn lemma_formula_cmp_zero(a: Formula, b: Formula)
    ensures
        (formula_cmp(a, b) == 0) == (a == b),
        -1 <= formula_cmp(a, b) <= 1,
    decreases a,
{
    if tag(a) == tag(b) {
        match (a, b) {
            (Formula::Atom(x), Formula::Atom(y)) => lemma_text_cmp_zero(x, y),
            (Formula::Imp(a1, a2), Formula::Imp(b1, b2)) => {
                lemma_formula_cmp_zero(*a1, *b1);
                lemma_formula_cmp_zero(*a2, *b2);
            },
            (Formula::Conj(a1, a2), Formula::Conj(b1, b2)) => {
                lemma_formula_cmp_zero(*a1, *b1);
                lemma_formula_cmp_zero(*a2, *b2);
            },
            (Formula::Disj(a1, a2), Formula::Disj(b1, b2)) => {
                lemma_formula_cmp_zero(*a1, *b1);
                lemma_formula_cmp_zero(*a2, *b2);
            },
            _ => {},
        }
    }
}

impl Prop {
    pub fn from_name(name: String) -> (r: Prop)
        ensures
            r@ == Formula::Atom(name@),
    {
        Prop::Name(name)
    }

    pub fn imply(a: Prop, b: Prop) -> (r: Prop)
        ensures
            r@ == imp(a@, b@),
    {
        Prop::Implies(Rc::new(a), Rc::new(b))
    }

    /// Negation, written as an implication of falsity.
    pub fn not(prop: Prop) -> (r: Prop)
        ensures
            r@ == imp(prop@, Formula::Bottom),
    {
        Prop::imply(prop, Prop::False)
    }

    pub fn and(a: Prop, b: Prop) -> (r: Prop)
        ensures
            r@ == conj(a@, b@),
    {
        Prop::And(Rc::new(a), Rc::new(b))
    }

    pub fn or(a: Prop, b: Prop) -> (r: Prop)
        ensures
            r@ == disj(a@, b@),
    {
        Prop::Or(Rc::new(a), Rc::new(b))
    }

    /// Equivalence, as the conjunction of both implications; `a` and `b` are shared.
    pub fn equiv(a: Prop, b: Prop) -> (r: Prop)
        ensures
            r@ == conj(imp(a@, b@), imp(b@, a@)),
    {
        let ra = Rc::new(a);
        let rb = Rc::new(b);
        let ra2 = ra.clone();
        let rb2 = rb.clone();
        assert(*ra2 == a);
        let ab = Prop::Implies(ra2, rb2);
        let ba = Prop::Implies(rb, ra);
        assert(ab@ == imp(a@, b@));
        assert(ba@ == imp(b@, a@));
        Prop::And(Rc::new(ab), Rc::new(ba))
    }

    /// Structural equality.
    pub fn same(&self, other: &Prop) -> (r: bool)
        ensures
            r == (self@ == other@),
        decreases self,
    {
        match (self, other) {
            (Prop::Name(x), Prop::Name(y)) => *x == *y,
            (Prop::Implies(a1, a2), Prop::Implies(b1, b2)) => {
                (**a1).same(&**b1) && (**a2).same(&**b2)
            },
            (Prop::And(a1, a2), Prop::And(b1, b2)) => {
                (**a1).same(&**b1) && (**a2).same(&**b2)
            },
            (Prop::Or(a1, a2), Prop::Or(b1, b2)) => {
                (**a1).same(&**b1) && (**a2).same(&**b2)
            },
            (Prop::True, Prop::True) => true,
            (Prop::False, Prop::False) => true,
            _ => false,
        }
    }

    pub fn is_true(&self) -> (r: bool)
        ensures
            r == (self@ == Formula::Top),
    {
        match self {
            Prop::True => true,
            _ => false,
        }
    }

    pub fn is_false(&self) -> (r: bool)
        ensures
            r == (self@ == Formula::Bottom),
    {
        match self {
            Prop::False => true,
            _ => false,
        }
    }

    fn tag_of(&self) -> (r: i8)
        ensures
            r as int == tag(self@),
    {
        match self {
            Prop::Name(_) => 0,
            Prop::Implies(_, _) => 1,
            Prop::And(_, _) => 2,
            Prop::Or(_, _) => 3,
            Prop::True => 4,
            Prop::False => 5,
        }
    }

    /// Three-way structural comparison: -1, 0 or 1.
    pub fn compare(&self, other: &Prop) -> (r: i8)
        ensures
            r as int == formula_cmp(self@, other@),
        decreases self,
    {
        let ta = self.tag_of();
        let tb = other.tag_of();
        if ta < tb {
            return -1;
        }
        if ta > tb {
            return 1;
        }
        match (self, other) {
            (Prop::Name(x), Prop::Name(y)) => compare_text(x.as_str(), y.as_str()),
            (Prop::Implies(a1, a2), Prop::Implies(b1, b2)) => {
                let c = (**a1).compare(&**b1);
                if c != 0 {
                    c
                } else {
                    (**a2).compare(&**b2)
                }
            },
            (Prop::And(a1, a2), Prop::And(b1, b2)) => {
                let c = (**a1).compare(&**b1);
                if c != 0 {
                    c
                } else {
                    (**a2).compare(&**b2)
                }
            },
            (Prop::Or(a1, a2), Prop::Or(b1, b2)) => {
                let c = (**a1).compare(&**b1);
                if c != 0 {
                    c
                } else {
                    (**a2).compare(&**b2)
                }
            },
            _ => 0,
        }
    }
}

proof fn lemma_char_code_injective(c: char, d: char)
    ensures
        (c as u32 == d as u32) == (c == d),
{
    vstd::utf8::char_u32_cast(c, c as u32);
    vstd::utf8::char_u32_cast(d, d as u32);
}

proof fn lemma_text_cmp_skip(a: Seq<char>, b: Seq<char>, i: int)
    requires
        0 <= i < a.len(),
        i < b.len(),
        a[i] == b[i],
    ensures
        text_cmp(a.skip(i), b.skip(i)) == text_cmp(a.skip(i + 1), b.skip(i + 1)),
{
    assert(a.skip(i).drop_first() =~= a.skip(i + 1));
    assert(b.skip(i).drop_first() =~= b.skip(i + 1));
}

fn compare_text(a: &str, b: &str) -> (r: i8)
    ensures
        r as int == text_cmp(a@, b@),
{
    let la = a.unicode_len();
    let lb = b.unicode_len();
    let mut i: usize = 0;
    assert(a@.skip(0) =~= a@);
    assert(b@.skip(0) =~= b@);
    while i < la && i < lb
        invariant
            la == a@.len(),
            lb == b@.len(),
            i <= la,
            i <= lb,
            text_cmp(a@, b@) == text_cmp(a@.skip(i as int), b@.skip(i as int)),
        decreases la - i,
    {
        let ca = a.get_char(i);
        let cb = b.get_char(i);
        if (ca as u32) < (cb as u32) {
            return -1;
        }
        if (ca as u32) > (cb as u32) {
            return 1;
        }
        proof {
            lemma_text_cmp_skip(a@, b@, i as int);
        }
        i = i + 1;
    }
    if la == lb {
        0
    } else if i == la {
        -1
    } else {
        1
    }
}

// ---------------------------------------------------------------------------
// Text forms: infix with full parenthesisation, and reverse-Polish.
// ---------------------------------------------------------------------------

pub open spec fn infix_text(f: Formula) -> Seq<char>
    decreases f,
{
    match f {
        Formula::Atom(n) => n,
        Formula::Top => seq!['T'],
        Formula::Bottom => seq!['F'],
        Formula::Imp(a, b) => seq!['(', ' '] + infix_text(*a) + seq![' ', '=', '>', ' ']
            + infix_text(*b) + seq![' ', ')'],
        Formula::Conj(a, b) => seq!['(', ' '] + infix_text(*a) + seq![' ', '^', ' ']
            + infix_text(*b) + seq![' ', ')'],
        Formula::Disj(a, b) => seq!['(', ' '] + infix_text(*a) + seq![' ', '|', ' ']
            + infix_text(*b) + seq![' ', ')'],
    }
}

pub open spec fn rpn_text(f: Formula) -> Seq<char>
    decreases f,
{
    match f {
        Formula::Atom(n) => n,
        Formula::Top => seq!['T'],
        Formula::Bottom => seq!['F'],
        Formula::Imp(a, b) => rpn_text(*a) + seq![' '] + rpn_text(*b) + seq![' ', '=', '>'],
        Formula::Conj(a, b) => rpn_text(*a) + seq![' '] + rpn_text(*b) + seq![' ', '^'],
        Formula::Disj(a, b) => rpn_text(*a) + seq![' '] + rpn_text(*b) + seq![' ', '|'],
    }
}

fn wrap_infix(a: String, op: &str, b: String) -> (r: String)
    ensures
        r@ == seq!['(', ' '] + a@ + op@ + b@ + seq![' ', ')'],
{
    proof {
        reveal_strlit("( ");
        reveal_strlit(" )");
    }
    let mut out = String::from_str("( ");
    out.append(a.as_str());
    out.append(op);
    out.append(b.as_str());
    out.append(" )");
    out
}

fn join_rpn(a: String, b: String, op: &str) -> (r: String)
    ensures
        r@ == a@ + seq![' '] + b@ + seq![' '] + op@,
{
    proof {
        reveal_strlit(" ");
    }
    let mut out = a;
    out.append(" ");
    out.append(b.as_str());
    out.append(" ");
    out.append(op);
    out
}

impl Prop {
    /// Infix form, every binary connective in parentheses: `( a => b )`.
    pub fn to_string(&self) -> (r: String)
        ensures
            r@ == infix_text(self@),
        decreases self,
    {
        proof {
            reveal_strlit("T");
            reveal_strlit("F");
            reveal_strlit(" => ");
            reveal_strlit(" ^ ");
            reveal_strlit(" | ");
        }
        match self {
            Prop::True => String::from_str("T"),
            Prop::False => String::from_str("F"),
            Prop::Name(name) => name.clone(),
            Prop::Implies(a, b) => wrap_infix((**a).to_string(), " => ", (**b).to_string()),
            Prop::And(a, b) => wrap_infix((**a).to_string(), " ^ ", (**b).to_string()),
            Prop::Or(a, b) => wrap_infix((**a).to_string(), " | ", (**b).to_string()),
        }
    }

    /// Reverse-Polish form, tokens separated by one space: `a b =>`.
    pub fn to_string_rpn(&self) -> (r: String)
        ensures
            r@ == rpn_text(self@),
        decreases self,
    {
        proof {
            reveal_strlit("T");
            reveal_strlit("F");
            reveal_strlit("=>");
            reveal_strlit("^");
            reveal_strlit("|");
        }
        match self {
            Prop::True => String::from_str("T"),
            Prop::False => String::from_str("F"),
            Prop::Name(name) => name.clone(),
            Prop::Implies(a, b) => join_rpn((**a).to_string_rpn(), (**b).to_string_rpn(), "=>"),
            Prop::And(a, b) => join_rpn((**a).to_string_rpn(), (**b).to_string_rpn(), "^"),
            Prop::Or(a, b) => join_rpn((**a).to_string_rpn(), (**b).to_string_rpn(), "|"),
        }
    }
}

// ---------------------------------------------------------------------------
// Size measures.
// ---------------------------------------------------------------------------

/// Nesting depth; an atom or a constant has depth 1.
pub open spec fn depth_of(f: Formula) -> nat
    decreases f,
{
    match f {
        Formula::Imp(a, b) | Formula::Conj(a, b) | Formula::Disj(a, b) => {
            let da = depth_of(*a);
            let db = depth_of(*b);
            1 + if da >= db {
                da
            } else {
                db
            }
        },
        _ => 1,
    }
}

/// Number of nodes, counting every occurrence of a shared sub-proposition.
pub open spec fn items_of(f: Formula) -> nat
    decreases f,
{
    match f {
        Formula::Imp(a, b) | Formula::Conj(a, b) | Formula::Disj(a, b) => items_of(*a) + items_of(
            *b,
        ) + 1,
        _ => 1,
    }
}

impl Prop {
    pub fn depth(&self) -> (r: i32)
        requires
            depth_of(self@) <= i32::MAX,
        ensures
            r == depth_of(self@),
        decreases self,
    {
        match self {
            Prop::Implies(a, b) | Prop::And(a, b) | Prop::Or(a, b) => {
                let da = (**a).depth();
                let db = (**b).depth();
                if da >= db {
                    da + 1
                } else {
                    db + 1
                }
            },
            _ => 1,
        }
    }

    pub fn items(&self) -> (r: i32)
        requires
            items_of(self@) <= i32::MAX,
        ensures
            r == items_of(self@),
        decreases self,
    {
        match self {
            Prop::Implies(a, b) | Prop::And(a, b) | Prop::Or(a, b) => {
                (**a).items() + (**b).items() + 1
            },
            _ => 1,
        }
    }

    /// The number of nodes when it fits in an `i32`.
    pub fn items_checked(&self) -> (r: Option<i32>)
        ensures
            r == (if items_of(self@) <= i32::MAX {
                Some(items_of(self@) as i32)
            } else {
                None::<i32>
            }),
        decreases self,
    {
        match self {
            Prop::Implies(a, b) | Prop::And(a, b) | Prop::Or(a, b) => {
                match ((**a).items_checked(), (**b).items_checked()) {
                    (Some(x), Some(y)) => {
                        let total: i64 = x as i64 + y as i64 + 1;
                        if total <= i32::MAX as i64 {
                            Some(total as i32)
                        } else {
                            None
                        }
                    },
                    _ => None,
                }
            },
            _ => Some(1),
        }
    }
}

/// A proposition is never deeper than it has nodes.
pub proof fn lemma_depth_le_items(f: Formula)
    ensures
        depth_of(f) <= items_of(f),
    decreases f,
{
    match f {
        Formula::Imp(a, b) | Formula::Conj(a, b) | Formula::Disj(a, b) => {
            lemma_depth_le_items(*a);
            lemma_depth_le_items(*b);
        },
        _ => {},
    }
}

} // verus!
