use crate::logic::{conj, disj, imp, rpn_text, Formula, Prop};
use vstd::prelude::*;
use vstd::string::StrSliceExecFns;
use vstd::string::StringExecFns;

verus! {

// ---------------------------------------------------------------------------
// Splitting text into words at Unicode white space.
// ---------------------------------------------------------------------------

/// The Unicode `White_Space` property, the set of characters that
/// `char::is_whitespace` accepts.
pub open spec fn is_white(c: char) -> bool {
    let u = c as u32;
    (0x09 <= u && u <= 0x0d) || u == 0x20 || u == 0x85 || u == 0xa0 || u == 0x1680 || (0x2000 <= u
        && u <= 0x200a) || u == 0x2028 || u == 0x2029 || u == 0x202f || u == 0x205f || u == 0x3000
}

pub(crate) fn white_char(c: char) -> (r: bool)
    ensures
        r == is_white(c),
{
    let u = c as u32;
    (0x09 <= u && u <= 0x0d) || u == 0x20 || u == 0x85 || u == 0xa0 || u == 0x1680 || (0x2000 <= u
        && u <= 0x200a) || u == 0x2028 || u == 0x2029 || u == 0x202f || u == 0x205f || u == 0x3000
}

/// Length of the word at the start of `s` (zero when `s` starts with white space).
pub open spec fn word_len(s: Seq<char>) -> nat
    decreases s.len(),
{
    if s.len() == 0 || is_white(s[0]) {
        0
    } else {
        1 + word_len(s.drop_first())
    }
}

pub proof fn lemma_word_len_bound(s: Seq<char>)
    ensures
        word_len(s) <= s.len(),
    decreases s.len(),
{
    if s.len() > 0 && !is_white(s[0]) {
        lemma_word_len_bound(s.drop_first());
    }
}

/// The maximal runs of non-white characters of `s`, in order.
pub open spec fn words(s: Seq<char>) -> Seq<Seq<char>>
    decreases s.len(),
{
    if s.len() == 0 {
        seq![]
    } else if is_white(s[0]) {
        words(s.drop_first())
    } else {
        proof {
            lemma_word_len_bound(s);
        }
        seq![s.take(word_len(s) as int)] + words(s.skip(word_len(s) as int))
    }
}

proof fn lemma_word_len_skip(s: Seq<char>, i: int)
    requires
        0 <= i < s.len(),
        !is_white(s[i]),
    ensures
        word_len(s.skip(i)) == 1 + word_len(s.skip(i + 1)),
{
    assert(s.skip(i).drop_first() =~= s.skip(i + 1));
}

proof fn lemma_words_skip_white(s: Seq<char>, i: int)
    requires
        0 <= i < s.len(),
        is_white(s[i]),
    ensures
        words(s.skip(i)) == words(s.skip(i + 1)),
{
    assert(s.skip(i).drop_first() =~= s.skip(i + 1));
}

/// Splits `s` into its words.
pub fn split_words(s: &str) -> (r: Vec<String>)
    ensures
        r@.map_values(|t: String| t@) == words(s@),
{
    let n = s.unicode_len();
    let mut out: Vec<String> = Vec::new();
    let mut i: usize = 0;
    assert(s@.skip(0) =~= s@);
    while i < n
        invariant
            n == s@.len(),
            i <= n,
            words(s@) == out@.map_values(|t: String| t@) + words(s@.skip(i as int)),
        decreases n - i,
    {
        let c = s.get_char(i);
        if white_char(c) {
            proof {
                lemma_words_skip_white(s@, i as int);
            }
            i = i + 1;
        } else {
            let start = i;
            let mut j: usize = i;
            assert(s@.skip(i as int).len() > 0 && !is_white(s@.skip(i as int)[0]));
            while j < n && !white_char(s.get_char(j))
                invariant
                    n == s@.len(),
                    start <= j <= n,
                    word_len(s@.skip(start as int)) == (j - start) + word_len(s@.skip(j as int)),
                    forall|k: int| start <= k < j ==> !is_white(#[trigger] s@[k]),
                decreases n - j,
            {
                proof {
                    lemma_word_len_skip(s@, j as int);
                }
                j = j + 1;
            }
            assert(word_len(s@.skip(j as int)) == 0);
            let word = String::from_str(s.substring_char(start, j));
            proof {
                let t = s@.skip(start as int);
                assert(t.take(word_len(t) as int) =~= s@.subrange(start as int, j as int));
                assert(t.skip(word_len(t) as int) =~= s@.skip(j as int));
            }
            let ghost before = out@;
            out.push(word);
            proof {
                assert(out@.map_values(|t: String| t@) =~= before.map_values(|t: String| t@).push(
                    word@,
                ));
                assert(out@.map_values(|t: String| t@) + words(s@.skip(j as int)) =~= before.map_values(
                    |t: String| t@,
                ) + (seq![word@] + words(s@.skip(j as int))));
            }
            i = j;
        }
    }
    assert(s@.skip(n as int) =~= Seq::<char>::empty());
    assert(out@.map_values(|t: String| t@) + Seq::<Seq<char>>::empty() =~= out@.map_values(
        |t: String| t@,
    ));
    out
}

// ---------------------------------------------------------------------------
// Reverse-Polish reading: a stack machine over the words.
// ---------------------------------------------------------------------------

pub open spec fn tok_imp() -> Seq<char> {
    seq!['=', '>']
}

pub open spec fn tok_and() -> Seq<char> {
    seq!['^']
}

pub open spec fn tok_or() -> Seq<char> {
    seq!['|']
}

pub open spec fn tok_equiv() -> Seq<char> {
    seq!['<', '=', '>']
}

pub open spec fn tok_not() -> Seq<char> {
    seq!['!']
}

/// Words that stand for an operator or a constant, never for an atom.
pub open spec fn is_keyword(t: Seq<char>) -> bool {
    t == tok_imp() || t == tok_and() || t == tok_or() || t == tok_equiv() || t == tok_not() || t
        == seq!['T'] || t == seq!['F']
}

proof fn lemma_keywords_distinct()
    ensures
        tok_imp() != tok_and(),
        tok_imp() != tok_or(),
        tok_and() != tok_or(),
        tok_imp() != tok_equiv(),
        tok_and() != tok_equiv(),
        tok_or() != tok_equiv(),
        tok_imp() != tok_not(),
        tok_and() != tok_not(),
        tok_or() != tok_not(),
        forall|c: char|
            c == 'T' || c == 'F' ==> seq![c] != tok_imp() && seq![c] != tok_and() && seq![c]
                != tok_or() && seq![c] != tok_equiv() && seq![c] != tok_not(),
{
    assert forall|c: char|
        c == 'T' || c == 'F' implies seq![c] != tok_imp() && seq![c] != tok_and() && seq![c]
        != tok_or() && seq![c] != tok_equiv() && seq![c] != tok_not() by {
        assert(seq![c].len() != tok_imp().len());
        assert(seq![c][0] != tok_and()[0]);
        assert(seq![c][0] != tok_or()[0]);
        assert(seq![c].len() != tok_equiv().len());
        assert(seq![c][0] != tok_not()[0]);
    }
    assert(tok_imp().len() != tok_and().len());
    assert(tok_imp().len() != tok_or().len());
    assert(tok_and()[0] != tok_or()[0]);
    assert(tok_imp().len() != tok_equiv().len());
    assert(tok_and().len() != tok_equiv().len());
    assert(tok_or().len() != tok_equiv().len());
    assert(tok_imp().len() != tok_not().len());
    assert(tok_and()[0] != tok_not()[0]);
    assert(tok_or()[0] != tok_not()[0]);
}

/// Binary operators: 0 is `=>`, 1 is `^`, 2 is `|`, 3 is `<=>`.
pub open spec fn combine(op: int, a: Formula, b: Formula) -> Formula {
    if op == 0 {
        imp(a, b)
    } else if op == 1 {
        conj(a, b)
    } else if op == 2 {
        disj(a, b)
    } else {
        conj(imp(a, b), imp(b, a))
    }
}

pub open spec fn err_found_one(op: int) -> &'static str {
    if op == 0 {
        "During parsing of '=>', two items expected in accumulator, found one"
    } else if op == 1 {
        "During parsing of '^', two items expected in accumulator, found one"
    } else if op == 2 {
        "During parsing of '|', two items expected in accumulator, found one"
    } else {
        "During parsing of '<=>', two items expected in accumulator, found one"
    }
}

pub open spec fn err_found_zero(op: int) -> &'static str {
    if op == 0 {
        "During parsing of '=>', two items expected in accumulator, found zero"
    } else if op == 1 {
        "During parsing of '^', two items expected in accumulator, found zero"
    } else if op == 2 {
        "During parsing of '|', two items expected in accumulator, found zero"
    } else {
        "During parsing of '<=>', two items expected in accumulator, found zero"
    }
}

pub open spec fn err_not_empty() -> &'static str {
    "During parsing of '!', one item expected in accumulator, found zero"
}

pub open spec fn err_left_over() -> &'static str {
    "At the end of parsing, > 1 item left unused in the accumulator"
}

pub open spec fn err_empty() -> &'static str {
    "At the end of parsing, accumulator is empty"
}

pub open spec fn apply_binary(stack: Seq<Formula>, op: int) -> Result<Seq<Formula>, &'static str> {
    if stack.len() >= 2 {
        Ok(
            stack.subrange(0, stack.len() - 2).push(
                combine(op, stack[stack.len() - 2], stack[stack.len() - 1]),
            ),
        )
    } else if stack.len() == 1 {
        Err(err_found_one(op))
    } else {
        Err(err_found_zero(op))
    }
}

/// One word read against the stack.
pub open spec fn step(stack: Seq<Formula>, t: Seq<char>) -> Result<Seq<Formula>, &'static str> {
    if t == tok_imp() {
        apply_binary(stack, 0)
    } else if t == tok_and() {
        apply_binary(stack, 1)
    } else if t == tok_or() {
        apply_binary(stack, 2)
    } else if t == tok_equiv() {
        apply_binary(stack, 3)
    } else if t == tok_not() {
        if stack.len() >= 1 {
            Ok(stack.drop_last().push(imp(stack.last(), Formula::Bottom)))
        } else {
            Err(err_not_empty())
        }
    } else if t == seq!['T'] {
        Ok(stack.push(Formula::Top))
    } else if t == seq!['F'] {
        Ok(stack.push(Formula::Bottom))
    } else {
        Ok(stack.push(Formula::Atom(t)))
    }
}

/// The stack after reading all of `ts`, or the first error.
pub open spec fn run(stack: Seq<Formula>, ts: Seq<Seq<char>>) -> Result<Seq<Formula>, &'static str>
    decreases ts.len(),
{
    if ts.len() == 0 {
        Ok(stack)
    } else {
        match step(stack, ts[0]) {
            Ok(next) => run(next, ts.drop_first()),
            Err(e) => Err(e),
        }
    }
}

/// What a sequence of words denotes in reverse-Polish notation.
pub open spec fn parse_words(ts: Seq<Seq<char>>) -> Result<Formula, &'static str> {
    match run(seq![], ts) {
        Ok(stack) => if stack.len() > 1 {
            Err(err_left_over())
        } else if stack.len() == 0 {
            Err(err_empty())
        } else {
            Ok(stack[0])
        },
        Err(e) => Err(e),
    }
}

pub open spec fn views(v: Seq<Prop>) -> Seq<Formula> {
    v.map_values(|p: Prop| p@)
}

pub(crate) fn same_text(a: &str, b: &str) -> (r: bool)
    ensures
        r == (a@ == b@),
{
    let n = a.unicode_len();
    if n != b.unicode_len() {
        return false;
    }
    let mut i: usize = 0;
    while i < n
        invariant
            n == a@.len(),
            n == b@.len(),
            i <= n,
            forall|k: int| 0 <= k < i ==> a@[k] == b@[k],
        decreases n - i,
    {
        if a.get_char(i) != b.get_char(i) {
            return false;
        }
        i = i + 1;
    }
    assert(a@ =~= b@);
    true
}

fn pop_binary(stack: &mut Vec<Prop>, op: u8) -> (r: Result<(), &'static str>)
    requires
        op <= 3,
    ensures
        match apply_binary(views(old(stack)@), op as int) {
            Ok(next) => r == Ok::<(), &'static str>(()) && views(final(stack)@) == next,
            Err(e) => r == Err::<(), &'static str>(e),
        },
{
    let ghost before = views(stack@);
    let b = stack.pop();
    let a = stack.pop();
    match (a, b) {
        (Some(x), Some(y)) => {
            let f = if op == 0 {
                Prop::imply(x, y)
            } else if op == 1 {
                Prop::and(x, y)
            } else if op == 2 {
                Prop::or(x, y)
            } else {
                Prop::equiv(x, y)
            };
            stack.push(f);
            assert(views(stack@) =~= before.subrange(0, before.len() - 2).push(
                combine(op as int, before[before.len() - 2], before[before.len() - 1]),
            ));
            Ok(())
        },
        (None, Some(_)) => {
            if op == 0 {
                Err("During parsing of '=>', two items expected in accumulator, found one")
            } else if op == 1 {
                Err("During parsing of '^', two items expected in accumulator, found one")
            } else if op == 2 {
                Err("During parsing of '|', two items expected in accumulator, found one")
            } else {
                Err("During parsing of '<=>', two items expected in accumulator, found one")
            }
        },
        _ => {
            if op == 0 {
                Err("During parsing of '=>', two items expected in accumulator, found zero")
            } else if op == 1 {
                Err("During parsing of '^', two items expected in accumulator, found zero")
            } else if op == 2 {
                Err("During parsing of '|', two items expected in accumulator, found zero")
            } else {
                Err("During parsing of '<=>', two items expected in accumulator, found zero")
            }
        },
    }
}

fn read_word(stack: &mut Vec<Prop>, t: &String) -> (r: Result<(), &'static str>)
    ensures
        match step(views(old(stack)@), t@) {
            Ok(next) => r == Ok::<(), &'static str>(()) && views(final(stack)@) == next,
            Err(e) => r == Err::<(), &'static str>(e),
        },
{
    proof {
        reveal_strlit("=>");
        reveal_strlit("^");
        reveal_strlit("|");
        reveal_strlit("<=>");
        reveal_strlit("!");
        reveal_strlit("T");
        reveal_strlit("F");
        assert("=>"@ =~= tok_imp());
        assert("^"@ =~= tok_and());
        assert("|"@ =~= tok_or());
        assert("<=>"@ =~= tok_equiv());
        assert("!"@ =~= tok_not());
        assert("T"@ =~= seq!['T']);
        assert("F"@ =~= seq!['F']);
    }
    let ghost before = views(stack@);
    let w = t.as_str();
    if same_text(w, "=>") {
        pop_binary(stack, 0)
    } else if same_text(w, "^") {
        pop_binary(stack, 1)
    } else if same_text(w, "|") {
        pop_binary(stack, 2)
    } else if same_text(w, "<=>") {
        pop_binary(stack, 3)
    } else if same_text(w, "!") {
        match stack.pop() {
            None => Err("During parsing of '!', one item expected in accumulator, found zero"),
            Some(x) => {
                stack.push(Prop::not(x));
                assert(views(stack@) =~= before.drop_last().push(imp(before.last(), Formula::Bottom)));
                Ok(())
            },
        }
    } else if same_text(w, "T") {
        stack.push(Prop::True);
        assert(views(stack@) =~= before.push(Formula::Top));
        Ok(())
    } else if same_text(w, "F") {
        stack.push(Prop::False);
        assert(views(stack@) =~= before.push(Formula::Bottom));
        Ok(())
    } else {
        stack.push(Prop::from_name(t.clone()));
        assert(views(stack@) =~= before.push(Formula::Atom(t@)));
        Ok(())
    }
}

/// Reads a proposition from its words in reverse-Polish notation.
pub fn parse_words_rpn(ts: &Vec<String>) -> (r: Result<Prop, &'static str>)
    ensures
        match r {
            Ok(p) => parse_words(ts@.map_values(|t: String| t@)) == Ok::<Formula, &'static str>(p@),
            Err(e) => parse_words(ts@.map_values(|t: String| t@)) == Err::<Formula, &'static str>(e),
        },
{
    let ghost words_v = ts@.map_values(|t: String| t@);
    let mut stack: Vec<Prop> = Vec::new();
    let mut i: usize = 0;
    assert(words_v.skip(0) =~= words_v);
    assert(views(stack@) =~= Seq::<Formula>::empty());
    while i < ts.len()
        invariant
            i <= ts.len(),
            words_v == ts@.map_values(|t: String| t@),
            run(seq![], words_v) == run(views(stack@), words_v.skip(i as int)),
        decreases ts.len() - i,
    {
        let ghost st = views(stack@);
        assert(words_v.skip(i as int).drop_first() =~= words_v.skip(i + 1));
        assert(words_v.skip(i as int)[0] == ts@[i as int]@);
        match read_word(&mut stack, &ts[i]) {
            Ok(()) => {},
            Err(e) => {
                return Err(e);
            },
        }
        i = i + 1;
    }
    assert(words_v.skip(i as int) =~= Seq::<Seq<char>>::empty());
    if stack.len() > 1 {
        return Err("At the end of parsing, > 1 item left unused in the accumulator");
    }
    match stack.pop() {
        None => Err("At the end of parsing, accumulator is empty"),
        Some(p) => Ok(p),
    }
}

impl Prop {
    /// Reads a proposition in reverse-Polish notation: words separated by white space,
    /// operators `=>`, `^`, `|`, `<=>`, `!`, constants `T` and `F`, any other word an atom.
    pub fn parse_rpn(s: &str) -> (r: Result<Prop, &'static str>)
        ensures
            match r {
                Ok(p) => parse_words(words(s@)) == Ok::<Formula, &'static str>(p@),
                Err(e) => parse_words(words(s@)) == Err::<Formula, &'static str>(e),
            },
    {
        let ts = split_words(s);
        parse_words_rpn(&ts)
    }
}

// ---------------------------------------------------------------------------
// Printing in reverse-Polish notation and reading back.
// ---------------------------------------------------------------------------

/// An atom name that reads back as itself: a non-empty word that is no keyword.
pub open spec fn plain_name(n: Seq<char>) -> bool {
    &&& n.len() > 0
    &&& forall|i: int| 0 <= i < n.len() ==> !is_white(#[trigger] n[i])
    &&& !is_keyword(n)
}

/// Every atom of `f` has a plain name.
pub open spec fn plain_atoms(f: Formula) -> bool
    decreases f,
{
    match f {
        Formula::Atom(n) => plain_name(n),
        Formula::Imp(a, b) => plain_atoms(*a) && plain_atoms(*b),
        Formula::Conj(a, b) => plain_atoms(*a) && plain_atoms(*b),
        Formula::Disj(a, b) => plain_atoms(*a) && plain_atoms(*b),
        Formula::Top => true,
        Formula::Bottom => true,
    }
}

/// The words of the reverse-Polish form of `f`.
pub open spec fn rpn_words(f: Formula) -> Seq<Seq<char>>
    decreases f,
{
    match f {
        Formula::Atom(n) => seq![n],
        Formula::Top => seq![seq!['T']],
        Formula::Bottom => seq![seq!['F']],
        Formula::Imp(a, b) => rpn_words(*a) + rpn_words(*b) + seq![tok_imp()],
        Formula::Conj(a, b) => rpn_words(*a) + rpn_words(*b) + seq![tok_and()],
        Formula::Disj(a, b) => rpn_words(*a) + rpn_words(*b) + seq![tok_or()],
    }
}

pub open spec fn starts_white(s: Seq<char>) -> bool {
    s.len() == 0 || is_white(s[0])
}

proof fn lemma_word_len_prefix(w: Seq<char>, rest: Seq<char>)
    requires
        forall|i: int| 0 <= i < w.len() ==> !is_white(#[trigger] w[i]),
        starts_white(rest),
    ensures
        word_len(w + rest) == w.len(),
    decreases w.len(),
{
    if w.len() > 0 {
        assert((w + rest).drop_first() =~= w.drop_first() + rest);
        assert forall|i: int| 0 <= i < w.drop_first().len() implies !is_white(
            #[trigger] w.drop_first()[i],
        ) by {
            assert(w.drop_first()[i] == w[i + 1]);
        }
        lemma_word_len_prefix(w.drop_first(), rest);
    } else {
        assert(w + rest =~= rest);
    }
}

proof fn lemma_words_prefix(w: Seq<char>, rest: Seq<char>)
    requires
        w.len() > 0,
        forall|i: int| 0 <= i < w.len() ==> !is_white(#[trigger] w[i]),
        starts_white(rest),
    ensures
        words(w + rest) == seq![w] + words(rest),
{
    lemma_word_len_prefix(w, rest);
    assert((w + rest)[0] == w[0]);
    assert((w + rest).take(w.len() as int) =~= w);
    assert((w + rest).skip(w.len() as int) =~= rest);
}

proof fn lemma_words_white(c: char, rest: Seq<char>)
    requires
        is_white(c),
    ensures
        words(seq![c] + rest) == words(rest),
{
    assert((seq![c] + rest).drop_first() =~= rest);
}

proof fn lemma_words_binary(f: Formula, a: Formula, b: Formula, op: Seq<char>, rest: Seq<char>)
    requires
        f == imp(a, b) || f == conj(a, b) || f == disj(a, b),
        plain_atoms(a),
        plain_atoms(b),
        op == tok_imp() || op == tok_and() || op == tok_or(),
        starts_white(rest),
    ensures
        words(rpn_text(a) + seq![' '] + rpn_text(b) + (seq![' '] + op) + rest) == rpn_words(a)
            + rpn_words(b) + seq![op] + words(rest),
    decreases f, 0int,
{
    assert(decreases_to!(f => a) && decreases_to!(f => b)) by {
        match f {
            Formula::Imp(x, y) => {
                assert(decreases_to!(f => *x));
                assert(decreases_to!(f => *y));
            },
            Formula::Conj(x, y) => {
                assert(decreases_to!(f => *x));
                assert(decreases_to!(f => *y));
            },
            Formula::Disj(x, y) => {
                assert(decreases_to!(f => *x));
                assert(decreases_to!(f => *y));
            },
            _ => {},
        }
    }
    let tail = seq![' '] + op + rest;
    let rest1 = seq![' '] + (rpn_text(b) + tail);
    assert(rpn_text(a) + seq![' '] + rpn_text(b) + (seq![' '] + op) + rest =~= rpn_text(a)
        + rest1);
    lemma_words_rpn(a, rest1);
    lemma_words_white(' ', rpn_text(b) + tail);
    lemma_words_rpn(b, tail);
    assert(tail =~= seq![' '] + (op + rest));
    lemma_words_white(' ', op + rest);
    lemma_words_prefix(op, rest);
    assert(rpn_words(a) + (rpn_words(b) + (seq![op] + words(rest))) =~= rpn_words(a) + rpn_words(
        b,
    ) + seq![op] + words(rest));
}

/// The words of the reverse-Polish text of `f`, followed by anything that starts
/// with white space, are the words of `f` followed by the words of the rest.
pub proof fn lemma_words_rpn(f: Formula, rest: Seq<char>)
    requires
        plain_atoms(f),
        starts_white(rest),
    ensures
        words(rpn_text(f) + rest) == rpn_words(f) + words(rest),
    decreases f, 1int,
{
    match f {
        Formula::Atom(n) => {
            lemma_words_prefix(n, rest);
        },
        Formula::Top => {
            lemma_words_prefix(seq!['T'], rest);
        },
        Formula::Bottom => {
            lemma_words_prefix(seq!['F'], rest);
        },
        Formula::Imp(a, b) => {
            assert(seq![' ', '=', '>'] =~= seq![' '] + tok_imp());
            lemma_words_binary(f, *a, *b, tok_imp(), rest);
        },
        Formula::Conj(a, b) => {
            assert(seq![' ', '^'] =~= seq![' '] + tok_and());
            lemma_words_binary(f, *a, *b, tok_and(), rest);
        },
        Formula::Disj(a, b) => {
            assert(seq![' ', '|'] =~= seq![' '] + tok_or());
            lemma_words_binary(f, *a, *b, tok_or(), rest);
        },
    }
}

proof fn lemma_run_cons(stack: Seq<Formula>, t: Seq<char>, ts: Seq<Seq<char>>)
    ensures
        run(stack, seq![t] + ts) == match step(stack, t) {
            Ok(next) => run(next, ts),
            Err(e) => Err(e),
        },
{
    assert((seq![t] + ts)[0] == t);
    assert((seq![t] + ts).drop_first() =~= ts);
}

proof fn lemma_run_binary(
    f: Formula,
    stack: Seq<Formula>,
    a: Formula,
    b: Formula,
    op: int,
    ts: Seq<Seq<char>>,
)
    requires
        f == imp(a, b) || f == conj(a, b) || f == disj(a, b),
        plain_atoms(a),
        plain_atoms(b),
        0 <= op <= 2,
    ensures
        run(
            stack,
            rpn_words(a) + rpn_words(b) + seq![
                if op == 0 {
                    tok_imp()
                } else if op == 1 {
                    tok_and()
                } else {
                    tok_or()
                },
            ] + ts,
        ) == run(stack.push(combine(op, a, b)), ts),
    decreases f, 0int,
{
    assert(decreases_to!(f => a) && decreases_to!(f => b)) by {
        match f {
            Formula::Imp(x, y) => {
                assert(decreases_to!(f => *x));
                assert(decreases_to!(f => *y));
            },
            Formula::Conj(x, y) => {
                assert(decreases_to!(f => *x));
                assert(decreases_to!(f => *y));
            },
            Formula::Disj(x, y) => {
                assert(decreases_to!(f => *x));
                assert(decreases_to!(f => *y));
            },
            _ => {},
        }
    }
    let t = if op == 0 {
        tok_imp()
    } else if op == 1 {
        tok_and()
    } else {
        tok_or()
    };
    assert(rpn_words(a) + rpn_words(b) + seq![t] + ts =~= rpn_words(a) + (rpn_words(b) + (seq![t]
        + ts)));
    lemma_run_rpn(stack, a, rpn_words(b) + (seq![t] + ts));
    lemma_run_rpn(stack.push(a), b, seq![t] + ts);
    lemma_run_cons(stack.push(a).push(b), t, ts);
    let st = stack.push(a).push(b);
    assert(st.subrange(0, st.len() - 2) =~= stack);
    assert(st[st.len() - 2] == a);
    assert(st[st.len() - 1] == b);
    lemma_keywords_distinct();
    assert(step(st, t) == apply_binary(st, op));
}

/// Reading the words of `f` pushes `f` on the stack.
pub proof fn lemma_run_rpn(stack: Seq<Formula>, f: Formula, ts: Seq<Seq<char>>)
    requires
        plain_atoms(f),
    ensures
        run(stack, rpn_words(f) + ts) == run(stack.push(f), ts),
    decreases f, 1int,
{
    match f {
        Formula::Atom(n) => {
            lemma_run_cons(stack, n, ts);
            assert(rpn_words(f) + ts =~= seq![n] + ts);
            assert(step(stack, n) == Ok::<Seq<Formula>, &'static str>(stack.push(f)));
        },
        Formula::Top => {
            lemma_run_cons(stack, seq!['T'], ts);
            assert(rpn_words(f) + ts =~= seq![seq!['T']] + ts);
            lemma_keywords_distinct();
        },
        Formula::Bottom => {
            lemma_run_cons(stack, seq!['F'], ts);
            assert(rpn_words(f) + ts =~= seq![seq!['F']] + ts);
            lemma_keywords_distinct();
            assert(seq!['F'][0] != seq!['T'][0]);
        },
        Formula::Imp(a, b) => {
            lemma_run_binary(f, stack, *a, *b, 0, ts);
        },
        Formula::Conj(a, b) => {
            lemma_run_binary(f, stack, *a, *b, 1, ts);
        },
        Formula::Disj(a, b) => {
            lemma_run_binary(f, stack, *a, *b, 2, ts);
        },
    }
}

/// Printing a proposition in reverse-Polish notation and reading the text back gives
/// the same proposition, provided that every atom name is a non-empty word without
/// white space that is not an operator or a constant.
pub proof fn lemma_rpn_round_trip(f: Formula)
    requires
        plain_atoms(f),
    ensures
        parse_words(words(rpn_text(f))) == Ok::<Formula, &'static str>(f),
{
    lemma_words_rpn(f, seq![]);
    assert(rpn_text(f) + Seq::<char>::empty() =~= rpn_text(f));
    assert(words(Seq::<char>::empty()) =~= Seq::<Seq<char>>::empty());
    assert(rpn_words(f) + Seq::<Seq<char>>::empty() =~= rpn_words(f));
    lemma_run_rpn(seq![], f, seq![]);
    assert(Seq::<Formula>::empty().push(f) =~= seq![f]);
}

} // verus!
