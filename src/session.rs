use crate::applicable::Step;
use crate::backtrack::solves;
use crate::logic::Prop;
use crate::rpn::{is_white, parse_words, same_text, words};
use crate::strategies::{clean_view, execute_message, tactic_on, Proof, ProofView, StrategyArg};
use vstd::prelude::*;
use vstd::string::StrSliceExecFns;
use vstd::string::StringExecFns;

verus! {

// ---------------------------------------------------------------------------
// Text helpers: trimming, splitting at the first white space, reading a number.
// ---------------------------------------------------------------------------

pub open spec fn trim_start(s: Seq<char>) -> Seq<char>
    decreases s.len(),
{
    if s.len() > 0 && is_white(s[0]) {
        trim_start(s.drop_first())
    } else {
        s
    }
}

pub open spec fn trim_end(s: Seq<char>) -> Seq<char>
    decreases s.len(),
{
    if s.len() > 0 && is_white(s.last()) {
        trim_end(s.drop_last())
    } else {
        s
    }
}

/// `s` without white space at either end.
pub open spec fn trim(s: Seq<char>) -> Seq<char> {
    trim_end(trim_start(s))
}

/// Index of the first white space character of `s`, or -1.
pub open spec fn white_at(s: Seq<char>) -> int
    decreases s.len(),
{
    if s.len() == 0 {
        -1
    } else if is_white(s[0]) {
        0
    } else {
        let r = white_at(s.drop_first());
        if r < 0 {
            -1
        } else {
            r + 1
        }
    }
}

/// The text before and after the first white space character.
pub open spec fn split_white(s: Seq<char>) -> Option<(Seq<char>, Seq<char>)> {
    let i = white_at(s);
    if i < 0 {
        None
    } else {
        Some((s.take(i), s.skip(i + 1)))
    }
}

pub open spec fn is_digit(c: char) -> bool {
    '0' as u32 <= c as u32 && c as u32 <= '9' as u32
}

pub open spec fn digits_value(s: Seq<char>) -> nat
    decreases s.len(),
{
    if s.len() == 0 {
        0
    } else {
        digits_value(s.drop_last()) * 10 + (s.last() as u32 - '0' as u32) as nat
    }
}

/// `s` without a leading `+`.
pub open spec fn unsigned_part(s: Seq<char>) -> Seq<char> {
    if s.len() > 0 && s[0] == '+' {
        s.drop_first()
    } else {
        s
    }
}

/// Digits only, at least one, of a value that fits in `usize`.
pub open spec fn digits_number(t: Seq<char>) -> Option<usize> {
    if t.len() > 0 && (forall|i: int| 0 <= i < t.len() ==> is_digit(#[trigger] t[i]))
        && digits_value(t) <= usize::MAX {
        Some(digits_value(t) as usize)
    } else {
        None
    }
}

/// A decimal number that fits in `usize`, with an optional leading `+`.
pub open spec fn parse_number(s: Seq<char>) -> Option<usize> {
    digits_number(unsigned_part(s))
}

proof fn lemma_trim_start_skip(s: Seq<char>, i: int)
    requires
        0 <= i < s.len(),
        is_white(s[i]),
    ensures
        trim_start(s.skip(i)) == trim_start(s.skip(i + 1)),
{
    assert(s.skip(i).drop_first() =~= s.skip(i + 1));
}

proof fn lemma_trim_end_take(s: Seq<char>, j: int)
    requires
        0 < j <= s.len(),
        is_white(s[j - 1]),
    ensures
        trim_end(s.take(j)) == trim_end(s.take(j - 1)),
{
    assert(s.take(j).drop_last() =~= s.take(j - 1));
}

fn trimmed(s: &str) -> (r: &str)
    ensures
        r@ == trim(s@),
{
    let n = s.unicode_len();
    let mut i: usize = 0;
    assert(s@.skip(0) =~= s@);
    while i < n && crate::rpn::white_char(s.get_char(i))
        invariant
            n == s@.len(),
            i <= n,
            trim_start(s@) == trim_start(s@.skip(i as int)),
        decreases n - i,
    {
        proof {
            lemma_trim_start_skip(s@, i as int);
        }
        i = i + 1;
    }
    let ghost u = s@.skip(i as int);
    assert(trim_start(s@) == u) by {
        if i < n {
            assert(u[0] == s@[i as int]);
        }
    }
    let mut j: usize = n;
    assert(u.take(u.len() as int) =~= u);
    while j > i && crate::rpn::white_char(s.get_char(j - 1))
        invariant
            n == s@.len(),
            i <= j <= n,
            u == s@.skip(i as int),
            trim_end(u) == trim_end(u.take(j - i)),
        decreases j,
    {
        proof {
            assert(u[j - i - 1] == s@[j - 1]);
            lemma_trim_end_take(u, j - i);
        }
        j = j - 1;
    }
    assert(trim_end(u.take(j - i)) == u.take(j - i)) by {
        if j > i {
            assert(u.take(j - i).last() == s@[j - 1]);
        }
    }
    let r = s.substring_char(i, j);
    assert(r@ =~= u.take(j - i));
    r
}

proof fn lemma_white_at(s: Seq<char>, i: int)
    requires
        0 <= i <= s.len(),
        forall|k: int| 0 <= k < i ==> !is_white(s[k]),
        i == s.len() || is_white(s[i]),
    ensures
        white_at(s) == if i == s.len() {
            -1
        } else {
            i
        },
    decreases i,
{
    if i > 0 {
        let t = s.drop_first();
        assert forall|k: int| 0 <= k < i - 1 implies !is_white(t[k]) by {
            assert(t[k] == s[k + 1]);
        }
        if i < s.len() {
            assert(t[i - 1] == s[i]);
        }
        lemma_white_at(t, i - 1);
    }
}

fn split_at_white<'a>(s: &'a str) -> (r: Option<(&'a str, &'a str)>)
    ensures
        match split_white(s@) {
            Some((a, b)) => r matches Some((x, y)) && x@ == a && y@ == b,
            None => r is None,
        },
{
    let n = s.unicode_len();
    let mut i: usize = 0;
    while i < n && !crate::rpn::white_char(s.get_char(i))
        invariant
            n == s@.len(),
            i <= n,
            forall|k: int| 0 <= k < i ==> !is_white(s@[k]),
        decreases n - i,
    {
        i = i + 1;
    }
    proof {
        lemma_white_at(s@, i as int);
    }
    if i == n {
        None
    } else {
        let a = s.substring_char(0, i);
        let b = s.substring_char(i + 1, n);
        assert(a@ =~= s@.take(i as int));
        assert(b@ =~= s@.skip(i as int + 1));
        Some((a, b))
    }
}

proof fn lemma_digits_value_take(t: Seq<char>, i: int)
    requires
        0 <= i < t.len(),
    ensures
        digits_value(t.take(i + 1)) == digits_value(t.take(i)) * 10 + (t[i] as u32 - '0' as u32) as nat,
{
    assert(t.take(i + 1).drop_last() =~= t.take(i));
}

proof fn lemma_digits_value_mono(t: Seq<char>, i: int)
    requires
        0 <= i <= t.len(),
    ensures
        digits_value(t.take(i)) <= digits_value(t),
    decreases t.len() - i,
{
    if i < t.len() {
        lemma_digits_value_take(t, i);
        lemma_digits_value_mono(t, i + 1);
    } else {
        assert(t.take(i) =~= t);
    }
}

fn read_number(s: &str) -> (r: Option<usize>)
    ensures
        r == parse_number(s@),
{
    let n = s.unicode_len();
    let mut start: usize = 0;
    if n > 0 && s.get_char(0) == '+' {
        start = 1;
    }
    let ghost t = unsigned_part(s@);
    assert(t =~= s@.skip(start as int));
    if start == n {
        return None;
    }
    let mut value: usize = 0;
    let mut i: usize = start;
    assert(t.take(0) =~= Seq::<char>::empty());
    while i < n
        invariant
            n == s@.len(),
            start <= i <= n,
            start < n,
            t == s@.skip(start as int),
            t == unsigned_part(s@),
            forall|k: int| 0 <= k < i - start ==> is_digit(#[trigger] t[k]),
            value == digits_value(t.take(i - start)),
        decreases n - i,
    {
        let c = s.get_char(i);
        assert(t[i - start] == c);
        if !((c as u32) >= ('0' as u32) && (c as u32) <= ('9' as u32)) {
            assert(!is_digit(t[i - start]));
            return None;
        }
        let d = (c as u32 - '0' as u32) as usize;
        proof {
            lemma_digits_value_take(t, i - start);
        }
        if value > (usize::MAX - d) / 10 {
            proof {
                assert(value * 10 + d > usize::MAX) by (nonlinear_arith)
                    requires
                        value > (usize::MAX - d) / 10,
                        d <= 9,
                ;
                lemma_digits_value_mono(t, i - start + 1);
            }
            return None;
        }
        assert(value * 10 + d <= usize::MAX) by (nonlinear_arith)
            requires
                value <= (usize::MAX - d) / 10,
                d <= 9,
        ;
        value = value * 10 + d;
        i = i + 1;
    }
    assert(t.take(n - start) =~= t);
    Some(value)
}

// ---------------------------------------------------------------------------
// Commands.
// ---------------------------------------------------------------------------

/// A command of the interactive loop, as read from a line.
pub enum Cmd {
    Load(Seq<char>),
    Save(Seq<char>),
    AddGoal(Seq<char>),
    SetActive(usize),
    Run(StrategyArg),
    Quit,
    Info,
    Purge,
    Back,
    Auto,
    Clean,
}

pub open spec fn indexed_tactic(w: Seq<char>, n: usize) -> Option<StrategyArg> {
    if w == "hyp_split"@ {
        Some(StrategyArg::HypSplit(n))
    } else if w == "hyp_left"@ {
        Some(StrategyArg::HypOrSplit(n, true))
    } else if w == "hyp_right"@ {
        Some(StrategyArg::HypOrSplit(n, false))
    } else if w == "exact"@ {
        Some(StrategyArg::Exact(n))
    } else if w == "apply"@ {
        Some(StrategyArg::Apply(n))
    } else {
        None
    }
}

pub open spec fn is_indexed(w: Seq<char>) -> bool {
    w == "hyp_split"@ || w == "hyp_left"@ || w == "hyp_right"@ || w == "exact"@ || w == "apply"@
}

pub open spec fn apply_in_command(rest: Seq<char>, keep: bool) -> Result<Cmd, &'static str> {
    match split_white(trim(rest)) {
        Some((a, b)) => match (parse_number(trim(a)), parse_number(trim(b))) {
            (Some(x), Some(y)) => Ok(Cmd::Run(StrategyArg::ApplyIn(x, y, keep))),
            (Some(_), None) => Err("first argument incorrect: <hyp id (0..N) target>"),
            (None, Some(_)) => Err("second argument incorrect: <hyp id (0..N) to apply>"),
            (None, None) => Err(
                "arguments incorrect: <hyp id (0..N) target> <hyp id (0..N) to apply>",
            ),
        },
        None => Err("missing argument: <hyp id (0..N) to apply>"),
    }
}

/// A command word followed by its argument.
pub open spec fn command_with(w: Seq<char>, rest: Seq<char>) -> Result<Cmd, &'static str> {
    if w == "load"@ {
        Ok(Cmd::Load(trim(rest)))
    } else if w == "save"@ {
        Ok(Cmd::Save(trim(rest)))
    } else if w == "add_goal_rpn"@ {
        Ok(Cmd::AddGoal(rest))
    } else if w == "set_active"@ {
        match parse_number(trim(rest)) {
            Some(n) => if n == 0 {
                Err("Invalid argument")
            } else {
                Ok(Cmd::SetActive(n))
            },
            None => Err("Invalid argument"),
        }
    } else if is_indexed(w) {
        match parse_number(trim(rest)) {
            Some(n) => Ok(Cmd::Run(indexed_tactic(w, n)->Some_0)),
            None => Err("Invalid argument"),
        }
    } else if w == "apply_in"@ {
        apply_in_command(rest, false)
    } else if w == "apply_in_keep"@ {
        apply_in_command(rest, true)
    } else {
        Err("Unknown command")
    }
}

/// A command word alone.
pub open spec fn command_alone(t: Seq<char>) -> Result<Cmd, &'static str> {
    if t == "quit"@ {
        Ok(Cmd::Quit)
    } else if t == "info"@ {
        Ok(Cmd::Info)
    } else if t == "purge"@ {
        Ok(Cmd::Purge)
    } else if t == "back"@ {
        Ok(Cmd::Back)
    } else if t == "auto"@ {
        Ok(Cmd::Auto)
    } else if t == "intro"@ {
        Ok(Cmd::Run(StrategyArg::Intro))
    } else if t == "clean"@ {
        Ok(Cmd::Clean)
    } else if t == "split"@ {
        Ok(Cmd::Run(StrategyArg::Split))
    } else if t == "left"@ {
        Ok(Cmd::Run(StrategyArg::OrSplit(true)))
    } else if t == "right"@ {
        Ok(Cmd::Run(StrategyArg::OrSplit(false)))
    } else if t == "false"@ {
        Ok(Cmd::Run(StrategyArg::FalseIsHyp))
    } else if t == "add_goal_rpn"@ {
        Err("missing argument: <proposition rpn format>")
    } else if t == "set_active"@ {
        Err("missing argument: <goal index (1..N)>")
    } else if is_indexed(t) {
        Err("missing argument: <hyp id (0..N)>")
    } else if t == "apply_in"@ {
        Err("missing arguments: <hyp id (0..N) target> <hyp id (0..N) to apply>")
    } else {
        Err("Unknown command")
    }
}

/// The command that a line of input names, or why it names none.
pub open spec fn command(line: Seq<char>) -> Result<Cmd, &'static str> {
    let t = trim(line);
    match split_white(t) {
        Some((w, rest)) => command_with(w, rest),
        None => command_alone(t),
    }
}

/// A command read from a line, with its arguments as values.
pub enum Command {
    Load(String),
    Save(String),
    AddGoal(String),
    SetActive(usize),
    Run(StrategyArg),
    Quit,
    Info,
    Purge,
    Back,
    Auto,
    Clean,
}

impl View for Command {
    type V = Cmd;

    open spec fn view(&self) -> Cmd {
        match self {
            Command::Load(p) => Cmd::Load(p@),
            Command::Save(p) => Cmd::Save(p@),
            Command::AddGoal(t) => Cmd::AddGoal(t@),
            Command::SetActive(n) => Cmd::SetActive(*n),
            Command::Run(t) => Cmd::Run(*t),
            Command::Quit => Cmd::Quit,
            Command::Info => Cmd::Info,
            Command::Purge => Cmd::Purge,
            Command::Back => Cmd::Back,
            Command::Auto => Cmd::Auto,
            Command::Clean => Cmd::Clean,
        }
    }
}

pub open spec fn read_as(r: Result<Command, &'static str>, c: Result<Cmd, &'static str>) -> bool {
    match c {
        Ok(x) => r matches Ok(y) && y@ == x,
        Err(e) => r == Err::<Command, &'static str>(e),
    }
}

fn read_apply_in(rest: &str, keep: bool) -> (r: Result<Command, &'static str>)
    ensures
        read_as(r, apply_in_command(rest@, keep)),
{
    match split_at_white(trimmed(rest)) {
        Some((a, b)) => match (read_number(trimmed(a)), read_number(trimmed(b))) {
            (Some(x), Some(y)) => Ok(Command::Run(StrategyArg::ApplyIn(x, y, keep))),
            (Some(_), None) => Err("first argument incorrect: <hyp id (0..N) target>"),
            (None, Some(_)) => Err("second argument incorrect: <hyp id (0..N) to apply>"),
            (None, None) => Err(
                "arguments incorrect: <hyp id (0..N) target> <hyp id (0..N) to apply>",
            ),
        },
        None => Err("missing argument: <hyp id (0..N) to apply>"),
    }
}

fn read_indexed(w: &str, n: usize) -> (r: StrategyArg)
    requires
        is_indexed(w@),
    ensures
        indexed_tactic(w@, n) == Some(r),
{
    if same_text(w, "hyp_split") {
        StrategyArg::HypSplit(n)
    } else if same_text(w, "hyp_left") {
        StrategyArg::HypOrSplit(n, true)
    } else if same_text(w, "hyp_right") {
        StrategyArg::HypOrSplit(n, false)
    } else if same_text(w, "exact") {
        StrategyArg::Exact(n)
    } else {
        StrategyArg::Apply(n)
    }
}

fn is_indexed_word(w: &str) -> (r: bool)
    ensures
        r == is_indexed(w@),
{
    same_text(w, "hyp_split") || same_text(w, "hyp_left") || same_text(w, "hyp_right")
        || same_text(w, "exact") || same_text(w, "apply")
}

fn read_command_with(w: &str, rest: &str) -> (r: Result<Command, &'static str>)
    ensures
        read_as(r, command_with(w@, rest@)),
{
    if same_text(w, "load") {
        Ok(Command::Load(String::from_str(trimmed(rest))))
    } else if same_text(w, "save") {
        Ok(Command::Save(String::from_str(trimmed(rest))))
    } else if same_text(w, "add_goal_rpn") {
        Ok(Command::AddGoal(String::from_str(rest)))
    } else if same_text(w, "set_active") {
        match read_number(trimmed(rest)) {
            Some(n) => if n == 0 {
                Err("Invalid argument")
            } else {
                Ok(Command::SetActive(n))
            },
            None => Err("Invalid argument"),
        }
    } else if is_indexed_word(w) {
        match read_number(trimmed(rest)) {
            Some(n) => Ok(Command::Run(read_indexed(w, n))),
            None => Err("Invalid argument"),
        }
    } else if same_text(w, "apply_in") {
        read_apply_in(rest, false)
    } else if same_text(w, "apply_in_keep") {
        read_apply_in(rest, true)
    } else {
        Err("Unknown command")
    }
}

fn read_command_alone(t: &str) -> (r: Result<Command, &'static str>)
    ensures
        read_as(r, command_alone(t@)),
{
    if same_text(t, "quit") {
        Ok(Command::Quit)
    } else if same_text(t, "info") {
        Ok(Command::Info)
    } else if same_text(t, "purge") {
        Ok(Command::Purge)
    } else if same_text(t, "back") {
        Ok(Command::Back)
    } else if same_text(t, "auto") {
        Ok(Command::Auto)
    } else if same_text(t, "intro") {
        Ok(Command::Run(StrategyArg::Intro))
    } else if same_text(t, "clean") {
        Ok(Command::Clean)
    } else if same_text(t, "split") {
        Ok(Command::Run(StrategyArg::Split))
    } else if same_text(t, "left") {
        Ok(Command::Run(StrategyArg::OrSplit(true)))
    } else if same_text(t, "right") {
        Ok(Command::Run(StrategyArg::OrSplit(false)))
    } else if same_text(t, "false") {
        Ok(Command::Run(StrategyArg::FalseIsHyp))
    } else if same_text(t, "add_goal_rpn") {
        Err("missing argument: <proposition rpn format>")
    } else if same_text(t, "set_active") {
        Err("missing argument: <goal index (1..N)>")
    } else if is_indexed_word(t) {
        Err("missing argument: <hyp id (0..N)>")
    } else if same_text(t, "apply_in") {
        Err("missing arguments: <hyp id (0..N) target> <hyp id (0..N) to apply>")
    } else {
        Err("Unknown command")
    }
}

/// Reads the command that a line of input names.
pub fn read_command(line: &str) -> (r: Result<Command, &'static str>)
    ensures
        read_as(r, command(line@)),
{
    let t = trimmed(line);
    match split_at_white(t) {
        Some((w, rest)) => read_command_with(w, rest),
        None => read_command_alone(t),
    }
}

/// What the interactive loop does after a line of input.
#[derive(Debug, PartialEq)]
pub enum Reply {
    /// Leave the loop.
    Quit,
    /// The proof changed; the previous one goes on the history.
    Done,
    /// The previous proof was restored from the history.
    Back,
    /// Read the proof saved at this path.
    Load(String),
    /// Save the proof at this path.
    Save(String),
    /// Report on the active goal.
    Info,
    /// The solver closed every goal with these steps; the proof is now empty.
    Solved(Vec<Step>),
}

pub open spec fn proof_views(v: Seq<Proof>) -> Seq<ProofView> {
    v.map_values(|q: Proof| q@)
}

/// What `parse_input` does for command `c` on proof `before` with history `hist`.
pub open spec fn reply_for(
    before: ProofView,
    hist: Seq<ProofView>,
    c: Cmd,
    after: ProofView,
    hist_after: Seq<ProofView>,
    r: Result<Reply, &'static str>,
) -> bool {
    match c {
        Cmd::Load(path) => (r matches Ok(Reply::Load(p)) && p@ == path) && after == before
            && hist_after == hist,
        Cmd::Save(path) => (r matches Ok(Reply::Save(p)) && p@ == path) && after == before
            && hist_after == hist,
        Cmd::AddGoal(text) => hist_after == hist && match parse_words(words(text)) {
            Ok(f) => (r matches Ok(Reply::Done)) && after.goals == before.goals.push(
                (f, Seq::empty()),
            ) && after.active == before.active,
            Err(e) => r == Err::<Reply, &'static str>(e) && after == before,
        },
        Cmd::SetActive(n) => hist_after == hist && after.goals == before.goals && if n - 1
            < before.goals.len() {
            (r matches Ok(Reply::Done)) && after.active == n - 1
        } else {
            r == Err::<Reply, &'static str>("Out of bounds") && after.active == before.active
        },
        Cmd::Run(t) => hist_after == hist && match tactic_on(before, t) {
            Ok(v) => (r matches Ok(Reply::Done)) && after == v,
            Err(e) => r == Err::<Reply, &'static str>(execute_message(e)) && after == before,
        },
        Cmd::Quit => (r matches Ok(Reply::Quit)) && after == before && hist_after == hist,
        Cmd::Info => (r matches Ok(Reply::Info)) && after == before && hist_after == hist,
        Cmd::Purge => (r matches Ok(Reply::Done)) && after.goals.len() == 0 && after.active == 0
            && hist_after.len() == 0,
        Cmd::Back => if hist.len() > 0 {
            (r matches Ok(Reply::Back)) && after == hist.last() && hist_after == hist.drop_last()
        } else {
            r == Err::<Reply, &'static str>("Cannot go back further") && after == before
                && hist_after == hist
        },
        Cmd::Auto => hist_after == hist && match r {
            Ok(Reply::Solved(steps)) => solves(before, steps@) && after.goals.len() == 0
                && after.active == 0,
            Err(e) => e == "Could not solve using auto" && after == before && forall|steps: Seq<
                Step,
            >| !solves(before, steps),
            _ => false,
        },
        Cmd::Clean => (r matches Ok(Reply::Done)) && after == clean_view(before) && hist_after
            == hist,
    }
}

/// Carries out one line of input on the proof and its history of earlier states.
pub fn parse_input(proof: &mut Proof, prevs: &mut Vec<Proof>, input: &str) -> (r: Result<
    Reply,
    &'static str,
>)
    requires
        old(proof).well_formed(),
        old(proof)@.goals.len() < usize::MAX,
        forall|i: int| 0 <= i < old(prevs)@.len() ==> (#[trigger] old(prevs)@[i]).well_formed(),
    ensures
        final(proof).well_formed(),
        forall|i: int| 0 <= i < final(prevs)@.len() ==> (#[trigger] final(prevs)@[i]).well_formed(),
        match command(input@) {
            Ok(c) => reply_for(
                old(proof)@,
                proof_views(old(prevs)@),
                c,
                final(proof)@,
                proof_views(final(prevs)@),
                r,
            ),
            Err(e) => r == Err::<Reply, &'static str>(e) && final(proof)@ == old(proof)@
                && final(prevs)@ == old(prevs)@,
        },
{
    let cmd = match read_command(input) {
        Err(e) => {
            return Err(e);
        },
        Ok(c) => c,
    };
    match cmd {
        Command::Load(p) => Ok(Reply::Load(p)),
        Command::Save(p) => Ok(Reply::Save(p)),
        Command::AddGoal(text) => match Prop::parse_rpn(text.as_str()) {
            Ok(prop) => {
                proof.add_goal_from_prop(prop);
                Ok(Reply::Done)
            },
            Err(e) => Err(e),
        },
        Command::SetActive(n) => match proof.set_active_goal(n - 1) {
            Ok(()) => Ok(Reply::Done),
            Err(e) => Err(e),
        },
        Command::Run(t) => match proof.execute(&t) {
            Ok(()) => Ok(Reply::Done),
            Err(e) => Err(e),
        },
        Command::Quit => Ok(Reply::Quit),
        Command::Info => Ok(Reply::Info),
        Command::Purge => {
            *proof = Proof::new();
            *prevs = Vec::new();
            assert(proof_views(prevs@) =~= Seq::<ProofView>::empty());
            Ok(Reply::Done)
        },
        Command::Back => {
            let ghost before = prevs@;
            match prevs.pop() {
                Some(a) => {
                    assert(before[before.len() - 1] == a);
                    *proof = a;
                    assert(proof_views(prevs@) =~= proof_views(before).drop_last());
                    Ok(Reply::Back)
                },
                None => Err("Cannot go back further"),
            }
        },
        Command::Auto => match crate::backtrack::auto(proof) {
            Ok(steps) => {
                *proof = Proof::new();
                Ok(Reply::Solved(steps))
            },
            Err(()) => Err("Could not solve using auto"),
        },
        Command::Clean => {
            proof.clean();
            Ok(Reply::Done)
        },
    }
}

} // verus!
