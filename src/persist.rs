use crate::logic::{rpn_text, Formula, Prop};
use crate::rpn::{lemma_rpn_round_trip, parse_words, plain_atoms, same_text, words};
use crate::strategies::{Proof, ProofView};
use vstd::prelude::*;
use vstd::string::StrSliceExecFns;
use vstd::string::StringExecFns;

verus! {

// ---------------------------------------------------------------------------
// The line format of a saved proof: `G:<rpn>` starts a goal, `H:<rpn>` adds a
// hypothesis to the goal started last. Other lines are ignored.
// ---------------------------------------------------------------------------

/// Index of the first `:` of `l`, or -1.
pub open spec fn colon_at(l: Seq<char>) -> int
    decreases l.len(),
{
    if l.len() == 0 {
        -1
    } else if l[0] == ':' {
        0
    } else {
        let r = colon_at(l.drop_first());
        if r < 0 {
            -1
        } else {
            r + 1
        }
    }
}

pub open spec fn err_hyp_first() -> &'static str {
    "Hypothesis before any goal"
}

/// The state after one more line.
pub open spec fn load_line(p: ProofView, l: Seq<char>) -> Result<ProofView, &'static str> {
    let i = colon_at(l);
    if i < 0 {
        Ok(p)
    } else {
        let verb = l.take(i);
        let param = l.skip(i + 1);
        if verb == seq!['G'] {
            match parse_words(words(param)) {
                Ok(f) => Ok(
                    ProofView { goals: p.goals.push((f, Seq::empty())), active: p.goals.len() as int },
                ),
                Err(e) => Err(e),
            }
        } else if verb == seq!['H'] {
            if p.goals.len() == 0 {
                Err(err_hyp_first())
            } else {
                match parse_words(words(param)) {
                    Ok(f) => Ok(
                        ProofView {
                            goals: p.goals.update(
                                p.active,
                                (p.goals[p.active].0, p.goals[p.active].1.push(f)),
                            ),
                            active: p.active,
                        },
                    ),
                    Err(e) => Err(e),
                }
            }
        } else {
            Ok(p)
        }
    }
}

/// The proof that the lines describe, read in order, or the first error.
pub open spec fn load_lines(lines: Seq<Seq<char>>) -> Result<ProofView, &'static str>
    decreases lines.len(),
{
    if lines.len() == 0 {
        Ok(ProofView { goals: Seq::empty(), active: 0 })
    } else {
        match load_lines(lines.drop_last()) {
            Ok(p) => load_line(p, lines.last()),
            Err(e) => Err(e),
        }
    }
}

/// The lines of one goal: its conclusion, then its hypotheses.
pub open spec fn goal_lines(g: (Formula, Seq<Formula>)) -> Seq<Seq<char>> {
    seq![seq!['G', ':'] + rpn_text(g.0)] + g.1.map_values(|h: Formula| seq!['H', ':'] + rpn_text(h))
}

pub open spec fn save_lines(gs: Seq<(Formula, Seq<Formula>)>) -> Seq<Seq<char>>
    decreases gs.len(),
{
    if gs.len() == 0 {
        seq![]
    } else {
        save_lines(gs.drop_last()) + goal_lines(gs.last())
    }
}

proof fn lemma_colon_at(l: Seq<char>, i: int)
    requires
        0 <= i <= l.len(),
        forall|k: int| 0 <= k < i ==> l[k] != ':',
        i == l.len() || l[i] == ':',
    ensures
        colon_at(l) == if i == l.len() {
            -1
        } else {
            i
        },
    decreases i,
{
    if i > 0 {
        let t = l.drop_first();
        assert forall|k: int| 0 <= k < i - 1 implies t[k] != ':' by {
            assert(t[k] == l[k + 1]);
        }
        if i < l.len() {
            assert(t[i - 1] == l[i]);
        }
        lemma_colon_at(t, i - 1);
    }
}

fn find_colon(l: &str) -> (r: Option<usize>)
    ensures
        match r {
            Some(i) => colon_at(l@) == i as int && (i as int) < l@.len(),
            None => colon_at(l@) == -1,
        },
{
    let n = l.unicode_len();
    let mut i: usize = 0;
    while i < n && l.get_char(i) != ':'
        invariant
            n == l@.len(),
            i <= n,
            forall|k: int| 0 <= k < i ==> l@[k] != ':',
        decreases n - i,
    {
        i = i + 1;
    }
    proof {
        lemma_colon_at(l@, i as int);
    }
    if i == n {
        None
    } else {
        Some(i)
    }
}

fn load_one(proof: &mut Proof, l: &str) -> (r: Result<(), &'static str>)
    requires
        old(proof).well_formed(),
        old(proof)@.goals.len() < usize::MAX,
    ensures
        final(proof).well_formed(),
        match load_line(old(proof)@, l@) {
            Ok(v) => r == Ok::<(), &'static str>(()) && final(proof)@ == v,
            Err(e) => r == Err::<(), &'static str>(e),
        },
{
    proof {
        reveal_strlit("G");
        reveal_strlit("H");
        assert("G"@ =~= seq!['G']);
        assert("H"@ =~= seq!['H']);
    }
    let i = match find_colon(l) {
        None => {
            return Ok(());
        },
        Some(i) => i,
    };
    let n = l.unicode_len();
    let verb = l.substring_char(0, i);
    let param = l.substring_char(i + 1, n);
    assert(verb@ =~= l@.take(i as int));
    assert(param@ =~= l@.skip(i as int + 1));
    if same_text(verb, "G") {
        match Prop::parse_rpn(param) {
            Ok(prop) => {
                proof.add_goal_from_prop(prop);
                let last = proof.number_of_goals() - 1;
                let _ = proof.set_active_goal(last);
                Ok(())
            },
            Err(e) => Err(e),
        }
    } else if same_text(verb, "H") {
        if proof.number_of_goals() == 0 {
            return Err("Hypothesis before any goal");
        }
        match Prop::parse_rpn(param) {
            Ok(prop) => {
                proof.add_hyp_from_prop(prop);
                Ok(())
            },
            Err(e) => Err(e),
        }
    } else {
        Ok(())
    }
}

impl Proof {
    /// Reads a proof from the lines of its saved form; the goal read last is active.
    pub fn from_lines(lines: &Vec<String>) -> (r: Result<Proof, &'static str>)
        ensures
            match load_lines(lines@.map_values(|l: String| l@)) {
                Ok(v) => r matches Ok(p) && p@ == v && p.well_formed(),
                Err(e) => r == Err::<Proof, &'static str>(e),
            },
    {
        let ghost ls = lines@.map_values(|l: String| l@);
        let mut proof = Proof::new();
        let mut i: usize = 0;
        assert(ls.take(0) =~= Seq::<Seq<char>>::empty());
        assert(proof@.goals =~= Seq::<(Formula, Seq<Formula>)>::empty());
        assert(load_lines(ls.take(0)) == Ok::<ProofView, &'static str>(proof@));
        while i < lines.len()
            invariant
                i <= lines.len(),
                ls == lines@.map_values(|l: String| l@),
                proof.well_formed(),
                proof@.goals.len() <= i,
                load_lines(ls.take(i as int)) == Ok::<ProofView, &'static str>(proof@),
            decreases lines.len() - i,
        {
            assert(ls.take(i + 1).drop_last() =~= ls.take(i as int));
            assert(ls.take(i + 1).last() == lines@[i as int]@);
            match load_one(&mut proof, lines[i].as_str()) {
                Ok(()) => {},
                Err(e) => {
                    proof {
                        lemma_load_lines_err(ls, i as int + 1);
                    }
                    return Err(e);
                },
            }
            i = i + 1;
        }
        assert(ls.take(lines.len() as int) =~= ls);
        Ok(proof)
    }

    /// The saved form: for each goal a line `G:` with its conclusion in reverse-Polish
    /// notation, then a line `H:` for each hypothesis.
    pub fn to_lines(&self) -> (r: Vec<String>)
        ensures
            r@.map_values(|l: String| l@) == save_lines(self@.goals),
    {
        let mut out: Vec<String> = Vec::new();
        let n = self.number_of_goals();
        let mut g: usize = 0;
        let ghost gs = self@.goals;
        assert(gs.take(0) =~= Seq::<(Formula, Seq<Formula>)>::empty());
        assert(out@.map_values(|l: String| l@) =~= Seq::<Seq<char>>::empty());
        while g < n
            invariant
                n == gs.len(),
                gs == self@.goals,
                g <= n,
                out@.map_values(|l: String| l@) == save_lines(gs.take(g as int)),
            decreases n - g,
        {
            let lines = self.goal_to_lines(g);
            let ghost before = out@;
            let mut k: usize = 0;
            while k < lines.len()
                invariant
                    k <= lines.len(),
                    out@.map_values(|l: String| l@) == before.map_values(|l: String| l@)
                        + lines@.map_values(|l: String| l@).take(k as int),
                decreases lines.len() - k,
            {
                let ghost prev = out@;
                let line = lines[k].clone();
                assert(line@ == lines@[k as int]@);
                out.push(line);
                k = k + 1;
                assert(out@.map_values(|l: String| l@) =~= prev.map_values(|l: String| l@).push(
                    lines@[k - 1]@,
                ));
                assert(lines@.map_values(|l: String| l@).take(k as int) =~= lines@.map_values(
                    |l: String| l@,
                ).take(k - 1).push(lines@[k - 1]@));
                assert(out@.map_values(|l: String| l@) =~= before.map_values(|l: String| l@)
                    + lines@.map_values(|l: String| l@).take(k as int));
            }
            assert(lines@.map_values(|l: String| l@).take(lines.len() as int) =~= lines@.map_values(
                |l: String| l@,
            ));
            assert(gs.take(g + 1).drop_last() =~= gs.take(g as int));
            assert(gs.take(g + 1).last() == gs[g as int]);
            g = g + 1;
        }
        assert(gs.take(n as int) =~= gs);
        out
    }
}

proof fn lemma_load_lines_err(ls: Seq<Seq<char>>, n: int)
    requires
        0 < n <= ls.len(),
        load_lines(ls.take(n)) is Err,
    ensures
        load_lines(ls) == load_lines(ls.take(n)),
    decreases ls.len() - n,
{
    if n < ls.len() {
        assert(ls.take(n + 1).drop_last() =~= ls.take(n));
        lemma_load_lines_err(ls, n + 1);
    } else {
        assert(ls.take(n) =~= ls);
    }
}

pub(crate) fn prefixed(prefix: &str, p: &Prop) -> (r: String)
    ensures
        r@ == prefix@ + rpn_text(p@),
{
    let mut out = String::from_str(prefix);
    let text = p.to_string_rpn();
    out.append(text.as_str());
    out
}

// ---------------------------------------------------------------------------
// Saving and loading back.
// ---------------------------------------------------------------------------

proof fn lemma_load_tagged(p: ProofView, tag: char, f: Formula)
    requires
        tag == 'G' || tag == 'H',
        plain_atoms(f),
    ensures
        load_line(p, seq![tag, ':'] + rpn_text(f)) == if tag == 'G' {
            Ok::<ProofView, &'static str>(
                ProofView { goals: p.goals.push((f, Seq::empty())), active: p.goals.len() as int },
            )
        } else if p.goals.len() == 0 {
            Err::<ProofView, &'static str>(err_hyp_first())
        } else {
            Ok::<ProofView, &'static str>(
                ProofView {
                    goals: p.goals.update(p.active, (p.goals[p.active].0, p.goals[p.active].1.push(f))),
                    active: p.active,
                },
            )
        },
{
    let l = seq![tag, ':'] + rpn_text(f);
    assert(l[0] == tag && l[1] == ':');
    lemma_colon_at(l, 1);
    assert(l.take(1) =~= seq![tag]);
    assert(l.skip(2) =~= rpn_text(f));
    assert(seq!['G'] != seq!['H']) by {
        assert(seq!['G'][0] != seq!['H'][0]);
    }
    lemma_rpn_round_trip(f);
}

pub open spec fn plain_goals(gs: Seq<(Formula, Seq<Formula>)>) -> bool {
    forall|i: int|
        0 <= i < gs.len() ==> plain_atoms(#[trigger] gs[i].0) && forall|j: int|
            0 <= j < gs[i].1.len() ==> plain_atoms(#[trigger] gs[i].1[j])
}

proof fn lemma_load_goal(
    gs: Seq<(Formula, Seq<Formula>)>,
    c: Formula,
    hs: Seq<Formula>,
    k: int,
)
    requires
        load_lines(save_lines(gs)) == Ok::<ProofView, &'static str>(
            ProofView { goals: gs, active: if gs.len() == 0 { 0 } else { gs.len() - 1 } },
        ),
        plain_atoms(c),
        forall|j: int| 0 <= j < hs.len() ==> plain_atoms(#[trigger] hs[j]),
        0 <= k <= hs.len(),
    ensures
        load_lines(save_lines(gs) + goal_lines((c, hs.take(k)))) == Ok::<ProofView, &'static str>(
            ProofView { goals: gs.push((c, hs.take(k))), active: gs.len() as int },
        ),
    decreases k,
{
    let base = save_lines(gs);
    let hl = |h: Formula| seq!['H', ':'] + rpn_text(h);
    if k == 0 {
        let lines = base + goal_lines((c, hs.take(0)));
        assert(hs.take(0).map_values(hl) =~= Seq::<Seq<char>>::empty());
        assert(lines =~= base.push(seq!['G', ':'] + rpn_text(c)));
        assert(lines.drop_last() =~= base);
        lemma_load_tagged(
            ProofView { goals: gs, active: if gs.len() == 0 { 0 } else { gs.len() - 1 } },
            'G',
            c,
        );
        assert(hs.take(0) =~= Seq::<Formula>::empty());
    } else {
        lemma_load_goal(gs, c, hs, k - 1);
        let prev = base + goal_lines((c, hs.take(k - 1)));
        let lines = base + goal_lines((c, hs.take(k)));
        assert(hs.take(k).map_values(hl) =~= hs.take(k - 1).map_values(hl).push(hl(hs[k - 1])));
        assert(lines =~= prev.push(seq!['H', ':'] + rpn_text(hs[k - 1])));
        assert(lines.drop_last() =~= prev);
        let st = ProofView { goals: gs.push((c, hs.take(k - 1))), active: gs.len() as int };
        lemma_load_tagged(st, 'H', hs[k - 1]);
        assert(hs.take(k - 1).push(hs[k - 1]) =~= hs.take(k));
        assert(st.goals.update(st.active, (c, hs.take(k - 1).push(hs[k - 1]))) =~= gs.push(
            (c, hs.take(k)),
        ));
    }
}

/// Loading the saved lines of a proof gives back its goals, the last one active,
/// provided that every atom name reads back as itself (see `plain_atoms`).
pub proof fn lemma_save_load(gs: Seq<(Formula, Seq<Formula>)>)
    requires
        plain_goals(gs),
    ensures
        load_lines(save_lines(gs)) == Ok::<ProofView, &'static str>(
            ProofView { goals: gs, active: if gs.len() == 0 { 0 } else { gs.len() - 1 } },
        ),
    decreases gs.len(),
{
    if gs.len() == 0 {
        assert(save_lines(gs) =~= Seq::<Seq<char>>::empty());
        assert(gs =~= Seq::<(Formula, Seq<Formula>)>::empty());
    } else {
        let p = gs.drop_last();
        let g = gs.last();
        assert(plain_goals(p)) by {
            assert forall|i: int| 0 <= i < p.len() implies plain_atoms(#[trigger] p[i].0)
                && forall|j: int| 0 <= j < p[i].1.len() ==> plain_atoms(#[trigger] p[i].1[j]) by {
                assert(p[i] == gs[i]);
            }
        }
        lemma_save_load(p);
        assert(gs[gs.len() - 1] == g);
        lemma_load_goal(p, g.0, g.1, g.1.len() as int);
        assert(g.1.take(g.1.len() as int) =~= g.1);
        assert(p.push((g.0, g.1)) =~= gs);
    }
}

} // verus!
