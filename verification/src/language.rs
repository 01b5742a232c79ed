//! What the written regular expression means: the words a one-sided
//! grammar (right-linear, or left-linear) derives are exactly those its
//! expression accepts.
//!
//! The conversion works on text. Here each coefficient it writes is paired
//! with the regular expression it stands for, so that what the elimination
//! does to the text can be followed in terms of languages.

use vstd::prelude::*;

use crate::derivation::{
    EventModel, StateModel, consume, initial_state, lemma_step_linear, linear,
    right_linear, run, step,
};
use crate::grammar::{
    GrammarModel, alternatives_of, first_non_terminal, key_index, lemma_first_non_terminal,
    lemma_key_index,
};
use crate::regex_conversion::{
    EliminationModel, EquationModel, TermModel, alternative_term, eliminate_all, eliminate_one,
    elimination_order, equation_of, initial_entries, left_oriented, other_terms, regex_trace_of,
    resolve,
    self_terms, star_text, substituted, union_text,
};
use crate::symbol::SymbolModel;

verus! {

// ---------------------------------------------------------------------------
// Regular expressions and their languages.

/// A regular expression of the form the conversion writes.
pub enum RegexModel {
    /// Exactly this word.
    Word(Seq<char>),
    /// A word of the first followed by a word of the second.
    Cat(Box<RegexModel>, Box<RegexModel>),
    /// A word of any one of them.
    Union(Seq<RegexModel>),
    /// Any number of words of it, one after the other.
    Star(Box<RegexModel>),
}

/// How the conversion writes `r`.
pub open spec fn render(r: RegexModel) -> Seq<char>
    decreases r, 1int,
{
    match r {
        RegexModel::Word(s) => s,
        RegexModel::Cat(a, b) => render(*a) + render(*b),
        RegexModel::Union(parts) => union_text(render_all(parts)),
        RegexModel::Star(a) => star_text(render(*a)),
    }
}

/// How the conversion writes each of `parts`.
pub open spec fn render_all(parts: Seq<RegexModel>) -> Seq<Seq<char>>
    decreases parts, 0int,
{
    if parts.len() == 0 {
        Seq::empty()
    } else {
        render_all(parts.subrange(0, parts.len() - 1)).push(render(parts[parts.len() - 1]))
    }
}

/// How a word is read against a regular expression: where each
/// concatenation splits it, which part of a union reads it, and where a
/// star cuts it into pieces.
pub enum Reading {
    Word,
    Cat(int, Box<Reading>, Box<Reading>),
    Union(int, Box<Reading>),
    StarDone,
    StarMore(int, Box<Reading>, Box<Reading>),
}

/// Whether `p` reads the word `w` against `r`.
pub open spec fn reads(p: Reading, r: RegexModel, w: Seq<char>) -> bool
    decreases p,
{
    match p {
        Reading::Word => r matches RegexModel::Word(s) && w == s,
        Reading::Cat(k, pa, pb) => r matches RegexModel::Cat(a, b) && 0 <= k <= w.len() && reads(
            *pa,
            *a,
            w.take(k),
        ) && reads(*pb, *b, w.skip(k)),
        Reading::Union(i, pi) => r matches RegexModel::Union(parts) && 0 <= i < parts.len()
            && reads(*pi, parts[i], w),
        Reading::StarDone => r is Star && w.len() == 0,
        Reading::StarMore(k, pa, pb) => r matches RegexModel::Star(a) && 0 < k <= w.len() && reads(
            *pa,
            *a,
            w.take(k),
        ) && reads(*pb, r, w.skip(k)),
    }
}

/// Whether `r` accepts the word `w`.
pub open spec fn accepts(r: RegexModel, w: Seq<char>) -> bool {
    exists|p: Reading| #[trigger] reads(p, r, w)
}

// ---------------------------------------------------------------------------
// What a grammar derives.

/// Whether `x` derives the word `w` in `n` expansions: it is derived by
/// one of the alternatives of `x` in `n - 1` more. For a grammar whose
/// alternatives hold one non-terminal at most these are the words of its
/// language.
pub open spec fn derives(g: GrammarModel, x: Seq<char>, w: Seq<char>, n: nat) -> bool
    decreases n, 0int,
{
    n > 0 && match alternatives_of(g, x) {
        None => false,
        Some(alts) => exists|a: int|
            #![trigger alts[a]]
            0 <= a < alts.len() && derives_by(g, alts[a], w, (n - 1) as nat),
    }
}

/// Whether the alternative `alt` derives `w` with `n` more expansions: its
/// terminals before its first non-terminal, a word that non-terminal
/// derives in `n` expansions, and its terminals after it; or, without a
/// non-terminal, just its terminals.
pub open spec fn derives_by(g: GrammarModel, alt: Seq<SymbolModel>, w: Seq<char>, n: nat) -> bool
    decreases n, 1int,
{
    let i = first_non_terminal(alt);
    if i < 0 || i >= alt.len() {
        w == alternative_term(alt).0
    } else {
        let pre = alternative_term(alt.take(i)).0;
        let post = alternative_term(alt.skip(i + 1)).0;
        &&& pre.len() + post.len() <= w.len()
        &&& w.take(pre.len() as int) == pre
        &&& w.skip(w.len() - post.len()) == post
        &&& alt[i] is NonTerminal
        &&& derives(
            g,
            alt[i]->NonTerminal_0,
            w.subrange(pre.len() as int, w.len() - post.len()),
            n,
        )
    }
}

/// Every non-terminal of `alt` is its first symbol, when `left` holds, or
/// its last one.
pub open spec fn sided(alt: Seq<SymbolModel>, left: bool) -> bool {
    forall|j: int|
        0 <= j < alt.len() && (#[trigger] alt[j]) is NonTerminal ==> if left {
            j == 0
        } else {
            j == alt.len() - 1
        }
}

/// Every alternative holds its non-terminal, if any, on the side the
/// grammar is read from: first in a left-linear grammar, last otherwise.
pub open spec fn one_sided(g: GrammarModel) -> bool {
    forall|k: int, a: int|
        0 <= k < g.productions.len() && 0 <= a < g.productions[k].1.len() ==> sided(
            #[trigger] g.productions[k].1[a],
            left_oriented(g),
        )
}

/// Whether `x` derives `w` in some number of expansions.
pub open spec fn derivable(g: GrammarModel, x: Seq<char>, w: Seq<char>) -> bool {
    exists|n: nat| #[trigger] derives(g, x, w, n)
}

// ---------------------------------------------------------------------------
// Equations whose coefficients carry the expression they stand for.

/// A term of an equation with the expression its coefficient stands for.
pub type MeantTerm = (TermModel, RegexModel);

/// The terms as the conversion holds them.
pub open spec fn plain(eq: Seq<MeantTerm>) -> EquationModel {
    eq.map_values(|p: MeantTerm| p.0)
}

/// The expressions of the terms.
pub open spec fn meanings(eq: Seq<MeantTerm>) -> Seq<RegexModel> {
    eq.map_values(|p: MeantTerm| p.1)
}

/// Each coefficient is how its expression is written.
pub open spec fn faithful(eq: Seq<MeantTerm>) -> bool {
    forall|i: int| 0 <= i < eq.len() ==> render((#[trigger] eq[i]).1) == eq[i].0.0
}

/// The terms of `eq` whose target is `x`, in order.
pub open spec fn meant_self_terms(eq: Seq<MeantTerm>, x: Seq<char>) -> Seq<MeantTerm>
    decreases eq.len(),
{
    if eq.len() == 0 {
        Seq::empty()
    } else if eq.last().0.1 == Some(x) {
        meant_self_terms(eq.drop_last(), x).push(eq.last())
    } else {
        meant_self_terms(eq.drop_last(), x)
    }
}

/// The other terms of `eq`, in order.
pub open spec fn meant_other_terms(eq: Seq<MeantTerm>, x: Seq<char>) -> Seq<MeantTerm>
    decreases eq.len(),
{
    if eq.len() == 0 {
        Seq::empty()
    } else if eq.last().0.1 == Some(x) {
        meant_other_terms(eq.drop_last(), x)
    } else {
        meant_other_terms(eq.drop_last(), x).push(eq.last())
    }
}

/// The star of the union of the coefficients of the terms that name `x`.
pub open spec fn loop_meaning(eq: Seq<MeantTerm>, x: Seq<char>) -> RegexModel {
    RegexModel::Star(Box::new(RegexModel::Union(meanings(meant_self_terms(eq, x)))))
}

/// Arden's rule on meant terms.
pub open spec fn meant_resolve(x: Seq<char>, eq: Seq<MeantTerm>, left: bool) -> Seq<MeantTerm> {
    let selfs = meant_self_terms(eq, x);
    let others = meant_other_terms(eq, x);
    if selfs.len() == 0 {
        others
    } else {
        let star = star_text(union_text(plain(selfs).map_values(|t: TermModel| t.0)));
        let looped = loop_meaning(eq, x);
        others.map_values(
            |p: MeantTerm|
                if left {
                    ((p.0.0 + star, p.0.1), RegexModel::Cat(Box::new(p.1), Box::new(looped)))
                } else {
                    ((star + p.0.0, p.0.1), RegexModel::Cat(Box::new(looped), Box::new(p.1)))
                },
        )
    }
}

/// The terms that replace the term `t`, whose target is eliminated, one per
/// term of `resolved`.
pub open spec fn replacements(t: MeantTerm, resolved: Seq<MeantTerm>, left: bool) -> Seq<MeantTerm> {
    resolved.map_values(
        |r: MeantTerm|
            if left {
                ((r.0.0 + t.0.0, r.0.1), RegexModel::Cat(Box::new(r.1), Box::new(t.1)))
            } else {
                ((t.0.0 + r.0.0, r.0.1), RegexModel::Cat(Box::new(t.1), Box::new(r.1)))
            },
    )
}

/// Substitution on meant terms.
pub open spec fn meant_substituted(
    eq: Seq<MeantTerm>,
    x: Seq<char>,
    resolved: Seq<MeantTerm>,
    left: bool,
) -> Seq<MeantTerm>
    decreases eq.len(),
{
    if eq.len() == 0 {
        Seq::empty()
    } else {
        let t = eq.last();
        meant_substituted(eq.drop_last(), x, resolved, left) + if t.0.1 == Some(x) {
            replacements(t, resolved, left)
        } else {
            seq![t]
        }
    }
}

// ---------------------------------------------------------------------------
// The meant terms follow the conversion's text.

proof fn lemma_plain_self_terms(eq: Seq<MeantTerm>, x: Seq<char>)
    ensures
        plain(meant_self_terms(eq, x)) == self_terms(plain(eq), x),
        plain(meant_other_terms(eq, x)) == other_terms(plain(eq), x),
    decreases eq.len(),
{
    if eq.len() > 0 {
        lemma_plain_self_terms(eq.drop_last(), x);
        assert(plain(eq).drop_last() =~= plain(eq.drop_last()));
        assert(plain(eq).last() == eq.last().0);
        assert(plain(meant_self_terms(eq, x)) =~= self_terms(plain(eq), x));
        assert(plain(meant_other_terms(eq, x)) =~= other_terms(plain(eq), x));
    }
}

proof fn lemma_plain_resolve(x: Seq<char>, eq: Seq<MeantTerm>, left: bool)
    ensures
        plain(meant_resolve(x, eq, left)) == resolve(x, plain(eq), left),
{
    lemma_plain_self_terms(eq, x);
    let selfs = meant_self_terms(eq, x);
    let others = meant_other_terms(eq, x);
    if selfs.len() != 0 {
        assert(plain(meant_resolve(x, eq, left)) =~= resolve(x, plain(eq), left));
    }
}

proof fn lemma_plain_substituted(
    eq: Seq<MeantTerm>,
    x: Seq<char>,
    resolved: Seq<MeantTerm>,
    left: bool,
)
    ensures
        plain(meant_substituted(eq, x, resolved, left)) == substituted(
            plain(eq),
            x,
            plain(resolved),
            left,
        ),
    decreases eq.len(),
{
    if eq.len() > 0 {
        lemma_plain_substituted(eq.drop_last(), x, resolved, left);
        assert(plain(eq).drop_last() =~= plain(eq.drop_last()));
        assert(plain(eq).last() == eq.last().0);
        let t = eq.last();
        if t.0.1 == Some(x) {
            assert(plain(replacements(t, resolved, left)) =~= plain(resolved).map_values(
                |r: TermModel|
                    (if left {
                        r.0 + t.0.0
                    } else {
                        t.0.0 + r.0
                    }, r.1),
            ));
        } else {
            assert(plain(seq![t]) =~= seq![t.0]);
        }
        assert(plain(meant_substituted(eq, x, resolved, left)) =~= substituted(
            plain(eq),
            x,
            plain(resolved),
            left,
        ));
    }
}

proof fn lemma_render_all(eq: Seq<MeantTerm>)
    requires
        faithful(eq),
    ensures
        render_all(meanings(eq)) == plain(eq).map_values(|t: TermModel| t.0),
    decreases eq.len(),
{
    if eq.len() > 0 {
        let prev = eq.drop_last();
        assert(faithful(prev)) by {
            assert forall|i: int| 0 <= i < prev.len() implies render((#[trigger] prev[i]).1)
                == prev[i].0.0 by {
                assert(prev[i] == eq[i]);
            }
        }
        lemma_render_all(prev);
        let parts = meanings(eq);
        assert(parts.subrange(0, parts.len() - 1) =~= meanings(prev));
        assert(render(parts[parts.len() - 1]) == eq[eq.len() - 1].0.0);
        assert(render_all(meanings(eq)) =~= plain(eq).map_values(|t: TermModel| t.0));
    }
}

proof fn lemma_self_terms_members(eq: Seq<MeantTerm>, x: Seq<char>)
    ensures
        forall|j: int|
            0 <= j < meant_self_terms(eq, x).len() ==> (#[trigger] meant_self_terms(eq, x)[j]).0.1
                == Some(x) && eq.contains(meant_self_terms(eq, x)[j]),
        forall|j: int|
            0 <= j < meant_other_terms(eq, x).len() ==> (#[trigger] meant_other_terms(
                eq,
                x,
            )[j]).0.1 != Some(x) && eq.contains(meant_other_terms(eq, x)[j]),
        forall|i: int|
            0 <= i < eq.len() && (#[trigger] eq[i]).0.1 == Some(x) ==> meant_self_terms(
                eq,
                x,
            ).contains(eq[i]),
        forall|i: int|
            0 <= i < eq.len() && (#[trigger] eq[i]).0.1 != Some(x) ==> meant_other_terms(
                eq,
                x,
            ).contains(eq[i]),
    decreases eq.len(),
{
    if eq.len() > 0 {
        let prev = eq.drop_last();
        lemma_self_terms_members(prev, x);
        let s = meant_self_terms(eq, x);
        let o = meant_other_terms(eq, x);
        let ps = meant_self_terms(prev, x);
        let po = meant_other_terms(prev, x);
        assert forall|j: int| 0 <= j < s.len() implies (#[trigger] s[j]).0.1 == Some(x)
            && eq.contains(s[j]) by {
            if j < ps.len() {
                assert(s[j] == ps[j]);
                let i = choose|i: int| 0 <= i < prev.len() && prev[i] == ps[j];
                assert(eq[i] == prev[i]);
            } else {
                assert(s[j] == eq[eq.len() - 1]);
            }
        }
        assert forall|j: int| 0 <= j < o.len() implies (#[trigger] o[j]).0.1 != Some(x)
            && eq.contains(o[j]) by {
            if j < po.len() {
                assert(o[j] == po[j]);
                let i = choose|i: int| 0 <= i < prev.len() && prev[i] == po[j];
                assert(eq[i] == prev[i]);
            } else {
                assert(o[j] == eq[eq.len() - 1]);
            }
        }
        assert forall|i: int| 0 <= i < eq.len() && (#[trigger] eq[i]).0.1 == Some(x) implies s.contains(
            eq[i],
        ) by {
            if i < prev.len() {
                assert(prev[i] == eq[i]);
                let j = choose|j: int| 0 <= j < ps.len() && ps[j] == prev[i];
                assert(s[j] == ps[j]);
            } else {
                assert(s[s.len() - 1] == eq[i]);
            }
        }
        assert forall|i: int| 0 <= i < eq.len() && (#[trigger] eq[i]).0.1 != Some(x) implies o.contains(
            eq[i],
        ) by {
            if i < prev.len() {
                assert(prev[i] == eq[i]);
                let j = choose|j: int| 0 <= j < po.len() && po[j] == prev[i];
                assert(o[j] == po[j]);
            } else {
                assert(o[o.len() - 1] == eq[i]);
            }
        }
    }
}

proof fn lemma_faithful_resolve(x: Seq<char>, eq: Seq<MeantTerm>, left: bool)
    requires
        faithful(eq),
    ensures
        faithful(meant_resolve(x, eq, left)),
{
    lemma_self_terms_members(eq, x);
    let selfs = meant_self_terms(eq, x);
    let others = meant_other_terms(eq, x);
    assert(faithful(selfs)) by {
        assert forall|j: int| 0 <= j < selfs.len() implies render((#[trigger] selfs[j]).1)
            == selfs[j].0.0 by {
            let i = choose|i: int| 0 <= i < eq.len() && eq[i] == selfs[j];
        }
    }
    assert forall|j: int| 0 <= j < others.len() implies render((#[trigger] others[j]).1)
        == others[j].0.0 by {
        let i = choose|i: int| 0 <= i < eq.len() && eq[i] == others[j];
    }
    if selfs.len() != 0 {
        lemma_render_all(selfs);
        let star = star_text(union_text(plain(selfs).map_values(|t: TermModel| t.0)));
        let u = RegexModel::Union(meanings(selfs));
        assert(render(u) == union_text(render_all(meanings(selfs))));
        assert(render(loop_meaning(eq, x)) == star);
        let r = meant_resolve(x, eq, left);
        assert forall|j: int| 0 <= j < r.len() implies render((#[trigger] r[j]).1) == r[j].0.0 by {
            if left {
                assert(r[j].1 == RegexModel::Cat(
                    Box::new(others[j].1),
                    Box::new(loop_meaning(eq, x)),
                ));
            } else {
                assert(r[j].1 == RegexModel::Cat(
                    Box::new(loop_meaning(eq, x)),
                    Box::new(others[j].1),
                ));
            }
        }
    }
}

proof fn lemma_faithful_substituted(
    eq: Seq<MeantTerm>,
    x: Seq<char>,
    resolved: Seq<MeantTerm>,
    left: bool,
)
    requires
        faithful(eq),
        faithful(resolved),
    ensures
        faithful(meant_substituted(eq, x, resolved, left)),
    decreases eq.len(),
{
    if eq.len() > 0 {
        let prev = eq.drop_last();
        assert(faithful(prev)) by {
            assert forall|i: int| 0 <= i < prev.len() implies render((#[trigger] prev[i]).1)
                == prev[i].0.0 by {
                assert(prev[i] == eq[i]);
            }
        }
        lemma_faithful_substituted(prev, x, resolved, left);
        let t = eq.last();
        assert(render(t.1) == t.0.0) by {
            assert(eq[eq.len() - 1] == t);
        }
        let head = meant_substituted(prev, x, resolved, left);
        let tail = if t.0.1 == Some(x) {
            replacements(t, resolved, left)
        } else {
            seq![t]
        };
        let whole = meant_substituted(eq, x, resolved, left);
        assert(whole == head + tail);
        assert forall|i: int| 0 <= i < whole.len() implies render((#[trigger] whole[i]).1)
            == whole[i].0.0 by {
            if i < head.len() {
                assert(whole[i] == head[i]);
            } else {
                assert(whole[i] == tail[i - head.len()]);
                if t.0.1 == Some(x) {
                    assert(resolved[i - head.len()] == resolved[i - head.len()]);
                }
            }
        }
    }
}


// ---------------------------------------------------------------------------
// Every derived word is accounted for.

/// Whether `v` is what the target derives in fewer than `n` expansions, or
/// nothing when there is no target.
pub open spec fn rest_derives(g: GrammarModel, target: Option<Seq<char>>, v: Seq<char>, n: nat) -> bool {
    match target {
        None => v.len() == 0,
        Some(y) => exists|m: nat| m < n && #[trigger] derives(g, y, v, m),
    }
}

/// Whether the term accounts for `w`: a word its expression accepts, then
/// what its target derives in fewer than `n` expansions; in a left-linear
/// grammar the target's word comes first.
pub open spec fn term_covers(g: GrammarModel, p: MeantTerm, w: Seq<char>, n: nat, left: bool) -> bool {
    if left {
        exists|k: int|
            0 <= k <= w.len() && #[trigger] accepts(p.1, w.skip(k)) && rest_derives(
                g,
                p.0.1,
                w.take(k),
                n,
            )
    } else {
        exists|k: int|
            0 <= k <= w.len() && #[trigger] accepts(p.1, w.take(k)) && rest_derives(
                g,
                p.0.1,
                w.skip(k),
                n,
            )
    }
}

/// Every word `x` derives is accounted for by a term of `eq`.
pub open spec fn covers(g: GrammarModel, x: Seq<char>, eq: Seq<MeantTerm>, left: bool) -> bool {
    forall|w: Seq<char>, n: nat|
        #[trigger] derives(g, x, w, n) ==> exists|i: int|
            0 <= i < eq.len() && #[trigger] term_covers(g, eq[i], w, n, left)
}

proof fn lemma_star_append(a: RegexModel, p: Seq<char>, u: Seq<char>)
    requires
        accepts(RegexModel::Star(Box::new(a)), p),
        accepts(a, u),
    ensures
        accepts(RegexModel::Star(Box::new(a)), p + u),
    decreases p.len(),
{
    if p.len() == 0 {
        lemma_star_empty(a);
        lemma_star_prepend(a, u, Seq::empty());
        assert(u + Seq::<char>::empty() =~= u);
        assert(p + u =~= u);
    } else {
        let k = lemma_star_split(a, p);
        lemma_star_append(a, p.skip(k), u);
        lemma_star_prepend(a, p.take(k), p.skip(k) + u);
        assert(p.take(k) + (p.skip(k) + u) =~= p + u);
    }
}

proof fn lemma_rest_weaken(g: GrammarModel, t: Option<Seq<char>>, v: Seq<char>, m: nat, n: nat)
    requires
        rest_derives(g, t, v, m),
        m <= n,
    ensures
        rest_derives(g, t, v, n),
{
    match t {
        Some(y) => {
            let m2 = choose|m2: nat| m2 < m && #[trigger] derives(g, y, v, m2);
            assert(derives(g, y, v, m2));
        },
        None => {},
    }
}

/// A term that accounts for `v` accounts for `t v` in place of a term
/// whose expression accepts `t u` for each `u` the first accepts.
proof fn lemma_covers_prefixed(
    g: GrammarModel,
    p: MeantTerm,
    q: MeantTerm,
    t: Seq<char>,
    v: Seq<char>,
    m: nat,
    n: nat,
)
    requires
        term_covers(g, p, v, m, false),
        m <= n,
        q.0.1 == p.0.1,
        forall|u: Seq<char>| accepts(p.1, u) ==> #[trigger] accepts(q.1, t + u),
    ensures
        term_covers(g, q, t + v, n, false),
{
    let k = choose|k: int|
        0 <= k <= v.len() && #[trigger] accepts(p.1, v.take(k)) && rest_derives(
            g,
            p.0.1,
            v.skip(k),
            m,
        );
    let w = t + v;
    assert(accepts(q.1, t + v.take(k)));
    assert(w.take(t.len() + k) =~= t + v.take(k));
    assert(w.skip(t.len() + k) =~= v.skip(k));
    lemma_rest_weaken(g, p.0.1, v.skip(k), m, n);
    assert(accepts(q.1, w.take(t.len() + k)));
}

/// In a left-linear grammar, a term that accounts for `v` accounts for
/// `v t` in place of a term whose expression accepts `u t` for each `u`
/// the first accepts.
proof fn lemma_covers_suffixed(
    g: GrammarModel,
    p: MeantTerm,
    q: MeantTerm,
    t: Seq<char>,
    v: Seq<char>,
    m: nat,
    n: nat,
)
    requires
        term_covers(g, p, v, m, true),
        m <= n,
        q.0.1 == p.0.1,
        forall|u: Seq<char>| accepts(p.1, u) ==> #[trigger] accepts(q.1, u + t),
    ensures
        term_covers(g, q, v + t, n, true),
{
    let k = choose|k: int|
        0 <= k <= v.len() && #[trigger] accepts(p.1, v.skip(k)) && rest_derives(
            g,
            p.0.1,
            v.take(k),
            m,
        );
    let w = v + t;
    assert(accepts(q.1, v.skip(k) + t));
    assert(w.skip(k) =~= v.skip(k) + t);
    assert(w.take(k) =~= v.take(k));
    lemma_rest_weaken(g, p.0.1, v.take(k), m, n);
    assert(accepts(q.1, w.skip(k)));
}

/// Arden's rule keeps every derived word accounted for.
#[verifier::spinoff_prover]
proof fn lemma_resolve_covers_right(
    g: GrammarModel,
    x: Seq<char>,
    eq: Seq<MeantTerm>,
    w: Seq<char>,
    n: nat,
)
    requires
        covers(g, x, eq, false),
        derives(g, x, w, n),
    ensures
        exists|j: int|
            0 <= j < meant_resolve(x, eq, false).len() && #[trigger] term_covers(
                g,
                meant_resolve(x, eq, false)[j],
                w,
                n,
                false,
            ),
    decreases n,
{
    lemma_self_terms_members(eq, x);
    let selfs = meant_self_terms(eq, x);
    let others = meant_other_terms(eq, x);
    let r = meant_resolve(x, eq, false);
    let looped = loop_meaning(eq, x);
    let i = choose|i: int| 0 <= i < eq.len() && #[trigger] term_covers(g, eq[i], w, n, false);
    let k = choose|k: int|
        0 <= k <= w.len() && #[trigger] accepts(eq[i].1, w.take(k)) && rest_derives(
            g,
            eq[i].0.1,
            w.skip(k),
            n,
        );
    let u = w.take(k);
    let v = w.skip(k);
    assert(w =~= u + v);
    if eq[i].0.1 == Some(x) {
        let m = choose|m: nat| m < n && #[trigger] derives(g, x, v, m);
        lemma_resolve_covers_right(g, x, eq, v, m);
        let j = choose|j: int| 0 <= j < r.len() && #[trigger] term_covers(g, r[j], v, m, false);
        assert(selfs.contains(eq[i]));
        let s = choose|s: int| 0 <= s < selfs.len() && selfs[s] == eq[i];
        let un = RegexModel::Union(meanings(selfs));
        assert(meanings(selfs)[s] == eq[i].1);
        lemma_union(meanings(selfs), s, u);
        assert(accepts(un, u));
        assert(r[j].1 == RegexModel::Cat(Box::new(looped), Box::new(others[j].1)));
        assert forall|z: Seq<char>| accepts(r[j].1, z) implies #[trigger] accepts(r[j].1, u + z) by {
            let q = lemma_cat_split(looped, others[j].1, z);
            lemma_star_prepend(un, u, z.take(q));
            lemma_cat(looped, others[j].1, u + z.take(q), z.skip(q));
            assert(u + z.take(q) + z.skip(q) =~= u + z);
        }
        lemma_covers_prefixed(g, r[j], r[j], u, v, m, n);
    } else {
        assert(others.contains(eq[i]));
        let j = choose|j: int| 0 <= j < others.len() && others[j] == eq[i];
        if selfs.len() == 0 {
            assert(r[j] == eq[i]);
        } else {
            lemma_star_empty(RegexModel::Union(meanings(selfs)));
            assert(r[j].1 == RegexModel::Cat(Box::new(looped), Box::new(others[j].1)));
            assert forall|z: Seq<char>| accepts(eq[i].1, z) implies #[trigger] accepts(
                r[j].1,
                Seq::<char>::empty() + z,
            ) by {
                lemma_cat(looped, eq[i].1, Seq::empty(), z);
            }
            assert(term_covers(g, eq[i], Seq::<char>::empty() + w, n, false)) by {
                assert(Seq::<char>::empty() + w =~= w);
            }
            lemma_covers_prefixed(g, eq[i], r[j], Seq::empty(), w, n, n);
            assert(Seq::<char>::empty() + w =~= w);
        }
    }
}

/// Arden's rule, on the left-linear side, keeps every derived word
/// accounted for.
#[verifier::spinoff_prover]
proof fn lemma_resolve_covers_left(
    g: GrammarModel,
    x: Seq<char>,
    eq: Seq<MeantTerm>,
    w: Seq<char>,
    n: nat,
)
    requires
        covers(g, x, eq, true),
        derives(g, x, w, n),
    ensures
        exists|j: int|
            0 <= j < meant_resolve(x, eq, true).len() && #[trigger] term_covers(
                g,
                meant_resolve(x, eq, true)[j],
                w,
                n,
                true,
            ),
    decreases n,
{
    lemma_self_terms_members(eq, x);
    let selfs = meant_self_terms(eq, x);
    let others = meant_other_terms(eq, x);
    let r = meant_resolve(x, eq, true);
    let looped = loop_meaning(eq, x);
    let i = choose|i: int| 0 <= i < eq.len() && #[trigger] term_covers(g, eq[i], w, n, true);
    let k = choose|k: int|
        0 <= k <= w.len() && #[trigger] accepts(eq[i].1, w.skip(k)) && rest_derives(
            g,
            eq[i].0.1,
            w.take(k),
            n,
        );
    let v = w.take(k);
    let u = w.skip(k);
    assert(w =~= v + u);
    if eq[i].0.1 == Some(x) {
        let m = choose|m: nat| m < n && #[trigger] derives(g, x, v, m);
        lemma_resolve_covers_left(g, x, eq, v, m);
        let j = choose|j: int| 0 <= j < r.len() && #[trigger] term_covers(g, r[j], v, m, true);
        assert(selfs.contains(eq[i]));
        let s = choose|s: int| 0 <= s < selfs.len() && selfs[s] == eq[i];
        let un = RegexModel::Union(meanings(selfs));
        assert(meanings(selfs)[s] == eq[i].1);
        lemma_union(meanings(selfs), s, u);
        assert(accepts(un, u));
        assert(r[j].1 == RegexModel::Cat(Box::new(others[j].1), Box::new(looped)));
        assert forall|z: Seq<char>| accepts(r[j].1, z) implies #[trigger] accepts(r[j].1, z + u) by {
            let q = lemma_cat_split(others[j].1, looped, z);
            lemma_star_append(un, z.skip(q), u);
            lemma_cat(others[j].1, looped, z.take(q), z.skip(q) + u);
            assert(z.take(q) + (z.skip(q) + u) =~= z + u);
        }
        lemma_covers_suffixed(g, r[j], r[j], u, v, m, n);
    } else {
        assert(others.contains(eq[i]));
        let j = choose|j: int| 0 <= j < others.len() && others[j] == eq[i];
        if selfs.len() == 0 {
            assert(r[j] == eq[i]);
        } else {
            lemma_star_empty(RegexModel::Union(meanings(selfs)));
            assert(r[j].1 == RegexModel::Cat(Box::new(others[j].1), Box::new(looped)));
            assert forall|z: Seq<char>| accepts(eq[i].1, z) implies #[trigger] accepts(
                r[j].1,
                z + Seq::<char>::empty(),
            ) by {
                lemma_cat(eq[i].1, looped, z, Seq::empty());
            }
            assert(term_covers(g, eq[i], w + Seq::<char>::empty(), n, true)) by {
                assert(w + Seq::<char>::empty() =~= w);
            }
            lemma_covers_suffixed(g, eq[i], r[j], Seq::empty(), w, n, n);
            assert(w + Seq::<char>::empty() =~= w);
        }
    }
}

proof fn lemma_resolve_covers_all(g: GrammarModel, x: Seq<char>, eq: Seq<MeantTerm>, left: bool)
    requires
        covers(g, x, eq, left),
    ensures
        covers(g, x, meant_resolve(x, eq, left), left),
{
    assert forall|w: Seq<char>, n: nat| #[trigger] derives(g, x, w, n) implies exists|j: int|
        0 <= j < meant_resolve(x, eq, left).len() && #[trigger] term_covers(
            g,
            meant_resolve(x, eq, left)[j],
            w,
            n,
            left,
        ) by {
        if left {
            lemma_resolve_covers_left(g, x, eq, w, n);
        } else {
            lemma_resolve_covers_right(g, x, eq, w, n);
        }
    }
}

/// Substituting a resolved equation keeps every derived word accounted
/// for.
proof fn lemma_substituted_covers(
    g: GrammarModel,
    y: Seq<char>,
    eq: Seq<MeantTerm>,
    x: Seq<char>,
    resolved: Seq<MeantTerm>,
    left: bool,
)
    requires
        covers(g, y, eq, left),
        covers(g, x, resolved, left),
    ensures
        covers(g, y, meant_substituted(eq, x, resolved, left), left),
{
    lemma_substituted_members(eq, x, resolved, left);
    let sub = meant_substituted(eq, x, resolved, left);
    assert forall|w: Seq<char>, n: nat| #[trigger] derives(g, y, w, n) implies exists|p: int|
        0 <= p < sub.len() && #[trigger] term_covers(g, sub[p], w, n, left) by {
        let i = choose|i: int| 0 <= i < eq.len() && #[trigger] term_covers(g, eq[i], w, n, left);
        if eq[i].0.1 != Some(x) {
            let p = choose|p: int| 0 <= p < sub.len() && sub[p] == eq[i];
            assert(term_covers(g, sub[p], w, n, left));
        } else if left {
            let k = choose|k: int|
                0 <= k <= w.len() && #[trigger] accepts(eq[i].1, w.skip(k)) && rest_derives(
                    g,
                    eq[i].0.1,
                    w.take(k),
                    n,
                );
            let v = w.take(k);
            let u = w.skip(k);
            assert(w =~= v + u);
            let m = choose|m: nat| m < n && #[trigger] derives(g, x, v, m);
            let j = choose|j: int| 0 <= j < resolved.len() && #[trigger] term_covers(
                g,
                resolved[j],
                v,
                m,
                left,
            );
            let t = replacements(eq[i], resolved, left)[j];
            assert(t == ((resolved[j].0.0 + eq[i].0.0, resolved[j].0.1), RegexModel::Cat(
                Box::new(resolved[j].1),
                Box::new(eq[i].1),
            )));
            assert forall|z: Seq<char>| accepts(resolved[j].1, z) implies #[trigger] accepts(
                t.1,
                z + u,
            ) by {
                lemma_cat(resolved[j].1, eq[i].1, z, u);
            }
            lemma_covers_suffixed(g, resolved[j], t, u, v, m, n);
            let p = choose|p: int| 0 <= p < sub.len() && sub[p] == t;
            assert(term_covers(g, sub[p], w, n, left));
        } else {
            let k = choose|k: int|
                0 <= k <= w.len() && #[trigger] accepts(eq[i].1, w.take(k)) && rest_derives(
                    g,
                    eq[i].0.1,
                    w.skip(k),
                    n,
                );
            let u = w.take(k);
            let v = w.skip(k);
            assert(w =~= u + v);
            let m = choose|m: nat| m < n && #[trigger] derives(g, x, v, m);
            let j = choose|j: int| 0 <= j < resolved.len() && #[trigger] term_covers(
                g,
                resolved[j],
                v,
                m,
                left,
            );
            let t = replacements(eq[i], resolved, left)[j];
            assert(t == ((eq[i].0.0 + resolved[j].0.0, resolved[j].0.1), RegexModel::Cat(
                Box::new(eq[i].1),
                Box::new(resolved[j].1),
            )));
            assert forall|z: Seq<char>| accepts(resolved[j].1, z) implies #[trigger] accepts(
                t.1,
                u + z,
            ) by {
                lemma_cat(eq[i].1, resolved[j].1, u, z);
            }
            lemma_covers_prefixed(g, resolved[j], t, u, v, m, n);
            let p = choose|p: int| 0 <= p < sub.len() && sub[p] == t;
            assert(term_covers(g, sub[p], w, n, left));
        }
    }
}

// ---------------------------------------------------------------------------
// Every accounted word is derived.

/// What the target derives, or nothing when there is no target.
pub open spec fn rest_derivable(g: GrammarModel, target: Option<Seq<char>>, v: Seq<char>) -> bool {
    match target {
        None => v.len() == 0,
        Some(y) => derivable(g, y, v),
    }
}

/// Whether `w` is a word the term's expression accepts followed by one its
/// target derives; in a left-linear grammar, preceded by it.
pub open spec fn term_yields(g: GrammarModel, p: MeantTerm, w: Seq<char>, left: bool) -> bool {
    if left {
        exists|k: int|
            0 <= k <= w.len() && #[trigger] accepts(p.1, w.skip(k)) && rest_derivable(
                g,
                p.0.1,
                w.take(k),
            )
    } else {
        exists|k: int|
            0 <= k <= w.len() && #[trigger] accepts(p.1, w.take(k)) && rest_derivable(
                g,
                p.0.1,
                w.skip(k),
            )
    }
}

/// Every word a term of `eq` yields is derived by `x`.
pub open spec fn generates(g: GrammarModel, x: Seq<char>, eq: Seq<MeantTerm>, left: bool) -> bool {
    forall|i: int, w: Seq<char>|
        0 <= i < eq.len() && #[trigger] term_yields(g, eq[i], w, left) ==> derivable(g, x, w)
}

proof fn lemma_derivable_prefixed(
    g: GrammarModel,
    x: Seq<char>,
    eq: Seq<MeantTerm>,
    s: Seq<char>,
    z: Seq<char>,
)
    requires
        generates(g, x, eq, false),
        accepts(loop_meaning(eq, x), s),
        derivable(g, x, z),
    ensures
        derivable(g, x, s + z),
    decreases s.len(),
{
    if s.len() == 0 {
        assert(s + z =~= z);
    } else {
        lemma_self_terms_members(eq, x);
        let selfs = meant_self_terms(eq, x);
        let un = RegexModel::Union(meanings(selfs));
        let k = lemma_star_split(un, s);
        lemma_derivable_prefixed(g, x, eq, s.skip(k), z);
        let s1 = s.take(k);
        let rest = s.skip(k) + z;
        let d = lemma_union_split(meanings(selfs), s1);
        let e = selfs[d];
        assert(eq.contains(e));
        let i = choose|i: int| 0 <= i < eq.len() && eq[i] == e;
        let w = s1 + rest;
        assert(w =~= s + z);
        assert(w.take(k) =~= s1);
        assert(w.skip(k) =~= rest);
        assert(accepts(eq[i].1, w.take(k)));
        assert(term_yields(g, eq[i], w, false));
    }
}

proof fn lemma_derivable_suffixed(
    g: GrammarModel,
    x: Seq<char>,
    eq: Seq<MeantTerm>,
    z: Seq<char>,
    s: Seq<char>,
)
    requires
        generates(g, x, eq, true),
        accepts(loop_meaning(eq, x), s),
        derivable(g, x, z),
    ensures
        derivable(g, x, z + s),
    decreases s.len(),
{
    if s.len() == 0 {
        assert(z + s =~= z);
    } else {
        lemma_self_terms_members(eq, x);
        let selfs = meant_self_terms(eq, x);
        let un = RegexModel::Union(meanings(selfs));
        let k = lemma_star_split(un, s);
        let s1 = s.take(k);
        let d = lemma_union_split(meanings(selfs), s1);
        let e = selfs[d];
        assert(eq.contains(e));
        let i = choose|i: int| 0 <= i < eq.len() && eq[i] == e;
        let w = z + s1;
        assert(w.skip(z.len() as int) =~= s1);
        assert(w.take(z.len() as int) =~= z);
        assert(accepts(eq[i].1, w.skip(z.len() as int)));
        assert(term_yields(g, eq[i], w, true));
        lemma_derivable_suffixed(g, x, eq, w, s.skip(k));
        assert(w + s.skip(k) =~= z + s);
    }
}

proof fn lemma_resolve_generates(g: GrammarModel, x: Seq<char>, eq: Seq<MeantTerm>, left: bool)
    requires
        generates(g, x, eq, left),
    ensures
        generates(g, x, meant_resolve(x, eq, left), left),
{
    lemma_self_terms_members(eq, x);
    let selfs = meant_self_terms(eq, x);
    let others = meant_other_terms(eq, x);
    let r = meant_resolve(x, eq, left);
    let looped = loop_meaning(eq, x);
    assert forall|j: int, w: Seq<char>| 0 <= j < r.len() && #[trigger] term_yields(
        g,
        r[j],
        w,
        left,
    ) implies derivable(g, x, w) by {
        assert(eq.contains(others[j]));
        let i = choose|i: int| 0 <= i < eq.len() && eq[i] == others[j];
        if selfs.len() == 0 {
            assert(r[j] == eq[i]);
            assert(term_yields(g, eq[i], w, left));
        } else if left {
            let k = choose|k: int|
                0 <= k <= w.len() && #[trigger] accepts(r[j].1, w.skip(k)) && rest_derivable(
                    g,
                    r[j].0.1,
                    w.take(k),
                );
            assert(r[j].1 == RegexModel::Cat(Box::new(others[j].1), Box::new(looped)));
            let wk = w.skip(k);
            let q = lemma_cat_split(others[j].1, looped, wk);
            let z = w.take(k + q);
            assert(z.take(k) =~= w.take(k));
            assert(z.skip(k) =~= wk.take(q));
            assert(accepts(eq[i].1, z.skip(k)));
            assert(term_yields(g, eq[i], z, left));
            lemma_derivable_suffixed(g, x, eq, z, wk.skip(q));
            assert(z + wk.skip(q) =~= w);
        } else {
            let k = choose|k: int|
                0 <= k <= w.len() && #[trigger] accepts(r[j].1, w.take(k)) && rest_derivable(
                    g,
                    r[j].0.1,
                    w.skip(k),
                );
            assert(r[j].1 == RegexModel::Cat(Box::new(looped), Box::new(others[j].1)));
            let wk = w.take(k);
            let q = lemma_cat_split(looped, others[j].1, wk);
            let z = w.skip(q);
            assert(z.take(k - q) =~= wk.skip(q));
            assert(z.skip(k - q) =~= w.skip(k));
            assert(accepts(eq[i].1, z.take(k - q)));
            assert(term_yields(g, eq[i], z, left));
            assert(wk.take(q) =~= w.take(q));
            lemma_derivable_prefixed(g, x, eq, w.take(q), z);
            assert(w.take(q) + z =~= w);
        }
    }
}

proof fn lemma_substituted_generates(
    g: GrammarModel,
    y: Seq<char>,
    eq: Seq<MeantTerm>,
    x: Seq<char>,
    resolved: Seq<MeantTerm>,
    left: bool,
)
    requires
        generates(g, y, eq, left),
        generates(g, x, resolved, left),
    ensures
        generates(g, y, meant_substituted(eq, x, resolved, left), left),
{
    lemma_substituted_origins(eq, x, resolved, left);
    let sub = meant_substituted(eq, x, resolved, left);
    assert forall|p: int, w: Seq<char>| 0 <= p < sub.len() && #[trigger] term_yields(
        g,
        sub[p],
        w,
        left,
    ) implies derivable(g, y, w) by {
        let t = sub[p];
        if exists|i: int| 0 <= i < eq.len() && eq[i].0.1 != Some(x) && eq[i] == t {
            let i = choose|i: int| 0 <= i < eq.len() && eq[i].0.1 != Some(x) && eq[i] == t;
            assert(term_yields(g, eq[i], w, left));
        } else {
            let (i, j) = choose|i: int, j: int|
                0 <= i < eq.len() && eq[i].0.1 == Some(x) && 0 <= j < resolved.len()
                    && replacements(eq[i], resolved, left)[j] == t;
            if left {
                assert(t == ((resolved[j].0.0 + eq[i].0.0, resolved[j].0.1), RegexModel::Cat(
                    Box::new(resolved[j].1),
                    Box::new(eq[i].1),
                )));
                let k = choose|k: int|
                    0 <= k <= w.len() && #[trigger] accepts(t.1, w.skip(k)) && rest_derivable(
                        g,
                        t.0.1,
                        w.take(k),
                    );
                let wk = w.skip(k);
                let q = lemma_cat_split(resolved[j].1, eq[i].1, wk);
                let z = w.take(k + q);
                assert(z.take(k) =~= w.take(k));
                assert(z.skip(k) =~= wk.take(q));
                assert(accepts(resolved[j].1, z.skip(k)));
                assert(term_yields(g, resolved[j], z, left));
                assert(derivable(g, x, z));
                assert(w.skip(k + q) =~= wk.skip(q));
                assert(accepts(eq[i].1, w.skip(k + q)));
                assert(term_yields(g, eq[i], w, left));
            } else {
                assert(t == ((eq[i].0.0 + resolved[j].0.0, resolved[j].0.1), RegexModel::Cat(
                    Box::new(eq[i].1),
                    Box::new(resolved[j].1),
                )));
                let k = choose|k: int|
                    0 <= k <= w.len() && #[trigger] accepts(t.1, w.take(k)) && rest_derivable(
                        g,
                        t.0.1,
                        w.skip(k),
                    );
                let wk = w.take(k);
                let q = lemma_cat_split(eq[i].1, resolved[j].1, wk);
                let z = w.skip(q);
                assert(z.take(k - q) =~= wk.skip(q));
                assert(z.skip(k - q) =~= w.skip(k));
                assert(accepts(resolved[j].1, z.take(k - q)));
                assert(term_yields(g, resolved[j], z, left));
                assert(derivable(g, x, z));
                assert(wk.take(q) =~= w.take(q));
                assert(accepts(eq[i].1, w.take(q)));
                assert(term_yields(g, eq[i], w, left));
            }
        }
    }
}

// ---------------------------------------------------------------------------
// Regular expression facts and where substituted terms come from.

proof fn lemma_star_prepend(a: RegexModel, u: Seq<char>, p: Seq<char>)
    requires
        accepts(a, u),
        accepts(RegexModel::Star(Box::new(a)), p),
    ensures
        accepts(RegexModel::Star(Box::new(a)), u + p),
{
    let w = u + p;
    let st = RegexModel::Star(Box::new(a));
    if u.len() > 0 {
        let pa = choose|pa: Reading| #[trigger] reads(pa, a, u);
        let pp = choose|pp: Reading| #[trigger] reads(pp, st, p);
        assert(w.take(u.len() as int) =~= u);
        assert(w.skip(u.len() as int) =~= p);
        let q = Reading::StarMore(u.len() as int, Box::new(pa), Box::new(pp));
        assert(reads(q, st, w));
    } else {
        assert(w =~= p);
    }
}

proof fn lemma_star_empty(a: RegexModel)
    ensures
        accepts(RegexModel::Star(Box::new(a)), Seq::empty()),
{
    assert(reads(Reading::StarDone, RegexModel::Star(Box::new(a)), Seq::empty()));
}

proof fn lemma_union(parts: Seq<RegexModel>, i: int, w: Seq<char>)
    requires
        0 <= i < parts.len(),
        accepts(parts[i], w),
    ensures
        accepts(RegexModel::Union(parts), w),
{
    let pi = choose|pi: Reading| #[trigger] reads(pi, parts[i], w);
    assert(reads(Reading::Union(i, Box::new(pi)), RegexModel::Union(parts), w));
}

proof fn lemma_cat(a: RegexModel, b: RegexModel, u: Seq<char>, v: Seq<char>)
    requires
        accepts(a, u),
        accepts(b, v),
    ensures
        accepts(RegexModel::Cat(Box::new(a), Box::new(b)), u + v),
{
    let w = u + v;
    let pa = choose|pa: Reading| #[trigger] reads(pa, a, u);
    let pb = choose|pb: Reading| #[trigger] reads(pb, b, v);
    assert(w.take(u.len() as int) =~= u);
    assert(w.skip(u.len() as int) =~= v);
    let q = Reading::Cat(u.len() as int, Box::new(pa), Box::new(pb));
    assert(reads(q, RegexModel::Cat(Box::new(a), Box::new(b)), w));
}

proof fn lemma_cat_split(a: RegexModel, b: RegexModel, w: Seq<char>) -> (k: int)
    requires
        accepts(RegexModel::Cat(Box::new(a), Box::new(b)), w),
    ensures
        0 <= k <= w.len(),
        accepts(a, w.take(k)),
        accepts(b, w.skip(k)),
{
    let q = choose|q: Reading| #[trigger] reads(q, RegexModel::Cat(Box::new(a), Box::new(b)), w);
    match q {
        Reading::Cat(k, pa, pb) => {
            assert(reads(*pa, a, w.take(k)));
            assert(reads(*pb, b, w.skip(k)));
            k
        },
        _ => {
            assert(false);
            0
        },
    }
}

proof fn lemma_substituted_members(
    eq: Seq<MeantTerm>,
    x: Seq<char>,
    resolved: Seq<MeantTerm>,
    left: bool,
)
    ensures
        forall|i: int|
            0 <= i < eq.len() && (#[trigger] eq[i]).0.1 != Some(x) ==> meant_substituted(
                eq,
                x,
                resolved,
                left,
            ).contains(eq[i]),
        forall|i: int, j: int|
            0 <= i < eq.len() && eq[i].0.1 == Some(x) && 0 <= j < resolved.len()
                ==> meant_substituted(eq, x, resolved, left).contains(
                #[trigger] replacements(eq[i], resolved, left)[j],
            ),
    decreases eq.len(),
{
    if eq.len() > 0 {
        let prev = eq.drop_last();
        lemma_substituted_members(prev, x, resolved, left);
        let t = eq.last();
        let head = meant_substituted(prev, x, resolved, left);
        let tail = if t.0.1 == Some(x) {
            replacements(t, resolved, left)
        } else {
            seq![t]
        };
        let whole = meant_substituted(eq, x, resolved, left);
        assert(whole == head + tail);
        assert forall|i: int| 0 <= i < eq.len() && (#[trigger] eq[i]).0.1 != Some(x) implies whole.contains(
            eq[i],
        ) by {
            if i < prev.len() {
                assert(prev[i] == eq[i]);
                let p = choose|p: int| 0 <= p < head.len() && head[p] == prev[i];
                assert(whole[p] == head[p]);
            } else {
                assert(whole[head.len() as int] == tail[0]);
            }
        }
        assert forall|i: int, j: int|
            0 <= i < eq.len() && eq[i].0.1 == Some(x) && 0 <= j < resolved.len() implies whole.contains(
            #[trigger] replacements(eq[i], resolved, left)[j],
        ) by {
            if i < prev.len() {
                assert(prev[i] == eq[i]);
                assert(head.contains(replacements(prev[i], resolved, left)[j]));
                let p = choose|p: int|
                    0 <= p < head.len() && head[p] == replacements(prev[i], resolved, left)[j];
                assert(whole[p] == head[p]);
            } else {
                assert(whole[head.len() + j] == tail[j]);
            }
        }
    }
}

proof fn lemma_word_reads(s: Seq<char>, u: Seq<char>)
    requires
        accepts(RegexModel::Word(s), u),
    ensures
        u == s,
{
    let q = choose|q: Reading| #[trigger] reads(q, RegexModel::Word(s), u);
    match q {
        Reading::Word => {},
        _ => {
            assert(false);
        },
    }
}

proof fn lemma_union_split(parts: Seq<RegexModel>, w: Seq<char>) -> (i: int)
    requires
        accepts(RegexModel::Union(parts), w),
    ensures
        0 <= i < parts.len(),
        accepts(parts[i], w),
{
    let q = choose|q: Reading| #[trigger] reads(q, RegexModel::Union(parts), w);
    match q {
        Reading::Union(i, pi) => {
            assert(reads(*pi, parts[i], w));
            i
        },
        _ => {
            assert(false);
            0
        },
    }
}

proof fn lemma_star_split(a: RegexModel, w: Seq<char>) -> (k: int)
    requires
        accepts(RegexModel::Star(Box::new(a)), w),
        w.len() > 0,
    ensures
        0 < k <= w.len(),
        accepts(a, w.take(k)),
        accepts(RegexModel::Star(Box::new(a)), w.skip(k)),
{
    let st = RegexModel::Star(Box::new(a));
    let q = choose|q: Reading| #[trigger] reads(q, st, w);
    match q {
        Reading::StarMore(k, pa, pb) => {
            assert(reads(*pa, a, w.take(k)));
            assert(reads(*pb, st, w.skip(k)));
            k
        },
        _ => {
            assert(false);
            0
        },
    }
}

proof fn lemma_substituted_origins(
    eq: Seq<MeantTerm>,
    x: Seq<char>,
    resolved: Seq<MeantTerm>,
    left: bool,
)
    ensures
        forall|p: int|
            0 <= p < meant_substituted(eq, x, resolved, left).len() ==> {
                let t = #[trigger] meant_substituted(eq, x, resolved, left)[p];
                (exists|i: int| 0 <= i < eq.len() && eq[i].0.1 != Some(x) && eq[i] == t) || (exists|
                    i: int,
                    j: int,
                |
                    0 <= i < eq.len() && eq[i].0.1 == Some(x) && 0 <= j < resolved.len()
                        && replacements(eq[i], resolved, left)[j] == t)
            },
    decreases eq.len(),
{
    if eq.len() > 0 {
        let prev = eq.drop_last();
        lemma_substituted_origins(prev, x, resolved, left);
        let t = eq.last();
        let head = meant_substituted(prev, x, resolved, left);
        let tail = if t.0.1 == Some(x) {
            replacements(t, resolved, left)
        } else {
            seq![t]
        };
        let whole = meant_substituted(eq, x, resolved, left);
        assert(whole == head + tail);
        assert forall|p: int| 0 <= p < whole.len() implies {
            let u = #[trigger] whole[p];
            (exists|i: int| 0 <= i < eq.len() && eq[i].0.1 != Some(x) && eq[i] == u) || (exists|
                i: int,
                j: int,
            |
                0 <= i < eq.len() && eq[i].0.1 == Some(x) && 0 <= j < resolved.len()
                    && replacements(eq[i], resolved, left)[j] == u)
        } by {
            let u = whole[p];
            if p < head.len() {
                assert(u == head[p]);
                if exists|i: int| 0 <= i < prev.len() && prev[i].0.1 != Some(x) && prev[i] == u {
                    let i = choose|i: int| 0 <= i < prev.len() && prev[i].0.1 != Some(x) && prev[i]
                        == u;
                    assert(eq[i] == prev[i]);
                } else {
                    let (i, j) = choose|i: int, j: int|
                        0 <= i < prev.len() && prev[i].0.1 == Some(x) && 0 <= j < resolved.len()
                            && replacements(prev[i], resolved, left)[j] == u;
                    assert(eq[i] == prev[i]);
                }
            } else {
                let last = eq.len() - 1;
                assert(eq[last] == t);
                if t.0.1 == Some(x) {
                    assert(replacements(eq[last], resolved, left)[p - head.len()] == u);
                } else {
                    assert(u == t);
                }
            }
        }
    }
}

// ---------------------------------------------------------------------------
// The equations the conversion starts from, and each elimination.

/// The equation `eq` with each coefficient standing for its own word.
pub open spec fn initial_meant(eq: EquationModel) -> Seq<MeantTerm> {
    eq.map_values(|t: TermModel| (t, RegexModel::Word(t.0)))
}

/// A right-linear grammar is read from the right, and holds its
/// non-terminals last.
pub proof fn lemma_right_linear_one_sided(g: GrammarModel)
    requires
        right_linear(g),
    ensures
        !left_oriented(g),
        one_sided(g),
{
    if left_oriented(g) {
        let (k, a) = choose|k: int, a: int|
            0 <= k < g.productions.len() && 0 <= a < g.productions[k].1.len() && (
            #[trigger] g.productions[k].1[a]).len() >= 2 && g.productions[k].1[a][0] is NonTerminal;
        assert(g.productions[k].1[a][0] is Terminal);
    }
    assert forall|k: int, a: int|
        0 <= k < g.productions.len() && 0 <= a < g.productions[k].1.len() implies sided(
        #[trigger] g.productions[k].1[a],
        left_oriented(g),
    ) by {
        let alt = g.productions[k].1[a];
        assert forall|j: int| 0 <= j < alt.len() && (#[trigger] alt[j]) is NonTerminal implies j
            == alt.len() - 1 by {
            if j < alt.len() - 1 {
                assert(g.productions[k].1[a][j] is Terminal);
            }
        }
    }
}

proof fn lemma_alts_sided(g: GrammarModel, x: Seq<char>, alts: Seq<Seq<SymbolModel>>, a: int)
    requires
        one_sided(g),
        alternatives_of(g, x) == Some(alts),
        0 <= a < alts.len(),
    ensures
        sided(alts[a], left_oriented(g)),
{
    let k = key_index(g.productions, x);
    lemma_key_index(g.productions, x);
    assert(alts == g.productions[k].1);
    assert(sided(g.productions[k].1[a], left_oriented(g)));
}


proof fn lemma_term_after_non_terminal(n: Seq<char>, rest: Seq<SymbolModel>)
    requires
        forall|j: int| 0 <= j < rest.len() ==> (#[trigger] rest[j]) is Terminal,
    ensures
        alternative_term(seq![SymbolModel::NonTerminal(n)] + rest) == (
            alternative_term(rest).0,
            Some(n),
        ),
    decreases rest.len(),
{
    let s = seq![SymbolModel::NonTerminal(n)] + rest;
    if rest.len() == 0 {
        assert(s =~= seq![SymbolModel::NonTerminal(n)]);
        assert(s.drop_last() =~= Seq::<SymbolModel>::empty());
        assert(s.last() == SymbolModel::NonTerminal(n));
        assert(alternative_term(s.drop_last()) == alternative_term(Seq::<SymbolModel>::empty()));
        assert(alternative_term(rest) == alternative_term(Seq::<SymbolModel>::empty()));
    } else {
        let prev = rest.drop_last();
        assert forall|j: int| 0 <= j < prev.len() implies (#[trigger] prev[j]) is Terminal by {
            assert(prev[j] == rest[j]);
        }
        lemma_term_after_non_terminal(n, prev);
        assert(s.drop_last() =~= seq![SymbolModel::NonTerminal(n)] + prev);
        assert(s.last() == rest.last());
        assert(alternative_term(s.drop_last()) == alternative_term(
            seq![SymbolModel::NonTerminal(n)] + prev,
        ));
        assert(rest[rest.len() - 1] is Terminal);
    }
}

/// The term of a one-sided alternative: its terminals, and its
/// non-terminal, which stands first or last.
proof fn lemma_alternative_shape(alt: Seq<SymbolModel>, left: bool)
    requires
        sided(alt, left),
    ensures
        ({
            let t = alternative_term(alt);
            let i = first_non_terminal(alt);
            &&& -1 <= i < alt.len()
            &&& i < 0 ==> t.1 is None
            &&& i >= 0 ==> {
                &&& alt[i] is NonTerminal
                &&& t.1 == Some(alt[i]->NonTerminal_0)
                &&& left ==> i == 0 && alternative_term(alt.take(i)).0 == Seq::<char>::empty()
                    && alternative_term(alt.skip(i + 1)).0 == t.0
                &&& !left ==> i == alt.len() - 1 && alternative_term(alt.take(i)).0 == t.0
                    && alternative_term(alt.skip(i + 1)).0 == Seq::<char>::empty()
            }
        }),
{
    lemma_first_non_terminal(alt);
    let i = first_non_terminal(alt);
    crate::generation::lemma_alternative_term(alt);
    if i >= 0 {
        let name = alt[i]->NonTerminal_0;
        assert(alt.take(0) =~= Seq::<SymbolModel>::empty());
        assert(alternative_term(Seq::<SymbolModel>::empty()).0 == Seq::<char>::empty());
        if left {
            assert(i == 0);
            let rest = alt.skip(1);
            assert forall|j: int| 0 <= j < rest.len() implies (#[trigger] rest[j]) is Terminal by {
                assert(rest[j] == alt[j + 1]);
                if alt[j + 1] is NonTerminal {
                    assert(j + 1 == 0);
                }
            }
            assert(alt =~= seq![SymbolModel::NonTerminal(name)] + rest);
            lemma_term_after_non_terminal(name, rest);
        } else {
            assert(i == alt.len() - 1);
            assert(alt.take(i) =~= alt.drop_last());
            assert(alt.skip(i + 1) =~= Seq::<SymbolModel>::empty());
        }
    }
}

/// What a one-sided alternative derives: its terminals, after (or, read
/// from the left, before) what its non-terminal derives.
proof fn lemma_derives_by_shape(g: GrammarModel, alt: Seq<SymbolModel>, w: Seq<char>, n: nat, left: bool)
    requires
        sided(alt, left),
    ensures
        derives_by(g, alt, w, n) == ({
            let t = alternative_term(alt);
            match t.1 {
                None => w == t.0,
                Some(y) => if left {
                    t.0.len() <= w.len() && w.skip(w.len() - t.0.len()) == t.0 && derives(
                        g,
                        y,
                        w.take(w.len() - t.0.len()),
                        n,
                    )
                } else {
                    t.0.len() <= w.len() && w.take(t.0.len() as int) == t.0 && derives(
                        g,
                        y,
                        w.skip(t.0.len() as int),
                        n,
                    )
                },
            }
        }),
{
    lemma_alternative_shape(alt, left);
    let t = alternative_term(alt);
    let i = first_non_terminal(alt);
    if i >= 0 {
        if t.0.len() <= w.len() {
            if left {
                assert(w.take(0) =~= Seq::<char>::empty());
                assert(w.subrange(0, w.len() - t.0.len()) =~= w.take(w.len() - t.0.len()));
            } else {
                assert(w.skip(w.len() as int) =~= Seq::<char>::empty());
                assert(w.subrange(t.0.len() as int, w.len() as int) =~= w.skip(t.0.len() as int));
            }
        }
    }
}

proof fn lemma_initial_covers(g: GrammarModel, x: Seq<char>)
    requires
        one_sided(g),
    ensures
        covers(g, x, initial_meant(equation_of(g, x)), left_oriented(g)),
        faithful(initial_meant(equation_of(g, x))),
        plain(initial_meant(equation_of(g, x))) == equation_of(g, x),
{
    let left = left_oriented(g);
    let eq = equation_of(g, x);
    let me = initial_meant(eq);
    assert(plain(me) =~= eq);
    assert forall|w: Seq<char>, n: nat| #[trigger] derives(g, x, w, n) implies exists|i: int|
        0 <= i < me.len() && #[trigger] term_covers(g, me[i], w, n, left) by {
        let alts = alternatives_of(g, x)->Some_0;
        let a = choose|a: int|
            #![trigger alts[a]]
            0 <= a < alts.len() && derives_by(g, alts[a], w, (n - 1) as nat);
        lemma_alts_sided(g, x, alts, a);
        lemma_derives_by_shape(g, alts[a], w, (n - 1) as nat, left);
        let t = alternative_term(alts[a]);
        assert(eq[a] == t);
        if left {
            let k = w.len() - t.0.len();
            match t.1 {
                None => {
                    assert(w.skip(0) =~= w);
                    assert(k == 0);
                },
                Some(y) => {
                    assert(derives(g, y, w.take(k), (n - 1) as nat));
                },
            }
            assert(reads(Reading::Word, RegexModel::Word(t.0), w.skip(k)));
            assert(accepts(me[a].1, w.skip(k)));
        } else {
            let k = t.0.len() as int;
            match t.1 {
                None => {
                    assert(w.take(k) =~= w);
                },
                Some(y) => {
                    assert(derives(g, y, w.skip(k), (n - 1) as nat));
                },
            }
            assert(reads(Reading::Word, RegexModel::Word(t.0), w.take(k)));
            assert(accepts(me[a].1, w.take(k)));
        }
        assert(term_covers(g, me[a], w, n, left));
    }
}

proof fn lemma_initial_generates(g: GrammarModel, x: Seq<char>)
    requires
        one_sided(g),
    ensures
        generates(g, x, initial_meant(equation_of(g, x)), left_oriented(g)),
{
    let left = left_oriented(g);
    let eq = equation_of(g, x);
    let me = initial_meant(eq);
    assert forall|i: int, w: Seq<char>| 0 <= i < me.len() && #[trigger] term_yields(
        g,
        me[i],
        w,
        left,
    ) implies derivable(g, x, w) by {
        let alts = alternatives_of(g, x)->Some_0;
        lemma_alts_sided(g, x, alts, i);
        let t = alternative_term(alts[i]);
        assert(eq[i] == t);
        if left {
            let k = choose|k: int|
                0 <= k <= w.len() && #[trigger] accepts(me[i].1, w.skip(k)) && rest_derivable(
                    g,
                    me[i].0.1,
                    w.take(k),
                );
            lemma_word_reads(t.0, w.skip(k));
            match t.1 {
                None => {
                    assert(k == 0);
                    assert(w =~= t.0);
                    lemma_derives_by_shape(g, alts[i], w, 0, left);
                    assert(derives(g, x, w, 1));
                },
                Some(y) => {
                    let m = choose|m: nat| #[trigger] derives(g, y, w.take(k), m);
                    assert(w.len() - t.0.len() == k);
                    lemma_derives_by_shape(g, alts[i], w, m, left);
                    assert(derives(g, x, w, m + 1));
                },
            }
        } else {
            let k = choose|k: int|
                0 <= k <= w.len() && #[trigger] accepts(me[i].1, w.take(k)) && rest_derivable(
                    g,
                    me[i].0.1,
                    w.skip(k),
                );
            lemma_word_reads(t.0, w.take(k));
            match t.1 {
                None => {
                    assert(w =~= t.0);
                    lemma_derives_by_shape(g, alts[i], w, 0, left);
                    assert(derives(g, x, w, 1));
                },
                Some(y) => {
                    let m = choose|m: nat| #[trigger] derives(g, y, w.skip(k), m);
                    assert(t.0.len() == k);
                    lemma_derives_by_shape(g, alts[i], w, m, left);
                    assert(derives(g, x, w, m + 1));
                },
            }
        }
    }
}

/// An equation for each non-terminal, with the meaning of its
/// coefficients.
pub type MeantEntry = (Seq<char>, Seq<MeantTerm>);

pub open spec fn plain_entries(es: Seq<MeantEntry>) -> Seq<(Seq<char>, EquationModel)> {
    es.map_values(|e: MeantEntry| (e.0, plain(e.1)))
}

/// Every equation accounts for the words its non-terminal derives, and
/// for no others, and its coefficients are how their expressions are
/// written.
pub open spec fn entries_hold(g: GrammarModel, es: Seq<MeantEntry>) -> bool {
    forall|k: int|
        0 <= k < es.len() ==> covers(g, (#[trigger] es[k]).0, es[k].1, left_oriented(g))
            && generates(g, es[k].0, es[k].1, left_oriented(g)) && faithful(es[k].1)
}

proof fn lemma_same_key_index<V, W>(a: Seq<(Seq<char>, V)>, b: Seq<(Seq<char>, W)>, key: Seq<char>)
    requires
        a.len() == b.len(),
        forall|j: int| 0 <= j < a.len() ==> (#[trigger] a[j]).0 == b[j].0,
    ensures
        key_index(a, key) == key_index(b, key),
{
    lemma_key_index(a, key);
    lemma_key_index(b, key);
    let ka = key_index(a, key);
    let kb = key_index(b, key);
    if ka >= 0 {
        assert(b[ka].0 == key);
    }
    if kb >= 0 {
        assert(a[kb].0 == key);
    }
}

proof fn lemma_initial_entries_equations(g: GrammarModel, nts: Seq<Seq<char>>)
    ensures
        forall|k: int|
            0 <= k < initial_entries(g, nts).len() ==> (#[trigger] initial_entries(g, nts)[k]).1
                == equation_of(g, initial_entries(g, nts)[k].0),
    decreases nts.len(),
{
    if nts.len() > 0 {
        lemma_initial_entries_equations(g, nts.drop_last());
        let p = initial_entries(g, nts.drop_last());
        let e = initial_entries(g, nts);
        assert forall|k: int| 0 <= k < e.len() implies (#[trigger] e[k]).1 == equation_of(
            g,
            e[k].0,
        ) by {
            if k < p.len() {
                assert(e[k] == p[k]);
            }
        }
    }
}

proof fn lemma_initial_meant_entries(g: GrammarModel) -> (es: Seq<MeantEntry>)
    requires
        one_sided(g),
    ensures
        plain_entries(es) == initial_entries(g, g.non_terminals),
        entries_hold(g, es),
{
    let init = initial_entries(g, g.non_terminals);
    lemma_initial_entries_equations(g, g.non_terminals);
    let es = init.map_values(|e: (Seq<char>, EquationModel)| (e.0, initial_meant(e.1)));
    assert forall|k: int| 0 <= k < es.len() implies covers(
        g,
        (#[trigger] es[k]).0,
        es[k].1,
        left_oriented(g),
    ) && generates(g, es[k].0, es[k].1, left_oriented(g)) && faithful(es[k].1) by {
        assert(init[k].1 == equation_of(g, init[k].0));
        lemma_initial_covers(g, init[k].0);
        lemma_initial_generates(g, init[k].0);
    }
    assert forall|k: int| 0 <= k < es.len() implies #[trigger] plain_entries(es)[k] == init[k] by {
        assert(init[k].1 == equation_of(g, init[k].0));
        lemma_initial_covers(g, init[k].0);
    }
    assert(plain_entries(es) =~= init);
    es
}

proof fn lemma_eliminate_one_meant(g: GrammarModel, st: EliminationModel, es: Seq<MeantEntry>, x: Seq<char>) -> (r: (
    Seq<MeantEntry>,
    Seq<MeantTerm>,
))
    requires
        plain_entries(es) == st.entries,
        entries_hold(g, es),
        eliminate_one(g, st, x) is Ok,
    ensures
        plain_entries(r.0) == eliminate_one(g, st, x)->Ok_0.entries,
        entries_hold(g, r.0),
        st.entries.len() > 0,
        eliminate_one(g, st, x)->Ok_0.entries.len() == 0 ==> eliminate_one(g, st, x)->Ok_0.final_terms
            == Some(plain(r.1)) && faithful(r.1) && covers(g, x, r.1, left_oriented(g))
            && generates(g, x, r.1, left_oriented(g)),
        eliminate_one(g, st, x)->Ok_0.entries.len() > 0 ==> eliminate_one(
            g,
            st,
            x,
        )->Ok_0.final_terms == st.final_terms,
{
    let left = left_oriented(g);
    let i = key_index(st.entries, x);
    assert forall|j: int| 0 <= j < st.entries.len() implies (#[trigger] st.entries[j]).0
        == es[j].0 by {
        assert(plain_entries(es)[j] == (es[j].0, plain(es[j].1)));
    }
    lemma_same_key_index(st.entries, es, x);
    lemma_key_index(es, x);
    let e = es[i];
    assert(e.0 == x);
    assert(covers(g, e.0, e.1, left) && generates(g, e.0, e.1, left) && faithful(e.1));
    let ar = meant_resolve(x, e.1, left);
    lemma_plain_resolve(x, e.1, left);
    lemma_faithful_resolve(x, e.1, left);
    lemma_resolve_covers_all(g, x, e.1, left);
    lemma_resolve_generates(g, x, e.1, left);
    assert(plain_entries(es)[i] == (e.0, plain(e.1)));
    assert(plain(ar) == resolve(x, st.entries[i].1, left));
    let kept = es.remove(i);
    let rest = kept.map_values(|f: MeantEntry| (f.0, meant_substituted(f.1, x, ar, left)));
    let next = eliminate_one(g, st, x)->Ok_0;
    let plain_kept = st.entries.remove(i);
    assert(plain_kept =~= plain_entries(kept));
    assert forall|k: int| 0 <= k < rest.len() implies #[trigger] plain_entries(rest)[k]
        == next.entries[k] by {
        lemma_plain_substituted(kept[k].1, x, ar, left);
        assert(plain_kept[k] == (kept[k].0, plain(kept[k].1)));
    }
    assert(plain_entries(rest) =~= next.entries);
    assert forall|k: int| 0 <= k < rest.len() implies covers(
        g,
        (#[trigger] rest[k]).0,
        rest[k].1,
        left,
    ) && generates(g, rest[k].0, rest[k].1, left) && faithful(rest[k].1) by {
        let f = kept[k];
        if k < i {
            assert(f == es[k]);
        } else {
            assert(f == es[k + 1]);
        }
        assert(covers(g, f.0, f.1, left) && generates(g, f.0, f.1, left) && faithful(f.1));
        lemma_substituted_covers(g, f.0, f.1, x, ar, left);
        lemma_substituted_generates(g, f.0, f.1, x, ar, left);
        lemma_faithful_substituted(f.1, x, ar, left);
    }
    (rest, ar)
}

proof fn lemma_eliminate_all_meant(g: GrammarModel, order: Seq<Seq<char>>) -> (r: (
    Seq<MeantEntry>,
    Seq<MeantTerm>,
))
    requires
        one_sided(g),
    ensures
        eliminate_all(g, order) is Ok ==> {
            let st = eliminate_all(g, order)->Ok_0;
            &&& plain_entries(r.0) == st.entries
            &&& entries_hold(g, r.0)
            &&& st.final_terms is Some ==> order.len() > 0 && st.entries.len() == 0
                && st.final_terms == Some(plain(r.1)) && faithful(r.1) && covers(
                g,
                order.last(),
                r.1,
                left_oriented(g),
            ) && generates(g, order.last(), r.1, left_oriented(g))
        },
    decreases order.len(),
{
    if order.len() == 0 {
        let es = lemma_initial_meant_entries(g);
        (es, Seq::empty())
    } else {
        let prev = lemma_eliminate_all_meant(g, order.drop_last());
        match eliminate_all(g, order.drop_last()) {
            Err(_) => prev,
            Ok(st) => {
                if eliminate_one(g, st, order.last()) is Ok {
                    let r = lemma_eliminate_one_meant(g, st, prev.0, order.last());
                    let next = eliminate_one(g, st, order.last())->Ok_0;
                    if next.entries.len() == 0 {
                        r
                    } else {
                        (r.0, prev.1)
                    }
                } else {
                    prev
                }
            },
        }
    }
}

// ---------------------------------------------------------------------------
// The law.

/// The regular expression a one-sided grammar (right-linear, or
/// left-linear) converts to denotes the grammar's language: the final
/// expression is how a regular expression is written that accepts exactly
/// the words the start symbol derives.
pub proof fn lemma_expression_denotes_language(g: GrammarModel)
    requires
        one_sided(g),
    ensures
        regex_trace_of(g) is Ok ==> exists|r: RegexModel|
            #[trigger] render(r) == regex_trace_of(g)->Ok_0.final_expression && forall|w: Seq<char>|
                derivable(g, g.start, w) <==> #[trigger] accepts(r, w),
{
    let left = left_oriented(g);
    let order = elimination_order(g);
    let res = lemma_eliminate_all_meant(g, order);
    if regex_trace_of(g) is Ok {
        let st = eliminate_all(g, order)->Ok_0;
        let terms = st.final_terms->Some_0;
        let f = res.1;
        assert(plain(f) == terms);
        let r = RegexModel::Union(meanings(f));
        lemma_render_all(f);
        assert(render(r) == union_text(render_all(meanings(f))));
        assert(render(r) == regex_trace_of(g)->Ok_0.final_expression);
        assert(order.last() == g.start);
        assert forall|w: Seq<char>| derivable(g, g.start, w) implies #[trigger] accepts(r, w) by {
            let n = choose|n: nat| #[trigger] derives(g, g.start, w, n);
            let i = choose|i: int| 0 <= i < f.len() && #[trigger] term_covers(g, f[i], w, n, left);
            assert(plain(f)[i] == f[i].0);
            assert(terms[i].1 is None);
            if left {
                let k = choose|k: int|
                    0 <= k <= w.len() && #[trigger] accepts(f[i].1, w.skip(k)) && rest_derives(
                        g,
                        f[i].0.1,
                        w.take(k),
                        n,
                    );
                assert(w.skip(k) =~= w);
            } else {
                let k = choose|k: int|
                    0 <= k <= w.len() && #[trigger] accepts(f[i].1, w.take(k)) && rest_derives(
                        g,
                        f[i].0.1,
                        w.skip(k),
                        n,
                    );
                assert(w.take(k) =~= w);
            }
            lemma_union(meanings(f), i, w);
        }
        assert forall|w: Seq<char>| #[trigger] accepts(r, w) implies derivable(g, g.start, w) by {
            let i = lemma_union_split(meanings(f), w);
            assert(plain(f)[i] == f[i].0);
            assert(terms[i].1 is None);
            if left {
                assert(w.skip(0) =~= w);
                assert(w.take(0).len() == 0);
            } else {
                assert(w.take(w.len() as int) =~= w);
                assert(w.skip(w.len() as int).len() == 0);
            }
            assert(term_yields(g, f[i], w, left));
        }
    }
}

// ---------------------------------------------------------------------------
// The stack derivation writes derived words.

proof fn lemma_term_prepend(c: char, rest: Seq<SymbolModel>)
    ensures
        alternative_term(seq![SymbolModel::Terminal(c)] + rest).0 == seq![c] + alternative_term(
            rest,
        ).0,
    decreases rest.len(),
{
    let s = seq![SymbolModel::Terminal(c)] + rest;
    if rest.len() == 0 {
        assert(s =~= seq![SymbolModel::Terminal(c)]);
        assert(s.drop_last() =~= Seq::<SymbolModel>::empty());
        assert(s.last() == SymbolModel::Terminal(c));
        assert(alternative_term(s.drop_last()) == alternative_term(Seq::<SymbolModel>::empty()));
        assert(alternative_term(rest) == alternative_term(Seq::<SymbolModel>::empty()));
        assert(seq![c] + Seq::<char>::empty() =~= Seq::<char>::empty().push(c));
    } else {
        lemma_term_prepend(c, rest.drop_last());
        assert(s.drop_last() =~= seq![SymbolModel::Terminal(c)] + rest.drop_last());
        assert(s.last() == rest.last());
        assert(alternative_term(s.drop_last()) == alternative_term(
            seq![SymbolModel::Terminal(c)] + rest.drop_last(),
        ));
        let t = alternative_term(rest.drop_last());
        match rest.last() {
            SymbolModel::Terminal(d) => {
                assert((seq![c] + t.0).push(d) =~= seq![c] + t.0.push(d));
            },
            SymbolModel::NonTerminal(_) => {},
        }
    }
}

/// The terminals of two sequences one after the other.
proof fn lemma_term_concat(a: Seq<SymbolModel>, b: Seq<SymbolModel>)
    ensures
        alternative_term(a + b).0 == alternative_term(a).0 + alternative_term(b).0,
    decreases b.len(),
{
    if b.len() == 0 {
        assert(a + b =~= a);
        assert(alternative_term(b) == alternative_term(Seq::<SymbolModel>::empty()));
        assert(alternative_term(a).0 + Seq::<char>::empty() =~= alternative_term(a).0);
    } else {
        lemma_term_concat(a, b.drop_last());
        assert((a + b).drop_last() =~= a + b.drop_last());
        assert((a + b).last() == b.last());
        match b.last() {
            SymbolModel::Terminal(d) => {
                assert((alternative_term(a).0 + alternative_term(b.drop_last()).0).push(d)
                    =~= alternative_term(a).0 + alternative_term(b.drop_last()).0.push(d));
            },
            SymbolModel::NonTerminal(_) => {},
        }
    }
}

/// Popping the terminals before the first non-terminal writes them, in
/// order.
proof fn lemma_consume_output_upto(st: StateModel, i: int)
    requires
        0 <= i <= st.stack.len(),
        forall|j: int| 0 <= j < i ==> #[trigger] st.stack[j] is Terminal,
        i < st.stack.len() ==> st.stack[i] is NonTerminal,
    ensures
        consume(st).output == st.output + alternative_term(st.stack.take(i)).0,
    decreases i,
{
    if i == 0 {
        assert(consume(st) == st);
        assert(st.stack.take(0) =~= Seq::<SymbolModel>::empty());
        assert(alternative_term(st.stack.take(0)) == alternative_term(Seq::<SymbolModel>::empty()));
        assert(st.output + Seq::<char>::empty() =~= st.output);
    } else {
        let c = st.stack[0]->Terminal_0;
        let out = st.output.push(c);
        let next = StateModel {
            stack: st.stack.drop_first(),
            output: out,
            steps: st.steps,
            events: st.events.push(EventModel::TerminalPopped { terminal: c, output_so_far: out }),
        };
        assert forall|j: int| 0 <= j < i - 1 implies #[trigger] next.stack[j] is Terminal by {
            assert(next.stack[j] == st.stack[j + 1]);
        }
        if i < st.stack.len() {
            assert(next.stack[i - 1] == st.stack[i]);
        }
        lemma_consume_output_upto(next, i - 1);
        assert(st.stack.take(i) =~= seq![SymbolModel::Terminal(c)] + next.stack.take(i - 1));
        lemma_term_prepend(c, next.stack.take(i - 1));
        assert(out + alternative_term(next.stack.take(i - 1)).0 =~= st.output + (seq![c]
            + alternative_term(next.stack.take(i - 1)).0));
    }
}

/// A one-sided grammar is linear.
pub proof fn lemma_one_sided_is_linear(g: GrammarModel)
    requires
        one_sided(g),
    ensures
        linear(g),
{
    assert forall|k: int, a: int, j: int|
        0 <= k < g.productions.len() && 0 <= a < g.productions[k].1.len() && 0 <= j
            < g.productions[k].1[a].len() && (#[trigger] g.productions[k].1[a][j]) is NonTerminal
            implies j == first_non_terminal(g.productions[k].1[a]) by {
        let alt = g.productions[k].1[a];
        assert(sided(alt, left_oriented(g)));
        lemma_first_non_terminal(alt);
        let f = first_non_terminal(alt);
        assert(f >= 0);
        assert(alt[f] is NonTerminal);
    }
}

/// In a linear grammar, a step from a stack that holds a non-terminal on
/// top of terminals writes the terminals of the chosen production before
/// its non-terminal, and leaves that non-terminal on top of the rest of the
/// production and the terminals; without a non-terminal it writes every
/// terminal left.
proof fn lemma_step_output(g: GrammarModel, st: StateModel, choice: usize)
    requires
        linear(g),
        st.stack.len() >= 1,
        st.stack[0] is NonTerminal,
        forall|j: int| 1 <= j < st.stack.len() ==> #[trigger] st.stack[j] is Terminal,
        step(g, st, choice).1 is None,
    ensures
        ({
            let y = st.stack[0]->NonTerminal_0;
            &&& alternatives_of(g, y) is Some
            &&& choice < alternatives_of(g, y)->Some_0.len()
            &&& ({
                let prod = alternatives_of(g, y)->Some_0[choice as int];
                let f = first_non_terminal(prod);
                let ts = st.stack.drop_first();
                &&& -1 <= f < prod.len()
                &&& f >= 0 ==> prod[f] is NonTerminal && step(g, st, choice).0.stack == prod.skip(f)
                    + ts && step(g, st, choice).0.output == st.output + alternative_term(
                    prod.take(f),
                ).0
                &&& f < 0 ==> step(g, st, choice).0.stack.len() == 0 && step(
                    g,
                    st,
                    choice,
                ).0.output == st.output + alternative_term(prod).0 + alternative_term(ts).0
            })
        }),
{
    let y = st.stack[0]->NonTerminal_0;
    assert(consume(st) == st);
    let alts = alternatives_of(g, y)->Some_0;
    lemma_step_linear(g, st, choice);
    let popped = StateModel { stack: st.stack.drop_first(), ..st };
    let prod = alts[choice as int];
    let stack = prod + popped.stack;
    let pushed = StateModel {
        stack: stack,
        output: popped.output,
        steps: popped.steps.push(
            crate::derivation::StepModel {
                non_terminal: y,
                production: prod,
                stack_after: stack,
                output_so_far: popped.output,
            },
        ),
        events: popped.events.push(
            EventModel::ProductionChosen { non_terminal: y, alternative_index: choice, production: prod },
        ).push(EventModel::Pushed { stack_after: stack }),
    };
    assert(step(g, st, choice).0.stack == consume(pushed).stack);
    assert(step(g, st, choice).0.output == consume(pushed).output);
    lemma_first_non_terminal(prod);
    let f = first_non_terminal(prod);
    if f >= 0 {
        assert forall|j: int| 0 <= j < f implies #[trigger] stack[j] is Terminal by {
            assert(stack[j] == prod[j]);
        }
        assert(stack[f] == prod[f]);
        crate::derivation::lemma_consume_upto(pushed, f);
        lemma_consume_output_upto(pushed, f);
        assert(stack.skip(f) =~= prod.skip(f) + popped.stack);
        assert(stack.take(f) =~= prod.take(f));
    } else {
        assert forall|j: int| 0 <= j < stack.len() implies #[trigger] stack[j] is Terminal by {
            if j < prod.len() {
                assert(stack[j] == prod[j]);
            } else {
                assert(stack[j] == st.stack[j - prod.len() + 1]);
            }
        }
        lemma_consume_output_upto(pushed, stack.len() as int);
        assert(stack.take(stack.len() as int) =~= stack);
        lemma_term_concat(prod, popped.stack);
        assert(st.output + (alternative_term(prod).0 + alternative_term(popped.stack).0)
            =~= st.output + alternative_term(prod).0 + alternative_term(popped.stack).0);
    }
}

/// What a linear alternative derives with its non-terminal at `f`: the
/// terminals before it, a word that non-terminal derives, and the
/// terminals after it.
proof fn lemma_derives_by_at(g: GrammarModel, prod: Seq<SymbolModel>, v: Seq<char>, m: nat)
    requires
        first_non_terminal(prod) >= 0,
        first_non_terminal(prod) < prod.len(),
        prod[first_non_terminal(prod)] is NonTerminal,
        derives(g, prod[first_non_terminal(prod)]->NonTerminal_0, v, m),
    ensures
        derives_by(
            g,
            prod,
            alternative_term(prod.take(first_non_terminal(prod))).0 + v + alternative_term(
                prod.skip(first_non_terminal(prod) + 1),
            ).0,
            m,
        ),
{
    let f = first_non_terminal(prod);
    let pre = alternative_term(prod.take(f)).0;
    let post = alternative_term(prod.skip(f + 1)).0;
    let w = pre + v + post;
    assert(w.take(pre.len() as int) =~= pre);
    assert(w.skip(w.len() - post.len()) =~= post);
    assert(w.subrange(pre.len() as int, w.len() - post.len()) =~= v);
}

/// A run from the start symbol that has not failed has either finished,
/// having written a word the start symbol derives, or holds a non-terminal
/// on top of terminals: each word that non-terminal derives, between what
/// was written and those terminals, the start symbol derives.
#[verifier::spinoff_prover]
#[verifier::rlimit(40)]
proof fn lemma_run_derives(g: GrammarModel, choices: Seq<usize>)
    requires
        linear(g),
        run(g, initial_state(g), choices).1 is None,
    ensures
        ({
            let st = run(g, initial_state(g), choices).0;
            ||| st.stack.len() == 0 && derives(g, g.start, st.output, choices.len())
            ||| st.stack.len() >= 1 && st.stack[0] is NonTerminal && (forall|j: int|
                1 <= j < st.stack.len() ==> #[trigger] st.stack[j] is Terminal) && forall|
                v: Seq<char>,
                m: nat,
            |
                #[trigger] derives(g, st.stack[0]->NonTerminal_0, v, m) ==> derives(
                    g,
                    g.start,
                    st.output + v + alternative_term(st.stack.drop_first()).0,
                    m + choices.len(),
                )
        }),
    decreases choices.len(),
{
    if choices.len() == 0 {
        let st = initial_state(g);
        assert(st.stack.drop_first() =~= Seq::<SymbolModel>::empty());
        assert(alternative_term(st.stack.drop_first()) == alternative_term(
            Seq::<SymbolModel>::empty(),
        ));
        assert forall|v: Seq<char>, m: nat| #[trigger] derives(g, g.start, v, m) implies derives(
            g,
            g.start,
            st.output + v + alternative_term(st.stack.drop_first()).0,
            m + choices.len(),
        ) by {
            assert(st.output + v + Seq::<char>::empty() =~= v);
        }
    } else {
        let prefix = choices.drop_last();
        let c = choices.last();
        lemma_run_derives(g, prefix);
        let prev = run(g, initial_state(g), prefix).0;
        let i = prefix.len();
        if prev.stack.len() == 0 {
            assert(consume(prev) == prev);
            assert(step(g, prev, c).1 is Some);
        } else {
            let y = prev.stack[0]->NonTerminal_0;
            let ts = prev.stack.drop_first();
            lemma_step_output(g, prev, c);
            let alts = alternatives_of(g, y)->Some_0;
            let prod = alts[c as int];
            let f = first_non_terminal(prod);
            let st = run(g, initial_state(g), choices).0;
            assert(st == step(g, prev, c).0);
            lemma_step_linear(g, prev, c);
            if f >= 0 {
                let z = prod[f]->NonTerminal_0;
                let pre = alternative_term(prod.take(f)).0;
                let post = alternative_term(prod.skip(f + 1)).0;
                assert(st.stack[0] == prod[f]);
                assert(st.stack.drop_first() =~= prod.skip(f + 1) + ts);
                lemma_term_concat(prod.skip(f + 1), ts);
                assert forall|v: Seq<char>, m: nat| #[trigger] derives(g, z, v, m) implies derives(
                    g,
                    g.start,
                    st.output + v + alternative_term(st.stack.drop_first()).0,
                    m + choices.len(),
                ) by {
                    lemma_derives_by_at(g, prod, v, m);
                    assert(derives_by(g, alts[c as int], pre + v + post, m));
                    assert(derives(g, y, pre + v + post, m + 1));
                    assert(prev.output + (pre + v + post) + alternative_term(ts).0 =~= st.output + v
                        + alternative_term(st.stack.drop_first()).0);
                }
            } else {
                assert(derives_by(g, alts[c as int], alternative_term(prod).0, 0));
                assert(derives(g, y, alternative_term(prod).0, 1));
                assert(prev.output + alternative_term(prod).0 + alternative_term(ts).0 == st.output);
            }
        }
    }
}

/// Every sentence a completed stack derivation of a linear grammar writes
/// is derived by the start symbol.
pub proof fn lemma_stack_derivation_derives(g: GrammarModel, choices: Seq<usize>)
    requires
        linear(g),
        run(g, initial_state(g), choices).1 is None,
        run(g, initial_state(g), choices).0.stack.len() == 0,
    ensures
        derivable(g, g.start, run(g, initial_state(g), choices).0.output),
{
    lemma_run_derives(g, choices);
    let n = choices.len();
    assert(derives(g, g.start, run(g, initial_state(g), choices).0.output, n));
}

/// Every sentence a completed stack derivation of a one-sided grammar
/// (right-linear, or left-linear) writes is accepted by the regular
/// expression the grammar converts to.
pub proof fn lemma_derived_sentences_are_accepted(g: GrammarModel, choices: Seq<usize>)
    requires
        one_sided(g),
        regex_trace_of(g) is Ok,
        run(g, initial_state(g), choices).1 is None,
        run(g, initial_state(g), choices).0.stack.len() == 0,
    ensures
        exists|r: RegexModel|
            #[trigger] render(r) == regex_trace_of(g)->Ok_0.final_expression && accepts(
                r,
                run(g, initial_state(g), choices).0.output,
            ),
{
    lemma_one_sided_is_linear(g);
    lemma_stack_derivation_derives(g, choices);
    lemma_expression_denotes_language(g);
    let r = choose|r: RegexModel|
        #[trigger] render(r) == regex_trace_of(g)->Ok_0.final_expression && forall|w: Seq<char>|
            derivable(g, g.start, w) <==> #[trigger] accepts(r, w);
    assert(accepts(r, run(g, initial_state(g), choices).0.output));
}

proof fn lemma_run_first(g: GrammarModel, st: StateModel, c: usize, cs: Seq<usize>)
    requires
        step(g, st, c).1 is None,
    ensures
        run(g, st, seq![c] + cs) == run(g, step(g, st, c).0, cs),
    decreases cs.len(),
{
    let all = seq![c] + cs;
    if cs.len() == 0 {
        assert(all =~= seq![c]);
        assert(all.drop_last() =~= Seq::<usize>::empty());
        assert(run(g, st, all.drop_last()) == run(g, st, Seq::<usize>::empty()));
        assert(run(g, st, all) == step(g, st, c));
        assert(run(g, step(g, st, c).0, cs) == (step(g, st, c).0, None::<crate::symbol::ErrorModel>));
    } else {
        lemma_run_first(g, st, c, cs.drop_last());
        assert(all.drop_last() =~= seq![c] + cs.drop_last());
        assert(all.last() == cs.last());
        assert(run(g, st, all.drop_last()) == run(g, step(g, st, c).0, cs.drop_last()));
    }
}

/// The index of every alternative fits in a `usize`.
pub open spec fn choices_fit(g: GrammarModel) -> bool {
    forall|k: int| 0 <= k < g.productions.len() ==> (#[trigger] g.productions[k]).1.len() <= usize::MAX
}

/// From a stack that holds `y` alone, some choices derive each word `y`
/// derives.

/// From a stack that holds `y` on top of terminals, some choices derive
/// each word `y` derives, then write those terminals.
proof fn lemma_derives_runs(g: GrammarModel, st: StateModel, y: Seq<char>, v: Seq<char>, m: nat) -> (cs: Seq<usize>)
    requires
        linear(g),
        choices_fit(g),
        st.stack.len() >= 1,
        st.stack[0] == SymbolModel::NonTerminal(y),
        forall|j: int| 1 <= j < st.stack.len() ==> #[trigger] st.stack[j] is Terminal,
        derives(g, y, v, m),
    ensures
        run(g, st, cs).1 is None,
        run(g, st, cs).0.stack.len() == 0,
        run(g, st, cs).0.output == st.output + v + alternative_term(st.stack.drop_first()).0,
    decreases m,
{
    let alts = alternatives_of(g, y)->Some_0;
    let a = choose|a: int|
        #![trigger alts[a]]
        0 <= a < alts.len() && derives_by(g, alts[a], v, (m - 1) as nat);
    lemma_key_index(g.productions, y);
    assert(alts == g.productions[key_index(g.productions, y)].1);
    assert(g.productions[key_index(g.productions, y)].1.len() <= usize::MAX);
    let c = a as usize;
    assert(c == a);
    let ts = st.stack.drop_first();
    lemma_step_linear(g, st, c);
    lemma_step_output(g, st, c);
    let prod = alts[a];
    let f = first_non_terminal(prod);
    let st1 = step(g, st, c).0;
    if f < 0 {
        assert(v == alternative_term(prod).0);
        assert(run(g, st, seq![c]) == step(g, st, c)) by {
            assert(seq![c].drop_last() =~= Seq::<usize>::empty());
            assert(run(g, st, seq![c].drop_last()) == run(g, st, Seq::<usize>::empty()));
        }
        seq![c]
    } else {
        let z = prod[f]->NonTerminal_0;
        let pre = alternative_term(prod.take(f)).0;
        let post = alternative_term(prod.skip(f + 1)).0;
        let mid = v.subrange(pre.len() as int, v.len() - post.len());
        assert(v =~= pre + mid + post);
        assert(st1.stack[0] == prod[f]);
        assert forall|j: int| 1 <= j < st1.stack.len() implies #[trigger] st1.stack[j] is Terminal by {}
        let cs1 = lemma_derives_runs(g, st1, z, mid, (m - 1) as nat);
        lemma_run_first(g, st, c, cs1);
        assert(st1.stack.drop_first() =~= prod.skip(f + 1) + ts);
        lemma_term_concat(prod.skip(f + 1), ts);
        assert(st.output + pre + mid + (post + alternative_term(ts).0) =~= st.output + v
            + alternative_term(ts).0);
        seq![c] + cs1
    }
}

/// Every word the start symbol of a linear grammar derives is the sentence
/// of some completed stack derivation.
pub proof fn lemma_derived_words_have_stack_derivations(g: GrammarModel, w: Seq<char>)
    requires
        linear(g),
        choices_fit(g),
        derivable(g, g.start, w),
    ensures
        exists|choices: Seq<usize>|
            #[trigger] run(g, initial_state(g), choices).1 is None && run(
                g,
                initial_state(g),
                choices,
            ).0.stack.len() == 0 && run(g, initial_state(g), choices).0.output == w,
{
    let n = choose|n: nat| #[trigger] derives(g, g.start, w, n);
    let st = initial_state(g);
    let cs = lemma_derives_runs(g, st, g.start, w, n);
    assert(st.stack.drop_first() =~= Seq::<SymbolModel>::empty());
    assert(alternative_term(st.stack.drop_first()) == alternative_term(Seq::<SymbolModel>::empty()));
    assert(st.output + w + Seq::<char>::empty() =~= w);
    assert(run(g, st, cs).0.output == w);
}

} // verus!
