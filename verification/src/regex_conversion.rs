//! Conversion of a regular grammar to a regular expression, by eliminating
//! its non-terminals one at a time with Arden's rule (`X = aX + b` gives
//! `X = a*b`).

use vstd::prelude::*;

use crate::grammar::{Grammar, GrammarModel, alternatives_of, key_index, lemma_key_index, lookup};
use crate::symbol::{ErrorModel, GrammarError, Symbol, SymbolModel, string_from};
use crate::text::{join, join_strings};

verus! {

/// A term `coeff target` of an equation: a word, followed by a non-terminal
/// or by nothing.
#[derive(Debug, Clone)]
pub struct Term {
    pub coeff: String,
    pub target: Option<String>,
}

/// A term as a mathematical value.
pub type TermModel = (Seq<char>, Option<Seq<char>>);

/// An equation, the union of its terms.
pub type EquationModel = Seq<TermModel>;

impl DeepView for Term {
    type V = TermModel;

    open spec fn deep_view(&self) -> TermModel {
        (self.coeff@, self.target.deep_view())
    }
}

/// One non-terminal eliminated, in elimination order.
#[derive(Debug, Clone, PartialEq)]
pub struct EliminationStep {
    pub eliminated: String,
    pub resolved_equation: String,
    pub remaining_equations: Vec<(String, String)>,
}

#[derive(Debug, Clone, PartialEq)]
pub struct RegexTrace {
    pub initial_equations: Vec<(String, String)>,
    pub eliminations: Vec<EliminationStep>,
    pub final_expression: String,
}

pub struct EliminationStepModel {
    pub eliminated: Seq<char>,
    pub resolved_equation: Seq<char>,
    pub remaining_equations: Seq<(Seq<char>, Seq<char>)>,
}

pub struct RegexTraceModel {
    pub initial_equations: Seq<(Seq<char>, Seq<char>)>,
    pub eliminations: Seq<EliminationStepModel>,
    pub final_expression: Seq<char>,
}

impl DeepView for EliminationStep {
    type V = EliminationStepModel;

    open spec fn deep_view(&self) -> EliminationStepModel {
        EliminationStepModel {
            eliminated: self.eliminated@,
            resolved_equation: self.resolved_equation@,
            remaining_equations: self.remaining_equations.deep_view(),
        }
    }
}

impl DeepView for RegexTrace {
    type V = RegexTraceModel;

    open spec fn deep_view(&self) -> RegexTraceModel {
        RegexTraceModel {
            initial_equations: self.initial_equations.deep_view(),
            eliminations: self.eliminations.deep_view(),
            final_expression: self.final_expression@,
        }
    }
}

// ---------------------------------------------------------------------------
// Equations and their text.

/// The term of an alternative: its terminals, in order, and its last
/// non-terminal.
pub open spec fn alternative_term(alt: Seq<SymbolModel>) -> TermModel
    decreases alt.len(),
{
    if alt.len() == 0 {
        (Seq::empty(), None)
    } else {
        let prev = alternative_term(alt.drop_last());
        match alt.last() {
            SymbolModel::Terminal(c) => (prev.0.push(c), prev.1),
            SymbolModel::NonTerminal(n) => (prev.0, Some(n)),
        }
    }
}

/// The equation of `nt`: one term per alternative.
pub open spec fn equation_of(g: GrammarModel, nt: Seq<char>) -> EquationModel {
    match alternatives_of(g, nt) {
        Some(alts) => alts.map_values(|a: Seq<SymbolModel>| alternative_term(a)),
        None => Seq::empty(),
    }
}

/// `coeff` followed by the target's name.
pub open spec fn term_text(t: TermModel) -> Seq<char> {
    match t.1 {
        Some(n) => t.0 + n,
        None => t.0,
    }
}

/// `nt=t1+t2+...`.
pub open spec fn equation_text(nt: Seq<char>, eq: EquationModel) -> Seq<char> {
    nt + seq!['='] + join(eq.map_values(|t: TermModel| term_text(t)), seq!['+'])
}

/// The union of `parts`: nothing, the part alone, or `(p1|p2|...)`.
pub open spec fn union_text(parts: Seq<Seq<char>>) -> Seq<char> {
    if parts.len() == 0 {
        Seq::empty()
    } else if parts.len() == 1 {
        parts[0]
    } else {
        seq!['('] + join(parts, seq!['|']) + seq![')']
    }
}

/// `alpha*`, with `alpha` put in parentheses unless it is one character or
/// already starts with `(` and ends with `)`; nothing for nothing.
pub open spec fn star_text(alpha: Seq<char>) -> Seq<char> {
    if alpha.len() == 0 {
        Seq::empty()
    } else if alpha.len() == 1 || (alpha[0] == '(' && alpha.last() == ')') {
        alpha.push('*')
    } else {
        seq!['('] + alpha + seq![')', '*']
    }
}

/// The terms of `eq` whose target is `nt`, in order.
pub open spec fn self_terms(eq: EquationModel, nt: Seq<char>) -> EquationModel
    decreases eq.len(),
{
    if eq.len() == 0 {
        Seq::empty()
    } else if eq.last().1 == Some(nt) {
        self_terms(eq.drop_last(), nt).push(eq.last())
    } else {
        self_terms(eq.drop_last(), nt)
    }
}

/// The other terms of `eq`, in order.
pub open spec fn other_terms(eq: EquationModel, nt: Seq<char>) -> EquationModel
    decreases eq.len(),
{
    if eq.len() == 0 {
        Seq::empty()
    } else if eq.last().1 == Some(nt) {
        other_terms(eq.drop_last(), nt)
    } else {
        other_terms(eq.drop_last(), nt).push(eq.last())
    }
}

/// Arden's rule: `nt = a1 nt + ... + b1 + ...` becomes
/// `nt = (a1|...)* b1 + ...`; in a left-linear grammar
/// `nt = nt a1 + ... + b1 + ...` becomes `nt = b1 (a1|...)* + ...`.
pub open spec fn resolve(nt: Seq<char>, eq: EquationModel, left: bool) -> EquationModel {
    let selfs = self_terms(eq, nt);
    let others = other_terms(eq, nt);
    if selfs.len() == 0 {
        others
    } else {
        let star = star_text(union_text(selfs.map_values(|t: TermModel| t.0)));
        others.map_values(
            |t: TermModel|
                (if left {
                    t.0 + star
                } else {
                    star + t.0
                }, t.1),
        )
    }
}

/// Replaces each term `c x` of `eq` by `c r` for each term `r` of
/// `resolved`; in a left-linear grammar each term `x c` by `r c`.
pub open spec fn substituted(
    eq: EquationModel,
    x: Seq<char>,
    resolved: EquationModel,
    left: bool,
) -> EquationModel
    decreases eq.len(),
{
    if eq.len() == 0 {
        Seq::empty()
    } else {
        let t = eq.last();
        substituted(eq.drop_last(), x, resolved, left) + if t.1 == Some(x) {
            resolved.map_values(
                |r: TermModel|
                    (if left {
                        r.0 + t.0
                    } else {
                        t.0 + r.0
                    }, r.1),
            )
        } else {
            seq![t]
        }
    }
}

/// The grammar is read as left-linear: one of its alternatives has two
/// symbols or more and starts with a non-terminal.
pub open spec fn left_oriented(g: GrammarModel) -> bool {
    exists|k: int, a: int|
        0 <= k < g.productions.len() && 0 <= a < g.productions[k].1.len() && (
        #[trigger] g.productions[k].1[a]).len() >= 2 && g.productions[k].1[a][0] is NonTerminal
}

/// The equations, one per distinct non-terminal, in order of first
/// appearance in `nts`.
pub open spec fn initial_entries(g: GrammarModel, nts: Seq<Seq<char>>) -> Seq<
    (Seq<char>, EquationModel),
>
    decreases nts.len(),
{
    if nts.len() == 0 {
        Seq::empty()
    } else {
        let prev = initial_entries(g, nts.drop_last());
        if key_index(prev, nts.last()) >= 0 {
            prev
        } else {
            prev.push((nts.last(), equation_of(g, nts.last())))
        }
    }
}

/// The equations of `entries`, written, in the order of `nts`.
pub open spec fn displayed(nts: Seq<Seq<char>>, entries: Seq<(Seq<char>, EquationModel)>) -> Seq<
    (Seq<char>, Seq<char>),
>
    decreases nts.len(),
{
    if nts.len() == 0 {
        Seq::empty()
    } else {
        displayed(nts.drop_last(), entries) + match lookup(entries, nts.last()) {
            Some(eq) => seq![(nts.last(), equation_text(nts.last(), eq))],
            None => Seq::empty(),
        }
    }
}

/// `nts` without `x`.
pub open spec fn without(nts: Seq<Seq<char>>, x: Seq<char>) -> Seq<Seq<char>>
    decreases nts.len(),
{
    if nts.len() == 0 {
        Seq::empty()
    } else if nts.last() == x {
        without(nts.drop_last(), x)
    } else {
        without(nts.drop_last(), x).push(nts.last())
    }
}

/// The non-terminals other than the start symbol, then the start symbol.
pub open spec fn elimination_order(g: GrammarModel) -> Seq<Seq<char>> {
    without(g.non_terminals, g.start).push(g.start)
}

pub struct EliminationModel {
    pub entries: Seq<(Seq<char>, EquationModel)>,
    pub steps: Seq<EliminationStepModel>,
    pub final_terms: Option<EquationModel>,
}

pub open spec fn missing_equation_message(x: Seq<char>) -> Seq<char> {
    "equação de '"@ + x + "' não encontrada durante a eliminação"@
}

/// Eliminates `x`: resolves its equation, removes it, and substitutes it in
/// the others.
pub open spec fn eliminate_one(g: GrammarModel, st: EliminationModel, x: Seq<char>) -> Result<
    EliminationModel,
    ErrorModel,
> {
    let i = key_index(st.entries, x);
    if i < 0 {
        Err(ErrorModel::RegexConversionFailed(missing_equation_message(x)))
    } else {
        let left = left_oriented(g);
        let resolved = resolve(x, st.entries[i].1, left);
        let rest = st.entries.remove(i).map_values(
            |e: (Seq<char>, EquationModel)| (e.0, substituted(e.1, x, resolved, left)),
        );
        Ok(
            EliminationModel {
                entries: rest,
                steps: st.steps.push(
                    EliminationStepModel {
                        eliminated: x,
                        resolved_equation: equation_text(x, resolved),
                        remaining_equations: displayed(g.non_terminals, rest),
                    },
                ),
                final_terms: if rest.len() == 0 {
                    Some(resolved)
                } else {
                    st.final_terms
                },
            },
        )
    }
}

/// Eliminates the non-terminals of `order`, left to right.
pub open spec fn eliminate_all(g: GrammarModel, order: Seq<Seq<char>>) -> Result<
    EliminationModel,
    ErrorModel,
>
    decreases order.len(),
{
    if order.len() == 0 {
        Ok(
            EliminationModel {
                entries: initial_entries(g, g.non_terminals),
                steps: Seq::empty(),
                final_terms: None,
            },
        )
    } else {
        match eliminate_all(g, order.drop_last()) {
            Err(e) => Err(e),
            Ok(st) => eliminate_one(g, st, order.last()),
        }
    }
}

pub open spec fn no_start_equation_message() -> Seq<char> {
    "equação do símbolo inicial não encontrada"@
}

pub open spec fn no_sentence_message() -> Seq<char> {
    "gramática não produz nenhuma sentença"@
}

pub open spec fn not_eliminated_message() -> Seq<char> {
    "gramática tem não-terminais que não puderam ser eliminados"@
}

/// The conversion of `g`: its equations, the elimination of every
/// non-terminal (the start symbol last), and the union of the terms left
/// for the start symbol, which must hold no non-terminal.
pub open spec fn regex_trace_of(g: GrammarModel) -> Result<RegexTraceModel, ErrorModel> {
    match eliminate_all(g, elimination_order(g)) {
        Err(e) => Err(e),
        Ok(st) => match st.final_terms {
            None => Err(ErrorModel::RegexConversionFailed(no_start_equation_message())),
            Some(terms) => if terms.len() == 0 {
                Err(ErrorModel::RegexConversionFailed(no_sentence_message()))
            } else if exists|i: int| 0 <= i < terms.len() && (#[trigger] terms[i]).1 is Some {
                Err(ErrorModel::RegexConversionFailed(not_eliminated_message()))
            } else {
                Ok(
                    RegexTraceModel {
                        initial_equations: displayed(
                            g.non_terminals,
                            initial_entries(g, g.non_terminals),
                        ),
                        eliminations: st.steps,
                        final_expression: union_text(terms.map_values(|t: TermModel| t.0)),
                    },
                )
            },
        },
    }
}

} // verus!

verus! {

fn copy_term(t: &Term) -> (r: Term)
    ensures
        r.deep_view() == t.deep_view(),
{
    let target = match &t.target {
        Some(n) => Some(n.clone()),
        None => None,
    };
    Term { coeff: t.coeff.clone(), target }
}

fn copy_equation(eq: &Vec<Term>) -> (r: Vec<Term>)
    ensures
        r.deep_view() == eq.deep_view(),
{
    let ghost e = eq.deep_view();
    let mut out: Vec<Term> = Vec::new();
    let n = eq.len();
    let mut i: usize = 0;
    while i < n
        invariant
            i <= n,
            n == e.len(),
            e == eq.deep_view(),
            out.deep_view() == e.take(i as int),
        decreases n - i,
    {
        let ghost before = out.deep_view();
        out.push(copy_term(&eq[i]));
        assert(out.deep_view() =~= before.push(e[i as int]));
        assert(e.take(i + 1) =~= e.take(i as int).push(e[i as int]));
        i = i + 1;
    }
    assert(e.take(n as int) =~= e);
    out
}

/// The term of an alternative.
pub fn alternative_to_term(alt: &Vec<Symbol>) -> (r: Term)
    ensures
        r.deep_view() == alternative_term(alt.deep_view()),
{
    let ghost a = alt.deep_view();
    let mut coeff = String::new();
    let mut target: Option<String> = None;
    let n = alt.len();
    let mut i: usize = 0;
    assert(a.take(0) =~= Seq::<SymbolModel>::empty());
    while i < n
        invariant
            i <= n,
            n == a.len(),
            a == alt.deep_view(),
            (coeff@, target.deep_view()) == alternative_term(a.take(i as int)),
        decreases n - i,
    {
        assert(a.take(i + 1).drop_last() =~= a.take(i as int));
        assert(a.take(i + 1).last() == alt@[i as int].deep_view());
        match &alt[i] {
            Symbol::Terminal(c) => {
                coeff.push(*c);
            },
            Symbol::NonTerminal(name) => {
                target = Some(name.clone());
            },
        }
        i = i + 1;
    }
    assert(a.take(n as int) =~= a);
    Term { coeff, target }
}

/// The equation of `nt` in `grammar`.
pub fn build_equation(grammar: &Grammar, nt: &String) -> (r: Vec<Term>)
    ensures
        r.deep_view() == equation_of(grammar.deep_view(), nt@),
{
    let mut out: Vec<Term> = Vec::new();
    match grammar.alternatives_of_name(nt) {
        None => {
            assert(out.deep_view() =~= Seq::<TermModel>::empty());
        },
        Some(alts) => {
            let ghost am = alts.deep_view();
            let ghost target = am.map_values(|a: Seq<SymbolModel>| alternative_term(a));
            let n = alts.len();
            let mut i: usize = 0;
            while i < n
                invariant
                    i <= n,
                    n == am.len(),
                    am == alts.deep_view(),
                    target == am.map_values(|a: Seq<SymbolModel>| alternative_term(a)),
                    out.deep_view() == target.take(i as int),
                decreases n - i,
            {
                let ghost before = out.deep_view();
                assert(am[i as int] == alts@[i as int].deep_view());
                out.push(alternative_to_term(&alts[i]));
                assert(out.deep_view() =~= before.push(target[i as int]));
                assert(target.take(i + 1) =~= target.take(i as int).push(target[i as int]));
                i = i + 1;
            }
            assert(target.take(n as int) =~= target);
        },
    }
    out
}

/// The term as written: `coeff` then the target.
pub fn format_term(t: &Term) -> (r: String)
    ensures
        r@ == term_text(t.deep_view()),
{
    let mut s = t.coeff.clone();
    match &t.target {
        Some(n) => {
            s.append(n.as_str());
        },
        None => {},
    }
    s
}

/// `nt=t1+t2+...`.
pub fn format_equation(nt: &String, eq: &Vec<Term>) -> (r: String)
    ensures
        r@ == equation_text(nt@, eq.deep_view()),
{
    let ghost e = eq.deep_view();
    let ghost target = e.map_values(|t: TermModel| term_text(t));
    let mut texts: Vec<String> = Vec::new();
    let n = eq.len();
    let mut i: usize = 0;
    while i < n
        invariant
            i <= n,
            n == e.len(),
            e == eq.deep_view(),
            target == e.map_values(|t: TermModel| term_text(t)),
            texts.deep_view() == target.take(i as int),
        decreases n - i,
    {
        let ghost before = texts.deep_view();
        assert(e[i as int] == eq@[i as int].deep_view());
        texts.push(format_term(&eq[i]));
        assert(texts.deep_view() =~= before.push(target[i as int]));
        assert(target.take(i + 1) =~= target.take(i as int).push(target[i as int]));
        i = i + 1;
    }
    assert(target.take(n as int) =~= target);
    let mut s = nt.clone();
    s.push('=');
    let joined = join_strings(&texts, "+");
    proof {
        reveal_strlit("+");
        assert("+"@ =~= seq!['+']);
    }
    s.append(joined.as_str());
    assert(s@ =~= nt@ + seq!['='] + join(target, seq!['+']));
    s
}

/// The union of `parts`.
pub fn regex_union(parts: &Vec<String>) -> (r: String)
    ensures
        r@ == union_text(parts.deep_view()),
{
    let n = parts.len();
    if n == 0 {
        String::new()
    } else if n == 1 {
        assert(parts.deep_view()[0] == parts@[0]@);
        parts[0].clone()
    } else {
        let mut s = String::new();
        s.push('(');
        let joined = join_strings(parts, "|");
        proof {
            reveal_strlit("|");
            assert("|"@ =~= seq!['|']);
        }
        s.append(joined.as_str());
        s.push(')');
        assert(s@ =~= seq!['('] + join(parts.deep_view(), seq!['|']) + seq![')']);
        s
    }
}

/// `alpha*`, with parentheses where they are needed.
pub fn kleene_star(alpha: &String) -> (r: String)
    ensures
        r@ == star_text(alpha@),
{
    let chars = crate::text::chars_of(alpha.as_str());
    let n = chars.len();
    if n == 0 {
        String::new()
    } else if n == 1 || (chars[0] == '(' && chars[n - 1] == ')') {
        let mut s = alpha.clone();
        s.push('*');
        s
    } else {
        let mut s = String::new();
        s.push('(');
        s.append(alpha.as_str());
        s.push(')');
        s.push('*');
        assert(s@ =~= seq!['('] + alpha@ + seq![')', '*']);
        s
    }
}

} // verus!

verus! {

/// Whether the target of `t` is `nt`.
fn targets(t: &Term, nt: &String) -> (r: bool)
    ensures
        r == (t.deep_view().1 == Some(nt@)),
{
    match &t.target {
        Some(n) => *n == *nt,
        None => false,
    }
}

/// The coefficients of `eq`.
fn coefficients(eq: &Vec<Term>) -> (r: Vec<String>)
    ensures
        r.deep_view() == eq.deep_view().map_values(|t: TermModel| t.0),
{
    let ghost e = eq.deep_view();
    let ghost target = e.map_values(|t: TermModel| t.0);
    let mut out: Vec<String> = Vec::new();
    let n = eq.len();
    let mut i: usize = 0;
    while i < n
        invariant
            i <= n,
            n == e.len(),
            e == eq.deep_view(),
            target == e.map_values(|t: TermModel| t.0),
            out.deep_view() == target.take(i as int),
        decreases n - i,
    {
        let ghost before = out.deep_view();
        assert(e[i as int] == eq@[i as int].deep_view());
        out.push(eq[i].coeff.clone());
        assert(out.deep_view() =~= before.push(target[i as int]));
        assert(target.take(i + 1) =~= target.take(i as int).push(target[i as int]));
        i = i + 1;
    }
    assert(target.take(n as int) =~= target);
    out
}

/// Applies Arden's rule to the equation `eq` of `nt`, on the side of a
/// left-linear grammar when `left` holds.
pub fn resolve_self_reference(nt: &String, eq: &Vec<Term>, left: bool) -> (r: Vec<Term>)
    ensures
        r.deep_view() == resolve(nt@, eq.deep_view(), left),
{
    let ghost e = eq.deep_view();
    let mut selfs: Vec<Term> = Vec::new();
    let mut others: Vec<Term> = Vec::new();
    let n = eq.len();
    let mut i: usize = 0;
    assert(e.take(0) =~= Seq::<TermModel>::empty());
    assert(selfs.deep_view() =~= Seq::<TermModel>::empty());
    assert(others.deep_view() =~= Seq::<TermModel>::empty());
    while i < n
        invariant
            i <= n,
            n == e.len(),
            e == eq.deep_view(),
            selfs.deep_view() == self_terms(e.take(i as int), nt@),
            others.deep_view() == other_terms(e.take(i as int), nt@),
        decreases n - i,
    {
        assert(e.take(i + 1).drop_last() =~= e.take(i as int));
        assert(e.take(i + 1).last() == eq@[i as int].deep_view());
        let t = copy_term(&eq[i]);
        if targets(&eq[i], nt) {
            let ghost before = selfs.deep_view();
            selfs.push(t);
            assert(selfs.deep_view() =~= before.push(e[i as int]));
        } else {
            let ghost before = others.deep_view();
            others.push(t);
            assert(others.deep_view() =~= before.push(e[i as int]));
        }
        i = i + 1;
    }
    assert(e.take(n as int) =~= e);
    if selfs.len() == 0 {
        return others;
    }
    let coeffs = coefficients(&selfs);
    let alpha = regex_union(&coeffs);
    let star = kleene_star(&alpha);
    let ghost o = others.deep_view();
    let ghost target = o.map_values(
        |t: TermModel|
            (if left {
                t.0 + star@
            } else {
                star@ + t.0
            }, t.1),
    );
    let mut out: Vec<Term> = Vec::new();
    let m = others.len();
    let mut j: usize = 0;
    while j < m
        invariant
            j <= m,
            m == o.len(),
            o == others.deep_view(),
            target == o.map_values(
                |t: TermModel|
                    (if left {
                        t.0 + star@
                    } else {
                        star@ + t.0
                    }, t.1),
            ),
            out.deep_view() == target.take(j as int),
        decreases m - j,
    {
        let ghost before = out.deep_view();
        assert(o[j as int] == others@[j as int].deep_view());
        let coeff = if left {
            let mut c = others[j].coeff.clone();
            c.append(star.as_str());
            c
        } else {
            let mut c = star.clone();
            c.append(others[j].coeff.as_str());
            c
        };
        let target_name = match &others[j].target {
            Some(n) => Some(n.clone()),
            None => None,
        };
        out.push(Term { coeff, target: target_name });
        assert(out.deep_view() =~= before.push(target[j as int]));
        assert(target.take(j + 1) =~= target.take(j as int).push(target[j as int]));
        j = j + 1;
    }
    assert(target.take(m as int) =~= target);
    out
}

/// Replaces the terms of `eq` that name `x` by the terms of `resolved`.
pub fn substitute(eq: &Vec<Term>, x: &String, resolved: &Vec<Term>, left: bool) -> (r: Vec<Term>)
    ensures
        r.deep_view() == substituted(eq.deep_view(), x@, resolved.deep_view(), left),
{
    let ghost e = eq.deep_view();
    let ghost rv = resolved.deep_view();
    let mut out: Vec<Term> = Vec::new();
    let n = eq.len();
    let mut i: usize = 0;
    assert(e.take(0) =~= Seq::<TermModel>::empty());
    assert(out.deep_view() =~= Seq::<TermModel>::empty());
    while i < n
        invariant
            i <= n,
            n == e.len(),
            e == eq.deep_view(),
            rv == resolved.deep_view(),
            out.deep_view() == substituted(e.take(i as int), x@, rv, left),
        decreases n - i,
    {
        assert(e.take(i + 1).drop_last() =~= e.take(i as int));
        assert(e.take(i + 1).last() == eq@[i as int].deep_view());
        let ghost t = e[i as int];
        if targets(&eq[i], x) {
            let ghost base = out.deep_view();
            let ghost added = rv.map_values(
                |r: TermModel|
                    (if left {
                        r.0 + t.0
                    } else {
                        t.0 + r.0
                    }, r.1),
            );
            let m = resolved.len();
            let mut j: usize = 0;
            while j < m
                invariant
                    j <= m,
                    m == rv.len(),
                    rv == resolved.deep_view(),
                    i < n,
                    n == eq@.len(),
                    t == eq@[i as int].deep_view(),
                    added == rv.map_values(
                        |r: TermModel|
                            (if left {
                                r.0 + t.0
                            } else {
                                t.0 + r.0
                            }, r.1),
                    ),
                    out.deep_view() == base + added.take(j as int),
                decreases m - j,
            {
                let ghost before = out.deep_view();
                assert(rv[j as int] == resolved@[j as int].deep_view());
                let coeff = if left {
                    let mut c = resolved[j].coeff.clone();
                    c.append(eq[i].coeff.as_str());
                    c
                } else {
                    let mut c = eq[i].coeff.clone();
                    c.append(resolved[j].coeff.as_str());
                    c
                };
                let target_name = match &resolved[j].target {
                    Some(n) => Some(n.clone()),
                    None => None,
                };
                out.push(Term { coeff, target: target_name });
                assert(out.deep_view() =~= before.push(added[j as int]));
                assert(added.take(j + 1) =~= added.take(j as int).push(added[j as int]));
                j = j + 1;
            }
            assert(added.take(m as int) =~= added);
        } else {
            let ghost before = out.deep_view();
            out.push(copy_term(&eq[i]));
            assert(out.deep_view() =~= before + seq![t]);
        }
        i = i + 1;
    }
    assert(e.take(n as int) =~= e);
    out
}

} // verus!

verus! {

/// The index of the equation of `key`.
fn find_entry(entries: &Vec<(String, Vec<Term>)>, key: &String) -> (r: Option<usize>)
    ensures
        match r {
            Some(k) => key_index(entries.deep_view(), key@) == k as int && k < entries@.len(),
            None => key_index(entries.deep_view(), key@) == -1,
        },
{
    let ghost model = entries.deep_view();
    let n = entries.len();
    let mut k: usize = 0;
    while k < n
        invariant
            k <= n,
            n == entries@.len(),
            model == entries.deep_view(),
            forall|j: int| 0 <= j < k ==> model[j].0 != key@,
        decreases n - k,
    {
        assert(model[k as int] == entries@[k as int].deep_view());
        if entries[k].0 == *key {
            proof {
                lemma_key_index(model, key@);
            }
            return Some(k);
        }
        k = k + 1;
    }
    proof {
        lemma_key_index(model, key@);
    }
    None
}

/// The equations of the distinct non-terminals of `grammar`.
fn build_entries(grammar: &Grammar) -> (r: Vec<(String, Vec<Term>)>)
    ensures
        r.deep_view() == initial_entries(grammar.deep_view(), grammar.deep_view().non_terminals),
{
    let ghost g = grammar.deep_view();
    let ghost nts = g.non_terminals;
    let mut entries: Vec<(String, Vec<Term>)> = Vec::new();
    let n = grammar.non_terminals.len();
    let mut i: usize = 0;
    assert(nts.take(0) =~= Seq::<Seq<char>>::empty());
    assert(entries.deep_view() =~= Seq::<(Seq<char>, EquationModel)>::empty());
    while i < n
        invariant
            i <= n,
            n == nts.len(),
            g == grammar.deep_view(),
            nts == g.non_terminals,
            entries.deep_view() == initial_entries(g, nts.take(i as int)),
        decreases n - i,
    {
        assert(nts.take(i + 1).drop_last() =~= nts.take(i as int));
        assert(nts.take(i + 1).last() == grammar.non_terminals@[i as int]@);
        let nt = &grammar.non_terminals[i];
        if find_entry(&entries, nt).is_none() {
            let ghost before = entries.deep_view();
            let eq = build_equation(grammar, nt);
            entries.push((nt.clone(), eq));
            assert(entries.deep_view() =~= before.push((nt@, equation_of(g, nt@))));
        }
        i = i + 1;
    }
    assert(nts.take(n as int) =~= nts);
    entries
}

/// The equations of `entries`, written, in the order of `nts`.
pub fn ordered_display(nts: &Vec<String>, entries: &Vec<(String, Vec<Term>)>) -> (r: Vec<
    (String, String),
>)
    ensures
        r.deep_view() == displayed(nts.deep_view(), entries.deep_view()),
{
    let ghost ns = nts.deep_view();
    let ghost em = entries.deep_view();
    let mut out: Vec<(String, String)> = Vec::new();
    let n = nts.len();
    let mut i: usize = 0;
    assert(ns.take(0) =~= Seq::<Seq<char>>::empty());
    assert(out.deep_view() =~= Seq::<(Seq<char>, Seq<char>)>::empty());
    while i < n
        invariant
            i <= n,
            n == ns.len(),
            ns == nts.deep_view(),
            em == entries.deep_view(),
            out.deep_view() == displayed(ns.take(i as int), em),
        decreases n - i,
    {
        assert(ns.take(i + 1).drop_last() =~= ns.take(i as int));
        assert(ns.take(i + 1).last() == nts@[i as int]@);
        let nt = &nts[i];
        let ghost before = out.deep_view();
        match find_entry(entries, nt) {
            Some(k) => {
                proof {
                    lemma_key_index(em, nt@);
                }
                assert(em[k as int] == entries@[k as int].deep_view());
                let text = format_equation(nt, &entries[k].1);
                out.push((nt.clone(), text));
                assert(out.deep_view() =~= before + seq![(nt@, equation_text(nt@, em[k as int].1))]);
            },
            None => {
                assert(out.deep_view() =~= before + Seq::<(Seq<char>, Seq<char>)>::empty());
            },
        }
        i = i + 1;
    }
    assert(ns.take(n as int) =~= ns);
    out
}

/// The non-terminals other than the start symbol, then the start symbol.
fn build_elimination_order(grammar: &Grammar) -> (r: Vec<String>)
    ensures
        r.deep_view() == elimination_order(grammar.deep_view()),
{
    let ghost g = grammar.deep_view();
    let ghost nts = g.non_terminals;
    let mut out: Vec<String> = Vec::new();
    let n = grammar.non_terminals.len();
    let mut i: usize = 0;
    assert(nts.take(0) =~= Seq::<Seq<char>>::empty());
    assert(out.deep_view() =~= Seq::<Seq<char>>::empty());
    while i < n
        invariant
            i <= n,
            n == nts.len(),
            g == grammar.deep_view(),
            nts == g.non_terminals,
            out.deep_view() == without(nts.take(i as int), g.start),
        decreases n - i,
    {
        assert(nts.take(i + 1).drop_last() =~= nts.take(i as int));
        assert(nts.take(i + 1).last() == grammar.non_terminals@[i as int]@);
        if grammar.non_terminals[i] != grammar.start {
            let ghost before = out.deep_view();
            out.push(grammar.non_terminals[i].clone());
            assert(out.deep_view() =~= before.push(grammar.non_terminals@[i as int]@));
        }
        i = i + 1;
    }
    assert(nts.take(n as int) =~= nts);
    let ghost before = out.deep_view();
    out.push(grammar.start.clone());
    assert(out.deep_view() =~= before.push(g.start));
    out
}

proof fn lemma_eliminate_all_err(g: GrammarModel, order: Seq<Seq<char>>, i: int)
    requires
        0 <= i <= order.len(),
        eliminate_all(g, order.take(i)) is Err,
    ensures
        eliminate_all(g, order) == eliminate_all(g, order.take(i)),
    decreases order.len(),
{
    if i == order.len() {
        assert(order.take(i) =~= order);
    } else {
        assert(order.drop_last().take(i) =~= order.take(i));
        lemma_eliminate_all_err(g, order.drop_last(), i);
    }
}

/// Whether the grammar is read as left-linear: one of its alternatives has
/// two symbols or more and starts with a non-terminal.
pub fn is_left_oriented(grammar: &Grammar) -> (r: bool)
    ensures
        r == left_oriented(grammar.deep_view()),
{
    let ghost g = grammar.deep_view();
    let n = grammar.productions.len();
    let mut k: usize = 0;
    while k < n
        invariant
            k <= n,
            n == g.productions.len(),
            g == grammar.deep_view(),
            forall|k2: int, a: int|
                0 <= k2 < k && 0 <= a < g.productions[k2].1.len() ==> !((
                #[trigger] g.productions[k2].1[a]).len() >= 2
                    && g.productions[k2].1[a][0] is NonTerminal),
        decreases n - k,
    {
        let alts = &grammar.productions[k].alternatives;
        assert(alts.deep_view() == g.productions[k as int].1);
        let m = alts.len();
        let mut a: usize = 0;
        while a < m
            invariant
                a <= m,
                k < n,
                n == g.productions.len(),
                g == grammar.deep_view(),
                alts.deep_view() == g.productions[k as int].1,
                m == alts@.len(),
                forall|k2: int, a2: int|
                    0 <= k2 < k && 0 <= a2 < g.productions[k2].1.len() ==> !((
                    #[trigger] g.productions[k2].1[a2]).len() >= 2
                        && g.productions[k2].1[a2][0] is NonTerminal),
                forall|a2: int|
                    0 <= a2 < a ==> !((#[trigger] g.productions[k as int].1[a2]).len() >= 2
                        && g.productions[k as int].1[a2][0] is NonTerminal),
            decreases m - a,
        {
            let alt = &alts[a];
            assert(alt.deep_view() == g.productions[k as int].1[a as int]);
            if alt.len() >= 2 {
                assert(alt.deep_view()[0] == alt@[0].deep_view());
                match &alt[0] {
                    Symbol::NonTerminal(_) => {
                        return true;
                    },
                    Symbol::Terminal(_) => {},
                }
            }
            a = a + 1;
        }
        k = k + 1;
    }
    false
}

/// Converts the grammar to a regular expression, keeping every
/// intermediate equation: the initial equations, one per non-terminal, and
/// the elimination of each non-terminal, the start symbol last.
pub fn to_regex_trace(grammar: &Grammar) -> (r: Result<RegexTrace, GrammarError>)
    ensures
        match r {
            Ok(t) => regex_trace_of(grammar.deep_view()) == Ok::<RegexTraceModel, ErrorModel>(
                t.deep_view(),
            ),
            Err(e) => regex_trace_of(grammar.deep_view()) == Err::<RegexTraceModel, ErrorModel>(
                e.deep_view(),
            ),
        },
{
    let ghost g = grammar.deep_view();
    let left = is_left_oriented(grammar);
    let mut entries = build_entries(grammar);
    let initial_equations = ordered_display(&grammar.non_terminals, &entries);
    let order = build_elimination_order(grammar);
    let ghost om = order.deep_view();
    let mut eliminations: Vec<EliminationStep> = Vec::new();
    let mut final_terms: Option<Vec<Term>> = None;
    let n = order.len();
    let mut k: usize = 0;
    assert(om.take(0) =~= Seq::<Seq<char>>::empty());
    assert(eliminations.deep_view() =~= Seq::<EliminationStepModel>::empty());
    while k < n
        invariant
            k <= n,
            n == om.len(),
            om == order.deep_view(),
            om == elimination_order(g),
            g == grammar.deep_view(),
            left == left_oriented(g),
            initial_equations.deep_view() == displayed(
                g.non_terminals,
                initial_entries(g, g.non_terminals),
            ),
            eliminate_all(g, om.take(k as int)) == Ok::<EliminationModel, ErrorModel>(
                EliminationModel {
                    entries: entries.deep_view(),
                    steps: eliminations.deep_view(),
                    final_terms: final_terms.deep_view(),
                },
            ),
        decreases n - k,
    {
        assert(om.take(k + 1).drop_last() =~= om.take(k as int));
        assert(om.take(k + 1).last() == order@[k as int]@);
        let x = &order[k];
        let ghost em = entries.deep_view();
        let i = match find_entry(&entries, x) {
            Some(i) => i,
            None => {
                let mut msg = string_from("equação de '");
                msg.append(x.as_str());
                msg.append("' não encontrada durante a eliminação");
                proof {
                    lemma_eliminate_all_err(g, om, k + 1);
                }
                return Err(GrammarError::RegexConversionFailed(msg));
            },
        };
        assert(em[i as int] == entries@[i as int].deep_view());
        let removed = entries.remove(i);
        assert(entries.deep_view() =~= em.remove(i as int));
        let resolved = resolve_self_reference(x, &removed.1, left);
        let resolved_text = format_equation(x, &resolved);
        let ghost rm = resolved.deep_view();
        let ghost rest_model = em.remove(i as int).map_values(
            |e: (Seq<char>, EquationModel)| (e.0, substituted(e.1, x@, rm, left)),
        );
        let mut rest: Vec<(String, Vec<Term>)> = Vec::new();
        let m = entries.len();
        let mut j: usize = 0;
        while j < m
            invariant
                j <= m,
                m == entries@.len(),
                entries.deep_view() == em.remove(i as int),
                rm == resolved.deep_view(),
                rest_model == em.remove(i as int).map_values(
                    |e: (Seq<char>, EquationModel)| (e.0, substituted(e.1, x@, rm, left)),
                ),
                rest.deep_view() == rest_model.take(j as int),
            decreases m - j,
        {
            let ghost before = rest.deep_view();
            assert(entries.deep_view()[j as int] == entries@[j as int].deep_view());
            let eq = substitute(&entries[j].1, x, &resolved, left);
            rest.push((entries[j].0.clone(), eq));
            assert(rest.deep_view() =~= before.push(rest_model[j as int]));
            assert(rest_model.take(j + 1) =~= rest_model.take(j as int).push(rest_model[j as int]));
            j = j + 1;
        }
        assert(rest_model.take(m as int) =~= rest_model);
        if rest.len() == 0 {
            final_terms = Some(copy_equation(&resolved));
        }
        let remaining = ordered_display(&grammar.non_terminals, &rest);
        let ghost before = eliminations.deep_view();
        eliminations.push(
            EliminationStep {
                eliminated: x.clone(),
                resolved_equation: resolved_text,
                remaining_equations: remaining,
            },
        );
        assert(eliminations.deep_view() =~= before.push(
            EliminationStepModel {
                eliminated: x@,
                resolved_equation: equation_text(x@, rm),
                remaining_equations: displayed(g.non_terminals, rest_model),
            },
        ));
        entries = rest;
        k = k + 1;
    }
    assert(om.take(n as int) =~= om);
    let terms = match final_terms {
        None => {
            return Err(
                GrammarError::RegexConversionFailed(
                    string_from("equação do símbolo inicial não encontrada"),
                ),
            );
        },
        Some(t) => t,
    };
    let ghost tm = terms.deep_view();
    if terms.len() == 0 {
        return Err(
            GrammarError::RegexConversionFailed(string_from("gramática não produz nenhuma sentença")),
        );
    }
    let nt = terms.len();
    let mut q: usize = 0;
    while q < nt
        invariant
            q <= nt,
            nt == tm.len(),
            tm == terms.deep_view(),
            tm.len() > 0,
            g == grammar.deep_view(),
            eliminate_all(g, elimination_order(g)) is Ok,
            eliminate_all(g, elimination_order(g))->Ok_0.final_terms == Some(tm),
            forall|p: int| 0 <= p < q ==> (#[trigger] tm[p]).1 is None,
        decreases nt - q,
    {
        assert(tm[q as int] == terms@[q as int].deep_view());
        if terms[q].target.is_some() {
            assert(tm[q as int].1 is Some);
            return Err(
                GrammarError::RegexConversionFailed(
                    string_from("gramática tem não-terminais que não puderam ser eliminados"),
                ),
            );
        }
        q = q + 1;
    }
    let pieces = coefficients(&terms);
    let final_expression = regex_union(&pieces);
    Ok(RegexTrace { initial_equations, eliminations, final_expression })
}

fn copy_pairs(pairs: &Vec<(String, String)>) -> (r: Vec<(String, String)>)
    ensures
        r.deep_view() == pairs.deep_view(),
{
    let ghost m = pairs.deep_view();
    let n = pairs.len();
    let mut out: Vec<(String, String)> = Vec::new();
    let mut i: usize = 0;
    assert(out.deep_view() =~= m.take(0));
    while i < n
        invariant
            i <= n,
            n == pairs@.len(),
            m == pairs.deep_view(),
            out.deep_view() == m.take(i as int),
        decreases n - i,
    {
        let pair = (pairs[i].0.clone(), pairs[i].1.clone());
        let ghost before = out.deep_view();
        out.push(pair);
        assert(out.deep_view() =~= before.push(m[i as int]));
        assert(m.take(i + 1) =~= m.take(i as int).push(m[i as int]));
        i = i + 1;
    }
    assert(m.take(n as int) =~= m);
    out
}

impl RegexTrace {
    /// An exact copy of the trace.
    pub fn duplicate(&self) -> (r: RegexTrace)
        ensures
            r.deep_view() == self.deep_view(),
    {
        let ghost m = self.eliminations.deep_view();
        let n = self.eliminations.len();
        let mut eliminations: Vec<EliminationStep> = Vec::new();
        let mut i: usize = 0;
        assert(eliminations.deep_view() =~= m.take(0));
        while i < n
            invariant
                i <= n,
                n == self.eliminations@.len(),
                m == self.eliminations.deep_view(),
                eliminations.deep_view() == m.take(i as int),
            decreases n - i,
        {
            let e = &self.eliminations[i];
            let copy = EliminationStep {
                eliminated: e.eliminated.clone(),
                resolved_equation: e.resolved_equation.clone(),
                remaining_equations: copy_pairs(&e.remaining_equations),
            };
            let ghost before = eliminations.deep_view();
            eliminations.push(copy);
            assert(eliminations.deep_view() =~= before.push(m[i as int]));
            assert(m.take(i + 1) =~= m.take(i as int).push(m[i as int]));
            i = i + 1;
        }
        assert(m.take(n as int) =~= m);
        RegexTrace {
            initial_equations: copy_pairs(&self.initial_equations),
            eliminations,
            final_expression: self.final_expression.clone(),
        }
    }
}

/// Converts the grammar to an equivalent regular expression; see
/// `to_regex_trace`.
pub fn to_regex(grammar: &Grammar) -> (r: Result<String, GrammarError>)
    ensures
        match r {
            Ok(s) => regex_trace_of(grammar.deep_view()) matches Ok(t) && s@ == t.final_expression,
            Err(e) => regex_trace_of(grammar.deep_view()) == Err::<RegexTraceModel, ErrorModel>(
                e.deep_view(),
            ),
        },
{
    match to_regex_trace(grammar) {
        Ok(t) => Ok(t.final_expression),
        Err(e) => Err(e),
    }
}

} // verus!
