//! When the elimination of non-terminals succeeds: every equation keeps a
//! term without a non-terminal, and every term's non-terminal still has an
//! equation.

use vstd::prelude::*;

use crate::grammar::{
    GrammarModel, RuleModel, add_rule, alternatives_symbols, first_undefined, grammar_of_text,
    is_skipped, key_index, keys, lemma_key_index, lookup, parse_line, parse_lines, rules_symbols,
};
use crate::symbol::SymbolModel;
use crate::text::{split_on, trim};
use crate::regex_conversion::{
    EliminationModel, EquationModel, TermModel, eliminate_all, eliminate_one, elimination_order,
    alternative_term, equation_of, initial_entries, other_terms, regex_trace_of, resolve,
    self_terms, substituted, without, left_oriented, displayed,
};

verus! {

/// Every non-terminal that a term of `eq` names is one of `names`.
pub open spec fn targets_in(eq: EquationModel, names: Seq<Seq<char>>) -> bool {
    forall|j: int|
        0 <= j < eq.len() && (#[trigger] eq[j]).1 is Some ==> names.contains(eq[j].1->Some_0)
}

/// No term of `eq` names `x`.
pub open spec fn avoids(eq: EquationModel, x: Seq<char>) -> bool {
    forall|j: int| 0 <= j < eq.len() ==> (#[trigger] eq[j]).1 != Some(x)
}

/// `eq` has a term that names no non-terminal.
pub open spec fn has_free_term(eq: EquationModel) -> bool {
    exists|j: int| 0 <= j < eq.len() && (#[trigger] eq[j]).1 is None
}

pub proof fn lemma_other_terms(eq: EquationModel, x: Seq<char>, names: Seq<Seq<char>>)
    ensures
        targets_in(eq, names) ==> targets_in(other_terms(eq, x), names),
        avoids(other_terms(eq, x), x),
        has_free_term(eq) ==> has_free_term(other_terms(eq, x)),
    decreases eq.len(),
{
    if eq.len() > 0 {
        let prev = eq.drop_last();
        lemma_other_terms(prev, x, names);
        let po = other_terms(prev, x);
        let o = other_terms(eq, x);
        if targets_in(eq, names) {
            assert forall|j: int| 0 <= j < prev.len() && (#[trigger] prev[j]).1 is Some implies names.contains(
                prev[j].1->Some_0,
            ) by {
                assert(prev[j] == eq[j]);
            }
        }
        if has_free_term(eq) {
            let j = choose|j: int| 0 <= j < eq.len() && (#[trigger] eq[j]).1 is None;
            if j < prev.len() {
                assert(prev[j] == eq[j]);
                assert(has_free_term(prev));
                let k = choose|k: int| 0 <= k < po.len() && (#[trigger] po[k]).1 is None;
                if eq.last().1 != Some(x) {
                    assert(o[k] == po[k]);
                }
            } else {
                assert(o.last() == eq.last());
                assert(o[o.len() - 1].1 is None);
            }
        }
        if eq.last().1 != Some(x) {
            assert forall|j: int| 0 <= j < o.len() implies (#[trigger] o[j]).1 != Some(x) by {
                if j < po.len() {
                    assert(o[j] == po[j]);
                }
            }
            if targets_in(eq, names) {
                assert forall|j: int| 0 <= j < o.len() && (#[trigger] o[j]).1 is Some implies names.contains(
                    o[j].1->Some_0,
                ) by {
                    if j < po.len() {
                        assert(o[j] == po[j]);
                    } else {
                        assert(o[j] == eq[eq.len() - 1]);
                    }
                }
            }
        }
    }
}

/// Arden's rule keeps the non-terminals other than `x`, drops `x`, and
/// keeps a term without a non-terminal.
pub proof fn lemma_resolve(x: Seq<char>, eq: EquationModel, names: Seq<Seq<char>>, left: bool)
    ensures
        targets_in(eq, names) ==> targets_in(resolve(x, eq, left), names),
        avoids(resolve(x, eq, left), x),
        has_free_term(eq) ==> has_free_term(resolve(x, eq, left)),
{
    lemma_other_terms(eq, x, names);
    let others = other_terms(eq, x);
    let r = resolve(x, eq, left);
    if self_terms(eq, x).len() > 0 {
        assert forall|j: int| 0 <= j < r.len() implies (#[trigger] r[j]).1 == others[j].1 by {}
        if has_free_term(eq) {
            let k = choose|k: int| 0 <= k < others.len() && (#[trigger] others[k]).1 is None;
            assert(r[k].1 is None);
        }
    }
}

/// Substituting the resolved equation of `x` keeps the terms' other
/// non-terminals, removes `x`, and keeps the terms without one.
pub proof fn lemma_substituted(
    eq: EquationModel,
    x: Seq<char>,
    resolved: EquationModel,
    names: Seq<Seq<char>>,
    left: bool,
)
    requires
        targets_in(resolved, names),
        avoids(resolved, x),
    ensures
        targets_in(eq, names) ==> targets_in(substituted(eq, x, resolved, left), names),
        avoids(substituted(eq, x, resolved, left), x),
        has_free_term(eq) ==> has_free_term(substituted(eq, x, resolved, left)),
    decreases eq.len(),
{
    if eq.len() > 0 {
        let prev = eq.drop_last();
        let t = eq.last();
        lemma_substituted(prev, x, resolved, names, left);
        let ps = substituted(prev, x, resolved, left);
        let tail = if t.1 == Some(x) {
            resolved.map_values(
                |r: TermModel|
                    (if left {
                        r.0 + t.0
                    } else {
                        t.0 + r.0
                    }, r.1),
            )
        } else {
            seq![t]
        };
        let s = substituted(eq, x, resolved, left);
        assert(s == ps + tail);
        if targets_in(eq, names) {
            assert forall|j: int| 0 <= j < prev.len() && (#[trigger] prev[j]).1 is Some implies names.contains(
                prev[j].1->Some_0,
            ) by {
                assert(prev[j] == eq[j]);
            }
            assert forall|j: int| 0 <= j < s.len() && (#[trigger] s[j]).1 is Some implies names.contains(
                s[j].1->Some_0,
            ) by {
                if j < ps.len() {
                    assert(s[j] == ps[j]);
                } else if t.1 == Some(x) {
                    assert(s[j].1 == resolved[j - ps.len()].1);
                } else {
                    assert(s[j] == t);
                    assert(t == eq[eq.len() - 1]);
                }
            }
        }
        assert forall|j: int| 0 <= j < s.len() implies (#[trigger] s[j]).1 != Some(x) by {
            if j < ps.len() {
                assert(s[j] == ps[j]);
            } else if t.1 == Some(x) {
                assert(s[j].1 == resolved[j - ps.len()].1);
            } else {
                assert(s[j] == t);
            }
        }
        if has_free_term(eq) {
            let j = choose|j: int| 0 <= j < eq.len() && (#[trigger] eq[j]).1 is None;
            if j < prev.len() {
                assert(prev[j] == eq[j]);
                assert(has_free_term(prev));
                let k = choose|k: int| 0 <= k < ps.len() && (#[trigger] ps[k]).1 is None;
                assert(s[k] == ps[k]);
            } else {
                assert(s[s.len() - 1] == t);
            }
        }
    }
}

/// The equations of `entries` can all be eliminated: their non-terminals
/// are distinct, each term names one of them or none, and each equation has
/// a term that names none.
pub open spec fn solvable(entries: Seq<(Seq<char>, EquationModel)>) -> bool {
    &&& forall|a: int, b: int|
        0 <= a < b < entries.len() ==> (#[trigger] entries[a]).0 != (#[trigger] entries[b]).0
    &&& forall|k: int|
        0 <= k < entries.len() ==> targets_in((#[trigger] entries[k]).1, keys(entries))
            && has_free_term(entries[k].1)
}

proof fn lemma_targets_shrink(
    eq: EquationModel,
    before: Seq<Seq<char>>,
    after: Seq<Seq<char>>,
    x: Seq<char>,
)
    requires
        targets_in(eq, before),
        avoids(eq, x),
        forall|y: Seq<char>| before.contains(y) && y != x ==> #[trigger] after.contains(y),
    ensures
        targets_in(eq, after),
{
    assert forall|j: int| 0 <= j < eq.len() && (#[trigger] eq[j]).1 is Some implies after.contains(
        eq[j].1->Some_0,
    ) by {
        assert(before.contains(eq[j].1->Some_0));
    }
}

/// The non-terminals of `entries` are those with an equation.
proof fn lemma_keys_contain(entries: Seq<(Seq<char>, EquationModel)>, y: Seq<char>)
    ensures
        keys(entries).contains(y) <==> key_index(entries, y) >= 0,
{
    lemma_key_index(entries, y);
    let ks = keys(entries);
    if key_index(entries, y) >= 0 {
        assert(ks[key_index(entries, y)] == y);
    }
    if ks.contains(y) {
        let k = choose|k: int| 0 <= k < ks.len() && ks[k] == y;
        assert(entries[k].0 == y);
    }
}

/// Eliminating a non-terminal that has an equation from solvable
/// equations succeeds and leaves solvable equations for the others; when
/// it was the last one, the terms left name no non-terminal, and there is
/// one at least.
pub proof fn lemma_eliminate_solvable(g: GrammarModel, st: EliminationModel, x: Seq<char>)
    requires
        solvable(st.entries),
        keys(st.entries).contains(x),
    ensures
        eliminate_one(g, st, x) matches Ok(next) && {
            &&& solvable(next.entries)
            &&& next.entries.len() == st.entries.len() - 1
            &&& forall|y: Seq<char>|
                #[trigger] keys(next.entries).contains(y) <==> (keys(st.entries).contains(y) && y
                    != x)
            &&& next.entries.len() == 0 ==> (next.final_terms matches Some(terms) && terms.len() > 0
                && forall|j: int| 0 <= j < terms.len() ==> (#[trigger] terms[j]).1 is None)
        },
{
    let e = st.entries;
    lemma_keys_contain(e, x);
    lemma_key_index(e, x);
    let i = key_index(e, x);
    let ke = keys(e);
    let left = left_oriented(g);
    let resolved = resolve(x, e[i].1, left);
    lemma_resolve(x, e[i].1, ke, left);
    let removed = e.remove(i);
    let rest = removed.map_values(
        |en: (Seq<char>, EquationModel)| (en.0, substituted(en.1, x, resolved, left)),
    );
    let kr = keys(rest);
    assert forall|y: Seq<char>| #[trigger] kr.contains(y) <==> (ke.contains(y) && y != x) by {
        if kr.contains(y) {
            let k = choose|k: int| 0 <= k < kr.len() && kr[k] == y;
            let k2 = if k < i { k } else { k + 1 };
            assert(rest[k].0 == removed[k].0);
            assert(removed[k] == e[k2]);
            assert(ke[k2] == y);
            assert(e[k2].0 != e[i].0);
        }
        if ke.contains(y) && y != x {
            let k = choose|k: int| 0 <= k < ke.len() && ke[k] == y;
            assert(e[k].0 == y);
            assert(k != i);
            let k2 = if k < i { k } else { k - 1 };
            assert(removed[k2] == e[k]);
            assert(rest[k2].0 == y);
            assert(kr[k2] == y);
        }
    }
    assert forall|a: int, b: int| 0 <= a < b < rest.len() implies (#[trigger] rest[a]).0 != (
    #[trigger] rest[b]).0 by {
        let a2 = if a < i { a } else { a + 1 };
        let b2 = if b < i { b } else { b + 1 };
        assert(removed[a] == e[a2]);
        assert(removed[b] == e[b2]);
        assert(e[a2].0 != e[b2].0);
    }
    assert forall|k: int| 0 <= k < rest.len() implies targets_in((#[trigger] rest[k]).1, kr)
        && has_free_term(rest[k].1) by {
        let k2 = if k < i { k } else { k + 1 };
        assert(removed[k] == e[k2]);
        assert(targets_in(e[k2].1, ke) && has_free_term(e[k2].1));
        lemma_substituted(e[k2].1, x, resolved, ke, left);
        lemma_targets_shrink(rest[k].1, ke, kr, x);
    }
    if rest.len() == 0 {
        assert(e.len() == 1);
        assert forall|j: int| 0 <= j < resolved.len() implies (#[trigger] resolved[j]).1 is None by {
            if resolved[j].1 is Some {
                let y = resolved[j].1->Some_0;
                assert(ke.contains(y));
                let k = choose|k: int| 0 <= k < ke.len() && ke[k] == y;
                assert(k == 0 && i == 0);
                assert(y == x);
            }
        }
        let j = choose|j: int| 0 <= j < resolved.len() && (#[trigger] resolved[j]).1 is None;
    }
}

/// Eliminating distinct non-terminals that all have equations, one after
/// the other, succeeds and leaves the equations of the others; when none is
/// left, the terms of the last one name no non-terminal, and there is one at
/// least.
pub proof fn lemma_eliminate_all_solvable(g: GrammarModel, order: Seq<Seq<char>>)
    requires
        solvable(initial_entries(g, g.non_terminals)),
        forall|a: int, b: int| 0 <= a < b < order.len() ==> order[a] != order[b],
        forall|k: int|
            0 <= k < order.len() ==> keys(initial_entries(g, g.non_terminals)).contains(
                #[trigger] order[k],
            ),
    ensures
        eliminate_all(g, order) matches Ok(st) && {
            &&& solvable(st.entries)
            &&& st.entries.len() == initial_entries(g, g.non_terminals).len() - order.len()
            &&& forall|y: Seq<char>|
                #[trigger] keys(st.entries).contains(y) <==> (keys(
                    initial_entries(g, g.non_terminals),
                ).contains(y) && !order.contains(y))
            &&& (order.len() > 0 && st.entries.len() == 0) ==> (st.final_terms matches Some(terms)
                && terms.len() > 0 && forall|j: int|
                0 <= j < terms.len() ==> (#[trigger] terms[j]).1 is None)
        },
    decreases order.len(),
{
    let init = initial_entries(g, g.non_terminals);
    if order.len() == 0 {
        assert forall|y: Seq<char>| #[trigger] keys(init).contains(y) <==> (keys(init).contains(y)
            && !order.contains(y)) by {}
    } else {
        let prev = order.drop_last();
        let x = order.last();
        assert forall|a: int, b: int| 0 <= a < b < prev.len() implies prev[a] != prev[b] by {
            assert(prev[a] == order[a] && prev[b] == order[b]);
        }
        assert forall|k: int| 0 <= k < prev.len() implies keys(init).contains(#[trigger] prev[k]) by {
            assert(prev[k] == order[k]);
        }
        lemma_eliminate_all_solvable(g, prev);
        let st = eliminate_all(g, prev)->Ok_0;
        assert(keys(init).contains(order[order.len() - 1]));
        assert(!prev.contains(x)) by {
            if prev.contains(x) {
                let k = choose|k: int| 0 <= k < prev.len() && prev[k] == x;
                assert(order[k] == order[order.len() - 1]);
            }
        }
        assert(keys(st.entries).contains(x));
        lemma_eliminate_solvable(g, st, x);
        let next = eliminate_one(g, st, x)->Ok_0;
        assert forall|y: Seq<char>| #[trigger] keys(next.entries).contains(y) <==> (keys(
            init,
        ).contains(y) && !order.contains(y)) by {
            assert(keys(next.entries).contains(y) <==> (keys(st.entries).contains(y) && y != x));
            assert(keys(st.entries).contains(y) <==> (keys(init).contains(y) && !prev.contains(y)));
            if order.contains(y) {
                let k = choose|k: int| 0 <= k < order.len() && order[k] == y;
                if k < prev.len() {
                    assert(prev[k] == y);
                }
            }
            if prev.contains(y) {
                let k = choose|k: int| 0 <= k < prev.len() && prev[k] == y;
                assert(order[k] == y);
            }
            if y == x {
                assert(order[order.len() - 1] == y);
            }
        }
    }
}

/// `nts` without `x` holds the other non-terminals of `nts`, each once
/// when they were distinct, one fewer than `nts` when `x` was there once.
proof fn lemma_without(nts: Seq<Seq<char>>, x: Seq<char>)
    requires
        forall|a: int, b: int| 0 <= a < b < nts.len() ==> nts[a] != nts[b],
    ensures
        forall|a: int, b: int|
            0 <= a < b < without(nts, x).len() ==> without(nts, x)[a] != without(nts, x)[b],
        forall|k: int|
            0 <= k < without(nts, x).len() ==> nts.contains(#[trigger] without(nts, x)[k])
                && without(nts, x)[k] != x,
        without(nts, x).len() == if nts.contains(x) {
            nts.len() - 1
        } else {
            nts.len() as int
        },
    decreases nts.len(),
{
    if nts.len() > 0 {
        let prev = nts.drop_last();
        assert forall|a: int, b: int| 0 <= a < b < prev.len() implies prev[a] != prev[b] by {
            assert(prev[a] == nts[a] && prev[b] == nts[b]);
        }
        lemma_without(prev, x);
        let w = without(prev, x);
        let r = without(nts, x);
        let last = nts.last();
        assert forall|k: int| 0 <= k < w.len() implies nts.contains(#[trigger] w[k]) by {
            let j = choose|j: int| 0 <= j < prev.len() && prev[j] == w[k];
            assert(nts[j] == w[k]);
        }
        if last != x {
            assert forall|k: int| 0 <= k < w.len() implies (#[trigger] w[k]) != last by {
                let j = choose|j: int| 0 <= j < prev.len() && prev[j] == w[k];
                assert(nts[j] == prev[j]);
                assert(nts[j] != nts[nts.len() - 1]);
            }
            assert forall|k: int| 0 <= k < r.len() implies nts.contains(#[trigger] r[k]) && r[k]
                != x by {
                if k < w.len() {
                    assert(r[k] == w[k]);
                } else {
                    assert(r[k] == nts[nts.len() - 1]);
                }
            }
        }
        assert(nts.contains(x) <==> (prev.contains(x) || last == x)) by {
            if nts.contains(x) {
                let j = choose|j: int| 0 <= j < nts.len() && nts[j] == x;
                if j < prev.len() {
                    assert(prev[j] == x);
                }
            }
            if prev.contains(x) {
                let j = choose|j: int| 0 <= j < prev.len() && prev[j] == x;
                assert(nts[j] == x);
            }
        }
        if last == x {
            assert(!prev.contains(x)) by {
                if prev.contains(x) {
                    let j = choose|j: int| 0 <= j < prev.len() && prev[j] == x;
                    assert(nts[j] == nts[nts.len() - 1]);
                }
            }
        }
    }
}

/// For distinct non-terminals, the initial equations are theirs, in
/// order.
pub proof fn lemma_initial_entries(g: GrammarModel, nts: Seq<Seq<char>>)
    requires
        forall|a: int, b: int| 0 <= a < b < nts.len() ==> nts[a] != nts[b],
    ensures
        initial_entries(g, nts).len() == nts.len(),
        forall|k: int|
            0 <= k < nts.len() ==> #[trigger] initial_entries(g, nts)[k] == (
                nts[k],
                equation_of(g, nts[k]),
            ),
        keys(initial_entries(g, nts)) == nts,
    decreases nts.len(),
{
    if nts.len() > 0 {
        let prev = nts.drop_last();
        assert forall|a: int, b: int| 0 <= a < b < prev.len() implies prev[a] != prev[b] by {
            assert(prev[a] == nts[a] && prev[b] == nts[b]);
        }
        lemma_initial_entries(g, prev);
        let p = initial_entries(g, prev);
        lemma_key_index(p, nts.last());
        if key_index(p, nts.last()) >= 0 {
            let k = key_index(p, nts.last());
            assert(p[k].0 == prev[k]);
            assert(nts[k] == nts[nts.len() - 1]);
        }
        assert(keys(initial_entries(g, nts)) =~= nts);
    }
}

/// The conversion succeeds for a grammar whose non-terminals are distinct,
/// include the start symbol, and have solvable equations.
pub proof fn lemma_converts(g: GrammarModel)
    requires
        forall|a: int, b: int|
            0 <= a < b < g.non_terminals.len() ==> g.non_terminals[a] != g.non_terminals[b],
        g.non_terminals.contains(g.start),
        solvable(initial_entries(g, g.non_terminals)),
    ensures
        regex_trace_of(g) is Ok,
{
    let n = g.non_terminals;
    lemma_initial_entries(g, n);
    lemma_without(n, g.start);
    let w = without(n, g.start);
    let order = elimination_order(g);
    assert(order == w.push(g.start));
    assert forall|a: int, b: int| 0 <= a < b < order.len() implies order[a] != order[b] by {
        if b < w.len() {
            assert(order[a] == w[a] && order[b] == w[b]);
        } else {
            assert(order[a] == w[a]);
        }
    }
    assert forall|k: int| 0 <= k < order.len() implies keys(initial_entries(g, n)).contains(
        #[trigger] order[k],
    ) by {
        if k < w.len() {
            assert(order[k] == w[k]);
        }
    }
    lemma_eliminate_all_solvable(g, order);
}

/// The rules that lines give have distinct non-terminals.
pub proof fn lemma_parse_lines_distinct(lines: Seq<Seq<char>>)
    ensures
        parse_lines(lines) matches Ok(rules) ==> forall|a: int, b: int|
            0 <= a < b < rules.len() ==> (#[trigger] rules[a]).0 != (#[trigger] rules[b]).0,
    decreases lines.len(),
{
    if lines.len() > 0 {
        lemma_parse_lines_distinct(lines.drop_last());
        match parse_lines(lines.drop_last()) {
            Err(_) => {},
            Ok(rules) => {
                let line = trim(lines.last());
                if !is_skipped(line) {
                    match parse_line(line) {
                        Err(_) => {},
                        Ok(r) => {
                            let added = add_rule(rules, r.0, r.1);
                            lemma_key_index(rules, r.0);
                            let i = key_index(rules, r.0);
                            assert forall|a: int, b: int| 0 <= a < b < added.len() implies (
                            #[trigger] added[a]).0 != (#[trigger] added[b]).0 by {
                                if i >= 0 {
                                    assert(added[a].0 == rules[a].0);
                                    assert(added[b].0 == rules[b].0);
                                } else if b < rules.len() {
                                    assert(added[a] == rules[a] && added[b] == rules[b]);
                                } else {
                                    assert(added[a] == rules[a]);
                                    assert(added[b].0 == r.0);
                                }
                            }
                        },
                    }
                }
            },
        }
    }
}

/// When no non-terminal is undefined, every one has a rule.
pub proof fn lemma_all_defined(syms: Seq<SymbolModel>, rules: Seq<RuleModel>)
    requires
        first_undefined(syms, rules) is None,
    ensures
        forall|i: int|
            0 <= i < syms.len() && (#[trigger] syms[i]) is NonTerminal ==> key_index(
                rules,
                syms[i]->NonTerminal_0,
            ) >= 0,
    decreases syms.len(),
{
    if syms.len() > 0 {
        let prev = syms.drop_last();
        lemma_all_defined(prev, rules);
        assert forall|i: int| 0 <= i < syms.len() && (#[trigger] syms[i]) is NonTerminal implies key_index(
            rules,
            syms[i]->NonTerminal_0,
        ) >= 0 by {
            if i < prev.len() {
                assert(prev[i] == syms[i]);
            }
        }
    }
}

/// The symbols of every alternative are among the rules' symbols.
pub proof fn lemma_in_rules_symbols(rules: Seq<RuleModel>, k: int, a: int, j: int)
    requires
        0 <= k < rules.len(),
        0 <= a < rules[k].1.len(),
        0 <= j < rules[k].1[a].len(),
    ensures
        rules_symbols(rules).contains(rules[k].1[a][j]),
    decreases rules.len(),
{
    let prev = rules.drop_last();
    if k < prev.len() {
        assert(prev[k] == rules[k]);
        lemma_in_rules_symbols(prev, k, a, j);
        let i = choose|i: int| 0 <= i < rules_symbols(prev).len() && rules_symbols(prev)[i]
            == prev[k].1[a][j];
        assert(rules_symbols(rules)[i] == rules_symbols(prev)[i]);
    } else {
        let alts = rules.last().1;
        lemma_in_alternatives_symbols(alts, a, j);
        let i = choose|i: int| 0 <= i < alternatives_symbols(alts).len()
            && alternatives_symbols(alts)[i] == alts[a][j];
        assert(rules_symbols(rules)[rules_symbols(prev).len() + i] == alts[a][j]);
    }
}

proof fn lemma_in_alternatives_symbols(alts: Seq<Seq<SymbolModel>>, a: int, j: int)
    requires
        0 <= a < alts.len(),
        0 <= j < alts[a].len(),
    ensures
        alternatives_symbols(alts).contains(alts[a][j]),
    decreases alts.len(),
{
    let prev = alts.drop_last();
    if a < prev.len() {
        assert(prev[a] == alts[a]);
        lemma_in_alternatives_symbols(prev, a, j);
        let i = choose|i: int| 0 <= i < alternatives_symbols(prev).len()
            && alternatives_symbols(prev)[i] == prev[a][j];
        assert(alternatives_symbols(alts)[i] == alternatives_symbols(prev)[i]);
    } else {
        assert(alternatives_symbols(alts)[alternatives_symbols(prev).len() + j] == alts[a][j]);
    }
}

/// The non-terminal a term names is one of its alternative's symbols.
proof fn lemma_term_target(alt: Seq<SymbolModel>)
    ensures
        alternative_term(alt).1 matches Some(n) ==> exists|j: int|
            0 <= j < alt.len() && #[trigger] alt[j] == SymbolModel::NonTerminal(n),
    decreases alt.len(),
{
    if alt.len() > 0 {
        let prev = alt.drop_last();
        lemma_term_target(prev);
        match alternative_term(alt).1 {
            Some(n) => {
                if alt.last() == SymbolModel::NonTerminal(n) {
                    assert(alt[alt.len() - 1] == SymbolModel::NonTerminal(n));
                } else {
                    let j = choose|j: int| 0 <= j < prev.len() && #[trigger] prev[j]
                        == SymbolModel::NonTerminal(n);
                    assert(alt[j] == prev[j]);
                }
            },
            None => {},
        }
    }
}

/// Every rule of the grammar has an alternative made of terminals alone
/// (the empty word among them).
pub open spec fn every_rule_ends(g: GrammarModel) -> bool {
    forall|k: int|
        #![trigger g.productions[k]]
        0 <= k < g.productions.len() ==> exists|a: int|
            0 <= a < g.productions[k].1.len() && #[trigger] terminals_only(g.productions[k].1[a])
}

/// Every symbol of the alternative is a terminal.
pub open spec fn terminals_only(alt: Seq<SymbolModel>) -> bool {
    forall|j: int| 0 <= j < alt.len() ==> (#[trigger] alt[j]) is Terminal
}

/// A grammar read from a text, each non-terminal of which has an
/// alternative of terminals alone (or the empty word), converts to a
/// regular expression.
pub proof fn lemma_parsed_grammar_converts(text: Seq<char>)
    ensures
        (grammar_of_text(text) is Ok && every_rule_ends(grammar_of_text(text)->Ok_0)) ==> regex_trace_of(
            grammar_of_text(text)->Ok_0,
        ) is Ok,
{
    lemma_parse_lines_distinct(split_on(text, '\n'));
    match grammar_of_text(text) {
        Err(_) => {},
        Ok(g) => {
            let rules = g.productions;
            if every_rule_ends(g) {
                let n = g.non_terminals;
                assert(n == keys(rules));
                assert forall|a: int, b: int| 0 <= a < b < n.len() implies n[a] != n[b] by {
                    assert(n[a] == rules[a].0 && n[b] == rules[b].0);
                }
                assert(n[0] == g.start);
                lemma_initial_entries(g, n);
                let init = initial_entries(g, n);
                lemma_all_defined(rules_symbols(rules), rules);
                assert forall|k: int| 0 <= k < init.len() implies targets_in(
                    (#[trigger] init[k]).1,
                    keys(init),
                ) && has_free_term(init[k].1) by {
                    lemma_key_index(rules, n[k]);
                    assert(rules[k].0 == n[k]);
                    let p = key_index(rules, n[k]);
                    assert(p == k) by {
                        if p != k {
                            assert(rules[p].0 == rules[k].0);
                        }
                    }
                    let alts = rules[k].1;
                    assert(lookup(rules, n[k]) == Some(alts));
                    let eq = equation_of(g, n[k]);
                    assert(init[k].1 == eq);
                    assert forall|j: int| 0 <= j < eq.len() && (#[trigger] eq[j]).1 is Some implies keys(
                        init,
                    ).contains(eq[j].1->Some_0) by {
                        assert(eq[j] == alternative_term(alts[j]));
                        lemma_term_target(alts[j]);
                        let name = eq[j].1->Some_0;
                        let m = choose|m: int| 0 <= m < alts[j].len() && #[trigger] alts[j][m]
                            == SymbolModel::NonTerminal(name);
                        lemma_in_rules_symbols(rules, k, j, m);
                        let syms = rules_symbols(rules);
                        let i = choose|i: int| 0 <= i < syms.len() && syms[i] == rules[k].1[j][m];
                        assert(syms[i] is NonTerminal);
                        lemma_key_index(rules, name);
                        let q = key_index(rules, name);
                        assert(keys(init)[q] == name);
                    }
                    let a = choose|a: int| 0 <= a < alts.len() && #[trigger] terminals_only(alts[a]);
                    crate::generation::lemma_alternative_term(alts[a]);
                    assert(eq[a] == alternative_term(alts[a]));
                    assert(eq[a].1 is None);
                }
                lemma_converts(g);
            }
        },
    }
}

// ---------------------------------------------------------------------------
// Which equations the trace shows.

/// The names of `nts` not among `done`, in order.
pub open spec fn names_outside(nts: Seq<Seq<char>>, done: Seq<Seq<char>>) -> Seq<Seq<char>>
    decreases nts.len(),
{
    if nts.len() == 0 {
        Seq::empty()
    } else if done.contains(nts.last()) {
        names_outside(nts.drop_last(), done)
    } else {
        names_outside(nts.drop_last(), done).push(nts.last())
    }
}

/// The names of the equations written, in order.
pub open spec fn shown_names(shown: Seq<(Seq<char>, Seq<char>)>) -> Seq<Seq<char>> {
    shown.map_values(|p: (Seq<char>, Seq<char>)| p.0)
}

/// When `entries` has an equation exactly for the names of `nts` outside
/// `done`, the equations written are theirs, in the order of `nts`.
proof fn lemma_displayed_names(
    nts: Seq<Seq<char>>,
    entries: Seq<(Seq<char>, EquationModel)>,
    done: Seq<Seq<char>>,
)
    requires
        forall|n: Seq<char>|
            nts.contains(n) ==> (key_index(entries, n) >= 0 <==> !done.contains(n)),
    ensures
        shown_names(displayed(nts, entries)) == names_outside(nts, done),
    decreases nts.len(),
{
    if nts.len() > 0 {
        let prev = nts.drop_last();
        assert forall|n: Seq<char>| prev.contains(n) implies nts.contains(n) by {
            let i = choose|i: int| 0 <= i < prev.len() && prev[i] == n;
            assert(nts[i] == n);
        }
        lemma_displayed_names(prev, entries, done);
        assert(nts.contains(nts.last())) by {
            assert(nts[nts.len() - 1] == nts.last());
        }
        assert(shown_names(displayed(nts, entries)) =~= names_outside(nts, done));
    }
}

/// The keys of the equations left and the steps recorded, after the
/// non-terminals of `order` were eliminated.
proof fn lemma_eliminate_all_names(g: GrammarModel, order: Seq<Seq<char>>)
    requires
        forall|a: int, b: int|
            0 <= a < b < g.non_terminals.len() ==> g.non_terminals[a] != g.non_terminals[b],
    ensures
        eliminate_all(g, order) is Ok ==> {
            let st = eliminate_all(g, order)->Ok_0;
            &&& forall|a: int, b: int|
                0 <= a < b < st.entries.len() ==> (#[trigger] st.entries[a]).0 != (
                #[trigger] st.entries[b]).0
            &&& forall|n: Seq<char>|
                key_index(st.entries, n) >= 0 <==> (g.non_terminals.contains(n)
                    && !order.contains(n))
            &&& st.steps.len() == order.len()
            &&& forall|i: int|
                0 <= i < order.len() ==> (#[trigger] st.steps[i]).eliminated == order[i]
                    && shown_names(st.steps[i].remaining_equations) == names_outside(
                    g.non_terminals,
                    order.take(i + 1),
                )
        },
    decreases order.len(),
{
    let n = g.non_terminals;
    if order.len() == 0 {
        lemma_initial_entries(g, n);
        let e = initial_entries(g, n);
        assert forall|y: Seq<char>| key_index(e, y) >= 0 <==> (n.contains(y) && !order.contains(y)) by {
            lemma_keys_contain(e, y);
        }
        assert forall|a: int, b: int| 0 <= a < b < e.len() implies (#[trigger] e[a]).0 != (
        #[trigger] e[b]).0 by {
            assert(e[a].0 == n[a] && e[b].0 == n[b]);
        }
    } else {
        let prefix = order.drop_last();
        lemma_eliminate_all_names(g, prefix);
        if eliminate_all(g, order) is Ok {
            let st = eliminate_all(g, prefix)->Ok_0;
            let x = order.last();
            let e = st.entries;
            lemma_key_index(e, x);
            let i = key_index(e, x);
            let left = left_oriented(g);
            let resolved = resolve(x, e[i].1, left);
            let removed = e.remove(i);
            let rest = removed.map_values(
                |en: (Seq<char>, EquationModel)| (en.0, substituted(en.1, x, resolved, left)),
            );
            let next = eliminate_all(g, order)->Ok_0;
            assert(next.entries == rest);
            assert forall|a: int, b: int| 0 <= a < b < rest.len() implies (#[trigger] rest[a]).0
                != (#[trigger] rest[b]).0 by {
                let a2 = if a < i { a } else { a + 1 };
                let b2 = if b < i { b } else { b + 1 };
                assert(removed[a] == e[a2]);
                assert(removed[b] == e[b2]);
            }
            assert forall|y: Seq<char>| key_index(rest, y) >= 0 <==> (n.contains(y)
                && !order.contains(y)) by {
                lemma_key_index(rest, y);
                lemma_key_index(e, y);
                assert(order =~= prefix.push(x));
                lemma_keys_contain(rest, y);
                lemma_keys_contain(e, y);
                if key_index(rest, y) >= 0 {
                    let k = key_index(rest, y);
                    let k2 = if k < i { k } else { k + 1 };
                    assert(removed[k] == e[k2]);
                    assert(e[k2].0 == y);
                    assert(keys(e)[k2] == y);
                    assert(k2 != i);
                    assert(y != x);
                    assert(!prefix.contains(y));
                    assert(order.contains(y) ==> prefix.contains(y) || y == x);
                }
                if n.contains(y) && !order.contains(y) {
                    assert(!prefix.contains(y)) by {
                        if prefix.contains(y) {
                            let j = choose|j: int| 0 <= j < prefix.len() && prefix[j] == y;
                            assert(order[j] == y);
                        }
                    }
                    assert(y != x) by {
                        assert(order[order.len() - 1] == x);
                    }
                    let k = key_index(e, y);
                    assert(k != i);
                    let k2 = if k < i { k } else { k - 1 };
                    assert(removed[k2] == e[k]);
                    assert(rest[k2].0 == y);
                    assert(keys(rest)[k2] == y);
                }
            }
            assert(order.take(order.len() as int) =~= order);
            assert forall|y: Seq<char>| n.contains(y) implies (key_index(rest, y) >= 0 <==> !order.take(
                order.len() as int,
            ).contains(y)) by {}
            lemma_displayed_names(n, rest, order.take(order.len() as int));
            assert forall|j: int| 0 <= j < order.len() implies (#[trigger] next.steps[j]).eliminated
                == order[j] && shown_names(next.steps[j].remaining_equations) == names_outside(
                n,
                order.take(j + 1),
            ) by {
                if j < prefix.len() {
                    assert(next.steps[j] == st.steps[j]);
                    assert(prefix[j] == order[j]);
                    assert(prefix.take(j + 1) =~= order.take(j + 1));
                }
            }
        }
    }
}

/// The trace of a conversion shows the equations of every non-terminal
/// first; then it eliminates the non-terminals other than the start
/// symbol, in order, and the start symbol last, each step showing the
/// equations of the non-terminals not yet eliminated, in order.
pub proof fn lemma_trace_names(g: GrammarModel)
    requires
        forall|a: int, b: int|
            0 <= a < b < g.non_terminals.len() ==> g.non_terminals[a] != g.non_terminals[b],
    ensures
        regex_trace_of(g) is Ok ==> {
            let t = regex_trace_of(g)->Ok_0;
            let order = elimination_order(g);
            &&& shown_names(t.initial_equations) == g.non_terminals
            &&& t.eliminations.len() == order.len()
            &&& forall|i: int|
                0 <= i < order.len() ==> (#[trigger] t.eliminations[i]).eliminated == order[i]
                    && shown_names(t.eliminations[i].remaining_equations) == names_outside(
                    g.non_terminals,
                    order.take(i + 1),
                )
        },
{
    let n = g.non_terminals;
    lemma_eliminate_all_names(g, elimination_order(g));
    lemma_initial_entries(g, n);
    let e = initial_entries(g, n);
    assert forall|y: Seq<char>| n.contains(y) implies (key_index(e, y) >= 0 <==> !Seq::<
        Seq<char>,
    >::empty().contains(y)) by {
        lemma_keys_contain(e, y);
    }
    lemma_displayed_names(n, e, Seq::empty());
    lemma_names_outside_nothing(n);
}

proof fn lemma_names_outside_nothing(nts: Seq<Seq<char>>)
    ensures
        names_outside(nts, Seq::empty()) == nts,
    decreases nts.len(),
{
    if nts.len() > 0 {
        lemma_names_outside_nothing(nts.drop_last());
        assert(nts.drop_last().push(nts.last()) =~= nts);
    }
}

} // verus!
