//! What parsing and the regularity check guarantee of a grammar: the shape
//! of a parsed grammar, and, for the grammars the check accepts, one
//! non-terminal at most in each alternative, all of them on one side.

use vstd::prelude::*;

use crate::derivation::linear;
use crate::elimination::{lemma_all_defined, lemma_in_rules_symbols, lemma_parse_lines_distinct};
use crate::grammar::{
    GrammarModel, check_pairs, checked_pairs, first_non_terminal, grammar_of_text, is_skipped, keys,
    lemma_first_non_terminal, lemma_key_index, lemma_sorted_terminals, key_index, lookup,
    non_terminal_count, parse_lines, regularity, rules_symbols, strictly_sorted,
};
use crate::language::{
    RegexModel, accepts, derivable, lemma_expression_denotes_language, one_sided, render, sided,
};
use crate::regex_conversion::{left_oriented, regex_trace_of};
use crate::symbol::SymbolModel;
use crate::text::{split_on, trim};

verus! {

/// Whether `alt` holds its non-terminal elsewhere than first.
pub open spec fn right_side(alt: Seq<SymbolModel>) -> bool {
    first_non_terminal(alt) != 0
}

/// One non-terminal at most, first or last.
pub open spec fn well_placed(alt: Seq<SymbolModel>) -> bool {
    &&& non_terminal_count(alt) <= 1
    &&& non_terminal_count(alt) == 1 ==> (first_non_terminal(alt) == 0 || first_non_terminal(alt)
        + 1 == alt.len())
}

/// A count of non-terminals: none means terminals only, and at most one
/// means that any non-terminal is the first.
proof fn lemma_count(alt: Seq<SymbolModel>)
    ensures
        non_terminal_count(alt) == 0 ==> forall|j: int|
            0 <= j < alt.len() ==> (#[trigger] alt[j]) is Terminal,
        non_terminal_count(alt) >= 1 ==> first_non_terminal(alt) >= 0,
        non_terminal_count(alt) <= 1 ==> forall|j: int|
            0 <= j < alt.len() && (#[trigger] alt[j]) is NonTerminal ==> j == first_non_terminal(
                alt,
            ),
    decreases alt.len(),
{
    if alt.len() > 0 {
        let prev = alt.drop_last();
        lemma_count(prev);
        lemma_first_non_terminal(prev);
        assert forall|j: int| 0 <= j < prev.len() implies alt[j] == prev[j] by {}
    }
}

/// What a successful check says of each pair it visited.
proof fn lemma_check_pairs_ok(pairs: Seq<(Seq<char>, Seq<SymbolModel>)>)
    requires
        check_pairs(pairs) is Ok,
    ensures
        forall|p: int|
            0 <= p < pairs.len() ==> well_placed(#[trigger] pairs[p].1) && (non_terminal_count(
                pairs[p].1,
            ) == 1 ==> check_pairs(pairs)->Ok_0 == Some(right_side(pairs[p].1))),
    decreases pairs.len(),
{
    if pairs.len() > 0 {
        let prev = pairs.drop_last();
        lemma_check_pairs_ok(prev);
        let res = check_pairs(pairs)->Ok_0;
        let side = check_pairs(prev)->Ok_0;
        let last = pairs.last();
        assert forall|p: int| 0 <= p < pairs.len() implies well_placed(#[trigger] pairs[p].1) && (
        non_terminal_count(pairs[p].1) == 1 ==> res == Some(right_side(pairs[p].1))) by {
            if p < prev.len() {
                assert(pairs[p] == prev[p]);
            } else {
                assert(pairs[p] == last);
            }
        }
    }
}

/// Every alternative of every listed non-terminal is visited.
proof fn lemma_checked_pairs_visit(g: GrammarModel, nts: Seq<Seq<char>>, k: int, a: int)
    requires
        0 <= k < nts.len(),
        lookup(g.productions, nts[k]) is Some,
        0 <= a < lookup(g.productions, nts[k])->Some_0.len(),
    ensures
        exists|p: int|
            0 <= p < checked_pairs(g, nts).len() && checked_pairs(g, nts)[p].1 == lookup(
                g.productions,
                nts[k],
            )->Some_0[a],
    decreases nts.len(),
{
    let prev = checked_pairs(g, nts.drop_last());
    let alt = lookup(g.productions, nts[k])->Some_0[a];
    if k < nts.len() - 1 {
        assert(nts.drop_last()[k] == nts[k]);
        lemma_checked_pairs_visit(g, nts.drop_last(), k, a);
        let p = choose|p: int| 0 <= p < prev.len() && prev[p].1 == alt;
        assert(checked_pairs(g, nts)[p] == prev[p]);
    } else {
        let alts = lookup(g.productions, nts.last())->Some_0;
        let tail = alts.map_values(|x: Seq<SymbolModel>| (nts.last(), x));
        assert(checked_pairs(g, nts) == prev + tail);
        assert(checked_pairs(g, nts)[prev.len() + a] == tail[a]);
    }
}

/// A grammar the regularity check accepts, whose rules are one per
/// non-terminal and in the order of its non-terminals, is linear and
/// one-sided: its alternatives hold one non-terminal at most, all first or
/// all last.
pub proof fn lemma_regular_grammar(g: GrammarModel)
    requires
        regularity(g) is Ok,
        keys(g.productions) == g.non_terminals,
        forall|a: int, b: int|
            0 <= a < b < g.productions.len() ==> (#[trigger] g.productions[a]).0 != (
            #[trigger] g.productions[b]).0,
    ensures
        linear(g),
        one_sided(g),
{
    let pairs = checked_pairs(g, g.non_terminals);
    lemma_check_pairs_ok(pairs);
    let s = check_pairs(pairs)->Ok_0;
    assert forall|k: int, a: int|
        0 <= k < g.productions.len() && 0 <= a < g.productions[k].1.len() implies well_placed(
        #[trigger] g.productions[k].1[a],
    ) && (non_terminal_count(g.productions[k].1[a]) == 1 ==> s == Some(
        right_side(g.productions[k].1[a]),
    )) by {
        let name = g.productions[k].0;
        lemma_key_index(g.productions, name);
        let i = key_index(g.productions, name);
        if i != k {
            if i < k {
                assert(g.productions[i].0 != g.productions[k].0);
            } else {
                assert(g.productions[k].0 != g.productions[i].0);
            }
        }
        assert(g.non_terminals[k] == name);
        assert(lookup(g.productions, g.non_terminals[k]) == Some(g.productions[k].1));
        lemma_checked_pairs_visit(g, g.non_terminals, k, a);
        let p = choose|p: int|
            0 <= p < pairs.len() && pairs[p].1 == lookup(g.productions, g.non_terminals[k])->Some_0[a];
        assert(pairs[p].1 == g.productions[k].1[a]);
    }
    assert forall|k: int, a: int, j: int|
        0 <= k < g.productions.len() && 0 <= a < g.productions[k].1.len() && 0 <= j
            < g.productions[k].1[a].len() && (#[trigger] g.productions[k].1[a][j]) is NonTerminal
            implies j == first_non_terminal(g.productions[k].1[a]) by {
        assert(well_placed(g.productions[k].1[a]));
        lemma_count(g.productions[k].1[a]);
    }
    assert forall|k: int, a: int|
        0 <= k < g.productions.len() && 0 <= a < g.productions[k].1.len() implies sided(
        #[trigger] g.productions[k].1[a],
        left_oriented(g),
    ) by {
        let alt = g.productions[k].1[a];
        assert(well_placed(alt));
        lemma_count(alt);
        assert forall|j: int| 0 <= j < alt.len() && (#[trigger] alt[j]) is NonTerminal implies if left_oriented(g) {
            j == 0
        } else {
            j == alt.len() - 1
        } by {
            assert(non_terminal_count(alt) == 1);
            if left_oriented(g) {
                let (k0, a0) = choose|k0: int, a0: int|
                    0 <= k0 < g.productions.len() && 0 <= a0 < g.productions[k0].1.len() && (
                    #[trigger] g.productions[k0].1[a0]).len() >= 2
                        && g.productions[k0].1[a0][0] is NonTerminal;
                let alt0 = g.productions[k0].1[a0];
                lemma_first_non_terminal(alt0);
                assert(well_placed(alt0));
                lemma_count(alt0);
                assert(first_non_terminal(alt0) == 0);
                assert(non_terminal_count(alt0) == 1);
                assert(s == Some(false));
            } else if first_non_terminal(alt) == 0 && alt.len() >= 2 {
                assert(alt[0] is NonTerminal);
                assert(left_oriented(g));
            }
        }
    }
}

/// A grammar read from a text that the regularity check accepts is linear
/// and one-sided.
pub proof fn lemma_parsed_regular_grammar(text: Seq<char>)
    ensures
        grammar_of_text(text) is Ok && regularity(grammar_of_text(text)->Ok_0) is Ok ==> linear(
            grammar_of_text(text)->Ok_0,
        ) && one_sided(grammar_of_text(text)->Ok_0),
{
    lemma_parse_lines_distinct(split_on(text, '\n'));
    if grammar_of_text(text) is Ok && regularity(grammar_of_text(text)->Ok_0) is Ok {
        lemma_regular_grammar(grammar_of_text(text)->Ok_0);
    }
}

/// The regular expression a grammar read from a text converts to, when
/// the regularity check accepts the grammar, denotes its language: the
/// final expression is how a regular expression is written that accepts
/// exactly the words the start symbol derives, whether the grammar is
/// right-linear or left-linear.
pub proof fn lemma_regular_text_denotes_language(text: Seq<char>)
    ensures
        ({
            let g = grammar_of_text(text)->Ok_0;
            (grammar_of_text(text) is Ok && regularity(g) is Ok && regex_trace_of(g) is Ok)
                ==> exists|r: RegexModel|
                #[trigger] render(r) == regex_trace_of(g)->Ok_0.final_expression && forall|
                    w: Seq<char>,
                | derivable(g, g.start, w) <==> #[trigger] accepts(r, w)
        }),
{
    lemma_parsed_regular_grammar(text);
    if grammar_of_text(text) is Ok && regularity(grammar_of_text(text)->Ok_0) is Ok {
        lemma_expression_denotes_language(grammar_of_text(text)->Ok_0);
    }
}

/// A grammar read from a text: `S` is the first of `N`; `N` lists the left
/// sides, each once, and they are the keys of the rules, in order; every
/// non-terminal an alternative uses has a rule; `T` is strictly increasing
/// and holds exactly the terminals the alternatives use.
pub proof fn lemma_parsed_grammar_shape(text: Seq<char>)
    ensures
        grammar_of_text(text) is Ok ==> {
            let g = grammar_of_text(text)->Ok_0;
            &&& g.non_terminals.len() > 0
            &&& g.start == g.non_terminals[0]
            &&& keys(g.productions) == g.non_terminals
            &&& forall|a: int, b: int|
                0 <= a < b < g.non_terminals.len() ==> g.non_terminals[a] != g.non_terminals[b]
            &&& forall|k: int, a: int, j: int|
                0 <= k < g.productions.len() && 0 <= a < g.productions[k].1.len() && 0 <= j
                    < g.productions[k].1[a].len() && (#[trigger] g.productions[k].1[a][j])
                    is NonTerminal ==> g.non_terminals.contains(
                    g.productions[k].1[a][j]->NonTerminal_0,
                )
            &&& strictly_sorted(g.terminals)
            &&& forall|c: char|
                g.terminals.contains(c) <==> rules_symbols(g.productions).contains(
                    SymbolModel::Terminal(c),
                )
        },
{
    lemma_parse_lines_distinct(split_on(text, '\n'));
    if grammar_of_text(text) is Ok {
        let g = grammar_of_text(text)->Ok_0;
        let rules = g.productions;
        lemma_sorted_terminals(rules);
        lemma_all_defined(rules_symbols(rules), rules);
        assert forall|a: int, b: int|
            0 <= a < b < g.non_terminals.len() implies g.non_terminals[a] != g.non_terminals[b] by {
            assert(g.non_terminals[a] == rules[a].0 && g.non_terminals[b] == rules[b].0);
        }
        assert forall|k: int, a: int, j: int|
            0 <= k < rules.len() && 0 <= a < rules[k].1.len() && 0 <= j < rules[k].1[a].len() && (
            #[trigger] rules[k].1[a][j]) is NonTerminal implies g.non_terminals.contains(
            rules[k].1[a][j]->NonTerminal_0,
        ) by {
            lemma_in_rules_symbols(rules, k, a, j);
            let syms = rules_symbols(rules);
            let i = choose|i: int| 0 <= i < syms.len() && syms[i] == rules[k].1[a][j];
            assert(syms[i] is NonTerminal);
            let name = rules[k].1[a][j]->NonTerminal_0;
            lemma_key_index(rules, name);
            assert(g.non_terminals[key_index(rules, name)] == name);
        }
    }
}

/// A blank or comment line changes nothing, wherever it stands among the
/// lines of a grammar.
pub proof fn lemma_skipped_line_ignored(
    before: Seq<Seq<char>>,
    line: Seq<char>,
    after: Seq<Seq<char>>,
)
    requires
        is_skipped(trim(line)),
    ensures
        parse_lines(before + seq![line] + after) == parse_lines(before + after),
    decreases after.len(),
{
    if after.len() == 0 {
        assert(before + seq![line] + after =~= before.push(line));
        assert(before + after =~= before);
        assert(before.push(line).drop_last() =~= before);
    } else {
        lemma_skipped_line_ignored(before, line, after.drop_last());
        assert((before + seq![line] + after).drop_last() =~= before + seq![line] + after.drop_last());
        assert((before + after).drop_last() =~= before + after.drop_last());
        assert((before + seq![line] + after).last() == after.last());
        assert((before + after).last() == after.last());
    }
}

/// The lines of a grammar that are neither blank nor comments, in order.
pub open spec fn unskipped(lines: Seq<Seq<char>>) -> Seq<Seq<char>>
    decreases lines.len(),
{
    if lines.len() == 0 {
        Seq::empty()
    } else if is_skipped(trim(lines.last())) {
        unskipped(lines.drop_last())
    } else {
        unskipped(lines.drop_last()).push(lines.last())
    }
}

/// Removing every blank and comment line changes nothing.
pub proof fn lemma_skipped_lines_ignored(lines: Seq<Seq<char>>)
    ensures
        parse_lines(unskipped(lines)) == parse_lines(lines),
    decreases lines.len(),
{
    if lines.len() > 0 {
        lemma_skipped_lines_ignored(lines.drop_last());
        let u = unskipped(lines);
        if !is_skipped(trim(lines.last())) {
            assert(u.drop_last() =~= unskipped(lines.drop_last()));
            assert(u.last() == lines.last());
        }
    }
}

// ---------------------------------------------------------------------------
// Which grammars the regularity check accepts.

/// Every non-terminal of every alternative stands first in it: a
/// left-linear grammar.
pub open spec fn non_terminals_first(g: GrammarModel) -> bool {
    forall|k: int, a: int, j: int|
        0 <= k < g.productions.len() && 0 <= a < g.productions[k].1.len() && 0 <= j
            < g.productions[k].1[a].len() && (#[trigger] g.productions[k].1[a][j]) is NonTerminal
            ==> j == 0
}

/// Every non-terminal of every alternative stands last in it, after at
/// least one symbol: a right-linear grammar without unit alternatives.
pub open spec fn non_terminals_last(g: GrammarModel) -> bool {
    forall|k: int, a: int, j: int|
        0 <= k < g.productions.len() && 0 <= a < g.productions[k].1.len() && 0 <= j
            < g.productions[k].1[a].len() && (#[trigger] g.productions[k].1[a][j]) is NonTerminal
            ==> j == g.productions[k].1[a].len() - 1 && j > 0
}

/// Every non-terminal of `alt` stands first, or, when `right` holds, last
/// and not first.
pub open spec fn placed(alt: Seq<SymbolModel>, right: bool) -> bool {
    forall|j: int|
        0 <= j < alt.len() && (#[trigger] alt[j]) is NonTerminal ==> if right {
            j == alt.len() - 1 && j > 0
        } else {
            j == 0
        }
}

/// Non-terminals that all stand at one index are one at most, and the
/// first of them stands there.
proof fn lemma_one_position(alt: Seq<SymbolModel>, p: int)
    requires
        forall|j: int| 0 <= j < alt.len() && (#[trigger] alt[j]) is NonTerminal ==> j == p,
    ensures
        non_terminal_count(alt) <= 1,
        non_terminal_count(alt) == 1 ==> first_non_terminal(alt) == p,
    decreases alt.len(),
{
    if alt.len() > 0 {
        let prev = alt.drop_last();
        assert forall|j: int| 0 <= j < prev.len() && (#[trigger] prev[j]) is NonTerminal implies j
            == p by {
            assert(prev[j] == alt[j]);
        }
        lemma_one_position(prev, p);
        lemma_count(prev);
        lemma_first_non_terminal(prev);
        if alt.last() is NonTerminal {
            assert(alt[alt.len() - 1] is NonTerminal);
            if non_terminal_count(prev) >= 1 {
                assert(prev[first_non_terminal(prev)] is NonTerminal);
            }
            if first_non_terminal(prev) >= 0 {
                assert(prev[first_non_terminal(prev)] is NonTerminal);
            }
        }
    }
}

/// The check passes pairs whose non-terminals all stand first, or all
/// stand last and not first, and settles on that side.
proof fn lemma_check_pairs_placed(pairs: Seq<(Seq<char>, Seq<SymbolModel>)>, right: bool)
    requires
        forall|i: int| 0 <= i < pairs.len() ==> placed(#[trigger] pairs[i].1, right),
    ensures
        check_pairs(pairs) is Ok,
        check_pairs(pairs)->Ok_0 is None || check_pairs(pairs)->Ok_0 == Some(right),
    decreases pairs.len(),
{
    if pairs.len() > 0 {
        let prev = pairs.drop_last();
        assert forall|i: int| 0 <= i < prev.len() implies placed(#[trigger] prev[i].1, right) by {
            assert(prev[i] == pairs[i]);
        }
        lemma_check_pairs_placed(prev, right);
        let alt = pairs.last().1;
        assert(placed(pairs[pairs.len() - 1].1, right));
        let p = if right {
            alt.len() - 1
        } else {
            0
        };
        lemma_one_position(alt, p);
        lemma_count(alt);
        lemma_first_non_terminal(alt);
        if non_terminal_count(alt) == 1 {
            assert(alt[first_non_terminal(alt)] is NonTerminal);
        }
    }
}

/// The pairs the check visits carry alternatives of the grammar's rules.
proof fn lemma_checked_pairs_placed(g: GrammarModel, nts: Seq<Seq<char>>, right: bool)
    requires
        forall|k: int, a: int|
            0 <= k < g.productions.len() && 0 <= a < g.productions[k].1.len() ==> placed(
                #[trigger] g.productions[k].1[a],
                right,
            ),
    ensures
        forall|i: int|
            0 <= i < checked_pairs(g, nts).len() ==> placed(
                #[trigger] checked_pairs(g, nts)[i].1,
                right,
            ),
    decreases nts.len(),
{
    if nts.len() > 0 {
        let nt = nts.last();
        lemma_checked_pairs_placed(g, nts.drop_last(), right);
        let prev = checked_pairs(g, nts.drop_last());
        lemma_key_index(g.productions, nt);
        match lookup(g.productions, nt) {
            Some(alts) => {
                let k = key_index(g.productions, nt);
                assert(g.productions[k].1 == alts);
                let tail = alts.map_values(|x: Seq<SymbolModel>| (nt, x));
                assert(checked_pairs(g, nts) == prev + tail);
                assert forall|i: int| 0 <= i < checked_pairs(g, nts).len() implies placed(
                    #[trigger] checked_pairs(g, nts)[i].1,
                    right,
                ) by {
                    if i < prev.len() {
                        assert(checked_pairs(g, nts)[i] == prev[i]);
                    } else {
                        assert(checked_pairs(g, nts)[i] == tail[i - prev.len()]);
                        assert(placed(g.productions[k].1[i - prev.len()], right));
                    }
                }
            },
            None => {
                assert(checked_pairs(g, nts) =~= prev);
            },
        }
    }
}

/// Every left-linear grammar is regular: when every non-terminal stands
/// first in its alternative, whatever the alternative's length, the check
/// accepts the grammar.
pub proof fn lemma_left_linear_grammars_are_regular(g: GrammarModel)
    requires
        non_terminals_first(g),
    ensures
        regularity(g) is Ok,
{
    assert forall|k: int, a: int|
        0 <= k < g.productions.len() && 0 <= a < g.productions[k].1.len() implies placed(
        #[trigger] g.productions[k].1[a],
        false,
    ) by {
        let alt = g.productions[k].1[a];
        assert forall|j: int| 0 <= j < alt.len() && (#[trigger] alt[j]) is NonTerminal implies j
            == 0 by {
            assert(g.productions[k].1[a][j] is NonTerminal);
        }
    }
    lemma_checked_pairs_placed(g, g.non_terminals, false);
    lemma_check_pairs_placed(checked_pairs(g, g.non_terminals), false);
}

/// Every right-linear grammar without unit alternatives is regular: when
/// every non-terminal stands last in its alternative, after at least one
/// symbol, the check accepts the grammar.
pub proof fn lemma_right_linear_grammars_are_regular(g: GrammarModel)
    requires
        non_terminals_last(g),
    ensures
        regularity(g) is Ok,
{
    assert forall|k: int, a: int|
        0 <= k < g.productions.len() && 0 <= a < g.productions[k].1.len() implies placed(
        #[trigger] g.productions[k].1[a],
        true,
    ) by {
        let alt = g.productions[k].1[a];
        assert forall|j: int| 0 <= j < alt.len() && (#[trigger] alt[j]) is NonTerminal implies j
            == alt.len() - 1 && j > 0 by {
            assert(g.productions[k].1[a][j] is NonTerminal);
        }
    }
    lemma_checked_pairs_placed(g, g.non_terminals, true);
    lemma_check_pairs_placed(checked_pairs(g, g.non_terminals), true);
}

} // verus!
