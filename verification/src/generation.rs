//! Random right-linear grammars for the challenge sessions.

use vstd::prelude::*;

use crate::derivation::{can_terminate, ends_in, has_alternatives, right_linear};
use crate::elimination::{has_free_term, lemma_converts, solvable, targets_in};
use crate::regex_conversion::{alternative_term, equation_of, initial_entries, regex_trace_of};
use crate::grammar::{
    Grammar, GrammarModel, Rule, alternatives_of, check_pairs, checked_pairs, first_non_terminal,
    key_index, keys, lemma_key_index, lookup, non_terminal_count, production_count, regularity,
};
use crate::random::random_in_range;
use crate::seq_facts::{lemma_deep_view, lemma_deep_view_push, lemma_push};
use crate::symbol::{ErrorModel, GrammarError, Symbol, SymbolModel, string_from};
use crate::text::char_to_string;

verus! {

#[derive(Debug, Clone, Copy, PartialEq, Eq)]
pub struct RandomGrammarConfig {
    pub non_terminal_count: usize,
    pub alternatives_per_non_terminal: usize,
    pub min_terminals_per_production: usize,
    pub max_terminals_per_production: usize,
    pub terminal_count: usize,
}

/// The configurations that `generate_random_regular_grammar` accepts.
pub open spec fn valid_config(c: RandomGrammarConfig) -> bool {
    &&& 2 <= c.non_terminal_count <= 26
    &&& 2 <= c.alternatives_per_non_terminal <= 8
    &&& 1 <= c.terminal_count <= 26
    &&& c.min_terminals_per_production != 0
    &&& c.min_terminals_per_production <= c.max_terminals_per_production
}

/// The `i`-th upper-case letter other than `S`.
pub open spec fn letter_without_s(i: int) -> char {
    if i < 18 {
        (65 + i) as char
    } else {
        (66 + i) as char
    }
}

/// `S`, then the first `n - 1` upper-case letters other than `S`.
pub open spec fn random_names(n: nat) -> Seq<Seq<char>> {
    seq![seq!['S']] + Seq::new((n - 1) as nat, |i: int| seq![letter_without_s(i)])
}

/// The first `n` lower-case letters.
pub open spec fn first_letters(n: nat) -> Seq<char> {
    Seq::new(n, |i: int| (97 + i) as char)
}

/// An alternative that the generator may produce: between `min` and `max`
/// terminals of `terminals`, then, when it `continues`, one non-terminal of
/// `names`.
pub open spec fn fits(
    alt: Seq<SymbolModel>,
    continues: bool,
    terminals: Seq<char>,
    names: Seq<Seq<char>>,
    min: nat,
    max: nat,
) -> bool {
    let t = if continues {
        alt.len() - 1
    } else {
        alt.len() as int
    };
    &&& min <= t <= max
    &&& forall|j: int|
        0 <= j < t ==> (#[trigger] alt[j]) is Terminal && terminals.contains(alt[j]->Terminal_0)
    &&& continues ==> alt.len() >= 1 && alt.last() is NonTerminal && names.contains(
        alt.last()->NonTerminal_0,
    )
}

/// The shape of a generated grammar: `N` as `random_names`, `T` as the
/// first letters, `S` first, one rule per non-terminal in order, each with
/// the requested number of alternatives. The first alternative of a rule is
/// terminals alone; the others end in a non-terminal.
pub open spec fn generated_shape(g: GrammarModel, c: RandomGrammarConfig) -> bool {
    &&& g.non_terminals == random_names(c.non_terminal_count as nat)
    &&& g.terminals == first_letters(c.terminal_count as nat)
    &&& g.start == seq!['S']
    &&& g.productions.len() == c.non_terminal_count
    &&& forall|k: int|
        0 <= k < g.productions.len() ==> (#[trigger] g.productions[k]).0 == g.non_terminals[k]
            && g.productions[k].1.len() == c.alternatives_per_non_terminal
    &&& forall|k: int, i: int|
        0 <= k < g.productions.len() && 0 <= i < g.productions[k].1.len() ==> fits(
            #[trigger] g.productions[k].1[i],
            i > 0,
            g.terminals,
            g.non_terminals,
            c.min_terminals_per_production as nat,
            c.max_terminals_per_production as nat,
        )
}

pub open spec fn invalid_config_message() -> Seq<char> {
    "configuração inválida para gramática aleatória"@
}

/// The upper-case letters other than `S`, from the `i`-th.
fn upper_letter(i: usize) -> (c: char)
    requires
        i < 25,
    ensures
        c == letter_without_s(i as int),
{
    if i < 18 {
        let b: u8 = (65 + i) as u8;
        b as char
    } else {
        let b: u8 = (66 + i) as u8;
        b as char
    }
}

fn lower_letter(i: usize) -> (c: char)
    requires
        i < 26,
    ensures
        c == (97 + i) as char,
{
    let b: u8 = (97 + i) as u8;
    b as char
}

/// Builds a productive right-linear grammar for a challenge session: every
/// non-terminal has an alternative of terminals alone, and alternatives
/// that continue with a non-terminal. The lengths, the terminals and the
/// non-terminals are drawn at random.
pub fn generate_random_regular_grammar(config: RandomGrammarConfig) -> (r: Result<
    Grammar,
    GrammarError,
>)
    ensures
        !valid_config(config) ==> (r is Err && r->Err_0.deep_view() == ErrorModel::ParseError(
            invalid_config_message(),
        )),
        valid_config(config) ==> (r is Ok && generated_shape(r->Ok_0.deep_view(), config)),
{
    if !(2 <= config.non_terminal_count && config.non_terminal_count <= 26) || !(2
        <= config.alternatives_per_non_terminal && config.alternatives_per_non_terminal <= 8)
        || !(1 <= config.terminal_count && config.terminal_count <= 26)
        || config.min_terminals_per_production == 0 || config.min_terminals_per_production
        > config.max_terminals_per_production {
        return Err(
            GrammarError::ParseError(string_from("configuração inválida para gramática aleatória")),
        );
    }
    let ntc = config.non_terminal_count;
    let tc = config.terminal_count;
    let apn = config.alternatives_per_non_terminal;
    let minp = config.min_terminals_per_production;
    let maxp = config.max_terminals_per_production;
    let ghost names_model = random_names(ntc as nat);
    let ghost letters_model = first_letters(tc as nat);
    let mut non_terminals: Vec<String> = Vec::new();
    non_terminals.push(char_to_string('S'));
    let mut i: usize = 0;
    while i < ntc - 1
        invariant
            2 <= ntc <= 26,
            i <= ntc - 1,
            names_model == random_names(ntc as nat),
            non_terminals.deep_view() == names_model.take(i + 1),
        decreases ntc - 1 - i,
    {
        let ghost before = non_terminals.deep_view();
        non_terminals.push(char_to_string(upper_letter(i)));
        assert(non_terminals.deep_view() =~= before.push(seq![letter_without_s(i as int)]));
        assert(names_model.take(i + 2) =~= names_model.take(i + 1).push(names_model[i + 1]));
        i = i + 1;
    }
    assert(names_model.take(ntc as int) =~= names_model);
    let mut terminals: Vec<char> = Vec::new();
    let mut i: usize = 0;
    while i < tc
        invariant
            1 <= tc <= 26,
            i <= tc,
            letters_model == first_letters(tc as nat),
            terminals@ == letters_model.take(i as int),
        decreases tc - i,
    {
        terminals.push(lower_letter(i));
        assert(letters_model.take(i + 1) =~= letters_model.take(i as int).push(letters_model[i as int]));
        i = i + 1;
    }
    assert(letters_model.take(tc as int) =~= letters_model);
    assert(terminals@.len() == tc);
    let mut productions: Vec<Rule> = Vec::new();
    let mut k: usize = 0;
    while k < ntc
        invariant
            valid_config(config),
            ntc == config.non_terminal_count,
            tc == config.terminal_count,
            terminals@.len() == tc,
            apn == config.alternatives_per_non_terminal,
            minp == config.min_terminals_per_production,
            maxp == config.max_terminals_per_production,
            k <= ntc,
            non_terminals.deep_view() == names_model,
            names_model == random_names(ntc as nat),
            terminals@ == letters_model,
            letters_model == first_letters(tc as nat),
            productions@.len() == k,
            forall|q: int|
                0 <= q < k ==> (#[trigger] productions@[q]).deep_view().0 == names_model[q]
                    && productions@[q].deep_view().1.len() == apn,
            forall|q: int, a: int|
                0 <= q < k && 0 <= a < apn ==> fits(
                    #[trigger] productions@[q].deep_view().1[a],
                    a > 0,
                    letters_model,
                    names_model,
                    minp as nat,
                    maxp as nat,
                ),
        decreases ntc - k,
    {
        proof {
            lemma_deep_view(non_terminals);
            lemma_deep_view(productions);
        }
        let alternatives = random_alternatives(&terminals, &non_terminals, apn, minp, maxp);
        let ghost am = alternatives.deep_view();
        let name = non_terminals[k].clone();
        let ghost before = productions@;
        let rule = Rule { non_terminal: name, alternatives };
        productions.push(rule);
        proof {
            lemma_push(before, rule);
            lemma_deep_view(productions);
            assert(productions@[k as int] == rule);
            assert(names_model[k as int] == non_terminals@[k as int]@);
        }
        k = k + 1;
    }
    let g = Grammar { non_terminals, terminals, productions, start: char_to_string('S') };
    assert forall|q: int| 0 <= q < ntc implies (#[trigger] g.deep_view().productions[q])
        == g.productions@[q].deep_view() by {}
    Ok(g)
}

/// The alternatives of one rule: the first of terminals alone, the others
/// ending in a non-terminal.
fn random_alternatives(
    terminals: &Vec<char>,
    non_terminals: &Vec<String>,
    count: usize,
    min: usize,
    max: usize,
) -> (r: Vec<Vec<Symbol>>)
    requires
        terminals@.len() > 0,
        non_terminals@.len() > 0,
        min <= max,
    ensures
        r.deep_view().len() == count,
        forall|a: int|
            0 <= a < count ==> fits(
                #[trigger] r.deep_view()[a],
                a > 0,
                terminals@,
                non_terminals.deep_view(),
                min as nat,
                max as nat,
            ),
{
    let mut alternatives: Vec<Vec<Symbol>> = Vec::new();
    let mut index: usize = 0;
    while index < count
        invariant
            terminals@.len() > 0,
            non_terminals@.len() > 0,
            min <= max,
            index <= count,
            alternatives@.len() == index,
            alternatives.deep_view().len() == index,
            forall|a: int|
                0 <= a < index ==> fits(
                    #[trigger] alternatives.deep_view()[a],
                    a > 0,
                    terminals@,
                    non_terminals.deep_view(),
                    min as nat,
                    max as nat,
                ),
        decreases count - index,
    {
        let alt = random_alternative(terminals, non_terminals, min, max, index > 0);
        let ghost before = alternatives;
        alternatives.push(alt);
        proof {
            lemma_deep_view_push(before, alternatives, alt);
            lemma_push(before.deep_view(), alt.deep_view());
            lemma_push(before@, alt);
        }
        index = index + 1;
    }
    alternatives
}

/// One alternative: a number of terminals from `min` to `max`, each drawn
/// from `terminals`, then, when it `continues`, a non-terminal drawn from
/// `non_terminals`.
fn random_alternative(
    terminals: &Vec<char>,
    non_terminals: &Vec<String>,
    min: usize,
    max: usize,
    continues: bool,
) -> (r: Vec<Symbol>)
    requires
        terminals@.len() > 0,
        non_terminals@.len() > 0,
        min <= max,
    ensures
        fits(r.deep_view(), continues, terminals@, non_terminals.deep_view(), min as nat, max as nat),
{
    let terminal_len = random_in_range(min, max);
    let mut production: Vec<Symbol> = Vec::new();
    let mut j: usize = 0;
    while j < terminal_len
        invariant
            j <= terminal_len,
            terminals@.len() > 0,
            production@.len() == j,
            production.deep_view().len() == j,
            forall|p: int|
                0 <= p < j ==> (#[trigger] production.deep_view()[p]) is Terminal
                    && terminals@.contains(production.deep_view()[p]->Terminal_0),
        decreases terminal_len - j,
    {
        let pick = random_in_range(0, terminals.len() - 1);
        let symbol = Symbol::Terminal(terminals[pick]);
        let ghost before = production;
        production.push(symbol);
        proof {
            lemma_deep_view_push(before, production, symbol);
            lemma_push(before.deep_view(), symbol.deep_view());
            lemma_push(before@, symbol);
            assert(terminals@.contains(terminals@[pick as int]));
        }
        j = j + 1;
    }
    if continues {
        let pick = random_in_range(0, non_terminals.len() - 1);
        let symbol = Symbol::NonTerminal(non_terminals[pick].clone());
        let ghost before = production;
        production.push(symbol);
        proof {
            lemma_deep_view_push(before, production, symbol);
            lemma_push(before.deep_view(), symbol.deep_view());
            lemma_deep_view(*non_terminals);
            assert(non_terminals.deep_view().contains(non_terminals.deep_view()[pick as int]));
        }
    }
    production
}

// ---------------------------------------------------------------------------
// What every generated grammar satisfies.

/// An alternative that holds no non-terminal, or one at its end after at
/// least one terminal.
pub open spec fn right_regular(alt: Seq<SymbolModel>) -> bool {
    ||| non_terminal_count(alt) == 0
    ||| non_terminal_count(alt) == 1 && first_non_terminal(alt) == alt.len() - 1
        && first_non_terminal(alt) != 0
}

/// Symbols that are all terminals hold no non-terminal.
pub proof fn lemma_terminals_only(alt: Seq<SymbolModel>)
    requires
        forall|j: int| 0 <= j < alt.len() ==> (#[trigger] alt[j]) is Terminal,
    ensures
        non_terminal_count(alt) == 0,
        first_non_terminal(alt) == -1,
    decreases alt.len(),
{
    if alt.len() > 0 {
        let prev = alt.drop_last();
        assert forall|j: int| 0 <= j < prev.len() implies (#[trigger] prev[j]) is Terminal by {
            assert(prev[j] == alt[j]);
        }
        lemma_terminals_only(prev);
        assert(alt[alt.len() - 1] is Terminal);
    }
}

proof fn lemma_fits_right_regular(
    alt: Seq<SymbolModel>,
    continues: bool,
    terminals: Seq<char>,
    names: Seq<Seq<char>>,
    min: nat,
    max: nat,
)
    requires
        fits(alt, continues, terminals, names, min, max),
        min >= 1,
    ensures
        right_regular(alt),
        forall|j: int| 0 <= j < alt.len() - 1 ==> (#[trigger] alt[j]) is Terminal,
        !continues ==> alt.len() > 0 && ends_in(alt) is None,
        continues ==> ends_in(alt) == Some(alt.last()->NonTerminal_0) && names.contains(
            alt.last()->NonTerminal_0,
        ),
{
    if continues {
        let prev = alt.drop_last();
        assert forall|j: int| 0 <= j < prev.len() implies (#[trigger] prev[j]) is Terminal by {
            assert(prev[j] == alt[j]);
        }
        lemma_terminals_only(prev);
    } else {
        lemma_terminals_only(alt);
        assert(alt[alt.len() - 1] is Terminal);
    }
}

/// Alternatives that each hold no non-terminal, or one at their end after
/// a terminal, pass the regularity check.
pub proof fn lemma_check_pairs_right(pairs: Seq<(Seq<char>, Seq<SymbolModel>)>)
    requires
        forall|i: int| 0 <= i < pairs.len() ==> right_regular(#[trigger] pairs[i].1),
    ensures
        check_pairs(pairs) matches Ok(side) && side != Some(false),
    decreases pairs.len(),
{
    if pairs.len() > 0 {
        let prev = pairs.drop_last();
        assert forall|i: int| 0 <= i < prev.len() implies right_regular(#[trigger] prev[i].1) by {
            assert(prev[i] == pairs[i]);
        }
        lemma_check_pairs_right(prev);
        assert(right_regular(pairs[pairs.len() - 1].1));
    }
}

/// Every alternative that `lookup` can give is one of the entries'.
proof fn lemma_lookup_entry(entries: Seq<(Seq<char>, Seq<Seq<SymbolModel>>)>, key: Seq<char>)
    ensures
        lookup(entries, key) matches Some(alts) ==> exists|k: int|
            0 <= k < entries.len() && #[trigger] entries[k].1 == alts,
{
    lemma_key_index(entries, key);
    let p = key_index(entries, key);
    if p >= 0 {
        assert(entries[p].1 == entries[p].1);
    }
}

/// The alternatives that the regularity check visits are rules'
/// alternatives.
pub proof fn lemma_checked_pairs_right(g: GrammarModel, nts: Seq<Seq<char>>)
    requires
        forall|k: int, a: int|
            0 <= k < g.productions.len() && 0 <= a < g.productions[k].1.len() ==> right_regular(
                #[trigger] g.productions[k].1[a],
            ),
    ensures
        forall|i: int|
            0 <= i < checked_pairs(g, nts).len() ==> right_regular(
                #[trigger] checked_pairs(g, nts)[i].1,
            ),
    decreases nts.len(),
{
    if nts.len() > 0 {
        let nt = nts.last();
        lemma_checked_pairs_right(g, nts.drop_last());
        lemma_lookup_entry(g.productions, nt);
        let prev = checked_pairs(g, nts.drop_last());
        match lookup(g.productions, nt) {
            Some(alts) => {
                let k = choose|k: int| 0 <= k < g.productions.len() && #[trigger] g.productions[k].1 == alts;
                let tail = alts.map_values(|a: Seq<SymbolModel>| (nt, a));
                assert forall|i: int| 0 <= i < checked_pairs(g, nts).len() implies right_regular(
                    #[trigger] checked_pairs(g, nts)[i].1,
                ) by {
                    if i < prev.len() {
                        assert(checked_pairs(g, nts)[i] == prev[i]);
                    } else {
                        assert(checked_pairs(g, nts)[i] == tail[i - prev.len()]);
                        assert(g.productions[k].1[i - prev.len()] == alts[i - prev.len()]);
                    }
                }
            },
            None => {
                assert(checked_pairs(g, nts) =~= prev);
            },
        }
    }
}

/// The alternatives `lookup` gives for a key of `g` are those of some rule.
proof fn lemma_lookup_key(g: GrammarModel, k: int)
    requires
        0 <= k < g.productions.len(),
    ensures
        exists|p: int|
            0 <= p < g.productions.len() && g.productions[p].0 == g.productions[k].0
                && #[trigger] lookup(g.productions, g.productions[k].0) == Some(g.productions[p].1),
{
    lemma_key_index(g.productions, g.productions[k].0);
    let p = key_index(g.productions, g.productions[k].0);
    assert(p >= 0);
}

/// From every non-terminal of a generated grammar, derivations of every
/// positive number of expansions exist.
proof fn lemma_generated_terminates(g: GrammarModel, c: RandomGrammarConfig, k: int, steps: nat)
    requires
        valid_config(c),
        generated_shape(g, c),
        0 <= k < g.productions.len(),
        steps >= 1,
    ensures
        can_terminate(g, g.non_terminals[k], steps),
    decreases steps,
{
    let nt = g.non_terminals[k];
    assert(g.productions[k].0 == nt);
    lemma_lookup_key(g, k);
    let p = choose|p: int|
        0 <= p < g.productions.len() && g.productions[p].0 == g.productions[k].0
            && #[trigger] lookup(g.productions, g.productions[k].0) == Some(g.productions[p].1);
    let alts = g.productions[p].1;
    assert(alternatives_of(g, nt) == Some(alts));
    let min = c.min_terminals_per_production as nat;
    let max = c.max_terminals_per_production as nat;
    if steps == 1 {
        assert(fits(alts[0], false, g.terminals, g.non_terminals, min, max));
        lemma_fits_right_regular(alts[0], false, g.terminals, g.non_terminals, min, max);
    } else {
        assert(fits(alts[1], true, g.terminals, g.non_terminals, min, max));
        lemma_fits_right_regular(alts[1], true, g.terminals, g.non_terminals, min, max);
        let next = alts[1].last()->NonTerminal_0;
        let q = choose|q: int| 0 <= q < g.non_terminals.len() && g.non_terminals[q] == next;
        lemma_generated_terminates(g, c, q, (steps - 1) as nat);
    }
}

proof fn lemma_generated_count(g: GrammarModel, c: RandomGrammarConfig, m: int)
    requires
        valid_config(c),
        generated_shape(g, c),
        0 <= m <= g.non_terminals.len(),
    ensures
        production_count(g, g.non_terminals.take(m)) == m * c.alternatives_per_non_terminal,
    decreases m,
{
    let nts = g.non_terminals.take(m);
    if m > 0 {
        assert(nts.drop_last() =~= g.non_terminals.take(m - 1));
        lemma_generated_count(g, c, m - 1);
        assert(g.productions[m - 1].0 == nts.last());
        lemma_lookup_key(g, m - 1);
        let p = choose|p: int|
            0 <= p < g.productions.len() && g.productions[p].0 == g.productions[m - 1].0
                && #[trigger] lookup(g.productions, g.productions[m - 1].0) == Some(
                g.productions[p].1,
            );
        assert(g.productions[p].1.len() == c.alternatives_per_non_terminal);
        assert((m - 1) * c.alternatives_per_non_terminal + c.alternatives_per_non_terminal == m
            * c.alternatives_per_non_terminal) by (nonlinear_arith);
        assert(nts.last() == g.productions[m - 1].0);
        assert(production_count(g, nts) == production_count(g, g.non_terminals.take(m - 1))
            + c.alternatives_per_non_terminal);
    } else {
        assert(nts.len() == 0);
        assert(production_count(g, nts) == 0);
    }
}

/// A generated grammar is regular (right-linear, every non-terminal at
/// the end of its alternative), every non-terminal has alternatives, its
/// overview counts the requested number of productions, from its start
/// symbol derivations of every positive number of expansions exist, so
/// that any step range from one up can be asked of it, and it converts to a
/// regular expression.
pub proof fn lemma_generated_grammar(g: GrammarModel, c: RandomGrammarConfig)
    requires
        valid_config(c),
        generated_shape(g, c),
    ensures
        regularity(g) == Ok::<(), ErrorModel>(()),
        right_linear(g),
        has_alternatives(g),
        production_count(g, g.non_terminals) == c.non_terminal_count
            * c.alternatives_per_non_terminal,
        forall|steps: nat| steps >= 1 ==> #[trigger] can_terminate(g, g.start, steps),
        regex_trace_of(g) is Ok,
{
    lemma_generated_converts(g, c);
    let min = c.min_terminals_per_production as nat;
    let max = c.max_terminals_per_production as nat;
    assert forall|k: int, a: int|
        0 <= k < g.productions.len() && 0 <= a < g.productions[k].1.len() implies right_regular(
            #[trigger] g.productions[k].1[a],
        ) && forall|j: int|
            0 <= j < g.productions[k].1[a].len() - 1 ==> (#[trigger] g.productions[k].1[a][j]) is Terminal by {
        assert(fits(g.productions[k].1[a], a > 0, g.terminals, g.non_terminals, min, max));
        lemma_fits_right_regular(g.productions[k].1[a], a > 0, g.terminals, g.non_terminals, min, max);
    }
    lemma_checked_pairs_right(g, g.non_terminals);
    lemma_check_pairs_right(checked_pairs(g, g.non_terminals));
    assert forall|name: Seq<char>| #[trigger] alternatives_of(g, name) is Some implies alternatives_of(
        g,
        name,
    )->Some_0.len() > 0 by {
        lemma_lookup_entry(g.productions, name);
    }
    lemma_generated_count(g, c, g.non_terminals.len() as int);
    assert(g.non_terminals.take(g.non_terminals.len() as int) =~= g.non_terminals);
    assert forall|steps: nat| steps >= 1 implies #[trigger] can_terminate(g, g.start, steps) by {
        assert(g.non_terminals[0] == g.start);
        lemma_generated_terminates(g, c, 0, steps);
    }
}

/// The term of an alternative of terminals alone names no non-terminal;
/// that of one ending in a non-terminal names it.
pub proof fn lemma_alternative_term(alt: Seq<SymbolModel>)
    ensures
        (forall|j: int| 0 <= j < alt.len() ==> (#[trigger] alt[j]) is Terminal)
            ==> alternative_term(alt).1 is None,
        alt.len() > 0 && alt.last() is NonTerminal ==> alternative_term(alt).1 == Some(
            alt.last()->NonTerminal_0,
        ),
    decreases alt.len(),
{
    if alt.len() > 0 {
        let prev = alt.drop_last();
        lemma_alternative_term(prev);
        if forall|j: int| 0 <= j < alt.len() ==> (#[trigger] alt[j]) is Terminal {
            assert forall|j: int| 0 <= j < prev.len() implies (#[trigger] prev[j]) is Terminal by {
                assert(prev[j] == alt[j]);
            }
            assert(alt[alt.len() - 1] is Terminal);
        }
    }
}

/// The names drawn for a grammar are distinct, and `S` is the first.
proof fn lemma_random_names(n: nat)
    requires
        1 <= n <= 26,
    ensures
        random_names(n).len() == n,
        random_names(n)[0] == seq!['S'],
        forall|a: int, b: int|
            0 <= a < b < random_names(n).len() ==> random_names(n)[a] != random_names(n)[b],
{
    let names = random_names(n);
    assert forall|a: int, b: int| 0 <= a < b < names.len() implies names[a] != names[b] by {
        if a == 0 {
            assert(names[b][0] == letter_without_s(b - 1));
            assert(names[a][0] == 'S');
        } else {
            assert(names[a][0] == letter_without_s(a - 1));
            assert(names[b][0] == letter_without_s(b - 1));
        }
    }
}

/// A generated grammar converts to a regular expression: every
/// non-terminal has an alternative of terminals alone, and every other
/// alternative ends in one of the grammar's non-terminals.
pub proof fn lemma_generated_converts(g: GrammarModel, c: RandomGrammarConfig)
    requires
        valid_config(c),
        generated_shape(g, c),
    ensures
        regex_trace_of(g) is Ok,
{
    let n = g.non_terminals;
    lemma_random_names(c.non_terminal_count as nat);
    crate::elimination::lemma_initial_entries(g, n);
    let init = initial_entries(g, n);
    assert(keys(init) == n);
    let min = c.min_terminals_per_production as nat;
    let max = c.max_terminals_per_production as nat;
    assert forall|k: int| 0 <= k < init.len() implies targets_in((#[trigger] init[k]).1, keys(init))
        && has_free_term(init[k].1) by {
        assert(init[k] == (n[k], equation_of(g, n[k])));
        assert(g.productions[k].0 == n[k]);
        lemma_lookup_key(g, k);
        let p = choose|p: int|
            0 <= p < g.productions.len() && g.productions[p].0 == g.productions[k].0
                && #[trigger] lookup(g.productions, g.productions[k].0) == Some(g.productions[p].1);
        let alts = g.productions[p].1;
        let eq = equation_of(g, n[k]);
        assert(eq == alts.map_values(|a: Seq<SymbolModel>| alternative_term(a)));
        assert forall|j: int| 0 <= j < eq.len() && (#[trigger] eq[j]).1 is Some implies n.contains(
            eq[j].1->Some_0,
        ) by {
            assert(eq[j] == alternative_term(alts[j]));
            assert(fits(alts[j], j > 0, g.terminals, g.non_terminals, min, max));
            lemma_fits_right_regular(alts[j], j > 0, g.terminals, g.non_terminals, min, max);
            lemma_alternative_term(alts[j]);
            if j == 0 {
                assert forall|m: int| 0 <= m < alts[j].len() implies (#[trigger] alts[j][m]) is Terminal by {
                    if m == alts[j].len() - 1 {
                        lemma_terminals_only(alts[j]);
                        assert(alts[j].last() is Terminal);
                    }
                }
            }
        }
        assert(eq[0] == alternative_term(alts[0]));
        assert(fits(alts[0], false, g.terminals, g.non_terminals, min, max));
        lemma_alternative_term(alts[0]);
        assert forall|m: int| 0 <= m < alts[0].len() implies (#[trigger] alts[0][m]) is Terminal by {
            lemma_fits_right_regular(alts[0], false, g.terminals, g.non_terminals, min, max);
        }
        assert(eq[0].1 is None);
    }
    assert(n[0] == g.start);
    lemma_converts(g);
}

} // verus!
