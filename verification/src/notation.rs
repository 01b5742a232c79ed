//! Facts about texts written in the grammar notation: a line `X -> w | ...`
//! of simple words reads as the rule of `X` with those alternatives.

use vstd::prelude::*;

use crate::grammar::{
    GrammarModel, RuleModel, add_rule, alternatives_symbols, first_undefined, grammar_of_text,
    is_empty_word, is_skipped, key_index, lemma_key_index, parse_alternatives, parse_line,
    parse_lines, parse_symbols, parsed_alternative, rules_symbols, split_line,
};
use crate::generation::{
    lemma_check_pairs_right, lemma_checked_pairs_right, lemma_terminals_only, right_regular,
};
use crate::grammar::{checked_pairs, first_non_terminal, non_terminal_count, regularity};
use crate::symbol::{ErrorModel, SymbolModel};
use crate::text::{
    find, find_from, is_digit, is_lower, is_space, is_upper, join, lemma_split_on_concat,
    lemma_split_on_single, lemma_trim_spaces, occurs_at, split_on, trim,
};

verus! {

/// A character that stands for a symbol.
pub open spec fn symbol_char(c: char) -> bool {
    is_lower(c) || is_digit(c) || is_upper(c)
}

/// The symbol that a character stands for.
pub open spec fn symbol_of(c: char) -> SymbolModel {
    if is_upper(c) {
        SymbolModel::NonTerminal(seq![c])
    } else {
        SymbolModel::Terminal(c)
    }
}

/// A word of one or more symbol characters.
pub open spec fn simple_word(w: Seq<char>) -> bool {
    w.len() > 0 && forall|i: int| 0 <= i < w.len() ==> symbol_char(#[trigger] w[i])
}

/// The symbols of a simple word.
pub open spec fn symbols_of(w: Seq<char>) -> Seq<SymbolModel> {
    Seq::new(w.len(), |i: int| symbol_of(w[i]))
}

pub proof fn lemma_parse_symbols(w: Seq<char>, whole: Seq<char>)
    requires
        forall|i: int| 0 <= i < w.len() ==> symbol_char(#[trigger] w[i]),
    ensures
        parse_symbols(w, whole) == Ok::<Seq<SymbolModel>, ErrorModel>(symbols_of(w)),
    decreases w.len(),
{
    if w.len() > 0 {
        let prev = w.drop_last();
        assert forall|i: int| 0 <= i < prev.len() implies symbol_char(#[trigger] prev[i]) by {
            assert(prev[i] == w[i]);
        }
        lemma_parse_symbols(prev, whole);
        assert(symbol_char(w[w.len() - 1]));
        assert(symbols_of(prev).push(symbol_of(w.last())) =~= symbols_of(w));
    } else {
        assert(symbols_of(w) =~= Seq::<SymbolModel>::empty());
    }
}

/// A simple word reads as its symbols.
pub proof fn lemma_parsed_alternative(w: Seq<char>)
    requires
        simple_word(w),
    ensures
        parsed_alternative(w) == Ok::<Seq<SymbolModel>, ErrorModel>(symbols_of(w)),
{
    assert(symbol_char(w[0]));
    assert(!is_empty_word(w)) by {
        if w == seq!['&'] || w == seq!['ε'] {
            assert(w[0] == '&' || w[0] == 'ε');
        }
    }
    lemma_parse_symbols(w, w);
}

/// Pieces whose trims are simple words read as those words' symbols.
pub proof fn lemma_parse_alternatives(pieces: Seq<Seq<char>>, words: Seq<Seq<char>>)
    requires
        pieces.len() == words.len(),
        forall|i: int| 0 <= i < words.len() ==> simple_word(#[trigger] words[i]),
        forall|i: int| 0 <= i < pieces.len() ==> trim(#[trigger] pieces[i]) == words[i],
    ensures
        parse_alternatives(pieces) == Ok::<Seq<Seq<SymbolModel>>, ErrorModel>(
            Seq::new(words.len(), |i: int| symbols_of(words[i])),
        ),
    decreases pieces.len(),
{
    if pieces.len() > 0 {
        let pp = pieces.drop_last();
        let pw = words.drop_last();
        assert forall|i: int| 0 <= i < pw.len() implies simple_word(#[trigger] pw[i]) by {
            assert(pw[i] == words[i]);
        }
        assert forall|i: int| 0 <= i < pp.len() implies trim(#[trigger] pp[i]) == pw[i] by {
            assert(pp[i] == pieces[i]);
            assert(pw[i] == words[i]);
        }
        lemma_parse_alternatives(pp, pw);
        assert(trim(pieces[pieces.len() - 1]) == words[words.len() - 1]);
        lemma_parsed_alternative(words.last());
        assert(Seq::new(pw.len(), |i: int| symbols_of(pw[i])).push(symbols_of(words.last()))
            =~= Seq::new(words.len(), |i: int| symbols_of(words[i])));
    } else {
        assert(Seq::new(words.len(), |i: int| symbols_of(words[i])) =~= Seq::<
            Seq<SymbolModel>,
        >::empty());
    }
}

/// ` | `, between the alternatives of a line.
pub open spec fn bar() -> Seq<char> {
    seq![' ', '|', ' ']
}

/// The piece of `join(words, bar())` between bars that holds word `i`:
/// the word, with the space before it and the one after it.
pub open spec fn bar_piece(words: Seq<Seq<char>>, i: int) -> Seq<char> {
    (if i > 0 {
        seq![' ']
    } else {
        Seq::<char>::empty()
    }) + words[i] + (if i < words.len() - 1 {
        seq![' ']
    } else {
        Seq::<char>::empty()
    })
}

/// Joined words start with the first word and end with the last.
pub proof fn lemma_join_ends(words: Seq<Seq<char>>, sep: Seq<char>)
    requires
        words.len() > 0,
        forall|i: int| 0 <= i < words.len() ==> (#[trigger] words[i]).len() > 0,
    ensures
        join(words, sep).len() > 0,
        join(words, sep)[0] == words[0][0],
        join(words, sep).last() == words.last().last(),
    decreases words.len(),
{
    if words.len() > 1 {
        let prev = words.drop_last();
        assert forall|i: int| 0 <= i < prev.len() implies (#[trigger] prev[i]).len() > 0 by {
            assert(prev[i] == words[i]);
        }
        lemma_join_ends(prev, sep);
        assert(prev[0] == words[0]);
        assert(words[words.len() - 1].len() > 0);
    }
}

proof fn lemma_no_bar(w: Seq<char>)
    requires
        simple_word(w),
    ensures
        !(seq![' '] + w).contains('|'),
        !w.contains('|'),
{
    let t = seq![' '] + w;
    if t.contains('|') {
        let k = choose|k: int| 0 <= k < t.len() && t[k] == '|';
        assert(k > 0);
        assert(t[k] == w[k - 1]);
        assert(symbol_char(w[k - 1]));
    }
    if w.contains('|') {
        let k = choose|k: int| 0 <= k < w.len() && w[k] == '|';
        assert(symbol_char(w[k]));
    }
}

/// Splitting simple words joined by ` | ` at `|` gives each word with
/// its spaces, and so each word once trimmed.
pub proof fn lemma_split_bars(words: Seq<Seq<char>>)
    requires
        words.len() > 0,
        forall|i: int| 0 <= i < words.len() ==> simple_word(#[trigger] words[i]),
    ensures
        split_on(join(words, bar()), '|').len() == words.len(),
        forall|i: int|
            0 <= i < words.len() ==> #[trigger] split_on(join(words, bar()), '|')[i] == bar_piece(
                words,
                i,
            ),
        forall|i: int|
            0 <= i < words.len() ==> trim(#[trigger] split_on(join(words, bar()), '|')[i])
                == words[i],
    decreases words.len(),
{
    let text = join(words, bar());
    let split = split_on(text, '|');
    if words.len() == 1 {
        lemma_no_bar(words[0]);
        assert(text == words[0]);
        lemma_split_on_single(text, '|');
        assert(bar_piece(words, 0) =~= words[0]);
    } else {
        let prev = words.drop_last();
        let last = words.last();
        assert forall|i: int| 0 <= i < prev.len() implies simple_word(#[trigger] prev[i]) by {
            assert(prev[i] == words[i]);
        }
        lemma_split_bars(prev);
        let jp = join(prev, bar());
        assert(text == jp + bar() + last);
        assert(text =~= jp.push(' ') + seq!['|'] + (seq![' '] + last));
        lemma_split_on_concat(jp.push(' '), '|', seq![' '] + last);
        assert(words[words.len() - 1] == last);
        lemma_no_bar(last);
        lemma_split_on_single(seq![' '] + last, '|');
        let ps = split_on(jp, '|');
        assert(jp.push(' ').drop_last() =~= jp);
        assert(split_on(jp.push(' '), '|') == ps.update(ps.len() - 1, ps.last().push(' ')));
        assert forall|i: int| 0 <= i < words.len() implies #[trigger] split[i] == bar_piece(
            words,
            i,
        ) by {
            if i < prev.len() {
                assert(prev[i] == words[i]);
                assert(ps[i] == bar_piece(prev, i));
                if i == prev.len() - 1 {
                    assert(split[i] == ps[i].push(' '));
                    assert(bar_piece(words, i) =~= bar_piece(prev, i).push(' '));
                } else {
                    assert(split[i] == ps[i]);
                    assert(bar_piece(words, i) =~= bar_piece(prev, i));
                }
            } else {
                assert(split[i] == seq![' '] + last);
                assert(bar_piece(words, i) =~= seq![' '] + last);
            }
        }
    }
    assert forall|i: int| 0 <= i < words.len() implies trim(#[trigger] split[i]) == words[i] by {
        let w = words[i];
        assert(symbol_char(w[0]));
        assert(symbol_char(w[w.len() - 1]));
        lemma_trim_spaces(w, i > 0, i < words.len() - 1);
        assert(split[i] == bar_piece(words, i));
    }
}

/// The line `n -> w1 | w2 | ...`.
pub open spec fn line_text(n: char, words: Seq<Seq<char>>) -> Seq<char> {
    seq![n, ' ', '-', '>', ' '] + join(words, bar())
}

/// The alternatives that simple words read as.
pub open spec fn alternatives_of_words(words: Seq<Seq<char>>) -> Seq<Seq<SymbolModel>> {
    Seq::new(words.len(), |i: int| symbols_of(words[i]))
}

/// A pattern whose first character does not occur is not found.
proof fn lemma_find_absent(s: Seq<char>, pat: Seq<char>, i: int)
    requires
        pat.len() > 0,
        0 <= i,
        forall|k: int| 0 <= k < s.len() ==> #[trigger] s[k] != pat[0],
    ensures
        find_from(s, pat, i) is None,
    decreases s.len() + 1 - i,
{
    if i + pat.len() <= s.len() {
        assert(s.subrange(i, i + pat.len())[0] == s[i]);
        lemma_find_absent(s, pat, i + 1);
    }
}

/// The characters of simple words joined by ` | ` are symbol characters,
/// spaces and bars.
proof fn lemma_join_chars(words: Seq<Seq<char>>)
    requires
        forall|i: int| 0 <= i < words.len() ==> simple_word(#[trigger] words[i]),
    ensures
        forall|k: int|
            0 <= k < join(words, bar()).len() ==> symbol_char(#[trigger] join(words, bar())[k])
                || join(words, bar())[k] == ' ' || join(words, bar())[k] == '|',
    decreases words.len(),
{
    if words.len() > 1 {
        let prev = words.drop_last();
        assert forall|i: int| 0 <= i < prev.len() implies simple_word(#[trigger] prev[i]) by {
            assert(prev[i] == words[i]);
        }
        lemma_join_chars(prev);
        let jp = join(prev, bar());
        let last = words.last();
        assert(simple_word(words[words.len() - 1]));
        let j = join(words, bar());
        assert(j == jp + bar() + last);
        assert forall|k: int| 0 <= k < j.len() implies symbol_char(#[trigger] j[k]) || j[k] == ' '
            || j[k] == '|' by {
            if k < jp.len() {
                assert(j[k] == jp[k]);
            } else if k < jp.len() + 3 {
                assert(j[k] == bar()[k - jp.len()]);
            } else {
                assert(j[k] == last[k - jp.len() - 3]);
            }
        }
    } else if words.len() == 1 {
        assert(join(words, bar()) == words[0]);
    }
}

/// The line `n -> w1 | ...` of simple words reads as the rule of `n`
/// with their symbols as alternatives.
pub proof fn lemma_parse_line(n: char, words: Seq<Seq<char>>)
    requires
        is_upper(n),
        words.len() > 0,
        forall|i: int| 0 <= i < words.len() ==> simple_word(#[trigger] words[i]),
    ensures
        parse_line(line_text(n, words)) == Ok::<(Seq<char>, Seq<Seq<SymbolModel>>), ErrorModel>(
            (seq![n], alternatives_of_words(words)),
        ),
{
    let line = line_text(n, words);
    let j = join(words, bar());
    lemma_join_chars(words);
    assert forall|i: int| 0 <= i < words.len() implies (#[trigger] words[i]).len() > 0 by {
        assert(simple_word(words[i]));
    }
    lemma_join_ends(words, bar());
    assert forall|k: int| 0 <= k < line.len() implies #[trigger] line[k] != ':' by {
        if k >= 5 {
            assert(line[k] == j[k - 5]);
        }
    }
    lemma_find_absent(line, seq![':', ':', '='], 0);
    let arrow = seq!['-', '>'];
    assert(!occurs_at(line, arrow, 0)) by {
        assert(line.subrange(0, 2)[0] == n);
    }
    assert(!occurs_at(line, arrow, 1)) by {
        assert(line.subrange(1, 3)[0] == ' ');
    }
    assert(occurs_at(line, arrow, 2)) by {
        assert(line.subrange(2, 4) =~= arrow);
    }
    reveal_with_fuel(find_from, 3);
    assert(find(line, arrow) == Some(2int));
    assert(line.take(2) =~= seq![n] + seq![' ']);
    lemma_trim_spaces(seq![n], false, true);
    assert(seq![n] + seq![' '] =~= Seq::<char>::empty() + seq![n] + seq![' ']);
    assert(line.skip(4) =~= seq![' '] + j + Seq::<char>::empty());
    assert(symbol_char(j[0]) && symbol_char(j.last())) by {
        assert(words[0][0] == j[0]);
        assert(simple_word(words[0]));
        assert(symbol_char(words[0][0]));
        let lw = words[words.len() - 1];
        assert(simple_word(lw));
        assert(symbol_char(lw[lw.len() - 1]));
    }
    lemma_trim_spaces(j, true, false);
    assert(split_line(line) == Ok::<(Seq<char>, Seq<char>), ErrorModel>((seq![n], j)));
    lemma_split_bars(words);
    lemma_parse_alternatives(split_on(j, '|'), words);
}

/// The lines `n -> w1 | ...` of `specs`, one per rule.
pub open spec fn lines_of(specs: Seq<(char, Seq<Seq<char>>)>) -> Seq<Seq<char>> {
    Seq::new(specs.len(), |k: int| line_text(specs[k].0, specs[k].1))
}

/// The rules that the lines of `specs` give, read top to bottom.
pub open spec fn rules_of(specs: Seq<(char, Seq<Seq<char>>)>) -> Seq<RuleModel>
    decreases specs.len(),
{
    if specs.len() == 0 {
        Seq::empty()
    } else {
        let last = specs.last();
        add_rule(rules_of(specs.drop_last()), seq![last.0], alternatives_of_words(last.1))
    }
}

/// The heads of `specs` are upper-case letters and their words are simple.
pub open spec fn well_written(specs: Seq<(char, Seq<Seq<char>>)>) -> bool {
    forall|k: int|
        0 <= k < specs.len() ==> is_upper((#[trigger] specs[k]).0) && specs[k].1.len() > 0
            && forall|i: int| 0 <= i < specs[k].1.len() ==> simple_word(#[trigger] specs[k].1[i])
}

/// Lines without a line break, joined by line breaks, split back into
/// themselves.
pub proof fn lemma_split_lines(lines: Seq<Seq<char>>)
    requires
        lines.len() > 0,
        forall|k: int| 0 <= k < lines.len() ==> !(#[trigger] lines[k]).contains('\n'),
    ensures
        split_on(join(lines, seq!['\n']), '\n') == lines,
    decreases lines.len(),
{
    if lines.len() == 1 {
        lemma_split_on_single(lines[0], '\n');
        assert(seq![lines[0]] =~= lines);
    } else {
        let prev = lines.drop_last();
        assert forall|k: int| 0 <= k < prev.len() implies !(#[trigger] prev[k]).contains('\n') by {
            assert(prev[k] == lines[k]);
        }
        lemma_split_lines(prev);
        assert(lines[lines.len() - 1] == lines.last());
        lemma_split_on_single(lines.last(), '\n');
        lemma_split_on_concat(join(prev, seq!['\n']), '\n', lines.last());
        assert(prev.push(lines.last()) =~= lines);
    }
}

/// A line `n -> ...` of simple words holds no line break, is its own trim,
/// and is not skipped.
proof fn lemma_line_shape(n: char, words: Seq<Seq<char>>)
    requires
        is_upper(n),
        words.len() > 0,
        forall|i: int| 0 <= i < words.len() ==> simple_word(#[trigger] words[i]),
    ensures
        !line_text(n, words).contains('\n'),
        trim(line_text(n, words)) == line_text(n, words),
        !is_skipped(line_text(n, words)),
{
    let line = line_text(n, words);
    let j = join(words, bar());
    lemma_join_chars(words);
    assert forall|i: int| 0 <= i < words.len() implies (#[trigger] words[i]).len() > 0 by {
        assert(simple_word(words[i]));
    }
    lemma_join_ends(words, bar());
    if line.contains('\n') {
        let k = choose|k: int| 0 <= k < line.len() && line[k] == '\n';
        if k >= 5 {
            assert(line[k] == j[k - 5]);
        }
    }
    let lw = words[words.len() - 1];
    assert(simple_word(lw));
    assert(symbol_char(lw[lw.len() - 1]));
    assert(line.last() == j.last());
    crate::text::lemma_trim_none(line);
}

/// The lines of well-written rules read as their rules.
pub proof fn lemma_parse_lines(specs: Seq<(char, Seq<Seq<char>>)>)
    requires
        well_written(specs),
    ensures
        parse_lines(lines_of(specs)) == Ok::<Seq<RuleModel>, ErrorModel>(rules_of(specs)),
    decreases specs.len(),
{
    if specs.len() == 0 {
        assert(lines_of(specs) =~= Seq::<Seq<char>>::empty());
    } else {
        let prev = specs.drop_last();
        assert forall|k: int| 0 <= k < prev.len() implies is_upper((#[trigger] prev[k]).0)
            && prev[k].1.len() > 0 && forall|i: int|
            0 <= i < prev[k].1.len() ==> simple_word(#[trigger] prev[k].1[i]) by {
            assert(prev[k] == specs[k]);
        }
        lemma_parse_lines(prev);
        assert(lines_of(specs).drop_last() =~= lines_of(prev));
        let last = specs[specs.len() - 1];
        assert(lines_of(specs).last() == line_text(last.0, last.1));
        lemma_line_shape(last.0, last.1);
        lemma_parse_line(last.0, last.1);
    }
}

/// The text of well-written rules, one line each.
pub open spec fn text_of(specs: Seq<(char, Seq<Seq<char>>)>) -> Seq<char> {
    join(lines_of(specs), seq!['\n'])
}

/// Every symbol of the rules is one of their alternatives' symbols.
proof fn lemma_rules_symbols(rules: Seq<RuleModel>, sym: SymbolModel)
    requires
        rules_symbols(rules).contains(sym),
    ensures
        exists|k: int, a: int, j: int|
            0 <= k < rules.len() && 0 <= a < rules[k].1.len() && 0 <= j < rules[k].1[a].len()
                && #[trigger] rules[k].1[a][j] == sym,
    decreases rules.len(),
{
    let prev = rules.drop_last();
    let alts = rules.last().1;
    let ps = rules_symbols(prev);
    let asyms = alternatives_symbols(alts);
    let i = choose|i: int| 0 <= i < rules_symbols(rules).len() && rules_symbols(rules)[i] == sym;
    if i < ps.len() {
        assert(ps[i] == sym);
        lemma_rules_symbols(prev, sym);
        let (k, a, j) = choose|k: int, a: int, j: int|
            0 <= k < prev.len() && 0 <= a < prev[k].1.len() && 0 <= j < prev[k].1[a].len()
                && #[trigger] prev[k].1[a][j] == sym;
        assert(rules[k] == prev[k]);
    } else {
        assert(asyms[i - ps.len()] == sym);
        lemma_alternatives_symbols(alts, i - ps.len());
        let (a, j) = choose|a: int, j: int|
            0 <= a < alts.len() && 0 <= j < alts[a].len() && #[trigger] alts[a][j] == sym;
        assert(rules[rules.len() - 1].1[a][j] == sym);
    }
}

proof fn lemma_alternatives_symbols(alts: Seq<Seq<SymbolModel>>, i: int)
    requires
        0 <= i < alternatives_symbols(alts).len(),
    ensures
        exists|a: int, j: int|
            0 <= a < alts.len() && 0 <= j < alts[a].len() && #[trigger] alts[a][j]
                == alternatives_symbols(alts)[i],
    decreases alts.len(),
{
    let prev = alts.drop_last();
    let ps = alternatives_symbols(prev);
    if i < ps.len() {
        lemma_alternatives_symbols(prev, i);
        let (a, j) = choose|a: int, j: int|
            0 <= a < prev.len() && 0 <= j < prev[a].len() && #[trigger] prev[a][j] == ps[i];
        assert(alts[a] == prev[a]);
    } else {
        assert(alts[alts.len() - 1][i - ps.len()] == alternatives_symbols(alts)[i]);
    }
}

/// Symbols whose non-terminals all have rules have none undefined.
proof fn lemma_none_undefined(syms: Seq<SymbolModel>, rules: Seq<RuleModel>)
    requires
        forall|i: int|
            0 <= i < syms.len() && (#[trigger] syms[i]) is NonTerminal ==> key_index(
                rules,
                syms[i]->NonTerminal_0,
            ) >= 0,
    ensures
        first_undefined(syms, rules) is None,
    decreases syms.len(),
{
    if syms.len() > 0 {
        let prev = syms.drop_last();
        assert forall|i: int| 0 <= i < prev.len() && (#[trigger] prev[i]) is NonTerminal implies key_index(
            rules,
            prev[i]->NonTerminal_0,
        ) >= 0 by {
            assert(prev[i] == syms[i]);
        }
        lemma_none_undefined(prev, rules);
        assert(syms[syms.len() - 1] == syms.last());
    }
}

/// The text of well-written rules, every non-terminal of which has a rule,
/// is a grammar.
pub proof fn lemma_text_is_grammar(specs: Seq<(char, Seq<Seq<char>>)>)
    requires
        specs.len() > 0,
        well_written(specs),
        forall|k: int, a: int, j: int|
            0 <= k < rules_of(specs).len() && 0 <= a < rules_of(specs)[k].1.len() && 0 <= j
                < rules_of(specs)[k].1[a].len() && (#[trigger] rules_of(specs)[k].1[a][j])
                is NonTerminal ==> key_index(
                rules_of(specs),
                rules_of(specs)[k].1[a][j]->NonTerminal_0,
            ) >= 0,
    ensures
        grammar_of_text(text_of(specs)) is Ok,
        grammar_of_text(text_of(specs))->Ok_0.productions == rules_of(specs),
{
    let lines = lines_of(specs);
    assert forall|k: int| 0 <= k < lines.len() implies !(#[trigger] lines[k]).contains('\n') by {
        assert(specs[k].1.len() > 0);
        lemma_line_shape(specs[k].0, specs[k].1);
    }
    lemma_split_lines(lines);
    lemma_parse_lines(specs);
    let rules = rules_of(specs);
    let syms = rules_symbols(rules);
    assert forall|i: int| 0 <= i < syms.len() && (#[trigger] syms[i]) is NonTerminal implies key_index(
        rules,
        syms[i]->NonTerminal_0,
    ) >= 0 by {
        assert(syms.contains(syms[i]));
        lemma_rules_symbols(rules, syms[i]);
    }
    lemma_none_undefined(syms, rules);
    lemma_rules_nonempty(specs);
}

proof fn lemma_rules_nonempty(specs: Seq<(char, Seq<Seq<char>>)>)
    requires
        specs.len() > 0,
    ensures
        rules_of(specs).len() > 0,
    decreases specs.len(),
{
    if specs.len() > 1 {
        lemma_rules_nonempty(specs.drop_last());
    }
    let prev = rules_of(specs.drop_last());
    lemma_key_index(prev, seq![specs.last().0]);
    if key_index(prev, seq![specs.last().0]) >= 0 {
        assert(prev.len() > 0);
    }
}

/// With distinct heads, each line adds its own rule.
pub proof fn lemma_rules_of_distinct(specs: Seq<(char, Seq<Seq<char>>)>)
    requires
        forall|a: int, b: int| 0 <= a < b < specs.len() ==> specs[a].0 != specs[b].0,
    ensures
        rules_of(specs).len() == specs.len(),
        forall|k: int|
            0 <= k < specs.len() ==> #[trigger] rules_of(specs)[k] == (
                seq![specs[k].0],
                alternatives_of_words(specs[k].1),
            ),
    decreases specs.len(),
{
    if specs.len() > 0 {
        let prev = specs.drop_last();
        assert forall|a: int, b: int| 0 <= a < b < prev.len() implies prev[a].0 != prev[b].0 by {
            assert(prev[a] == specs[a] && prev[b] == specs[b]);
        }
        lemma_rules_of_distinct(prev);
        let pr = rules_of(prev);
        let h = seq![specs.last().0];
        lemma_key_index(pr, h);
        if key_index(pr, h) >= 0 {
            let k = key_index(pr, h);
            assert(pr[k].0 == seq![prev[k].0]);
            assert(pr[k].0[0] == prev[k].0);
            assert(h[0] == specs.last().0);
            assert(prev[k] == specs[k]);
            assert(specs[k].0 != specs[specs.len() - 1].0);
        }
        assert forall|k: int| 0 <= k < specs.len() implies #[trigger] rules_of(specs)[k] == (
            seq![specs[k].0],
            alternatives_of_words(specs[k].1),
        ) by {
            if k < prev.len() {
                assert(prev[k] == specs[k]);
            }
        }
    }
}

/// The key of a head's name is found among rules with distinct heads.
pub proof fn lemma_head_defined(specs: Seq<(char, Seq<Seq<char>>)>, m: int)
    requires
        forall|a: int, b: int| 0 <= a < b < specs.len() ==> specs[a].0 != specs[b].0,
        0 <= m < specs.len(),
    ensures
        key_index(rules_of(specs), seq![specs[m].0]) >= 0,
{
    lemma_rules_of_distinct(specs);
    let rules = rules_of(specs);
    lemma_key_index(rules, seq![specs[m].0]);
    assert(rules[m].0 == seq![specs[m].0]);
}

/// Every upper-case letter in the words of `specs` heads a line.
pub open spec fn names_defined(specs: Seq<(char, Seq<Seq<char>>)>) -> bool {
    forall|k: int, a: int, j: int|
        0 <= k < specs.len() && 0 <= a < specs[k].1.len() && 0 <= j < specs[k].1[a].len()
            && is_upper(#[trigger] specs[k].1[a][j]) ==> exists|m: int|
            0 <= m < specs.len() && #[trigger] specs[m].0 == specs[k].1[a][j]
}

/// Well-written lines with distinct heads, whose upper-case letters all
/// head a line, form a grammar whose rules are the lines'.
pub proof fn lemma_lines_grammar(specs: Seq<(char, Seq<Seq<char>>)>)
    requires
        specs.len() > 0,
        well_written(specs),
        forall|a: int, b: int| 0 <= a < b < specs.len() ==> specs[a].0 != specs[b].0,
        names_defined(specs),
    ensures
        grammar_of_text(text_of(specs)) is Ok,
        grammar_of_text(text_of(specs))->Ok_0.productions == rules_of(specs),
{
    lemma_rules_of_distinct(specs);
    let rules = rules_of(specs);
    assert forall|k: int, a: int, j: int|
        0 <= k < rules.len() && 0 <= a < rules[k].1.len() && 0 <= j < rules[k].1[a].len() && (
        #[trigger] rules[k].1[a][j]) is NonTerminal implies key_index(
        rules,
        rules[k].1[a][j]->NonTerminal_0,
    ) >= 0 by {
        assert(rules[k] == (seq![specs[k].0], alternatives_of_words(specs[k].1)));
        let w = specs[k].1[a];
        assert(rules[k].1[a] == symbols_of(w));
        let c = w[j];
        assert(rules[k].1[a][j] == symbol_of(c));
        assert(is_upper(specs[k].1[a][j]));
        let m = choose|m: int| 0 <= m < specs.len() && #[trigger] specs[m].0 == specs[k].1[a][j];
        lemma_head_defined(specs, m);
    }
    lemma_text_is_grammar(specs);
}

/// A word of terminals, then at most one non-terminal at its end after one
/// terminal at least.
pub open spec fn right_word(w: Seq<char>) -> bool {
    &&& simple_word(w)
    &&& forall|j: int| 0 <= j < w.len() - 1 ==> !is_upper(#[trigger] w[j])
    &&& is_upper(w.last()) ==> w.len() >= 2
}

proof fn lemma_right_word(w: Seq<char>)
    requires
        right_word(w),
    ensures
        right_regular(symbols_of(w)),
{
    let syms = symbols_of(w);
    let prev = syms.drop_last();
    assert forall|j: int| 0 <= j < prev.len() implies (#[trigger] prev[j]) is Terminal by {
        assert(prev[j] == symbol_of(w[j]));
        assert(!is_upper(w[j]));
    }
    lemma_terminals_only(prev);
    assert(syms.last() == symbol_of(w[w.len() - 1]));
    if !is_upper(w.last()) {
        assert forall|j: int| 0 <= j < syms.len() implies (#[trigger] syms[j]) is Terminal by {
            if j < prev.len() {
                assert(syms[j] == prev[j]);
            }
        }
        lemma_terminals_only(syms);
    }
}

/// Lines of right words, with distinct heads, form a regular grammar.
pub proof fn lemma_lines_regular(specs: Seq<(char, Seq<Seq<char>>)>, g: GrammarModel)
    requires
        forall|a: int, b: int| 0 <= a < b < specs.len() ==> specs[a].0 != specs[b].0,
        forall|k: int, a: int|
            0 <= k < specs.len() && 0 <= a < specs[k].1.len() ==> right_word(
                #[trigger] specs[k].1[a],
            ),
        g.productions == rules_of(specs),
    ensures
        regularity(g) is Ok,
{
    lemma_rules_of_distinct(specs);
    assert forall|k: int, a: int|
        0 <= k < g.productions.len() && 0 <= a < g.productions[k].1.len() implies right_regular(
        #[trigger] g.productions[k].1[a],
    ) by {
        assert(g.productions[k] == (seq![specs[k].0], alternatives_of_words(specs[k].1)));
        assert(g.productions[k].1[a] == symbols_of(specs[k].1[a]));
        lemma_right_word(specs[k].1[a]);
    }
    lemma_checked_pairs_right(g, g.non_terminals);
    lemma_check_pairs_right(checked_pairs(g, g.non_terminals));
}

} // verus!
