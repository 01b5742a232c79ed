//! Grammars `G = {N, T, P, S}`: their text format, their model, and the
//! check that a grammar is regular.

use vstd::prelude::*;

use crate::symbol::{ErrorModel, GrammarError, Symbol, SymbolModel, symbol_text, string_from};
use crate::text::{
    char_is_digit, char_is_lower, char_is_upper, char_to_string, chars_of, find, find_chars,
    is_digit, is_lower, is_upper, push_all, split_chars, split_on, string_of, sub_chars, trim,
    trim_chars, join, join_strings,
};

verus! {

/// The alternatives of one non-terminal, in the order they were written.
#[derive(Debug, Clone)]
pub struct Rule {
    pub non_terminal: String,
    pub alternatives: Vec<Vec<Symbol>>,
}

#[derive(Debug, Clone)]
pub struct Grammar {
    pub non_terminals: Vec<String>,
    pub terminals: Vec<char>,
    pub productions: Vec<Rule>,
    pub start: String,
}

/// A rule as a mathematical value: the non-terminal's name and its
/// alternatives.
pub type RuleModel = (Seq<char>, Seq<Seq<SymbolModel>>);

/// A grammar as a mathematical value.
pub struct GrammarModel {
    pub non_terminals: Seq<Seq<char>>,
    pub terminals: Seq<char>,
    pub productions: Seq<RuleModel>,
    pub start: Seq<char>,
}

impl DeepView for Rule {
    type V = RuleModel;

    open spec fn deep_view(&self) -> RuleModel {
        (self.non_terminal@, self.alternatives.deep_view())
    }
}

impl DeepView for Grammar {
    type V = GrammarModel;

    open spec fn deep_view(&self) -> GrammarModel {
        GrammarModel {
            non_terminals: self.non_terminals.deep_view(),
            terminals: self.terminals@,
            productions: self.productions.deep_view(),
            start: self.start@,
        }
    }
}

// ---------------------------------------------------------------------------
// Association lists keyed by names.

/// The index of the first entry of `entries` whose key is `key`, or -1.
pub open spec fn key_index<V>(entries: Seq<(Seq<char>, V)>, key: Seq<char>) -> int
    decreases entries.len(),
{
    if entries.len() == 0 {
        -1
    } else {
        let p = key_index(entries.drop_last(), key);
        if p >= 0 {
            p
        } else if entries.last().0 == key {
            entries.len() - 1
        } else {
            -1
        }
    }
}

/// The value of the first entry of `entries` whose key is `key`.
pub open spec fn lookup<V>(entries: Seq<(Seq<char>, V)>, key: Seq<char>) -> Option<V> {
    let i = key_index(entries, key);
    if i >= 0 {
        Some(entries[i].1)
    } else {
        None
    }
}

/// The keys of `entries`, in order.
pub open spec fn keys<V>(entries: Seq<(Seq<char>, V)>) -> Seq<Seq<char>> {
    entries.map_values(|e: (Seq<char>, V)| e.0)
}

pub proof fn lemma_key_index<V>(entries: Seq<(Seq<char>, V)>, key: Seq<char>)
    ensures
        -1 <= key_index(entries, key) < entries.len(),
        key_index(entries, key) >= 0 ==> entries[key_index(entries, key)].0 == key,
        forall|j: int|
            0 <= j < entries.len() && (key_index(entries, key) < 0 || j < key_index(entries, key))
                ==> entries[j].0 != key,
    decreases entries.len(),
{
    if entries.len() > 0 {
        let prev = entries.drop_last();
        lemma_key_index(prev, key);
        assert forall|j: int| 0 <= j < prev.len() implies entries[j] == prev[j] by {}
    }
}

/// The alternatives of `nt` in `g`.
pub open spec fn alternatives_of(g: GrammarModel, nt: Seq<char>) -> Option<Seq<Seq<SymbolModel>>> {
    lookup(g.productions, nt)
}

// ---------------------------------------------------------------------------
// The text format.

/// How an alternative is written: `&` for the empty word, else its symbols.
pub open spec fn alternative_text(alt: Seq<SymbolModel>) -> Seq<char> {
    if alt.len() == 0 {
        seq!['&']
    } else {
        symbols_text(alt)
    }
}

/// The symbols of `alt`, written one after the other.
pub open spec fn symbols_text(alt: Seq<SymbolModel>) -> Seq<char>
    decreases alt.len(),
{
    if alt.len() == 0 {
        Seq::empty()
    } else {
        symbols_text(alt.drop_last()) + symbol_text(alt.last())
    }
}

pub open spec fn invalid_symbol_message(c: char, alt: Seq<char>) -> Seq<char> {
    "símbolo inválido '"@ + seq![c] + "' em '"@ + alt
        + "' (use a-z ou 0-9 para terminais e A-Z para não-terminais)"@
}

pub open spec fn missing_separator_message(line: Seq<char>) -> Seq<char> {
    "linha sem separador '->' ou '::=': '"@ + line + "'"@
}

pub open spec fn invalid_lhs_message(lhs: Seq<char>) -> Seq<char> {
    "lado esquerdo inválido: '"@ + lhs + "' (use uma única letra maiúscula)"@
}

/// The symbols of `s`, a prefix of the alternative `whole`: a lower-case
/// letter or a digit is a terminal, an upper-case letter a non-terminal, and
/// the first other character is an error.
pub open spec fn parse_symbols(s: Seq<char>, whole: Seq<char>) -> Result<
    Seq<SymbolModel>,
    ErrorModel,
>
    decreases s.len(),
{
    if s.len() == 0 {
        Ok(Seq::empty())
    } else {
        match parse_symbols(s.drop_last(), whole) {
            Err(e) => Err(e),
            Ok(v) => {
                let c = s.last();
                if is_lower(c) || is_digit(c) {
                    Ok(v.push(SymbolModel::Terminal(c)))
                } else if is_upper(c) {
                    Ok(v.push(SymbolModel::NonTerminal(seq![c])))
                } else {
                    Err(ErrorModel::ParseError(invalid_symbol_message(c, whole)))
                }
            },
        }
    }
}

/// Whether `alt` denotes the empty word: `&`, `ε` or nothing.
pub open spec fn is_empty_word(alt: Seq<char>) -> bool {
    alt == seq!['&'] || alt == seq!['ε'] || alt.len() == 0
}

/// One alternative, already trimmed.
pub open spec fn parsed_alternative(alt: Seq<char>) -> Result<Seq<SymbolModel>, ErrorModel> {
    if is_empty_word(alt) {
        Ok(Seq::empty())
    } else {
        parse_symbols(alt, alt)
    }
}

/// The alternatives written between `|`, each trimmed, left to right.
pub open spec fn parse_alternatives(pieces: Seq<Seq<char>>) -> Result<
    Seq<Seq<SymbolModel>>,
    ErrorModel,
>
    decreases pieces.len(),
{
    if pieces.len() == 0 {
        Ok(Seq::empty())
    } else {
        match parse_alternatives(pieces.drop_last()) {
            Err(e) => Err(e),
            Ok(v) => match parsed_alternative(trim(pieces.last())) {
                Err(e) => Err(e),
                Ok(a) => Ok(v.push(a)),
            },
        }
    }
}

pub open spec fn assign_bnf() -> Seq<char> {
    seq![':', ':', '=']
}

pub open spec fn arrow() -> Seq<char> {
    seq!['-', '>']
}

/// The two sides of a production line, split at the first `::=`, or else at
/// the first `->`, each trimmed.
pub open spec fn split_line(line: Seq<char>) -> Result<(Seq<char>, Seq<char>), ErrorModel> {
    match find(line, assign_bnf()) {
        Some(i) => Ok((trim(line.take(i)), trim(line.skip(i + 3)))),
        None => match find(line, arrow()) {
            Some(i) => Ok((trim(line.take(i)), trim(line.skip(i + 2)))),
            None => Err(ErrorModel::ParseError(missing_separator_message(line))),
        },
    }
}

/// A non-terminal's name is a single ASCII upper-case letter.
pub open spec fn is_valid_name(name: Seq<char>) -> bool {
    name.len() == 1 && is_upper(name[0])
}

/// One production line: its left side and its alternatives.
pub open spec fn parse_line(line: Seq<char>) -> Result<RuleModel, ErrorModel> {
    match split_line(line) {
        Err(e) => Err(e),
        Ok((lhs, rhs)) => if !is_valid_name(lhs) {
            Err(ErrorModel::ParseError(invalid_lhs_message(lhs)))
        } else {
            match parse_alternatives(split_on(rhs, '|')) {
                Err(e) => Err(e),
                Ok(alts) => Ok((lhs, alts)),
            }
        },
    }
}

/// A line that holds nothing, or a comment.
pub open spec fn is_skipped(line: Seq<char>) -> bool {
    line.len() == 0 || line[0] == '#'
}

/// Adds the alternatives `alts` of `lhs`: after the ones already there, or
/// as a new rule at the end.
pub open spec fn add_rule(rules: Seq<RuleModel>, lhs: Seq<char>, alts: Seq<Seq<SymbolModel>>) -> Seq<
    RuleModel,
> {
    let i = key_index(rules, lhs);
    if i >= 0 {
        rules.update(i, (lhs, rules[i].1 + alts))
    } else {
        rules.push((lhs, alts))
    }
}

/// The rules that the lines give, read top to bottom.
pub open spec fn parse_lines(lines: Seq<Seq<char>>) -> Result<Seq<RuleModel>, ErrorModel>
    decreases lines.len(),
{
    if lines.len() == 0 {
        Ok(Seq::empty())
    } else {
        match parse_lines(lines.drop_last()) {
            Err(e) => Err(e),
            Ok(rules) => {
                let line = trim(lines.last());
                if is_skipped(line) {
                    Ok(rules)
                } else {
                    match parse_line(line) {
                        Err(e) => Err(e),
                        Ok(r) => Ok(add_rule(rules, r.0, r.1)),
                    }
                }
            },
        }
    }
}

/// The symbols of `alts`, one alternative after the other.
pub open spec fn alternatives_symbols(alts: Seq<Seq<SymbolModel>>) -> Seq<SymbolModel>
    decreases alts.len(),
{
    if alts.len() == 0 {
        Seq::empty()
    } else {
        alternatives_symbols(alts.drop_last()) + alts.last()
    }
}

/// Every symbol of every rule, in the order the rules hold them.
pub open spec fn rules_symbols(rules: Seq<RuleModel>) -> Seq<SymbolModel>
    decreases rules.len(),
{
    if rules.len() == 0 {
        Seq::empty()
    } else {
        rules_symbols(rules.drop_last()) + alternatives_symbols(rules.last().1)
    }
}

/// The first non-terminal among `syms` that no rule defines.
pub open spec fn first_undefined(syms: Seq<SymbolModel>, rules: Seq<RuleModel>) -> Option<
    Seq<char>,
>
    decreases syms.len(),
{
    if syms.len() == 0 {
        None
    } else {
        match first_undefined(syms.drop_last(), rules) {
            Some(n) => Some(n),
            None => match syms.last() {
                SymbolModel::NonTerminal(n) => if key_index(rules, n) < 0 {
                    Some(n)
                } else {
                    None
                },
                SymbolModel::Terminal(_) => None,
            },
        }
    }
}

/// Strictly increasing characters.
pub open spec fn strictly_sorted(s: Seq<char>) -> bool {
    forall|i: int, j: int| 0 <= i < j < s.len() ==> s[i] < s[j]
}

/// The terminals that occur in `rules`, in increasing order.
pub open spec fn sorted_terminals(rules: Seq<RuleModel>) -> Seq<char> {
    choose|q: Seq<char>|
        strictly_sorted(q) && forall|c: char|
            q.contains(c) <==> rules_symbols(rules).contains(SymbolModel::Terminal(c))
}

/// Where `c` goes in the strictly increasing `s`, which lacks it.
proof fn lemma_insertion_point(s: Seq<char>, c: char) -> (p: int)
    requires
        strictly_sorted(s),
        !s.contains(c),
    ensures
        0 <= p <= s.len(),
        forall|j: int| 0 <= j < p ==> s[j] < c,
        p < s.len() ==> c < s[p],
    decreases s.len(),
{
    if s.len() == 0 {
        0
    } else {
        let prev = s.drop_last();
        assert forall|j: int| 0 <= j < prev.len() implies s[j] == prev[j] by {}
        assert(strictly_sorted(prev));
        assert(!prev.contains(c)) by {
            if prev.contains(c) {
                let i = choose|i: int| 0 <= i < prev.len() && prev[i] == c;
                assert(s[i] == c);
            }
        }
        let q = lemma_insertion_point(prev, c);
        if q < prev.len() {
            assert(s[q] == prev[q]);
            q
        } else if s.last() < c {
            s.len() as int
        } else {
            assert(s[s.len() - 1] != c);
            prev.len() as int
        }
    }
}

/// A strictly increasing sequence of the terminals among `syms` exists.
proof fn lemma_sorted_exists(syms: Seq<SymbolModel>) -> (q: Seq<char>)
    ensures
        strictly_sorted(q),
        forall|c: char| q.contains(c) <==> syms.contains(SymbolModel::Terminal(c)),
    decreases syms.len(),
{
    if syms.len() == 0 {
        Seq::empty()
    } else {
        let prev = syms.drop_last();
        let q = lemma_sorted_exists(prev);
        assert forall|x: SymbolModel| syms.contains(x) <==> (prev.contains(x) || x == syms.last()) by {
            if syms.contains(x) {
                let i = choose|i: int| 0 <= i < syms.len() && syms[i] == x;
                if i < prev.len() {
                    assert(prev[i] == x);
                }
            }
            if prev.contains(x) {
                let i = choose|i: int| 0 <= i < prev.len() && prev[i] == x;
                assert(syms[i] == x);
            }
            if x == syms.last() {
                assert(syms[syms.len() - 1] == x);
            }
        }
        match syms.last() {
            SymbolModel::Terminal(c) => {
                if q.contains(c) {
                    assert forall|d: char| q.contains(d) <==> syms.contains(SymbolModel::Terminal(d)) by {
                        assert(syms.contains(SymbolModel::Terminal(d)) <==> (prev.contains(
                            SymbolModel::Terminal(d),
                        ) || SymbolModel::Terminal(d) == syms.last()));
                    }
                    q
                } else {
                    let p = lemma_insertion_point(q, c);
                    lemma_insert_sorted(q, p, c);
                    let r = q.insert(p, c);
                    assert forall|d: char| r.contains(d) <==> syms.contains(SymbolModel::Terminal(d)) by {
                        assert(r.contains(d) <==> (q.contains(d) || d == c));
                        assert(q.contains(d) <==> prev.contains(SymbolModel::Terminal(d)));
                        assert((SymbolModel::Terminal(d) == SymbolModel::Terminal(c)) == (d == c));
                        assert(syms.contains(SymbolModel::Terminal(d)) <==> (prev.contains(
                            SymbolModel::Terminal(d),
                        ) || SymbolModel::Terminal(d) == syms.last()));
                    }
                    r
                }
            },
            SymbolModel::NonTerminal(_) => {
                assert forall|d: char| q.contains(d) <==> syms.contains(SymbolModel::Terminal(d)) by {
                    assert(syms.contains(SymbolModel::Terminal(d)) <==> (prev.contains(
                        SymbolModel::Terminal(d),
                    ) || SymbolModel::Terminal(d) == syms.last()));
                }
                q
            },
        }
    }
}

/// `sorted_terminals` is strictly increasing and holds exactly the
/// terminals that occur in the rules.
pub proof fn lemma_sorted_terminals(rules: Seq<RuleModel>)
    ensures
        strictly_sorted(sorted_terminals(rules)),
        forall|c: char|
            sorted_terminals(rules).contains(c) <==> rules_symbols(rules).contains(
                SymbolModel::Terminal(c),
            ),
{
    let q = lemma_sorted_exists(rules_symbols(rules));
    assert(strictly_sorted(q) && forall|c: char|
        q.contains(c) <==> rules_symbols(rules).contains(SymbolModel::Terminal(c)));
}

/// What the text of a grammar denotes. `N` lists the left sides in order of
/// first appearance, `S` is the first of them, the alternatives of a
/// non-terminal that is written on several lines are merged in line order,
/// and `T` holds the terminals that occur, sorted. A non-terminal that is
/// used but never defined is an error.
pub open spec fn grammar_of_text(text: Seq<char>) -> Result<GrammarModel, ErrorModel> {
    match parse_lines(split_on(text, '\n')) {
        Err(e) => Err(e),
        Ok(rules) => if rules.len() == 0 {
            Err(ErrorModel::EmptyGrammar)
        } else {
            match first_undefined(rules_symbols(rules), rules) {
                Some(n) => Err(ErrorModel::UndefinedNonTerminal(n)),
                None => Ok(
                    GrammarModel {
                        non_terminals: keys(rules),
                        terminals: sorted_terminals(rules),
                        productions: rules,
                        start: rules[0].0,
                    },
                ),
            }
        },
    }
}

/// A parse result as a mathematical value.
pub open spec fn parse_result_model(r: Result<Grammar, GrammarError>) -> Result<
    GrammarModel,
    ErrorModel,
> {
    match r {
        Ok(g) => Ok(g.deep_view()),
        Err(e) => Err(e.deep_view()),
    }
}

} // verus!

verus! {

// ---------------------------------------------------------------------------
// Copies.

/// An exact copy of an alternative.
pub fn copy_alternative(alt: &Vec<Symbol>) -> (r: Vec<Symbol>)
    ensures
        r@ == alt@,
{
    let mut out: Vec<Symbol> = Vec::new();
    let n = alt.len();
    let mut i: usize = 0;
    while i < n
        invariant
            i <= n,
            n == alt@.len(),
            out@ == alt@.take(i as int),
        decreases n - i,
    {
        out.push(alt[i].duplicate());
        assert(alt@.take(i + 1) =~= alt@.take(i as int).push(alt@[i as int]));
        i = i + 1;
    }
    assert(alt@.take(n as int) =~= alt@);
    out
}

/// An exact copy of a list of alternatives.
pub fn copy_alternatives(alts: &Vec<Vec<Symbol>>) -> (r: Vec<Vec<Symbol>>)
    ensures
        r.deep_view() == alts.deep_view(),
{
    let mut out: Vec<Vec<Symbol>> = Vec::new();
    let n = alts.len();
    let mut i: usize = 0;
    while i < n
        invariant
            i <= n,
            n == alts@.len(),
            out.deep_view() == alts.deep_view().take(i as int),
        decreases n - i,
    {
        let ghost before = out.deep_view();
        out.push(copy_alternative(&alts[i]));
        assert(out.deep_view() =~= before.push(alts@[i as int].deep_view()));
        assert(alts.deep_view().take(i + 1) =~= alts.deep_view().take(i as int).push(
            alts.deep_view()[i as int],
        ));
        i = i + 1;
    }
    assert(alts.deep_view().take(n as int) =~= alts.deep_view());
    out
}

// ---------------------------------------------------------------------------
// Parsing, step by step.

proof fn lemma_parse_symbols_err(s: Seq<char>, whole: Seq<char>, i: int)
    requires
        0 <= i <= s.len(),
        parse_symbols(s.take(i), whole) is Err,
    ensures
        parse_symbols(s, whole) == parse_symbols(s.take(i), whole),
    decreases s.len(),
{
    if i == s.len() {
        assert(s.take(i) =~= s);
    } else {
        assert(s.drop_last().take(i) =~= s.take(i));
        lemma_parse_symbols_err(s.drop_last(), whole, i);
    }
}

proof fn lemma_parse_alternatives_err(p: Seq<Seq<char>>, i: int)
    requires
        0 <= i <= p.len(),
        parse_alternatives(p.take(i)) is Err,
    ensures
        parse_alternatives(p) == parse_alternatives(p.take(i)),
    decreases p.len(),
{
    if i == p.len() {
        assert(p.take(i) =~= p);
    } else {
        assert(p.drop_last().take(i) =~= p.take(i));
        lemma_parse_alternatives_err(p.drop_last(), i);
    }
}

proof fn lemma_parse_lines_err(p: Seq<Seq<char>>, i: int)
    requires
        0 <= i <= p.len(),
        parse_lines(p.take(i)) is Err,
    ensures
        parse_lines(p) == parse_lines(p.take(i)),
    decreases p.len(),
{
    if i == p.len() {
        assert(p.take(i) =~= p);
    } else {
        assert(p.drop_last().take(i) =~= p.take(i));
        lemma_parse_lines_err(p.drop_last(), i);
    }
}

/// Parses one trimmed alternative.
pub fn parse_alternative(alt: &Vec<char>) -> (r: Result<Vec<Symbol>, GrammarError>)
    ensures
        match r {
            Ok(v) => parsed_alternative(alt@) == Ok::<Seq<SymbolModel>, ErrorModel>(v.deep_view()),
            Err(e) => parsed_alternative(alt@) == Err::<Seq<SymbolModel>, ErrorModel>(
                e.deep_view(),
            ),
        },
{
    let n = alt.len();
    if n == 0 || (n == 1 && (alt[0] == '&' || alt[0] == 'ε')) {
        proof {
            if n == 1 {
                if alt@[0] == '&' {
                    assert(alt@ =~= seq!['&']);
                } else {
                    assert(alt@ =~= seq!['ε']);
                }
            }
        }
        let v: Vec<Symbol> = Vec::new();
        assert(v.deep_view() =~= Seq::<SymbolModel>::empty());
        return Ok(v);
    }
    assert(!is_empty_word(alt@)) by {
        if alt@ == seq!['&'] {
            assert(alt@[0] == '&');
        }
        if alt@ == seq!['ε'] {
            assert(alt@[0] == 'ε');
        }
    }
    let mut syms: Vec<Symbol> = Vec::new();
    let mut i: usize = 0;
    assert(alt@.take(0) =~= Seq::<char>::empty());
    assert(syms.deep_view() =~= Seq::<SymbolModel>::empty());
    while i < n
        invariant
            i <= n,
            n == alt@.len(),
            !is_empty_word(alt@),
            parse_symbols(alt@.take(i as int), alt@) == Ok::<Seq<SymbolModel>, ErrorModel>(
                syms.deep_view(),
            ),
        decreases n - i,
    {
        let c = alt[i];
        let ghost before = syms.deep_view();
        assert(alt@.take(i + 1).drop_last() =~= alt@.take(i as int));
        if char_is_lower(c) || char_is_digit(c) {
            syms.push(Symbol::Terminal(c));
            assert(syms.deep_view() =~= before.push(SymbolModel::Terminal(c)));
        } else if char_is_upper(c) {
            let name = char_to_string(c);
            syms.push(Symbol::NonTerminal(name));
            assert(syms.deep_view() =~= before.push(SymbolModel::NonTerminal(seq![c])));
        } else {
            let mut msg = string_from("símbolo inválido '");
            msg.push(c);
            msg.append("' em '");
            push_all(&mut msg, alt);
            msg.append("' (use a-z ou 0-9 para terminais e A-Z para não-terminais)");
            assert(msg@ =~= invalid_symbol_message(c, alt@));
            assert(alt@.take(i + 1).last() == c);
            assert(parse_symbols(alt@.take(i + 1), alt@) == Err::<Seq<SymbolModel>, ErrorModel>(
                ErrorModel::ParseError(invalid_symbol_message(c, alt@)),
            ));
            proof {
                lemma_parse_symbols_err(alt@, alt@, i + 1);
            }
            return Err(GrammarError::ParseError(msg));
        }
        i = i + 1;
    }
    assert(alt@.take(n as int) =~= alt@);
    Ok(syms)
}

/// Parses the alternatives written between `|`.
fn parse_alternatives_chars(pieces: &Vec<Vec<char>>) -> (r: Result<
    Vec<Vec<Symbol>>,
    GrammarError,
>)
    ensures
        match r {
            Ok(v) => parse_alternatives(pieces.deep_view()) == Ok::<
                Seq<Seq<SymbolModel>>,
                ErrorModel,
            >(v.deep_view()),
            Err(e) => parse_alternatives(pieces.deep_view()) == Err::<
                Seq<Seq<SymbolModel>>,
                ErrorModel,
            >(e.deep_view()),
        },
{
    let n = pieces.len();
    let ghost p = pieces.deep_view();
    let mut alts: Vec<Vec<Symbol>> = Vec::new();
    let mut i: usize = 0;
    assert(p.take(0) =~= Seq::<Seq<char>>::empty());
    assert(alts.deep_view() =~= Seq::<Seq<SymbolModel>>::empty());
    while i < n
        invariant
            i <= n,
            n == p.len(),
            p == pieces.deep_view(),
            parse_alternatives(p.take(i as int)) == Ok::<Seq<Seq<SymbolModel>>, ErrorModel>(
                alts.deep_view(),
            ),
        decreases n - i,
    {
        assert(p.take(i + 1).drop_last() =~= p.take(i as int));
        assert(p.take(i + 1).last() == p[i as int]);
        assert(pieces@[i as int].deep_view() =~= pieces@[i as int]@);
        let piece = trim_chars(&pieces[i]);
        match parse_alternative(&piece) {
            Ok(a) => {
                let ghost before = alts.deep_view();
                alts.push(a);
                assert(alts.deep_view() =~= before.push(a.deep_view()));
            },
            Err(e) => {
                proof {
                    lemma_parse_alternatives_err(p, i + 1);
                }
                return Err(e);
            },
        }
        i = i + 1;
    }
    assert(p.take(n as int) =~= p);
    Ok(alts)
}

/// The two trimmed sides of a production line.
pub fn split_production_line(line: &Vec<char>) -> (r: Result<(Vec<char>, Vec<char>), GrammarError>)
    ensures
        match r {
            Ok((lhs, rhs)) => split_line(line@) == Ok::<(Seq<char>, Seq<char>), ErrorModel>(
                (lhs@, rhs@),
            ),
            Err(e) => split_line(line@) == Err::<(Seq<char>, Seq<char>), ErrorModel>(
                e.deep_view(),
            ),
        },
{
    let bnf = vec![':', ':', '='];
    assert(bnf@ =~= assign_bnf());
    let n = line.len();
    match find_chars(line, &bnf) {
        Some(i) => {
            proof {
                crate::text::lemma_find_from_result(line@, bnf@, 0);
            }
            let l = sub_chars(line, 0, i);
            let r = sub_chars(line, i + 3, n);
            assert(l@ =~= line@.take(i as int));
            assert(r@ =~= line@.skip(i + 3));
            Ok((trim_chars(&l), trim_chars(&r)))
        },
        None => {
            let arr = vec!['-', '>'];
            assert(arr@ =~= arrow());
            match find_chars(line, &arr) {
                Some(i) => {
                    proof {
                        crate::text::lemma_find_from_result(line@, arr@, 0);
                    }
                    let l = sub_chars(line, 0, i);
                    let r = sub_chars(line, i + 2, n);
                    assert(l@ =~= line@.take(i as int));
                    assert(r@ =~= line@.skip(i + 2));
                    Ok((trim_chars(&l), trim_chars(&r)))
                },
                None => {
                    let mut msg = string_from("linha sem separador '->' ou '::=': '");
                    push_all(&mut msg, line);
                    msg.append("'");
                    Err(GrammarError::ParseError(msg))
                },
            }
        },
    }
}

/// Whether `name` is a single ASCII upper-case letter.
pub fn is_valid_non_terminal_name(name: &Vec<char>) -> (r: bool)
    ensures
        r == is_valid_name(name@),
{
    name.len() == 1 && char_is_upper(name[0])
}

/// One production line.
fn parse_line_chars(line: &Vec<char>) -> (r: Result<(String, Vec<Vec<Symbol>>), GrammarError>)
    ensures
        match r {
            Ok((lhs, alts)) => parse_line(line@) == Ok::<RuleModel, ErrorModel>(
                (lhs@, alts.deep_view()),
            ),
            Err(e) => parse_line(line@) == Err::<RuleModel, ErrorModel>(e.deep_view()),
        },
{
    let (lhs, rhs) = match split_production_line(line) {
        Ok(sides) => sides,
        Err(e) => {
            return Err(e);
        },
    };
    if !is_valid_non_terminal_name(&lhs) {
        let mut msg = string_from("lado esquerdo inválido: '");
        push_all(&mut msg, &lhs);
        msg.append("' (use uma única letra maiúscula)");
        return Err(GrammarError::ParseError(msg));
    }
    let pieces = split_chars(&rhs, '|');
    let alts = match parse_alternatives_chars(&pieces) {
        Ok(a) => a,
        Err(e) => {
            return Err(e);
        },
    };
    let name = string_of(&lhs, 0, lhs.len());
    assert(lhs@.subrange(0, lhs@.len() as int) =~= lhs@);
    Ok((name, alts))
}

/// Adds the alternatives of `lhs` to `rules`.
fn add_rule_exec(rules: &mut Vec<Rule>, lhs: String, alts: Vec<Vec<Symbol>>)
    ensures
        final(rules).deep_view() == add_rule(old(rules).deep_view(), lhs@, alts.deep_view()),
{
    let ghost model = rules.deep_view();
    proof {
        lemma_key_index(model, lhs@);
    }
    let n = rules.len();
    let mut k: usize = 0;
    while k < n
        invariant
            k <= n,
            n == rules@.len(),
            model == rules.deep_view(),
            model == old(rules).deep_view(),
            forall|j: int| 0 <= j < k ==> model[j].0 != lhs@,
        decreases n - k,
    {
        assert(model[k as int] == rules@[k as int].deep_view());
        if rules[k].non_terminal == lhs {
            proof {
                lemma_key_index(model, lhs@);
            }
            assert(key_index(model, lhs@) == k as int);
            let mut merged = copy_alternatives(&rules[k].alternatives);
            let ghost old_merged = merged.deep_view();
            let mut extra = alts;
            let ghost extra_model = extra.deep_view();
            merged.append(&mut extra);
            assert(merged.deep_view() =~= old_merged + extra_model);
            rules.set(k, Rule { non_terminal: lhs, alternatives: merged });
            assert(rules.deep_view() =~= add_rule(model, lhs@, alts.deep_view()));
            return;
        }
        k = k + 1;
    }
    assert(key_index(model, lhs@) == -1);
    let ghost am = alts.deep_view();
    rules.push(Rule { non_terminal: lhs, alternatives: alts });
    assert(rules.deep_view() =~= model.push((lhs@, am)));
}

} // verus!

verus! {

// ---------------------------------------------------------------------------
// Lookup, flattening and the sorted set of terminals.

/// The index of the first rule of `rules` for `name`.
pub fn find_rule(rules: &Vec<Rule>, name: &String) -> (r: Option<usize>)
    ensures
        match r {
            Some(k) => key_index(rules.deep_view(), name@) == k as int && k < rules@.len(),
            None => key_index(rules.deep_view(), name@) == -1,
        },
{
    let ghost model = rules.deep_view();
    let n = rules.len();
    let mut k: usize = 0;
    while k < n
        invariant
            k <= n,
            n == rules@.len(),
            model == rules.deep_view(),
            forall|j: int| 0 <= j < k ==> model[j].0 != name@,
        decreases n - k,
    {
        assert(model[k as int] == rules@[k as int].deep_view());
        if rules[k].non_terminal == *name {
            proof {
                lemma_key_index(model, name@);
            }
            return Some(k);
        }
        k = k + 1;
    }
    proof {
        lemma_key_index(model, name@);
    }
    None
}

fn append_symbols(out: &mut Vec<Symbol>, alt: &Vec<Symbol>)
    ensures
        final(out).deep_view() == old(out).deep_view() + alt.deep_view(),
{
    let n = alt.len();
    let mut i: usize = 0;
    while i < n
        invariant
            i <= n,
            n == alt@.len(),
            out.deep_view() == old(out).deep_view() + alt.deep_view().take(i as int),
        decreases n - i,
    {
        let ghost before = out.deep_view();
        out.push(alt[i].duplicate());
        assert(out.deep_view() =~= before.push(alt@[i as int].deep_view()));
        assert(alt.deep_view().take(i + 1) =~= alt.deep_view().take(i as int).push(
            alt.deep_view()[i as int],
        ));
        i = i + 1;
    }
    assert(alt.deep_view().take(n as int) =~= alt.deep_view());
}

fn append_alternatives(out: &mut Vec<Symbol>, alts: &Vec<Vec<Symbol>>)
    ensures
        final(out).deep_view() == old(out).deep_view() + alternatives_symbols(alts.deep_view()),
{
    let ghost a = alts.deep_view();
    let n = alts.len();
    let mut i: usize = 0;
    assert(a.take(0) =~= Seq::<Seq<SymbolModel>>::empty());
    assert(old(out).deep_view() + alternatives_symbols(a.take(0)) =~= old(out).deep_view());
    while i < n
        invariant
            i <= n,
            n == alts@.len(),
            a == alts.deep_view(),
            out.deep_view() == old(out).deep_view() + alternatives_symbols(a.take(i as int)),
        decreases n - i,
    {
        append_symbols(out, &alts[i]);
        assert(a.take(i + 1).drop_last() =~= a.take(i as int));
        assert(a.take(i + 1).last() == alts@[i as int].deep_view());
        assert(out.deep_view() =~= old(out).deep_view() + alternatives_symbols(a.take(i + 1)));
        i = i + 1;
    }
    assert(a.take(n as int) =~= a);
}

/// Every symbol of every rule, in order.
fn flatten_rules(rules: &Vec<Rule>) -> (r: Vec<Symbol>)
    ensures
        r.deep_view() == rules_symbols(rules.deep_view()),
{
    let ghost m = rules.deep_view();
    let mut out: Vec<Symbol> = Vec::new();
    let n = rules.len();
    let mut k: usize = 0;
    assert(m.take(0) =~= Seq::<RuleModel>::empty());
    assert(out.deep_view() =~= Seq::<SymbolModel>::empty());
    while k < n
        invariant
            k <= n,
            n == rules@.len(),
            m == rules.deep_view(),
            out.deep_view() == rules_symbols(m.take(k as int)),
        decreases n - k,
    {
        append_alternatives(&mut out, &rules[k].alternatives);
        assert(m.take(k + 1).drop_last() =~= m.take(k as int));
        assert(m.take(k + 1).last() == rules@[k as int].deep_view());
        k = k + 1;
    }
    assert(m.take(n as int) =~= m);
    out
}

/// Inserts `c` into the strictly increasing `v`.
fn insert_sorted(v: &mut Vec<char>, c: char)
    requires
        strictly_sorted(old(v)@),
    ensures
        strictly_sorted(final(v)@),
        forall|x: char| final(v)@.contains(x) <==> (old(v)@.contains(x) || x == c),
{
    let n = v.len();
    let mut p: usize = 0;
    while p < n && v[p] < c
        invariant
            p <= n,
            n == v@.len(),
            v@ == old(v)@,
            forall|j: int| 0 <= j < p ==> v@[j] < c,
        decreases n - p,
    {
        p = p + 1;
    }
    if p < n && v[p] == c {
        return;
    }
    let ghost old_v = v@;
    assert(old_v == old(v)@);
    assert(p < n ==> c < old_v[p as int]);
    v.insert(p, c);
    assert(v@ == old_v.insert(p as int, c));
    proof {
        lemma_insert_sorted(old_v, p as int, c);
    }
}

proof fn lemma_insert_sorted(s: Seq<char>, p: int, c: char)
    requires
        0 <= p <= s.len(),
        strictly_sorted(s),
        forall|j: int| 0 <= j < p ==> s[j] < c,
        p < s.len() ==> c < s[p],
    ensures
        strictly_sorted(s.insert(p, c)),
        forall|x: char| s.insert(p, c).contains(x) <==> (s.contains(x) || x == c),
{
    let t = s.insert(p, c);
    assert forall|i: int, j: int| 0 <= i < j < t.len() implies t[i] < t[j] by {
        if j < p {
        } else if j == p {
        } else if i < p {
            assert(s[j - 1] >= s[p]);
        } else if i == p {
            assert(s[j - 1] >= s[p]);
        } else {
        }
    }
    assert forall|x: char| t.contains(x) implies (s.contains(x) || x == c) by {
        let i = choose|i: int| 0 <= i < t.len() && t[i] == x;
        if i < p {
            assert(s[i] == x);
        } else if i > p {
            assert(s[i - 1] == x);
        }
    }
    assert forall|x: char| (s.contains(x) || x == c) implies t.contains(x) by {
        if x == c {
            assert(t[p] == c);
        } else {
            let i = choose|i: int| 0 <= i < s.len() && s[i] == x;
            if i < p {
                assert(t[i] == x);
            } else {
                assert(t[i + 1] == x);
            }
        }
    }
}

pub proof fn lemma_sorted_unique(a: Seq<char>, b: Seq<char>)
    requires
        strictly_sorted(a),
        strictly_sorted(b),
        forall|c: char| a.contains(c) <==> b.contains(c),
    ensures
        a == b,
    decreases a.len(),
{
    if a.len() == 0 {
        if b.len() > 0 {
            assert(b.contains(b[0]));
        }
        assert(a =~= b);
    } else {
        if b.len() == 0 {
            assert(a.contains(a[0]));
        }
        assert(a.contains(a[0]));
        assert(b.contains(b[0]));
        let i = choose|i: int| 0 <= i < b.len() && b[i] == a[0];
        let j = choose|j: int| 0 <= j < a.len() && a[j] == b[0];
        assert(a[0] == b[0]) by {
            if i > 0 {
                assert(b[0] < b[i]);
            }
            if j > 0 {
                assert(a[0] < a[j]);
            }
        }
        let a1 = a.drop_first();
        let b1 = b.drop_first();
        assert forall|c: char| a1.contains(c) <==> b1.contains(c) by {
            if a1.contains(c) {
                let k = choose|k: int| 0 <= k < a1.len() && a1[k] == c;
                assert(a[k + 1] == c);
                assert(a.contains(c));
                let m = choose|m: int| 0 <= m < b.len() && b[m] == c;
                assert(m != 0);
                assert(b1[m - 1] == c);
            }
            if b1.contains(c) {
                let k = choose|k: int| 0 <= k < b1.len() && b1[k] == c;
                assert(b[k + 1] == c);
                assert(b.contains(c));
                let m = choose|m: int| 0 <= m < a.len() && a[m] == c;
                assert(m != 0);
                assert(a1[m - 1] == c);
            }
        }
        lemma_sorted_unique(a1, b1);
        assert(a.len() == b.len());
        assert forall|k: int| 0 <= k < a.len() implies a[k] == b[k] by {
            if k > 0 {
                assert(a[k] == a1[k - 1]);
                assert(b[k] == b1[k - 1]);
            }
        }
        assert(a =~= b);
    }
}

proof fn lemma_first_undefined_some(syms: Seq<SymbolModel>, rules: Seq<RuleModel>, i: int)
    requires
        0 <= i <= syms.len(),
        first_undefined(syms.take(i), rules) is Some,
    ensures
        first_undefined(syms, rules) == first_undefined(syms.take(i), rules),
    decreases syms.len(),
{
    if i == syms.len() {
        assert(syms.take(i) =~= syms);
    } else {
        assert(syms.drop_last().take(i) =~= syms.take(i));
        lemma_first_undefined_some(syms.drop_last(), rules, i);
    }
}

} // verus!

verus! {

/// Reads a grammar written one production per line, as `S -> aS | ab` or
/// `S ::= aS | ab`. Blank lines and lines that start with `#` are ignored;
/// `&`, `ε` or nothing stands for the empty word.
pub fn parse_grammar(text: &str) -> (r: Result<Grammar, GrammarError>)
    ensures
        parse_result_model(r) == grammar_of_text(text@),
{
    let chars = chars_of(text);
    let lines = split_chars(&chars, '\n');
    let ghost lm = lines.deep_view();
    assert(lm == split_on(text@, '\n'));
    let mut rules: Vec<Rule> = Vec::new();
    let n = lines.len();
    let mut k: usize = 0;
    assert(lm.take(0) =~= Seq::<Seq<char>>::empty());
    assert(rules.deep_view() =~= Seq::<RuleModel>::empty());
    while k < n
        invariant
            k <= n,
            n == lm.len(),
            lm == lines.deep_view(),
            lm == split_on(text@, '\n'),
            parse_lines(lm.take(k as int)) == Ok::<Seq<RuleModel>, ErrorModel>(
                rules.deep_view(),
            ),
        decreases n - k,
    {
        assert(lm.take(k + 1).drop_last() =~= lm.take(k as int));
        assert(lm.take(k + 1).last() == lm[k as int]);
        assert(lines@[k as int].deep_view() =~= lines@[k as int]@);
        let line = trim_chars(&lines[k]);
        let skipped = line.len() == 0 || line[0] == '#';
        if !skipped {
            match parse_line_chars(&line) {
                Ok((lhs, alts)) => {
                    add_rule_exec(&mut rules, lhs, alts);
                },
                Err(e) => {
                    proof {
                        lemma_parse_lines_err(lm, k + 1);
                    }
                    return Err(e);
                },
            }
        }
        k = k + 1;
    }
    assert(lm.take(n as int) =~= lm);
    let ghost rm = rules.deep_view();
    if rules.len() == 0 {
        return Err(GrammarError::EmptyGrammar);
    }
    let all = flatten_rules(&rules);
    let ghost sm = all.deep_view();
    let m = all.len();
    let mut i: usize = 0;
    assert(sm.take(0) =~= Seq::<SymbolModel>::empty());
    while i < m
        invariant
            i <= m,
            m == sm.len(),
            sm == all.deep_view(),
            sm == rules_symbols(rm),
            rm == rules.deep_view(),
            rm.len() > 0,
            parse_lines(split_on(text@, '\n')) == Ok::<Seq<RuleModel>, ErrorModel>(rm),
            first_undefined(sm.take(i as int), rm) is None,
        decreases m - i,
    {
        assert(sm.take(i + 1).drop_last() =~= sm.take(i as int));
        assert(sm.take(i + 1).last() == all@[i as int].deep_view());
        match &all[i] {
            Symbol::NonTerminal(name) => {
                if find_rule(&rules, name).is_none() {
                    assert(first_undefined(sm.take(i + 1), rm) == Some(name@));
                    proof {
                        lemma_first_undefined_some(sm, rm, i + 1);
                    }
                    return Err(GrammarError::UndefinedNonTerminal(name.clone()));
                }
            },
            Symbol::Terminal(_) => {},
        }
        i = i + 1;
    }
    assert(sm.take(m as int) =~= sm);
    // The terminals that occur, in increasing order.
    let mut terminals: Vec<char> = Vec::new();
    let mut i: usize = 0;
    while i < m
        invariant
            i <= m,
            m == sm.len(),
            sm == all.deep_view(),
            strictly_sorted(terminals@),
            forall|c: char|
                terminals@.contains(c) <==> sm.take(i as int).contains(SymbolModel::Terminal(c)),
        decreases m - i,
    {
        let ghost before = terminals@;
        assert(sm.take(i + 1) =~= sm.take(i as int).push(sm[i as int]));
        assert(sm[i as int] == all@[i as int].deep_view());
        let ghost x = sm[i as int];
        match &all[i] {
            Symbol::Terminal(c) => {
                insert_sorted(&mut terminals, *c);
            },
            Symbol::NonTerminal(_) => {},
        }
        assert forall|c: char|
            terminals@.contains(c) <==> (before.contains(c) || x == SymbolModel::Terminal(c)) by {}
        assert forall|c: char|
            terminals@.contains(c) <==> sm.take(i + 1).contains(SymbolModel::Terminal(c)) by {
            if x == SymbolModel::Terminal(c) {
                assert(sm.take(i + 1)[i as int] == x);
            }
            if sm.take(i + 1).contains(SymbolModel::Terminal(c)) {
                let t = sm.take(i + 1);
                let j = choose|j: int| 0 <= j < t.len() && t[j] == SymbolModel::Terminal(c);
                if j < i {
                    assert(sm.take(i as int)[j] == SymbolModel::Terminal(c));
                }
            }
            if sm.take(i as int).contains(SymbolModel::Terminal(c)) {
                let t = sm.take(i as int);
                let j = choose|j: int| 0 <= j < t.len() && t[j] == SymbolModel::Terminal(c);
                assert(sm.take(i + 1)[j] == SymbolModel::Terminal(c));
            }
        }
        i = i + 1;
    }
    assert(sm.take(m as int) =~= sm);
    proof {
        let q = sorted_terminals(rm);
        assert(strictly_sorted(q) && forall|c: char|
            q.contains(c) <==> rules_symbols(rm).contains(SymbolModel::Terminal(c)));
        lemma_sorted_unique(terminals@, q);
    }
    // The non-terminals, in order of first appearance.
    let mut names: Vec<String> = Vec::new();
    let nr = rules.len();
    let mut k: usize = 0;
    while k < nr
        invariant
            k <= nr,
            nr == rm.len(),
            rm == rules.deep_view(),
            names.deep_view() == keys(rm).take(k as int),
        decreases nr - k,
    {
        let ghost before = names.deep_view();
        names.push(rules[k].non_terminal.clone());
        assert(rm[k as int] == rules@[k as int].deep_view());
        assert(names.deep_view() =~= before.push(rules@[k as int].non_terminal@));
        assert(keys(rm)[k as int] == rm[k as int].0);
        assert(keys(rm).take(k + 1) =~= keys(rm).take(k as int).push(keys(rm)[k as int]));
        assert(names.deep_view() =~= keys(rm).take(k + 1));
        k = k + 1;
    }
    assert(keys(rm).take(nr as int) =~= keys(rm));
    let start = rules[0].non_terminal.clone();
    assert(rm[0] == rules@[0].deep_view());
    Ok(Grammar { non_terminals: names, terminals, productions: rules, start })
}

} // verus!

verus! {

// ---------------------------------------------------------------------------
// Lookup of alternatives.

impl Grammar {
    /// The alternatives of the non-terminal `name`.
    pub fn alternatives_of_name(&self, name: &String) -> (r: Option<&Vec<Vec<Symbol>>>)
        ensures
            match alternatives_of(self.deep_view(), name@) {
                Some(alts) => r is Some && r.unwrap().deep_view() == alts,
                None => r is None,
            },
    {
        match find_rule(&self.productions, name) {
            Some(k) => {
                assert(self.productions.deep_view()[k as int]
                    == self.productions@[k as int].deep_view());
                Some(&self.productions[k].alternatives)
            },
            None => None,
        }
    }

    /// The alternatives of the non-terminal `non_terminal`.
    pub fn alternatives(&self, non_terminal: &str) -> (r: Option<&Vec<Vec<Symbol>>>)
        ensures
            match alternatives_of(self.deep_view(), non_terminal@) {
                Some(alts) => r is Some && r.unwrap().deep_view() == alts,
                None => r is None,
            },
    {
        let name = string_from(non_terminal);
        self.alternatives_of_name(&name)
    }
}

// ---------------------------------------------------------------------------
// Regularity.

/// How many non-terminals `alt` holds.
pub open spec fn non_terminal_count(alt: Seq<SymbolModel>) -> nat
    decreases alt.len(),
{
    if alt.len() == 0 {
        0
    } else {
        non_terminal_count(alt.drop_last()) + if alt.last() is NonTerminal {
            1nat
        } else {
            0nat
        }
    }
}

/// The index of the first non-terminal of `alt`, or -1.
pub open spec fn first_non_terminal(alt: Seq<SymbolModel>) -> int
    decreases alt.len(),
{
    if alt.len() == 0 {
        -1
    } else {
        let p = first_non_terminal(alt.drop_last());
        if p >= 0 {
            p
        } else if alt.last() is NonTerminal {
            alt.len() - 1
        } else {
            -1
        }
    }
}

/// The first non-terminal of `alt` is one, and every symbol before it is
/// a terminal; without one, every symbol is.
pub proof fn lemma_first_non_terminal(alt: Seq<SymbolModel>)
    ensures
        -1 <= first_non_terminal(alt) < alt.len(),
        first_non_terminal(alt) >= 0 ==> alt[first_non_terminal(alt)] is NonTerminal,
        forall|j: int|
            0 <= j < alt.len() && (first_non_terminal(alt) < 0 || j < first_non_terminal(alt))
                ==> (#[trigger] alt[j]) is Terminal,
    decreases alt.len(),
{
    if alt.len() > 0 {
        let prev = alt.drop_last();
        lemma_first_non_terminal(prev);
        assert forall|j: int| 0 <= j < prev.len() implies alt[j] == prev[j] by {}
    }
}

pub open spec fn too_many_message() -> Seq<char> {
    "uma produção regular pode conter no máximo um não-terminal"@
}

pub open spec fn misplaced_message() -> Seq<char> {
    "o não-terminal deve estar no início ou no fim da produção"@
}

pub open spec fn mixed_message() -> Seq<char> {
    "não misture produções regulares à esquerda e à direita na mesma gramática"@
}

/// Checks one alternative `alt` of `nt`, given the side (`true` for right,
/// `false` for left) on which the alternatives seen so far hold their
/// non-terminal, if any did; gives the side from then on.
pub open spec fn check_alternative(side: Option<bool>, nt: Seq<char>, alt: Seq<SymbolModel>) -> Result<
    Option<bool>,
    ErrorModel,
> {
    let not_regular = |reason: Seq<char>|
        ErrorModel::NotRegular {
            non_terminal: nt,
            alternative: alternative_text(alt),
            reason: reason,
        };
    if non_terminal_count(alt) > 1 {
        Err(not_regular(too_many_message()))
    } else if non_terminal_count(alt) == 0 {
        Ok(side)
    } else {
        let i = first_non_terminal(alt);
        if i != 0 && i + 1 != alt.len() {
            Err(not_regular(misplaced_message()))
        } else {
            let current = i != 0;
            match side {
                Some(s) => if s != current {
                    Err(not_regular(mixed_message()))
                } else {
                    Ok(Some(current))
                },
                None => Ok(Some(current)),
            }
        }
    }
}

/// The alternatives that the check visits: those of each listed
/// non-terminal in turn, each with its non-terminal.
pub open spec fn checked_pairs(g: GrammarModel, nts: Seq<Seq<char>>) -> Seq<
    (Seq<char>, Seq<SymbolModel>),
>
    decreases nts.len(),
{
    if nts.len() == 0 {
        Seq::empty()
    } else {
        let nt = nts.last();
        checked_pairs(g, nts.drop_last()) + match lookup(g.productions, nt) {
            Some(alts) => alts.map_values(|a: Seq<SymbolModel>| (nt, a)),
            None => Seq::empty(),
        }
    }
}

/// Checks the pairs left to right.
pub open spec fn check_pairs(pairs: Seq<(Seq<char>, Seq<SymbolModel>)>) -> Result<
    Option<bool>,
    ErrorModel,
>
    decreases pairs.len(),
{
    if pairs.len() == 0 {
        Ok(None)
    } else {
        match check_pairs(pairs.drop_last()) {
            Err(e) => Err(e),
            Ok(side) => check_alternative(side, pairs.last().0, pairs.last().1),
        }
    }
}

/// A grammar is regular when every alternative holds at most one
/// non-terminal, at its start or at its end, and all of them on the same
/// side. The error names the first alternative, in the order of `N`, that
/// breaks this.
pub open spec fn regularity(g: GrammarModel) -> Result<(), ErrorModel> {
    match check_pairs(checked_pairs(g, g.non_terminals)) {
        Ok(_) => Ok(()),
        Err(e) => Err(e),
    }
}

/// How an alternative is written.
pub fn format_alternative(alt: &Vec<Symbol>) -> (r: String)
    ensures
        r@ == alternative_text(alt.deep_view()),
{
    if alt.len() == 0 {
        return char_to_string('&');
    }
    let ghost a = alt.deep_view();
    let mut out = String::new();
    let n = alt.len();
    let mut i: usize = 0;
    assert(a.take(0) =~= Seq::<SymbolModel>::empty());
    while i < n
        invariant
            i <= n,
            n == a.len(),
            a == alt.deep_view(),
            out@ == symbols_text(a.take(i as int)),
        decreases n - i,
    {
        let piece = alt[i].to_string();
        out.append(piece.as_str());
        assert(a.take(i + 1).drop_last() =~= a.take(i as int));
        assert(a.take(i + 1).last() == alt@[i as int].deep_view());
        i = i + 1;
    }
    assert(a.take(n as int) =~= a);
    out
}

/// Counts the non-terminals of `alt` and finds the first one.
fn non_terminal_positions(alt: &Vec<Symbol>) -> (r: (usize, usize))
    ensures
        r.0 == non_terminal_count(alt.deep_view()),
        r.0 > 0 ==> r.1 == first_non_terminal(alt.deep_view()),
        r.0 > 0 ==> r.1 < alt@.len(),
        r.0 == 0 ==> first_non_terminal(alt.deep_view()) == -1,
{
    let ghost a = alt.deep_view();
    let n = alt.len();
    let mut count: usize = 0;
    let mut first: usize = 0;
    let mut i: usize = 0;
    assert(a.take(0) =~= Seq::<SymbolModel>::empty());
    while i < n
        invariant
            i <= n,
            n == a.len(),
            a == alt.deep_view(),
            count == non_terminal_count(a.take(i as int)),
            count <= i,
            count > 0 ==> first == first_non_terminal(a.take(i as int)),
            count > 0 ==> first < i,
            count == 0 ==> first_non_terminal(a.take(i as int)) == -1,
        decreases n - i,
    {
        assert(a.take(i + 1).drop_last() =~= a.take(i as int));
        assert(a.take(i + 1).last() == alt@[i as int].deep_view());
        match &alt[i] {
            Symbol::NonTerminal(_) => {
                if count == 0 {
                    first = i;
                }
                count = count + 1;
            },
            Symbol::Terminal(_) => {},
        }
        i = i + 1;
    }
    assert(a.take(n as int) =~= a);
    (count, first)
}

/// Checks one alternative.
fn check_alternative_exec(side: Option<bool>, nt: &String, alt: &Vec<Symbol>) -> (r: Result<
    Option<bool>,
    GrammarError,
>)
    ensures
        match r {
            Ok(s) => check_alternative(side, nt@, alt.deep_view()) == Ok::<
                Option<bool>,
                ErrorModel,
            >(s),
            Err(e) => check_alternative(side, nt@, alt.deep_view()) == Err::<
                Option<bool>,
                ErrorModel,
            >(e.deep_view()),
        },
{
    let (count, first) = non_terminal_positions(alt);
    if count > 1 {
        return Err(
            GrammarError::NotRegular {
                non_terminal: nt.clone(),
                alternative: format_alternative(alt),
                reason: string_from("uma produção regular pode conter no máximo um não-terminal"),
            },
        );
    }
    if count == 0 {
        return Ok(side);
    }
    let len = alt.len();
    assert(first < len);
    if first != 0 && first + 1 != len {
        return Err(
            GrammarError::NotRegular {
                non_terminal: nt.clone(),
                alternative: format_alternative(alt),
                reason: string_from("o não-terminal deve estar no início ou no fim da produção"),
            },
        );
    }
    let current = first != 0;
    match side {
        Some(s) => {
            if s != current {
                return Err(
                    GrammarError::NotRegular {
                        non_terminal: nt.clone(),
                        alternative: format_alternative(alt),
                        reason: string_from(
                            "não misture produções regulares à esquerda e à direita na mesma gramática",
                        ),
                    },
                );
            }
            Ok(Some(current))
        },
        None => Ok(Some(current)),
    }
}

proof fn lemma_check_pairs_err(p: Seq<(Seq<char>, Seq<SymbolModel>)>, i: int)
    requires
        0 <= i <= p.len(),
        check_pairs(p.take(i)) is Err,
    ensures
        check_pairs(p) == check_pairs(p.take(i)),
    decreases p.len(),
{
    if i == p.len() {
        assert(p.take(i) =~= p);
    } else {
        assert(p.drop_last().take(i) =~= p.take(i));
        lemma_check_pairs_err(p.drop_last(), i);
    }
}

/// Checks that the grammar is regular: every alternative holds at most one
/// non-terminal, at its start or at its end, all on the same side.
pub fn validate_regular(grammar: &Grammar) -> (r: Result<(), GrammarError>)
    ensures
        match r {
            Ok(_) => regularity(grammar.deep_view()) is Ok,
            Err(e) => regularity(grammar.deep_view()) == Err::<(), ErrorModel>(e.deep_view()),
        },
{
    let ghost g = grammar.deep_view();
    let ghost all = checked_pairs(g, g.non_terminals);
    let mut side: Option<bool> = None;
    let ghost mut done: Seq<(Seq<char>, Seq<SymbolModel>)> = Seq::empty();
    let n = grammar.non_terminals.len();
    let mut k: usize = 0;
    assert(g.non_terminals.take(0) =~= Seq::<Seq<char>>::empty());
    while k < n
        invariant
            k <= n,
            n == g.non_terminals.len(),
            g == grammar.deep_view(),
            all == checked_pairs(g, g.non_terminals),
            done == checked_pairs(g, g.non_terminals.take(k as int)),
            check_pairs(done) == Ok::<Option<bool>, ErrorModel>(side),
        decreases n - k,
    {
        let nt = &grammar.non_terminals[k];
        assert(g.non_terminals[k as int] == nt@);
        assert(g.non_terminals.take(k + 1).drop_last() =~= g.non_terminals.take(k as int));
        assert(g.non_terminals.take(k + 1).last() == nt@);
        match grammar.alternatives_of_name(nt) {
            Some(alts) => {
                let ghost am = alts.deep_view();
                let ghost mapped = am.map_values(|a: Seq<SymbolModel>| (nt@, a));
                let m = alts.len();
                let mut j: usize = 0;
                let ghost base = done;
                let ghost q = checked_pairs(g, g.non_terminals.take(k + 1));
                assert(q =~= base + mapped);
                proof {
                    lemma_checked_pairs_prefix(g, g.non_terminals, k as int);
                }
                assert(mapped.take(0) =~= Seq::<(Seq<char>, Seq<SymbolModel>)>::empty());
                assert(base + mapped.take(0) =~= base);
                while j < m
                    invariant
                        j <= m,
                        m == am.len(),
                        am == alts.deep_view(),
                        mapped == am.map_values(|a: Seq<SymbolModel>| (nt@, a)),
                        done == base + mapped.take(j as int),
                        check_pairs(done) == Ok::<Option<bool>, ErrorModel>(side),
                        all == checked_pairs(g, g.non_terminals),
                        base == checked_pairs(g, g.non_terminals.take(k as int)),
                        q == base + mapped,
                        g == grammar.deep_view(),
                        q.len() <= all.len(),
                        all.take(q.len() as int) == q,
                        k < n,
                        n == g.non_terminals.len(),
                    decreases m - j,
                {
                    let ghost next = done.push((nt@, am[j as int]));
                    assert(am[j as int] == alts@[j as int].deep_view());
                    assert(next.drop_last() =~= done);
                    match check_alternative_exec(side, nt, &alts[j]) {
                        Ok(s) => {
                            side = s;
                        },
                        Err(e) => {
                            proof {
                                assert(next.last() == (nt@, am[j as int]));
                                assert(check_pairs(next) == Err::<Option<bool>, ErrorModel>(
                                    e.deep_view(),
                                ));
                                assert(mapped.take(j + 1) =~= mapped.take(j as int).push(
                                    (nt@, am[j as int]),
                                ));
                                assert(next =~= base + mapped.take(j + 1));
                                assert(next =~= q.take(next.len() as int));
                                assert(next =~= all.take(next.len() as int));
                                lemma_check_pairs_err(all, next.len() as int);
                            }
                            return Err(e);
                        },
                    }
                    proof {
                        done = next;
                    }
                    assert(mapped.take(j + 1) =~= mapped.take(j as int).push((nt@, am[j as int])));
                    j = j + 1;
                }
                assert(mapped.take(m as int) =~= mapped);
            },
            None => {},
        }
        assert(done =~= checked_pairs(g, g.non_terminals.take(k + 1)));
        k = k + 1;
    }
    assert(g.non_terminals.take(n as int) =~= g.non_terminals);
    Ok(())
}

/// The pairs visited for the first `k` non-terminals, followed by some of
/// those of the next one, start the pairs visited for all of them.
proof fn lemma_checked_pairs_prefix(g: GrammarModel, nts: Seq<Seq<char>>, k: int)
    requires
        0 <= k < nts.len(),
    ensures
        checked_pairs(g, nts.take(k + 1)).len() <= checked_pairs(g, nts).len(),
        checked_pairs(g, nts).take(checked_pairs(g, nts.take(k + 1)).len() as int)
            == checked_pairs(g, nts.take(k + 1)),
    decreases nts.len(),
{
    if k + 1 == nts.len() {
        assert(nts.take(k + 1) =~= nts);
        let p = checked_pairs(g, nts);
        assert(p.take(p.len() as int) =~= p);
    } else {
        assert(nts.drop_last().take(k + 1) =~= nts.take(k + 1));
        lemma_checked_pairs_prefix(g, nts.drop_last(), k);
        let p = checked_pairs(g, nts.drop_last());
        let q = checked_pairs(g, nts.take(k + 1));
        assert(checked_pairs(g, nts).take(q.len() as int) =~= p.take(q.len() as int));
    }
}

} // verus!

verus! {

/// The four components `N`, `T`, `S` and `P` of a grammar, written out.
#[derive(Debug, Clone, PartialEq)]
pub struct GrammarOverview {
    pub non_terminals: String,
    pub terminals: String,
    pub start: String,
    pub production_lines: Vec<String>,
    pub production_count: usize,
}

/// `{x,y,...}`.
pub open spec fn set_text(items: Seq<Seq<char>>) -> Seq<char> {
    seq!['{'] + join(items, seq![',']) + seq!['}']
}

pub open spec fn arrow_text() -> Seq<char> {
    seq![' ', '-', '>', ' ']
}

pub open spec fn bar_text() -> Seq<char> {
    seq![' ', '|', ' ']
}

/// `A -> x | y`, one line for each listed non-terminal that has a rule.
pub open spec fn production_lines(g: GrammarModel, nts: Seq<Seq<char>>) -> Seq<Seq<char>>
    decreases nts.len(),
{
    if nts.len() == 0 {
        Seq::empty()
    } else {
        let nt = nts.last();
        production_lines(g, nts.drop_last()) + match lookup(g.productions, nt) {
            Some(alts) => seq![
                nt + arrow_text() + join(
                    alts.map_values(|a: Seq<SymbolModel>| alternative_text(a)),
                    bar_text(),
                ),
            ],
            None => Seq::empty(),
        }
    }
}

/// How many alternatives the listed non-terminals have in all.
pub open spec fn production_count(g: GrammarModel, nts: Seq<Seq<char>>) -> nat
    decreases nts.len(),
{
    if nts.len() == 0 {
        0
    } else {
        production_count(g, nts.drop_last()) + match lookup(g.productions, nts.last()) {
            Some(alts) => alts.len(),
            None => 0,
        }
    }
}

pub struct OverviewModel {
    pub non_terminals: Seq<char>,
    pub terminals: Seq<char>,
    pub start: Seq<char>,
    pub production_lines: Seq<Seq<char>>,
    pub production_count: nat,
}

impl DeepView for GrammarOverview {
    type V = OverviewModel;

    open spec fn deep_view(&self) -> OverviewModel {
        OverviewModel {
            non_terminals: self.non_terminals@,
            terminals: self.terminals@,
            start: self.start@,
            production_lines: self.production_lines.deep_view(),
            production_count: self.production_count as nat,
        }
    }
}

/// The overview of `g`: `N` and `T` as sets in their order, `S`, and one
/// line of `P` for each non-terminal of `N`, in order.
pub open spec fn overview_of(g: GrammarModel) -> OverviewModel {
    OverviewModel {
        non_terminals: set_text(g.non_terminals),
        terminals: set_text(g.terminals.map_values(|c: char| seq![c])),
        start: g.start,
        production_lines: production_lines(g, g.non_terminals),
        production_count: production_count(g, g.non_terminals),
    }
}

/// `{x,y,...}` for the given strings.
fn set_string(items: &Vec<String>) -> (r: String)
    ensures
        r@ == set_text(items.deep_view()),
{
    let mut s = String::new();
    s.push('{');
    let joined = join_strings(items, ",");
    proof {
        reveal_strlit(",");
        assert(","@ =~= seq![',']);
    }
    s.append(joined.as_str());
    s.push('}');
    assert(s@ =~= set_text(items.deep_view()));
    s
}

impl Grammar {
    /// How many alternatives the non-terminals have in all, when that
    /// number fits in a `usize`.
    pub fn counted_productions(&self) -> (r: Option<usize>)
        ensures
            match r {
                Some(n) => n == production_count(self.deep_view(), self.deep_view().non_terminals),
                None => production_count(self.deep_view(), self.deep_view().non_terminals)
                    > usize::MAX,
            },
    {
        let ghost g = self.deep_view();
        let ghost nts = g.non_terminals;
        let mut count: usize = 0;
        let n = self.non_terminals.len();
        let mut i: usize = 0;
        assert(nts.take(0) =~= Seq::<Seq<char>>::empty());
        while i < n
            invariant
                i <= n,
                n == nts.len(),
                g == self.deep_view(),
                nts == g.non_terminals,
                count == production_count(g, nts.take(i as int)),
            decreases n - i,
        {
            assert(nts.take(i + 1).drop_last() =~= nts.take(i as int));
            assert(nts.take(i + 1).last() == self.non_terminals@[i as int]@);
            let nt = &self.non_terminals[i];
            match self.alternatives_of_name(nt) {
                Some(alts) => {
                    let m = alts.len();
                    match count.checked_add(m) {
                        Some(total) => {
                            count = total;
                        },
                        None => {
                            proof {
                                lemma_production_count_prefix(g, nts, i + 1);
                            }
                            return None;
                        },
                    }
                },
                None => {},
            }
            i = i + 1;
        }
        assert(nts.take(n as int) =~= nts);
        Some(count)
    }
}

impl Grammar {
    /// The four components `G = {N, T, P, S}`, written out.
    pub fn overview(&self) -> (r: GrammarOverview)
        requires
            production_count(self.deep_view(), self.deep_view().non_terminals) <= usize::MAX,
        ensures
            r.deep_view() == overview_of(self.deep_view()),
    {
        let ghost g = self.deep_view();
        let ghost nts = g.non_terminals;
        let mut lines: Vec<String> = Vec::new();
        let mut count: usize = 0;
        let n = self.non_terminals.len();
        let mut i: usize = 0;
        assert(nts.take(0) =~= Seq::<Seq<char>>::empty());
        assert(lines.deep_view() =~= Seq::<Seq<char>>::empty());
        while i < n
            invariant
                i <= n,
                n == nts.len(),
                g == self.deep_view(),
                nts == g.non_terminals,
                production_count(g, nts) <= usize::MAX,
                lines.deep_view() == production_lines(g, nts.take(i as int)),
                count == production_count(g, nts.take(i as int)),
            decreases n - i,
        {
            assert(nts.take(i + 1).drop_last() =~= nts.take(i as int));
            assert(nts.take(i + 1).last() == self.non_terminals@[i as int]@);
            proof {
                lemma_production_count_prefix(g, nts, i + 1);
            }
            let nt = &self.non_terminals[i];
            match self.alternatives_of_name(nt) {
                Some(alts) => {
                    let ghost am = alts.deep_view();
                    let ghost texts = am.map_values(|a: Seq<SymbolModel>| alternative_text(a));
                    let mut parts: Vec<String> = Vec::new();
                    let m = alts.len();
                    let mut j: usize = 0;
                    while j < m
                        invariant
                            j <= m,
                            m == am.len(),
                            am == alts.deep_view(),
                            texts == am.map_values(|a: Seq<SymbolModel>| alternative_text(a)),
                            parts.deep_view() == texts.take(j as int),
                        decreases m - j,
                    {
                        let ghost before = parts.deep_view();
                        assert(am[j as int] == alts@[j as int].deep_view());
                        parts.push(format_alternative(&alts[j]));
                        assert(parts.deep_view() =~= before.push(texts[j as int]));
                        assert(texts.take(j + 1) =~= texts.take(j as int).push(texts[j as int]));
                        j = j + 1;
                    }
                    assert(texts.take(m as int) =~= texts);
                    let mut line = nt.clone();
                    line.append(" -> ");
                    let joined = join_strings(&parts, " | ");
                    line.append(joined.as_str());
                    proof {
                        reveal_strlit(" -> ");
                        reveal_strlit(" | ");
                        assert(" -> "@ =~= arrow_text());
                        assert(" | "@ =~= bar_text());
                    }
                    let ghost before = lines.deep_view();
                    lines.push(line);
                    assert(lines.deep_view() =~= before + seq![
                        nt@ + arrow_text() + join(texts, bar_text()),
                    ]);
                    count = count + m;
                },
                None => {
                    assert(lines.deep_view() =~= lines.deep_view() + Seq::<Seq<char>>::empty());
                },
            }
            i = i + 1;
        }
        assert(nts.take(n as int) =~= nts);
        let non_terminals = set_string(&self.non_terminals);
        let mut term_strings: Vec<String> = Vec::new();
        let ghost tm = g.terminals.map_values(|c: char| seq![c]);
        let nt = self.terminals.len();
        let mut k: usize = 0;
        while k < nt
            invariant
                k <= nt,
                nt == g.terminals.len(),
                g == self.deep_view(),
                tm == g.terminals.map_values(|c: char| seq![c]),
                term_strings.deep_view() == tm.take(k as int),
            decreases nt - k,
        {
            let ghost before = term_strings.deep_view();
            term_strings.push(crate::text::char_to_string(self.terminals[k]));
            assert(term_strings.deep_view() =~= before.push(tm[k as int]));
            assert(tm.take(k + 1) =~= tm.take(k as int).push(tm[k as int]));
            k = k + 1;
        }
        assert(tm.take(nt as int) =~= tm);
        let terminals = set_string(&term_strings);
        GrammarOverview {
            non_terminals,
            terminals,
            start: self.start.clone(),
            production_lines: lines,
            production_count: count,
        }
    }
}

proof fn lemma_production_count_prefix(g: GrammarModel, nts: Seq<Seq<char>>, i: int)
    requires
        0 <= i <= nts.len(),
    ensures
        production_count(g, nts.take(i)) <= production_count(g, nts),
    decreases nts.len(),
{
    if i == nts.len() {
        assert(nts.take(i) =~= nts);
    } else {
        assert(nts.drop_last().take(i) =~= nts.take(i));
        lemma_production_count_prefix(g, nts.drop_last(), i);
    }
}

} // verus!
