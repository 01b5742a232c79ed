//! Grammar symbols and the errors of the engine.

use vstd::prelude::*;

use crate::text::char_to_string;

verus! {

#[derive(Debug, Clone, PartialEq, Eq, Hash)]
pub enum Symbol {
    Terminal(char),
    NonTerminal(String),
}

/// A symbol as a mathematical value: a terminal character or the name of a
/// non-terminal as a sequence of characters.
pub enum SymbolModel {
    Terminal(char),
    NonTerminal(Seq<char>),
}

impl DeepView for Symbol {
    type V = SymbolModel;

    open spec fn deep_view(&self) -> SymbolModel {
        match self {
            Symbol::Terminal(c) => SymbolModel::Terminal(*c),
            Symbol::NonTerminal(name) => SymbolModel::NonTerminal(name@),
        }
    }
}

/// How a symbol is written: a terminal as its character, a non-terminal as
/// its name.
pub open spec fn symbol_text(s: SymbolModel) -> Seq<char> {
    match s {
        SymbolModel::Terminal(c) => seq![c],
        SymbolModel::NonTerminal(name) => name,
    }
}

impl Symbol {
    /// An exact copy of the symbol.
    pub fn duplicate(&self) -> (r: Symbol)
        ensures
            r == *self,
    {
        match self {
            Symbol::Terminal(c) => Symbol::Terminal(*c),
            Symbol::NonTerminal(name) => Symbol::NonTerminal(name.clone()),
        }
    }

    /// The symbol as it is displayed.
    pub fn to_string(&self) -> (r: String)
        ensures
            r@ == symbol_text(self.deep_view()),
    {
        match self {
            Symbol::Terminal(c) => char_to_string(*c),
            Symbol::NonTerminal(name) => name.clone(),
        }
    }
}

} // verus!

verus! {

#[derive(Debug, Clone, PartialEq, Eq)]
pub enum GrammarError {
    ParseError(String),
    UndefinedNonTerminal(String),
    NotRegular { non_terminal: String, alternative: String, reason: String },
    EmptyGrammar,
    DerivationTooLong,
    RegexConversionFailed(String),
    NoDerivationInStepRange { min: usize, max: usize },
}

/// An error as a mathematical value, its texts as sequences of characters.
pub enum ErrorModel {
    ParseError(Seq<char>),
    UndefinedNonTerminal(Seq<char>),
    NotRegular { non_terminal: Seq<char>, alternative: Seq<char>, reason: Seq<char> },
    EmptyGrammar,
    DerivationTooLong,
    RegexConversionFailed(Seq<char>),
    NoDerivationInStepRange { min: usize, max: usize },
}

impl DeepView for GrammarError {
    type V = ErrorModel;

    open spec fn deep_view(&self) -> ErrorModel {
        match self {
            GrammarError::ParseError(m) => ErrorModel::ParseError(m@),
            GrammarError::UndefinedNonTerminal(n) => ErrorModel::UndefinedNonTerminal(n@),
            GrammarError::NotRegular { non_terminal, alternative, reason } =>
                ErrorModel::NotRegular {
                    non_terminal: non_terminal@,
                    alternative: alternative@,
                    reason: reason@,
                },
            GrammarError::EmptyGrammar => ErrorModel::EmptyGrammar,
            GrammarError::DerivationTooLong => ErrorModel::DerivationTooLong,
            GrammarError::RegexConversionFailed(m) => ErrorModel::RegexConversionFailed(m@),
            GrammarError::NoDerivationInStepRange { min, max } =>
                ErrorModel::NoDerivationInStepRange { min: *min, max: *max },
        }
    }
}

/// The decimal digit for `d`.
pub open spec fn digit_char(d: nat) -> char {
    if d == 0 { '0' }
    else if d == 1 { '1' }
    else if d == 2 { '2' }
    else if d == 3 { '3' }
    else if d == 4 { '4' }
    else if d == 5 { '5' }
    else if d == 6 { '6' }
    else if d == 7 { '7' }
    else if d == 8 { '8' }
    else { '9' }
}

/// `n` written in decimal, without leading zeros.
pub open spec fn decimal(n: nat) -> Seq<char>
    decreases n,
{
    if n < 10 {
        seq![digit_char(n)]
    } else {
        decimal(n / 10).push(digit_char(n % 10))
    }
}

/// The readable message of an error.
pub open spec fn error_message(e: ErrorModel) -> Seq<char> {
    match e {
        ErrorModel::ParseError(m) => "erro de sintaxe na gramática: "@ + m,
        ErrorModel::UndefinedNonTerminal(n) => "não-terminal '"@ + n
            + "' usado mas nunca definido"@,
        ErrorModel::NotRegular { non_terminal, alternative, reason } => "produção '"@
            + non_terminal + " -> "@ + alternative + "' não é regular: "@ + reason,
        ErrorModel::EmptyGrammar => "gramática vazia"@,
        ErrorModel::DerivationTooLong =>
            "derivação excedeu o limite de passos (gramática pode não ser produtiva)"@,
        ErrorModel::RegexConversionFailed(m) => "falha ao converter para expressão regular: "@
            + m,
        ErrorModel::NoDerivationInStepRange { min, max } =>
            "nenhuma derivação termina entre "@ + decimal(min as nat) + " e "@ + decimal(
                max as nat,
            ) + " passos"@,
    }
}

/// A string holding the characters of `s`.
pub fn string_from(s: &str) -> (r: String)
    ensures
        r@ == s@,
{
    let mut out = String::new();
    out.append(s);
    out
}

fn digit_of(d: usize) -> (c: char)
    requires
        d < 10,
    ensures
        c == digit_char(d as nat),
{
    if d == 0 { '0' }
    else if d == 1 { '1' }
    else if d == 2 { '2' }
    else if d == 3 { '3' }
    else if d == 4 { '4' }
    else if d == 5 { '5' }
    else if d == 6 { '6' }
    else if d == 7 { '7' }
    else if d == 8 { '8' }
    else { '9' }
}

/// `n` written in decimal.
pub fn decimal_string(n: usize) -> (r: String)
    ensures
        r@ == decimal(n as nat),
    decreases n,
{
    if n < 10 {
        let mut s = String::new();
        s.push(digit_of(n));
        s
    } else {
        let mut s = decimal_string(n / 10);
        s.push(digit_of(n % 10));
        s
    }
}

impl GrammarError {
    /// The readable message of the error.
    pub fn to_string(&self) -> (r: String)
        ensures
            r@ == error_message(self.deep_view()),
    {
        match self {
            GrammarError::ParseError(m) => {
                let mut s = string_from("erro de sintaxe na gramática: ");
                s.append(m.as_str());
                s
            },
            GrammarError::UndefinedNonTerminal(n) => {
                let mut s = string_from("não-terminal '");
                s.append(n.as_str());
                s.append("' usado mas nunca definido");
                s
            },
            GrammarError::NotRegular { non_terminal, alternative, reason } => {
                let mut s = string_from("produção '");
                s.append(non_terminal.as_str());
                s.append(" -> ");
                s.append(alternative.as_str());
                s.append("' não é regular: ");
                s.append(reason.as_str());
                s
            },
            GrammarError::EmptyGrammar => string_from("gramática vazia"),
            GrammarError::DerivationTooLong => string_from(
                "derivação excedeu o limite de passos (gramática pode não ser produtiva)",
            ),
            GrammarError::RegexConversionFailed(m) => {
                let mut s = string_from("falha ao converter para expressão regular: ");
                s.append(m.as_str());
                s
            },
            GrammarError::NoDerivationInStepRange { min, max } => {
                let mut s = string_from("nenhuma derivação termina entre ");
                let a = decimal_string(*min);
                s.append(a.as_str());
                s.append(" e ");
                let b = decimal_string(*max);
                s.append(b.as_str());
                s.append(" passos");
                s
            },
        }
    }
}

} // verus!
