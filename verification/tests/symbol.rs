use std::collections::HashMap;

use grammar_engine::symbol::{GrammarError, Symbol};

#[test]
fn terminal_displays_as_its_char() {
    assert_eq!(Symbol::Terminal('a').to_string(), "a");
}

#[test]
fn non_terminal_displays_as_its_name() {
    assert_eq!(Symbol::NonTerminal("S".to_string()).to_string(), "S");
}

#[test]
fn symbols_are_usable_as_hashmap_keys() {
    let mut map = HashMap::new();
    map.insert(Symbol::NonTerminal("S".to_string()), 1);
    assert_eq!(map.get(&Symbol::NonTerminal("S".to_string())), Some(&1));
}

#[test]
fn not_regular_error_message_is_readable() {
    let err = GrammarError::NotRegular {
        non_terminal: "S".to_string(),
        alternative: "AB".to_string(),
        reason: "não-terminal só pode aparecer como último símbolo".to_string(),
    };
    let message = err.to_string();
    assert!(message.contains('S'));
    assert!(message.contains("AB"));
}

#[test]
fn every_error_has_its_exact_message() {
    assert_eq!(
        GrammarError::ParseError("x".to_string()).to_string(),
        "erro de sintaxe na gramática: x"
    );
    assert_eq!(
        GrammarError::UndefinedNonTerminal("B".to_string()).to_string(),
        "não-terminal 'B' usado mas nunca definido"
    );
    assert_eq!(
        GrammarError::NotRegular {
            non_terminal: "S".to_string(),
            alternative: "AB".to_string(),
            reason: "r".to_string(),
        }
        .to_string(),
        "produção 'S -> AB' não é regular: r"
    );
    assert_eq!(GrammarError::EmptyGrammar.to_string(), "gramática vazia");
    assert_eq!(
        GrammarError::DerivationTooLong.to_string(),
        "derivação excedeu o limite de passos (gramática pode não ser produtiva)"
    );
    assert_eq!(
        GrammarError::RegexConversionFailed("m".to_string()).to_string(),
        "falha ao converter para expressão regular: m"
    );
    assert_eq!(
        GrammarError::NoDerivationInStepRange { min: 3, max: 15 }.to_string(),
        "nenhuma derivação termina entre 3 e 15 passos"
    );
}

#[test]
fn duplicate_is_an_equal_symbol() {
    let s = Symbol::NonTerminal("A".to_string());
    assert_eq!(s.duplicate(), s);
}
