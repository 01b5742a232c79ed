use grammar_engine::derivation::derive_random;
use grammar_engine::examples::{example_sources, examples};
use grammar_engine::grammar::validate_regular;
use grammar_engine::regex_conversion::to_regex;
use regex::Regex;

#[test]
fn ships_exactly_three_examples() {
    assert_eq!(example_sources().len(), 3);
}

#[test]
fn every_example_parses_and_is_a_valid_regular_grammar() {
    for (example, grammar) in examples() {
        assert!(
            validate_regular(&grammar).is_ok(),
            "exemplo '{}' não é uma gramática regular válida",
            example.name
        );
    }
}

#[test]
fn every_example_can_derive_a_sentence_matching_its_own_regex() {
    for (example, grammar) in examples() {
        let pattern_text = to_regex(&grammar).unwrap();
        let pattern = Regex::new(&format!("^{pattern_text}$")).unwrap();
        let derivation = derive_random(&grammar).unwrap();
        assert!(
            pattern.is_match(&derivation.sentence),
            "exemplo '{}': sentença '{}' não bate com {pattern_text}",
            example.name,
            derivation.sentence
        );
    }
}

#[test]
fn every_example_is_kept_with_its_grammar() {
    let all = examples();
    assert_eq!(all.len(), 3);
    assert_eq!(all[0].0.name, "Exemplo do professor");
    assert_eq!(all[0].0.source, "S -> aS | ab");
    assert_eq!(all[1].1.non_terminals, vec!["S".to_string(), "A".to_string()]);
    assert_eq!(all[2].1.non_terminals.len(), 4);
}
