use grammar_engine::derivation::derive_random;
use grammar_engine::distractors::generate_distractors;
use grammar_engine::examples::examples;
use grammar_engine::grammar::parse_grammar;
use grammar_engine::regex_conversion::to_regex;
use grammar_engine::symbol::GrammarError;
use regex::Regex;

#[test]
fn distractors_are_distinct_and_rejected_by_the_grammar_regex() {
    let grammar = parse_grammar("S -> aS | ab").unwrap();
    let pattern = to_regex(&grammar).unwrap();
    let options = generate_distractors(&grammar, "aab", 3).unwrap();
    let regex = Regex::new(&format!("^(?:{pattern})$")).unwrap();

    assert_eq!(options.len(), 3);
    assert_eq!(
        options
            .iter()
            .collect::<std::collections::HashSet<_>>()
            .len(),
        3
    );
    assert!(options.iter().all(|option| !regex.is_match(option)));
}

#[test]
fn empty_sentence_can_receive_nonmatching_distractors() {
    let grammar = parse_grammar("S -> & | a").unwrap();
    let options = generate_distractors(&grammar, "", 2).unwrap();
    let regex = Regex::new(&format!("^(?:{})$", to_regex(&grammar).unwrap())).unwrap();

    assert_eq!(options.len(), 2);
    assert!(options.iter().all(|option| !regex.is_match(option)));
}

#[test]
fn every_built_in_grammar_can_supply_verified_distractors() {
    for (_, grammar) in examples() {
        let sentence = derive_random(&grammar).unwrap().sentence;
        let pattern = to_regex(&grammar).unwrap();
        let regex = Regex::new(&format!("^(?:{pattern})$")).unwrap();
        let options = generate_distractors(&grammar, &sentence, 2).unwrap();

        assert_eq!(options.len(), 2);
        assert!(options.iter().all(|option| !regex.is_match(option)));
    }
}

#[test]
fn distractors_come_in_the_documented_order() {
    let grammar = parse_grammar("S -> aS | ab").unwrap();
    let options = generate_distractors(&grammar, "aab", 3).unwrap();
    assert_eq!(options, vec!["aa".to_string(), "aab?".to_string(), "?aab".to_string()]);
}

#[test]
fn no_distractors_are_asked_for_nothing() {
    let grammar = parse_grammar("S -> aS").unwrap();
    assert_eq!(generate_distractors(&grammar, "zzz", 0).unwrap(), Vec::<String>::new());
}

#[test]
fn a_sentence_outside_the_language_is_refused() {
    let grammar = parse_grammar("S -> aS | ab").unwrap();
    assert_eq!(
        generate_distractors(&grammar, "ba", 2).unwrap_err(),
        GrammarError::RegexConversionFailed(
            "a sentença de referência não pertence à linguagem da gramática".to_string()
        )
    );
}

#[test]
fn a_grammar_without_an_expression_gives_its_conversion_error() {
    let grammar = parse_grammar("S -> aS").unwrap();
    assert_eq!(
        generate_distractors(&grammar, "a", 1).unwrap_err(),
        to_regex(&grammar).unwrap_err()
    );
}

#[test]
fn markers_go_on_into_the_private_use_area() {
    let grammar = parse_grammar("S -> &").unwrap();
    let options = generate_distractors(&grammar, "", 40).unwrap();
    assert_eq!(options.len(), 40);
    assert_eq!(options[0], "?");
    assert_eq!(options[29], "w");
    assert_eq!(options[30], "\u{e000}");
    assert_eq!(options[39], "\u{e009}");
}
