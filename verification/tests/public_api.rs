use grammar_engine::derivation::derive_random;
use grammar_engine::examples::examples;
use grammar_engine::grammar::{parse_grammar, validate_regular};
use grammar_engine::regex_conversion::to_regex;

#[test]
fn end_to_end_public_api_reproduces_the_pdf_example() {
    let grammar = parse_grammar("S -> aS | ab").expect("grammar text is valid");
    validate_regular(&grammar).expect("grammar is regular");
    let derivation = derive_random(&grammar).expect("grammar is productive");
    assert!(!derivation.sentence.is_empty());
    assert_eq!(to_regex(&grammar).expect("grammar converts"), "a*ab");
    assert_eq!(examples().len(), 3);
}
