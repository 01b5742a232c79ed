use grammar_engine::derivation::derive_random;
use grammar_engine::grammar::parse_grammar;
use grammar_engine::regex_conversion::{
    Term, alternative_to_term, format_equation, format_term, kleene_star, regex_union,
    resolve_self_reference, substitute, to_regex, to_regex_trace,
};
use grammar_engine::symbol::{GrammarError, Symbol};
use regex::Regex;

fn term(coeff: &str, target: Option<&str>) -> Term {
    Term {
        coeff: coeff.to_string(),
        target: target.map(|t| t.to_string()),
    }
}

fn texts(eq: &[Term]) -> Vec<(String, Option<String>)> {
    eq.iter()
        .map(|t| (t.coeff.clone(), t.target.clone()))
        .collect()
}

#[test]
fn traces_the_pdf_fixture_equation_and_elimination() {
    let grammar = parse_grammar("S -> aS | ab").unwrap();
    let trace = to_regex_trace(&grammar).unwrap();

    assert_eq!(
        trace.initial_equations,
        vec![("S".to_string(), "S=aS+ab".to_string())]
    );
    assert_eq!(trace.eliminations.len(), 1);
    assert_eq!(trace.eliminations[0].eliminated, "S");
    assert_eq!(trace.eliminations[0].resolved_equation, "S=a*ab");
    assert_eq!(trace.final_expression, "a*ab");
}

#[test]
fn traces_a_chain_elimination_before_the_start_symbol() {
    let grammar = parse_grammar("S -> aA\nA -> bA | c").unwrap();
    let trace = to_regex_trace(&grammar).unwrap();

    assert_eq!(trace.eliminations.len(), 2);
    assert_eq!(trace.eliminations[0].eliminated, "A");
    assert_eq!(trace.eliminations[0].resolved_equation, "A=b*c");
    assert_eq!(trace.eliminations[1].eliminated, "S");
    assert_eq!(trace.eliminations[1].resolved_equation, "S=ab*c");
    assert_eq!(trace.final_expression, "ab*c");
}

#[test]
fn converts_left_linear_numeric_grammar_to_regex() {
    let grammar = parse_grammar("S -> S1 | S2 | S0 | ε").unwrap();

    assert_eq!(to_regex(&grammar).unwrap(), "(1|2|0)*");
}

#[test]
fn rejects_a_self_recursive_grammar_with_no_terminating_alternative() {
    let grammar = parse_grammar("S -> aS").unwrap();
    let result = to_regex(&grammar);

    assert!(matches!(
        result,
        Err(GrammarError::RegexConversionFailed(message)) if message.contains("não produz")
    ));
}

#[test]
fn matches_the_exact_pdf_example_output() {
    let grammar = parse_grammar("S -> aS | ab").unwrap();
    assert_eq!(to_regex(&grammar).unwrap(), "a*ab");
}

#[test]
fn handles_a_chain_of_two_non_terminals() {
    let grammar = parse_grammar("S -> aA\nA -> bA | c").unwrap();
    assert_eq!(to_regex(&grammar).unwrap(), "ab*c");
}

#[test]
fn unions_multiple_self_referencing_alternatives_before_starring() {
    let grammar = parse_grammar("S -> aS | bS | c").unwrap();
    let pattern_text = to_regex(&grammar).unwrap();
    let pattern = Regex::new(&format!("^{pattern_text}$")).unwrap();
    assert!(pattern.is_match("c"));
    assert!(pattern.is_match("abababc"));
    assert!(!pattern.is_match("d"));
}

#[test]
fn generated_sentences_always_match_the_derived_regex() {
    let grammar = parse_grammar("S -> aA | bB\nA -> bA | aC\nB -> aB | bC\nC -> a").unwrap();
    let pattern_text = to_regex(&grammar).unwrap();
    let pattern = Regex::new(&format!("^{pattern_text}$")).unwrap();
    for _ in 0..100 {
        let derivation = derive_random(&grammar).unwrap();
        assert!(
            pattern.is_match(&derivation.sentence),
            "sentença '{}' não bate com {pattern_text}",
            derivation.sentence
        );
    }
}

#[test]
fn equation_pieces_are_written_as_in_the_handout() {
    let t = alternative_to_term(&vec![
        Symbol::Terminal('a'),
        Symbol::Terminal('b'),
        Symbol::NonTerminal("S".to_string()),
    ]);
    assert_eq!(texts(&[t.clone()]), vec![("ab".to_string(), Some("S".to_string()))]);
    assert_eq!(format_term(&t), "abS");
    assert_eq!(
        format_equation(&"S".to_string(), &vec![t, term("c", None)]),
        "S=abS+c"
    );
    assert_eq!(format_term(&term("", None)), "");
    assert_eq!(regex_union(&vec!["a".to_string()]), "a");
    assert_eq!(regex_union(&vec!["a".to_string(), "b".to_string()]), "(a|b)");
    assert_eq!(kleene_star(&"a".to_string()), "a*");
    assert_eq!(kleene_star(&"ab".to_string()), "(ab)*");
}

#[test]
fn self_reference_and_substitution_follow_ardens_rule() {
    let resolved = resolve_self_reference(
        &"S".to_string(),
        &vec![term("a", Some("S")), term("b", Some("S")), term("c", None)],
        false,
    );
    assert_eq!(texts(&resolved), vec![("(a|b)*c".to_string(), None)]);
    let resolved_left = resolve_self_reference(
        &"S".to_string(),
        &vec![term("a", Some("S")), term("b", Some("S")), term("c", None)],
        true,
    );
    assert_eq!(texts(&resolved_left), vec![("c(a|b)*".to_string(), None)]);
    let substituted = substitute(
        &vec![term("a", Some("A")), term("d", None)],
        &"A".to_string(),
        &vec![term("b*c", None)],
        false,
    );
    assert_eq!(
        texts(&substituted),
        vec![("ab*c".to_string(), None), ("d".to_string(), None)]
    );
}

#[test]
fn grammars_whose_rules_each_have_a_terminal_alternative_convert() {
    for text in [
        "S -> aA | b\nA -> bS | ε",
        "S -> 0S | 1A | 0\nA -> 1A | 0S | 1",
        "S -> A1 | 0\nA -> S0 | 1",
        "S -> aB | ε\nB -> bC | b\nC -> cS | c",
    ] {
        let grammar = parse_grammar(text).unwrap();
        assert!(to_regex(&grammar).is_ok(), "{text}");
        assert!(to_regex_trace(&grammar).is_ok(), "{text}");
    }
}

/// Whether `nt` derives `word` in at most `depth` expansions, each writing
/// the terminals of an alternative around what its non-terminal derives.
fn derives_word(grammar: &grammar_engine::grammar::Grammar, nt: &str, word: &[char], depth: usize) -> bool {
    if depth == 0 {
        return false;
    }
    let Some(alternatives) = grammar.alternatives(nt) else {
        return false;
    };
    alternatives.iter().any(|alt| {
        let position = alt.iter().position(|s| matches!(s, Symbol::NonTerminal(_)));
        let terminals = |symbols: &[Symbol]| -> Vec<char> {
            symbols
                .iter()
                .filter_map(|s| match s {
                    Symbol::Terminal(c) => Some(*c),
                    Symbol::NonTerminal(_) => None,
                })
                .collect()
        };
        match position {
            None => word == terminals(alt).as_slice(),
            Some(i) => {
                let before = terminals(&alt[..i]);
                let after = terminals(&alt[i + 1..]);
                let Symbol::NonTerminal(next) = &alt[i] else {
                    return false;
                };
                word.len() >= before.len() + after.len()
                    && word.starts_with(&before)
                    && word.ends_with(&after)
                    && derives_word(
                        grammar,
                        next,
                        &word[before.len()..word.len() - after.len()],
                        depth - 1,
                    )
            }
        }
    })
}

fn words_up_to(alphabet: &[char], max_len: usize) -> Vec<String> {
    let mut all = vec![String::new()];
    let mut frontier = vec![String::new()];
    for _ in 0..max_len {
        let mut next = Vec::new();
        for w in &frontier {
            for c in alphabet {
                let mut longer = w.clone();
                longer.push(*c);
                next.push(longer);
            }
        }
        all.extend(next.iter().cloned());
        frontier = next;
    }
    all
}

#[test]
fn the_expression_accepts_exactly_the_words_of_a_regular_grammar() {
    for text in [
        "S -> aS | ab",
        "S -> aA\nA -> bA | c",
        "S -> aA | bB\nA -> bA | aC\nB -> aB | bC\nC -> a",
        "S -> aA | b\nA -> bS | ε",
        "S -> aS | bS | c",
        "S -> abS | ε",
        "S -> Sa | b",
        "S -> S1 | S2 | S0 | ε",
        "S -> Ab | c\nA -> Sa | a",
        "S -> Aa\nA -> Ab | c",
    ] {
        let grammar = parse_grammar(text).unwrap();
        let pattern_text = to_regex(&grammar).unwrap();
        let pattern = Regex::new(&format!("^(?:{pattern_text})$")).unwrap();
        for word in words_up_to(&['a', 'b', 'c'], 6) {
            let chars: Vec<char> = word.chars().collect();
            assert_eq!(
                pattern.is_match(&word),
                derives_word(&grammar, &grammar.start, &chars, 12),
                "{text}: '{word}' against {pattern_text}"
            );
        }
    }
}

#[test]
fn converts_a_left_linear_grammar_on_its_own_side() {
    let grammar = parse_grammar("S -> Sa | b").unwrap();
    assert_eq!(to_regex(&grammar).unwrap(), "ba*");
    let trace = to_regex_trace(&grammar).unwrap();
    assert_eq!(
        trace.initial_equations,
        vec![("S".to_string(), "S=aS+b".to_string())]
    );
    assert_eq!(trace.eliminations[0].resolved_equation, "S=ba*");
    let pattern = Regex::new("^(?:ba*)$").unwrap();
    assert!(pattern.is_match("b"));
    assert!(pattern.is_match("baa"));
    assert!(!pattern.is_match("ab"));
}

#[test]
fn a_left_linear_chain_substitutes_on_the_left() {
    let grammar = parse_grammar("S -> Ab | c\nA -> Sa | a").unwrap();
    let pattern_text = to_regex(&grammar).unwrap();
    let pattern = Regex::new(&format!("^(?:{pattern_text})$")).unwrap();
    assert!(pattern.is_match("c"));
    assert!(pattern.is_match("ab"));
    assert!(pattern.is_match("cab"));
    assert!(pattern.is_match("abab"));
    assert!(!pattern.is_match("ba"));
}

#[test]
fn the_trace_shows_every_equation_then_eliminates_the_start_symbol_last() {
    let grammar = parse_grammar("S -> aA | b\nA -> bB | c\nB -> aS | a").unwrap();
    let trace = to_regex_trace(&grammar).unwrap();
    let names = |pairs: &[(String, String)]| -> Vec<String> {
        pairs.iter().map(|p| p.0.clone()).collect()
    };
    assert_eq!(names(&trace.initial_equations), vec!["S", "A", "B"]);
    let eliminated: Vec<&str> = trace.eliminations.iter().map(|e| e.eliminated.as_str()).collect();
    assert_eq!(eliminated, vec!["A", "B", "S"]);
    assert_eq!(names(&trace.eliminations[0].remaining_equations), vec!["S", "B"]);
    assert_eq!(names(&trace.eliminations[1].remaining_equations), vec!["S"]);
    assert!(trace.eliminations[2].remaining_equations.is_empty());
}

#[test]
fn sentences_of_a_left_linear_grammar_match_its_expression() {
    let grammar = parse_grammar("S -> Sa | Sb | c").unwrap();
    let pattern_text = to_regex(&grammar).unwrap();
    assert_eq!(pattern_text, "c(a|b)*");
    let pattern = Regex::new(&format!("^(?:{pattern_text})$")).unwrap();
    for _ in 0..50 {
        let derivation = derive_random(&grammar).unwrap();
        assert!(pattern.is_match(&derivation.sentence), "{}", derivation.sentence);
    }
}
