use grammar_engine::generation::{RandomGrammarConfig, generate_random_regular_grammar};
use grammar_engine::grammar::{
    format_alternative, is_valid_non_terminal_name, parse_alternative, parse_grammar,
    split_production_line, validate_regular,
};
use grammar_engine::symbol::{GrammarError, Symbol};

fn chars(s: &str) -> Vec<char> {
    s.chars().collect()
}

#[test]
fn overview_exposes_ordered_n_t_p_s_for_the_pdf_example() {
    let grammar = parse_grammar("S -> aS | ab").unwrap();
    let overview = grammar.overview();
    assert_eq!(overview.non_terminals, "{S}");
    assert_eq!(overview.terminals, "{a,b}");
    assert_eq!(overview.start, "S");
    assert_eq!(overview.production_lines, vec!["S -> aS | ab".to_string()]);
    assert_eq!(overview.production_count, 2);
}

#[test]
fn accepts_left_linear_grammar_with_numeric_terminals() {
    let grammar = parse_grammar("S -> S1 | S2 | S0 | ε").unwrap();

    assert_eq!(grammar.terminals, vec!['0', '1', '2']);
    assert!(validate_regular(&grammar).is_ok());
}

#[test]
fn overview_groups_productions_per_non_terminal_in_declaration_order() {
    let grammar = parse_grammar("S -> aA\nS -> b\nA -> a").unwrap();
    let overview = grammar.overview();
    assert_eq!(overview.non_terminals, "{S,A}");
    assert_eq!(
        overview.production_lines,
        vec!["S -> aA | b".to_string(), "A -> a".to_string()]
    );
    assert_eq!(overview.production_count, 3);
}

#[test]
fn generated_challenge_grammar_is_regular_and_has_the_requested_shape() {
    let config = RandomGrammarConfig {
        non_terminal_count: 5,
        alternatives_per_non_terminal: 4,
        min_terminals_per_production: 2,
        max_terminals_per_production: 4,
        terminal_count: 4,
    };
    let grammar = generate_random_regular_grammar(config).unwrap();

    assert_eq!(grammar.non_terminals.len(), 5);
    assert_eq!(grammar.terminals.len(), 4);
    assert_eq!(grammar.overview().production_count, 20);
    assert!(validate_regular(&grammar).is_ok());
}

#[test]
fn parses_pdf_example_grammar() {
    let grammar = parse_grammar("S -> aS | ab").unwrap();
    assert_eq!(grammar.start, "S");
    assert_eq!(grammar.non_terminals, vec!["S".to_string()]);
    assert_eq!(grammar.terminals, vec!['a', 'b']);
    let alts = grammar.alternatives("S").unwrap();
    assert_eq!(alts.len(), 2);
    assert_eq!(
        alts[0],
        vec![Symbol::Terminal('a'), Symbol::NonTerminal("S".to_string())]
    );
    assert_eq!(alts[1], vec![Symbol::Terminal('a'), Symbol::Terminal('b')]);
}

#[test]
fn accepts_pdf_notation_with_double_colon_equals() {
    let grammar = parse_grammar("S ::= aS | ab").unwrap();
    assert_eq!(grammar.start, "S");
}

#[test]
fn epsilon_alternative_parses_as_empty_symbol_list() {
    let grammar = parse_grammar("S -> aS | &").unwrap();
    let alts = grammar.alternatives("S").unwrap();
    assert!(alts.iter().any(|alt| alt.is_empty()));
}

#[test]
fn merges_multiple_lines_for_the_same_non_terminal() {
    let grammar = parse_grammar("S -> aA\nS -> b\nA -> a").unwrap();
    assert_eq!(grammar.alternatives("S").unwrap().len(), 2);
}

#[test]
fn rejects_reference_to_undeclared_non_terminal() {
    let err = parse_grammar("S -> aB").unwrap_err();
    assert_eq!(err, GrammarError::UndefinedNonTerminal("B".to_string()));
}

#[test]
fn rejects_line_without_separator() {
    let err = parse_grammar("S aS").unwrap_err();
    assert!(matches!(err, GrammarError::ParseError(_)));
}

#[test]
fn rejects_empty_input() {
    let err = parse_grammar("").unwrap_err();
    assert_eq!(err, GrammarError::EmptyGrammar);
}

#[test]
fn rejects_multi_character_non_terminal_names() {
    let err = parse_grammar("AB -> a").unwrap_err();
    assert!(matches!(err, GrammarError::ParseError(_)));
}

#[test]
fn ignores_blank_lines_and_comments() {
    let grammar = parse_grammar("# gramática de teste\nS -> a\n\n").unwrap();
    assert_eq!(grammar.start, "S");
}

#[test]
fn forward_references_to_non_terminals_declared_later_are_allowed() {
    let grammar = parse_grammar("S -> aA\nA -> b").unwrap();
    assert!(grammar.alternatives("S").is_some());
}

#[test]
fn accepts_right_linear_pdf_example() {
    let grammar = parse_grammar("S -> aS | ab").unwrap();
    assert!(validate_regular(&grammar).is_ok());
}

#[test]
fn accepts_multi_non_terminal_right_linear_grammar() {
    let grammar = parse_grammar("S -> aA | bB\nA -> bA | aC\nB -> aB | bC\nC -> a").unwrap();
    assert!(validate_regular(&grammar).is_ok());
}

#[test]
fn rejects_non_terminal_in_the_middle_of_an_alternative() {
    let grammar = parse_grammar("S -> aAb\nA -> c").unwrap();
    let err = validate_regular(&grammar).unwrap_err();
    assert!(matches!(err, GrammarError::NotRegular { .. }));
}

#[test]
fn rejects_more_than_one_non_terminal_in_an_alternative() {
    let grammar = parse_grammar("S -> AB\nA -> a\nB -> b").unwrap();
    let err = validate_regular(&grammar).unwrap_err();
    assert!(matches!(err, GrammarError::NotRegular { .. }));
}

#[test]
fn not_regular_errors_name_the_alternative_and_the_reason() {
    let grammar = parse_grammar("S -> aAb\nA -> c").unwrap();
    assert_eq!(
        validate_regular(&grammar).unwrap_err(),
        GrammarError::NotRegular {
            non_terminal: "S".to_string(),
            alternative: "aAb".to_string(),
            reason: "o não-terminal deve estar no início ou no fim da produção".to_string(),
        }
    );
    let grammar = parse_grammar("S -> AB\nA -> a\nB -> b").unwrap();
    assert_eq!(
        validate_regular(&grammar).unwrap_err(),
        GrammarError::NotRegular {
            non_terminal: "S".to_string(),
            alternative: "AB".to_string(),
            reason: "uma produção regular pode conter no máximo um não-terminal".to_string(),
        }
    );
    let grammar = parse_grammar("S -> aA | Ab\nA -> c").unwrap();
    assert_eq!(
        validate_regular(&grammar).unwrap_err(),
        GrammarError::NotRegular {
            non_terminal: "S".to_string(),
            alternative: "Ab".to_string(),
            reason: "não misture produções regulares à esquerda e à direita na mesma gramática"
                .to_string(),
        }
    );
}

#[test]
fn parse_errors_carry_their_messages() {
    assert_eq!(
        parse_grammar("S aS").unwrap_err(),
        GrammarError::ParseError("linha sem separador '->' ou '::=': 'S aS'".to_string())
    );
    assert!(matches!(
        parse_grammar("S -> a?").unwrap_err(),
        GrammarError::ParseError(m) if m.starts_with("símbolo inválido '?' em 'a?'")
    ));
}

#[test]
fn terminals_are_sorted_and_listed_once() {
    let grammar = parse_grammar("S -> cA | bS\nA -> ab | c").unwrap();
    assert_eq!(grammar.terminals, vec!['a', 'b', 'c']);
    assert_eq!(grammar.non_terminals, vec!["S".to_string(), "A".to_string()]);
}

#[test]
fn line_splitting_prefers_the_bnf_separator() {
    let (lhs, rhs) = split_production_line(&chars(" S ::= a->b ")).unwrap();
    assert_eq!(lhs, chars("S"));
    assert_eq!(rhs, chars("a->b"));
    let (lhs, rhs) = split_production_line(&chars("A->  x")).unwrap();
    assert_eq!(lhs, chars("A"));
    assert_eq!(rhs, chars("x"));
    assert!(split_production_line(&chars("A x")).is_err());
}

#[test]
fn names_are_single_upper_case_letters() {
    assert!(is_valid_non_terminal_name(&chars("S")));
    assert!(!is_valid_non_terminal_name(&chars("s")));
    assert!(!is_valid_non_terminal_name(&chars("SA")));
    assert!(!is_valid_non_terminal_name(&chars("")));
}

#[test]
fn alternatives_parse_symbol_by_symbol() {
    assert_eq!(
        parse_alternative(&chars("a1B")).unwrap(),
        vec![
            Symbol::Terminal('a'),
            Symbol::Terminal('1'),
            Symbol::NonTerminal("B".to_string())
        ]
    );
    assert_eq!(parse_alternative(&chars("&")).unwrap(), vec![]);
    assert_eq!(parse_alternative(&chars("ε")).unwrap(), vec![]);
    assert!(parse_alternative(&chars("a b")).is_err());
}

#[test]
fn alternatives_are_written_back_with_ampersand_for_the_empty_word() {
    assert_eq!(format_alternative(&vec![]), "&");
    assert_eq!(
        format_alternative(&vec![Symbol::Terminal('a'), Symbol::NonTerminal("S".to_string())]),
        "aS"
    );
}

#[test]
fn invalid_generator_configurations_are_refused() {
    let config = RandomGrammarConfig {
        non_terminal_count: 1,
        alternatives_per_non_terminal: 2,
        min_terminals_per_production: 1,
        max_terminals_per_production: 2,
        terminal_count: 2,
    };
    assert_eq!(
        generate_random_regular_grammar(config).unwrap_err(),
        GrammarError::ParseError("configuração inválida para gramática aleatória".to_string())
    );
}

#[test]
fn generated_grammars_start_with_s_and_use_the_first_letters() {
    let config = RandomGrammarConfig {
        non_terminal_count: 3,
        alternatives_per_non_terminal: 2,
        min_terminals_per_production: 1,
        max_terminals_per_production: 2,
        terminal_count: 2,
    };
    let grammar = generate_random_regular_grammar(config).unwrap();
    assert_eq!(
        grammar.non_terminals,
        vec!["S".to_string(), "A".to_string(), "B".to_string()]
    );
    assert_eq!(grammar.terminals, vec!['a', 'b']);
    assert_eq!(grammar.start, "S");
    for name in &grammar.non_terminals {
        let alts = grammar.alternatives(name).unwrap();
        assert_eq!(alts.len(), 2);
        assert!(alts[0].iter().all(|s| matches!(s, Symbol::Terminal(_))));
        assert!(matches!(alts[1].last(), Some(Symbol::NonTerminal(_))));
    }
}

#[test]
fn generated_lengths_and_terminals_are_drawn_at_random() {
    let config = RandomGrammarConfig {
        non_terminal_count: 3,
        alternatives_per_non_terminal: 2,
        min_terminals_per_production: 1,
        max_terminals_per_production: 2,
        terminal_count: 2,
    };
    let mut lengths = std::collections::HashSet::new();
    let mut terminals = std::collections::HashSet::new();
    for _ in 0..20 {
        let grammar = generate_random_regular_grammar(config).unwrap();
        for name in &grammar.non_terminals {
            for alt in grammar.alternatives(name).unwrap() {
                let t: Vec<char> = alt
                    .iter()
                    .filter_map(|s| match s {
                        Symbol::Terminal(c) => Some(*c),
                        _ => None,
                    })
                    .collect();
                lengths.insert(t.len());
                terminals.extend(t);
            }
        }
    }
    assert_eq!(lengths.len(), 2);
    assert_eq!(terminals.len(), 2);
}

#[test]
fn generated_grammars_always_convert_to_a_regular_expression() {
    let config = RandomGrammarConfig {
        non_terminal_count: 4,
        alternatives_per_non_terminal: 3,
        min_terminals_per_production: 1,
        max_terminals_per_production: 3,
        terminal_count: 3,
    };
    for _ in 0..20 {
        let grammar = generate_random_regular_grammar(config).unwrap();
        assert!(grammar_engine::regex_conversion::to_regex(&grammar).is_ok());
    }
}

#[test]
fn a_parsed_grammar_lists_its_names_once_and_its_terminals_sorted() {
    let grammar = parse_grammar("# comentário\nS -> zA | b\n\nA -> yS | a\nS -> c").unwrap();
    assert_eq!(grammar.start, "S");
    assert_eq!(grammar.non_terminals, vec!["S".to_string(), "A".to_string()]);
    assert_eq!(grammar.terminals, vec!['a', 'b', 'c', 'y', 'z']);
    assert_eq!(grammar.productions.len(), 2);
    assert_eq!(grammar.productions[0].alternatives.len(), 3);
}
