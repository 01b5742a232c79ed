use grammar_engine::derivation::{
    DerivationEvent, DerivationState, derive_random, derive_random_in_step_range,
    production_ends_in,
};
use grammar_engine::grammar::parse_grammar;
use grammar_engine::symbol::{GrammarError, Symbol};
use regex::Regex;

#[test]
fn derives_a_sentence_matching_the_pdf_example_language() {
    let grammar = parse_grammar("S -> aS | ab").unwrap();
    let pattern = Regex::new(r"^a*ab$").unwrap();
    for _ in 0..50 {
        let derivation = derive_random(&grammar).unwrap();
        assert!(
            pattern.is_match(&derivation.sentence),
            "sentença '{}' não bate com a*ab",
            derivation.sentence
        );
    }
}

#[test]
fn derives_a_random_terminating_route_within_the_requested_step_range() {
    let grammar = parse_grammar("S -> aS | ab").unwrap();
    let derivation = derive_random_in_step_range(&grammar, 4, 6).unwrap();

    assert!((4..=6).contains(&derivation.steps.len()));
    assert!(derivation.sentence.ends_with('b'));
}

#[test]
fn reports_when_a_step_range_cannot_terminate_in_the_grammar() {
    let grammar = parse_grammar("S -> aA\nA -> b").unwrap();

    assert_eq!(
        derive_random_in_step_range(&grammar, 3, 5).unwrap_err(),
        GrammarError::NoDerivationInStepRange { min: 3, max: 5 }
    );
}

#[test]
fn records_one_step_per_non_terminal_expansion() {
    let grammar = parse_grammar("S -> a").unwrap();
    let derivation = derive_random(&grammar).unwrap();
    assert_eq!(derivation.steps.len(), 1);
    assert_eq!(derivation.sentence, "a");
    assert_eq!(derivation.steps[0].non_terminal, "S");
    assert_eq!(derivation.steps[0].output_so_far, "");
    assert_eq!(derivation.steps[0].stack_after, vec![Symbol::Terminal('a')]);
}

#[test]
fn errors_out_instead_of_looping_forever_on_a_dead_end_grammar() {
    let grammar = parse_grammar("S -> aS").unwrap();
    let result = derive_random(&grammar);
    assert_eq!(result.unwrap_err(), GrammarError::DerivationTooLong);
}

#[test]
fn records_all_non_terminal_expansions_at_all_depths() {
    let grammar = parse_grammar("S -> aA\nA -> a").unwrap();
    let derivation = derive_random(&grammar).unwrap();
    assert_eq!(derivation.sentence, "aa");
    assert_eq!(derivation.steps.len(), 2);
    assert_eq!(derivation.steps[0].non_terminal, "S");
    assert_eq!(derivation.steps[0].output_so_far, "");
    assert_eq!(derivation.steps[1].non_terminal, "A");
    assert_eq!(derivation.steps[1].output_so_far, "a");
}

#[test]
fn records_a_full_event_trace_matching_the_pdf_fixture() {
    let grammar = parse_grammar("S -> aS | ab").unwrap();
    let mut state = DerivationState::new(&grammar);

    state.apply_choice(&grammar, 0).unwrap();
    state.apply_choice(&grammar, 0).unwrap();
    state.apply_choice(&grammar, 1).unwrap();

    assert!(state.is_complete());
    assert_eq!(state.output, "aaab");

    let chosen: Vec<usize> = state
        .events
        .iter()
        .filter_map(|event| match event {
            DerivationEvent::ProductionChosen {
                alternative_index, ..
            } => Some(*alternative_index),
            _ => None,
        })
        .collect();
    assert_eq!(chosen, vec![0, 0, 1]);

    let popped: Vec<char> = state
        .events
        .iter()
        .filter_map(|event| match event {
            DerivationEvent::TerminalPopped { terminal, .. } => Some(*terminal),
            _ => None,
        })
        .collect();
    assert_eq!(popped, vec!['a', 'a', 'a', 'b']);

    let pushed_stacks: Vec<Vec<Symbol>> = state
        .events
        .iter()
        .filter_map(|event| match event {
            DerivationEvent::Pushed { stack_after } => Some(stack_after.clone()),
            _ => None,
        })
        .collect();
    assert_eq!(
        pushed_stacks[0],
        vec![Symbol::Terminal('a'), Symbol::NonTerminal("S".to_string())]
    );

    match state.events.last() {
        Some(DerivationEvent::Completed { sentence }) => assert_eq!(sentence, "aaab"),
        other => panic!("esperava evento Completed no final, veio {other:?}"),
    }
}

#[test]
fn derivation_state_manages_controlled_choices_and_completion() {
    let grammar = parse_grammar("S -> aS | ab").unwrap();
    let mut state = DerivationState::new(&grammar);

    assert_eq!(state.current_non_terminal().as_deref(), Some("S"));
    assert!(!state.is_complete());
    assert_eq!(state.output, "");

    state.apply_choice(&grammar, 0).unwrap();
    assert_eq!(state.output, "a");
    assert_eq!(state.current_non_terminal().as_deref(), Some("S"));
    assert_eq!(state.steps.len(), 1);
    assert_eq!(state.steps[0].non_terminal, "S");
    assert_eq!(
        state.steps[0].production,
        vec![Symbol::Terminal('a'), Symbol::NonTerminal("S".to_string())]
    );

    state.apply_choice(&grammar, 1).unwrap();
    assert_eq!(state.output, "aab");
    assert!(state.is_complete());
    assert_eq!(state.current_non_terminal(), None);
    assert_eq!(state.steps.len(), 2);
}

#[test]
fn derives_a_left_linear_numeric_grammar_with_the_stack() {
    let grammar = parse_grammar("S -> S1 | S2 | S0 | ε").unwrap();
    let mut state = DerivationState::new(&grammar);

    state.apply_choice(&grammar, 0).unwrap();
    state.apply_choice(&grammar, 1).unwrap();
    state.apply_choice(&grammar, 3).unwrap();

    assert!(state.is_complete());
    assert_eq!(state.output, "21");
}

#[test]
fn a_choice_beyond_the_alternatives_is_refused() {
    let grammar = parse_grammar("S -> aS | ab").unwrap();
    let mut state = DerivationState::new(&grammar);
    assert_eq!(
        state.apply_choice(&grammar, 2).unwrap_err(),
        GrammarError::ParseError("escolha de produção inválida".to_string())
    );
}

#[test]
fn a_choice_after_completion_is_refused() {
    let grammar = parse_grammar("S -> a").unwrap();
    let mut state = DerivationState::new(&grammar);
    state.apply_choice(&grammar, 0).unwrap();
    assert!(state.is_complete());
    assert_eq!(
        state.apply_choice(&grammar, 0).unwrap_err(),
        GrammarError::DerivationTooLong
    );
}

#[test]
fn terminals_on_top_are_popped_to_the_output() {
    let grammar = parse_grammar("S -> abA\nA -> c").unwrap();
    let mut state = DerivationState::new(&grammar);
    state.apply_choice(&grammar, 0).unwrap();
    assert_eq!(state.output, "ab");
    state.consume_terminals();
    assert_eq!(state.output, "ab");
    assert_eq!(state.current_non_terminal().as_deref(), Some("A"));
}

#[test]
fn a_route_of_every_requested_length_is_found() {
    let grammar = parse_grammar("S -> aS | ab").unwrap();
    for steps in 1..=5 {
        let derivation = derive_random_in_step_range(&grammar, steps, steps).unwrap();
        assert_eq!(derivation.steps.len(), steps);
        assert_eq!(derivation.sentence.len(), steps + 1);
    }
    assert_eq!(
        derive_random_in_step_range(&grammar, 0, 3).unwrap_err(),
        GrammarError::NoDerivationInStepRange { min: 0, max: 3 }
    );
    assert_eq!(
        derive_random_in_step_range(&grammar, 4, 3).unwrap_err(),
        GrammarError::NoDerivationInStepRange { min: 4, max: 3 }
    );
}

#[test]
fn productions_end_in_their_last_non_terminal() {
    assert_eq!(
        production_ends_in(&vec![Symbol::Terminal('a'), Symbol::NonTerminal("S".to_string())]),
        Some(&"S".to_string())
    );
    assert_eq!(production_ends_in(&vec![Symbol::Terminal('a')]), None);
    assert_eq!(production_ends_in(&vec![]), None);
}

#[test]
fn the_route_length_is_drawn_among_the_possible_ones() {
    let grammar = parse_grammar("S -> aS | ab").unwrap();
    let mut lengths = std::collections::HashSet::new();
    for _ in 0..60 {
        let derivation = derive_random_in_step_range(&grammar, 1, 5).unwrap();
        lengths.insert(derivation.steps.len());
    }
    assert!(lengths.len() >= 2);
    assert!(lengths.iter().all(|n| (1..=5).contains(n)));
}

#[test]
fn a_left_linear_grammar_is_derived_within_a_step_range() {
    let grammar = parse_grammar("S -> S1 | ε").unwrap();
    let one = derive_random_in_step_range(&grammar, 1, 1).unwrap();
    assert_eq!(one.steps.len(), 1);
    assert_eq!(one.sentence, "");
    let three = derive_random_in_step_range(&grammar, 3, 3).unwrap();
    assert_eq!(three.steps.len(), 3);
    assert_eq!(three.sentence, "11");
}

#[test]
fn a_left_linear_chain_is_derived_within_a_step_range() {
    let grammar = parse_grammar("S -> Aa\nA -> Ab | c").unwrap();
    for _ in 0..20 {
        let d = derive_random_in_step_range(&grammar, 2, 4).unwrap();
        assert!((2..=4).contains(&d.steps.len()));
        let expected = format!("c{}a", "b".repeat(d.steps.len() - 2));
        assert_eq!(d.sentence, expected);
    }
}
