use grammar_engine::derivation::DerivationState;
use grammar_engine::grammar::parse_grammar;
use grammar_engine::maze::{DoorKind, plan_doors};

#[test]
fn room_generates_one_door_per_alternative() {
    let grammar = parse_grammar("S -> aS | ab").unwrap();
    let state = DerivationState::new(&grammar);
    let (non_terminal, doors) = plan_doors(&grammar, &state);

    assert_eq!(non_terminal.as_deref(), Some("S"));
    assert_eq!(doors.len(), 2);
    assert_eq!(doors[0].choice_index, 0);
    assert_eq!(doors[0].label, "S → aS");
    assert_eq!(doors[1].choice_index, 1);
    assert_eq!(doors[1].label, "S → ab");
    assert_eq!(doors[0].kind, DoorKind::Production);
    assert_eq!(doors[1].kind, DoorKind::Production);
}

#[test]
fn room_generates_exit_door_when_stack_is_empty() {
    let grammar = parse_grammar("S -> a").unwrap();
    let mut state = DerivationState::new(&grammar);
    state.apply_choice(&grammar, 0).unwrap();
    assert!(state.is_complete());

    let (non_terminal, doors) = plan_doors(&grammar, &state);
    assert_eq!(non_terminal, None);
    assert_eq!(doors.len(), 1);
    assert_eq!(doors[0].kind, DoorKind::Exit);
    assert_eq!(doors[0].label, "★ SAÍDA DO LABIRINTO (VITÓRIA) ★");
}

#[test]
fn the_empty_word_is_labelled_epsilon() {
    let grammar = parse_grammar("S -> aS | &").unwrap();
    let state = DerivationState::new(&grammar);
    let (_, doors) = plan_doors(&grammar, &state);
    assert_eq!(doors[1].label, "S → ε");
}
