use grammar_engine::session::{AppState, Difficulty, GameFlow, MazeChoiceOutcome, PlayMode, ScreenMode};

#[test]
fn starts_with_the_professor_example_selected() {
    let state = AppState::new();
    assert_eq!(state.grammar_text, "S -> aS | ab");
    assert_eq!(state.selected_example, Some(0));
    assert_eq!(state.mode, ScreenMode::Laboratory);
}

#[test]
fn starts_with_a_grammar_preview_for_the_default_example() {
    let state = AppState::new();
    let overview = state.grammar_preview.expect("default example parses");
    assert_eq!(overview.non_terminals, "{S}");
    assert_eq!(overview.terminals, "{a,b}");
    assert_eq!(overview.start, "S");
    assert_eq!(overview.production_count, 2);
    assert_eq!(state.grammar_is_regular, Some(true));
}

#[test]
fn a_parseable_but_non_regular_grammar_is_flagged_in_the_preview() {
    let mut state = AppState::new();
    state.set_grammar_text("S -> AB\nA -> a\nB -> b".to_string());
    assert!(state.grammar_preview.is_some());
    assert_eq!(state.grammar_is_regular, Some(false));
}

#[test]
fn invalid_grammar_text_clears_the_preview() {
    let mut state = AppState::new();
    state.set_grammar_text("S aS".to_string());
    assert!(state.grammar_preview.is_none());
}

#[test]
fn valid_edits_refresh_the_preview_live() {
    let mut state = AppState::new();
    state.set_grammar_text("S -> aA\nA -> b".to_string());
    let overview = state.grammar_preview.expect("edited grammar parses");
    assert_eq!(overview.non_terminals, "{S,A}");
}

#[test]
fn generation_exposes_sentence_and_pdf_regex() {
    let mut state = AppState::new();
    state.generate();
    let result = state.result.expect("valid default grammar generates");
    assert_eq!(result.regex, "a*ab");
    assert!(!result.sentence.is_empty());
}

#[test]
fn generation_exposes_the_equation_and_elimination_trace() {
    let mut state = AppState::new();
    state.generate();
    let result = state.result.expect("valid default grammar generates");
    assert_eq!(
        result.regex_trace.initial_equations,
        vec![("S".to_string(), "S=aS+ab".to_string())]
    );
    assert_eq!(result.regex_trace.eliminations[0].resolved_equation, "S=a*ab");
    assert_eq!(result.regex_trace.final_expression, "a*ab");
}

#[test]
fn start_free_maze_transitions_to_playing() {
    let mut state = AppState::new();
    assert!(state.start_free_maze().is_ok());
    assert_eq!(state.mode, ScreenMode::Playing);
    assert!(state.derivation_state.is_some());
    assert_eq!(state.active_flow, Some(GameFlow::Free));
    assert_eq!(state.secret_total_steps(), 0);
}

#[test]
fn difficulty_maze_generates_a_secret_route_from_a_new_grammar() {
    let mut state = AppState::new();
    state.selected_difficulty = Difficulty::Medium;
    state.start_difficulty_maze().unwrap();

    assert_eq!(state.active_flow, Some(GameFlow::SecretChallenge));
    assert!((4..=6).contains(&state.secret_total_steps()));
    assert_eq!(state.current_grammar.as_ref().unwrap().non_terminals.len(), 4);
}

#[test]
fn free_maze_finishes_when_the_stack_becomes_empty() {
    let mut state = AppState::new();
    state.start_free_maze().unwrap();

    assert_eq!(state.apply_maze_choice(0).unwrap(), MazeChoiceOutcome::Advanced);
    assert_eq!(state.apply_maze_choice(1).unwrap(), MazeChoiceOutcome::Completed);
    assert_eq!(state.mode, ScreenMode::Won);
    assert_eq!(state.result.as_ref().unwrap().sentence, "aab");
}

#[test]
fn start_free_maze_fails_on_invalid_grammar() {
    let mut state = AppState::new();
    state.set_grammar_text("S -> aB".to_string());
    assert!(state.start_free_maze().is_err());
    assert_eq!(state.mode, ScreenMode::Laboratory);
    assert!(state.error_message.is_some());
}

#[test]
fn start_free_maze_fails_on_an_unproductive_grammar() {
    let mut state = AppState::new();
    state.set_grammar_text("S -> aB\nB -> aB".to_string());
    assert!(state.start_free_maze().is_err());
    assert_eq!(state.mode, ScreenMode::Laboratory);
    assert!(state.error_message.is_some());
    assert!(state.current_grammar.is_none());
    assert!(state.derivation_state.is_none());
}

#[test]
fn a_wrong_secret_door_restarts_the_same_route() {
    let mut state = AppState::new();
    state.selected_difficulty = Difficulty::Medium;
    state.start_difficulty_maze().unwrap();
    let correct = state.correct_secret_choice().unwrap();
    let wrong = if correct == 0 { 1 } else { 0 };

    assert_eq!(state.apply_maze_choice(wrong).unwrap(), MazeChoiceOutcome::Restarted);
    assert_eq!(state.restart_count, 1);
    assert_eq!(state.secret_progress(), 0);
    assert!(state.derivation_state.as_ref().unwrap().steps.is_empty());
}

#[test]
fn a_wrong_door_past_the_first_checkpoint_rewinds_to_it_instead_of_the_start() {
    let mut state = AppState::new();
    state.selected_difficulty = Difficulty::Hard;
    state.start_difficulty_maze().unwrap();

    for _ in 0..6 {
        let correct = state.correct_secret_choice().unwrap();
        state.apply_maze_choice(correct).unwrap();
    }
    assert_eq!(state.secret_progress(), 6);

    let correct = state.correct_secret_choice().unwrap();
    let wrong = if correct == 0 { 1 } else { 0 };
    assert_eq!(state.apply_maze_choice(wrong).unwrap(), MazeChoiceOutcome::Restarted);

    assert_eq!(state.secret_progress(), 5);
    assert_eq!(state.derivation_state.as_ref().unwrap().steps.len(), 5);
}

#[test]
fn completing_the_secret_route_reveals_the_sentence_and_wins_directly() {
    let mut state = AppState::new();
    state.selected_difficulty = Difficulty::Medium;
    state.start_difficulty_maze().unwrap();

    while let Some(choice) = state.correct_secret_choice() {
        state.apply_maze_choice(choice).unwrap();
    }

    assert_eq!(state.mode, ScreenMode::Won);
    assert_eq!(state.secret_progress(), state.secret_total_steps());
    assert!(state
        .result
        .as_ref()
        .is_some_and(|result| !result.sentence.is_empty()));
    assert!(state.score.unwrap() > 0);
}

#[test]
fn stack_animation_shows_the_pushed_stack_then_settles() {
    let mut state = AppState::new();
    state.start_free_maze().unwrap();
    state.apply_maze_choice(0).unwrap();

    assert!(state.stack_animation_active());
    assert_eq!(state.visual_stack_snapshot().len(), 2);
    state.finish_stack_animation();
    assert_eq!(state.visual_stack_snapshot().len(), 1);
}

#[test]
fn difficulties_have_their_labels_ranges_and_shapes() {
    let all = Difficulty::all();
    assert_eq!(all.len(), 5);
    assert_eq!(Difficulty::Easy.label(), "Fácil");
    assert_eq!(Difficulty::Extreme.label(), "Extremamente difícil");
    assert_eq!(Difficulty::Medium.step_range(), (4, 6));
    assert_eq!(Difficulty::Impossible.step_range(), (16, 20));
    let config = Difficulty::Hard.grammar_config();
    assert_eq!(config.non_terminal_count, 5);
    assert_eq!(config.alternatives_per_non_terminal, 4);
    assert_eq!(config.min_terminals_per_production, 2);
    assert_eq!(config.max_terminals_per_production, 4);
    assert_eq!(config.terminal_count, 4);
    assert_eq!(PlayMode::default(), PlayMode::Free);
}

#[test]
fn the_gentler_difficulties_start_challenges_of_their_length() {
    for difficulty in [Difficulty::Easy, Difficulty::Medium, Difficulty::Hard] {
        let mut state = AppState::new();
        state.selected_difficulty = difficulty;
        state.start_difficulty_maze().unwrap();
        let (min, max) = difficulty.step_range();
        assert!((min..=max).contains(&state.secret_total_steps()));
        assert_eq!(state.secret_progress(), 0);
        assert_eq!(state.mode, ScreenMode::Playing);
    }
}

#[test]
fn the_score_counts_expansions_and_restarts() {
    let mut state = AppState::new();
    state.selected_difficulty = Difficulty::Easy;
    state.start_difficulty_maze().unwrap();
    let correct = state.correct_secret_choice().unwrap();
    let wrong = if correct == 0 { 1 } else { 0 };
    state.apply_maze_choice(wrong).unwrap();
    let total = state.secret_total_steps();
    while let Some(choice) = state.correct_secret_choice() {
        state.apply_maze_choice(choice).unwrap();
    }
    assert_eq!(state.score, Some(1000 - 25 * total as u32 - 150));
    assert_eq!(state.secret_last_checkpoint(), 0);
}

#[test]
fn selecting_an_example_loads_its_text() {
    let mut state = AppState::new();
    state.select_example(1);
    assert_eq!(state.grammar_text, "S -> aS | aA\nA -> bA | c");
    assert_eq!(state.selected_example, Some(1));
    state.select_example(7);
    assert_eq!(state.selected_example, Some(1));
}

#[test]
fn the_live_panel_follows_the_maze() {
    let mut state = AppState::new();
    assert!(state.live_panel_result().is_none());
    state.start_free_maze().unwrap();
    state.apply_maze_choice(0).unwrap();
    let panel = state.live_panel_result().unwrap();
    assert_eq!(panel.sentence, "a");
    assert_eq!(panel.regex, "a*ab");
    assert_eq!(panel.steps.len(), 1);
    state.back_to_lab();
    assert_eq!(state.mode, ScreenMode::Laboratory);
}

#[test]
fn playing_again_starts_the_same_flow_over() {
    let mut state = AppState::new();
    state.start_free_maze().unwrap();
    state.apply_maze_choice(0).unwrap();
    state.reset_maze();
    assert_eq!(state.active_flow, Some(GameFlow::Free));
    assert!(state.derivation_state.as_ref().unwrap().steps.is_empty());
}
