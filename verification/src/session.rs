//! The game: the laboratory where a grammar is edited and tried, and the
//! maze where a derivation is walked door by door.

use vstd::prelude::*;

use crate::derivation::{
    DerivationEvent, DerivationState, DerivationStep, EventModel, MAX_DERIVATION_STEPS, StateModel,
    StepModel, chosen_alternatives, copy_steps, derive_random,
    derive_random_in_step_range, feasible, initial_state, lemma_parsed_grammar_has_alternatives,
    lemma_replay, right_linear, run, step, top_non_terminal,
};
use crate::generation::{generate_random_regular_grammar, generated_shape, lemma_generated_grammar};
use crate::regex_conversion::{regex_trace_of, to_regex_trace};
use crate::symbol::{ErrorModel, GrammarError};
use crate::examples::{example_models, example_sources};
use crate::generation::{RandomGrammarConfig, valid_config};
use crate::grammar::{
    Grammar, GrammarModel, GrammarOverview, OverviewModel, alternatives_of, grammar_of_text, overview_of,
    parse_grammar, production_count, regularity, validate_regular,
};
use crate::regex_conversion::{RegexTrace, RegexTraceModel};
use crate::symbol::{Symbol, SymbolModel, error_message, string_from};

verus! {

#[derive(Debug, Clone, Copy, PartialEq, Eq, Structural)]
pub enum ScreenMode {
    Laboratory,
    Playing,
    Won,
}

#[derive(Debug, Clone, Copy, PartialEq, Eq, Structural)]
pub enum Difficulty {
    Easy,
    Medium,
    Hard,
    Extreme,
    Impossible,
}

pub open spec fn difficulty_label(d: Difficulty) -> Seq<char> {
    match d {
        Difficulty::Easy => "Fácil"@,
        Difficulty::Medium => "Médio"@,
        Difficulty::Hard => "Difícil"@,
        Difficulty::Extreme => "Extremamente difícil"@,
        Difficulty::Impossible => "Impossível"@,
    }
}

/// The least and the most expansions of a challenge route.
pub open spec fn difficulty_steps(d: Difficulty) -> (usize, usize) {
    match d {
        Difficulty::Easy => (1, 3),
        Difficulty::Medium => (4, 6),
        Difficulty::Hard => (7, 10),
        Difficulty::Extreme => (11, 15),
        Difficulty::Impossible => (16, 20),
    }
}

pub open spec fn config_of(n: usize, a: usize, min: usize, max: usize, t: usize) -> RandomGrammarConfig {
    RandomGrammarConfig {
        non_terminal_count: n,
        alternatives_per_non_terminal: a,
        min_terminals_per_production: min,
        max_terminals_per_production: max,
        terminal_count: t,
    }
}

/// The shape of the grammars drawn for a challenge.
pub open spec fn difficulty_config(d: Difficulty) -> RandomGrammarConfig {
    match d {
        Difficulty::Easy => config_of(3, 2, 1, 2, 2),
        Difficulty::Medium => config_of(4, 3, 1, 3, 3),
        Difficulty::Hard => config_of(5, 4, 2, 4, 4),
        Difficulty::Extreme => config_of(7, 4, 2, 5, 5),
        Difficulty::Impossible => config_of(9, 5, 3, 6, 6),
    }
}

impl Difficulty {
    /// Every difficulty, from the easiest.
    pub fn all() -> (r: [Difficulty; 5])
        ensures
            r@ == seq![
                Difficulty::Easy,
                Difficulty::Medium,
                Difficulty::Hard,
                Difficulty::Extreme,
                Difficulty::Impossible,
            ],
    {
        let r = [
            Difficulty::Easy,
            Difficulty::Medium,
            Difficulty::Hard,
            Difficulty::Extreme,
            Difficulty::Impossible,
        ];
        assert(r@ =~= seq![
            Difficulty::Easy,
            Difficulty::Medium,
            Difficulty::Hard,
            Difficulty::Extreme,
            Difficulty::Impossible,
        ]);
        r
    }

    pub fn label(self) -> (r: &'static str)
        ensures
            r@ == difficulty_label(self),
    {
        match self {
            Difficulty::Easy => "Fácil",
            Difficulty::Medium => "Médio",
            Difficulty::Hard => "Difícil",
            Difficulty::Extreme => "Extremamente difícil",
            Difficulty::Impossible => "Impossível",
        }
    }

    pub fn step_range(self) -> (r: (usize, usize))
        ensures
            r == difficulty_steps(self),
    {
        match self {
            Difficulty::Easy => (1, 3),
            Difficulty::Medium => (4, 6),
            Difficulty::Hard => (7, 10),
            Difficulty::Extreme => (11, 15),
            Difficulty::Impossible => (16, 20),
        }
    }

    pub fn grammar_config(self) -> (r: RandomGrammarConfig)
        ensures
            r == difficulty_config(self),
    {
        match self {
            Difficulty::Easy => RandomGrammarConfig {
                non_terminal_count: 3,
                alternatives_per_non_terminal: 2,
                min_terminals_per_production: 1,
                max_terminals_per_production: 2,
                terminal_count: 2,
            },
            Difficulty::Medium => RandomGrammarConfig {
                non_terminal_count: 4,
                alternatives_per_non_terminal: 3,
                min_terminals_per_production: 1,
                max_terminals_per_production: 3,
                terminal_count: 3,
            },
            Difficulty::Hard => RandomGrammarConfig {
                non_terminal_count: 5,
                alternatives_per_non_terminal: 4,
                min_terminals_per_production: 2,
                max_terminals_per_production: 4,
                terminal_count: 4,
            },
            Difficulty::Extreme => RandomGrammarConfig {
                non_terminal_count: 7,
                alternatives_per_non_terminal: 4,
                min_terminals_per_production: 2,
                max_terminals_per_production: 5,
                terminal_count: 5,
            },
            Difficulty::Impossible => RandomGrammarConfig {
                non_terminal_count: 9,
                alternatives_per_non_terminal: 5,
                min_terminals_per_production: 3,
                max_terminals_per_production: 6,
                terminal_count: 6,
            },
        }
    }
}

/// Every difficulty asks for grammars that the generator accepts, and for
/// routes of at least one expansion, harder ones for longer routes.
pub proof fn lemma_difficulties_are_playable(d: Difficulty)
    ensures
        valid_config(difficulty_config(d)),
        1 <= difficulty_steps(d).0 <= difficulty_steps(d).1,
{
}

#[derive(Debug, Clone, Copy, PartialEq, Eq, Structural)]
pub enum MazeChoiceOutcome {
    Advanced,
    Restarted,
    Completed,
}

#[derive(Debug, Clone, Copy, PartialEq, Eq, Structural)]
pub enum GameFlow {
    Free,
    SecretChallenge,
}

/// Which of the two maze flows the editor's mode toggle selects; the
/// `GameFlow` of a started maze is what rules it.
#[derive(Debug, Clone, Copy, PartialEq, Eq, Structural)]
pub enum PlayMode {
    Free,
    Enigma,
}

impl Default for PlayMode {
    fn default() -> (r: PlayMode)
        ensures
            r == PlayMode::Free,
    {
        PlayMode::Free
    }
}

/// What the side panel shows of a derivation: the sentence, the regular
/// expression, how it was obtained, and the steps.
#[derive(Debug, Clone)]
pub struct PanelResult {
    pub sentence: String,
    pub regex: String,
    pub regex_trace: RegexTrace,
    pub steps: Vec<DerivationStep>,
}

pub struct PanelModel {
    pub sentence: Seq<char>,
    pub regex: Seq<char>,
    pub regex_trace: RegexTraceModel,
    pub steps: Seq<StepModel>,
}

impl DeepView for PanelResult {
    type V = PanelModel;

    open spec fn deep_view(&self) -> PanelModel {
        PanelModel {
            sentence: self.sentence@,
            regex: self.regex@,
            regex_trace: self.regex_trace.deep_view(),
            steps: self.steps.deep_view(),
        }
    }
}

/// The panel of a finished or ongoing derivation `st`, with the trace `t`.
pub open spec fn panel_of(st: StateModel, t: RegexTraceModel) -> PanelModel {
    PanelModel { sentence: st.output, regex: t.final_expression, regex_trace: t, steps: st.steps }
}

/// The overview of the text's grammar, when it is one and its count of
/// productions fits in a `usize`.
pub open spec fn preview_of(text: Seq<char>) -> Option<OverviewModel> {
    match grammar_of_text(text) {
        Ok(g) => if production_count(g, g.non_terminals) <= usize::MAX {
            Some(overview_of(g))
        } else {
            None
        },
        Err(_) => None,
    }
}

/// Whether the text's grammar is regular, when the text is a grammar.
pub open spec fn regular_flag_of(text: Seq<char>) -> Option<bool> {
    match grammar_of_text(text) {
        Ok(g) => Some(regularity(g) is Ok),
        Err(_) => None,
    }
}

/// Rewinding goes back to the last multiple of this many doors.
pub const SECRET_CHECKPOINT_INTERVAL: usize = 5;

/// The checkpoint at or before `progress`.
pub open spec fn checkpoint_of(progress: usize) -> usize {
    ((progress / SECRET_CHECKPOINT_INTERVAL) * SECRET_CHECKPOINT_INTERVAL) as usize
}

/// The score of a won maze: a thousand, less 25 per expansion and 150 per
/// restart, and never under a hundred.
pub open spec fn score_of(steps: nat, restarts: nat) -> u32 {
    let lost = 25 * steps + 150 * restarts;
    if lost >= 900 {
        100
    } else {
        (1000 - lost) as u32
    }
}

/// The state of the game: the laboratory's text and its preview, the
/// chosen difficulty and mode, the last result or error, and the maze in
/// play with its derivation, its flow and, in a challenge, the secret
/// route and how far along it the player is.
pub struct AppState {
    pub mode: ScreenMode,
    pub grammar_text: String,
    pub selected_example: Option<usize>,
    pub grammar_preview: Option<GrammarOverview>,
    pub grammar_is_regular: Option<bool>,
    pub selected_difficulty: Difficulty,
    pub play_mode: PlayMode,
    pub result: Option<PanelResult>,
    pub error_message: Option<String>,
    pub current_grammar: Option<Grammar>,
    pub derivation_state: Option<DerivationState>,
    pub active_flow: Option<GameFlow>,
    pub show_side_panel: bool,
    pub restart_count: u32,
    pub score: Option<u32>,
    pub session_regex_trace: Option<RegexTrace>,
    pub secret_route: Option<Vec<usize>>,
    pub secret_progress: usize,
    pub stack_animation: Option<Vec<Symbol>>,
}

impl AppState {
    /// The secret route of the challenge in play, if one is.
    pub open spec fn route(&self) -> Option<Seq<usize>> {
        match self.secret_route {
            Some(r) => Some(r@),
            None => None,
        }
    }

    /// How many doors of the route have been passed.
    pub open spec fn progress(&self) -> usize {
        self.secret_progress
    }

    /// The trace of the grammar in play.
    pub open spec fn session_trace(&self) -> Option<RegexTraceModel> {
        match self.session_regex_trace {
            Some(t) => Some(t.deep_view()),
            None => None,
        }
    }

    /// The stack shown while the last push is animated.
    pub open spec fn animation(&self) -> Option<Seq<SymbolModel>> {
        match self.stack_animation {
            Some(v) => Some(v.deep_view()),
            None => None,
        }
    }

    /// The laboratory as `new` leaves it, with the text `text`: its preview
    /// fields follow the text.
    pub open spec fn previews(&self, text: Seq<char>) -> bool {
        &&& self.grammar_text@ == text
        &&& self.grammar_preview.deep_view() == preview_of(text)
        &&& self.grammar_is_regular == regular_flag_of(text)
    }

    /// Recomputes the preview of the text.
    fn refresh_grammar_preview(&mut self)
        ensures
            final(self).previews(old(self).grammar_text@),
            final(self).mode == old(self).mode,
            final(self).selected_example == old(self).selected_example,
            final(self).selected_difficulty == old(self).selected_difficulty,
            final(self).play_mode == old(self).play_mode,
            final(self).result == old(self).result,
            final(self).error_message == old(self).error_message,
            final(self).current_grammar == old(self).current_grammar,
            final(self).derivation_state == old(self).derivation_state,
            final(self).active_flow == old(self).active_flow,
            final(self).show_side_panel == old(self).show_side_panel,
            final(self).restart_count == old(self).restart_count,
            final(self).score == old(self).score,
            final(self).route() == old(self).route(),
            final(self).progress() == old(self).progress(),
            final(self).session_trace() == old(self).session_trace(),
            final(self).animation() == old(self).animation(),
    {
        match parse_grammar(self.grammar_text.as_str()) {
            Ok(g) => {
                let regular = validate_regular(&g).is_ok();
                self.grammar_is_regular = Some(regular);
                match g.counted_productions() {
                    Some(_) => {
                        self.grammar_preview = Some(g.overview());
                    },
                    None => {
                        self.grammar_preview = None;
                    },
                }
            },
            Err(_) => {
                self.grammar_is_regular = None;
                self.grammar_preview = None;
            },
        }
    }

    /// The laboratory with the first example loaded and previewed.
    pub fn new() -> (r: AppState)
        ensures
            r.previews(example_models()[0].source),
            r.mode == ScreenMode::Laboratory,
            r.selected_example == Some(0usize),
            r.selected_difficulty == Difficulty::Easy,
            r.play_mode == PlayMode::Free,
            r.result is None,
            r.error_message is None,
            r.current_grammar is None,
            r.derivation_state is None,
            r.active_flow is None,
            r.show_side_panel,
            r.restart_count == 0,
            r.score is None,
            r.route() is None,
            r.progress() == 0,
            r.session_trace() is None,
            r.animation() is None,
            r.challenge_ok(),
    {
        let sources = example_sources();
        proof {
            crate::seq_facts::lemma_deep_view(sources);
        }
        let mut state = AppState {
            mode: ScreenMode::Laboratory,
            grammar_text: string_from(sources[0].source),
            selected_example: Some(0),
            grammar_preview: None,
            grammar_is_regular: None,
            selected_difficulty: Difficulty::Easy,
            play_mode: PlayMode::Free,
            result: None,
            error_message: None,
            current_grammar: None,
            derivation_state: None,
            active_flow: None,
            show_side_panel: true,
            restart_count: 0,
            score: None,
            session_regex_trace: None,
            secret_route: None,
            secret_progress: 0,
            stack_animation: None,
        };
        state.refresh_grammar_preview();
        state
    }

    /// Replaces the text being edited; no example is selected any more, the
    /// result and the error are cleared, and the preview follows the text.
    pub fn set_grammar_text(&mut self, text: String)
        ensures
            old(self).challenge_ok() ==> final(self).challenge_ok(),
            final(self).previews(text@),
            final(self).selected_example is None,
            final(self).result is None,
            final(self).error_message is None,
            final(self).mode == old(self).mode,
            final(self).selected_difficulty == old(self).selected_difficulty,
            final(self).play_mode == old(self).play_mode,
            final(self).current_grammar == old(self).current_grammar,
            final(self).derivation_state == old(self).derivation_state,
            final(self).active_flow == old(self).active_flow,
            final(self).show_side_panel == old(self).show_side_panel,
            final(self).restart_count == old(self).restart_count,
            final(self).score == old(self).score,
            final(self).route() == old(self).route(),
            final(self).progress() == old(self).progress(),
            final(self).session_trace() == old(self).session_trace(),
            final(self).animation() == old(self).animation(),
    {
        self.grammar_text = text;
        self.selected_example = None;
        self.result = None;
        self.error_message = None;
        self.refresh_grammar_preview();
    }

    /// Loads the example at `index`, when there is one there; else nothing
    /// changes.
    pub fn select_example(&mut self, index: usize)
        ensures
            old(self).challenge_ok() ==> final(self).challenge_ok(),
            index < example_models().len() ==> {
                &&& final(self).previews(example_models()[index as int].source)
                &&& final(self).selected_example == Some(index)
                &&& final(self).result is None
                &&& final(self).error_message is None
            },
            index >= example_models().len() ==> *final(self) == *old(self),
            final(self).mode == old(self).mode,
            final(self).selected_difficulty == old(self).selected_difficulty,
            final(self).play_mode == old(self).play_mode,
            final(self).current_grammar == old(self).current_grammar,
            final(self).derivation_state == old(self).derivation_state,
            final(self).active_flow == old(self).active_flow,
            final(self).show_side_panel == old(self).show_side_panel,
            final(self).restart_count == old(self).restart_count,
            final(self).score == old(self).score,
            final(self).route() == old(self).route(),
            final(self).progress() == old(self).progress(),
            final(self).session_trace() == old(self).session_trace(),
            final(self).animation() == old(self).animation(),
    {
        let sources = example_sources();
        proof {
            crate::seq_facts::lemma_deep_view(sources);
        }
        if index < sources.len() {
            self.grammar_text = string_from(sources[index].source);
            self.selected_example = Some(index);
            self.result = None;
            self.error_message = None;
            self.refresh_grammar_preview();
        }
    }

    /// Leaves the maze for the laboratory.
    pub fn back_to_lab(&mut self)
        ensures
            old(self).challenge_ok() ==> final(self).challenge_ok(),
            *final(self) == (AppState { mode: ScreenMode::Laboratory, ..*old(self) }),
    {
        self.mode = ScreenMode::Laboratory;
    }

    /// How many doors of the secret route have been passed.
    pub fn secret_progress(&self) -> (r: usize)
        ensures
            r == self.progress(),
    {
        self.secret_progress
    }

    /// How many doors the secret route has; none outside a challenge.
    pub fn secret_total_steps(&self) -> (r: usize)
        ensures
            r == match self.route() {
                Some(route) => route.len(),
                None => 0,
            },
    {
        match &self.secret_route {
            Some(route) => route.len(),
            None => 0,
        }
    }

    /// The door of the secret route to take next, if any is left.
    pub fn correct_secret_choice(&self) -> (r: Option<usize>)
        ensures
            r == match self.route() {
                Some(route) => if self.progress() < route.len() {
                    Some(route[self.progress() as int])
                } else {
                    None
                },
                None => None,
            },
    {
        match &self.secret_route {
            Some(route) => if self.secret_progress < route.len() {
                Some(route[self.secret_progress])
            } else {
                None
            },
            None => None,
        }
    }

    /// The furthest checkpoint already reached: the door a wrong choice
    /// rewinds to instead of the start of the route.
    pub fn secret_last_checkpoint(&self) -> (r: usize)
        ensures
            r == checkpoint_of(self.progress()),
            r <= self.progress(),
    {
        (self.secret_progress / SECRET_CHECKPOINT_INTERVAL) * SECRET_CHECKPOINT_INTERVAL
    }
}

// ---------------------------------------------------------------------------
// Trying a grammar and starting a maze.

/// The text's grammar, when it is one and it is regular; else the error
/// that stops it.
pub open spec fn lab_grammar(text: Seq<char>) -> Result<GrammarModel, ErrorModel> {
    match grammar_of_text(text) {
        Err(e) => Err(e),
        Ok(g) => match regularity(g) {
            Err(e) => Err(e),
            Ok(_) => Ok(g),
        },
    }
}

/// A random derivation of `g` can fail with `e`: too many expansions, or a
/// non-terminal on top that has no rule.
pub open spec fn derivation_failure(g: GrammarModel, e: ErrorModel) -> bool {
    ||| e == ErrorModel::DerivationTooLong && exists|choices: Seq<usize>|
        {
            let st = #[trigger] run(g, initial_state(g), choices).0;
            &&& run(g, initial_state(g), choices).1 is None
            &&& choices.len() == MAX_DERIVATION_STEPS
            &&& st.stack.len() > 0
        }
    ||| exists|choices: Seq<usize>|
        {
            let st = #[trigger] run(g, initial_state(g), choices).0;
            &&& run(g, initial_state(g), choices).1 is None
            &&& top_non_terminal(st) is Some
            &&& alternatives_of(g, top_non_terminal(st).unwrap()) is None
            &&& e == ErrorModel::UndefinedNonTerminal(top_non_terminal(st).unwrap())
        }
}

/// `sentence` and `steps` are those of a derivation of `g` that ends with
/// an empty stack.
pub open spec fn complete_derivation(g: GrammarModel, sentence: Seq<char>, steps: Seq<StepModel>) -> bool {
    exists|choices: Seq<usize>|
        {
            let st = #[trigger] run(g, initial_state(g), choices).0;
            &&& run(g, initial_state(g), choices).1 is None
            &&& st.stack.len() == 0
            &&& st.steps == steps
            &&& st.output == sentence
        }
}

/// Replaying `route` from the start of `g` succeeds and empties the stack.
pub open spec fn route_completes(g: GrammarModel, route: Seq<usize>) -> bool {
    &&& run(g, initial_state(g), route).1 is None
    &&& run(g, initial_state(g), route).0.stack.len() == 0
}

impl AppState {
    /// The laboratory's fields of `self` and `other` agree.
    pub open spec fn same_laboratory(&self, other: &AppState) -> bool {
        &&& self.grammar_text == other.grammar_text
        &&& self.selected_example == other.selected_example
        &&& self.grammar_preview == other.grammar_preview
        &&& self.grammar_is_regular == other.grammar_is_regular
        &&& self.selected_difficulty == other.selected_difficulty
        &&& self.play_mode == other.play_mode
        &&& self.show_side_panel == other.show_side_panel
    }

    /// The maze's fields of `self` and `other` agree.
    pub open spec fn same_maze(&self, other: &AppState) -> bool {
        &&& self.mode == other.mode
        &&& self.current_grammar == other.current_grammar
        &&& self.derivation_state == other.derivation_state
        &&& self.active_flow == other.active_flow
        &&& self.restart_count == other.restart_count
        &&& self.score == other.score
        &&& self.route() == other.route()
        &&& self.progress() == other.progress()
        &&& self.session_trace() == other.session_trace()
        &&& self.animation() == other.animation()
    }

    /// A maze of `g` has just begun, in the flow `flow`, with the route
    /// `route`, and `t` as the trace of `g`.
    pub open spec fn maze_begun(
        &self,
        g: GrammarModel,
        flow: GameFlow,
        route: Option<Seq<usize>>,
        t: RegexTraceModel,
    ) -> bool {
        &&& self.current_grammar matches Some(cg) && cg.deep_view() == g
        &&& self.derivation_state matches Some(ds) && ds.deep_view() == initial_state(g)
        &&& self.session_trace() == Some(t)
        &&& self.mode == ScreenMode::Playing
        &&& self.active_flow == Some(flow)
        &&& self.result is None
        &&& self.score is None
        &&& self.restart_count == 0
        &&& self.progress() == 0
        &&& self.route() == route
        &&& self.animation() is None
    }

    /// Tries the text: when it is a regular grammar, derives a random
    /// sentence and converts the grammar to a regular expression, and shows
    /// both; else shows the error that stopped it.
    pub fn generate(&mut self)
        ensures
            old(self).challenge_ok() ==> final(self).challenge_ok(),
            final(self).same_laboratory(old(self)),
            final(self).same_maze(old(self)),
            match lab_grammar(old(self).grammar_text@) {
                Err(e) => final(self).result is None && final(self).error_message is Some
                    && final(self).error_message.unwrap()@ == error_message(e),
                Ok(g) => {
                    ||| final(self).error_message is None && final(self).result is Some && {
                        let p = final(self).result.unwrap();
                        &&& regex_trace_of(g) == Ok::<RegexTraceModel, ErrorModel>(
                            p.regex_trace.deep_view(),
                        )
                        &&& p.regex@ == p.regex_trace.final_expression@
                        &&& complete_derivation(g, p.sentence@, p.steps.deep_view())
                    }
                    ||| final(self).result is None && final(self).error_message is Some && exists|
                        e: ErrorModel,
                    |
                        final(self).error_message.unwrap()@ == error_message(e) && (
                        derivation_failure(g, e) || regex_trace_of(g) == Err::<
                            RegexTraceModel,
                            ErrorModel,
                        >(e))
                },
            },
    {
        self.result = None;
        self.error_message = None;
        let ghost text = self.grammar_text@;
        let grammar = match parse_grammar(self.grammar_text.as_str()) {
            Ok(g) => g,
            Err(e) => {
                self.error_message = Some(e.to_string());
                return;
            },
        };
        match validate_regular(&grammar) {
            Ok(_) => {},
            Err(e) => {
                self.error_message = Some(e.to_string());
                return;
            },
        }
        proof {
            lemma_parsed_grammar_has_alternatives(text);
            crate::derivation::lemma_reached_rules_have_alternatives(grammar_of_text(text)->Ok_0);
        }
        let derivation = match derive_random(&grammar) {
            Ok(d) => d,
            Err(e) => {
                self.error_message = Some(e.to_string());
                return;
            },
        };
        let regex_trace = match to_regex_trace(&grammar) {
            Ok(t) => t,
            Err(e) => {
                self.error_message = Some(e.to_string());
                return;
            },
        };
        let regex = regex_trace.final_expression.clone();
        self.result = Some(
            PanelResult {
                sentence: derivation.sentence,
                regex,
                regex_trace,
                steps: derivation.steps,
            },
        );
    }
}

/// The alternatives chosen in `events`, in order.
fn chosen_route(events: &Vec<DerivationEvent>) -> (r: Vec<usize>)
    ensures
        r@ == chosen_alternatives(events.deep_view()),
{
    let ghost m = events.deep_view();
    let n = events.len();
    let mut out: Vec<usize> = Vec::new();
    let mut i: usize = 0;
    assert(m.take(0) =~= Seq::<EventModel>::empty());
    while i < n
        invariant
            i <= n,
            n == events@.len(),
            m == events.deep_view(),
            out@ == chosen_alternatives(m.take(i as int)),
        decreases n - i,
    {
        assert(m.take(i + 1).drop_last() =~= m.take(i as int));
        assert(m[i as int] == events@[i as int].deep_view());
        match &events[i] {
            DerivationEvent::ProductionChosen { alternative_index, .. } => {
                out.push(*alternative_index);
            },
            _ => {},
        }
        i = i + 1;
    }
    assert(m.take(n as int) =~= m);
    out
}

impl AppState {
    /// Commits a maze whose grammar was already checked: the derivation
    /// starts over, and the session's record is reset.
    fn begin_maze(
        &mut self,
        grammar: Grammar,
        flow: GameFlow,
        secret_route: Option<Vec<usize>>,
        regex_trace: RegexTrace,
    )
        ensures
            final(self).maze_begun(
                grammar.deep_view(),
                flow,
                match secret_route {
                    Some(r) => Some(r@),
                    None => None,
                },
                regex_trace.deep_view(),
            ),
            final(self).same_laboratory(old(self)),
            final(self).error_message == old(self).error_message,
    {
        self.derivation_state = Some(DerivationState::new(&grammar));
        self.session_regex_trace = Some(regex_trace);
        self.current_grammar = Some(grammar);
        self.mode = ScreenMode::Playing;
        self.active_flow = Some(flow);
        self.result = None;
        self.score = None;
        self.restart_count = 0;
        self.secret_progress = 0;
        self.secret_route = secret_route;
        self.stack_animation = None;
    }

    /// What starting a free maze did to `self`, from `old`, with the
    /// answer `r`: the maze begun on the text's grammar, or the error shown
    /// and the maze as it was.
    pub open spec fn free_started(&self, old: &AppState, r: Result<(), String>) -> bool {
        match r {
            Ok(_) => self.error_message is None && exists|g: GrammarModel, t: RegexTraceModel|
                lab_grammar(old.grammar_text@) == Ok::<GrammarModel, ErrorModel>(g)
                    && regex_trace_of(g) == Ok::<RegexTraceModel, ErrorModel>(t)
                    && #[trigger] self.maze_begun(g, GameFlow::Free, None, t),
            Err(m) => {
                &&& self.same_maze(old)
                &&& self.result == old.result
                &&& self.error_message == Some(m)
                &&& match lab_grammar(old.grammar_text@) {
                    Err(e) => m@ == error_message(e),
                    Ok(g) => exists|e: ErrorModel|
                        m@ == error_message(e) && (derivation_failure(g, e) || regex_trace_of(g)
                            == Err::<RegexTraceModel, ErrorModel>(e)),
                }
            },
        }
    }

    /// What starting a challenge did to `self`, from `old`: the maze begun
    /// on a drawn grammar of the difficulty's shape, with a secret route of
    /// the difficulty's length that completes a derivation.
    pub open spec fn challenge_started(&self, old: &AppState) -> bool {
        &&& self.error_message is None
        &&& exists|g: GrammarModel, t: RegexTraceModel, route: Seq<usize>|
            generated_shape(g, difficulty_config(old.selected_difficulty)) && regex_trace_of(g)
                == Ok::<RegexTraceModel, ErrorModel>(t) && route_completes(g, route)
                && difficulty_steps(old.selected_difficulty).0 <= route.len() <= difficulty_steps(
                old.selected_difficulty,
            ).1 && #[trigger] self.maze_begun(g, GameFlow::SecretChallenge, Some(route), t)
    }

    /// Starts a free maze on the text's grammar, when it is regular, can
    /// be derived from and converts to a regular expression; else shows and
    /// returns the error, and nothing else changes.
    pub fn start_free_maze(&mut self) -> (r: Result<(), String>)
        ensures
            final(self).same_laboratory(old(self)),
            final(self).free_started(old(self), r),
            old(self).challenge_ok() ==> final(self).challenge_ok(),
    {
        self.error_message = None;
        let ghost text = self.grammar_text@;
        let grammar = match parse_grammar(self.grammar_text.as_str()) {
            Ok(g) => g,
            Err(e) => {
                return self.refuse(e);
            },
        };
        match validate_regular(&grammar) {
            Ok(_) => {},
            Err(e) => {
                return self.refuse(e);
            },
        }
        proof {
            lemma_parsed_grammar_has_alternatives(text);
            crate::derivation::lemma_reached_rules_have_alternatives(grammar_of_text(text)->Ok_0);
        }
        match derive_random(&grammar) {
            Ok(_) => {},
            Err(e) => {
                return self.refuse(e);
            },
        }
        let regex_trace = match to_regex_trace(&grammar) {
            Ok(t) => t,
            Err(e) => {
                return self.refuse(e);
            },
        };
        let ghost g = grammar.deep_view();
        let ghost t = regex_trace.deep_view();
        self.begin_maze(grammar, GameFlow::Free, None, regex_trace);
        assert(self.maze_begun(g, GameFlow::Free, None, t));
        Ok(())
    }

    /// Shows the error and gives back its message.
    fn refuse(&mut self, e: GrammarError) -> (r: Result<(), String>)
        ensures
            final(self).same_laboratory(old(self)),
            final(self).same_maze(old(self)),
            final(self).result == old(self).result,
            r matches Err(m) && m@ == error_message(e.deep_view()) && final(self).error_message
                == Some(m),
    {
        let msg = e.to_string();
        self.error_message = Some(msg.clone());
        Err(msg)
    }

    /// Starts a challenge: draws a grammar of the selected difficulty's
    /// shape and a secret route through it whose length lies in the
    /// difficulty's range. It never fails: a drawn grammar is regular, has
    /// routes of every length, and converts to a regular expression.
    pub fn start_difficulty_maze(&mut self) -> (r: Result<(), String>)
        ensures
            final(self).same_laboratory(old(self)),
            final(self).challenge_started(old(self)),
            r is Ok,
            final(self).challenge_ok(),
    {
        self.error_message = None;
        let difficulty = self.selected_difficulty;
        let config = difficulty.grammar_config();
        proof {
            lemma_difficulties_are_playable(difficulty);
        }
        let grammar = match generate_random_regular_grammar(config) {
            Ok(g) => g,
            Err(e) => {
                return self.refuse(e);
            },
        };
        let ghost g = grammar.deep_view();
        proof {
            lemma_generated_grammar(g, config);
            crate::derivation::lemma_right_linear_is_linear(g);
        }
        match validate_regular(&grammar) {
            Ok(_) => {},
            Err(e) => {
                return self.refuse(e);
            },
        }
        let (min_steps, max_steps) = difficulty.step_range();
        proof {
            assert(can_terminate_witness(g, min_steps));
        }
        let target = match derive_random_in_step_range(&grammar, min_steps, max_steps) {
            Ok(d) => d,
            Err(e) => {
                return self.refuse(e);
            },
        };
        let regex_trace = match to_regex_trace(&grammar) {
            Ok(t) => t,
            Err(e) => {
                return self.refuse(e);
            },
        };
        let choices = chosen_route(&target.events);
        proof {
            let ch = choose|ch: Seq<usize>|
                {
                    let st = #[trigger] run(g, initial_state(g), ch).0;
                    &&& run(g, initial_state(g), ch).1 is None
                    &&& min_steps <= ch.len() <= max_steps
                    &&& st.steps.len() == ch.len()
                    &&& st.stack.len() == 0
                    &&& target.steps.deep_view() == st.steps
                    &&& target.events.deep_view() == st.events
                    &&& target.sentence@ == st.output
                };
            lemma_replay(g, ch);
            assert(choices@ == ch);
        }
        let ghost t = regex_trace.deep_view();
        let ghost route = choices@;
        self.begin_maze(grammar, GameFlow::SecretChallenge, Some(choices), regex_trace);
        assert(self.maze_begun(g, GameFlow::SecretChallenge, Some(route), t));
        assert(route.take(0) =~= Seq::<usize>::empty());
        assert(run(g, initial_state(g), route.take(0)).0 == initial_state(g));
        Ok(())
    }
}

/// A route of `min` expansions can be drawn when derivations of every
/// positive length exist.
pub open spec fn can_terminate_witness(g: GrammarModel, min: usize) -> bool {
    crate::derivation::can_terminate(g, g.start, min as nat)
}

// ---------------------------------------------------------------------------
// Walking the maze.

pub open spec fn no_grammar_message() -> Seq<char> {
    "Nenhuma gramática ativa no labirinto"@
}

pub open spec fn no_derivation_message() -> Seq<char> {
    "Nenhum estado de derivação ativo"@
}

/// The stack that the last push left, shown while it is animated: that
/// of the last step, or nothing when no step was taken.
pub open spec fn pushed_stack(st: StateModel) -> Seq<SymbolModel> {
    if st.steps.len() > 0 {
        st.steps.last().stack_after
    } else {
        Seq::empty()
    }
}

impl AppState {
    /// In a challenge, the maze follows its secret route: the grammar's
    /// trace is known, the route completes a derivation, and the derivation
    /// in play is the replay of the doors already passed.
    pub open spec fn challenge_ok(&self) -> bool {
        self.active_flow == Some(GameFlow::SecretChallenge) ==> {
            &&& self.current_grammar is Some
            &&& self.derivation_state is Some
            &&& self.route() is Some
            &&& {
                let g = self.current_grammar.unwrap().deep_view();
                let route = self.route().unwrap();
                &&& regex_trace_of(g) is Ok
                &&& route_completes(g, route)
                &&& self.progress() <= route.len()
                &&& self.derivation_state.unwrap().deep_view() == run(
                    g,
                    initial_state(g),
                    route.take(self.progress() as int),
                ).0
            }
        }
    }

    /// The door of the route to take next, if any is left.
    pub open spec fn expected_choice(&self) -> Option<usize> {
        match self.route() {
            Some(route) => if self.progress() < route.len() {
                Some(route[self.progress() as int])
            } else {
                None
            },
            None => None,
        }
    }

    /// Rewinds a challenge to its last checkpoint: the derivation starts
    /// over and replays the route's doors up to the checkpoint.
    fn restart_secret_route(&mut self) -> (r: Result<(), String>)
        requires
            old(self).route() matches Some(route) ==> checkpoint_of(old(self).progress())
                <= route.len(),
            old(self).restart_count < u32::MAX,
        ensures
            final(self).same_laboratory(old(self)),
            final(self).result == old(self).result,
            final(self).error_message == old(self).error_message,
            final(self).mode == old(self).mode,
            final(self).current_grammar == old(self).current_grammar,
            final(self).active_flow == old(self).active_flow,
            final(self).score == old(self).score,
            final(self).route() == old(self).route(),
            final(self).session_trace() == old(self).session_trace(),
            match old(self).current_grammar {
                None => r matches Err(m) && m@ == no_grammar_message()
                    && final(self).same_maze(old(self)),
                Some(grammar) => {
                    let g = grammar.deep_view();
                    let cp = checkpoint_of(old(self).progress());
                    let replayed = match old(self).route() {
                        Some(route) => run(g, initial_state(g), route.take(cp as int)),
                        None => (initial_state(g), None::<ErrorModel>),
                    };
                    match replayed.1 {
                        Some(e) => r matches Err(m) && m@ == error_message(e)
                            && final(self).same_maze(old(self)),
                        None => {
                            &&& r is Ok
                            &&& final(self).derivation_state matches Some(ds) && ds.deep_view()
                                == replayed.0
                            &&& final(self).progress() == cp
                            &&& final(self).restart_count == old(self).restart_count + 1
                            &&& final(self).animation() is None
                        },
                    }
                },
            },
    {
        let grammar = match &self.current_grammar {
            Some(g) => g,
            None => {
                return Err(string_from("Nenhuma gramática ativa no labirinto"));
            },
        };
        let ghost g = grammar.deep_view();
        let checkpoint = self.secret_last_checkpoint();
        let mut state = DerivationState::new(grammar);
        match &self.secret_route {
            Some(route) => {
                let ghost rv = route@;
                let mut k: usize = 0;
                assert(rv.take(0) =~= Seq::<usize>::empty());
                while k < checkpoint
                    invariant
                        k <= checkpoint,
                        checkpoint <= rv.len(),
                        rv == route@,
                        g == grammar.deep_view(),
                        *self == *old(self),
                        old(self).route() == Some(rv),
                        checkpoint == checkpoint_of(old(self).progress()),
                        old(self).current_grammar matches Some(og) && og.deep_view() == g,
                        run(g, initial_state(g), rv.take(k as int)) == (
                            state.deep_view(),
                            None::<ErrorModel>,
                        ),
                    decreases checkpoint - k,
                {
                    let ghost before = state.deep_view();
                    assert(rv.take(k + 1).drop_last() =~= rv.take(k as int));
                    let outcome = state.apply_choice(grammar, route[k]);
                    match outcome {
                        Ok(_) => {},
                        Err(e) => {
                            proof {
                                assert(route[k as int] == rv[k as int]);
                                assert(step(g, before, rv[k as int]).1 == Some(e.deep_view()));
                                lemma_run_stops(g, rv, k as int, checkpoint as int);
                                assert(run(g, initial_state(g), rv.take(checkpoint as int)).1 == Some(
                                    e.deep_view(),
                                ));
                            }
                            return Err(e.to_string());
                        },
                    }
                    k = k + 1;
                }
            },
            None => {},
        }
        self.derivation_state = Some(state);
        self.secret_progress = checkpoint;
        self.restart_count = self.restart_count + 1;
        self.stack_animation = None;
        Ok(())
    }
}

/// Once a replay fails, the replays of longer prefixes fail with the same
/// error.
proof fn lemma_run_stops(g: GrammarModel, route: Seq<usize>, k: int, n: int)
    requires
        0 <= k < n <= route.len(),
        run(g, initial_state(g), route.take(k)).1 is None,
        step(g, run(g, initial_state(g), route.take(k)).0, route[k]).1 is Some,
    ensures
        run(g, initial_state(g), route.take(n)) == run(g, initial_state(g), route.take(k + 1)),
        run(g, initial_state(g), route.take(k + 1)).1 == step(
            g,
            run(g, initial_state(g), route.take(k)).0,
            route[k],
        ).1,
    decreases n - k,
{
    assert(route.take(k + 1).drop_last() =~= route.take(k));
    if n > k + 1 {
        lemma_run_stops_later(g, route, k + 1, n);
    }
}

proof fn lemma_run_stops_later(g: GrammarModel, route: Seq<usize>, k: int, n: int)
    requires
        0 < k <= n <= route.len(),
        run(g, initial_state(g), route.take(k)).1 is Some,
    ensures
        run(g, initial_state(g), route.take(n)) == run(g, initial_state(g), route.take(k)),
    decreases n - k,
{
    if n > k {
        lemma_run_stops_later(g, route, k, n - 1);
        assert(route.take(n).drop_last() =~= route.take(n - 1));
    }
}

/// The checkpoint is never past the progress.
pub proof fn lemma_checkpoint(progress: usize)
    ensures
        checkpoint_of(progress) <= progress,
        checkpoint_of(progress) % SECRET_CHECKPOINT_INTERVAL == 0,
        progress - checkpoint_of(progress) < SECRET_CHECKPOINT_INTERVAL,
{
    assert((progress / 5) * 5 <= progress) by (nonlinear_arith);
    assert(((progress / 5) * 5) % 5 == 0) by (nonlinear_arith);
    assert(progress - (progress / 5) * 5 < 5) by (nonlinear_arith);
}

/// The score of a won maze is a thousand less 25 for each expansion and
/// 150 for each restart, and a hundred wherever that would fall below a
/// hundred.
pub proof fn lemma_score_formula(steps: nat, restarts: nat)
    ensures
        score_of(steps, restarts) as int == if 1000 - 25 * steps - 150 * restarts >= 100 {
            1000 - 25 * steps - 150 * restarts
        } else {
            100
        },
{
}

/// Each further restart lowers the score by 150, and each further
/// expansion by 25, until it reaches its floor of a hundred.
pub proof fn lemma_score_per_restart_and_step(steps: nat, restarts: nat)
    ensures
        score_of(steps, restarts + 1) as int == if score_of(steps, restarts) - 150 >= 100 {
            score_of(steps, restarts) - 150
        } else {
            100
        },
        score_of(steps + 1, restarts) as int == if score_of(steps, restarts) - 25 >= 100 {
            score_of(steps, restarts) - 25
        } else {
            100
        },
{
    lemma_score_formula(steps, restarts);
    lemma_score_formula(steps, restarts + 1);
    lemma_score_formula(steps + 1, restarts);
}

fn score_for(steps: usize, restarts: u32) -> (r: u32)
    ensures
        r == score_of(steps as nat, restarts as nat),
        r as int == if 1000 - 25 * steps - 150 * restarts >= 100 {
            1000 - 25 * steps - 150 * restarts
        } else {
            100
        },
{
    proof {
        lemma_score_formula(steps as nat, restarts as nat);
    }
    if steps >= 36 || restarts >= 6 {
        100
    } else {
        let lost: u32 = (steps as u32) * 25 + restarts * 150;
        if lost >= 900 {
            100
        } else {
            1000 - lost
        }
    }
}

impl AppState {
    /// What a rewind did to `new`, from `old`: the failure of a missing
    /// grammar or of the replay, with nothing of the maze changed; or the
    /// derivation replayed up to the checkpoint, the progress there, and one
    /// more restart.
    pub open spec fn rewound(&self, old: &AppState, r: Result<(), String>) -> bool {
        match old.current_grammar {
            None => r matches Err(m) && m@ == no_grammar_message() && self.same_maze(old),
            Some(grammar) => {
                let g = grammar.deep_view();
                let cp = checkpoint_of(old.progress());
                let replayed = match old.route() {
                    Some(route) => run(g, initial_state(g), route.take(cp as int)),
                    None => (initial_state(g), None::<ErrorModel>),
                };
                match replayed.1 {
                    Some(e) => r matches Err(m) && m@ == error_message(e) && self.same_maze(old),
                    None => {
                        &&& r is Ok
                        &&& self.derivation_state matches Some(ds) && ds.deep_view() == replayed.0
                        &&& self.progress() == cp
                        &&& self.restart_count == old.restart_count + 1
                        &&& self.animation() is None
                        &&& self.mode == old.mode
                        &&& self.current_grammar == old.current_grammar
                        &&& self.active_flow == old.active_flow
                        &&& self.score == old.score
                        &&& self.route() == old.route()
                        &&& self.session_trace() == old.session_trace()
                    },
                }
            },
        }
    }

    /// The fields of the maze that a step leaves as they were.
    pub open spec fn same_session(&self, old: &AppState) -> bool {
        &&& self.current_grammar == old.current_grammar
        &&& self.active_flow == old.active_flow
        &&& self.restart_count == old.restart_count
        &&& self.route() == old.route()
        &&& self.session_trace() == old.session_trace()
    }

    /// The panel, the score and the screen as they were.
    pub open spec fn same_outcome(&self, old: &AppState) -> bool {
        &&& self.mode == old.mode
        &&& self.score == old.score
        &&& self.result == old.result
    }

    /// What taking the door `choice` outside a rewind did to `self`, from
    /// `old`, with the answer `r`.
    pub open spec fn took_door(&self, old: &AppState, choice: usize, r: Result<MazeChoiceOutcome, String>) -> bool {
        match old.current_grammar {
            None => r matches Err(m) && m@ == no_grammar_message() && self.same_maze(old)
                && self.result == old.result,
            Some(grammar) => match old.derivation_state {
                None => r matches Err(m) && m@ == no_derivation_message() && self.same_maze(old)
                    && self.result == old.result,
                Some(ds) => {
                    let g = grammar.deep_view();
                    let next = step(g, ds.deep_view(), choice);
                    &&& self.derivation_state matches Some(nds) && nds.deep_view() == next.0
                    &&& self.same_session(old)
                    &&& match next.1 {
                        Some(e) => {
                            &&& r matches Err(m) && m@ == error_message(e)
                            &&& self.same_outcome(old)
                            &&& self.progress() == old.progress()
                            &&& self.animation() == old.animation()
                        },
                        None => {
                            &&& self.animation() == Some(pushed_stack(next.0))
                            &&& self.progress() == old.progress() + (if old.active_flow == Some(
                                GameFlow::SecretChallenge,
                            ) {
                                1int
                            } else {
                                0int
                            })
                            &&& self.stepped(old, g, next.0, r)
                        },
                    }
                },
            },
        }
    }

    /// After a step of `g` to `st`: won when the stack is empty and the
    /// grammar converts, else advanced, or failed with the conversion's
    /// error.
    pub open spec fn stepped(&self, old: &AppState, g: GrammarModel, st: StateModel, r: Result<MazeChoiceOutcome, String>) -> bool {
        if st.stack.len() == 0 {
            match regex_trace_of(g) {
                Err(e) => r matches Err(m) && m@ == error_message(e) && self.same_outcome(old),
                Ok(t) => {
                    &&& r == Ok::<MazeChoiceOutcome, String>(MazeChoiceOutcome::Completed)
                    &&& self.mode == ScreenMode::Won
                    &&& self.result matches Some(p) && p.deep_view() == panel_of(st, t)
                    &&& self.score == Some(score_of(st.steps.len(), old.restart_count as nat))
                },
            }
        } else {
            r == Ok::<MazeChoiceOutcome, String>(MazeChoiceOutcome::Advanced) && self.same_outcome(
                old,
            )
        }
    }

    /// Takes the door `choice`. In a challenge, a door off the secret route
    /// rewinds to the last checkpoint. Otherwise the alternative `choice` of
    /// the non-terminal on top is applied; when that empties the stack the
    /// maze is won, with the derivation and the grammar's expression on the
    /// panel and a score.
    ///
    /// In a challenge that follows its route, a door never fails: the right
    /// one advances, and wins exactly at the end of the route; a wrong one
    /// rewinds to the checkpoint with the derivation replayed up to it.
    pub fn apply_maze_choice(&mut self, choice: usize) -> (r: Result<MazeChoiceOutcome, String>)
        requires
            (old(self).active_flow == Some(GameFlow::SecretChallenge) && old(self).expected_choice()
                != Some(choice)) ==> old(self).restart_count < u32::MAX && (old(self).route() matches Some(
                route) ==> checkpoint_of(old(self).progress()) <= route.len()),
        ensures
            final(self).same_laboratory(old(self)),
            final(self).error_message == old(self).error_message,
            (old(self).active_flow == Some(GameFlow::SecretChallenge) && old(self).expected_choice()
                != Some(choice)) ==> {
                &&& final(self).result == old(self).result
                &&& match r {
                    Ok(o) => o == MazeChoiceOutcome::Restarted && final(self).rewound(
                        old(self),
                        Ok(()),
                    ),
                    Err(m) => final(self).rewound(old(self), Err(m)),
                }
            },
            !(old(self).active_flow == Some(GameFlow::SecretChallenge) && old(self).expected_choice()
                != Some(choice)) ==> final(self).took_door(old(self), choice, r),
            old(self).challenge_ok() ==> final(self).challenge_ok(),
            old(self).challenge_ok() && old(self).active_flow == Some(GameFlow::SecretChallenge)
                ==> {
                &&& r is Ok
                &&& old(self).expected_choice() == Some(choice) ==> {
                    &&& final(self).progress() == old(self).progress() + 1
                    &&& (r == Ok::<MazeChoiceOutcome, String>(MazeChoiceOutcome::Completed))
                        == (final(self).progress() == old(self).route().unwrap().len())
                }
                &&& old(self).expected_choice() != Some(choice) ==> {
                    &&& r == Ok::<MazeChoiceOutcome, String>(MazeChoiceOutcome::Restarted)
                    &&& final(self).progress() == checkpoint_of(old(self).progress())
                    &&& final(self).restart_count == old(self).restart_count + 1
                    &&& final(self).derivation_state.unwrap().deep_view().steps.len()
                        == checkpoint_of(old(self).progress())
                }
            },
    {
        let secret = match self.active_flow {
            Some(GameFlow::SecretChallenge) => true,
            _ => false,
        };
        let expected = self.correct_secret_choice();
        let right = match expected {
            Some(c) => c == choice,
            None => false,
        };
        assert(right ==> self.secret_route is Some && self.secret_progress
            < self.secret_route.unwrap()@.len());
        if secret {
            if !right {
                proof {
                    if old(self).challenge_ok() {
                        let g = old(self).current_grammar.unwrap().deep_view();
                        let route = old(self).route().unwrap();
                        let cp = checkpoint_of(old(self).progress());
                        lemma_checkpoint(old(self).progress());
                        lemma_replay(g, route);
                        assert(run(g, initial_state(g), route.take(cp as int)).1 is None);
                        lemma_replay(g, route.take(cp as int));
                        assert(route.take(cp as int).take(cp as int) =~= route.take(cp as int));
                    }
                }
                let restarted = self.restart_secret_route();
                return match restarted {
                    Ok(_) => Ok(MazeChoiceOutcome::Restarted),
                    Err(m) => Err(m),
                };
            }
        }
        let grammar = match &self.current_grammar {
            Some(g) => g,
            None => {
                return Err(string_from("Nenhuma gramática ativa no labirinto"));
            },
        };
        let mut state = match self.derivation_state.take() {
            Some(s) => s,
            None => {
                return Err(string_from("Nenhum estado de derivação ativo"));
            },
        };
        let ghost g = grammar.deep_view();
        let ghost before = state.deep_view();
        proof {
            if old(self).challenge_ok() && secret {
                let route = old(self).route().unwrap();
                let p = old(self).progress() as int;
                lemma_replay(g, route);
                assert(old(self).expected_choice() == Some(choice));
                assert(p < route.len());
                assert(route[p] == choice);
                assert(before == run(g, initial_state(g), route.take(p)).0);
                assert(run(g, initial_state(g), route.take(p + 1)) == step(g, before, choice));
                assert(run(g, initial_state(g), route.take(p + 1)).1 is None);
                if p + 1 == route.len() {
                    assert(route.take(p + 1) =~= route);
                } else {
                    let q = p + 1;
                    assert(run(g, initial_state(g), route.take(q + 1)) == step(
                        g,
                        run(g, initial_state(g), route.take(q)).0,
                        route[q],
                    ));
                    assert(run(g, initial_state(g), route.take(p + 1)).0.stack.len() > 0);
                }
            }
        }
        let applied = state.apply_choice(grammar, choice);
        match applied {
            Ok(_) => {},
            Err(e) => {
                self.derivation_state = Some(state);
                return Err(e.to_string());
            },
        }
        let is_complete = state.is_complete();
        let n = state.steps.len();
        let pushed = if n > 0 {
            copy_symbols(&state.steps[n - 1].stack_after)
        } else {
            Vec::new()
        };
        proof {
            crate::seq_facts::lemma_deep_view(state.steps);
            if n == 0 {
                assert(pushed.deep_view() =~= Seq::<SymbolModel>::empty());
            }
        }
        self.stack_animation = Some(pushed);
        if secret {
            let total = self.secret_total_steps();
            assert(self.secret_progress < total);
            self.secret_progress = self.secret_progress + 1;
        }
        if is_complete {
            let regex_trace = match to_regex_trace(grammar) {
                Ok(t) => t,
                Err(e) => {
                    self.derivation_state = Some(state);
                    return Err(e.to_string());
                },
            };
            let regex = regex_trace.final_expression.clone();
            let sentence = state.output.clone();
            let steps = copy_steps(&state.steps);
            let score = score_for(state.steps.len(), self.restart_count);
            self.result = Some(PanelResult { sentence, regex, regex_trace, steps });
            self.score = Some(score);
            self.mode = ScreenMode::Won;
            self.derivation_state = Some(state);
            return Ok(MazeChoiceOutcome::Completed);
        }
        self.derivation_state = Some(state);
        Ok(MazeChoiceOutcome::Advanced)
    }
}

/// An exact copy of the symbols.
fn copy_symbols(v: &Vec<Symbol>) -> (r: Vec<Symbol>)
    ensures
        r.deep_view() == v.deep_view(),
{
    crate::grammar::copy_alternative(v)
}

impl AppState {
    /// Starts the maze in play over: a new free maze on the text, or a new
    /// challenge; nothing happens when no maze was started.
    pub fn reset_maze(&mut self)
        ensures
            old(self).active_flow is None ==> *final(self) == *old(self),
            old(self).active_flow == Some(GameFlow::Free) ==> final(self).free_started(
                old(self),
                match final(self).error_message {
                    None => Ok(()),
                    Some(m) => Err(m),
                },
            ),
            old(self).active_flow == Some(GameFlow::SecretChallenge)
                ==> final(self).challenge_started(old(self)),
            final(self).same_laboratory(old(self)),
            old(self).challenge_ok() ==> final(self).challenge_ok(),
    {
        match self.active_flow {
            Some(GameFlow::Free) => {
                let _ = self.start_free_maze();
            },
            Some(GameFlow::SecretChallenge) => {
                let _ = self.start_difficulty_maze();
            },
            None => {},
        }
    }

    /// The stack as the maze shows it: the one of the last push while it is
    /// animated, else the derivation's, top first; nothing without a
    /// derivation.
    pub fn visual_stack_snapshot(&self) -> (r: Vec<Symbol>)
        ensures
            r.deep_view() == match self.animation() {
                Some(pushed) => pushed,
                None => match self.derivation_state {
                    Some(ds) => ds.deep_view().stack,
                    None => Seq::empty(),
                },
            },
    {
        match &self.stack_animation {
            Some(pushed) => copy_symbols(pushed),
            None => match &self.derivation_state {
                Some(state) => {
                    let r = state.stack.snapshot_top_first();
                    proof {
                        crate::seq_facts::lemma_deep_view(r);
                    }
                    assert(r.deep_view() =~= state.deep_view().stack);
                    r
                },
                None => {
                    let r: Vec<Symbol> = Vec::new();
                    assert(r.deep_view() =~= Seq::<SymbolModel>::empty());
                    r
                },
            },
        }
    }

    /// Whether the last push is being animated.
    pub fn stack_animation_active(&self) -> (r: bool)
        ensures
            r == self.animation() is Some,
    {
        self.stack_animation.is_some()
    }

    /// Ends the animation of the last push.
    pub fn finish_stack_animation(&mut self)
        ensures
            old(self).challenge_ok() ==> final(self).challenge_ok(),
            *final(self) == (AppState { stack_animation: None, ..*old(self) }),
    {
        self.stack_animation = None;
    }

    /// The panel of the derivation in play, with the grammar's trace.
    pub fn live_panel_result(&self) -> (r: Option<PanelResult>)
        ensures
            match (self.derivation_state, self.session_trace()) {
                (Some(ds), Some(t)) => r matches Some(p) && p.deep_view() == panel_of(
                    ds.deep_view(),
                    t,
                ),
                _ => r is None,
            },
    {
        let state = match &self.derivation_state {
            Some(s) => s,
            None => {
                return None;
            },
        };
        let trace = match &self.session_regex_trace {
            Some(t) => t.duplicate(),
            None => {
                return None;
            },
        };
        let regex = trace.final_expression.clone();
        Some(
            PanelResult {
                sentence: state.output.clone(),
                regex,
                regex_trace: trace,
                steps: copy_steps(&state.steps),
            },
        )
    }
}

} // verus!
