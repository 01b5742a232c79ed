//! Derivation with a stack: a production is chosen for the non-terminal on
//! top, pushed with its leftmost symbol on top, and terminals are popped to
//! the output.

use vstd::prelude::*;

use crate::grammar::{
    Grammar, GrammarModel, add_rule, alternatives_of, copy_alternative, find_rule,
    first_non_terminal, grammar_of_text, is_skipped, key_index, lemma_first_non_terminal,
    parse_alternatives, parse_line, parse_lines, split_line,
};
use crate::text::{lemma_split_on_nonempty, split_on, trim};
use crate::stack::{Stack, symbols_model};
use crate::symbol::{ErrorModel, GrammarError, Symbol, SymbolModel, string_from};

verus! {

#[derive(Debug, Clone)]
pub struct DerivationStep {
    pub non_terminal: String,
    pub production: Vec<Symbol>,
    pub stack_after: Vec<Symbol>,
    pub output_so_far: String,
}

/// One observable moment of the stack algorithm, in the order it happens.
#[derive(Debug, Clone, PartialEq)]
pub enum DerivationEvent {
    ProductionChosen { non_terminal: String, alternative_index: usize, production: Vec<Symbol> },
    Pushed { stack_after: Vec<Symbol> },
    TerminalPopped { terminal: char, output_so_far: String },
    Completed { sentence: String },
}

#[derive(Debug, Clone)]
pub struct Derivation {
    pub steps: Vec<DerivationStep>,
    pub events: Vec<DerivationEvent>,
    pub sentence: String,
}

#[derive(Debug, Clone)]
pub struct DerivationState {
    pub stack: Stack,
    pub output: String,
    pub steps: Vec<DerivationStep>,
    pub events: Vec<DerivationEvent>,
}

pub struct StepModel {
    pub non_terminal: Seq<char>,
    pub production: Seq<SymbolModel>,
    pub stack_after: Seq<SymbolModel>,
    pub output_so_far: Seq<char>,
}

pub enum EventModel {
    ProductionChosen { non_terminal: Seq<char>, alternative_index: usize, production: Seq<SymbolModel> },
    Pushed { stack_after: Seq<SymbolModel> },
    TerminalPopped { terminal: char, output_so_far: Seq<char> },
    Completed { sentence: Seq<char> },
}

/// The state of a derivation as a mathematical value; the stack is listed
/// from its top down.
pub struct StateModel {
    pub stack: Seq<SymbolModel>,
    pub output: Seq<char>,
    pub steps: Seq<StepModel>,
    pub events: Seq<EventModel>,
}

impl DeepView for DerivationStep {
    type V = StepModel;

    open spec fn deep_view(&self) -> StepModel {
        StepModel {
            non_terminal: self.non_terminal@,
            production: self.production.deep_view(),
            stack_after: self.stack_after.deep_view(),
            output_so_far: self.output_so_far@,
        }
    }
}

impl DeepView for DerivationEvent {
    type V = EventModel;

    open spec fn deep_view(&self) -> EventModel {
        match self {
            DerivationEvent::ProductionChosen { non_terminal, alternative_index, production } =>
                EventModel::ProductionChosen {
                    non_terminal: non_terminal@,
                    alternative_index: *alternative_index,
                    production: production.deep_view(),
                },
            DerivationEvent::Pushed { stack_after } => EventModel::Pushed {
                stack_after: stack_after.deep_view(),
            },
            DerivationEvent::TerminalPopped { terminal, output_so_far } =>
                EventModel::TerminalPopped { terminal: *terminal, output_so_far: output_so_far@ },
            DerivationEvent::Completed { sentence } => EventModel::Completed {
                sentence: sentence@,
            },
        }
    }
}

impl DeepView for DerivationState {
    type V = StateModel;

    open spec fn deep_view(&self) -> StateModel {
        StateModel {
            stack: self.stack.deep_view(),
            output: self.output@,
            steps: self.steps.deep_view(),
            events: self.events.deep_view(),
        }
    }
}

/// The state a derivation of `g` starts in: the start symbol alone on the
/// stack.
pub open spec fn initial_state(g: GrammarModel) -> StateModel {
    StateModel {
        stack: seq![SymbolModel::NonTerminal(g.start)],
        output: Seq::empty(),
        steps: Seq::empty(),
        events: Seq::empty(),
    }
}

/// Pops the terminals on top of the stack to the output, one event each.
pub open spec fn consume(st: StateModel) -> StateModel
    decreases st.stack.len(),
{
    if st.stack.len() > 0 && st.stack[0] is Terminal {
        let c = st.stack[0]->Terminal_0;
        let out = st.output.push(c);
        consume(
            StateModel {
                stack: st.stack.drop_first(),
                output: out,
                steps: st.steps,
                events: st.events.push(EventModel::TerminalPopped { terminal: c, output_so_far: out }),
            },
        )
    } else {
        st
    }
}

pub open spec fn invalid_choice_message() -> Seq<char> {
    "escolha de produção inválida"@
}

/// One expansion after `consume`: the non-terminal `name`, already popped
/// from `st`, is replaced by its alternative `choice`.
pub open spec fn expand(g: GrammarModel, st: StateModel, name: Seq<char>, choice: usize) -> (
    StateModel,
    Option<ErrorModel>,
) {
    match alternatives_of(g, name) {
        None => (st, Some(ErrorModel::UndefinedNonTerminal(name))),
        Some(alts) => if choice >= alts.len() {
            (st, Some(ErrorModel::ParseError(invalid_choice_message())))
        } else {
            let prod = alts[choice as int];
            let stack = prod + st.stack;
            let pushed = StateModel {
                stack: stack,
                output: st.output,
                steps: st.steps.push(
                    StepModel {
                        non_terminal: name,
                        production: prod,
                        stack_after: stack,
                        output_so_far: st.output,
                    },
                ),
                events: st.events.push(
                    EventModel::ProductionChosen {
                        non_terminal: name,
                        alternative_index: choice,
                        production: prod,
                    },
                ).push(EventModel::Pushed { stack_after: stack }),
            };
            let after = consume(pushed);
            if after.stack.len() == 0 {
                (
                    StateModel {
                        events: after.events.push(EventModel::Completed { sentence: after.output }),
                        ..after
                    },
                    None,
                )
            } else {
                (after, None)
            }
        },
    }
}

/// One step of the algorithm, with the alternative `choice` for the
/// non-terminal on top: the state after it, and the error if it failed.
/// Terminals on top are popped first; an empty stack is an error.
pub open spec fn step(g: GrammarModel, st: StateModel, choice: usize) -> (
    StateModel,
    Option<ErrorModel>,
) {
    let s1 = consume(st);
    if s1.stack.len() == 0 {
        (s1, Some(ErrorModel::DerivationTooLong))
    } else {
        let popped = StateModel { stack: s1.stack.drop_first(), ..s1 };
        match s1.stack[0] {
            SymbolModel::Terminal(_) => (popped, None),
            SymbolModel::NonTerminal(name) => expand(g, popped, name, choice),
        }
    }
}

/// The non-terminal on top of the stack, if a non-terminal is on top.
pub open spec fn top_non_terminal(st: StateModel) -> Option<Seq<char>> {
    if st.stack.len() > 0 && st.stack[0] is NonTerminal {
        Some(st.stack[0]->NonTerminal_0)
    } else {
        None
    }
}

impl DerivationState {
    pub fn new(grammar: &Grammar) -> (r: Self)
        ensures
            r.deep_view() == initial_state(grammar.deep_view()),
    {
        let mut stack = Stack::new();
        let start = vec![Symbol::NonTerminal(grammar.start.clone())];
        stack.push_production(start.as_slice());
        let r = DerivationState {
            stack,
            output: String::new(),
            steps: Vec::new(),
            events: Vec::new(),
        };
        assert(r.stack.deep_view() =~= seq![SymbolModel::NonTerminal(grammar.start@)]);
        assert(r.steps.deep_view() =~= Seq::<StepModel>::empty());
        assert(r.events.deep_view() =~= Seq::<EventModel>::empty());
        r
    }

    pub fn current_non_terminal(&self) -> (r: Option<String>)
        ensures
            match r {
                Some(n) => top_non_terminal(self.deep_view()) == Some(n@),
                None => top_non_terminal(self.deep_view()) is None,
            },
    {
        match self.stack.peek() {
            Some(Symbol::NonTerminal(name)) => Some(name.clone()),
            _ => None,
        }
    }

    /// Pops the terminals on top of the stack to the output.
    pub fn consume_terminals(&mut self)
        ensures
            final(self).deep_view() == consume(old(self).deep_view()),
    {
        loop
            invariant
                consume(self.deep_view()) == consume(old(self).deep_view()),
            ensures
                self.deep_view() == consume(old(self).deep_view()),
            decreases self.stack@.len(),
        {
            let c = match self.stack.peek() {
                Some(Symbol::Terminal(c)) => *c,
                _ => {
                    assert(!(self.deep_view().stack.len() > 0 && self.deep_view().stack[0] is Terminal));
                    break ;
                },
            };
            let ghost before = self.deep_view();
            let _ = self.stack.pop();
            self.output.push(c);
            let so_far = self.output.clone();
            self.events.push(DerivationEvent::TerminalPopped { terminal: c, output_so_far: so_far });
            proof {
                assert(self.stack.deep_view() =~= before.stack.drop_first());
                assert(self.events.deep_view() =~= before.events.push(
                    EventModel::TerminalPopped { terminal: c, output_so_far: self.output@ },
                ));
            }
        }
    }

    /// Applies the alternative `choice` of the non-terminal on top of the
    /// stack, after popping the terminals above it; then pops the terminals
    /// that the production put on top, and records the completion when the
    /// stack is left empty.
    pub fn apply_choice(&mut self, grammar: &Grammar, choice: usize) -> (r: Result<(), GrammarError>)
        ensures
            final(self).deep_view() == step(grammar.deep_view(), old(self).deep_view(), choice).0,
            match r {
                Ok(_) => step(grammar.deep_view(), old(self).deep_view(), choice).1 is None,
                Err(e) => step(grammar.deep_view(), old(self).deep_view(), choice).1 == Some(
                    e.deep_view(),
                ),
            },
    {
        let ghost g = grammar.deep_view();
        self.consume_terminals();
        let ghost s1 = self.deep_view();
        let top = match self.stack.pop() {
            None => {
                return Err(GrammarError::DerivationTooLong);
            },
            Some(s) => s,
        };
        let ghost popped = self.deep_view();
        assert(popped.stack =~= s1.stack.drop_first());
        assert(popped == StateModel { stack: s1.stack.drop_first(), ..s1 });
        assert(s1.stack[0] == top.deep_view());
        let name = match top {
            Symbol::NonTerminal(n) => n,
            Symbol::Terminal(_) => {
                return Ok(());
            },
        };
        let alternatives = match grammar.alternatives_of_name(&name) {
            None => {
                return Err(GrammarError::UndefinedNonTerminal(name.clone()));
            },
            Some(a) => a,
        };
        if choice >= alternatives.len() {
            return Err(GrammarError::ParseError(string_from("escolha de produção inválida")));
        }
        let production = copy_alternative(&alternatives[choice]);
        let ghost prod = production.deep_view();
        assert(prod == alternatives.deep_view()[choice as int]);
        let chosen = copy_alternative(&production);
        self.events.push(
            DerivationEvent::ProductionChosen {
                non_terminal: name.clone(),
                alternative_index: choice,
                production: chosen,
            },
        );
        self.stack.push_production(production.as_slice());
        let ghost stack = self.stack.deep_view();
        assert(stack =~= prod + popped.stack);
        let snapshot = self.stack.snapshot_top_first();
        self.events.push(DerivationEvent::Pushed { stack_after: snapshot });
        let snapshot2 = self.stack.snapshot_top_first();
        let so_far = self.output.clone();
        self.steps.push(
            DerivationStep {
                non_terminal: name,
                production,
                stack_after: snapshot2,
                output_so_far: so_far,
            },
        );
        let ghost pushed = self.deep_view();
        assert(pushed.events =~= popped.events.push(
            EventModel::ProductionChosen {
                non_terminal: name@,
                alternative_index: choice,
                production: prod,
            },
        ).push(EventModel::Pushed { stack_after: stack }));
        assert(pushed.steps =~= popped.steps.push(
            StepModel {
                non_terminal: name@,
                production: prod,
                stack_after: stack,
                output_so_far: popped.output,
            },
        ));
        self.consume_terminals();
        if self.is_complete() {
            let ghost after = self.deep_view();
            let sentence = self.output.clone();
            self.events.push(DerivationEvent::Completed { sentence });
            assert(self.deep_view().events =~= after.events.push(
                EventModel::Completed { sentence: after.output },
            ));
        }
        Ok(())
    }

    pub fn is_complete(&self) -> (r: bool)
        ensures
            r == (self.deep_view().stack.len() == 0),
    {
        self.stack.is_empty()
    }
}

} // verus!

verus! {

impl DerivationStep {
    /// An exact copy of the step.
    pub fn duplicate(&self) -> (r: DerivationStep)
        ensures
            r.deep_view() == self.deep_view(),
    {
        DerivationStep {
            non_terminal: self.non_terminal.clone(),
            production: copy_alternative(&self.production),
            stack_after: copy_alternative(&self.stack_after),
            output_so_far: self.output_so_far.clone(),
        }
    }
}

/// An exact copy of the steps.
pub fn copy_steps(steps: &Vec<DerivationStep>) -> (r: Vec<DerivationStep>)
    ensures
        r.deep_view() == steps.deep_view(),
{
    let ghost m = steps.deep_view();
    let n = steps.len();
    let mut out: Vec<DerivationStep> = Vec::new();
    let mut i: usize = 0;
    assert(out.deep_view() =~= m.take(0));
    while i < n
        invariant
            i <= n,
            n == steps@.len(),
            m == steps.deep_view(),
            out.deep_view() == m.take(i as int),
        decreases n - i,
    {
        let step = steps[i].duplicate();
        let ghost before = out.deep_view();
        out.push(step);
        assert(out.deep_view() =~= before.push(m[i as int]));
        assert(m.take(i + 1) =~= m.take(i as int).push(m[i as int]));
        i = i + 1;
    }
    assert(m.take(n as int) =~= m);
    out
}

/// At most this many expansions are tried by `derive_random`.
pub const MAX_DERIVATION_STEPS: usize = 10000;

/// The state after the steps with the alternatives `choices`, one after
/// the other, from `st`, and the error of the first step that failed.
pub open spec fn run(g: GrammarModel, st: StateModel, choices: Seq<usize>) -> (
    StateModel,
    Option<ErrorModel>,
)
    decreases choices.len(),
{
    if choices.len() == 0 {
        (st, None)
    } else {
        let prev = run(g, st, choices.drop_last());
        if prev.1 is Some {
            prev
        } else {
            step(g, prev.0, choices.last())
        }
    }
}

/// No terminal is on top of the stack.
pub open spec fn settled(st: StateModel) -> bool {
    st.stack.len() == 0 || st.stack[0] is NonTerminal
}

/// Every non-terminal that has a rule has at least one alternative.
pub open spec fn has_alternatives(g: GrammarModel) -> bool {
    forall|name: Seq<char>|
        #[trigger] alternatives_of(g, name) matches Some(alts) ==> alts.len() > 0
}

pub proof fn lemma_consume_settles(st: StateModel)
    ensures
        settled(consume(st)),
        consume(st).steps == st.steps,
    decreases st.stack.len(),
{
    if st.stack.len() > 0 && st.stack[0] is Terminal {
        let c = st.stack[0]->Terminal_0;
        let out = st.output.push(c);
        lemma_consume_settles(
            StateModel {
                stack: st.stack.drop_first(),
                output: out,
                steps: st.steps,
                events: st.events.push(EventModel::TerminalPopped { terminal: c, output_so_far: out }),
            },
        );
    }
}

/// A step that chooses an existing alternative of the non-terminal on top
/// of a settled stack succeeds, adds one step to the record, and leaves the
/// stack settled.
pub proof fn lemma_step_succeeds(g: GrammarModel, st: StateModel, choice: usize)
    requires
        settled(st),
        top_non_terminal(st) matches Some(n) && alternatives_of(g, n) matches Some(alts)
            && choice < alts.len(),
    ensures
        step(g, st, choice).1 is None,
        settled(step(g, st, choice).0),
        step(g, st, choice).0.steps.len() == st.steps.len() + 1,
{
    assert(consume(st) == st);
    let popped = StateModel { stack: st.stack.drop_first(), ..st };
    let name = st.stack[0]->NonTerminal_0;
    let alts = alternatives_of(g, name).unwrap();
    let prod = alts[choice as int];
    let stack = prod + popped.stack;
    let pushed = StateModel {
        stack: stack,
        output: popped.output,
        steps: popped.steps.push(
            StepModel {
                non_terminal: name,
                production: prod,
                stack_after: stack,
                output_so_far: popped.output,
            },
        ),
        events: popped.events.push(
            EventModel::ProductionChosen {
                non_terminal: name,
                alternative_index: choice,
                production: prod,
            },
        ).push(EventModel::Pushed { stack_after: stack }),
    };
    lemma_consume_settles(pushed);
}

/// The alternatives chosen in `events`, in order.
pub open spec fn chosen_alternatives(events: Seq<EventModel>) -> Seq<usize>
    decreases events.len(),
{
    if events.len() == 0 {
        Seq::empty()
    } else {
        let prev = chosen_alternatives(events.drop_last());
        match events.last() {
            EventModel::ProductionChosen { alternative_index, .. } => prev.push(alternative_index),
            _ => prev,
        }
    }
}

proof fn lemma_chosen_push(events: Seq<EventModel>, e: EventModel)
    ensures
        chosen_alternatives(events.push(e)) == match e {
            EventModel::ProductionChosen { alternative_index, .. } => chosen_alternatives(
                events,
            ).push(alternative_index),
            _ => chosen_alternatives(events),
        },
{
    assert(events.push(e).drop_last() =~= events);
}

proof fn lemma_consume_chooses_nothing(st: StateModel)
    ensures
        chosen_alternatives(consume(st).events) == chosen_alternatives(st.events),
    decreases st.stack.len(),
{
    if st.stack.len() > 0 && st.stack[0] is Terminal {
        let c = st.stack[0]->Terminal_0;
        let out = st.output.push(c);
        let e = EventModel::TerminalPopped { terminal: c, output_so_far: out };
        lemma_chosen_push(st.events, e);
        lemma_consume_chooses_nothing(
            StateModel {
                stack: st.stack.drop_first(),
                output: out,
                steps: st.steps,
                events: st.events.push(e),
            },
        );
    }
}

/// A step that succeeds records its choice, and one more step, and
/// starts from a stack that is not empty.
proof fn lemma_step_records(g: GrammarModel, st: StateModel, choice: usize)
    requires
        settled(st),
        step(g, st, choice).1 is None,
    ensures
        chosen_alternatives(step(g, st, choice).0.events) == chosen_alternatives(st.events).push(
            choice,
        ),
        step(g, st, choice).0.steps.len() == st.steps.len() + 1,
        st.stack.len() > 0,
        settled(step(g, st, choice).0),
{
    lemma_consume_chooses_nothing(st);
    assert(consume(st) == st);
    let popped = StateModel { stack: st.stack.drop_first(), ..st };
    let name = st.stack[0]->NonTerminal_0;
    let alts = alternatives_of(g, name).unwrap();
    let prod = alts[choice as int];
    let stack = prod + popped.stack;
    let e1 = EventModel::ProductionChosen {
        non_terminal: name,
        alternative_index: choice,
        production: prod,
    };
    let e2 = EventModel::Pushed { stack_after: stack };
    let pushed = StateModel {
        stack: stack,
        output: popped.output,
        steps: popped.steps.push(
            StepModel {
                non_terminal: name,
                production: prod,
                stack_after: stack,
                output_so_far: popped.output,
            },
        ),
        events: popped.events.push(e1).push(e2),
    };
    lemma_chosen_push(popped.events, e1);
    lemma_chosen_push(popped.events.push(e1), e2);
    lemma_consume_chooses_nothing(pushed);
    lemma_consume_settles(pushed);
    let after = consume(pushed);
    if after.stack.len() == 0 {
        lemma_chosen_push(after.events, EventModel::Completed { sentence: after.output });
    }
}

/// The facts of a replay of the choices `choices` from the start that
/// succeeded: every prefix succeeded too, each step extended the one before
/// by its choice, the record holds one step per choice and the choices
/// themselves, and the stack was never empty before the last step.
pub proof fn lemma_replay(g: GrammarModel, choices: Seq<usize>)
    requires
        run(g, initial_state(g), choices).1 is None,
    ensures
        chosen_alternatives(run(g, initial_state(g), choices).0.events) == choices,
        run(g, initial_state(g), choices).0.steps.len() == choices.len(),
        settled(run(g, initial_state(g), choices).0),
        forall|k: int|
            0 <= k <= choices.len() ==> (#[trigger] run(g, initial_state(g), choices.take(k))).1
                is None,
        forall|k: int|
            0 <= k < choices.len() ==> (#[trigger] run(g, initial_state(g), choices.take(k + 1)))
                == step(g, run(g, initial_state(g), choices.take(k)).0, choices[k])
                && run(g, initial_state(g), choices.take(k)).0.stack.len() > 0,
    decreases choices.len(),
{
    let init = initial_state(g);
    if choices.len() == 0 {
        assert(init.events =~= Seq::<EventModel>::empty());
        assert(choices =~= Seq::<usize>::empty());
        assert forall|k: int| 0 <= k <= choices.len() implies (#[trigger] run(g, init, choices.take(
            k,
        ))).1 is None by {
            assert(choices.take(k) =~= choices);
        }
    } else {
        let prev = choices.drop_last();
        lemma_replay(g, prev);
        let last = choices.last();
        lemma_step_records(g, run(g, init, prev).0, last);
        assert forall|k: int| 0 <= k <= choices.len() implies (#[trigger] run(g, init, choices.take(
            k,
        ))).1 is None by {
            if k == choices.len() {
                assert(choices.take(k) =~= choices);
            } else {
                assert(choices.take(k) =~= prev.take(k));
            }
        }
        assert forall|k: int| 0 <= k < choices.len() implies (#[trigger] run(
            g,
            init,
            choices.take(k + 1),
        )) == step(g, run(g, init, choices.take(k)).0, choices[k]) && run(
            g,
            init,
            choices.take(k),
        ).0.stack.len() > 0 by {
            assert(choices.take(k + 1).drop_last() =~= choices.take(k));
            if k + 1 < choices.len() {
                assert(choices.take(k + 1) =~= prev.take(k + 1));
                assert(choices.take(k) =~= prev.take(k));
            } else {
                assert(choices.take(k + 1) =~= choices);
                assert(choices.take(k) =~= prev);
            }
        }
    }
}

proof fn lemma_parse_alternatives_len(pieces: Seq<Seq<char>>)
    ensures
        parse_alternatives(pieces) matches Ok(alts) ==> alts.len() == pieces.len(),
    decreases pieces.len(),
{
    if pieces.len() > 0 {
        lemma_parse_alternatives_len(pieces.drop_last());
    }
}

/// Every rule that the lines give has an alternative.
proof fn lemma_parse_lines_nonempty(lines: Seq<Seq<char>>)
    ensures
        parse_lines(lines) matches Ok(rules) ==> forall|k: int|
            0 <= k < rules.len() ==> (#[trigger] rules[k]).1.len() > 0,
    decreases lines.len(),
{
    if lines.len() > 0 {
        lemma_parse_lines_nonempty(lines.drop_last());
        match parse_lines(lines.drop_last()) {
            Err(_) => {},
            Ok(rules) => {
                let line = trim(lines.last());
                if !is_skipped(line) {
                    match split_line(line) {
                        Err(_) => {},
                        Ok((lhs, rhs)) => {
                            lemma_split_on_nonempty(rhs, '|');
                            lemma_parse_alternatives_len(split_on(rhs, '|'));
                            match parse_line(line) {
                                Err(_) => {},
                                Ok(r) => {
                                    let added = add_rule(rules, r.0, r.1);
                                    let i = key_index(rules, r.0);
                                    assert forall|k: int| 0 <= k < added.len() implies (
                                    #[trigger] added[k]).1.len() > 0 by {
                                        if i >= 0 {
                                            crate::grammar::lemma_key_index(rules, r.0);
                                            if k == i {
                                                assert(added[k].1 == rules[i].1 + r.1);
                                            } else {
                                                assert(added[k] == rules[k]);
                                            }
                                        } else if k < rules.len() {
                                            assert(added[k] == rules[k]);
                                        }
                                    }
                                },
                            }
                        },
                    }
                }
            },
        }
    }
}

/// Every grammar read from a text has an alternative for each of its
/// non-terminals, so that a derivation can always choose one.
pub proof fn lemma_parsed_grammar_has_alternatives(text: Seq<char>)
    ensures
        grammar_of_text(text) matches Ok(g) ==> has_alternatives(g),
{
    lemma_parse_lines_nonempty(split_on(text, '\n'));
    match grammar_of_text(text) {
        Ok(g) => {
            assert forall|name: Seq<char>| #[trigger] alternatives_of(g, name) is Some implies alternatives_of(
                g,
                name,
            )->Some_0.len() > 0 by {
                crate::grammar::lemma_key_index(g.productions, name);
            }
        },
        Err(_) => {},
    }
}

/// Every non-terminal that a run from the start symbol brings to the top
/// of the stack, and that has a rule, has at least one alternative.
pub open spec fn reached_rules_have_alternatives(g: GrammarModel) -> bool {
    forall|choices: Seq<usize>|
        #[trigger] run(g, initial_state(g), choices).1 is None ==> match top_non_terminal(
            run(g, initial_state(g), choices).0,
        ) {
            Some(n) => match alternatives_of(g, n) {
                Some(alts) => alts.len() > 0,
                None => true,
            },
            None => true,
        }
}

/// When every rule has alternatives, so does every rule a run reaches.
pub proof fn lemma_reached_rules_have_alternatives(g: GrammarModel)
    requires
        has_alternatives(g),
    ensures
        reached_rules_have_alternatives(g),
{
    assert forall|choices: Seq<usize>|
        #[trigger] run(g, initial_state(g), choices).1 is None implies match top_non_terminal(
            run(g, initial_state(g), choices).0,
        ) {
            Some(n) => match alternatives_of(g, n) {
                Some(alts) => alts.len() > 0,
                None => true,
            },
            None => true,
        } by {
        match top_non_terminal(run(g, initial_state(g), choices).0) {
            Some(n) => {
                assert(alternatives_of(g, n) is Some ==> alternatives_of(g, n)->Some_0.len() > 0);
            },
            None => {},
        }
    }
}

/// Derives a random sentence: while the stack is not empty, a random
/// alternative of the non-terminal on top is applied. Fails after
/// `MAX_DERIVATION_STEPS` expansions.
pub fn derive_random(grammar: &Grammar) -> (r: Result<Derivation, GrammarError>)
    requires
        reached_rules_have_alternatives(grammar.deep_view()),
    ensures
        match r {
            Ok(d) => exists|choices: Seq<usize>|
                {
                    let st = #[trigger] run(grammar.deep_view(), initial_state(grammar.deep_view()), choices).0;
                    &&& run(grammar.deep_view(), initial_state(grammar.deep_view()), choices).1 is None
                    &&& choices.len() <= MAX_DERIVATION_STEPS
                    &&& st.stack.len() == 0
                    &&& d.steps.deep_view() == st.steps
                    &&& d.events.deep_view() == st.events
                    &&& d.sentence@ == st.output
                },
            Err(e) => (e.deep_view() == ErrorModel::DerivationTooLong && exists|choices: Seq<usize>|
                {
                    let st = #[trigger] run(grammar.deep_view(), initial_state(grammar.deep_view()), choices).0;
                    &&& run(grammar.deep_view(), initial_state(grammar.deep_view()), choices).1 is None
                    &&& choices.len() == MAX_DERIVATION_STEPS
                    &&& st.stack.len() > 0
                }) || (exists|choices: Seq<usize>|
                {
                    let st = #[trigger] run(grammar.deep_view(), initial_state(grammar.deep_view()), choices).0;
                    &&& run(grammar.deep_view(), initial_state(grammar.deep_view()), choices).1 is None
                    &&& top_non_terminal(st) is Some
                    &&& alternatives_of(grammar.deep_view(), top_non_terminal(st).unwrap()) is None
                    &&& e.deep_view() == ErrorModel::UndefinedNonTerminal(
                        top_non_terminal(st).unwrap(),
                    )
                }),
        },
{
    let ghost g = grammar.deep_view();
    let mut state = DerivationState::new(grammar);
    let mut guard: usize = 0;
    let ghost mut choices: Seq<usize> = Seq::empty();
    while !state.is_complete()
        invariant
            g == grammar.deep_view(),
            reached_rules_have_alternatives(g),
            guard <= MAX_DERIVATION_STEPS,
            choices.len() == guard,
            run(g, initial_state(g), choices) == (state.deep_view(), None::<ErrorModel>),
            settled(state.deep_view()),
        decreases MAX_DERIVATION_STEPS - guard,
    {
        if guard >= MAX_DERIVATION_STEPS {
            assert(run(g, initial_state(g), choices).0.stack.len() > 0);
            return Err(GrammarError::DerivationTooLong);
        }
        guard = guard + 1;
        let nt = match state.current_non_terminal() {
            Some(n) => n,
            None => {
                assert(false);
                return Err(GrammarError::DerivationTooLong);
            },
        };
        let alternatives = match grammar.alternatives_of_name(&nt) {
            Some(a) => a,
            None => {
                let ghost st = run(g, initial_state(g), choices).0;
                assert(top_non_terminal(st) == Some(nt@));
                assert(alternatives_of(g, nt@) is None);
                let e = GrammarError::UndefinedNonTerminal(nt.clone());
                assert(e.deep_view() == ErrorModel::UndefinedNonTerminal(top_non_terminal(st).unwrap()));
                assert(run(g, initial_state(g), choices).1 is None);
                return Err(e);
            },
        };
        assert(top_non_terminal(run(g, initial_state(g), choices).0) == Some(nt@));
        assert(alternatives_of(g, nt@) == Some(alternatives.deep_view()));
        assert(alternatives.deep_view().len() > 0);
        let choice = crate::random::random_in_range(0, alternatives.len() - 1);
        let ghost before = state.deep_view();
        proof {
            lemma_step_succeeds(g, before, choice);
        }
        let res = state.apply_choice(grammar, choice);
        proof {
            let next = choices.push(choice);
            assert(next.drop_last() =~= choices);
            choices = next;
        }
        match res {
            Ok(_) => {},
            Err(e) => {
                return Err(e);
            },
        }
    }
    assert(run(g, initial_state(g), choices).0 == state.deep_view());
    Ok(Derivation { steps: state.steps, events: state.events, sentence: state.output })
}

} // verus!

verus! {

/// The non-terminal that ends `production`, if one does.
pub open spec fn ends_in(production: Seq<SymbolModel>) -> Option<Seq<char>> {
    if production.len() > 0 && production.last() is NonTerminal {
        Some(production.last()->NonTerminal_0)
    } else {
        None
    }
}

/// The non-terminal a derivation goes on with after `production`: its
/// first non-terminal, wherever it stands, if it holds one.
pub open spec fn next_non_terminal(production: Seq<SymbolModel>) -> Option<Seq<char>> {
    let i = first_non_terminal(production);
    if 0 <= i < production.len() && production[i] is NonTerminal {
        Some(production[i]->NonTerminal_0)
    } else {
        None
    }
}

/// Every alternative holds one non-terminal at most, wherever it stands
/// (a right-linear or a left-linear grammar is linear).
pub open spec fn linear(g: GrammarModel) -> bool {
    forall|k: int, a: int, j: int|
        0 <= k < g.productions.len() && 0 <= a < g.productions[k].1.len() && 0 <= j
            < g.productions[k].1[a].len() && (#[trigger] g.productions[k].1[a][j]) is NonTerminal
            ==> j == first_non_terminal(g.productions[k].1[a])
}

/// Whether alternative `i` of `alts` can finish a derivation in exactly
/// `steps` expansions, counting its own, when each expansion continues with
/// the non-terminal of the production.
pub open spec fn finishes_in(g: GrammarModel, alts: Seq<Seq<SymbolModel>>, i: int, steps: nat) -> bool {
    match next_non_terminal(alts[i]) {
        Some(next) => steps >= 1 && can_terminate(g, next, (steps - 1) as nat),
        None => steps == 1,
    }
}

/// Whether a derivation from `name` can finish in exactly `steps`
/// expansions, following the non-terminal of each production.
pub open spec fn can_terminate(g: GrammarModel, name: Seq<char>, steps: nat) -> bool
    decreases steps,
{
    if steps == 0 {
        false
    } else {
        match alternatives_of(g, name) {
            None => false,
            Some(alts) => exists|i: int|
                #![trigger alts[i]]
                0 <= i < alts.len() && match next_non_terminal(alts[i]) {
                    Some(next) => can_terminate(g, next, (steps - 1) as nat),
                    None => steps == 1,
                },
        }
    }
}

pub proof fn lemma_can_terminate_unfold(
    g: GrammarModel,
    name: Seq<char>,
    s: nat,
    am: Seq<Seq<SymbolModel>>,
)
    requires
        s >= 1,
        alternatives_of(g, name) == Some(am),
    ensures
        can_terminate(g, name, s) == (exists|j: int|
            0 <= j < am.len() && #[trigger] finishes_in(g, am, j, s)),
{
    if can_terminate(g, name, s) {
        let i = choose|i: int|
            #![trigger am[i]]
            0 <= i < am.len() && match next_non_terminal(am[i]) {
                Some(next) => can_terminate(g, next, (s - 1) as nat),
                None => s == 1,
            };
        assert(finishes_in(g, am, i, s));
    }
    if exists|j: int| 0 <= j < am.len() && #[trigger] finishes_in(g, am, j, s) {
        let j = choose|j: int| 0 <= j < am.len() && #[trigger] finishes_in(g, am, j, s);
        assert(am[j] == am[j]);
    }
}

/// Every alternative holds non-terminals at most as its last symbol.
pub open spec fn right_linear(g: GrammarModel) -> bool {
    forall|k: int, i: int, j: int|
        0 <= k < g.productions.len() && 0 <= i < g.productions[k].1.len() && 0 <= j
            < g.productions[k].1[i].len() - 1 ==> #[trigger] g.productions[k].1[i][j] is Terminal
}

/// The first non-terminal of `production`, which a derivation goes on
/// with.
pub fn production_non_terminal(production: &Vec<Symbol>) -> (r: Option<&String>)
    ensures
        match next_non_terminal(production.deep_view()) {
            Some(n) => r is Some && r.unwrap()@ == n,
            None => r is None,
        },
{
    let ghost p = production.deep_view();
    proof {
        lemma_first_non_terminal(p);
    }
    let n = production.len();
    let mut i: usize = 0;
    while i < n
        invariant
            i <= n,
            n == p.len(),
            p == production.deep_view(),
            -1 <= first_non_terminal(p) < p.len(),
            first_non_terminal(p) >= 0 ==> p[first_non_terminal(p)] is NonTerminal,
            forall|j: int|
                0 <= j < p.len() && (first_non_terminal(p) < 0 || j < first_non_terminal(p))
                    ==> (#[trigger] p[j]) is Terminal,
            forall|j: int| 0 <= j < i ==> (#[trigger] p[j]) is Terminal,
        decreases n - i,
    {
        assert(p[i as int] == production@[i as int].deep_view());
        match &production[i] {
            Symbol::NonTerminal(name) => {
                assert(first_non_terminal(p) == i);
                return Some(name);
            },
            Symbol::Terminal(_) => {},
        }
        i = i + 1;
    }
    proof {
        if first_non_terminal(p) >= 0 {
            assert(p[first_non_terminal(p)] is Terminal);
        }
    }
    None
}

/// The non-terminal that ends `production`.
pub fn production_ends_in(production: &Vec<Symbol>) -> (r: Option<&String>)
    ensures
        match ends_in(production.deep_view()) {
            Some(n) => r is Some && r.unwrap()@ == n,
            None => r is None,
        },
{
    let n = production.len();
    if n == 0 {
        return None;
    }
    match &production[n - 1] {
        Symbol::NonTerminal(name) => Some(name),
        Symbol::Terminal(_) => None,
    }
}

/// `table[s][k]` tells whether a derivation from the non-terminal of rule
/// `k` can finish in exactly `s` expansions, for `s` up to `max_steps`.
pub fn termination_table(grammar: &Grammar, max_steps: usize) -> (table: Vec<Vec<bool>>)
    ensures
        table@.len() == max_steps + 1,
        forall|s: int| 0 <= s <= max_steps ==> #[trigger] table@[s]@.len()
            == grammar.productions@.len(),
        forall|s: int, k: int|
            0 <= s <= max_steps && 0 <= k < grammar.productions@.len() ==> #[trigger] table@[s]@[k]
                == can_terminate(grammar.deep_view(), grammar.productions@[k].non_terminal@, s as nat),
{
    let ghost g = grammar.deep_view();
    let nr = grammar.productions.len();
    let mut table: Vec<Vec<bool>> = Vec::new();
    let mut row0: Vec<bool> = Vec::new();
    let mut k: usize = 0;
    while k < nr
        invariant
            k <= nr,
            nr == grammar.productions@.len(),
            row0@.len() == k,
            forall|j: int| 0 <= j < k ==> row0@[j] == false,
        decreases nr - k,
    {
        row0.push(false);
        k = k + 1;
    }
    table.push(row0);
    assert(table@[0] == row0);
    let mut s: usize = 0;
    while s < max_steps
        invariant
            s <= max_steps,
            g == grammar.deep_view(),
            nr == grammar.productions@.len(),
            table@.len() == s + 1,
            forall|t: int| 0 <= t <= s ==> #[trigger] table@[t]@.len() == nr,
            forall|t: int, k: int|
                0 <= t <= s && 0 <= k < nr ==> #[trigger] table@[t]@[k] == can_terminate(
                    g,
                    grammar.productions@[k].non_terminal@,
                    t as nat,
                ),
        decreases max_steps - s,
    {
        s = s + 1;
        let mut row: Vec<bool> = Vec::new();
        let mut k: usize = 0;
        while k < nr
            invariant
                k <= nr,
                1 <= s <= max_steps,
                g == grammar.deep_view(),
                nr == grammar.productions@.len(),
                table@.len() == s,
                forall|t: int| 0 <= t < s ==> #[trigger] table@[t]@.len() == nr,
                forall|t: int, k: int|
                    0 <= t < s && 0 <= k < nr ==> #[trigger] table@[t]@[k] == can_terminate(
                        g,
                        grammar.productions@[k].non_terminal@,
                        t as nat,
                    ),
                row@.len() == k,
                forall|j: int|
                    0 <= j < k ==> #[trigger] row@[j] == can_terminate(
                        g,
                        grammar.productions@[j].non_terminal@,
                        s as nat,
                    ),
            decreases nr - k,
        {
            let name = &grammar.productions[k].non_terminal;
            let value = match grammar.alternatives_of_name(name) {
                None => {
                    assert(alternatives_of(g, name@) is None);
                    assert(!can_terminate(g, name@, s as nat));
                    false
                },
                Some(alts) => {
                    let ghost am = alts.deep_view();
                    let m = alts.len();
                    let mut i: usize = 0;
                    let mut found = false;
                    while i < m && !found
                        invariant
                            i <= m,
                            m == am.len(),
                            am == alts.deep_view(),
                            1 <= s,
                            g == grammar.deep_view(),
                            nr == grammar.productions@.len(),
                            table@.len() == s,
                            forall|t: int| 0 <= t < s ==> #[trigger] table@[t]@.len() == nr,
                            forall|t: int, k: int|
                                0 <= t < s && 0 <= k < nr ==> #[trigger] table@[t]@[k]
                                    == can_terminate(
                                    g,
                                    grammar.productions@[k].non_terminal@,
                                    t as nat,
                                ),
                            found ==> exists|j: int|
                                0 <= j < am.len() && #[trigger] finishes_in(g, am, j, s as nat),
                            !found ==> forall|j: int|
                                0 <= j < i ==> !#[trigger] finishes_in(g, am, j, s as nat),
                        decreases m - i,
                    {
                        assert(am[i as int] == alts@[i as int].deep_view());
                        let ok = match production_non_terminal(&alts[i]) {
                            Some(next) => {
                                match find_rule(&grammar.productions, next) {
                                    Some(idx) => {
                                        proof {
                                            crate::grammar::lemma_key_index(g.productions, next@);
                                            assert(g.productions[idx as int]
                                                == grammar.productions@[idx as int].deep_view());
                                            assert(table@[s - 1]@.len() == nr);
                                            assert(table@[s - 1]@[idx as int] == can_terminate(
                                                g,
                                                grammar.productions@[idx as int].non_terminal@,
                                                (s - 1) as nat,
                                            ));
                                        }
                                        table[s - 1][idx]
                                    },
                                    None => {
                                        assert(alternatives_of(g, next@) is None);
                                        false
                                    },
                                }
                            },
                            None => s == 1,
                        };
                        assert(ok == finishes_in(g, am, i as int, s as nat));
                        if ok {
                            found = true;
                        }
                        i = i + 1;
                    }
                    assert(alternatives_of(g, name@) == Some(am));
                    if !found {
                        assert(i == m);
                        assert(!exists|j: int| 0 <= j < am.len() && #[trigger] finishes_in(g, am, j, s as nat));
                    }
                    proof {
                        lemma_can_terminate_unfold(g, name@, s as nat, am);
                    }
                    assert(found == can_terminate(g, name@, s as nat));
                    found
                },
            };
            assert(value == can_terminate(g, name@, s as nat));
            row.push(value);
            k = k + 1;
        }
        table.push(row);
        assert(table@[s as int] == row);
    }
    table
}

} // verus!

verus! {

/// Whether a derivation from `name` can finish in exactly `steps`
/// expansions, read from the table.
pub fn can_terminate_in_steps(
    grammar: &Grammar,
    table: &Vec<Vec<bool>>,
    max_steps: usize,
    name: &String,
    steps: usize,
) -> (r: bool)
    requires
        steps <= max_steps,
        table@.len() == max_steps + 1,
        forall|s: int| 0 <= s <= max_steps ==> #[trigger] table@[s]@.len()
            == grammar.productions@.len(),
        forall|s: int, k: int|
            0 <= s <= max_steps && 0 <= k < grammar.productions@.len() ==> #[trigger] table@[s]@[k]
                == can_terminate(grammar.deep_view(), grammar.productions@[k].non_terminal@, s as nat),
    ensures
        r == can_terminate(grammar.deep_view(), name@, steps as nat),
{
    let ghost g = grammar.deep_view();
    match find_rule(&grammar.productions, name) {
        Some(idx) => {
            proof {
                crate::grammar::lemma_key_index(g.productions, name@);
                assert(g.productions[idx as int] == grammar.productions@[idx as int].deep_view());
                assert(table@[steps as int]@.len() == grammar.productions@.len());
            }
            table[steps][idx]
        },
        None => {
            assert(alternatives_of(g, name@) is None);
            false
        },
    }
}

pub proof fn lemma_push_contains<T>(s: Seq<T>, v: T)
    ensures
        forall|x: T| #[trigger] s.push(v).contains(x) <==> (s.contains(x) || x == v),
{
    let t = s.push(v);
    assert forall|x: T| #[trigger] t.contains(x) <==> (s.contains(x) || x == v) by {
        if x == v {
            assert(t[s.len() as int] == v);
        }
        if s.contains(x) {
            let i = choose|i: int| 0 <= i < s.len() && s[i] == x;
            assert(t[i] == x);
        }
        if t.contains(x) {
            let i = choose|i: int| 0 <= i < t.len() && t[i] == x;
            if i < s.len() {
                assert(s[i] == x);
            }
        }
    }
}

/// Some number of expansions from `min` to `max` can finish a derivation
/// from the start symbol.
pub open spec fn feasible(g: GrammarModel, min: usize, max: usize) -> bool {
    exists|s: nat| min <= s <= max && #[trigger] can_terminate(g, g.start, s)
}

pub proof fn lemma_consume_keeps_non_terminal(st: StateModel, j: int)
    requires
        0 <= j < st.stack.len(),
        st.stack[j] is NonTerminal,
    ensures
        consume(st).stack.len() > 0,
    decreases st.stack.len(),
{
    if st.stack.len() > 0 && st.stack[0] is Terminal {
        let c = st.stack[0]->Terminal_0;
        let out = st.output.push(c);
        let next = StateModel {
            stack: st.stack.drop_first(),
            output: out,
            steps: st.steps,
            events: st.events.push(EventModel::TerminalPopped { terminal: c, output_so_far: out }),
        };
        assert(next.stack[j - 1] == st.stack[j]);
        lemma_consume_keeps_non_terminal(next, j - 1);
    }
}

/// Consuming a stack that holds only terminals, except maybe its last
/// symbol, leaves that last non-terminal alone, or nothing.
pub proof fn lemma_consume_linear(st: StateModel)
    requires
        forall|j: int| 0 <= j < st.stack.len() - 1 ==> #[trigger] st.stack[j] is Terminal,
    ensures
        consume(st).stack == match ends_in(st.stack) {
            Some(n) => seq![SymbolModel::NonTerminal(n)],
            None => Seq::<SymbolModel>::empty(),
        },
    decreases st.stack.len(),
{
    if st.stack.len() > 0 && st.stack[0] is Terminal {
        let c = st.stack[0]->Terminal_0;
        let out = st.output.push(c);
        let next = StateModel {
            stack: st.stack.drop_first(),
            output: out,
            steps: st.steps,
            events: st.events.push(EventModel::TerminalPopped { terminal: c, output_so_far: out }),
        };
        assert forall|j: int| 0 <= j < next.stack.len() - 1 implies #[trigger] next.stack[j] is Terminal by {
            assert(next.stack[j] == st.stack[j + 1]);
        }
        lemma_consume_linear(next);
        if next.stack.len() > 0 {
            assert(next.stack.last() == st.stack.last());
        }
    } else if st.stack.len() > 0 {
        assert(st.stack.len() == 1);
        assert(st.stack =~= seq![st.stack[0]]);
    } else {
        assert(st.stack =~= Seq::<SymbolModel>::empty());
    }
}

/// What a successful step with `choice` does to a settled state whose top
/// is a non-terminal: the stack ends up empty only if the chosen production
/// does not end in a non-terminal; in a right-linear grammar, from a stack
/// holding that non-terminal alone, the stack holds the production's last
/// non-terminal alone, or nothing.
pub proof fn lemma_step_shape(g: GrammarModel, st: StateModel, choice: usize)
    requires
        settled(st),
        top_non_terminal(st) matches Some(n) && alternatives_of(g, n) matches Some(alts)
            && choice < alts.len(),
    ensures
        ({
            let n = top_non_terminal(st).unwrap();
            let prod = alternatives_of(g, n).unwrap()[choice as int];
            &&& step(g, st, choice).0.stack.len() == 0 ==> ends_in(prod) is None
            &&& step(g, st, choice).0.stack.len() == 0 ==> next_non_terminal(prod) is None
            &&& (right_linear(g) && st.stack.len() == 1) ==> step(g, st, choice).0.stack
                == match ends_in(prod) {
                Some(m) => seq![SymbolModel::NonTerminal(m)],
                None => Seq::<SymbolModel>::empty(),
            }
        }),
{
    assert(consume(st) == st);
    let n = top_non_terminal(st).unwrap();
    let alts = alternatives_of(g, n).unwrap();
    let popped = StateModel { stack: st.stack.drop_first(), ..st };
    let prod = alts[choice as int];
    let stack = prod + popped.stack;
    let pushed = StateModel {
        stack: stack,
        output: popped.output,
        steps: popped.steps.push(
            StepModel {
                non_terminal: n,
                production: prod,
                stack_after: stack,
                output_so_far: popped.output,
            },
        ),
        events: popped.events.push(
            EventModel::ProductionChosen {
                non_terminal: n,
                alternative_index: choice,
                production: prod,
            },
        ).push(EventModel::Pushed { stack_after: stack }),
    };
    assert(step(g, st, choice).0.stack == consume(pushed).stack);
    if ends_in(prod) is Some {
        assert(stack[prod.len() - 1] == prod.last());
        lemma_consume_keeps_non_terminal(pushed, prod.len() - 1);
    }
    lemma_first_non_terminal(prod);
    if first_non_terminal(prod) >= 0 {
        assert(stack[first_non_terminal(prod)] == prod[first_non_terminal(prod)]);
        lemma_consume_keeps_non_terminal(pushed, first_non_terminal(prod));
    }
    if right_linear(g) && st.stack.len() == 1 {
        assert(popped.stack =~= Seq::<SymbolModel>::empty());
        assert(stack =~= prod);
        crate::grammar::lemma_key_index(g.productions, n);
        let k = crate::grammar::key_index(g.productions, n);
        assert(alts == g.productions[k].1);
        assert forall|j: int| 0 <= j < pushed.stack.len() - 1 implies #[trigger] pushed.stack[j] is Terminal by {
            assert(g.productions[k].1[choice as int][j] is Terminal);
        }
        lemma_consume_linear(pushed);
    }
}

/// Consuming pops the terminals before the first non-terminal, and every
/// symbol when there is none.
pub proof fn lemma_consume_upto(st: StateModel, i: int)
    requires
        0 <= i <= st.stack.len(),
        forall|j: int| 0 <= j < i ==> #[trigger] st.stack[j] is Terminal,
        i < st.stack.len() ==> st.stack[i] is NonTerminal,
    ensures
        consume(st).stack == st.stack.skip(i),
    decreases i,
{
    if i == 0 {
        assert(consume(st) == st);
        assert(st.stack.skip(0) =~= st.stack);
    } else {
        let c = st.stack[0]->Terminal_0;
        let out = st.output.push(c);
        let next = StateModel {
            stack: st.stack.drop_first(),
            output: out,
            steps: st.steps,
            events: st.events.push(EventModel::TerminalPopped { terminal: c, output_so_far: out }),
        };
        assert forall|j: int| 0 <= j < i - 1 implies #[trigger] next.stack[j] is Terminal by {
            assert(next.stack[j] == st.stack[j + 1]);
        }
        if i < st.stack.len() {
            assert(next.stack[i - 1] == st.stack[i]);
        }
        lemma_consume_upto(next, i - 1);
        assert(next.stack.skip(i - 1) =~= st.stack.skip(i));
    }
}

/// In a linear grammar, a step from a stack that holds a non-terminal on
/// top of terminals leaves the non-terminal of the chosen production on
/// top of terminals, or nothing when the production holds none.
pub proof fn lemma_step_linear(g: GrammarModel, st: StateModel, choice: usize)
    requires
        linear(g),
        st.stack.len() >= 1,
        st.stack[0] is NonTerminal,
        forall|j: int| 1 <= j < st.stack.len() ==> #[trigger] st.stack[j] is Terminal,
        alternatives_of(g, st.stack[0]->NonTerminal_0) matches Some(alts) && choice < alts.len(),
    ensures
        ({
            let prod = alternatives_of(g, st.stack[0]->NonTerminal_0)->Some_0[choice as int];
            let after = step(g, st, choice).0.stack;
            &&& step(g, st, choice).1 is None
            &&& (after.len() == 0 <==> next_non_terminal(prod) is None)
            &&& next_non_terminal(prod) matches Some(z) ==> after.len() >= 1 && after[0]
                == SymbolModel::NonTerminal(z) && forall|j: int|
                1 <= j < after.len() ==> #[trigger] after[j] is Terminal
        }),
{
    assert(settled(st));
    lemma_step_succeeds(g, st, choice);
    assert(consume(st) == st);
    let y = st.stack[0]->NonTerminal_0;
    let alts = alternatives_of(g, y)->Some_0;
    let popped = StateModel { stack: st.stack.drop_first(), ..st };
    let prod = alts[choice as int];
    let stack = prod + popped.stack;
    let pushed = StateModel {
        stack: stack,
        output: popped.output,
        steps: popped.steps.push(
            StepModel {
                non_terminal: y,
                production: prod,
                stack_after: stack,
                output_so_far: popped.output,
            },
        ),
        events: popped.events.push(
            EventModel::ProductionChosen {
                non_terminal: y,
                alternative_index: choice,
                production: prod,
            },
        ).push(EventModel::Pushed { stack_after: stack }),
    };
    assert(step(g, st, choice).0.stack == consume(pushed).stack);
    crate::grammar::lemma_key_index(g.productions, y);
    let k = key_index(g.productions, y);
    assert(alts == g.productions[k].1);
    lemma_first_non_terminal(prod);
    let f = first_non_terminal(prod);
    if f >= 0 {
        assert forall|j: int| 0 <= j < f implies #[trigger] stack[j] is Terminal by {
            assert(stack[j] == prod[j]);
        }
        assert(stack[f] == prod[f]);
        lemma_consume_upto(pushed, f);
        let after = stack.skip(f);
        assert(after[0] == prod[f]);
        assert forall|j: int| 1 <= j < after.len() implies #[trigger] after[j] is Terminal by {
            if f + j < prod.len() {
                assert(after[j] == prod[f + j]);
                if prod[f + j] is NonTerminal {
                    assert(g.productions[k].1[choice as int][f + j] is NonTerminal);
                }
            } else {
                assert(after[j] == popped.stack[f + j - prod.len()]);
                assert(popped.stack[f + j - prod.len()] == st.stack[f + j - prod.len() + 1]);
            }
        }
    } else {
        assert forall|j: int| 0 <= j < stack.len() implies #[trigger] stack[j] is Terminal by {
            if j < prod.len() {
                assert(stack[j] == prod[j]);
            } else {
                assert(stack[j] == st.stack[j - prod.len() + 1]);
            }
        }
        lemma_consume_upto(pushed, stack.len() as int);
        assert(stack.skip(stack.len() as int).len() == 0);
    }
}

/// A right-linear grammar is linear, and its productions go on with the
/// non-terminal that ends them.
pub proof fn lemma_right_linear_is_linear(g: GrammarModel)
    requires
        right_linear(g),
    ensures
        linear(g),
        forall|k: int, a: int|
            0 <= k < g.productions.len() && 0 <= a < g.productions[k].1.len() ==> next_non_terminal(
                #[trigger] g.productions[k].1[a],
            ) == ends_in(g.productions[k].1[a]),
{
    assert forall|k: int, a: int|
        0 <= k < g.productions.len() && 0 <= a < g.productions[k].1.len() implies next_non_terminal(
        #[trigger] g.productions[k].1[a],
    ) == ends_in(g.productions[k].1[a]) && forall|j: int|
        0 <= j < g.productions[k].1[a].len() && (#[trigger] g.productions[k].1[a][j]) is NonTerminal
            ==> j == first_non_terminal(g.productions[k].1[a]) by {
        let alt = g.productions[k].1[a];
        assert(forall|j: int| 0 <= j < alt.len() - 1 ==> (#[trigger] alt[j]) is Terminal) by {
            assert forall|j: int| 0 <= j < alt.len() - 1 implies (#[trigger] alt[j]) is Terminal by {
                assert(g.productions[k].1[a][j] is Terminal);
            }
        }
        lemma_next_is_last(alt);
    }
}

/// When every symbol but the last is a terminal, the next non-terminal is
/// the one that ends the production, and it is the only one.
pub proof fn lemma_next_is_last(alt: Seq<SymbolModel>)
    requires
        forall|j: int| 0 <= j < alt.len() - 1 ==> (#[trigger] alt[j]) is Terminal,
    ensures
        next_non_terminal(alt) == ends_in(alt),
        forall|j: int|
            0 <= j < alt.len() && (#[trigger] alt[j]) is NonTerminal ==> j == first_non_terminal(alt),
{
    lemma_first_non_terminal(alt);
    let f = first_non_terminal(alt);
    if f >= 0 {
        if f < alt.len() - 1 {
            assert(alt[f] is Terminal);
        }
    } else if alt.len() > 0 {
        assert(alt[alt.len() - 1] is Terminal);
    }
}

/// Derives a random sentence whose number of expansions lies between
/// `min_steps` and `max_steps`: a length is drawn among those that can
/// finish from the start symbol, then each expansion is drawn among the
/// alternatives that can still finish in the expansions left, each
/// expansion going on with the production's non-terminal, wherever it
/// stands. For a linear grammar (a right-linear or a left-linear one among
/// them) it succeeds whenever some length in the range can finish.
pub fn derive_random_in_step_range(grammar: &Grammar, min_steps: usize, max_steps: usize) -> (r:
    Result<Derivation, GrammarError>)
    ensures
        (min_steps == 0 || min_steps > max_steps || !feasible(
            grammar.deep_view(),
            min_steps,
            max_steps,
        )) ==> (r is Err && r->Err_0.deep_view() == (ErrorModel::NoDerivationInStepRange {
            min: min_steps,
            max: max_steps,
        })),
        (linear(grammar.deep_view()) && 1 <= min_steps <= max_steps && feasible(
            grammar.deep_view(),
            min_steps,
            max_steps,
        )) ==> r is Ok,
        match r {
            Ok(d) => exists|choices: Seq<usize>|
                {
                    let st = #[trigger] run(grammar.deep_view(), initial_state(grammar.deep_view()), choices).0;
                    &&& run(grammar.deep_view(), initial_state(grammar.deep_view()), choices).1 is None
                    &&& min_steps <= choices.len() <= max_steps
                    &&& st.steps.len() == choices.len()
                    &&& st.stack.len() == 0
                    &&& d.steps.deep_view() == st.steps
                    &&& d.events.deep_view() == st.events
                    &&& d.sentence@ == st.output
                },
            Err(e) => e.deep_view() == (ErrorModel::NoDerivationInStepRange {
                min: min_steps,
                max: max_steps,
            }) || e.deep_view() == ErrorModel::DerivationTooLong
                || e.deep_view() is UndefinedNonTerminal,
        },
{
    let ghost g = grammar.deep_view();
    if min_steps == 0 || min_steps > max_steps {
        return Err(GrammarError::NoDerivationInStepRange { min: min_steps, max: max_steps });
    }
    let table = termination_table(grammar, max_steps);
    let mut possible: Vec<usize> = Vec::new();
    let mut s = min_steps;
    loop
        invariant_except_break
            forall|x: usize|
                possible@.contains(x) <==> (min_steps <= x < s && can_terminate(g, g.start, x as nat)),
        invariant
            min_steps <= s <= max_steps,
            g == grammar.deep_view(),
            table@.len() == max_steps + 1,
            forall|t: int| 0 <= t <= max_steps ==> #[trigger] table@[t]@.len()
                == grammar.productions@.len(),
            forall|t: int, k: int|
                0 <= t <= max_steps && 0 <= k < grammar.productions@.len() ==> #[trigger] table@[t]@[k]
                    == can_terminate(g, grammar.productions@[k].non_terminal@, t as nat),
        ensures
            forall|x: usize|
                possible@.contains(x) <==> (min_steps <= x <= max_steps && can_terminate(
                    g,
                    g.start,
                    x as nat,
                )),
        decreases max_steps - s,
    {
        let ok = can_terminate_in_steps(grammar, &table, max_steps, &grammar.start, s);
        let ghost before = possible@;
        if ok {
            possible.push(s);
            proof {
                lemma_push_contains(before, s);
            }
        }
        assert forall|x: usize|
            possible@.contains(x) <==> (min_steps <= x <= s && can_terminate(g, g.start, x as nat)) by {
            if x < s {
                assert(before.contains(x) <==> (min_steps <= x < s && can_terminate(
                    g,
                    g.start,
                    x as nat,
                )));
            }
        }
        if s == max_steps {
            break ;
        }
        s = s + 1;
    }
    let remaining = match crate::random::choose_one(&possible) {
        Some(x) => x,
        None => {
            assert forall|t: nat| min_steps <= t <= max_steps implies !#[trigger] can_terminate(
                g,
                g.start,
                t,
            ) by {
                assert(!possible@.contains(t as usize));
            }
            return Err(GrammarError::NoDerivationInStepRange { min: min_steps, max: max_steps });
        },
    };
    assert(can_terminate(g, g.start, remaining as nat));
    assert(feasible(g, min_steps, max_steps));
    let mut state = DerivationState::new(grammar);
    let mut steps_left = remaining;
    let ghost mut choices: Seq<usize> = Seq::empty();
    assert(state.deep_view().stack =~= seq![SymbolModel::NonTerminal(g.start)]);
    while !state.is_complete()
        invariant
            g == grammar.deep_view(),
            table@.len() == max_steps + 1,
            forall|t: int| 0 <= t <= max_steps ==> #[trigger] table@[t]@.len()
                == grammar.productions@.len(),
            forall|t: int, k: int|
                0 <= t <= max_steps && 0 <= k < grammar.productions@.len() ==> #[trigger] table@[t]@[k]
                    == can_terminate(g, grammar.productions@[k].non_terminal@, t as nat),
            1 <= min_steps <= remaining <= max_steps,
            feasible(g, min_steps, max_steps),
            run(g, initial_state(g), choices) == (state.deep_view(), None::<ErrorModel>),
            settled(state.deep_view()),
            state.deep_view().steps.len() == choices.len(),
            choices.len() + steps_left == remaining,
            state.deep_view().stack.len() == 0 ==> steps_left == 0,
            linear(g) ==> state.deep_view().stack.len() == 0 || (
            state.deep_view().stack[0] is NonTerminal && (forall|j: int|
                1 <= j < state.deep_view().stack.len() ==> #[trigger] state.deep_view().stack[j]
                    is Terminal) && can_terminate(
                g,
                state.deep_view().stack[0]->NonTerminal_0,
                steps_left as nat,
            )),
        decreases steps_left,
    {
        let nt = match state.current_non_terminal() {
            Some(n) => n,
            None => {
                assert(false);
                return Err(GrammarError::DerivationTooLong);
            },
        };
        let alternatives = match grammar.alternatives_of_name(&nt) {
            Some(a) => a,
            None => {
                assert(!linear(g));
                return Err(GrammarError::UndefinedNonTerminal(nt.clone()));
            },
        };
        let ghost am = alternatives.deep_view();
        let m = alternatives.len();
        let mut valid: Vec<usize> = Vec::new();
        let mut i: usize = 0;
        while i < m
            invariant
                i <= m,
                m == am.len(),
                am == alternatives.deep_view(),
                g == grammar.deep_view(),
                steps_left <= remaining <= max_steps,
                table@.len() == max_steps + 1,
                forall|t: int| 0 <= t <= max_steps ==> #[trigger] table@[t]@.len()
                    == grammar.productions@.len(),
                forall|t: int, k: int|
                    0 <= t <= max_steps && 0 <= k < grammar.productions@.len()
                        ==> #[trigger] table@[t]@[k] == can_terminate(
                        g,
                        grammar.productions@[k].non_terminal@,
                        t as nat,
                    ),
                forall|x: usize|
                    #[trigger] valid@.contains(x) <==> (x < i && finishes_in(
                        g,
                        am,
                        x as int,
                        steps_left as nat,
                    )),
            decreases m - i,
        {
            assert(am[i as int] == alternatives@[i as int].deep_view());
            let ok = match production_non_terminal(&alternatives[i]) {
                Some(next) => {
                    let left = if steps_left > 0 {
                        steps_left - 1
                    } else {
                        0
                    };
                    steps_left >= 1 && can_terminate_in_steps(
                        grammar,
                        &table,
                        max_steps,
                        next,
                        left,
                    )
                },
                None => steps_left == 1,
            };
            assert(ok == finishes_in(g, am, i as int, steps_left as nat));
            let ghost before = valid@;
            if ok {
                valid.push(i);
                proof {
                    lemma_push_contains(before, i);
                }
            }
            assert forall|x: usize|
                #[trigger] valid@.contains(x) <==> (x < i + 1 && finishes_in(
                    g,
                    am,
                    x as int,
                    steps_left as nat,
                )) by {
                if x < i {
                    assert(before.contains(x) <==> finishes_in(g, am, x as int, steps_left as nat));
                }
            }
            i = i + 1;
        }
        let choice = match crate::random::choose_one(&valid) {
            Some(c) => c,
            None => {
                proof {
                    if linear(g) {
                        lemma_can_terminate_unfold(g, nt@, steps_left as nat, am);
                        let j = choose|j: int|
                            0 <= j < am.len() && #[trigger] finishes_in(
                                g,
                                am,
                                j,
                                steps_left as nat,
                            );
                        assert(valid@.contains(j as usize));
                    }
                }
                return Err(GrammarError::NoDerivationInStepRange { min: min_steps, max: max_steps });
            },
        };
        assert(finishes_in(g, am, choice as int, steps_left as nat));
        let ghost before = state.deep_view();
        proof {
            lemma_step_succeeds(g, before, choice);
            lemma_step_shape(g, before, choice);
            if linear(g) {
                lemma_step_linear(g, before, choice);
            }
        }
        let res = state.apply_choice(grammar, choice);
        proof {
            let next = choices.push(choice);
            assert(next.drop_last() =~= choices);
            choices = next;
        }
        match res {
            Ok(_) => {},
            Err(e) => {
                assert(false);
                return Err(e);
            },
        }
        steps_left = steps_left - 1;
    }
    assert(run(g, initial_state(g), choices).0 == state.deep_view());
    Ok(Derivation { steps: state.steps, events: state.events, sentence: state.output })
}

} // verus!
