# grammar_engine

Regular grammars `G = {N, T, P, S}` for a maze game: a parser for the
textual notation (`S -> aS | ab`, also `::=`), a regularity check, a
stack-driven derivation (the leftmost symbol of each production on top),
a conversion to a regular expression by eliminating non-terminals with
Arden's rule (on the right for right-linear grammars, on the left for
left-linear ones), wrong answers for a sentence, random challenge grammars,
and the state of the game that plays them.

The library under `src/` is proved correct: each public function states
in its contract what it returns, over mathematical models of the
grammar, the stack, the derivation and the game.

- `text`, `seq_facts`: characters, trimming, splitting, searching.
- `symbol`, `stack`: symbols, errors and their messages, the stack.
- `grammar`: the parser, the regularity check, the overview.
- `derivation`: the derivation state, random derivations, derivations
  within a range of steps.
- `regex_conversion`: equations, elimination and the regular expression.
- `elimination`: when the elimination succeeds, and which equations the
  trace shows.
- `language`: what the expression means; for a grammar read from the
  right or from the left it accepts exactly the words the grammar
  derives, and every sentence the stack derivation completes is one of
  them.
- `regular`: what parsing and the regularity check guarantee of a
  grammar.
- `notation`: facts about grammar texts written in the notation.
- `generation`, `random`: random right-linear grammars.
- `pattern`, `distractors`: regular-expression matching and wrong answers.
- `examples`, `presentation`, `maze`, `session`: the built-in grammars,
  the screen texts, the doors of a room and the game's state.

`app/` is the window (macroquad and egui): drawing, keyboard movement and
the timers, which work in floating-point seconds.
