//! The grammars that ship with the engine.

use vstd::prelude::*;

use crate::grammar::{Grammar, GrammarModel, grammar_of_text, parse_grammar, regularity};
use crate::notation::{
    bar, lemma_lines_grammar, lemma_lines_regular, line_text, lines_of,
    names_defined, right_word, simple_word, text_of, well_written,
};
use crate::seq_facts::lemma_push;
use crate::symbol::ErrorModel;
use crate::text::{is_upper, join};

verus! {

/// A built-in grammar: its name, a line that describes it, and its text.
#[derive(Debug, Clone, Copy)]
pub struct ExampleGrammar {
    pub name: &'static str,
    pub description: &'static str,
    pub source: &'static str,
}

/// An example as a mathematical value.
pub struct ExampleModel {
    pub name: Seq<char>,
    pub description: Seq<char>,
    pub source: Seq<char>,
}

impl DeepView for ExampleGrammar {
    type V = ExampleModel;

    open spec fn deep_view(&self) -> ExampleModel {
        ExampleModel { name: self.name@, description: self.description@, source: self.source@ }
    }
}

/// The three built-in examples.
pub open spec fn example_models() -> Seq<ExampleModel> {
    seq![
        ExampleModel {
            name: "Exemplo do professor"@,
            description: "S -> aS | ab — o exemplo do slide da disciplina."@,
            source: "S -> aS | ab"@,
        },
        ExampleModel {
            name: "Cadeia a-b-c"@,
            description: "Uma sequência de a's, seguida de b's, terminando em c."@,
            source: "S -> aS | aA\nA -> bA | c"@,
        },
        ExampleModel {
            name: "Labirinto de bifurcações"@,
            description: "Três não-terminais interligados — pensado para o modo labirinto."@,
            source: "S -> aA | bB\nA -> bA | aC\nB -> aB | bC\nC -> a"@,
        },
    ]
}

/// The built-in examples, in order.
pub fn example_sources() -> (r: Vec<ExampleGrammar>)
    ensures
        r.deep_view() == example_models(),
{
    let r = vec![
        ExampleGrammar {
            name: "Exemplo do professor",
            description: "S -> aS | ab — o exemplo do slide da disciplina.",
            source: "S -> aS | ab",
        },
        ExampleGrammar {
            name: "Cadeia a-b-c",
            description: "Uma sequência de a's, seguida de b's, terminando em c.",
            source: "S -> aS | aA\nA -> bA | c",
        },
        ExampleGrammar {
            name: "Labirinto de bifurcações",
            description: "Três não-terminais interligados — pensado para o modo labirinto.",
            source: "S -> aA | bB\nA -> bA | aC\nB -> aB | bC\nC -> a",
        },
    ];
    assert(r.deep_view() =~= example_models());
    r
}

/// The text of the lines of `specs`, checked to be a regular grammar.
proof fn lemma_lines_example(specs: Seq<(char, Seq<Seq<char>>)>)
    requires
        specs.len() > 0,
        well_written(specs),
        forall|a: int, b: int| 0 <= a < b < specs.len() ==> specs[a].0 != specs[b].0,
        names_defined(specs),
        forall|k: int, a: int|
            0 <= k < specs.len() && 0 <= a < specs[k].1.len() ==> right_word(
                #[trigger] specs[k].1[a],
            ),
    ensures
        grammar_of_text(text_of(specs)) matches Ok(g) && regularity(g) is Ok,
{
    lemma_lines_grammar(specs);
    lemma_lines_regular(specs, grammar_of_text(text_of(specs))->Ok_0);
}

proof fn lemma_first_example()
    ensures
        grammar_of_text(example_models()[0].source) matches Ok(g) && regularity(g) is Ok,
{
    let w1 = seq!['a', 'S'];
    let w2 = seq!['a', 'b'];
    let words = seq![w1, w2];
    let specs = seq![('S', words)];
    reveal_strlit("S -> aS | ab");
    assert(words.drop_last() =~= seq![w1]);
    assert(join(seq![w1], bar()) == w1);
    assert(join(words, bar()) =~= w1 + bar() + w2);
    assert(lines_of(specs) =~= seq![line_text('S', words)]);
    assert(example_models()[0].source =~= text_of(specs));
    assert(simple_word(w1) && simple_word(w2));
    assert(right_word(w1) && right_word(w2));
    assert(names_defined(specs)) by {
        assert forall|k: int, a: int, j: int|
            0 <= k < specs.len() && 0 <= a < specs[k].1.len() && 0 <= j < specs[k].1[a].len()
                && is_upper(#[trigger] specs[k].1[a][j]) implies exists|m: int|
            0 <= m < specs.len() && #[trigger] specs[m].0 == specs[k].1[a][j] by {
            assert(specs[0].0 == specs[k].1[a][j]);
        }
    }
    lemma_lines_example(specs);
}

proof fn lemma_second_example()
    ensures
        grammar_of_text(example_models()[1].source) matches Ok(g) && regularity(g) is Ok,
{
    let s1 = seq!['a', 'S'];
    let s2 = seq!['a', 'A'];
    let a1 = seq!['b', 'A'];
    let a2 = seq!['c'];
    let ws = seq![s1, s2];
    let wa = seq![a1, a2];
    let specs = seq![('S', ws), ('A', wa)];
    reveal_strlit("S -> aS | aA\nA -> bA | c");
    assert(ws.drop_last() =~= seq![s1]);
    assert(wa.drop_last() =~= seq![a1]);
    assert(join(seq![s1], bar()) == s1);
    assert(join(seq![a1], bar()) == a1);
    assert(join(ws, bar()) =~= s1 + bar() + s2);
    assert(join(wa, bar()) =~= a1 + bar() + a2);
    let l1 = line_text('S', ws);
    let l2 = line_text('A', wa);
    assert(lines_of(specs) =~= seq![l1, l2]);
    assert(seq![l1, l2].drop_last() =~= seq![l1]);
    assert(join(seq![l1], seq!['\n']) == l1);
    assert(text_of(specs) =~= l1 + seq!['\n'] + l2);
    assert(example_models()[1].source =~= text_of(specs));
    assert(simple_word(s1) && simple_word(s2) && simple_word(a1) && simple_word(a2));
    assert(right_word(s1) && right_word(s2) && right_word(a1) && right_word(a2));
    assert(names_defined(specs)) by {
        assert forall|k: int, a: int, j: int|
            0 <= k < specs.len() && 0 <= a < specs[k].1.len() && 0 <= j < specs[k].1[a].len()
                && is_upper(#[trigger] specs[k].1[a][j]) implies exists|m: int|
            0 <= m < specs.len() && #[trigger] specs[m].0 == specs[k].1[a][j] by {
            if k == 0 && a == 0 {
                assert(specs[0].0 == specs[k].1[a][j]);
            } else {
                assert(specs[1].0 == specs[k].1[a][j]);
            }
        }
    }
    lemma_lines_example(specs);
}

proof fn lemma_third_example()
    ensures
        grammar_of_text(example_models()[2].source) matches Ok(g) && regularity(g) is Ok,
{
    let s1 = seq!['a', 'A'];
    let s2 = seq!['b', 'B'];
    let a1 = seq!['b', 'A'];
    let a2 = seq!['a', 'C'];
    let b1 = seq!['a', 'B'];
    let b2 = seq!['b', 'C'];
    let c1 = seq!['a'];
    let ws = seq![s1, s2];
    let wa = seq![a1, a2];
    let wb = seq![b1, b2];
    let wc = seq![c1];
    let specs = seq![('S', ws), ('A', wa), ('B', wb), ('C', wc)];
    reveal_strlit("S -> aA | bB\nA -> bA | aC\nB -> aB | bC\nC -> a");
    assert(ws.drop_last() =~= seq![s1]);
    assert(wa.drop_last() =~= seq![a1]);
    assert(wb.drop_last() =~= seq![b1]);
    assert(join(seq![s1], bar()) == s1);
    assert(join(seq![a1], bar()) == a1);
    assert(join(seq![b1], bar()) == b1);
    assert(join(ws, bar()) =~= s1 + bar() + s2);
    assert(join(wa, bar()) =~= a1 + bar() + a2);
    assert(join(wb, bar()) =~= b1 + bar() + b2);
    assert(join(wc, bar()) == c1);
    let l1 = line_text('S', ws);
    let l2 = line_text('A', wa);
    let l3 = line_text('B', wb);
    let l4 = line_text('C', wc);
    let nl = seq!['\n'];
    assert(lines_of(specs) =~= seq![l1, l2, l3, l4]);
    assert(seq![l1, l2, l3, l4].drop_last() =~= seq![l1, l2, l3]);
    assert(seq![l1, l2, l3].drop_last() =~= seq![l1, l2]);
    assert(seq![l1, l2].drop_last() =~= seq![l1]);
    assert(join(seq![l1], nl) == l1);
    assert(join(seq![l1, l2], nl) == l1 + nl + l2);
    assert(join(seq![l1, l2, l3], nl) == l1 + nl + l2 + nl + l3);
    assert(text_of(specs) == l1 + nl + l2 + nl + l3 + nl + l4);
    assert(example_models()[2].source =~= text_of(specs));
    assert(simple_word(s1) && simple_word(s2) && simple_word(a1) && simple_word(a2));
    assert(simple_word(b1) && simple_word(b2) && simple_word(c1));
    assert(right_word(s1) && right_word(s2) && right_word(a1) && right_word(a2));
    assert(right_word(b1) && right_word(b2) && right_word(c1));
    assert(names_defined(specs)) by {
        assert forall|k: int, a: int, j: int|
            0 <= k < specs.len() && 0 <= a < specs[k].1.len() && 0 <= j < specs[k].1[a].len()
                && is_upper(#[trigger] specs[k].1[a][j]) implies exists|m: int|
            0 <= m < specs.len() && #[trigger] specs[m].0 == specs[k].1[a][j] by {
            let c = specs[k].1[a][j];
            if c == 'A' {
                assert(specs[1].0 == c);
            } else if c == 'B' {
                assert(specs[2].0 == c);
            } else if c == 'C' {
                assert(specs[3].0 == c);
            } else {
                assert(specs[0].0 == c);
            }
        }
    }
    lemma_lines_example(specs);
}

/// Each built-in example is a regular grammar.
pub proof fn lemma_examples_are_regular_grammars()
    ensures
        forall|i: int|
            0 <= i < example_models().len() ==> (grammar_of_text(
                #[trigger] example_models()[i].source,
            ) matches Ok(g) && regularity(g) is Ok),
{
    lemma_first_example();
    lemma_second_example();
    lemma_third_example();
    assert forall|i: int| 0 <= i < example_models().len() implies (grammar_of_text(
        #[trigger] example_models()[i].source,
    ) matches Ok(g) && regularity(g) is Ok) by {
        assert(i == 0 || i == 1 || i == 2);
    }
}

/// The built-in examples with their grammars, in order.
pub fn examples() -> (r: Vec<(ExampleGrammar, Grammar)>)
    ensures
        r@.len() == example_models().len(),
        forall|i: int|
            0 <= i < r@.len() ==> (#[trigger] r@[i]).0.deep_view() == example_models()[i]
                && grammar_of_text(example_models()[i].source) == Ok::<GrammarModel, ErrorModel>(
                r@[i].1.deep_view(),
            ),
{
    proof {
        lemma_examples_are_regular_grammars();
    }
    let sources = example_sources();
    let ghost m = sources.deep_view();
    proof {
        crate::seq_facts::lemma_deep_view(sources);
    }
    let n = sources.len();
    let mut out: Vec<(ExampleGrammar, Grammar)> = Vec::new();
    let mut i: usize = 0;
    while i < n
        invariant
            i <= n,
            n == sources@.len(),
            m == sources.deep_view(),
            m == example_models(),
            forall|j: int| 0 <= j < n ==> (#[trigger] sources@[j]).deep_view() == m[j],
            forall|j: int|
                0 <= j < m.len() ==> (grammar_of_text(#[trigger] m[j].source) matches Ok(g)
                    && regularity(g) is Ok),
            out@.len() == i,
            forall|j: int|
                0 <= j < i ==> (#[trigger] out@[j]).0.deep_view() == m[j] && grammar_of_text(
                    m[j].source,
                ) == Ok::<GrammarModel, ErrorModel>(out@[j].1.deep_view()),
        decreases n - i,
    {
        let example = sources[i];
        assert(grammar_of_text(m[i as int].source) is Ok);
        match parse_grammar(example.source) {
            Ok(grammar) => {
                let ghost before = out@;
                out.push((example, grammar));
                proof {
                    lemma_push(before, (example, grammar));
                }
            },
            Err(_) => {
                assert(false);
            },
        }
        i = i + 1;
    }
    out
}

} // verus!
