use grammar_engine::stack::Stack;
use grammar_engine::symbol::Symbol;

#[test]
fn new_stack_is_empty() {
    assert!(Stack::new().is_empty());
}

#[test]
fn push_production_puts_leftmost_symbol_on_top() {
    let mut stack = Stack::new();
    stack.push_production(&[Symbol::Terminal('a'), Symbol::NonTerminal("S".to_string())]);
    assert_eq!(stack.pop(), Some(Symbol::Terminal('a')));
    assert_eq!(stack.pop(), Some(Symbol::NonTerminal("S".to_string())));
    assert_eq!(stack.pop(), None);
}

#[test]
fn snapshot_lists_top_of_stack_first() {
    let mut stack = Stack::new();
    stack.push_production(&[Symbol::Terminal('a'), Symbol::NonTerminal("S".to_string())]);
    assert_eq!(
        stack.snapshot_top_first(),
        vec![Symbol::Terminal('a'), Symbol::NonTerminal("S".to_string())]
    );
}

#[test]
fn empty_production_pushes_nothing() {
    let mut stack = Stack::new();
    stack.push_production(&[]);
    assert!(stack.is_empty());
}

#[test]
fn a_later_push_goes_above_the_earlier_symbols() {
    let mut stack = Stack::new();
    stack.push_production(&[Symbol::Terminal('b')]);
    stack.push_production(&[Symbol::Terminal('a'), Symbol::NonTerminal("A".to_string())]);
    assert_eq!(stack.peek(), Some(&Symbol::Terminal('a')));
    assert_eq!(
        stack.snapshot_top_first(),
        vec![
            Symbol::Terminal('a'),
            Symbol::NonTerminal("A".to_string()),
            Symbol::Terminal('b')
        ]
    );
}
