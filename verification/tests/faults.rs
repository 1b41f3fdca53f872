use shift_reduce::{
    Action, Fault, Grammar, Node, ParseError, Parser, Production, Settling, State, Step, Symbol,
    Token, Transition,
};

fn terminal(name: &'static str, emit: Option<&'static str>) -> Symbol {
    Symbol { name, emit, terminal: true, whitespace: false, lexem: false }
}

fn nonterminal(name: &'static str) -> Symbol {
    Symbol { name, emit: None, terminal: false, whitespace: false, lexem: false }
}

fn on(symbol: usize, action: Action) -> Transition {
    Transition { symbol, action }
}

fn token(symbol: usize) -> Token {
    Token { symbol, start: 0, end: 0 }
}

fn fault(fault: Fault) -> Result<Vec<Node>, ParseError> {
    Err(ParseError::Fault(fault))
}

const X: usize = 0;
const E: usize = 1;
const G: usize = 2;

/// E -> X | E, with one state per symbol and the given states.
fn looping(states: Vec<State>) -> Grammar {
    Grammar {
        symbols: vec![terminal("X", Some("x")), nonterminal("E"), nonterminal("G")],
        productions: vec![
            Production { lhs: E, emit: None, rhs: vec![X] },
            Production { lhs: E, emit: Some("again"), rhs: vec![E] },
            Production { lhs: G, emit: None, rhs: vec![E, X, X] },
        ],
        states,
        goal: G,
    }
}

/// Once an E lies on the stack, every token asks for E -> E again.
fn endless() -> Grammar {
    looping(vec![
        State {
            transitions: vec![on(X, Action::Shift(1)), on(E, Action::Shift(2))],
            default_reduce: None,
        },
        State { transitions: vec![], default_reduce: Some(0) },
        State { transitions: vec![], default_reduce: Some(1) },
    ])
}

/// The same loop, made of fused reductions alone.
fn endless_fused() -> Grammar {
    looping(vec![State {
        transitions: vec![on(X, Action::ShiftAndReduce(0)), on(E, Action::ShiftAndReduce(1))],
        default_reduce: None,
    }])
}

#[test]
fn endless_reductions_end_when_the_budget_is_spent() {
    let grammar = endless();
    assert!(grammar.is_well_formed());
    let mut parser = Parser::with_budget(&grammar, 5);
    assert_eq!(parser.parse(&[token(X), token(X)]), fault(Fault::Budget));
    assert_eq!(parser.depth(), 1);
}

#[test]
fn endless_fused_reductions_end_when_the_budget_is_spent() {
    let grammar = endless_fused();
    assert!(grammar.is_well_formed());
    let mut parser = Parser::with_budget(&grammar, 4);
    assert_eq!(parser.parse(&[token(X)]), fault(Fault::Budget));
    assert_eq!(parser.depth(), 1);
    let mut large = Parser::with_budget(&grammar, 1_000);
    assert!(matches!(large.next(&token(X)), Step::Fault(Fault::Budget)));
}

#[test]
fn budget_counts_every_reduction_of_a_parse() {
    let grammar = endless();
    let mut parser = Parser::with_budget(&grammar, 3);
    assert!(matches!(parser.next(&token(X)), Step::Shifted));
    assert!(matches!(parser.settle(0, None), Settling::Settled));
    assert!(matches!(parser.settle(1, None), Settling::Settled));
    assert!(matches!(parser.settle(1, None), Settling::Settled));
    assert_eq!(parser.depth(), 2);
    assert!(matches!(parser.settle(1, None), Settling::Fault(Fault::Budget)));
    assert_eq!(parser.depth(), 1);
}

#[test]
fn budget_is_whole_again_after_a_parse() {
    let grammar = endless();
    let mut parser = Parser::with_budget(&grammar, 2);
    assert_eq!(parser.parse(&[token(X), token(X)]), fault(Fault::Budget));
    assert!(matches!(parser.next(&token(X)), Step::Shifted));
    assert!(matches!(parser.settle(0, None), Settling::Settled));
    assert!(matches!(parser.settle(1, None), Settling::Settled));
    assert!(matches!(parser.settle(1, None), Settling::Fault(Fault::Budget)));
    parser.reset();
    assert!(matches!(parser.next(&token(X)), Step::Shifted));
    assert!(matches!(parser.settle(0, None), Settling::Settled));
}

#[test]
fn shifts_cost_nothing() {
    let grammar = looping(vec![State {
        transitions: vec![on(X, Action::Shift(0))],
        default_reduce: None,
    }]);
    let mut parser = Parser::with_budget(&grammar, 0);
    assert!(matches!(parser.next(&token(X)), Step::Shifted));
    assert!(matches!(parser.next(&token(X)), Step::Shifted));
    assert!(matches!(parser.next(&token(X)), Step::Shifted));
    assert_eq!(parser.depth(), 4);
    assert!(matches!(parser.settle(0, None), Settling::Fault(Fault::Budget)));
}

#[test]
fn budget_of_three_is_enough_for_three_reductions() {
    let grammar = Grammar {
        symbols: vec![
            terminal("NUM", Some("num")),
            terminal("PLUS", None),
            terminal("END", None),
            nonterminal("Expr"),
            nonterminal("Goal"),
        ],
        productions: vec![
            Production { lhs: 3, emit: Some("add"), rhs: vec![3, 1, 0] },
            Production { lhs: 3, emit: None, rhs: vec![0] },
            Production { lhs: 4, emit: None, rhs: vec![3, 2] },
        ],
        states: vec![
            State {
                transitions: vec![on(0, Action::Shift(1)), on(3, Action::Shift(2))],
                default_reduce: None,
            },
            State { transitions: vec![], default_reduce: Some(1) },
            State {
                transitions: vec![on(1, Action::Shift(3)), on(2, Action::ShiftAndReduce(2))],
                default_reduce: None,
            },
            State { transitions: vec![on(0, Action::Shift(4))], default_reduce: None },
            State { transitions: vec![], default_reduce: Some(0) },
        ],
        goal: 4,
    };
    let input = [token(0), token(1), token(0), token(2)];
    let mut enough = Parser::with_budget(&grammar, 3);
    assert!(enough.parse(&input).is_ok());
    assert!(enough.parse(&input).is_ok());
    let mut short = Parser::with_budget(&grammar, 2);
    assert_eq!(short.parse(&input), fault(Fault::Budget));
}

#[test]
fn reduction_on_the_bare_stack_underflows() {
    let grammar = looping(vec![State { transitions: vec![], default_reduce: Some(0) }]);
    assert!(grammar.is_well_formed());
    let mut parser = Parser::new(&grammar);
    assert_eq!(parser.parse(&[token(X)]), fault(Fault::Underflow));
    assert_eq!(parser.depth(), 1);
}

#[test]
fn fused_reduction_of_a_long_rule_underflows() {
    let grammar = looping(vec![State {
        transitions: vec![on(X, Action::ShiftAndReduce(2))],
        default_reduce: None,
    }]);
    assert!(grammar.is_well_formed());
    let mut parser = Parser::new(&grammar);
    assert!(matches!(parser.next(&token(X)), Step::Fault(Fault::Underflow)));
}

#[test]
fn missing_goto_is_a_fault_and_no_syntax_error() {
    let grammar = looping(vec![
        State { transitions: vec![on(X, Action::Shift(1))], default_reduce: None },
        State { transitions: vec![], default_reduce: Some(0) },
    ]);
    assert!(grammar.is_well_formed());
    let mut parser = Parser::new(&grammar);
    assert_eq!(parser.parse(&[token(X), token(X)]), fault(Fault::Goto));
    assert_eq!(parser.depth(), 1);
}

#[test]
fn goto_that_reduces_is_a_fault() {
    let grammar = looping(vec![
        State {
            transitions: vec![on(X, Action::Shift(1)), on(E, Action::Reduce(1))],
            default_reduce: None,
        },
        State { transitions: vec![], default_reduce: Some(0) },
    ]);
    let mut parser = Parser::new(&grammar);
    assert_eq!(parser.parse(&[token(X), token(X)]), fault(Fault::Goto));
}

#[test]
fn goto_by_default_reduce_is_a_fault() {
    let grammar = looping(vec![
        State { transitions: vec![on(X, Action::Shift(1))], default_reduce: Some(1) },
        State { transitions: vec![], default_reduce: Some(0) },
    ]);
    let mut parser = Parser::new(&grammar);
    assert_eq!(parser.parse(&[token(X), token(X)]), fault(Fault::Goto));
}

#[test]
fn accept_in_the_tables_is_a_fault() {
    let grammar = looping(vec![State {
        transitions: vec![on(X, Action::Accept)],
        default_reduce: None,
    }]);
    assert!(grammar.is_well_formed());
    let mut parser = Parser::new(&grammar);
    assert_eq!(parser.parse(&[token(X)]), fault(Fault::Entry));
    assert!(matches!(parser.next(&token(X)), Step::Fault(Fault::Entry)));
}

#[test]
fn accept_as_goto_is_a_fault() {
    let grammar = looping(vec![
        State {
            transitions: vec![on(X, Action::Shift(1)), on(E, Action::Accept)],
            default_reduce: None,
        },
        State { transitions: vec![], default_reduce: Some(0) },
    ]);
    let mut parser = Parser::new(&grammar);
    assert_eq!(parser.parse(&[token(X), token(X)]), fault(Fault::Goto));
}

#[test]
fn explicit_error_entry_overrides_the_default() {
    let grammar = looping(vec![
        State { transitions: vec![on(X, Action::Shift(1))], default_reduce: None },
        State { transitions: vec![on(X, Action::Error)], default_reduce: Some(0) },
    ]);
    let mut parser = Parser::new(&grammar);
    assert!(matches!(parser.next(&token(X)), Step::Shifted));
    assert!(matches!(parser.next(&token(X)), Step::Rejected { state: 1 }));
}
