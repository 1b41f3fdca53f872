use shift_reduce::{Action, Grammar, Parser, Production, State, Symbol, Token, Transition};

fn symbol(terminal: bool, whitespace: bool) -> Symbol {
    Symbol { name: "s", emit: None, terminal, whitespace, lexem: false }
}

fn on(symbol: usize, action: Action) -> Transition {
    Transition { symbol, action }
}

/// Three symbols (a terminal, whitespace, a nonterminal), one production of
/// two symbols, two states.
fn small() -> Grammar {
    Grammar {
        symbols: vec![symbol(true, false), symbol(true, true), symbol(false, false)],
        productions: vec![Production { lhs: 2, emit: None, rhs: vec![0, 0] }],
        states: vec![
            State {
                transitions: vec![
                    on(0, Action::Shift(1)),
                    on(1, Action::Error),
                    on(0, Action::Reduce(0)),
                ],
                default_reduce: Some(0),
            },
            State { transitions: vec![on(0, Action::ShiftAndReduce(0))], default_reduce: None },
        ],
        goal: 2,
    }
}

#[test]
fn find_gives_the_first_entry_for_a_symbol() {
    let grammar = small();
    assert_eq!(grammar.states[0].find(0), Some(Action::Shift(1)));
    assert_eq!(grammar.states[0].find(1), Some(Action::Error));
    assert_eq!(grammar.states[0].find(2), None);
    assert_eq!(grammar.states[1].find(0), Some(Action::ShiftAndReduce(0)));
    assert_eq!(grammar.states[1].find(1), None);
}

#[test]
fn explicit_entry_comes_before_the_default() {
    let grammar = small();
    let parser = Parser::new(&grammar);
    assert_eq!(parser.get_action(0, 0), Action::Shift(1));
    assert_eq!(parser.get_action(0, 1), Action::Error);
}

#[test]
fn default_reduce_stands_in_for_a_missing_entry() {
    let grammar = small();
    let parser = Parser::new(&grammar);
    assert_eq!(parser.get_action(0, 2), Action::Reduce(0));
    assert_eq!(parser.get_action(0, 77), Action::Reduce(0));
}

#[test]
fn no_entry_and_no_default_is_an_error() {
    let grammar = small();
    let parser = Parser::new(&grammar);
    assert_eq!(parser.get_action(1, 0), Action::ShiftAndReduce(0));
    assert_eq!(parser.get_action(1, 1), Action::Error);
    assert_eq!(parser.get_action(1, 2), Action::Error);
}

#[test]
fn unknown_state_has_no_action() {
    let grammar = small();
    let parser = Parser::new(&grammar);
    assert_eq!(parser.get_action(2, 0), Action::Error);
    assert_eq!(parser.get_action(usize::MAX, 0), Action::Error);
}

#[test]
fn lexer_may_hand_over_terminals_that_are_not_whitespace() {
    let grammar = small();
    assert!(grammar.accepts(&Token { symbol: 0, start: 0, end: 1 }));
    assert!(!grammar.accepts(&Token { symbol: 1, start: 0, end: 1 }));
    assert!(!grammar.accepts(&Token { symbol: 2, start: 0, end: 1 }));
    assert!(!grammar.accepts(&Token { symbol: 3, start: 0, end: 1 }));
}

#[test]
fn small_tables_are_well_formed() {
    assert!(small().is_well_formed());
}

#[test]
fn tables_without_states_are_not_well_formed() {
    let mut grammar = small();
    grammar.states.clear();
    grammar.productions.clear();
    assert!(!grammar.is_well_formed());
}

#[test]
fn goal_must_be_a_symbol() {
    let mut grammar = small();
    grammar.goal = 3;
    assert!(!grammar.is_well_formed());
}

#[test]
fn left_hand_side_must_be_a_symbol() {
    let mut grammar = small();
    grammar.productions[0].lhs = 3;
    assert!(!grammar.is_well_formed());
    assert!(!grammar.production_ok(0));
}

#[test]
fn right_hand_side_must_hold_symbols() {
    let mut grammar = small();
    grammar.productions[0].rhs[1] = 9;
    assert!(!grammar.is_well_formed());
    assert!(!grammar.production_ok(0));
    grammar.productions[0].rhs[1] = 2;
    assert!(grammar.production_ok(0));
}

#[test]
fn shift_must_lead_to_a_state() {
    let mut grammar = small();
    assert!(grammar.action_ok(Action::Shift(1)));
    assert!(!grammar.action_ok(Action::Shift(2)));
    grammar.states[0].transitions[0].action = Action::Shift(2);
    assert!(!grammar.state_ok(0));
    assert!(grammar.state_ok(1));
    assert!(!grammar.is_well_formed());
}

#[test]
fn reduce_must_name_a_production() {
    let mut grammar = small();
    assert!(grammar.action_ok(Action::Reduce(0)));
    assert!(!grammar.action_ok(Action::Reduce(1)));
    grammar.states[0].transitions[2].action = Action::Reduce(1);
    assert!(!grammar.is_well_formed());
}

#[test]
fn default_reduce_must_name_a_production() {
    let mut grammar = small();
    grammar.states[1].default_reduce = Some(1);
    assert!(!grammar.state_ok(1));
    assert!(!grammar.is_well_formed());
}

#[test]
fn fused_entry_needs_a_production_with_a_symbol_to_shift() {
    let mut grammar = small();
    assert!(grammar.action_ok(Action::ShiftAndReduce(0)));
    assert!(!grammar.action_ok(Action::ShiftAndReduce(1)));
    grammar.productions[0].rhs.clear();
    assert!(!grammar.action_ok(Action::ShiftAndReduce(0)));
    assert!(grammar.action_ok(Action::Reduce(0)));
    assert!(!grammar.is_well_formed());
}

#[test]
fn error_and_accept_name_nothing() {
    let grammar = small();
    assert!(grammar.action_ok(Action::Error));
    assert!(grammar.action_ok(Action::Accept));
}
