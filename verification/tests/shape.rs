use shift_reduce::{
    Action, Grammar, Node, Parser, Production, State, Symbol, Token, Transition,
};

fn terminal(name: &'static str, emit: Option<&'static str>) -> Symbol {
    Symbol { name, emit, terminal: true, whitespace: false, lexem: false }
}

fn nonterminal(name: &'static str, emit: Option<&'static str>) -> Symbol {
    Symbol { name, emit, terminal: false, whitespace: false, lexem: false }
}

fn on(symbol: usize, action: Action) -> Transition {
    Transition { symbol, action }
}

const ITEM: usize = 0;
const OPEN: usize = 1;
const CLOSE: usize = 2;
const END: usize = 3;
const LIST: usize = 4;
const GROUP: usize = 5;
const GOAL: usize = 6;

/// Goal -> List END; List -> List Group | (nothing); Group -> ITEM | OPEN List
/// CLOSE (group). The nonterminal List has a label that no shift can use.
fn groups() -> Grammar {
    Grammar {
        symbols: vec![
            terminal("ITEM", Some("item")),
            terminal("OPEN", None),
            terminal("CLOSE", None),
            terminal("END", None),
            nonterminal("List", Some("unused")),
            nonterminal("Group", None),
            nonterminal("Goal", None),
        ],
        productions: vec![
            Production { lhs: GOAL, emit: None, rhs: vec![LIST, END] },
            Production { lhs: LIST, emit: None, rhs: vec![LIST, GROUP] },
            Production { lhs: LIST, emit: None, rhs: vec![] },
            Production { lhs: GROUP, emit: None, rhs: vec![ITEM] },
            Production { lhs: GROUP, emit: Some("group"), rhs: vec![OPEN, LIST, CLOSE] },
        ],
        states: vec![
            State { transitions: vec![on(LIST, Action::Shift(1))], default_reduce: Some(2) },
            State {
                transitions: vec![
                    on(END, Action::ShiftAndReduce(0)),
                    on(ITEM, Action::ShiftAndReduce(3)),
                    on(OPEN, Action::Shift(2)),
                    on(GROUP, Action::ShiftAndReduce(1)),
                ],
                default_reduce: None,
            },
            State { transitions: vec![on(LIST, Action::Shift(3))], default_reduce: Some(2) },
            State {
                transitions: vec![
                    on(CLOSE, Action::ShiftAndReduce(4)),
                    on(ITEM, Action::ShiftAndReduce(3)),
                    on(OPEN, Action::Shift(2)),
                    on(GROUP, Action::ShiftAndReduce(1)),
                ],
                default_reduce: None,
            },
        ],
        goal: GOAL,
    }
}

fn inputs(upto: usize) -> Vec<Vec<Token>> {
    let symbols = [ITEM, OPEN, CLOSE, END];
    let mut all: Vec<Vec<Token>> = vec![Vec::new()];
    let mut from = 0;
    for _ in 0..upto {
        let end = all.len();
        for index in from..end {
            for symbol in symbols {
                let mut longer = all[index].clone();
                let at = longer.len();
                longer.push(Token { symbol, start: at, end: at + 1 });
                all.push(longer);
            }
        }
        from = end;
    }
    all
}

fn well_shaped(node: &Node) -> bool {
    match &node.children {
        None => node.emit == "item" || node.emit == "group",
        Some(children) => {
            node.emit == "group" && !children.is_empty() && children.iter().all(well_shaped)
        }
    }
}

fn item() -> Node {
    Node { emit: "item", children: None }
}

fn group(children: Vec<Node>) -> Node {
    Node { emit: "group", children: if children.is_empty() { None } else { Some(children) } }
}

fn words(text: &str) -> Vec<Token> {
    text.chars()
        .enumerate()
        .map(|(at, word)| {
            let symbol = match word {
                'i' => ITEM,
                '(' => OPEN,
                ')' => CLOSE,
                _ => END,
            };
            Token { symbol, start: at, end: at + 1 }
        })
        .collect()
}

#[test]
fn groups_nest_and_empty_groups_have_no_children() {
    let grammar = groups();
    assert!(grammar.is_well_formed());
    let mut parser = Parser::new(&grammar);
    assert_eq!(parser.parse(&words("$")), Ok(vec![]));
    assert_eq!(parser.parse(&words("i$")), Ok(vec![item()]));
    assert_eq!(parser.parse(&words("ii$")), Ok(vec![item(), item()]));
    assert_eq!(parser.parse(&words("()$")), Ok(vec![group(vec![])]));
    assert_eq!(
        parser.parse(&words("i(i()i)(i)$")),
        Ok(vec![
            item(),
            group(vec![item(), group(vec![]), item()]),
            group(vec![item()]),
        ])
    );
    assert_eq!(
        parser.parse(&words("((i))$")),
        Ok(vec![group(vec![group(vec![item()])])])
    );
}

#[test]
fn transparent_goal_hands_out_several_roots() {
    let grammar = groups();
    let mut parser = Parser::new(&grammar);
    let roots = parser.parse(&words("i()i$")).unwrap();
    assert_eq!(roots.len(), 3);
}

#[test]
fn unbalanced_groups_are_refused() {
    let grammar = groups();
    let mut parser = Parser::new(&grammar);
    assert!(parser.parse(&words("(i$")).is_err());
    assert!(parser.parse(&words("i)$")).is_err());
    assert!(parser.parse(&words("(()$")).is_err());
}

#[test]
fn every_node_bears_the_label_of_a_terminal_or_a_production() {
    let grammar = groups();
    let mut parser = Parser::new(&grammar);
    let mut accepted = 0;
    for input in inputs(6) {
        if let Ok(roots) = parser.parse(&input) {
            accepted += 1;
            assert!(roots.iter().all(well_shaped), "{:?}", roots);
        }
    }
    assert!(accepted > 10);
}

#[test]
fn label_of_a_nonterminal_makes_no_leaf() {
    let grammar = Grammar {
        symbols: vec![nonterminal("Odd", Some("odd")), nonterminal("Goal", None)],
        productions: vec![Production { lhs: 1, emit: None, rhs: vec![0] }],
        states: vec![State {
            transitions: vec![on(0, Action::ShiftAndReduce(0))],
            default_reduce: None,
        }],
        goal: 1,
    };
    assert!(grammar.is_well_formed());
    assert!(!grammar.accepts(&Token { symbol: 0, start: 0, end: 0 }));
}
