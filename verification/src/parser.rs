//! The engine: a stack of frames driven by the tables, one token at a time.

use crate::grammar::{Action, Grammar, Tables, Token};
use crate::model::{bottom, fragments, gather, Fault, Fed, FrameView, Outcome, Reduced, Settled};
use crate::tree::{lemma_trees_of_concat, trees_of, Node, Tree};
use vstd::prelude::*;

verus! {

/// A frame of the parse stack: the state the automaton is in, and the
/// fragments of the tree gathered while this frame was pushed.
#[derive(Debug)]
pub struct Frame {
    pub state: usize,
    pub nodes: Vec<Node>,
}

impl View for Frame {
    type V = FrameView;

    open spec fn view(&self) -> FrameView {
        FrameView { state: self.state, nodes: trees_of(self.nodes@) }
    }
}

/// The models of a sequence of frames, in the same order.
pub open spec fn frames_of(frames: Seq<Frame>) -> Seq<FrameView> {
    Seq::new(frames.len(), |i: int| frames[i]@)
}

/// The model of the fragments that a fused shift carries.
pub open spec fn carried(carry: Option<Vec<Node>>) -> Option<Seq<Tree>> {
    match carry {
        Some(nodes) => Some(trees_of(nodes@)),
        None => None,
    }
}

/// What a single reduction led to.
#[derive(Debug)]
pub enum Reduction {
    /// A frame for the derived symbol was pushed.
    Pushed,
    /// The derived symbol is shifted and reduced in one: `production` is due,
    /// with `carry` as the fragments of the frame left out.
    Fused { production: usize, carry: Vec<Node> },
    /// The goal was reduced on the bare stack; these are the roots.
    Accepted(Vec<Node>),
    /// The tables contradict themselves; the stack is as it was.
    Fault(Fault),
}

/// What an action led to once every reduction it set off was done.
#[derive(Debug)]
pub enum Settling {
    /// The last reduction pushed its frame; the parse goes on.
    Settled,
    /// The goal was reduced on the bare stack; these are the roots.
    Accepted(Vec<Node>),
    /// The tables contradict themselves.
    Fault(Fault),
}

/// What the parser made of one token.
#[derive(Debug)]
pub enum Step {
    /// The token is taken; the parser waits for the next.
    Shifted,
    /// The goal was reduced on the bare stack; these are the roots.
    Accepted(Vec<Node>),
    /// The token cannot follow; `state` is the state that refused it.
    Rejected { state: usize },
    /// The tables contradict themselves.
    Fault(Fault),
}

/// The input is no sentence of the grammar.
#[derive(Debug, Clone, Copy, PartialEq, Eq, Structural)]
pub struct SyntaxError {
    /// The token that cannot follow, or `None` where the input ends too early.
    pub found: Option<Token>,
    /// The state on top of the stack when the input failed.
    pub state: usize,
}

/// Why a parse gave no tree.
#[derive(Debug, Clone, Copy, PartialEq, Eq, Structural)]
pub enum ParseError {
    /// The input is at fault.
    Syntax(SyntaxError),
    /// The tables are at fault.
    Fault(Fault),
}

/// A parser over borrowed tables. It owns its stack, and allows the parse
/// under way a budget of reductions.
#[derive(Debug)]
pub struct Parser<'a> {
    grammar: &'a Grammar,
    stack: Vec<Frame>,
    budget: usize,
    fuel: usize,
}

impl<'a> Parser<'a> {
    /// The tables that the parser reads.
    pub closed spec fn tables(&self) -> Tables {
        self.grammar@
    }

    /// The stack, lowest frame first.
    pub closed spec fn stack(&self) -> Seq<FrameView> {
        frames_of(self.stack@)
    }

    /// The reductions allowed to one parse.
    pub closed spec fn budget(&self) -> nat {
        self.budget as nat
    }

    /// The reductions still allowed to the parse under way.
    pub closed spec fn fuel(&self) -> nat {
        self.fuel as nat
    }

    /// The parser's invariant: well-formed tables, a stack that they hold, and
    /// no more fuel than the budget allows.
    pub open spec fn wf(&self) -> bool {
        &&& self.tables().wf()
        &&& self.tables().holds(self.stack())
        &&& self.fuel() <= self.budget()
    }

    /// Whether the parser is as `new` left it: nothing on the stack but the
    /// bottom frame, the budget whole.
    pub open spec fn fresh(&self) -> bool {
        &&& self.stack() == bottom()
        &&& self.fuel() == self.budget()
    }

    /// A parser over `grammar` that is in effect unbounded: its budget is the
    /// largest that the machine can count.
    pub fn new(grammar: &'a Grammar) -> (parser: Self)
        requires
            grammar@.wf(),
        ensures
            parser.wf(),
            parser.fresh(),
            parser.tables() == grammar@,
            parser.budget() == usize::MAX,
    {
        Self::with_budget(grammar, usize::MAX)
    }

    /// A parser over `grammar` that gives up a parse after `budget`
    /// reductions.
    pub fn with_budget(grammar: &'a Grammar, budget: usize) -> (parser: Self)
        requires
            grammar@.wf(),
        ensures
            parser.wf(),
            parser.fresh(),
            parser.tables() == grammar@,
            parser.budget() == budget,
    {
        let mut stack: Vec<Frame> = Vec::new();
        stack.push(Frame { state: 0, nodes: Vec::new() });
        let parser = Parser { grammar, stack, budget, fuel: budget };
        assert(parser.stack() =~~= bottom()) by {
            assert(parser.stack@[0]@.nodes =~= Seq::empty());
        }
        parser
    }

    /// What the automaton does in `state` on `symbol`.
    pub fn get_action(&self, state: usize, symbol: usize) -> (action: Action)
        ensures
            action == self.tables().lookup(state, symbol),
    {
        if state < self.grammar.states.len() {
            let entry = &self.grammar.states[state];
            match entry.find(symbol) {
                Some(action) => action,
                None => match entry.default_reduce {
                    Some(production) => Action::Reduce(production),
                    None => Action::Error,
                },
            }
        } else {
            Action::Error
        }
    }

    /// Takes `taken` frames off the stack and hands back what a reduction by
    /// `production` makes of their fragments and of `carry`.
    fn collect(&mut self, production: usize, taken: usize, carry: Option<Vec<Node>>) -> (nodes:
        Vec<Node>)
        requires
            old(self).wf(),
            production < old(self).tables().productions.len(),
            taken < old(self).stack().len(),
        ensures
            final(self).wf(),
            final(self).tables() == old(self).tables(),
            final(self).budget() == old(self).budget(),
            final(self).fuel() == old(self).fuel(),
            final(self).stack() == old(self).stack().take(old(self).stack().len() - taken),
            trees_of(nodes@) == old(self).tables().wrap(
                production,
                fragments(old(self).stack(), taken as int, carried(carry)),
            ),
    {
        let ghost before = self.stack@;
        let ghost depth = before.len() as int;
        let ghost last = carried(carry);
        let mut collected: Vec<Node> = match carry {
            Some(nodes) => nodes,
            None => Vec::new(),
        };
        proof {
            assert(frames_of(before).skip(depth - 0) =~= Seq::empty());
            assert(trees_of(collected@) =~= fragments(frames_of(before), 0, last));
        }
        let mut done: usize = 0;
        while done < taken
            invariant
                done <= taken < depth,
                depth == before.len(),
                self.grammar == old(self).grammar,
                self.budget == old(self).budget,
                self.fuel == old(self).fuel,
                self.stack@ == before.take(depth - done),
                trees_of(collected@) == fragments(frames_of(before), done as int, last),
            decreases taken - done,
        {
            let ghost below = collected@;
            let frame = self.stack.pop().unwrap();
            let Frame { state: _, nodes } = frame;
            let mut nodes = nodes;
            nodes.append(&mut collected);
            collected = nodes;
            proof {
                let views = frames_of(before);
                let index = depth - done - 1;
                assert(frame == before[index]);
                lemma_trees_of_concat(before[index].nodes@, below);
                assert(views.skip(index).drop_first() =~= views.skip(index + 1));
                assert(views.skip(index)[0] == views[index]);
                assert(gather(views.skip(index)) == views[index].nodes + gather(
                    views.skip(index + 1),
                ));
                assert(trees_of(collected@) =~= fragments(views, done + 1, last));
                assert(self.stack@ =~= before.take(depth - done - 1));
            }
            done += 1;
        }
        proof {
            assert(self.stack() =~= old(self).stack().take(depth - taken));
        }
        let nodes = match self.grammar.productions[production].emit {
            Some(emit) => {
                let children = if collected.len() == 0 {
                    None
                } else {
                    Some(collected)
                };
                let mut nodes: Vec<Node> = Vec::new();
                nodes.push(Node { emit, children });
                nodes
            },
            None => collected,
        };
        proof {
            assert(trees_of(nodes@) =~~= self.tables().wrap(
                production,
                fragments(old(self).stack(), taken as int, last),
            ));
        }
        nodes
    }

    /// One reduction by `production`. With `carry`, the topmost frame of the
    /// right-hand side was never pushed, and `carry` holds its fragments.
    ///
    /// It takes exactly as many frames as the production has symbols, the one
    /// left out counted among them, and leaves one in their place unless the
    /// goal was reduced or a fused reduction is due. What it hands on are
    /// the fragments of those frames in stack order: under one new node where
    /// the production has a label, bare where it has none.
    pub fn reduce(&mut self, production: usize, carry: Option<Vec<Node>>) -> (reduction: Reduction)
        requires
            old(self).wf(),
            production < old(self).tables().productions.len(),
            carry is Some ==> old(self).tables().arity(production) > 0,
        ensures
            final(self).wf(),
            final(self).tables() == old(self).tables(),
            final(self).budget() == old(self).budget(),
            final(self).fuel() == old(self).fuel(),
            match old(self).tables().reduce(old(self).stack(), production, carried(carry)) {
                Reduced::Pushed { stack } => reduction is Pushed && final(self).stack() == stack,
                Reduced::Fused { stack, production: next, carry: last } => {
                    &&& reduction matches Reduction::Fused { production: due, carry: nodes }
                    &&& due == next
                    &&& trees_of(nodes@) == last
                    &&& final(self).stack() == stack
                },
                Reduced::Accepted { roots } => {
                    &&& reduction matches Reduction::Accepted(nodes)
                    &&& trees_of(nodes@) == roots
                    &&& final(self).stack() == bottom()
                },
                Reduced::Fault(fault) => {
                    &&& reduction matches Reduction::Fault(found)
                    &&& found == fault
                    &&& final(self).stack() == old(self).stack()
                },
            },
            reduction is Pushed ==> final(self).stack().len() == old(self).stack().len()
                - old(self).tables().taken(production, carried(carry)) + 1,
            reduction is Fused || reduction is Accepted ==> final(self).stack().len() == old(
                self,
            ).stack().len() - old(self).tables().taken(production, carried(carry)),
    {
        let arity = self.grammar.productions[production].rhs.len();
        let taken = if carry.is_some() {
            arity - 1
        } else {
            arity
        };
        let depth = self.stack.len();
        if taken >= depth {
            return Reduction::Fault(Fault::Underflow);
        }
        let lhs = self.grammar.productions[production].lhs;
        if depth - taken == 1 && lhs == self.grammar.goal {
            let nodes = self.collect(production, taken, carry);
            assert(self.stack() =~~= bottom());
            return Reduction::Accepted(nodes);
        }
        let below = self.stack[depth - taken - 1].state;
        proof {
            self.tables().lemma_lookup_ok(below, lhs);
        }
        match self.get_action(below, lhs) {
            Action::Shift(state) => {
                let nodes = self.collect(production, taken, carry);
                self.stack.push(Frame { state, nodes });
                proof {
                    let rest = old(self).stack().take(depth - taken);
                    assert(self.stack() =~= rest.push(
                        FrameView { state, nodes: trees_of(nodes@) },
                    ));
                }
                Reduction::Pushed
            },
            Action::ShiftAndReduce(next) => {
                let nodes = self.collect(production, taken, carry);
                Reduction::Fused { production: next, carry: nodes }
            },
            _ => Reduction::Fault(Fault::Goto),
        }
    }

    /// Ends the parse under way: nothing is left on the stack but the bottom
    /// frame, and the budget is whole again.
    pub fn reset(&mut self)
        requires
            old(self).wf(),
        ensures
            final(self).wf(),
            final(self).fresh(),
            final(self).tables() == old(self).tables(),
            final(self).budget() == old(self).budget(),
    {
        self.stack.truncate(1);
        self.fuel = self.budget;
        proof {
            assert(old(self).stack()[0].nodes =~= Seq::empty());
            assert(self.stack() =~~= bottom());
        }
    }

    /// A reduction by `production` and every fused one that follows from it,
    /// each counted against the budget. Where the parse ends here, the parser
    /// is fresh again.
    pub fn settle(&mut self, production: usize, carry: Option<Vec<Node>>) -> (settling: Settling)
        requires
            old(self).wf(),
            production < old(self).tables().productions.len(),
            carry is Some ==> old(self).tables().arity(production) > 0,
        ensures
            final(self).wf(),
            final(self).tables() == old(self).tables(),
            final(self).budget() == old(self).budget(),
            match old(self).tables().settle(
                old(self).stack(),
                production,
                carried(carry),
                old(self).fuel(),
            ) {
                Settled::Stack { stack, fuel } => {
                    &&& settling is Settled
                    &&& final(self).stack() == stack
                    &&& final(self).fuel() == fuel
                },
                Settled::Accepted { roots } => {
                    &&& settling matches Settling::Accepted(nodes)
                    &&& trees_of(nodes@) == roots
                    &&& final(self).fresh()
                },
                Settled::Fault(fault) => {
                    &&& settling matches Settling::Fault(found)
                    &&& found == fault
                    &&& final(self).fresh()
                },
            },
    {
        let ghost goal = self.tables().settle(
            self.stack(),
            production,
            carried(carry),
            self.fuel(),
        );
        let mut due = production;
        let mut last = carry;
        loop
            invariant
                self.wf(),
                self.tables() == old(self).tables(),
                self.budget() == old(self).budget(),
                due < self.tables().productions.len(),
                last is Some ==> self.tables().arity(due) > 0,
                goal == old(self).tables().settle(
                    old(self).stack(),
                    production,
                    carried(carry),
                    old(self).fuel(),
                ),
                self.tables().settle(self.stack(), due, carried(last), self.fuel()) == goal,
            decreases self.fuel(),
        {
            if self.fuel == 0 {
                self.reset();
                return Settling::Fault(Fault::Budget);
            }
            proof {
                self.tables().lemma_reduce_ok(self.stack(), due, carried(last));
            }
            match self.reduce(due, last) {
                Reduction::Pushed => {
                    self.fuel -= 1;
                    return Settling::Settled;
                },
                Reduction::Fused { production: next, carry: nodes } => {
                    self.fuel -= 1;
                    due = next;
                    last = Some(nodes);
                },
                Reduction::Accepted(nodes) => {
                    self.reset();
                    return Settling::Accepted(nodes);
                },
                Reduction::Fault(fault) => {
                    self.reset();
                    return Settling::Fault(fault);
                },
            }
        }
    }

    /// The fragments that shifting `symbol` leaves.
    fn leaf(&self, symbol: usize) -> (nodes: Vec<Node>)
        requires
            symbol < self.tables().symbols.len(),
        ensures
            trees_of(nodes@) == self.tables().leaf(symbol),
    {
        let mut nodes: Vec<Node> = Vec::new();
        if self.grammar.symbols[symbol].terminal {
            if let Some(emit) = self.grammar.symbols[symbol].emit {
                nodes.push(Node { emit, children: None });
            }
        }
        assert(trees_of(nodes@) =~~= self.tables().leaf(symbol));
        nodes
    }

    /// Hands the parser one token. It reduces for as long as the tables ask
    /// for it on this token, and stops when the token is shifted, the goal is
    /// reduced, the token is refused or the tables fail. Where the parse ends
    /// here, the parser is fresh again.
    pub fn next(&mut self, token: &Token) -> (step: Step)
        requires
            old(self).wf(),
            old(self).tables().valid_token(*token),
        ensures
            final(self).wf(),
            final(self).tables() == old(self).tables(),
            final(self).budget() == old(self).budget(),
            match old(self).tables().feed(old(self).stack(), *token, old(self).fuel()) {
                Fed::Shifted { stack, fuel } => {
                    &&& step is Shifted
                    &&& final(self).stack() == stack
                    &&& final(self).fuel() == fuel
                },
                Fed::Accepted { roots } => {
                    &&& step matches Step::Accepted(nodes)
                    &&& trees_of(nodes@) == roots
                    &&& final(self).fresh()
                },
                Fed::Rejected { state } => {
                    &&& step matches Step::Rejected { state: top }
                    &&& top == state
                    &&& final(self).fresh()
                },
                Fed::Fault(fault) => {
                    &&& step matches Step::Fault(found)
                    &&& found == fault
                    &&& final(self).fresh()
                },
            },
    {
        let ghost goal = self.tables().feed(self.stack(), *token, self.fuel());
        loop
            invariant
                self.wf(),
                self.tables() == old(self).tables(),
                self.budget() == old(self).budget(),
                self.tables().valid_token(*token),
                goal == old(self).tables().feed(old(self).stack(), *token, old(self).fuel()),
                self.tables().feed(self.stack(), *token, self.fuel()) == goal,
            decreases self.fuel(),
        {
            let state = self.state();
            proof {
                self.tables().lemma_lookup_ok(state, token.symbol);
            }
            match self.get_action(state, token.symbol) {
                Action::Shift(target) => {
                    let ghost before = self.stack();
                    let nodes = self.leaf(token.symbol);
                    self.stack.push(Frame { state: target, nodes });
                    proof {
                        assert(self.stack() =~= before.push(
                            FrameView { state: target, nodes: self.tables().leaf(token.symbol) },
                        ));
                    }
                    return Step::Shifted;
                },
                Action::ShiftAndReduce(production) => {
                    let carry = self.leaf(token.symbol);
                    match self.settle(production, Some(carry)) {
                        Settling::Settled => {
                            return Step::Shifted;
                        },
                        Settling::Accepted(nodes) => {
                            return Step::Accepted(nodes);
                        },
                        Settling::Fault(fault) => {
                            return Step::Fault(fault);
                        },
                    }
                },
                Action::Reduce(production) => {
                    proof {
                        self.tables().lemma_settle_spends(
                            self.stack(),
                            production,
                            None,
                            self.fuel(),
                        );
                    }
                    match self.settle(production, None) {
                        Settling::Settled => {},
                        Settling::Accepted(nodes) => {
                            return Step::Accepted(nodes);
                        },
                        Settling::Fault(fault) => {
                            return Step::Fault(fault);
                        },
                    }
                },
                Action::Error => {
                    self.reset();
                    return Step::Rejected { state };
                },
                Action::Accept => {
                    self.reset();
                    return Step::Fault(Fault::Entry);
                },
            }
        }
    }

    /// Parses `tokens` from where the parser stands, and leaves it fresh. The
    /// roots of the tree come back where the goal is reduced, whatever input
    /// is left then; a syntax error where a token is refused or the input ends
    /// before the goal is reduced; a fault where the tables fail.
    pub fn parse(&mut self, tokens: &[Token]) -> (result: Result<Vec<Node>, ParseError>)
        requires
            old(self).wf(),
            forall|i: int|
                0 <= i < tokens@.len() ==> old(self).tables().valid_token(#[trigger] tokens@[i]),
        ensures
            final(self).wf(),
            final(self).fresh(),
            final(self).tables() == old(self).tables(),
            final(self).budget() == old(self).budget(),
            match old(self).tables().run(old(self).stack(), tokens@, old(self).fuel()) {
                Outcome::Accepted { roots } => {
                    &&& result matches Ok(nodes)
                    &&& trees_of(nodes@) == roots
                },
                Outcome::Rejected { found, state } => {
                    &&& result matches Err(ParseError::Syntax(error))
                    &&& error.found == found
                    &&& error.state == state
                },
                Outcome::Fault(fault) => {
                    &&& result matches Err(ParseError::Fault(found))
                    &&& found == fault
                },
            },
    {
        let ghost goal = self.tables().run(self.stack(), tokens@, self.fuel());
        let mut at: usize = 0;
        assert(tokens@.skip(0) == tokens@);
        while at < tokens.len()
            invariant
                at <= tokens@.len(),
                self.wf(),
                self.tables() == old(self).tables(),
                self.budget() == old(self).budget(),
                forall|i: int|
                    0 <= i < tokens@.len() ==> self.tables().valid_token(#[trigger] tokens@[i]),
                goal == old(self).tables().run(old(self).stack(), tokens@, old(self).fuel()),
                self.tables().run(self.stack(), tokens@.skip(at as int), self.fuel()) == goal,
            decreases tokens@.len() - at,
        {
            let token = tokens[at];
            proof {
                let rest = tokens@.skip(at as int);
                assert(rest[0] == tokens@[at as int]);
                assert(rest.drop_first() == tokens@.skip(at + 1));
            }
            match self.next(&token) {
                Step::Shifted => {},
                Step::Accepted(nodes) => {
                    return Ok(nodes);
                },
                Step::Rejected { state } => {
                    return Err(ParseError::Syntax(SyntaxError { found: Some(token), state }));
                },
                Step::Fault(fault) => {
                    return Err(ParseError::Fault(fault));
                },
            }
            at += 1;
        }
        let state = self.state();
        self.reset();
        Err(ParseError::Syntax(SyntaxError { found: None, state }))
    }

    /// The number of frames on the stack, the bottom frame included.
    pub fn depth(&self) -> (depth: usize)
        ensures
            depth == self.stack().len(),
    {
        self.stack.len()
    }

    /// The state on top of the stack.
    pub fn state(&self) -> (state: usize)
        requires
            self.wf(),
        ensures
            state == self.stack().last().state,
    {
        self.stack[self.stack.len() - 1].state
    }
}

} // verus!
