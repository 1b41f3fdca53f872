//! What the engine does, as mathematics: the stack, a single reduction, the
//! run of reductions that one action sets off, the handling of one token and
//! of a whole input.

use crate::grammar::{Action, Tables, Token};
use crate::tree::Tree;
use vstd::prelude::*;

verus! {

/// How the tables can contradict themselves while a parse runs.
#[derive(Debug, Clone, Copy, PartialEq, Eq, Structural)]
pub enum Fault {
    /// A reduction asks for more frames than lie above the bottom frame.
    Underflow,
    /// After a reduction the state laid bare has no shift for the symbol that
    /// was derived.
    Goto,
    /// An entry of the tables holds `Accept`.
    Entry,
    /// The reductions allowed to one parse are spent.
    Budget,
}

/// The model of a stack frame: a state and the fragments gathered under it.
#[verifier::ext_equal]
pub struct FrameView {
    pub state: usize,
    pub nodes: Seq<Tree>,
}

/// The stack before any input: the bottom frame alone.
pub open spec fn bottom() -> Seq<FrameView> {
    seq![FrameView { state: 0, nodes: Seq::empty() }]
}

/// The fragments of `frames`, from the lowest frame to the highest. A frame
/// without fragments adds nothing.
pub open spec fn gather(frames: Seq<FrameView>) -> Seq<Tree>
    decreases frames.len(),
{
    if frames.len() == 0 {
        Seq::empty()
    } else {
        frames[0].nodes + gather(frames.drop_first())
    }
}

/// What a reduction that takes `taken` frames collects: the fragments of those
/// frames from the lowest to the highest, then those of the frame that a fused
/// shift left out, where there is one.
pub open spec fn fragments(stack: Seq<FrameView>, taken: int, carry: Option<Seq<Tree>>) -> Seq<
    Tree,
> {
    let above = gather(stack.skip(stack.len() - taken));
    match carry {
        Some(last) => above + last,
        None => above,
    }
}

/// What a single reduction leads to.
pub enum Reduced {
    /// A frame for the derived symbol lies on the stack.
    Pushed { stack: Seq<FrameView> },
    /// The derived symbol is shifted and reduced in one: `production` is due
    /// on `stack`, with `carry` as the fragments of the frame left out.
    Fused { stack: Seq<FrameView>, production: usize, carry: Seq<Tree> },
    /// The goal was reduced on the bare stack.
    Accepted { roots: Seq<Tree> },
    Fault(Fault),
}

/// What an action leads to once every reduction it sets off is done.
pub enum Settled {
    /// The stack as it stands, and the reductions still allowed.
    Stack { stack: Seq<FrameView>, fuel: nat },
    Accepted { roots: Seq<Tree> },
    Fault(Fault),
}

/// What the engine makes of one token.
pub enum Fed {
    /// The token is taken; the engine waits for the next.
    Shifted { stack: Seq<FrameView>, fuel: nat },
    Accepted { roots: Seq<Tree> },
    /// The token cannot follow; `state` is the state that refused it.
    Rejected { state: usize },
    Fault(Fault),
}

/// What the engine makes of an input.
pub enum Outcome {
    Accepted { roots: Seq<Tree> },
    /// The input is no sentence: `found` is the token that cannot follow, or
    /// `None` where the input ends too early, and `state` the state on top of
    /// the stack then.
    Rejected { found: Option<Token>, state: usize },
    Fault(Fault),
}

impl Tables {
    /// A stack that the engine can work on: the bottom frame lies lowest, and
    /// every frame is in a state of the tables.
    pub open spec fn holds(self, stack: Seq<FrameView>) -> bool {
        &&& stack.len() > 0
        &&& stack[0].state == 0
        &&& stack[0].nodes.len() == 0
        &&& forall|i: int| 0 <= i < stack.len() ==> (#[trigger] stack[i]).state < self.states.len()
    }

    /// The fragments that shifting `symbol` leaves: one leaf where the symbol
    /// is a terminal with a label, nothing otherwise.
    pub open spec fn leaf(self, symbol: usize) -> Seq<Tree> {
        match self.symbols[symbol as int].emit {
            Some(emit) if self.symbols[symbol as int].terminal => seq![
                Tree { emit, children: None },
            ],
            _ => Seq::empty(),
        }
    }

    /// What a reduction by `production` hands on, given the fragments it
    /// collected: one node around them where the production has a label, the
    /// fragments unchanged where it has none.
    pub open spec fn wrap(self, production: usize, fragments: Seq<Tree>) -> Seq<Tree> {
        match self.productions[production as int].emit {
            Some(emit) => seq![
                Tree { emit, children: if fragments.len() == 0 { None } else { Some(fragments) } },
            ],
            None => fragments,
        }
    }

    /// The number of frames that a reduction by `production` takes off the
    /// stack: its arity, less the one frame that a fused shift left out.
    pub open spec fn taken(self, production: usize, carry: Option<Seq<Tree>>) -> int {
        if carry is Some {
            self.arity(production) - 1
        } else {
            self.arity(production) as int
        }
    }

    /// One reduction by `production`. With `carry`, the topmost frame of the
    /// right-hand side was never pushed, and `carry` holds its fragments.
    pub open spec fn reduce(
        self,
        stack: Seq<FrameView>,
        production: usize,
        carry: Option<Seq<Tree>>,
    ) -> Reduced {
        let taken = self.taken(production, carry);
        if taken < 0 || taken >= stack.len() {
            Reduced::Fault(Fault::Underflow)
        } else {
            let rest = stack.take(stack.len() - taken);
            let nodes = self.wrap(production, fragments(stack, taken, carry));
            let lhs = self.productions[production as int].lhs;
            if rest.len() == 1 && lhs == self.goal {
                Reduced::Accepted { roots: nodes }
            } else {
                match self.lookup(rest.last().state, lhs) {
                    Action::Shift(state) => Reduced::Pushed {
                        stack: rest.push(FrameView { state, nodes }),
                    },
                    Action::ShiftAndReduce(next) => Reduced::Fused {
                        stack: rest,
                        production: next,
                        carry: nodes,
                    },
                    _ => Reduced::Fault(Fault::Goto),
                }
            }
        }
    }

    /// A reduction by `production` and every fused one that follows from it.
    /// Each costs one unit of `fuel`.
    pub open spec fn settle(
        self,
        stack: Seq<FrameView>,
        production: usize,
        carry: Option<Seq<Tree>>,
        fuel: nat,
    ) -> Settled
        decreases fuel,
    {
        if fuel == 0 {
            Settled::Fault(Fault::Budget)
        } else {
            match self.reduce(stack, production, carry) {
                Reduced::Pushed { stack } => Settled::Stack { stack, fuel: (fuel - 1) as nat },
                Reduced::Fused { stack, production, carry } => self.settle(
                    stack,
                    production,
                    Some(carry),
                    (fuel - 1) as nat,
                ),
                Reduced::Accepted { roots } => Settled::Accepted { roots },
                Reduced::Fault(fault) => Settled::Fault(fault),
            }
        }
    }

    /// One token: reductions for as long as the tables ask for them on this
    /// token, until it is shifted, the goal is reduced, the token is refused
    /// or the tables fail.
    pub open spec fn feed(self, stack: Seq<FrameView>, token: Token, fuel: nat) -> Fed
        decreases fuel,
    {
        match self.lookup(stack.last().state, token.symbol) {
            Action::Shift(state) => Fed::Shifted {
                stack: stack.push(FrameView { state, nodes: self.leaf(token.symbol) }),
                fuel,
            },
            Action::ShiftAndReduce(production) => match self.settle(
                stack,
                production,
                Some(self.leaf(token.symbol)),
                fuel,
            ) {
                Settled::Stack { stack, fuel } => Fed::Shifted { stack, fuel },
                Settled::Accepted { roots } => Fed::Accepted { roots },
                Settled::Fault(fault) => Fed::Fault(fault),
            },
            Action::Reduce(production) => match self.settle(stack, production, None, fuel) {
                Settled::Stack { stack: next, fuel: left } => {
                    proof {
                        self.lemma_settle_spends(stack, production, None, fuel);
                    }
                    self.feed(next, token, left)
                },
                Settled::Accepted { roots } => Fed::Accepted { roots },
                Settled::Fault(fault) => Fed::Fault(fault),
            },
            Action::Error => Fed::Rejected { state: stack.last().state },
            Action::Accept => Fed::Fault(Fault::Entry),
        }
    }

    /// A whole input, token by token, from `stack`.
    pub open spec fn run(self, stack: Seq<FrameView>, tokens: Seq<Token>, fuel: nat) -> Outcome
        decreases tokens.len(),
    {
        if tokens.len() == 0 {
            Outcome::Rejected { found: None, state: stack.last().state }
        } else {
            match self.feed(stack, tokens[0], fuel) {
                Fed::Shifted { stack, fuel } => self.run(stack, tokens.drop_first(), fuel),
                Fed::Accepted { roots } => Outcome::Accepted { roots },
                Fed::Rejected { state } => Outcome::Rejected { found: Some(tokens[0]), state },
                Fed::Fault(fault) => Outcome::Fault(fault),
            }
        }
    }

    /// A reduction leaves a stack that the tables hold, and what it declares
    /// due is a production that they hold and that is not empty.
    pub proof fn lemma_reduce_ok(
        self,
        stack: Seq<FrameView>,
        production: usize,
        carry: Option<Seq<Tree>>,
    )
        requires
            self.wf(),
            self.holds(stack),
        ensures
            match self.reduce(stack, production, carry) {
                Reduced::Pushed { stack: next } => self.holds(next),
                Reduced::Fused { stack: next, production: due, .. } => {
                    &&& self.holds(next)
                    &&& due < self.productions.len()
                    &&& self.arity(due) > 0
                },
                _ => true,
            },
    {
        let taken = self.taken(production, carry);
        if 0 <= taken < stack.len() {
            let rest = stack.take(stack.len() - taken);
            self.lemma_lookup_ok(rest.last().state, self.productions[production as int].lhs);
        }
    }

    /// Settling costs fuel: what is left is less than what there was.
    pub proof fn lemma_settle_spends(
        self,
        stack: Seq<FrameView>,
        production: usize,
        carry: Option<Seq<Tree>>,
        fuel: nat,
    )
        ensures
            self.settle(stack, production, carry, fuel) matches Settled::Stack { fuel: left, .. }
                ==> left < fuel,
        decreases fuel,
    {
        if fuel > 0 {
            match self.reduce(stack, production, carry) {
                Reduced::Fused { stack, production, carry } => {
                    self.lemma_settle_spends(stack, production, Some(carry), (fuel - 1) as nat);
                },
                _ => {},
            }
        }
    }
}

} // verus!
