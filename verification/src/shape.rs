//! The shape of the trees that a parse can build: every node is there because
//! a terminal or a production of the tables has a label.

use crate::grammar::{Action, Tables, Token};
use crate::model::{fragments, gather, Fed, FrameView, Outcome, Reduced, Settled};
use crate::tree::Tree;
use vstd::prelude::*;

verus! {

impl Tables {
    /// Whether a terminal of the tables has the label `emit`.
    pub open spec fn labels_terminal(self, emit: Seq<char>) -> bool {
        exists|symbol: int|
            0 <= symbol < self.symbols.len() && (#[trigger] self.symbols[symbol]).terminal
                && self.symbols[symbol].emit == Some(emit)
    }

    /// Whether a production of the tables has the label `emit`.
    pub open spec fn labels_production(self, emit: Seq<char>) -> bool {
        exists|production: int|
            0 <= production < self.productions.len() && (
            #[trigger] self.productions[production]).emit == Some(emit)
    }

    /// Whether `tree` is one that these tables can build. A node with children
    /// has at least one, bears the label of a production, and its children
    /// are such trees too; a node without children bears the label of a
    /// terminal or of a production.
    pub open spec fn builds(self, tree: Tree) -> bool
        decreases tree,
    {
        match tree.children {
            None => self.labels_terminal(tree.emit) || self.labels_production(tree.emit),
            Some(children) => {
                &&& children.len() > 0
                &&& self.labels_production(tree.emit)
                &&& forall|i: int| 0 <= i < children.len() ==> self.builds(#[trigger] children[i])
            },
        }
    }

    /// Whether each of `trees` is one that these tables can build.
    pub open spec fn builds_all(self, trees: Seq<Tree>) -> bool {
        forall|i: int| 0 <= i < trees.len() ==> self.builds(#[trigger] trees[i])
    }

    /// Whether the fragments of every frame of `stack` are trees that these
    /// tables can build.
    pub open spec fn builds_stack(self, stack: Seq<FrameView>) -> bool {
        forall|i: int| 0 <= i < stack.len() ==> self.builds_all((#[trigger] stack[i]).nodes)
    }

    /// What is gathered from frames of such trees are such trees.
    pub proof fn lemma_builds_gather(self, frames: Seq<FrameView>)
        requires
            self.builds_stack(frames),
        ensures
            self.builds_all(gather(frames)),
        decreases frames.len(),
    {
        if frames.len() > 0 {
            let rest = frames.drop_first();
            assert forall|i: int| 0 <= i < rest.len() implies self.builds_all(
                (#[trigger] rest[i]).nodes,
            ) by {
                assert(rest[i] == frames[i + 1]);
            }
            self.lemma_builds_gather(rest);
            assert(self.builds_all(frames[0].nodes));
        }
    }

    /// A shifted token leaves such trees.
    pub proof fn lemma_builds_leaf(self, symbol: usize)
        requires
            symbol < self.symbols.len(),
        ensures
            self.builds_all(self.leaf(symbol)),
    {
        let leaves = self.leaf(symbol);
        if leaves.len() > 0 {
            assert(self.symbols[symbol as int].terminal);
            assert(self.labels_terminal(leaves[0].emit));
        }
    }

    /// A reduction over such trees hands on such trees and leaves a stack of
    /// them.
    pub proof fn lemma_builds_reduce(
        self,
        stack: Seq<FrameView>,
        production: usize,
        carry: Option<Seq<Tree>>,
    )
        requires
            production < self.productions.len(),
            self.builds_stack(stack),
            carry matches Some(last) ==> self.builds_all(last),
        ensures
            match self.reduce(stack, production, carry) {
                Reduced::Pushed { stack: next } => self.builds_stack(next),
                Reduced::Fused { stack: next, carry: last, .. } => self.builds_stack(next)
                    && self.builds_all(last),
                Reduced::Accepted { roots } => self.builds_all(roots),
                Reduced::Fault(_) => true,
            },
    {
        let taken = self.taken(production, carry);
        if 0 <= taken < stack.len() {
            let top = stack.skip(stack.len() - taken);
            assert forall|i: int| 0 <= i < top.len() implies self.builds_all(
                (#[trigger] top[i]).nodes,
            ) by {
                assert(top[i] == stack[stack.len() - taken + i]);
            }
            self.lemma_builds_gather(top);
            let collected = fragments(stack, taken, carry);
            assert(self.builds_all(collected));
            let nodes = self.wrap(production, collected);
            if let Some(emit) = self.productions[production as int].emit {
                assert(self.labels_production(emit));
                assert(self.builds(nodes[0]));
            }
            assert(self.builds_all(nodes));
            let rest = stack.take(stack.len() - taken);
            assert forall|i: int| 0 <= i < rest.len() implies self.builds_all(
                (#[trigger] rest[i]).nodes,
            ) by {
                assert(rest[i] == stack[i]);
            }
            if let Reduced::Pushed { stack: next } = self.reduce(stack, production, carry) {
                assert forall|i: int| 0 <= i < next.len() implies self.builds_all(
                    (#[trigger] next[i]).nodes,
                ) by {
                    if i < rest.len() {
                        assert(next[i] == rest[i]);
                    }
                }
            }
        }
    }

    /// Settling over such trees ends with such trees.
    pub proof fn lemma_builds_settle(
        self,
        stack: Seq<FrameView>,
        production: usize,
        carry: Option<Seq<Tree>>,
        fuel: nat,
    )
        requires
            self.wf(),
            self.holds(stack),
            production < self.productions.len(),
            self.builds_stack(stack),
            carry matches Some(last) ==> self.builds_all(last),
        ensures
            match self.settle(stack, production, carry, fuel) {
                Settled::Stack { stack: next, .. } => self.holds(next) && self.builds_stack(next),
                Settled::Accepted { roots } => self.builds_all(roots),
                Settled::Fault(_) => true,
            },
        decreases fuel,
    {
        if fuel > 0 {
            self.lemma_builds_reduce(stack, production, carry);
            self.lemma_reduce_ok(stack, production, carry);
            if let Reduced::Fused { stack: next, production: due, carry: last } = self.reduce(
                stack,
                production,
                carry,
            ) {
                self.lemma_builds_settle(next, due, Some(last), (fuel - 1) as nat);
            }
        }
    }

    /// A token fed over such trees ends with such trees.
    pub proof fn lemma_builds_feed(self, stack: Seq<FrameView>, token: Token, fuel: nat)
        requires
            self.wf(),
            self.holds(stack),
            self.builds_stack(stack),
            self.valid_token(token),
        ensures
            match self.feed(stack, token, fuel) {
                Fed::Shifted { stack: next, .. } => self.holds(next) && self.builds_stack(next),
                Fed::Accepted { roots } => self.builds_all(roots),
                _ => true,
            },
        decreases fuel,
    {
        let top = stack.last().state;
        self.lemma_lookup_ok(top, token.symbol);
        self.lemma_builds_leaf(token.symbol);
        match self.lookup(top, token.symbol) {
            Action::Shift(state) => {
                let next = stack.push(FrameView { state, nodes: self.leaf(token.symbol) });
                assert forall|i: int| 0 <= i < next.len() implies self.builds_all(
                    (#[trigger] next[i]).nodes,
                ) by {
                    if i < stack.len() {
                        assert(next[i] == stack[i]);
                    }
                }
            },
            Action::ShiftAndReduce(production) => {
                self.lemma_builds_settle(stack, production, Some(self.leaf(token.symbol)), fuel);
            },
            Action::Reduce(production) => {
                self.lemma_builds_settle(stack, production, None, fuel);
                self.lemma_settle_spends(stack, production, None, fuel);
                if let Settled::Stack { stack: next, fuel: left } = self.settle(
                    stack,
                    production,
                    None,
                    fuel,
                ) {
                    self.lemma_builds_feed(next, token, left);
                }
            },
            _ => {},
        }
    }

    /// Labels alone make nodes: the roots of an accepted input, and every node
    /// under them, bear the label of a terminal or of a production of the
    /// tables, and only a production's node has children. A production
    /// without a label is therefore never a node of the tree, and no node
    /// has an empty list of children. The bare stack holds no tree at all, so
    /// this is so of every parse that begins on it.
    pub proof fn law_tree_shape(self, stack: Seq<FrameView>, tokens: Seq<Token>, fuel: nat)
        requires
            self.wf(),
            self.holds(stack),
            self.builds_stack(stack),
            forall|i: int| 0 <= i < tokens.len() ==> self.valid_token(#[trigger] tokens[i]),
        ensures
            self.run(stack, tokens, fuel) matches Outcome::Accepted { roots } ==> self.builds_all(
                roots,
            ),
        decreases tokens.len(),
    {
        if tokens.len() > 0 {
            self.lemma_builds_feed(stack, tokens[0], fuel);
            if let Fed::Shifted { stack: next, fuel: left } = self.feed(stack, tokens[0], fuel) {
                let rest = tokens.drop_first();
                assert forall|i: int| 0 <= i < rest.len() implies self.valid_token(
                    #[trigger] rest[i],
                ) by {
                    assert(rest[i] == tokens[i + 1]);
                }
                self.law_tree_shape(next, rest, left);
            }
        }
    }
}

} // verus!
