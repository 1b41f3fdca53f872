//! What holds of every reduction and of every parse, proved of the model that
//! the parser's contracts are stated in.

use crate::grammar::{find, lemma_find, Action, StateView, Tables, Token, Transition};
use crate::model::{fragments, gather, Fed, FrameView, Outcome, Reduced, Settled};
use crate::tree::Tree;
use vstd::prelude::*;

verus! {

/// Gathering is concatenation. The fragments of two runs of frames laid end
/// to end are the fragments of each, laid end to end.
pub proof fn law_gather_concat(below: Seq<FrameView>, above: Seq<FrameView>)
    ensures
        gather(below + above) == gather(below) + gather(above),
    decreases below.len(),
{
    if below.len() == 0 {
        assert(below + above =~= above);
        assert(gather(below) + gather(above) =~= gather(above));
    } else {
        law_gather_concat(below.drop_first(), above);
        assert((below + above).drop_first() =~= below.drop_first() + above);
        assert(gather(below + above) =~= gather(below) + gather(above));
    }
}

/// The fragments of a single frame are gathered as they are.
pub proof fn law_gather_one(frame: FrameView)
    ensures
        gather(seq![frame]) == frame.nodes,
{
    let rest = seq![frame].drop_first();
    assert(rest.len() == 0);
    assert(gather(rest) =~= Seq::empty());
    assert(gather(seq![frame]) =~= frame.nodes);
}

/// The number of frames that lie under a reduction's right-hand side: the
/// frames it takes are the topmost, and with the frame that a fused shift left
/// out they are as many as the production has symbols.
pub open spec fn kept(
    tables: Tables,
    stack: Seq<FrameView>,
    production: usize,
    carry: Option<Seq<Tree>>,
) -> int {
    stack.len() + (if carry is Some {
        1int
    } else {
        0int
    }) - tables.arity(production)
}

/// A reduction that does not fail takes exactly as many frames as its
/// production has symbols, the topmost ones, and leaves those under them as
/// they were.
pub proof fn law_arity(
    tables: Tables,
    stack: Seq<FrameView>,
    production: usize,
    carry: Option<Seq<Tree>>,
)
    ensures
        match tables.reduce(stack, production, carry) {
            Reduced::Pushed { stack: next } => {
                &&& 1 <= kept(tables, stack, production, carry) <= stack.len()
                &&& next.drop_last() == stack.take(kept(tables, stack, production, carry))
            },
            Reduced::Fused { stack: next, .. } => {
                &&& 1 <= kept(tables, stack, production, carry) <= stack.len()
                &&& next == stack.take(kept(tables, stack, production, carry))
            },
            Reduced::Accepted { .. } => kept(tables, stack, production, carry) == 1,
            Reduced::Fault(_) => true,
        },
{
    let rest = stack.take(kept(tables, stack, production, carry));
    match tables.reduce(stack, production, carry) {
        Reduced::Pushed { stack: next } => {
            assert(next.drop_last() =~= rest);
        },
        _ => {},
    }
}

/// Where a reduction pushes, the stack is afterwards as long as before,
/// less the frames of the right-hand side, plus one. The frame that a fused
/// shift left out counts as one that was there.
pub proof fn law_stack_balance(
    tables: Tables,
    stack: Seq<FrameView>,
    production: usize,
    carry: Option<Seq<Tree>>,
)
    ensures
        tables.reduce(stack, production, carry) matches Reduced::Pushed { stack: next } ==> {
            &&& carry is None ==> next.len() == stack.len() - tables.arity(production) + 1
            &&& carry is Some ==> next.len() == (stack.len() + 1) - tables.arity(production) + 1
        },
{
}

/// What a reduction hands on: the fragments of the frame it pushes, the carry
/// of the fused reduction it declares due, or the roots it accepts.
pub open spec fn handed_on(reduced: Reduced) -> Seq<Tree> {
    match reduced {
        Reduced::Pushed { stack } => stack.last().nodes,
        Reduced::Fused { carry, .. } => carry,
        Reduced::Accepted { roots } => roots,
        Reduced::Fault(_) => Seq::empty(),
    }
}

/// A reduction by a production with a label hands on one node
/// with that label. The node's children are the fragments of the frames taken,
/// from the lowest to the highest and each as it lay there, with those of the
/// frame that a fused shift left out last; it has none where there are
/// no such fragments.
pub proof fn law_emit_fidelity(
    tables: Tables,
    stack: Seq<FrameView>,
    production: usize,
    carry: Option<Seq<Tree>>,
)
    requires
        tables.productions[production as int].emit is Some,
        !(tables.reduce(stack, production, carry) is Fault),
    ensures
        ({
            let taken = stack.skip(kept(tables, stack, production, carry));
            let children = gather(taken) + (match carry {
                Some(last) => last,
                None => Seq::empty(),
            });
            handed_on(tables.reduce(stack, production, carry)) == seq![
                Tree {
                    emit: tables.productions[production as int].emit->0,
                    children: if children.len() == 0 {
                        None
                    } else {
                        Some(children)
                    },
                },
            ]
        }),
{
    let taken = stack.skip(kept(tables, stack, production, carry));
    assert(gather(taken) + Seq::<Tree>::empty() =~= gather(taken));
}

/// A reduction by a production without a label adds no node. It
/// hands on the fragments of the frames taken as they are, so that the
/// fragments on the stack, read from the bottom up, are after the reduction
/// what they were before it.
pub proof fn law_transparency(
    tables: Tables,
    stack: Seq<FrameView>,
    production: usize,
    carry: Option<Seq<Tree>>,
)
    requires
        tables.productions[production as int].emit is None,
        !(tables.reduce(stack, production, carry) is Fault),
    ensures
        ({
            let before = gather(stack) + (match carry {
                Some(last) => last,
                None => Seq::empty(),
            });
            let under = gather(stack.take(kept(tables, stack, production, carry)));
            &&& handed_on(tables.reduce(stack, production, carry)) == fragments(
                stack,
                tables.taken(production, carry),
                carry,
            )
            &&& under + handed_on(tables.reduce(stack, production, carry)) == before
            &&& tables.reduce(stack, production, carry) matches Reduced::Pushed { stack: next }
                ==> gather(next) == before
        }),
{
    let at = kept(tables, stack, production, carry);
    let rest = stack.take(at);
    let top = stack.skip(at);
    let last = match carry {
        Some(last) => last,
        None => Seq::empty(),
    };
    let handed = handed_on(tables.reduce(stack, production, carry));
    assert(stack =~= rest + top);
    law_gather_concat(rest, top);
    assert(gather(top) + Seq::<Tree>::empty() =~= gather(top));
    assert(gather(rest) + handed =~= gather(stack) + last);
    if let Reduced::Pushed { stack: next } = tables.reduce(stack, production, carry) {
        let frame = next.last();
        assert(next =~= rest + seq![frame]);
        law_gather_concat(rest, seq![frame]);
        law_gather_one(frame);
    }
}

/// A parse that has ended reads no further: where an input ends with a tree,
/// with the refusal of a token or with a fault, it ends the same whatever
/// follows it. Only an input that ran out can end otherwise when it goes on.
pub proof fn law_decided_input(
    tables: Tables,
    stack: Seq<FrameView>,
    tokens: Seq<Token>,
    more: Seq<Token>,
    fuel: nat,
)
    requires
        !(tables.run(stack, tokens, fuel) matches Outcome::Rejected { found: None, .. }),
    ensures
        tables.run(stack, tokens + more, fuel) == tables.run(stack, tokens, fuel),
    decreases tokens.len(),
{
    let longer = tokens + more;
    assert(tokens.len() > 0);
    assert(longer[0] == tokens[0]);
    assert(longer.drop_first() =~= tokens.drop_first() + more);
    if let Fed::Shifted { stack: next, fuel: left } = tables.feed(stack, tokens[0], fuel) {
        law_decided_input(tables, next, tokens.drop_first(), more, left);
    }
}

/// Whether two sets of tables hold the same symbols, productions and goal and
/// answer every lookup alike.
pub open spec fn alike(left: Tables, right: Tables) -> bool {
    &&& left.symbols == right.symbols
    &&& left.productions == right.productions
    &&& left.goal == right.goal
    &&& forall|state: usize, symbol: usize| #[trigger]
        left.lookup(state, symbol) == right.lookup(state, symbol)
}

/// Tables that are alike settle every reduction alike.
pub proof fn law_alike_settle(
    left: Tables,
    right: Tables,
    stack: Seq<FrameView>,
    production: usize,
    carry: Option<Seq<Tree>>,
    fuel: nat,
)
    requires
        alike(left, right),
    ensures
        left.reduce(stack, production, carry) == right.reduce(stack, production, carry),
        left.settle(stack, production, carry, fuel) == right.settle(
            stack,
            production,
            carry,
            fuel,
        ),
    decreases fuel,
{
    let taken = left.taken(production, carry);
    if 0 <= taken < stack.len() {
        let rest = stack.take(stack.len() - taken);
        let lhs = left.productions[production as int].lhs;
        assert(left.lookup(rest.last().state, lhs) == right.lookup(rest.last().state, lhs));
    }
    if fuel > 0 {
        if let Reduced::Fused { stack: rest, production: due, carry: last } = left.reduce(
            stack,
            production,
            carry,
        ) {
            law_alike_settle(left, right, rest, due, Some(last), (fuel - 1) as nat);
        }
    }
}

/// Tables that are alike make the same of every token.
pub proof fn law_alike_feed(
    left: Tables,
    right: Tables,
    stack: Seq<FrameView>,
    token: Token,
    fuel: nat,
)
    requires
        alike(left, right),
    ensures
        left.feed(stack, token, fuel) == right.feed(stack, token, fuel),
    decreases fuel,
{
    assert(left.lookup(stack.last().state, token.symbol) == right.lookup(
        stack.last().state,
        token.symbol,
    ));
    match left.lookup(stack.last().state, token.symbol) {
        Action::ShiftAndReduce(production) => {
            law_alike_settle(left, right, stack, production, Some(left.leaf(token.symbol)), fuel);
        },
        Action::Reduce(production) => {
            law_alike_settle(left, right, stack, production, None, fuel);
            left.lemma_settle_spends(stack, production, None, fuel);
            if let Settled::Stack { stack: next, fuel: rest } = left.settle(
                stack,
                production,
                None,
                fuel,
            ) {
                law_alike_feed(left, right, next, token, rest);
            }
        },
        _ => {},
    }
}

/// Tables that are alike make the same of every input.
pub proof fn law_alike_run(
    left: Tables,
    right: Tables,
    stack: Seq<FrameView>,
    tokens: Seq<Token>,
    fuel: nat,
)
    requires
        alike(left, right),
    ensures
        left.run(stack, tokens, fuel) == right.run(stack, tokens, fuel),
    decreases tokens.len(),
{
    if tokens.len() > 0 {
        law_alike_feed(left, right, stack, tokens[0], fuel);
        if let Fed::Shifted { stack: next, fuel: rest } = left.feed(stack, tokens[0], fuel) {
            law_alike_run(left, right, next, tokens.drop_first(), rest);
        }
    }
}

/// `tables` with the entries of `state` replaced by `transitions`.
pub open spec fn with_transitions(tables: Tables, state: int, transitions: Seq<Transition>) -> Tables {
    Tables {
        symbols: tables.symbols,
        productions: tables.productions,
        states: tables.states.update(
            state,
            StateView { transitions, default_reduce: tables.states[state].default_reduce },
        ),
        goal: tables.goal,
    }
}

/// Where a state reduces by `production` for want of an
/// entry for `symbol`, writing that reduction down as an entry for `symbol`
/// changes the result of no parse. Every input, from every stack and with
/// every budget, ends the same and with the same tree.
pub proof fn law_default_reduce(
    tables: Tables,
    state: usize,
    symbol: usize,
    production: usize,
    stack: Seq<FrameView>,
    tokens: Seq<Token>,
    fuel: nat,
)
    requires
        state < tables.states.len(),
        tables.states[state as int].default_reduce == Some(production),
        forall|i: int|
            0 <= i < tables.states[state as int].transitions.len() ==> (
            #[trigger] tables.states[state as int].transitions[i]).symbol != symbol,
    ensures
        with_transitions(
            tables,
            state as int,
            tables.states[state as int].transitions.push(
                Transition { symbol, action: Action::Reduce(production) },
            ),
        ).run(stack, tokens, fuel) == tables.run(stack, tokens, fuel),
{
    let entries = tables.states[state as int].transitions;
    let entry = Transition { symbol, action: Action::Reduce(production) };
    let explicit = with_transitions(tables, state as int, entries.push(entry));
    assert forall|at: usize, on: usize| #[trigger]
        explicit.lookup(at, on) == tables.lookup(at, on) by {
        if at == state {
            lemma_find_push(entries, entry, on);
            lemma_find(entries, symbol);
        }
    }
    law_alike_run(explicit, tables, stack, tokens, fuel);
}

/// An entry added behind the others counts only where none of them is for the
/// symbol asked for.
pub proof fn lemma_find_push(entries: Seq<Transition>, entry: Transition, symbol: usize)
    ensures
        find(entries.push(entry), symbol) == match find(entries, symbol) {
            Some(action) => Some(action),
            None => if entry.symbol == symbol {
                Some(entry.action)
            } else {
                None
            },
        },
    decreases entries.len(),
{
    let longer = entries.push(entry);
    if entries.len() == 0 {
        assert(longer.drop_first().len() == 0);
        assert(find(longer.drop_first(), symbol) is None);
    } else {
        assert(longer.drop_first() =~= entries.drop_first().push(entry));
        lemma_find_push(entries.drop_first(), entry, symbol);
    }
}

} // verus!
