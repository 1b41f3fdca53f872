//! The fused shift-and-reduce action against the two actions it stands for: a
//! shift into a state of its own, and the reduction that this state always
//! asks for.

use crate::grammar::{find, first_at, lemma_find, Action, StateView, Tables, Token, Transition};
use crate::laws::{law_gather_concat, law_gather_one};
use crate::model::{fragments, Fed, FrameView, Outcome, Reduced, Settled};
use crate::tree::Tree;
use vstd::prelude::*;

verus! {

/// A reduction finds the same whether the topmost frame of its right-hand
/// side lies on the stack or is carried beside it: a fused shift and
/// reduction does what the shift and then the reduction would have done.
pub proof fn law_carry_is_frame(
    tables: Tables,
    stack: Seq<FrameView>,
    state: usize,
    nodes: Seq<Tree>,
    production: usize,
    fuel: nat,
)
    requires
        tables.arity(production) > 0,
    ensures
        tables.reduce(stack.push(FrameView { state, nodes }), production, None) == tables.reduce(
            stack,
            production,
            Some(nodes),
        ),
        tables.settle(stack.push(FrameView { state, nodes }), production, None, fuel)
            == tables.settle(stack, production, Some(nodes), fuel),
{
    let frame = FrameView { state, nodes };
    let pushed = stack.push(frame);
    let taken = tables.arity(production) - 1;
    if taken < stack.len() {
        let at = stack.len() - taken;
        assert(pushed.take(at) =~= stack.take(at));
        assert(pushed.skip(at) =~= stack.skip(at) + seq![frame]);
        law_gather_concat(stack.skip(at), seq![frame]);
        law_gather_one(frame);
    }
}

/// Replacing an entry by one for the same symbol changes what is found for
/// that symbol where the entry is the first for it, and nothing else.
pub proof fn lemma_find_update(
    entries: Seq<Transition>,
    index: int,
    action: Action,
    symbol: usize,
)
    requires
        0 <= index < entries.len(),
    ensures
        find(
            entries.update(index, Transition { symbol: entries[index].symbol, action }),
            symbol,
        ) == if first_at(entries, symbol, index) {
            Some(action)
        } else {
            find(entries, symbol)
        },
{
    let changed = entries.update(index, Transition { symbol: entries[index].symbol, action });
    lemma_find(entries, symbol);
    lemma_find(changed, symbol);
    assert forall|i: int| first_at(changed, symbol, i) == first_at(entries, symbol, i) by {
        if 0 <= i < entries.len() {
            assert(changed[i].symbol == entries[i].symbol);
            if first_at(entries, symbol, i) {
                assert forall|j: int| 0 <= j < i implies (#[trigger] changed[j]).symbol
                    != symbol by {
                    assert(changed[j].symbol == entries[j].symbol);
                }
            }
            if first_at(changed, symbol, i) {
                assert forall|j: int| 0 <= j < i implies (#[trigger] entries[j]).symbol
                    != symbol by {
                    assert(changed[j].symbol == entries[j].symbol);
                }
            }
        }
    }
    if let Some(found) = find(changed, symbol) {
        let i = choose|i: int| first_at(changed, symbol, i) && changed[i].action == found;
        assert(first_at(entries, symbol, i));
        if first_at(entries, symbol, index) {
            assert(i == index) by {
                if i < index {
                    assert(entries[i].symbol != symbol);
                }
                if index < i {
                    assert(entries[index].symbol != symbol);
                }
            }
        }
    } else {
        assert forall|i: int| 0 <= i < entries.len() implies (#[trigger] entries[i]).symbol
            != symbol by {
            assert(changed[i].symbol == entries[i].symbol);
        }
    }
}

/// Whether the entry at `index` of `state` is a fused shift and reduction by
/// `production` that a lookup can reach, in well-formed tables with room for
/// one more state.
pub open spec fn fusible(tables: Tables, state: usize, index: int, production: usize) -> bool {
    &&& tables.wf()
    &&& tables.states.len() < usize::MAX
    &&& state < tables.states.len()
    &&& 0 <= index < tables.states[state as int].transitions.len()
    &&& first_at(
        tables.states[state as int].transitions,
        tables.states[state as int].transitions[index].symbol,
        index,
    )
    &&& tables.states[state as int].transitions[index].action == Action::ShiftAndReduce(production)
}

/// The state that `unfused` adds: the one behind the last.
pub open spec fn between(tables: Tables) -> usize {
    tables.states.len() as usize
}

/// `tables` with the fused entry at `index` of `state` taken apart: the entry
/// shifts into a new state, and that state has no entry and reduces by
/// `production` whatever comes.
pub open spec fn unfused(tables: Tables, state: usize, index: int, production: usize) -> Tables {
    let entries = tables.states[state as int].transitions;
    let shift = Transition { symbol: entries[index].symbol, action: Action::Shift(between(tables)) };
    Tables {
        symbols: tables.symbols,
        productions: tables.productions,
        states: tables.states.update(
            state as int,
            StateView {
                transitions: entries.update(index, shift),
                default_reduce: tables.states[state as int].default_reduce,
            },
        ).push(StateView { transitions: Seq::empty(), default_reduce: Some(production) }),
        goal: tables.goal,
    }
}

/// What the lookups of the tables taken apart give: a shift into the new
/// state in place of the fused entry, the reduction in the new state, and
/// everywhere else what the fused tables give.
pub proof fn lemma_unfused_lookup(
    tables: Tables,
    state: usize,
    index: int,
    production: usize,
    at: usize,
    on: usize,
)
    requires
        fusible(tables, state, index, production),
    ensures
        ({
            let apart = unfused(tables, state, index, production);
            let symbol = tables.states[state as int].transitions[index].symbol;
            &&& tables.lookup(state, symbol) == Action::ShiftAndReduce(production)
            &&& apart.lookup(state, symbol) == Action::Shift(between(tables))
            &&& apart.lookup(between(tables), on) == Action::Reduce(production)
            &&& at < tables.states.len() && !(at == state && on == symbol) ==> apart.lookup(at, on)
                == tables.lookup(at, on)
        }),
{
    let apart = unfused(tables, state, index, production);
    let entries = tables.states[state as int].transitions;
    let symbol = entries[index].symbol;
    lemma_find(entries, symbol);
    lemma_find_update(entries, index, Action::Shift(between(tables)), symbol);
    lemma_find_update(entries, index, Action::Shift(between(tables)), on);
    assert(apart.states[between(tables) as int].transitions.len() == 0);
    if on != symbol {
        assert(!first_at(entries, on, index));
    }
}

/// Whether the tables taken apart can stand on `stack`: either the fused
/// tables hold it, or they hold all of it but a topmost frame in the new state.
pub open spec fn stands(tables: Tables, stack: Seq<FrameView>) -> bool {
    ||| tables.holds(stack)
    ||| {
        &&& stack.len() >= 2
        &&& stack.last().state == between(tables)
        &&& tables.holds(stack.drop_last())
    }
}

/// A settled reduction as the result of a token.
pub open spec fn taken_in(settled: Settled) -> Fed {
    match settled {
        Settled::Stack { stack, fuel } => Fed::Shifted { stack, fuel },
        Settled::Accepted { roots } => Fed::Accepted { roots },
        Settled::Fault(fault) => Fed::Fault(fault),
    }
}

/// Where the fused tables stand when the tables taken apart stand on
/// `stack`: on `stack` too, unless its topmost frame is in the new state. Then
/// the fused tables have already made the reduction that the new state is
/// about to ask for.
pub open spec fn caught_up(tables: Tables, production: usize, stack: Seq<FrameView>, fuel: nat) -> Fed {
    if stack.last().state == between(tables) {
        taken_in(tables.settle(stack.drop_last(), production, Some(stack.last().nodes), fuel))
    } else {
        Fed::Shifted { stack, fuel }
    }
}

/// `caught_up`, of what a reduction settled into.
pub open spec fn settled_up(tables: Tables, production: usize, settled: Settled) -> Fed {
    match settled {
        Settled::Stack { stack, fuel } => caught_up(tables, production, stack, fuel),
        _ => taken_in(settled),
    }
}

/// `caught_up`, of what a token led to.
pub open spec fn fed_up(tables: Tables, production: usize, fed: Fed) -> Fed {
    match fed {
        Fed::Shifted { stack, fuel } => caught_up(tables, production, stack, fuel),
        _ => fed,
    }
}

/// What `token` leads to from where `fed` left off.
pub open spec fn then_feed(tables: Tables, fed: Fed, token: Token) -> Fed {
    match fed {
        Fed::Shifted { stack, fuel } => tables.feed(stack, token, fuel),
        _ => fed,
    }
}

/// What `tokens` lead to from where `fed` left off.
pub open spec fn then_run(tables: Tables, fed: Fed, tokens: Seq<Token>) -> Outcome {
    match fed {
        Fed::Shifted { stack, fuel } => tables.run(stack, tokens, fuel),
        Fed::Accepted { roots } => Outcome::Accepted { roots },
        Fed::Rejected { state } => Outcome::Rejected { found: None, state },
        Fed::Fault(fault) => Outcome::Fault(fault),
    }
}

/// On a stack that the fused tables hold, a reduction settles under the
/// tables taken apart as under the fused ones, once the fused ones are caught
/// up with.
pub proof fn lemma_settle_apart(
    tables: Tables,
    state: usize,
    index: int,
    production: usize,
    stack: Seq<FrameView>,
    due: usize,
    carry: Option<Seq<Tree>>,
    fuel: nat,
)
    requires
        fusible(tables, state, index, production),
        tables.holds(stack),
    ensures
        ({
            let apart = unfused(tables, state, index, production);
            &&& settled_up(tables, production, apart.settle(stack, due, carry, fuel)) == taken_in(
                tables.settle(stack, due, carry, fuel),
            )
            &&& apart.settle(stack, due, carry, fuel) matches Settled::Stack { stack: next, .. }
                ==> stands(tables, next)
        }),
    decreases fuel,
{
    let apart = unfused(tables, state, index, production);
    let symbol = tables.states[state as int].transitions[index].symbol;
    if fuel > 0 {
        let taken = tables.taken(due, carry);
        tables.lemma_reduce_ok(stack, due, carry);
        if 0 <= taken < stack.len() {
            let rest = stack.take(stack.len() - taken);
            let lhs = tables.productions[due as int].lhs;
            let below = rest.last().state;
            assert(below < tables.states.len());
            lemma_unfused_lookup(tables, state, index, production, below, lhs);
            if rest.len() == 1 && lhs == tables.goal {
            } else if below == state && lhs == symbol {
                let nodes = tables.wrap(due, fragments(stack, taken, carry));
                let next = rest.push(FrameView { state: between(tables), nodes });
                assert(next.drop_last() =~= rest);
                assert(apart.settle(stack, due, carry, fuel) == Settled::Stack {
                    stack: next,
                    fuel: (fuel - 1) as nat,
                });
                assert(tables.reduce(stack, due, carry) == Reduced::Fused {
                    stack: rest,
                    production,
                    carry: nodes,
                });
                assert(tables.holds(rest));
            } else {
                assert(apart.reduce(stack, due, carry) == tables.reduce(stack, due, carry));
                match tables.reduce(stack, due, carry) {
                    Reduced::Fused { stack: rest, production: next, carry: last } => {
                        lemma_settle_apart(
                            tables,
                            state,
                            index,
                            production,
                            rest,
                            next,
                            Some(last),
                            (fuel - 1) as nat,
                        );
                    },
                    _ => {},
                }
            }
        }
    }
}

/// From wherever the tables taken apart can stand, a token leads them where
/// it leads the fused ones, once the fused ones are caught up with.
pub proof fn lemma_feed_apart(
    tables: Tables,
    state: usize,
    index: int,
    production: usize,
    stack: Seq<FrameView>,
    token: Token,
    fuel: nat,
)
    requires
        fusible(tables, state, index, production),
        stands(tables, stack),
    ensures
        ({
            let apart = unfused(tables, state, index, production);
            &&& fed_up(tables, production, apart.feed(stack, token, fuel)) == then_feed(
                tables,
                caught_up(tables, production, stack, fuel),
                token,
            )
            &&& apart.feed(stack, token, fuel) matches Fed::Shifted { stack: next, .. } ==> stands(
                tables,
                next,
            )
        }),
    decreases fuel,
{
    let apart = unfused(tables, state, index, production);
    let symbol = tables.states[state as int].transitions[index].symbol;
    let top = stack.last().state;
    lemma_unfused_lookup(tables, state, index, production, top, token.symbol);
    if top == between(tables) {
        let base = stack.drop_last();
        let nodes = stack.last().nodes;
        assert(stack =~= base.push(FrameView { state: top, nodes }));
        assert(tables.action_ok(Action::ShiftAndReduce(production))) by {
            tables.lemma_lookup_ok(state, symbol);
        }
        law_carry_is_frame(apart, base, top, nodes, production, fuel);
        lemma_settle_apart(tables, state, index, production, base, production, Some(nodes), fuel);
        apart.lemma_settle_spends(stack, production, None, fuel);
        if let Settled::Stack { stack: next, fuel: left } = apart.settle(
            stack,
            production,
            None,
            fuel,
        ) {
            lemma_feed_apart(tables, state, index, production, next, token, left);
        }
    } else {
        assert(top < tables.states.len());
        tables.lemma_lookup_ok(top, token.symbol);
        if top == state && token.symbol == symbol {
            let frame = FrameView { state: between(tables), nodes: apart.leaf(token.symbol) };
            assert(stack.push(frame).drop_last() =~= stack);
        } else {
            match tables.lookup(top, token.symbol) {
                Action::Shift(target) => {
                    let frame = FrameView { state: target, nodes: tables.leaf(token.symbol) };
                    assert(tables.holds(stack.push(frame)));
                },
                Action::ShiftAndReduce(due) => {
                    lemma_settle_apart(
                        tables,
                        state,
                        index,
                        production,
                        stack,
                        due,
                        Some(tables.leaf(token.symbol)),
                        fuel,
                    );
                },
                Action::Reduce(due) => {
                    lemma_settle_apart(tables, state, index, production, stack, due, None, fuel);
                    apart.lemma_settle_spends(stack, due, None, fuel);
                    if let Settled::Stack { stack: next, fuel: left } = apart.settle(
                        stack,
                        due,
                        None,
                        fuel,
                    ) {
                        lemma_feed_apart(tables, state, index, production, next, token, left);
                    }
                },
                _ => {},
            }
        }
    }
}

/// From wherever the tables taken apart can stand, an input ends for them as
/// it ends for the fused ones, once the fused ones are caught up with; or it
/// ends while they wait in the new state for a token to reduce on.
pub proof fn lemma_run_apart(
    tables: Tables,
    state: usize,
    index: int,
    production: usize,
    stack: Seq<FrameView>,
    tokens: Seq<Token>,
    fuel: nat,
)
    requires
        fusible(tables, state, index, production),
        stands(tables, stack),
    ensures
        ({
            let apart = unfused(tables, state, index, production);
            ||| apart.run(stack, tokens, fuel) == then_run(
                tables,
                caught_up(tables, production, stack, fuel),
                tokens,
            )
            ||| {
                &&& apart.run(stack, tokens, fuel) == (Outcome::Rejected {
                    found: None,
                    state: between(tables),
                })
                &&& !(then_run(tables, caught_up(tables, production, stack, fuel), tokens) matches Outcome::Rejected {
                    found: Some(_),
                    ..
                })
            }
        }),
    decreases tokens.len(),
{
    let apart = unfused(tables, state, index, production);
    if tokens.len() > 0 {
        lemma_feed_apart(tables, state, index, production, stack, tokens[0], fuel);
        if let Fed::Shifted { stack: next, fuel: left } = apart.feed(stack, tokens[0], fuel) {
            lemma_run_apart(tables, state, index, production, next, tokens.drop_first(), left);
        }
    }
}

/// Taking a fused entry apart, into a shift to a
/// state of its own whose one action is the reduction, changes the tree of no
/// parse. From every stack that the tables hold, every input with every
/// budget ends for the tables taken apart as it ends for the fused ones, with
/// the same roots, the same refusal or the same fault. The one exception is
/// an input that ends just behind the shift: the new state reduces on the
/// token that follows, so without one the tables taken apart report the end of
/// the input in that state, where the fused ones had already reduced. The
/// fused ones then refuse no token of that input.
pub proof fn law_fused_shift(
    tables: Tables,
    state: usize,
    index: int,
    production: usize,
    stack: Seq<FrameView>,
    tokens: Seq<Token>,
    fuel: nat,
)
    requires
        fusible(tables, state, index, production),
        tables.holds(stack),
    ensures
        ({
            let apart = unfused(tables, state, index, production);
            ||| apart.run(stack, tokens, fuel) == tables.run(stack, tokens, fuel)
            ||| {
                &&& apart.run(stack, tokens, fuel) == (Outcome::Rejected {
                    found: None,
                    state: between(tables),
                })
                &&& !(tables.run(stack, tokens, fuel) matches Outcome::Rejected {
                    found: Some(_),
                    ..
                })
            }
        }),
{
    lemma_run_apart(tables, state, index, production, stack, tokens, fuel);
}

/// Where the fused tables have already ended the parse, the tables taken
/// apart end it the same way on whatever token comes.
pub proof fn lemma_feed_behind(
    tables: Tables,
    state: usize,
    index: int,
    production: usize,
    stack: Seq<FrameView>,
    token: Token,
    fuel: nat,
)
    requires
        fusible(tables, state, index, production),
        stands(tables, stack),
        !(caught_up(tables, production, stack, fuel) is Shifted),
    ensures
        unfused(tables, state, index, production).feed(stack, token, fuel) == caught_up(
            tables,
            production,
            stack,
            fuel,
        ),
    decreases fuel,
{
    let apart = unfused(tables, state, index, production);
    let symbol = tables.states[state as int].transitions[index].symbol;
    let top = stack.last().state;
    let base = stack.drop_last();
    let nodes = stack.last().nodes;
    lemma_unfused_lookup(tables, state, index, production, top, token.symbol);
    assert(stack =~= base.push(FrameView { state: top, nodes }));
    assert(tables.action_ok(Action::ShiftAndReduce(production))) by {
        tables.lemma_lookup_ok(state, symbol);
    }
    law_carry_is_frame(apart, base, top, nodes, production, fuel);
    lemma_settle_apart(tables, state, index, production, base, production, Some(nodes), fuel);
    apart.lemma_settle_spends(stack, production, None, fuel);
    if let Settled::Stack { stack: next, fuel: left } = apart.settle(
        stack,
        production,
        None,
        fuel,
    ) {
        lemma_feed_behind(tables, state, index, production, next, token, left);
    }
}

/// Where the fused tables end the parse on `tokens` with a tree or a fault,
/// the tables taken apart end it the same way once one more token follows.
pub proof fn lemma_run_behind(
    tables: Tables,
    state: usize,
    index: int,
    production: usize,
    stack: Seq<FrameView>,
    tokens: Seq<Token>,
    token: Token,
    fuel: nat,
)
    requires
        fusible(tables, state, index, production),
        stands(tables, stack),
        !(then_run(tables, caught_up(tables, production, stack, fuel), tokens) is Rejected),
    ensures
        unfused(tables, state, index, production).run(stack, tokens.push(token), fuel) == then_run(
            tables,
            caught_up(tables, production, stack, fuel),
            tokens,
        ),
    decreases tokens.len(),
{
    let apart = unfused(tables, state, index, production);
    let longer = tokens.push(token);
    if !(caught_up(tables, production, stack, fuel) is Shifted) {
        lemma_feed_behind(tables, state, index, production, stack, longer[0], fuel);
    } else {
        assert(tokens.len() > 0);
        assert(longer[0] == tokens[0]);
        assert(longer.drop_first() =~= tokens.drop_first().push(token));
        lemma_feed_apart(tables, state, index, production, stack, tokens[0], fuel);
        if let Fed::Shifted { stack: next, fuel: left } = apart.feed(stack, tokens[0], fuel) {
            lemma_run_behind(
                tables,
                state,
                index,
                production,
                next,
                tokens.drop_first(),
                token,
                left,
            );
        }
    }
}

/// The other way round, where the fused tables
/// end a parse with a tree or with a fault, the tables taken apart end it
/// with the same tree or fault as soon as the input goes on by one token,
/// whichever it is.
pub proof fn law_fused_shift_lags_one(
    tables: Tables,
    state: usize,
    index: int,
    production: usize,
    stack: Seq<FrameView>,
    tokens: Seq<Token>,
    token: Token,
    fuel: nat,
)
    requires
        fusible(tables, state, index, production),
        tables.holds(stack),
        !(tables.run(stack, tokens, fuel) is Rejected),
    ensures
        unfused(tables, state, index, production).run(stack, tokens.push(token), fuel)
            == tables.run(stack, tokens, fuel),
{
    lemma_run_behind(tables, state, index, production, stack, tokens, token, fuel);
}

} // verus!
