//! The tables that drive the engine: symbols, productions and the states of
//! the automaton, with their mathematical model and what makes them usable.

use vstd::prelude::*;

verus! {

/// What the automaton does in a state on a symbol.
#[derive(Debug, Clone, Copy, PartialEq, Eq, Structural)]
pub enum Action {
    /// The goal was reduced on the bare stack. Only a reduction brings this
    /// about: as an entry of a table it is a fault.
    Accept,
    /// The symbol cannot follow here.
    Error,
    /// Push a frame in the given state.
    Shift(usize),
    /// Reduce by the given production.
    Reduce(usize),
    /// Push and at once reduce by the given production, without a state in
    /// between.
    ShiftAndReduce(usize),
}

/// A terminal or nonterminal of the grammar. Its place in the symbol table is
/// its id.
#[derive(Debug, Clone, Copy)]
pub struct Symbol {
    /// For diagnostics only.
    pub name: &'static str,
    /// Where present on a terminal, shifting it leaves a leaf with this label.
    pub emit: Option<&'static str>,
    /// Read from the token stream, rather than derived.
    pub terminal: bool,
    /// Dropped by the lexer; never reaches the engine.
    pub whitespace: bool,
    /// The token's text is worth keeping.
    pub lexem: bool,
}

/// A rule of the grammar.
#[derive(Debug)]
pub struct Production {
    /// The symbol that the rule derives.
    pub lhs: usize,
    /// Where present, a reduction wraps what it collected in a node with this
    /// label; where absent, it passes it on as it is.
    pub emit: Option<&'static str>,
    /// The symbols of the right-hand side. Their number is the arity.
    pub rhs: Vec<usize>,
}

/// One entry of a state's action table.
#[derive(Debug, Clone, Copy, PartialEq, Eq, Structural)]
pub struct Transition {
    pub symbol: usize,
    pub action: Action,
}

/// A state of the automaton.
#[derive(Debug)]
pub struct State {
    /// The explicit entries. Of two with one symbol the earlier counts.
    pub transitions: Vec<Transition>,
    /// The production to reduce by on a symbol without an entry.
    pub default_reduce: Option<usize>,
}

/// A classified piece of input: its symbol and the span it covers.
#[derive(Debug, Clone, Copy, PartialEq, Eq, Structural)]
pub struct Token {
    pub symbol: usize,
    pub start: usize,
    pub end: usize,
}

/// The whole of the tables. State 0 is the initial state.
#[derive(Debug)]
pub struct Grammar {
    pub symbols: Vec<Symbol>,
    pub productions: Vec<Production>,
    pub states: Vec<State>,
    /// The symbol whose reduction on the bare stack ends the parse.
    pub goal: usize,
}

/// The model of an optional label.
pub open spec fn label_of(emit: Option<&'static str>) -> Option<Seq<char>> {
    match emit {
        Some(s) => Some(s@),
        None => None,
    }
}

/// The model of a [`Symbol`].
pub struct SymbolView {
    pub name: Seq<char>,
    pub emit: Option<Seq<char>>,
    pub terminal: bool,
    pub whitespace: bool,
    pub lexem: bool,
}

/// The model of a [`Production`].
pub struct ProductionView {
    pub lhs: usize,
    pub emit: Option<Seq<char>>,
    pub rhs: Seq<usize>,
}

/// The model of a [`State`].
pub struct StateView {
    pub transitions: Seq<Transition>,
    pub default_reduce: Option<usize>,
}

/// The model of a [`Grammar`].
pub struct Tables {
    pub symbols: Seq<SymbolView>,
    pub productions: Seq<ProductionView>,
    pub states: Seq<StateView>,
    pub goal: usize,
}

impl View for Symbol {
    type V = SymbolView;

    open spec fn view(&self) -> SymbolView {
        SymbolView {
            name: self.name@,
            emit: label_of(self.emit),
            terminal: self.terminal,
            whitespace: self.whitespace,
            lexem: self.lexem,
        }
    }
}

impl View for Production {
    type V = ProductionView;

    open spec fn view(&self) -> ProductionView {
        ProductionView { lhs: self.lhs, emit: label_of(self.emit), rhs: self.rhs@ }
    }
}

impl View for State {
    type V = StateView;

    open spec fn view(&self) -> StateView {
        StateView { transitions: self.transitions@, default_reduce: self.default_reduce }
    }
}

impl View for Grammar {
    type V = Tables;

    open spec fn view(&self) -> Tables {
        Tables {
            symbols: Seq::new(self.symbols@.len(), |i: int| self.symbols@[i]@),
            productions: Seq::new(self.productions@.len(), |i: int| self.productions@[i]@),
            states: Seq::new(self.states@.len(), |i: int| self.states@[i]@),
            goal: self.goal,
        }
    }
}

/// The action of the first entry for `symbol`, if there is one.
pub open spec fn find(entries: Seq<Transition>, symbol: usize) -> Option<Action>
    decreases entries.len(),
{
    if entries.len() == 0 {
        None
    } else if entries[0].symbol == symbol {
        Some(entries[0].action)
    } else {
        find(entries.drop_first(), symbol)
    }
}

/// Whether the entry at `index` is the first one for `symbol`.
pub open spec fn first_at(entries: Seq<Transition>, symbol: usize, index: int) -> bool {
    &&& 0 <= index < entries.len()
    &&& entries[index].symbol == symbol
    &&& forall|j: int| 0 <= j < index ==> (#[trigger] entries[j]).symbol != symbol
}

/// `find` gives the action of the first entry for `symbol`, and `None` exactly
/// where no entry is for it.
pub proof fn lemma_find(entries: Seq<Transition>, symbol: usize)
    ensures
        find(entries, symbol) is None <==> forall|i: int|
            0 <= i < entries.len() ==> (#[trigger] entries[i]).symbol != symbol,
        find(entries, symbol) matches Some(action) ==> exists|i: int|
            first_at(entries, symbol, i) && entries[i].action == action,
        forall|i: int| #[trigger]
            first_at(entries, symbol, i) ==> find(entries, symbol) == Some(entries[i].action),
    decreases entries.len(),
{
    if entries.len() > 0 {
        let rest = entries.drop_first();
        lemma_find(rest, symbol);
        if entries[0].symbol == symbol {
            assert(first_at(entries, symbol, 0));
        } else {
            assert forall|i: int| #[trigger] first_at(entries, symbol, i) implies find(
                entries,
                symbol,
            ) == Some(entries[i].action) by {
                assert(first_at(rest, symbol, i - 1)) by {
                    assert(rest[i - 1] == entries[i]);
                    assert forall|j: int| 0 <= j < i - 1 implies (#[trigger] rest[j]).symbol
                        != symbol by {
                        assert(rest[j] == entries[j + 1]);
                    }
                }
            }
            if find(rest, symbol) is None {
                assert forall|i: int| 0 <= i < entries.len() implies (#[trigger] entries[i]).symbol
                    != symbol by {
                    if i > 0 {
                        assert(rest[i - 1] == entries[i]);
                    }
                }
            } else {
                let i = choose|i: int|
                    first_at(rest, symbol, i) && rest[i].action == find(rest, symbol)->0;
                assert(first_at(entries, symbol, i + 1)) by {
                    assert(entries[i + 1] == rest[i]);
                    assert forall|j: int| 0 <= j < i + 1 implies (#[trigger] entries[j]).symbol
                        != symbol by {
                        if j > 0 {
                            assert(entries[j] == rest[j - 1]);
                        }
                    }
                }
            }
        }
    }
}

impl Tables {
    /// What the automaton does in `state` on `symbol`: the explicit entry where
    /// there is one, else a reduction by the state's default production where
    /// it has one, else an error. A state that the tables do not hold has no
    /// entries and no default.
    pub open spec fn lookup(self, state: usize, symbol: usize) -> Action {
        if state < self.states.len() {
            match find(self.states[state as int].transitions, symbol) {
                Some(action) => action,
                None => match self.states[state as int].default_reduce {
                    Some(production) => Action::Reduce(production),
                    None => Action::Error,
                },
            }
        } else {
            Action::Error
        }
    }

    /// The number of frames that a reduction by `production` takes.
    pub open spec fn arity(self, production: usize) -> nat {
        self.productions[production as int].rhs.len()
    }

    /// An action that names only what the tables hold. A fused shift and
    /// reduction takes the shifted symbol itself, so its production is not
    /// empty.
    pub open spec fn action_ok(self, action: Action) -> bool {
        match action {
            Action::Accept => true,
            Action::Error => true,
            Action::Shift(target) => target < self.states.len(),
            Action::Reduce(production) => production < self.productions.len(),
            Action::ShiftAndReduce(production) => production < self.productions.len()
                && self.arity(production) > 0,
        }
    }

    /// A production whose symbols the tables hold.
    pub open spec fn production_ok(self, production: ProductionView) -> bool {
        &&& production.lhs < self.symbols.len()
        &&& forall|j: int|
            0 <= j < production.rhs.len() ==> #[trigger] production.rhs[j] < self.symbols.len()
    }

    /// A state whose entries and default name only what the tables hold.
    pub open spec fn state_ok(self, state: StateView) -> bool {
        &&& forall|j: int|
            0 <= j < state.transitions.len() ==> self.action_ok(
                (#[trigger] state.transitions[j]).action,
            )
        &&& state.default_reduce matches Some(production) ==> production < self.productions.len()
    }

    /// Every id in the tables is in range, and the initial state exists.
    pub open spec fn wf(self) -> bool {
        &&& self.states.len() > 0
        &&& self.goal < self.symbols.len()
        &&& forall|p: int|
            0 <= p < self.productions.len() ==> self.production_ok(#[trigger] self.productions[p])
        &&& forall|s: int| 0 <= s < self.states.len() ==> self.state_ok(#[trigger] self.states[s])
    }

    /// In well-formed tables every action that a lookup gives names only what
    /// the tables hold.
    pub proof fn lemma_lookup_ok(self, state: usize, symbol: usize)
        requires
            self.wf(),
        ensures
            self.action_ok(self.lookup(state, symbol)),
    {
        if state < self.states.len() {
            let entries = self.states[state as int].transitions;
            lemma_find(entries, symbol);
            assert(self.state_ok(self.states[state as int]));
            if let Some(action) = find(entries, symbol) {
                let i = choose|i: int| first_at(entries, symbol, i) && entries[i].action == action;
                assert(self.action_ok(entries[i].action));
            }
        }
    }

    /// A token that the lexer may hand over: a terminal that is not
    /// whitespace.
    pub open spec fn valid_token(self, token: Token) -> bool {
        &&& token.symbol < self.symbols.len()
        &&& self.symbols[token.symbol as int].terminal
        &&& !self.symbols[token.symbol as int].whitespace
    }
}

impl State {
    /// The action of the first entry for `symbol`, if there is one.
    pub fn find(&self, symbol: usize) -> (found: Option<Action>)
        ensures
            found == find(self@.transitions, symbol),
    {
        let mut i: usize = 0;
        assert(self.transitions@.skip(0) == self.transitions@);
        while i < self.transitions.len()
            invariant
                i <= self.transitions@.len(),
                find(self.transitions@, symbol) == find(self.transitions@.skip(i as int), symbol),
            decreases self.transitions@.len() - i,
        {
            let entry = self.transitions[i];
            proof {
                let here = self.transitions@.skip(i as int);
                assert(here[0] == self.transitions@[i as int]);
                assert(here.drop_first() == self.transitions@.skip(i + 1));
            }
            if entry.symbol == symbol {
                return Some(entry.action);
            }
            i += 1;
        }
        None
    }
}

impl Grammar {
    /// Whether `token` is one that the lexer may hand over.
    pub fn accepts(&self, token: &Token) -> (yes: bool)
        ensures
            yes == self@.valid_token(*token),
    {
        token.symbol < self.symbols.len() && self.symbols[token.symbol].terminal
            && !self.symbols[token.symbol].whitespace
    }

    /// Whether `action` names only what the tables hold.
    pub fn action_ok(&self, action: Action) -> (yes: bool)
        ensures
            yes == self@.action_ok(action),
    {
        match action {
            Action::Accept => true,
            Action::Error => true,
            Action::Shift(target) => target < self.states.len(),
            Action::Reduce(production) => production < self.productions.len(),
            Action::ShiftAndReduce(production) => production < self.productions.len()
                && self.productions[production].rhs.len() > 0,
        }
    }

    /// Whether the symbols of the production at `index` are in the tables.
    pub fn production_ok(&self, index: usize) -> (yes: bool)
        requires
            index < self@.productions.len(),
        ensures
            yes == self@.production_ok(self@.productions[index as int]),
    {
        let production = &self.productions[index];
        if production.lhs >= self.symbols.len() {
            return false;
        }
        let mut j: usize = 0;
        while j < production.rhs.len()
            invariant
                j <= production.rhs@.len(),
                index < self@.productions.len(),
                production@ == self@.productions[index as int],
                self@.symbols.len() == self.symbols@.len(),
                forall|k: int| 0 <= k < j ==> #[trigger] production.rhs@[k] < self.symbols@.len(),
            decreases production.rhs@.len() - j,
        {
            if production.rhs[j] >= self.symbols.len() {
                proof {
                    let model = self@.productions[index as int];
                    assert(model.rhs == production.rhs@);
                    assert(!(model.rhs[j as int] < self@.symbols.len()));
                }
                return false;
            }
            j += 1;
        }
        true
    }

    /// Whether the entries and the default of the state at `index` name only
    /// what the tables hold.
    pub fn state_ok(&self, index: usize) -> (yes: bool)
        requires
            index < self@.states.len(),
        ensures
            yes == self@.state_ok(self@.states[index as int]),
    {
        let state = &self.states[index];
        if let Some(production) = state.default_reduce {
            if production >= self.productions.len() {
                return false;
            }
        }
        let mut j: usize = 0;
        while j < state.transitions.len()
            invariant
                j <= state.transitions@.len(),
                index < self@.states.len(),
                state@ == self@.states[index as int],
                forall|k: int|
                    0 <= k < j ==> self@.action_ok((#[trigger] state.transitions@[k]).action),
            decreases state.transitions@.len() - j,
        {
            if !self.action_ok(state.transitions[j].action) {
                assert(!self@.action_ok(state.transitions@[j as int].action));
                return false;
            }
            j += 1;
        }
        true
    }

    /// Whether every id in the tables is in range and the initial state
    /// exists: what a parser asks of its tables.
    pub fn is_well_formed(&self) -> (yes: bool)
        ensures
            yes == self@.wf(),
    {
        if self.states.len() == 0 || self.goal >= self.symbols.len() {
            return false;
        }
        let mut p: usize = 0;
        while p < self.productions.len()
            invariant
                p <= self.productions@.len(),
                self@.productions.len() == self.productions@.len(),
                forall|k: int| 0 <= k < p ==> self@.production_ok(#[trigger] self@.productions[k]),
            decreases self.productions@.len() - p,
        {
            if !self.production_ok(p) {
                assert(!self@.production_ok(self@.productions[p as int]));
                return false;
            }
            p += 1;
        }
        let mut s: usize = 0;
        while s < self.states.len()
            invariant
                s <= self.states@.len(),
                self@.states.len() == self.states@.len(),
                forall|k: int| 0 <= k < s ==> self@.state_ok(#[trigger] self@.states[k]),
            decreases self.states@.len() - s,
        {
            if !self.state_ok(s) {
                assert(!self@.state_ok(self@.states[s as int]));
                return false;
            }
            s += 1;
        }
        true
    }
}


} // verus!
