//! The description of a lexer that the code generator turns into items: its
//! name, token type, user properties, start conditions, actions, callback and
//! the deterministic automaton compiled from its rules.
use vstd::prelude::*;

verus! {

/// A user property of the lexer: a field with its type and initial value,
/// both kept as Rust source text.
pub struct Property {
    pub name: String,
    pub ty: String,
    pub init: String,
}

/// A start condition: its name and the automaton state that it starts in.
pub struct Condition {
    pub name: String,
    pub state: usize,
}

/// A state of the automaton: the next state for each of the 256 byte values,
/// and the action that the state accepts (0 when it accepts none).
pub struct AutoState {
    pub trans: Vec<usize>,
    pub action: usize,
}

/// The deterministic automaton of the lexer; state 0 is the dead state.
pub struct Automaton {
    pub states: Vec<AutoState>,
}

/// The expression given as the lexer's callback for illegal characters.
pub enum CallbackExpr {
    /// A closure `|lexer, ch, location| ...`, as Rust source text.
    Closure(String),
    /// Any other expression, which the generator refuses.
    Other(String),
}

/// The full description of a lexer.
pub struct LexerDef {
    /// Name of the generated lexer type.
    pub ident: String,
    /// Name of the token type its iterator yields.
    pub tokens: String,
    pub properties: Vec<Property>,
    /// The action closures as Rust source text; entry 0 stands for "no
    /// action" and gets no arm of its own.
    pub actions: Vec<String>,
    /// The start conditions; the first one is the initial condition.
    pub conditions: Vec<Condition>,
    pub auto: Automaton,
    pub callback: Option<CallbackExpr>,
}

/// The transition rows of an automaton.
pub open spec fn trans_rows(a: &Automaton) -> Seq<Seq<usize>> {
    a.states@.map_values(|st: AutoState| st.trans@)
}

/// The accepted action of each state of an automaton.
pub open spec fn accept_ids(a: &Automaton) -> Seq<usize> {
    a.states@.map_values(|st: AutoState| st.action)
}

/// The start state of each condition.
pub open spec fn condition_states(conds: Seq<Condition>) -> Seq<usize> {
    conds.map_values(|c: Condition| c.state)
}

/// Transition and accepting tables that a generated lexer can index: one
/// accepting entry per state, every state has a row of 256 next states, and
/// every next state exists.
pub open spec fn tables_wf(trans: Seq<Seq<usize>>, acc: Seq<usize>) -> bool {
    &&& trans.len() == acc.len()
    &&& forall|s: int| 0 <= s < trans.len() ==> #[trigger] trans[s].len() == 256
    &&& forall|s: int, b: int|
        0 <= s < trans.len() && 0 <= b < 256 ==> #[trigger] trans[s][b] < trans.len()
}

impl LexerDef {
    /// The generator accepts this description: it has an initial condition,
    /// and its callback, if any, is a closure.
    pub open spec fn generable(&self) -> bool {
        &&& self.conditions.len() >= 1
        &&& !(self.callback matches Some(CallbackExpr::Other(_)))
    }

    /// Every action that a state of the automaton accepts has an arm of its
    /// own in the generated action match.
    pub open spec fn every_action_has_arm(&self) -> bool {
        forall|s: int|
            0 <= s < accept_ids(&self.auto).len() ==> #[trigger] accept_ids(&self.auto)[s]
                < self.actions.len()
    }

    /// The lexer generated from this description runs without indexing out of
    /// its tables: the tables are well formed and every condition starts in a
    /// live state.
    pub open spec fn runnable(&self) -> bool {
        &&& self.generable()
        &&& tables_wf(trans_rows(&self.auto), accept_ids(&self.auto))
        &&& forall|c: int|
            0 <= c < self.conditions.len() ==> 0 < #[trigger] condition_states(
                self.conditions@,
            )[c] < self.auto.states.len()
    }
}

} // verus!
