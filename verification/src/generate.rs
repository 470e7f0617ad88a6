//! The code generator: from a lexer description to the items of the
//! generated lexer, each held as plain data.
use vstd::prelude::*;
use crate::def::{accept_ids, trans_rows, Automaton, CallbackExpr, LexerDef, Property};

verus! {

/// A region of the macro invocation in the source, by byte offsets.
#[derive(Clone, Copy, PartialEq, Eq, Structural, Debug)]
pub struct Span {
    pub lo: u32,
    pub hi: u32,
}

/// The type of a field of the generated lexer struct.
pub enum FieldType {
    /// The type of a user property, as Rust source text.
    Property(String),
    /// The input buffer over the reader, `::rustlex::rt::RustLexLexer<R>`.
    Input,
    /// The current automaton state, `usize`.
    State,
}

/// A named field of the generated lexer struct.
pub struct FieldDef {
    pub span: Span,
    pub name: String,
    pub ty: FieldType,
    pub public: bool,
}

/// The generated lexer struct: public, generic over a reader
/// `R: ::std::io::Read`, and marked `#[allow(missing_docs)]`.
pub struct StructDef {
    pub span: Span,
    pub name: String,
    pub fields: Vec<FieldDef>,
}

/// The value a field of the lexer gets in its constructor.
pub enum InitValue {
    /// The initial value of a user property, as Rust source text.
    Expr(String),
    /// `::rustlex::rt::RustLexLexer::new(reader)`.
    Input,
    /// The start state of the initial condition.
    State(usize),
}

/// One field initialiser of the constructor.
pub struct FieldInit {
    pub name: String,
    pub value: InitValue,
}

/// A method of the generated lexer.
pub enum Method {
    /// `fn NAME(&mut self) { self._state = state; }` for a start condition.
    Condition { name: String, state: usize },
    /// `pub fn new(reader: R) -> Self` with the given field initialisers.
    New { inits: Vec<FieldInit> },
    /// `fn _unicode_char_len(&self, i: u8) -> u8`; its behaviour is
    /// `runtime::unicode_char_len`.
    UnicodeCharLen,
    /// `fn yylloc(&mut self) -> (u64, u64)`; its behaviour is `Lexer::yylloc`.
    Yylloc,
    /// `fn yystr(&mut self) -> String`; its behaviour is `Lexer::yystr`.
    Yystr,
    /// `fn _has_callback(&self) -> bool` returning `value`.
    HasCallback { value: bool },
    /// `fn _callback(&self, ch: char, location: (u64, u64))`, calling the
    /// user's closure when there is one and doing nothing otherwise.
    Callback { closure: Option<String> },
    /// `fn follow(&self, current_state: usize, symbol: usize) -> usize`
    /// reading `rows[current_state][symbol]`.
    Follow { rows: Vec<Vec<usize>> },
    /// `fn accepting(&self, state: usize) -> usize` reading `accepts[state]`.
    Accepting { accepts: Vec<usize> },
}

/// One arm of the action match: `id => Box::new(action)`.
pub struct ActionArm {
    pub id: usize,
    pub action: String,
}

/// The match on the last matching action that the iterator runs: one arm per
/// user action, then a wildcard arm with the default action for illegal
/// characters (whose behaviour is the default action of `Lexer::scan`).
pub struct ActionMatch {
    pub span: Span,
    pub arms: Vec<ActionArm>,
}

/// A generated item.
pub enum Item {
    /// The lexer struct.
    Struct(StructDef),
    /// `impl<R: ::std::io::Read> LEXER<R> { methods }`.
    Impl { span: Span, lexer: String, methods: Vec<Method> },
    /// `impl<R: ::std::io::Read> Iterator for LEXER<R> { type Item = TOKENS; fn next ... }`
    /// whose `next` runs `Lexer::scan` and dispatches through `actions`.
    Iterator { span: Span, lexer: String, tokens: String, actions: ActionMatch },
}

/// The result of the generator: the items it produced.
pub struct CodeGenerator {
    pub span: Span,
    pub items: Vec<Item>,
}

/// `f` is the public field of user property `p`.
pub open spec fn is_property_field(f: FieldDef, sp: Span, p: Property) -> bool {
    &&& f.span == sp
    &&& f.name@ == p.name@
    &&& f.public
    &&& f.ty matches FieldType::Property(t) && t@ == p.ty@
}

/// `f` is the public input-buffer field `_input`.
pub open spec fn is_input_field(f: FieldDef, sp: Span) -> bool {
    &&& f.span == sp
    &&& f.name@ == "_input"@
    &&& f.public
    &&& f.ty is Input
}

/// `f` is the public state field `_state`.
pub open spec fn is_state_field(f: FieldDef, sp: Span) -> bool {
    &&& f.span == sp
    &&& f.name@ == "_state"@
    &&& f.public
    &&& f.ty is State
}

/// `s` is the lexer struct named `ident` with the fields of `props`, then
/// `_input` and `_state`.
pub open spec fn is_lexer_struct(s: StructDef, sp: Span, ident: Seq<char>, props: Seq<Property>) -> bool {
    let n = props.len() as int;
    &&& s.span == sp
    &&& s.name@ == ident
    &&& s.fields@.len() == n + 2
    &&& forall|k: int| 0 <= k < n ==> is_property_field(#[trigger] s.fields@[k], sp, props[k])
    &&& is_input_field(s.fields@[n], sp)
    &&& is_state_field(s.fields@[n + 1], sp)
}

/// `item` is an impl block of lexer `ident` holding exactly one method.
pub open spec fn is_single_impl(item: Item, sp: Span, ident: Seq<char>) -> bool {
    item matches Item::Impl { span, lexer, methods } && span == sp && lexer@ == ident
        && methods@.len() == 1
}

/// The one method of an impl item.
pub open spec fn only_method(item: Item) -> Method {
    match item {
        Item::Impl { methods, .. } => methods@[0],
        _ => arbitrary(),
    }
}

/// `table` has the transition rows of `auto`.
pub open spec fn is_transition_table(table: Seq<Vec<usize>>, auto: &Automaton) -> bool {
    table.map_values(|row: Vec<usize>| row@) == trans_rows(auto)
}

/// `m` has one arm per user action of `actions`, numbered from 1 in order.
pub open spec fn is_action_match(m: ActionMatch, sp: Span, actions: Seq<String>) -> bool {
    &&& m.span == sp
    &&& m.arms@.len() == if actions.len() == 0 {
        0
    } else {
        actions.len() - 1
    }
    &&& forall|k: int|
        0 <= k < m.arms@.len() ==> (#[trigger] m.arms@[k]).id == k + 1 && m.arms@[k].action@
            == actions[k + 1]@
}

/// The arm of `m` that a last matching action `id` selects, if any: an arm
/// with that number, or `None` for the wildcard arm.
pub open spec fn selected_arm(m: ActionMatch, id: int) -> Option<int> {
    if exists|k: int| 0 <= k < m.arms@.len() && (#[trigger] m.arms@[k]).id == id {
        Some(choose|k: int| 0 <= k < m.arms@.len() && (#[trigger] m.arms@[k]).id == id)
    } else {
        None
    }
}

/// `item` is the impl of lexer `lex` whose only method is the condition
/// switch for `cond`.
pub open spec fn is_condition_impl(item: Item, sp: Span, lex: &LexerDef, cond: int) -> bool {
    &&& is_single_impl(item, sp, lex.ident@)
    &&& only_method(item) matches Method::Condition { name, state } && name@
        == lex.conditions@[cond].name@ && state == lex.conditions@[cond].state
}

/// `inits` initialise the user properties of `lex` from their initial
/// values, then `_input` from the reader and `_state` with the start state of
/// the initial condition.
pub open spec fn is_constructor(inits: Seq<FieldInit>, lex: &LexerDef) -> bool {
    let props = lex.properties@;
    let n = props.len() as int;
    &&& inits.len() == n + 2
    &&& forall|k: int|
        0 <= k < n ==> (#[trigger] inits[k]).name@ == props[k].name@ && (inits[k].value matches InitValue::Expr(e) && e@ == props[k].init@)
    &&& inits[n].name@ == "_input"@
    &&& inits[n].value is Input
    &&& inits[n + 1].name@ == "_state"@
    &&& inits[n + 1].value == InitValue::State(lex.conditions@[0].state)
}

/// `item` is the impl of lexer `lex` holding its constructor and the methods
/// `_unicode_char_len`, `yylloc` and `yystr`.
pub open spec fn is_main_impl(item: Item, sp: Span, lex: &LexerDef) -> bool {
    &&& item matches Item::Impl { span, lexer, methods } && span == sp && lexer@ == lex.ident@
        && methods@.len() == 4 && (methods@[0] matches Method::New { inits } && is_constructor(
        inits@,
        lex,
    )) && methods@[1] is UnicodeCharLen && methods@[2] is Yylloc && methods@[3] is Yystr
}

/// `m` is the callback method for the callback of a lexer: it calls the
/// closure when there is one.
pub open spec fn is_callback_method(m: Method, cb: Option<CallbackExpr>) -> bool {
    m matches Method::Callback { closure } && match cb {
        Some(CallbackExpr::Closure(c)) => closure matches Some(x) && x@ == c@,
        _ => closure is None,
    }
}

/// `item` is the impl of lexer `lex` holding `_has_callback` and `_callback`.
pub open spec fn is_callback_impl(item: Item, sp: Span, lex: &LexerDef) -> bool {
    &&& item matches Item::Impl { span, lexer, methods } && span == sp && lexer@ == lex.ident@
        && methods@.len() == 2 && methods@[0] == Method::HasCallback {
        value: lex.callback is Some,
    } && is_callback_method(methods@[1], lex.callback)
}

/// `item` is the impl of lexer `lex` whose only method is `follow` over the
/// automaton's transitions.
pub open spec fn is_follow_impl(item: Item, sp: Span, lex: &LexerDef) -> bool {
    &&& is_single_impl(item, sp, lex.ident@)
    &&& only_method(item) matches Method::Follow { rows } && is_transition_table(rows@, &lex.auto)
}

/// `item` is the impl of lexer `lex` whose only method is `accepting` over
/// the automaton's accepted actions.
pub open spec fn is_accepting_impl(item: Item, sp: Span, lex: &LexerDef) -> bool {
    &&& is_single_impl(item, sp, lex.ident@)
    &&& only_method(item) matches Method::Accepting { accepts } && accepts@ == accept_ids(
        &lex.auto,
    )
}

/// `item` is the iterator impl of lexer `lex`, dispatching through the match
/// of its actions.
pub open spec fn is_iterator_impl(item: Item, sp: Span, lex: &LexerDef) -> bool {
    item matches Item::Iterator { span, lexer, tokens, actions } && span == sp && lexer@
        == lex.ident@ && tokens@ == lex.tokens@ && is_action_match(actions, sp, lex.actions@)
}

/// `items` are the impls of lexer `lex`: one per start condition in order,
/// then the main impl, the callback impl, `follow`, `accepting` and the
/// iterator.
pub open spec fn is_lexer_impl(items: Seq<Item>, sp: Span, lex: &LexerDef) -> bool {
    let c = lex.conditions@.len() as int;
    &&& items.len() == c + 5
    &&& forall|k: int| 0 <= k < c ==> is_condition_impl(#[trigger] items[k], sp, lex, k)
    &&& is_main_impl(items[c], sp, lex)
    &&& is_callback_impl(items[c + 1], sp, lex)
    &&& is_follow_impl(items[c + 2], sp, lex)
    &&& is_accepting_impl(items[c + 3], sp, lex)
    &&& is_iterator_impl(items[c + 4], sp, lex)
}

/// The rows of the transition table, one per automaton state, in state order.
pub fn transition_table(auto: &Automaton) -> (r: Vec<Vec<usize>>)
    ensures
        is_transition_table(r@, auto),
{
    let mut table: Vec<Vec<usize>> = Vec::new();
    let n = auto.states.len();
    for k in 0..n
        invariant
            n == auto.states.len(),
            table@.len() == k,
            forall|j: int| 0 <= j < k ==> #[trigger] table@[j]@ == auto.states@[j].trans@,
    {
        let row = auto.states[k].trans.clone();
        assert(row@ =~= auto.states@[k as int].trans@);
        table.push(row);
    }
    assert(table@.map_values(|row: Vec<usize>| row@) =~= trans_rows(auto));
    table
}

/// The accepted action of each automaton state, in state order.
pub fn accepting_table(auto: &Automaton) -> (r: Vec<usize>)
    ensures
        r@ == accept_ids(auto),
{
    let mut table: Vec<usize> = Vec::new();
    let n = auto.states.len();
    for k in 0..n
        invariant
            n == auto.states.len(),
            table@.len() == k,
            forall|j: int| 0 <= j < k ==> #[trigger] table@[j] == auto.states@[j].action,
    {
        table.push(auto.states[k].action);
    }
    assert(table@ =~= accept_ids(auto));
    table
}

/// A public named field of the lexer struct.
pub fn lexer_field(sp: Span, name: String, ty: FieldType) -> (r: FieldDef)
    ensures
        r.span == sp,
        r.name == name,
        r.ty == ty,
        r.public,
{
    FieldDef { span: sp, name, ty, public: true }
}

/// The lexer struct: one field per user property, then the input buffer
/// `_input` and the automaton state `_state`.
pub fn lexer_struct(sp: Span, ident: &String, props: &Vec<Property>) -> (r: StructDef)
    ensures
        is_lexer_struct(r, sp, ident@, props@),
{
    let mut fields: Vec<FieldDef> = Vec::new();
    for k in 0..props.len()
        invariant
            fields@.len() == k,
            forall|j: int| 0 <= j < k ==> is_property_field(#[trigger] fields@[j], sp, props@[j]),
    {
        let f = lexer_field(sp, props[k].name.clone(), FieldType::Property(props[k].ty.clone()));
        fields.push(f);
    }
    fields.push(lexer_field(sp, "_input".to_owned(), FieldType::Input));
    fields.push(lexer_field(sp, "_state".to_owned(), FieldType::State));
    StructDef { span: sp, name: ident.clone(), fields }
}

/// The match that dispatches the last matching action: arm `i` boxes user
/// action `i` for each `i` from 1, and the wildcard arm runs the default
/// action.
pub fn actions_match(lex: &LexerDef, sp: Span) -> (r: ActionMatch)
    ensures
        is_action_match(r, sp, lex.actions@),
{
    let mut arms: Vec<ActionArm> = Vec::new();
    let n = lex.actions.len();
    let mut i: usize = 1;
    while i < n
        invariant
            n == lex.actions@.len(),
            1 <= i,
            if n == 0 {
                i == 1
            } else {
                i <= n
            },
            arms@.len() == i - 1,
            forall|k: int|
                0 <= k < arms@.len() ==> (#[trigger] arms@[k]).id == k + 1 && arms@[k].action@
                    == lex.actions@[k + 1]@,
        decreases n - i,
    {
        arms.push(ActionArm { id: i, action: lex.actions[i].clone() });
        i += 1;
    }
    ActionMatch { span: sp, arms }
}

/// The `follow` method over the automaton's transition table.
pub fn simple_follow_method(sp: Span, lex: &LexerDef) -> (r: Item)
    ensures
        is_follow_impl(r, sp, lex),
{
    let table = transition_table(&lex.auto);
    let mut methods: Vec<Method> = Vec::new();
    methods.push(Method::Follow { rows: table });
    Item::Impl { span: sp, lexer: lex.ident.clone(), methods }
}

/// The `accepting` method over the accepted action of each state.
pub fn simple_accepting_method(sp: Span, lex: &LexerDef) -> (r: Item)
    ensures
        is_accepting_impl(r, sp, lex),
{
    let table = accepting_table(&lex.auto);
    let mut methods: Vec<Method> = Vec::new();
    methods.push(Method::Accepting { accepts: table });
    Item::Impl { span: sp, lexer: lex.ident.clone(), methods }
}

/// The `_has_callback` and `_callback` methods: with a callback closure they
/// report it and call it, without one they report none and do nothing.
pub fn user_callback_method(sp: Span, lex: &LexerDef) -> (r: Item)
    requires
        !(lex.callback matches Some(CallbackExpr::Other(_))),
    ensures
        is_callback_impl(r, sp, lex),
{
    let mut methods: Vec<Method> = Vec::new();
    match &lex.callback {
        Some(CallbackExpr::Closure(c)) => {
            methods.push(Method::HasCallback { value: true });
            methods.push(Method::Callback { closure: Some(c.clone()) });
        },
        Some(CallbackExpr::Other(_)) => {
            assert(false);
        },
        None => {
            methods.push(Method::HasCallback { value: false });
            methods.push(Method::Callback { closure: None });
        },
    }
    Item::Impl { span: sp, lexer: lex.ident.clone(), methods }
}

/// The impls of the lexer: the condition switches, the constructor with
/// `_unicode_char_len`, `yylloc` and `yystr`, the callback methods, the
/// tables, and the iterator.
pub fn user_lexer_impl(sp: Span, lex: &LexerDef) -> (r: Vec<Item>)
    requires
        lex.generable(),
    ensures
        is_lexer_impl(r@, sp, lex),
{
    let actions = actions_match(lex, sp);
    let mut inits: Vec<FieldInit> = Vec::new();
    for k in 0..lex.properties.len()
        invariant
            inits@.len() == k,
            forall|j: int|
                0 <= j < k ==> (#[trigger] inits@[j]).name@ == lex.properties@[j].name@ && (
                inits@[j].value matches InitValue::Expr(e) && e@ == lex.properties@[j].init@),
    {
        inits.push(
            FieldInit {
                name: lex.properties[k].name.clone(),
                value: InitValue::Expr(lex.properties[k].init.clone()),
            },
        );
    }
    let initial = lex.conditions[0].state;
    inits.push(FieldInit { name: "_input".to_owned(), value: InitValue::Input });
    inits.push(FieldInit { name: "_state".to_owned(), value: InitValue::State(initial) });
    let mut items: Vec<Item> = Vec::new();
    for k in 0..lex.conditions.len()
        invariant
            items@.len() == k,
            forall|j: int| 0 <= j < k ==> is_condition_impl(#[trigger] items@[j], sp, lex, j),
    {
        let mut methods: Vec<Method> = Vec::new();
        methods.push(
            Method::Condition { name: lex.conditions[k].name.clone(), state: lex.conditions[k].state },
        );
        items.push(Item::Impl { span: sp, lexer: lex.ident.clone(), methods });
    }
    let mut main: Vec<Method> = Vec::new();
    main.push(Method::New { inits });
    main.push(Method::UnicodeCharLen);
    main.push(Method::Yylloc);
    main.push(Method::Yystr);
    items.push(Item::Impl { span: sp, lexer: lex.ident.clone(), methods: main });
    items.push(user_callback_method(sp, lex));
    items.push(simple_follow_method(sp, lex));
    items.push(simple_accepting_method(sp, lex));
    items.push(
        Item::Iterator { span: sp, lexer: lex.ident.clone(), tokens: lex.tokens.clone(), actions },
    );
    items
}

/// Generates all items of the lexer: the struct, then its impls.
pub fn codegen(lex: &LexerDef, sp: Span) -> (r: Box<CodeGenerator>)
    requires
        lex.generable(),
    ensures
        r.span == sp,
        r.items@.len() >= 1,
        r.items@[0] matches Item::Struct(s) && is_lexer_struct(s, sp, lex.ident@, lex.properties@),
        is_lexer_impl(r.items@.skip(1), sp, lex),
{
    let mut items: Vec<Item> = Vec::new();
    items.push(Item::Struct(lexer_struct(sp, &lex.ident, &lex.properties)));
    let mut rest = user_lexer_impl(sp, lex);
    let ghost impls = rest@;
    items.append(&mut rest);
    assert(items@.skip(1) =~= impls);
    Box::new(CodeGenerator { span: sp, items })
}

impl CodeGenerator {
    /// The generated items, for expansion in item position.
    pub fn make_items(self) -> (r: Option<Vec<Item>>)
        ensures
            r == Some(self.items),
    {
        Some(self.items)
    }
}

} // verus!
