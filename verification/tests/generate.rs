use rustlex_codegen::def::{AutoState, Automaton, CallbackExpr, Condition, LexerDef, Property};
use rustlex_codegen::generate::{
    actions_match, codegen, lexer_field, lexer_struct, simple_accepting_method,
    simple_follow_method, user_callback_method, user_lexer_impl, FieldType,
    InitValue, Item, Method, Span,
};

fn sp() -> Span {
    Span { lo: 3, hi: 40 }
}

fn def(callback: Option<CallbackExpr>) -> LexerDef {
    let mut s1 = vec![0usize; 256];
    s1[b'x' as usize] = 2;
    LexerDef {
        ident: "Lx".to_string(),
        tokens: "Tk".to_string(),
        properties: vec![
            Property { name: "depth".to_string(), ty: "u32".to_string(), init: "0".to_string() },
            Property { name: "seen".to_string(), ty: "bool".to_string(), init: "false".to_string() },
        ],
        actions: vec![String::new(), "|l| Some(X)".to_string(), "|l| None".to_string()],
        conditions: vec![
            Condition { name: "INITIAL".to_string(), state: 1 },
            Condition { name: "OTHER".to_string(), state: 2 },
        ],
        auto: Automaton {
            states: vec![
                AutoState { trans: vec![0; 256], action: 0 },
                AutoState { trans: s1, action: 0 },
                AutoState { trans: vec![0; 256], action: 1 },
            ],
        },
        callback,
    }
}

fn names(methods: &[Method]) -> Vec<&'static str> {
    methods
        .iter()
        .map(|m| match m {
            Method::Condition { .. } => "condition",
            Method::New { .. } => "new",
            Method::UnicodeCharLen => "_unicode_char_len",
            Method::Yylloc => "yylloc",
            Method::Yystr => "yystr",
            Method::HasCallback { .. } => "_has_callback",
            Method::Callback { .. } => "_callback",
            Method::Follow { .. } => "follow",
            Method::Accepting { .. } => "accepting",
        })
        .collect()
}

#[test]
fn field_is_public_and_named() {
    let f = lexer_field(sp(), "depth".to_string(), FieldType::State);
    assert_eq!(f.name, "depth");
    assert!(f.public);
    assert_eq!(f.span, sp());
    assert!(matches!(f.ty, FieldType::State));
}

#[test]
fn struct_has_properties_then_input_and_state() {
    let d = def(None);
    let s = lexer_struct(sp(), &d.ident, &d.properties);
    assert_eq!(s.name, "Lx");
    let fields: Vec<&str> = s.fields.iter().map(|f| f.name.as_str()).collect();
    assert_eq!(fields, vec!["depth", "seen", "_input", "_state"]);
    assert!(matches!(&s.fields[0].ty, FieldType::Property(t) if t == "u32"));
    assert!(matches!(&s.fields[1].ty, FieldType::Property(t) if t == "bool"));
    assert!(matches!(s.fields[2].ty, FieldType::Input));
    assert!(matches!(s.fields[3].ty, FieldType::State));
    assert!(s.fields.iter().all(|f| f.public && f.span == sp()));
}

#[test]
fn struct_without_properties() {
    let s = lexer_struct(sp(), &"Empty".to_string(), &vec![]);
    let fields: Vec<&str> = s.fields.iter().map(|f| f.name.as_str()).collect();
    assert_eq!(fields, vec!["_input", "_state"]);
}

#[test]
fn action_arms_are_numbered_from_one() {
    let d = def(None);
    let m = actions_match(&d, sp());
    assert_eq!(m.arms.len(), 2);
    assert_eq!(m.arms[0].id, 1);
    assert_eq!(m.arms[0].action, "|l| Some(X)");
    assert_eq!(m.arms[1].id, 2);
    assert_eq!(m.arms[1].action, "|l| None");
    let mut none = def(None);
    none.actions = vec![];
    assert_eq!(actions_match(&none, sp()).arms.len(), 0);
    none.actions = vec![String::new()];
    assert_eq!(actions_match(&none, sp()).arms.len(), 0);
}

#[test]
fn follow_and_accepting_tables() {
    let d = def(None);
    match simple_follow_method(sp(), &d) {
        Item::Impl { lexer, methods, .. } => {
            assert_eq!(lexer, "Lx");
            match &methods[..] {
                [Method::Follow { rows }] => {
                    assert_eq!(rows.len(), 3);
                    assert_eq!(rows[1][b'x' as usize], 2);
                    assert_eq!(rows[1][b'y' as usize], 0);
                }
                _ => panic!("expected follow"),
            }
        }
        _ => panic!("expected impl"),
    }
    match simple_accepting_method(sp(), &d) {
        Item::Impl { methods, .. } => match &methods[..] {
            [Method::Accepting { accepts }] => assert_eq!(accepts, &vec![0, 0, 1]),
            _ => panic!("expected accepting"),
        },
        _ => panic!("expected impl"),
    }
}

#[test]
fn callback_methods() {
    let with = def(Some(CallbackExpr::Closure("|l, c, loc| ()".to_string())));
    match user_callback_method(sp(), &with) {
        Item::Impl { methods, .. } => match &methods[..] {
            [Method::HasCallback { value: true }, Method::Callback { closure: Some(c) }] => {
                assert_eq!(c, "|l, c, loc| ()")
            }
            _ => panic!("expected callback methods"),
        },
        _ => panic!("expected impl"),
    }
    match user_callback_method(sp(), &def(None)) {
        Item::Impl { methods, .. } => assert!(matches!(
            &methods[..],
            [Method::HasCallback { value: false }, Method::Callback { closure: None }]
        )),
        _ => panic!("expected impl"),
    }
}

#[test]
fn lexer_impl_items_in_order() {
    let d = def(None);
    let items = user_lexer_impl(sp(), &d);
    assert_eq!(items.len(), 2 + 5);
    let kinds: Vec<Vec<&str>> = items
        .iter()
        .map(|i| match i {
            Item::Impl { methods, .. } => names(methods),
            Item::Iterator { .. } => vec!["next"],
            Item::Struct(_) => vec!["struct"],
        })
        .collect();
    assert_eq!(
        kinds,
        vec![
            vec!["condition"],
            vec!["condition"],
            vec!["new", "_unicode_char_len", "yylloc", "yystr"],
            vec!["_has_callback", "_callback"],
            vec!["follow"],
            vec!["accepting"],
            vec!["next"],
        ]
    );
    match &items[1] {
        Item::Impl { methods, .. } => {
            assert!(matches!(&methods[0], Method::Condition { name, state: 2 } if name == "OTHER"))
        }
        _ => panic!("expected impl"),
    }
    match &items[2] {
        Item::Impl { methods, .. } => match &methods[0] {
            Method::New { inits } => {
                let names: Vec<&str> = inits.iter().map(|i| i.name.as_str()).collect();
                assert_eq!(names, vec!["depth", "seen", "_input", "_state"]);
                assert!(matches!(&inits[0].value, InitValue::Expr(e) if e == "0"));
                assert!(matches!(&inits[1].value, InitValue::Expr(e) if e == "false"));
                assert!(matches!(inits[2].value, InitValue::Input));
                assert!(matches!(inits[3].value, InitValue::State(1)));
            }
            _ => panic!("expected constructor"),
        },
        _ => panic!("expected impl"),
    }
    match &items[6] {
        Item::Iterator { lexer, tokens, actions, .. } => {
            assert_eq!(lexer, "Lx");
            assert_eq!(tokens, "Tk");
            assert_eq!(actions.arms.len(), 2);
        }
        _ => panic!("expected iterator"),
    }
}

#[test]
fn codegen_emits_struct_then_impls() {
    let d = def(None);
    let generator = codegen(&d, sp());
    assert_eq!(generator.span, sp());
    let items = generator.make_items().unwrap();
    assert_eq!(items.len(), 1 + 2 + 5);
    assert!(matches!(&items[0], Item::Struct(s) if s.name == "Lx" && s.fields.len() == 4));
    assert!(matches!(&items[7], Item::Iterator { .. }));
}
