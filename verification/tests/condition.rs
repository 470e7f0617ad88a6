use std::io::BufReader;
use std::io::Read;

use rustlex_codegen::def::{AutoState, Automaton, Condition, LexerDef};
use rustlex_codegen::runtime::{Command, Event, Lexer};

#[derive(PartialEq, Debug)]
pub enum Token {
    TokOuterStuff(String),
    TokInnerStuff(String),
}

/// A state whose every byte leads to `default`, except the listed ones.
fn state(default: usize, except: &[(u8, usize)], action: usize) -> AutoState {
    let mut trans = vec![default; 256];
    for &(b, to) in except {
        trans[b as usize] = to;
    }
    AutoState { trans, action }
}

/// The lexer of
///   OPEN = '{'; CLOSE = '}'; STUFF = [^'{''}']*;
///   INITIAL { STUFF => outer stuff; OPEN => INNER }
///   INNER { STUFF => inner stuff; CLOSE => INITIAL }
fn condition_lexer() -> LexerDef {
    let states = vec![
        state(0, &[], 0),
        state(2, &[(b'{', 3), (b'}', 0)], 0),
        state(2, &[(b'{', 0), (b'}', 0)], 1),
        state(0, &[], 2),
        state(5, &[(b'}', 6), (b'{', 0)], 0),
        state(5, &[(b'{', 0), (b'}', 0)], 3),
        state(0, &[], 4),
    ];
    LexerDef {
        ident: "ConditionLexer".to_string(),
        tokens: "Token".to_string(),
        properties: vec![],
        actions: vec![
            String::new(),
            "|lexer| Some(TokOuterStuff(lexer.yystr().trim().to_string()))".to_string(),
            "|lexer| { lexer.INNER(); None }".to_string(),
            "|lexer| Some(TokInnerStuff(lexer.yystr().trim().to_string()))".to_string(),
            "|lexer| { lexer.INITIAL(); None }".to_string(),
        ],
        conditions: vec![
            Condition { name: "INITIAL".to_string(), state: 1 },
            Condition { name: "INNER".to_string(), state: 4 },
        ],
        auto: Automaton { states },
        callback: None,
    }
}

/// The actions of the lexer: tokens for the stuff, condition switches for
/// the braces.
fn run_action(id: usize, lexer: &mut Lexer) -> Option<Token> {
    match id {
        1 => Some(Token::TokOuterStuff(lexer.yystr().trim().to_string())),
        2 => {
            lexer.begin(1);
            None
        }
        3 => Some(Token::TokInnerStuff(lexer.yystr().trim().to_string())),
        4 => {
            lexer.begin(0);
            None
        }
        _ => unreachable!(),
    }
}

/// The iterator of the generated lexer: the lexer decides each step, the
/// actions run when it asks for them.
fn next_token(lexer: &mut Lexer) -> Option<Token> {
    let mut event = Event::Start;
    loop {
        event = match lexer.next_step(event) {
            Command::RunAction { id } => Event::ActionDone(run_action(id, lexer)),
            Command::Yield(token) => return Some(token),
            Command::Finish => return None,
            other => panic!("ERROR in rustlex. Illegal character. {:?}", other),
        };
    }
}

#[test]
fn test_conditions() {
    let expected = vec!(Token::TokOuterStuff("outer".to_string()),
                        Token::TokInnerStuff("inner".to_string()));
    let str = "outer { inner }";
    let mut inp = BufReader::new(str.as_bytes());
    let mut bytes = Vec::new();
    inp.read_to_end(&mut bytes).unwrap();
    let mut lexer = Lexer::new(&condition_lexer(), vec![bytes]);
    let mut iter = expected.iter();
    while let Some(tok) = next_token(&mut lexer) {
        assert_eq!(iter.next().unwrap(), &tok);
    }
    assert_eq!(iter.next(), None);
}

#[test]
fn conditions_read_lazily() {
    let mut lexer = Lexer::streaming(&condition_lexer());
    let mut input = "outer { inner }".as_bytes().chunks(3);
    let mut tokens = Vec::new();
    loop {
        let mut event = Event::Start;
        let token = loop {
            event = match lexer.next_step(event) {
                Command::ReadInput => {
                    match input.next() {
                        Some(chunk) => lexer.push_input(chunk.to_vec()),
                        None => lexer.close_input(),
                    }
                    Event::InputRead
                }
                Command::RunAction { id } => Event::ActionDone(run_action(id, &mut lexer)),
                Command::Yield(token) => break Some(token),
                Command::Finish => break None,
                other => panic!("unexpected {:?}", other),
            };
        };
        match token {
            Some(token) => tokens.push(token),
            None => break,
        }
    }
    assert_eq!(tokens, vec![Token::TokOuterStuff("outer".to_string()), Token::TokInnerStuff("inner".to_string())]);
    assert_eq!(next_token(&mut lexer), None);
}

#[test]
fn iterator_stays_finished() {
    let mut lexer = Lexer::new(&condition_lexer(), vec![b"outer { inner }".to_vec()]);
    assert_eq!(next_token(&mut lexer), Some(Token::TokOuterStuff("outer".to_string())));
    assert_eq!(next_token(&mut lexer), Some(Token::TokInnerStuff("inner".to_string())));
    // The '}' switches back to INITIAL and yields nothing; then the input ends.
    assert_eq!(lexer.next_step::<Token>(Event::Start), Command::RunAction { id: 4 });
    lexer.begin(0);
    assert_eq!(lexer.next_step::<Token>(Event::ActionDone(None)), Command::Finish);
    for _ in 0..3 {
        assert_eq!(lexer.next_step::<Token>(Event::Start), Command::Finish);
    }
}

#[test]
fn first_token_ends_the_call() {
    let mut lexer = Lexer::new(&condition_lexer(), vec![b"x".to_vec()]);
    assert_eq!(lexer.next_step::<Token>(Event::Start), Command::RunAction { id: 1 });
    let token = Token::TokOuterStuff("x".to_string());
    assert_eq!(lexer.next_step(Event::ActionDone(Some(token))), Command::Yield(Token::TokOuterStuff("x".to_string())));
    assert_eq!(lexer.yylloc(), (1, 1));
    assert_eq!(lexer.next_step::<Token>(Event::Start), Command::Finish);
}
