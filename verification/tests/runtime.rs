use rustlex_codegen::def::{AutoState, Automaton, CallbackExpr, Condition, LexerDef};
use rustlex_codegen::input::{bytes_between, getchar, Pos};
use rustlex_codegen::runtime::{unicode_char_len, Command, Event, Lexer, Scan};

fn state(default: usize, except: &[(u8, usize)], action: usize) -> AutoState {
    let mut trans = vec![default; 256];
    for &(b, to) in except {
        trans[b as usize] = to;
    }
    AutoState { trans, action }
}

/// Rules `"a" => 1`, `"ab" => 2`, `[0-9]+ => 3`, `"\n" => 4`, one condition.
fn small_lexer(callback: Option<CallbackExpr>) -> LexerDef {
    let mut digits_from_start: Vec<(u8, usize)> = (b'0'..=b'9').map(|d| (d, 4)).collect();
    digits_from_start.push((b'a', 2));
    digits_from_start.push((b'\n', 5));
    let digits: Vec<(u8, usize)> = (b'0'..=b'9').map(|d| (d, 4)).collect();
    let states = vec![
        state(0, &[], 0),
        state(0, &digits_from_start, 0),
        state(0, &[(b'b', 3)], 1),
        state(0, &[], 2),
        state(0, &digits, 3),
        state(0, &[], 4),
    ];
    LexerDef {
        ident: "Small".to_string(),
        tokens: "Tok".to_string(),
        properties: vec![],
        actions: vec![
            String::new(),
            "|l| Some(A)".to_string(),
            "|l| Some(AB)".to_string(),
            "|l| Some(Num)".to_string(),
            "|l| None".to_string(),
        ],
        conditions: vec![Condition { name: "INITIAL".to_string(), state: 1 }],
        auto: Automaton { states },
        callback,
    }
}

fn lexemes(lexer: &mut Lexer) -> Vec<(Scan, Vec<u8>, (u64, u64))> {
    let mut out = Vec::new();
    loop {
        let r = lexer.scan(true);
        if r == Scan::End {
            return out;
        }
        out.push((r, lexer.yystr_bytes(), lexer.yylloc()));
    }
}

#[test]
fn char_len_of_leading_bytes() {
    assert_eq!(unicode_char_len(b'A'), 1);
    assert_eq!(unicode_char_len(0x80), 1);
    assert_eq!(unicode_char_len(0xC1), 1);
    assert_eq!(unicode_char_len(0xC2), 2);
    assert_eq!(unicode_char_len(0xDF), 2);
    assert_eq!(unicode_char_len(0xE0), 3);
    assert_eq!(unicode_char_len(0xEF), 3);
    assert_eq!(unicode_char_len(0xF0), 4);
    assert_eq!(unicode_char_len(0xFF), 4);
}

#[test]
fn getchar_crosses_chunks() {
    let inp = vec![b"ab".to_vec(), vec![], b"c".to_vec()];
    let (b0, p1) = getchar(&inp, Pos { buf: 0, off: 0 }).unwrap();
    assert_eq!(b0, b'a');
    let (b1, p2) = getchar(&inp, p1).unwrap();
    assert_eq!(b1, b'b');
    assert_eq!(p2, Pos { buf: 0, off: 2 });
    let (b2, p3) = getchar(&inp, p2).unwrap();
    assert_eq!(b2, b'c');
    assert_eq!(p3, Pos { buf: 2, off: 1 });
    assert_eq!(getchar(&inp, p3), None);
}

#[test]
fn bytes_between_spans_chunks() {
    let inp = vec![b"hel".to_vec(), b"lo ".to_vec(), b"wor".to_vec(), b"ld".to_vec()];
    let r = bytes_between(&inp, Pos { buf: 0, off: 1 }, Pos { buf: 3, off: 1 });
    assert_eq!(r, b"ello worl".to_vec());
    let same = bytes_between(&inp, Pos { buf: 1, off: 0 }, Pos { buf: 1, off: 2 });
    assert_eq!(same, b"lo".to_vec());
    let empty = bytes_between(&inp, Pos { buf: 2, off: 3 }, Pos { buf: 2, off: 3 });
    assert!(empty.is_empty());
}

#[test]
fn longest_match_is_taken() {
    let mut lexer = Lexer::new(&small_lexer(None), vec![b"aba123a".to_vec()]);
    let got = lexemes(&mut lexer);
    assert_eq!(got.len(), 4);
    assert_eq!(got[0].0, Scan::Action { id: 2 });
    assert_eq!(got[0].1, b"ab".to_vec());
    assert_eq!(got[1].0, Scan::Action { id: 1 });
    assert_eq!(got[1].1, b"a".to_vec());
    assert_eq!(got[2].0, Scan::Action { id: 3 });
    assert_eq!(got[2].1, b"123".to_vec());
    assert_eq!(got[3].0, Scan::Action { id: 1 });
    assert_eq!(got[3].1, b"a".to_vec());
}

#[test]
fn lexemes_span_chunks() {
    let mut lexer = Lexer::new(&small_lexer(None), vec![b"a".to_vec(), b"b12".to_vec(), b"34".to_vec()]);
    let got = lexemes(&mut lexer);
    assert_eq!(got.len(), 2);
    assert_eq!(got[0].1, b"ab".to_vec());
    assert_eq!(got[1].0, Scan::Action { id: 3 });
    assert_eq!(got[1].1, b"1234".to_vec());
    // After the end, the current lexeme is empty.
    assert_eq!(lexer.yystr(), String::new());
    let mut again = Lexer::new(&small_lexer(None), vec![b"1".to_vec(), b"".to_vec(), b"23".to_vec()]);
    assert_eq!(again.scan(true), Scan::Action { id: 3 });
    assert_eq!(again.yystr(), "123".to_string());
}

#[test]
fn locations_count_lines_and_characters() {
    let mut lexer = Lexer::new(&small_lexer(None), vec![b"ab\n12a\na".to_vec()]);
    let got = lexemes(&mut lexer);
    let locs: Vec<(u64, u64)> = got.iter().map(|g| g.2).collect();
    assert_eq!(locs, vec![(1, 1), (1, 3), (2, 1), (2, 3), (2, 4), (3, 1)]);
}

#[test]
fn end_of_input_is_sticky() {
    let mut lexer = Lexer::new(&small_lexer(None), vec![b"a".to_vec()]);
    assert_eq!(lexer.scan(true), Scan::Action { id: 1 });
    assert_eq!(lexer.scan(true), Scan::End);
    assert_eq!(lexer.scan(true), Scan::End);
    assert_eq!(lexer.scan(false), Scan::End);
}

#[test]
fn empty_input_ends_at_once() {
    let mut lexer = Lexer::new(&small_lexer(None), vec![]);
    assert_eq!(lexer.scan(true), Scan::End);
    assert_eq!(lexer.yystr_bytes(), Vec::<u8>::new());
}

fn with_callback() -> Option<CallbackExpr> {
    Some(CallbackExpr::Closure("|lexer, ch, loc| ()".to_string()))
}

#[test]
fn illegal_character_without_callback() {
    let mut lexer = Lexer::new(&small_lexer(None), vec![b"a?b".to_vec()]);
    assert_eq!(lexer.scan(true), Scan::Action { id: 1 });
    // No rule matches at '?': the default action would report it at 1:2 and
    // stop, since there is no callback.
    assert_eq!(lexer.scan(true), Scan::NoMatch);
    assert!(!lexer.has_callback());
    assert_eq!(lexer.illegal_char(), Some('?'));
    assert_eq!(lexer.yylloc(), (1, 2));
    assert!(lexer.yystr_bytes().is_empty());
}

#[test]
fn illegal_characters_go_to_the_callback() {
    let mut lexer = Lexer::new(&small_lexer(with_callback()), vec![b"?!a".to_vec()]);
    assert!(lexer.has_callback());
    assert_eq!(lexer.scan(true), Scan::NoMatch);
    assert_eq!(lexer.default_action(), ('?', (1, 1)));
    assert_eq!(lexer.scan(false), Scan::NoMatch);
    assert_eq!(lexer.default_action(), ('!', (1, 2)));
    assert_eq!(lexer.scan(false), Scan::Action { id: 1 });
    assert_eq!(lexer.yylloc(), (1, 3));
    assert_eq!(lexer.scan(true), Scan::End);
}

#[test]
fn illegal_multibyte_character() {
    // The default action decodes the whole character but moves one byte on;
    // its continuation byte is then skipped over without a transition and
    // ends up in the next lexeme.
    let mut lexer = Lexer::new(&small_lexer(with_callback()), vec!["\u{e9}a".as_bytes().to_vec()]);
    assert_eq!(lexer.scan(true), Scan::NoMatch);
    assert_eq!(lexer.illegal_char(), Some('\u{e9}'));
    assert_eq!(lexer.default_action(), ('\u{e9}', (1, 1)));
    assert_eq!(lexer.scan(false), Scan::Action { id: 1 });
    assert_eq!(lexer.yystr_bytes(), vec![0xA9, b'a']);
    assert_eq!(lexer.yylloc(), (1, 2));
}

#[test]
fn illegal_newline_moves_to_next_line() {
    let mut def = small_lexer(with_callback());
    // No rule for a newline: it goes to the default action.
    def.auto.states[1].trans[b'\n' as usize] = 0;
    let mut lexer = Lexer::new(&def, vec![b"\na".to_vec()]);
    assert_eq!(lexer.scan(true), Scan::NoMatch);
    assert_eq!(lexer.default_action(), ('\n', (1, 1)));
    assert_eq!(lexer.scan(false), Scan::Action { id: 1 });
    assert_eq!(lexer.yylloc(), (2, 1));
}

#[test]
fn invalid_utf8_has_no_character() {
    let mut lexer = Lexer::new(&small_lexer(with_callback()), vec![vec![0xFF, b'a']]);
    assert_eq!(lexer.scan(true), Scan::NoMatch);
    assert_eq!(lexer.illegal_char(), None);
    let mut truncated = Lexer::new(&small_lexer(with_callback()), vec![vec![0xE2, 0x82]]);
    assert_eq!(truncated.scan(true), Scan::NoMatch);
    assert_eq!(truncated.illegal_char(), None);
    let mut stray = Lexer::new(&small_lexer(with_callback()), vec![vec![0x80]]);
    assert_eq!(stray.scan(true), Scan::NoMatch);
    assert_eq!(stray.illegal_char(), None);
}

#[test]
fn action_without_arm_runs_the_default_action() {
    // "ab" accepts action 7, which has no arm: the wildcard arm runs the
    // default action from the start of the lexeme, with the location at its
    // end.
    let mut def = small_lexer(with_callback());
    def.auto.states[3].action = 7;
    let mut lexer = Lexer::new(&def, vec![b"ab".to_vec()]);
    assert_eq!(lexer.scan(true), Scan::NoMatch);
    assert_eq!(lexer.yystr_bytes(), b"ab".to_vec());
    assert_eq!(lexer.default_action(), ('a', (1, 3)));
    assert_eq!(lexer.scan(false), Scan::NoMatch);
    assert_eq!(lexer.default_action(), ('b', (1, 4)));
    assert_eq!(lexer.scan(false), Scan::End);
}

#[test]
fn lexeme_bytes_of_invalid_utf8() {
    // A rule that accepts the single byte 0xFF.
    let mut def = small_lexer(None);
    def.auto.states[1].trans[0xFF] = 2;
    let mut lexer = Lexer::new(&def, vec![vec![0xFF]]);
    assert_eq!(lexer.scan(true), Scan::Action { id: 1 });
    assert_eq!(lexer.yystr_bytes(), vec![0xFF]);
}

#[test]
fn each_turn_moves_on() {
    // One call of the iterator on three bytes: one turn per byte here.
    let mut lexer = Lexer::new(&small_lexer(with_callback()), vec![b"??1".to_vec()]);
    let mut turns = 0;
    let mut fresh = true;
    loop {
        match lexer.scan(fresh) {
            Scan::End => break,
            Scan::Action { .. } => {}
            Scan::NoMatch => {
                lexer.default_action();
            }
            Scan::NeedInput => unreachable!(),
        }
        fresh = false;
        turns += 1;
    }
    assert_eq!(turns, 3);
}

#[test]
fn multibyte_characters_stay_whole() {
    // Any byte from the start state accepts action 1; a multi-byte character
    // is swallowed whole by the match.
    let mut def = small_lexer(None);
    for b in 0..256 {
        def.auto.states[1].trans[b] = 3;
    }
    let text = "\u{20ac}x";
    let mut lexer = Lexer::new(&def, vec![text.as_bytes().to_vec()]);
    assert_eq!(lexer.scan(true), Scan::Action { id: 2 });
    assert_eq!(lexer.yystr(), "\u{20ac}".to_string());
    assert_eq!(lexer.scan(true), Scan::Action { id: 2 });
    assert_eq!(lexer.yystr(), "x".to_string());
    assert_eq!(lexer.yylloc(), (1, 2));
}

#[test]
fn tables_follow_the_automaton() {
    let def = small_lexer(None);
    let lexer = Lexer::new(&def, vec![]);
    assert_eq!(lexer.follow(1, b'a' as usize), 2);
    assert_eq!(lexer.follow(2, b'b' as usize), 3);
    assert_eq!(lexer.follow(2, b'c' as usize), 0);
    assert_eq!(lexer.accepting(3), 2);
    assert_eq!(lexer.accepting(1), 0);
    assert!(!lexer.has_callback());
}

#[test]
fn begin_switches_condition() {
    let mut def = small_lexer(with_callback());
    // A second condition in which only digits are recognised.
    def.conditions.push(Condition { name: "DIGITS".to_string(), state: 4 });
    let mut lexer = Lexer::new(&def, vec![b"a1".to_vec()]);
    lexer.begin(1);
    assert_eq!(lexer.scan(true), Scan::NoMatch);
    assert_eq!(lexer.default_action(), ('a', (1, 1)));
    assert_eq!(lexer.scan(true), Scan::Action { id: 3 });
    lexer.begin(0);
    assert_eq!(lexer.scan(true), Scan::End);
}

#[test]
fn open_input_asks_for_more() {
    let mut lexer = Lexer::streaming(&small_lexer(None));
    // Nothing read yet: the scan cannot even tell the end of the input.
    assert_eq!(lexer.scan(true), Scan::NeedInput);
    lexer.push_input(b"a".to_vec());
    // "a" could still grow into "ab".
    assert_eq!(lexer.scan(true), Scan::NeedInput);
    lexer.push_input(b"b".to_vec());
    // "ab" accepts, but the automaton reads one byte more before it stops.
    assert_eq!(lexer.scan(true), Scan::NeedInput);
    lexer.push_input(b"12".to_vec());
    assert_eq!(lexer.scan(true), Scan::Action { id: 2 });
    assert_eq!(lexer.yystr(), "ab".to_string());
    assert_eq!(lexer.scan(true), Scan::NeedInput);
    lexer.close_input();
    assert_eq!(lexer.scan(true), Scan::Action { id: 3 });
    assert_eq!(lexer.yystr(), "12".to_string());
    assert_eq!(lexer.scan(true), Scan::End);
}

#[test]
fn open_input_waits_for_whole_characters() {
    let mut def = small_lexer(None);
    for b in 0..256 {
        def.auto.states[1].trans[b] = 3;
    }
    let mut lexer = Lexer::streaming(&def);
    lexer.push_input(vec![0xE2, 0x82]);
    // The accepted character runs past the bytes read so far.
    assert_eq!(lexer.scan(true), Scan::NeedInput);
    lexer.push_input(vec![0xAC, b'x']);
    assert_eq!(lexer.scan(true), Scan::Action { id: 2 });
    assert_eq!(lexer.yystr(), "\u{20ac}".to_string());
}

#[test]
fn byte_by_byte_reading_lexes_alike() {
    let text = b"ab\n12a\naba";
    let mut whole = Lexer::new(&small_lexer(None), vec![text.to_vec()]);
    let expected = lexemes(&mut whole);
    let mut lexer = Lexer::streaming(&small_lexer(None));
    let mut next = 0;
    let mut got = Vec::new();
    loop {
        match lexer.scan(true) {
            Scan::NeedInput => {
                if next < text.len() {
                    lexer.push_input(vec![text[next]]);
                    next += 1;
                } else {
                    lexer.close_input();
                }
            }
            Scan::End => break,
            r => got.push((r, lexer.yystr_bytes(), lexer.yylloc())),
        }
    }
    assert_eq!(got, expected);
}

#[test]
fn step_hands_illegal_characters_to_the_callback() {
    let mut lexer = Lexer::new(&small_lexer(with_callback()), vec![b"?\n!a".to_vec()]);
    assert_eq!(
        lexer.next_step::<u8>(Event::Start),
        Command::RunCallback { ch: '?', line: 1, character: 1 }
    );
    // The newline rule's action yields nothing; the call goes on.
    assert_eq!(lexer.next_step::<u8>(Event::CallbackDone), Command::RunAction { id: 4 });
    assert_eq!(
        lexer.next_step::<u8>(Event::ActionDone(None)),
        Command::RunCallback { ch: '!', line: 2, character: 1 }
    );
    assert_eq!(lexer.next_step::<u8>(Event::CallbackDone), Command::RunAction { id: 1 });
    assert_eq!(lexer.yylloc(), (2, 2));
    assert_eq!(lexer.next_step(Event::ActionDone(Some(7u8))), Command::Yield(7));
    assert_eq!(lexer.next_step::<u8>(Event::Start), Command::Finish);
}

#[test]
fn step_reports_illegal_character_without_callback() {
    let mut lexer = Lexer::new(&small_lexer(None), vec![b"a?".to_vec()]);
    assert_eq!(lexer.next_step::<u8>(Event::Start), Command::RunAction { id: 1 });
    assert_eq!(
        lexer.next_step::<u8>(Event::ActionDone(None)),
        Command::Illegal { ch: '?', line: 1, character: 2 }
    );
}

#[test]
fn step_reports_undecodable_bytes() {
    let mut lexer = Lexer::new(&small_lexer(with_callback()), vec![vec![0xFF, b'a']]);
    assert_eq!(lexer.next_step::<u8>(Event::Start), Command::Undecodable);
}

#[test]
fn step_reads_input_when_needed() {
    let mut lexer = Lexer::streaming(&small_lexer(None));
    assert_eq!(lexer.next_step::<u8>(Event::Start), Command::ReadInput);
    lexer.push_input(b"a".to_vec());
    // "a" may still grow into "ab".
    assert_eq!(lexer.next_step::<u8>(Event::InputRead), Command::ReadInput);
    lexer.push_input(b"b1".to_vec());
    assert_eq!(lexer.next_step::<u8>(Event::InputRead), Command::RunAction { id: 2 });
    assert_eq!(lexer.yystr_bytes(), b"ab".to_vec());
    assert_eq!(lexer.next_step::<u8>(Event::ActionDone(None)), Command::ReadInput);
    lexer.close_input();
    assert_eq!(lexer.next_step::<u8>(Event::InputRead), Command::RunAction { id: 3 });
    assert_eq!(lexer.yystr_bytes(), b"1".to_vec());
    assert_eq!(lexer.next_step::<u8>(Event::ActionDone(None)), Command::Finish);
}
