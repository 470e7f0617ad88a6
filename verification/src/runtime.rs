//! The lexer that the generated code runs: table lookups, the longest-match
//! scan of one lexeme, the default action for illegal characters, start
//! conditions, and access to the current lexeme and its location.
use vstd::prelude::*;
use vstd::string::StrSliceExecFns;
use vstd::utf8::{decode_utf8, valid_utf8};
use crate::def::{accept_ids, condition_states, tables_wf, trans_rows, LexerDef};
use crate::generate::{accepting_table, transition_table};
use crate::input::{
    bytes_between, chunks, flatten, getchar, lemma_offset_bound, lemma_pos_le_offset, offset,
    pos_le, valid_pos, Pos,
};
use crate::text::string_from_utf8;

verus! {

/// Number of bytes of the UTF-8 sequence that starts with `b`, as the
/// generated lexer estimates it from the leading byte alone.
pub open spec fn spec_char_len(b: u8) -> u8 {
    if b < 0xC2 {
        1
    } else if b < 0xE0 {
        2
    } else if b < 0xF0 {
        3
    } else {
        4
    }
}

/// Length of the UTF-8 encoded character that starts with byte `i`.
pub fn unicode_char_len(i: u8) -> (r: u8)
    ensures
        r == spec_char_len(i),
        1 <= r <= 4,
{
    if i < 0xC2 {
        1
    } else if i < 0xE0 {
        2
    } else if i < 0xF0 {
        3
    } else {
        4
    }
}

/// A line and a character column, both counted from 1.
#[derive(Clone, Copy, PartialEq, Eq, Structural, Debug)]
pub struct Location {
    pub line: u64,
    pub character: u64,
}

/// What one scan of the lexer found.
#[derive(PartialEq, Eq, Debug)]
pub enum Scan {
    /// The input is exhausted: the iterator yields no more tokens.
    End,
    /// The longest match accepts action `id`, which the caller runs next.
    Action { id: usize },
    /// The last matching action has no arm of its own: the wildcard arm runs
    /// the default action on the character at the start of the lexeme.
    NoMatch,
    /// The input is still open and the scan needs bytes that have not been
    /// read yet; nothing changed.
    NeedInput,
}

/// What the caller of `Lexer::next_step` reports: the work it did since the
/// last step, or the start of a call of the iterator.
#[derive(PartialEq, Eq, Debug)]
pub enum Event<T> {
    /// A call of the iterator's `next` begins.
    Start,
    /// After `ReadInput`, the next chunk was pushed or the input was closed.
    InputRead,
    /// After `RunAction`, the user action returned this.
    ActionDone(Option<T>),
    /// After `RunCallback`, the callback returned.
    CallbackDone,
}

/// What `Lexer::next_step` asks its caller to do next.
#[derive(PartialEq, Eq, Debug)]
pub enum Command<T> {
    /// Read the next chunk of input and push it, or close the input at its end.
    ReadInput,
    /// Run user action `id` on the lexer.
    RunAction { id: usize },
    /// Hand the illegal character `ch` and the location to the callback; the
    /// default action has already moved the lexer past it.
    RunCallback { ch: char, line: u64, character: u64 },
    /// The character `ch` at `line:character` is illegal and the lexer has no
    /// callback: the iterator fails.
    Illegal { ch: char, line: u64, character: u64 },
    /// The bytes at the start of the lexeme are no valid UTF-8 character: the
    /// iterator fails.
    Undecodable,
    /// `next` returns this token.
    Yield(T),
    /// `next` returns nothing: the input is exhausted.
    Finish,
}

/// The tables that a lexer runs on.
pub struct TableView {
    pub trans: Seq<Seq<usize>>,
    pub acc: Seq<usize>,
    pub n_actions: int,
    pub has_callback: bool,
}

/// The observable state of a lexer, with positions as offsets into its whole
/// input: the current lexeme is `tok..pos`, `line`/`col` is where it starts and
/// `pos_line`/`pos_col` is where it ends; `state` is the start state of the
/// current condition and `skip` counts UTF-8 continuation bytes still to skip.
pub struct LexState {
    pub tok: int,
    pub pos: int,
    pub line: int,
    pub col: int,
    pub pos_line: int,
    pub pos_col: int,
    pub state: int,
    pub skip: int,
}

/// The variables of the longest-match loop: the automaton state, the read
/// position and its location, the pending continuation bytes, and the last
/// accepted action with the position and location just after it.
pub struct ScanState {
    pub cur: int,
    pub pos: int,
    pub skip: int,
    pub line: int,
    pub col: int,
    pub last: int,
    pub adv: int,
    pub adv_line: int,
    pub adv_col: int,
    /// An accepting step wanted continuation bytes past the end of the input.
    pub cut: bool,
}

/// One step of the longest-match loop on byte `b`. A continuation byte of a
/// multi-byte character leaves the automaton where it is; an accepting step
/// swallows the rest of the current character and records the match.
pub open spec fn scan_step(t: TableView, len: int, b: u8, st: ScanState) -> ScanState {
    let p1 = st.pos + 1;
    if st.skip == 0 {
        let ns = t.trans[st.cur][b as int] as int;
        let a = t.acc[ns] as int;
        let nl = b == 10u8;
        let line1 = if nl {
            st.line + 1
        } else {
            st.line
        };
        let col1 = if nl {
            1
        } else {
            st.col + 1
        };
        let skip1 = if nl {
            0
        } else {
            spec_char_len(b) - 1
        };
        if a != 0 {
            let p2 = if p1 + skip1 <= len {
                p1 + skip1
            } else {
                len
            };
            ScanState {
                cur: ns,
                pos: p2,
                skip: 0,
                line: line1,
                col: col1,
                last: a,
                adv: p2,
                adv_line: line1,
                adv_col: col1,
                cut: st.cut || p1 + skip1 > len,
            }
        } else {
            ScanState {
                cur: ns,
                pos: p1,
                skip: skip1,
                line: line1,
                col: col1,
                last: st.last,
                adv: st.adv,
                adv_line: st.adv_line,
                adv_col: st.adv_col,
                cut: st.cut,
            }
        }
    } else {
        ScanState {
            cur: st.cur,
            pos: p1,
            skip: st.skip - 1,
            line: st.line,
            col: st.col,
            last: st.last,
            adv: st.adv,
            adv_line: st.adv_line,
            adv_col: st.adv_col,
            cut: st.cut,
        }
    }
}

/// The longest-match loop from `st` on input `s` for a lexeme that starts at
/// `tok`: it runs until the automaton dies or the input ends. `None` when the
/// input ends before the lexeme has its first byte.
pub open spec fn scan_loop(t: TableView, s: Seq<u8>, tok: int, st: ScanState) -> Option<ScanState>
    decreases s.len() - st.pos,
{
    if st.cur == 0 {
        Some(st)
    } else if st.pos < 0 || st.pos >= s.len() {
        if st.pos == tok {
            None
        } else {
            Some(st)
        }
    } else {
        scan_loop(t, s, tok, scan_step(t, s.len() as int, s[st.pos], st))
    }
}

/// The loop variables when a scan starts in state `v`.
pub open spec fn scan_start(v: LexState, fresh: bool) -> ScanState {
    ScanState {
        cur: v.state,
        pos: v.pos,
        skip: if fresh {
            0
        } else {
            v.skip
        },
        line: v.pos_line,
        col: v.pos_col,
        last: 0,
        adv: v.pos,
        adv_line: v.pos_line,
        adv_col: v.pos_col,
        cut: false,
    }
}

/// The character that starts at `tok`: `None` when the bytes there, as many
/// as the leading byte announces, are missing or no valid UTF-8.
pub open spec fn illegal_char_spec(s: Seq<u8>, tok: int) -> Option<char> {
    if 0 <= tok < s.len() {
        let n = spec_char_len(s[tok]) as int;
        let bytes = s.subrange(tok, tok + n);
        if tok + n <= s.len() && valid_utf8(bytes) {
            Some(decode_utf8(bytes)[0])
        } else {
            None
        }
    } else {
        None
    }
}

/// The state after the default action on the character `ch` at `v.tok`: the
/// location moves past `ch`, and the lexer moves one byte on.
pub open spec fn default_state(v: LexState, ch: char) -> LexState {
    let nl = ch == '\n';
    LexState {
        pos: v.tok + 1,
        pos_line: if nl {
            v.pos_line + 1
        } else {
            v.pos_line
        },
        pos_col: if nl {
            1
        } else {
            v.pos_col + 1
        },
        ..v
    }
}

/// One scan from state `v` on input `s`: the longest match from the current
/// position, and whether its action has an arm.
pub open spec fn scan_spec(t: TableView, s: Seq<u8>, v: LexState, fresh: bool) -> (Scan, LexState) {
    let init = scan_start(v, fresh);
    match scan_loop(t, s, v.pos, init) {
        None => (
            Scan::End,
            LexState {
                tok: v.pos,
                pos: v.pos,
                line: v.pos_line,
                col: v.pos_col,
                pos_line: v.pos_line,
                pos_col: v.pos_col,
                state: v.state,
                skip: init.skip,
            },
        ),
        Some(f) => {
            let after = LexState {
                tok: v.pos,
                pos: f.adv,
                line: v.pos_line,
                col: v.pos_col,
                pos_line: f.adv_line,
                pos_col: f.adv_col,
                state: v.state,
                skip: f.skip,
            };
            if f.last != 0 && f.last < t.n_actions {
                (Scan::Action { id: f.last as usize }, after)
            } else {
                (Scan::NoMatch, after)
            }
        },
    }
}

/// Every action that a state accepts has an arm of its own in the action
/// match, so the wildcard arm only ever runs when no prefix is accepted.
pub open spec fn arms_for_all(t: TableView) -> bool {
    forall|s: int| 0 <= s < t.acc.len() ==> #[trigger] t.acc[s] < t.n_actions
}

/// The largest input of a lexer whose automaton accepts an action without an
/// arm: there the default action can make the line and column counters count
/// bytes again, and this bound keeps them within `u64`.
pub const MAX_INPUT: u64 = 0xFFFF_FFFE;

/// The counters have room to count one more character: without recounting,
/// or with at most `len` recounted bytes for each of `p` bytes when `len` is
/// within `MAX_INPUT`.
pub proof fn lemma_counter_room(len: int, p: int, d: int, arms: bool)
    requires
        0 <= p <= len,
        len + 3 <= u64::MAX,
        arms ==> d == 0,
        !arms ==> len <= MAX_INPUT && 0 <= d <= p * len,
    ensures
        d + len + 3 <= u64::MAX,
{
    if !arms {
        assert(p * len <= len * len) by (nonlinear_arith)
            requires
                0 <= p <= len,
        ;
        assert(len * len <= 0xFFFF_FFFE * 0xFFFF_FFFE) by (nonlinear_arith)
            requires
                0 <= len <= 0xFFFF_FFFE,
        ;
    }
}

/// Whether a scan from `v` on input `s` depends on bytes after `s`: it reads
/// to the end of `s` with the automaton still alive, or an accepted character
/// runs past the end, or no action is found and the character for the default
/// action runs past the end.
pub open spec fn needs_input(t: TableView, s: Seq<u8>, v: LexState, fresh: bool) -> bool {
    match scan_loop(t, s, v.pos, scan_start(v, fresh)) {
        None => true,
        Some(f) => f.cur != 0 || f.cut || ((f.last == 0 || f.last >= t.n_actions) && v.pos
            + spec_char_len(s[v.pos]) > s.len()),
    }
}

/// One step of the iterator's `next` from state `v`, with `cont` telling
/// whether a scan of the current call has run: the command, the state after
/// it, and whether a scan of the call has run after it. A token returned by
/// an action ends the call; otherwise the lexer scans on, afresh only at the
/// start of a call, and turns what the scan found into the next command.
pub open spec fn next_spec<T>(
    t: TableView,
    s: Seq<u8>,
    open: bool,
    v: LexState,
    cont: bool,
    ev: Event<T>,
) -> (Command<T>, LexState, bool) {
    match ev {
        Event::ActionDone(Some(token)) => (Command::Yield(token), v, cont),
        _ => {
            let fresh = match ev {
                Event::Start => true,
                Event::InputRead => !cont,
                _ => false,
            };
            if open && needs_input(t, s, v, fresh) {
                (Command::ReadInput, v, !fresh)
            } else {
                let (sc, w) = scan_spec(t, s, v, fresh);
                match sc {
                    Scan::Action { id } => (Command::RunAction { id }, w, true),
                    Scan::NoMatch => match illegal_char_spec(s, w.tok) {
                        None => (Command::Undecodable, w, true),
                        Some(ch) => if t.has_callback {
                            (
                                Command::RunCallback {
                                    ch,
                                    line: w.pos_line as u64,
                                    character: w.pos_col as u64,
                                },
                                default_state(w, ch),
                                true,
                            )
                        } else {
                            (
                                Command::Illegal {
                                    ch,
                                    line: w.line as u64,
                                    character: w.col as u64,
                                },
                                w,
                                true,
                            )
                        },
                    },
                    _ => (Command::Finish, w, true),
                }
            }
        },
    }
}

/// A location that counts at most `off` characters after line 1, column 1.
pub open spec fn loc_ok(l: Location, off: int) -> bool {
    &&& 1 <= l.line
    &&& 1 <= l.character
    &&& l.line + l.character <= 2 + off
}

/// A running lexer over chunked input.
pub struct Lexer {
    inp: Vec<Vec<u8>>,
    tok: Pos,
    pos: Pos,
    location: Location,
    pos_location: Location,
    state: usize,
    unicode_skip: u8,
    follow: Vec<Vec<usize>>,
    accepting: Vec<usize>,
    conditions: Vec<usize>,
    n_actions: usize,
    has_callback: bool,
    /// Characters that the location has counted beyond the position: the
    /// default action after a match without an arm moves the position back
    /// to the start of the lexeme but keeps the location of its end.
    drift: Ghost<int>,
    /// A scan ran and no default action since.
    scanned: Ghost<bool>,
    /// No more input will come.
    closed: bool,
    /// A scan of the current call of the iterator has run, so the next scan
    /// of that call keeps the pending continuation bytes.
    continuing: bool,
}

impl View for Lexer {
    type V = LexState;

    closed spec fn view(&self) -> LexState {
        let sq = chunks(&self.inp);
        LexState {
            tok: offset(sq, self.tok),
            pos: offset(sq, self.pos),
            line: self.location.line as int,
            col: self.location.character as int,
            pos_line: self.pos_location.line as int,
            pos_col: self.pos_location.character as int,
            state: self.state as int,
            skip: self.unicode_skip as int,
        }
    }
}

impl Lexer {
    /// The whole input, all chunks concatenated.
    pub closed spec fn input(&self) -> Seq<u8> {
        flatten(chunks(&self.inp))
    }

    /// The tables the lexer runs on.
    pub closed spec fn tables(&self) -> TableView {
        TableView {
            trans: self.follow@.map_values(|row: Vec<usize>| row@),
            acc: self.accepting@,
            n_actions: self.n_actions as int,
            has_callback: self.has_callback,
        }
    }

    /// The start state of each condition.
    pub closed spec fn conditions(&self) -> Seq<usize> {
        self.conditions@
    }

    /// The last scan found no action with an arm, and no default action ran
    /// since: the default action may run.
    pub closed spec fn after_scan(&self) -> bool {
        self.scanned@
    }

    /// A scan of the current call of the iterator has run: `next_step` scans
    /// on without forgetting pending continuation bytes.
    pub closed spec fn continuing(&self) -> bool {
        self.continuing
    }

    /// The invariant of a lexer.
    pub closed spec fn wf(&self) -> bool {
        let sq = chunks(&self.inp);
        let t = self.tables();
        &&& valid_pos(sq, self.tok)
        &&& valid_pos(sq, self.pos)
        &&& pos_le(self.tok, self.pos)
        &&& flatten(sq).len() + 3 <= u64::MAX
        &&& !arms_for_all(t) ==> flatten(sq).len() <= MAX_INPUT
        &&& arms_for_all(t) ==> self.drift@ == 0
        &&& 0 <= self.drift@ <= offset(sq, self.pos) * flatten(sq).len()
        &&& self.scanned@ ==> self.drift@ <= offset(sq, self.tok) * flatten(sq).len()
        &&& self.scanned@ && arms_for_all(t) ==> self.pos == self.tok
        &&& loc_ok(self.location, offset(sq, self.tok) + self.drift@)
        &&& loc_ok(self.pos_location, offset(sq, self.pos) + self.drift@)
        &&& tables_wf(t.trans, t.acc)
        &&& 0 < self.state < t.trans.len()
        &&& forall|c: int|
            0 <= c < self.conditions@.len() ==> 0 < #[trigger] self.conditions@[c]
                < t.trans.len()
        &&& self.unicode_skip <= 3
    }

    /// What the invariant tells of the view.
    pub proof fn lemma_wf(&self)
        requires
            self.wf(),
        ensures
            0 <= self@.tok <= self@.pos <= self.input().len(),
            self.input().len() + 3 <= u64::MAX,
            !arms_for_all(self.tables()) ==> self.input().len() <= MAX_INPUT,
            tables_wf(self.tables().trans, self.tables().acc),
            0 < self@.state < self.tables().trans.len(),
            forall|c: int|
                0 <= c < self.conditions().len() ==> 0 < #[trigger] self.conditions()[c]
                    < self.tables().trans.len(),
            0 <= self@.skip <= 3,
            1 <= self@.line,
            1 <= self@.col,
            1 <= self@.pos_line,
            1 <= self@.pos_col,
    {
        let sq = chunks(&self.inp);
        lemma_pos_le_offset(sq, self.tok, self.pos);
        lemma_offset_bound(sq, self.tok);
        lemma_offset_bound(sq, self.pos);
    }

    /// Creates the lexer that `lex` describes, reading the given chunks of
    /// input, in its initial condition.
    pub fn new(lex: &LexerDef, input: Vec<Vec<u8>>) -> (r: Lexer)
        requires
            lex.runnable(),
            flatten(chunks(&input)).len() + 3 <= u64::MAX,
            lex.every_action_has_arm() || flatten(chunks(&input)).len() <= MAX_INPUT,
        ensures
            r.wf(),
            !r.after_scan(),
            !r.continuing(),
            !r.input_open(),
            r.input() == flatten(chunks(&input)),
            r.tables() == (TableView {
                trans: trans_rows(&lex.auto),
                acc: accept_ids(&lex.auto),
                n_actions: lex.actions.len() as int,
                has_callback: lex.callback is Some,
            }),
            r.conditions() == condition_states(lex.conditions@),
            r@ == (LexState {
                tok: 0,
                pos: 0,
                line: 1,
                col: 1,
                pos_line: 1,
                pos_col: 1,
                state: lex.conditions@[0].state as int,
                skip: 0,
            }),
    {
        let ghost given = flatten(chunks(&input));
        let mut inp = input;
        if inp.len() == 0 {
            inp.push(Vec::new());
            assert(chunks(&inp).drop_last() =~= Seq::<Seq<u8>>::empty());
            assert(flatten(Seq::<Seq<u8>>::empty()) =~= Seq::<u8>::empty());
            assert(flatten(chunks(&inp)) =~= given);
        }
        let follow = transition_table(&lex.auto);
        let accepting = accepting_table(&lex.auto);
        let mut conditions: Vec<usize> = Vec::new();
        for k in 0..lex.conditions.len()
            invariant
                conditions@.len() == k,
                forall|j: int| 0 <= j < k ==> #[trigger] conditions@[j] == lex.conditions@[j].state,
        {
            conditions.push(lex.conditions[k].state);
        }
        assert(conditions@ =~= condition_states(lex.conditions@));
        let has_callback = match &lex.callback {
            Some(_) => true,
            None => false,
        };
        let start = Pos { buf: 0, off: 0 };
        let loc = Location { line: 1, character: 1 };
        let r = Lexer {
            inp,
            tok: start,
            pos: start,
            location: loc,
            pos_location: loc,
            state: lex.conditions[0].state,
            unicode_skip: 0,
            follow,
            accepting,
            conditions,
            n_actions: lex.actions.len(),
            has_callback,
            drift: Ghost(0),
            scanned: Ghost(false),
            closed: true,
            continuing: false,
        };
        assert(chunks(&r.inp).take(0) =~= Seq::<Seq<u8>>::empty());
        assert(condition_states(lex.conditions@)[0] == lex.conditions@[0].state);
        r
    }

    /// Creates the lexer that `lex` describes, in its initial condition, with
    /// no input yet and more to come through `push_input`.
    pub fn streaming(lex: &LexerDef) -> (r: Lexer)
        requires
            lex.runnable(),
        ensures
            r.wf(),
            !r.after_scan(),
            !r.continuing(),
            r.input_open(),
            r.input() == Seq::<u8>::empty(),
            r.tables() == (TableView {
                trans: trans_rows(&lex.auto),
                acc: accept_ids(&lex.auto),
                n_actions: lex.actions.len() as int,
                has_callback: lex.callback is Some,
            }),
            r.conditions() == condition_states(lex.conditions@),
            r@ == (LexState {
                tok: 0,
                pos: 0,
                line: 1,
                col: 1,
                pos_line: 1,
                pos_col: 1,
                state: lex.conditions@[0].state as int,
                skip: 0,
            }),
    {
        let none: Vec<Vec<u8>> = Vec::new();
        assert(chunks(&none) =~= Seq::<Seq<u8>>::empty());
        let mut r = Lexer::new(lex, none);
        r.closed = false;
        r
    }

    /// Appends the next chunk read from the input.
    pub fn push_input(&mut self, chunk: Vec<u8>)
        requires
            old(self).wf(),
            old(self).input_open(),
            old(self).input().len() + chunk@.len() + 3 <= u64::MAX,
            arms_for_all(old(self).tables()) || old(self).input().len() + chunk@.len()
                <= MAX_INPUT,
        ensures
            final(self).wf(),
            final(self).input_open(),
            final(self).input() == old(self).input() + chunk@,
            final(self)@ == old(self)@,
            final(self).tables() == old(self).tables(),
            final(self).conditions() == old(self).conditions(),
            final(self).after_scan() == old(self).after_scan(),
            final(self).continuing() == old(self).continuing(),
    {
        let ghost sq = chunks(&self.inp);
        let ghost old_len = flatten(sq).len();
        let ghost c = chunk@;
        let ghost tp = self.tok;
        let ghost pp = self.pos;
        proof {
            lemma_pos_le_offset(sq, self.tok, self.pos);
            lemma_offset_bound(sq, self.pos);
        }
        self.inp.push(chunk);
        let ghost sq2 = chunks(&self.inp);
        assert(sq2 =~= sq.push(c));
        assert(sq2.drop_last() =~= sq);
        assert(sq2.take(tp.buf as int) =~= sq.take(tp.buf as int));
        assert(sq2.take(pp.buf as int) =~= sq.take(pp.buf as int));
        assert(offset(sq2, tp) == offset(sq, tp));
        assert(offset(sq2, pp) == offset(sq, pp));
        let ghost new_len = flatten(sq2).len();
        assert(new_len == old_len + c.len());
        proof {
            let p = offset(sq, pp);
            let t = offset(sq, tp);
            assert(p * old_len <= p * new_len) by (nonlinear_arith)
                requires
                    0 <= p,
                    old_len <= new_len,
            ;
            assert(t * old_len <= t * new_len) by (nonlinear_arith)
                requires
                    0 <= t,
                    old_len <= new_len,
            ;
        }
    }

    /// Marks the input complete: no more chunks will come.
    pub fn close_input(&mut self)
        requires
            old(self).wf(),
        ensures
            final(self).wf(),
            !final(self).input_open(),
            final(self).input() == old(self).input(),
            final(self)@ == old(self)@,
            final(self).tables() == old(self).tables(),
            final(self).conditions() == old(self).conditions(),
            final(self).after_scan() == old(self).after_scan(),
            final(self).continuing() == old(self).continuing(),
    {
        self.closed = true;
    }

    /// The transition of the automaton from `current_state` on byte `symbol`.
    pub fn follow(&self, current_state: usize, symbol: usize) -> (r: usize)
        requires
            self.wf(),
            current_state < self.tables().trans.len(),
            symbol < 256,
        ensures
            r == self.tables().trans[current_state as int][symbol as int],
    {
        assert(self.tables().trans[current_state as int].len() == 256);
        self.follow[current_state][symbol]
    }

    /// The action that `state` accepts, 0 for none.
    pub fn accepting(&self, state: usize) -> (r: usize)
        requires
            self.wf(),
            state < self.tables().trans.len(),
        ensures
            r == self.tables().acc[state as int],
    {
        self.accepting[state]
    }

    /// Whether the lexer has a callback for illegal characters.
    pub fn has_callback(&self) -> (r: bool)
        ensures
            r == self.tables().has_callback,
    {
        self.has_callback
    }

    /// Switches to start condition number `cond`.
    pub fn begin(&mut self, cond: usize)
        requires
            old(self).wf(),
            cond < old(self).conditions().len(),
        ensures
            final(self).wf(),
            final(self).input() == old(self).input(),
            final(self).tables() == old(self).tables(),
            final(self).conditions() == old(self).conditions(),
            final(self).input_open() == old(self).input_open(),
            final(self).after_scan() == old(self).after_scan(),
            final(self).continuing() == old(self).continuing(),
            final(self)@ == (LexState { state: old(self).conditions()[cond as int] as int, ..old(self)@ }),
    {
        self.state = self.conditions[cond];
    }

    /// Line and column at which the current lexeme starts.
    pub fn yylloc(&self) -> (r: (u64, u64))
        ensures
            r.0 == self@.line,
            r.1 == self@.col,
    {
        (self.location.line, self.location.character)
    }

    /// The loop variables of a scan in progress.
    closed spec fn scan_vars(
        &self,
        cur: usize,
        last: usize,
        adv: Pos,
        adv_loc: Location,
        cut: bool,
    ) -> ScanState {
        let sq = chunks(&self.inp);
        ScanState {
            cur: cur as int,
            pos: offset(sq, self.pos),
            skip: self.unicode_skip as int,
            line: self.pos_location.line as int,
            col: self.pos_location.character as int,
            last: last as int,
            adv: offset(sq, adv),
            adv_line: adv_loc.line as int,
            adv_col: adv_loc.character as int,
            cut,
        }
    }

    /// Scans the input held for the next lexeme, as `scan` on closed input,
    /// and tells whether the result depends on bytes after the input held.
    fn scan_held(&mut self, fresh: bool) -> (r: (Scan, bool))
        requires
            old(self).wf(),
        ensures
            final(self).wf(),
            final(self).inp == old(self).inp,
            final(self).follow == old(self).follow,
            final(self).accepting == old(self).accepting,
            final(self).conditions == old(self).conditions,
            final(self).n_actions == old(self).n_actions,
            final(self).has_callback == old(self).has_callback,
            final(self).state == old(self).state,
            final(self).drift == old(self).drift,
            final(self).closed == old(self).closed,
            final(self).continuing == old(self).continuing,
            final(self).after_scan() == (r.0 is NoMatch),
            (r.0, final(self)@) == scan_spec(old(self).tables(), old(self).input(), old(self)@, fresh),
            r.1 == needs_input(old(self).tables(), old(self).input(), old(self)@, fresh),
    {
        let ghost t = self.tables();
        let ghost sq = chunks(&self.inp);
        let ghost s = self.input();
        let ghost v = self@;
        let ghost d = self.drift@;
        proof {
            lemma_offset_bound(sq, self.pos);
            lemma_counter_room(s.len() as int, offset(sq, self.pos), d, arms_for_all(t));
        }
        if fresh {
            self.unicode_skip = 0;
        }
        self.tok = self.pos;
        self.location = self.pos_location;
        let mut advance = self.pos;
        let mut advance_location = self.pos_location;
        let mut last: usize = 0;
        let mut cur: usize = self.state;
        let mut cut = false;
        let ghost tok = offset(sq, self.tok);
        let ghost init = scan_start(v, fresh);
        let ghost skip0 = self.unicode_skip;
        proof {
            lemma_offset_bound(sq, self.pos);
        }
        assert(self.scan_vars(cur, last, advance, advance_location, cut) == init);
        loop
            invariant
                sq == chunks(&self.inp),
                s == flatten(sq),
                t == self.tables(),
                self.input() == s,
                s == old(self).input(),
                t == old(self).tables(),
                self.conditions() == old(self).conditions(),
                self.state == old(self).state,
                self.n_actions == old(self).n_actions,
                self.has_callback == old(self).has_callback,
                self.inp == old(self).inp,
                self.follow == old(self).follow,
                self.accepting == old(self).accepting,
                self.conditions == old(self).conditions,
                self.closed == old(self).closed,
                self.continuing == old(self).continuing,
                self.drift == old(self).drift,
                tables_wf(t.trans, t.acc),
                forall|c: int|
                    0 <= c < self.conditions@.len() ==> 0 < #[trigger] self.conditions@[c]
                        < t.trans.len(),
                0 < self.state < t.trans.len(),
                cur < t.trans.len(),
                d == self.drift@,
                arms_for_all(t) ==> last < t.n_actions,
                arms_for_all(t) ==> d == 0,
                !arms_for_all(t) ==> s.len() <= MAX_INPUT,
                s.len() + 3 <= u64::MAX,
                0 <= d <= tok * s.len(),
                d + s.len() + 3 <= u64::MAX,
                valid_pos(sq, self.tok),
                valid_pos(sq, self.pos),
                valid_pos(sq, advance),
                pos_le(self.tok, self.pos),
                pos_le(self.tok, advance),
                offset(sq, self.tok) == tok,
                tok == v.pos,
                v == old(self)@,
                init == scan_start(v, fresh),
                self.location == old(self).pos_location,
                loc_ok(self.location, tok + d),
                loc_ok(self.pos_location, offset(sq, self.pos) + d),
                loc_ok(advance_location, offset(sq, advance) + d),
                self.unicode_skip <= 3,
                self.pos == self.tok || tok < offset(sq, self.pos),
                self.pos == self.tok ==> cur == self.state && self.pos_location == self.location
                    && self.unicode_skip == skip0,
                last == 0 ==> advance == self.tok && advance_location == self.location,
                skip0 == init.skip,
                scan_loop(t, s, tok, self.scan_vars(cur, last, advance, advance_location, cut))
                    == scan_loop(t, s, tok, init),
            ensures
                self.pos != self.tok,
                cur == 0 || offset(sq, self.pos) == s.len(),
                scan_loop(t, s, tok, init) == Some(
                    self.scan_vars(cur, last, advance, advance_location, cut),
                ),
            decreases s.len() - offset(sq, self.pos),
        {
            if cur == 0 {
                break ;
            }
            proof {
                lemma_offset_bound(sq, self.pos);
            }
            match getchar(&self.inp, self.pos) {
                None => {
                    if self.pos == self.tok {
                        self.scanned = Ghost(false);
                        return (Scan::End, true);
                    }
                    break ;
                },
                Some((i, np)) => {
                    let ghost before = self.scan_vars(cur, last, advance, advance_location, cut);
                    let ghost nxt = scan_step(t, s.len() as int, i, before);
                    let ghost p1 = offset(sq, np);
                    self.pos = np;
                    let mut new_st = cur;
                    let mut action_id: usize = 0;
                    if self.unicode_skip == 0 {
                        assert(t.trans[cur as int].len() == 256);
                        new_st = self.follow[cur][i as usize];
                        assert(new_st < t.trans.len());
                        action_id = self.accepting[new_st];
                        if i == 10 {
                            self.pos_location = Location {
                                line: self.pos_location.line + 1,
                                character: 1,
                            };
                        } else {
                            self.pos_location = Location {
                                line: self.pos_location.line,
                                character: self.pos_location.character + 1,
                            };
                            self.unicode_skip = unicode_char_len(i) - 1;
                        }
                    } else {
                        self.unicode_skip = self.unicode_skip - 1;
                    }
                    let ghost skip1 = self.unicode_skip;
                    let ghost snap = *self;
                    let ghost cut0 = cut;
                    if action_id != 0 {
                        while self.unicode_skip > 0
                            invariant
                                self.inp == snap.inp,
                                self.tok == snap.tok,
                                self.location == snap.location,
                                self.pos_location == snap.pos_location,
                                self.state == snap.state,
                                self.follow == snap.follow,
                                self.accepting == snap.accepting,
                                self.conditions == snap.conditions,
                                self.n_actions == snap.n_actions,
                                self.has_callback == snap.has_callback,
                                self.drift == snap.drift,
                                self.scanned == snap.scanned,
                                self.closed == snap.closed,
                                self.continuing == snap.continuing,
                                cut == (cut0 || p1 + (skip1 - self.unicode_skip) > s.len()),
                                sq == chunks(&self.inp),
                                s == flatten(sq),
                                valid_pos(sq, self.pos),
                                pos_le(self.tok, self.pos),
                                pos_le(np, self.pos),
                                self.unicode_skip <= skip1 <= 3,
                                p1 == offset(sq, np),
                                p1 <= s.len(),
                                offset(sq, self.pos) == if p1 + (skip1 - self.unicode_skip)
                                    <= s.len() {
                                    p1 + (skip1 - self.unicode_skip)
                                } else {
                                    s.len() as int
                                },
                            decreases self.unicode_skip,
                        {
                            match getchar(&self.inp, self.pos) {
                                Some((_, q)) => {
                                    self.pos = q;
                                },
                                None => {
                                    cut = true;
                                },
                            }
                            self.unicode_skip = self.unicode_skip - 1;
                        }
                        advance = self.pos;
                        advance_location = self.pos_location;
                        last = action_id;
                    }
                    cur = new_st;
                    proof {
                        lemma_offset_bound(sq, self.pos);
                        lemma_offset_bound(sq, np);
                    }
                    assert(self.scan_vars(cur, last, advance, advance_location, cut) == nxt);
                },
            }
        }
        self.pos = advance;
        self.pos_location = advance_location;
        proof {
            lemma_pos_le_offset(sq, self.tok, self.pos);
            lemma_offset_bound(sq, self.pos);
            assert(tok * s.len() <= offset(sq, self.pos) * s.len()) by (nonlinear_arith)
                requires
                    tok <= offset(sq, self.pos),
                    0 <= s.len(),
            ;
        }
        let alive = cur != 0;
        if last != 0 && last < self.n_actions {
            self.scanned = Ghost(false);
            (Scan::Action { id: last }, alive || cut)
        } else {
            self.scanned = Ghost(true);
            let complete = self.char_complete_at_tok();
            (Scan::NoMatch, alive || cut || !complete)
        }
    }

    /// Whether the input holds all the bytes of the character that starts
    /// the current lexeme, as many as its leading byte announces.
    fn char_complete_at_tok(&self) -> (r: bool)
        requires
            self.wf(),
            self@.tok < self.input().len(),
        ensures
            r == (self@.tok + spec_char_len(self.input()[self@.tok]) <= self.input().len()),
    {
        let ghost sq = chunks(&self.inp);
        let ghost s = self.input();
        let ghost tok = offset(sq, self.tok);
        let (c0, p1) = match getchar(&self.inp, self.tok) {
            Some(x) => x,
            None => {
                assert(false);
                return false;
            },
        };
        let n = unicode_char_len(c0);
        let mut len = n;
        let mut p = p1;
        assert(c0 == s[tok]);
        while len > 1
            invariant
                sq == chunks(&self.inp),
                s == flatten(sq),
                1 <= len <= n <= 4,
                n == spec_char_len(s[tok]),
                valid_pos(sq, p),
                0 <= tok < s.len(),
                tok == self@.tok,
                s == self.input(),
                offset(sq, p) == tok + 1 + (n - len),
            decreases len,
        {
            match getchar(&self.inp, p) {
                Some((_, q)) => {
                    p = q;
                    len = len - 1;
                },
                None => {
                    assert(offset(sq, p) == s.len());
                    assert(tok + n > s.len());
                    return false;
                },
            }
        }
        proof {
            lemma_offset_bound(sq, p);
        }
        true
    }

    /// Whether more input may still come.
    pub closed spec fn input_open(&self) -> bool {
        !self.closed
    }

    /// Scans the next lexeme: runs the automaton from the current position for
    /// the longest match and reports its action, or `NoMatch` when the last
    /// matching action has no arm, so that the default action runs next.
    /// `fresh` is true for the first scan of a request for the next token,
    /// which forgets any pending continuation bytes. While the input is open, a
    /// scan whose result depends on bytes not read yet answers `NeedInput`
    /// and changes nothing.
    pub fn scan(&mut self, fresh: bool) -> (r: Scan)
        requires
            old(self).wf(),
        ensures
            final(self).wf(),
            final(self).input() == old(self).input(),
            final(self).tables() == old(self).tables(),
            final(self).conditions() == old(self).conditions(),
            final(self).input_open() == old(self).input_open(),
            final(self).continuing() == old(self).continuing(),
            if old(self).input_open() && needs_input(
                old(self).tables(),
                old(self).input(),
                old(self)@,
                fresh,
            ) {
                &&& r == Scan::NeedInput
                &&& final(self)@ == old(self)@
                &&& final(self).after_scan() == old(self).after_scan()
            } else {
                &&& (r, final(self)@) == scan_spec(
                    old(self).tables(),
                    old(self).input(),
                    old(self)@,
                    fresh,
                )
                &&& final(self).after_scan() == (r is NoMatch)
            },
    {
        let tok = self.tok;
        let pos = self.pos;
        let location = self.location;
        let pos_location = self.pos_location;
        let unicode_skip = self.unicode_skip;
        let scanned = self.scanned;
        let (r, needed) = self.scan_held(fresh);
        if needed && !self.closed {
            self.tok = tok;
            self.pos = pos;
            self.location = location;
            self.pos_location = pos_location;
            self.unicode_skip = unicode_skip;
            self.scanned = scanned;
            Scan::NeedInput
        } else {
            r
        }
    }

    /// The character at the start of the current lexeme, as the default action
    /// reads it: as many bytes as its leading byte announces, decoded as UTF-8;
    /// `None` when they are missing or no valid UTF-8.
    pub fn illegal_char(&self) -> (r: Option<char>)
        requires
            self.wf(),
        ensures
            r == illegal_char_spec(self.input(), self@.tok),
    {
        let ghost sq = chunks(&self.inp);
        let ghost s = self.input();
        let ghost tok = offset(sq, self.tok);
        proof {
            lemma_offset_bound(sq, self.tok);
        }
        let (c0, p1) = match getchar(&self.inp, self.tok) {
            Some(x) => x,
            None => {
                return None;
            },
        };
        let mut bytes: Vec<u8> = Vec::new();
        bytes.push(c0);
        let n = unicode_char_len(c0);
        let mut len = n;
        let mut p = p1;
        let mut complete = true;
        assert(bytes@ =~= s.subrange(tok, tok + 1));
        while len > 1 && complete
            invariant
                sq == chunks(&self.inp),
                s == flatten(sq),
                1 <= len <= n <= 4,
                n == spec_char_len(s[tok]),
                valid_pos(sq, p),
                0 <= tok < s.len(),
                complete ==> offset(sq, p) == tok + 1 + (n - len) && bytes@ == s.subrange(
                    tok,
                    offset(sq, p),
                ),
                !complete ==> tok + n > s.len(),
            decreases len,
        {
            match getchar(&self.inp, p) {
                Some((b, q)) => {
                    bytes.push(b);
                    assert(bytes@ =~= s.subrange(tok, offset(sq, q)));
                    p = q;
                    len = len - 1;
                },
                None => {
                    complete = false;
                    len = len - 1;
                },
            }
        }
        proof {
            lemma_offset_bound(sq, p);
        }
        if !complete {
            return None;
        }
        assert(bytes@ == s.subrange(tok, tok + n));
        match string_from_utf8(bytes) {
            None => None,
            Some(text) => Some(text.as_str().get_char(0)),
        }
    }

    /// The default action of a lexer with a callback, run after a scan that
    /// found no action: the character at the start of the lexeme is illegal;
    /// the location moves past it and the lexer moves one byte on. Returns the
    /// character and the location that the callback receives.
    pub fn default_action(&mut self) -> (r: (char, (u64, u64)))
        requires
            old(self).wf(),
            old(self).after_scan(),
            old(self).tables().has_callback,
            illegal_char_spec(old(self).input(), old(self)@.tok) is Some,
        ensures
            final(self).wf(),
            !final(self).after_scan(),
            final(self).input() == old(self).input(),
            final(self).tables() == old(self).tables(),
            final(self).conditions() == old(self).conditions(),
            final(self).input_open() == old(self).input_open(),
            final(self).continuing() == old(self).continuing(),
            Some(r.0) == illegal_char_spec(old(self).input(), old(self)@.tok),
            r.1.0 == old(self)@.pos_line,
            r.1.1 == old(self)@.pos_col,
            final(self)@ == default_state(old(self)@, r.0),
    {
        let ghost sq = chunks(&self.inp);
        let ghost s = self.input();
        let ghost tok = offset(sq, self.tok);
        let ghost old_pos = offset(sq, self.pos);
        let ghost d = self.drift@;
        proof {
            lemma_pos_le_offset(sq, self.tok, self.pos);
            lemma_offset_bound(sq, self.pos);
            lemma_counter_room(s.len() as int, old_pos, d, arms_for_all(self.tables()));
        }
        let ch = match self.illegal_char() {
            Some(c) => c,
            None => {
                assert(false);
                return (' ', (0, 0));
            },
        };
        let location = self.pos_location;
        let p1 = match getchar(&self.inp, self.tok) {
            Some((_, q)) => q,
            None => {
                assert(false);
                return (' ', (0, 0));
            },
        };
        self.pos = p1;
        if ch == '\n' {
            self.pos_location = Location { line: location.line + 1, character: 1 };
        } else {
            self.pos_location = Location {
                line: location.line,
                character: location.character + 1,
            };
        }
        proof {
            assert(d + (old_pos - tok) <= (tok + 1) * s.len()) by (nonlinear_arith)
                requires
                    d <= tok * s.len(),
                    old_pos <= s.len(),
                    0 <= tok,
            ;
        }
        self.drift = Ghost(d + (old_pos - tok));
        self.scanned = Ghost(false);
        (ch, (location.line, location.character))
    }

    /// One step of the generated iterator's `next`: the decisions between the
    /// work that only the caller can do (reading input, running user actions
    /// and the callback). A call of `next` starts with `Event::Start` and
    /// hands back, after each command, the event that the work produced,
    /// until the command is `Yield` (the token that `next` returns) or
    /// `Finish` (`next` returns nothing).
    pub fn next_step<T>(&mut self, ev: Event<T>) -> (r: Command<T>)
        requires
            old(self).wf(),
        ensures
            final(self).wf(),
            final(self).input() == old(self).input(),
            final(self).tables() == old(self).tables(),
            final(self).conditions() == old(self).conditions(),
            final(self).input_open() == old(self).input_open(),
            (r, final(self)@, final(self).continuing()) == next_spec(
                old(self).tables(),
                old(self).input(),
                old(self).input_open(),
                old(self)@,
                old(self).continuing(),
                ev,
            ),
            final(self).after_scan() == if r is ReadInput || r is Yield {
                old(self).after_scan()
            } else {
                r is Illegal || r is Undecodable
            },
            r is Finish ==> final(self)@.pos == final(self).input().len() && !final(self).input_open(),
            old(self)@.pos == old(self).input().len() && !old(self).input_open() && !(ev matches Event::ActionDone(Some(_))) ==> r is Finish && final(self)@.pos == old(self)@.pos,
    {
        proof {
            self.lemma_wf();
        }
        let fresh = match ev {
            Event::ActionDone(Some(token)) => {
                return Command::Yield(token);
            },
            Event::Start => true,
            Event::InputRead => !self.continuing,
            _ => false,
        };
        let ghost t = self.tables();
        let ghost s = self.input();
        let ghost v = self@;
        proof {
            crate::laws::law_scan_progress(t, s, v, fresh);
        }
        let sc = self.scan(fresh);
        match sc {
            Scan::NeedInput => {
                self.continuing = !fresh;
                Command::ReadInput
            },
            Scan::End => {
                self.continuing = true;
                Command::Finish
            },
            Scan::Action { id } => {
                self.continuing = true;
                Command::RunAction { id }
            },
            Scan::NoMatch => {
                self.continuing = true;
                match self.illegal_char() {
                    None => Command::Undecodable,
                    Some(ch) => {
                        if self.has_callback {
                            let (c, (line, character)) = self.default_action();
                            Command::RunCallback { ch: c, line, character }
                        } else {
                            let (line, character) = self.yylloc();
                            Command::Illegal { ch, line, character }
                        }
                    },
                }
            },
        }
    }

    /// The bytes of the current lexeme.
    pub fn yystr_bytes(&self) -> (r: Vec<u8>)
        requires
            self.wf(),
        ensures
            r@ == self.input().subrange(self@.tok, self@.pos),
    {
        bytes_between(&self.inp, self.tok, self.pos)
    }

    /// The current lexeme as text.
    pub fn yystr(&self) -> (r: String)
        requires
            self.wf(),
            valid_utf8(self.input().subrange(self@.tok, self@.pos)),
        ensures
            r@ == decode_utf8(self.input().subrange(self@.tok, self@.pos)),
    {
        match string_from_utf8(self.yystr_bytes()) {
            Some(text) => text,
            None => {
                assert(false);
                String::new()
            },
        }
    }
}

} // verus!
