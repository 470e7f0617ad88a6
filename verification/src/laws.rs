//! Properties of the generated lexers that hold across scans: progress and
//! end of input, the bound on scans per token, how a call of the iterator
//! ends, action dispatch, and the longest match on input of one-byte
//! characters.
use vstd::prelude::*;
use crate::def::tables_wf;
use crate::generate::{is_action_match, selected_arm, ActionMatch, Span};
use crate::runtime::{
    default_state, illegal_char_spec, needs_input, next_spec, scan_loop, scan_spec, scan_start,
    scan_step, spec_char_len, Command, Event, LexState, Scan, ScanState, TableView,
};

verus! {

/// Bounds on where the longest-match loop can leave the last match.
pub(crate) proof fn lemma_loop_bounds(t: TableView, s: Seq<u8>, tok: int, st: ScanState)
    requires
        tables_wf(t.trans, t.acc),
        0 <= tok <= st.adv <= st.pos <= s.len(),
        0 <= st.cur < t.trans.len(),
        0 <= st.last <= usize::MAX,
        st.last == 0 ==> st.adv == tok,
        st.last != 0 ==> st.adv > tok,
    ensures
        st.pos > tok ==> scan_loop(t, s, tok, st) is Some,
        scan_loop(t, s, tok, st) matches Some(f) ==> {
            &&& tok <= f.adv <= s.len()
            &&& 0 <= f.last <= usize::MAX
            &&& f.last == 0 ==> f.adv == tok
            &&& f.last != 0 ==> f.adv > tok
        },
    decreases s.len() - st.pos,
{
    if st.cur != 0 && st.pos < s.len() {
        let b = s[st.pos];
        if st.skip == 0 {
            assert(t.trans[st.cur].len() == 256);
            assert(t.trans[st.cur][b as int] < t.trans.len());
            assert(t.acc[t.trans[st.cur][b as int] as int] <= usize::MAX);
        }
        lemma_loop_bounds(t, s, tok, scan_step(t, s.len() as int, b, st));
    }
}

/// A scan ends exactly at the end of the input. Otherwise the next lexeme
/// starts where the previous one ended; a reported action is one of the
/// lexer's actions and its lexeme is at least one byte long; when the scan
/// finds no action, a byte is there for the default action to read.
pub proof fn law_scan_progress(t: TableView, s: Seq<u8>, v: LexState, fresh: bool)
    requires
        tables_wf(t.trans, t.acc),
        0 < v.state < t.trans.len(),
        0 <= v.pos <= s.len(),
    ensures
        (scan_spec(t, s, v, fresh).0 is End) <==> v.pos == s.len(),
        scan_spec(t, s, v, fresh).1.tok == v.pos,
        scan_spec(t, s, v, fresh).1.state == v.state,
        v.pos <= scan_spec(t, s, v, fresh).1.pos <= s.len(),
        scan_spec(t, s, v, fresh).0 is End ==> scan_spec(t, s, v, fresh).1.pos == v.pos,
        scan_spec(t, s, v, fresh).0 matches Scan::Action { id } ==> 0 < id < t.n_actions && v.pos
            < scan_spec(t, s, v, fresh).1.pos,
        scan_spec(t, s, v, fresh).0 is NoMatch ==> v.pos < s.len(),
{
    let init = scan_start(v, fresh);
    lemma_loop_bounds(t, s, v.pos, init);
    if v.pos < s.len() {
        let b = s[v.pos];
        if init.skip == 0 {
            assert(t.trans[init.cur].len() == 256);
            assert(t.trans[init.cur][b as int] < t.trans.len());
            assert(t.acc[t.trans[init.cur][b as int] as int] <= usize::MAX);
        }
        let nx = scan_step(t, s.len() as int, b, init);
        lemma_loop_bounds(t, s, v.pos, nx);
        assert(scan_loop(t, s, v.pos, init) == scan_loop(t, s, v.pos, nx));
    }
}

/// One turn of the generated iterator's loop from state `v` to state `w`: a
/// step of `next` that runs a user action, or the default action and then the
/// callback, where the action or the callback may switch the condition.
pub open spec fn iteration<T>(
    t: TableView,
    s: Seq<u8>,
    open: bool,
    v: LexState,
    cont: bool,
    ev: Event<T>,
    w: LexState,
) -> bool {
    let (c, a, _) = next_spec(t, s, open, v, cont, ev);
    &&& (c is RunAction || c is RunCallback)
    &&& w == (LexState { state: w.state, ..a })
}

/// A turn of the loop moves the lexer at least one byte on.
proof fn lemma_iteration_moves<T>(
    t: TableView,
    s: Seq<u8>,
    open: bool,
    v: LexState,
    cont: bool,
    ev: Event<T>,
    w: LexState,
)
    requires
        tables_wf(t.trans, t.acc),
        0 < v.state < t.trans.len(),
        0 <= v.pos <= s.len(),
        iteration(t, s, open, v, cont, ev, w),
    ensures
        v.pos < w.pos <= s.len(),
{
    let fresh = match ev {
        Event::Start => true,
        Event::InputRead => !cont,
        _ => false,
    };
    law_scan_progress(t, s, v, fresh);
}

/// Every turn of the iterator's loop moves the lexer at least one byte on:
/// from position `p`, one call of the iterator runs at most `n - p` actions
/// or default actions on an input of `n` bytes before it returns.
pub proof fn law_iterations_bounded<T>(
    t: TableView,
    s: Seq<u8>,
    open: bool,
    vs: Seq<LexState>,
    conts: Seq<bool>,
    evs: Seq<Event<T>>,
)
    requires
        tables_wf(t.trans, t.acc),
        vs.len() == evs.len() + 1,
        conts.len() == evs.len(),
        0 <= vs[0].pos <= s.len(),
        forall|i: int| 0 <= i < vs.len() ==> 0 < #[trigger] vs[i].state < t.trans.len(),
        forall|i: int|
            0 <= i < evs.len() ==> #[trigger] iteration(t, s, open, vs[i], conts[i], evs[i], vs[i + 1]),
    ensures
        vs[0].pos + evs.len() <= vs.last().pos <= s.len(),
    decreases evs.len(),
{
    if evs.len() > 0 {
        let k = evs.len() - 1;
        let vs0 = vs.drop_last();
        let cs0 = conts.drop_last();
        let es0 = evs.drop_last();
        assert forall|i: int| 0 <= i < es0.len() implies #[trigger] iteration(
            t,
            s,
            open,
            vs0[i],
            cs0[i],
            es0[i],
            vs0[i + 1],
        ) by {
            assert(iteration(t, s, open, vs[i], conts[i], evs[i], vs[i + 1]));
        }
        assert forall|i: int| 0 <= i < vs0.len() implies 0 < #[trigger] vs0[i].state
            < t.trans.len() by {
            assert(0 < vs[i].state < t.trans.len());
        }
        law_iterations_bounded(t, s, open, vs0, cs0, es0);
        assert(vs0.last() == vs[k]);
        assert(0 < vs[k].state < t.trans.len());
        assert(iteration(t, s, open, vs[k], conts[k], evs[k], vs[k + 1]));
        lemma_iteration_moves(t, s, open, vs[k], conts[k], evs[k], vs[k + 1]);
    }
}

/// How a step of the iterator's `next` ends the call: it returns a token
/// exactly when the action just run returned one, and then that token, with
/// the lexer left as it was; it returns nothing exactly when no token came
/// back and the closed input is exhausted, and then the lexer stays at the
/// end of the input. Every other step goes on (reads input, runs an action
/// or the callback, or fails); an action it runs is the one that the scan
/// from the current state found, and the lexer is where that scan left it.
pub proof fn law_next_ends<T>(
    t: TableView,
    s: Seq<u8>,
    open: bool,
    v: LexState,
    cont: bool,
    ev: Event<T>,
)
    requires
        tables_wf(t.trans, t.acc),
        0 < v.state < t.trans.len(),
        0 <= v.pos <= s.len(),
    ensures
        (next_spec(t, s, open, v, cont, ev).0 is Yield) <==> ev matches Event::ActionDone(Some(_)),
        ev matches Event::ActionDone(Some(x)) ==> next_spec(t, s, open, v, cont, ev) == (
            Command::Yield(x),
            v,
            cont,
        ),
        (next_spec(t, s, open, v, cont, ev).0 is Finish) <==> (!(ev matches Event::ActionDone(
            Some(_),
        )) && !open && v.pos == s.len()),
        next_spec(t, s, open, v, cont, ev).0 is Finish ==> next_spec(t, s, open, v, cont, ev).1
            == (LexState { tok: v.pos, line: v.pos_line, col: v.pos_col, skip: next_spec(t, s, open, v, cont, ev).1.skip, ..v }),
        ({
            let fresh = match ev {
                Event::Start => true,
                Event::InputRead => !cont,
                _ => false,
            };
            next_spec(t, s, open, v, cont, ev).0 matches Command::RunAction { id } ==> {
                &&& !(open && needs_input(t, s, v, fresh))
                &&& scan_spec(t, s, v, fresh) == (Scan::Action { id }, next_spec(
                    t,
                    s,
                    open,
                    v,
                    cont,
                    ev,
                ).1)
            }
        }),
{
    match ev {
        Event::ActionDone(Some(_)) => {},
        _ => {
            let fresh = match ev {
                Event::Start => true,
                Event::InputRead => !cont,
                _ => false,
            };
            law_scan_progress(t, s, v, fresh);
            if v.pos == s.len() {
                assert(scan_loop(t, s, v.pos, scan_start(v, fresh)) is None);
            }
        },
    }
}

/// Once `next` has returned nothing, every later call returns nothing too,
/// without running an action or the callback: from the state that the end
/// left, any step that does not hand back a token ends again and leaves the
/// position at the end of the input.
pub proof fn law_finish_is_final<T>(
    t: TableView,
    s: Seq<u8>,
    open: bool,
    v: LexState,
    cont: bool,
    ev: Event<T>,
    cont2: bool,
    ev2: Event<T>,
)
    requires
        tables_wf(t.trans, t.acc),
        0 < v.state < t.trans.len(),
        0 <= v.pos <= s.len(),
        next_spec(t, s, open, v, cont, ev).0 is Finish,
        !(ev2 matches Event::ActionDone(Some(_))),
    ensures
        next_spec(t, s, open, next_spec(t, s, open, v, cont, ev).1, cont2, ev2).0 is Finish,
        next_spec(t, s, open, next_spec(t, s, open, v, cont, ev).1, cont2, ev2).1.pos == s.len(),
{
    law_next_ends(t, s, open, v, cont, ev);
    let w = next_spec(t, s, open, v, cont, ev).1;
    law_next_ends(t, s, open, w, cont2, ev2);
}

/// The lexeme of a scan starts where the lexer stood: at the position before
/// the scan and at its location, which `yylloc` reports. So a lexeme starts at
/// the position and location where the previous one ended.
pub proof fn law_lexeme_starts_where_lexer_stood(
    t: TableView,
    s: Seq<u8>,
    v: LexState,
    fresh: bool,
    fresh2: bool,
)
    ensures
        scan_spec(t, s, v, fresh).1.tok == v.pos,
        scan_spec(t, s, v, fresh).1.line == v.pos_line,
        scan_spec(t, s, v, fresh).1.col == v.pos_col,
        scan_spec(t, s, scan_spec(t, s, v, fresh).1, fresh2).1.tok == scan_spec(
            t,
            s,
            v,
            fresh,
        ).1.pos,
        scan_spec(t, s, scan_spec(t, s, v, fresh).1, fresh2).1.line == scan_spec(
            t,
            s,
            v,
            fresh,
        ).1.pos_line,
        scan_spec(t, s, scan_spec(t, s, v, fresh).1, fresh2).1.col == scan_spec(
            t,
            s,
            v,
            fresh,
        ).1.pos_col,
{
}

/// Skipping `a.skip` pending continuation bytes moves the read position past
/// them and changes nothing else.
proof fn lemma_skip_pending(t: TableView, s: Seq<u8>, tok: int, a: ScanState)
    requires
        a.cur != 0,
        0 <= a.pos,
        0 <= a.skip,
        a.pos + a.skip < s.len(),
    ensures
        scan_loop(t, s, tok, a) == scan_loop(
            t,
            s,
            tok,
            ScanState { pos: a.pos + a.skip, skip: 0, ..a },
        ),
    decreases a.skip,
{
    if a.skip > 0 {
        let nx = scan_step(t, s.len() as int, s[a.pos], a);
        lemma_skip_pending(t, s, tok, nx);
        assert(ScanState { pos: nx.pos + nx.skip, skip: 0, ..nx } == ScanState {
            pos: a.pos + a.skip,
            skip: 0,
            ..a
        });
    } else {
        assert(ScanState { pos: a.pos + a.skip, skip: 0, ..a } == a);
    }
}

/// Two runs of the longest-match loop that differ only in where a match
/// that has not happened yet would be recorded, and in where their lexemes
/// start, agree on everything, and on the match itself once there is one.
proof fn lemma_loop_ignores_unmatched_adv(
    t: TableView,
    s: Seq<u8>,
    tok1: int,
    tok2: int,
    a: ScanState,
    b: ScanState,
)
    requires
        0 <= tok1 <= a.pos,
        0 <= tok2 <= a.pos,
        (a.pos == tok1 || a.pos == tok2) ==> a.pos < s.len(),
        a.cur == b.cur,
        a.pos == b.pos,
        a.skip == b.skip,
        a.line == b.line,
        a.col == b.col,
        a.last == b.last,
        a.cut == b.cut,
        a.last != 0 ==> a == b,
    ensures
        scan_loop(t, s, tok1, a) is Some,
        scan_loop(t, s, tok2, b) is Some,
        scan_loop(t, s, tok1, a)->0.cur == scan_loop(t, s, tok2, b)->0.cur,
        scan_loop(t, s, tok1, a)->0.pos == scan_loop(t, s, tok2, b)->0.pos,
        scan_loop(t, s, tok1, a)->0.skip == scan_loop(t, s, tok2, b)->0.skip,
        scan_loop(t, s, tok1, a)->0.last == scan_loop(t, s, tok2, b)->0.last,
        scan_loop(t, s, tok1, a)->0.cut == scan_loop(t, s, tok2, b)->0.cut,
        scan_loop(t, s, tok1, a)->0.last != 0 ==> scan_loop(t, s, tok1, a)->0 == scan_loop(
            t,
            s,
            tok2,
            b,
        )->0,
    decreases s.len() - a.pos,
{
    if a.cur != 0 && a.pos < s.len() {
        let na = scan_step(t, s.len() as int, s[a.pos], a);
        let nb = scan_step(t, s.len() as int, s[a.pos], b);
        lemma_loop_ignores_unmatched_adv(t, s, tok1, tok2, na, nb);
    }
}

/// After a scan that dies on the lead byte `b` of the character `ch` without
/// a match, the scan keeps `spec_char_len(b) - 1` continuation bytes pending,
/// and the default action moves the lexer one byte on past `b`, the location
/// past `ch`. The next scan then skips the rest of `ch` and runs the
/// automaton from the next character on: it finds what a fresh scan from
/// that character finds, the same action with the same end, and only its
/// lexeme starts earlier, at the continuation bytes.
pub proof fn law_default_action_skips_character(
    t: TableView,
    s: Seq<u8>,
    v: LexState,
    fresh: bool,
    ch: char,
)
    requires
        tables_wf(t.trans, t.acc),
        t.acc[0] == 0,
        0 < v.state < t.trans.len(),
        0 <= v.pos < s.len(),
        fresh || v.skip == 0,
        t.trans[v.state][s[v.pos] as int] == 0,
        illegal_char_spec(s, v.pos) == Some(ch),
        v.pos + spec_char_len(s[v.pos]) < s.len(),
    ensures
        ({
            let (r, w) = scan_spec(t, s, v, fresh);
            let n = spec_char_len(s[v.pos]) as int;
            let d = default_state(w, ch);
            let u = LexState {
                tok: v.pos + n,
                pos: v.pos + n,
                line: d.pos_line,
                col: d.pos_col,
                skip: 0,
                ..d
            };
            let (r2, w2) = scan_spec(t, s, d, false);
            let (r3, w3) = scan_spec(t, s, u, true);
            &&& r is NoMatch
            &&& w.pos == v.pos
            &&& w.pos_line == v.pos_line
            &&& w.pos_col == v.pos_col
            &&& w.skip == n - 1
            &&& d.pos == v.pos + 1
            &&& r2 == r3
            &&& r2 is Action ==> {
                &&& w2.pos == w3.pos
                &&& w2.pos_line == w3.pos_line
                &&& w2.pos_col == w3.pos_col
                &&& w2.skip == w3.skip
            }
        }),
{
    let init = scan_start(v, fresh);
    let b = s[v.pos];
    assert(t.trans[init.cur].len() == 256);
    let f1 = scan_step(t, s.len() as int, b, init);
    assert(f1.cur == 0);
    assert(scan_loop(t, s, v.pos, f1) == Some(f1));
    assert(scan_loop(t, s, v.pos, init) == Some(f1));
    let w = scan_spec(t, s, v, fresh).1;
    let n = spec_char_len(b) as int;
    let d = default_state(w, ch);
    let u = LexState {
        tok: v.pos + n,
        pos: v.pos + n,
        line: d.pos_line,
        col: d.pos_col,
        skip: 0,
        ..d
    };
    let a0 = scan_start(d, false);
    lemma_skip_pending(t, s, d.pos, a0);
    let a = ScanState { pos: a0.pos + a0.skip, skip: 0, ..a0 };
    let bb = scan_start(u, true);
    lemma_loop_ignores_unmatched_adv(t, s, d.pos, u.pos, a, bb);
}

/// The generated match selects, for a last matching action `id`, the arm of
/// user action `id` exactly when `id` names a user action (from 1 on), and
/// the wildcard arm with the default action otherwise.
pub proof fn law_action_dispatch(m: ActionMatch, sp: Span, actions: Seq<String>, id: int)
    requires
        is_action_match(m, sp, actions),
    ensures
        selected_arm(m, id) == if 1 <= id < actions.len() {
            Some(id - 1)
        } else {
            None::<int>
        },
        1 <= id < actions.len() ==> m.arms@[id - 1].action@ == actions[id]@,
{
    if 1 <= id < actions.len() {
        assert(m.arms@[id - 1].id == id);
    }
}

/// The automaton state reached from `q` after reading `w`; the dead state 0
/// absorbs every further byte.
pub open spec fn run(t: TableView, q: int, w: Seq<u8>) -> int
    decreases w.len(),
{
    if w.len() == 0 {
        q
    } else {
        let p = run(t, q, w.drop_last());
        if p == 0 {
            0
        } else {
            t.trans[p][w.last() as int] as int
        }
    }
}

/// The line and column reached from `(line, col)` after the bytes `w`, each
/// byte counted as one character and a newline starting the next line.
pub open spec fn loc_after(line: int, col: int, w: Seq<u8>) -> (int, int)
    decreases w.len(),
{
    if w.len() == 0 {
        (line, col)
    } else {
        let lc = loc_after(line, col, w.drop_last());
        if w.last() == 10u8 {
            (lc.0 + 1, 1)
        } else {
            (lc.0, lc.1 + 1)
        }
    }
}

/// What the longest-match loop keeps true on input of one-byte characters:
/// the state and location are those reached over the bytes read so far, the
/// last match is the longest accepted prefix read so far, and no longer
/// prefix read so far is accepted.
spec fn munch_inv(
    t: TableView,
    s: Seq<u8>,
    tok: int,
    q0: int,
    l0: int,
    c0: int,
    st: ScanState,
) -> bool {
    &&& 0 <= tok <= st.adv <= st.pos <= s.len()
    &&& st.skip == 0
    &&& 0 <= st.cur < t.trans.len()
    &&& st.cur == run(t, q0, s.subrange(tok, st.pos))
    &&& (st.line, st.col) == loc_after(l0, c0, s.subrange(tok, st.pos))
    &&& (st.adv_line, st.adv_col) == loc_after(l0, c0, s.subrange(tok, st.adv))
    &&& st.last == 0 ==> st.adv == tok
    &&& st.last != 0 ==> st.adv > tok && st.last == t.acc[run(t, q0, s.subrange(tok, st.adv))]
    &&& forall|j: int|
        st.adv < j <= st.pos ==> t.acc[#[trigger] run(t, q0, s.subrange(tok, j))] == 0
}

/// Once dead, the automaton stays dead.
proof fn lemma_dead_stays(t: TableView, q0: int, s: Seq<u8>, tok: int, p: int, j: int)
    requires
        0 <= tok <= p <= j <= s.len(),
        run(t, q0, s.subrange(tok, p)) == 0,
    ensures
        run(t, q0, s.subrange(tok, j)) == 0,
    decreases j - p,
{
    if j > p {
        lemma_dead_stays(t, q0, s, tok, p, j - 1);
        assert(s.subrange(tok, j).drop_last() =~= s.subrange(tok, j - 1));
    }
}

/// The longest-match loop keeps `munch_inv` and stops with the automaton
/// dead or the input exhausted.
proof fn lemma_munch(
    t: TableView,
    s: Seq<u8>,
    tok: int,
    q0: int,
    l0: int,
    c0: int,
    st: ScanState,
)
    requires
        tables_wf(t.trans, t.acc),
        munch_inv(t, s, tok, q0, l0, c0, st),
        forall|i: int| tok <= i < s.len() ==> s[i] < 0xC2,
        st.pos > tok,
    ensures
        scan_loop(t, s, tok, st) matches Some(f) && munch_inv(t, s, tok, q0, l0, c0, f) && (f.cur
            == 0 || f.pos == s.len()),
    decreases s.len() - st.pos,
{
    if st.cur != 0 && st.pos < s.len() {
        let b = s[st.pos];
        let nx = scan_step(t, s.len() as int, b, st);
        let w = s.subrange(tok, st.pos + 1);
        assert(w.drop_last() =~= s.subrange(tok, st.pos));
        assert(w.last() == b);
        assert(t.trans[st.cur].len() == 256);
        assert(t.trans[st.cur][b as int] < t.trans.len());
        assert(spec_char_len(b) == 1);
        assert(nx.cur == run(t, q0, w));
        assert((nx.line, nx.col) == loc_after(l0, c0, w));
        assert forall|j: int| nx.adv < j <= nx.pos implies t.acc[#[trigger] run(
            t,
            q0,
            s.subrange(tok, j),
        )] == 0 by {
            if j <= st.pos {
            } else {
                assert(j == st.pos + 1);
            }
        }
        lemma_munch(t, s, tok, q0, l0, c0, nx);
    }
}

/// On input of one-byte characters (every byte below 0xC2), a scan takes the
/// longest prefix that the automaton accepts: the lexeme, when not empty, is
/// accepted and its action is the one reported, no longer prefix of the rest
/// of the input is accepted, and the location moves over the lexeme byte by
/// byte. An empty lexeme means that no prefix is accepted, and the default
/// action follows.
pub proof fn law_longest_match(t: TableView, s: Seq<u8>, v: LexState, fresh: bool)
    requires
        tables_wf(t.trans, t.acc),
        t.acc[0] == 0,
        0 < v.state < t.trans.len(),
        0 <= v.pos <= s.len(),
        fresh || v.skip == 0,
        forall|i: int| v.pos <= i < s.len() ==> s[i] < 0xC2,
    ensures
        !(scan_spec(t, s, v, fresh).0 is End) ==> {
            let w = scan_spec(t, s, v, fresh).1;
            let lexeme = s.subrange(v.pos, w.pos);
            &&& v.pos < w.pos ==> t.acc[run(t, v.state, lexeme)] != 0
            &&& scan_spec(t, s, v, fresh).0 matches Scan::Action { id } ==> id == t.acc[run(
                t,
                v.state,
                lexeme,
            )]
            &&& forall|j: int|
                w.pos < j <= s.len() ==> t.acc[#[trigger] run(t, v.state, s.subrange(v.pos, j))]
                    == 0
            &&& (w.pos_line, w.pos_col) == loc_after(v.pos_line, v.pos_col, lexeme)
        },
{
    law_scan_progress(t, s, v, fresh);
    let init = scan_start(v, fresh);
    let tok = v.pos;
    if tok < s.len() {
        assert(s.subrange(tok, tok) =~= Seq::<u8>::empty());
        assert(munch_inv(t, s, tok, v.state, v.pos_line, v.pos_col, init));
        let b = s[tok];
        let nx = scan_step(t, s.len() as int, b, init);
        let w = s.subrange(tok, tok + 1);
        assert(w.drop_last() =~= s.subrange(tok, tok));
        assert(w.last() == b);
        assert(t.trans[init.cur].len() == 256);
        assert(t.trans[init.cur][b as int] < t.trans.len());
        assert(spec_char_len(b) == 1);
        assert(munch_inv(t, s, tok, v.state, v.pos_line, v.pos_col, nx));
        lemma_munch(t, s, tok, v.state, v.pos_line, v.pos_col, nx);
        lemma_loop_bounds(t, s, tok, nx);
        assert(scan_loop(t, s, tok, init) == scan_loop(t, s, tok, nx));
        let f = scan_loop(t, s, tok, nx).unwrap();
        assert forall|j: int| f.adv < j <= s.len() implies t.acc[#[trigger] run(
            t,
            v.state,
            s.subrange(tok, j),
        )] == 0 by {
            if j > f.pos {
                lemma_dead_stays(t, v.state, s, tok, f.pos, j);
            }
        }
    }
}

/// Once an accepted character has run past the end of the input, the loop
/// keeps that mark.
proof fn lemma_cut_sticky(t: TableView, s: Seq<u8>, tok: int, st: ScanState)
    requires
        st.cut,
    ensures
        scan_loop(t, s, tok, st) matches Some(f) ==> f.cut,
    decreases s.len() - st.pos,
{
    if st.cur != 0 && 0 <= st.pos < s.len() {
        lemma_cut_sticky(t, s, tok, scan_step(t, s.len() as int, s[st.pos], st));
    }
}

/// A loop that stops with the automaton dead and no character cut short
/// runs the same on a longer input.
proof fn lemma_loop_extend(t: TableView, s: Seq<u8>, x: Seq<u8>, tok: int, st: ScanState)
    requires
        0 <= st.pos <= s.len(),
        scan_loop(t, s, tok, st) matches Some(f) && f.cur == 0 && !f.cut,
    ensures
        scan_loop(t, s + x, tok, st) == scan_loop(t, s, tok, st),
    decreases s.len() - st.pos,
{
    if st.cur != 0 && st.pos < s.len() {
        let b = s[st.pos];
        assert((s + x)[st.pos] == b);
        let nx = scan_step(t, s.len() as int, b, st);
        if nx.cut {
            lemma_cut_sticky(t, s, tok, nx);
        }
        assert(nx == scan_step(t, (s + x).len() as int, b, st));
        lemma_loop_extend(t, s, x, tok, nx);
    }
}

/// A scan that does not depend on bytes after its input gives the same
/// result and leaves the same state on every longer input, and so does the
/// character that the default action reads: reading the input chunk by chunk
/// scans as reading it whole would.
pub proof fn law_more_input_agrees(t: TableView, s: Seq<u8>, x: Seq<u8>, v: LexState, fresh: bool)
    requires
        tables_wf(t.trans, t.acc),
        0 < v.state < t.trans.len(),
        0 <= v.pos <= s.len(),
        !needs_input(t, s, v, fresh),
    ensures
        scan_spec(t, s + x, v, fresh) == scan_spec(t, s, v, fresh),
        !needs_input(t, s + x, v, fresh),
        scan_spec(t, s, v, fresh).0 is NoMatch ==> illegal_char_spec(s + x, v.pos)
            == illegal_char_spec(s, v.pos),
{
    let init = scan_start(v, fresh);
    lemma_loop_extend(t, s, x, v.pos, init);
    law_scan_progress(t, s, v, fresh);
    if scan_spec(t, s, v, fresh).0 is NoMatch {
        let n = spec_char_len(s[v.pos]) as int;
        assert((s + x)[v.pos] == s[v.pos]);
        assert((s + x).subrange(v.pos, v.pos + n) =~= s.subrange(v.pos, v.pos + n));
    }
}

} // verus!
