//! Properties of the generated lexers on UTF-8 input: character lengths,
//! lexemes on character boundaries, the longest match over whole characters
//! and the action that a step of the iterator runs for it, columns that count
//! characters, and the location past an illegal character.
use vstd::prelude::*;
use vstd::utf8::{
    codepoint_width_2, decode_first_scalar, decode_utf8, decode_utf8_first_scalar, encode_scalar,
    length_of_first_scalar, partial_valid_utf8_extend, pop_first_scalar, take_first_scalar,
    valid_first_scalar, valid_utf8, valid_utf8_concat,
};
use crate::def::tables_wf;
use crate::laws::{law_scan_progress, lemma_loop_bounds};
use crate::runtime::{
    arms_for_all, default_state, illegal_char_spec, next_spec, scan_loop, scan_spec, scan_start, scan_step,
    spec_char_len, Command, Event, LexState, Scan, ScanState, TableView,
};

verus! {

/// On valid UTF-8, the character length that the lexer derives from a
/// leading byte is the length of the encoded character.
pub proof fn law_char_len_utf8(bytes: Seq<u8>)
    requires
        valid_first_scalar(bytes),
    ensures
        spec_char_len(bytes[0]) == length_of_first_scalar(bytes),
{
    let b0 = bytes[0];
    if 0xc0 <= b0 <= 0xc1 {
        let b1 = bytes[1];
        assert(((((b0 & 0x1F) as u32) << 6) | ((b1 & 0x3f) as u32)) < 0x80) by (bit_vector)
            requires
                0xc0 <= b0 <= 0xc1,
        ;
        assert(codepoint_width_2(b0, b1) < 0x80);
    }
}

/// Where the character being read ends: the read position itself when no
/// continuation bytes are pending, otherwise after them.
spec fn char_end(st: ScanState) -> int {
    st.pos + st.skip
}

/// What the longest-match loop keeps true on valid UTF-8 input: the input is
/// split into valid UTF-8 at the end of the character being read and at the
/// last match.
spec fn utf8_inv(s: Seq<u8>, tok: int, st: ScanState) -> bool {
    &&& 0 <= tok <= st.adv <= st.pos <= char_end(st) <= s.len()
    &&& 0 <= st.skip <= 3
    &&& valid_utf8(s.subrange(tok, char_end(st)))
    &&& valid_utf8(s.subrange(char_end(st), s.len() as int))
    &&& valid_utf8(s.subrange(tok, st.adv))
    &&& valid_utf8(s.subrange(st.adv, s.len() as int))
}

/// Reading the first character of the valid UTF-8 rest of the input after
/// `tok..pos` extends the valid prefix by the character's length.
proof fn lemma_read_char(s: Seq<u8>, tok: int, pos: int)
    requires
        0 <= tok <= pos < s.len(),
        valid_utf8(s.subrange(tok, pos)),
        valid_utf8(s.subrange(pos, s.len() as int)),
    ensures
        spec_char_len(s[pos]) == length_of_first_scalar(s.subrange(pos, s.len() as int)),
        pos + spec_char_len(s[pos]) <= s.len(),
        valid_utf8(s.subrange(tok, pos + spec_char_len(s[pos]))),
        valid_utf8(s.subrange(pos + spec_char_len(s[pos]), s.len() as int)),
{
    let rest = s.subrange(pos, s.len() as int);
    assert(valid_first_scalar(rest));
    law_char_len_utf8(rest);
    let n = length_of_first_scalar(rest);
    let bytes = s.subrange(tok, s.len() as int);
    let i = pos - tok;
    assert(bytes.subrange(0, i) =~= s.subrange(tok, pos));
    assert(bytes.subrange(i, bytes.len() as int) =~= rest);
    partial_valid_utf8_extend(bytes, i);
    assert(bytes.subrange(0, i + n) =~= s.subrange(tok, pos + n));
    assert(pop_first_scalar(rest) =~= s.subrange(pos + n, s.len() as int));
}

/// The longest-match loop keeps `utf8_inv`.
proof fn lemma_utf8_loop(t: TableView, s: Seq<u8>, tok: int, st: ScanState)
    requires
        utf8_inv(s, tok, st),
    ensures
        scan_loop(t, s, tok, st) matches Some(f) ==> utf8_inv(s, tok, f),
    decreases s.len() - st.pos,
{
    if st.cur != 0 && st.pos < s.len() {
        let b = s[st.pos];
        let nx = scan_step(t, s.len() as int, b, st);
        if st.skip == 0 {
            lemma_read_char(s, tok, st.pos);
        }
        lemma_utf8_loop(t, s, tok, nx);
    }
}

/// On valid UTF-8 input, the lexeme of every reported action is valid UTF-8
/// and the rest of the input stays valid UTF-8: a match never ends inside a
/// multi-byte character.
pub proof fn law_lexeme_utf8(t: TableView, s: Seq<u8>, v: LexState, fresh: bool)
    requires
        0 <= v.pos <= s.len(),
        fresh || v.skip == 0,
        valid_utf8(s.subrange(v.pos, s.len() as int)),
    ensures
        scan_spec(t, s, v, fresh).0 is Action ==> {
            &&& valid_utf8(s.subrange(v.pos, scan_spec(t, s, v, fresh).1.pos))
            &&& valid_utf8(s.subrange(scan_spec(t, s, v, fresh).1.pos, s.len() as int))
        },
{
    let init = scan_start(v, fresh);
    assert(s.subrange(v.pos, v.pos) =~= Seq::<u8>::empty());
    assert(utf8_inv(s, v.pos, init));
    lemma_utf8_loop(t, s, v.pos, init);
}

/// The line and column reached from `(line, col)` after the characters `cs`,
/// a newline starting the next line.
pub open spec fn loc_after_chars(line: int, col: int, cs: Seq<char>) -> (int, int)
    decreases cs.len(),
{
    if cs.len() == 0 {
        (line, col)
    } else {
        let lc = loc_after_chars(line, col, cs.drop_last());
        if cs.last() == '\n' {
            (lc.0 + 1, 1)
        } else {
            (lc.0, lc.1 + 1)
        }
    }
}

/// Decoding valid UTF-8 distributes over concatenation.
proof fn lemma_decode_concat(a: Seq<u8>, b: Seq<u8>)
    requires
        valid_utf8(a),
        valid_utf8(b),
    ensures
        valid_utf8(a + b),
        decode_utf8(a + b) == decode_utf8(a) + decode_utf8(b),
    decreases a.len(),
{
    valid_utf8_concat(a, b);
    if a.len() == 0 {
        assert(a + b =~= b);
        assert(decode_utf8(a) + decode_utf8(b) =~= decode_utf8(b));
    } else {
        let ab = a + b;
        assert(valid_first_scalar(a));
        let n = length_of_first_scalar(a);
        assert(ab[0] == a[0]);
        assert(n >= 2 ==> ab[1] == a[1]);
        assert(n >= 3 ==> ab[2] == a[2]);
        assert(n >= 4 ==> ab[3] == a[3]);
        assert(length_of_first_scalar(ab) == n);
        assert(decode_first_scalar(ab) == decode_first_scalar(a));
        let rest = pop_first_scalar(a);
        assert(pop_first_scalar(ab) =~= rest + b);
        lemma_decode_concat(rest, b);
        assert(decode_utf8(ab) =~= decode_utf8(a) + decode_utf8(b));
    }
}

/// Reading the first character of the valid UTF-8 rest of the input extends
/// the decoded prefix by that character, which is a newline exactly when its
/// first byte is one.
proof fn lemma_read_decoded(s: Seq<u8>, tok: int, pos: int)
    requires
        0 <= tok <= pos < s.len(),
        valid_utf8(s.subrange(tok, pos)),
        valid_utf8(s.subrange(pos, s.len() as int)),
    ensures
        pos + spec_char_len(s[pos]) <= s.len(),
        decode_utf8(s.subrange(tok, pos + spec_char_len(s[pos]))).len() == decode_utf8(
            s.subrange(tok, pos),
        ).len() + 1,
        decode_utf8(s.subrange(tok, pos + spec_char_len(s[pos]))).drop_last() == decode_utf8(
            s.subrange(tok, pos),
        ),
        (decode_utf8(s.subrange(tok, pos + spec_char_len(s[pos]))).last() == '\n') <==> (s[pos]
            == 10u8),
        lead_byte(decode_utf8(s.subrange(tok, pos + spec_char_len(s[pos]))).last()) == s[pos],
{
    lemma_read_char(s, tok, pos);
    let rest = s.subrange(pos, s.len() as int);
    let n = spec_char_len(s[pos]) as int;
    let ch = s.subrange(pos, pos + n);
    let pre = s.subrange(tok, pos);
    assert(ch =~= rest.subrange(0, n));
    assert(ch[0] == rest[0]);
    assert(n >= 2 ==> ch[1] == rest[1]);
    assert(n >= 3 ==> ch[2] == rest[2]);
    assert(n >= 4 ==> ch[3] == rest[3]);
    assert(valid_first_scalar(ch));
    assert(pop_first_scalar(ch) =~= Seq::<u8>::empty());
    assert(valid_utf8(Seq::<u8>::empty()));
    assert(valid_utf8(ch));
    let c = decode_first_scalar(ch);
    let b = s[pos];
    if b <= 0x7f {
        assert(b & 0x7f == b) by (bit_vector)
            requires
                b <= 0x7f,
        ;
        assert(c == b);
    } else if n == 2 {
        let b1 = ch[1];
        assert((((b & 0x1F) as u32) << 6) | ((b1 & 0x3F) as u32) <= 0x7ff) by (bit_vector);
    } else if n == 3 {
        let b1 = ch[1];
        let b2 = ch[2];
        assert((((b & 0x0F) as u32) << 12) | (((b1 & 0x3F) as u32) << 6) | ((b2 & 0x3F) as u32)
            <= 0xffff) by (bit_vector);
    }
    assert(0x80 <= c ==> c as char != '\n');
    assert(decode_utf8(ch) =~= seq![c as char] + decode_utf8(Seq::<u8>::empty()));
    lemma_decode_concat(pre, ch);
    assert(s.subrange(tok, pos + n) =~= pre + ch);
    decode_utf8_first_scalar(ch);
    assert(take_first_scalar(ch) =~= ch);
    assert(encode_scalar((c as char) as u32)[0] == ch[0]);
}

/// The first byte of the UTF-8 encoding of `c`, the one the automaton reads.
pub open spec fn lead_byte(c: char) -> u8 {
    encode_scalar(c as u32)[0]
}

/// The automaton state reached from `q` after the characters `cs`, each read
/// by its first byte; the dead state 0 absorbs every further character.
pub open spec fn char_run(t: TableView, q: int, cs: Seq<char>) -> int
    decreases cs.len(),
{
    if cs.len() == 0 {
        q
    } else {
        let p = char_run(t, q, cs.drop_last());
        if p == 0 {
            0
        } else {
            t.trans[p][lead_byte(cs.last()) as int] as int
        }
    }
}

/// The characters of a valid prefix of valid input are a prefix of the
/// characters of the input.
proof fn lemma_decoded_prefix(s: Seq<u8>, tok: int, x: int)
    requires
        0 <= tok <= x <= s.len(),
        valid_utf8(s.subrange(tok, x)),
        valid_utf8(s.subrange(x, s.len() as int)),
    ensures
        valid_utf8(s.subrange(tok, s.len() as int)),
        decode_utf8(s.subrange(tok, x)) == decode_utf8(s.subrange(tok, s.len() as int)).take(
            decode_utf8(s.subrange(tok, x)).len() as int,
        ),
{
    let a = s.subrange(tok, x);
    let b = s.subrange(x, s.len() as int);
    lemma_decode_concat(a, b);
    assert(s.subrange(tok, s.len() as int) =~= a + b);
    assert((decode_utf8(a) + decode_utf8(b)).take(decode_utf8(a).len() as int) =~= decode_utf8(a));
}

/// Once dead, the automaton stays dead over characters.
proof fn lemma_chars_dead(t: TableView, q0: int, cs: Seq<char>, m: int, j: int)
    requires
        0 <= m <= j <= cs.len(),
        char_run(t, q0, cs.take(m)) == 0,
    ensures
        char_run(t, q0, cs.take(j)) == 0,
    decreases j - m,
{
    if j > m {
        lemma_chars_dead(t, q0, cs, m, j - 1);
        assert(cs.take(j).drop_last() =~= cs.take(j - 1));
    }
}

/// What the longest-match loop keeps true on valid UTF-8 input: the
/// automaton has read the first byte of each character up to the end of the
/// character being read, the last match is the longest accepted prefix of
/// whole characters read so far, and no longer one read so far is accepted.
spec fn chars_munch_inv(t: TableView, s: Seq<u8>, tok: int, q0: int, st: ScanState) -> bool {
    let cs = decode_utf8(s.subrange(tok, s.len() as int));
    let read = decode_utf8(s.subrange(tok, char_end(st)));
    let matched = decode_utf8(s.subrange(tok, st.adv));
    &&& utf8_inv(s, tok, st)
    &&& 0 <= st.cur < t.trans.len()
    &&& st.cur == char_run(t, q0, read)
    &&& read == cs.take(read.len() as int)
    &&& matched == cs.take(matched.len() as int)
    &&& st.last == 0 ==> st.adv == tok
    &&& st.last != 0 ==> st.adv > tok && st.last == t.acc[char_run(t, q0, matched)]
    &&& forall|j: int|
        matched.len() < j <= read.len() ==> t.acc[#[trigger] char_run(t, q0, cs.take(j))] == 0
}

/// The longest-match loop keeps `chars_munch_inv` and stops with the
/// automaton dead or the input exhausted.
proof fn lemma_chars_munch(t: TableView, s: Seq<u8>, tok: int, q0: int, st: ScanState)
    requires
        tables_wf(t.trans, t.acc),
        chars_munch_inv(t, s, tok, q0, st),
    ensures
        scan_loop(t, s, tok, st) matches Some(f) ==> chars_munch_inv(t, s, tok, q0, f) && (f.cur
            == 0 || f.pos >= s.len()),
    decreases s.len() - st.pos,
{
    if st.cur != 0 && st.pos < s.len() {
        let b = s[st.pos];
        let nx = scan_step(t, s.len() as int, b, st);
        let cs = decode_utf8(s.subrange(tok, s.len() as int));
        if st.skip == 0 {
            let bb = st.pos;
            lemma_read_char(s, tok, bb);
            lemma_read_decoded(s, tok, bb);
            let n = spec_char_len(b) as int;
            let read = decode_utf8(s.subrange(tok, bb));
            let read1 = decode_utf8(s.subrange(tok, bb + n));
            lemma_decoded_prefix(s, tok, bb + n);
            assert(read1.drop_last() == read);
            assert(t.trans[st.cur].len() == 256);
            assert(t.trans[st.cur][b as int] < t.trans.len());
            assert(nx.cur == char_run(t, q0, read1));
            assert(char_end(nx) == bb + n);
            assert forall|j: int|
                decode_utf8(s.subrange(tok, nx.adv)).len() < j <= read1.len() implies t.acc[
                #[trigger] char_run(t, q0, cs.take(j))] == 0 by {
                if j == read1.len() {
                    assert(cs.take(j) == read1);
                }
            }
        }
        lemma_chars_munch(t, s, tok, q0, nx);
    }
}

/// On valid UTF-8 input with no continuation bytes pending, a scan takes the
/// longest prefix of whole characters that the automaton accepts, reading
/// each character by its first byte: the lexeme, when not empty, is accepted
/// and its action is the one reported, and no longer prefix of whole
/// characters is accepted. An empty lexeme means that no such prefix is
/// accepted, and the default action follows.
pub proof fn law_longest_match_utf8(t: TableView, s: Seq<u8>, v: LexState, fresh: bool)
    requires
        tables_wf(t.trans, t.acc),
        t.acc[0] == 0,
        0 < v.state < t.trans.len(),
        0 <= v.pos <= s.len(),
        fresh || v.skip == 0,
        valid_utf8(s.subrange(v.pos, s.len() as int)),
    ensures
        !(scan_spec(t, s, v, fresh).0 is End) ==> {
            let w = scan_spec(t, s, v, fresh).1;
            let cs = decode_utf8(s.subrange(v.pos, s.len() as int));
            let lexeme = decode_utf8(s.subrange(v.pos, w.pos));
            &&& valid_utf8(s.subrange(v.pos, w.pos))
            &&& lexeme == cs.take(lexeme.len() as int)
            &&& v.pos < w.pos ==> t.acc[char_run(t, v.state, lexeme)] != 0
            &&& scan_spec(t, s, v, fresh).0 matches Scan::Action { id } ==> id == t.acc[char_run(
                t,
                v.state,
                lexeme,
            )]
            &&& forall|j: int|
                lexeme.len() < j <= cs.len() ==> t.acc[#[trigger] char_run(t, v.state, cs.take(j))]
                    == 0
        },
{
    let init = scan_start(v, fresh);
    let tok = v.pos;
    let cs = decode_utf8(s.subrange(tok, s.len() as int));
    assert(s.subrange(tok, tok) =~= Seq::<u8>::empty());
    assert(decode_utf8(Seq::<u8>::empty()) =~= Seq::<char>::empty());
    assert(cs.take(0) =~= Seq::<char>::empty());
    assert(chars_munch_inv(t, s, tok, v.state, init));
    lemma_chars_munch(t, s, tok, v.state, init);
    if let Some(f) = scan_loop(t, s, tok, init) {
        let read = decode_utf8(s.subrange(tok, char_end(f)));
        let matched = decode_utf8(s.subrange(tok, f.adv));
        if f.pos >= s.len() {
            assert(s.subrange(tok, char_end(f)) =~= s.subrange(tok, s.len() as int));
        }
        assert forall|j: int| matched.len() < j <= cs.len() implies t.acc[#[trigger] char_run(
            t,
            v.state,
            cs.take(j),
        )] == 0 by {
            if j > read.len() {
                lemma_chars_dead(t, v.state, cs, read.len() as int, j);
            }
        }
    }
}

/// What the longest-match loop keeps true about locations for a prefix
/// `tok..e` that is valid UTF-8: while the loop has not read past `e`, the
/// location is the one reached over the characters read, and so for the last
/// match when it lies within `e`.
spec fn columns_inv(s: Seq<u8>, tok: int, e: int, l0: int, c0: int, st: ScanState) -> bool {
    &&& 0 <= tok <= st.adv <= st.pos <= s.len()
    &&& tok <= e <= s.len()
    &&& 0 <= st.skip <= 3
    &&& valid_utf8(s.subrange(tok, e))
    &&& char_end(st) <= e ==> {
        &&& valid_utf8(s.subrange(tok, char_end(st)))
        &&& valid_utf8(s.subrange(char_end(st), e))
        &&& (st.line, st.col) == loc_after_chars(
            l0,
            c0,
            decode_utf8(s.subrange(tok, char_end(st))),
        )
    }
    &&& st.adv <= e ==> (st.adv_line, st.adv_col) == loc_after_chars(
        l0,
        c0,
        decode_utf8(s.subrange(tok, st.adv)),
    )
}

/// The longest-match loop keeps `columns_inv`.
proof fn lemma_columns_loop(
    t: TableView,
    s: Seq<u8>,
    tok: int,
    e: int,
    l0: int,
    c0: int,
    st: ScanState,
)
    requires
        columns_inv(s, tok, e, l0, c0, st),
    ensures
        scan_loop(t, s, tok, st) matches Some(f) ==> columns_inv(s, tok, e, l0, c0, f),
    decreases s.len() - st.pos,
{
    if st.cur != 0 && st.pos < s.len() {
        let b = s[st.pos];
        let nx = scan_step(t, s.len() as int, b, st);
        if st.skip == 0 && st.pos < e {
            let pe = s.subrange(0, e);
            let bb = st.pos;
            assert(pe.subrange(tok, bb) =~= s.subrange(tok, bb));
            assert(pe.subrange(bb, pe.len() as int) =~= s.subrange(bb, e));
            assert(pe[bb] == b);
            lemma_read_char(pe, tok, bb);
            lemma_read_decoded(pe, tok, bb);
            let n = spec_char_len(b) as int;
            assert(pe.subrange(tok, bb + n) =~= s.subrange(tok, bb + n));
            assert(pe.subrange(bb + n, pe.len() as int) =~= s.subrange(bb + n, e));
            assert(char_end(nx) == bb + n);
        }
        lemma_columns_loop(t, s, tok, e, l0, c0, nx);
    }
}

/// The location after a scan is the one reached over the characters of the
/// lexeme whenever the lexeme is valid UTF-8 and no continuation bytes were
/// pending: a multi-byte character moves the column by one.
pub proof fn law_columns_count_characters(t: TableView, s: Seq<u8>, v: LexState, fresh: bool)
    requires
        tables_wf(t.trans, t.acc),
        0 < v.state < t.trans.len(),
        0 <= v.pos <= s.len(),
        fresh || v.skip == 0,
    ensures
        !(scan_spec(t, s, v, fresh).0 is End) && valid_utf8(
            s.subrange(v.pos, scan_spec(t, s, v, fresh).1.pos),
        ) ==> (scan_spec(t, s, v, fresh).1.pos_line, scan_spec(t, s, v, fresh).1.pos_col)
            == loc_after_chars(
            v.pos_line,
            v.pos_col,
            decode_utf8(s.subrange(v.pos, scan_spec(t, s, v, fresh).1.pos)),
        ),
{
    let init = scan_start(v, fresh);
    let tok = v.pos;
    lemma_loop_bounds(t, s, tok, init);
    if let Some(f) = scan_loop(t, s, tok, init) {
        let e = f.adv;
        if tok <= e <= s.len() && valid_utf8(s.subrange(tok, e)) {
            assert(s.subrange(tok, tok) =~= Seq::<u8>::empty());
            assert(decode_utf8(Seq::<u8>::empty()) =~= Seq::<char>::empty());
            assert(s.subrange(tok, e).subrange(0, e - tok) =~= s.subrange(tok, e));
            assert(columns_inv(s, tok, e, v.pos_line, v.pos_col, init));
            lemma_columns_loop(t, s, tok, e, v.pos_line, v.pos_col, init);
        }
    }
}

/// The action that a step of the iterator runs is the one of the longest
/// match: on valid UTF-8 input with no continuation bytes pending, when
/// `next` asks to run action `id`, the lexeme is the longest non-empty prefix
/// of whole characters that the automaton accepts from the current
/// condition, `id` is the action its state accepts, a user action, and the
/// lexeme starts at the lexer's location and ends at the location reached
/// over its characters.
pub proof fn law_step_runs_longest_match<T>(
    t: TableView,
    s: Seq<u8>,
    open: bool,
    v: LexState,
    cont: bool,
    ev: Event<T>,
)
    requires
        tables_wf(t.trans, t.acc),
        t.acc[0] == 0,
        0 < v.state < t.trans.len(),
        0 <= v.pos <= s.len(),
        v.skip == 0,
        valid_utf8(s.subrange(v.pos, s.len() as int)),
    ensures
        next_spec(t, s, open, v, cont, ev).0 matches Command::RunAction { id } ==> {
            let w = next_spec(t, s, open, v, cont, ev).1;
            let cs = decode_utf8(s.subrange(v.pos, s.len() as int));
            let lexeme = decode_utf8(s.subrange(v.pos, w.pos));
            &&& v.pos < w.pos <= s.len()
            &&& valid_utf8(s.subrange(v.pos, w.pos))
            &&& lexeme == cs.take(lexeme.len() as int)
            &&& id == t.acc[char_run(t, v.state, lexeme)]
            &&& 0 < id < t.n_actions
            &&& forall|j: int|
                lexeme.len() < j <= cs.len() ==> t.acc[#[trigger] char_run(t, v.state, cs.take(j))]
                    == 0
            &&& w.tok == v.pos
            &&& w.line == v.pos_line
            &&& w.col == v.pos_col
            &&& (w.pos_line, w.pos_col) == loc_after_chars(v.pos_line, v.pos_col, lexeme)
        },
{
    let fresh = match ev {
        Event::Start => true,
        Event::InputRead => !cont,
        _ => false,
    };
    law_scan_progress(t, s, v, fresh);
    law_longest_match_utf8(t, s, v, fresh);
    law_columns_count_characters(t, s, v, fresh);
}

/// The default action moves the location over exactly the illegal
/// character: to the next line when it is a newline, one column on
/// otherwise. The lexer moves one byte on from the start of the lexeme, and
/// nothing else changes.
pub proof fn law_default_action_location(v: LexState, ch: char)
    ensures
        (default_state(v, ch).pos_line, default_state(v, ch).pos_col) == loc_after_chars(
            v.pos_line,
            v.pos_col,
            seq![ch],
        ),
        default_state(v, ch).pos == v.tok + 1,
        default_state(v, ch).tok == v.tok,
        default_state(v, ch).line == v.line,
        default_state(v, ch).col == v.col,
        default_state(v, ch).state == v.state,
        default_state(v, ch).skip == v.skip,
{
    let e = seq![ch].drop_last();
    assert(e =~= Seq::<char>::empty());
    assert(loc_after_chars(v.pos_line, v.pos_col, e) == (v.pos_line, v.pos_col));
    assert(seq![ch].last() == ch);
}

/// The longest-match loop moves the location by at most one line or column
/// per byte read.
proof fn lemma_loop_location_bound(t: TableView, s: Seq<u8>, tok: int, base: int, st: ScanState)
    requires
        1 <= st.line,
        1 <= st.col,
        st.line + st.col <= base + st.pos,
        1 <= st.adv_line,
        1 <= st.adv_col,
        st.adv_line + st.adv_col <= base + st.adv,
    ensures
        scan_loop(t, s, tok, st) matches Some(f) ==> {
            &&& 1 <= f.adv_line
            &&& 1 <= f.adv_col
            &&& f.adv_line + f.adv_col <= base + f.adv
        },
    decreases s.len() - st.pos,
{
    if st.cur != 0 && 0 <= st.pos < s.len() {
        lemma_loop_location_bound(t, s, tok, base, scan_step(t, s.len() as int, s[st.pos], st));
    }
}

/// When every accepted action has an arm, the loop either records a match
/// of a user action or leaves the last match where it started.
proof fn lemma_loop_unmatched(t: TableView, s: Seq<u8>, tok: int, st: ScanState, st0: ScanState)
    requires
        tables_wf(t.trans, t.acc),
        arms_for_all(t),
        0 <= st.cur < t.trans.len(),
        (st.last == 0 && st.adv_line == st0.adv_line && st.adv_col == st0.adv_col) || (0 < st.last
            < t.n_actions),
    ensures
        scan_loop(t, s, tok, st) matches Some(f) ==> (f.last == 0 && f.adv_line == st0.adv_line
            && f.adv_col == st0.adv_col) || (0 < f.last < t.n_actions),
    decreases s.len() - st.pos,
{
    if st.cur != 0 && 0 <= st.pos < s.len() {
        let b = s[st.pos];
        if st.skip == 0 {
            assert(t.trans[st.cur].len() == 256);
            assert(t.trans[st.cur][b as int] < t.trans.len());
            assert(t.acc[t.trans[st.cur][b as int] as int] < t.n_actions);
        }
        lemma_loop_unmatched(t, s, tok, scan_step(t, s.len() as int, b, st), st0);
    }
}

/// A step that hands an illegal character to the callback reports the
/// character at the start of the lexeme, and leaves the lexer one byte past
/// that start with the location moved over exactly that character from the
/// location it reports; the lexeme starts at the lexer's location. When every
/// accepted action has an arm, the illegal character is one at which no rule
/// matched, and the callback receives the lexer's location.
pub proof fn law_step_callback<T>(
    t: TableView,
    s: Seq<u8>,
    open: bool,
    v: LexState,
    cont: bool,
    ev: Event<T>,
)
    requires
        tables_wf(t.trans, t.acc),
        0 < v.state < t.trans.len(),
        0 <= v.pos <= s.len(),
        1 <= v.pos_line,
        1 <= v.pos_col,
        v.pos_line + v.pos_col + s.len() <= u64::MAX,
    ensures
        next_spec(t, s, open, v, cont, ev).0 matches Command::RunCallback { ch, line, character }
            ==> {
            let w = next_spec(t, s, open, v, cont, ev).1;
            &&& illegal_char_spec(s, v.pos) == Some(ch)
            &&& t.has_callback
            &&& w.tok == v.pos
            &&& w.pos == v.pos + 1
            &&& w.line == v.pos_line
            &&& w.col == v.pos_col
            &&& (w.pos_line, w.pos_col) == loc_after_chars(line as int, character as int, seq![ch])
            &&& arms_for_all(t) ==> line == v.pos_line && character == v.pos_col
        },
{
    let fresh = match ev {
        Event::Start => true,
        Event::InputRead => !cont,
        _ => false,
    };
    law_scan_progress(t, s, v, fresh);
    let init = scan_start(v, fresh);
    lemma_loop_bounds(t, s, v.pos, init);
    lemma_loop_location_bound(t, s, v.pos, v.pos_line + v.pos_col - v.pos, init);
    if arms_for_all(t) {
        lemma_loop_unmatched(t, s, v.pos, init, init);
    }
    let w0 = scan_spec(t, s, v, fresh).1;
    if let Some(ch) = illegal_char_spec(s, w0.tok) {
        law_default_action_location(w0, ch);
    }
}

} // verus!
