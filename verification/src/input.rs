//! The input of a lexer: the chunks of bytes read from its reader, and
//! positions inside them.
use vstd::prelude::*;

verus! {

/// A position in the chunked input: chunk `buf`, byte `off` inside it.
#[derive(Clone, Copy, PartialEq, Eq, Structural, Debug)]
pub struct Pos {
    pub buf: usize,
    pub off: usize,
}

/// The chunks as mathematical sequences.
pub open spec fn chunks(inp: &Vec<Vec<u8>>) -> Seq<Seq<u8>> {
    inp@.map_values(|v: Vec<u8>| v@)
}

/// All chunks, concatenated in order.
pub open spec fn flatten(s: Seq<Seq<u8>>) -> Seq<u8>
    decreases s.len(),
{
    if s.len() == 0 {
        seq![]
    } else {
        flatten(s.drop_last()) + s.last()
    }
}

/// Offset in the flattened input at which chunk `k` starts.
pub open spec fn start_of(s: Seq<Seq<u8>>, k: int) -> int {
    flatten(s.take(k)).len() as int
}

/// Offset in the flattened input of a position.
pub open spec fn offset(s: Seq<Seq<u8>>, p: Pos) -> int {
    start_of(s, p.buf as int) + p.off
}

/// A position that names a chunk and lies inside it or at its end.
pub open spec fn valid_pos(s: Seq<Seq<u8>>, p: Pos) -> bool {
    &&& p.buf < s.len()
    &&& p.off <= s[p.buf as int].len()
}

/// `a` lies at or before `b`, chunk by chunk.
pub open spec fn pos_le(a: Pos, b: Pos) -> bool {
    a.buf < b.buf || (a.buf == b.buf && a.off <= b.off)
}

pub proof fn lemma_take_succ(s: Seq<Seq<u8>>, k: int)
    requires
        0 <= k < s.len(),
    ensures
        flatten(s.take(k + 1)) == flatten(s.take(k)) + s[k],
        start_of(s, k + 1) == start_of(s, k) + s[k].len(),
{
    assert(s.take(k + 1).drop_last() =~= s.take(k));
    assert(s.take(k + 1).last() == s[k]);
}

pub proof fn lemma_take_all(s: Seq<Seq<u8>>)
    ensures
        flatten(s.take(s.len() as int)) == flatten(s),
        start_of(s, s.len() as int) == flatten(s).len(),
{
    assert(s.take(s.len() as int) =~= s);
}

/// The flattened first `j` chunks are a prefix of the flattened first `k`.
pub proof fn lemma_prefix(s: Seq<Seq<u8>>, j: int, k: int)
    requires
        0 <= j <= k <= s.len(),
    ensures
        start_of(s, j) <= start_of(s, k),
        flatten(s.take(k)).subrange(0, start_of(s, j)) == flatten(s.take(j)),
    decreases k - j,
{
    if j == k {
        assert(flatten(s.take(k)).subrange(0, start_of(s, j)) =~= flatten(s.take(j)));
    } else {
        lemma_prefix(s, j, k - 1);
        lemma_take_succ(s, k - 1);
        assert(flatten(s.take(k)).subrange(0, start_of(s, j)) =~= flatten(s.take(k - 1)).subrange(
            0,
            start_of(s, j),
        ));
    }
}

/// The flattened input holds each byte of each chunk at its offset.
pub proof fn lemma_flat_index(s: Seq<Seq<u8>>, p: Pos)
    requires
        p.buf < s.len(),
        p.off < s[p.buf as int].len(),
    ensures
        0 <= offset(s, p) < flatten(s).len(),
        flatten(s)[offset(s, p)] == s[p.buf as int][p.off as int],
{
    let b = p.buf as int;
    lemma_take_succ(s, b);
    lemma_prefix(s, b + 1, s.len() as int);
    lemma_take_all(s);
    let big = flatten(s);
    let small = flatten(s.take(b + 1));
    assert(big.subrange(0, start_of(s, b + 1)) == small);
    assert(small[offset(s, p)] == s[b][p.off as int]);
    assert(big.subrange(0, start_of(s, b + 1))[offset(s, p)] == big[offset(s, p)]);
}

/// Every valid position lies inside the flattened input.
pub proof fn lemma_offset_bound(s: Seq<Seq<u8>>, p: Pos)
    requires
        valid_pos(s, p),
    ensures
        0 <= start_of(s, p.buf as int) <= offset(s, p) <= flatten(s).len(),
{
    lemma_take_succ(s, p.buf as int);
    lemma_prefix(s, p.buf as int + 1, s.len() as int);
    lemma_take_all(s);
}

/// Positions ordered chunk by chunk are ordered by offset.
pub proof fn lemma_pos_le_offset(s: Seq<Seq<u8>>, a: Pos, b: Pos)
    requires
        valid_pos(s, a),
        valid_pos(s, b),
        pos_le(a, b),
    ensures
        offset(s, a) <= offset(s, b),
{
    if a.buf < b.buf {
        lemma_take_succ(s, a.buf as int);
        lemma_prefix(s, a.buf as int + 1, b.buf as int);
    }
}

/// Reads the byte at position `p`, moving past exhausted chunks.
pub fn getchar(inp: &Vec<Vec<u8>>, p: Pos) -> (r: Option<(u8, Pos)>)
    requires
        valid_pos(chunks(inp), p),
    ensures
        match r {
            None => offset(chunks(inp), p) == flatten(chunks(inp)).len(),
            Some((b, q)) => {
                &&& offset(chunks(inp), p) < flatten(chunks(inp)).len()
                &&& b == flatten(chunks(inp))[offset(chunks(inp), p)]
                &&& valid_pos(chunks(inp), q)
                &&& pos_le(p, q)
                &&& offset(chunks(inp), q) == offset(chunks(inp), p) + 1
            },
        },
{
    let ghost s = chunks(inp);
    let mut q = p;
    loop
        invariant
            s == chunks(inp),
            valid_pos(s, p),
            valid_pos(s, q),
            pos_le(p, q),
            offset(s, q) == offset(s, p),
        decreases inp.len() - q.buf,
    {
        if q.off < inp[q.buf].len() {
            proof {
                lemma_flat_index(s, q);
            }
            return Some((inp[q.buf][q.off], Pos { buf: q.buf, off: q.off + 1 }));
        }
        proof {
            lemma_take_succ(s, q.buf as int);
        }
        if q.buf + 1 < inp.len() {
            q = Pos { buf: q.buf + 1, off: 0 };
        } else {
            proof {
                lemma_take_all(s);
            }
            return None;
        }
    }
}

/// The bytes of the flattened input from `a` up to `b`, gathered chunk by chunk.
pub fn bytes_between(inp: &Vec<Vec<u8>>, a: Pos, b: Pos) -> (r: Vec<u8>)
    requires
        valid_pos(chunks(inp), a),
        valid_pos(chunks(inp), b),
        pos_le(a, b),
    ensures
        offset(chunks(inp), a) <= offset(chunks(inp), b),
        r@ == flatten(chunks(inp)).subrange(offset(chunks(inp), a), offset(chunks(inp), b)),
{
    let ghost s = chunks(inp);
    let ghost flat = flatten(s);
    proof {
        lemma_pos_le_offset(s, a, b);
        lemma_offset_bound(s, b);
    }
    let mut r: Vec<u8> = Vec::new();
    let mut j = a.buf;
    let mut k = a.off;
    assert(r@ =~= flat.subrange(offset(s, a), offset(s, Pos { buf: j, off: k })));
    loop
        invariant
            s == chunks(inp),
            flat == flatten(s),
            valid_pos(s, a),
            valid_pos(s, b),
            valid_pos(s, Pos { buf: j, off: k }),
            pos_le(Pos { buf: j, off: k }, b),
            offset(s, a) <= offset(s, Pos { buf: j, off: k }),
            offset(s, b) <= flat.len(),
            r@ == flat.subrange(offset(s, a), offset(s, Pos { buf: j, off: k })),
        ensures
            j == b.buf && k == b.off,
            r@ == flat.subrange(offset(s, a), offset(s, b)),
        decreases b.buf - j, inp[j as int].len() - k,
    {
        let end = if j == b.buf {
            b.off
        } else {
            inp[j].len()
        };
        while k < end
            invariant
                s == chunks(inp),
                flat == flatten(s),
                j < s.len(),
                k <= end <= s[j as int].len(),
                j == b.buf ==> end == b.off,
                j < b.buf ==> end == s[j as int].len(),
                pos_le(Pos { buf: j, off: k }, b),
                offset(s, a) <= offset(s, Pos { buf: j, off: k }),
                r@ == flat.subrange(offset(s, a), offset(s, Pos { buf: j, off: k })),
            decreases end - k,
        {
            proof {
                lemma_flat_index(s, Pos { buf: j, off: k });
            }
            r.push(inp[j][k]);
            k += 1;
            assert(r@ =~= flat.subrange(offset(s, a), offset(s, Pos { buf: j, off: k })));
        }
        if j == b.buf {
            break ;
        }
        proof {
            lemma_take_succ(s, j as int);
        }
        j += 1;
        k = 0;
    }
    r
}

} // verus!
