use vstd::prelude::*;

use crate::chain::{table_view, wf_table, TransitionTable};
use crate::error::ChainError;
use crate::token::{tok_eq, TokSpec};

verus! {

/// The eight bytes of `x`, least significant first.
pub open spec fn enc_u64(x: u64) -> Seq<u8> {
    seq![
        (x & 0xff) as u8,
        ((x >> 8) & 0xff) as u8,
        ((x >> 16) & 0xff) as u8,
        ((x >> 24) & 0xff) as u8,
        ((x >> 32) & 0xff) as u8,
        ((x >> 40) & 0xff) as u8,
        ((x >> 48) & 0xff) as u8,
        ((x >> 56) & 0xff) as u8,
    ]
}

/// The value of the first eight bytes of `b`, least significant first.
pub open spec fn dec_u64_at(b: Seq<u8>) -> u64 {
    (b[0] as u64) | ((b[1] as u64) << 8) | ((b[2] as u64) << 16) | ((b[3] as u64) << 24) | ((
    b[4] as u64) << 32) | ((b[5] as u64) << 40) | ((b[6] as u64) << 48) | ((b[7] as u64) << 56)
}

/// Reading back the eight encoded bytes restores the value.
pub proof fn lemma_u64_roundtrip(x: u64)
    ensures
        dec_u64_at(enc_u64(x)) == x,
{
    let b = enc_u64(x);
    assert(b[0] == (x & 0xff) as u8);
    assert(b[1] == ((x >> 8) & 0xff) as u8);
    assert(b[2] == ((x >> 16) & 0xff) as u8);
    assert(b[3] == ((x >> 24) & 0xff) as u8);
    assert(b[4] == ((x >> 32) & 0xff) as u8);
    assert(b[5] == ((x >> 40) & 0xff) as u8);
    assert(b[6] == ((x >> 48) & 0xff) as u8);
    assert(b[7] == ((x >> 56) & 0xff) as u8);
    assert((((x & 0xff) as u8) as u64) | ((((x >> 8) & 0xff) as u8) as u64) << 8 | ((((x >> 16)
    & 0xff) as u8) as u64) << 16 | ((((x >> 24) & 0xff) as u8) as u64) << 24 | ((((x >> 32)
    & 0xff) as u8) as u64) << 32 | ((((x >> 40) & 0xff) as u8) as u64) << 40 | ((((x >> 48)
    & 0xff) as u8) as u64) << 48 | ((((x >> 56) & 0xff) as u8) as u64) << 56 == x)
        by (bit_vector);
}

/// A token as bytes: a tag, and for a word its length and its bytes.
pub open spec fn enc_tok(t: TokSpec) -> Seq<u8> {
    match t {
        TokSpec::Start => seq![0u8],
        TokSpec::End => seq![1u8],
        TokSpec::Word(w) => seq![2u8] + enc_u64(w.len() as u64) + w,
    }
}

/// One transition as bytes: predecessor, successor, count.
pub open spec fn enc_trip(t: (TokSpec, TokSpec, u64)) -> Seq<u8> {
    enc_tok(t.0) + enc_tok(t.1) + enc_u64(t.2)
}

/// All transitions, in table order.
pub open spec fn enc_trips(ts: Seq<(TokSpec, TokSpec, u64)>) -> Seq<u8>
    decreases ts.len(),
{
    if ts.len() == 0 {
        Seq::empty()
    } else {
        enc_trip(ts[0]) + enc_trips(ts.drop_first())
    }
}

/// A whole table as bytes: the number of transitions, then the transitions.
pub open spec fn enc_table(ts: Seq<(TokSpec, TokSpec, u64)>) -> Seq<u8> {
    enc_u64(ts.len() as u64) + enc_trips(ts)
}

/// Parses a count from the front of `b`, returning it and the remainder.
pub open spec fn dec_u64(b: Seq<u8>) -> Option<(u64, Seq<u8>)> {
    if b.len() >= 8 {
        Some((dec_u64_at(b), b.skip(8)))
    } else {
        None
    }
}

/// Parses one token from the front of `b`.
pub open spec fn dec_tok(b: Seq<u8>) -> Option<(TokSpec, Seq<u8>)> {
    if b.len() == 0 {
        None
    } else if b[0] == 0 {
        Some((TokSpec::Start, b.drop_first()))
    } else if b[0] == 1 {
        Some((TokSpec::End, b.drop_first()))
    } else if b[0] == 2 {
        match dec_u64(b.drop_first()) {
            None => None,
            Some((n, rest)) => if rest.len() >= n {
                Some((TokSpec::Word(rest.take(n as int)), rest.skip(n as int)))
            } else {
                None
            },
        }
    } else {
        None
    }
}

/// Parses one transition from the front of `b`.
pub open spec fn dec_trip(b: Seq<u8>) -> Option<((TokSpec, TokSpec, u64), Seq<u8>)> {
    match dec_tok(b) {
        None => None,
        Some((p, r1)) => match dec_tok(r1) {
            None => None,
            Some((q, r2)) => match dec_u64(r2) {
                None => None,
                Some((c, r3)) => Some(((p, q, c), r3)),
            },
        },
    }
}

/// Parses exactly `k` transitions from the front of `b`.
pub open spec fn dec_trips(b: Seq<u8>, k: nat) -> Option<(Seq<(TokSpec, TokSpec, u64)>, Seq<u8>)>
    decreases k,
{
    if k == 0 {
        Some((Seq::empty(), b))
    } else {
        match dec_trip(b) {
            None => None,
            Some((t, r)) => match dec_trips(r, (k - 1) as nat) {
                None => None,
                Some((ts, r2)) => Some((seq![t] + ts, r2)),
            },
        }
    }
}

/// Parses a whole table; trailing bytes make the record invalid.
pub open spec fn dec_table(b: Seq<u8>) -> Option<Seq<(TokSpec, TokSpec, u64)>> {
    match dec_u64(b) {
        None => None,
        Some((n, rest)) => match dec_trips(rest, n as nat) {
            None => None,
            Some((ts, r2)) => if r2.len() == 0 {
                Some(ts)
            } else {
                None
            },
        },
    }
}

/// A token whose encoded length field does not truncate.
pub open spec fn tok_encodable(t: TokSpec) -> bool {
    t is Word ==> t->Word_0.len() <= u64::MAX
}

/// A table whose sizes all fit their encoded fields.
pub open spec fn trips_encodable(ts: Seq<(TokSpec, TokSpec, u64)>) -> bool {
    &&& ts.len() <= u64::MAX
    &&& forall|i: int|
        0 <= i < ts.len() ==> tok_encodable((#[trigger] ts[i]).0) && tok_encodable(ts[i].1)
}

/// Parsing an encoded count from the front of any longer run of bytes
/// restores it and leaves the rest.
pub proof fn lemma_dec_u64_enc(x: u64, rest: Seq<u8>)
    ensures
        dec_u64(enc_u64(x) + rest) == Some((x, rest)),
{
    let b = enc_u64(x) + rest;
    assert(b.len() >= 8);
    assert forall|j: int| 0 <= j < 8 implies b[j] == enc_u64(x)[j] by {}
    lemma_u64_roundtrip(x);
    assert(dec_u64_at(b) == dec_u64_at(enc_u64(x)));
    assert(b.skip(8) =~= rest);
}

/// Parsing an encoded token from the front of any longer run of bytes
/// restores it and leaves the rest.
pub proof fn lemma_dec_tok_enc(t: TokSpec, rest: Seq<u8>)
    requires
        tok_encodable(t),
    ensures
        dec_tok(enc_tok(t) + rest) == Some((t, rest)),
{
    match t {
        TokSpec::Start => {
            let b = enc_tok(t) + rest;
            assert(b[0] == 0);
            assert(b.drop_first() =~= rest);
        },
        TokSpec::End => {
            let b = enc_tok(t) + rest;
            assert(b[0] == 1);
            assert(b.drop_first() =~= rest);
        },
        TokSpec::Word(w) => {
            let b = enc_tok(t) + rest;
            let wlen = w.len() as u64;
            assert(b[0] == 2);
            assert(b.drop_first() =~= enc_u64(wlen) + (w + rest));
            lemma_dec_u64_enc(wlen, w + rest);
            assert(dec_u64(b.drop_first()) == Some((wlen, w + rest)));
            assert(wlen as nat == w.len());
            assert((w + rest).len() >= wlen);
            assert((w + rest).take(wlen as int) =~= w);
            assert((w + rest).skip(wlen as int) =~= rest);
        },
    }
}

/// Parsing an encoded transition from the front of any longer run of bytes
/// restores it and leaves the rest.
pub proof fn lemma_dec_trip_enc(t: (TokSpec, TokSpec, u64), rest: Seq<u8>)
    requires
        tok_encodable(t.0),
        tok_encodable(t.1),
    ensures
        dec_trip(enc_trip(t) + rest) == Some((t, rest)),
{
    let b = enc_trip(t) + rest;
    assert(b =~= enc_tok(t.0) + (enc_tok(t.1) + (enc_u64(t.2) + rest)));
    lemma_dec_tok_enc(t.0, enc_tok(t.1) + (enc_u64(t.2) + rest));
    lemma_dec_tok_enc(t.1, enc_u64(t.2) + rest);
    lemma_dec_u64_enc(t.2, rest);
}

/// Parsing `ts.len()` encoded transitions from the front of any longer run
/// of bytes restores them and leaves the rest.
#[verifier::rlimit(100)]
#[verifier::spinoff_prover]
pub proof fn lemma_dec_trips_enc(ts: Seq<(TokSpec, TokSpec, u64)>, rest: Seq<u8>)
    requires
        forall|i: int|
            0 <= i < ts.len() ==> tok_encodable((#[trigger] ts[i]).0) && tok_encodable(ts[i].1),
    ensures
        dec_trips(enc_trips(ts) + rest, ts.len() as nat) == Some((ts, rest)),
    decreases ts.len(),
{
    if ts.len() == 0 {
        assert(enc_trips(ts) + rest =~= rest);
        assert(ts =~= Seq::<(TokSpec, TokSpec, u64)>::empty());
    } else {
        let tail = ts.drop_first();
        let b = enc_trips(ts) + rest;
        assert(forall|k: int| 0 <= k < tail.len() ==> tail[k] == ts[k + 1]);
        assert(b =~= enc_trip(ts[0]) + (enc_trips(tail) + rest));
        lemma_dec_trip_enc(ts[0], enc_trips(tail) + rest);
        assert(dec_trip(b) == Some((ts[0], enc_trips(tail) + rest)));
        lemma_dec_trips_enc(tail, rest);
        assert(dec_trips(enc_trips(tail) + rest, tail.len() as nat) == Some((tail, rest)));
        assert(seq![ts[0]] + tail =~= ts);
        assert(dec_trips(b, ts.len() as nat) == Some((seq![ts[0]] + tail, rest)));
    }
}

/// Round trip: decoding an encoded table restores exactly its
/// (predecessor, successor, count) triples.
pub proof fn lemma_table_roundtrip(ts: Seq<(TokSpec, TokSpec, u64)>)
    requires
        trips_encodable(ts),
    ensures
        dec_table(enc_table(ts)) == Some(ts),
{
    let n = ts.len() as u64;
    lemma_dec_u64_enc(n, enc_trips(ts));
    assert(n as nat == ts.len());
    lemma_dec_trips_enc(ts, Seq::empty());
    assert(enc_trips(ts) + Seq::<u8>::empty() =~= enc_trips(ts));
}

/// Appending one transition extends the encoding on the right.
pub proof fn lemma_enc_trips_push(ts: Seq<(TokSpec, TokSpec, u64)>, x: (TokSpec, TokSpec, u64))
    ensures
        enc_trips(ts.push(x)) == enc_trips(ts) + enc_trip(x),
    decreases ts.len(),
{
    if ts.len() == 0 {
        let p = ts.push(x);
        assert(p[0] == x);
        assert(p.drop_first() =~= Seq::<(TokSpec, TokSpec, u64)>::empty());
        assert(enc_trips(p.drop_first()) == Seq::<u8>::empty());
        assert(enc_trips(p) == enc_trip(x) + Seq::<u8>::empty());
        assert(enc_trips(ts) == Seq::<u8>::empty());
        assert(enc_trip(x) + Seq::<u8>::empty() =~= Seq::<u8>::empty() + enc_trip(x));
    } else {
        assert(ts.push(x)[0] == ts[0]);
        assert(ts.push(x).drop_first() =~= ts.drop_first().push(x));
        lemma_enc_trips_push(ts.drop_first(), x);
        assert(enc_trip(ts[0]) + (enc_trips(ts.drop_first()) + enc_trip(x)) =~= (enc_trip(ts[0])
        + enc_trips(ts.drop_first())) + enc_trip(x));
    }
}

/// Appends the eight bytes of `x`, least significant first.
fn push_u64(out: &mut Vec<u8>, x: u64)
    ensures
        final(out)@ == old(out)@ + enc_u64(x),
{
    proof {
        assert(x & 0xff <= 0xff) by (bit_vector);
        assert((x >> 8) & 0xff <= 0xff) by (bit_vector);
        assert((x >> 16) & 0xff <= 0xff) by (bit_vector);
        assert((x >> 24) & 0xff <= 0xff) by (bit_vector);
        assert((x >> 32) & 0xff <= 0xff) by (bit_vector);
        assert((x >> 40) & 0xff <= 0xff) by (bit_vector);
        assert((x >> 48) & 0xff <= 0xff) by (bit_vector);
        assert((x >> 56) & 0xff <= 0xff) by (bit_vector);
    }
    out.push((x & 0xff) as u8);
    out.push(((x >> 8) & 0xff) as u8);
    out.push(((x >> 16) & 0xff) as u8);
    out.push(((x >> 24) & 0xff) as u8);
    out.push(((x >> 32) & 0xff) as u8);
    out.push(((x >> 40) & 0xff) as u8);
    out.push(((x >> 48) & 0xff) as u8);
    out.push(((x >> 56) & 0xff) as u8);
    proof {
        assert(out@ =~= old(out)@ + enc_u64(x));
    }
}

/// Appends the encoding of one token.
fn push_tok(out: &mut Vec<u8>, t: &crate::token::Tok)
    ensures
        final(out)@ == old(out)@ + enc_tok(t@),
{
    match t {
        crate::token::Tok::Start => {
            out.push(0u8);
            proof {
                assert(out@ =~= old(out)@ + enc_tok(t@));
            }
        },
        crate::token::Tok::End => {
            out.push(1u8);
            proof {
                assert(out@ =~= old(out)@ + enc_tok(t@));
            }
        },
        crate::token::Tok::Word(w) => {
            out.push(2u8);
            push_u64(out, w.len() as u64);
            let ghost mid = out@;
            let n_w = w.len();
            let mut j: usize = 0;
            while j < n_w
                invariant
                    n_w == w.len(),
                    j <= n_w,
                    out@ == mid + w@.take(j as int),
                decreases n_w - j,
            {
                proof {
                    assert(w@.take(j + 1) =~= w@.take(j as int).push(w@[j as int]));
                }
                out.push(w[j]);
                j = j + 1;
            }
            proof {
                assert(w@.take(n_w as int) =~= w@);
                assert((w@.len() as u64) == (n_w as u64));
                assert(out@ =~= old(out)@ + enc_tok(t@));
            }
        },
    }
}

/// Encodes a table's transitions to bytes.
pub fn encode(t: &TransitionTable) -> (r: Vec<u8>)
    ensures
        r@ == enc_table(t@),
{
    let mut out: Vec<u8> = Vec::new();
    let n_edges = t.edges.len();
    push_u64(&mut out, n_edges as u64);
    proof {
        assert((t@.len() as u64) == (n_edges as u64));
        assert(t@.take(0) =~= Seq::<(TokSpec, TokSpec, u64)>::empty());
        assert(out@ =~= enc_u64(t@.len() as u64) + enc_trips(t@.take(0)));
    }
    let mut i: usize = 0;
    while i < n_edges
        invariant
            n_edges == t.edges.len(),
            i <= n_edges,
            out@ == enc_u64(t@.len() as u64) + enc_trips(t@.take(i as int)),
        decreases n_edges - i,
    {
        proof {
            assert(t@[i as int] == (t.edges@[i as int].prev@, t.edges@[i as int].next@,
            t.edges@[i as int].count));
        }
        push_tok(&mut out, &t.edges[i].prev);
        push_tok(&mut out, &t.edges[i].next);
        push_u64(&mut out, t.edges[i].count);
        proof {
            let trip = t@[i as int];
            assert(t@.take(i + 1) =~= t@.take(i as int).push(trip));
            lemma_enc_trips_push(t@.take(i as int), trip);
            assert(enc_trip(trip) =~= (enc_tok(trip.0) + enc_tok(trip.1)) + enc_u64(trip.2));
            assert(out@ =~= enc_u64(t@.len() as u64) + enc_trips(t@.take(i + 1)));
        }
        i = i + 1;
    }
    proof {
        assert(t@.take(n_edges as int) =~= t@);
    }
    out
}

/// Reads an encoded count at `off`.
fn read_u64(b: &[u8], off: usize) -> (r: Option<(u64, usize)>)
    requires
        off <= b@.len(),
    ensures
        (match r {
            Some(p) => p.1 == off + 8 && p.1 <= b@.len() && dec_u64(b@.skip(off as int)) == Some(
                (p.0, b@.skip(p.1 as int)),
            ),
            None => dec_u64(b@.skip(off as int)) is None,
        }),
{
    if b.len() - off < 8 {
        proof {
            assert(b@.skip(off as int).len() < 8);
        }
        return None;
    }
    let x: u64 = (b[off] as u64) | ((b[off + 1] as u64) << 8) | ((b[off + 2] as u64) << 16) | ((
    b[off + 3] as u64) << 24) | ((b[off + 4] as u64) << 32) | ((b[off + 5] as u64) << 40) | ((
    b[off + 6] as u64) << 48) | ((b[off + 7] as u64) << 56);
    proof {
        let s = b@.skip(off as int);
        assert(s.len() >= 8);
        assert forall|j: int| 0 <= j < 8 implies s[j] == b@[off + j] by {}
        assert(x == dec_u64_at(s));
        assert(s.skip(8) =~= b@.skip(off as int + 8));
    }
    Some((x, off + 8))
}

/// Reads an encoded token at `off`.
fn read_tok(b: &[u8], off: usize) -> (r: Option<(crate::token::Tok, usize)>)
    requires
        off <= b@.len(),
    ensures
        (match r {
            Some(p) => off < p.1 <= b@.len() && dec_tok(b@.skip(off as int)) == Some(
                (p.0@, b@.skip(p.1 as int)),
            ),
            None => dec_tok(b@.skip(off as int)) is None,
        }),
{
    if off >= b.len() {
        proof {
            assert(b@.skip(off as int).len() == 0);
        }
        return None;
    }
    let tag = b[off];
    proof {
        assert(b@.skip(off as int)[0] == b@[off as int]);
        assert(b@.skip(off as int).drop_first() =~= b@.skip(off as int + 1));
    }
    if tag == 0 {
        return Some((crate::token::Tok::Start, off + 1));
    }
    if tag == 1 {
        return Some((crate::token::Tok::End, off + 1));
    }
    if tag != 2 {
        return None;
    }
    match read_u64(b, off + 1) {
        None => None,
        Some((n, off2)) => {
            let rem = b.len() - off2;
            if n > rem as u64 {
                proof {
                    assert(b@.skip(off2 as int).len() < n);
                }
                return None;
            }
            let nn = n as usize;
            let mut w: Vec<u8> = Vec::new();
            let mut j: usize = 0;
            proof {
                assert(b@.subrange(off2 as int, off2 as int) =~= Seq::<u8>::empty());
            }
            while j < nn
                invariant
                    j <= nn,
                    off2 + nn <= b@.len(),
                    b@.len() <= usize::MAX,
                    w@ == b@.subrange(off2 as int, off2 + j),
                decreases nn - j,
            {
                proof {
                    assert(b@.subrange(off2 as int, off2 + j + 1) =~= b@.subrange(
                        off2 as int,
                        off2 + j,
                    ).push(b@[off2 + j]));
                }
                w.push(b[off2 + j]);
                j = j + 1;
            }
            proof {
                let rest = b@.skip(off2 as int);
                assert(rest.take(n as int) =~= b@.subrange(off2 as int, off2 + nn));
                assert(rest.skip(n as int) =~= b@.skip(off2 + nn));
            }
            Some((crate::token::Tok::Word(w), off2 + nn))
        },
    }
}

/// Decides the table invariant for a freshly decoded table.
pub fn is_wf(t: &TransitionTable) -> (r: bool)
    ensures
        r == wf_table(t@),
{
    let n_edges = t.edges.len();
    let mut i: usize = 0;
    while i < n_edges
        invariant
            n_edges == t.edges.len(),
            i <= n_edges,
            forall|a: int| 0 <= a < i ==> (#[trigger] t@[a]).2 >= 1,
            forall|a: int|
                0 <= a < i ==> crate::chain::tok_prev_ok((#[trigger] t@[a]).0)
                && crate::chain::tok_next_ok(t@[a].1),
            forall|a: int, bb: int|
                0 <= a < bb < i ==> !(#[trigger] t@[a].0 == #[trigger] t@[bb].0 && t@[a].1
                == t@[bb].1),
        decreases n_edges - i,
    {
        proof {
            assert(t@[i as int] == (t.edges@[i as int].prev@, t.edges@[i as int].next@,
            t.edges@[i as int].count));
        }
        if t.edges[i].count < 1 {
            return false;
        }
        match &t.edges[i].prev {
            crate::token::Tok::End => {
                return false;
            },
            _ => {},
        }
        match &t.edges[i].next {
            crate::token::Tok::Start => {
                return false;
            },
            _ => {},
        }
        let mut j: usize = 0;
        while j < i
            invariant
                n_edges == t.edges.len(),
                i < n_edges,
                j <= i,
                forall|jj: int|
                    0 <= jj < j ==> !((#[trigger] t@[jj]).0 == t@[i as int].0 && t@[jj].1
                    == t@[i as int].1),
            decreases i - j,
        {
            proof {
                assert(t@[j as int] == (t.edges@[j as int].prev@, t.edges@[j as int].next@,
                t.edges@[j as int].count));
                assert(t@[i as int] == (t.edges@[i as int].prev@, t.edges@[i as int].next@,
                t.edges@[i as int].count));
            }
            let dup = tok_eq(&t.edges[j].prev, &t.edges[i].prev) && tok_eq(
                &t.edges[j].next,
                &t.edges[i].next,
            );
            if dup {
                return false;
            }
            j = j + 1;
        }
        i = i + 1;
    }
    true
}

/// Decodes stored bytes back into a transition table.  Any byte sequence
/// that the parser rejects, or that parses to a table breaking the table
/// invariant, is a corrupt record; bytes produced by `encode` from a
/// well-formed table always decode to an equal table.
pub fn decode(b: &[u8]) -> (r: Result<TransitionTable, ChainError>)
    ensures
        (match dec_table(b@) {
            Some(ts) => (if wf_table(ts) {
                r is Ok && r->Ok_0@ == ts && r->Ok_0.wf()
            } else {
                r == Err::<TransitionTable, ChainError>(ChainError::CorruptRecord)
            }),
            None => r == Err::<TransitionTable, ChainError>(ChainError::CorruptRecord),
        }),
{
    proof {
        assert(b@.skip(0) =~= b@);
    }
    let hdr = read_u64(b, 0);
    match hdr {
        None => Err(ChainError::CorruptRecord),
        Some((n, off0)) => {
            let mut edges: Vec<crate::chain::Edge> = Vec::new();
            let mut off: usize = off0;
            let mut k: u64 = 0;
            proof {
                assert(table_view(edges@) =~= Seq::<(TokSpec, TokSpec, u64)>::empty());
                assert(Seq::<(TokSpec, TokSpec, u64)>::empty() + Seq::<(
                    TokSpec,
                    TokSpec,
                    u64,
                )>::empty() =~= Seq::<(TokSpec, TokSpec, u64)>::empty());
            }
            while k < n
                invariant
                    off <= b@.len(),
                    k <= n,
                    dec_u64(b@) == Some((n, b@.skip(off0 as int))),
                    (match dec_trips(b@.skip(off as int), (n - k) as nat) {
                        None => dec_trips(b@.skip(off0 as int), n as nat) is None,
                        Some(pr) => dec_trips(b@.skip(off0 as int), n as nat) == Some(
                            (table_view(edges@) + pr.0, pr.1),
                        ),
                    }),
                decreases n - k,
            {
                let ghost tv0 = table_view(edges@);
                let p = match read_tok(b, off) {
                    None => {
                        return Err(ChainError::CorruptRecord);
                    },
                    Some(p) => p,
                };
                let q = match read_tok(b, p.1) {
                    None => {
                        return Err(ChainError::CorruptRecord);
                    },
                    Some(q) => q,
                };
                let c = match read_u64(b, q.1) {
                    None => {
                        return Err(ChainError::CorruptRecord);
                    },
                    Some(c) => c,
                };
                let ghost trip = (p.0@, q.0@, c.0);
                proof {
                    assert(dec_trip(b@.skip(off as int)) == Some((trip, b@.skip(c.1 as int))));
                }
                let e = crate::chain::Edge { prev: p.0, next: q.0, count: c.0 };
                edges.push(e);
                proof {
                    assert(table_view(edges@) =~= tv0.push(trip));
                    match dec_trips(b@.skip(c.1 as int), (n - k - 1) as nat) {
                        None => {},
                        Some(pr2) => {
                            assert(dec_trips(b@.skip(off as int), (n - k) as nat) == Some(
                                (seq![trip] + pr2.0, pr2.1),
                            ));
                            assert(tv0 + (seq![trip] + pr2.0) =~= table_view(edges@) + pr2.0);
                        },
                    }
                }
                off = c.1;
                k = k + 1;
            }
            proof {
                assert(dec_trips(b@.skip(off as int), 0) == Some(
                    (Seq::<(TokSpec, TokSpec, u64)>::empty(), b@.skip(off as int)),
                ));
                assert(table_view(edges@) + Seq::<(TokSpec, TokSpec, u64)>::empty() =~= table_view(
                    edges@,
                ));
            }
            if off != b.len() {
                proof {
                    assert(b@.skip(off as int).len() != 0);
                }
                return Err(ChainError::CorruptRecord);
            }
            proof {
                assert(b@.skip(off as int).len() == 0);
            }
            let t = TransitionTable { edges };
            if is_wf(&t) {
                Ok(t)
            } else {
                Err(ChainError::CorruptRecord)
            }
        },
    }
}

} // verus!
