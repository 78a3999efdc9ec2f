use vstd::prelude::*;

verus! {

/// A token at specification level: one of the two reserved sentinels, or the
/// bytes of a whitespace-delimited word.
pub enum TokSpec {
    Start,
    End,
    Word(Seq<u8>),
}

/// A token: the beginning-of-text sentinel, the end-of-text sentinel, or a
/// whitespace-delimited word.  The sentinels never occur in user text.
pub enum Tok {
    Start,
    End,
    Word(Vec<u8>),
}

impl View for Tok {
    type V = TokSpec;

    open spec fn view(&self) -> TokSpec {
        match self {
            Tok::Start => TokSpec::Start,
            Tok::End => TokSpec::End,
            Tok::Word(w) => TokSpec::Word(w@),
        }
    }
}

impl Tok {
    /// An independent copy with the same view.
    pub fn dup(&self) -> (r: Tok)
        ensures
            r@ == self@,
    {
        match self {
            Tok::Start => Tok::Start,
            Tok::End => Tok::End,
            Tok::Word(w) => Tok::Word(copy_bytes(w)),
        }
    }
}

/// Copies a byte vector element by element.
pub fn copy_bytes(v: &Vec<u8>) -> (r: Vec<u8>)
    ensures
        r@ == v@,
{
    let mut r: Vec<u8> = Vec::new();
    let mut i: usize = 0;
    while i < v.len()
        invariant
            i <= v.len(),
            r@ == v@.take(i as int),
        decreases v.len() - i,
    {
        proof {
            assert(v@.take(i + 1) =~= v@.take(i as int).push(v@[i as int]));
        }
        r.push(v[i]);
        i = i + 1;
    }
    proof {
        assert(v@.take(v@.len() as int) =~= v@);
    }
    r
}

/// Byte-wise equality of two byte vectors.
pub fn bytes_eq(a: &Vec<u8>, b: &Vec<u8>) -> (r: bool)
    ensures
        r == (a@ == b@),
{
    if a.len() != b.len() {
        return false;
    }
    let mut i: usize = 0;
    while i < a.len()
        invariant
            i <= a.len(),
            a@.len() == b@.len(),
            forall|k: int| 0 <= k < i ==> a@[k] == b@[k],
        decreases a.len() - i,
    {
        if a[i] != b[i] {
            return false;
        }
        i = i + 1;
    }
    proof {
        assert(a@ =~= b@);
    }
    true
}

/// Equality of two tokens, decided by their views.
pub fn tok_eq(a: &Tok, b: &Tok) -> (r: bool)
    ensures
        r == (a@ == b@),
{
    match (a, b) {
        (Tok::Start, Tok::Start) => true,
        (Tok::End, Tok::End) => true,
        (Tok::Word(x), Tok::Word(y)) => bytes_eq(x, y),
        _ => false,
    }
}

/// The bytes treated as word separators: space, tab, line feed, carriage
/// return.
pub open spec fn is_ws(b: u8) -> bool {
    b == 32 || b == 9 || b == 10 || b == 13
}

/// Left-to-right splitting of `s` into maximal runs of non-separator bytes:
/// `cur` is the partial word collected so far, `acc` the words already
/// complete.
pub open spec fn split_from(s: Seq<u8>, cur: Seq<u8>, acc: Seq<Seq<u8>>) -> Seq<Seq<u8>>
    decreases s.len(),
{
    if s.len() == 0 {
        if cur.len() == 0 {
            acc
        } else {
            acc.push(cur)
        }
    } else if is_ws(s[0]) {
        if cur.len() == 0 {
            split_from(s.drop_first(), Seq::empty(), acc)
        } else {
            split_from(s.drop_first(), Seq::empty(), acc.push(cur))
        }
    } else {
        split_from(s.drop_first(), cur.push(s[0]), acc)
    }
}

/// The words of `s`: maximal whitespace-free runs, empties discarded.
pub open spec fn words_of(s: Seq<u8>) -> Seq<Seq<u8>> {
    split_from(s, Seq::empty(), Seq::empty())
}

/// Splits `text` into its whitespace-separated words.
pub fn tokenize(text: &[u8]) -> (r: Vec<Vec<u8>>)
    ensures
        r.deep_view() == words_of(text@),
{
    let mut out: Vec<Vec<u8>> = Vec::new();
    let mut cur: Vec<u8> = Vec::new();
    let mut i: usize = 0;
    proof {
        assert(text@.skip(0) =~= text@);
        assert(out.deep_view() =~~= Seq::<Seq<u8>>::empty());
    }
    while i < text.len()
        invariant
            i <= text@.len(),
            words_of(text@) == split_from(text@.skip(i as int), cur@, out.deep_view()),
        decreases text@.len() - i,
    {
        let ghost dv0 = out.deep_view();
        proof {
            assert(text@.skip(i as int).len() > 0);
            assert(text@.skip(i as int)[0] == text@[i as int]);
            assert(text@.skip(i as int).drop_first() =~= text@.skip(i as int + 1));
        }
        let b = text[i];
        if b == 32 || b == 9 || b == 10 || b == 13 {
            proof {
                if cur@.len() == 0 {
                    assert(cur@ =~= Seq::<u8>::empty());
                }
            }
            if cur.len() > 0 {
                let ghost cv = cur@;
                out.push(cur);
                cur = Vec::new();
                proof {
                    assert(out.deep_view() =~~= dv0.push(cv));
                }
            }
        } else {
            cur.push(b);
        }
        i = i + 1;
    }
    proof {
        assert(text@.skip(i as int) =~= Seq::<u8>::empty());
    }
    if cur.len() > 0 {
        let ghost dv0 = out.deep_view();
        let ghost cv = cur@;
        out.push(cur);
        proof {
            assert(out.deep_view() =~~= dv0.push(cv));
        }
    }
    out
}

/// The token sequence one feed of `ws` observes: the words wrapped in the
/// two sentinels.
pub open spec fn walk_of(ws: Seq<Seq<u8>>) -> Seq<TokSpec> {
    seq![TokSpec::Start] + ws.map(|i: int, w: Seq<u8>| TokSpec::Word(w)) + seq![TokSpec::End]
}

/// Shape of a walk: length, both sentinels, and the words in between.
pub proof fn lemma_walk_shape(ws: Seq<Seq<u8>>)
    ensures
        walk_of(ws).len() == ws.len() + 2,
        walk_of(ws)[0] == TokSpec::Start,
        walk_of(ws)[ws.len() as int + 1] == TokSpec::End,
        forall|i: int| 0 <= i < ws.len() ==> walk_of(ws)[i + 1] == TokSpec::Word(ws[i]),
{
    let m = ws.map(|i: int, w: Seq<u8>| TokSpec::Word(w));
    assert(m.len() == ws.len());
    assert(walk_of(ws).len() == ws.len() + 2);
    assert(walk_of(ws)[0] == TokSpec::Start);
    assert(walk_of(ws)[ws.len() as int + 1] == TokSpec::End);
    assert forall|i: int| 0 <= i < ws.len() implies walk_of(ws)[i + 1] == TokSpec::Word(ws[i]) by {
        assert(m[i] == TokSpec::Word(ws[i]));
        assert(walk_of(ws)[i + 1] == m[i]);
    }
}

} // verus!
