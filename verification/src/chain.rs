use vstd::prelude::*;

use crate::error::ChainError;
use crate::token::{
    copy_bytes, lemma_walk_shape, tok_eq, tokenize, walk_of, words_of, Tok, TokSpec,
};

verus! {

/// One transition: `count` occurrences of `next` after `prev` were observed.
pub struct Edge {
    pub prev: Tok,
    pub next: Tok,
    pub count: u64,
}

/// The transition table of one chain: a list of edges with pairwise distinct
/// `(prev, next)` pairs.
pub struct TransitionTable {
    pub edges: Vec<Edge>,
}

/// A trainable, generative token model for one identifier.
pub struct Chain {
    pub table: TransitionTable,
}

/// A predecessor is the start sentinel or a word, never the end sentinel.
pub open spec fn tok_prev_ok(t: TokSpec) -> bool {
    t is Start || t is Word
}

/// A successor is the end sentinel or a word, never the start sentinel.
pub open spec fn tok_next_ok(t: TokSpec) -> bool {
    t is End || t is Word
}

/// The abstract content of a table: its (predecessor, successor, count)
/// triples in order.
pub open spec fn table_view(s: Seq<Edge>) -> Seq<(TokSpec, TokSpec, u64)> {
    s.map(|i: int, e: Edge| (e.prev@, e.next@, e.count))
}

/// Well-formedness of a table's triples: distinct pairs, positive counts,
/// and sentinels only on their own side.
pub open spec fn wf_table(t: Seq<(TokSpec, TokSpec, u64)>) -> bool {
    &&& forall|i: int, j: int|
        0 <= i < j < t.len() ==> !(#[trigger] t[i].0 == #[trigger] t[j].0 && t[i].1 == t[j].1)
    &&& forall|i: int| 0 <= i < t.len() ==> (#[trigger] t[i]).2 >= 1
    &&& forall|i: int| 0 <= i < t.len() ==> tok_prev_ok((#[trigger] t[i]).0) && tok_next_ok(t[i].1)
}

/// The recorded count for the pair `(p, n)`: that of the first triple that
/// carries it, or zero if none does.
pub open spec fn trip_count(t: Seq<(TokSpec, TokSpec, u64)>, p: TokSpec, n: TokSpec) -> nat
    decreases t.len(),
{
    if t.len() == 0 {
        0
    } else if t[0].0 == p && t[0].1 == n {
        t[0].2 as nat
    } else {
        trip_count(t.drop_first(), p, n)
    }
}

/// `a + k` saturating at the largest representable count.
pub open spec fn cap_add(a: nat, k: nat) -> nat {
    if a + k <= u64::MAX {
        a + k
    } else {
        u64::MAX as nat
    }
}

/// Saturating addition composes: adding `j` and then `k` is adding `j + k`.
pub proof fn lemma_cap_add_assoc(a: nat, j: nat, k: nat)
    ensures
        cap_add(cap_add(a, j), k) == cap_add(a, j + k),
{
}

/// If nothing before `i` carries the pair of `t[i]`, the count of that pair
/// is the count stored at `i`.
pub proof fn lemma_count_at(t: Seq<(TokSpec, TokSpec, u64)>, i: int)
    requires
        0 <= i < t.len(),
        forall|k: int| 0 <= k < i ==> !(#[trigger] t[k].0 == t[i].0 && t[k].1 == t[i].1),
    ensures
        trip_count(t, t[i].0, t[i].1) == t[i].2,
    decreases i,
{
    if i == 0 {
    } else {
        let t2 = t.drop_first();
        assert(t2.len() == t.len() - 1);
        assert(forall|k: int| 0 <= k < t2.len() ==> t2[k] == t[k + 1]);
        assert(!(t[0].0 == t[i].0 && t[0].1 == t[i].1));
        lemma_count_at(t2, i - 1);
    }
}

/// In a well-formed table the count of the pair at any index is the count
/// stored there.
pub proof fn lemma_count_match(t: Seq<(TokSpec, TokSpec, u64)>, i: int)
    requires
        wf_table(t),
        0 <= i < t.len(),
    ensures
        trip_count(t, t[i].0, t[i].1) == t[i].2,
{
    lemma_count_at(t, i);
}

/// A pair no triple carries has count zero.
pub proof fn lemma_count_absent(t: Seq<(TokSpec, TokSpec, u64)>, p: TokSpec, n: TokSpec)
    requires
        forall|k: int| 0 <= k < t.len() ==> !(#[trigger] t[k].0 == p && t[k].1 == n),
    ensures
        trip_count(t, p, n) == 0,
    decreases t.len(),
{
    if t.len() == 0 {
    } else {
        let t2 = t.drop_first();
        assert(forall|k: int| 0 <= k < t2.len() ==> t2[k] == t[k + 1]);
        lemma_count_absent(t2, p, n);
    }
}

/// A recorded count is a stored machine word, so it never exceeds the
/// largest representable count.
pub proof fn lemma_count_le_max(t: Seq<(TokSpec, TokSpec, u64)>, p: TokSpec, n: TokSpec)
    ensures
        trip_count(t, p, n) <= u64::MAX,
    decreases t.len(),
{
    if t.len() == 0 {
    } else if t[0].0 == p && t[0].1 == n {
    } else {
        lemma_count_le_max(t.drop_first(), p, n);
    }
}

impl View for TransitionTable {
    type V = Seq<(TokSpec, TokSpec, u64)>;

    open spec fn view(&self) -> Seq<(TokSpec, TokSpec, u64)> {
        table_view(self.edges@)
    }
}

impl TransitionTable {
    /// The table invariant.
    pub open spec fn wf(&self) -> bool {
        wf_table(self@)
    }

    /// The recorded count for the pair `(p, n)`.
    pub open spec fn count(&self, p: TokSpec, n: TokSpec) -> nat {
        trip_count(self@, p, n)
    }

    /// A table with no transitions at all.
    pub fn new() -> (r: TransitionTable)
        ensures
            r.wf(),
            r@ =~= Seq::<(TokSpec, TokSpec, u64)>::empty(),
            forall|p: TokSpec, n: TokSpec| r.count(p, n) == 0,
    {
        let t = TransitionTable { edges: Vec::new() };
        proof {
            assert(t@ =~= Seq::<(TokSpec, TokSpec, u64)>::empty());
            assert forall|p: TokSpec, n: TokSpec| t.count(p, n) == 0 by {
                lemma_count_absent(t@, p, n);
            }
        }
        t
    }

    /// Records one more observation of `next` following `prev`, creating the
    /// edge if it is new; an existing count saturates at the largest
    /// representable value rather than wrapping.
    pub fn increment(&mut self, prev: &Tok, next: &Tok)
        requires
            old(self).wf(),
            tok_prev_ok(prev@),
            tok_next_ok(next@),
        ensures
            final(self).wf(),
            forall|p: TokSpec, n: TokSpec|
                #[trigger] final(self).count(p, n) == if p == prev@ && n == next@ {
                    cap_add(old(self).count(p, n), 1)
                } else {
                    old(self).count(p, n)
                },
    {
        let ghost t0 = self@;
        let n_edges = self.edges.len();
        let mut i: usize = 0;
        while i < n_edges
            invariant
                old(self).wf(),
                *self == *old(self),
                n_edges == self.edges.len(),
                i <= n_edges,
                t0 == self@,
                forall|k: int| 0 <= k < i ==> !(#[trigger] t0[k].0 == prev@ && t0[k].1 == next@),
            decreases n_edges - i,
        {
            proof {
                assert(t0[i as int] == (self.edges@[i as int].prev@, self.edges@[i as int].next@,
                self.edges@[i as int].count));
            }
            let hit = tok_eq(&self.edges[i].prev, prev) && tok_eq(&self.edges[i].next, next);
            if hit {
                let c = self.edges[i].count;
                let c2 = if c == u64::MAX {
                    c
                } else {
                    c + 1
                };
                let p2 = self.edges[i].prev.dup();
                let n2 = self.edges[i].next.dup();
                self.edges[i] = Edge { prev: p2, next: n2, count: c2 };
                proof {
                    let t1 = self@;
                    assert(t1 =~= t0.update(i as int, (prev@, next@, c2)));
                    assert(forall|k: int|
                        0 <= k < t1.len() ==> #[trigger] t1[k].0 == t0[k].0 && t1[k].1 == t0[k].1);
                    assert(wf_table(t1));
                    assert forall|p: TokSpec, n: TokSpec|
                        #[trigger] trip_count(t1, p, n) == if p == prev@ && n == next@ {
                            cap_add(trip_count(t0, p, n), 1)
                        } else {
                            trip_count(t0, p, n)
                        } by {
                        if p == prev@ && n == next@ {
                            lemma_count_match(t0, i as int);
                            lemma_count_match(t1, i as int);
                        } else {
                            if exists|k: int| 0 <= k < t0.len() && (#[trigger] t0[k].0 == p
                            && t0[k].1 == n) {
                                let k = choose|k: int|
                                    0 <= k < t0.len() && (#[trigger] t0[k].0 == p && t0[k].1 == n);
                                assert(k != i);
                                lemma_count_match(t0, k);
                                lemma_count_match(t1, k);
                            } else {
                                lemma_count_absent(t0, p, n);
                                lemma_count_absent(t1, p, n);
                            }
                        }
                    }
                }
                return ;
            }
            i = i + 1;
        }
        let e = Edge { prev: prev.dup(), next: next.dup(), count: 1 };
        self.edges.push(e);
        proof {
            let t1 = self@;
            assert(t1 =~= t0.push((prev@, next@, 1u64)));
            assert(forall|k: int| 0 <= k < t0.len() ==> t1[k] == t0[k]);
            assert(t1[t0.len() as int] == (prev@, next@, 1u64));
            assert(wf_table(t1));
            assert forall|p: TokSpec, n: TokSpec|
                #[trigger] trip_count(t1, p, n) == if p == prev@ && n == next@ {
                    cap_add(trip_count(t0, p, n), 1)
                } else {
                    trip_count(t0, p, n)
                } by {
                if p == prev@ && n == next@ {
                    lemma_count_absent(t0, p, n);
                    lemma_count_match(t1, t0.len() as int);
                } else {
                    if exists|k: int| 0 <= k < t0.len() && (#[trigger] t0[k].0 == p && t0[k].1
                    == n) {
                        let k = choose|k: int|
                            0 <= k < t0.len() && (#[trigger] t0[k].0 == p && t0[k].1 == n);
                        lemma_count_match(t0, k);
                        lemma_count_match(t1, k);
                    } else {
                        lemma_count_absent(t0, p, n);
                        lemma_count_absent(t1, p, n);
                    }
                }
            }
        }
    }
}

/// How many of the first `k` adjacent pairs of the walk `w` are `(p, n)`.
pub open spec fn occ_upto(w: Seq<TokSpec>, k: int, p: TokSpec, n: TokSpec) -> nat
    decreases k,
{
    if k <= 0 {
        0
    } else {
        occ_upto(w, k - 1, p, n) + (if w[k - 1] == p && w[k] == n {
            1nat
        } else {
            0nat
        })
    }
}

/// How many adjacent pairs of the walk `w` are `(p, n)`.
pub open spec fn pair_occ(w: Seq<TokSpec>, p: TokSpec, n: TokSpec) -> nat {
    occ_upto(w, w.len() - 1, p, n)
}

/// Counting over a longer prefix never counts fewer pairs.
pub proof fn lemma_occ_upto_mono(w: Seq<TokSpec>, j: int, k: int, p: TokSpec, n: TokSpec)
    requires
        j <= k,
    ensures
        occ_upto(w, j, p, n) <= occ_upto(w, k, p, n),
    decreases k - j,
{
    if j < k {
        lemma_occ_upto_mono(w, j, k - 1, p, n);
    }
}

impl Chain {
    /// The chain invariant: its table is well formed.
    pub open spec fn wf(&self) -> bool {
        self.table.wf()
    }

    /// The recorded count for the pair `(p, n)`.
    pub open spec fn count(&self, p: TokSpec, n: TokSpec) -> nat {
        self.table.count(p, n)
    }

    /// A chain is empty iff no transition leaves the start sentinel.
    pub open spec fn empty_spec(&self) -> bool {
        forall|n: TokSpec| self.count(TokSpec::Start, n) == 0
    }

    /// A chain that was never fed.
    pub fn new_empty() -> (r: Chain)
        ensures
            r.wf(),
            r.empty_spec(),
            forall|p: TokSpec, n: TokSpec| r.count(p, n) == 0,
    {
        Chain { table: TransitionTable::new() }
    }

    /// True iff no text has ever been fed: no transition leaves `Start`.
    pub fn is_empty(&self) -> (r: bool)
        requires
            self.wf(),
        ensures
            r == self.empty_spec(),
    {
        let n_edges = self.table.edges.len();
        let mut i: usize = 0;
        while i < n_edges
            invariant
                self.wf(),
                n_edges == self.table.edges.len(),
                i <= n_edges,
                forall|k: int| 0 <= k < i ==> !((#[trigger] self.table@[k]).0 is Start),
            decreases n_edges - i,
        {
            proof {
                assert(self.table@[i as int] == (self.table.edges@[i as int].prev@,
                self.table.edges@[i as int].next@, self.table.edges@[i as int].count));
            }
            let hit = match &self.table.edges[i].prev {
                Tok::Start => true,
                _ => false,
            };
            if hit {
                proof {
                    lemma_count_match(self.table@, i as int);
                    assert(self.count(TokSpec::Start, self.table@[i as int].1) >= 1);
                }
                return false;
            }
            i = i + 1;
        }
        proof {
            assert forall|n: TokSpec| self.count(TokSpec::Start, n) == 0 by {
                lemma_count_absent(self.table@, TokSpec::Start, n);
            }
        }
        true
    }

    /// Trains the chain on `text`: splits it into whitespace-separated
    /// words, wraps them in the two sentinels, and records every adjacent
    /// pair of that walk.  Feeding empty text still records the single
    /// transition from `Start` to `End`.  Never fails; afterwards the chain
    /// is not empty.
    pub fn feed(&mut self, text: &[u8])
        requires
            old(self).wf(),
        ensures
            final(self).wf(),
            forall|p: TokSpec, n: TokSpec|
                #[trigger] final(self).count(p, n) == cap_add(
                    old(self).count(p, n),
                    pair_occ(walk_of(words_of(text@)), p, n),
                ),
            !final(self).empty_spec(),
    {
        let words = tokenize(text);
        let ghost w = walk_of(words.deep_view());
        proof {
            lemma_walk_shape(words.deep_view());
        }
        let n_words = words.len();
        let mut prev: Tok = Tok::Start;
        let mut i: usize = 0;
        proof {
            assert forall|p: TokSpec, n: TokSpec|
                #[trigger] self.count(p, n) == cap_add(
                    old(self).count(p, n),
                    occ_upto(w, 0, p, n),
                ) by {
                lemma_count_le_max(self.table@, p, n);
                assert(occ_upto(w, 0, p, n) == 0);
            }
        }
        while i < n_words
            invariant
                old(self).wf(),
                self.wf(),
                n_words == words.len(),
                i <= n_words,
                w == walk_of(words.deep_view()),
                w.len() == n_words + 2,
                forall|k: int| 0 <= k < n_words ==> w[k + 1] == TokSpec::Word(words.deep_view()[k]),
                prev@ == w[i as int],
                tok_prev_ok(prev@),
                forall|p: TokSpec, n: TokSpec|
                    #[trigger] self.count(p, n) == cap_add(
                        old(self).count(p, n),
                        occ_upto(w, i as int, p, n),
                    ),
            decreases n_words - i,
        {
            let nx = Tok::Word(copy_bytes(&words[i]));
            proof {
                assert(words.deep_view()[i as int] == words@[i as int].deep_view());
                assert(words@[i as int].deep_view() =~= words@[i as int]@);
                assert(w[i as int + 1] == TokSpec::Word(words.deep_view()[i as int]));
                assert(nx@ == w[i as int + 1]);
            }
            let ghost before = *self;
            self.table.increment(&prev, &nx);
            proof {
                assert forall|p: TokSpec, n: TokSpec|
                    #[trigger] self.count(p, n) == cap_add(
                        old(self).count(p, n),
                        occ_upto(w, i as int + 1, p, n),
                    ) by {
                    assert(before.count(p, n) == cap_add(
                        old(self).count(p, n),
                        occ_upto(w, i as int, p, n),
                    ));
                    assert(self.count(p, n) == if p == prev@ && n == nx@ {
                        cap_add(before.count(p, n), 1)
                    } else {
                        before.count(p, n)
                    });
                    assert(occ_upto(w, i as int + 1, p, n) == occ_upto(w, i as int, p, n) + (
                    if w[i as int] == p && w[i as int + 1] == n {
                        1nat
                    } else {
                        0nat
                    }));
                    lemma_cap_add_assoc(
                        old(self).count(p, n),
                        occ_upto(w, i as int, p, n),
                        if w[i as int] == p && w[i as int + 1] == n {
                            1nat
                        } else {
                            0nat
                        },
                    );
                }
            }
            prev = nx;
            i = i + 1;
        }
        let ghost before = *self;
        let ghost before_prev = prev@;
        self.table.increment(&prev, &Tok::End);
        proof {
            assert(w[n_words as int + 1] == TokSpec::End);
            assert(w.len() - 1 == n_words + 1);
            assert forall|p: TokSpec, n: TokSpec|
                #[trigger] self.count(p, n) == cap_add(
                    old(self).count(p, n),
                    pair_occ(w, p, n),
                ) by {
                assert(before.count(p, n) == cap_add(
                    old(self).count(p, n),
                    occ_upto(w, n_words as int, p, n),
                ));
                assert(self.count(p, n) == if p == before_prev && n == TokSpec::End {
                    cap_add(before.count(p, n), 1)
                } else {
                    before.count(p, n)
                });
                assert(occ_upto(w, n_words as int + 1, p, n) == occ_upto(w, n_words as int, p, n)
                + (if w[n_words as int] == p && w[n_words as int + 1] == n {
                    1nat
                } else {
                    0nat
                }));
                lemma_cap_add_assoc(
                    old(self).count(p, n),
                    occ_upto(w, n_words as int, p, n),
                    if w[n_words as int] == p && w[n_words as int + 1] == n {
                        1nat
                    } else {
                        0nat
                    },
                );
                assert(pair_occ(w, p, n) == occ_upto(w, n_words as int + 1, p, n));
            }
            assert(w[0] == TokSpec::Start);
            assert(occ_upto(w, 0, TokSpec::Start, w[1]) == 0);
            assert(occ_upto(w, 1, TokSpec::Start, w[1]) == 1);
            lemma_occ_upto_mono(w, 1, w.len() - 1, TokSpec::Start, w[1]);
            assert(self.count(TokSpec::Start, w[1]) >= 1);
            assert(!self.empty_spec());
        }
    }
}

/// The count relation `feed` establishes between the chain before and the
/// chain after one feed of `text`.
pub open spec fn feed_step(before: Chain, after: Chain, text: Seq<u8>) -> bool {
    forall|p: TokSpec, n: TokSpec|
        #[trigger] after.count(p, n) == cap_add(
            before.count(p, n),
            pair_occ(walk_of(words_of(text)), p, n),
        )
}

/// The total contribution of a sequence of fed texts to the pair `(p, n)`:
/// the sum over the texts of the occurrences in each one's walk.
pub open spec fn total_occ(texts: Seq<Seq<u8>>, p: TokSpec, n: TokSpec) -> nat
    decreases texts.len(),
{
    if texts.len() == 0 {
        0
    } else {
        pair_occ(walk_of(words_of(texts[0])), p, n) + total_occ(texts.drop_first(), p, n)
    }
}

/// Law: across any sequence of feeds with no intervening clear, every
/// transition count is the saturating sum of the contributions of each
/// feed's tokenization, and so never decreases.  Below the saturation
/// bound the sum is exact.
pub proof fn lemma_feed_sequence_counts(
    chains: Seq<Chain>,
    texts: Seq<Seq<u8>>,
    p: TokSpec,
    n: TokSpec,
)
    requires
        chains.len() == texts.len() + 1,
        forall|i: int|
            0 <= i < texts.len() ==> feed_step(#[trigger] chains[i], chains[i + 1], texts[i]),
    ensures
        chains[texts.len() as int].count(p, n) == cap_add(
            chains[0].count(p, n),
            total_occ(texts, p, n),
        ),
        chains[texts.len() as int].count(p, n) >= chains[0].count(p, n),
    decreases texts.len(),
{
    lemma_count_le_max(chains[0].table@, p, n);
    if texts.len() == 0 {
    } else {
        let ctail = chains.drop_first();
        let ttail = texts.drop_first();
        assert(forall|k: int| 0 <= k < ctail.len() ==> ctail[k] == chains[k + 1]);
        assert(forall|k: int| 0 <= k < ttail.len() ==> ttail[k] == texts[k + 1]);
        assert(feed_step(chains[0], chains[1], texts[0]));
        assert forall|i: int|
            0 <= i < ttail.len() implies feed_step(#[trigger] ctail[i], ctail[i + 1], ttail[i]) by {
            assert(feed_step(chains[i + 1], chains[i + 2], texts[i + 1]));
        }
        lemma_feed_sequence_counts(ctail, ttail, p, n);
        assert(chains[1].count(p, n) == cap_add(
            chains[0].count(p, n),
            pair_occ(walk_of(words_of(texts[0])), p, n),
        ));
        lemma_cap_add_assoc(
            chains[0].count(p, n),
            pair_occ(walk_of(words_of(texts[0])), p, n),
            total_occ(ttail, p, n),
        );
    }
}

/// Law: as long as a transition's total stays below the saturation bound,
/// its count after a sequence of feeds is exactly the initial count plus
/// the sum of each feed's contribution.
pub proof fn lemma_feed_sequence_exact(
    chains: Seq<Chain>,
    texts: Seq<Seq<u8>>,
    p: TokSpec,
    n: TokSpec,
)
    requires
        chains.len() == texts.len() + 1,
        forall|i: int|
            0 <= i < texts.len() ==> feed_step(#[trigger] chains[i], chains[i + 1], texts[i]),
        chains[0].count(p, n) + total_occ(texts, p, n) <= u64::MAX,
    ensures
        chains[texts.len() as int].count(p, n) == chains[0].count(p, n) + total_occ(texts, p, n),
{
    lemma_feed_sequence_counts(chains, texts, p, n);
}

/// Law: two feeds for one identifier commute.  Serialized in either order
/// they produce identical transition counts, so neither order loses either
/// feed's contribution.
pub proof fn lemma_feed_commutes(
    c0: Chain,
    a1: Chain,
    a2: Chain,
    b1: Chain,
    b2: Chain,
    t1: Seq<u8>,
    t2: Seq<u8>,
)
    requires
        feed_step(c0, a1, t1),
        feed_step(a1, a2, t2),
        feed_step(c0, b1, t2),
        feed_step(b1, b2, t1),
    ensures
        forall|p: TokSpec, n: TokSpec| #[trigger] a2.count(p, n) == #[trigger] b2.count(p, n),
{
    assert forall|p: TokSpec, n: TokSpec|
        #[trigger] a2.count(p, n) == #[trigger] b2.count(p, n) by {
        let o1 = pair_occ(walk_of(words_of(t1)), p, n);
        let o2 = pair_occ(walk_of(words_of(t2)), p, n);
        lemma_cap_add_assoc(c0.count(p, n), o1, o2);
        lemma_cap_add_assoc(c0.count(p, n), o2, o1);
    }
}

/// The sum of the counts of a successor row.
pub open spec fn row_total(row: Seq<(Tok, u64)>) -> nat
    decreases row.len(),
{
    if row.len() == 0 {
        0
    } else {
        (row[0].1 + row_total(row.drop_first())) as nat
    }
}

/// The index of the successor whose cumulative-count interval contains `r`:
/// entry `j` owns the draws from the sum of the counts before it (inclusive)
/// to that sum plus its own count (exclusive).
pub open spec fn pick_idx(row: Seq<(Tok, u64)>, r: nat) -> int
    decreases row.len(),
{
    if row.len() == 0 {
        0
    } else if r < row[0].1 {
        0
    } else {
        1 + pick_idx(row.drop_first(), (r - row[0].1) as nat)
    }
}

/// The token at position `i` of the walk `Start, ws[0], ws[1], ...`.
pub open spec fn step_tok(ws: Seq<Seq<u8>>, i: int) -> TokSpec {
    if i < 0 {
        TokSpec::Start
    } else {
        TokSpec::Word(ws[i])
    }
}

/// Every word of `ws` continues the walk from `Start` along a transition
/// the chain has recorded.
pub open spec fn path_ok(c: Chain, ws: Seq<Seq<u8>>) -> bool {
    forall|i: int|
        0 <= i < ws.len() ==> #[trigger] c.count(step_tok(ws, i - 1), TokSpec::Word(ws[i])) >= 1
}

/// The walk ended for a reason: its last token has the end sentinel as a
/// recorded successor (it was drawn), or it has no recorded successor at
/// all (a dead end).
pub open spec fn walk_stopped(c: Chain, ws: Seq<Seq<u8>>) -> bool {
    ||| c.count(step_tok(ws, ws.len() - 1), TokSpec::End) >= 1
    ||| (forall|n: TokSpec| #[trigger] c.count(step_tok(ws, ws.len() - 1), n) == 0)
}

/// Relies on rand's `Rng::gen_range` over `0..n`: the draw is uniform over
/// that range, in particular strictly below `n`.  `n >= 1` keeps the range
/// nonempty, so the call cannot panic.  Nothing further can be promised of
/// a random draw.
#[verifier::external_body]
fn random_below(n: u128) -> (r: u128)
    requires
        1 <= n,
    ensures
        r < n,
{
    rand::Rng::gen_range(&mut rand::thread_rng(), 0..n)
}

/// Sums the counts of a successor row.
fn row_sum(row: &Vec<(Tok, u64)>) -> (total: u128)
    requires
        forall|j: int| 0 <= j < row@.len() ==> (#[trigger] row@[j]).1 >= 1,
    ensures
        total as nat == row_total(row@),
        total as nat >= row@.len(),
{
    let n_row = row.len();
    let mut total: u128 = 0;
    let mut i: usize = 0;
    proof {
        assert(row@.skip(0) =~= row@);
    }
    while i < n_row
        invariant
            n_row == row@.len(),
            i <= n_row,
            forall|j: int| 0 <= j < row@.len() ==> (#[trigger] row@[j]).1 >= 1,
            row_total(row@) == total as nat + row_total(row@.skip(i as int)),
            i <= total,
        decreases n_row - i,
    {
        proof {
            assert(row@.skip(i as int).len() > 0);
            assert(row@.skip(i as int)[0] == row@[i as int]);
            assert(row@.skip(i as int).drop_first() =~= row@.skip(i as int + 1));
            lemma_row_total_le_all(row@, i as int);
            lemma_row_total_bound(row@);
            assert(row@.len() <= usize::MAX);
            assert(row@.len() * (u64::MAX as nat) <= (u64::MAX as nat) * (u64::MAX as nat));
            assert((u64::MAX as nat) * (u64::MAX as nat) < u128::MAX as nat);
            assert(total as nat + row@[i as int].1 as nat <= row_total(row@));
        }
        let c = row[i].1;
        total = total + c as u128;
        i = i + 1;
    }
    proof {
        assert(row@.skip(n_row as int) =~= Seq::<(Tok, u64)>::empty());
    }
    total
}

/// A row's total is at least the part of it from any position on, so a
/// partial sum plus the next count never exceeds the total.
proof fn lemma_row_total_le_all(row: Seq<(Tok, u64)>, i: int)
    requires
        0 <= i <= row.len(),
    ensures
        row_total(row.skip(i)) <= row_total(row),
    decreases i,
{
    if i == 0 {
        assert(row.skip(0) =~= row);
    } else {
        assert(row.skip(i - 1).drop_first() =~= row.skip(i));
        assert(row.skip(i - 1).len() > 0);
        lemma_row_total_le_all(row, i - 1);
    }
}

/// The total of a row is at most one count per entry, each a machine word.
proof fn lemma_row_total_bound(row: Seq<(Tok, u64)>)
    ensures
        row_total(row) <= row.len() * (u64::MAX as nat),
    decreases row.len(),
{
    if row.len() == 0 {
    } else {
        lemma_row_total_bound(row.drop_first());
    }
}

/// Selects the row entry whose cumulative-count interval contains `draw`.
fn pick_at(row: &Vec<(Tok, u64)>, draw: u128) -> (pick: Tok)
    requires
        (draw as nat) < row_total(row@),
    ensures
        0 <= pick_idx(row@, draw as nat) < row@.len(),
        pick@ == row@[pick_idx(row@, draw as nat)].0@,
        exists|j: int| 0 <= j < row@.len() && pick@ == (#[trigger] row@[j]).0@,
{
    let ghost r0 = draw as nat;
    let n_row = row.len();
    let mut acc: u128 = 0;
    let mut i: usize = 0;
    proof {
        assert(row@.skip(0) =~= row@);
    }
    while i < n_row
        invariant
            n_row == row@.len(),
            i <= n_row,
            r0 == draw as nat,
            acc as nat <= r0,
            r0 < row_total(row@),
            row_total(row@) == acc as nat + row_total(row@.skip(i as int)),
            pick_idx(row@, r0) == i + pick_idx(row@.skip(i as int), (r0 - acc as nat) as nat),
        decreases n_row - i,
    {
        proof {
            assert(row@.skip(i as int).len() > 0);
            assert(row@.skip(i as int)[0] == row@[i as int]);
            assert(row@.skip(i as int).drop_first() =~= row@.skip(i as int + 1));
        }
        let c = row[i].1;
        if draw - acc < c as u128 {
            proof {
                assert(pick_idx(row@.skip(i as int), (r0 - acc as nat) as nat) == 0);
                assert(pick_idx(row@, r0) == i);
            }
            return row[i].0.dup();
        }
        acc = acc + c as u128;
        i = i + 1;
    }
    proof {
        assert(row@.skip(n_row as int) =~= Seq::<(Tok, u64)>::empty());
        assert(row_total(row@.skip(n_row as int)) == 0);
        assert(false);
    }
    Tok::End
}

impl Chain {
    /// All transitions leaving `from`, with their counts.
    fn successors(&self, from: &Tok) -> (row: Vec<(Tok, u64)>)
        requires
            self.wf(),
        ensures
            forall|j: int|
                0 <= j < row@.len() ==> ((#[trigger] row@[j]).1 as nat == self.count(
                    from@,
                    row@[j].0@,
                ) && row@[j].1 >= 1 && tok_next_ok(row@[j].0@)),
            row@.len() == 0 ==> (forall|n: TokSpec| self.count(from@, n) == 0),
    {
        let n_edges = self.table.edges.len();
        let mut row: Vec<(Tok, u64)> = Vec::new();
        let mut i: usize = 0;
        while i < n_edges
            invariant
                self.wf(),
                n_edges == self.table.edges.len(),
                i <= n_edges,
                forall|j: int|
                    0 <= j < row@.len() ==> ((#[trigger] row@[j]).1 as nat == self.count(
                        from@,
                        row@[j].0@,
                    ) && row@[j].1 >= 1 && tok_next_ok(row@[j].0@)),
                row@.len() == 0 ==> (forall|k: int|
                    0 <= k < i ==> !((#[trigger] self.table@[k]).0 == from@)),
            decreases n_edges - i,
        {
            proof {
                assert(self.table@[i as int] == (self.table.edges@[i as int].prev@,
                self.table.edges@[i as int].next@, self.table.edges@[i as int].count));
            }
            if tok_eq(&self.table.edges[i].prev, from) {
                proof {
                    lemma_count_match(self.table@, i as int);
                }
                let nx = self.table.edges[i].next.dup();
                let c = self.table.edges[i].count;
                row.push((nx, c));
            }
            i = i + 1;
        }
        proof {
            if row@.len() == 0 {
                assert forall|n: TokSpec| self.count(from@, n) == 0 by {
                    lemma_count_absent(self.table@, from@, n);
                }
            }
        }
        row
    }

    /// The stored count for the transition from `prev` to `next`.
    pub fn count_of(&self, prev: &Tok, next: &Tok) -> (r: u64)
        requires
            self.wf(),
        ensures
            r as nat == self.count(prev@, next@),
    {
        let n_edges = self.table.edges.len();
        let mut i: usize = 0;
        while i < n_edges
            invariant
                self.wf(),
                n_edges == self.table.edges.len(),
                i <= n_edges,
                forall|k: int|
                    0 <= k < i ==> !((#[trigger] self.table@[k]).0 == prev@ && self.table@[k].1
                    == next@),
            decreases n_edges - i,
        {
            proof {
                assert(self.table@[i as int] == (self.table.edges@[i as int].prev@,
                self.table.edges@[i as int].next@, self.table.edges@[i as int].count));
            }
            let hit = tok_eq(&self.table.edges[i].prev, prev) && tok_eq(
                &self.table.edges[i].next,
                next,
            );
            if hit {
                proof {
                    lemma_count_at(self.table@, i as int);
                }
                return self.table.edges[i].count;
            }
            i = i + 1;
        }
        proof {
            lemma_count_absent(self.table@, prev@, next@);
        }
        0
    }

    /// A weighted random walk from `Start`: at every step the next token is
    /// drawn with probability proportional to its recorded count, until the
    /// end sentinel is drawn or `limit` words have been produced.  The chain
    /// itself is unchanged; only the draw is random.  Fails exactly on an
    /// empty chain, and then always with `EmptyChain`.
    pub fn generate(&self, limit: usize) -> (r: Result<Vec<Vec<u8>>, ChainError>)
        requires
            self.wf(),
        ensures
            (r is Err) == self.empty_spec(),
            r is Err ==> r == Err::<Vec<Vec<u8>>, ChainError>(ChainError::EmptyChain),
            r is Ok ==> path_ok(*self, r->Ok_0.deep_view()) && r->Ok_0.deep_view().len() <= limit,
            r is Ok && r->Ok_0.deep_view().len() < limit ==> walk_stopped(
                *self,
                r->Ok_0.deep_view(),
            ),
    {
        if self.is_empty() {
            return Err(ChainError::EmptyChain);
        }
        let mut out: Vec<Vec<u8>> = Vec::new();
        let mut cur: Tok = Tok::Start;
        let mut steps: usize = 0;
        proof {
            assert(out.deep_view() =~~= Seq::<Seq<u8>>::empty());
        }
        while steps < limit
            invariant_except_break
                self.wf(),
                !self.empty_spec(),
                steps <= limit,
                out.deep_view().len() == steps,
                path_ok(*self, out.deep_view()),
                cur@ == step_tok(out.deep_view(), out.deep_view().len() - 1),
            ensures
                path_ok(*self, out.deep_view()),
                out.deep_view().len() <= limit,
                out.deep_view().len() < limit ==> walk_stopped(*self, out.deep_view()),
            decreases limit - steps,
        {
            let row = self.successors(&cur);
            if row.len() == 0 {
                proof {
                    assert(walk_stopped(*self, out.deep_view()));
                }
                break ;
            }
            let total = row_sum(&row);
            let draw = random_below(total);
            let pick = pick_at(&row, draw);
            let ghost pickv = pick@;
            let ghost cur0 = cur@;
            proof {
                let j = choose|j: int| 0 <= j < row@.len() && pickv == (#[trigger] row@[j]).0@;
                assert(self.count(cur0, pickv) >= 1);
                assert(tok_next_ok(pickv));
            }
            match pick {
                Tok::End => {
                    proof {
                        assert(self.count(cur0, TokSpec::End) >= 1);
                        assert(walk_stopped(*self, out.deep_view()));
                    }
                    break ;
                },
                Tok::Start => {
                    proof {
                        assert(false);
                    }
                    break ;
                },
                Tok::Word(wbytes) => {
                    let ghost dv0 = out.deep_view();
                    let ghost wb = wbytes@;
                    let nxt = Tok::Word(copy_bytes(&wbytes));
                    out.push(wbytes);
                    cur = nxt;
                    proof {
                        assert(out.deep_view() =~~= dv0.push(wb));
                        let dv = out.deep_view();
                        assert forall|i2: int|
                            0 <= i2 < dv.len() implies #[trigger] self.count(
                            step_tok(dv, i2 - 1),
                            TokSpec::Word(dv[i2]),
                        ) >= 1 by {
                            if i2 < dv0.len() {
                                assert(dv[i2] == dv0[i2]);
                                assert(step_tok(dv, i2 - 1) == step_tok(dv0, i2 - 1));
                                assert(self.count(step_tok(dv0, i2 - 1), TokSpec::Word(dv0[i2]))
                                >= 1);
                            } else {
                                assert(i2 == dv0.len());
                                assert(dv[i2] == wb);
                                assert(step_tok(dv, i2 - 1) == cur0);
                                assert(pickv == TokSpec::Word(wb));
                            }
                        }
                        assert(cur@ == step_tok(dv, dv.len() - 1));
                    }
                },
            }
            steps = steps + 1;
        }
        Ok(out)
    }
}

} // verus!
