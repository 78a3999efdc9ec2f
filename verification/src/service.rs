use vstd::prelude::*;

use crate::chain::{path_ok, Chain};
use crate::error::ChainError;
use crate::store::{delete_chain, get_chain, set_chain};

verus! {

/// The words of one generated text, separated by single spaces.
pub open spec fn join_spec(ws: Seq<Seq<u8>>) -> Seq<u8>
    decreases ws.len(),
{
    if ws.len() == 0 {
        Seq::empty()
    } else if ws.len() == 1 {
        ws[0]
    } else {
        ws[0] + seq![32u8] + join_spec(ws.drop_first())
    }
}

/// Appending one word extends the joined text by a space and the word,
/// unless it is the first word.
pub proof fn lemma_join_push(ws: Seq<Seq<u8>>, x: Seq<u8>)
    ensures
        ws.len() == 0 ==> join_spec(ws.push(x)) == x,
        ws.len() > 0 ==> join_spec(ws.push(x)) == join_spec(ws) + seq![32u8] + x,
    decreases ws.len(),
{
    let p = ws.push(x);
    if ws.len() == 0 {
        assert(p[0] == x);
        assert(join_spec(p) == p[0]);
    } else if ws.len() == 1 {
        assert(p[0] == ws[0]);
        assert(p.drop_first() =~= Seq::<Seq<u8>>::empty().push(x));
        lemma_join_push(Seq::<Seq<u8>>::empty(), x);
        assert(join_spec(p.drop_first()) == x);
        assert(join_spec(ws) == ws[0]);
    } else {
        assert(p[0] == ws[0]);
        assert(p.drop_first() =~= ws.drop_first().push(x));
        lemma_join_push(ws.drop_first(), x);
        assert(join_spec(p.drop_first()) == join_spec(ws.drop_first()) + seq![32u8] + x);
        assert(ws[0] + seq![32u8] + (join_spec(ws.drop_first()) + seq![32u8] + x) =~= (ws[0]
        + seq![32u8] + join_spec(ws.drop_first())) + seq![32u8] + x);
    }
}

/// Joins generated words with single spaces.
pub fn join_words(ws: &Vec<Vec<u8>>) -> (r: Vec<u8>)
    ensures
        r@ == join_spec(ws.deep_view()),
{
    let ghost dv = ws.deep_view();
    let mut out: Vec<u8> = Vec::new();
    let mut i: usize = 0;
    proof {
        assert(dv.take(0) =~= Seq::<Seq<u8>>::empty());
        assert(out@ =~= join_spec(dv.take(0)));
    }
    while i < ws.len()
        invariant
            dv == ws.deep_view(),
            dv.len() == ws@.len(),
            i <= ws@.len(),
            out@ == join_spec(dv.take(i as int)),
        decreases ws@.len() - i,
    {
        let ghost base0 = out@;
        if i > 0 {
            out.push(32u8);
        }
        let ghost base = out@;
        let w = &ws[i];
        let n_w = w.len();
        let mut j: usize = 0;
        proof {
            assert(dv[i as int] == ws@[i as int].deep_view());
            assert(ws@[i as int].deep_view() =~= ws@[i as int]@);
        }
        while j < n_w
            invariant
                n_w == w.len(),
                j <= n_w,
                out@ == base + w@.take(j as int),
            decreases n_w - j,
        {
            proof {
                assert(w@.take(j + 1) =~= w@.take(j as int).push(w@[j as int]));
            }
            out.push(w[j]);
            j = j + 1;
        }
        proof {
            assert(w@.take(n_w as int) =~= w@);
            assert(dv.take(i + 1) =~= dv.take(i as int).push(dv[i as int]));
            lemma_join_push(dv.take(i as int), dv[i as int]);
            if i == 0 {
                assert(out@ =~= join_spec(dv.take(i + 1)));
            } else {
                assert(base0 + seq![32u8] =~= base);
                assert(out@ =~= (join_spec(dv.take(i as int)) + seq![32u8]) + w@);
                assert((join_spec(dv.take(i as int)) + seq![32u8]) + w@ =~= join_spec(dv.take(
                    i as int,
                )) + seq![32u8] + w@);
            }
        }
        i = i + 1;
    }
    proof {
        assert(dv.take(ws@.len() as int) =~= dv);
    }
    out
}

/// Serves one generation request: loads the chain under `id` and walks it,
/// producing at most `limit` words joined by single spaces.  Fails with
/// `EmptyChain` exactly when the loaded chain is empty, and otherwise only
/// on a corrupt record or an unavailable store.
pub fn generate(id: &[u8], limit: usize, db: &sled::Db) -> (r: Result<Vec<u8>, ChainError>)
    ensures
        r is Ok ==> exists|c: Chain, ws: Seq<Seq<u8>>|
            #[trigger] path_ok(c, ws) && c.wf() && !c.empty_spec() && ws.len() <= limit && r->Ok_0@
            == join_spec(ws),
{
    match get_chain(id, db) {
        Err(e) => Err(e),
        Ok(chain) => match chain.generate(limit) {
            Err(e) => Err(e),
            Ok(words) => {
                let out = join_words(&words);
                proof {
                    assert(path_ok(chain, words.deep_view()));
                }
                Ok(out)
            },
        },
    }
}

/// Serves one training request: loads the chain under `id` (a fresh empty
/// one on first use), feeds it `text`, and stores it back.  Well-formed
/// input never fails; only a corrupt record or an unavailable store does.
pub fn feed(text: &[u8], id: &[u8], db: &sled::Db) -> (r: Result<(), ChainError>)
    ensures
        r is Err ==> (r->Err_0 is CorruptRecord || r->Err_0 is StorageUnavailable),
{
    match get_chain(id, db) {
        Err(e) => Err(e),
        Ok(mut chain) => {
            chain.feed(text);
            set_chain(id, &chain, db)
        },
    }
}

/// Serves one clear request: removes the record under `id`.  Absence is
/// not an error, so repeating the operation succeeds and changes nothing.
pub fn clear(id: &[u8], db: &sled::Db) -> (r: Result<(), ChainError>)
    ensures
        r is Err ==> r->Err_0 is StorageUnavailable,
{
    delete_chain(id, db)
}

} // verus!
