use vstd::prelude::*;

use crate::chain::{wf_table, Chain};
use crate::codec::{dec_table, decode, encode};
use crate::error::ChainError;

verus! {

#[verifier::external_type_specification]
#[verifier::external_body]
pub struct ExDb(sled::Db);

#[verifier::external_type_specification]
#[verifier::external_body]
pub struct ExSledError(sled::Error);

/// Relies on sled's `Tree::get`: a point read, atomic for its key, of the
/// value stored under `key`, converted to plain bytes.  What comes back
/// depends on the store on disk, so nothing is promised of the outcome.
#[verifier::external_body]
fn db_get(db: &sled::Db, key: &[u8]) -> Result<Option<Vec<u8>>, sled::Error> {
    match db.get(key) {
        Ok(v) => Ok(v.map(|ivec| ivec.to_vec())),
        Err(e) => Err(e),
    }
}

/// Relies on sled's `Tree::insert`: stores `val` under `key`, atomically
/// for its key, replacing any prior value.
#[verifier::external_body]
fn db_put(db: &sled::Db, key: &[u8], val: &Vec<u8>) -> Result<(), sled::Error> {
    match db.insert(key, val.as_slice()) {
        Ok(_) => Ok(()),
        Err(e) => Err(e),
    }
}

/// Relies on sled's `Tree::remove`: deletes the value under `key`; a key
/// that is absent is not an error.
#[verifier::external_body]
fn db_del(db: &sled::Db, key: &[u8]) -> Result<(), sled::Error> {
    match db.remove(key) {
        Ok(_) => Ok(()),
        Err(e) => Err(e),
    }
}

/// Builds the chain a stored record denotes: no record at all is a fresh
/// empty chain; present bytes must decode to a well-formed table, anything
/// else is a corrupt record, never silently an empty chain.
pub fn chain_from_record(rec: Option<Vec<u8>>) -> (r: Result<Chain, ChainError>)
    ensures
        rec is None ==> r is Ok && r->Ok_0.wf() && r->Ok_0.empty_spec(),
        rec is Some ==> (match dec_table(rec->0@) {
            Some(ts) => (if wf_table(ts) {
                r is Ok && r->Ok_0.table@ == ts && r->Ok_0.wf()
            } else {
                r == Err::<Chain, ChainError>(ChainError::CorruptRecord)
            }),
            None => r == Err::<Chain, ChainError>(ChainError::CorruptRecord),
        }),
{
    match rec {
        None => Ok(Chain::new_empty()),
        Some(bytes) => match decode(bytes.as_slice()) {
            Ok(t) => Ok(Chain { table: t }),
            Err(e) => Err(e),
        },
    }
}

/// Loads the chain stored under `id`.  A missing record yields a fresh
/// empty chain; bytes that do not decode to a well-formed table are
/// `CorruptRecord`; a failing store is `StorageUnavailable`.
pub fn get_chain(id: &[u8], db: &sled::Db) -> (r: Result<Chain, ChainError>)
    ensures
        r is Ok ==> r->Ok_0.wf(),
        r is Err ==> (r->Err_0 is CorruptRecord || r->Err_0 is StorageUnavailable),
{
    match db_get(db, id) {
        Ok(rec) => chain_from_record(rec),
        Err(_) => Err(ChainError::StorageUnavailable),
    }
}

/// Encodes `chain`'s transition table and writes it under `id`, replacing
/// any prior record.  A write failure propagates as `StorageUnavailable`.
pub fn set_chain(id: &[u8], chain: &Chain, db: &sled::Db) -> (r: Result<(), ChainError>)
    ensures
        r is Err ==> r->Err_0 is StorageUnavailable,
{
    let bytes = encode(&chain.table);
    match db_put(db, id, &bytes) {
        Ok(u) => Ok(u),
        Err(_) => Err(ChainError::StorageUnavailable),
    }
}

/// Removes the record under `id`; absence is not an error, so the
/// operation is idempotent.  A store failure is `StorageUnavailable`.
pub fn delete_chain(id: &[u8], db: &sled::Db) -> (r: Result<(), ChainError>)
    ensures
        r is Err ==> r->Err_0 is StorageUnavailable,
{
    match db_del(db, id) {
        Ok(u) => Ok(u),
        Err(_) => Err(ChainError::StorageUnavailable),
    }
}

} // verus!
