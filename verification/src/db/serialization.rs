//! The binary form of a database: its list form, encoded by `bincode` with
//! variable-length integers, little-endian byte order and a size limit.

use crate::db::local::{DbView, LocalDb};
use crate::db::raw::{
    from_raw, lemma_raw_of, raw_model, raw_of, restored, to_raw, valid, RawDb, RawModel,
};
use bincode::Options;
use vstd::prelude::*;

verus! {

/// The most bytes that a database is written to or read from: 2 GiB.
pub const SIZE_LIMIT: u64 = 2147483648;

/// `bincode::ErrorKind`, what `bincode` reports an error with. Nothing is
/// claimed of what it holds.
#[verifier::external_type_specification]
#[verifier::external_body]
pub struct ExErrorKind(bincode::ErrorKind);

/// What `bincode` encodes a list form to, with its default options and the
/// size limit `limit`: the bytes, or nothing where it reports an error.
pub uninterp spec fn encoding_of(snapshot: RawModel, limit: u64) -> Option<Seq<u8>>;

/// What `bincode` decodes from the front of `bytes`, with its default
/// options and the size limit `limit`: a list form, or nothing where it
/// reports an error.
pub uninterp spec fn decoding_of(bytes: Seq<u8>, limit: u64) -> Option<RawModel>;

/// Why a database could not be written or read.
#[derive(Debug, Clone, Copy, PartialEq, Eq, Structural)]
pub enum SerializationError {
    /// The database could not be encoded: its encoding would go over the
    /// size limit.
    Encode,
    /// The bytes could not be decoded: they are corrupt, or more than the
    /// size limit.
    Decode,
    /// The bytes were decoded, but not to the list form of a database: a
    /// list does not ascend by identifier, an identifier is not below the
    /// counter, or a tag has no name.
    Inconsistent,
}

/// The bytes of `raw`.
///
/// Calls `bincode::Options::serialize` on `DefaultOptions` with the size
/// limit `limit`. The contract names the result, and claims two things
/// more, which are not proved here: that the bytes are no more than the
/// limit, beyond which `serialize` reports an error, and that what
/// `serialize` has written, `deserialize_from` with the same options reads
/// back as it was.
#[verifier::external_body]
fn encode(raw: &RawDb, limit: u64) -> (r: Result<Vec<u8>, bincode::Error>)
    ensures
        r matches Ok(bytes) ==> encoding_of(raw_model(*raw), limit) == Some(bytes@),
        r matches Ok(bytes) ==> bytes@.len() <= limit,
        r matches Ok(bytes) ==> decoding_of(bytes@, limit) == Some(raw_model(*raw)),
        r is Err ==> encoding_of(raw_model(*raw), limit) is None,
{
    bincode::DefaultOptions::new().with_limit(limit).serialize(raw)
}

/// The list form at the front of `bytes`.
///
/// Calls `bincode::Options::deserialize_from` on `DefaultOptions` with the
/// size limit `limit`. The contract only names the result.
#[verifier::external_body]
fn decode(bytes: &[u8], limit: u64) -> (r: Result<RawDb, bincode::Error>)
    ensures
        r matches Ok(raw) ==> decoding_of(bytes@, limit) == Some(raw_model(raw)),
        r is Err ==> decoding_of(bytes@, limit) is None,
{
    bincode::DefaultOptions::new().with_limit(limit).deserialize_from(bytes)
}

/// What reading `bytes` gives: the database that their decoding is the list
/// form of, if they are no more than the size limit, can be decoded, and the
/// list form is that of a database.
pub open spec fn loaded(bytes: Seq<u8>) -> Option<DbView> {
    if bytes.len() > SIZE_LIMIT {
        None
    } else {
        match decoding_of(bytes, SIZE_LIMIT) {
            Some(raw) => if valid(raw) {
                Some(restored(raw))
            } else {
                None
            },
            None => None,
        }
    }
}

/// Reads a database from `source`, the bytes of a saved database. Bytes
/// beyond the size limit are refused unread.
pub fn read_local(source: &[u8]) -> (db: Result<LocalDb, SerializationError>)
    ensures
        match db {
            Ok(d) => d.wf() && loaded(source@) == Some(d@) && decoding_of(source@, SIZE_LIMIT)
                == Some(raw_of(d)),
            Err(e) => loaded(source@) is None && e == if source@.len() > SIZE_LIMIT || decoding_of(
                source@,
                SIZE_LIMIT,
            ) is None {
                SerializationError::Decode
            } else {
                SerializationError::Inconsistent
            },
        },
{
    if source.len() as u64 > SIZE_LIMIT {
        return Err(SerializationError::Decode);
    }
    match decode(source, SIZE_LIMIT) {
        Err(_) => Err(SerializationError::Decode),
        Ok(raw) => match from_raw(raw) {
            Some(db) => Ok(db),
            None => Err(SerializationError::Inconsistent),
        },
    }
}

/// The bytes to save `db` as: no more than the size limit, and such that
/// reading them gives `db` again.
pub fn write_local(db: &LocalDb) -> (sink: Result<Vec<u8>, SerializationError>)
    requires
        db.wf(),
    ensures
        match sink {
            Ok(bytes) => encoding_of(raw_of(*db), SIZE_LIMIT) == Some(bytes@) && bytes@.len()
                <= SIZE_LIMIT && loaded(bytes@) == Some(db@),
            Err(e) => encoding_of(raw_of(*db), SIZE_LIMIT) is None && e
                == SerializationError::Encode,
        },
{
    let raw = to_raw(db);
    proof {
        lemma_raw_of(*db);
    }
    match encode(&raw, SIZE_LIMIT) {
        Ok(bytes) => Ok(bytes),
        Err(_) => Err(SerializationError::Encode),
    }
}

} // verus!
