//! The binary codec for chunks of records.
//!
//! A chunk is a run of `(key, value)` records. It is written as one CBOR data
//! item, an array of two-element arrays, by the `ciborium` crate. Nothing here
//! is proved about the bytes themselves: what the crate produces for a chunk,
//! and what it reads back from a byte string, are given names, and the engine
//! is verified against those names.

use vstd::prelude::*;
use crate::error::StorageError;
use crate::storage::ordered::{ascending, erase, lemma_rank_bound, lookup, rank, upsert};

verus! {

/// `std::io::Error`, which the codec's error types carry. Opaque.
#[verifier::external_type_specification]
#[verifier::external_body]
pub struct ExIoError(std::io::Error);

/// `ciborium::ser::Error`, the failure of an encoding. Opaque.
#[verifier::external_type_specification]
#[verifier::external_body]
#[verifier::reject_recursive_types(T)]
pub struct ExEncodingError<T>(ciborium::ser::Error<T>);

/// `ciborium::de::Error`, the failure of a decoding. Opaque.
#[verifier::external_type_specification]
#[verifier::external_body]
#[verifier::reject_recursive_types(T)]
pub struct ExDecodingError<T>(ciborium::de::Error<T>);

/// The records of a chunk as plain values: each value by its characters.
pub open spec fn records_view(records: Seq<(u64, String)>) -> Seq<(u64, Seq<char>)> {
    records.map_values(|record: (u64, String)| (record.0, record.1@))
}

/// Taking the records as plain values moves no record: ranks and order stay.
pub proof fn lemma_view_rank(records: Seq<(u64, String)>, bound: int)
    ensures
        rank(records_view(records), bound) == rank(records, bound),
        ascending(records_view(records)) <==> ascending(records),
    decreases records.len(),
{
    let plain = records_view(records);
    if records.len() > 0 {
        assert(plain.drop_last() =~= records_view(records.drop_last()));
        lemma_view_rank(records.drop_last(), bound);
    }
    if ascending(records) {
        assert forall|i: int, j: int| 0 <= i < j < plain.len() implies plain[i].0 < plain[j].0 by {
            assert(records[i].0 < records[j].0);
        }
    }
    if ascending(plain) {
        assert forall|i: int, j: int| 0 <= i < j < records.len() implies records[i].0
            < records[j].0 by {
            assert(plain[i].0 < plain[j].0);
        }
    }
}

/// A lookup among the plain values finds what a lookup among the records
/// finds.
pub proof fn lemma_view_lookup(records: Seq<(u64, String)>, k: u64)
    ensures
        lookup(records_view(records), k) == match lookup(records, k) {
            Some(found) => Some(found@),
            None => None,
        },
{
    lemma_view_rank(records, k as int);
    let p = rank(records, k as int) as int;
    if p < records.len() {
        assert(records_view(records)[p] == (records[p].0, records[p].1@));
    }
}

/// Binding a key acts on the plain values as it acts on the records.
pub proof fn lemma_view_upsert(records: Seq<(u64, String)>, k: u64, v: String)
    ensures
        records_view(upsert(records, k, v)) == upsert(records_view(records), k, v@),
{
    lemma_view_rank(records, k as int);
    let p = rank(records, k as int) as int;
    if p < records.len() {
        assert(records_view(records)[p] == (records[p].0, records[p].1@));
    }
    lemma_rank_bound(records, k as int);
    let plain = records_view(records);
    let a = records_view(upsert(records, k, v));
    let b = upsert(plain, k, v@);
    if p < records.len() && records[p].0 == k {
        assert(a =~= b);
    } else {
        assert(upsert(records, k, v) == records.insert(p, (k, v)));
        assert(b == plain.insert(p, (k, v@)));
        assert(a.len() == b.len());
        assert forall|i: int| 0 <= i < a.len() implies a[i] == b[i] by {
            if i < p {
                assert(records.insert(p, (k, v))[i] == records[i]);
                assert(plain.insert(p, (k, v@))[i] == plain[i]);
            } else if i > p {
                assert(records.insert(p, (k, v))[i] == records[i - 1]);
                assert(plain.insert(p, (k, v@))[i] == plain[i - 1]);
            }
        }
        assert(a =~= b);
    }
}

/// Removing a key acts on the plain values as it acts on the records.
pub proof fn lemma_view_erase(records: Seq<(u64, String)>, k: u64)
    ensures
        records_view(erase(records, k)) == erase(records_view(records), k),
{
    lemma_view_rank(records, k as int);
    let p = rank(records, k as int) as int;
    if p < records.len() {
        assert(records_view(records)[p] == (records[p].0, records[p].1@));
    }
    assert(records_view(erase(records, k)) =~= erase(records_view(records), k));
}

/// What `ciborium::ser::into_writer` writes for a chunk of records, or `None`
/// where it reports an error.
pub uninterp spec fn cbor_encoding(chunk: Seq<(u64, Seq<char>)>) -> Option<Seq<u8>>;

/// What `ciborium::de::from_reader` reads from a byte string as a chunk of
/// records, or `None` where it reports an error.
pub uninterp spec fn cbor_decoding(bytes: Seq<u8>) -> Option<Seq<(u64, Seq<char>)>>;

/// Calls `ciborium::ser::into_writer` on the chunk, writing into a fresh
/// vector. The contract gives the outcome its name: the bytes written on
/// success are `cbor_encoding` of the chunk, and an error means that
/// `cbor_encoding` of the chunk is `None`. It claims one thing more: a
/// successful encoding is not empty, because the crate writes an array header
/// of at least one byte before anything else.
#[verifier::external_body]
fn cbor_into_vec(chunk: &[(u64, String)]) -> (outcome: Result<
    Vec<u8>,
    ciborium::ser::Error<std::io::Error>,
>)
    ensures
        match outcome {
            Ok(bytes) => cbor_encoding(records_view(chunk@)) == Some(bytes@) && bytes@.len() > 0,
            Err(_) => cbor_encoding(records_view(chunk@)) is None,
        },
{
    let mut bytes: Vec<u8> = Vec::new();
    match ciborium::ser::into_writer(chunk, &mut bytes) {
        Ok(()) => Ok(bytes),
        Err(e) => Err(e),
    }
}

/// Calls `ciborium::de::from_reader` on the bytes, asking for a vector of
/// records. The contract only gives the outcome its name: the records read on
/// success are `cbor_decoding` of the bytes, and an error means that
/// `cbor_decoding` of the bytes is `None`.
#[verifier::external_body]
fn cbor_from_slice(bytes: &[u8]) -> (outcome: Result<
    Vec<(u64, String)>,
    ciborium::de::Error<std::io::Error>,
>)
    ensures
        match outcome {
            Ok(chunk) => cbor_decoding(bytes@) == Some(records_view(chunk@)),
            Err(_) => cbor_decoding(bytes@) is None,
        },
{
    ciborium::de::from_reader(bytes)
}

/// Turns the outcome of an encoding into the engine's terms: the bytes as they
/// are, any failure as `StorageError::Encode`.
pub fn encoded(outcome: Result<Vec<u8>, ciborium::ser::Error<std::io::Error>>) -> (result: Result<
    Vec<u8>,
    StorageError,
>)
    ensures
        match outcome {
            Ok(bytes) => result == Ok::<Vec<u8>, StorageError>(bytes),
            Err(_) => result == Err::<Vec<u8>, StorageError>(StorageError::Encode),
        },
{
    match outcome {
        Ok(bytes) => Ok(bytes),
        Err(_) => Err(StorageError::Encode),
    }
}

/// Turns the outcome of a decoding into the engine's terms: the records as
/// they are, any failure as `StorageError::Decode`.
pub fn decoded(
    outcome: Result<Vec<(u64, String)>, ciborium::de::Error<std::io::Error>>,
) -> (result: Result<Vec<(u64, String)>, StorageError>)
    ensures
        match outcome {
            Ok(chunk) => result == Ok::<Vec<(u64, String)>, StorageError>(chunk),
            Err(_) => result == Err::<Vec<(u64, String)>, StorageError>(StorageError::Decode),
        },
{
    match outcome {
        Ok(chunk) => Ok(chunk),
        Err(_) => Err(StorageError::Decode),
    }
}

/// Encodes one chunk of records.
///
/// Succeeds exactly where the codec does, with the bytes it wrote, of which
/// there is at least one; fails with `StorageError::Encode` otherwise.
pub fn encode_chunk(chunk: &[(u64, String)]) -> (result: Result<Vec<u8>, StorageError>)
    ensures
        match result {
            Ok(bytes) => cbor_encoding(records_view(chunk@)) == Some(bytes@) && bytes@.len() > 0,
            Err(e) => e == StorageError::Encode && cbor_encoding(records_view(chunk@)) is None,
        },
{
    encoded(cbor_into_vec(chunk))
}

/// Decodes the chunk of records that a byte string begins with.
///
/// Succeeds exactly where the codec does, with the records it read; fails
/// with `StorageError::Decode` otherwise.
pub fn decode_chunk(bytes: &[u8]) -> (result: Result<Vec<(u64, String)>, StorageError>)
    ensures
        match result {
            Ok(chunk) => cbor_decoding(bytes@) == Some(records_view(chunk@)),
            Err(e) => e == StorageError::Decode && cbor_decoding(bytes@) is None,
        },
{
    decoded(cbor_from_slice(bytes))
}

} // verus!
