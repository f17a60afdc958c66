//! The layout of a segment.
//!
//! A segment is written once, when the memtable is flushed. The records of the
//! memtable, in ascending key order, are cut into chunks of
//! `records_per_index` records (the last chunk may be shorter). Each chunk is
//! encoded on its own, and the encodings are laid end to end. For every chunk
//! the sparse index gets one entry: the chunk's smallest key, bound to the
//! segment's number and to the byte offset at which the chunk's encoding
//! begins.

use vstd::prelude::*;
use vstd::slice::slice_subrange;
use crate::error::StorageError;
use crate::storage::codec::{cbor_encoding, encode_chunk, records_view};

verus! {

/// Into how many chunks `n` records fall when a chunk holds up to `r` of
/// them: `n / r`, rounded up.
pub open spec fn chunk_count(n: nat, r: nat) -> nat {
    if r == 0 {
        0
    } else {
        ((n + r - 1) / (r as int)) as nat
    }
}

/// Where chunk `j` ends among `n` records.
pub open spec fn chunk_end(n: nat, r: nat, j: nat) -> nat {
    if j * r + r <= n {
        j * r + r
    } else {
        n
    }
}

/// The records of chunk `j`.
pub open spec fn chunk_at<T>(records: Seq<T>, r: nat, j: nat) -> Seq<T> {
    records.subrange((j * r) as int, chunk_end(records.len(), r, j) as int)
}

/// The encodings of the first `j` chunks laid end to end, or `None` if one of
/// them cannot be encoded.
pub open spec fn encoded_prefix(records: Seq<(u64, Seq<char>)>, r: nat, j: nat) -> Option<
    Seq<u8>,
>
    decreases j,
{
    if j == 0 {
        Some(Seq::empty())
    } else {
        match (
            encoded_prefix(records, r, (j - 1) as nat),
            cbor_encoding(chunk_at(records, r, (j - 1) as nat)),
        ) {
            (Some(before), Some(chunk)) => Some(before + chunk),
            _ => None,
        }
    }
}

/// The bytes of the segment that holds `records`, or `None` if a chunk cannot
/// be encoded.
pub open spec fn segment_image(records: Seq<(u64, Seq<char>)>, r: nat) -> Option<Seq<u8>> {
    encoded_prefix(records, r, chunk_count(records.len(), r))
}

/// The byte offset at which chunk `j` begins in the segment.
pub open spec fn chunk_offset(records: Seq<(u64, Seq<char>)>, r: nat, j: nat) -> nat {
    match encoded_prefix(records, r, j) {
        Some(before) => before.len(),
        None => 0,
    }
}

/// The sparse index entries of the segment numbered `segment` that holds
/// `records`: one per chunk, in chunk order.
pub open spec fn sparse_index(records: Seq<(u64, Seq<char>)>, r: nat, segment: u32) -> Seq<
    (u64, (u32, u64)),
> {
    Seq::new(
        chunk_count(records.len(), r),
        |j: int| (first_key(records, r, j as nat), (segment, chunk_offset(records, r, j as nat) as u64)),
    )
}

/// The smallest key of chunk `j`, which is the key of its first record.
pub open spec fn first_key(records: Seq<(u64, Seq<char>)>, r: nat, j: nat) -> u64 {
    records[(j * r) as int].0
}

/// The records can be laid out as a segment: every chunk has an encoding
/// that is not empty, and every byte offset in the segment fits in 64 bits.
pub open spec fn layable(records: Seq<(u64, Seq<char>)>, r: nat) -> bool {
    &&& segment_image(records, r) is Some
    &&& segment_image(records, r).unwrap().len() <= u64::MAX
    &&& forall|j: nat|
        j < chunk_count(records.len(), r) ==> (#[trigger] cbor_encoding(
            chunk_at(records, r, j),
        )).unwrap().len() > 0
}

/// Chunk `j` exists exactly if it has a first record.
pub proof fn lemma_chunk_exists(n: nat, r: nat, j: nat)
    requires
        r > 0,
    ensures
        j < chunk_count(n, r) <==> j * r < n,
{
    let q = (n + r - 1) / (r as int);
    assert(q * r <= n + r - 1 < q * r + r) by (nonlinear_arith)
        requires
            q == (n + r - 1) / (r as int),
            r > 0,
    ;
    if j < q {
        assert(j * r + r <= q * r) by (nonlinear_arith)
            requires
                j + 1 <= q,
                r > 0,
        ;
    } else {
        assert(j * r >= q * r) by (nonlinear_arith)
            requires
                j >= q,
                r > 0,
        ;
    }
}

/// The chunks are consecutive, non-empty, and at most `r` records long.
pub proof fn lemma_chunk_shape<T>(records: Seq<T>, r: nat, j: nat)
    requires
        r > 0,
        j < chunk_count(records.len(), r),
    ensures
        j * r < chunk_end(records.len(), r, j) <= records.len(),
        chunk_end(records.len(), r, j) <= (j + 1) * r,
        0 < chunk_at(records, r, j).len() <= r,
        chunk_at(records, r, j).len() == chunk_end(records.len(), r, j) - j * r,
        chunk_at(records, r, j)[0] == records[(j * r) as int],
        (j + 1) * r == j * r + r,
        j + 1 < chunk_count(records.len(), r) ==> chunk_end(records.len(), r, j) == (j + 1) * r,
{
    lemma_chunk_exists(records.len(), r, j);
    lemma_chunk_exists(records.len(), r, j + 1);
    assert((j + 1) * r == j * r + r) by (nonlinear_arith);
    assert(j * r >= 0) by (nonlinear_arith)
        requires
            j >= 0,
            r > 0,
    ;
}

/// Once a chunk fails to encode, no longer prefix of the segment exists.
pub proof fn lemma_prefix_failure_persists(
    records: Seq<(u64, Seq<char>)>,
    r: nat,
    j: nat,
    m: nat,
)
    requires
        j <= m,
        encoded_prefix(records, r, j) is None,
    ensures
        encoded_prefix(records, r, m) is None,
    decreases m,
{
    if j < m {
        lemma_prefix_failure_persists(records, r, j, (m - 1) as nat);
    }
}

/// Where the whole segment can be encoded, so can each of its chunks, and
/// the offsets of the chunks never decrease and stay within the segment.
pub proof fn lemma_prefix_grows(records: Seq<(u64, Seq<char>)>, r: nat, j: nat, m: nat)
    requires
        j <= m,
        encoded_prefix(records, r, m) is Some,
    ensures
        encoded_prefix(records, r, j) is Some,
        chunk_offset(records, r, j) <= chunk_offset(records, r, m),
        encoded_prefix(records, r, m).unwrap().subrange(0, chunk_offset(records, r, j) as int)
            == encoded_prefix(records, r, j).unwrap(),
        j < m ==> cbor_encoding(chunk_at(records, r, j)) is Some && chunk_offset(
            records,
            r,
            j + 1,
        ) == chunk_offset(records, r, j) + cbor_encoding(chunk_at(records, r, j)).unwrap().len()
            && encoded_prefix(records, r, m).unwrap().subrange(
            chunk_offset(records, r, j) as int,
            chunk_offset(records, r, j + 1) as int,
        ) == cbor_encoding(chunk_at(records, r, j)).unwrap(),
    decreases m,
{
    if j < m {
        let before = (m - 1) as nat;
        lemma_prefix_grows(records, r, j, before);
        let whole = encoded_prefix(records, r, m).unwrap();
        let head = encoded_prefix(records, r, before).unwrap();
        let tail = cbor_encoding(chunk_at(records, r, before)).unwrap();
        assert(whole == head + tail);
        assert(whole.subrange(0, head.len() as int) =~= head);
        assert(whole.subrange(0, chunk_offset(records, r, j) as int) =~= head.subrange(
            0,
            chunk_offset(records, r, j) as int,
        ));
        if j + 1 < m {
            lemma_prefix_grows(records, r, j + 1, before);
            assert(whole.subrange(
                chunk_offset(records, r, j) as int,
                chunk_offset(records, r, j + 1) as int,
            ) =~= head.subrange(
                chunk_offset(records, r, j) as int,
                chunk_offset(records, r, j + 1) as int,
            ));
        } else {
            assert(whole.subrange(head.len() as int, whole.len() as int) =~= tail);
        }
    } else {
        let whole = encoded_prefix(records, r, m).unwrap();
        assert(whole.subrange(0, whole.len() as int) =~= whole);
    }
}

/// Lays the records out as a segment and lists its sparse index entries.
///
/// `records` are the memtable's entries in ascending key order. On success the
/// first component holds the bytes of the segment and the second its index
/// entries, one per chunk. The call fails with `StorageError::Encode` exactly
/// if the codec cannot encode one of the chunks.
pub fn build_segment(records: &[(u64, String)], records_per_index: usize, segment_num: u32) -> (result:
    Result<(Vec<u8>, Vec<(u64, (u32, u64))>), StorageError>)
    requires
        records_per_index > 0,
    ensures
        match result {
            Ok((image, index)) => {
                &&& segment_image(records_view(records@), records_per_index as nat) == Some(
                    image@,
                )
                &&& layable(records_view(records@), records_per_index as nat)
                &&& index@ == sparse_index(
                    records_view(records@),
                    records_per_index as nat,
                    segment_num,
                )
            },
            Err(e) => {
                &&& e == StorageError::Encode
                &&& segment_image(records_view(records@), records_per_index as nat) is None
            },
        },
{
    let ghost all = records_view(records@);
    let ghost r = records_per_index as nat;
    let ghost count = chunk_count(all.len(), r);
    let n: usize = records.len();
    let mut image: Vec<u8> = Vec::new();
    let mut index: Vec<(u64, (u32, u64))> = Vec::new();
    let mut start: usize = 0;
    let ghost mut j: nat = 0;
    proof {
        assert(0 * r == 0) by (nonlinear_arith);
    }
    while start < n
        invariant
            n == records@.len(),
            all == records_view(records@),
            r == records_per_index,
            r > 0,
            count == chunk_count(all.len(), r),
            j <= count,
            start <= n,
            start == if j * r <= n { j * r } else { n as nat },
            encoded_prefix(all, r, j) == Some(image@),
            forall|i: nat|
                i < j ==> (#[trigger] cbor_encoding(chunk_at(all, r, i))).unwrap().len() > 0,
            index@.len() == j,
            forall|i: int|
                0 <= i < j ==> (#[trigger] index@[i]) == (
                    first_key(all, r, i as nat),
                    (segment_num, chunk_offset(all, r, i as nat) as u64),
                ),
        decreases n - start,
    {
        proof {
            lemma_chunk_exists(all.len(), r, j);
            lemma_chunk_shape(all, r, j);
        }
        let end: usize = if n - start > records_per_index {
            start + records_per_index
        } else {
            n
        };
        let chunk = slice_subrange(records, start, end);
        assert(records_view(chunk@) =~= chunk_at(all, r, j));
        let offset: u64 = image.len() as u64;
        match encode_chunk(chunk) {
            Ok(bytes) => {
                let mut bytes = bytes;
                index.push((records[start].0, (segment_num, offset)));
                image.append(&mut bytes);
            },
            Err(_) => {
                proof {
                    lemma_prefix_failure_persists(all, r, j + 1, count);
                }
                return Err(StorageError::Encode);
            },
        }
        proof {
            j = j + 1;
            lemma_chunk_exists(all.len(), r, j);
        }
        start = end;
    }
    proof {
        lemma_chunk_exists(all.len(), r, j);
        assert(index@ =~= sparse_index(all, r, segment_num));
        assert(image.len() == image@.len());
    }
    Ok((image, index))
}

/// Position `i` holds the first record of the chunk whose key is `k`.
pub open spec fn is_first_match(chunk: Seq<(u64, Seq<char>)>, k: u64, i: int) -> bool {
    &&& 0 <= i < chunk.len()
    &&& chunk[i].0 == k
    &&& forall|j: int| 0 <= j < i ==> (#[trigger] chunk[j]).0 != k
}

/// The value of the first record of the chunk whose key is `k`, if there is
/// such a record.
pub open spec fn first_match(chunk: Seq<(u64, Seq<char>)>, k: u64) -> Option<Seq<char>> {
    if exists|i: int| is_first_match(chunk, k, i) {
        Some(chunk[choose|i: int| is_first_match(chunk, k, i)].1)
    } else {
        None
    }
}

/// Scans a decoded chunk from the front for an exact key match and hands out
/// the value of the first record that has the key.
pub fn search_chunk(chunk: Vec<(u64, String)>, k: &u64) -> (found: Option<String>)
    ensures
        match found {
            Some(v) => first_match(records_view(chunk@), *k) == Some(v@),
            None => first_match(records_view(chunk@), *k) is None,
        },
{
    let ghost all = records_view(chunk@);
    let mut rest = chunk;
    let mut i: usize = 0;
    while i < rest.len()
        invariant
            i <= rest@.len(),
            all == records_view(chunk@),
            all == records_view(rest@),
            forall|j: int| 0 <= j < i ==> (#[trigger] all[j]).0 != *k,
        decreases rest@.len() - i,
    {
        if rest[i].0 == *k {
            proof {
                assert(all[i as int] == (rest@[i as int].0, rest@[i as int].1@));
                assert(is_first_match(all, *k, i as int));
                let c = choose|c: int| is_first_match(all, *k, c);
                assert(c == i) by {
                    if c < i {
                        assert(all[c].0 != *k);
                    }
                    if i < c {
                        assert(all[i as int].0 == *k);
                    }
                }
                assert(first_match(all, *k) == Some(rest@[i as int].1@));
            }
            let (_, v) = rest.swap_remove(i);
            return Some(v);
        }
        i = i + 1;
    }
    proof {
        assert forall|c: int| !is_first_match(all, *k, c) by {
            if 0 <= c < all.len() {
                assert(all[c].0 != *k);
            }
        }
    }
    None
}

} // verus!
