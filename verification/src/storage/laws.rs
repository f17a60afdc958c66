//! What holds of the engine as a whole.
//!
//! The engine hands out segments to be written and asks for byte ranges to be
//! read. The laws here say what comes of that when the transfers are
//! faithful: when each segment is stored with the bytes that were laid out,
//! and each read returns the bytes of the range it asked for.

use vstd::prelude::*;
use crate::storage::codec::{cbor_decoding, cbor_encoding};
use crate::storage::engine::{read_range, stored, EngineState};
use crate::storage::engine::{lemma_chunk_number_is, lemma_offsets_ordered, lemma_points_witness, lemma_sparse_index_ascending};
use crate::storage::engine::{lemma_flush_valid, lemma_merged, lemma_put_valid};
use crate::storage::ordered::{ascending, floor, lookup, rank, upsert};
use crate::storage::ordered::{lemma_erase, lemma_floor, lemma_floor_is, lemma_lookup_entry, lemma_lookup_position, lemma_upsert};
use crate::storage::segment::{chunk_at, chunk_count, chunk_offset, first_key, first_match, is_first_match, layable, sparse_index};
use crate::storage::segment::{lemma_chunk_exists, lemma_chunk_shape, lemma_prefix_grows};

verus! {

/// The codec restores `chunk`: from any byte string that begins with the
/// encoding of `chunk` it reads `chunk` back.
pub open spec fn restores(chunk: Seq<(u64, Seq<char>)>) -> bool {
    forall|rest: Seq<u8>|
        cbor_encoding(chunk) is Some ==> #[trigger] cbor_decoding(
            cbor_encoding(chunk).unwrap() + rest,
        ) == Some(chunk)
}

/// Chunk boundaries. A flush of sorted records adds one index entry per
/// chunk, which is the number of records divided by the chunk size and
/// rounded up; the key of each entry is the smallest key of its chunk, and
/// its value names the segment and the offset at which the chunk begins.
pub proof fn law_chunk_boundaries(records: Seq<(u64, Seq<char>)>, r: nat, segment: u32)
    requires
        r > 0,
        ascending(records),
    ensures
        sparse_index(records, r, segment).len() == chunk_count(records.len(), r),
        (chunk_count(records.len(), r) - 1) * r < records.len() <= chunk_count(records.len(), r)
            * r,
        forall|j: int|
            #![trigger sparse_index(records, r, segment)[j]]
            #![trigger chunk_at(records, r, j as nat)]
            0 <= j < chunk_count(records.len(), r) ==> {
                &&& chunk_at(records, r, j as nat).len() > 0
                &&& sparse_index(records, r, segment)[j].0 == chunk_at(records, r, j as nat)[0].0
                &&& sparse_index(records, r, segment)[j].1.0 == segment
                &&& (layable(records, r) ==> sparse_index(records, r, segment)[j].1.1
                    == chunk_offset(records, r, j as nat))
            },
        forall|j: int, i: int|
            #![trigger sparse_index(records, r, segment)[j], chunk_at(records, r, j as nat)[i]]
            0 <= j < chunk_count(records.len(), r) && 0 <= i < chunk_at(records, r, j as nat).len()
                ==> sparse_index(records, r, segment)[j].0 <= chunk_at(records, r, j as nat)[i].0,
{
    let count = chunk_count(records.len(), r);
    let index = sparse_index(records, r, segment);
    lemma_chunk_exists(records.len(), r, count);
    if count > 0 {
        lemma_chunk_exists(records.len(), r, (count - 1) as nat);
    } else {
        assert((count - 1) * r < 0) by (nonlinear_arith)
            requires
                count == 0,
                r > 0,
        ;
    }
    assert forall|j: int|
        #![trigger index[j]]
        #![trigger chunk_at(records, r, j as nat)]
        0 <= j < count implies {
        &&& chunk_at(records, r, j as nat).len() > 0
        &&& index[j].0 == chunk_at(records, r, j as nat)[0].0
        &&& index[j].1.0 == segment
        &&& (layable(records, r) ==> index[j].1.1 == chunk_offset(records, r, j as nat))
    } by {
        lemma_chunk_shape(records, r, j as nat);
        if layable(records, r) {
            lemma_prefix_grows(records, r, j as nat, count);
        }
    }
    assert forall|j: int, i: int|
        #![trigger index[j], chunk_at(records, r, j as nat)[i]]
        0 <= j < count && 0 <= i < chunk_at(records, r, j as nat).len() implies index[j].0
        <= chunk_at(records, r, j as nat)[i].0 by {
        lemma_chunk_shape(records, r, j as nat);
        if i > 0 {
            assert(records[j * r].0 < records[j * r + i].0);
        }
    }
}

/// Scanning a sorted chunk from the front finds the value that the chunk
/// holds for the key.
pub proof fn law_chunk_search(chunk: Seq<(u64, Seq<char>)>, k: u64)
    requires
        ascending(chunk),
    ensures
        first_match(chunk, k) == lookup(chunk, k),
{
    lemma_lookup_position(chunk, k);
    if lookup(chunk, k) is Some {
        let p = rank(chunk, k as int) as int;
        assert(is_first_match(chunk, k, p)) by {
            assert forall|j: int| 0 <= j < p implies (#[trigger] chunk[j]).0 != k by {
                assert(chunk[j].0 < chunk[p].0);
            }
        }
        let c = choose|c: int| is_first_match(chunk, k, c);
        if c < p {
            assert(chunk[c].0 < chunk[p].0);
        }
        if p < c {
            assert(chunk[p].0 < chunk[c].0);
        }
    } else {
        if exists|c: int| is_first_match(chunk, k, c) {
            let c = choose|c: int| is_first_match(chunk, k, c);
            assert(chunk[c].0 == k);
        }
    }
}

/// Bounded reads. The read that a lookup asks for begins where the chunk
/// under the greatest indexed key at most `k` begins, and the bytes from
/// there on begin with that chunk's encoding. The read is bounded exactly
/// where the next index entry lies in the same segment; a bounded read covers
/// the encoding of the chunk and nothing else, and is strictly shorter than
/// what remains of the segment from its offset on.
pub proof fn law_bounded_read(state: EngineState, k: u64)
    requires
        state.valid(),
        state.locate(k) is Some,
    ensures
        ({
            let p = floor(state.index, k).unwrap();
            let read = state.locate(k).unwrap();
            let file = state.image(read.segment_num as int);
            let chunk = state.pointed_chunk(p);
            &&& 0 <= p < state.index.len()
            &&& read.segment_num < state.segments.len()
            &&& read.segment_num == state.index[p].1.0
            &&& read.offset == state.index[p].1.1
            &&& cbor_encoding(chunk) is Some
            &&& read.offset + cbor_encoding(chunk).unwrap().len() <= file.len()
            &&& read_range(file, read).len() >= cbor_encoding(chunk).unwrap().len()
            &&& read_range(file, read).subrange(0, cbor_encoding(chunk).unwrap().len() as int)
                == cbor_encoding(chunk).unwrap()
            &&& read.limit is Some <==> p + 1 < state.index.len() && state.index[p + 1].1.0
                == state.index[p].1.0
            &&& read.limit is Some ==> {
                &&& read_range(file, read) == cbor_encoding(chunk).unwrap()
                &&& read.limit.unwrap() == cbor_encoding(chunk).unwrap().len()
                &&& read.limit.unwrap() < file.len() - read.offset
            }
        }),
{
    lemma_floor(state.index, k);
    let p = floor(state.index, k).unwrap();
    let read = state.locate(k).unwrap();
    let r = state.records_per_index;
    let s = read.segment_num as int;
    assert(state.points(p));
    lemma_points_witness(state, p);
    let records = state.segments[s];
    assert(stored(records, r));
    let j = state.chunk_number(p);
    let count = chunk_count(records.len(), r);
    let file = state.image(s);
    let chunk = state.pointed_chunk(p);
    lemma_prefix_grows(records, r, j, count);
    lemma_prefix_grows(records, r, j + 1, count);
    let enc = cbor_encoding(chunk).unwrap();
    let begin = chunk_offset(records, r, j) as int;
    assert(file.subrange(begin, begin + enc.len()) == enc);
    if read.limit is Some {
        let q = p + 1;
        lemma_offsets_ordered(state, p, q);
        assert(state.points(q));
        lemma_points_witness(state, q);
        let next = state.chunk_number(q);
        lemma_chunk_exists(records.len(), r, j + 1);
        lemma_chunk_exists(records.len(), r, next);
        assert(j + 1 < count) by {
            assert((j + 1) * r <= next * r) by (nonlinear_arith)
                requires
                    j + 1 <= next,
                    r > 0,
            ;
        }
        lemma_sparse_index_ascending(records, r, 0);
        let key = first_key(records, r, j + 1);
        assert(lookup(state.index, first_key(state.segments[s], r, j + 1)) is Some);
        lemma_lookup_position(state.index, key);
        let t = rank(state.index, key as int) as int;
        assert(state.index[t].0 == key);
        assert(first_key(records, r, j) < key);
        assert(t > p) by {
            if t < p {
                assert(state.index[t].0 < state.index[p].0);
            }
        }
        if t > q {
            assert(state.index[q].0 < state.index[t].0);
        }
        if next > j + 1 {
            assert(first_key(records, r, j + 1) < first_key(records, r, next));
        }
        assert(next == j + 1);
        lemma_prefix_grows(records, r, j + 2, count);
        assert(cbor_encoding(chunk_at(records, r, j + 1)).unwrap().len() > 0);
        assert(read_range(file, read) =~= enc);
    } else {
        assert(read_range(file, read).subrange(0, enc.len() as int) =~= enc);
    }
}

/// Reading back. Where a lookup asks for a read, the read returns the bytes
/// of its range as they were laid out, and the codec restores the chunk that
/// lies there, searching the decoded chunk yields what the segments hold for
/// the key.
pub proof fn law_read_resolves(state: EngineState, k: u64, bytes: Seq<u8>)
    requires
        state.valid(),
        state.locate(k) is Some,
        bytes == read_range(
            state.image(state.locate(k).unwrap().segment_num as int),
            state.locate(k).unwrap(),
        ),
        restores(state.pointed_chunk(floor(state.index, k).unwrap())),
    ensures
        cbor_decoding(bytes) == Some(state.pointed_chunk(floor(state.index, k).unwrap())),
        first_match(cbor_decoding(bytes).unwrap(), k) == state.resolve_in_segments(k),
{
    law_bounded_read(state, k);
    let p = floor(state.index, k).unwrap();
    let chunk = state.pointed_chunk(p);
    let enc = cbor_encoding(chunk).unwrap();
    let rest = bytes.subrange(enc.len() as int, bytes.len() as int);
    assert(bytes =~= enc + rest);
    assert(cbor_decoding(enc + rest) == Some(chunk));
    lemma_pointed_chunk_sorted(state, p);
    law_chunk_search(chunk, k);
}

/// The chunk that an index entry points at is sorted, and its records are
/// records of its segment.
pub proof fn lemma_pointed_chunk_sorted(state: EngineState, p: int)
    requires
        state.valid(),
        0 <= p < state.index.len(),
    ensures
        ascending(state.pointed_chunk(p)),
        state.pointed_chunk(p).len() > 0,
        state.pointed_chunk(p)[0].0 == state.index[p].0,
        forall|k: u64|
            lookup(state.pointed_chunk(p), k) is Some ==> #[trigger] lookup(
                state.segments[state.index[p].1.0 as int],
                k,
            ) == lookup(state.pointed_chunk(p), k),
{
    assert(state.points(p));
    lemma_points_witness(state, p);
    let r = state.records_per_index;
    let records = state.segments[state.index[p].1.0 as int];
    assert(stored(records, r));
    let j = state.chunk_number(p);
    let chunk = state.pointed_chunk(p);
    lemma_chunk_shape(records, r, j);
    assert forall|a: int, b: int| 0 <= a < b < chunk.len() implies chunk[a].0 < chunk[b].0 by {
        assert(records[j * r + a].0 < records[j * r + b].0);
    }
    assert forall|k: u64| lookup(chunk, k) is Some implies #[trigger] lookup(records, k) == lookup(
        chunk,
        k,
    ) by {
        lemma_lookup_position(chunk, k);
        let i = rank(chunk, k as int) as int;
        assert(chunk[i] == records[j * r + i]);
        lemma_lookup_entry(records, j * r + i);
    }
}

/// Among sorted records, the chunk whose first key is the greatest first key
/// at most `k` holds for `k` what the records hold for it.
pub proof fn lemma_chunk_lookup(records: Seq<(u64, Seq<char>)>, r: nat, i: nat, k: u64)
    requires
        r > 0,
        ascending(records),
        i < chunk_count(records.len(), r),
        first_key(records, r, i) <= k,
        i + 1 < chunk_count(records.len(), r) ==> k < first_key(records, r, i + 1),
    ensures
        ascending(chunk_at(records, r, i)),
        lookup(chunk_at(records, r, i), k) == lookup(records, k),
{
    let chunk = chunk_at(records, r, i);
    lemma_chunk_shape(records, r, i);
    lemma_chunk_exists(records.len(), r, i + 1);
    assert forall|a: int, b: int| 0 <= a < b < chunk.len() implies chunk[a].0 < chunk[b].0 by {
        assert(records[i * r + a].0 < records[i * r + b].0);
    }
    lemma_lookup_position(records, k);
    lemma_lookup_position(chunk, k);
    if lookup(records, k) is Some {
        let q = rank(records, k as int) as int;
        if q < i * r {
            assert(records[q].0 < records[(i * r) as int].0);
        }
        if q >= i * r + chunk.len() {
            assert(records[(i * r + r) as int].0 <= records[q].0) by {
                if i * r + r < q {
                    assert(records[(i * r + r) as int].0 < records[q].0);
                }
            }
        }
        assert(chunk[q - i * r] == records[q]);
        lemma_lookup_entry(chunk, q - i * r);
    } else if lookup(chunk, k) is Some {
        let c = rank(chunk, k as int) as int;
        assert(chunk[c] == records[i * r + c]);
        lemma_lookup_entry(records, i * r + c);
    }
}

/// After a flush the new index entries direct a lookup of `k` to the new
/// segment: some new entry has a key at most `k`, and no older entry lies
/// between the greatest such key and `k`.
pub open spec fn fresh_wins(state: EngineState, k: u64) -> bool {
    let fresh = sparse_index(state.memtable, state.records_per_index, state.next_segment);
    match floor(fresh, k) {
        Some(i) => match floor(state.index, k) {
            Some(p) => state.index[p].0 <= fresh[i].0,
            None => true,
        },
        None => false,
    }
}

/// Round trip in the memtable. Right after `k` was bound to `v`, a lookup of
/// `k` yields `v`, whether or not the binding set off a flush.
pub proof fn law_put_then_get(state: EngineState, k: u64, v: Seq<char>)
    requires
        state.valid(),
    ensures
        lookup(state.put(k, v).memtable, k) == Some(v),
        state.put(k, v).resolve(k) == Some(v),
        state.put(k, v).knows(k),
{
    lemma_upsert(state.memtable, k, v);
}

/// Binding one key leaves what the lookups of all other keys yield.
pub proof fn law_put_keeps_others(state: EngineState, k: u64, v: Seq<char>, other: u64)
    requires
        state.valid(),
        other != k,
    ensures
        state.put(k, v).resolve(other) == state.resolve(other),
        state.put(k, v).knows(other) == state.knows(other),
{
    lemma_upsert(state.memtable, k, v);
    let after = state.put(k, v);
    lemma_same_segments(state, after, other);
}

/// Removing a key leaves what the lookups of all other keys yield. A lookup of
/// the removed key itself falls through to the segments.
pub proof fn law_remove(state: EngineState, k: u64, other: u64)
    requires
        state.valid(),
    ensures
        state.remove(k).resolve(k) == state.resolve_in_segments(k),
        other != k ==> state.remove(k).resolve(other) == state.resolve(other),
        state.remove(k).knows(other) ==> state.knows(other),
{
    lemma_erase(state.memtable, k);
    let after = state.remove(k);
    lemma_same_segments(state, after, k);
    lemma_same_segments(state, after, other);
}

/// States with the same index and the same segments yield the same from
/// their segments.
pub proof fn lemma_same_segments(a: EngineState, b: EngineState, k: u64)
    requires
        a.index == b.index,
        a.segments == b.segments,
        a.records_per_index == b.records_per_index,
    ensures
        a.resolve_in_segments(k) == b.resolve_in_segments(k),
        (exists|s: int| 0 <= s < a.segments.len() && lookup(#[trigger] a.segments[s], k) is Some)
            == (exists|s: int|
            0 <= s < b.segments.len() && lookup(#[trigger] b.segments[s], k) is Some),
{
    if floor(a.index, k) is Some {
        let p = floor(a.index, k).unwrap();
        assert(a.chunk_number(p) == b.chunk_number(p));
    }
}

/// Round trip through a flush. Once the flush is complete, a lookup of `k`
/// is directed either to the new segment, where it yields what the memtable
/// held for `k`, or to the chunk that it was directed to before the flush.
/// It goes to the new segment exactly if a new index entry has a key at most
/// `k` and no older entry lies between that key and `k`.
pub proof fn law_flush_then_get(state: EngineState, k: u64)
    requires
        state.valid(),
        state.flushing,
        state.next_segment < u32::MAX,
    ensures
        state.complete_flush().resolve(k) == if fresh_wins(state, k) {
            lookup(state.memtable, k)
        } else {
            state.resolve_in_segments(k)
        },
        state.complete_flush().knows(k) == state.knows(k),
        lookup(state.memtable, k) is Some ==> floor(
            sparse_index(state.memtable, state.records_per_index, state.next_segment),
            k,
        ) is Some,
{
    let r = state.records_per_index;
    let n = state.next_segment;
    let fresh = sparse_index(state.memtable, r, n);
    let after = state.complete_flush();
    let m = after.index;
    let count = chunk_count(state.memtable.len(), r);
    lemma_flush_valid(state);
    lemma_sparse_index_ascending(state.memtable, r, n);
    lemma_merged(state.index, fresh);
    lemma_floor(fresh, k);
    lemma_floor(state.index, k);
    lemma_floor(m, k);
    assert(lookup(after.memtable, k) is None);
    // Every key of the old index and of the new entries is a key of the merged index.
    assert forall|i: int| 0 <= i < fresh.len() implies lookup(m, (#[trigger] fresh[i]).0)
        == Some(fresh[i].1) by {
        lemma_lookup_entry(fresh, i);
    }
    assert forall|q: int| 0 <= q < state.index.len() implies lookup(
        m,
        (#[trigger] state.index[q]).0,
    ) is Some by {
        lemma_lookup_entry(state.index, q);
    }
    match floor(m, k) {
        None => {
            if floor(fresh, k) is Some {
                let i = floor(fresh, k).unwrap();
                lemma_lookup_position(m, fresh[i].0);
                assert(m[rank(m, fresh[i].0 as int) as int].0 > k);
            }
            if floor(state.index, k) is Some {
                let q = floor(state.index, k).unwrap();
                lemma_lookup_position(m, state.index[q].0);
                assert(m[rank(m, state.index[q].0 as int) as int].0 > k);
            }
        },
        Some(at) => {
            let key = m[at].0;
            lemma_lookup_entry(m, at);
            if lookup(fresh, key) is Some {
                lemma_lookup_position(fresh, key);
                let i = rank(fresh, key as int) as int;
                assert(fresh[i] == m[at]);
                assert forall|j: int| i < j < fresh.len() implies (#[trigger] fresh[j]).0 > k by {
                    assert(fresh[i].0 < fresh[j].0);
                    lemma_lookup_position(m, fresh[j].0);
                    let t = rank(m, fresh[j].0 as int) as int;
                    assert(m[t].0 == fresh[j].0);
                    if t <= at {
                        if t < at {
                            assert(m[t].0 < m[at].0);
                        }
                    }
                }
                lemma_floor_is(fresh, k, i);
                if floor(state.index, k) is Some {
                    let q = floor(state.index, k).unwrap();
                    lemma_lookup_position(m, state.index[q].0);
                    let t = rank(m, state.index[q].0 as int) as int;
                    assert(m[t].0 == state.index[q].0);
                    if t > at {
                        assert(m[t].0 > k);
                    }
                    if t < at {
                        assert(m[t].0 < m[at].0);
                    }
                }
                assert(fresh_wins(state, k));
                assert(after.segments[n as int] == state.memtable);
                lemma_chunk_number_is(after, at, i as nat);
                assert(first_key(state.memtable, r, i as nat) == key);
                if i + 1 < count {
                    assert(fresh[i + 1].0 > k);
                }
                lemma_chunk_lookup(state.memtable, r, i as nat, k);
            } else {
                lemma_lookup_position(state.index, key);
                let q = rank(state.index, key as int) as int;
                assert(state.index[q] == m[at]);
                assert forall|j: int| q < j < state.index.len() implies (
                #[trigger] state.index[j]).0 > k by {
                    assert(state.index[q].0 < state.index[j].0);
                    lemma_lookup_position(m, state.index[j].0);
                    let t = rank(m, state.index[j].0 as int) as int;
                    assert(m[t].0 == state.index[j].0);
                    if t < at {
                        assert(m[t].0 < m[at].0);
                    }
                }
                lemma_floor_is(state.index, k, q);
                if floor(fresh, k) is Some {
                    let i = floor(fresh, k).unwrap();
                    lemma_lookup_entry(fresh, i);
                    lemma_lookup_position(m, fresh[i].0);
                    let t = rank(m, fresh[i].0 as int) as int;
                    assert(m[t].0 == fresh[i].0);
                    if t > at {
                        assert(m[t].0 > k);
                    }
                    if t < at {
                        assert(m[t].0 < m[at].0);
                    }
                }
                assert(!fresh_wins(state, k));
                assert(state.points(q));
                lemma_points_witness(state, q);
                let s = state.index[q].1.0 as int;
                assert(after.segments[s] == state.segments[s]);
                lemma_chunk_number_is(after, at, state.chunk_number(q));
                assert(after.pointed_chunk(at) == state.pointed_chunk(q));
            }
        },
    }
    // What is known stays known: the memtable has become the newest segment.
    if state.knows(k) {
        if lookup(state.memtable, k) is Some {
            assert(lookup(after.segments[n as int], k) is Some);
        } else {
            let s = choose|s: int|
                0 <= s < state.segments.len() && lookup(#[trigger] state.segments[s], k) is Some;
            assert(after.segments[s] == state.segments[s]);
        }
        assert(after.knows(k));
    }
    if after.knows(k) {
        let s = choose|s: int|
            0 <= s < after.segments.len() && lookup(#[trigger] after.segments[s], k) is Some;
        if s < n {
            assert(after.segments[s] == state.segments[s]);
        }
        assert(state.knows(k));
    }
    if lookup(state.memtable, k) is Some {
        lemma_lookup_position(state.memtable, k);
        let q = rank(state.memtable, k as int) as int;
        lemma_chunk_exists(state.memtable.len(), r, 0);
        assert(fresh[0].0 == state.memtable[0].0);
        if 0 < q {
            assert(state.memtable[0].0 < state.memtable[q].0);
        }
        if floor(fresh, k) is None {
            assert(fresh[0].0 > k);
        }
    }
}

/// Absence. A key that neither the memtable nor any segment has a record of
/// is never found: the lookup yields nothing, whether the index is empty or
/// has entries around the key.
pub proof fn law_unknown_key_absent(state: EngineState, k: u64)
    requires
        state.valid(),
        !state.knows(k),
    ensures
        state.resolve(k) is None,
        state.locate(k) is Some ==> lookup(
            state.pointed_chunk(floor(state.index, k).unwrap()),
            k,
        ) is None,
{
    if floor(state.index, k) is Some {
        lemma_floor(state.index, k);
        let p = floor(state.index, k).unwrap();
        lemma_pointed_chunk_sorted(state, p);
        if lookup(state.pointed_chunk(p), k) is Some {
            assert(lookup(state.segments[state.index[p].1.0 as int], k) is Some);
            assert(state.points(p));
        }
    }
}

/// The index locates chunks. The entry under the greatest indexed key at
/// most `k` points at the one chunk of its segment that can hold `k`: the
/// chunk holds for `k` what the whole segment holds for it.
pub proof fn law_index_locates_chunk(state: EngineState, k: u64)
    requires
        state.valid(),
        floor(state.index, k) is Some,
    ensures
        ({
            let p = floor(state.index, k).unwrap();
            let records = state.segments[state.index[p].1.0 as int];
            &&& 0 <= p < state.index.len()
            &&& state.index[p].1.0 < state.segments.len()
            &&& state.pointed_chunk(p) == chunk_at(
                records,
                state.records_per_index,
                state.chunk_number(p),
            )
            &&& state.chunk_number(p) < chunk_count(records.len(), state.records_per_index)
            &&& lookup(state.pointed_chunk(p), k) == lookup(records, k)
            &&& state.resolve_in_segments(k) == lookup(records, k)
        }),
{
    let r = state.records_per_index;
    lemma_floor(state.index, k);
    let p = floor(state.index, k).unwrap();
    assert(state.points(p));
    lemma_points_witness(state, p);
    let s = state.index[p].1.0 as int;
    let records = state.segments[s];
    assert(stored(records, r));
    let j = state.chunk_number(p);
    if j + 1 < chunk_count(records.len(), r) {
        lemma_sparse_index_ascending(records, r, 0);
        let key = first_key(state.segments[s], r, j + 1);
        assert(first_key(records, r, j) < key);
        assert(lookup(state.index, key) is Some);
        lemma_lookup_position(state.index, key);
        let t = rank(state.index, key as int) as int;
        if t <= p {
            if t < p {
                assert(state.index[t].0 < state.index[p].0);
            }
        }
    }
    lemma_chunk_lookup(records, r, j, k);
}

/// Where no indexed key is at most `k`, no segment has a record of `k`: a
/// lookup that finds nothing in the memtable and asks for no read has missed
/// nothing.
pub proof fn law_unindexed_key_unflushed(state: EngineState, k: u64)
    requires
        state.valid(),
        state.locate(k) is None,
    ensures
        forall|s: int|
            0 <= s < state.segments.len() ==> lookup(#[trigger] state.segments[s], k) is None,
        state.knows(k) <==> lookup(state.memtable, k) is Some,
{
    let r = state.records_per_index;
    lemma_floor(state.index, k);
    assert forall|s: int| 0 <= s < state.segments.len() implies lookup(
        #[trigger] state.segments[s],
        k,
    ) is None by {
        let records = state.segments[s];
        assert(stored(records, r));
        if lookup(records, k) is Some {
            lemma_lookup_position(records, k);
            let q = rank(records, k as int) as int;
            if 0 < q {
                assert(records[0].0 < records[q].0);
            }
            lemma_chunk_exists(records.len(), r, 0);
            let key = first_key(state.segments[s], r, 0);
            assert(lookup(state.index, key) is Some);
            lemma_lookup_position(state.index, key);
            assert(state.index[rank(state.index, key as int) as int].0 > k);
        }
    }
}

/// A new engine has no record of any key.
pub proof fn law_initial_knows_nothing(
    storage_dir: Seq<char>,
    memtable_max_size: nat,
    records_per_index: nat,
    k: u64,
)
    ensures
        !EngineState::initial(storage_dir, memtable_max_size, records_per_index).knows(k),
{
}

/// The state after a write that went through: `k` was bound to `v`, and the
/// flush that this set off, if any, was completed.
pub open spec fn store(state: EngineState, k: u64, v: Seq<char>) -> EngineState {
    state.put(k, v).complete_flush()
}

/// The state after a series of writes that went through, first to last.
pub open spec fn store_all(state: EngineState, writes: Seq<(u64, Seq<char>)>) -> EngineState
    decreases writes.len(),
{
    if writes.len() == 0 {
        state
    } else {
        store(store_all(state, writes.drop_last()), writes.last().0, writes.last().1)
    }
}

/// The records that an empty memtable holds after a series of writes.
pub open spec fn collected(writes: Seq<(u64, Seq<char>)>) -> Seq<(u64, Seq<char>)>
    decreases writes.len(),
{
    if writes.len() == 0 {
        Seq::empty()
    } else {
        upsert(collected(writes.drop_last()), writes.last().0, writes.last().1)
    }
}

/// No two of the writes have the same key.
pub open spec fn distinct_keys(writes: Seq<(u64, Seq<char>)>) -> bool {
    forall|i: int, j: int| 0 <= i < j < writes.len() ==> writes[i].0 != writes[j].0
}

/// The collected records are sorted, hold exactly the keys written, and are
/// as many as the writes if the keys are distinct.
pub proof fn lemma_collected(writes: Seq<(u64, Seq<char>)>)
    ensures
        ascending(collected(writes)),
        forall|k: u64| #[trigger]
            lookup(collected(writes), k) is Some <==> exists|j: int|
                0 <= j < writes.len() && (#[trigger] writes[j]).0 == k,
        distinct_keys(writes) ==> collected(writes).len() == writes.len(),
    decreases writes.len(),
{
    if writes.len() > 0 {
        let front = writes.drop_last();
        let last = writes.last();
        lemma_collected(front);
        lemma_upsert(collected(front), last.0, last.1);
        assert forall|k: u64| #[trigger]
            lookup(collected(writes), k) is Some <==> exists|j: int|
                0 <= j < writes.len() && (#[trigger] writes[j]).0 == k by {
            if k == last.0 {
                assert(writes[writes.len() - 1].0 == k);
            } else {
                assert(lookup(collected(writes), k) == lookup(collected(front), k));
                if lookup(collected(front), k) is Some {
                    let j = choose|j: int| 0 <= j < front.len() && (#[trigger] front[j]).0 == k;
                    assert(writes[j].0 == k);
                }
                if exists|j: int| 0 <= j < writes.len() && (#[trigger] writes[j]).0 == k {
                    let j = choose|j: int| 0 <= j < writes.len() && (#[trigger] writes[j]).0 == k;
                    assert(front[j].0 == k);
                }
            }
        }
        if distinct_keys(writes) {
            assert(distinct_keys(front)) by {
                assert forall|i: int, j: int| 0 <= i < j < front.len() implies front[i].0
                    != front[j].0 by {
                    assert(writes[i].0 != writes[j].0);
                }
            }
            if lookup(collected(front), last.0) is Some {
                let j = choose|j: int| 0 <= j < front.len() && (#[trigger] front[j]).0 == last.0;
                assert(writes[j].0 != writes[writes.len() - 1].0);
            }
        }
    } else {
        assert forall|k: u64| #[trigger] lookup(collected(writes), k) is None by {}
    }
}

/// As long as the memtable stays within its threshold, writes only fill it.
pub proof fn lemma_writes_below_threshold(state: EngineState, writes: Seq<(u64, Seq<char>)>)
    requires
        state.valid(),
        state.memtable.len() == 0,
        collected(writes).len() <= state.memtable_max_size,
    ensures
        store_all(state, writes) == (EngineState {
            memtable: collected(writes),
            flushing: false,
            ..state
        }),
        store_all(state, writes).valid(),
    decreases writes.len(),
{
    lemma_collected(writes);
    if writes.len() > 0 {
        let front = writes.drop_last();
        lemma_collected(front);
        lemma_upsert(collected(front), writes.last().0, writes.last().1);
        lemma_writes_below_threshold(state, front);
        lemma_put_valid(store_all(state, front), writes.last().0, writes.last().1);
    } else {
        assert(state.memtable =~= Seq::empty());
    }
}

/// A part of a series of writes with distinct keys has distinct keys.
pub proof fn lemma_distinct_part(writes: Seq<(u64, Seq<char>)>, n: int)
    requires
        distinct_keys(writes),
        0 <= n <= writes.len(),
    ensures
        distinct_keys(writes.take(n)),
{
    let part = writes.take(n);
    assert forall|a: int, b: int| 0 <= a < b < part.len() implies part[a].0 != part[b].0 by {
        assert(writes[a].0 != writes[b].0);
    }
}

/// Flush triggering. Starting with an empty memtable, the first
/// `memtable_max_size` writes of distinct keys set off no flush, and the one
/// after them sets off exactly one: afterwards one more segment exists, it
/// holds all the records written, and the memtable is empty.
pub proof fn law_flush_triggering(state: EngineState, writes: Seq<(u64, Seq<char>)>)
    requires
        state.valid(),
        state.memtable.len() == 0,
        distinct_keys(writes),
        writes.len() == state.memtable_max_size + 1,
        layable(collected(writes), state.records_per_index),
        state.next_segment < u32::MAX,
    ensures
        forall|i: int|
            0 <= i <= state.memtable_max_size ==> {
                &&& (#[trigger] store_all(state, writes.take(i))).segments == state.segments
                &&& store_all(state, writes.take(i)).memtable.len() == i
                &&& !store_all(state, writes.take(i)).flushing
            },
        store_all(state, writes).segments == state.segments.push(collected(writes)),
        store_all(state, writes).next_segment == state.next_segment + 1,
        store_all(state, writes).memtable.len() == 0,
        !store_all(state, writes).over_size(),
{
    assert forall|i: int| 0 <= i <= state.memtable_max_size implies {
        &&& (#[trigger] store_all(state, writes.take(i))).segments == state.segments
        &&& store_all(state, writes.take(i)).memtable.len() == i
        &&& !store_all(state, writes.take(i)).flushing
    } by {
        lemma_distinct_part(writes, i);
        lemma_collected(writes.take(i));
        lemma_writes_below_threshold(state, writes.take(i));
    }
    let front = writes.drop_last();
    assert(front == writes.take(state.memtable_max_size as int));
    lemma_distinct_part(writes, state.memtable_max_size as int);
    lemma_collected(front);
    lemma_writes_below_threshold(state, front);
    lemma_collected(writes);
}

/// The value of the last of the writes that has the key `k`.
pub open spec fn latest(writes: Seq<(u64, Seq<char>)>, k: u64) -> Option<Seq<char>>
    decreases writes.len(),
{
    if writes.len() == 0 {
        None
    } else if writes.last().0 == k {
        Some(writes.last().1)
    } else {
        latest(writes.drop_last(), k)
    }
}

/// The collected records hold for each key the value of its last write.
pub proof fn lemma_collected_latest(writes: Seq<(u64, Seq<char>)>, k: u64)
    ensures
        lookup(collected(writes), k) == latest(writes, k),
    decreases writes.len(),
{
    if writes.len() > 0 {
        lemma_collected(writes.drop_last());
        lemma_upsert(collected(writes.drop_last()), writes.last().0, writes.last().1);
        lemma_collected_latest(writes.drop_last(), k);
    }
}

/// Round trip without a flush. While the keys written are few enough for the
/// memtable, every lookup yields the value of the key's last write, and a
/// key that was not written yields what it yielded before.
pub proof fn law_round_trip_without_flush(
    state: EngineState,
    writes: Seq<(u64, Seq<char>)>,
    k: u64,
)
    requires
        state.valid(),
        state.memtable.len() == 0,
        collected(writes).len() <= state.memtable_max_size,
    ensures
        store_all(state, writes).resolve(k) == match latest(writes, k) {
            Some(v) => Some(v),
            None => state.resolve(k),
        },
{
    lemma_writes_below_threshold(state, writes);
    lemma_collected_latest(writes, k);
    lemma_same_segments(state, store_all(state, writes), k);
    assert(lookup(state.memtable, k) is None);
}

/// The keys of the writes never decrease.
pub open spec fn nondecreasing_keys(writes: Seq<(u64, Seq<char>)>) -> bool {
    forall|i: int, j: int| 0 <= i <= j < writes.len() ==> writes[i].0 <= writes[j].0
}

/// No record of a segment has a key above `h` or above a key of the
/// memtable, and no key of the memtable is above `h`.
pub open spec fn layered(state: EngineState, h: u64) -> bool {
    &&& forall|j: int| 0 <= j < state.memtable.len() ==> (#[trigger] state.memtable[j]).0 <= h
    &&& forall|s: int, i: int|
        0 <= s < state.segments.len() && 0 <= i < state.segments[s].len() ==> (
        #[trigger] state.segments[s][i]).0 <= h
    &&& forall|s: int, i: int, j: int|
        0 <= s < state.segments.len() && 0 <= i < state.segments[s].len() && 0 <= j
            < state.memtable.len() ==> (#[trigger] state.segments[s][i]).0 <= (
        #[trigger] state.memtable[j]).0
}

/// A write of a key that is at least as great as every key written before
/// changes what a lookup of that key yields, and nothing else.
pub proof fn lemma_layered_write(state: EngineState, h: u64, k: u64, v: Seq<char>)
    requires
        state.valid(),
        !state.flushing,
        layered(state, h),
        h <= k,
        state.next_segment < u32::MAX,
    ensures
        store(state, k, v).valid(),
        !store(state, k, v).flushing,
        layered(store(state, k, v), k),
        store(state, k, v).next_segment <= state.next_segment + 1,
        forall|other: u64| #[trigger]
            store(state, k, v).resolve(other) == if other == k {
                Some(v)
            } else {
                state.resolve(other)
            },
{
    let mid = state.put(k, v);
    let after = store(state, k, v);
    let r = state.records_per_index;
    lemma_put_valid(state, k, v);
    lemma_upsert(state.memtable, k, v);
    law_put_then_get(state, k, v);
    lemma_flush_valid(mid);
    let p = rank(state.memtable, k as int) as int;
    crate::storage::ordered::lemma_rank_splits(state.memtable, k as int);
    assert forall|j: int| 0 <= j < mid.memtable.len() implies (#[trigger] mid.memtable[j]).0
        <= k && (mid.memtable[j].0 == k || exists|i: int|
        0 <= i < state.memtable.len() && state.memtable[i].0 == mid.memtable[j].0) by {
        if j < p {
            assert(mid.memtable[j] == state.memtable[j]);
        } else if j > p {
            if p < state.memtable.len() && state.memtable[p].0 == k {
                assert(mid.memtable[j] == state.memtable[j]);
            } else {
                assert(mid.memtable[j] == state.memtable[j - 1]);
            }
        }
    }
    assert(layered(mid, k)) by {
        assert forall|s: int, i: int, j: int|
            0 <= s < mid.segments.len() && 0 <= i < mid.segments[s].len() && 0 <= j
                < mid.memtable.len() implies (#[trigger] mid.segments[s][i]).0 <= (
        #[trigger] mid.memtable[j]).0 by {
            assert(state.segments[s][i].0 <= h);
            if mid.memtable[j].0 != k {
                let i2 = choose|i2: int|
                    0 <= i2 < state.memtable.len() && state.memtable[i2].0 == mid.memtable[j].0;
                assert(state.segments[s][i].0 <= state.memtable[i2].0);
            }
        }
        assert forall|s: int, i: int|
            0 <= s < mid.segments.len() && 0 <= i < mid.segments[s].len() implies (
        #[trigger] mid.segments[s][i]).0 <= k by {
            assert(state.segments[s][i].0 <= h);
        }
    }
    assert forall|other: u64| #[trigger]
        after.resolve(other) == if other == k {
            Some(v)
        } else {
            state.resolve(other)
        } by {
        if other != k {
            law_put_keeps_others(state, k, v, other);
        }
        if mid.flushing {
            lemma_flush_keeps_layered(mid, k, other);
        }
    }
    if mid.flushing {
        assert(layered(after, k)) by {
            assert forall|s: int, i: int|
                0 <= s < after.segments.len() && 0 <= i < after.segments[s].len() implies (
            #[trigger] after.segments[s][i]).0 <= k by {
                if s < mid.segments.len() {
                    assert(after.segments[s] == mid.segments[s]);
                    assert(mid.segments[s][i].0 <= k);
                } else {
                    assert(after.segments[s] == mid.memtable);
                    assert(mid.memtable[i].0 <= k);
                }
            }
        }
    }
}

/// Where no record of a segment has a key above a key of the memtable, a
/// flush changes what no lookup yields.
pub proof fn lemma_flush_keeps_layered(state: EngineState, h: u64, k: u64)
    requires
        state.valid(),
        state.flushing,
        layered(state, h),
        state.next_segment < u32::MAX,
    ensures
        state.complete_flush().resolve(k) == state.resolve(k),
{
    let r = state.records_per_index;
    let fresh = sparse_index(state.memtable, r, state.next_segment);
    law_flush_then_get(state, k);
    lemma_sparse_index_ascending(state.memtable, r, state.next_segment);
    lemma_floor(fresh, k);
    lemma_floor(state.index, k);
    if floor(fresh, k) is Some {
        let i = floor(fresh, k).unwrap();
        lemma_chunk_exists(state.memtable.len(), r, i as nat);
        assert(fresh[i].0 == state.memtable[i * r].0);
    }
    if lookup(state.memtable, k) is Some {
        if floor(state.index, k) is Some {
            let p = floor(state.index, k).unwrap();
            let i = floor(fresh, k).unwrap();
            lemma_pointed_chunk_sorted(state, p);
            assert(state.points(p));
            lemma_points_witness(state, p);
            let records = state.segments[state.index[p].1.0 as int];
            let j = state.chunk_number(p);
            lemma_chunk_exists(records.len(), r, j);
            assert(records[(j * r) as int].0 <= state.memtable[i * r].0);
        }
        assert(fresh_wins(state, k));
    } else if fresh_wins(state, k) {
        let i = floor(fresh, k).unwrap();
        if state.resolve_in_segments(k) is Some {
            let p = floor(state.index, k).unwrap();
            lemma_pointed_chunk_sorted(state, p);
            let records = state.segments[state.index[p].1.0 as int];
            assert(state.points(p));
            assert(stored(records, r));
            assert(lookup(records, k) is Some);
            lemma_lookup_position(records, k);
            let q = rank(records, k as int) as int;
            assert(records[q].0 <= state.memtable[i * r].0);
            lemma_lookup_entry(state.memtable, i * r);
            assert(false);
        }
    }
}

/// Round trip with ascending keys. Where no write has a key below the key
/// of a write before it, every lookup yields the value of the key's last
/// write, however many flushes the writes set off: a key written once, a key
/// bound again while it is the greatest, in the memtable or in a segment.
pub proof fn law_round_trip_ascending(
    storage_dir: Seq<char>,
    memtable_max_size: nat,
    records_per_index: nat,
    writes: Seq<(u64, Seq<char>)>,
    k: u64,
)
    requires
        records_per_index > 0,
        nondecreasing_keys(writes),
        writes.len() < u32::MAX,
    ensures
        store_all(
            EngineState::initial(storage_dir, memtable_max_size, records_per_index),
            writes,
        ).resolve(k) == latest(writes, k),
{
    lemma_ascending_writes(storage_dir, memtable_max_size, records_per_index, writes);
}

/// What holds after each of a series of writes with ascending keys.
pub proof fn lemma_ascending_writes(
    storage_dir: Seq<char>,
    memtable_max_size: nat,
    records_per_index: nat,
    writes: Seq<(u64, Seq<char>)>,
)
    requires
        records_per_index > 0,
        nondecreasing_keys(writes),
        writes.len() < u32::MAX,
    ensures
        ({
            let end = store_all(
                EngineState::initial(storage_dir, memtable_max_size, records_per_index),
                writes,
            );
            &&& end.valid()
            &&& !end.flushing
            &&& end.next_segment <= writes.len()
            &&& writes.len() > 0 ==> layered(end, writes.last().0)
            &&& writes.len() == 0 ==> end == EngineState::initial(
                storage_dir,
                memtable_max_size,
                records_per_index,
            )
            &&& forall|k: u64| #[trigger] end.resolve(k) == latest(writes, k)
        }),
    decreases writes.len(),
{
    let start = EngineState::initial(storage_dir, memtable_max_size, records_per_index);
    if writes.len() > 0 {
        let front = writes.drop_last();
        let last = writes.last();
        assert(nondecreasing_keys(front)) by {
            assert forall|i: int, j: int| 0 <= i <= j < front.len() implies front[i].0
                <= front[j].0 by {
                assert(writes[i].0 <= writes[j].0);
            }
        }
        lemma_ascending_writes(storage_dir, memtable_max_size, records_per_index, front);
        let before = store_all(start, front);
        let h: u64 = if front.len() > 0 {
            front.last().0
        } else {
            0
        };
        if front.len() > 0 {
            assert(writes[front.len() - 1].0 <= writes[writes.len() - 1].0);
        }
        lemma_layered_write(before, h, last.0, last.1);
    } else {
        assert forall|k: u64| #[trigger] start.resolve(k) == latest(writes, k) by {
            assert(lookup(start.memtable, k) is None);
            assert(floor(start.index, k) is None);
        }
    }
}

} // verus!
