//! The engine as a mathematical state machine.
//!
//! `EngineState` is what the storage engine is, seen from outside: the
//! memtable, the sparse index, the configuration, and the records of every
//! segment that was flushed so far. The transitions say what `put`, `remove`
//! and a completed flush do to it, `locate` says which byte range a lookup has
//! to read, and `valid` says which states can arise.

use vstd::prelude::*;
use crate::storage::ordered::{ascending, erase, floor, lookup, rank, upsert};
use crate::storage::ordered::{lemma_erase, lemma_last_is_upsert, lemma_lookup_entry, lemma_lookup_position, lemma_upsert};
use crate::storage::segment::{chunk_at, chunk_count, chunk_offset, first_key, layable, segment_image, sparse_index};
use crate::storage::segment::{lemma_chunk_exists, lemma_prefix_grows};

verus! {

/// A request to read one chunk: the segment, the byte offset at which the
/// chunk begins, and the number of bytes to read. Without a limit the read
/// goes on to the end of the segment.
#[derive(Clone, Copy, Debug, PartialEq, Eq)]
pub struct ChunkRead {
    pub segment_num: u32,
    pub offset: u64,
    pub limit: Option<u64>,
}

/// The bytes of `file` that a read request denotes. A request that reaches
/// beyond the end of the file gets what there is.
pub open spec fn read_range(file: Seq<u8>, read: ChunkRead) -> Seq<u8> {
    let start = if read.offset <= file.len() {
        read.offset as int
    } else {
        file.len() as int
    };
    let end = match read.limit {
        Some(limit) => if start + limit <= file.len() {
            start + limit
        } else {
            file.len() as int
        },
        None => file.len() as int,
    };
    file.subrange(start, end)
}

impl ChunkRead {
    /// Cuts the requested byte range out of the contents of a segment.
    pub fn slice<'a>(&self, file: &'a [u8]) -> (bytes: &'a [u8])
        ensures
            bytes@ == read_range(file@, *self),
    {
        let len: usize = file.len();
        let start: usize = if self.offset <= len as u64 {
            self.offset as usize
        } else {
            len
        };
        let end: usize = match self.limit {
            Some(limit) => if limit <= (len - start) as u64 {
                start + limit as usize
            } else {
                len
            },
            None => len,
        };
        vstd::slice::slice_subrange(file, start, end)
    }
}

/// The index after the entries of a newly written segment have been added
/// one by one: where a key was indexed before, the new entry replaces the old.
pub open spec fn merged(index: Seq<(u64, (u32, u64))>, entries: Seq<(u64, (u32, u64))>) -> Seq<
    (u64, (u32, u64)),
>
    decreases entries.len(),
{
    if entries.len() == 0 {
        index
    } else {
        upsert(merged(index, entries.drop_last()), entries.last().0, entries.last().1)
    }
}

/// The index entry `entry` stands for chunk `j` of a segment that holds
/// `records`.
pub open spec fn is_chunk_entry(
    records: Seq<(u64, Seq<char>)>,
    r: nat,
    j: nat,
    entry: (u64, (u32, u64)),
) -> bool {
    &&& j < chunk_count(records.len(), r)
    &&& first_key(records, r, j) == entry.0
    &&& chunk_offset(records, r, j) == entry.1.1
}

/// The records are what a segment holds: sorted by key and laid out in full.
pub open spec fn stored(records: Seq<(u64, Seq<char>)>, r: nat) -> bool {
    ascending(records) && layable(records, r)
}

/// The read request that index entry `p` gives rise to. The read is bounded
/// by the next index entry where that lies in the same segment.
pub open spec fn chunk_read(index: Seq<(u64, (u32, u64))>, p: int) -> ChunkRead {
    ChunkRead {
        segment_num: index[p].1.0,
        offset: index[p].1.1,
        limit: if p + 1 < index.len() && index[p + 1].1.0 == index[p].1.0 {
            Some((index[p + 1].1.1 - index[p].1.1) as u64)
        } else {
            None
        },
    }
}

/// The state of a storage engine.
pub struct EngineState {
    /// The directory that holds the segment files.
    pub storage_dir: Seq<char>,
    /// The unflushed records in ascending key order.
    pub memtable: Seq<(u64, Seq<char>)>,
    /// The number of keys that the memtable may hold without a flush.
    pub memtable_max_size: nat,
    /// The sparse index in ascending key order: each entry binds the first
    /// key of a chunk to the chunk's segment number and byte offset.
    pub index: Seq<(u64, (u32, u64))>,
    /// The number of records in a chunk.
    pub records_per_index: nat,
    /// The number that the next segment will get.
    pub next_segment: u32,
    /// The records of each segment flushed so far, by segment number.
    pub segments: Seq<Seq<(u64, Seq<char>)>>,
    /// Whether a segment has been laid out and awaits being written.
    pub flushing: bool,
}

impl EngineState {
    /// The state of a new engine.
    pub open spec fn initial(
        storage_dir: Seq<char>,
        memtable_max_size: nat,
        records_per_index: nat,
    ) -> EngineState {
        EngineState {
            storage_dir,
            memtable: Seq::empty(),
            memtable_max_size,
            index: Seq::empty(),
            records_per_index,
            next_segment: 0,
            segments: Seq::empty(),
            flushing: false,
        }
    }

    /// The memtable holds more keys than it may.
    pub open spec fn over_size(self) -> bool {
        self.memtable.len() > self.memtable_max_size
    }

    /// The state after `k` has been bound to `v`. Where the memtable then
    /// exceeds its threshold and can be laid out, a flush begins.
    pub open spec fn put(self, k: u64, v: Seq<char>) -> EngineState {
        let memtable = upsert(self.memtable, k, v);
        EngineState {
            memtable,
            flushing: memtable.len() > self.memtable_max_size && layable(
                memtable,
                self.records_per_index,
            ),
            ..self
        }
    }

    /// The state after `k` has been taken out of the memtable. A flush that
    /// had begun is called off, since its segment no longer matches.
    pub open spec fn remove(self, k: u64) -> EngineState {
        EngineState { memtable: erase(self.memtable, k), flushing: false, ..self }
    }

    /// The state after the segment that was laid out has been written: its
    /// index entries are merged into the index, its records are on record as
    /// the newest segment, and the memtable is empty.
    pub open spec fn complete_flush(self) -> EngineState {
        if self.flushing {
            EngineState {
                memtable: Seq::empty(),
                index: merged(
                    self.index,
                    sparse_index(self.memtable, self.records_per_index, self.next_segment),
                ),
                next_segment: (self.next_segment + 1) as u32,
                segments: self.segments.push(self.memtable),
                flushing: false,
                ..self
            }
        } else {
            self
        }
    }

    /// What a lookup of `k` has to read when the memtable does not hold `k`:
    /// the chunk under the greatest indexed key that is at most `k`. `None`
    /// where no such key is indexed.
    pub open spec fn locate(self, k: u64) -> Option<ChunkRead> {
        match floor(self.index, k) {
            Some(p) => Some(chunk_read(self.index, p)),
            None => None,
        }
    }

    /// Index entry `p` points at the beginning of a chunk of a flushed
    /// segment, and its key is that chunk's first key.
    pub open spec fn points(self, p: int) -> bool {
        let entry = self.index[p];
        &&& entry.1.0 < self.segments.len()
        &&& exists|j: nat| #[trigger]
            is_chunk_entry(self.segments[entry.1.0 as int], self.records_per_index, j, entry)
    }

    /// The number of the chunk that index entry `p` points at, within the
    /// chunk's segment.
    pub open spec fn chunk_number(self, p: int) -> nat {
        choose|j: nat| #[trigger]
            is_chunk_entry(
                self.segments[self.index[p].1.0 as int],
                self.records_per_index,
                j,
                self.index[p],
            )
    }

    /// The records of the chunk that index entry `p` points at.
    pub open spec fn pointed_chunk(self, p: int) -> Seq<(u64, Seq<char>)> {
        chunk_at(
            self.segments[self.index[p].1.0 as int],
            self.records_per_index,
            self.chunk_number(p),
        )
    }

    /// The bytes of segment `s` as they were laid out.
    pub open spec fn image(self, s: int) -> Seq<u8> {
        segment_image(self.segments[s], self.records_per_index).unwrap()
    }

    /// What the segments yield for `k`: the value that `k` has in the chunk
    /// under the greatest indexed key that is at most `k`.
    pub open spec fn resolve_in_segments(self, k: u64) -> Option<Seq<char>> {
        match floor(self.index, k) {
            Some(p) => lookup(self.pointed_chunk(p), k),
            None => None,
        }
    }

    /// What a lookup of `k` yields in the end, provided that every read
    /// returns the bytes that were laid out and that the codec restores the
    /// chunk it is given: the value in the memtable, or else the value that
    /// the segments yield.
    pub open spec fn resolve(self, k: u64) -> Option<Seq<char>> {
        match lookup(self.memtable, k) {
            Some(v) => Some(v),
            None => self.resolve_in_segments(k),
        }
    }

    /// Some record of the memtable or of a segment has the key `k`.
    pub open spec fn knows(self, k: u64) -> bool {
        ||| lookup(self.memtable, k) is Some
        ||| exists|s: int| 0 <= s < self.segments.len() && lookup(#[trigger] self.segments[s], k) is Some
    }

    /// The states that can arise.
    pub open spec fn valid(self) -> bool {
        &&& self.records_per_index > 0
        &&& ascending(self.memtable)
        &&& ascending(self.index)
        &&& self.segments.len() == self.next_segment
        &&& forall|s: int|
            0 <= s < self.segments.len() ==> stored(
                #[trigger] self.segments[s],
                self.records_per_index,
            )
        &&& forall|p: int| 0 <= p < self.index.len() ==> #[trigger] self.points(p)
        &&& forall|s: int, j: nat|
            0 <= s < self.segments.len() && j < chunk_count(
                self.segments[s].len(),
                self.records_per_index,
            ) ==> lookup(
                self.index,
                #[trigger] first_key(self.segments[s], self.records_per_index, j),
            ) is Some
        &&& self.flushing ==> self.over_size() && layable(self.memtable, self.records_per_index)
    }
}

/// The first keys of the chunks of sorted records increase with the chunk
/// number, so the sparse index of a segment is sorted too.
pub proof fn lemma_sparse_index_ascending(records: Seq<(u64, Seq<char>)>, r: nat, segment: u32)
    requires
        r > 0,
        ascending(records),
    ensures
        ascending(sparse_index(records, r, segment)),
        forall|i: nat, j: nat|
            i < j < chunk_count(records.len(), r) ==> first_key(records, r, i) < first_key(
                records,
                r,
                j,
            ),
{
    assert forall|i: nat, j: nat| i < j < chunk_count(records.len(), r) implies first_key(
        records,
        r,
        i,
    ) < first_key(records, r, j) by {
        lemma_chunk_exists(records.len(), r, j);
        assert(0 <= i * r < j * r) by (nonlinear_arith)
            requires
                0 <= i < j,
                r > 0,
        ;
    }
    let index = sparse_index(records, r, segment);
    assert forall|i: int, j: int| 0 <= i < j < index.len() implies index[i].0 < index[j].0 by {
        assert(first_key(records, r, i as nat) < first_key(records, r, j as nat));
    }
}

/// In the merged index a key has the value of its new entry if it has one,
/// and otherwise the value it had before.
pub proof fn lemma_merged(index: Seq<(u64, (u32, u64))>, entries: Seq<(u64, (u32, u64))>)
    requires
        ascending(index),
        ascending(entries),
    ensures
        ascending(merged(index, entries)),
        forall|k: u64| #[trigger]
            lookup(merged(index, entries), k) == if lookup(entries, k) is Some {
                lookup(entries, k)
            } else {
                lookup(index, k)
            },
    decreases entries.len(),
{
    if entries.len() > 0 {
        let front = entries.drop_last();
        let last = entries.last();
        lemma_last_is_upsert(entries);
        lemma_merged(index, front);
        lemma_upsert(merged(index, front), last.0, last.1);
        lemma_upsert(front, last.0, last.1);
        assert forall|k: u64| #[trigger]
            lookup(merged(index, entries), k) == if lookup(entries, k) is Some {
                lookup(entries, k)
            } else {
                lookup(index, k)
            } by {
            if k != last.0 {
                assert(lookup(merged(index, entries), k) == lookup(merged(index, front), k));
                assert(lookup(entries, k) == lookup(front, k));
            }
        }
    } else {
        assert forall|k: u64| lookup(entries, k) is None by {}
    }
}

/// An index entry that points at a chunk points at the chunk with the
/// entry's chunk number.
pub proof fn lemma_points_witness(state: EngineState, p: int)
    requires
        state.points(p),
    ensures
        state.index[p].1.0 < state.segments.len(),
        is_chunk_entry(
            state.segments[state.index[p].1.0 as int],
            state.records_per_index,
            state.chunk_number(p),
            state.index[p],
        ),
{
}

/// An index entry points at a chunk if some chunk of its segment begins at
/// the entry's offset with the entry's key.
pub proof fn lemma_points_from(state: EngineState, p: int, j: nat)
    requires
        state.index[p].1.0 < state.segments.len(),
        is_chunk_entry(
            state.segments[state.index[p].1.0 as int],
            state.records_per_index,
            j,
            state.index[p],
        ),
    ensures
        state.points(p),
{
}

/// Of two index entries of one segment, the later one points at a later
/// chunk, which does not begin before the earlier one.
pub proof fn lemma_offsets_ordered(state: EngineState, p: int, q: int)
    requires
        state.valid(),
        0 <= p < q < state.index.len(),
        state.index[p].1.0 == state.index[q].1.0,
    ensures
        state.chunk_number(p) < state.chunk_number(q),
        state.index[p].1.1 <= state.index[q].1.1,
{
    let r = state.records_per_index;
    let records = state.segments[state.index[p].1.0 as int];
    let a = state.chunk_number(p);
    let b = state.chunk_number(q);
    assert(state.points(p));
    assert(state.points(q));
    lemma_points_witness(state, p);
    lemma_points_witness(state, q);
    assert(stored(records, r));
    lemma_sparse_index_ascending(records, r, 0);
    assert(state.index[p].0 < state.index[q].0);
    if a >= b {
        if a > b {
            assert(first_key(records, r, b) < first_key(records, r, a));
        }
        assert(false);
    }
    let count = chunk_count(records.len(), r);
    lemma_prefix_grows(records, r, b, count);
    lemma_prefix_grows(records, r, a, b);
}

/// At most one chunk of a segment begins with a given key.
pub proof fn lemma_chunk_number_unique(
    records: Seq<(u64, Seq<char>)>,
    r: nat,
    a: nat,
    b: nat,
)
    requires
        r > 0,
        ascending(records),
        a < chunk_count(records.len(), r),
        b < chunk_count(records.len(), r),
        first_key(records, r, a) == first_key(records, r, b),
    ensures
        a == b,
{
    lemma_sparse_index_ascending(records, r, 0);
    if a < b {
        assert(first_key(records, r, a) < first_key(records, r, b));
    }
    if b < a {
        assert(first_key(records, r, b) < first_key(records, r, a));
    }
}

/// The chunk that an index entry points at is the chunk of its segment that
/// begins with the entry's key.
pub proof fn lemma_chunk_number_is(state: EngineState, p: int, j: nat)
    requires
        state.valid(),
        0 <= p < state.index.len(),
        j < chunk_count(
            state.segments[state.index[p].1.0 as int].len(),
            state.records_per_index,
        ),
        first_key(state.segments[state.index[p].1.0 as int], state.records_per_index, j)
            == state.index[p].0,
    ensures
        state.chunk_number(p) == j,
{
    assert(state.points(p));
    lemma_points_witness(state, p);
    let records = state.segments[state.index[p].1.0 as int];
    assert(stored(records, state.records_per_index));
    lemma_chunk_number_unique(records, state.records_per_index, state.chunk_number(p), j);
}

/// A new engine is in a valid state.
pub proof fn lemma_initial_valid(
    storage_dir: Seq<char>,
    memtable_max_size: nat,
    records_per_index: nat,
)
    requires
        records_per_index > 0,
    ensures
        EngineState::initial(storage_dir, memtable_max_size, records_per_index).valid(),
{
}

/// `put` keeps the state valid.
pub proof fn lemma_put_valid(state: EngineState, k: u64, v: Seq<char>)
    requires
        state.valid(),
    ensures
        state.put(k, v).valid(),
{
    lemma_upsert(state.memtable, k, v);
    let after = state.put(k, v);
    assert forall|p: int| 0 <= p < after.index.len() implies #[trigger] after.points(p) by {
        lemma_points_witness(state, p);
        lemma_points_from(after, p, state.chunk_number(p));
    }
}

/// `remove` keeps the state valid.
pub proof fn lemma_remove_valid(state: EngineState, k: u64)
    requires
        state.valid(),
    ensures
        state.remove(k).valid(),
{
    lemma_erase(state.memtable, k);
    let after = state.remove(k);
    assert forall|p: int| 0 <= p < after.index.len() implies #[trigger] after.points(p) by {
        lemma_points_witness(state, p);
        lemma_points_from(after, p, state.chunk_number(p));
    }
}

/// Completing a flush keeps the state valid, as long as segment numbers
/// remain.
pub proof fn lemma_flush_valid(state: EngineState)
    requires
        state.valid(),
        state.flushing ==> state.next_segment < u32::MAX,
    ensures
        state.complete_flush().valid(),
{
    if state.flushing {
        let r = state.records_per_index;
        let n = state.next_segment;
        let fresh = sparse_index(state.memtable, r, n);
        let after = state.complete_flush();
        lemma_sparse_index_ascending(state.memtable, r, n);
        lemma_merged(state.index, fresh);
        assert forall|s: int| 0 <= s < after.segments.len() implies stored(
            #[trigger] after.segments[s],
            r,
        ) by {
            if s < n {
                assert(after.segments[s] == state.segments[s]);
            }
        }
        assert forall|p: int| 0 <= p < after.index.len() implies #[trigger] after.points(p) by {
            let entry = after.index[p];
            lemma_lookup_entry(after.index, p);
            if lookup(fresh, entry.0) is Some {
                lemma_lookup_position(fresh, entry.0);
                let i = rank(fresh, entry.0 as int);
                assert(fresh[i as int] == entry);
                lemma_prefix_grows(state.memtable, r, i, chunk_count(state.memtable.len(), r));
                assert(after.segments[n as int] == state.memtable);
                lemma_points_from(after, p, i);
            } else {
                lemma_lookup_position(state.index, entry.0);
                let q = rank(state.index, entry.0 as int) as int;
                assert(state.index[q] == entry);
                lemma_points_witness(state, q);
                assert(after.segments[entry.1.0 as int] == state.segments[entry.1.0 as int]);
                lemma_points_from(after, p, state.chunk_number(q));
            }
        }
        assert forall|s: int, j: nat|
            0 <= s < after.segments.len() && j < chunk_count(
                after.segments[s].len(),
                r,
            ) implies lookup(after.index, #[trigger] first_key(after.segments[s], r, j)) is Some by {
            let key = first_key(after.segments[s], r, j);
            if s < n {
                assert(after.segments[s] == state.segments[s]);
                assert(lookup(state.index, first_key(state.segments[s], r, j)) is Some);
            } else {
                assert(fresh[j as int].0 == key);
                lemma_lookup_entry(fresh, j as int);
            }
            assert(lookup(after.index, key) == if lookup(fresh, key) is Some {
                lookup(fresh, key)
            } else {
                lookup(state.index, key)
            });
        }
    }
}

} // verus!
