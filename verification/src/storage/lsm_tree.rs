//! The storage engine.
//!
//! `LSMTree` keeps the memtable and the sparse index and decides what is to be
//! written and read. It performs no transfer itself. `put` hands out the
//! segment that has to be written when the memtable overflows, and
//! `complete_flush` is called once the segment is on disk. `get` answers from
//! the memtable or says which byte range of which segment holds the chunk to
//! search; `find_in_chunk` then searches the bytes that were read.

use vstd::prelude::*;
use crate::error::StorageError;
use crate::storage::codec::{cbor_decoding, decode_chunk, records_view};
use crate::storage::codec::{lemma_view_erase, lemma_view_lookup, lemma_view_upsert};
use crate::storage::engine::{merged, ChunkRead, EngineState};
use crate::storage::engine::{lemma_flush_valid, lemma_initial_valid, lemma_offsets_ordered, lemma_put_valid, lemma_remove_valid};
use crate::storage::naming::{join_path, segment_location, segment_name};
use crate::storage::ordered::lookup;
use crate::storage::ordered::lemma_split_is_rank;
use crate::storage::rbtree::RBTree;
use crate::storage::segment::{build_segment, first_match, search_chunk, segment_image, sparse_index};

verus! {

/// A segment that has to be written: its number, the path of its file, and
/// the bytes that the file is to hold.
#[derive(Debug)]
pub struct SegmentWrite {
    pub segment_num: u32,
    pub path: String,
    pub bytes: Vec<u8>,
}

/// The answer to a lookup.
#[derive(Debug)]
pub enum Lookup {
    /// The memtable holds the key, with this value.
    Found(String),
    /// The memtable does not hold the key, and no indexed key is at or below
    /// it, so that no segment holds it either.
    Absent,
    /// The key, if it was flushed, is in the chunk that this request reads.
    Read(ChunkRead),
}

/// The fields of the engine: its configuration, the memtable, the sparse
/// index, the index entries of a segment that awaits being written, and, as
/// ghost state, the records of the segments flushed so far.
struct Parts {
    storage_dir: String,
    index: RBTree<(u32, u64)>,
    records_per_index: usize,
    next_segment_num: u32,
    memtable: RBTree<String>,
    memtable_max_size: usize,
    pending: Option<Vec<(u64, (u32, u64))>>,
    flushed: Ghost<Seq<Seq<(u64, Seq<char>)>>>,
}

impl Parts {
    /// The state that the fields stand for.
    spec fn state(&self) -> EngineState {
        EngineState {
            storage_dir: self.storage_dir@,
            memtable: records_view(self.memtable.entries()),
            memtable_max_size: self.memtable_max_size as nat,
            index: self.index.entries(),
            records_per_index: self.records_per_index as nat,
            next_segment: self.next_segment_num,
            segments: self.flushed@,
            flushing: self.pending is Some,
        }
    }

    /// The state is valid, and the entries held back for a segment that
    /// awaits being written are the sparse index of the memtable.
    spec fn sound(&self) -> bool {
        &&& self.state().valid()
        &&& match self.pending {
            Some(entries) => entries@ == sparse_index(
                self.state().memtable,
                self.state().records_per_index,
                self.state().next_segment,
            ),
            None => true,
        }
    }

    /// Fields to stand in while the real ones are being worked on.
    fn blank() -> (parts: Parts)
        ensures
            parts.sound(),
    {
        proof {
            lemma_initial_valid(Seq::empty(), 0, 1);
        }
        let parts = Parts {
            storage_dir: String::new(),
            index: RBTree::new(),
            records_per_index: 1,
            next_segment_num: 0,
            memtable: RBTree::new(),
            memtable_max_size: 0,
            pending: None,
            flushed: Ghost(Seq::empty()),
        };
        assert(parts.state().memtable =~= Seq::empty());
        assert(parts.state() == EngineState::initial(Seq::empty(), 0, 1));
        parts
    }
}

/// A log-structured-merge storage engine with `u64` keys and `String` values.
pub struct LSMTree {
    parts: Parts,
}

impl View for LSMTree {
    type V = EngineState;

    /// The state of the engine.
    closed spec fn view(&self) -> EngineState {
        self.parts.state()
    }
}

impl LSMTree {
    #[verifier::type_invariant]
    spec fn sound(&self) -> bool {
        self.parts.sound()
    }

    /// A new engine with an empty memtable and an empty index, which will
    /// name its first segment 0.
    ///
    /// `memtable_max_size` is the number of keys that the memtable may hold
    /// without a flush, `records_per_index` the number of records in a
    /// chunk.
    pub fn new(storage_dir: &str, memtable_max_size: usize, records_per_index: usize) -> (tree:
        Self)
        requires
            records_per_index > 0,
        ensures
            tree@ == EngineState::initial(
                storage_dir@,
                memtable_max_size as nat,
                records_per_index as nat,
            ),
            tree@.valid(),
    {
        proof {
            lemma_initial_valid(storage_dir@, memtable_max_size as nat, records_per_index as nat);
        }
        let parts = Parts {
            storage_dir: String::from_str(storage_dir),
            index: RBTree::new(),
            records_per_index,
            next_segment_num: 0,
            memtable: RBTree::new(),
            memtable_max_size,
            pending: None,
            flushed: Ghost(Seq::empty()),
        };
        assert(parts.state().memtable =~= Seq::empty());
        assert(parts.state() == EngineState::initial(
            storage_dir@,
            memtable_max_size as nat,
            records_per_index as nat,
        ));
        LSMTree { parts }
    }

    /// Every engine is in a valid state. Calling this costs nothing at run
    /// time; it makes the fact known to the caller's proof.
    pub fn check_valid(&self)
        ensures
            self@.valid(),
    {
        proof {
            use_type_invariant(self);
        }
    }

    /// Whether the memtable holds more keys than it may.
    pub fn memtable_over_size(&self) -> (over: bool)
        ensures
            over == self@.over_size(),
    {
        self.parts.memtable.len() > self.parts.memtable_max_size
    }

    /// Whether a segment has been handed out by `put` and its flush has not
    /// been completed.
    pub fn is_flushing(&self) -> (flushing: bool)
        ensures
            flushing == self@.flushing,
    {
        self.parts.pending.is_some()
    }

    /// The number that the next segment will get.
    pub fn next_segment_num(&self) -> (segment_num: u32)
        ensures
            segment_num == self@.next_segment,
    {
        self.parts.next_segment_num
    }

    /// The number of keys in the memtable.
    pub fn memtable_len(&self) -> (n: usize)
        ensures
            n == self@.memtable.len(),
    {
        self.parts.memtable.len()
    }

    /// The number of entries in the sparse index.
    pub fn index_len(&self) -> (n: usize)
        ensures
            n == self@.index.len(),
    {
        self.parts.index.len()
    }

    /// The path of the file of the segment with the given number.
    pub fn segment_path(&self, segment_num: u32) -> (path: String)
        ensures
            path@ == segment_location(self@.storage_dir, segment_num),
    {
        let name = segment_name(segment_num);
        join_path(self.parts.storage_dir.as_str(), name.as_str())
    }

    /// The value that the memtable holds for `k`, if any.
    pub fn get_from_memtable(&self, k: &u64) -> (found: Option<&String>)
        ensures
            match found {
                Some(v) => lookup(self@.memtable, *k) == Some(v@),
                None => lookup(self@.memtable, *k) is None,
            },
    {
        proof {
            lemma_view_lookup(self.parts.memtable.entries(), *k);
        }
        self.parts.memtable.get(k)
    }

    /// The read that a lookup of `k` in the segments has to make: the chunk
    /// under the greatest indexed key that is at most `k`, bounded by the
    /// next index entry where that lies in the same segment. `None` where no
    /// indexed key is at most `k`, so that no segment can hold `k`.
    pub fn get_from_segments(&self, k: &u64) -> (read: Option<ChunkRead>)
        ensures
            read == self@.locate(*k),
    {
        proof {
            use_type_invariant(self);
        }
        let entries = self.parts.index.as_slice();
        let n: usize = entries.len();
        let mut next: usize = 0;
        while next < n && entries[next].0 <= *k
            invariant
                next <= n,
                n == entries@.len(),
                forall|i: int| 0 <= i < next ==> (#[trigger] entries@[i]).0 <= *k,
            decreases n - next,
        {
            next = next + 1;
        }
        proof {
            assert forall|i: int| next <= i < n implies (#[trigger] entries@[i]).0 >= *k + 1 by {
                if i > next {
                    assert(entries@[next as int].0 < entries@[i].0);
                }
            }
            lemma_split_is_rank(entries@, *k as int + 1, next as int);
        }
        if next == 0 {
            None
        } else {
            let hit: usize = next - 1;
            let (segment_num, offset) = entries[hit].1;
            let limit = if next < n && entries[next].1.0 == segment_num {
                proof {
                    lemma_offsets_ordered(self@, hit as int, next as int);
                }
                Some(entries[next].1.1 - offset)
            } else {
                None
            };
            Some(ChunkRead { segment_num, offset, limit })
        }
    }

    /// Looks `k` up.
    ///
    /// The memtable is consulted first, since what it holds is newer than
    /// any segment. Where it does not hold `k`, the answer is the read that
    /// `get_from_segments` asks for, or `Absent` where that asks for none.
    pub fn get(&self, k: &u64) -> (answer: Lookup)
        ensures
            match answer {
                Lookup::Found(v) => lookup(self@.memtable, *k) == Some(v@),
                Lookup::Absent => lookup(self@.memtable, *k) is None && self@.locate(*k) is None,
                Lookup::Read(read) => lookup(self@.memtable, *k) is None && self@.locate(*k)
                    == Some(read),
            },
    {
        match self.get_from_memtable(k) {
            Some(v) => Lookup::Found(v.clone()),
            None => match self.get_from_segments(k) {
                Some(read) => Lookup::Read(read),
                None => Lookup::Absent,
            },
        }
    }

    /// Binds `k` to `v` in the memtable.
    ///
    /// Where the memtable then holds more keys than it may, its records are
    /// laid out as the next segment, and the segment is handed out to be
    /// written; `complete_flush` is to be called once it has been. The call
    /// fails only where the codec cannot encode a chunk; the binding stays in
    /// the memtable even then.
    pub fn put(&mut self, k: u64, v: String) -> (result: Result<Option<SegmentWrite>, StorageError>)
        ensures
            final(self)@ == old(self)@.put(k, v@),
            result is Err <==> final(self)@.over_size() && segment_image(
                final(self)@.memtable,
                old(self)@.records_per_index,
            ) is None,
            result == Ok::<Option<SegmentWrite>, StorageError>(None) <==> !final(self)@.over_size(),
            match result {
                Ok(None) => !final(self)@.over_size(),
                Ok(Some(write)) => {
                    &&& final(self)@.flushing
                    &&& write.segment_num == old(self)@.next_segment
                    &&& write.path@ == segment_location(
                        old(self)@.storage_dir,
                        old(self)@.next_segment,
                    )
                    &&& Some(write.bytes@) == segment_image(
                        final(self)@.memtable,
                        old(self)@.records_per_index,
                    )
                },
                Err(e) => {
                    &&& e == StorageError::Encode
                    &&& final(self)@.over_size()
                    &&& segment_image(final(self)@.memtable, old(self)@.records_per_index) is None
                },
            },
    {
        proof {
            use_type_invariant(&*self);
        }
        let ghost before = self@;
        let mut parts = Parts::blank();
        std::mem::swap(&mut parts, &mut self.parts);
        proof {
            lemma_view_upsert(parts.memtable.entries(), k, v);
            lemma_put_valid(before, k, v@);
        }
        parts.pending = None;
        parts.memtable.insert(k, v);
        let result = if parts.memtable.len() > parts.memtable_max_size {
            match build_segment(
                parts.memtable.as_slice(),
                parts.records_per_index,
                parts.next_segment_num,
            ) {
                Ok((bytes, entries)) => {
                    let name = segment_name(parts.next_segment_num);
                    let path = join_path(parts.storage_dir.as_str(), name.as_str());
                    parts.pending = Some(entries);
                    Ok(Some(SegmentWrite { segment_num: parts.next_segment_num, path, bytes }))
                },
                Err(e) => Err(e),
            }
        } else {
            Ok(None)
        };
        assert(parts.state() =~= before.put(k, v@));
        self.parts = parts;
        result
    }

    /// Takes `k` out of the memtable.
    ///
    /// No record of the removal is kept: where a segment holds an older
    /// value of `k`, later lookups are directed to it again. A segment that
    /// `put` had handed out is called off.
    pub fn remove(&mut self, k: u64)
        ensures
            final(self)@ == old(self)@.remove(k),
    {
        proof {
            use_type_invariant(&*self);
        }
        let ghost before = self@;
        let mut parts = Parts::blank();
        std::mem::swap(&mut parts, &mut self.parts);
        proof {
            lemma_view_erase(parts.memtable.entries(), k);
            lemma_remove_valid(before, k);
        }
        parts.pending = None;
        parts.memtable.remove(&k);
        assert(parts.state() =~= before.remove(k));
        self.parts = parts;
    }

    /// Records that the segment which `put` handed out has been written.
    ///
    /// The segment's index entries are merged into the sparse index, the
    /// memtable is emptied, and the next segment number is taken. Does
    /// nothing where no segment was handed out.
    pub fn complete_flush(&mut self)
        requires
            old(self)@.flushing ==> old(self)@.next_segment < u32::MAX,
        ensures
            final(self)@ == old(self)@.complete_flush(),
    {
        proof {
            use_type_invariant(&*self);
        }
        let ghost before = self@;
        let mut parts = Parts::blank();
        std::mem::swap(&mut parts, &mut self.parts);
        let mut pending: Option<Vec<(u64, (u32, u64))>> = None;
        std::mem::swap(&mut pending, &mut parts.pending);
        match pending {
            Some(entries) => {
                proof {
                    lemma_flush_valid(before);
                }
                merge_entries(&mut parts.index, &entries);
                parts.flushed = Ghost(before.segments.push(before.memtable));
                parts.memtable.clear();
                parts.next_segment_num = parts.next_segment_num + 1;
                assert(parts.state().memtable =~= Seq::empty());
                assert(parts.state() == before.complete_flush());
            },
            None => {
                assert(parts.state() =~= before);
            },
        }
        self.parts = parts;
    }
}

/// Adds the index entries of a new segment to the index, in order.
fn merge_entries(index: &mut RBTree<(u32, u64)>, entries: &Vec<(u64, (u32, u64))>)
    ensures
        final(index).entries() == merged(old(index).entries(), entries@),
{
    let mut i: usize = 0;
    while i < entries.len()
        invariant
            i <= entries@.len(),
            index.entries() == merged(old(index).entries(), entries@.take(i as int)),
        decreases entries@.len() - i,
    {
        let (key, place) = entries[i];
        index.insert(key, place);
        proof {
            assert(entries@.take(i + 1).drop_last() =~= entries@.take(i as int));
        }
        i = i + 1;
    }
    proof {
        assert(entries@.take(i as int) =~= entries@);
    }
}

/// Searches the bytes that were read for a chunk: decodes the chunk that the
/// bytes begin with and scans it for `k`.
///
/// Fails with `StorageError::Decode` exactly where the codec cannot decode the
/// bytes. A chunk without the key is no error: the answer is then `None`.
pub fn find_in_chunk(bytes: &[u8], k: &u64) -> (result: Result<Option<String>, StorageError>)
    ensures
        match result {
            Ok(Some(v)) => cbor_decoding(bytes@) is Some && first_match(
                cbor_decoding(bytes@).unwrap(),
                *k,
            ) == Some(v@),
            Ok(None) => cbor_decoding(bytes@) is Some && first_match(
                cbor_decoding(bytes@).unwrap(),
                *k,
            ) is None,
            Err(e) => e == StorageError::Decode && cbor_decoding(bytes@) is None,
        },
{
    match decode_chunk(bytes) {
        Ok(chunk) => Ok(search_chunk(chunk, k)),
        Err(e) => Err(e),
    }
}

} // verus!
