//! A single validated graph file: the fan-out table, the sorted id lookup
//! chunk, the commit-data chunk and the optional extra-edge and base-graph
//! chunks, all resolved to byte ranges of one immutable buffer.

use vstd::prelude::*;
use crate::bytes::{be_u32_at, be_u64_at, copy_range, read_u32_be};
use crate::id::Id;
use crate::order::{
    compare_bytes, lemma_lex_irreflexive, lemma_lex_transitive, lex_lt, IdOrdering,
};
use crate::{COMMIT_DATA_ENTRY_SIZE, MAX_COMMITS, NO_PARENT, SHA1_SIZE};

verus! {

/// Flag bit of a second-parent field that redirects to the extra-edge list,
/// and of an extra-edge entry that marks the last edge of a run.
pub const EDGE_FLAG: u32 = 0x8000_0000;

/// Divisor separating the generation number (quotient) from the commit time
/// (remainder) in the packed trailing record field; equals two to the 34th.
pub const GENERATION_DIVISOR: u64 = 0x4_0000_0000;

/// An index into one file's lexicographically sorted id list.
///
/// Valid only for positions below that file's `num_commits()`; it means
/// nothing outside the file it came from.
#[derive(Clone, Copy, PartialEq, Eq, Structural, Debug)]
pub struct LexPosition(pub u32);

/// Version of the file format.
#[derive(Clone, Copy, PartialEq, Eq, Structural, Debug)]
pub enum Kind {
    V1,
}

/// Kind of hash the file stores.
#[derive(Clone, Copy, PartialEq, Eq, Structural, Debug)]
pub enum HashKind {
    Sha1,
}

/// Why a buffer was rejected as a graph file.
#[derive(Clone, Copy, PartialEq, Eq, Structural, Debug)]
pub enum Error {
    /// The four-byte signature is wrong or the buffer is shorter than a header.
    BadSignature,
    /// The format version byte is not a supported version.
    UnsupportedVersion(u8),
    /// The hash-kind byte is not a supported hash.
    UnsupportedHashKind(u8),
    /// The buffer ends before the chunk table does.
    TruncatedChunkTable,
    /// A chunk table entry other than the terminator carries the zero id.
    BadChunkId,
    /// Chunk offsets decrease, start before the table ends, or pass the
    /// end of the buffer.
    NonMonotonicChunks,
    /// The same chunk appears twice; the value is the chunk id.
    DuplicateChunk(u32),
    /// A mandatory chunk is absent; the value is the chunk id.
    MissingChunk(u32),
    /// A chunk's length does not fit its content; the value is the chunk id.
    ChunkSizeMismatch(u32),
    /// The file holds more commits than a chain may address.
    TooManyCommits,
    /// The 256 fan-out entries are not non-decreasing.
    FanOutNotMonotonic,
    /// The id-lookup chunk is not in strictly increasing order.
    IdsNotSorted,
    /// An id lies outside the fan-out bucket of its leading byte; the value
    /// is its position.
    IdOutsideBucket(u32),
    /// A parent field of the record at this position carries a value that is
    /// neither a position, the "no parent" sentinel, nor an overflow marker.
    InvalidParent(u32),
    /// The record at this position points at an extra-edge run that starts
    /// past the list or never reaches a last-edge marker.
    InvalidEdgeRun(u32),
    /// An extra-edge entry does not encode a position; the value is its index.
    InvalidEdgeValue(u32),
    /// A commit of the chain references a parent position outside its own
    /// file and every earlier file; the value is the stored position.
    ParentOutOfChain(u32),
    /// The files of a chain would together hold more commits than a
    /// position can address.
    ChainTooLong,
}

/// One graph file, validated at construction: the raw buffer plus the
/// resolved byte ranges of its chunks.
#[derive(Debug)]
pub struct GraphFile {
    /// The whole file.
    pub data: Vec<u8>,
    /// The 256 cumulative fan-out counts.
    pub fan: Vec<u32>,
    /// Byte offset of the sorted id list.
    pub oid_lookup_offset: usize,
    /// Byte offset of the commit records.
    pub commit_data_offset: usize,
    /// Byte offset and length of the extra-edge list, if present.
    pub extra_edges: Option<(usize, usize)>,
    /// Byte offset and id count of the base-graph id list, if present.
    pub base_graphs: Option<(usize, usize)>,
    /// Where the file came from.
    pub path: String,
}

/// The position an extra-edge entry stores, with the last-edge flag cleared.
pub open spec fn masked_edge(e: u32) -> u32 {
    if e >= EDGE_FLAG {
        (e - EDGE_FLAG) as u32
    } else {
        e
    }
}

/// The run of extra-edge entries from index `k` until and including the
/// first entry carrying the last-edge flag, each with the flag cleared.
pub open spec fn edge_run(es: Seq<u32>, k: int) -> Seq<u32>
    decreases es.len() - k,
{
    if k < 0 || k >= es.len() {
        Seq::empty()
    } else if es[k] >= EDGE_FLAG {
        seq![(es[k] - EDGE_FLAG) as u32]
    } else {
        seq![es[k]] + edge_run(es, k + 1)
    }
}

impl GraphFile {
    /// Number of commits, as the last fan-out entry states it.
    pub open spec fn num_commits_spec(self) -> int {
        self.fan@[255] as int
    }

    /// The id stored at position `p`.
    pub open spec fn id_seq(self, p: int) -> Seq<u8> {
        self.data@.subrange(
            self.oid_lookup_offset + p * SHA1_SIZE,
            self.oid_lookup_offset + p * SHA1_SIZE + SHA1_SIZE,
        )
    }

    /// Byte offset of the record at position `p`.
    pub open spec fn record_offset(self, p: int) -> int {
        self.commit_data_offset + p * COMMIT_DATA_ENTRY_SIZE
    }

    /// The root tree id of the record at position `p`.
    pub open spec fn tree_id_seq(self, p: int) -> Seq<u8> {
        self.data@.subrange(self.record_offset(p), self.record_offset(p) + SHA1_SIZE)
    }

    /// The raw first-parent field of the record at position `p`.
    pub open spec fn parent1_of(self, p: int) -> u32 {
        be_u32_at(self.data@, self.record_offset(p) + 20)
    }

    /// The raw second-parent field of the record at position `p`.
    pub open spec fn parent2_of(self, p: int) -> u32 {
        be_u32_at(self.data@, self.record_offset(p) + 24)
    }

    /// The packed generation/commit-time word of the record at position `p`.
    pub open spec fn packed_of(self, p: int) -> u64 {
        be_u64_at(self.data@, self.record_offset(p) + 28)
    }

    /// The generation number of the record at position `p`: the high bits of
    /// the packed word.  Zero means "unknown".
    pub open spec fn generation_of(self, p: int) -> u32 {
        (self.packed_of(p) / GENERATION_DIVISOR) as u32
    }

    /// The commit time of the record at position `p`: the low bits of the
    /// packed word.
    pub open spec fn commit_time_of(self, p: int) -> u64 {
        (self.packed_of(p) % GENERATION_DIVISOR) as u64
    }

    /// Number of entries of the extra-edge list.
    pub open spec fn edge_count(self) -> int {
        match self.extra_edges {
            Some((_, len)) => len as int / 4,
            None => 0,
        }
    }

    /// The entries of the extra-edge list.
    pub open spec fn edges_seq(self) -> Seq<u32> {
        match self.extra_edges {
            Some((off, _)) => Seq::new(
                self.edge_count() as nat,
                |i: int| be_u32_at(self.data@, off + 4 * i),
            ),
            None => Seq::empty(),
        }
    }

    /// Number of ids of the base-graph list.
    pub open spec fn base_graph_count(self) -> int {
        match self.base_graphs {
            Some((_, count)) => count as int,
            None => 0,
        }
    }

    /// The id at index `i` of the base-graph list.
    pub open spec fn base_graph_id_seq(self, i: int) -> Seq<u8> {
        match self.base_graphs {
            Some((off, _)) => self.data@.subrange(off + i * SHA1_SIZE, off + i * SHA1_SIZE + SHA1_SIZE),
            None => Seq::empty(),
        }
    }

    /// Lower bound of the fan-out bucket of leading byte `b`.
    pub open spec fn fan_lo(self, b: int) -> int {
        if b == 0 {
            0
        } else {
            self.fan@[b - 1] as int
        }
    }

    /// Every chunk lies within the buffer and has the size its content needs.
    pub open spec fn chunks_in_bounds(self) -> bool {
        &&& self.fan@.len() == 256
        &&& self.num_commits_spec() <= MAX_COMMITS
        &&& self.oid_lookup_offset + self.num_commits_spec() * SHA1_SIZE <= self.data@.len()
        &&& self.commit_data_offset + self.num_commits_spec() * COMMIT_DATA_ENTRY_SIZE
            <= self.data@.len()
        &&& match self.extra_edges {
            Some((off, len)) => off + len <= self.data@.len() && len % 4 == 0,
            None => true,
        }
        &&& match self.base_graphs {
            Some((off, count)) => off + count * SHA1_SIZE <= self.data@.len(),
            None => true,
        }
    }

    /// The 256 fan-out entries never decrease.
    pub open spec fn fan_monotone(self) -> bool {
        forall|i: int, j: int| 0 <= i <= j < 256 ==> self.fan@[i] <= self.fan@[j]
    }

    /// The id list is strictly increasing.
    pub open spec fn ids_sorted(self) -> bool {
        forall|p: int, q: int|
            0 <= p < q < self.num_commits_spec() ==> lex_lt(self.id_seq(p), self.id_seq(q))
    }

    /// Every id lies inside the fan-out bucket of its leading byte.
    pub open spec fn ids_in_buckets(self) -> bool {
        forall|p: int|
            0 <= p < self.num_commits_spec() ==> self.fan_lo(#[trigger] self.id_seq(p)[0] as int)
                <= p < self.fan@[self.id_seq(p)[0] as int]
    }

    /// An extra-edge run may start at index `k`: the index is in range and a
    /// last-edge marker follows at or after it.
    pub open spec fn edge_run_ok(self, k: int) -> bool {
        &&& 0 <= k < self.edge_count()
        &&& exists|j: int| k <= j < self.edge_count() && self.edges_seq()[j] >= EDGE_FLAG
    }

    /// The parent fields of the record at position `p` are well encoded.
    pub open spec fn parent_fields_ok(self, p: int) -> bool {
        let p1 = self.parent1_of(p);
        let p2 = self.parent2_of(p);
        &&& p1 <= NO_PARENT
        &&& (p1 == NO_PARENT ==> p2 == NO_PARENT)
        &&& (p2 <= NO_PARENT || (p2 >= EDGE_FLAG && self.edge_run_ok((p2 - EDGE_FLAG) as int)))
    }

    /// Every record's parent fields are well encoded.
    pub open spec fn records_ok(self) -> bool {
        forall|p: int| 0 <= p < self.num_commits_spec() ==> self.parent_fields_ok(p)
    }

    /// Every extra-edge entry stores a representable position.
    pub open spec fn edges_ok(self) -> bool {
        forall|i: int|
            0 <= i < self.edge_count() ==> masked_edge(#[trigger] self.edges_seq()[i]) < NO_PARENT
    }

    /// Well-formedness: what construction validates and every query relies on.
    pub open spec fn wf(self) -> bool {
        &&& self.chunks_in_bounds()
        &&& self.fan_monotone()
        &&& self.ids_sorted()
        &&& self.ids_in_buckets()
        &&& self.records_ok()
        &&& self.edges_ok()
    }

    /// The stored parents of the record at position `p`, overflow resolved:
    /// empty, the first parent alone, both direct parents, or the first
    /// parent followed by the extra-edge run of the overflow index.
    pub open spec fn parents_of(self, p: int) -> Seq<u32> {
        let p1 = self.parent1_of(p);
        let p2 = self.parent2_of(p);
        if p1 == NO_PARENT {
            Seq::empty()
        } else if p2 == NO_PARENT {
            seq![p1]
        } else if p2 >= EDGE_FLAG {
            seq![p1] + edge_run(self.edges_seq(), (p2 - EDGE_FLAG) as int)
        } else {
            seq![p1, p2]
        }
    }

    /// Returns the number of commits in this graph file.
    ///
    /// The greatest valid `LexPosition` for this file is one less than this.
    pub fn num_commits(&self) -> (r: u32)
        requires
            self.wf(),
        ensures
            r == self.num_commits_spec(),
    {
        self.fan[255]
    }

    /// Returns the id stored at position `pos` of the sorted id list.
    pub fn id_at(&self, pos: LexPosition) -> (r: Id)
        requires
            self.wf(),
            pos.0 < self.num_commits_spec(),
        ensures
            r@ == self.id_seq(pos.0 as int),
            r.wf(),
    {
        let dlen: usize = self.data.len();
        let start = self.oid_lookup_offset + (pos.0 as usize) * SHA1_SIZE;
        Id { bytes: copy_range(&self.data, start, SHA1_SIZE) }
    }

    /// Returns the file format version.
    pub fn kind(&self) -> (r: Kind)
        ensures
            r is V1,
    {
        Kind::V1
    }

    /// Returns the kind of hash this file stores.
    pub fn hash_kind(&self) -> (r: HashKind)
        ensures
            r is Sha1,
    {
        HashKind::Sha1
    }

    /// Returns where the file came from.
    pub fn path(&self) -> (r: &String)
        ensures
            r@ == self.path@,
    {
        &self.path
    }

    /// Returns the ids of the base-graph chunk, in file order; empty when
    /// the chunk is absent.
    pub fn iter_base_graph_ids(&self) -> (r: Vec<Id>)
        requires
            self.wf(),
        ensures
            r@.len() == self.base_graph_count(),
            forall|i: int|
                0 <= i < r@.len() ==> #[trigger] r@[i]@ == self.base_graph_id_seq(i),
    {
        let mut r: Vec<Id> = Vec::new();
        let (off, count) = match self.base_graphs {
            Some(t) => t,
            None => {
                return r;
            },
        };
        let mut i: usize = 0;
        while i < count
            invariant
                self.wf(),
                self.base_graphs == Some::<(usize, usize)>((off, count)),
                0 <= i <= count,
                r@.len() == i,
                forall|k: int| 0 <= k < i ==> #[trigger] r@[k]@ == self.base_graph_id_seq(k),
            decreases count - i,
        {
            let dlen: usize = self.data.len();
            let id = Id { bytes: copy_range(&self.data, off + i * SHA1_SIZE, SHA1_SIZE) };
            r.push(id);
            i = i + 1;
        }
        r
    }

    /// Returns the ids of this file in ascending position (and so ascending
    /// id) order.
    pub fn iter_ids(&self) -> (r: Vec<Id>)
        requires
            self.wf(),
        ensures
            r@.len() == self.num_commits_spec(),
            forall|p: int| 0 <= p < r@.len() ==> #[trigger] r@[p]@ == self.id_seq(p),
    {
        let n = self.num_commits();
        let mut r: Vec<Id> = Vec::new();
        let mut i: u32 = 0;
        while i < n
            invariant
                self.wf(),
                n == self.num_commits_spec(),
                0 <= i <= n,
                r@.len() == i,
                forall|p: int| 0 <= p < i ==> #[trigger] r@[p]@ == self.id_seq(p),
            decreases n - i,
        {
            r.push(self.id_at(LexPosition(i)));
            i = i + 1;
        }
        r
    }

    /// What `lookup` promises of its result: `Some` of a matching
    /// position, or `None` with no position matching at all.
    pub open spec fn lookup_result_is(self, id: Seq<u8>, r: Option<LexPosition>) -> bool {
        match r {
            Some(pos) => pos.0 < self.num_commits_spec() && self.id_seq(pos.0 as int) == id,
            None => forall|q: int|
                0 <= q < self.num_commits_spec() ==> #[trigger] self.id_seq(q) != id,
        }
    }

    /// Looks an id up by fan-out bucket and bisection; `Some` exactly when
    /// the id is present, and then at its position.
    pub fn lookup(&self, id: &Id) -> (r: Option<LexPosition>)
        requires
            self.wf(),
            id.wf(),
        ensures
            self.lookup_result_is(id@, r),
    {
        let first_byte = id.first_byte() as usize;
        let mut upper: u32 = self.fan[first_byte];
        let mut lower: u32 = if first_byte != 0 {
            self.fan[first_byte - 1]
        } else {
            0
        };
        proof {
            assert(upper <= self.fan@[255]);
            assert forall|q: int|
                0 <= q < self.num_commits_spec() && self.id_seq(q) == id@ implies lower <= q
                < upper by {
                assert(self.id_seq(q)[0] == id@[0]);
            }
        }
        while lower < upper
            invariant
                self.wf(),
                id.wf(),
                lower <= upper <= self.num_commits_spec(),
                forall|q: int|
                    0 <= q < self.num_commits_spec() && #[trigger] self.id_seq(q) == id@
                        ==> lower <= q < upper,
            decreases upper - lower,
        {
            let mid = lower + (upper - lower) / 2;
            let mid_id = self.id_at(LexPosition(mid));
            match compare_bytes(id.as_bytes(), mid_id.as_bytes()) {
                IdOrdering::Less => {
                    proof {
                        assert forall|q: int|
                            0 <= q < self.num_commits_spec() && #[trigger] self.id_seq(q) == id@
                                implies lower <= q < mid by {
                            if q == mid {
                                lemma_lex_irreflexive(id@);
                            }
                            if q > mid {
                                assert(lex_lt(self.id_seq(mid as int), self.id_seq(q)));
                                lemma_lex_transitive(id@, self.id_seq(mid as int), self.id_seq(q));
                                lemma_lex_irreflexive(id@);
                            }
                        }
                    }
                    upper = mid;
                },
                IdOrdering::Equal => {
                    return Some(LexPosition(mid));
                },
                IdOrdering::Greater => {
                    proof {
                        assert forall|q: int|
                            0 <= q < self.num_commits_spec() && #[trigger] self.id_seq(q) == id@
                                implies mid + 1 <= q < upper by {
                            if q == mid {
                                lemma_lex_irreflexive(id@);
                            }
                            if q < mid {
                                assert(lex_lt(self.id_seq(q), self.id_seq(mid as int)));
                                lemma_lex_transitive(self.id_seq(q), self.id_seq(mid as int), id@);
                                lemma_lex_irreflexive(id@);
                            }
                        }
                    }
                    lower = mid + 1;
                },
            }
        }
        None
    }

    /// Round trip: on a well-formed file, any result `lookup` may return
    /// for the id stored at position `p` is `Some(p)` itself.
    pub proof fn lemma_lookup_round_trip(&self, p: u32, r: Option<LexPosition>)
        requires
            self.wf(),
            (p as int) < self.num_commits_spec(),
            self.lookup_result_is(self.id_seq(p as int), r),
        ensures
            r == Some(LexPosition(p)),
    {
        match r {
            None => {
                assert(self.id_seq(p as int) == self.id_seq(p as int));
            },
            Some(q) => {
                if (q.0 as int) < (p as int) {
                    assert(lex_lt(self.id_seq(q.0 as int), self.id_seq(p as int)));
                    lemma_lex_irreflexive(self.id_seq(p as int));
                }
                if (p as int) < (q.0 as int) {
                    assert(lex_lt(self.id_seq(p as int), self.id_seq(q.0 as int)));
                    lemma_lex_irreflexive(self.id_seq(p as int));
                }
            },
        }
    }

    /// Fan-out monotonicity: on a well-formed file the 256 fan-out entries
    /// never decrease, and the last one is the commit count.
    pub proof fn lemma_fan_out_monotone(&self, i: int, j: int)
        requires
            self.wf(),
            0 <= i <= j < 256,
        ensures
            self.fan@[i] <= self.fan@[j],
            self.fan@[255] == self.num_commits_spec(),
    {
    }

    /// Bucket containment: on a well-formed file, the position of every
    /// stored id lies inside the fan-out bucket of the id's leading byte.
    pub proof fn lemma_bucket_containment(&self, p: int)
        requires
            self.wf(),
            0 <= p < self.num_commits_spec(),
        ensures
            self.fan_lo(self.id_seq(p)[0] as int) <= p < self.fan@[self.id_seq(p)[0] as int],
    {
        assert(self.fan_lo(self.id_seq(p)[0] as int) <= p < self.fan@[self.id_seq(p)[0] as int]);
    }
}

} // verus!
