//! Opening a graph file: header and chunk-table reading, and the whole-file
//! validation that every later query relies on.
//!
//! The buffer is validated once, at construction; a buffer that yields
//! `Ok` satisfies [`GraphFile::wf`] and every query on it is infallible.

use vstd::prelude::*;
use crate::bytes::{be_u32_at, be_u64_at, read_u32_be, read_u64_be};
use crate::file::{masked_edge, Error, GraphFile, EDGE_FLAG};
use crate::order::{compare_bytes, lex_lt, IdOrdering};
use crate::{COMMIT_DATA_ENTRY_SIZE, MAX_COMMITS, NO_PARENT, SHA1_SIZE};

verus! {

/// Chunk id of the fan-out table.
pub const CHUNK_OIDF: u32 = 0x4F49_4446;

/// Chunk id of the sorted id list.
pub const CHUNK_OIDL: u32 = 0x4F49_444C;

/// Chunk id of the commit records.
pub const CHUNK_CDAT: u32 = 0x4344_4154;

/// Chunk id of the extra-edge list.
pub const CHUNK_EDGE: u32 = 0x4544_4745;

/// Chunk id of the base-graph id list.
pub const CHUNK_BASE: u32 = 0x4241_5345;

/// The first header byte of the file signature.
pub const SIG_0: u8 = 0x43;

/// The second header byte of the file signature.
pub const SIG_1: u8 = 0x47;

/// The third header byte of the file signature.
pub const SIG_2: u8 = 0x50;

/// The fourth header byte of the file signature.
pub const SIG_3: u8 = 0x48;

/// The header declares the one supported signature, version and hash kind.
pub open spec fn header_ok(d: Seq<u8>) -> bool {
    &&& d.len() >= 8
    &&& d[0] == SIG_0
    &&& d[1] == SIG_1
    &&& d[2] == SIG_2
    &&& d[3] == SIG_3
    &&& d[4] == 1
    &&& d[5] == 1
}

/// Number of chunk-table entries besides the terminator.
pub open spec fn chunk_count(d: Seq<u8>) -> int {
    d[6] as int
}

/// Chunk id of table entry `i`.
pub open spec fn entry_id(d: Seq<u8>, i: int) -> u32 {
    be_u32_at(d, 8 + 12 * i)
}

/// Starting offset of table entry `i`.
pub open spec fn entry_off(d: Seq<u8>, i: int) -> u64 {
    be_u64_at(d, 8 + 12 * i + 4)
}

/// Whether `cid` is one of the chunk ids this reader knows.
pub open spec fn is_known_chunk(cid: u32) -> bool {
    cid == CHUNK_OIDF || cid == CHUNK_OIDL || cid == CHUNK_CDAT || cid == CHUNK_EDGE || cid
        == CHUNK_BASE
}

/// The chunk table is complete and consistent: it fits the buffer, entries
/// carry nonzero ids, the terminator a zero id, offsets never decrease,
/// the first starts after the table, the last ends within the buffer, and
/// no known chunk appears twice.
pub open spec fn table_ok(d: Seq<u8>) -> bool {
    let c = chunk_count(d);
    &&& d.len() >= 8 + 12 * (c + 1)
    &&& forall|i: int| 0 <= i < c ==> #[trigger] entry_id(d, i) != 0
    &&& entry_id(d, c) == 0
    &&& forall|i: int| 0 <= i < c ==> #[trigger] entry_off(d, i) <= entry_off(d, i + 1)
    &&& 8 + 12 * (c + 1) <= entry_off(d, 0)
    &&& entry_off(d, c) <= d.len()
    &&& forall|i: int, j: int|
        0 <= i < j < c ==> !(#[trigger] entry_id(d, i) == #[trigger] entry_id(d, j)
            && is_known_chunk(entry_id(d, i)))
}

/// Table entry `i` names chunk `cid`.
pub open spec fn found_at(d: Seq<u8>, cid: u32, i: int) -> bool {
    0 <= i < chunk_count(d) && entry_id(d, i) == cid
}

/// Some table entry names chunk `cid`.
pub open spec fn has_chunk(d: Seq<u8>, cid: u32) -> bool {
    exists|i: int| found_at(d, cid, i)
}

/// Chunk `cid` starts at `off` and runs for `len` bytes: the gap between
/// its table entry's offset and the next entry's.
pub open spec fn resolves(d: Seq<u8>, cid: u32, off: int, len: int) -> bool {
    exists|i: int|
        #[trigger] found_at(d, cid, i) && off == entry_off(d, i) && off + len == entry_off(
            d,
            i + 1,
        )
}

/// The fan-out vector `fan` holds the 256 entries of the chunk at `off`.
pub open spec fn fan_matches(d: Seq<u8>, off: int, fan: Seq<u32>) -> bool {
    &&& fan.len() == 256
    &&& forall|b: int| 0 <= b < 256 ==> #[trigger] fan[b] == be_u32_at(d, off + 4 * b)
}

/// The resolved fields of `f` come from the chunk table of `d`: the header
/// and table are consistent, the mandatory chunks are present with the
/// sizes their content needs, and each optional chunk is recorded exactly
/// when its table entry exists.
pub open spec fn table_resolves(d: Seq<u8>, f: GraphFile) -> bool {
    &&& header_ok(d)
    &&& table_ok(d)
    &&& exists|off: int, len: int|
        #[trigger] resolves(d, CHUNK_OIDF, off, len) && len == 1024 && fan_matches(d, off, f.fan@)
    &&& exists|off: int, len: int|
        #[trigger] resolves(d, CHUNK_OIDL, off, len) && off == f.oid_lookup_offset && len
            == f.num_commits_spec() * SHA1_SIZE
    &&& exists|off: int, len: int|
        #[trigger] resolves(d, CHUNK_CDAT, off, len) && off == f.commit_data_offset && len
            == f.num_commits_spec() * COMMIT_DATA_ENTRY_SIZE
    &&& match f.extra_edges {
        Some((off, len)) => resolves(d, CHUNK_EDGE, off as int, len as int),
        None => !has_chunk(d, CHUNK_EDGE),
    }
    &&& match f.base_graphs {
        Some((off, count)) => exists|len: int|
            #[trigger] resolves(d, CHUNK_BASE, off as int, len) && len % (SHA1_SIZE as int) == 0
                && count == len / (SHA1_SIZE as int),
        None => !has_chunk(d, CHUNK_BASE),
    }
}

/// A buffer is a readable graph file exactly when some well-formed
/// [`GraphFile`] resolves from its chunk table.
pub open spec fn parseable(d: Seq<u8>) -> bool {
    exists|f: GraphFile| f.data@ == d && #[trigger] table_resolves(d, f) && f.wf()
}

/// Chunk offsets are monotone across any gap, not only between neighbours.
pub proof fn lemma_off_monotone(d: Seq<u8>, i: int, j: int)
    requires
        table_ok(d),
        0 <= i <= j <= chunk_count(d),
    ensures
        entry_off(d, i) <= entry_off(d, j),
    decreases j - i,
{
    if i < j {
        lemma_off_monotone(d, i, j - 1);
        assert(entry_off(d, j - 1) <= entry_off(d, j));
    }
}

/// Two entries naming the same known chunk are the same entry.
pub proof fn lemma_known_chunk_unique(d: Seq<u8>, cid: u32, i: int, j: int)
    requires
        table_ok(d),
        is_known_chunk(cid),
        found_at(d, cid, i),
        found_at(d, cid, j),
    ensures
        i == j,
{
    if i < j {
        assert(entry_id(d, i) == entry_id(d, j) && is_known_chunk(entry_id(d, i)));
    }
    if j < i {
        assert(entry_id(d, j) == entry_id(d, i) && is_known_chunk(entry_id(d, j)));
    }
}

/// Well-formedness reads only the buffer, the fan-out vector and the
/// resolved ranges, so it agrees on two files that share them.
pub proof fn lemma_wf_same_fields(f1: GraphFile, f2: GraphFile)
    requires
        f1.data@ == f2.data@,
        f1.fan@ == f2.fan@,
        f1.oid_lookup_offset == f2.oid_lookup_offset,
        f1.commit_data_offset == f2.commit_data_offset,
        f1.extra_edges == f2.extra_edges,
        f1.base_graphs == f2.base_graphs,
    ensures
        f1.wf() == f2.wf(),
{
    assert forall|p: int| f1.id_seq(p) == f2.id_seq(p) by {}
    assert(f1.edges_seq() =~= f2.edges_seq());
    assert(f1.chunks_in_bounds() == f2.chunks_in_bounds());
    assert(f1.fan_monotone() == f2.fan_monotone());
    if f1.ids_sorted() {
        assert forall|p: int, q: int|
            0 <= p < q < f2.num_commits_spec() implies lex_lt(f2.id_seq(p), f2.id_seq(q)) by {
            assert(lex_lt(f1.id_seq(p), f1.id_seq(q)));
        }
    }
    if f2.ids_sorted() {
        assert forall|p: int, q: int|
            0 <= p < q < f1.num_commits_spec() implies lex_lt(f1.id_seq(p), f1.id_seq(q)) by {
            assert(lex_lt(f2.id_seq(p), f2.id_seq(q)));
        }
    }
    if f1.ids_in_buckets() {
        assert forall|p: int| 0 <= p < f2.num_commits_spec() implies f2.fan_lo(
            #[trigger] f2.id_seq(p)[0] as int,
        ) <= p < f2.fan@[f2.id_seq(p)[0] as int] by {
            assert(f1.fan_lo(f1.id_seq(p)[0] as int) <= p < f1.fan@[f1.id_seq(p)[0] as int]);
        }
    }
    if f2.ids_in_buckets() {
        assert forall|p: int| 0 <= p < f1.num_commits_spec() implies f1.fan_lo(
            #[trigger] f1.id_seq(p)[0] as int,
        ) <= p < f1.fan@[f1.id_seq(p)[0] as int] by {
            assert(f2.fan_lo(f2.id_seq(p)[0] as int) <= p < f2.fan@[f2.id_seq(p)[0] as int]);
        }
    }
    assert forall|p: int| f1.parent_fields_ok(p) == f2.parent_fields_ok(p) by {}
    if f1.records_ok() {
        assert forall|p: int| 0 <= p < f2.num_commits_spec() implies f2.parent_fields_ok(p) by {
            assert(f1.parent_fields_ok(p));
        }
    }
    if f2.records_ok() {
        assert forall|p: int| 0 <= p < f1.num_commits_spec() implies f1.parent_fields_ok(p) by {
            assert(f2.parent_fields_ok(p));
        }
    }
    if f1.edges_ok() {
        assert forall|i: int| 0 <= i < f2.edge_count() implies masked_edge(
            #[trigger] f2.edges_seq()[i],
        ) < NO_PARENT by {
            assert(masked_edge(f1.edges_seq()[i]) < NO_PARENT);
        }
    }
    if f2.edges_ok() {
        assert forall|i: int| 0 <= i < f1.edge_count() implies masked_edge(
            #[trigger] f1.edges_seq()[i],
        ) < NO_PARENT by {
            assert(masked_edge(f2.edges_seq()[i]) < NO_PARENT);
        }
    }
}

/// A buffer with a broken header or chunk table resolves to nothing.
pub proof fn lemma_unparseable_no_table(d: Seq<u8>)
    requires
        !(header_ok(d) && table_ok(d)),
    ensures
        !parseable(d),
{
    assert forall|f: GraphFile| !(f.data@ == d && table_resolves(d, f) && f.wf()) by {
        if table_resolves(d, f) {
            assert(header_ok(d) && table_ok(d));
        }
    }
}

/// The chunk table pins every resolved field: two files that both resolve
/// from the same buffer agree on everything but the path.
pub proof fn lemma_candidate_fields_unique(d: Seq<u8>, f1: GraphFile, f2: GraphFile)
    requires
        table_resolves(d, f1),
        table_resolves(d, f2),
    ensures
        f1.fan@ == f2.fan@,
        f1.oid_lookup_offset == f2.oid_lookup_offset,
        f1.commit_data_offset == f2.commit_data_offset,
        f1.extra_edges == f2.extra_edges,
        f1.base_graphs == f2.base_graphs,
{
    let (fo1, fl1) = choose|off: int, len: int|
        #[trigger] resolves(d, CHUNK_OIDF, off, len) && len == 1024 && fan_matches(d, off, f1.fan@);
    let (fo2, fl2) = choose|off: int, len: int|
        #[trigger] resolves(d, CHUNK_OIDF, off, len) && len == 1024 && fan_matches(d, off, f2.fan@);
    let fi1 = choose|i: int|
        #[trigger] found_at(d, CHUNK_OIDF, i) && fo1 == entry_off(d, i) && fo1 + fl1 == entry_off(
            d,
            i + 1,
        );
    let fi2 = choose|i: int|
        #[trigger] found_at(d, CHUNK_OIDF, i) && fo2 == entry_off(d, i) && fo2 + fl2 == entry_off(
            d,
            i + 1,
        );
    lemma_known_chunk_unique(d, CHUNK_OIDF, fi1, fi2);
    assert(fo1 == fo2);
    assert(f1.fan@ =~= f2.fan@);
    let (lo1, ll1) = choose|off: int, len: int|
        #[trigger] resolves(d, CHUNK_OIDL, off, len) && off == f1.oid_lookup_offset && len
            == f1.num_commits_spec() * SHA1_SIZE;
    let (lo2, ll2) = choose|off: int, len: int|
        #[trigger] resolves(d, CHUNK_OIDL, off, len) && off == f2.oid_lookup_offset && len
            == f2.num_commits_spec() * SHA1_SIZE;
    let li1 = choose|i: int|
        #[trigger] found_at(d, CHUNK_OIDL, i) && lo1 == entry_off(d, i) && lo1 + ll1 == entry_off(
            d,
            i + 1,
        );
    let li2 = choose|i: int|
        #[trigger] found_at(d, CHUNK_OIDL, i) && lo2 == entry_off(d, i) && lo2 + ll2 == entry_off(
            d,
            i + 1,
        );
    lemma_known_chunk_unique(d, CHUNK_OIDL, li1, li2);
    assert(f1.oid_lookup_offset == f2.oid_lookup_offset);
    let (co1, cl1) = choose|off: int, len: int|
        #[trigger] resolves(d, CHUNK_CDAT, off, len) && off == f1.commit_data_offset && len
            == f1.num_commits_spec() * COMMIT_DATA_ENTRY_SIZE;
    let (co2, cl2) = choose|off: int, len: int|
        #[trigger] resolves(d, CHUNK_CDAT, off, len) && off == f2.commit_data_offset && len
            == f2.num_commits_spec() * COMMIT_DATA_ENTRY_SIZE;
    let ci1 = choose|i: int|
        #[trigger] found_at(d, CHUNK_CDAT, i) && co1 == entry_off(d, i) && co1 + cl1 == entry_off(
            d,
            i + 1,
        );
    let ci2 = choose|i: int|
        #[trigger] found_at(d, CHUNK_CDAT, i) && co2 == entry_off(d, i) && co2 + cl2 == entry_off(
            d,
            i + 1,
        );
    lemma_known_chunk_unique(d, CHUNK_CDAT, ci1, ci2);
    assert(f1.commit_data_offset == f2.commit_data_offset);
    match (f1.extra_edges, f2.extra_edges) {
        (Some((o1, l1)), Some((o2, l2))) => {
            let i1 = choose|i: int|
                #[trigger] found_at(d, CHUNK_EDGE, i) && o1 == entry_off(d, i) && o1 + l1
                    == entry_off(d, i + 1);
            let i2 = choose|i: int|
                #[trigger] found_at(d, CHUNK_EDGE, i) && o2 == entry_off(d, i) && o2 + l2
                    == entry_off(d, i + 1);
            lemma_known_chunk_unique(d, CHUNK_EDGE, i1, i2);
            assert(o1 == o2 && l1 == l2);
        },
        (Some((o1, l1)), None) => {
            let i1 = choose|i: int|
                #[trigger] found_at(d, CHUNK_EDGE, i) && o1 == entry_off(d, i) && o1 + l1
                    == entry_off(d, i + 1);
            assert(has_chunk(d, CHUNK_EDGE));
        },
        (None, Some((o2, l2))) => {
            let i2 = choose|i: int|
                #[trigger] found_at(d, CHUNK_EDGE, i) && o2 == entry_off(d, i) && o2 + l2
                    == entry_off(d, i + 1);
            assert(has_chunk(d, CHUNK_EDGE));
        },
        (None, None) => {},
    }
    match (f1.base_graphs, f2.base_graphs) {
        (Some((o1, c1)), Some((o2, c2))) => {
            let bl1 = choose|len: int|
                #[trigger] resolves(d, CHUNK_BASE, o1 as int, len) && len % (SHA1_SIZE as int) == 0
                    && c1 == len / (SHA1_SIZE as int);
            let bl2 = choose|len: int|
                #[trigger] resolves(d, CHUNK_BASE, o2 as int, len) && len % (SHA1_SIZE as int) == 0
                    && c2 == len / (SHA1_SIZE as int);
            let i1 = choose|i: int|
                #[trigger] found_at(d, CHUNK_BASE, i) && o1 == entry_off(d, i) && o1 + bl1
                    == entry_off(d, i + 1);
            let i2 = choose|i: int|
                #[trigger] found_at(d, CHUNK_BASE, i) && o2 == entry_off(d, i) && o2 + bl2
                    == entry_off(d, i + 1);
            lemma_known_chunk_unique(d, CHUNK_BASE, i1, i2);
            assert(o1 == o2 && c1 == c2);
        },
        (Some((o1, c1)), None) => {
            let bl1 = choose|len: int|
                #[trigger] resolves(d, CHUNK_BASE, o1 as int, len) && len % (SHA1_SIZE as int) == 0
                    && c1 == len / (SHA1_SIZE as int);
            let i1 = choose|i: int|
                #[trigger] found_at(d, CHUNK_BASE, i) && o1 == entry_off(d, i) && o1 + bl1
                    == entry_off(d, i + 1);
            assert(has_chunk(d, CHUNK_BASE));
        },
        (None, Some((o2, c2))) => {
            let bl2 = choose|len: int|
                #[trigger] resolves(d, CHUNK_BASE, o2 as int, len) && len % (SHA1_SIZE as int) == 0
                    && c2 == len / (SHA1_SIZE as int);
            let i2 = choose|i: int|
                #[trigger] found_at(d, CHUNK_BASE, i) && o2 == entry_off(d, i) && o2 + bl2
                    == entry_off(d, i + 1);
            assert(has_chunk(d, CHUNK_BASE));
        },
        (None, None) => {},
    }
}

/// A buffer whose one possible resolution is not well formed resolves to
/// nothing well formed at all.
pub proof fn lemma_unparseable_from_candidate(d: Seq<u8>, cf: GraphFile)
    requires
        cf.data@ == d,
        table_resolves(d, cf),
        !cf.wf(),
    ensures
        !parseable(d),
{
    assert forall|f: GraphFile| !(f.data@ == d && table_resolves(d, f) && f.wf()) by {
        if f.data@ == d && table_resolves(d, f) && f.wf() {
            lemma_candidate_fields_unique(d, f, cf);
            lemma_wf_same_fields(f, cf);
        }
    }
}

/// A buffer whose table lacks one of the three mandatory chunks resolves
/// to nothing.
pub proof fn lemma_unparseable_missing(d: Seq<u8>, cid: u32)
    requires
        cid == CHUNK_OIDF || cid == CHUNK_OIDL || cid == CHUNK_CDAT,
        !has_chunk(d, cid),
    ensures
        !parseable(d),
{
    assert forall|f: GraphFile| !(f.data@ == d && table_resolves(d, f) && f.wf()) by {
        if table_resolves(d, f) {
            if cid == CHUNK_OIDF {
                let (off, len) = choose|off: int, len: int|
                    #[trigger] resolves(d, CHUNK_OIDF, off, len) && len == 1024 && fan_matches(
                        d,
                        off,
                        f.fan@,
                    );
                let wi = choose|i: int|
                    #[trigger] found_at(d, CHUNK_OIDF, i) && off == entry_off(d, i) && off + len
                        == entry_off(d, i + 1);
                assert(found_at(d, cid, wi));
            } else if cid == CHUNK_OIDL {
                let (off, len) = choose|off: int, len: int|
                    #[trigger] resolves(d, CHUNK_OIDL, off, len) && off == f.oid_lookup_offset
                        && len == f.num_commits_spec() * SHA1_SIZE;
                let wi = choose|i: int|
                    #[trigger] found_at(d, CHUNK_OIDL, i) && off == entry_off(d, i) && off + len
                        == entry_off(d, i + 1);
                assert(found_at(d, cid, wi));
            } else {
                let (off, len) = choose|off: int, len: int|
                    #[trigger] resolves(d, CHUNK_CDAT, off, len) && off == f.commit_data_offset
                        && len == f.num_commits_spec() * COMMIT_DATA_ENTRY_SIZE;
                let wi = choose|i: int|
                    #[trigger] found_at(d, CHUNK_CDAT, i) && off == entry_off(d, i) && off + len
                        == entry_off(d, i + 1);
                assert(found_at(d, cid, wi));
            }
        }
    }
}

/// Pins the fan-out chunk of any resolution to table entry `af`, and so
/// the commit count of any resolution to the bytes at that entry.
proof fn lemma_pin_fan(d: Seq<u8>, f: GraphFile, af: int)
    requires
        table_resolves(d, f),
        found_at(d, CHUNK_OIDF, af),
    ensures
        entry_off(d, af) + 1024 == entry_off(d, af + 1),
        fan_matches(d, entry_off(d, af) as int, f.fan@),
        f.num_commits_spec() == be_u32_at(d, entry_off(d, af) + 4 * 255),
{
    let (off, len) = choose|off: int, len: int|
        #[trigger] resolves(d, CHUNK_OIDF, off, len) && len == 1024 && fan_matches(d, off, f.fan@);
    let wi = choose|i: int|
        #[trigger] found_at(d, CHUNK_OIDF, i) && off == entry_off(d, i) && off + len == entry_off(
            d,
            i + 1,
        );
    lemma_known_chunk_unique(d, CHUNK_OIDF, wi, af);
    assert(f.fan@[255] == be_u32_at(d, off + 4 * 255));
}

/// A buffer whose fan-out chunk has the wrong size resolves to nothing.
pub proof fn lemma_unparseable_oidf_len(d: Seq<u8>, af: int)
    requires
        table_ok(d),
        found_at(d, CHUNK_OIDF, af),
        entry_off(d, af + 1) - entry_off(d, af) != 1024,
    ensures
        !parseable(d),
{
    assert forall|f: GraphFile| !(f.data@ == d && table_resolves(d, f) && f.wf()) by {
        if table_resolves(d, f) {
            lemma_pin_fan(d, f, af);
        }
    }
}

/// A buffer that declares more commits than a chain may address resolves
/// to nothing well formed.
pub proof fn lemma_unparseable_too_many(d: Seq<u8>, af: int)
    requires
        table_ok(d),
        found_at(d, CHUNK_OIDF, af),
        be_u32_at(d, entry_off(d, af) + 4 * 255) > MAX_COMMITS,
    ensures
        !parseable(d),
{
    assert forall|f: GraphFile| !(f.data@ == d && table_resolves(d, f) && f.wf()) by {
        if table_resolves(d, f) {
            lemma_pin_fan(d, f, af);
            assert(!f.chunks_in_bounds());
        }
    }
}

/// A buffer whose id-lookup chunk does not hold exactly the declared
/// number of ids resolves to nothing.
pub proof fn lemma_unparseable_oidl_len(d: Seq<u8>, af: int, al: int)
    requires
        table_ok(d),
        found_at(d, CHUNK_OIDF, af),
        found_at(d, CHUNK_OIDL, al),
        entry_off(d, al + 1) - entry_off(d, al) != be_u32_at(d, entry_off(d, af) + 4 * 255) * (
        SHA1_SIZE as int),
    ensures
        !parseable(d),
{
    assert forall|f: GraphFile| !(f.data@ == d && table_resolves(d, f) && f.wf()) by {
        if table_resolves(d, f) {
            lemma_pin_fan(d, f, af);
            let (off, len) = choose|off: int, len: int|
                #[trigger] resolves(d, CHUNK_OIDL, off, len) && off == f.oid_lookup_offset && len
                    == f.num_commits_spec() * SHA1_SIZE;
            let wi = choose|i: int|
                #[trigger] found_at(d, CHUNK_OIDL, i) && off == entry_off(d, i) && off + len
                    == entry_off(d, i + 1);
            lemma_known_chunk_unique(d, CHUNK_OIDL, wi, al);
        }
    }
}

/// A buffer whose commit-data chunk does not hold exactly the declared
/// number of records resolves to nothing.
pub proof fn lemma_unparseable_cdat_len(d: Seq<u8>, af: int, ac: int)
    requires
        table_ok(d),
        found_at(d, CHUNK_OIDF, af),
        found_at(d, CHUNK_CDAT, ac),
        entry_off(d, ac + 1) - entry_off(d, ac) != be_u32_at(d, entry_off(d, af) + 4 * 255) * (
        COMMIT_DATA_ENTRY_SIZE as int),
    ensures
        !parseable(d),
{
    assert forall|f: GraphFile| !(f.data@ == d && table_resolves(d, f) && f.wf()) by {
        if table_resolves(d, f) {
            lemma_pin_fan(d, f, af);
            let (off, len) = choose|off: int, len: int|
                #[trigger] resolves(d, CHUNK_CDAT, off, len) && off == f.commit_data_offset && len
                    == f.num_commits_spec() * COMMIT_DATA_ENTRY_SIZE;
            let wi = choose|i: int|
                #[trigger] found_at(d, CHUNK_CDAT, i) && off == entry_off(d, i) && off + len
                    == entry_off(d, i + 1);
            lemma_known_chunk_unique(d, CHUNK_CDAT, wi, ac);
        }
    }
}

/// A buffer whose extra-edge chunk is not a whole number of entries
/// resolves to nothing well formed.
pub proof fn lemma_unparseable_edge_len(d: Seq<u8>, ae: int)
    requires
        table_ok(d),
        found_at(d, CHUNK_EDGE, ae),
        (entry_off(d, ae + 1) - entry_off(d, ae)) % 4 != 0,
    ensures
        !parseable(d),
{
    assert forall|f: GraphFile| !(f.data@ == d && table_resolves(d, f) && f.wf()) by {
        if table_resolves(d, f) && f.wf() {
            match f.extra_edges {
                Some((fo, fl)) => {
                    let wi = choose|i: int|
                        #[trigger] found_at(d, CHUNK_EDGE, i) && fo == entry_off(d, i) && fo + fl
                            == entry_off(d, i + 1);
                    lemma_known_chunk_unique(d, CHUNK_EDGE, wi, ae);
                    assert(fl as int % 4 != 0);
                },
                None => {
                    assert(has_chunk(d, CHUNK_EDGE));
                },
            }
        }
    }
}

/// A buffer whose base-graph chunk is not a whole number of ids resolves
/// to nothing.
pub proof fn lemma_unparseable_base_len(d: Seq<u8>, ab: int)
    requires
        table_ok(d),
        found_at(d, CHUNK_BASE, ab),
        (entry_off(d, ab + 1) - entry_off(d, ab)) % (SHA1_SIZE as int) != 0,
    ensures
        !parseable(d),
{
    assert forall|f: GraphFile| !(f.data@ == d && table_resolves(d, f) && f.wf()) by {
        if table_resolves(d, f) && f.wf() {
            match f.base_graphs {
                Some((fo, fc)) => {
                    let fl = choose|len: int|
                        #[trigger] resolves(d, CHUNK_BASE, fo as int, len) && len % (
                        SHA1_SIZE as int) == 0 && fc == len / (SHA1_SIZE as int);
                    let wi = choose|i: int|
                        #[trigger] found_at(d, CHUNK_BASE, i) && fo == entry_off(d, i) && fo + fl
                            == entry_off(d, i + 1);
                    lemma_known_chunk_unique(d, CHUNK_BASE, wi, ab);
                },
                None => {
                    assert(has_chunk(d, CHUNK_BASE));
                },
            }
        }
    }
}

/// Every resolved chunk of a resolution with an addressable commit count
/// and whole extra-edge entries lies within the buffer.
pub proof fn lemma_bounds_from_resolution(d: Seq<u8>, cf: GraphFile)
    requires
        cf.data@ == d,
        table_resolves(d, cf),
        cf.fan@.len() == 256,
        cf.num_commits_spec() <= MAX_COMMITS,
        match cf.extra_edges {
            Some((off, len)) => len % 4 == 0,
            None => true,
        },
    ensures
        cf.chunks_in_bounds(),
{
    let c = chunk_count(d);
    let (off, len) = choose|off: int, len: int|
        #[trigger] resolves(d, CHUNK_OIDL, off, len) && off == cf.oid_lookup_offset && len
            == cf.num_commits_spec() * SHA1_SIZE;
    let wi = choose|i: int|
        #[trigger] found_at(d, CHUNK_OIDL, i) && off == entry_off(d, i) && off + len == entry_off(
            d,
            i + 1,
        );
    lemma_off_monotone(d, wi + 1, c);
    let (co, cl) = choose|off: int, len: int|
        #[trigger] resolves(d, CHUNK_CDAT, off, len) && off == cf.commit_data_offset && len
            == cf.num_commits_spec() * COMMIT_DATA_ENTRY_SIZE;
    let ci = choose|i: int|
        #[trigger] found_at(d, CHUNK_CDAT, i) && co == entry_off(d, i) && co + cl == entry_off(
            d,
            i + 1,
        );
    lemma_off_monotone(d, ci + 1, c);
    match cf.extra_edges {
        Some((eo, el)) => {
            let ei = choose|i: int|
                #[trigger] found_at(d, CHUNK_EDGE, i) && eo == entry_off(d, i) && eo + el
                    == entry_off(d, i + 1);
            lemma_off_monotone(d, ei + 1, c);
        },
        None => {},
    }
    match cf.base_graphs {
        Some((bo, bc)) => {
            let bl = choose|len: int|
                #[trigger] resolves(d, CHUNK_BASE, bo as int, len) && len % (SHA1_SIZE as int) == 0
                    && bc == len / (SHA1_SIZE as int);
            let bi = choose|i: int|
                #[trigger] found_at(d, CHUNK_BASE, i) && bo == entry_off(d, i) && bo + bl
                    == entry_off(d, i + 1);
            lemma_off_monotone(d, bi + 1, c);
            vstd::arithmetic::div_mod::lemma_fundamental_div_mod(bl, SHA1_SIZE as int);
        },
        None => {},
    }
}

/// A fan-out table whose neighbours never decrease never decreases at all.
pub proof fn lemma_fan_from_adjacent(fan: Seq<u32>, i: int, j: int)
    requires
        fan.len() == 256,
        forall|t: int| 0 <= t < 255 ==> #[trigger] fan[t] <= fan[t + 1],
        0 <= i <= j < 256,
    ensures
        fan[i] <= fan[j],
    decreases j - i,
{
    if i < j {
        lemma_fan_from_adjacent(fan, i, j - 1);
        assert(fan[j - 1] <= fan[j]);
    }
}

/// An id list whose neighbours increase is strictly increasing throughout.
pub proof fn lemma_sorted_from_adjacent(f: GraphFile, p: int, q: int)
    requires
        forall|t: int|
            0 <= t < f.num_commits_spec() - 1 ==> lex_lt(
                #[trigger] f.id_seq(t),
                f.id_seq(t + 1),
            ),
        0 <= p < q < f.num_commits_spec(),
    ensures
        lex_lt(f.id_seq(p), f.id_seq(q)),
    decreases q - p,
{
    if q == p + 1 {
        assert(lex_lt(f.id_seq(p), f.id_seq(p + 1)));
    } else {
        lemma_sorted_from_adjacent(f, p, q - 1);
        assert(lex_lt(f.id_seq(q - 1), f.id_seq(q)));
        crate::order::lemma_lex_transitive(f.id_seq(p), f.id_seq(q - 1), f.id_seq(q));
    }
}

impl GraphFile {
    /// Parses and validates `data` as one graph file.
    ///
    /// Returns `Ok` exactly when the buffer is a readable graph file; the
    /// result then satisfies [`GraphFile::wf`] and owns the buffer
    /// unchanged.  Every rejection is a format error: a wrong signature,
    /// version or hash kind, a broken chunk table, a missing or missized
    /// mandatory chunk, or chunk contents that break the file's invariants.
    #[verifier::rlimit(100)]
    pub fn new(data: Vec<u8>, path: String) -> (r: Result<GraphFile, Error>)
        ensures
            match r {
                Ok(f) => {
                    &&& f.wf()
                    &&& f.data@ == data@
                    &&& f.path@ == path@
                    &&& table_resolves(data@, f)
                },
                Err(_) => !parseable(data@),
            },
    {
        let ghost d = data@;
        let dlen: usize = data.len();
        if dlen < 8 {
            proof {
                lemma_unparseable_no_table(d);
            }
            return Err(Error::BadSignature);
        }
        if !(data[0] == SIG_0 && data[1] == SIG_1 && data[2] == SIG_2 && data[3] == SIG_3) {
            proof {
                lemma_unparseable_no_table(d);
            }
            return Err(Error::BadSignature);
        }
        if data[4] != 1 {
            proof {
                lemma_unparseable_no_table(d);
            }
            return Err(Error::UnsupportedVersion(data[4]));
        }
        if data[5] != 1 {
            proof {
                lemma_unparseable_no_table(d);
            }
            return Err(Error::UnsupportedHashKind(data[5]));
        }
        let c: usize = data[6] as usize;
        let table_end: usize = 8 + 12 * (c + 1);
        if dlen < table_end {
            proof {
                lemma_unparseable_no_table(d);
            }
            return Err(Error::TruncatedChunkTable);
        }
        // First pass: the offsets, which must never decrease and must stay
        // between the end of the table and the end of the buffer.
        let mut offs: Vec<u64> = Vec::new();
        let mut i: usize = 0;
        while i <= c
            invariant
                data@ == d,
                dlen == d.len(),
                dlen >= table_end,
                c == chunk_count(d),
                table_end == 8 + 12 * (c + 1),
                offs@.len() == i,
                i <= c + 1,
                forall|k: int| 0 <= k < i ==> #[trigger] offs@[k] == entry_off(d, k),
                forall|k: int| 0 <= k < i - 1 ==> #[trigger] entry_off(d, k) <= entry_off(d, k + 1),
                i > 0 ==> table_end <= entry_off(d, 0),
            decreases c + 1 - i,
        {
            let off = read_u64_be(&data, 8 + 12 * i + 4);
            if i == 0 {
                if off < table_end as u64 {
                    proof {
                        assert(!table_ok(d));
                        lemma_unparseable_no_table(d);
                    }
                    return Err(Error::NonMonotonicChunks);
                }
            } else {
                if off < offs[i - 1] {
                    proof {
                        assert(!table_ok(d)) by {
                            if table_ok(d) {
                                assert(entry_off(d, i as int - 1) <= entry_off(d, i as int));
                            }
                        }
                        lemma_unparseable_no_table(d);
                    }
                    return Err(Error::NonMonotonicChunks);
                }
            }
            offs.push(off);
            i = i + 1;
        }
        if offs[c] > dlen as u64 {
            proof {
                assert(!table_ok(d));
                lemma_unparseable_no_table(d);
            }
            return Err(Error::NonMonotonicChunks);
        }
        // Second pass: the chunk ids; remember where each known chunk sits.
        let mut at_oidf: Option<usize> = None;
        let mut at_oidl: Option<usize> = None;
        let mut at_cdat: Option<usize> = None;
        let mut at_edge: Option<usize> = None;
        let mut at_base: Option<usize> = None;
        let mut j: usize = 0;
        while j < c
            invariant
                data@ == d,
                dlen == d.len(),
                dlen >= table_end,
                c == chunk_count(d),
                table_end == 8 + 12 * (c + 1),
                j <= c,
                forall|k: int| 0 <= k < j ==> #[trigger] entry_id(d, k) != 0,
                match at_oidf {
                    Some(a) => a < j && entry_id(d, a as int) == CHUNK_OIDF,
                    None => forall|k: int| 0 <= k < j ==> #[trigger] entry_id(d, k) != CHUNK_OIDF,
                },
                match at_oidl {
                    Some(a) => a < j && entry_id(d, a as int) == CHUNK_OIDL,
                    None => forall|k: int| 0 <= k < j ==> #[trigger] entry_id(d, k) != CHUNK_OIDL,
                },
                match at_cdat {
                    Some(a) => a < j && entry_id(d, a as int) == CHUNK_CDAT,
                    None => forall|k: int| 0 <= k < j ==> #[trigger] entry_id(d, k) != CHUNK_CDAT,
                },
                match at_edge {
                    Some(a) => a < j && entry_id(d, a as int) == CHUNK_EDGE,
                    None => forall|k: int| 0 <= k < j ==> #[trigger] entry_id(d, k) != CHUNK_EDGE,
                },
                match at_base {
                    Some(a) => a < j && entry_id(d, a as int) == CHUNK_BASE,
                    None => forall|k: int| 0 <= k < j ==> #[trigger] entry_id(d, k) != CHUNK_BASE,
                },
                forall|k: int, l: int|
                    0 <= k < l < j ==> !(#[trigger] entry_id(d, k) == #[trigger] entry_id(d, l)
                        && is_known_chunk(entry_id(d, k))),
            decreases c - j,
        {
            let cid = read_u32_be(&data, 8 + 12 * j);
            if cid == 0 {
                proof {
                    assert(!table_ok(d)) by {
                        assert(cid == entry_id(d, j as int));
                        if table_ok(d) {
                            assert(entry_id(d, j as int) != 0);
                        }
                    }
                    lemma_unparseable_no_table(d);
                }
                return Err(Error::BadChunkId);
            }
            if cid == CHUNK_OIDF {
                if at_oidf.is_some() {
                    proof {
                        assert(!table_ok(d)) by {
                            if table_ok(d) {
                                let a = at_oidf.unwrap();
                                assert(entry_id(d, a as int) == entry_id(d, j as int)
                                    && is_known_chunk(entry_id(d, a as int)));
                            }
                        }
                        lemma_unparseable_no_table(d);
                    }
                    return Err(Error::DuplicateChunk(CHUNK_OIDF));
                }
                at_oidf = Some(j);
            } else if cid == CHUNK_OIDL {
                if at_oidl.is_some() {
                    proof {
                        assert(!table_ok(d)) by {
                            if table_ok(d) {
                                let a = at_oidl.unwrap();
                                assert(entry_id(d, a as int) == entry_id(d, j as int)
                                    && is_known_chunk(entry_id(d, a as int)));
                            }
                        }
                        lemma_unparseable_no_table(d);
                    }
                    return Err(Error::DuplicateChunk(CHUNK_OIDL));
                }
                at_oidl = Some(j);
            } else if cid == CHUNK_CDAT {
                if at_cdat.is_some() {
                    proof {
                        assert(!table_ok(d)) by {
                            if table_ok(d) {
                                let a = at_cdat.unwrap();
                                assert(entry_id(d, a as int) == entry_id(d, j as int)
                                    && is_known_chunk(entry_id(d, a as int)));
                            }
                        }
                        lemma_unparseable_no_table(d);
                    }
                    return Err(Error::DuplicateChunk(CHUNK_CDAT));
                }
                at_cdat = Some(j);
            } else if cid == CHUNK_EDGE {
                if at_edge.is_some() {
                    proof {
                        assert(!table_ok(d)) by {
                            if table_ok(d) {
                                let a = at_edge.unwrap();
                                assert(entry_id(d, a as int) == entry_id(d, j as int)
                                    && is_known_chunk(entry_id(d, a as int)));
                            }
                        }
                        lemma_unparseable_no_table(d);
                    }
                    return Err(Error::DuplicateChunk(CHUNK_EDGE));
                }
                at_edge = Some(j);
            } else if cid == CHUNK_BASE {
                if at_base.is_some() {
                    proof {
                        assert(!table_ok(d)) by {
                            if table_ok(d) {
                                let a = at_base.unwrap();
                                assert(entry_id(d, a as int) == entry_id(d, j as int)
                                    && is_known_chunk(entry_id(d, a as int)));
                            }
                        }
                        lemma_unparseable_no_table(d);
                    }
                    return Err(Error::DuplicateChunk(CHUNK_BASE));
                }
                at_base = Some(j);
            }
            j = j + 1;
        }
        let terminator = read_u32_be(&data, 8 + 12 * c);
        if terminator != 0 {
            proof {
                assert(!table_ok(d));
                lemma_unparseable_no_table(d);
            }
            return Err(Error::BadChunkId);
        }
        proof {
            assert(header_ok(d));
            assert(table_ok(d));
        }
        let a_oidf = match at_oidf {
            Some(a) => a,
            None => {
                proof {
                    assert forall|i: int| !found_at(d, CHUNK_OIDF, i) by {}
                    lemma_unparseable_missing(d, CHUNK_OIDF);
                }
                return Err(Error::MissingChunk(CHUNK_OIDF));
            },
        };
        let a_oidl = match at_oidl {
            Some(a) => a,
            None => {
                proof {
                    assert forall|i: int| !found_at(d, CHUNK_OIDL, i) by {}
                    lemma_unparseable_missing(d, CHUNK_OIDL);
                }
                return Err(Error::MissingChunk(CHUNK_OIDL));
            },
        };
        let a_cdat = match at_cdat {
            Some(a) => a,
            None => {
                proof {
                    assert forall|i: int| !found_at(d, CHUNK_CDAT, i) by {}
                    lemma_unparseable_missing(d, CHUNK_CDAT);
                }
                return Err(Error::MissingChunk(CHUNK_CDAT));
            },
        };
        proof {
            lemma_off_monotone(d, 0, a_oidf as int);
            lemma_off_monotone(d, a_oidf as int, a_oidf as int + 1);
            lemma_off_monotone(d, a_oidf as int + 1, c as int);
            lemma_off_monotone(d, 0, a_oidl as int);
            lemma_off_monotone(d, a_oidl as int, a_oidl as int + 1);
            lemma_off_monotone(d, a_oidl as int + 1, c as int);
            lemma_off_monotone(d, 0, a_cdat as int);
            lemma_off_monotone(d, a_cdat as int, a_cdat as int + 1);
            lemma_off_monotone(d, a_cdat as int + 1, c as int);
        }
        let off_oidf = offs[a_oidf];
        let len_oidf = offs[a_oidf + 1] - off_oidf;
        let off_oidl = offs[a_oidl];
        let len_oidl = offs[a_oidl + 1] - off_oidl;
        let off_cdat = offs[a_cdat];
        let len_cdat = offs[a_cdat + 1] - off_cdat;
        if len_oidf != 1024 {
            proof {
                lemma_unparseable_oidf_len(d, a_oidf as int);
            }
            return Err(Error::ChunkSizeMismatch(CHUNK_OIDF));
        }
        // Read the fan-out table.
        let fo: usize = off_oidf as usize;
        let mut fan: Vec<u32> = Vec::new();
        let mut b: usize = 0;
        while b < 256
            invariant
                data@ == d,
                dlen == d.len(),
                fo == off_oidf,
                fo + 1024 <= dlen,
                fan@.len() == b,
                b <= 256,
                forall|k: int| 0 <= k < b ==> #[trigger] fan@[k] == be_u32_at(d, fo + 4 * k),
            decreases 256 - b,
        {
            fan.push(read_u32_be(&data, fo + 4 * b));
            b = b + 1;
        }
        let n: u32 = fan[255];
        proof {
            assert(fan_matches(d, off_oidf as int, fan@));
            assert(found_at(d, CHUNK_OIDF, a_oidf as int));
            assert(resolves(d, CHUNK_OIDF, off_oidf as int, 1024));
        }
        if n > MAX_COMMITS {
            proof {
                assert(be_u32_at(d, entry_off(d, a_oidf as int) + 4 * 255) == n);
                lemma_unparseable_too_many(d, a_oidf as int);
            }
            return Err(Error::TooManyCommits);
        }
        if len_oidl != (n as u64) * (SHA1_SIZE as u64) {
            proof {
                assert(be_u32_at(d, entry_off(d, a_oidf as int) + 4 * 255) == n);
                lemma_unparseable_oidl_len(d, a_oidf as int, a_oidl as int);
            }
            return Err(Error::ChunkSizeMismatch(CHUNK_OIDL));
        }
        if len_cdat != (n as u64) * (COMMIT_DATA_ENTRY_SIZE as u64) {
            proof {
                assert(be_u32_at(d, entry_off(d, a_oidf as int) + 4 * 255) == n);
                lemma_unparseable_cdat_len(d, a_oidf as int, a_cdat as int);
            }
            return Err(Error::ChunkSizeMismatch(CHUNK_CDAT));
        }
        let extra_edges: Option<(usize, usize)> = match at_edge {
            Some(a) => {
                proof {
                    lemma_off_monotone(d, 0, a as int);
                    lemma_off_monotone(d, a as int, a as int + 1);
                    lemma_off_monotone(d, a as int + 1, c as int);
                }
                let off = offs[a];
                let len = offs[a + 1] - off;
                if len % 4 != 0 {
                    proof {
                        assert(found_at(d, CHUNK_EDGE, a as int));
                        lemma_unparseable_edge_len(d, a as int);
                    }
                    return Err(Error::ChunkSizeMismatch(CHUNK_EDGE));
                }
                Some((off as usize, len as usize))
            },
            None => None,
        };
        let base_graphs: Option<(usize, usize)> = match at_base {
            Some(a) => {
                proof {
                    lemma_off_monotone(d, 0, a as int);
                    lemma_off_monotone(d, a as int, a as int + 1);
                    lemma_off_monotone(d, a as int + 1, c as int);
                }
                let off = offs[a];
                let len = offs[a + 1] - off;
                if len % (SHA1_SIZE as u64) != 0 {
                    proof {
                        assert(found_at(d, CHUNK_BASE, a as int));
                        lemma_unparseable_base_len(d, a as int);
                    }
                    return Err(Error::ChunkSizeMismatch(CHUNK_BASE));
                }
                Some((off as usize, (len / (SHA1_SIZE as u64)) as usize))
            },
            None => None,
        };
        let cf = GraphFile {
            data,
            fan,
            oid_lookup_offset: off_oidl as usize,
            commit_data_offset: off_cdat as usize,
            extra_edges,
            base_graphs,
            path,
        };
        proof {
            assert(found_at(d, CHUNK_OIDL, a_oidl as int));
            assert(resolves(d, CHUNK_OIDL, off_oidl as int, (n as int) * SHA1_SIZE));
            assert(found_at(d, CHUNK_CDAT, a_cdat as int));
            assert(resolves(d, CHUNK_CDAT, off_cdat as int, (n as int) * COMMIT_DATA_ENTRY_SIZE));
            match cf.extra_edges {
                Some((off, len)) => {
                    let a = at_edge.unwrap();
                    assert(found_at(d, CHUNK_EDGE, a as int));
                    assert(resolves(d, CHUNK_EDGE, off as int, len as int));
                },
                None => {
                    assert forall|i: int| !found_at(d, CHUNK_EDGE, i) by {}
                },
            }
            match cf.base_graphs {
                Some((off, count)) => {
                    let a = at_base.unwrap();
                    let len = offs@[a as int] + 0;
                    assert(found_at(d, CHUNK_BASE, a as int));
                    assert(resolves(
                        d,
                        CHUNK_BASE,
                        off as int,
                        entry_off(d, a as int + 1) - entry_off(d, a as int),
                    ));
                    vstd::arithmetic::div_mod::lemma_fundamental_div_mod(
                        entry_off(d, a as int + 1) - entry_off(d, a as int),
                        SHA1_SIZE as int,
                    );
                },
                None => {
                    assert forall|i: int| !found_at(d, CHUNK_BASE, i) by {}
                },
            }
            assert(table_resolves(d, cf));
            lemma_bounds_from_resolution(d, cf);
        }
        if !cf.check_fan_monotone() {
            proof {
                lemma_unparseable_from_candidate(d, cf);
            }
            return Err(Error::FanOutNotMonotonic);
        }
        if !cf.check_ids_sorted() {
            proof {
                lemma_unparseable_from_candidate(d, cf);
            }
            return Err(Error::IdsNotSorted);
        }
        match cf.check_buckets() {
            Some(p) => {
                proof {
                    lemma_unparseable_from_candidate(d, cf);
                }
                return Err(Error::IdOutsideBucket(p));
            },
            None => {},
        }
        match cf.check_edge_values() {
            Some(i) => {
                proof {
                    lemma_unparseable_from_candidate(d, cf);
                }
                return Err(Error::InvalidEdgeValue(#[verifier::truncate] (i as u32)));
            },
            None => {},
        }
        let mf = cf.find_last_edge_flag();
        match cf.check_records(mf) {
            Some(e) => {
                proof {
                    lemma_unparseable_from_candidate(d, cf);
                }
                return Err(e);
            },
            None => {},
        }
        Ok(cf)
    }

    /// Checks that the 256 fan-out entries never decrease.
    fn check_fan_monotone(&self) -> (r: bool)
        requires
            self.fan@.len() == 256,
        ensures
            r == self.fan_monotone(),
    {
        let mut b: usize = 0;
        while b < 255
            invariant
                self.fan@.len() == 256,
                0 <= b <= 255,
                forall|t: int| 0 <= t < b ==> #[trigger] self.fan@[t] <= self.fan@[t + 1],
            decreases 255 - b,
        {
            if self.fan[b] > self.fan[b + 1] {
                assert(!self.fan_monotone());
                return false;
            }
            b = b + 1;
        }
        proof {
            assert forall|i: int, j: int| 0 <= i <= j < 256 implies self.fan@[i]
                <= self.fan@[j] by {
                lemma_fan_from_adjacent(self.fan@, i, j);
            }
        }
        true
    }

    /// Checks that the id list is strictly increasing.
    fn check_ids_sorted(&self) -> (r: bool)
        requires
            self.fan@.len() == 256,
            self.num_commits_spec() <= MAX_COMMITS,
            self.oid_lookup_offset + self.num_commits_spec() * SHA1_SIZE <= self.data@.len(),
        ensures
            r == self.ids_sorted(),
    {
        let n: u32 = self.fan[255];
        if n == 0 {
            return true;
        }
        let dlen: usize = self.data.len();
        let mut p: u32 = 0;
        while p < n - 1
            invariant
                self.fan@.len() == 256,
                n == self.num_commits_spec(),
                n > 0,
                self.oid_lookup_offset + self.num_commits_spec() * SHA1_SIZE <= self.data@.len(),
                dlen == self.data@.len(),
                0 <= p <= n - 1,
                forall|t: int|
                    0 <= t < p ==> lex_lt(#[trigger] self.id_seq(t), self.id_seq(t + 1)),
            decreases n - 1 - p,
        {
            let a = crate::bytes::copy_range(
                &self.data,
                self.oid_lookup_offset + (p as usize) * SHA1_SIZE,
                SHA1_SIZE,
            );
            let b = crate::bytes::copy_range(
                &self.data,
                self.oid_lookup_offset + (p as usize + 1) * SHA1_SIZE,
                SHA1_SIZE,
            );
            match compare_bytes(&a, &b) {
                IdOrdering::Less => {},
                _ => {
                    proof {
                        crate::order::lemma_lex_irreflexive(self.id_seq(p as int));
                        assert(!lex_lt(self.id_seq(p as int), self.id_seq(p as int + 1)));
                        assert(!self.ids_sorted());
                    }
                    return false;
                },
            }
            p = p + 1;
        }
        proof {
            assert forall|i: int, j: int| 0 <= i < j < self.num_commits_spec() implies lex_lt(
                self.id_seq(i),
                self.id_seq(j),
            ) by {
                lemma_sorted_from_adjacent(*self, i, j);
            }
        }
        true
    }

    /// Checks that every extra-edge entry stores a representable position;
    /// returns the first entry index that does not.
    fn check_edge_values(&self) -> (r: Option<usize>)
        requires
            match self.extra_edges {
                Some((off, len)) => off + len <= self.data@.len() && len % 4 == 0,
                None => true,
            },
        ensures
            r is None <==> self.edges_ok(),
    {
        let (eoff, elen) = match self.extra_edges {
            Some(t) => t,
            None => {
                return None;
            },
        };
        let dlen: usize = self.data.len();
        let count: usize = elen / 4;
        proof {
            assert(4 * (count as int) <= elen);
        }
        let mut i: usize = 0;
        while i < count
            invariant
                self.extra_edges == Some::<(usize, usize)>((eoff, elen)),
                eoff + elen <= self.data@.len(),
                dlen == self.data@.len(),
                count == self.edge_count(),
                4 * (count as int) <= elen,
                0 <= i <= count,
                forall|t: int|
                    0 <= t < i ==> masked_edge(#[trigger] self.edges_seq()[t]) < NO_PARENT,
            decreases count - i,
        {
            let e = read_u32_be(&self.data, eoff + 4 * i);
            proof {
                assert(e == self.edges_seq()[i as int]);
            }
            let masked = if e >= EDGE_FLAG {
                e - EDGE_FLAG
            } else {
                e
            };
            if masked >= NO_PARENT {
                assert(!self.edges_ok());
                return Some(i);
            }
            i = i + 1;
        }
        None
    }

    /// Finds the last extra-edge entry carrying the last-edge flag, if any.
    fn find_last_edge_flag(&self) -> (r: Option<usize>)
        requires
            match self.extra_edges {
                Some((off, len)) => off + len <= self.data@.len() && len % 4 == 0,
                None => true,
            },
        ensures
            match r {
                Some(m) => m < self.edge_count() && self.edges_seq()[m as int] >= EDGE_FLAG
                    && forall|j: int|
                    m < j < self.edge_count() ==> #[trigger] self.edges_seq()[j] < EDGE_FLAG,
                None => forall|j: int|
                    0 <= j < self.edge_count() ==> #[trigger] self.edges_seq()[j] < EDGE_FLAG,
            },
    {
        let (eoff, elen) = match self.extra_edges {
            Some(t) => t,
            None => {
                return None;
            },
        };
        let dlen: usize = self.data.len();
        let count: usize = elen / 4;
        proof {
            assert(4 * (count as int) <= elen);
        }
        let mut mf: Option<usize> = None;
        let mut i: usize = 0;
        while i < count
            invariant
                self.extra_edges == Some::<(usize, usize)>((eoff, elen)),
                eoff + elen <= self.data@.len(),
                dlen == self.data@.len(),
                count == self.edge_count(),
                4 * (count as int) <= elen,
                0 <= i <= count,
                match mf {
                    Some(m) => m < i && self.edges_seq()[m as int] >= EDGE_FLAG && forall|j: int|
                        m < j < i ==> #[trigger] self.edges_seq()[j] < EDGE_FLAG,
                    None => forall|j: int|
                        0 <= j < i ==> #[trigger] self.edges_seq()[j] < EDGE_FLAG,
                },
            decreases count - i,
        {
            let e = read_u32_be(&self.data, eoff + 4 * i);
            proof {
                assert(e == self.edges_seq()[i as int]);
            }
            if e >= EDGE_FLAG {
                mf = Some(i);
            }
            i = i + 1;
        }
        mf
    }

    /// Checks every record's parent fields: sentinels, direct positions and
    /// overflow runs that stay inside the extra-edge list and terminate.
    fn check_records(&self, mf: Option<usize>) -> (r: Option<Error>)
        requires
            self.fan@.len() == 256,
            self.num_commits_spec() <= MAX_COMMITS,
            self.commit_data_offset + self.num_commits_spec() * COMMIT_DATA_ENTRY_SIZE
                <= self.data@.len(),
            match mf {
                Some(m) => m < self.edge_count() && self.edges_seq()[m as int] >= EDGE_FLAG
                    && forall|j: int|
                    m < j < self.edge_count() ==> #[trigger] self.edges_seq()[j] < EDGE_FLAG,
                None => forall|j: int|
                    0 <= j < self.edge_count() ==> #[trigger] self.edges_seq()[j] < EDGE_FLAG,
            },
        ensures
            r is None <==> self.records_ok(),
    {
        let n: u32 = self.fan[255];
        let dlen: usize = self.data.len();
        let mut p: u32 = 0;
        while p < n
            invariant
                self.fan@.len() == 256,
                n == self.num_commits_spec(),
                self.commit_data_offset + self.num_commits_spec() * COMMIT_DATA_ENTRY_SIZE
                    <= self.data@.len(),
                dlen == self.data@.len(),
                match mf {
                    Some(m) => m < self.edge_count() && self.edges_seq()[m as int] >= EDGE_FLAG
                        && forall|j: int|
                        m < j < self.edge_count() ==> #[trigger] self.edges_seq()[j] < EDGE_FLAG,
                    None => forall|j: int|
                        0 <= j < self.edge_count() ==> #[trigger] self.edges_seq()[j] < EDGE_FLAG,
                },
                0 <= p <= n,
                forall|t: int| 0 <= t < p ==> self.parent_fields_ok(t),
            decreases n - p,
        {
            let off = self.commit_data_offset + (p as usize) * COMMIT_DATA_ENTRY_SIZE;
            let p1 = read_u32_be(&self.data, off + 20);
            let p2 = read_u32_be(&self.data, off + 24);
            proof {
                assert(p1 == self.parent1_of(p as int));
                assert(p2 == self.parent2_of(p as int));
            }
            if p1 > NO_PARENT {
                assert(!self.parent_fields_ok(p as int));
                return Some(Error::InvalidParent(p));
            }
            if p1 == NO_PARENT && p2 != NO_PARENT {
                assert(!self.parent_fields_ok(p as int));
                return Some(Error::InvalidParent(p));
            }
            if p2 > NO_PARENT && p2 < EDGE_FLAG {
                assert(!self.parent_fields_ok(p as int));
                return Some(Error::InvalidParent(p));
            }
            if p2 >= EDGE_FLAG {
                let k = p2 - EDGE_FLAG;
                let ok = match mf {
                    Some(m) => (k as usize) <= m,
                    None => false,
                };
                if !ok {
                    proof {
                        if self.edge_run_ok(k as int) {
                            let j = choose|j: int|
                                k as int <= j < self.edge_count() && self.edges_seq()[j]
                                    >= EDGE_FLAG;
                            assert(false);
                        }
                        assert(!self.parent_fields_ok(p as int));
                    }
                    return Some(Error::InvalidEdgeRun(p));
                }
                proof {
                    let m = mf.unwrap();
                    assert(k <= m);
                    assert((m as int) < self.edge_count());
                    assert(self.edges_seq()[m as int] >= EDGE_FLAG);
                    assert(self.edge_run_ok(k as int));
                }
            }
            p = p + 1;
        }
        None
    }

    /// Checks that every id lies inside the fan-out bucket of its leading
    /// byte; returns the first position outside it.
    fn check_buckets(&self) -> (r: Option<u32>)
        requires
            self.fan@.len() == 256,
            self.num_commits_spec() <= MAX_COMMITS,
            self.oid_lookup_offset + self.num_commits_spec() * SHA1_SIZE <= self.data@.len(),
        ensures
            r is None <==> self.ids_in_buckets(),
    {
        let n: u32 = self.fan[255];
        let dlen: usize = self.data.len();
        let mut p: u32 = 0;
        while p < n
            invariant
                self.fan@.len() == 256,
                n == self.num_commits_spec(),
                self.oid_lookup_offset + self.num_commits_spec() * SHA1_SIZE <= self.data@.len(),
                dlen == self.data@.len(),
                0 <= p <= n,
                forall|t: int|
                    0 <= t < p ==> self.fan_lo(#[trigger] self.id_seq(t)[0] as int) <= t
                        < self.fan@[self.id_seq(t)[0] as int],
            decreases n - p,
        {
            let b = self.data[self.oid_lookup_offset + (p as usize) * SHA1_SIZE];
            proof {
                assert(self.id_seq(p as int)[0] == b);
            }
            let lo: u32 = if b == 0 {
                0
            } else {
                self.fan[(b - 1) as usize]
            };
            let hi: u32 = self.fan[b as usize];
            if !(lo <= p && p < hi) {
                assert(!self.ids_in_buckets());
                return Some(p);
            }
            p = p + 1;
        }
        None
    }
}

} // verus!
