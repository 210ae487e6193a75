use commitgraph::commit::CommitData;
use commitgraph::file::{Error, GraphFile, HashKind, Kind, LexPosition};
use commitgraph::id::Id;
use commitgraph::{MAX_COMMITS, NO_PARENT};

const EDGE_FLAG: u32 = 0x8000_0000;
const GEN: u64 = 0x4_0000_0000;

fn build_raw(chunks: &[(u32, Vec<u8>)]) -> Vec<u8> {
    let mut out = vec![0x43, 0x47, 0x50, 0x48, 1, 1, chunks.len() as u8, 0];
    let table_len = 12 * (chunks.len() + 1);
    let mut off = (8 + table_len) as u64;
    for (cid, data) in chunks {
        out.extend_from_slice(&cid.to_be_bytes());
        out.extend_from_slice(&off.to_be_bytes());
        off += data.len() as u64;
    }
    out.extend_from_slice(&0u32.to_be_bytes());
    out.extend_from_slice(&off.to_be_bytes());
    for (_, data) in chunks {
        out.extend_from_slice(data);
    }
    out
}

fn fan_bytes(ids: &[[u8; 20]]) -> Vec<u8> {
    let mut fan = Vec::new();
    for b in 0..256u32 {
        let cnt = ids.iter().filter(|id| (id[0] as u32) <= b).count() as u32;
        fan.extend_from_slice(&cnt.to_be_bytes());
    }
    fan
}

fn oidl_bytes(ids: &[[u8; 20]]) -> Vec<u8> {
    let mut out = Vec::new();
    for id in ids {
        out.extend_from_slice(id);
    }
    out
}

fn cdat_bytes(records: &[([u8; 20], u32, u32, u64)]) -> Vec<u8> {
    let mut out = Vec::new();
    for (tree, p1, p2, gt) in records {
        out.extend_from_slice(tree);
        out.extend_from_slice(&p1.to_be_bytes());
        out.extend_from_slice(&p2.to_be_bytes());
        out.extend_from_slice(&gt.to_be_bytes());
    }
    out
}

fn edge_bytes(edges: &[u32]) -> Vec<u8> {
    let mut out = Vec::new();
    for e in edges {
        out.extend_from_slice(&e.to_be_bytes());
    }
    out
}

fn build_file(
    ids: &[[u8; 20]],
    records: &[([u8; 20], u32, u32, u64)],
    edges: Option<&[u32]>,
    base: Option<&[[u8; 20]]>,
) -> Vec<u8> {
    let mut chunks = vec![
        (0x4F49_4446, fan_bytes(ids)),
        (0x4F49_444C, oidl_bytes(ids)),
        (0x4344_4154, cdat_bytes(records)),
    ];
    if let Some(es) = edges {
        chunks.push((0x4544_4745, edge_bytes(es)));
    }
    if let Some(bs) = base {
        chunks.push((0x4241_5345, oidl_bytes(bs)));
    }
    build_raw(&chunks)
}

fn id20(first: u8, rest: u8) -> [u8; 20] {
    let mut id = [rest; 20];
    id[0] = first;
    id
}

fn gen_time(gen: u64, time: u64) -> u64 {
    gen * GEN + time
}

fn open(data: Vec<u8>) -> GraphFile {
    GraphFile::new(data, String::from("fixture")).expect("fixture must parse")
}

fn mk_id(bytes: [u8; 20]) -> Id {
    Id::new(bytes.to_vec()).expect("20 bytes")
}

// Three commits, A < B < C; A has byte 0x00, B and C byte 0xFF, so the
// fan-out reads 1 for every bucket until the last, which reads 3.
fn scenario_a() -> GraphFile {
    let a = id20(0x00, 0x0A);
    let b = id20(0xFF, 0x0B);
    let c = id20(0xFF, 0x0C);
    let records = [
        (id20(0x10, 1), NO_PARENT, NO_PARENT, gen_time(1, 100)),
        (id20(0x10, 2), 0, NO_PARENT, gen_time(2, 200)),
        (id20(0x10, 3), 1, 0, gen_time(3, 300)),
    ];
    open(build_file(&[a, b, c], &records, None, None))
}

#[test]
fn scenario_a_lookup_and_decode() {
    let f = scenario_a();
    assert_eq!(f.num_commits(), 3);
    let b = mk_id(id20(0xFF, 0x0B));
    assert_eq!(f.lookup(&b), Some(LexPosition(1)));
    let cd = f.commit_at(LexPosition(1));
    assert_eq!(cd.root_tree_id.as_bytes().as_slice(), &id20(0x10, 2));
    assert_eq!(cd.parents, vec![0]);
    assert_eq!(cd.generation, 2);
    assert_eq!(cd.commit_time, 200);
}

#[test]
fn round_trip_every_position() {
    let f = scenario_a();
    for p in 0..f.num_commits() {
        let id = f.id_at(LexPosition(p));
        assert_eq!(f.lookup(&id), Some(LexPosition(p)));
    }
}

#[test]
fn negative_lookup_absent_id_in_full_bucket() {
    let f = scenario_a();
    // Same leading byte as B and C, but not present.
    assert_eq!(f.lookup(&mk_id(id20(0xFF, 0x0D))), None);
}

#[test]
fn negative_lookup_empty_bucket() {
    let f = scenario_a();
    // Bucket 0x42 is empty: its fan-out entry equals its predecessor's.
    assert_eq!(f.lookup(&mk_id(id20(0x42, 0x00))), None);
}

// A commit with three parents: the second-parent field redirects to the
// extra-edge list, whose run yields parents 1 and 2.
fn scenario_b() -> GraphFile {
    let ids = [id20(0x01, 1), id20(0x02, 2), id20(0x03, 3), id20(0x04, 4)];
    let records = [
        (id20(0x20, 1), NO_PARENT, NO_PARENT, gen_time(1, 10)),
        (id20(0x20, 2), NO_PARENT, NO_PARENT, gen_time(1, 11)),
        (id20(0x20, 3), NO_PARENT, NO_PARENT, gen_time(1, 12)),
        (id20(0x20, 4), 0, EDGE_FLAG, gen_time(2, 13)),
    ];
    let edges = [1u32, 2 | EDGE_FLAG];
    open(build_file(&ids, &records, Some(&edges), None))
}

#[test]
fn scenario_b_octopus_merge() {
    let f = scenario_b();
    let cd = f.commit_at(LexPosition(3));
    assert_eq!(cd.parents, vec![0, 1, 2]);
}

#[test]
fn overflow_run_stops_at_marker() {
    // The run starts at index 1 and must not read past the marked entry.
    let ids = [id20(0x01, 1), id20(0x02, 2), id20(0x03, 3), id20(0x04, 4)];
    let records = [
        (id20(0x20, 1), NO_PARENT, NO_PARENT, gen_time(1, 10)),
        (id20(0x20, 2), NO_PARENT, NO_PARENT, gen_time(1, 11)),
        (id20(0x20, 3), NO_PARENT, NO_PARENT, gen_time(1, 12)),
        (id20(0x20, 4), 0, EDGE_FLAG | 1, gen_time(2, 13)),
    ];
    let edges = [9u32 | EDGE_FLAG, 1, 2 | EDGE_FLAG, 3 | EDGE_FLAG];
    let f = open(build_file(&ids, &records, Some(&edges), None));
    let cd = f.commit_at(LexPosition(3));
    assert_eq!(cd.parents, vec![0, 1, 2]);
}

#[test]
fn two_direct_parents() {
    let f = scenario_a();
    let cd = f.commit_at(LexPosition(2));
    assert_eq!(cd.parents, vec![1, 0]);
    assert_eq!(cd.generation, 3);
    assert_eq!(cd.commit_time, 300);
}

#[test]
fn no_parents_decodes_empty() {
    let f = scenario_a();
    let cd = f.commit_at(LexPosition(0));
    assert_eq!(cd.parents, Vec::<u32>::new());
}

#[test]
fn commit_data_new_matches_commit_at() {
    let f = scenario_a();
    let cd = CommitData::new(&f, LexPosition(1));
    assert_eq!(cd.parents, vec![0]);
    assert_eq!(cd.generation, 2);
}

#[test]
fn iter_ids_ascending() {
    let f = scenario_a();
    let ids = f.iter_ids();
    assert_eq!(ids[0].as_bytes().as_slice(), &id20(0x00, 0x0A));
    assert_eq!(ids[1].as_bytes().as_slice(), &id20(0xFF, 0x0B));
    assert_eq!(ids[2].as_bytes().as_slice(), &id20(0xFF, 0x0C));
}

#[test]
fn iter_commits_in_position_order() {
    let f = scenario_a();
    let cds = f.iter_commits();
    assert_eq!(cds.len(), 3);
    assert_eq!(cds[0].generation, 1);
    assert_eq!(cds[1].generation, 2);
    assert_eq!(cds[2].generation, 3);
}

#[test]
fn base_graph_ids_listed_in_order() {
    let base = [id20(0xAA, 1), id20(0xBB, 2)];
    let ids = [id20(0x01, 1)];
    let records = [(id20(0x20, 1), NO_PARENT, NO_PARENT, gen_time(1, 10))];
    let f = open(build_file(&ids, &records, None, Some(&base)));
    let got = f.iter_base_graph_ids();
    assert_eq!(got.len(), 2);
    assert_eq!(got[0].as_bytes().as_slice(), &id20(0xAA, 1));
    assert_eq!(got[1].as_bytes().as_slice(), &id20(0xBB, 2));
}

#[test]
fn base_graph_ids_empty_when_absent() {
    let f = scenario_a();
    assert_eq!(f.iter_base_graph_ids().len(), 0);
}

#[test]
fn commit_data_bytes_and_extra_edges_data() {
    let f = scenario_b();
    let rec = f.commit_data_bytes(LexPosition(3));
    assert_eq!(rec.len(), 36);
    assert_eq!(&rec[0..20], &id20(0x20, 4));
    let edges = f.extra_edges_data().expect("edge chunk present");
    assert_eq!(edges.len(), 8);
    let a = scenario_a();
    assert!(a.extra_edges_data().is_none());
}

#[test]
fn kind_and_hash_kind_and_path() {
    let f = scenario_a();
    assert_eq!(f.kind(), Kind::V1);
    assert_eq!(f.hash_kind(), HashKind::Sha1);
    assert_eq!(f.path(), "fixture");
}

#[test]
fn id_new_rejects_wrong_width() {
    assert!(Id::new(vec![0u8; 19]).is_none());
    assert!(Id::new(vec![0u8; 21]).is_none());
    let id = Id::new(vec![7u8; 20]).expect("right width");
    assert_eq!(id.first_byte(), 7);
}

fn expect_err(data: Vec<u8>) -> Error {
    match GraphFile::new(data, String::from("bad")) {
        Err(e) => e,
        Ok(_) => panic!("fixture must be rejected"),
    }
}

#[test]
fn error_bad_signature() {
    assert_eq!(expect_err(vec![1, 2, 3]), Error::BadSignature);
    let mut data = build_file(&[], &[], None, None);
    data[0] = 0x58;
    assert_eq!(expect_err(data), Error::BadSignature);
}

#[test]
fn error_unsupported_version() {
    let mut data = build_file(&[], &[], None, None);
    data[4] = 2;
    assert_eq!(expect_err(data), Error::UnsupportedVersion(2));
}

#[test]
fn error_unsupported_hash_kind() {
    let mut data = build_file(&[], &[], None, None);
    data[5] = 3;
    assert_eq!(expect_err(data), Error::UnsupportedHashKind(3));
}

#[test]
fn error_truncated_chunk_table() {
    let mut data = build_file(&[], &[], None, None);
    data[6] = 200;
    assert_eq!(expect_err(data), Error::TruncatedChunkTable);
}

#[test]
fn error_bad_chunk_id() {
    let mut data = build_file(&[], &[], None, None);
    for i in 8..12 {
        data[i] = 0;
    }
    assert_eq!(expect_err(data), Error::BadChunkId);
}

#[test]
fn error_non_monotonic_chunks() {
    let mut data = build_file(&[], &[], None, None);
    for i in 12..20 {
        data[i] = 0;
    }
    assert_eq!(expect_err(data), Error::NonMonotonicChunks);
}

#[test]
fn error_duplicate_chunk() {
    let ids = [id20(0x01, 1)];
    let records = [(id20(0x20, 1), NO_PARENT, NO_PARENT, gen_time(1, 10))];
    let chunks = vec![
        (0x4F49_4446, fan_bytes(&ids)),
        (0x4F49_4446, fan_bytes(&ids)),
        (0x4F49_444C, oidl_bytes(&ids)),
        (0x4344_4154, cdat_bytes(&records)),
    ];
    assert_eq!(expect_err(build_raw(&chunks)), Error::DuplicateChunk(0x4F49_4446));
}

#[test]
fn error_missing_chunk() {
    let ids = [id20(0x01, 1)];
    let chunks = vec![(0x4F49_4446, fan_bytes(&ids)), (0x4F49_444C, oidl_bytes(&ids))];
    assert_eq!(expect_err(build_raw(&chunks)), Error::MissingChunk(0x4344_4154));
}

#[test]
fn error_fan_out_size_mismatch() {
    let ids = [id20(0x01, 1)];
    let records = [(id20(0x20, 1), NO_PARENT, NO_PARENT, gen_time(1, 10))];
    let mut fan = fan_bytes(&ids);
    fan.truncate(1020);
    let chunks = vec![
        (0x4F49_4446, fan),
        (0x4F49_444C, oidl_bytes(&ids)),
        (0x4344_4154, cdat_bytes(&records)),
    ];
    assert_eq!(expect_err(build_raw(&chunks)), Error::ChunkSizeMismatch(0x4F49_4446));
}

#[test]
fn error_id_lookup_size_mismatch() {
    let ids = [id20(0x01, 1)];
    let records = [(id20(0x20, 1), NO_PARENT, NO_PARENT, gen_time(1, 10))];
    let mut oidl = oidl_bytes(&ids);
    oidl.push(0);
    let chunks = vec![
        (0x4F49_4446, fan_bytes(&ids)),
        (0x4F49_444C, oidl),
        (0x4344_4154, cdat_bytes(&records)),
    ];
    assert_eq!(expect_err(build_raw(&chunks)), Error::ChunkSizeMismatch(0x4F49_444C));
}

#[test]
fn error_commit_data_size_mismatch() {
    let ids = [id20(0x01, 1)];
    let records = [(id20(0x20, 1), NO_PARENT, NO_PARENT, gen_time(1, 10))];
    let mut cdat = cdat_bytes(&records);
    cdat.pop();
    let chunks = vec![
        (0x4F49_4446, fan_bytes(&ids)),
        (0x4F49_444C, oidl_bytes(&ids)),
        (0x4344_4154, cdat),
    ];
    assert_eq!(expect_err(build_raw(&chunks)), Error::ChunkSizeMismatch(0x4344_4154));
}

#[test]
fn error_edge_chunk_size_mismatch() {
    let ids = [id20(0x01, 1)];
    let records = [(id20(0x20, 1), NO_PARENT, NO_PARENT, gen_time(1, 10))];
    let chunks = vec![
        (0x4F49_4446, fan_bytes(&ids)),
        (0x4F49_444C, oidl_bytes(&ids)),
        (0x4344_4154, cdat_bytes(&records)),
        (0x4544_4745, vec![0, 0, 0]),
    ];
    assert_eq!(expect_err(build_raw(&chunks)), Error::ChunkSizeMismatch(0x4544_4745));
}

#[test]
fn error_base_chunk_size_mismatch() {
    let ids = [id20(0x01, 1)];
    let records = [(id20(0x20, 1), NO_PARENT, NO_PARENT, gen_time(1, 10))];
    let chunks = vec![
        (0x4F49_4446, fan_bytes(&ids)),
        (0x4F49_444C, oidl_bytes(&ids)),
        (0x4344_4154, cdat_bytes(&records)),
        (0x4241_5345, vec![0; 21]),
    ];
    assert_eq!(expect_err(build_raw(&chunks)), Error::ChunkSizeMismatch(0x4241_5345));
}

#[test]
fn error_too_many_commits() {
    let ids = [id20(0x01, 1)];
    let records = [(id20(0x20, 1), NO_PARENT, NO_PARENT, gen_time(1, 10))];
    let mut fan = fan_bytes(&ids);
    let too_many = (MAX_COMMITS + 1).to_be_bytes();
    fan[1020..1024].copy_from_slice(&too_many);
    let chunks = vec![
        (0x4F49_4446, fan),
        (0x4F49_444C, oidl_bytes(&ids)),
        (0x4344_4154, cdat_bytes(&records)),
    ];
    assert_eq!(expect_err(build_raw(&chunks)), Error::TooManyCommits);
}

#[test]
fn error_fan_out_not_monotonic() {
    let ids = [id20(0x01, 1), id20(0x02, 2)];
    let records = [
        (id20(0x20, 1), NO_PARENT, NO_PARENT, gen_time(1, 10)),
        (id20(0x20, 2), NO_PARENT, NO_PARENT, gen_time(1, 11)),
    ];
    let mut fan = fan_bytes(&ids);
    fan[0..4].copy_from_slice(&9u32.to_be_bytes());
    let chunks = vec![
        (0x4F49_4446, fan),
        (0x4F49_444C, oidl_bytes(&ids)),
        (0x4344_4154, cdat_bytes(&records)),
    ];
    assert_eq!(expect_err(build_raw(&chunks)), Error::FanOutNotMonotonic);
}

#[test]
fn error_ids_not_sorted() {
    let ids = [id20(0x01, 2), id20(0x01, 1)];
    let records = [
        (id20(0x20, 1), NO_PARENT, NO_PARENT, gen_time(1, 10)),
        (id20(0x20, 2), NO_PARENT, NO_PARENT, gen_time(1, 11)),
    ];
    assert_eq!(expect_err(build_file(&ids, &records, None, None)), Error::IdsNotSorted);
}

#[test]
fn error_id_outside_bucket() {
    let ids = [id20(0x00, 1), id20(0x01, 2)];
    let records = [
        (id20(0x20, 1), NO_PARENT, NO_PARENT, gen_time(1, 10)),
        (id20(0x20, 2), NO_PARENT, NO_PARENT, gen_time(1, 11)),
    ];
    let mut fan = Vec::new();
    for _ in 0..256u32 {
        fan.extend_from_slice(&2u32.to_be_bytes());
    }
    let chunks = vec![
        (0x4F49_4446, fan),
        (0x4F49_444C, oidl_bytes(&ids)),
        (0x4344_4154, cdat_bytes(&records)),
    ];
    assert_eq!(expect_err(build_raw(&chunks)), Error::IdOutsideBucket(1));
}

#[test]
fn error_invalid_parent() {
    let ids = [id20(0x01, 1)];
    let records = [(id20(0x20, 1), NO_PARENT + 1, NO_PARENT, gen_time(1, 10))];
    assert_eq!(expect_err(build_file(&ids, &records, None, None)), Error::InvalidParent(0));
    let records2 = [(id20(0x20, 1), NO_PARENT, 0, gen_time(1, 10))];
    assert_eq!(expect_err(build_file(&ids, &records2, None, None)), Error::InvalidParent(0));
}

#[test]
fn error_invalid_edge_run() {
    let ids = [id20(0x01, 1), id20(0x02, 2)];
    let records = [
        (id20(0x20, 1), NO_PARENT, NO_PARENT, gen_time(1, 10)),
        (id20(0x20, 2), 0, EDGE_FLAG, gen_time(2, 11)),
    ];
    // No last-edge marker anywhere in the list.
    let edges = [0u32, 0];
    assert_eq!(
        expect_err(build_file(&ids, &records, Some(&edges), None)),
        Error::InvalidEdgeRun(1)
    );
    // Overflow with no extra-edge chunk at all.
    assert_eq!(expect_err(build_file(&ids, &records, None, None)), Error::InvalidEdgeRun(1));
}

#[test]
fn error_invalid_edge_value() {
    let ids = [id20(0x01, 1), id20(0x02, 2)];
    let records = [
        (id20(0x20, 1), NO_PARENT, NO_PARENT, gen_time(1, 10)),
        (id20(0x20, 2), 0, EDGE_FLAG, gen_time(2, 11)),
    ];
    let edges = [NO_PARENT, 0 | EDGE_FLAG];
    assert_eq!(
        expect_err(build_file(&ids, &records, Some(&edges), None)),
        Error::InvalidEdgeValue(0)
    );
}

#[test]
fn empty_file_parses() {
    let f = open(build_file(&[], &[], None, None));
    assert_eq!(f.num_commits(), 0);
    assert_eq!(f.lookup(&mk_id(id20(0x01, 1))), None);
    assert_eq!(f.iter_ids().len(), 0);
    assert_eq!(f.iter_commits().len(), 0);
}

#[test]
fn fan_out_entries_non_decreasing_and_last_is_count() {
    let f = scenario_a();
    for b in 0..255 {
        assert!(f.fan[b] <= f.fan[b + 1]);
    }
    assert_eq!(f.fan[255], f.num_commits());
    assert_eq!(f.fan[0], 1);
    assert_eq!(f.fan[254], 1);
}

#[test]
fn bucket_containment_for_every_id() {
    let f = scenario_a();
    for p in 0..f.num_commits() {
        let id = f.id_at(LexPosition(p));
        let b = id.first_byte() as usize;
        let lo = if b == 0 { 0 } else { f.fan[b - 1] };
        assert!(lo <= p && p < f.fan[b]);
    }
}
