use commitgraph::file::{Error, GraphFile, LexPosition};
use commitgraph::graph::{Graph, GraphPosition};
use commitgraph::id::Id;
use commitgraph::NO_PARENT;

const GEN: u64 = 0x4_0000_0000;

fn build_raw(chunks: &[(u32, Vec<u8>)]) -> Vec<u8> {
    let mut out = vec![0x43, 0x47, 0x50, 0x48, 1, 1, chunks.len() as u8, 0];
    let table_len = 12 * (chunks.len() + 1);
    let mut off = (8 + table_len) as u64;
    for (cid, data) in chunks {
        out.extend_from_slice(&cid.to_be_bytes());
        out.extend_from_slice(&off.to_be_bytes());
        off += data.len() as u64;
    }
    out.extend_from_slice(&0u32.to_be_bytes());
    out.extend_from_slice(&off.to_be_bytes());
    for (_, data) in chunks {
        out.extend_from_slice(data);
    }
    out
}

fn build_file(ids: &[[u8; 20]], records: &[([u8; 20], u32, u32, u64)]) -> Vec<u8> {
    let mut fan = Vec::new();
    for b in 0..256u32 {
        let cnt = ids.iter().filter(|id| (id[0] as u32) <= b).count() as u32;
        fan.extend_from_slice(&cnt.to_be_bytes());
    }
    let mut oidl = Vec::new();
    for id in ids {
        oidl.extend_from_slice(id);
    }
    let mut cdat = Vec::new();
    for (tree, p1, p2, gt) in records {
        cdat.extend_from_slice(tree);
        cdat.extend_from_slice(&p1.to_be_bytes());
        cdat.extend_from_slice(&p2.to_be_bytes());
        cdat.extend_from_slice(&gt.to_be_bytes());
    }
    build_raw(&[(0x4F49_4446, fan), (0x4F49_444C, oidl), (0x4344_4154, cdat)])
}

fn id20(first: u8, rest: u8) -> [u8; 20] {
    let mut id = [rest; 20];
    id[0] = first;
    id
}

fn gen_time(gen: u64, time: u64) -> u64 {
    gen * GEN + time
}

fn open(data: Vec<u8>, name: &str) -> GraphFile {
    GraphFile::new(data, String::from(name)).expect("fixture must parse")
}

fn mk_id(bytes: [u8; 20]) -> Id {
    Id::new(bytes.to_vec()).expect("20 bytes")
}

// A base file with two commits and an incremental file with one commit
// whose parents live in the base file: stored positions 0 and 1 fall below
// the newer file's start of 2.
fn two_file_chain() -> Graph {
    let base_ids = [id20(0x01, 1), id20(0x02, 2)];
    let base_records = [
        (id20(0x30, 1), NO_PARENT, NO_PARENT, gen_time(1, 10)),
        (id20(0x30, 2), 0, NO_PARENT, gen_time(2, 20)),
    ];
    let top_ids = [id20(0x03, 3)];
    let top_records = [(id20(0x30, 3), 1, 0, gen_time(3, 30))];
    let base = open(build_file(&base_ids, &base_records), "base");
    let top = open(build_file(&top_ids, &top_records), "top");
    Graph::new(vec![base, top]).expect("chain must build")
}

#[test]
fn scenario_c_parent_resolves_to_base_file() {
    let g = two_file_chain();
    let cc = g.commit_at(GraphPosition { file_index: 1, pos: LexPosition(0) });
    assert_eq!(cc.parents.len(), 2);
    assert_eq!(cc.parents[0].file_index, 0);
    assert_eq!(cc.parents[0].pos, LexPosition(1));
    assert_eq!(cc.parents[1].file_index, 0);
    assert_eq!(cc.parents[1].pos, LexPosition(0));
}

#[test]
fn chain_num_commits_sums_files() {
    let g = two_file_chain();
    assert_eq!(g.num_commits(), 3);
}

#[test]
fn chain_lookup_finds_each_file() {
    let g = two_file_chain();
    let in_base = g.lookup(&mk_id(id20(0x02, 2))).expect("present in base");
    assert_eq!(in_base.file_index, 0);
    assert_eq!(in_base.pos, LexPosition(1));
    let in_top = g.lookup(&mk_id(id20(0x03, 3))).expect("present in top");
    assert_eq!(in_top.file_index, 1);
    assert_eq!(in_top.pos, LexPosition(0));
    assert!(g.lookup(&mk_id(id20(0x07, 7))).is_none());
}

#[test]
fn chain_id_at_and_iter_ids() {
    let g = two_file_chain();
    let id = g.id_at(GraphPosition { file_index: 1, pos: LexPosition(0) });
    assert_eq!(id.as_bytes().as_slice(), &id20(0x03, 3));
    let ids = g.iter_ids();
    assert_eq!(ids.len(), 3);
    assert_eq!(ids[0].as_bytes().as_slice(), &id20(0x01, 1));
    assert_eq!(ids[1].as_bytes().as_slice(), &id20(0x02, 2));
    assert_eq!(ids[2].as_bytes().as_slice(), &id20(0x03, 3));
}

#[test]
fn chain_iter_commits_in_chain_order() {
    let g = two_file_chain();
    let ccs = g.iter_commits();
    assert_eq!(ccs.len(), 3);
    assert_eq!(ccs[0].generation, 1);
    assert_eq!(ccs[1].generation, 2);
    assert_eq!(ccs[2].generation, 3);
    assert_eq!(ccs[2].parents.len(), 2);
    assert_eq!(ccs[2].parents[0].file_index, 0);
}

#[test]
fn generation_monotonicity_holds_on_chain() {
    let g = two_file_chain();
    assert!(g.verify_generations());
}

#[test]
fn generation_monotonicity_fails_on_equal_generations() {
    let ids = [id20(0x01, 1), id20(0x02, 2)];
    let records = [
        (id20(0x30, 1), NO_PARENT, NO_PARENT, gen_time(2, 10)),
        (id20(0x30, 2), 0, NO_PARENT, gen_time(2, 20)),
    ];
    let f = open(build_file(&ids, &records), "flat");
    let g = Graph::new(vec![f]).expect("chain must build");
    assert!(!g.verify_generations());
}

#[test]
fn generation_monotonicity_fails_on_unknown_generation() {
    // A recorded generation of zero means "unknown"; strict monotonicity
    // cannot hold for such a file, and the checker reports that.
    let ids = [id20(0x01, 1), id20(0x02, 2)];
    let records = [
        (id20(0x30, 1), NO_PARENT, NO_PARENT, gen_time(0, 10)),
        (id20(0x30, 2), 0, NO_PARENT, gen_time(0, 20)),
    ];
    let f = open(build_file(&ids, &records), "flat");
    let g = Graph::new(vec![f]).expect("chain must build");
    assert!(!g.verify_generations());
}

#[test]
fn error_parent_out_of_chain() {
    let ids = [id20(0x01, 1)];
    let records = [(id20(0x30, 1), 5, NO_PARENT, gen_time(2, 10))];
    let f = open(build_file(&ids, &records), "flat");
    let err = match Graph::new(vec![f]) {
        Err(e) => e,
        Ok(_) => panic!("must reject"),
    };
    assert_eq!(err, Error::ParentOutOfChain(5));
}

#[test]
fn single_file_chain_translates_locally() {
    let ids = [id20(0x01, 1), id20(0x02, 2)];
    let records = [
        (id20(0x30, 1), NO_PARENT, NO_PARENT, gen_time(1, 10)),
        (id20(0x30, 2), 0, NO_PARENT, gen_time(2, 20)),
    ];
    let f = open(build_file(&ids, &records), "flat");
    let g = Graph::new(vec![f]).expect("chain must build");
    let cc = g.commit_at(GraphPosition { file_index: 0, pos: LexPosition(1) });
    assert_eq!(cc.parents.len(), 1);
    assert_eq!(cc.parents[0].file_index, 0);
    assert_eq!(cc.parents[0].pos, LexPosition(0));
    assert_eq!(cc.root_tree_id.as_bytes().as_slice(), &id20(0x30, 2));
    assert_eq!(cc.commit_time, 20);
}

#[test]
fn empty_chain() {
    let g = Graph::new(Vec::new()).expect("empty chain builds");
    assert_eq!(g.num_commits(), 0);
    assert!(g.lookup(&mk_id(id20(0x01, 1))).is_none());
    assert_eq!(g.iter_ids().len(), 0);
    assert_eq!(g.iter_commits().len(), 0);
    assert!(g.verify_generations());
}
