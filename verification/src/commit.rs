//! Decoding of one fixed-width commit record, including the overflow path
//! through the extra-edge list for commits with more than two parents.

use vstd::prelude::*;
use crate::bytes::{copy_range, read_u32_be, read_u64_be};
use crate::file::{edge_run, GraphFile, LexPosition, EDGE_FLAG, GENERATION_DIVISOR};
use crate::id::Id;
use crate::{COMMIT_DATA_ENTRY_SIZE, NO_PARENT, SHA1_SIZE};

verus! {

/// One decoded commit record.
///
/// `parents` holds the stored parent positions in record order: the first
/// parent, then either the direct second parent or the whole extra-edge run
/// the second-parent field redirected to.  In a chain these positions count
/// from the base of the chain; [`crate::graph::Graph`] turns them into
/// file-and-position pairs.
#[derive(Debug)]
pub struct CommitData {
    /// Root tree id of the commit.
    pub root_tree_id: Id,
    /// Stored parent positions, in record order.
    pub parents: Vec<u32>,
    /// Generation number; zero means "unknown, compute by walking parents".
    pub generation: u32,
    /// Commit time in seconds.
    pub commit_time: u64,
}

impl CommitData {
    /// Decodes the record at position `pos` of `file`.
    pub fn new(file: &GraphFile, pos: LexPosition) -> (r: CommitData)
        requires
            file.wf(),
            pos.0 < file.num_commits_spec(),
        ensures
            r.root_tree_id@ == file.tree_id_seq(pos.0 as int),
            r.root_tree_id.wf(),
            r.parents@ == file.parents_of(pos.0 as int),
            r.generation == file.generation_of(pos.0 as int),
            r.commit_time == file.commit_time_of(pos.0 as int),
    {
        let ghost p = pos.0 as int;
        let dlen: usize = file.data.len();
        let off = file.commit_data_offset + (pos.0 as usize) * COMMIT_DATA_ENTRY_SIZE;
        let root_tree_id = Id { bytes: copy_range(&file.data, off, SHA1_SIZE) };
        let parent1 = read_u32_be(&file.data, off + 20);
        let parent2 = read_u32_be(&file.data, off + 24);
        let packed = read_u64_be(&file.data, off + 28);
        let generation64 = packed / GENERATION_DIVISOR;
        proof {
            assert(generation64 < 0x1_0000_0000) by (nonlinear_arith)
                requires
                    generation64 == packed / GENERATION_DIVISOR,
                    packed <= 0xFFFF_FFFF_FFFF_FFFFu64,
                    GENERATION_DIVISOR == 0x4_0000_0000u64,
            ;
        }
        let generation = generation64 as u32;
        let commit_time = packed % GENERATION_DIVISOR;
        let mut parents: Vec<u32> = Vec::new();
        if parent1 != NO_PARENT {
            parents.push(parent1);
            if parent2 == NO_PARENT {
                // one parent only
            } else if parent2 >= EDGE_FLAG {
                let k = parent2 - EDGE_FLAG;
                proof {
                    assert(file.parent_fields_ok(p));
                }
                let run = file.extra_edge_run(k);
                let mut j: usize = 0;
                let runlen = run.len();
                while j < runlen
                    invariant
                        0 <= j <= runlen,
                        runlen == run@.len(),
                        parents@.len() == 1 + j,
                        parents@[0] == parent1,
                        forall|t: int| 0 <= t < j ==> parents@[1 + t] == run@[t],
                    decreases runlen - j,
                {
                    parents.push(run[j]);
                    j = j + 1;
                }
                proof {
                    assert(parents@ =~= seq![parent1] + run@);
                }
            } else {
                parents.push(parent2);
                proof {
                    assert(parents@ =~= seq![parent1, parent2]);
                }
            }
        }
        CommitData { root_tree_id, parents, generation, commit_time }
    }
}

impl GraphFile {
    /// Reads the extra-edge run starting at entry index `k`: every entry up
    /// to and including the one carrying the last-edge flag, flag cleared.
    pub fn extra_edge_run(&self, k: u32) -> (r: Vec<u32>)
        requires
            self.wf(),
            self.edge_run_ok(k as int),
        ensures
            r@ == edge_run(self.edges_seq(), k as int),
    {
        let (eoff, _elen) = match self.extra_edges {
            Some(t) => t,
            None => {
                proof {
                    assert(false);
                }
                (0, 0)
            },
        };
        let dlen: usize = self.data.len();
        let mut r: Vec<u32> = Vec::new();
        let mut j: usize = k as usize;
        let mut done = false;
        let ghost es = self.edges_seq();
        proof {
            assert(4 * self.edge_count() <= self.extra_edges.unwrap().1);
        }
        while !done
            invariant
                self.wf(),
                self.extra_edges == Some::<(usize, usize)>((eoff, _elen)),
                es == self.edges_seq(),
                dlen == self.data@.len(),
                done ==> r@ == edge_run(es, k as int),
                !done ==> k as int <= j < self.edge_count(),
                !done ==> exists|t: int| j <= t < self.edge_count() && es[t] >= EDGE_FLAG,
                !done ==> edge_run(es, k as int) == r@ + edge_run(es, j as int),
            decreases self.edge_count() - j + if done {
                0int
            } else {
                1int
            },
        {
            proof {
                assert(4 * (j as int) + 4 <= 4 * self.edge_count());
            }
            let e = read_u32_be(&self.data, eoff + 4 * j);
            assert(e == es[j as int]);
            if e >= EDGE_FLAG {
                r.push(e - EDGE_FLAG);
                done = true;
                proof {
                    assert(edge_run(es, j as int) =~= seq![(es[j as int] - EDGE_FLAG) as u32]);
                    assert(r@ =~= edge_run(es, k as int));
                }
            } else {
                r.push(e);
                proof {
                    let ghost t = choose|t: int|
                        j <= t < self.edge_count() && es[t] >= EDGE_FLAG;
                    assert(t != j);
                    assert(edge_run(es, j as int) =~= seq![es[j as int]] + edge_run(
                        es,
                        j as int + 1,
                    ));
                    assert(edge_run(es, k as int) =~= r@ + edge_run(es, j as int + 1));
                }
                j = j + 1;
            }
        }
        r
    }

    /// Returns the commit data for the commit located at the given position.
    pub fn commit_at(&self, pos: LexPosition) -> (r: CommitData)
        requires
            self.wf(),
            pos.0 < self.num_commits_spec(),
        ensures
            r.root_tree_id@ == self.tree_id_seq(pos.0 as int),
            r.root_tree_id.wf(),
            r.parents@ == self.parents_of(pos.0 as int),
            r.generation == self.generation_of(pos.0 as int),
            r.commit_time == self.commit_time_of(pos.0 as int),
    {
        CommitData::new(self, pos)
    }

    /// Returns the decoded records of this file in ascending position order.
    pub fn iter_commits(&self) -> (r: Vec<CommitData>)
        requires
            self.wf(),
        ensures
            r@.len() == self.num_commits_spec(),
            forall|p: int|
                0 <= p < r@.len() ==> {
                    &&& (#[trigger] r@[p]).root_tree_id@ == self.tree_id_seq(p)
                    &&& r@[p].parents@ == self.parents_of(p)
                    &&& r@[p].generation == self.generation_of(p)
                    &&& r@[p].commit_time == self.commit_time_of(p)
                },
    {
        let n = self.num_commits();
        let mut r: Vec<CommitData> = Vec::new();
        let mut i: u32 = 0;
        while i < n
            invariant
                self.wf(),
                n == self.num_commits_spec(),
                0 <= i <= n,
                r@.len() == i,
                forall|p: int|
                    0 <= p < i ==> {
                        &&& (#[trigger] r@[p]).root_tree_id@ == self.tree_id_seq(p)
                        &&& r@[p].parents@ == self.parents_of(p)
                        &&& r@[p].generation == self.generation_of(p)
                        &&& r@[p].commit_time == self.commit_time_of(p)
                    },
            decreases n - i,
        {
            r.push(self.commit_at(LexPosition(i)));
            i = i + 1;
        }
        r
    }

    /// Returns the byte slice for the given commit in this file's
    /// commit-data chunk.
    pub fn commit_data_bytes(&self, pos: LexPosition) -> (r: &[u8])
        requires
            self.wf(),
            pos.0 < self.num_commits_spec(),
        ensures
            r@ == self.data@.subrange(
                self.record_offset(pos.0 as int),
                self.record_offset(pos.0 as int) + COMMIT_DATA_ENTRY_SIZE,
            ),
    {
        let dlen: usize = self.data.len();
        let start = self.commit_data_offset + (pos.0 as usize) * COMMIT_DATA_ENTRY_SIZE;
        vstd::slice::slice_subrange(self.data.as_slice(), start, start + COMMIT_DATA_ENTRY_SIZE)
    }

    /// Returns the byte slice of this file's entire extra-edge chunk, or
    /// `None` when the chunk is absent.
    pub fn extra_edges_data(&self) -> (r: Option<&[u8]>)
        requires
            self.wf(),
        ensures
            match r {
                Some(s) => self.extra_edges is Some && s@ == self.data@.subrange(
                    self.extra_edges.unwrap().0 as int,
                    self.extra_edges.unwrap().0 + self.extra_edges.unwrap().1,
                ),
                None => self.extra_edges is None,
            },
    {
        let dlen: usize = self.data.len();
        match self.extra_edges {
            Some((off, len)) => Some(
                vstd::slice::slice_subrange(self.data.as_slice(), off, off + len),
            ),
            None => None,
        }
    }
}

} // verus!
