//! A chain of graph files presenting one logical id space: base layer
//! first, most recent incremental layer last.  Stored parent positions
//! count from the base of the chain; the chain resolves such a position to
//! the file that holds it.

use vstd::prelude::*;
use crate::file::{Error, GraphFile, LexPosition};
use crate::id::Id;
use crate::MAX_COMMITS;

verus! {

/// A position in the logical union of a chain of files: a file selector
/// plus a position local to that file.
#[derive(Clone, Copy, PartialEq, Eq, Structural, Debug)]
pub struct GraphPosition {
    /// Index of the file within the chain, base layer first.
    pub file_index: usize,
    /// Position local to that file.
    pub pos: LexPosition,
}

/// One decoded commit of a chain, every parent reference resolved into a
/// file-and-position pair.
#[derive(Debug)]
pub struct ChainCommit {
    /// Root tree id of the commit.
    pub root_tree_id: Id,
    /// Parents, in record order, as positions within the chain.
    pub parents: Vec<GraphPosition>,
    /// Generation number; zero means "unknown".
    pub generation: u32,
    /// Commit time in seconds.
    pub commit_time: u64,
}

/// Number of commits held by the first `k` files together.
pub open spec fn chain_total(files: Seq<GraphFile>, k: int) -> int
    decreases k,
{
    if k <= 0 {
        0
    } else {
        chain_total(files, k - 1) + files[k - 1].num_commits_spec()
    }
}

/// A sequence of files forms a usable chain: the total count is
/// addressable and every stored parent position stays within its own file
/// or an earlier one.
pub open spec fn chain_ok(files: Seq<GraphFile>) -> bool {
    &&& chain_total(files, files.len() as int) <= MAX_COMMITS
    &&& forall|k: int, p: int, j: int|
        (0 <= k < files.len() && 0 <= p < files[k].num_commits_spec() && 0 <= j
            < files[k].parents_of(p).len()) ==> (((#[trigger] files[k].parents_of(p)[j]) as int) < chain_total(
            files,
            k + 1,
        ))
}

/// Partial sums only grow along the chain.
pub proof fn lemma_chain_total_monotone(files: Seq<GraphFile>, k1: int, k2: int)
    requires
        0 <= k1 <= k2,
        forall|k: int| 0 <= k < files.len() ==> (#[trigger] files[k]).wf(),
        k2 <= files.len(),
    ensures
        chain_total(files, k1) <= chain_total(files, k2),
    decreases k2 - k1,
{
    if k1 < k2 {
        lemma_chain_total_monotone(files, k1, k2 - 1);
        assert(files[k2 - 1].wf());
        assert(files[k2 - 1].num_commits_spec() >= 0);
    }
}

/// An ordered sequence of validated graph files and the running total of
/// commits before each, presenting one logical graph.
#[derive(Debug)]
pub struct Graph {
    /// The files, base layer first.
    pub files: Vec<GraphFile>,
    /// For each file, how many commits the earlier files hold together.
    pub starts: Vec<u32>,
}

impl Graph {
    /// Number of files in the chain.
    pub open spec fn num_files(self) -> int {
        self.files@.len() as int
    }

    /// Commits held by files before file `k`.
    pub open spec fn start_of(self, k: int) -> int {
        self.starts@[k] as int
    }

    /// Commits held by file `k` itself.
    pub open spec fn file_n(self, k: int) -> int {
        self.files@[k].num_commits_spec()
    }

    /// Total commits of the whole chain.
    pub open spec fn total_spec(self) -> int {
        chain_total(self.files@, self.num_files())
    }

    /// Chain position `s` denotes local position `local` of file `k`.
    pub open spec fn is_slot(self, s: int, k: int, local: int) -> bool {
        &&& 0 <= k < self.num_files()
        &&& self.start_of(k) <= s < self.start_of(k) + self.file_n(k)
        &&& local == s - self.start_of(k)
    }

    /// Well-formedness: every file is well formed, the running totals are
    /// the partial sums, the whole chain is addressable, and every stored
    /// parent position stays within its own file or an earlier one.
    pub open spec fn wf(self) -> bool {
        &&& forall|k: int| 0 <= k < self.num_files() ==> (#[trigger] self.files@[k]).wf()
        &&& self.starts@.len() == self.files@.len()
        &&& forall|k: int|
            0 <= k < self.num_files() ==> #[trigger] self.starts@[k] == chain_total(self.files@, k)
        &&& chain_ok(self.files@)
    }

    /// A chain position lies in exactly one file.
    pub proof fn lemma_slot_unique(self, s: int, k1: int, l1: int, k2: int, l2: int)
        requires
            self.wf(),
            self.is_slot(s, k1, l1),
            self.is_slot(s, k2, l2),
        ensures
            k1 == k2,
            l1 == l2,
    {
        if k1 < k2 {
            lemma_chain_total_monotone(self.files@, k1 + 1, k2);
        }
        if k2 < k1 {
            lemma_chain_total_monotone(self.files@, k2 + 1, k1);
        }
    }

    /// Builds a chain from validated files, base layer first.
    ///
    /// Rejects a chain whose total commit count cannot be addressed, and
    /// one in which any stored parent position points past its own file
    /// and every earlier file.
    pub fn new(files: Vec<GraphFile>) -> (r: Result<Graph, Error>)
        requires
            forall|k: int| 0 <= k < files@.len() ==> (#[trigger] files@[k]).wf(),
        ensures
            match r {
                Ok(g) => {
                    &&& g.wf()
                    &&& g.files@ == files@
                },
                Err(_) => !chain_ok(files@),
            },
    {
        let nf: usize = files.len();
        let mut starts: Vec<u32> = Vec::new();
        let mut total: u64 = 0;
        let mut k: usize = 0;
        while k < nf
            invariant
                forall|t: int| 0 <= t < files@.len() ==> (#[trigger] files@[t]).wf(),
                nf == files@.len(),
                0 <= k <= nf,
                starts@.len() == k,
                total == chain_total(files@, k as int),
                total <= MAX_COMMITS,
                forall|t: int| 0 <= t < k ==> #[trigger] starts@[t] == chain_total(files@, t),
            decreases nf - k,
        {
            proof {
                assert(files@[k as int].wf());
            }
            starts.push(total as u32);
            let n = files[k].num_commits();
            let next = total + (n as u64);
            if next > MAX_COMMITS as u64 {
                proof {
                    lemma_chain_total_monotone(files@, k as int + 1, files@.len() as int);
                    assert(!chain_ok(files@));
                }
                return Err(Error::ChainTooLong);
            }
            total = next;
            k = k + 1;
        }
        let g = Graph { files, starts };
        // Every stored parent must stay within its own file or an earlier
        // one of the chain.
        let mut k2: usize = 0;
        while k2 < nf
            invariant
                g.files@ == files@,
                forall|t: int| 0 <= t < g.files@.len() ==> (#[trigger] g.files@[t]).wf(),
                nf == g.files@.len(),
                g.starts@.len() == nf,
                forall|t: int|
                    0 <= t < nf ==> #[trigger] g.starts@[t] == chain_total(g.files@, t),
                chain_total(g.files@, nf as int) <= MAX_COMMITS,
                0 <= k2 <= nf,
                forall|t: int, p: int, j: int|
                    (0 <= t < k2 && 0 <= p < g.files@[t].num_commits_spec() && 0 <= j
                        < g.files@[t].parents_of(p).len()) ==> (((#[trigger] g.files@[t].parents_of(p)[j]) as int)
                        < chain_total(g.files@, t + 1)),
            decreases nf - k2,
        {
            proof {
                assert(g.files@[k2 as int].wf());
                lemma_chain_total_monotone(g.files@, k2 as int + 1, nf as int);
            }
            let n = g.files[k2].num_commits();
            let limit: u32 = g.starts[k2] + n;
            let mut p: u32 = 0;
            while p < n
                invariant
                    g.files@ == files@,
                    forall|t: int| 0 <= t < g.files@.len() ==> (#[trigger] g.files@[t]).wf(),
                    nf == g.files@.len(),
                    k2 < nf,
                    n == g.files@[k2 as int].num_commits_spec(),
                    limit == chain_total(g.files@, k2 as int + 1),
                    0 <= p <= n,
                    forall|q: int, j: int|
                        (0 <= q < p && 0 <= j < g.files@[k2 as int].parents_of(q).len()) ==> (((
                        #[trigger] g.files@[k2 as int].parents_of(q)[j]) as int) < chain_total(
                            g.files@,
                            k2 as int + 1,
                        )),
                decreases n - p,
            {
                proof {
                    assert(g.files@[k2 as int].wf());
                }
                let cd = g.files[k2].commit_at(LexPosition(p));
                let np = cd.parents.len();
                let mut j: usize = 0;
                while j < np
                    invariant
                        g.files@ == files@,
                        g.files@[k2 as int].wf(),
                        k2 < g.files@.len(),
                        p < g.files@[k2 as int].num_commits_spec(),
                        cd.parents@ == g.files@[k2 as int].parents_of(p as int),
                        np == cd.parents@.len(),
                        limit == chain_total(g.files@, k2 as int + 1),
                        0 <= j <= np,
                        forall|t: int|
                            0 <= t < j ==> (#[trigger] cd.parents@[t]) < limit,
                    decreases np - j,
                {
                    if cd.parents[j] >= limit {
                        proof {
                            assert(!chain_ok(g.files@));
                        }
                        return Err(Error::ParentOutOfChain(cd.parents[j]));
                    }
                    j = j + 1;
                }
                p = p + 1;
            }
            k2 = k2 + 1;
        }
        Ok(g)
    }

    /// Returns the total number of commits of the chain.
    pub fn num_commits(&self) -> (r: u32)
        requires
            self.wf(),
        ensures
            r == self.total_spec(),
    {
        let nf = self.files.len();
        if nf == 0 {
            return 0;
        }
        proof {
            assert(self.files@[nf - 1].wf());
            lemma_chain_total_monotone(self.files@, nf as int, nf as int);
        }
        self.starts[nf - 1] + self.files[nf - 1].num_commits()
    }

    /// Translates a chain position into the file that holds it.
    pub fn position_of(&self, s: u32) -> (r: GraphPosition)
        requires
            self.wf(),
            (s as int) < self.total_spec(),
        ensures
            self.is_slot(s as int, r.file_index as int, r.pos.0 as int),
    {
        let nf = self.files.len();
        let mut k: usize = 0;
        loop
            invariant
                self.wf(),
                (s as int) < self.total_spec(),
                nf == self.files@.len(),
                0 <= k <= nf,
                (s as int) >= chain_total(self.files@, k as int),
            decreases nf - k,
        {
            if k >= nf {
                proof {
                    assert(false);
                }
                return GraphPosition { file_index: 0, pos: LexPosition(0) };
            }
            proof {
                assert(self.files@[k as int].wf());
                lemma_chain_total_monotone(self.files@, k as int + 1, nf as int);
            }
            let n = self.files[k].num_commits();
            let start = self.starts[k];
            if s < start + n {
                return GraphPosition { file_index: k, pos: LexPosition(s - start) };
            }
            k = k + 1;
        }
    }

    /// Looks an id up across the chain, most recent layer first; `Some`
    /// exactly when some file holds the id, and then in the newest such
    /// file, at its position there.
    pub fn lookup(&self, id: &Id) -> (r: Option<GraphPosition>)
        requires
            self.wf(),
            id.wf(),
        ensures
            match r {
                Some(gp) => {
                    &&& gp.file_index < self.num_files()
                    &&& (gp.pos.0 as int) < self.file_n(gp.file_index as int)
                    &&& self.files@[gp.file_index as int].id_seq(gp.pos.0 as int) == id@
                    &&& forall|k: int, q: int|
                        gp.file_index < k < self.num_files() && 0 <= q < self.file_n(k)
                            ==> #[trigger] self.files@[k].id_seq(q) != id@
                },
                None => forall|k: int, q: int|
                    0 <= k < self.num_files() && 0 <= q < self.file_n(k)
                        ==> #[trigger] self.files@[k].id_seq(q) != id@,
            },
    {
        let nf = self.files.len();
        let mut k: usize = nf;
        while k > 0
            invariant
                self.wf(),
                id.wf(),
                nf == self.files@.len(),
                0 <= k <= nf,
                forall|t: int, q: int|
                    k <= t < nf && 0 <= q < self.file_n(t) ==> #[trigger] self.files@[t].id_seq(q)
                        != id@,
            decreases k,
        {
            k = k - 1;
            proof {
                assert(self.files@[k as int].wf());
            }
            match self.files[k].lookup(id) {
                Some(pos) => {
                    return Some(GraphPosition { file_index: k, pos });
                },
                None => {},
            }
        }
        None
    }

    /// What the decoded commit at local position `q` of file `k` must look
    /// like: the file's record, every parent resolved to its slot.
    pub open spec fn chain_commit_matches(self, k: int, q: int, cc: ChainCommit) -> bool {
        &&& cc.root_tree_id@ == self.files@[k].tree_id_seq(q)
        &&& cc.generation == self.files@[k].generation_of(q)
        &&& cc.commit_time == self.files@[k].commit_time_of(q)
        &&& cc.parents@.len() == self.files@[k].parents_of(q).len()
        &&& forall|j: int|
            0 <= j < cc.parents@.len() ==> self.is_slot(
                self.files@[k].parents_of(q)[j] as int,
                (#[trigger] cc.parents@[j]).file_index as int,
                cc.parents@[j].pos.0 as int,
            )
    }

    /// Returns the commit at a chain position, parents resolved into
    /// file-and-position pairs; a parent of a commit in an incremental
    /// layer may resolve to an earlier file of the chain.
    pub fn commit_at(&self, gp: GraphPosition) -> (r: ChainCommit)
        requires
            self.wf(),
            (gp.file_index as int) < self.num_files(),
            (gp.pos.0 as int) < self.file_n(gp.file_index as int),
        ensures
            self.chain_commit_matches(gp.file_index as int, gp.pos.0 as int, r),
    {
        let k = gp.file_index;
        proof {
            assert(self.files@[k as int].wf());
            lemma_chain_total_monotone(self.files@, k as int + 1, self.num_files());
        }
        let cd = self.files[k].commit_at(gp.pos);
        let np = cd.parents.len();
        let mut parents: Vec<GraphPosition> = Vec::new();
        let mut j: usize = 0;
        while j < np
            invariant
                self.wf(),
                (k as int) < self.num_files(),
                (gp.pos.0 as int) < self.file_n(k as int),
                cd.parents@ == self.files@[k as int].parents_of(gp.pos.0 as int),
                np == cd.parents@.len(),
                chain_total(self.files@, k as int + 1) <= self.total_spec(),
                0 <= j <= np,
                parents@.len() == j,
                forall|t: int|
                    0 <= t < j ==> self.is_slot(
                        cd.parents@[t] as int,
                        (#[trigger] parents@[t]).file_index as int,
                        parents@[t].pos.0 as int,
                    ),
            decreases np - j,
        {
            let s = cd.parents[j];
            proof {
                assert((s as int) < chain_total(self.files@, k as int + 1));
            }
            let slot = self.position_of(s);
            parents.push(slot);
            j = j + 1;
        }
        ChainCommit {
            root_tree_id: cd.root_tree_id,
            parents,
            generation: cd.generation,
            commit_time: cd.commit_time,
        }
    }

    /// The file and local position that hold chain position `s`.
    pub open spec fn slot_of(self, s: int) -> (int, int) {
        choose|kq: (int, int)| self.is_slot(s, kq.0, kq.1)
    }

    /// The generation number recorded at chain position `s`.
    pub open spec fn generation_at(self, s: int) -> u32 {
        self.files@[self.slot_of(s).0].generation_of(self.slot_of(s).1)
    }

    /// Where a chain position lies in some file, `slot_of` names that file.
    pub proof fn lemma_slot_of(self, s: int, k: int, q: int)
        requires
            self.wf(),
            self.is_slot(s, k, q),
        ensures
            self.slot_of(s) == (k, q),
            self.generation_at(s) == self.files@[k].generation_of(q),
    {
        assert(self.is_slot(s, self.slot_of(s).0, self.slot_of(s).1)) by {
            assert(self.is_slot(s, ((k, q)).0, ((k, q)).1));
        }
        self.lemma_slot_unique(s, k, q, self.slot_of(s).0, self.slot_of(s).1);
    }

    /// Every recorded generation number is strictly greater than the
    /// generation recorded for each of the commit's stored parents.
    pub open spec fn generations_monotone(self) -> bool {
        forall|k: int, p: int, j: int|
            (0 <= k < self.num_files() && 0 <= p < self.file_n(k) && 0 <= j
                < self.files@[k].parents_of(p).len()) ==> self.generation_at(
                (#[trigger] self.files@[k].parents_of(p)[j]) as int,
            ) < self.files@[k].generation_of(p)
    }

    /// Generation monotonicity: in a chain that `verify_generations`
    /// accepts, the parent at any stored parent reference carries a
    /// generation strictly below its child's.
    pub proof fn lemma_generation_monotonic(
        &self,
        k: int,
        p: int,
        j: int,
        k2: int,
        q2: int,
    )
        requires
            self.wf(),
            self.generations_monotone(),
            0 <= k < self.num_files(),
            0 <= p < self.file_n(k),
            0 <= j < self.files@[k].parents_of(p).len(),
            self.is_slot(self.files@[k].parents_of(p)[j] as int, k2, q2),
        ensures
            self.files@[k2].generation_of(q2) < self.files@[k].generation_of(p),
    {
        self.lemma_slot_of(self.files@[k].parents_of(p)[j] as int, k2, q2);
    }

    /// Checks that every commit's generation number is strictly greater
    /// than each of its parents'.
    ///
    /// The file format does not force this, and a recorded generation of
    /// zero means "unknown", so a chain may fail this check and still be
    /// readable; history search may then not rely on generation numbers.
    pub fn verify_generations(&self) -> (r: bool)
        requires
            self.wf(),
        ensures
            r == self.generations_monotone(),
    {
        let nf = self.files.len();
        let mut k: usize = 0;
        while k < nf
            invariant
                self.wf(),
                nf == self.files@.len(),
                0 <= k <= nf,
                forall|t: int, p: int, j: int|
                    (0 <= t < k && 0 <= p < self.file_n(t) && 0 <= j
                        < self.files@[t].parents_of(p).len()) ==> self.generation_at(
                        (#[trigger] self.files@[t].parents_of(p)[j]) as int,
                    ) < self.files@[t].generation_of(p),
            decreases nf - k,
        {
            proof {
                assert(self.files@[k as int].wf());
            }
            let n = self.files[k].num_commits();
            let mut p: u32 = 0;
            while p < n
                invariant
                    self.wf(),
                    nf == self.files@.len(),
                    k < nf,
                    n == self.file_n(k as int),
                    0 <= p <= n,
                    forall|t: int, q: int, j: int|
                        (0 <= t < k && 0 <= q < self.file_n(t) && 0 <= j
                            < self.files@[t].parents_of(q).len()) ==> self.generation_at(
                            (#[trigger] self.files@[t].parents_of(q)[j]) as int,
                        ) < self.files@[t].generation_of(q),
                    forall|q: int, j: int|
                        (0 <= q < p && 0 <= j < self.files@[k as int].parents_of(q).len())
                            ==> self.generation_at(
                            (#[trigger] self.files@[k as int].parents_of(q)[j]) as int,
                        ) < self.files@[k as int].generation_of(q),
                decreases n - p,
            {
                let gp = GraphPosition { file_index: k, pos: LexPosition(p) };
                let cc = self.commit_at(gp);
                let np = cc.parents.len();
                let mut j: usize = 0;
                while j < np
                    invariant
                        self.wf(),
                        k < self.files@.len(),
                        p < self.file_n(k as int),
                        self.chain_commit_matches(k as int, p as int, cc),
                        np == cc.parents@.len(),
                        0 <= j <= np,
                        forall|t: int|
                            0 <= t < j ==> self.generation_at(
                                (#[trigger] self.files@[k as int].parents_of(p as int)[t]) as int,
                            ) < self.files@[k as int].generation_of(p as int),
                    decreases np - j,
                {
                    let slot = cc.parents[j];
                    proof {
                        assert(self.is_slot(
                            self.files@[k as int].parents_of(p as int)[j as int] as int,
                            slot.file_index as int,
                            slot.pos.0 as int,
                        ));
                        assert(self.files@[slot.file_index as int].wf());
                    }
                    let pc = self.files[slot.file_index].commit_at(slot.pos);
                    proof {
                        self.lemma_slot_of(
                            self.files@[k as int].parents_of(p as int)[j as int] as int,
                            slot.file_index as int,
                            slot.pos.0 as int,
                        );
                    }
                    if pc.generation >= cc.generation {
                        return false;
                    }
                    j = j + 1;
                }
                p = p + 1;
            }
            k = k + 1;
        }
        true
    }

    /// Returns the id at a chain position.
    pub fn id_at(&self, gp: GraphPosition) -> (r: Id)
        requires
            self.wf(),
            (gp.file_index as int) < self.num_files(),
            (gp.pos.0 as int) < self.file_n(gp.file_index as int),
        ensures
            r@ == self.files@[gp.file_index as int].id_seq(gp.pos.0 as int),
            r.wf(),
    {
        proof {
            assert(self.files@[gp.file_index as int].wf());
        }
        self.files[gp.file_index].id_at(gp.pos)
    }

    /// Returns the ids of the whole chain, file by file in chain order,
    /// each file's ids in ascending position order.
    pub fn iter_ids(&self) -> (r: Vec<Id>)
        requires
            self.wf(),
        ensures
            r@.len() == self.total_spec(),
            forall|k: int, q: int|
                0 <= k < self.num_files() && 0 <= q < self.file_n(k)
                    ==> (#[trigger] r@[self.start_of(k) + q])@ == self.files@[k].id_seq(q),
    {
        let nf = self.files.len();
        let mut r: Vec<Id> = Vec::new();
        let mut k: usize = 0;
        while k < nf
            invariant
                self.wf(),
                nf == self.files@.len(),
                0 <= k <= nf,
                r@.len() == chain_total(self.files@, k as int),
                forall|t: int, q: int|
                    0 <= t < k && 0 <= q < self.file_n(t)
                        ==> (#[trigger] r@[self.start_of(t) + q])@ == self.files@[t].id_seq(q),
            decreases nf - k,
        {
            proof {
                assert(self.files@[k as int].wf());
                lemma_chain_total_monotone(self.files@, k as int + 1, nf as int);
            }
            let n = self.files[k].num_commits();
            let mut q: u32 = 0;
            while q < n
                invariant
                    self.wf(),
                    nf == self.files@.len(),
                    k < nf,
                    n == self.file_n(k as int),
                    0 <= q <= n,
                    r@.len() == chain_total(self.files@, k as int) + q,
                    chain_total(self.files@, k as int) + n <= MAX_COMMITS,
                    forall|t: int, u: int|
                        0 <= t < k && 0 <= u < self.file_n(t)
                            ==> (#[trigger] r@[self.start_of(t) + u])@ == self.files@[t].id_seq(u),
                    forall|u: int|
                        0 <= u < q ==> (#[trigger] r@[self.start_of(k as int) + u])@
                            == self.files@[k as int].id_seq(u),
                decreases n - q,
            {
                proof {
                    assert(self.files@[k as int].wf());
                }
                let ghost pre = r@;
                let idv = self.files[k].id_at(LexPosition(q));
                r.push(idv);
                proof {
                    assert(self.start_of(k as int) + q == pre.len());
                    assert forall|t: int, u: int|
                        0 <= t < k && 0 <= u < self.file_n(t) implies (#[trigger] r@[self.start_of(
                            t,
                        ) + u])@ == self.files@[t].id_seq(u) by {
                        lemma_chain_total_monotone(self.files@, t + 1, k as int);
                        assert(self.start_of(t) + u < pre.len());
                        assert(pre[self.start_of(t) + u]@ == self.files@[t].id_seq(u));
                    }
                }
                q = q + 1;
            }
            k = k + 1;
        }
        r
    }

    /// Returns the decoded commits of the whole chain, file by file in
    /// chain order, parents resolved into file-and-position pairs.
    pub fn iter_commits(&self) -> (r: Vec<ChainCommit>)
        requires
            self.wf(),
        ensures
            r@.len() == self.total_spec(),
            forall|k: int, q: int|
                0 <= k < self.num_files() && 0 <= q < self.file_n(k)
                    ==> self.chain_commit_matches(k, q, #[trigger] r@[self.start_of(k) + q]),
    {
        let nf = self.files.len();
        let mut r: Vec<ChainCommit> = Vec::new();
        let mut k: usize = 0;
        while k < nf
            invariant
                self.wf(),
                nf == self.files@.len(),
                0 <= k <= nf,
                r@.len() == chain_total(self.files@, k as int),
                forall|t: int, q: int|
                    0 <= t < k && 0 <= q < self.file_n(t) ==> self.chain_commit_matches(
                        t,
                        q,
                        #[trigger] r@[self.start_of(t) + q],
                    ),
            decreases nf - k,
        {
            proof {
                assert(self.files@[k as int].wf());
                lemma_chain_total_monotone(self.files@, k as int + 1, nf as int);
            }
            let n = self.files[k].num_commits();
            let mut q: u32 = 0;
            while q < n
                invariant
                    self.wf(),
                    nf == self.files@.len(),
                    k < nf,
                    n == self.file_n(k as int),
                    0 <= q <= n,
                    r@.len() == chain_total(self.files@, k as int) + q,
                    chain_total(self.files@, k as int) + n <= MAX_COMMITS,
                    forall|t: int, u: int|
                        0 <= t < k && 0 <= u < self.file_n(t) ==> self.chain_commit_matches(
                            t,
                            u,
                            #[trigger] r@[self.start_of(t) + u],
                        ),
                    forall|u: int|
                        0 <= u < q ==> self.chain_commit_matches(
                            k as int,
                            u,
                            #[trigger] r@[self.start_of(k as int) + u],
                        ),
                decreases n - q,
            {
                let ghost pre = r@;
                let cc = self.commit_at(GraphPosition { file_index: k, pos: LexPosition(q) });
                r.push(cc);
                proof {
                    assert(self.start_of(k as int) + q == pre.len());
                    assert forall|t: int, u: int|
                        0 <= t < k && 0 <= u < self.file_n(t) implies self.chain_commit_matches(
                            t,
                            u,
                            #[trigger] r@[self.start_of(t) + u],
                        ) by {
                        lemma_chain_total_monotone(self.files@, t + 1, k as int);
                        assert(self.start_of(t) + u < pre.len());
                        assert(self.chain_commit_matches(t, u, pre[self.start_of(t) + u]));
                    }
                }
                q = q + 1;
            }
            k = k + 1;
        }
        r
    }
}

} // verus!
