//! Merging: the best common ancestors of two commits, and the three-way merge of their
//! trees into the index and working tree.
use crate::bytemap::{keys_sorted, ByteMap};
use crate::bytes::{append_bytes, copy_bytes, is_path_under, is_prefix, path_under, slice_to_vec, starts_with, u64_to_dec};
use crate::checkout::CheckoutOpts;
use crate::diff::WorkspaceStatus;
use crate::error::{BitError, BitResult};
use crate::hash::{bytes_eq, Oid, SHA1Hash};
use crate::index::{index_key, BitIndexEntry, BitIndexInner, Conflict, MergeStage};
use crate::obj::{obj_oid, BitObjKind, Blob, Commit, FileMode, ObjView, TreeEntry};
use crate::repo::{BitRef, BitRepo, RefView, WorktreeFile};
use crate::tree::{flat_keys_ok, odb_extends};
use crate::ancestry::{best_common_ancestor, distinct_ids, is_commit, only_best_common_ancestor, waiting};
use vstd::prelude::*;

verus! {

/// The commit was reached from the first commit.
pub const PARENT1: u8 = 1;
/// The commit was reached from the second commit.
pub const PARENT2: u8 = 2;
/// The commit is a candidate.
pub const RESULT: u8 = 4;
/// The commit is an ancestor of a candidate.
pub const STALE: u8 = 8;

/// The largest number of steps the search for merge bases takes.
pub const MERGE_BASE_STEPS: u64 = 1000000;

/// A commit waiting in the queue of the search: later commits first, then those queued
/// earlier.
#[derive(Debug, Clone, Copy)]
pub struct CommitNode {
    pub oid: Oid,
    pub time: u64,
    pub index: u64,
}

/// The flags of the commit `oid` (none when it was not reached).
pub open spec fn flag_bits(flags: Map<Seq<u8>, u8>, oid: Seq<u8>) -> u8 {
    if flags.contains_key(oid) {
        flags[oid]
    } else {
        0u8
    }
}

/// Setting more flags keeps a flag that was set.
proof fn lemma_bits_kept(x: u8, add: u8, bit: u8)
    requires
        x & bit != 0 || add & bit != 0,
    ensures
        (x | add) & bit != 0,
{
    assert((x & bit != 0 || add & bit != 0) ==> (x | add) & bit != 0) by (bit_vector);
}

/// Adding flags to a commit keeps the flags already set on every commit.
proof fn lemma_flag_kept(flags: Map<Seq<u8>, u8>, k: Seq<u8>, add: u8, c: Seq<u8>, bit: u8)
    requires
        flag_bits(flags, c) & bit != 0,
    ensures
        flag_bits(flags.insert(k, flag_bits(flags, k) | add), c) & bit != 0,
{
    if k == c {
        lemma_bits_kept(flag_bits(flags, c), add, bit);
    }
}

/// `a` comes out of the queue before `b`.
pub open spec fn node_before(a: CommitNode, b: CommitNode) -> bool {
    a.time > b.time || (a.time == b.time && a.index < b.index)
}

/// The state of the search for the best common ancestors of two commits.
pub struct MergeBaseCtxt {
    candidates: Vec<Oid>,
    pqueue: Vec<CommitNode>,
    node_flags: ByteMap<u8>,
    index: u64,
}

/// The commits are stored in the object store.
pub open spec fn all_commits(odb: Map<Seq<u8>, BitObjKind>, s: Seq<Oid>) -> bool {
    forall|j: int| 0 <= j < s.len() ==> odb.contains_key(#[trigger] s[j]@) && odb[s[j]@] is Commit
}

/// `p` is a parent of the commit `c`.
pub open spec fn parent_of(odb: Map<Seq<u8>, BitObjKind>, c: Seq<u8>, p: Seq<u8>) -> bool {
    &&& odb.contains_key(c)
    &&& odb[c] is Commit
    &&& exists|k: int| 0 <= k < odb[c]->Commit_0.parents@.len() && (#[trigger] odb[c]->Commit_0.parents@[k])@ == p
}

/// Following parents, the commit `from` leads to `to` (in no steps when they are the same).
pub open spec fn reaches(odb: Map<Seq<u8>, BitObjKind>, from: Seq<u8>, to: Seq<u8>) -> bool {
    exists|path: Seq<Seq<u8>>| #[trigger] is_parent_path(odb, path) && path.len() >= 1 && path[0] == from && path.last() == to
}

/// Each commit of `path` after the first is a parent of the one before it.
pub open spec fn is_parent_path(odb: Map<Seq<u8>, BitObjKind>, path: Seq<Seq<u8>>) -> bool {
    forall|i: int| 0 <= i < path.len() - 1 ==> parent_of(odb, #[trigger] path[i], path[i + 1])
}

/// Every commit reaches itself.
pub proof fn lemma_reaches_self(odb: Map<Seq<u8>, BitObjKind>, c: Seq<u8>)
    ensures
        reaches(odb, c, c),
{
    let path = seq![c];
    assert(is_parent_path(odb, path));
}

/// What a commit reaches, its parents reach too.
pub proof fn lemma_reaches_parent(odb: Map<Seq<u8>, BitObjKind>, from: Seq<u8>, c: Seq<u8>, p: Seq<u8>)
    requires
        reaches(odb, from, c),
        parent_of(odb, c, p),
    ensures
        reaches(odb, from, p),
{
    let path = choose|path: Seq<Seq<u8>>| #[trigger] is_parent_path(odb, path) && path.len() >= 1 && path[0] == from && path.last() == c;
    let path2 = path.push(p);
    assert forall|i: int| 0 <= i < path2.len() - 1 implies parent_of(odb, #[trigger] path2[i], path2[i + 1]) by {
        if i < path.len() - 1 {
            assert(path2[i] == path[i] && path2[i + 1] == path[i + 1]);
        }
    }
    assert(is_parent_path(odb, path2));
}

/// The flags of the search tell where a commit was reached from: `PARENT1` only for commits
/// that `a` reaches, `PARENT2` only for commits that `b` reaches.
pub open spec fn flags_sound(odb: Map<Seq<u8>, BitObjKind>, a: Seq<u8>, b: Seq<u8>, flags: Map<Seq<u8>, u8>) -> bool {
    forall|k: Seq<u8>| #[trigger] flags.contains_key(k) ==> (flags[k] & PARENT1 != 0 ==> reaches(odb, a, k)) && (flags[k]
        & PARENT2 != 0 ==> reaches(odb, b, k))
}

/// Each of the commits is reached from both `a` and `b`.
pub open spec fn common_ancestors(odb: Map<Seq<u8>, BitObjKind>, a: Seq<u8>, b: Seq<u8>, s: Seq<Oid>) -> bool {
    forall|j: int| 0 <= j < s.len() ==> reaches(odb, a, #[trigger] s[j]@) && reaches(odb, b, s[j]@)
}

/// `c` can serve as a merge base of `a` and `b` (commits of `odb0`): a common ancestor, or a
/// commit of `odb1` whose two parents are common ancestors.
pub open spec fn merge_base_of(odb0: Map<Seq<u8>, BitObjKind>, odb1: Map<Seq<u8>, BitObjKind>, a: Seq<u8>, b: Seq<u8>, c: Seq<u8>) -> bool {
    ||| reaches(odb0, a, c) && reaches(odb0, b, c)
    ||| odb1.contains_key(c) && (odb1[c] matches BitObjKind::Commit(k) && k@.parents.len() == 2
        && reaches(odb0, a, k@.parents[0]) && reaches(odb0, b, k@.parents[0])
        && reaches(odb0, a, k@.parents[1]) && reaches(odb0, b, k@.parents[1]))
}

/// The queued commits are stored in the object store.
pub open spec fn all_nodes_commits(odb: Map<Seq<u8>, BitObjKind>, s: Seq<CommitNode>) -> bool {
    forall|j: int| 0 <= j < s.len() ==> odb.contains_key(#[trigger] s[j].oid@) && odb[s[j].oid@] is Commit
}

/// Adding flags to `c` keeps them sound when `c` is reached from where the new flags say.
proof fn lemma_flags_add(odb: Map<Seq<u8>, BitObjKind>, a: Seq<u8>, b: Seq<u8>, flags: Map<Seq<u8>, u8>, c: Seq<u8>, add: u8)
    requires
        flags_sound(odb, a, b, flags),
        add & PARENT1 != 0 ==> reaches(odb, a, c),
        add & PARENT2 != 0 ==> reaches(odb, b, c),
    ensures
        flags_sound(
            odb,
            a,
            b,
            flags.insert(
                c,
                (if flags.contains_key(c) {
                    flags[c]
                } else {
                    0u8
                }) | add,
            ),
        ),
{
    let x: u8 = if flags.contains_key(c) {
        flags[c]
    } else {
        0u8
    };
    assert(((x | add) & 1u8 != 0 ==> x & 1u8 != 0 || add & 1u8 != 0) && ((x | add) & 2u8 != 0 ==> x & 2u8 != 0 || add & 2u8
        != 0)) by (bit_vector);
    assert(0u8 & 1u8 == 0u8 && 0u8 & 2u8 == 0u8) by (bit_vector);
}

impl MergeBaseCtxt {
    pub fn new() -> (r: Self)
        ensures
            r.spec_candidates().len() == 0,
            r.spec_queue().len() == 0,
            r.spec_flags() == Map::<Seq<u8>, u8>::empty(),
    {
        MergeBaseCtxt { candidates: Vec::new(), pqueue: Vec::new(), node_flags: ByteMap::new(), index: 0 }
    }

    pub closed spec fn spec_candidates(&self) -> Seq<Oid> {
        self.candidates@
    }

    pub closed spec fn spec_queue(&self) -> Seq<CommitNode> {
        self.pqueue@
    }

    /// The flags of the commits reached, by id.
    pub closed spec fn spec_flags(&self) -> Map<Seq<u8>, u8> {
        self.node_flags.spec_map()
    }

    /// The flags of a commit (none when it was not reached).
    fn flags_of(&self, oid: &Oid) -> (r: u8)
        ensures
            r == (if self.spec_flags().contains_key(oid@) {
                self.spec_flags()[oid@]
            } else {
                0u8
            }),
    {
        match self.node_flags.get(oid.as_bytes().as_slice()) {
            Some(f) => *f,
            None => 0,
        }
    }

    /// Adds flags to a commit.
    fn add_flags(&mut self, oid: &Oid, flags: u8)
        ensures
            final(self).spec_candidates() == old(self).spec_candidates(),
            final(self).spec_queue() == old(self).spec_queue(),
            final(self).spec_flags() == old(self).spec_flags().insert(
                oid@,
                (if old(self).spec_flags().contains_key(oid@) {
                    old(self).spec_flags()[oid@]
                } else {
                    0u8
                }) | flags,
            ),
    {
        let f = self.flags_of(oid);
        self.node_flags.insert(slice_to_vec(oid.as_bytes().as_slice()), f | flags);
    }

    /// Queues a commit.
    fn push(&mut self, oid: Oid, time: u64)
        ensures
            final(self).spec_candidates() == old(self).spec_candidates(),
            final(self).spec_queue() == old(self).spec_queue().push(final(self).spec_queue().last()),
            final(self).spec_queue().last().oid == oid,
            final(self).spec_flags() == old(self).spec_flags(),
    {
        let index = self.index;
        if self.index < u64::MAX {
            self.index = self.index + 1;
        }
        self.pqueue.push(CommitNode { oid, time, index });
    }

    /// Takes the commit that comes first out of the queue.
    fn pop(&mut self) -> (r: Option<CommitNode>)
        ensures
            final(self).spec_candidates() == old(self).spec_candidates(),
            final(self).spec_flags() == old(self).spec_flags(),
            (old(self).spec_queue().len() == 0) <==> (r is None),
            r is None ==> final(self).spec_queue() == old(self).spec_queue(),
            r matches Some(n) ==> exists|k: int| 0 <= k < old(self).spec_queue().len() && old(self).spec_queue()[k] == n
                && final(self).spec_queue() == old(self).spec_queue().remove(k),
            r matches Some(n) ==> forall|j: int| 0 <= j < old(self).spec_queue().len() ==> !node_before(
                #[trigger] old(self).spec_queue()[j], n),
            r matches Some(n) ==> old(self).spec_queue().contains(n),
            r is Some ==> final(self).spec_queue().len() == old(self).spec_queue().len() - 1,
            forall|x: CommitNode| final(self).spec_queue().contains(x) ==> old(self).spec_queue().contains(x),
    {
        let n = self.pqueue.len();
        if n == 0 {
            return None;
        }
        let mut best: usize = 0;
        let mut i: usize = 1;
        while i < n
            invariant
                1 <= i <= n,
                best < i,
                n == self.pqueue@.len(),
                forall|j: int| 0 <= j < i ==> !node_before(#[trigger] self.pqueue@[j], self.pqueue@[best as int]),
            decreases n - i,
        {
            let a = self.pqueue[i];
            let b = self.pqueue[best];
            if a.time > b.time || (a.time == b.time && a.index < b.index) {
                best = i;
            }
            i = i + 1;
        }
        let ghost q0 = self.pqueue@;
        let node = self.pqueue.remove(best);
        proof {
            assert(q0[best as int] == node);
            assert(self.pqueue@ == q0.remove(best as int));
            assert(old(self).spec_queue() == q0);
            assert(old(self).spec_queue()[best as int] == node && self.spec_queue() == old(self).spec_queue().remove(best as int));
            assert forall|x: CommitNode| self.pqueue@.contains(x) implies q0.contains(x) by {
                let j = choose|j: int| 0 <= j < self.pqueue@.len() && self.pqueue@[j] == x;
                if j < best {
                    assert(q0[j] == x);
                } else {
                    assert(q0[j + 1] == x);
                }
            }
        }
        Some(node)
    }

    /// Whether some queued commit is not stale.
    fn still_interesting(&self) -> (r: bool)
        ensures
            r == exists|j: int| 0 <= j < self.spec_queue().len() && #[trigger] flag_bits(self.spec_flags(),
                self.spec_queue()[j].oid@) & STALE == 0,
    {
        let mut i: usize = 0;
        while i < self.pqueue.len()
            invariant
                0 <= i <= self.pqueue@.len(),
                forall|j: int| 0 <= j < i ==> #[trigger] flag_bits(self.spec_flags(), self.spec_queue()[j].oid@) & STALE != 0,
            decreases self.pqueue@.len() - i,
        {
            let f = self.flags_of(&self.pqueue[i].oid);
            if f & STALE == 0 {
                proof {
                    assert(flag_bits(self.spec_flags(), self.spec_queue()[i as int].oid@) & STALE == 0);
                }
                return true;
            }
            i = i + 1;
        }
        false
    }

    /// Walks back from `a` and `b`, latest commits first, and collects the commits reached
    /// from both that are not below another such commit.
    fn build_candidates(&mut self, repo: &BitRepo, a: Oid, b: Oid) -> (r: BitResult<()>)
        requires
            all_commits(repo.spec_odb(), old(self).spec_candidates()),
            all_nodes_commits(repo.spec_odb(), old(self).spec_queue()),
            repo.spec_odb().contains_key(a@) && repo.spec_odb()[a@] is Commit,
            repo.spec_odb().contains_key(b@) && repo.spec_odb()[b@] is Commit,
            flags_sound(repo.spec_odb(), a@, b@, old(self).spec_flags()),
            common_ancestors(repo.spec_odb(), a@, b@, old(self).spec_candidates()),
        ensures
            all_commits(repo.spec_odb(), final(self).spec_candidates()),
            flags_sound(repo.spec_odb(), a@, b@, final(self).spec_flags()),
            common_ancestors(repo.spec_odb(), a@, b@, final(self).spec_candidates()),
            r matches Err(e) ==> !(e is MergeConflict),
            r is Ok ==> flag_bits(final(self).spec_flags(), a@) & PARENT1 != 0 && flag_bits(final(self).spec_flags(), b@) & PARENT2
                != 0,
            r is Ok ==> forall|j: int| 0 <= j < final(self).spec_queue().len() ==> #[trigger] flag_bits(
                final(self).spec_flags(), final(self).spec_queue()[j].oid@) & STALE != 0,
    {
        let ghost odb = repo.spec_odb();
        let ta = repo.read_commit(&a)?.time;
        let tb = repo.read_commit(&b)?.time;
        proof {
            lemma_reaches_self(odb, a@);
            lemma_reaches_self(odb, b@);
            assert(1u8 & 2u8 == 0u8 && 2u8 & 1u8 == 0u8 && 4u8 & 1u8 == 0u8 && 4u8 & 2u8 == 0u8 && 1u8 & 1u8 != 0u8
                && 2u8 & 2u8 != 0u8) by (bit_vector);
        }
        let ghost f0 = self.spec_flags();
        self.add_flags(&a, PARENT1);
        proof {
            lemma_flags_add(odb, a@, b@, f0, a@, PARENT1);
        }
        self.push(a, ta);
        let ghost f1 = self.spec_flags();
        self.add_flags(&b, PARENT2);
        proof {
            lemma_flags_add(odb, a@, b@, f1, b@, PARENT2);
        }
        self.push(b, tb);
        proof {
            lemma_bits_kept(flag_bits(f0, a@), PARENT1, PARENT1);
            lemma_bits_kept(flag_bits(f1, b@), PARENT2, PARENT2);
            lemma_flag_kept(f1, b@, PARENT2, a@, PARENT1);
        }
        let mut steps: u64 = 0;
        while self.still_interesting()
            invariant
                flag_bits(self.spec_flags(), a@) & PARENT1 != 0,
                flag_bits(self.spec_flags(), b@) & PARENT2 != 0,
                odb == repo.spec_odb(),
                all_commits(repo.spec_odb(), self.spec_candidates()),
                all_nodes_commits(repo.spec_odb(), self.spec_queue()),
                flags_sound(odb, a@, b@, self.spec_flags()),
                common_ancestors(odb, a@, b@, self.spec_candidates()),
                steps <= MERGE_BASE_STEPS,
            ensures
                flag_bits(self.spec_flags(), a@) & PARENT1 != 0,
                flag_bits(self.spec_flags(), b@) & PARENT2 != 0,
                forall|j: int| 0 <= j < self.spec_queue().len() ==> #[trigger] flag_bits(self.spec_flags(),
                    self.spec_queue()[j].oid@) & STALE != 0,
            decreases MERGE_BASE_STEPS - steps,
        {
            if steps == MERGE_BASE_STEPS {
                return Err(BitError::Unsupported);
            }
            steps = steps + 1;
            let ghost q0 = self.spec_queue();
            let node = match self.pop() {
                Some(node) => node,
                None => break,
            };
            proof {
                let j = choose|j: int| 0 <= j < q0.len() && q0[j] == node;
                assert(repo.spec_odb().contains_key(q0[j].oid@));
                assert forall|j: int| 0 <= j < self.spec_queue().len() implies repo.spec_odb().contains_key(#[trigger] self.spec_queue()[j].oid@)
                    && repo.spec_odb()[self.spec_queue()[j].oid@] is Commit by {
                    assert(self.spec_queue().contains(self.spec_queue()[j]));
                    assert(q0.contains(self.spec_queue()[j]));
                    let k = choose|k: int| 0 <= k < q0.len() && q0[k] == self.spec_queue()[j];
                    assert(repo.spec_odb().contains_key(q0[k].oid@));
                }
            }
            let flags = self.flags_of(&node.oid);
            let commit = repo.read_commit(&node.oid)?;
            proof {
                assert(flags & 1u8 != 0 ==> flags != 0u8) by (bit_vector);
                assert(flags & 2u8 != 0 ==> flags != 0u8) by (bit_vector);
                assert(1u8 | 2u8 == 3u8 && 4u8 | 8u8 == 12u8) by (bit_vector);
                if flags != 0u8 {
                    assert(self.spec_flags().contains_key(node.oid@));
                }
            }
            let ghost from_a = flags & PARENT1 != 0;
            let ghost from_b = flags & PARENT2 != 0;
            let mut parent_flags: u8 = flags & !RESULT;
            if flags & (PARENT1 | PARENT2) == (PARENT1 | PARENT2) {
                parent_flags = parent_flags | STALE;
                if flags & (RESULT | STALE) == 0 {
                    let ghost f2 = self.spec_flags();
                    self.add_flags(&node.oid, RESULT);
                    proof {
                        lemma_flag_kept(f2, node.oid@, RESULT, a@, PARENT1);
                        lemma_flag_kept(f2, node.oid@, RESULT, b@, PARENT2);
                        assert(4u8 & 1u8 == 0u8 && 4u8 & 2u8 == 0u8) by (bit_vector);
                        lemma_flags_add(odb, a@, b@, f2, node.oid@, RESULT);
                        assert(flags & 3u8 == 3u8 ==> flags & 1u8 != 0 && flags & 2u8 != 0) by (bit_vector);
                    }
                    let ghost c0 = self.spec_candidates();
                    self.candidates.push(node.oid);
                    proof {
                        assert forall|j: int| 0 <= j < self.spec_candidates().len() implies repo.spec_odb().contains_key(
                            #[trigger] self.spec_candidates()[j]@) && repo.spec_odb()[self.spec_candidates()[j]@] is Commit by {
                            if j < c0.len() {
                                assert(self.spec_candidates()[j] == c0[j]);
                            }
                        }
                        assert forall|j: int| 0 <= j < self.spec_candidates().len() implies reaches(odb, a@,
                            #[trigger] self.spec_candidates()[j]@) && reaches(odb, b@, self.spec_candidates()[j]@) by {
                            if j < c0.len() {
                                assert(self.spec_candidates()[j] == c0[j]);
                            }
                        }
                    }
                }
            }
            proof {
                let pf = parent_flags;
                assert(pf == flags & !4u8 || pf == (flags & !4u8) | 8u8);
                assert((pf == flags & !4u8 || pf == (flags & !4u8) | 8u8) ==> (pf & 1u8 != 0 ==> flags & 1u8 != 0) && (pf & 2u8
                    != 0 ==> flags & 2u8 != 0)) by (bit_vector);
            }
            let mut k: usize = 0;
            while k < commit.parents.len()
                invariant
                    0 <= k <= commit.parents@.len(),
                    odb == repo.spec_odb(),
                    odb.contains_key(node.oid@) && odb[node.oid@] == BitObjKind::Commit(*commit),
                    all_commits(repo.spec_odb(), self.spec_candidates()),
                    all_nodes_commits(repo.spec_odb(), self.spec_queue()),
                    flags_sound(odb, a@, b@, self.spec_flags()),
                    common_ancestors(odb, a@, b@, self.spec_candidates()),
                    parent_flags & PARENT1 != 0 ==> reaches(odb, a@, node.oid@),
                    parent_flags & PARENT2 != 0 ==> reaches(odb, b@, node.oid@),
                    flag_bits(self.spec_flags(), a@) & PARENT1 != 0,
                    flag_bits(self.spec_flags(), b@) & PARENT2 != 0,
                decreases commit.parents@.len() - k,
            {
                let parent = commit.parents[k];
                let pflags = self.flags_of(&parent);
                if pflags != parent_flags {
                    let pc = repo.read_commit(&parent)?;
                    let pt = pc.time;
                    let ghost f3 = self.spec_flags();
                    proof {
                        assert(parent_of(odb, node.oid@, parent@)) by {
                            assert((odb[node.oid@]->Commit_0.parents@[k as int])@ == parent@);
                        }
                        if parent_flags & PARENT1 != 0 {
                            lemma_reaches_parent(odb, a@, node.oid@, parent@);
                        }
                        if parent_flags & PARENT2 != 0 {
                            lemma_reaches_parent(odb, b@, node.oid@, parent@);
                        }
                    }
                    self.add_flags(&parent, parent_flags);
                    proof {
                        lemma_flag_kept(f3, parent@, parent_flags, a@, PARENT1);
                        lemma_flag_kept(f3, parent@, parent_flags, b@, PARENT2);
                        lemma_flags_add(odb, a@, b@, f3, parent@, parent_flags);
                    }
                    let ghost q1 = self.spec_queue();
                    self.push(parent, pt);
                    proof {
                        assert forall|j: int| 0 <= j < self.spec_queue().len() implies repo.spec_odb().contains_key(
                            #[trigger] self.spec_queue()[j].oid@) && repo.spec_odb()[self.spec_queue()[j].oid@] is Commit by {
                            if j < q1.len() {
                                assert(self.spec_queue()[j] == q1[j]);
                            }
                        }
                    }
                }
                k = k + 1;
            }
        }
        Ok(())
    }

    /// The best common ancestors of `a` and `b`, each once: those the search finds first,
    /// in the order it finds them, then any others. Fails when `a` or `b` is no commit.
    pub fn merge_bases_all(repo: &BitRepo, a: Oid, b: Oid) -> (r: BitResult<Vec<Oid>>)
        ensures
            r is Ok <==> is_commit(repo.spec_odb(), a@) && is_commit(repo.spec_odb(), b@),
            r matches Ok(v) ==> forall|j: int| 0 <= j < v@.len() ==> best_common_ancestor(repo.spec_odb(), a@, b@,
                (#[trigger] v@[j])@),
            r matches Ok(v) ==> forall|c: Seq<u8>| #[trigger] best_common_ancestor(repo.spec_odb(), a@, b@, c) ==> waiting(v@, c),
            r matches Ok(v) ==> distinct_ids(v@),
            r matches Ok(v) ==> all_commits(repo.spec_odb(), v@),
            r matches Ok(v) ==> common_ancestors(repo.spec_odb(), a@, b@, v@),
            r matches Err(e) ==> !(e is MergeConflict),
    {
        let _ = repo.read_commit(&a)?;
        let _ = repo.read_commit(&b)?;
        let mut ctxt = MergeBaseCtxt::new();
        let mut order: Vec<Oid> = Vec::new();
        if ctxt.build_candidates(repo, a, b).is_ok() {
            let mut i: usize = 0;
            while i < ctxt.candidates.len()
                invariant
                    0 <= i <= ctxt.spec_candidates().len(),
                decreases ctxt.spec_candidates().len() - i,
            {
                let c = ctxt.candidates[i];
                if ctxt.flags_of(&c) & STALE == 0 {
                    order.push(c);
                }
                i = i + 1;
            }
        }
        let v = repo.best_common_ancestors(a, b, &order);
        proof {
            assert forall|j: int| 0 <= j < v@.len() implies repo.spec_odb().contains_key(#[trigger] v@[j]@) && repo.spec_odb()[v@[j]@]
                is Commit by {
                assert(best_common_ancestor(repo.spec_odb(), a@, b@, v@[j]@));
            }
            assert forall|j: int| 0 <= j < v@.len() implies reaches(repo.spec_odb(), a@, #[trigger] v@[j]@) && reaches(
                repo.spec_odb(), b@, v@[j]@) by {
                assert(best_common_ancestor(repo.spec_odb(), a@, b@, v@[j]@));
            }
        }
        Ok(v)
    }
}

impl BitRepo {
    /// The best common ancestors of two commits.
    pub fn merge_bases(&self, a: Oid, b: Oid) -> (r: BitResult<Vec<Oid>>)
        ensures
            r is Ok <==> is_commit(self.spec_odb(), a@) && is_commit(self.spec_odb(), b@),
            r matches Ok(v) ==> forall|j: int| 0 <= j < v@.len() ==> best_common_ancestor(self.spec_odb(), a@, b@,
                (#[trigger] v@[j])@),
            r matches Ok(v) ==> forall|c: Seq<u8>| #[trigger] best_common_ancestor(self.spec_odb(), a@, b@, c) ==> waiting(v@, c),
            r matches Ok(v) ==> distinct_ids(v@),
            r matches Ok(v) ==> all_commits(self.spec_odb(), v@),
            r matches Ok(v) ==> common_ancestors(self.spec_odb(), a@, b@, v@),
            r matches Err(e) ==> !(e is MergeConflict),
            r is Ok ==> self.spec_odb().contains_key(a@) && self.spec_odb()[a@] is Commit
                && self.spec_odb().contains_key(b@) && self.spec_odb()[b@] is Commit,
    {
        MergeBaseCtxt::merge_bases_all(self, a, b)
    }

    /// The first best common ancestor of two commits, if they have one.
    pub fn merge_base(&self, a: Oid, b: Oid) -> (r: BitResult<Option<Oid>>)
        ensures
            r is Ok <==> is_commit(self.spec_odb(), a@) && is_commit(self.spec_odb(), b@),
            r matches Ok(Some(c)) ==> best_common_ancestor(self.spec_odb(), a@, b@, c@),
            r matches Ok(None) ==> !exists|c: Seq<u8>| #[trigger] best_common_ancestor(self.spec_odb(), a@, b@, c),
            r matches Ok(Some(c)) ==> self.spec_odb().contains_key(c@) && self.spec_odb()[c@] is Commit,
            r matches Ok(Some(c)) ==> reaches(self.spec_odb(), a@, c@) && reaches(self.spec_odb(), b@, c@),
            !(self.spec_odb().contains_key(a@) && self.spec_odb()[a@] is Commit && self.spec_odb().contains_key(b@)
                && self.spec_odb()[b@] is Commit) ==> r is Err,
    {
        let bases = self.merge_bases(a, b)?;
        if bases.len() == 0 {
            proof {
                assert forall|c: Seq<u8>| !#[trigger] best_common_ancestor(self.spec_odb(), a@, b@, c) by {
                    if best_common_ancestor(self.spec_odb(), a@, b@, c) {
                        assert(waiting(bases@, c));
                    }
                }
            }
            Ok(None)
        } else {
            proof {
                assert(best_common_ancestor(self.spec_odb(), a@, b@, bases@[0]@));
            }
            Ok(Some(bases[0]))
        }
    }
}


/// How a path changed from the merge base to one side.
#[derive(Debug, Clone, Copy, PartialEq, Eq, Structural)]
pub enum MergeDiffKind {
    DeletedBlob,
    CreatedBlob,
    ModifiedBlob,
    ModifiedTree,
    UnmodifiedBlob,
    UnmodifiedTree,
    DeletedTree,
    CreatedTree,
    BlobToTree,
    TreeToBlob,
}

/// The change of a path from the merge base to one side, with the entry after the change
/// (the base entry for deletions).
#[derive(Debug)]
pub struct MergeDiffEntry {
    pub kind: MergeDiffKind,
    pub entry: TreeEntry,
}

impl MergeDiffEntry {
    /// A copy of the entry.
    pub fn entry(&self) -> (r: TreeEntry)
        ensures
            r@ == self.entry@,
    {
        self.entry.copy()
    }
}

/// The kind of change from `base` to `other` at one path.
pub open spec fn diff_kind(base: Option<TreeEntry>, other: Option<TreeEntry>) -> Option<MergeDiffKind> {
    match (base, other) {
        (None, None) => None,
        (None, Some(o)) => Some(if o.mode == FileMode::TREE { MergeDiffKind::CreatedTree } else { MergeDiffKind::CreatedBlob }),
        (Some(b), None) => Some(if b.mode == FileMode::TREE { MergeDiffKind::DeletedTree } else { MergeDiffKind::DeletedBlob }),
        (Some(b), Some(o)) => Some(
            if b.mode == FileMode::TREE && o.mode == FileMode::TREE {
                if b.oid@ == o.oid@ { MergeDiffKind::UnmodifiedTree } else { MergeDiffKind::ModifiedTree }
            } else if b.mode == FileMode::TREE {
                MergeDiffKind::TreeToBlob
            } else if o.mode == FileMode::TREE {
                MergeDiffKind::BlobToTree
            } else if b.oid@ == o.oid@ {
                MergeDiffKind::UnmodifiedBlob
            } else {
                MergeDiffKind::ModifiedBlob
            },
        ),
    }
}

/// The entry behind an optional reference.
pub open spec fn opt_entry(o: Option<&TreeEntry>) -> Option<TreeEntry> {
    match o {
        Some(e) => Some(*e),
        None => None,
    }
}

/// The change from `base` to `other` at one path.
pub fn diff_base_to_other(base: Option<&TreeEntry>, other: Option<&TreeEntry>) -> (r: Option<MergeDiffEntry>)
    ensures
        (r matches Some(d) ==> Some(d.kind) == diff_kind(opt_entry(base), opt_entry(other))),
        r is None <==> diff_kind(opt_entry(base), opt_entry(other)) is None,
        (r matches Some(d) ==> (other matches Some(o) ==> d.entry@ == o@) && (other is None ==> (base matches Some(b) && d.entry@ == b@))),
{
    match (base, other) {
        (None, None) => None,
        (None, Some(o)) => {
            let kind = if o.mode.is_tree() { MergeDiffKind::CreatedTree } else { MergeDiffKind::CreatedBlob };
            Some(MergeDiffEntry { kind, entry: o.copy() })
        },
        (Some(b), None) => {
            let kind = if b.mode.is_tree() { MergeDiffKind::DeletedTree } else { MergeDiffKind::DeletedBlob };
            Some(MergeDiffEntry { kind, entry: b.copy() })
        },
        (Some(b), Some(o)) => {
            let kind = if b.mode.is_tree() && o.mode.is_tree() {
                if b.oid.same(&o.oid) { MergeDiffKind::UnmodifiedTree } else { MergeDiffKind::ModifiedTree }
            } else if b.mode.is_tree() {
                MergeDiffKind::TreeToBlob
            } else if o.mode.is_tree() {
                MergeDiffKind::BlobToTree
            } else if b.oid.same(&o.oid) {
                MergeDiffKind::UnmodifiedBlob
            } else {
                MergeDiffKind::ModifiedBlob
            };
            Some(MergeDiffEntry { kind, entry: o.copy() })
        },
    }
}

/// Options of a merge.
#[derive(Debug, Clone, Copy, PartialEq, Eq, Structural)]
pub struct MergeOpts {
    pub no_commit: bool,
    pub no_edit: bool,
    pub no_ff: bool,
}

impl MergeOpts {
    /// Commit the merge, with the generated message, fast-forwarding where possible.
    pub fn default_opts() -> (r: Self)
        ensures
            !r.no_commit && r.no_edit && !r.no_ff,
    {
        MergeOpts { no_edit: true, no_commit: false, no_ff: false }
    }
}

impl Default for MergeOpts {
    fn default() -> (r: Self)
        ensures
            !r.no_commit && r.no_edit && !r.no_ff,
    {
        MergeOpts::default_opts()
    }
}

/// How two heads were merged.
#[derive(Debug, Clone, Copy, PartialEq, Eq, Structural)]
pub enum MergeStrategy {
    FastForward,
    Recursive,
}

/// What a merge made.
#[derive(Debug, Clone, PartialEq, Eq)]
pub struct MergeSummary {
    /// The merge commit, when one was made.
    pub commit: Option<Oid>,
}

/// The outcome of a merge.
#[derive(Debug, PartialEq, Eq)]
pub enum MergeResults {
    /// Their head is already merged.
    Null,
    /// The paths left in conflict in the index.
    Conflicts(Vec<Conflict>),
    /// Our head moved forward to theirs.
    FastForward { from: Oid, to: Oid },
    /// The heads were merged.
    Merge(MergeSummary),
}

impl MergeResults {
    /// The conflicts of a merge that left some.
    pub fn into_conflicts(self) -> (r: Vec<Conflict>)
        requires
            self is Conflicts,
        ensures
            self matches MergeResults::Conflicts(c) ==> r@ == c@,
    {
        match self {
            MergeResults::Conflicts(c) => c,
            _ => Vec::new(),
        }
    }
}

/// The local changes that stop a merge (not the conflicts of the merge itself).
#[derive(Debug, Clone, PartialEq, Eq)]
pub struct MergeConflicts {
    /// Paths with uncommitted changes that the merge would overwrite.
    pub uncommitted: Vec<Vec<u8>>,
}

/// The short name of a reference: a branch without `refs/heads/` (or `refs/remotes/`),
/// an id in hex.
pub open spec fn short_name_spec(reference: RefView) -> Seq<u8> {
    match reference {
        RefView::Direct(o) => crate::obj::hex_ascii(o),
        RefView::Symbolic(n) => if is_prefix(crate::repo::heads_prefix(), n) {
            n.skip(crate::repo::heads_prefix().len() as int)
        } else if is_prefix(crate::repo::remotes_prefix(), n) {
            n.skip(crate::repo::remotes_prefix().len() as int)
        } else {
            n
        },
    }
}

/// The short name of a reference (see `short_name_spec`).
pub fn short_name(reference: &BitRef) -> (r: Vec<u8>)
    ensures
        r@ == short_name_spec(reference@),
{
    match reference {
        BitRef::Direct(o) => crate::obj::oid_hex_bytes(o),
        BitRef::Symbolic(n) => {
            let h = crate::repo::heads_prefix_bytes();
            let rm = crate::repo::remotes_prefix_bytes();
            if starts_with(n.as_slice(), h.as_slice()) {
                let r = crate::hash::slice_range(n.as_slice(), h.len(), n.len());
                assert(r@ =~= n@.skip(h@.len() as int));
                r
            } else if starts_with(n.as_slice(), rm.as_slice()) {
                let r = crate::hash::slice_range(n.as_slice(), rm.len(), n.len());
                assert(r@ =~= n@.skip(rm@.len() as int));
                r
            } else {
                copy_bytes(n)
            }
        },
    }
}


/// The index entry `x` stages the tree entry `e` at `stage`.
pub open spec fn staged_as(x: BitIndexEntry, e: TreeEntry, stage: MergeStage) -> bool {
    &&& x.path@ == e.path@
    &&& x.oid@ == e.oid@
    &&& x.mode == e.mode
    &&& x.spec_stage() == stage
}

/// `m1` is the index `m0` after `e` is staged (stage `Normal`): the conflict entries of its
/// path, and the entries that collide with it, are gone.
pub open spec fn staged_normal(m0: Map<Seq<u8>, BitIndexEntry>, m1: Map<Seq<u8>, BitIndexEntry>, e: TreeEntry) -> bool {
    let k = index_key(e.path@, MergeStage::Normal);
    &&& m1.contains_key(k)
    &&& staged_as(m1[k], e, MergeStage::Normal)
    &&& m1 == crate::index::without_collisions(m0.remove(index_key(e.path@, MergeStage::Base)).remove(
        index_key(e.path@, MergeStage::Ours)).remove(index_key(e.path@, MergeStage::Theirs)), e.path@).insert(k, m1[k])
}

/// `m1` is the index `m0` after `e` is staged as the conflict entry of `stage`: the
/// `Normal` entry of its path, and the entries that collide with it, are gone.
pub open spec fn staged_conflict(m0: Map<Seq<u8>, BitIndexEntry>, m1: Map<Seq<u8>, BitIndexEntry>, e: TreeEntry, stage: MergeStage) -> bool {
    let k = index_key(e.path@, stage);
    &&& m1.contains_key(k)
    &&& staged_as(m1[k], e, stage)
    &&& m1 == crate::index::without_collisions(m0.remove(index_key(e.path@, MergeStage::Normal)), e.path@).insert(k, m1[k])
}

/// The object store holds a blob at `oid`.
pub open spec fn blob_stored(odb: Map<Seq<u8>, BitObjKind>, oid: Seq<u8>) -> bool {
    odb.contains_key(oid) && odb[oid] is Blob
}

/// `w1` is the working tree `w0` with the blob `oid` of `odb` written at `path`, with `mode`.
pub open spec fn wrote_blob(w0: Map<Seq<u8>, WorktreeFile>, w1: Map<Seq<u8>, WorktreeFile>, path: Seq<u8>, mode: FileMode,
    odb: Map<Seq<u8>, BitObjKind>, oid: Seq<u8>) -> bool {
    &&& w1.contains_key(path)
    &&& w1[path].mode == mode
    &&& w1[path].data@ == odb[oid]->Blob_0.bytes@
    &&& w1 == w0.insert(path, w1[path])
}

/// A file that only their side created (`e`) is taken: when something stands at its path it
/// is reported as uncommitted and nothing changes; otherwise the blob is written and staged.
pub open spec fn took_their_file(u0: Seq<Seq<u8>>, u1: Seq<Seq<u8>>, r0: BitRepo, r1: BitRepo, e: TreeEntry, r: BitResult<()>) -> bool {
    if crate::repo::worktree_has(r0.spec_worktree(), e.path@) {
        r is Ok && r1 == r0 && u1 == u0.push(e.path@)
    } else {
        &&& u1 == u0
        &&& (r is Ok <==> blob_stored(r0.spec_odb(), e.oid@))
        &&& r is Err ==> r1 == r0
        &&& r is Ok ==> wrote_blob(r0.spec_worktree(), r1.spec_worktree(), e.path@, e.mode, r0.spec_odb(), e.oid@)
            && staged_normal(r0.spec_index().spec_entries(), r1.spec_index().spec_entries(), e)
            && r1.spec_odb() == r0.spec_odb()
    }
}

/// `m1`, `m2` and then `m3` are the index `m0` after staging the conflict entries of a path:
/// the base version (when there is one), ours, then theirs.
pub open spec fn staged_conflicts(m0: Map<Seq<u8>, BitIndexEntry>, m1: Map<Seq<u8>, BitIndexEntry>, m2: Map<Seq<u8>, BitIndexEntry>,
    m3: Map<Seq<u8>, BitIndexEntry>, base: Option<TreeEntry>, ours: TreeEntry, theirs: TreeEntry) -> bool {
    &&& (match base {
        Some(b) => staged_conflict(m0, m1, b, MergeStage::Base),
        None => m1 == m0,
    })
    &&& staged_conflict(m1, m2, ours, MergeStage::Ours)
    &&& staged_conflict(m2, m3, theirs, MergeStage::Theirs)
}

/// The three-way merge of the file contents of `ours` and `theirs` (against `base`, or
/// nothing) took `r0` to `r1`: the merged file is written at our path and staged, or the
/// file with conflict markers is written there and the versions are staged as conflict
/// entries.
pub open spec fn merged_into(r0: BitRepo, r1: BitRepo, base: Option<TreeEntry>, ours: TreeEntry, theirs: TreeEntry, diff3: bool) -> bool {
    let odb = r0.spec_odb();
    let base_bytes = match base {
        Some(b) => odb[b.oid@]->Blob_0.bytes@,
        None => Seq::<u8>::empty(),
    };
    let w = r1.spec_worktree();
    &&& w.contains_key(ours.path@)
    &&& w[ours.path@].mode == ours.mode
    &&& w == r0.spec_worktree().insert(ours.path@, w[ours.path@])
    &&& match crate::xdiff::spec_merge_bytes(diff3, base_bytes, odb[ours.oid@]->Blob_0.bytes@, odb[theirs.oid@]->Blob_0.bytes@) {
        Ok(merged) => {
            let oid = obj_oid(ObjView::Blob(merged));
            let k = index_key(ours.path@, MergeStage::Normal);
            &&& w[ours.path@].data@ == merged
            &&& r1.spec_odb().contains_key(oid) && r1.spec_odb()[oid] is Blob
            &&& r1.spec_index().spec_entries().contains_key(k)
            &&& r1.spec_index().spec_entries()[k].oid@ == oid
            &&& r1.spec_index().spec_entries()[k].mode == ours.mode
        },
        Err(conflicted) => {
            &&& w[ours.path@].data@ == conflicted
            &&& exists|m1: Map<Seq<u8>, BitIndexEntry>, m2: Map<Seq<u8>, BitIndexEntry>| staged_conflicts(
                r0.spec_index().spec_entries(), m1, m2, r1.spec_index().spec_entries(), base, ours, theirs)
        },
    }
}

/// `q` is `base` with a suffix that makes it unique, and names nothing in the working tree.
pub open spec fn free_beside(w: Map<Seq<u8>, WorktreeFile>, base: Seq<u8>, q: Seq<u8>) -> bool {
    &&& !crate::repo::worktree_has(w, q)
    &&& exists|i: Option<u64>| q == base + crate::fs::rename_suffix(i)
}

/// The base version of a path, when there is one, is staged as its `Base` conflict entry
/// (taking `m0` to `m1`).
pub open spec fn staged_base(m0: Map<Seq<u8>, BitIndexEntry>, m1: Map<Seq<u8>, BitIndexEntry>, base: Option<TreeEntry>) -> bool {
    match base {
        Some(b) => staged_conflict(m0, m1, b, MergeStage::Base),
        None => m1 == m0,
    }
}

/// What merging a path changed on both sides (`ok` and `tk` from the base to ours and to
/// theirs, with entries `o` and `t`) does to the repository, for the pairs whose outcome
/// is a file or an index entry of that path.
pub open spec fn merged_entry(r0: BitRepo, r1: BitRepo, base: Option<TreeEntry>, ok: MergeDiffKind, tk: MergeDiffKind, o: TreeEntry,
    t: TreeEntry, diff3: bool, r: BitResult<()>) -> bool {
    let i0 = r0.spec_index().spec_entries();
    let i1 = r1.spec_index().spec_entries();
    let w0 = r0.spec_worktree();
    let w1 = r1.spec_worktree();
    let odb = r0.spec_odb();
    match (ok, tk) {
        (MergeDiffKind::DeletedBlob, MergeDiffKind::DeletedBlob) | (MergeDiffKind::DeletedBlob, MergeDiffKind::UnmodifiedBlob) =>
            r is Ok && i1 == i0.remove(index_key(o.path@, MergeStage::Normal)) && w1 == w0,
        (MergeDiffKind::DeletedBlob, MergeDiffKind::ModifiedBlob) => exists|m1: Map<Seq<u8>, BitIndexEntry>| {
            &&& staged_base(i0, m1, base)
            &&& staged_conflict(m1, i1, t, MergeStage::Theirs)
            &&& (r is Ok <==> blob_stored(odb, t.oid@))
            &&& r is Ok ==> wrote_blob(w0, w1, t.path@, t.mode, odb, t.oid@)
            &&& r is Err ==> w1 == w0
        },
        (MergeDiffKind::ModifiedBlob, MergeDiffKind::DeletedBlob) => r is Ok && w1 == w0 && exists|m1: Map<Seq<u8>, BitIndexEntry>|
            staged_base(i0, m1, base) && #[trigger] staged_conflict(m1, i1, o, MergeStage::Ours),
        (MergeDiffKind::CreatedBlob, MergeDiffKind::CreatedBlob) | (MergeDiffKind::ModifiedBlob, MergeDiffKind::ModifiedBlob) => {
            &&& (r is Ok <==> ((base matches Some(b) ==> blob_stored(odb, b.oid@)) && o.mode == t.mode
                && blob_stored(odb, o.oid@) && blob_stored(odb, t.oid@)))
            &&& r is Err ==> r1 == r0
            &&& r is Ok ==> merged_into(r0, r1, base, o, t, diff3)
        },
        (MergeDiffKind::ModifiedBlob, MergeDiffKind::UnmodifiedBlob) => r is Ok && staged_normal(i0, i1, o) && w1 == w0,
        (MergeDiffKind::UnmodifiedBlob, MergeDiffKind::ModifiedBlob) => {
            &&& (r is Ok <==> blob_stored(odb, t.oid@))
            &&& r is Err ==> r1 == r0
            &&& r is Ok ==> wrote_blob(w0, w1, t.path@, t.mode, odb, t.oid@) && staged_normal(i0, i1, t)
        },
        (MergeDiffKind::UnmodifiedBlob, MergeDiffKind::BlobToTree) => r is Ok && w1 == w0.remove(t.path@) && i1 == i0,
        (MergeDiffKind::UnmodifiedBlob, MergeDiffKind::DeletedBlob) =>
            r is Ok && w1 == w0.remove(t.path@) && i1 == i0.remove(index_key(t.path@, MergeStage::Normal)),
        _ => true,
    }
}

/// The file (not tree) entry of `m` at `p`, if there is one.
pub open spec fn file_entry(m: Map<Seq<u8>, TreeEntry>, p: Seq<u8>) -> Option<TreeEntry> {
    if crate::diff::blob_at(m, p) {
        Some(m[p])
    } else {
        None
    }
}

/// The same file (same id and mode) or the same absence.
pub open spec fn same_file(a: Option<TreeEntry>, b: Option<TreeEntry>) -> bool {
    match (a, b) {
        (None, None) => true,
        (Some(x), Some(y)) => x.oid@ == y.oid@ && x.mode == y.mode,
        _ => false,
    }
}

/// The side a clean merge takes at a path, from its files in the base, ours and theirs:
/// ours when both sides agree or only ours changed, theirs when only theirs changed; `None`
/// when both changed differently.
pub open spec fn clean_side(b: Option<TreeEntry>, o: Option<TreeEntry>, t: Option<TreeEntry>) -> Option<Option<TreeEntry>> {
    if same_file(o, t) {
        Some(o)
    } else if same_file(b, o) {
        Some(t)
    } else if same_file(b, t) {
        Some(o)
    } else {
        None
    }
}

/// The clean merge at `p` takes the file `e`.
pub open spec fn takes_clean(base: Map<Seq<u8>, TreeEntry>, ours: Map<Seq<u8>, TreeEntry>, theirs: Map<Seq<u8>, TreeEntry>, p: Seq<u8>,
    e: TreeEntry) -> bool {
    clean_side(file_entry(base, p), file_entry(ours, p), file_entry(theirs, p)) == Some(Some(e))
}

/// `v` stages every file that the clean merge of `base`, `ours` and `theirs` takes.
pub open spec fn includes_clean(base: Map<Seq<u8>, TreeEntry>, ours: Map<Seq<u8>, TreeEntry>, theirs: Map<Seq<u8>, TreeEntry>,
    v: Seq<BitIndexEntry>) -> bool {
    forall|p: Seq<u8>, e: TreeEntry| #[trigger] takes_clean(base, ours, theirs, p, e) ==> exists|j: int| 0 <= j < v.len()
        && #[trigger] staged_as(v[j], e, MergeStage::Normal)
}

/// The entry a change from `base` to `other` carries: the entry after the change, or the base
/// entry for a deletion.
pub open spec fn changed_entry(base: Option<TreeEntry>, other: Option<TreeEntry>) -> TreeEntry {
    match other {
        Some(o) => o,
        None => base->0,
    }
}

/// `merged_entry` depends on the entries of the two sides through their views only.
proof fn lemma_merged_entry_views(r0: BitRepo, r1: BitRepo, base: Option<TreeEntry>, ok: MergeDiffKind, tk: MergeDiffKind,
    o1: TreeEntry, t1: TreeEntry, o2: TreeEntry, t2: TreeEntry, diff3: bool, r: BitResult<()>)
    requires
        o1@ == o2@,
        t1@ == t2@,
        merged_entry(r0, r1, base, ok, tk, o1, t1, diff3, r),
    ensures
        merged_entry(r0, r1, base, ok, tk, o2, t2, diff3, r),
{
    assert(o1.path@ == o2.path@ && o1.oid@ == o2.oid@ && o1.mode == o2.mode);
    assert(t1.path@ == t2.path@ && t1.oid@ == t2.oid@ && t1.mode == t2.mode);
    match (ok, tk) {
        (MergeDiffKind::DeletedBlob, MergeDiffKind::ModifiedBlob) => {
            let m1 = choose|m1: Map<Seq<u8>, BitIndexEntry>| {
                &&& staged_base(r0.spec_index().spec_entries(), m1, base)
                &&& staged_conflict(m1, r1.spec_index().spec_entries(), t1, MergeStage::Theirs)
                &&& (r is Ok <==> blob_stored(r0.spec_odb(), t1.oid@))
                &&& r is Ok ==> wrote_blob(r0.spec_worktree(), r1.spec_worktree(), t1.path@, t1.mode, r0.spec_odb(), t1.oid@)
                &&& r is Err ==> r1.spec_worktree() == r0.spec_worktree()
            };
            assert(staged_conflict(m1, r1.spec_index().spec_entries(), t2, MergeStage::Theirs));
        },
        (MergeDiffKind::ModifiedBlob, MergeDiffKind::DeletedBlob) => {
            let m1 = choose|m1: Map<Seq<u8>, BitIndexEntry>| staged_base(r0.spec_index().spec_entries(), m1, base)
                && #[trigger] staged_conflict(m1, r1.spec_index().spec_entries(), o1, MergeStage::Ours);
            assert(staged_conflict(m1, r1.spec_index().spec_entries(), o2, MergeStage::Ours));
        },
        (MergeDiffKind::CreatedBlob, MergeDiffKind::CreatedBlob) | (MergeDiffKind::ModifiedBlob, MergeDiffKind::ModifiedBlob) => {
            if r is Ok {
                let odb = r0.spec_odb();
                let base_bytes = match base {
                    Some(b) => odb[b.oid@]->Blob_0.bytes@,
                    None => Seq::<u8>::empty(),
                };
                if crate::xdiff::spec_merge_bytes(diff3, base_bytes, odb[o1.oid@]->Blob_0.bytes@, odb[t1.oid@]->Blob_0.bytes@) is Err {
                    let (m1, m2) = choose|m1: Map<Seq<u8>, BitIndexEntry>, m2: Map<Seq<u8>, BitIndexEntry>| staged_conflicts(
                        r0.spec_index().spec_entries(), m1, m2, r1.spec_index().spec_entries(), base, o1, t1);
                    assert(staged_conflicts(r0.spec_index().spec_entries(), m1, m2, r1.spec_index().spec_entries(), base, o2, t2));
                }
            }
        },
        _ => {},
    }
}

/// What merging one path does, given its entries in the merge base, ours and theirs: taking
/// the uncommitted paths found from `u0` to `u1` and the repository from `r0` to `r1`, with
/// the result `r`.
pub open spec fn entries_merged(u0: Seq<Seq<u8>>, u1: Seq<Seq<u8>>, r0: BitRepo, r1: BitRepo, base: Option<TreeEntry>,
    ours: Option<TreeEntry>, theirs: Option<TreeEntry>, diff3: bool, r: BitResult<()>) -> bool {
    &&& base is None && ours is None && theirs is None ==> r is Ok && r1 == r0 && u1 == u0
    &&& base is None && ours is None && theirs is Some && theirs->0.mode != FileMode::TREE ==> took_their_file(u0, u1, r0, r1,
        theirs->0, r)
    &&& diff_kind(base, ours) is Some && diff_kind(base, theirs) is Some ==> merged_entry(r0, r1, base, diff_kind(base, ours)->0,
        diff_kind(base, theirs)->0, changed_entry(base, ours), changed_entry(base, theirs), diff3, r)
    &&& base is None && theirs is None && ours is Some && ours->0.mode != FileMode::TREE ==> r is Ok && staged_normal(
        r0.spec_index().spec_entries(), r1.spec_index().spec_entries(), ours->0) && r1.spec_worktree() == r0.spec_worktree()
        && r1.spec_odb() == r0.spec_odb() && u1 == u0
}

/// The conflict style shows the base lines too.
pub open spec fn is_diff3(style: crate::xdiff::ConflictStyle) -> bool {
    style == crate::xdiff::ConflictStyle::Diff3
}

/// The entry of `m` at `p`, if any.
pub open spec fn entry_of(m: Map<Seq<u8>, TreeEntry>, p: Seq<u8>) -> Option<TreeEntry> {
    if m.contains_key(p) {
        Some(m[p])
    } else {
        None
    }
}

/// Some directory of `dirs` holds `p`.
pub open spec fn under_some(dirs: Seq<Seq<u8>>, p: Seq<u8>) -> bool {
    exists|j: int| 0 <= j < dirs.len() && path_under(#[trigger] dirs[j], p)
}

/// The directories stepped over among the first `k` paths of `ks`: those reached (not under
/// one stepped over before) whose subtree is the same on every side that has it.
pub open spec fn skipped_before(b: Map<Seq<u8>, TreeEntry>, o: Map<Seq<u8>, TreeEntry>, t: Map<Seq<u8>, TreeEntry>, ks: Seq<Seq<u8>>,
    k: int) -> Seq<Seq<u8>>
    decreases k,
{
    if k <= 0 {
        Seq::empty()
    } else {
        let s = skipped_before(b, o, t, ks, k - 1);
        let p = ks[k - 1];
        if !under_some(s, p) && same_trees_spec(seq![entry_of(b, p), entry_of(o, p), entry_of(t, p)]) {
            s.push(p)
        } else {
            s
        }
    }
}

/// The path `ks[k]` is merged: it is not under a directory stepped over.
pub open spec fn reached(b: Map<Seq<u8>, TreeEntry>, o: Map<Seq<u8>, TreeEntry>, t: Map<Seq<u8>, TreeEntry>, ks: Seq<Seq<u8>>, k: int) -> bool {
    !under_some(skipped_before(b, o, t, ks, k), ks[k])
}

/// The merge of the flattened trees `b`, `o`, `t`, path by path along `ks`, went through the
/// states `us` (uncommitted paths found) and `rs` (repository): each path reached is merged
/// as `entries_merged` says, and the others change nothing.
pub open spec fn flat_merged(b: Map<Seq<u8>, TreeEntry>, o: Map<Seq<u8>, TreeEntry>, t: Map<Seq<u8>, TreeEntry>, ks: Seq<Seq<u8>>,
    us: Seq<Seq<Seq<u8>>>, rs: Seq<BitRepo>, diff3: bool) -> bool {
    &&& us.len() == ks.len() + 1
    &&& rs.len() == ks.len() + 1
    &&& forall|k: int| 0 <= k < ks.len() ==> #[trigger] merge_step(b, o, t, ks, us, rs, diff3, k)
}

/// Step `k` of a merge of flattened trees: the path `ks[k]`, where reached, is merged from
/// state `k` to state `k + 1`; otherwise nothing changes.
pub open spec fn merge_step(b: Map<Seq<u8>, TreeEntry>, o: Map<Seq<u8>, TreeEntry>, t: Map<Seq<u8>, TreeEntry>, ks: Seq<Seq<u8>>,
    us: Seq<Seq<Seq<u8>>>, rs: Seq<BitRepo>, diff3: bool, k: int) -> bool {
    if reached(b, o, t, ks, k) {
        entries_merged(us[k], us[k + 1], rs[k], rs[k + 1], entry_of(b, ks[k]), entry_of(o, ks[k]), entry_of(t, ks[k]), diff3, Ok(()))
    } else {
        us[k + 1] == us[k] && rs[k + 1] == rs[k]
    }
}

/// `after` is `before` with the trees `base`, `ours` and `theirs` (as `before` stores them)
/// merged three-way into its index and working tree, path by path, as `flat_merged` says.
pub open spec fn three_way_merged(before: BitRepo, after: BitRepo, base: Seq<u8>, ours: Seq<u8>, theirs: Seq<u8>) -> bool {
    let odb = before.spec_odb();
    let fuel = before.spec_odb_len();
    exists|b: Map<Seq<u8>, TreeEntry>, o: Map<Seq<u8>, TreeEntry>, t: Map<Seq<u8>, TreeEntry>, ks: Seq<Seq<u8>>, us: Seq<Seq<Seq<u8>>>,
        rs: Seq<BitRepo>| {
        &&& crate::tree::flatten_spec(odb, base, fuel) == Some(crate::tree::flat_view(b))
        &&& crate::tree::flatten_spec(odb, ours, fuel) == Some(crate::tree::flat_view(o))
        &&& crate::tree::flatten_spec(odb, theirs, fuel) == Some(crate::tree::flat_view(t))
        &&& flat_keys_ok(b) && flat_keys_ok(o) && flat_keys_ok(t)
        &&& union_listed(b, o, t, ks)
        &&& #[trigger] flat_merged(b, o, t, ks, us, rs, false)
        &&& rs[0] == before
        &&& rs[ks.len() as int] == after
    }
}

/// The merge step of a path where the base and theirs hold the same file and ours another
/// file stages our file there.
pub proof fn lemma_step_keeps_ours(b: Map<Seq<u8>, TreeEntry>, o: Map<Seq<u8>, TreeEntry>, t: Map<Seq<u8>, TreeEntry>, ks: Seq<Seq<u8>>,
    us: Seq<Seq<Seq<u8>>>, rs: Seq<BitRepo>, k: int)
    requires
        flat_merged(b, o, t, ks, us, rs, false),
        flat_keys_ok(o),
        0 <= k < ks.len(),
        reached(b, o, t, ks, k),
        b.contains_key(ks[k]) && t.contains_key(ks[k]) && o.contains_key(ks[k]),
        b[ks[k]].mode != FileMode::TREE && t[ks[k]].mode != FileMode::TREE && b[ks[k]].oid@ == t[ks[k]].oid@,
        o[ks[k]].mode != FileMode::TREE && o[ks[k]].oid@ != b[ks[k]].oid@,
    ensures
        rs[k + 1].spec_index().spec_entries().contains_key(index_key(ks[k], MergeStage::Normal)),
        staged_as(rs[k + 1].spec_index().spec_entries()[index_key(ks[k], MergeStage::Normal)], o[ks[k]], MergeStage::Normal),
{
    let p = ks[k];
    assert(merge_step(b, o, t, ks, us, rs, false, k));
    assert(entry_of(b, p) == Some(b[p]));
    assert(entry_of(o, p) == Some(o[p]));
    assert(entry_of(t, p) == Some(t[p]));
    assert(diff_kind(Some(b[p]), Some(o[p])) == Some(MergeDiffKind::ModifiedBlob));
    assert(diff_kind(Some(b[p]), Some(t[p])) == Some(MergeDiffKind::UnmodifiedBlob));
    assert(o[p].path@ == p);
}

/// Along the paths `ks` of a three-way merge of the flattened trees `b`, `o`, `t` through the
/// states `rs`: at each path reached where `b` and `t` hold the same file and `o` another
/// file, `o`'s file is what the step stages.
pub open spec fn keeps_ours_along(b: Map<Seq<u8>, TreeEntry>, o: Map<Seq<u8>, TreeEntry>, t: Map<Seq<u8>, TreeEntry>, ks: Seq<Seq<u8>>,
    rs: Seq<BitRepo>) -> bool {
    forall|k: int| 0 <= k < ks.len() && #[trigger] reached(b, o, t, ks, k) && b.contains_key(ks[k]) && t.contains_key(ks[k])
        && o.contains_key(ks[k]) && b[ks[k]].mode != FileMode::TREE && t[ks[k]].mode != FileMode::TREE && b[ks[k]].oid@
        == t[ks[k]].oid@ && o[ks[k]].mode != FileMode::TREE && o[ks[k]].oid@ != b[ks[k]].oid@ ==> {
        &&& rs[k + 1].spec_index().spec_entries().contains_key(index_key(ks[k], MergeStage::Normal))
        &&& staged_as(rs[k + 1].spec_index().spec_entries()[index_key(ks[k], MergeStage::Normal)], o[ks[k]], MergeStage::Normal)
    }
}

/// A three-way merge of the trees `base`, `ours` and `theirs` from `before`, path by path
/// through states that start at `before`, stages our file at each path reached where only
/// ours changed the file.
pub open spec fn merge_keeps_ours(before: BitRepo, base: Seq<u8>, ours: Seq<u8>, theirs: Seq<u8>) -> bool {
    let odb = before.spec_odb();
    let fuel = before.spec_odb_len();
    exists|b: Map<Seq<u8>, TreeEntry>, o: Map<Seq<u8>, TreeEntry>, t: Map<Seq<u8>, TreeEntry>, ks: Seq<Seq<u8>>, rs: Seq<BitRepo>| {
        &&& crate::tree::flatten_spec(odb, base, fuel) == Some(crate::tree::flat_view(b))
        &&& crate::tree::flatten_spec(odb, ours, fuel) == Some(crate::tree::flat_view(o))
        &&& crate::tree::flatten_spec(odb, theirs, fuel) == Some(crate::tree::flat_view(t))
        &&& rs.len() == ks.len() + 1
        &&& rs[0] == before
        &&& #[trigger] keeps_ours_along(b, o, t, ks, rs)
    }
}

/// Every three-way merge of trees stages our file where only ours changed it.
pub proof fn lemma_three_way_keeps_ours(before: BitRepo, after: BitRepo, base: Seq<u8>, ours: Seq<u8>, theirs: Seq<u8>)
    requires
        three_way_merged(before, after, base, ours, theirs),
    ensures
        merge_keeps_ours(before, base, ours, theirs),
{
    let odb = before.spec_odb();
    let fuel = before.spec_odb_len();
    let (b, o, t, ks, us, rs) = choose|b: Map<Seq<u8>, TreeEntry>, o: Map<Seq<u8>, TreeEntry>, t: Map<Seq<u8>, TreeEntry>, ks: Seq<
        Seq<u8>>, us: Seq<Seq<Seq<u8>>>, rs: Seq<BitRepo>| {
        &&& crate::tree::flatten_spec(odb, base, fuel) == Some(crate::tree::flat_view(b))
        &&& crate::tree::flatten_spec(odb, ours, fuel) == Some(crate::tree::flat_view(o))
        &&& crate::tree::flatten_spec(odb, theirs, fuel) == Some(crate::tree::flat_view(t))
        &&& flat_keys_ok(b) && flat_keys_ok(o) && flat_keys_ok(t)
        &&& union_listed(b, o, t, ks)
        &&& #[trigger] flat_merged(b, o, t, ks, us, rs, false)
        &&& rs[0] == before
        &&& rs[ks.len() as int] == after
    };
    lemma_keeps_ours_along(b, o, t, ks, us, rs);
}

/// Each step of a merge stages our file where only ours changed it.
proof fn lemma_keeps_ours_along(b: Map<Seq<u8>, TreeEntry>, o: Map<Seq<u8>, TreeEntry>, t: Map<Seq<u8>, TreeEntry>, ks: Seq<Seq<u8>>,
    us: Seq<Seq<Seq<u8>>>, rs: Seq<BitRepo>)
    requires
        flat_merged(b, o, t, ks, us, rs, false),
        flat_keys_ok(o),
    ensures
        keeps_ours_along(b, o, t, ks, rs),
{
    assert forall|k: int| 0 <= k < ks.len() && #[trigger] reached(b, o, t, ks, k) && b.contains_key(ks[k]) && t.contains_key(ks[k])
        && o.contains_key(ks[k]) && b[ks[k]].mode != FileMode::TREE && t[ks[k]].mode != FileMode::TREE && b[ks[k]].oid@
        == t[ks[k]].oid@ && o[ks[k]].mode != FileMode::TREE && o[ks[k]].oid@ != b[ks[k]].oid@ implies {
        &&& rs[k + 1].spec_index().spec_entries().contains_key(index_key(ks[k], MergeStage::Normal))
        &&& staged_as(rs[k + 1].spec_index().spec_entries()[index_key(ks[k], MergeStage::Normal)], o[ks[k]], MergeStage::Normal)
    } by {
        lemma_step_keeps_ours(b, o, t, ks, us, rs, k);
    }
}

/// `ks` lists the paths of `b`, `o` and `t`, each once, in increasing order.
pub open spec fn union_listed(b: Map<Seq<u8>, TreeEntry>, o: Map<Seq<u8>, TreeEntry>, t: Map<Seq<u8>, TreeEntry>, ks: Seq<Seq<u8>>) -> bool {
    &&& keys_sorted(ks)
    &&& forall|p: Seq<u8>| (exists|k: int| 0 <= k < ks.len() && ks[k] == p) <==> (b.contains_key(p) || o.contains_key(p)
        || t.contains_key(p))
}

/// The state of a merge of their head into ours.
pub struct MergeCtxt {
    their_head_ref: BitRef,
    their_head: Oid,
    their_head_desc: Vec<u8>,
    opts: MergeOpts,
    uncommitted: Vec<Vec<u8>>,
    style: crate::xdiff::ConflictStyle,
}

impl MergeCtxt {
    /// The paths found with uncommitted changes that the merge would overwrite.
    pub closed spec fn spec_uncommitted(&self) -> Seq<Seq<u8>> {
        self.uncommitted@.map_values(|p: Vec<u8>| p@)
    }
}

/// The same file (same id and mode) or the same absence.
fn same_blob(a: Option<&TreeEntry>, b: Option<&TreeEntry>) -> (r: bool)
    ensures
        r == (match (a, b) {
            (None, None) => true,
            (Some(x), Some(y)) => x.oid@ == y.oid@ && x.mode == y.mode,
            _ => false,
        }),
{
    match (a, b) {
        (None, None) => true,
        (Some(x), Some(y)) => x.oid.same(&y.oid) && x.mode == y.mode,
        _ => false,
    }
}

/// The file (not tree) entry of `m` at `p`.
fn blob_entry<'a>(m: &'a ByteMap<TreeEntry>, p: &[u8]) -> (r: Option<&'a TreeEntry>)
    ensures
        r is Some <==> crate::diff::blob_at(m.spec_map(), p@),
        r matches Some(e) ==> *e == m.spec_map()[p@],
{
    match m.get(p) {
        Some(e) => if e.mode.is_tree() { None } else { Some(e) },
        None => None,
    }
}

/// `path` followed by `~` and `suffix`.
fn tilde_path(path: &[u8], suffix: &[u8]) -> (r: Vec<u8>)
    ensures
        r@ == path@ + seq![126u8] + suffix@,
{
    let mut r = slice_to_vec(path);
    r.push(126u8);
    append_bytes(&mut r, suffix);
    r
}

/// The keys of three maps, each once, in increasing order.
fn union_keys(a: &ByteMap<TreeEntry>, b: &ByteMap<TreeEntry>, c: &ByteMap<TreeEntry>) -> (r: ByteMap<u8>)
    ensures
        forall|p: Seq<u8>| #[trigger] r.spec_map().contains_key(p) <==> (a.spec_map().contains_key(p) || b.spec_map().contains_key(p)
            || c.spec_map().contains_key(p)),
{
    let mut r: ByteMap<u8> = ByteMap::new();
    add_keys(&mut r, a);
    add_keys(&mut r, b);
    add_keys(&mut r, c);
    r
}

/// Adds the keys of `m` to `r`.
fn add_keys(r: &mut ByteMap<u8>, m: &ByteMap<TreeEntry>)
    ensures
        forall|p: Seq<u8>| #[trigger] final(r).spec_map().contains_key(p) <==> (old(r).spec_map().contains_key(p)
            || m.spec_map().contains_key(p)),
{
    m.well_formed();
    proof {
        m.lemma_list();
    }
    let n = m.len();
    let mut i: usize = 0;
    while i < n
        invariant
            0 <= i <= n,
            n == m.spec_keys().len(),
            forall|p: Seq<u8>| #[trigger] r.spec_map().contains_key(p) <==> (old(r).spec_map().contains_key(p)
                || exists|k: int| 0 <= k < i && m.spec_keys()[k] == p),
        decreases n - i,
    {
        let ghost r0 = r.spec_map();
        r.insert(copy_bytes(m.key_at(i)), 0u8);
        proof {
            assert forall|p: Seq<u8>| #[trigger] r.spec_map().contains_key(p) <==> (old(r).spec_map().contains_key(p)
                || exists|k: int| 0 <= k < i + 1 && m.spec_keys()[k] == p) by {
                if p == m.spec_keys()[i as int] {
                    assert(m.spec_keys()[i as int] == p);
                }
            }
        }
        i = i + 1;
    }
    proof {
        assert forall|p: Seq<u8>| #[trigger] r.spec_map().contains_key(p) <==> (old(r).spec_map().contains_key(p)
            || m.spec_map().contains_key(p)) by {
            if m.spec_map().contains_key(p) {
                let k = choose|k: int| 0 <= k < m.spec_keys().len() && m.spec_keys()[k] == p;
            }
            if exists|k: int| 0 <= k < n && m.spec_keys()[k] == p {
                let k = choose|k: int| 0 <= k < n && m.spec_keys()[k] == p;
                assert(m.spec_map().contains_key(m.spec_keys()[k]));
            }
        }
    }
}

/// Whether some directory of `dirs` holds `p`.
fn under_any(dirs: &Vec<Vec<u8>>, p: &[u8]) -> (r: bool)
    ensures
        r == exists|j: int| 0 <= j < dirs@.len() && path_under(#[trigger] dirs@[j]@, p@),
{
    let mut j: usize = 0;
    while j < dirs.len()
        invariant
            0 <= j <= dirs@.len(),
            forall|k: int| 0 <= k < j ==> !path_under(#[trigger] dirs@[k]@, p@),
        decreases dirs@.len() - j,
    {
        if is_path_under(dirs[j].as_slice(), p) {
            return true;
        }
        j = j + 1;
    }
    false
}

/// Every entry present among `s` is a tree, all with one and the same id, and at least two
/// are present: the whole subtree is the same on those sides.
pub open spec fn same_trees_spec(s: Seq<Option<TreeEntry>>) -> bool {
    &&& forall|i: int| 0 <= i < s.len() && (#[trigger] s[i]) is Some ==> s[i]->0.mode == FileMode::TREE
    &&& forall|i: int, j: int| 0 <= i < s.len() && 0 <= j < s.len() && #[trigger] s[i] is Some && #[trigger] s[j] is Some
        ==> s[i]->0.oid@ == s[j]->0.oid@
    &&& exists|i: int, j: int| 0 <= i < j < s.len() && #[trigger] s[i] is Some && #[trigger] s[j] is Some
}

/// Whether every entry present is a tree with one and the same id, and at least two are
/// present: the whole subtree is the same on those sides.
fn same_trees(b: Option<&TreeEntry>, o: Option<&TreeEntry>, t: Option<&TreeEntry>) -> (r: bool)
    ensures
        r == same_trees_spec(seq![opt_entry(b), opt_entry(o), opt_entry(t)]),
{
    let ghost s = seq![opt_entry(b), opt_entry(o), opt_entry(t)];
    let mut count: usize = 0;
    let mut oid: Option<Oid> = None;
    let entries = [b, o, t];
    proof {
        assert(opt_entry(entries@[0]) == s[0]);
        assert(opt_entry(entries@[1]) == s[1]);
        assert(opt_entry(entries@[2]) == s[2]);
    }
    let mut i: usize = 0;
    while i < 3
        invariant
            0 <= i <= 3,
            count <= i,
            s == seq![opt_entry(b), opt_entry(o), opt_entry(t)],
            forall|k: int| 0 <= k < 3 ==> opt_entry(#[trigger] entries@[k]) == s[k],
            (count == 0) <==> (forall|a: int| 0 <= a < i ==> (#[trigger] s[a]) is None),
            (count >= 2) <==> (exists|a: int, c: int| 0 <= a < c < i && #[trigger] s[a] is Some && #[trigger] s[c] is Some),
            oid is None <==> count == 0,
            forall|a: int| 0 <= a < i && (#[trigger] s[a]) is Some ==> s[a]->0.mode == FileMode::TREE,
            oid matches Some(x) ==> forall|a: int| 0 <= a < i && (#[trigger] s[a]) is Some ==> s[a]->0.oid@ == x@,
        decreases 3 - i,
    {
        let ghost ii = i as int;
        match entries[i] {
            Some(e) => {
                proof {
                    assert(s[ii] == Some(*e));
                }
                if !e.mode.is_tree() {
                    proof {
                        assert(s[ii] is Some && s[ii]->0.mode != FileMode::TREE);
                        assert(!same_trees_spec(s));
                    }
                    return false;
                }
                match oid {
                    Some(x) => {
                        if !x.same(&e.oid) {
                            proof {
                                let w = choose|a: int| 0 <= a < i && (#[trigger] s[a]) is Some;
                                assert(s[w]->0.oid@ == x@);
                                assert(!(s[w]->0.oid@ == s[ii]->0.oid@));
                                assert(!same_trees_spec(s));
                            }
                            return false;
                        }
                    },
                    None => {
                        oid = Some(e.oid);
                    },
                }
                proof {
                    if count != 0 {
                        let w = choose|a: int| 0 <= a < i && (#[trigger] s[a]) is Some;
                        assert(0 <= w < ii && s[w] is Some && s[ii] is Some);
                    } else {
                        assert forall|a: int, c: int| 0 <= a < c < ii + 1 && #[trigger] s[a] is Some && #[trigger] s[c] is Some implies false by {
                            assert(s[a] is None);
                        }
                    }
                }
                count = count + 1;
            },
            None => {
                proof {
                    assert(s[ii] is None);
                    if count >= 2 {
                        let (a, c) = choose|a: int, c: int| 0 <= a < c < i && #[trigger] s[a] is Some && #[trigger] s[c] is Some;
                        assert(0 <= a < c < ii + 1 && s[a] is Some && s[c] is Some);
                    }
                }
            },
        }
        i = i + 1;
    }
    proof {
        if count > 1 {
            let x = oid->0;
            assert forall|a: int, c: int| 0 <= a < 3 && 0 <= c < 3 && #[trigger] s[a] is Some && #[trigger] s[c] is Some
                implies s[a]->0.oid@ == s[c]->0.oid@ by {
                assert(s[a]->0.oid@ == x@);
                assert(s[c]->0.oid@ == x@);
            }
        }
    }
    count > 1
}

impl MergeCtxt {
    /// Writes the blob of `e` to the working tree at `path`, with the mode of `e`.
    fn write_to_disk(repo: &mut BitRepo, e: &TreeEntry, path: Vec<u8>) -> (r: BitResult<()>)
        requires
            old(repo).wf(),
        ensures
            final(repo).wf(),
            final(repo).spec_refs() == old(repo).spec_refs(),
            final(repo).spec_head() == old(repo).spec_head(),
            r is Ok ==> final(repo).spec_worktree().contains_key(path@) && final(repo).spec_worktree()[path@].mode == e.mode,
            r matches Err(e) ==> !(e is MergeConflict),
            r is Ok <==> blob_stored(old(repo).spec_odb(), e.oid@),
            r is Err ==> *final(repo) == *old(repo),
            r is Ok ==> wrote_blob(old(repo).spec_worktree(), final(repo).spec_worktree(), path@, e.mode, old(repo).spec_odb(), e.oid@),
            final(repo).spec_odb() == old(repo).spec_odb(),
            final(repo).spec_index() == old(repo).spec_index(),
    {
        let data = copy_bytes(repo.read_blob(&e.oid)?);
        repo.write_file(path, WorktreeFile { mode: e.mode, data });
        Ok(())
    }

    /// Stages `e` (stage `Normal`).
    fn add_entry(repo: &mut BitRepo, e: &TreeEntry)
        requires
            old(repo).wf(),
        ensures
            final(repo).wf(),
            final(repo).spec_refs() == old(repo).spec_refs(),
            final(repo).spec_head() == old(repo).spec_head(),
            final(repo).spec_index().spec_entries().contains_key(index_key(e.path@, MergeStage::Normal)),
            staged_normal(old(repo).spec_index().spec_entries(), final(repo).spec_index().spec_entries(), *e),
            final(repo).spec_worktree() == old(repo).spec_worktree(),
            final(repo).spec_odb() == old(repo).spec_odb(),
    {
        repo.index_add_entry(BitIndexEntry::from_tree_entry(e));
    }

    /// Stages `e` as the conflict entry of `stage`.
    fn add_conflicted(repo: &mut BitRepo, e: &TreeEntry, stage: MergeStage)
        requires
            old(repo).wf(),
            stage != MergeStage::Normal,
        ensures
            final(repo).wf(),
            final(repo).spec_refs() == old(repo).spec_refs(),
            final(repo).spec_head() == old(repo).spec_head(),
            final(repo).spec_index().spec_entries().contains_key(index_key(e.path@, stage)),
            staged_conflict(old(repo).spec_index().spec_entries(), final(repo).spec_index().spec_entries(), *e, stage),
            final(repo).spec_worktree() == old(repo).spec_worktree(),
            final(repo).spec_odb() == old(repo).spec_odb(),
    {
        repo.index_add_conflicted(BitIndexEntry::from_tree_entry(e), stage);
    }

    /// Writes their version of a conflicted file beside it, at `<path>~<their head>` (made
    /// unique).
    fn write_their_conflicted(&self, repo: &mut BitRepo, theirs: &TreeEntry) -> (r: BitResult<()>)
        requires
            old(repo).wf(),
        ensures
            final(repo).wf(),
            final(repo).spec_refs() == old(repo).spec_refs(),
            final(repo).spec_head() == old(repo).spec_head(),
            r matches Err(e) ==> !(e is MergeConflict),
            r is Err ==> *final(repo) == *old(repo),
            !blob_stored(old(repo).spec_odb(), theirs.oid@) ==> r is Err,
            final(repo).spec_index() == old(repo).spec_index(),
            final(repo).spec_odb() == old(repo).spec_odb(),
            r is Ok ==> exists|q: Seq<u8>| #[trigger] free_beside(old(repo).spec_worktree(), theirs.path@ + seq![126u8]
                + self.their_head_desc@, q) && wrote_blob(old(repo).spec_worktree(), final(repo).spec_worktree(), q,
                theirs.mode, old(repo).spec_odb(), theirs.oid@),
    {
        let base = tilde_path(theirs.path.as_slice(), self.their_head_desc.as_slice());
        let p = crate::fs::UniquePath::new(repo, base.as_slice())?;
        let ghost q = p@;
        proof {
            assert(free_beside(old(repo).spec_worktree(), theirs.path@ + seq![126u8] + self.their_head_desc@, q));
        }
        MergeCtxt::write_to_disk(repo, theirs, p)
    }

    /// Moves our version of a conflicted file out of the way, to `<path>~HEAD` (made unique).
    fn mv_our_conflicted(repo: &mut BitRepo, path: &[u8]) -> (r: BitResult<()>)
        requires
            old(repo).wf(),
        ensures
            final(repo).wf(),
            final(repo).spec_refs() == old(repo).spec_refs(),
            final(repo).spec_head() == old(repo).spec_head(),
            r matches Err(e) ==> !(e is MergeConflict),
            r is Err ==> *final(repo) == *old(repo),
            final(repo).spec_index() == old(repo).spec_index(),
            final(repo).spec_odb() == old(repo).spec_odb(),
            r is Ok ==> exists|q: Seq<u8>| #[trigger] free_beside(old(repo).spec_worktree(), path@ + seq![126u8]
                + crate::repo::head_name(), q) && (if old(repo).spec_worktree().contains_key(path@) {
                final(repo).spec_worktree() == old(repo).spec_worktree().remove(path@).insert(q, old(repo).spec_worktree()[path@])
            } else {
                final(repo).spec_worktree() == old(repo).spec_worktree()
            }),
    {
        let hn = crate::repo::head_name_bytes();
        let base = tilde_path(path, hn.as_slice());
        let p = crate::fs::UniquePath::new(repo, base.as_slice())?;
        let ghost q = p@;
        proof {
            assert(free_beside(old(repo).spec_worktree(), path@ + seq![126u8] + crate::repo::head_name(), q));
        }
        repo.mv(path, p);
        Ok(())
    }

    /// Merges the contents of a file changed on both sides: the merged file is written and
    /// staged, or the file with conflict markers is written and the three versions are
    /// staged as conflict entries.
    fn three_way_merge(&self, repo: &mut BitRepo, base: Option<&TreeEntry>, ours: &TreeEntry, theirs: &TreeEntry) -> (r: BitResult<()>)
        requires
            old(repo).wf(),
        ensures
            final(repo).wf(),
            final(repo).spec_refs() == old(repo).spec_refs(),
            final(repo).spec_head() == old(repo).spec_head(),
            r matches Err(e) ==> !(e is MergeConflict),
            r is Ok <==> ((opt_entry(base) matches Some(b) ==> blob_stored(old(repo).spec_odb(), b.oid@)) && ours.mode == theirs.mode
                && blob_stored(old(repo).spec_odb(), ours.oid@) && blob_stored(old(repo).spec_odb(), theirs.oid@)),
            r is Err ==> *final(repo) == *old(repo),
            r is Ok ==> merged_into(*old(repo), *final(repo), opt_entry(base), *ours, *theirs, self.style == crate::xdiff::ConflictStyle::Diff3),
    {
        let base_bytes = match base {
            Some(b) => copy_bytes(repo.read_blob(&b.oid)?),
            None => Vec::new(),
        };
        if ours.mode != theirs.mode {
            return Err(BitError::Unsupported);
        }
        let ob = copy_bytes(repo.read_blob(&ours.oid)?);
        let tb = copy_bytes(repo.read_blob(&theirs.oid)?);
        let ghost r0 = *repo;
        match crate::xdiff::merge(self.style, base_bytes.as_slice(), ob.as_slice(), tb.as_slice()) {
            Ok(merged) => {
                let oid = repo.write_blob(copy_bytes(&merged));
                repo.write_file(copy_bytes(&ours.path), WorktreeFile { mode: ours.mode, data: merged });
                let e = TreeEntry { mode: ours.mode, path: copy_bytes(&ours.path), oid };
                MergeCtxt::add_entry(repo, &e);
                proof {
                    assert(repo.spec_worktree() == r0.spec_worktree().insert(ours.path@, repo.spec_worktree()[ours.path@]));
                }
            },
            Err(conflicted) => {
                repo.write_file(copy_bytes(&ours.path), WorktreeFile { mode: ours.mode, data: conflicted });
                let ghost m0 = repo.spec_index().spec_entries();
                match base {
                    Some(b) => MergeCtxt::add_conflicted(repo, b, MergeStage::Base),
                    None => {},
                }
                let ghost m1 = repo.spec_index().spec_entries();
                MergeCtxt::add_conflicted(repo, ours, MergeStage::Ours);
                let ghost m2 = repo.spec_index().spec_entries();
                MergeCtxt::add_conflicted(repo, theirs, MergeStage::Theirs);
                proof {
                    assert(repo.spec_worktree() == r0.spec_worktree().insert(ours.path@, repo.spec_worktree()[ours.path@]));
                    assert(staged_conflicts(r0.spec_index().spec_entries(), m1, m2, repo.spec_index().spec_entries(),
                        opt_entry(base), *ours, *theirs));
                }
            },
        }
        Ok(())
    }

    /// A path changed only on our side: the working tree and index already hold our
    /// version.
    fn base_to_ours_only(repo: &mut BitRepo, ours: &MergeDiffEntry)
        requires
            old(repo).wf(),
        ensures
            final(repo).wf(),
            final(repo).spec_refs() == old(repo).spec_refs(),
            final(repo).spec_head() == old(repo).spec_head(),
            ours.kind == MergeDiffKind::CreatedBlob ==> staged_normal(old(repo).spec_index().spec_entries(),
                final(repo).spec_index().spec_entries(), ours.entry) && final(repo).spec_worktree() == old(repo).spec_worktree()
                && final(repo).spec_odb() == old(repo).spec_odb(),
            ours.kind != MergeDiffKind::CreatedBlob ==> *final(repo) == *old(repo),
    {
        match ours.kind {
            MergeDiffKind::CreatedBlob => MergeCtxt::add_entry(repo, &ours.entry),
            _ => {},
        }
    }

    /// A path changed only on their side: a new file is written and staged, unless
    /// something (untracked) is in its place, which stops the merge.
    fn base_to_theirs_only(&mut self, repo: &mut BitRepo, theirs: &MergeDiffEntry) -> (r: BitResult<()>)
        requires
            old(repo).wf(),
        ensures
            final(repo).wf(),
            final(repo).spec_refs() == old(repo).spec_refs(),
            final(repo).spec_head() == old(repo).spec_head(),
            r matches Err(e) ==> !(e is MergeConflict),
            final(self).style == old(self).style,
            theirs.kind == MergeDiffKind::CreatedBlob ==> took_their_file(old(self).spec_uncommitted(),
                final(self).spec_uncommitted(), *old(repo), *final(repo), theirs.entry, r),
            theirs.kind != MergeDiffKind::CreatedBlob ==> r is Ok && *final(repo) == *old(repo)
                && final(self).spec_uncommitted() == old(self).spec_uncommitted(),
    {
        match theirs.kind {
            MergeDiffKind::CreatedBlob => {
                let path = theirs.entry.path.as_slice();
                if repo.path_exists(path) {
                    self.uncommitted.push(copy_bytes(&theirs.entry.path));
                    proof {
                        assert(self.spec_uncommitted() =~= old(self).spec_uncommitted().push(theirs.entry.path@));
                    }
                } else {
                    MergeCtxt::write_to_disk(repo, &theirs.entry, copy_bytes(&theirs.entry.path))?;
                    MergeCtxt::add_entry(repo, &theirs.entry);
                }
                Ok(())
            },
            _ => Ok(()),
        }
    }

    /// Merges a path changed on both sides.
    fn merge_entry(&mut self, repo: &mut BitRepo, base: Option<&TreeEntry>, ours: &MergeDiffEntry, theirs: &MergeDiffEntry) -> (r:
        BitResult<()>)
        requires
            old(repo).wf(),
        ensures
            final(repo).wf(),
            final(repo).spec_refs() == old(repo).spec_refs(),
            final(repo).spec_head() == old(repo).spec_head(),
            r matches Err(e) ==> !(e is MergeConflict),
            final(self).style == old(self).style,
            final(self).spec_uncommitted() == old(self).spec_uncommitted(),
            merged_entry(*old(repo), *final(repo), opt_entry(base), ours.kind, theirs.kind, ours.entry, theirs.entry,
                old(self).style == crate::xdiff::ConflictStyle::Diff3, r),
    {
        let o = &ours.entry;
        let t = &theirs.entry;
        match (ours.kind, theirs.kind) {
            (MergeDiffKind::DeletedBlob, MergeDiffKind::DeletedBlob) => {
                repo.index_remove(o.path.as_slice(), MergeStage::Normal);
            },
            (MergeDiffKind::DeletedBlob, MergeDiffKind::ModifiedBlob) => {
                match base {
                    Some(b) => MergeCtxt::add_conflicted(repo, b, MergeStage::Base),
                    None => {},
                }
                let ghost m1 = repo.spec_index().spec_entries();
                MergeCtxt::add_conflicted(repo, t, MergeStage::Theirs);
                let ghost m2 = repo.spec_index().spec_entries();
                let w = MergeCtxt::write_to_disk(repo, t, copy_bytes(&t.path));
                proof {
                    assert(staged_base(old(repo).spec_index().spec_entries(), m1, opt_entry(base)));
                    assert(staged_conflict(m1, m2, *t, MergeStage::Theirs));
                }
                w?;
            },
            (MergeDiffKind::ModifiedBlob, MergeDiffKind::DeletedBlob) => {
                match base {
                    Some(b) => MergeCtxt::add_conflicted(repo, b, MergeStage::Base),
                    None => {},
                }
                let ghost m1 = repo.spec_index().spec_entries();
                MergeCtxt::add_conflicted(repo, o, MergeStage::Ours);
                proof {
                    assert(staged_base(old(repo).spec_index().spec_entries(), m1, opt_entry(base)));
                    assert(staged_conflict(m1, repo.spec_index().spec_entries(), *o, MergeStage::Ours));
                }
            },
            (MergeDiffKind::DeletedBlob, MergeDiffKind::UnmodifiedBlob) => {
                repo.index_remove(o.path.as_slice(), MergeStage::Normal);
            },
            (MergeDiffKind::CreatedBlob, MergeDiffKind::CreatedBlob) => {
                self.three_way_merge(repo, base, o, t)?;
            },
            (MergeDiffKind::ModifiedBlob, MergeDiffKind::ModifiedBlob) => {
                self.three_way_merge(repo, base, o, t)?;
            },
            (MergeDiffKind::ModifiedBlob, MergeDiffKind::UnmodifiedBlob) => {
                MergeCtxt::add_entry(repo, o);
            },
            (MergeDiffKind::ModifiedBlob, MergeDiffKind::BlobToTree) => {
                match base {
                    Some(b) => MergeCtxt::add_conflicted(repo, b, MergeStage::Base),
                    None => {},
                }
                MergeCtxt::add_conflicted(repo, o, MergeStage::Ours);
                MergeCtxt::mv_our_conflicted(repo, o.path.as_slice())?;
            },
            (MergeDiffKind::BlobToTree, MergeDiffKind::ModifiedBlob) => {
                match base {
                    Some(b) => MergeCtxt::add_conflicted(repo, b, MergeStage::Base),
                    None => {},
                }
                MergeCtxt::add_conflicted(repo, t, MergeStage::Theirs);
                self.write_their_conflicted(repo, t)?;
            },
            (MergeDiffKind::ModifiedTree, MergeDiffKind::TreeToBlob) => {
                MergeCtxt::add_conflicted(repo, t, MergeStage::Theirs);
                self.write_their_conflicted(repo, t)?;
            },
            (MergeDiffKind::TreeToBlob, MergeDiffKind::ModifiedTree) => {
                MergeCtxt::add_conflicted(repo, o, MergeStage::Ours);
                MergeCtxt::mv_our_conflicted(repo, o.path.as_slice())?;
            },
            (MergeDiffKind::UnmodifiedTree, MergeDiffKind::DeletedTree) => {
                repo.index_remove_directory(o.path.as_slice());
                repo.rmdir_all(o.path.as_slice());
            },
            (MergeDiffKind::UnmodifiedBlob, MergeDiffKind::ModifiedBlob) => {
                MergeCtxt::write_to_disk(repo, t, copy_bytes(&t.path))?;
                MergeCtxt::add_entry(repo, t);
            },
            (MergeDiffKind::UnmodifiedBlob, MergeDiffKind::BlobToTree) => {
                repo.rm(t.path.as_slice());
            },
            (MergeDiffKind::CreatedBlob, MergeDiffKind::CreatedTree) => {
                MergeCtxt::add_conflicted(repo, o, MergeStage::Ours);
                MergeCtxt::mv_our_conflicted(repo, o.path.as_slice())?;
            },
            (MergeDiffKind::CreatedTree, MergeDiffKind::CreatedBlob) => {
                MergeCtxt::add_conflicted(repo, t, MergeStage::Theirs);
                self.write_their_conflicted(repo, t)?;
            },
            (MergeDiffKind::DeletedTree, MergeDiffKind::DeletedTree) => {
                repo.index_remove_directory(o.path.as_slice());
            },
            (MergeDiffKind::UnmodifiedTree, MergeDiffKind::TreeToBlob) => {
                repo.rmdir_all(o.path.as_slice());
                MergeCtxt::write_to_disk(repo, t, copy_bytes(&t.path))?;
                MergeCtxt::add_entry(repo, t);
            },
            (MergeDiffKind::UnmodifiedBlob, MergeDiffKind::DeletedBlob) => {
                repo.rm(t.path.as_slice());
                repo.index_remove(t.path.as_slice(), MergeStage::Normal);
            },
            (MergeDiffKind::DeletedTree, MergeDiffKind::TreeToBlob) => {
                MergeCtxt::write_to_disk(repo, t, copy_bytes(&t.path))?;
                MergeCtxt::add_entry(repo, t);
            },
            (MergeDiffKind::TreeToBlob, MergeDiffKind::TreeToBlob) => {
                self.three_way_merge(repo, None, o, t)?;
            },
            // Every other pair leaves the path as our side has it.
            _ => {},
        }
        Ok(())
    }

    /// Merges one path, given its entries in the merge base, our tree and their tree.
    fn merge_entries(&mut self, repo: &mut BitRepo, base: Option<&TreeEntry>, ours: Option<&TreeEntry>, theirs: Option<&TreeEntry>) -> (r:
        BitResult<()>)
        requires
            old(repo).wf(),
        ensures
            final(repo).wf(),
            final(repo).spec_refs() == old(repo).spec_refs(),
            final(repo).spec_head() == old(repo).spec_head(),
            r matches Err(e) ==> !(e is MergeConflict),
            final(self).style == old(self).style,
            final(self).spec_uncommitted().len() >= old(self).spec_uncommitted().len(),
            entries_merged(old(self).spec_uncommitted(), final(self).spec_uncommitted(), *old(repo), *final(repo), opt_entry(base),
                opt_entry(ours), opt_entry(theirs), old(self).style == crate::xdiff::ConflictStyle::Diff3, r),
    {
        let to_ours = diff_base_to_other(base, ours);
        let to_theirs = diff_base_to_other(base, theirs);
        match (to_ours, to_theirs) {
            (None, None) => Ok(()),
            (None, Some(t)) => self.base_to_theirs_only(repo, &t),
            (Some(o), None) => {
                MergeCtxt::base_to_ours_only(repo, &o);
                Ok(())
            },
            (Some(o), Some(t)) => {
                let r = self.merge_entry(repo, base, &o, &t);
                proof {
                    lemma_merged_entry_views(*old(repo), *repo, opt_entry(base), o.kind, t.kind, o.entry, t.entry,
                        changed_entry(opt_entry(base), opt_entry(ours)), changed_entry(opt_entry(base), opt_entry(theirs)),
                        old(self).style == crate::xdiff::ConflictStyle::Diff3, r);
                }
                r
            },
        }
    }

    /// Merges the flattened trees of the merge base, ours and theirs into the index and the
    /// working tree, path by path in increasing order, stepping over subtrees that are the
    /// same on every side that has them.
    #[verifier::rlimit(100)]
    fn merge_flat(&mut self, repo: &mut BitRepo, base: &ByteMap<TreeEntry>, ours: &ByteMap<TreeEntry>, theirs: &ByteMap<TreeEntry>) -> (r:
        BitResult<()>)
        requires
            old(repo).wf(),
        ensures
            final(repo).wf(),
            final(repo).spec_refs() == old(repo).spec_refs(),
            final(repo).spec_head() == old(repo).spec_head(),
            r matches Err(e) ==> !(e is MergeConflict),
            final(self).style == old(self).style,
            final(self).spec_uncommitted().len() >= old(self).spec_uncommitted().len(),
            r is Ok ==> exists|ks: Seq<Seq<u8>>, us: Seq<Seq<Seq<u8>>>, rs: Seq<BitRepo>| {
                &&& union_listed(base.spec_map(), ours.spec_map(), theirs.spec_map(), ks)
                &&& #[trigger] flat_merged(base.spec_map(), ours.spec_map(), theirs.spec_map(), ks, us, rs,
                    is_diff3(old(self).style))
                &&& us[0] == old(self).spec_uncommitted() && rs[0] == *old(repo)
                &&& us[ks.len() as int] == final(self).spec_uncommitted() && rs[ks.len() as int] == *final(repo)
            },
    {
        let keys = union_keys(base, ours, theirs);
        let n = keys.len();
        keys.well_formed();
        proof {
            keys.lemma_list();
        }
        let ghost ks = keys.spec_keys();
        let ghost bm = base.spec_map();
        let ghost om = ours.spec_map();
        let ghost tm = theirs.spec_map();
        let ghost d3 = old(self).style == crate::xdiff::ConflictStyle::Diff3;
        let ghost mut us: Seq<Seq<Seq<u8>>> = seq![self.spec_uncommitted()];
        let ghost mut rs: Seq<BitRepo> = seq![*repo];
        proof {
            assert(union_listed(bm, om, tm, ks)) by {
                assert forall|p: Seq<u8>| (exists|k: int| 0 <= k < ks.len() && ks[k] == p) <==> (bm.contains_key(p) || om.contains_key(p)
                    || tm.contains_key(p)) by {
                    if exists|k: int| 0 <= k < ks.len() && ks[k] == p {
                        let k = choose|k: int| 0 <= k < ks.len() && ks[k] == p;
                        assert(keys.spec_map().contains_key(ks[k]));
                    }
                    if bm.contains_key(p) || om.contains_key(p) || tm.contains_key(p) {
                        assert(keys.spec_map().contains_key(p));
                    }
                }
            }
        }
        let mut skipped: Vec<Vec<u8>> = Vec::new();
        let mut i: usize = 0;
        while i < n
            invariant
                0 <= i <= n,
                n == keys.spec_keys().len(),
                ks == keys.spec_keys(),
                bm == base.spec_map(),
                om == ours.spec_map(),
                tm == theirs.spec_map(),
                repo.wf(),
                repo.spec_refs() == old(repo).spec_refs(),
                repo.spec_head() == old(repo).spec_head(),
                self.style == old(self).style,
                d3 == (old(self).style == crate::xdiff::ConflictStyle::Diff3),
                skipped@.map_values(|v: Vec<u8>| v@) == skipped_before(bm, om, tm, ks, i as int),
                us.len() == i + 1,
                rs.len() == i + 1,
                us[0] == old(self).spec_uncommitted(),
                rs[0] == *old(repo),
                us[i as int] == self.spec_uncommitted(),
                rs[i as int] == *repo,
                self.spec_uncommitted().len() >= old(self).spec_uncommitted().len(),
                forall|k: int| 0 <= k < i ==> #[trigger] merge_step(bm, om, tm, ks, us, rs, d3, k),
            decreases n - i,
        {
            let ghost u_before = self.spec_uncommitted();
            let ghost r_before = *repo;
            let ghost sk = skipped@.map_values(|v: Vec<u8>| v@);
            let p = keys.key_at(i);
            let ghost pv = p@;
            let under = under_any(&skipped, p.as_slice());
            proof {
                assert(under == under_some(sk, pv)) by {
                    if under {
                        let j = choose|j: int| 0 <= j < skipped@.len() && path_under(#[trigger] skipped@[j]@, p@);
                        assert(sk[j] == skipped@[j]@);
                    }
                    if under_some(sk, pv) {
                        let j = choose|j: int| 0 <= j < sk.len() && path_under(#[trigger] sk[j], pv);
                        assert(sk[j] == skipped@[j]@);
                    }
                }
                assert(reached(bm, om, tm, ks, i as int) == !under);
            }
            if !under {
                let b = base.get(p.as_slice());
                let o = ours.get(p.as_slice());
                let t = theirs.get(p.as_slice());
                proof {
                    assert(opt_entry(b) == entry_of(bm, pv));
                    assert(opt_entry(o) == entry_of(om, pv));
                    assert(opt_entry(t) == entry_of(tm, pv));
                }
                if same_trees(b, o, t) {
                    skipped.push(copy_bytes(p));
                    proof {
                        assert(skipped@.map_values(|v: Vec<u8>| v@) =~= sk.push(pv));
                    }
                }
                let res = self.merge_entries(repo, b, o, t);
                match res {
                    Ok(()) => {},
                    Err(e) => {
                        return Err(e);
                    },
                }
            }
            proof {
                assert(skipped@.map_values(|v: Vec<u8>| v@) == skipped_before(bm, om, tm, ks, i + 1));
                let ghost u_after = self.spec_uncommitted();
                let ghost r_after = *repo;
                let us0 = us;
                let rs0 = rs;
                us = us.push(u_after);
                rs = rs.push(r_after);
                assert forall|k: int| 0 <= k < i + 1 implies #[trigger] merge_step(bm, om, tm, ks, us, rs, d3, k) by {
                    if k < i {
                        assert(merge_step(bm, om, tm, ks, us0, rs0, d3, k));
                        assert(us[k] == us0[k] && us[k + 1] == us0[k + 1] && rs[k] == rs0[k] && rs[k + 1] == rs0[k + 1]);
                    } else {
                        assert(us[k] == u_before && rs[k] == r_before && us[k + 1] == u_after && rs[k + 1] == r_after);
                    }
                }
            }
            i = i + 1;
        }
        proof {
            assert(d3 == is_diff3(old(self).style));
            assert(flat_merged(base.spec_map(), ours.spec_map(), theirs.spec_map(), ks, us, rs, is_diff3(old(self).style)));
            assert(union_listed(base.spec_map(), ours.spec_map(), theirs.spec_map(), ks));
            assert(us[ks.len() as int] == self.spec_uncommitted() && rs[ks.len() as int] == *repo);
        }
        Ok(())
    }

    /// The merge of two flattened trees against a base, without touching the index or the
    /// working tree: the files of the result, in increasing path order. Fails when the
    /// sides conflict.
    fn merge_flat_clean(&self, repo: &mut BitRepo, base: &ByteMap<TreeEntry>, ours: &ByteMap<TreeEntry>, theirs: &ByteMap<TreeEntry>) -> (r:
        BitResult<Vec<BitIndexEntry>>)
        requires
            old(repo).wf(),
        ensures
            final(repo).wf(),
            final(repo).spec_refs() == old(repo).spec_refs(),
            final(repo).spec_head() == old(repo).spec_head(),
            final(repo).spec_index() == old(repo).spec_index(),
            final(repo).spec_worktree() == old(repo).spec_worktree(),
            r matches Err(e) ==> !(e is MergeConflict),
            r matches Ok(v) ==> includes_clean(base.spec_map(), ours.spec_map(), theirs.spec_map(), v@),
    {
        let keys = union_keys(base, ours, theirs);
        let n = keys.len();
        keys.well_formed();
        let mut out: Vec<BitIndexEntry> = Vec::new();
        let mut i: usize = 0;
        while i < n
            invariant
                0 <= i <= n,
                n == keys.spec_keys().len(),
                keys_sorted(keys.spec_keys()),
                keys.spec_keys().len() == keys.spec_vals().len(),
                forall|k: int, e: TreeEntry| 0 <= k < i && #[trigger] takes_clean(base.spec_map(), ours.spec_map(), theirs.spec_map(),
                    keys.spec_keys()[k], e) ==> exists|j: int| 0 <= j < out@.len() && #[trigger] staged_as(out@[j], e, MergeStage::Normal),
                repo.wf(),
                repo.spec_refs() == old(repo).spec_refs(),
                repo.spec_head() == old(repo).spec_head(),
                repo.spec_index() == old(repo).spec_index(),
                repo.spec_worktree() == old(repo).spec_worktree(),
            decreases n - i,
        {
            let ghost out_h = out@;
            let p = keys.key_at(i);
            let b = blob_entry(base, p.as_slice());
            let o = blob_entry(ours, p.as_slice());
            let t = blob_entry(theirs, p.as_slice());
            let pick = if same_blob(o, t) {
                o
            } else if same_blob(b, o) {
                t
            } else if same_blob(b, t) {
                o
            } else {
                match (o, t) {
                    (Some(oe), Some(te)) => {
                        if oe.mode != te.mode {
                            return Err(BitError::Unsupported);
                        }
                        let base_bytes = match b {
                            Some(be) => copy_bytes(repo.read_blob(&be.oid)?),
                            None => Vec::new(),
                        };
                        let ob = copy_bytes(repo.read_blob(&oe.oid)?);
                        let tb = copy_bytes(repo.read_blob(&te.oid)?);
                        match crate::xdiff::merge(self.style, base_bytes.as_slice(), ob.as_slice(), tb.as_slice()) {
                            Ok(merged) => {
                                let oid = repo.write_blob(merged);
                                let e = TreeEntry { mode: oe.mode, path: copy_bytes(&oe.path), oid };
                                out.push(BitIndexEntry::from_tree_entry(&e));
                            },
                            Err(_) => {
                                return Err(BitError::Unsupported);
                            },
                        }
                        None
                    },
                    _ => {
                        return Err(BitError::Unsupported);
                    },
                }
            };
            let ghost out0 = out@;
            proof {
                assert(clean_side(opt_entry(b), opt_entry(o), opt_entry(t)) is Some ==> clean_side(opt_entry(b), opt_entry(o),
                    opt_entry(t)) == Some(opt_entry(pick)));
                assert(out0.len() >= out_h.len());
                assert(forall|j: int| 0 <= j < out_h.len() ==> out0[j] == out_h[j]);
            }
            match pick {
                Some(e) => out.push(BitIndexEntry::from_tree_entry(e)),
                None => {},
            }
            proof {
                let pk = keys.spec_keys()[i as int];
                assert(opt_entry(b) == file_entry(base.spec_map(), pk));
                assert(opt_entry(o) == file_entry(ours.spec_map(), pk));
                assert(opt_entry(t) == file_entry(theirs.spec_map(), pk));
                assert forall|k: int, e: TreeEntry| 0 <= k < i + 1 && #[trigger] takes_clean(base.spec_map(), ours.spec_map(),
                    theirs.spec_map(), keys.spec_keys()[k], e) implies exists|j: int| 0 <= j < out@.len() && #[trigger] staged_as(
                    out@[j], e, MergeStage::Normal) by {
                    if k < i {
                        let j = choose|j: int| 0 <= j < out_h.len() && #[trigger] staged_as(out_h[j], e, MergeStage::Normal);
                        assert(out@[j] == out_h[j]);
                    } else {
                        assert(staged_as(out@[out0.len() as int], e, MergeStage::Normal));
                    }
                }
            }
            i = i + 1;
        }
        proof {
            assert forall|p: Seq<u8>, e: TreeEntry| #[trigger] takes_clean(base.spec_map(), ours.spec_map(), theirs.spec_map(), p, e)
                implies exists|j: int| 0 <= j < out@.len() && #[trigger] staged_as(out@[j], e, MergeStage::Normal) by {
                keys.lemma_list();
                assert(file_entry(base.spec_map(), p) is Some || file_entry(ours.spec_map(), p) is Some || file_entry(
                    theirs.spec_map(), p) is Some);
                assert(base.spec_map().contains_key(p) || ours.spec_map().contains_key(p) || theirs.spec_map().contains_key(p));
                assert(keys.spec_map().contains_key(p));
                let k = choose|k: int| 0 <= k < keys.spec_keys().len() && keys.spec_keys()[k] == p;
                assert(takes_clean(base.spec_map(), ours.spec_map(), theirs.spec_map(), keys.spec_keys()[k], e));
            }
        }
        proof {
            assert(includes_clean(base.spec_map(), ours.spec_map(), theirs.spec_map(), out@));
        }
        Ok(out)
    }

    /// A merge base for two commits: their best common ancestor, or, when they have two, a
    /// commit (written but referenced by nothing) of the merge of those two; trees are
    /// merged recursively at most `depth` levels deep.
    fn merge_base_recursive(&self, repo: &mut BitRepo, a: Oid, b: Oid, depth: usize) -> (r: BitResult<Option<Oid>>)
        requires
            old(repo).wf(),
        ensures
            final(repo).wf(),
            final(repo).spec_refs() == old(repo).spec_refs(),
            final(repo).spec_head() == old(repo).spec_head(),
            final(repo).spec_index() == old(repo).spec_index(),
            final(repo).spec_worktree() == old(repo).spec_worktree(),
            r matches Err(e) ==> !(e is MergeConflict),
            r is Ok ==> old(repo).spec_odb().contains_key(a@) && old(repo).spec_odb()[a@] is Commit
                && old(repo).spec_odb().contains_key(b@) && old(repo).spec_odb()[b@] is Commit,
            r matches Ok(Some(c)) ==> merge_base_of(old(repo).spec_odb(), final(repo).spec_odb(), a@, b@, c@),
            forall|c: Seq<u8>| #[trigger] only_best_common_ancestor(old(repo).spec_odb(), a@, b@, c) ==> (r matches Ok(Some(x))
                && x@ == c && *final(repo) == *old(repo)),
        decreases depth,
    {
        proof {
            if exists|c: Seq<u8>| #[trigger] only_best_common_ancestor(repo.spec_odb(), a@, b@, c) {
                let c = choose|c: Seq<u8>| #[trigger] only_best_common_ancestor(repo.spec_odb(), a@, b@, c);
                crate::ancestry::lemma_ancestor_from_commit(repo.spec_odb(), a@, c);
                crate::ancestry::lemma_ancestor_from_commit(repo.spec_odb(), b@, c);
            }
        }
        let bases = repo.merge_bases(a, b)?;
        proof {
            if exists|c: Seq<u8>| #[trigger] only_best_common_ancestor(repo.spec_odb(), a@, b@, c) {
                let c = choose|c: Seq<u8>| #[trigger] only_best_common_ancestor(repo.spec_odb(), a@, b@, c);
                assert(waiting(bases@, c));
                if bases@.len() >= 2 {
                    assert(best_common_ancestor(repo.spec_odb(), a@, b@, bases@[0]@));
                    assert(best_common_ancestor(repo.spec_odb(), a@, b@, bases@[1]@));
                    assert(bases@[0]@ != bases@[1]@);
                }
                let j = choose|j: int| 0 <= j < bases@.len() && (#[trigger] bases@[j])@ == c;
                assert(bases@.len() == 1 && bases@[0]@ == c);
            }
        }
        if bases.len() == 0 {
            Ok(None)
        } else if bases.len() == 1 {
            Ok(Some(bases[0]))
        } else if bases.len() == 2 && depth > 0 {
            let x = bases[0];
            let y = bases[1];
            let inner = self.merge_base_recursive(repo, x, y, depth - 1)?;
            let inner_tree = match inner {
                Some(c) => repo.read_commit(&c)?.tree,
                None => SHA1Hash::unknown(),
            };
            let xt = repo.read_commit(&x)?.tree;
            let yt = repo.read_commit(&y)?.tree;
            let fb = repo.flatten_tree(&inner_tree)?;
            let fx = repo.flatten_tree(&xt)?;
            let fy = repo.flatten_tree(&yt)?;
            let entries = self.merge_flat_clean(repo, &fb, &fx, &fy)?;
            let tree = repo.write_tree_of(&entries);
            let mut parents: Vec<Oid> = Vec::new();
            parents.push(x);
            parents.push(y);
            let message = vec![118u8, 105, 114, 116, 117, 97, 108, 32, 109, 101, 114, 103, 101];
            let c = repo.commit_tree(tree, parents, message);
            proof {
                assert(parents@.map_values(|p: Oid| p@) =~= seq![x@, y@]);
            }
            Ok(Some(c))
        } else {
            Err(BitError::Unsupported)
        }
    }
}

/// The current branch (or, with HEAD detached, HEAD itself) now names `to`, and nothing else
/// changed among the references.
pub open spec fn moved_head(refs0: Map<Seq<u8>, Oid>, head0: RefView, refs1: Map<Seq<u8>, Oid>, head1: RefView, to: Seq<u8>) -> bool {
    match head0 {
        RefView::Symbolic(b) => head1 == head0 && refs1.dom() == refs0.dom().insert(b) && refs1[b]@ == to
            && forall|n: Seq<u8>| #[trigger] refs0.contains_key(n) && n != b ==> refs1[n] == refs0[n],
        RefView::Direct(_) => refs1 == refs0 && head1 == RefView::Direct(to),
    }
}

/// What a merge of the reference `x` into HEAD does when it takes `before` to `after` and
/// returns `r`.
pub open spec fn merge_outcome(before: BitRepo, after: BitRepo, x: RefView, r: BitResult<MergeResults>) -> bool {
    &&& (r matches Err(e) && e is MergeConflict ==> after.spec_refs() == before.spec_refs()
        && after.spec_head() == before.spec_head())
    &&& (r matches Ok(MergeResults::Null) ==> after.spec_refs() == before.spec_refs()
        && after.spec_head() == before.spec_head()
        && after.spec_index() == before.spec_index()
        && after.spec_worktree() == before.spec_worktree())
    &&& (!crate::repo::resolves(before.spec_refs(), before.spec_head(), x) ==> r is Err)
    &&& (!crate::repo::resolves(before.spec_refs(), before.spec_head(), RefView::Symbolic(crate::repo::head_name()))
        ==> r is Err)
    &&& (r matches Ok(MergeResults::Null) ==> merge_base_of(before.spec_odb(), after.spec_odb(),
        crate::repo::resolve(before.spec_refs(), before.spec_head(), RefView::Symbolic(crate::repo::head_name())),
        crate::repo::resolve(before.spec_refs(), before.spec_head(), x),
        crate::repo::resolve(before.spec_refs(), before.spec_head(), x)))
    &&& (r matches Ok(MergeResults::Conflicts(_)) ==> after.spec_refs() == before.spec_refs()
        && after.spec_head() == before.spec_head())
    &&& (r matches Err(BitError::MergeConflict(c)) ==> c.uncommitted@.len() > 0
        && crate::repo::same_files(after.spec_worktree(), before.spec_worktree())
        && crate::index::serialize::entry_view_map(after.spec_index().spec_entries())
        == crate::index::serialize::entry_view_map(before.spec_index().spec_entries()))
    &&& (r matches Ok(MergeResults::FastForward { from, to }) ==> {
        &&& from@ == crate::repo::resolve(before.spec_refs(), before.spec_head(),
            RefView::Symbolic(crate::repo::head_name()))
        &&& to@ == crate::repo::resolve(before.spec_refs(), before.spec_head(), x)
        &&& moved_head(before.spec_refs(), before.spec_head(), after.spec_refs(), after.spec_head(), to@)
        &&& exists|mid: BitRepo| {
            &&& mid.spec_worktree() == before.spec_worktree()
            &&& mid.spec_index() == before.spec_index()
            &&& mid.spec_odb().contains_key(to@) && mid.spec_odb()[to@] is Commit
            &&& crate::checkout::checked_out(mid, mid.spec_odb()[to@]->Commit_0.tree@, false,
                after.spec_worktree(), after.spec_index().spec_entries())
        }
    })
    &&& (r matches Ok(MergeResults::Conflicts(_)) ==> !exists|p: Seq<u8>| #[trigger] unstaged_at(before, p))
    &&& (r matches Ok(MergeResults::Merge(_)) ==> !exists|p: Seq<u8>| #[trigger] unstaged_at(before, p))
    &&& (r matches Ok(MergeResults::Merge(s)) ==> s.commit matches Some(c) ==> {
        let ours = crate::repo::resolve(before.spec_refs(), before.spec_head(),
            RefView::Symbolic(crate::repo::head_name()));
        let theirs = crate::repo::resolve(before.spec_refs(), before.spec_head(), x);
        &&& after.spec_odb().contains_key(c@)
        &&& after.spec_odb()[c@] is Commit
        &&& after.spec_odb()[c@]->Commit_0@.parents == seq![ours, theirs]
        &&& moved_head(before.spec_refs(), before.spec_head(), after.spec_refs(), after.spec_head(), c@)
    })
}

/// What a merge of the reference `x` into HEAD owes when one head is an ancestor of the
/// other: `Null` when theirs is an ancestor of ours; with fast-forwards allowed, a
/// fast-forward, exactly when the safe checkout of their tree goes through, when ours is a
/// proper ancestor of theirs (in each case on no cycle of parents).
pub open spec fn merge_owed(before: BitRepo, x: RefView, no_ff: bool, r: BitResult<MergeResults>) -> bool {
    let odb = before.spec_odb();
    let head = RefView::Symbolic(crate::repo::head_name());
    let ours = crate::repo::resolve(before.spec_refs(), before.spec_head(), head);
    let theirs = crate::repo::resolve(before.spec_refs(), before.spec_head(), x);
    let both = crate::repo::resolves(before.spec_refs(), before.spec_head(), x) && crate::repo::resolves(before.spec_refs(),
        before.spec_head(), head);
    &&& (both && is_commit(odb, ours) && crate::ancestry::ancestor(odb, ours, theirs) && crate::ancestry::acyclic_at(odb, theirs)
        ==> r == Ok::<MergeResults, BitError>(MergeResults::Null))
    &&& (both && is_commit(odb, theirs) && crate::ancestry::ancestor(odb, theirs, ours) && crate::ancestry::acyclic_at(odb, ours)
        && ours != theirs && !no_ff ==> (r is Ok <==> crate::checkout::checkout_goes_through(before, odb[theirs]->Commit_0.tree@,
        false)) && (r is Ok ==> r matches Ok(MergeResults::FastForward { .. })))
}

/// Some path of `v` is `p`.
pub open spec fn lists_path(v: Seq<Vec<u8>>, p: Seq<u8>) -> bool {
    exists|j: int| 0 <= j < v.len() && (#[trigger] v[j])@ == p
}

/// Pushing a path onto a list adds exactly that path to the paths it lists.
proof fn lemma_lists_push(v0: Seq<Vec<u8>>, v1: Seq<Vec<u8>>)
    requires
        v1.len() == v0.len() + 1,
        forall|j: int| 0 <= j < v0.len() ==> v1[j] == v0[j],
    ensures
        forall|p: Seq<u8>| #[trigger] lists_path(v1, p) <==> lists_path(v0, p) || v1[v0.len() as int]@ == p,
{
    assert forall|p: Seq<u8>| #[trigger] lists_path(v1, p) <==> lists_path(v0, p) || v1[v0.len() as int]@ == p by {
        if lists_path(v0, p) {
            let j = choose|j: int| 0 <= j < v0.len() && (#[trigger] v0[j])@ == p;
            assert(v1[j]@ == p);
        }
        if lists_path(v1, p) {
            let j = choose|j: int| 0 <= j < v1.len() && (#[trigger] v1[j])@ == p;
            if j < v0.len() {
                assert(v0[j]@ == p);
            }
        }
    }
}

/// The file at `p` differs between `a` and `b`: it is in one of them only, or in both with
/// another id or mode.
pub open spec fn file_differs(a: Map<Seq<u8>, crate::obj::TreeEntryView>, b: Map<Seq<u8>, crate::obj::TreeEntryView>, p: Seq<u8>) -> bool {
    ||| crate::diff::file_at(a, p) && !crate::diff::file_at(b, p)
    ||| crate::diff::file_at(b, p) && !crate::diff::file_at(a, p)
    ||| crate::diff::file_at(a, p) && crate::diff::file_at(b, p) && (a[p].oid != b[p].oid || a[p].mode != b[p].mode)
}

/// The path `p` has unstaged changes: a file of the index is modified or deleted in the
/// working tree.
pub open spec fn unstaged_at(repo: BitRepo, p: Seq<u8>) -> bool {
    let iv = crate::diff::index_view(repo.spec_index().spec_entries());
    let wv = crate::diff::worktree_view(repo.spec_worktree());
    ||| crate::diff::file_at(iv, p) && !crate::diff::file_at(wv, p)
    ||| crate::diff::file_at(iv, p) && crate::diff::file_at(wv, p) && (iv[p].oid != wv[p].oid || iv[p].mode != wv[p].mode)
}

/// The path `p` has uncommitted changes: staged (the index differs from the tree of HEAD),
/// or unstaged.
pub open spec fn uncommitted_at(repo: BitRepo, p: Seq<u8>) -> bool {
    let iv = crate::diff::index_view(repo.spec_index().spec_entries());
    let hv = crate::tree::flatten_spec(repo.spec_odb(), crate::diff::head_tree_spec(repo)->0, repo.spec_odb_len())->0;
    unstaged_at(repo, p) || file_differs(hv, iv, p)
}

impl BitRepo {
    /// The paths whose changes are not committed: modified or deleted in the working tree,
    /// or staged.
    fn uncommitted_paths(&self) -> (r: BitResult<Vec<Vec<u8>>>)
        requires
            self.wf(),
        ensures
            r matches Err(e) ==> !(e is MergeConflict),
            r is Ok <==> (crate::diff::head_tree_spec(*self) is Some && crate::tree::flatten_spec(self.spec_odb(),
                crate::diff::head_tree_spec(*self)->0, self.spec_odb_len()) is Some),
            r matches Ok(v) ==> forall|p: Seq<u8>| #[trigger] lists_path(v@, p) <==> uncommitted_at(*self, p),
    {
        let ghost iv = crate::diff::index_view(self.spec_index().spec_entries());
        let ghost wv = crate::diff::worktree_view(self.spec_worktree());
        let mut uncommitted: Vec<Vec<u8>> = Vec::new();
        let unstaged = self.diff_index_worktree();
        let mut i: usize = 0;
        while i < unstaged.modified.len()
            invariant
                0 <= i <= unstaged.modified@.len(),
                forall|p: Seq<u8>| #[trigger] lists_path(uncommitted@, p) <==> exists|k: int| 0 <= k < i
                    && unstaged.modified@[k].1.path@ == p,
            decreases unstaged.modified@.len() - i,
        {
            let ghost u0 = uncommitted@;
            uncommitted.push(copy_bytes(&unstaged.modified[i].1.path));
            proof {
                lemma_lists_push(u0, uncommitted@);
                assert forall|p: Seq<u8>| #[trigger] lists_path(uncommitted@, p) <==> exists|k: int| 0 <= k < i + 1
                    && unstaged.modified@[k].1.path@ == p by {
                    if p == unstaged.modified@[i as int].1.path@ {
                        assert(uncommitted@[u0.len() as int]@ == p);
                    }
                }
            }
            i = i + 1;
        }
        let ghost a1 = uncommitted@;
        let mut i: usize = 0;
        while i < unstaged.deleted.len()
            invariant
                0 <= i <= unstaged.deleted@.len(),
                forall|p: Seq<u8>| #[trigger] lists_path(uncommitted@, p) <==> lists_path(a1, p) || exists|k: int| 0 <= k < i
                    && unstaged.deleted@[k].path@ == p,
            decreases unstaged.deleted@.len() - i,
        {
            let ghost u0 = uncommitted@;
            uncommitted.push(copy_bytes(&unstaged.deleted[i].path));
            proof {
                lemma_lists_push(u0, uncommitted@);
                assert forall|p: Seq<u8>| #[trigger] lists_path(uncommitted@, p) <==> lists_path(a1, p) || exists|k: int| 0 <= k < i + 1
                    && unstaged.deleted@[k].path@ == p by {
                    if p == unstaged.deleted@[i as int].path@ {
                        assert(uncommitted@[u0.len() as int]@ == p);
                    }
                }
            }
            i = i + 1;
        }
        let ghost a2 = uncommitted@;
        let staged = self.diff_head_index()?;
        let mut i: usize = 0;
        while i < staged.new.len()
            invariant
                0 <= i <= staged.new@.len(),
                forall|p: Seq<u8>| #[trigger] lists_path(uncommitted@, p) <==> lists_path(a2, p) || exists|k: int| 0 <= k < i
                    && staged.new@[k].path@ == p,
            decreases staged.new@.len() - i,
        {
            let ghost u0 = uncommitted@;
            uncommitted.push(copy_bytes(&staged.new[i].path));
            proof {
                lemma_lists_push(u0, uncommitted@);
                assert forall|p: Seq<u8>| #[trigger] lists_path(uncommitted@, p) <==> lists_path(a2, p) || exists|k: int| 0 <= k < i + 1
                    && staged.new@[k].path@ == p by {
                    if p == staged.new@[i as int].path@ {
                        assert(uncommitted@[u0.len() as int]@ == p);
                    }
                }
            }
            i = i + 1;
        }
        let ghost a3 = uncommitted@;
        let mut i: usize = 0;
        while i < staged.modified.len()
            invariant
                0 <= i <= staged.modified@.len(),
                forall|p: Seq<u8>| #[trigger] lists_path(uncommitted@, p) <==> lists_path(a3, p) || exists|k: int| 0 <= k < i
                    && staged.modified@[k].1.path@ == p,
            decreases staged.modified@.len() - i,
        {
            let ghost u0 = uncommitted@;
            uncommitted.push(copy_bytes(&staged.modified[i].1.path));
            proof {
                lemma_lists_push(u0, uncommitted@);
                assert forall|p: Seq<u8>| #[trigger] lists_path(uncommitted@, p) <==> lists_path(a3, p) || exists|k: int| 0 <= k < i + 1
                    && staged.modified@[k].1.path@ == p by {
                    if p == staged.modified@[i as int].1.path@ {
                        assert(uncommitted@[u0.len() as int]@ == p);
                    }
                }
            }
            i = i + 1;
        }
        let ghost a4 = uncommitted@;
        let mut i: usize = 0;
        while i < staged.deleted.len()
            invariant
                0 <= i <= staged.deleted@.len(),
                forall|p: Seq<u8>| #[trigger] lists_path(uncommitted@, p) <==> lists_path(a4, p) || exists|k: int| 0 <= k < i
                    && staged.deleted@[k].path@ == p,
            decreases staged.deleted@.len() - i,
        {
            let ghost u0 = uncommitted@;
            uncommitted.push(copy_bytes(&staged.deleted[i].path));
            proof {
                lemma_lists_push(u0, uncommitted@);
                assert forall|p: Seq<u8>| #[trigger] lists_path(uncommitted@, p) <==> lists_path(a4, p) || exists|k: int| 0 <= k < i + 1
                    && staged.deleted@[k].path@ == p by {
                    if p == staged.deleted@[i as int].path@ {
                        assert(uncommitted@[u0.len() as int]@ == p);
                    }
                }
            }
            i = i + 1;
        }
        proof {
            let hv = crate::tree::flatten_spec(self.spec_odb(), crate::diff::head_tree_spec(*self)->0, self.spec_odb_len())->0;
            assert forall|p: Seq<u8>| #[trigger] lists_path(uncommitted@, p) <==> uncommitted_at(*self, p) by {
                if crate::diff::file_at(iv, p) && crate::diff::file_at(wv, p) && (iv[p].oid != wv[p].oid || iv[p].mode != wv[p].mode) {
                    let k = choose|k: int| 0 <= k < unstaged.modified@.len() && #[trigger] unstaged.modified@[k].0.path@ == p;
                    assert(unstaged.modified@[k].1.path@ == p);
                }
                if crate::diff::file_at(iv, p) && !crate::diff::file_at(wv, p) {
                    let k = choose|k: int| 0 <= k < unstaged.deleted@.len() && #[trigger] unstaged.deleted@[k].path@ == p;
                }
                if crate::diff::file_at(iv, p) && !crate::diff::file_at(hv, p) {
                    let k = choose|k: int| 0 <= k < staged.new@.len() && #[trigger] staged.new@[k].path@ == p;
                }
                if crate::diff::file_at(hv, p) && !crate::diff::file_at(iv, p) {
                    let k = choose|k: int| 0 <= k < staged.deleted@.len() && #[trigger] staged.deleted@[k].path@ == p;
                }
                if crate::diff::file_at(hv, p) && crate::diff::file_at(iv, p) && (hv[p].oid != iv[p].oid || hv[p].mode != iv[p].mode) {
                    let k = choose|k: int| 0 <= k < staged.modified@.len() && #[trigger] staged.modified@[k].0.path@ == p;
                    assert(staged.modified@[k].1.path@ == p);
                }
                if exists|k: int| 0 <= k < unstaged.modified@.len() && unstaged.modified@[k].1.path@ == p {
                    let k = choose|k: int| 0 <= k < unstaged.modified@.len() && unstaged.modified@[k].1.path@ == p;
                    assert(unstaged.modified@[k].0.path@ == p);
                }
                if exists|k: int| 0 <= k < staged.modified@.len() && staged.modified@[k].1.path@ == p {
                    let k = choose|k: int| 0 <= k < staged.modified@.len() && staged.modified@[k].1.path@ == p;
                    assert(staged.modified@[k].0.path@ == p);
                }
            }
        }
        Ok(uncommitted)
    }

    /// Merges the tree `their_tree` (of the commit `their_head`, named by `their_head_ref`)
    /// and `our_tree` against `base_tree` into the index and the working tree. When the merge
    /// touches uncommitted changes, the index and the working tree are restored and the
    /// paths are reported.
    pub(crate) fn merge_trees(
        &mut self,
        their_head_ref: &BitRef,
        their_head: Oid,
        opts: MergeOpts,
        base_tree: &Oid,
        our_tree: &Oid,
        their_tree: &Oid,
    ) -> (r: BitResult<()>)
        requires
            old(self).wf(),
        ensures
            final(self).wf(),
            final(self).spec_refs() == old(self).spec_refs(),
            final(self).spec_head() == old(self).spec_head(),
            r matches Err(BitError::MergeConflict(c)) ==> c.uncommitted@.len() > 0
                && crate::repo::same_files(final(self).spec_worktree(), old(self).spec_worktree())
                && crate::index::serialize::entry_view_map(final(self).spec_index().spec_entries())
                == crate::index::serialize::entry_view_map(old(self).spec_index().spec_entries()),
            r is Ok ==> crate::diff::head_tree_spec(*old(self)) is Some && crate::tree::flatten_spec(old(self).spec_odb(),
                crate::diff::head_tree_spec(*old(self))->0, old(self).spec_odb_len()) is Some,
            r is Ok ==> !exists|p: Seq<u8>| #[trigger] uncommitted_at(*old(self), p),
            r is Ok ==> three_way_merged(*old(self), *final(self), base_tree@, our_tree@, their_tree@),
            r is Ok ==> crate::tree::flatten_spec(old(self).spec_odb(), base_tree@, old(self).spec_odb_len()) is Some
                && crate::tree::flatten_spec(old(self).spec_odb(), our_tree@, old(self).spec_odb_len()) is Some
                && crate::tree::flatten_spec(old(self).spec_odb(), their_tree@, old(self).spec_odb_len()) is Some,
    {
        let uncommitted = self.uncommitted_paths()?;
        proof {
            if exists|p: Seq<u8>| #[trigger] uncommitted_at(*old(self), p) {
                let p = choose|p: Seq<u8>| #[trigger] uncommitted_at(*old(self), p);
                assert(lists_path(uncommitted@, p));
            }
        }
        let mut ctxt = MergeCtxt {
            their_head_ref: their_head_ref.copy(),
            their_head,
            their_head_desc: short_name(their_head_ref),
            opts,
            uncommitted,
            style: crate::xdiff::ConflictStyle::Merge,
        };
        let index_snapshot = self.copy_index();
        let worktree_snapshot = self.copy_worktree();
        let fb = self.flatten_tree(base_tree)?;
        let fo = self.flatten_tree(our_tree)?;
        let ft = self.flatten_tree(their_tree)?;
        let ghost at_merge = *self;
        assert(at_merge == *old(self));
        ctxt.merge_flat(self, &fb, &fo, &ft)?;
        if ctxt.uncommitted.len() > 0 {
            self.set_index(index_snapshot);
            self.set_worktree(worktree_snapshot);
            return Err(BitError::MergeConflict(MergeConflicts { uncommitted: ctxt.uncommitted }));
        }
        Ok(())
    }

    /// Merges the commit `their_head_ref` resolves to into HEAD. When it is already an
    /// ancestor the result is `Null`; when HEAD is its ancestor (and fast-forward is allowed)
    /// the current branch moves to it. Otherwise the trees are merged into the index and
    /// working tree: the conflicts are returned when some remain, else the merge is
    /// committed (unless `no_commit`). Uncommitted changes that the merge touches stop it,
    /// and the index and working tree are restored.
    pub fn merge(&mut self, their_head_ref: BitRef, opts: MergeOpts) -> (r: BitResult<MergeResults>)
        requires
            old(self).wf(),
        ensures
            final(self).wf(),
            merge_outcome(*old(self), *final(self), their_head_ref@, r),
            merge_owed(*old(self), their_head_ref@, opts.no_ff, r),
    {
        let ghost odb0 = self.spec_odb();
        let ghost ours0 = crate::repo::resolve(self.spec_refs(), self.spec_head(), RefView::Symbolic(crate::repo::head_name()));
        let ghost theirs0 = crate::repo::resolve(self.spec_refs(), self.spec_head(), their_head_ref@);
        proof {
            if is_commit(odb0, ours0) && crate::ancestry::ancestor(odb0, ours0, theirs0) && crate::ancestry::acyclic_at(odb0, theirs0) {
                crate::ancestry::law_ancestor_is_the_merge_base(odb0, ours0, theirs0);
            }
            if is_commit(odb0, theirs0) && crate::ancestry::ancestor(odb0, theirs0, ours0) && crate::ancestry::acyclic_at(odb0, ours0) {
                crate::ancestry::law_ancestor_is_the_merge_base(odb0, theirs0, ours0);
            }
        }
        let their_head = self.fully_resolve_ref(&their_head_ref)?;
        let our_head = self.fully_resolve_head()?;
        let depth = self.odb_len();
        let mut probe = MergeCtxt {
            their_head_ref: BitRef::Direct(their_head),
            their_head,
            their_head_desc: Vec::new(),
            opts,
            uncommitted: Vec::new(),
            style: crate::xdiff::ConflictStyle::Merge,
        };
        let base = probe.merge_base_recursive(self, our_head, their_head, depth)?;
        let base_tree = match base {
            Some(b) => {
                if b.same(&their_head) {
                    return Ok(MergeResults::Null);
                }
                if !opts.no_ff && b.same(&our_head) {
                    let tree = self.read_commit(&their_head)?.tree;
                    self.checkout_tree_with_opts(&tree, CheckoutOpts::default())?;
                    self.update_current_ref(their_head);
                    return Ok(MergeResults::FastForward { from: our_head, to: their_head });
                }
                self.read_commit(&b)?.tree
            },
            None => SHA1Hash::unknown(),
        };
        let our_tree = self.read_commit(&our_head)?.tree;
        let their_tree = self.read_commit(&their_head)?.tree;
        let name = short_name(&their_head_ref);
        let ghost mid = *self;
        assert(mid.spec_index() == old(self).spec_index() && mid.spec_worktree() == old(self).spec_worktree());
        self.merge_trees(&their_head_ref, their_head, opts, &base_tree, &our_tree, &their_tree)?;
        proof {
            assert forall|p: Seq<u8>| !#[trigger] unstaged_at(*old(self), p) by {
                assert(unstaged_at(mid, p) == unstaged_at(*old(self), p));
                if unstaged_at(mid, p) {
                    assert(uncommitted_at(mid, p));
                }
            }
        }
        if self.index().has_conflicts() {
            let conflicts = self.index().conflicts()?;
            return Ok(MergeResults::Conflicts(conflicts));
        }
        if opts.no_commit {
            return Ok(MergeResults::Merge(MergeSummary { commit: None }));
        }
        let tree = self.write_tree()?;
        let mut message = vec![77u8, 101, 114, 103, 101, 32, 99, 111, 109, 109, 105, 116, 32, 96];
        append_bytes(&mut message, name.as_slice());
        let tail = vec![96u8, 32, 105, 110, 116, 111, 32, 72, 69, 65, 68];
        append_bytes(&mut message, tail.as_slice());
        let mut parents: Vec<Oid> = Vec::new();
        parents.push(our_head);
        parents.push(their_head);
        let commit = self.commit_tree(tree, parents, message);
        proof {
            assert(parents@.map_values(|p: Oid| p@) =~= seq![our_head@, their_head@]);
        }
        self.update_current_ref(commit);
        Ok(MergeResults::Merge(MergeSummary { commit: Some(commit) }))
    }

    /// Merges the revision `rev` (see `resolve_rev`) into HEAD.
    pub fn merge_rev(&mut self, rev: &[u8], opts: MergeOpts) -> (r: BitResult<MergeResults>)
        requires
            old(self).wf(),
        ensures
            final(self).wf(),
            r is Ok ==> exists|x: RefView| #[trigger] merge_outcome(*old(self), *final(self), x, r),
            crate::rev::base_end(rev@, 0) == rev@.len() && rev@ != crate::repo::head_name() && rev@.len() == 40
                && crate::hash::all_hex_digits(rev@) ==> merge_outcome(*old(self), *final(self),
                RefView::Direct(crate::hash::hex_value(rev@)), r),
            crate::rev::base_end(rev@, 0) == rev@.len() && rev@ != crate::repo::head_name() && !(rev@.len() == 40
                && crate::hash::all_hex_digits(rev@)) ==> (crate::repo::expand_ref(old(self).spec_refs(), rev@) is None
                ==> r is Err && *final(self) == *old(self)),
            crate::rev::base_end(rev@, 0) == rev@.len() && rev@ != crate::repo::head_name() && !(rev@.len() == 40
                && crate::hash::all_hex_digits(rev@)) && crate::repo::expand_ref(old(self).spec_refs(), rev@) is Some
                ==> merge_outcome(*old(self), *final(self), RefView::Symbolic(crate::repo::expand_ref(old(self).spec_refs(),
                rev@)->0), r),
            crate::rev::base_end(rev@, 0) == rev@.len() && rev@ != crate::repo::head_name() && rev@.len() == 40
                && crate::hash::all_hex_digits(rev@) ==> merge_owed(*old(self), RefView::Direct(crate::hash::hex_value(rev@)),
                opts.no_ff, r),
            crate::rev::base_end(rev@, 0) == rev@.len() && rev@ != crate::repo::head_name() && !(rev@.len() == 40
                && crate::hash::all_hex_digits(rev@)) && crate::repo::expand_ref(old(self).spec_refs(), rev@) is Some
                ==> merge_owed(*old(self), RefView::Symbolic(crate::repo::expand_ref(old(self).spec_refs(), rev@)->0), opts.no_ff, r),
    {
        let reference = self.resolve_rev(rev)?;
        let r = self.merge(reference, opts);
        proof {
            assert(merge_outcome(*old(self), *self, reference@, r));
        }
        r
    }
}

} // verus!
