//! The library side of the command line: adding to the index and creating branches.
use crate::diff::{diff_of, head_tree_spec, index_view, WorkspaceStatus};
use crate::rev::base_end;
use crate::tree::flatten_spec;
use crate::error::{BitError, BitResult};
use crate::hash::Oid;
use crate::index::{collide_paths, index_key, BitIndexEntry, MergeStage};
use crate::obj::{obj_oid, BitObjKind, ObjView};
use crate::repo::{branch_full_name, branch_name_bytes, head_name, BitRef, BitRepo, RefView, WorktreeFile};
use vstd::prelude::*;

verus! {

/// The tree that `oid` names: the tree of a commit, or a tree itself.
pub open spec fn treeish_tree(odb: Map<Seq<u8>, BitObjKind>, oid: Seq<u8>) -> Option<Seq<u8>> {
    if !odb.contains_key(oid) {
        None
    } else {
        match odb[oid] {
            BitObjKind::Commit(c) => Some(c.tree@),
            BitObjKind::Tree(_) => Some(oid),
            _ => None,
        }
    }
}

/// The index entries of a file `p` once it is added: one entry of stage `Normal`, with the id
/// of its contents and its mode.
pub open spec fn staged(w: Map<Seq<u8>, WorktreeFile>, i: Map<Seq<u8>, BitIndexEntry>, p: Seq<u8>) -> bool {
    &&& i.contains_key(index_key(p, MergeStage::Normal))
    &&& i[index_key(p, MergeStage::Normal)].oid@ == obj_oid(ObjView::Blob(w[p].data@))
    &&& i[index_key(p, MergeStage::Normal)].mode == w[p].mode
    &&& forall|s: MergeStage| s != MergeStage::Normal ==> !(#[trigger] i.contains_key(index_key(p, s)))
}

/// Once every file of the working tree is staged and nothing else is in the index, the
/// index and the working tree hold the same files, so their difference is empty.
pub proof fn law_add_all_leaves_nothing_unstaged(w: Map<Seq<u8>, WorktreeFile>, i: Map<Seq<u8>, BitIndexEntry>, s: crate::diff::WorkspaceStatus)
    requires
        forall|p: Seq<u8>| #[trigger] w.contains_key(p) ==> staged(w, i, p),
        forall|q: Seq<u8>, st: MergeStage| #[trigger] i.contains_key(index_key(q, st)) ==> w.contains_key(q) && st == MergeStage::Normal,
        diff_of(index_view(i), crate::diff::worktree_view(w), s),
    ensures
        s.new@.len() == 0,
        s.modified@.len() == 0,
        s.deleted@.len() == 0,
{
    let iv = index_view(i);
    let wv = crate::diff::worktree_view(w);
    assert(iv =~= wv) by {
        assert forall|p: Seq<u8>| iv.contains_key(p) <==> wv.contains_key(p) by {
            if iv.contains_key(p) {
                assert(i.contains_key(index_key(p, MergeStage::Normal)));
            }
            if wv.contains_key(p) {
                assert(staged(w, i, p));
            }
        }
        assert forall|p: Seq<u8>| #[trigger] iv.contains_key(p) implies iv[p] == wv[p] by {
            assert(i.contains_key(index_key(p, MergeStage::Normal)));
            assert(staged(w, i, p));
        }
    }
    crate::diff::law_diff_with_itself_is_empty(iv, s);
}

/// The pathspec `p` matches everything: it is empty or `.`.
pub open spec fn match_all_spec(p: Seq<u8>) -> bool {
    p.len() == 0 || p == seq![46u8]
}

/// The pathspec `p` matches the path `q`: it matches everything, is `q`, or is a directory
/// holding `q`.
pub open spec fn pathspec_matches(p: Seq<u8>, q: Seq<u8>) -> bool {
    match_all_spec(p) || q == p || crate::bytes::path_under(p, q)
}

/// `q` is a file of the working tree that one of the first `n` pathspecs matches.
pub open spec fn matched_before(w: Map<Seq<u8>, WorktreeFile>, ps: Seq<Vec<u8>>, n: int, q: Seq<u8>) -> bool {
    w.contains_key(q) && exists|j: int| 0 <= j < n && pathspec_matches((#[trigger] ps[j])@, q)
}

/// An entry at `q` collides with a file that one of the first `n` pathspecs matches.
pub open spec fn collides_before(w: Map<Seq<u8>, WorktreeFile>, ps: Seq<Vec<u8>>, n: int, q: Seq<u8>) -> bool {
    exists|x: Seq<u8>| #[trigger] matched_before(w, ps, n, x) && collide_paths(q, x)
}

/// The index `i1` is `i0` with the files that the first `n` pathspecs match staged: each such
/// file has its one stage `Normal` entry (when the files lie apart), and every other path
/// keeps its entries, but for the `Normal` entries of paths that collide with such a file.
pub open spec fn added(w: Map<Seq<u8>, WorktreeFile>, i0: Map<Seq<u8>, BitIndexEntry>, i1: Map<Seq<u8>, BitIndexEntry>,
    ps: Seq<Vec<u8>>, n: int) -> bool {
    &&& crate::repo::files_apart(w) ==> forall|q: Seq<u8>| #[trigger] matched_before(w, ps, n, q) ==> staged(w, i1, q)
    &&& forall|q: Seq<u8>, s: MergeStage| !matched_before(w, ps, n, q) && !(s == MergeStage::Normal && collides_before(w, ps, n,
        q)) ==> (#[trigger] i1.contains_key(index_key(q, s)) <==> i0.contains_key(index_key(q, s)))
    &&& forall|q: Seq<u8>, s: MergeStage| !matched_before(w, ps, n, q) && #[trigger] i1.contains_key(index_key(q, s))
        ==> i1[index_key(q, s)] == i0[index_key(q, s)]
}

/// `q` is matched by one of the first `i` pathspecs, or is one of the first `k` files of
/// `files` and matched by pathspec `i`.
pub open spec fn covered(w: Map<Seq<u8>, WorktreeFile>, ps: Seq<Vec<u8>>, i: int, files: Seq<Vec<u8>>, k: int, q: Seq<u8>) -> bool {
    matched_before(w, ps, i, q) || exists|l: int| 0 <= l < k && files[l]@ == q && pathspec_matches(ps[i]@, q)
}

/// An entry at `q` collides with a covered file.
pub open spec fn collides_covered(w: Map<Seq<u8>, WorktreeFile>, ps: Seq<Vec<u8>>, i: int, files: Seq<Vec<u8>>, k: int, q: Seq<u8>) -> bool {
    exists|x: Seq<u8>| #[trigger] covered(w, ps, i, files, k, x) && collide_paths(q, x)
}

/// The pathspec `p` does not match everything, and matches no file of the working tree.
pub open spec fn pathspec_unmatched(w: Map<Seq<u8>, WorktreeFile>, p: Seq<u8>) -> bool {
    !match_all_spec(p) && forall|q: Seq<u8>| #[trigger] w.contains_key(q) ==> !pathspec_matches(p, q)
}

/// Whether the pathspec `p` matches everything.
pub fn is_match_all(p: &[u8]) -> (r: bool)
    ensures
        r == match_all_spec(p@),
{
    let r = p.len() == 0 || (p.len() == 1 && p[0] == 46u8);
    proof {
        if p.len() == 1 && p[0] == 46u8 {
            assert(p@ =~= seq![46u8]);
        }
    }
    r
}

/// Whether the pathspec `p` matches the path `q`.
pub fn path_matches(p: &[u8], q: &[u8]) -> (r: bool)
    ensures
        r == pathspec_matches(p@, q@),
{
    is_match_all(p) || crate::hash::bytes_eq(p, q) || crate::bytes::is_path_under(p, q)
}

impl BitRepo {
    /// Stages every file of the working tree.
    pub fn bit_add_all(&mut self) -> (r: BitResult<()>)
        requires
            old(self).wf(),
        ensures
            final(self).wf(),
            r is Ok,
            crate::repo::files_apart(old(self).spec_worktree()) ==> forall|p: Seq<u8>|
                #[trigger] old(self).spec_worktree().contains_key(p) ==> final(self).spec_index().spec_entries().contains_key(
                index_key(p, MergeStage::Normal)),
            crate::repo::files_apart(old(self).spec_worktree()) ==> forall|p: Seq<u8>| #[trigger] old(self).spec_worktree().contains_key(p)
                ==> staged(old(self).spec_worktree(), final(self).spec_index().spec_entries(), p),
            forall|q: Seq<u8>, s: MergeStage| #[trigger] final(self).spec_index().spec_entries().contains_key(index_key(q, s)) ==>
                old(self).spec_worktree().contains_key(q) && s == MergeStage::Normal,
            final(self).spec_refs() == old(self).spec_refs(),
            final(self).spec_head() == old(self).spec_head(),
            final(self).spec_worktree() == old(self).spec_worktree(),
    {
        self.add_all();
        Ok(())
    }

    /// Stages, pathspec by pathspec, the files of the working tree that each matches. Fails at
    /// the first pathspec that does not match everything and matches no file; the files of
    /// the pathspecs before it are staged by then.
    pub fn bit_add(&mut self, pathspecs: &Vec<Vec<u8>>) -> (r: BitResult<()>)
        requires
            old(self).wf(),
        ensures
            final(self).wf(),
            r is Err ==> r matches Err(BitError::NoFilesMatched(_)),
            r is Err <==> exists|j: int| 0 <= j < pathspecs@.len() && #[trigger] pathspec_unmatched(old(self).spec_worktree(),
                pathspecs@[j]@),
            r is Ok ==> added(old(self).spec_worktree(), old(self).spec_index().spec_entries(), final(self).spec_index().spec_entries(),
                pathspecs@, pathspecs@.len() as int),
            r is Err ==> exists|j: int| 0 <= j < pathspecs@.len() && #[trigger] pathspec_unmatched(old(self).spec_worktree(),
                pathspecs@[j]@) && (forall|l: int| 0 <= l < j ==> !pathspec_unmatched(old(self).spec_worktree(), pathspecs@[l]@))
                && (r matches Err(BitError::NoFilesMatched(q)) && q@ == pathspecs@[j]@)
                && added(old(self).spec_worktree(), old(self).spec_index().spec_entries(), final(self).spec_index().spec_entries(),
                pathspecs@, j),
            final(self).spec_worktree() == old(self).spec_worktree(),
            final(self).spec_refs() == old(self).spec_refs(),
            final(self).spec_head() == old(self).spec_head(),
    {
        let ghost w = self.spec_worktree();
        let ghost i0 = self.spec_index().spec_entries();
        let ghost ps = pathspecs@;
        let files = self.worktree_paths();
        let mut i: usize = 0;
        while i < pathspecs.len()
            invariant
                0 <= i <= pathspecs@.len(),
                ps == pathspecs@,
                self.wf(),
                w == old(self).spec_worktree(),
                i0 == old(self).spec_index().spec_entries(),
                self.spec_worktree() == w,
                self.spec_refs() == old(self).spec_refs(),
                self.spec_head() == old(self).spec_head(),
                forall|j: int| 0 <= j < files@.len() ==> w.contains_key(#[trigger] files@[j]@),
                forall|q: Seq<u8>| w.contains_key(q) ==> exists|j: int| 0 <= j < files@.len() && #[trigger] files@[j]@ == q,
                forall|j: int| 0 <= j < i ==> !#[trigger] pathspec_unmatched(w, ps[j]@),
                added(w, i0, self.spec_index().spec_entries(), ps, i as int),
            decreases pathspecs@.len() - i,
        {
            let p = pathspecs[i].as_slice();
            let all = is_match_all(p);
            let mut found = false;
            let mut k: usize = 0;
            while k < files.len()
                invariant
                    0 <= k <= files@.len(),
                    p@ == ps[i as int]@,
                    forall|j: int| 0 <= j < files@.len() ==> w.contains_key(#[trigger] files@[j]@),
                    found ==> exists|j: int| 0 <= j < files@.len() && pathspec_matches(p@, #[trigger] files@[j]@),
                    !found ==> forall|j: int| 0 <= j < k ==> !pathspec_matches(p@, #[trigger] files@[j]@),
                decreases files@.len() - k,
            {
                if path_matches(p, files[k].as_slice()) {
                    found = true;
                }
                k = k + 1;
            }
            if !found && !all {
                proof {
                    assert forall|q: Seq<u8>| w.contains_key(q) implies !pathspec_matches(p@, q) by {
                        let j = choose|j: int| 0 <= j < files@.len() && #[trigger] files@[j]@ == q;
                    }
                    assert(pathspec_unmatched(w, ps[i as int]@));
                }
                return Err(BitError::NoFilesMatched(crate::bytes::slice_to_vec(p)));
            }
            proof {
                if !all {
                    let j = choose|j: int| 0 <= j < files@.len() && pathspec_matches(p@, #[trigger] files@[j]@);
                    assert(w.contains_key(files@[j]@));
                }
                assert(!pathspec_unmatched(w, ps[i as int]@));
                assert forall|x: Seq<u8>| #[trigger] covered(w, ps, i as int, files@, 0, x) == matched_before(w, ps, i as int, x) by {}
                assert forall|x: Seq<u8>| #[trigger] collides_covered(w, ps, i as int, files@, 0, x) == collides_before(w, ps, i as int,
                    x) by {
                    if collides_covered(w, ps, i as int, files@, 0, x) {
                        let y = choose|y: Seq<u8>| #[trigger] covered(w, ps, i as int, files@, 0, y) && collide_paths(x, y);
                        assert(matched_before(w, ps, i as int, y));
                    }
                    if collides_before(w, ps, i as int, x) {
                        let y = choose|y: Seq<u8>| #[trigger] matched_before(w, ps, i as int, y) && collide_paths(x, y);
                        assert(covered(w, ps, i as int, files@, 0, y));
                    }
                }
            }
            let mut k: usize = 0;
            while k < files.len()
                invariant
                    0 <= k <= files@.len(),
                    0 <= i < ps.len(),
                    ps == pathspecs@,
                    p@ == ps[i as int]@,
                    self.wf(),
                    w == old(self).spec_worktree(),
                    i0 == old(self).spec_index().spec_entries(),
                    self.spec_worktree() == w,
                    self.spec_refs() == old(self).spec_refs(),
                    self.spec_head() == old(self).spec_head(),
                    forall|j: int| 0 <= j < files@.len() ==> w.contains_key(#[trigger] files@[j]@),
                    crate::repo::files_apart(w) ==> forall|q: Seq<u8>| #[trigger] covered(w, ps, i as int, files@, k as int, q)
                        ==> staged(w, self.spec_index().spec_entries(), q),
                    forall|q: Seq<u8>, s: MergeStage| !covered(w, ps, i as int, files@, k as int, q) && !(s == MergeStage::Normal
                        && collides_covered(w, ps, i as int, files@, k as int, q)) ==> (
                        #[trigger] self.spec_index().spec_entries().contains_key(index_key(q, s)) <==> i0.contains_key(index_key(q, s))),
                    forall|q: Seq<u8>, s: MergeStage| !covered(w, ps, i as int, files@, k as int, q)
                        && #[trigger] self.spec_index().spec_entries().contains_key(index_key(q, s)) ==> self.spec_index().spec_entries()[
                        index_key(q, s)] == i0[index_key(q, s)],
                decreases files@.len() - k,
            {
                let q = files[k].as_slice();
                if path_matches(p, q) {
                    let ghost i1 = self.spec_index().spec_entries();
                    let ghost qv = q@;
                    let _ = self.add_path(q);
                    proof {
                        let i2 = self.spec_index().spec_entries();
                        let kk = k as int;
                        assert(covered(w, ps, i as int, files@, kk + 1, qv));
                        assert forall|x: Seq<u8>| covered(w, ps, i as int, files@, kk, x) implies #[trigger] covered(w, ps, i as int,
                            files@, kk + 1, x) by {
                            if !matched_before(w, ps, i as int, x) {
                                let l = choose|l: int| 0 <= l < kk && files@[l]@ == x && pathspec_matches(ps[i as int]@, x);
                                assert(0 <= l < kk + 1 && files@[l]@ == x);
                            }
                        }
                        assert forall|x: Seq<u8>, s: MergeStage| !covered(w, ps, i as int, files@, kk + 1, x) && !(s == MergeStage::Normal
                            && collides_covered(w, ps, i as int, files@, kk + 1, x)) implies (#[trigger] i2.contains_key(index_key(x, s))
                            <==> i0.contains_key(index_key(x, s))) by {
                            assert(x != qv);
                            if s == MergeStage::Normal && collide_paths(x, qv) {
                                assert(collides_covered(w, ps, i as int, files@, kk + 1, x));
                            }
                            if s == MergeStage::Normal && collides_covered(w, ps, i as int, files@, kk, x) {
                                let y = choose|y: Seq<u8>| #[trigger] covered(w, ps, i as int, files@, kk, y) && collide_paths(x, y);
                                assert(covered(w, ps, i as int, files@, kk + 1, y));
                            }
                            if covered(w, ps, i as int, files@, kk, x) {
                                assert(covered(w, ps, i as int, files@, kk + 1, x));
                            }
                            assert(i2.contains_key(index_key(x, s)) <==> i1.contains_key(index_key(x, s)));
                        }
                        assert forall|x: Seq<u8>, s: MergeStage| !covered(w, ps, i as int, files@, kk + 1, x)
                            && #[trigger] i2.contains_key(index_key(x, s)) implies i2[index_key(x, s)] == i0[index_key(x, s)] by {
                            assert(x != qv);
                            if covered(w, ps, i as int, files@, kk, x) {
                                assert(covered(w, ps, i as int, files@, kk + 1, x));
                            }
                        }
                        if crate::repo::files_apart(w) {
                            assert forall|x: Seq<u8>| #[trigger] covered(w, ps, i as int, files@, kk + 1, x) implies staged(w, i2, x) by {
                                if x != qv {
                                    assert(covered(w, ps, i as int, files@, kk, x)) by {
                                        if !matched_before(w, ps, i as int, x) {
                                            let l = choose|l: int| 0 <= l < kk + 1 && files@[l]@ == x && pathspec_matches(ps[i as int]@, x);
                                            assert(l < kk);
                                        }
                                    }
                                    assert(w.contains_key(x) && w.contains_key(qv));
                                    assert(!collide_paths(x, qv));
                                    assert(staged(w, i1, x));
                                }
                            }
                        }
                    }
                } else {
                    proof {
                        let kk = k as int;
                        assert forall|x: Seq<u8>| #[trigger] covered(w, ps, i as int, files@, kk + 1, x) == covered(w, ps, i as int,
                            files@, kk, x) by {
                            if covered(w, ps, i as int, files@, kk + 1, x) && !matched_before(w, ps, i as int, x) {
                                let l = choose|l: int| 0 <= l < kk + 1 && files@[l]@ == x && pathspec_matches(ps[i as int]@, x);
                                assert(l < kk);
                            }
                            if covered(w, ps, i as int, files@, kk, x) && !matched_before(w, ps, i as int, x) {
                                let l = choose|l: int| 0 <= l < kk && files@[l]@ == x && pathspec_matches(ps[i as int]@, x);
                                assert(0 <= l < kk + 1);
                            }
                        }
                        assert forall|x: Seq<u8>| #[trigger] collides_covered(w, ps, i as int, files@, kk + 1, x) == collides_covered(w,
                            ps, i as int, files@, kk, x) by {
                            if collides_covered(w, ps, i as int, files@, kk + 1, x) {
                                let y = choose|y: Seq<u8>| #[trigger] covered(w, ps, i as int, files@, kk + 1, y) && collide_paths(x, y);
                                assert(covered(w, ps, i as int, files@, kk, y));
                            }
                            if collides_covered(w, ps, i as int, files@, kk, x) {
                                let y = choose|y: Seq<u8>| #[trigger] covered(w, ps, i as int, files@, kk, y) && collide_paths(x, y);
                                assert(covered(w, ps, i as int, files@, kk + 1, y));
                            }
                        }
                    }
                }
                k = k + 1;
            }
            proof {
                let n = files@.len() as int;
                assert forall|x: Seq<u8>| #[trigger] covered(w, ps, i as int, files@, n, x) == matched_before(w, ps, i + 1, x) by {
                    if matched_before(w, ps, i + 1, x) && !matched_before(w, ps, i as int, x) {
                        let l = choose|l: int| 0 <= l < i + 1 && pathspec_matches((#[trigger] ps[l])@, x);
                        assert(l == i);
                        let m = choose|m: int| 0 <= m < files@.len() && #[trigger] files@[m]@ == x;
                        assert(covered(w, ps, i as int, files@, n, x));
                    }
                    if covered(w, ps, i as int, files@, n, x) && !matched_before(w, ps, i as int, x) {
                        let l = choose|l: int| 0 <= l < n && files@[l]@ == x && pathspec_matches(ps[i as int]@, x);
                        assert(w.contains_key(x));
                        assert(matched_before(w, ps, i + 1, x));
                    }
                    if matched_before(w, ps, i as int, x) {
                        let l = choose|l: int| 0 <= l < i && pathspec_matches((#[trigger] ps[l])@, x);
                        assert(0 <= l < i + 1);
                    }
                }
                assert forall|x: Seq<u8>| #[trigger] collides_covered(w, ps, i as int, files@, n, x) == collides_before(w, ps, i + 1, x) by {
                    if collides_covered(w, ps, i as int, files@, n, x) {
                        let y = choose|y: Seq<u8>| #[trigger] covered(w, ps, i as int, files@, n, y) && collide_paths(x, y);
                        assert(matched_before(w, ps, i + 1, y));
                    }
                    if collides_before(w, ps, i + 1, x) {
                        let y = choose|y: Seq<u8>| #[trigger] matched_before(w, ps, i + 1, y) && collide_paths(x, y);
                        assert(covered(w, ps, i as int, files@, n, y));
                    }
                }
                let i3 = self.spec_index().spec_entries();
                if crate::repo::files_apart(w) {
                    assert forall|q: Seq<u8>| #[trigger] matched_before(w, ps, i + 1, q) implies staged(w, i3, q) by {
                        assert(covered(w, ps, i as int, files@, n, q));
                    }
                }
                assert forall|q: Seq<u8>, s: MergeStage| !matched_before(w, ps, i + 1, q) && !(s == MergeStage::Normal
                    && collides_before(w, ps, i + 1, q)) implies (#[trigger] i3.contains_key(index_key(q, s)) <==> i0.contains_key(
                    index_key(q, s))) by {
                    assert(!covered(w, ps, i as int, files@, n, q));
                    assert(collides_covered(w, ps, i as int, files@, n, q) == collides_before(w, ps, i + 1, q));
                }
                assert forall|q: Seq<u8>, s: MergeStage| !matched_before(w, ps, i + 1, q) && #[trigger] i3.contains_key(index_key(q, s))
                    implies i3[index_key(q, s)] == i0[index_key(q, s)] by {
                    assert(!covered(w, ps, i as int, files@, n, q));
                }
                assert(added(w, i0, i3, ps, i + 1));
            }
            i = i + 1;
        }
        Ok(())
    }

    /// Creates the branch `name` at the revision `from` and returns its reference.
    pub fn bit_create_branch(&mut self, name: &[u8], from: &[u8]) -> (r: BitResult<BitRef>)
        requires
            old(self).wf(),
        ensures
            final(self).wf(),
            !crate::refname::valid_ref_name(name@) ==> (r matches Err(BitError::InvalidBranchName(n)) && n@ == name@),
            r matches Ok(b) ==> b@ == RefView::Symbolic(branch_full_name(name@))
                && final(self).spec_refs().contains_key(branch_full_name(name@)),
            r is Ok ==> exists|x: RefView| #[trigger] crate::repo::resolves(old(self).spec_refs(), old(self).spec_head(), x)
                && final(self).spec_refs()[branch_full_name(name@)]@ == crate::repo::resolve(old(self).spec_refs(),
                old(self).spec_head(), x),
            r is Ok && base_end(from@, 0) == from@.len() && from@ != head_name() && from@.len() == 40
                && crate::hash::all_hex_digits(from@) ==> final(self).spec_refs()[branch_full_name(name@)]@ == crate::hash::hex_value(
                from@),
            r is Ok && base_end(from@, 0) == from@.len() && from@ != head_name() && !(from@.len() == 40 && crate::hash::all_hex_digits(
                from@)) ==> final(self).spec_refs()[branch_full_name(name@)]@ == crate::repo::resolve(old(self).spec_refs(),
                old(self).spec_head(), RefView::Symbolic(crate::repo::expand_ref(old(self).spec_refs(), from@)->0)),
            r is Ok && from@ == head_name() ==> final(self).spec_refs()[branch_full_name(name@)]@ == crate::repo::resolve(
                old(self).spec_refs(), old(self).spec_head(), old(self).spec_head()),
            r is Ok && crate::rev::is_first_parent_rev(from@) ==> final(self).spec_refs()[branch_full_name(name@)]@
                == crate::rev::first_parent_rev(*old(self), from@)->0,
            r is Err ==> final(self).spec_refs() == old(self).spec_refs(),
            final(self).spec_head() == old(self).spec_head(),
    {
        proof {
            if from@ == head_name() {
                assert(base_end(from@, 4) == 4);
                assert(base_end(from@, 3) == 4);
                assert(base_end(from@, 2) == 4);
                assert(base_end(from@, 1) == 4);
                assert(base_end(from@, 0) == 4);
            }
        }
        if !crate::refname::is_valid_name(name) {
            return Err(BitError::InvalidBranchName(crate::bytes::slice_to_vec(name)));
        }
        let reference = self.resolve_rev(from)?;
        self.create_branch(name, &reference)?;
        proof {
            assert(crate::repo::resolves(old(self).spec_refs(), old(self).spec_head(), reference@));
        }
        Ok(BitRef::Symbolic(branch_name_bytes(name)))
    }

    /// The difference between a tree, or the tree of a commit, and the index.
    pub fn diff_treeish_index(&self, treeish: &Oid) -> (r: BitResult<WorkspaceStatus>)
        requires
            self.wf(),
        ensures
            r is Ok <==> (treeish_tree(self.spec_odb(), treeish@) is Some && flatten_spec(
                self.spec_odb(),
                treeish_tree(self.spec_odb(), treeish@)->0,
                self.spec_odb_len(),
            ) is Some),
            r matches Ok(s) ==> diff_of(
                flatten_spec(self.spec_odb(), treeish_tree(self.spec_odb(), treeish@)->0, self.spec_odb_len())->0,
                index_view(self.spec_index().spec_entries()),
                s,
            ),
    {
        let tree = match self.read_obj(treeish)? {
            BitObjKind::Commit(c) => c.tree,
            BitObjKind::Tree(_) => *treeish,
            o => {
                return Err(BitError::ExpectedTree(*treeish, o.obj_type()));
            },
        };
        self.diff_tree_index(&tree)
    }

    /// The difference between the tree of the revision `rev` and the index.
    pub fn diff_rev_index(&self, rev: &[u8]) -> (r: BitResult<WorkspaceStatus>)
        requires
            self.wf(),
        ensures
            base_end(rev@, 0) == rev@.len() && rev@ == head_name() ==> (r is Ok <==> (head_tree_spec(*self) is Some
                && flatten_spec(self.spec_odb(), head_tree_spec(*self)->0, self.spec_odb_len()) is Some)),
            base_end(rev@, 0) == rev@.len() && rev@ == head_name() ==> (r matches Ok(s) ==> diff_of(
                flatten_spec(self.spec_odb(), head_tree_spec(*self)->0, self.spec_odb_len())->0,
                index_view(self.spec_index().spec_entries()),
                s,
            )),
    {
        let reference = self.resolve_rev(rev)?;
        self.diff_ref_index(&reference)
    }
}

/// The options of `ls-files`: whether to show each entry's mode, id and stage.
pub struct BitLsFilesOpts {
    pub stage: bool,
}

/// A mode as `ls-files` shows it: six octal digits.
pub open spec fn display_mode(m: crate::obj::FileMode) -> Seq<u8> {
    if m == crate::obj::FileMode::TREE {
        seq![48u8] + crate::obj::mode_bytes(m)
    } else {
        crate::obj::mode_bytes(m)
    }
}

/// The line `ls-files` shows for an index entry: its path, preceded, with `stage`, by its
/// mode, id and stage and a tab.
pub open spec fn ls_files_line(e: crate::index::IndexEntryView, stage: bool) -> Seq<u8> {
    if stage {
        display_mode(e.mode) + seq![32u8] + crate::obj::hex_ascii(e.oid) + seq![32u8] + seq![(48 + crate::index::stage_value(
            crate::index::stage_of_bits(e.flags))) as u8] + seq![9u8] + e.path + seq![10u8]
    } else {
        e.path + seq![10u8]
    }
}

/// What `cat-file` shows of an object.
pub enum BitCatFileOperation {
    /// The serialized object, as the given type.
    PrintAsType(crate::obj::BitObjType),
    /// The name of the object's type.
    ShowType,
    /// The size of the serialized object, in decimal.
    ShowSize,
    /// Nothing: only whether the object can be read.
    Exit,
    /// The serialized object.
    PrettyPrint,
}

/// The options of `cat-file`: the revision naming the object, and what to show of it.
pub struct BitCatFileOpts {
    pub rev: Vec<u8>,
    pub op: BitCatFileOperation,
}

/// What `cat-file` shows of the object `o`.
pub open spec fn cat_file_output(o: ObjView, op: BitCatFileOperation) -> Seq<u8> {
    match op {
        BitCatFileOperation::ShowType => crate::obj::obj_type_name(crate::obj::obj_view_type(o)) + seq![10u8],
        BitCatFileOperation::ShowSize => crate::bytes::dec_digits(crate::obj::obj_body(o).len()) + seq![10u8],
        BitCatFileOperation::Exit => Seq::empty(),
        _ => crate::obj::obj_body(o) + seq![10u8],
    }
}

impl BitRepo {
    /// The lines `ls-files` shows, one per index entry that is not a gitlink, in index order.
    pub fn ls_files(&self, opts: &BitLsFilesOpts) -> (r: Vec<Vec<u8>>)
        ensures
            r@.len() == crate::index::non_gitlinks(self.spec_index().spec_list()).len(),
            forall|j: int| 0 <= j < r@.len() ==> (#[trigger] r@[j])@ == ls_files_line(
                crate::index::non_gitlinks(self.spec_index().spec_list())[j], opts.stage),
    {
        let entries = self.index().std_iter();
        let mut r: Vec<Vec<u8>> = Vec::new();
        let mut i: usize = 0;
        while i < entries.len()
            invariant
                0 <= i <= entries@.len(),
                crate::index::entry_views(entries@) == crate::index::non_gitlinks(self.spec_index().spec_list()),
                r@.len() == i,
                forall|j: int| 0 <= j < i ==> (#[trigger] r@[j])@ == ls_files_line(entries@[j]@, opts.stage),
            decreases entries@.len() - i,
        {
            let e = &entries[i];
            let mut line: Vec<u8> = Vec::new();
            if opts.stage {
                if e.mode == crate::obj::FileMode::TREE {
                    line.push(48u8);
                }
                let m = e.mode.to_bytes();
                crate::bytes::append_bytes(&mut line, m.as_slice());
                line.push(32u8);
                let h = crate::obj::oid_hex_bytes(&e.oid);
                crate::bytes::append_bytes(&mut line, h.as_slice());
                line.push(32u8);
                line.push(48u8 + e.stage().as_u8());
                line.push(9u8);
            }
            crate::bytes::append_bytes(&mut line, e.path.as_slice());
            line.push(10u8);
            proof {
                assert(line@ =~= ls_files_line(e@, opts.stage));
            }
            r.push(line);
            proof {
                assert(crate::index::entry_views(entries@)[i as int] == entries@[i as int]@);
            }
            i = i + 1;
        }
        proof {
            assert forall|j: int| 0 <= j < r@.len() implies (#[trigger] r@[j])@ == ls_files_line(crate::index::non_gitlinks(
                self.spec_index().spec_list())[j], opts.stage) by {
                assert(crate::index::entry_views(entries@)[j] == entries@[j]@);
            }
        }
        r
    }

    /// What `cat-file` shows of the object the revision names.
    pub fn cat_file(&self, opts: &BitCatFileOpts) -> (r: BitResult<Vec<u8>>)
        ensures
            r matches Ok(v) ==> exists|o: Seq<u8>| #[trigger] self.spec_odb().contains_key(o) && v@ == cat_file_output(
                self.spec_odb()[o]@, opts.op),
            base_end(opts.rev@, 0) == opts.rev@.len() && opts.rev@ != head_name() && opts.rev@.len() == 40
                && crate::hash::all_hex_digits(opts.rev@) ==> (r is Ok <==> self.spec_odb().contains_key(crate::hash::hex_value(
                opts.rev@))) && (r matches Ok(v) ==> v@ == cat_file_output(self.spec_odb()[crate::hash::hex_value(opts.rev@)]@,
                opts.op)),
    {
        let oid = self.fully_resolve_rev(opts.rev.as_slice())?;
        let obj = self.read_obj(&oid)?;
        let r = match opts.op {
            BitCatFileOperation::ShowType => {
                let mut v = obj.obj_type().name();
                v.push(10u8);
                v
            },
            BitCatFileOperation::ShowSize => {
                let body = obj.serialize();
                let mut v = crate::bytes::u64_to_dec(body.len() as u64);
                v.push(10u8);
                v
            },
            BitCatFileOperation::Exit => Vec::new(),
            _ => {
                let mut v = obj.serialize();
                v.push(10u8);
                v
            },
        };
        proof {
            assert(r@ =~= cat_file_output(self.spec_odb()[oid@]@, opts.op));
        }
        Ok(r)
    }
}

} // verus!
