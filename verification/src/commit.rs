//! Commits: writing commit objects, committing the index, and the status of a repository.
use crate::bytes::copy_bytes;
use crate::diff::{
    diff_deleted_ok, diff_flat, diff_modified_ok, diff_new_ok, diff_of, file_at, head_tree_spec, index_view,
    lemma_diff_of, lemma_index_view, lemma_worktree_view, worktree_view, WorkspaceStatus,
};
use crate::tree::flatten_spec;
use crate::error::{BitError, BitResult};
use crate::hash::{empty_tree_hash, zero_hash, Oid, SHA1Hash};
use crate::obj::{obj_oid, BitObjKind, Commit, CommitView, ObjView};
use crate::repo::{head_name, resolve, resolves, BitRepo, RefView};
use crate::tree::odb_extends;
use vstd::prelude::*;

verus! {

/// The name and address recorded as author and committer of every commit.
pub open spec fn author_spec() -> Seq<u8> {
    seq![98u8, 105, 116, 32, 60, 98, 105, 116, 64, 108, 111, 99, 97, 108, 104, 111, 115, 116, 62]
}

/// `bit <bit@localhost>`
pub fn author_bytes() -> (r: Vec<u8>)
    ensures
        r@ == author_spec(),
{
    let r = vec![98u8, 105, 116, 32, 60, 98, 105, 116, 64, 108, 111, 99, 97, 108, 104, 111, 115, 116, 62];
    assert(r@ =~= author_spec());
    r
}

/// Options of a commit.
pub struct CommitOpts {
    pub message: Vec<u8>,
    pub allow_empty: bool,
}

/// What a commit did: the id of the new commit and what changed since its parent.
pub struct CommitSummary {
    pub oid: Oid,
    pub status: WorkspaceStatus,
}

/// The state of a repository against its HEAD.
#[derive(Debug, Clone, PartialEq, Eq)]
pub struct BitStatus {
    /// From the tree of HEAD to the index.
    pub staged: WorkspaceStatus,
    /// From the index to the working tree, untracked files left out.
    pub unstaged: WorkspaceStatus,
    /// Files of the working tree the index does not list.
    pub untracked: Vec<Vec<u8>>,
    /// HEAD names a branch with no commit yet.
    pub initial: bool,
}

impl BitStatus {
    /// Nothing staged, nothing changed, nothing untracked.
    pub fn is_empty(&self) -> (r: bool)
        ensures
            r == (self.staged.new@.len() == 0 && self.staged.modified@.len() == 0 && self.staged.deleted@.len() == 0
                && self.unstaged.new@.len() == 0 && self.unstaged.modified@.len() == 0
                && self.unstaged.deleted@.len() == 0 && self.untracked@.len() == 0),
    {
        self.staged.is_empty() && self.unstaged.is_empty() && self.untracked.len() == 0
    }

    /// HEAD names a branch with no commit yet.
    pub fn is_initial(&self) -> (r: bool)
        ensures
            r == self.initial,
    {
        self.initial
    }
}

impl BitRepo {
    /// Writes a commit of `tree` with the given parents and message, stamped with the clock,
    /// and returns its id. References do not move.
    pub fn commit_tree(&mut self, tree: Oid, parents: Vec<Oid>, message: Vec<u8>) -> (r: Oid)
        requires
            old(self).wf(),
        ensures
            final(self).wf(),
            final(self).spec_odb().contains_key(r@),
            final(self).spec_odb()[r@] matches BitObjKind::Commit(c) && c.tree@ == tree@ && c@.parents
                == parents@.map_values(|p: Oid| p@) && c.message@ == message@ && c.time == old(self).spec_time(),
            odb_extends(old(self).spec_odb(), final(self).spec_odb()),
            final(self).spec_refs() == old(self).spec_refs(),
            final(self).spec_head() == old(self).spec_head(),
            final(self).spec_index() == old(self).spec_index(),
            final(self).spec_worktree() == old(self).spec_worktree(),
    {
        let time = self.tick();
        let c = Commit { tree, parents, author: author_bytes(), time, message };
        self.write_obj(BitObjKind::Commit(c))
    }

    /// The status of the repository: staged changes, unstaged changes and untracked files.
    pub fn status(&self) -> (r: BitResult<BitStatus>)
        requires
            self.wf(),
        ensures
            r matches Ok(s) ==> status_of(*self, s),
            r matches Ok(s) ==> s.initial == !resolves(self.spec_refs(), self.spec_head(), RefView::Symbolic(head_name())),
            r is Ok <==> (head_tree_spec(*self) is Some && flatten_spec(
                self.spec_odb(),
                head_tree_spec(*self)->0,
                self.spec_odb_len(),
            ) is Some),
            r matches Ok(s) ==> diff_of(
                flatten_spec(self.spec_odb(), head_tree_spec(*self)->0, self.spec_odb_len())->0,
                index_view(self.spec_index().spec_entries()),
                s.staged,
            ),
            r matches Ok(s) ==> s.unstaged.new@.len() == 0 && diff_deleted_ok(
                index_view(self.spec_index().spec_entries()),
                worktree_view(self.spec_worktree()),
                s.unstaged,
            ) && diff_modified_ok(
                index_view(self.spec_index().spec_entries()),
                worktree_view(self.spec_worktree()),
                s.unstaged,
            ),
            r matches Ok(s) ==> (forall|j: int| 0 <= j < s.untracked@.len() ==> file_at(
                worktree_view(self.spec_worktree()),
                #[trigger] s.untracked@[j]@,
            ) && !file_at(index_view(self.spec_index().spec_entries()), s.untracked@[j]@)),
            r matches Ok(s) ==> (forall|p: Seq<u8>| file_at(worktree_view(self.spec_worktree()), p) && !file_at(
                index_view(self.spec_index().spec_entries()),
                p,
            ) ==> exists|j: int| 0 <= j < s.untracked@.len() && #[trigger] s.untracked@[j]@ == p),
    {
        let staged = self.diff_head_index()?;
        let fi = self.index_flat();
        let fw = self.worktree_flat();
        let d = diff_flat(&fi, &fw);
        proof {
            lemma_diff_of(fi.spec_map(), fw.spec_map(), d);
            lemma_index_view(self.spec_index().spec_entries(), fi.spec_map());
            lemma_worktree_view(self.spec_worktree(), fw.spec_map());
        }
        let ghost iv = index_view(self.spec_index().spec_entries());
        let ghost wv = worktree_view(self.spec_worktree());
        let mut untracked: Vec<Vec<u8>> = Vec::new();
        let mut i: usize = 0;
        while i < d.new.len()
            invariant
                0 <= i <= d.new@.len(),
                diff_new_ok(iv, wv, d),
                untracked@.len() == i,
                forall|j: int| 0 <= j < i ==> (#[trigger] untracked@[j])@ == d.new@[j].path@,
            decreases d.new@.len() - i,
        {
            untracked.push(copy_bytes(&d.new[i].path));
            i = i + 1;
        }
        proof {
            assert forall|p: Seq<u8>| file_at(worktree_view(self.spec_worktree()), p) && !file_at(
                index_view(self.spec_index().spec_entries()),
                p,
            ) implies exists|j: int| 0 <= j < untracked@.len() && #[trigger] untracked@[j]@ == p by {
                let j = choose|j: int| 0 <= j < d.new@.len() && #[trigger] d.new@[j].path@ == p;
                assert(untracked@[j]@ == p);
            }
        }
        let unstaged = WorkspaceStatus { new: Vec::new(), modified: d.modified, deleted: d.deleted };
        let initial = self.fully_resolve_head().is_err();
        let result = BitStatus { staged, unstaged, untracked, initial };
        proof {
            assert forall|p: Seq<u8>| file_at(worktree_view(self.spec_worktree()), p) && !file_at(
                index_view(self.spec_index().spec_entries()),
                p,
            ) implies exists|j: int| 0 <= j < result.untracked@.len() && #[trigger] result.untracked@[j]@ == p by {
                let j = choose|j: int| 0 <= j < untracked@.len() && #[trigger] untracked@[j]@ == p;
                assert(result.untracked@[j]@ == p);
            }
        }
        Ok(result)
    }

    /// Commits the index: writes its tree and a commit whose parent is the commit HEAD
    /// names (none when HEAD names a branch without commits), then moves the branch HEAD
    /// names (or HEAD itself, when detached) to the new commit. Unless `allow_empty`,
    /// fails with the status when the index holds the files of HEAD's tree (for a first
    /// commit, no file). The summary's status is the difference from HEAD's tree to the
    /// index.
    pub fn commit(&mut self, opts: CommitOpts) -> (r: BitResult<CommitSummary>)
        requires
            old(self).wf(),
        ensures
            final(self).wf(),
            r matches Ok(s) ==> final(self).spec_odb().contains_key(s.oid@)
                && final(self).spec_odb()[s.oid@] is Commit
                && resolves(final(self).spec_refs(), final(self).spec_head(), RefView::Symbolic(head_name()))
                && resolve(final(self).spec_refs(), final(self).spec_head(), RefView::Symbolic(head_name())) == s.oid@,
            r matches Ok(s) ==> (final(self).spec_odb()[s.oid@] matches BitObjKind::Commit(c) && c.message@
                == opts.message@ && c@.parents == (if resolves(
                old(self).spec_refs(),
                old(self).spec_head(),
                RefView::Symbolic(head_name()),
            ) {
                seq![resolve(old(self).spec_refs(), old(self).spec_head(), RefView::Symbolic(head_name()))]
            } else {
                Seq::<Seq<u8>>::empty()
            })),
            r is Ok <==> commit_goes_through(*old(self), opts.allow_empty),
            old(self).spec_index().has_conflicts_spec() ==> r == Err::<CommitSummary, BitError>(BitError::UnmergedIndex),
            !old(self).spec_index().has_conflicts_spec() && head_tree_spec(*old(self)) is None ==> (r matches Err(e) && (
                e is ObjectNotFound || e is ExpectedCommit)),
            (r matches Err(e) && e is EmptyCommit) <==> (!old(self).spec_index().has_conflicts_spec() && head_tree_flattens(
                *old(self)) && !opts.allow_empty && !staged_changes(*old(self))),
            r matches Err(BitError::EmptyCommit(s)) ==> s.initial == !resolves(old(self).spec_refs(), old(self).spec_head(),
                RefView::Symbolic(head_name())) && s.staged.new@.len() == 0 && s.staged.modified@.len() == 0
                && s.staged.deleted@.len() == 0,
            r matches Err(BitError::EmptyCommit(s)) ==> status_of(*old(self), s),
            r is Err ==> *final(self) == *old(self),
            r matches Ok(s) ==> (final(self).spec_odb()[s.oid@] matches BitObjKind::Commit(c) && final(self).spec_odb().contains_key(
                c.tree@)),
            r matches Ok(s) ==> (final(self).spec_odb()[s.oid@] matches BitObjKind::Commit(c) && tree_of_index(*old(self), c.tree@)),
            r matches Ok(s) ==> diff_of(head_files(*old(self)), index_view(old(self).spec_index().spec_entries()), s.status),
            final(self).spec_index() == old(self).spec_index(),
            final(self).spec_worktree() == old(self).spec_worktree(),
    {
        let parent = self.fully_resolve_head();
        if self.index().has_conflicts() {
            return Err(BitError::UnmergedIndex);
        }
        let head_tree = self.head_tree()?;
        let staged = self.diff_head_index()?;
        let is_empty = staged.new.len() == 0 && staged.modified.len() == 0 && staged.deleted.len() == 0;
        proof {
            lemma_staged_changes(*self, staged);
        }
        if !opts.allow_empty && is_empty {
            let status = self.status()?;
            proof {
                lemma_staged_changes(*self, status.staged);
            }
            return Err(BitError::EmptyCommit(status));
        }
        let tree = self.write_tree()?;
        assert(tree_of_index(*old(self), tree@));
        let mut parents: Vec<Oid> = Vec::new();
        match parent {
            Ok(p) => parents.push(p),
            Err(_) => {},
        }
        let oid = self.commit_tree(tree, parents, opts.message);
        self.update_current_ref(oid);
        proof {
            assert(self.spec_odb().contains_key(tree@));
        }
        Ok(CommitSummary { oid, status: staged })
    }
}

/// `s` is the status of `repo`: whether HEAD names a commit, the difference from the tree
/// of HEAD to the index, the unstaged changes from the index to the working tree, and the
/// files of the working tree that the index does not list.
pub open spec fn status_of(repo: BitRepo, s: BitStatus) -> bool {
    let iv = index_view(repo.spec_index().spec_entries());
    let wv = worktree_view(repo.spec_worktree());
    &&& s.initial == !resolves(repo.spec_refs(), repo.spec_head(), RefView::Symbolic(head_name()))
    &&& diff_of(head_files(repo), iv, s.staged)
    &&& s.unstaged.new@.len() == 0
    &&& diff_deleted_ok(iv, wv, s.unstaged)
    &&& diff_modified_ok(iv, wv, s.unstaged)
    &&& forall|j: int| 0 <= j < s.untracked@.len() ==> file_at(wv, #[trigger] s.untracked@[j]@) && !file_at(iv, s.untracked@[j]@)
    &&& forall|p: Seq<u8>| file_at(wv, p) && !file_at(iv, p) ==> exists|j: int| 0 <= j < s.untracked@.len()
        && #[trigger] s.untracked@[j]@ == p
}

/// `oid` is the id of a tree whose entries that are not trees are exactly the files at the
/// top level of the index of `repo`.
pub open spec fn tree_of_index(repo: BitRepo, oid: Seq<u8>) -> bool {
    let es = crate::index::non_gitlinks(repo.spec_index().spec_list());
    exists|t: BitObjKind| #[trigger] obj_oid(t@) == oid && t is Tree && crate::tree::lists_files(t->Tree_0.entries@, es, 0,
        es.len() as int, 0)
}

/// The files of the tree of HEAD, flattened (empty when HEAD names a branch without commits).
pub open spec fn head_files(repo: BitRepo) -> Map<Seq<u8>, crate::obj::TreeEntryView> {
    flatten_spec(repo.spec_odb(), head_tree_spec(repo)->0, repo.spec_odb_len())->0
}

/// The tree of HEAD can be read and flattened.
pub open spec fn head_tree_flattens(repo: BitRepo) -> bool {
    head_tree_spec(repo) is Some && flatten_spec(repo.spec_odb(), head_tree_spec(repo)->0, repo.spec_odb_len()) is Some
}

/// Some file of the index differs from the tree of HEAD (is new, modified or gone).
pub open spec fn staged_changes(repo: BitRepo) -> bool {
    exists|p: Seq<u8>| #[trigger] crate::merge::file_differs(head_files(repo), index_view(repo.spec_index().spec_entries()), p)
}

/// A commit goes through: the index has no conflicts, the tree of HEAD flattens, and there
/// is something to commit unless empty commits are allowed.
pub open spec fn commit_goes_through(repo: BitRepo, allow_empty: bool) -> bool {
    &&& !repo.spec_index().has_conflicts_spec()
    &&& head_tree_flattens(repo)
    &&& (allow_empty || staged_changes(repo))
}

/// A difference from the tree of HEAD to the index is empty exactly when nothing is staged.
proof fn lemma_staged_changes(repo: BitRepo, s: WorkspaceStatus)
    requires
        diff_of(head_files(repo), index_view(repo.spec_index().spec_entries()), s),
    ensures
        (s.new@.len() == 0 && s.modified@.len() == 0 && s.deleted@.len() == 0) <==> !staged_changes(repo),
{
    let hv = head_files(repo);
    let iv = index_view(repo.spec_index().spec_entries());
    if s.new@.len() > 0 {
        assert(crate::merge::file_differs(hv, iv, s.new@[0].path@));
    }
    if s.deleted@.len() > 0 {
        assert(crate::merge::file_differs(hv, iv, s.deleted@[0].path@));
    }
    if s.modified@.len() > 0 {
        assert(crate::merge::file_differs(hv, iv, s.modified@[0].0.path@));
    }
    if staged_changes(repo) {
        let p = choose|p: Seq<u8>| #[trigger] crate::merge::file_differs(hv, iv, p);
        if file_at(iv, p) && !file_at(hv, p) {
            let j = choose|j: int| 0 <= j < s.new@.len() && #[trigger] s.new@[j].path@ == p;
        } else if file_at(hv, p) && !file_at(iv, p) {
            let j = choose|j: int| 0 <= j < s.deleted@.len() && #[trigger] s.deleted@[j].path@ == p;
        } else {
            let j = choose|j: int| 0 <= j < s.modified@.len() && #[trigger] s.modified@[j].0.path@ == p;
        }
    }
}

} // verus!
