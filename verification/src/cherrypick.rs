//! Cherry-picking: applying the change a commit made, relative to its parent, on top of HEAD.
use crate::bytes::copy_bytes;
use crate::error::{BitError, BitResult};
use crate::hash::{Oid, SHA1Hash};
use crate::merge::MergeOpts;
use crate::obj::BitObjKind;
use crate::repo::{head_name, resolve, resolves, BitRef, BitRepo, RefView};
use vstd::prelude::*;

verus! {

/// Whether `reference` names a commit with more than one parent.
pub open spec fn picks_merge_commit(repo: BitRepo, reference: RefView) -> bool {
    &&& resolves(repo.spec_refs(), repo.spec_head(), reference)
    &&& repo.spec_odb().contains_key(resolve(repo.spec_refs(), repo.spec_head(), reference))
    &&& repo.spec_odb()[resolve(repo.spec_refs(), repo.spec_head(), reference)] matches BitObjKind::Commit(c)
        && c.parents@.len() >= 2
}

/// A pick of `reference` fails before it touches anything: the reference does not name a
/// commit, or names a merge commit.
pub open spec fn fails_to_pick(repo: BitRepo, reference: RefView) -> bool {
    let c = resolve(repo.spec_refs(), repo.spec_head(), reference);
    ||| !resolves(repo.spec_refs(), repo.spec_head(), reference)
    ||| !(repo.spec_odb().contains_key(c) && repo.spec_odb()[c] is Commit)
    ||| picks_merge_commit(repo, reference)
}

/// The tree a pick of the commit `c` merges against: the tree of its parent, or, for a
/// root commit, the unknown id, which stands for the empty tree.
pub open spec fn pick_base_tree(odb: Map<Seq<u8>, BitObjKind>, c: Seq<u8>) -> Seq<u8> {
    let k = odb[c]->Commit_0;
    if k.parents@.len() == 1 {
        odb[k.parents@[0]@]->Commit_0.tree@
    } else {
        crate::hash::zero_hash()
    }
}

/// A pick of the commit `picked` onto HEAD took `before` to `after`: the changes of the
/// picked commit against its parent were merged three-way into the tree of HEAD (state
/// `mid`); with conflicts the repository stays there, else the index's tree is committed.
pub open spec fn picked_change(before: BitRepo, mid: BitRepo, after: BitRepo, picked: Seq<u8>) -> bool {
    let odb = before.spec_odb();
    let ours = resolve(before.spec_refs(), before.spec_head(), RefView::Symbolic(head_name()));
    &&& crate::merge::three_way_merged(before, mid, pick_base_tree(odb, picked), odb[ours]->Commit_0.tree@,
        odb[picked]->Commit_0.tree@)
    &&& mid.spec_index().has_conflicts_spec() ==> after == mid
    &&& !mid.spec_index().has_conflicts_spec() ==> {
        &&& after.spec_index() == mid.spec_index()
        &&& after.spec_worktree() == mid.spec_worktree()
        &&& resolves(after.spec_refs(), after.spec_head(), RefView::Symbolic(head_name()))
        &&& after.spec_odb()[resolve(after.spec_refs(), after.spec_head(), RefView::Symbolic(head_name()))] matches
            BitObjKind::Commit(c) && crate::commit::tree_of_index(mid, c.tree@)
    }
}

/// A pick applies the change of the picked commit `C` against its parent `P`, not against
/// anything else: the three-way merge it makes has the tree of `P` as its base, the tree of
/// HEAD as ours and the tree of `C` as theirs. So at each path the merge reaches where `P` and
/// `C` hold the same file (the picked commit changed nothing there) and HEAD's tree holds
/// another file, HEAD's file is what gets staged.
pub proof fn law_pick_keeps_ours_where_the_commit_changed_nothing(before: BitRepo, after: BitRepo, x: RefView)
    requires
        pick_outcome(before, after, x, Ok(())),
        ({
            let odb = before.spec_odb();
            let c = resolve(before.spec_refs(), before.spec_head(), x);
            odb.contains_key(c) && odb[c] is Commit && odb[c]->Commit_0.parents@.len() == 1
        }),
    ensures
        ({
            let odb = before.spec_odb();
            let c = resolve(before.spec_refs(), before.spec_head(), x);
            let parent = odb[c]->Commit_0.parents@[0]@;
            let head = resolve(before.spec_refs(), before.spec_head(), RefView::Symbolic(head_name()));
            crate::merge::merge_keeps_ours(before, odb[parent]->Commit_0.tree@, odb[head]->Commit_0.tree@, odb[c]->Commit_0.tree@)
        }),
{
    let odb = before.spec_odb();
    let c = resolve(before.spec_refs(), before.spec_head(), x);
    let head = resolve(before.spec_refs(), before.spec_head(), RefView::Symbolic(head_name()));
    let mid = choose|mid: BitRepo| #[trigger] picked_change(before, mid, after, c);
    crate::merge::lemma_three_way_keeps_ours(before, mid, pick_base_tree(odb, c), odb[head]->Commit_0.tree@, odb[c]->Commit_0.tree@);
}

/// What a cherry-pick of the reference `x` does when it takes `before` to `after` and returns
/// `r`.
pub open spec fn pick_outcome(before: BitRepo, after: BitRepo, x: RefView, r: BitResult<()>) -> bool {
    &&& (picks_merge_commit(before, x) ==> r == Err::<(), BitError>(BitError::CherrypickMergeCommit) && after == before)
    &&& (!resolves(before.spec_refs(), before.spec_head(), x) ==> r is Err
        && after == before)
    &&& (resolves(before.spec_refs(), before.spec_head(), x) && !(before.spec_odb().contains_key(
        resolve(before.spec_refs(), before.spec_head(), x)) && before.spec_odb()[resolve(
        before.spec_refs(), before.spec_head(), x)] is Commit) ==> r is Err && after == before)
    &&& (r matches Err(BitError::MergeConflict(c)) ==> c.uncommitted@.len() > 0
        && crate::repo::same_files(after.spec_worktree(), before.spec_worktree())
        && crate::index::serialize::entry_view_map(after.spec_index().spec_entries())
        == crate::index::serialize::entry_view_map(before.spec_index().spec_entries())
        && after.spec_refs() == before.spec_refs() && after.spec_head() == before.spec_head())
    &&& (r is Ok ==> !exists|p: Seq<u8>| #[trigger] crate::merge::unstaged_at(before, p))
    &&& (r is Ok ==> exists|mid: BitRepo| #[trigger] picked_change(before, mid, after, resolve(before.spec_refs(),
        before.spec_head(), x)))
    &&& (r is Ok && after.spec_index().has_conflicts_spec() ==> after.spec_refs()
        == before.spec_refs() && after.spec_head() == before.spec_head())
    &&& (r is Ok && !after.spec_index().has_conflicts_spec() ==> {
        let picked = resolve(before.spec_refs(), before.spec_head(), x);
        let new_head = resolve(
            after.spec_refs(),
            after.spec_head(),
            RefView::Symbolic(head_name()),
        );
        &&& resolves(after.spec_refs(), after.spec_head(), RefView::Symbolic(head_name()))
        &&& after.spec_odb().contains_key(new_head)
        &&& after.spec_odb()[new_head] matches BitObjKind::Commit(c) && (c@.parents
            == seq![resolve(before.spec_refs(), before.spec_head(), RefView::Symbolic(head_name()))]
            && (before.spec_odb()[picked] matches BitObjKind::Commit(p) && c.message@
            == p.message@))
    })
}

/// `rs` are the states of the repository as the first `k` references of `xs` are picked in
/// turn, each pick succeeding.
pub open spec fn picked_in_turn(rs: Seq<BitRepo>, xs: Seq<BitRef>, k: int) -> bool {
    &&& rs.len() == k + 1
    &&& forall|j: int| 0 <= j < k ==> pick_outcome(#[trigger] rs[j], rs[j + 1], xs[j]@, Ok(()))
}

impl BitRepo {
    /// Applies the change of the commit `reference` names (against its parent, or against
    /// nothing for a root commit) to HEAD, in the index and the working tree, by a three-way
    /// merge. Without conflicts the result is committed on top of HEAD with the picked
    /// commit's message; with conflicts they stay in the index and nothing is committed.
    /// Merge commits are not picked.
    pub fn cherrypick(&mut self, reference: BitRef) -> (r: BitResult<()>)
        requires
            old(self).wf(),
        ensures
            final(self).wf(),
            pick_outcome(*old(self), *final(self), reference@, r),
    {
        let oid = self.fully_resolve_ref(&reference)?;
        let commit = self.read_commit(&oid)?;
        if commit.parents.len() >= 2 {
            return Err(BitError::CherrypickMergeCommit);
        }
        let message = copy_bytes(&commit.message);
        let base_tree = if commit.parents.len() == 1 {
            let parent = commit.parents[0];
            self.read_commit(&parent)?.tree
        } else {
            SHA1Hash::unknown()
        };
        let their_tree = commit.tree;
        let our_head = self.fully_resolve_head()?;
        let our_tree = self.read_commit(&our_head)?.tree;
        let ghost picked_commit = self.spec_odb()[oid@];
        let ghost mid = *self;
        proof {
            assert(base_tree@ == pick_base_tree(self.spec_odb(), oid@));
            assert(our_tree@ == self.spec_odb()[resolve(self.spec_refs(), self.spec_head(), RefView::Symbolic(head_name()))]->Commit_0.tree@);
            assert(their_tree@ == self.spec_odb()[oid@]->Commit_0.tree@);
        }
        self.merge_trees(&reference, oid, MergeOpts::default_opts(), &base_tree, &our_tree, &their_tree)?;
        let ghost merged = *self;
        proof {
            assert forall|p: Seq<u8>| !#[trigger] crate::merge::unstaged_at(*old(self), p) by {
                assert(crate::merge::unstaged_at(mid, p) == crate::merge::unstaged_at(*old(self), p));
                if crate::merge::unstaged_at(mid, p) {
                    assert(crate::merge::uncommitted_at(mid, p));
                }
            }
        }
        if self.index().has_conflicts() {
            proof {
                assert(picked_change(*old(self), merged, *self, oid@));
            }
            return Ok(());
        }
        let tree = self.write_tree()?;
        assert(crate::commit::tree_of_index(merged, tree@));
        let mut parents: Vec<Oid> = Vec::new();
        parents.push(our_head);
        let c = self.commit_tree(tree, parents, message);
        proof {
            assert(parents@.map_values(|p: Oid| p@) =~= seq![our_head@]);
        }
        self.update_current_ref(c);
        proof {
            assert(picked_change(*old(self), merged, *self, oid@));
        }
        Ok(())
    }

    /// Cherry-picks the commit `oid`.
    pub fn cherrypick_commit(&mut self, oid: Oid) -> (r: BitResult<()>)
        requires
            old(self).wf(),
        ensures
            final(self).wf(),
            picks_merge_commit(*old(self), RefView::Direct(oid@)) ==> r == Err::<(), BitError>(
                BitError::CherrypickMergeCommit,
            ) && *final(self) == *old(self),
            !(old(self).spec_odb().contains_key(oid@) && old(self).spec_odb()[oid@] is Commit) ==> r is Err && *final(self)
                == *old(self),
            r matches Err(BitError::MergeConflict(c)) ==> c.uncommitted@.len() > 0
                && crate::repo::same_files(final(self).spec_worktree(), old(self).spec_worktree())
                && crate::index::serialize::entry_view_map(final(self).spec_index().spec_entries())
                == crate::index::serialize::entry_view_map(old(self).spec_index().spec_entries()),
            r is Ok ==> !exists|p: Seq<u8>| #[trigger] crate::merge::unstaged_at(*old(self), p),
            r is Ok ==> exists|mid: BitRepo| #[trigger] picked_change(*old(self), mid, *final(self), oid@),
            r is Ok && !final(self).spec_index().has_conflicts_spec() ==> {
                let new_head = resolve(final(self).spec_refs(), final(self).spec_head(), RefView::Symbolic(head_name()));
                &&& resolves(final(self).spec_refs(), final(self).spec_head(), RefView::Symbolic(head_name()))
                &&& final(self).spec_odb().contains_key(new_head)
                &&& final(self).spec_odb()[new_head] matches BitObjKind::Commit(c) && (c@.parents
                    == seq![resolve(old(self).spec_refs(), old(self).spec_head(), RefView::Symbolic(head_name()))]
                    && (old(self).spec_odb()[oid@] matches BitObjKind::Commit(p) && c.message@ == p.message@))
            },
    {
        self.cherrypick(BitRef::Direct(oid))
    }

    /// Cherry-picks the commits in order; stops at the first error, which it returns. The
    /// list must not be empty. When every pick succeeds the result is `Ok`: handling the
    /// conflicts that such picks leave in the index is not done here.
    pub fn cherrypick_many(&mut self, refs: Vec<BitRef>) -> (r: BitResult<()>)
        requires
            old(self).wf(),
            refs@.len() > 0,
        ensures
            final(self).wf(),
            refs@.len() > 0 && fails_to_pick(*old(self), refs@[0]@) ==> r is Err && *final(self) == *old(self),
            refs@.len() > 0 && picks_merge_commit(*old(self), refs@[0]@) ==> r == Err::<(), BitError>(
                BitError::CherrypickMergeCommit,
            ),
            r is Ok ==> exists|rs: Seq<BitRepo>| #[trigger] picked_in_turn(rs, refs@, refs@.len() as int) && rs[0] == *old(self)
                && rs[refs@.len() as int] == *final(self),
            r is Err ==> exists|k: int, rs: Seq<BitRepo>| 0 <= k < refs@.len() && #[trigger] picked_in_turn(rs, refs@, k) && rs[0]
                == *old(self) && pick_outcome(rs[k], *final(self), refs@[k]@, r),
    {
        let ghost mut rs: Seq<BitRepo> = seq![*self];
        let mut i: usize = 0;
        while i < refs.len()
            invariant
                self.wf(),
                i <= refs@.len(),
                i == 0 ==> *self == *old(self),
                i > 0 ==> !fails_to_pick(*old(self), refs@[0]@),
                picked_in_turn(rs, refs@, i as int),
                rs[0] == *old(self),
                rs[i as int] == *self,
            decreases refs@.len() - i,
        {
            let ghost before = *self;
            let x = refs[i].copy();
            let res = self.cherrypick(x);
            match res {
                Ok(()) => {},
                Err(e) => {
                    proof {
                        assert(pick_outcome(rs[i as int], *self, refs@[i as int]@, Err(e)));
                        assert(0 <= i < refs@.len() && picked_in_turn(rs, refs@, i as int));
                    }
                    return Err(e);
                },
            }
            proof {
                let rs0 = rs;
                rs = rs.push(*self);
                assert forall|j: int| 0 <= j < i + 1 implies pick_outcome(#[trigger] rs[j], rs[j + 1], refs@[j]@, Ok(())) by {
                    if j < i {
                        assert(rs[j] == rs0[j] && rs[j + 1] == rs0[j + 1]);
                    }
                }
            }
            i = i + 1;
        }
        Ok(())
    }
}

} // verus!
