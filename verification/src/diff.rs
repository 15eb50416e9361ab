//! Differences between two flattened trees (a tree, the index or the working tree), file by
//! file.
use crate::bytemap::ByteMap;
use crate::bytes::copy_bytes;
use crate::error::{BitError, BitResult};
use crate::hash::{zero_hash, Oid, SHA1Hash};
use crate::index::{index_key, BitIndexEntry, IndexEntryView, MergeStage, Timespec};
use crate::obj::{obj_oid, BitObjKind, Blob, FileMode, ObjView, TreeEntry, TreeEntryView};
use crate::repo::{BitRef, BitRepo, RefView, WorktreeFile};
use crate::tree::{flat_keys_ok, flat_view, flatten_spec};
use vstd::prelude::*;

verus! {

/// A file (not a tree) is listed at `p`.
pub open spec fn blob_at(m: Map<Seq<u8>, TreeEntry>, p: Seq<u8>) -> bool {
    m.contains_key(p) && m[p].mode != FileMode::TREE
}

/// The file at `p` differs between `old` and `new` (both list one).
pub open spec fn blob_changed(old: Map<Seq<u8>, TreeEntry>, new: Map<Seq<u8>, TreeEntry>, p: Seq<u8>) -> bool {
    old[p].oid@ != new[p].oid@ || old[p].mode != new[p].mode
}

/// The files added, changed and removed between two flattened trees.
#[derive(Debug, Clone, PartialEq, Eq)]
pub struct WorkspaceStatus {
    pub new: Vec<TreeEntry>,
    pub modified: Vec<(TreeEntry, TreeEntry)>,
    pub deleted: Vec<TreeEntry>,
}

/// `s` is the difference from `old` to `new`: the files only in `new`, the files of both
/// that differ (old entry, new entry), and the files only in `old`.
/// Each list of `s` is in strictly increasing path order (so no path is listed twice).
pub open spec fn in_path_order(s: WorkspaceStatus) -> bool {
    &&& forall|a: int, b: int| 0 <= a < b < s.new@.len() ==> crate::bytes::seq_order(#[trigger] s.new@[a].path@,
        #[trigger] s.new@[b].path@) == crate::bytes::Order::Less
    &&& forall|a: int, b: int| 0 <= a < b < s.deleted@.len() ==> crate::bytes::seq_order(#[trigger] s.deleted@[a].path@,
        #[trigger] s.deleted@[b].path@) == crate::bytes::Order::Less
    &&& forall|a: int, b: int| 0 <= a < b < s.modified@.len() ==> crate::bytes::seq_order(#[trigger] s.modified@[a].0.path@,
        #[trigger] s.modified@[b].0.path@) == crate::bytes::Order::Less
}

pub open spec fn is_diff(old: Map<Seq<u8>, TreeEntry>, new: Map<Seq<u8>, TreeEntry>, s: WorkspaceStatus) -> bool {
    &&& forall|j: int| 0 <= j < s.new@.len() ==> blob_at(new, #[trigger] s.new@[j].path@) && !blob_at(old, s.new@[j].path@)
        && s.new@[j]@ == new[s.new@[j].path@]@
    &&& forall|p: Seq<u8>| blob_at(new, p) && !blob_at(old, p) ==> exists|j: int| 0 <= j < s.new@.len() && #[trigger] s.new@[j].path@ == p
    &&& forall|j: int| 0 <= j < s.deleted@.len() ==> blob_at(old, #[trigger] s.deleted@[j].path@) && !blob_at(new, s.deleted@[j].path@)
        && s.deleted@[j]@ == old[s.deleted@[j].path@]@
    &&& forall|p: Seq<u8>| blob_at(old, p) && !blob_at(new, p) ==> exists|j: int| 0 <= j < s.deleted@.len() && #[trigger] s.deleted@[j].path@ == p
    &&& forall|j: int| 0 <= j < s.modified@.len() ==> blob_at(old, #[trigger] s.modified@[j].0.path@) && blob_at(new, s.modified@[j].0.path@)
        && blob_changed(old, new, s.modified@[j].0.path@) && s.modified@[j].0@ == old[s.modified@[j].0.path@]@
        && s.modified@[j].1@ == new[s.modified@[j].0.path@]@
    &&& forall|p: Seq<u8>| blob_at(old, p) && blob_at(new, p) && blob_changed(old, new, p) ==> exists|j: int|
        0 <= j < s.modified@.len() && #[trigger] s.modified@[j].0.path@ == p
}

/// `p` is listed as added.
pub open spec fn lists_new(s: WorkspaceStatus, p: Seq<u8>) -> bool {
    exists|j: int| 0 <= j < s.new@.len() && #[trigger] s.new@[j].path@ == p
}

/// `p` is listed as removed.
pub open spec fn lists_deleted(s: WorkspaceStatus, p: Seq<u8>) -> bool {
    exists|j: int| 0 <= j < s.deleted@.len() && #[trigger] s.deleted@[j].path@ == p
}

/// `p` is listed as changed.
pub open spec fn lists_modified(s: WorkspaceStatus, p: Seq<u8>) -> bool {
    exists|j: int| 0 <= j < s.modified@.len() && #[trigger] s.modified@[j].0.path@ == p
}


impl WorkspaceStatus {
    /// No difference.
    pub fn new() -> (r: Self)
        ensures
            r.new@.len() == 0,
            r.modified@.len() == 0,
            r.deleted@.len() == 0,
    {
        WorkspaceStatus { new: Vec::new(), modified: Vec::new(), deleted: Vec::new() }
    }

    /// The number of files that differ.
    pub fn len(&self) -> (r: usize)
        requires
            self.new@.len() + self.modified@.len() + self.deleted@.len() <= usize::MAX,
        ensures
            r == self.new@.len() + self.modified@.len() + self.deleted@.len(),
    {
        self.new.len() + self.modified.len() + self.deleted.len()
    }

    /// Whether nothing differs.
    pub fn is_empty(&self) -> (r: bool)
        ensures
            r == (self.new@.len() == 0 && self.modified@.len() == 0 && self.deleted@.len() == 0),
    {
        self.new.len() == 0 && self.modified.len() == 0 && self.deleted.len() == 0
    }
}

/// The file-by-file difference from `old` to `new`; each list is in increasing path order.
pub fn diff_flat(old: &ByteMap<TreeEntry>, new: &ByteMap<TreeEntry>) -> (r: WorkspaceStatus)
    requires
        flat_keys_ok(old.spec_map()),
        flat_keys_ok(new.spec_map()),
    ensures
        is_diff(old.spec_map(), new.spec_map(), r),
        in_path_order(r),
{
    let mut r = WorkspaceStatus::new();
    old.well_formed();
    new.well_formed();
    proof {
        old.lemma_list();
        new.lemma_list();
    }
    let ghost om = old.spec_map();
    let ghost nm = new.spec_map();
    let n = old.len();
    let mut i: usize = 0;
    while i < n
        invariant
            0 <= i <= n,
            n == old.spec_keys().len(),
            n == old.spec_vals().len(),
            om == old.spec_map(),
            nm == new.spec_map(),
            flat_keys_ok(om),
            flat_keys_ok(nm),
            r.new@.len() == 0,
            forall|k: int| 0 <= k < old.spec_keys().len() ==> om.contains_key(#[trigger] old.spec_keys()[k])
                && om[old.spec_keys()[k]] == old.spec_vals()[k],
            forall|j: int| 0 <= j < r.deleted@.len() ==> blob_at(om, #[trigger] r.deleted@[j].path@) && !blob_at(nm, r.deleted@[j].path@)
                && r.deleted@[j]@ == om[r.deleted@[j].path@]@,
            forall|k: int| 0 <= k < i && blob_at(om, #[trigger] old.spec_keys()[k]) && !blob_at(nm, old.spec_keys()[k]) ==> exists|j: int|
                0 <= j < r.deleted@.len() && #[trigger] r.deleted@[j].path@ == old.spec_keys()[k],
            forall|j: int| 0 <= j < r.modified@.len() ==> blob_at(om, #[trigger] r.modified@[j].0.path@) && blob_at(nm, r.modified@[j].0.path@)
                && blob_changed(om, nm, r.modified@[j].0.path@) && r.modified@[j].0@ == om[r.modified@[j].0.path@]@
                && r.modified@[j].1@ == nm[r.modified@[j].0.path@]@,
            forall|k: int| 0 <= k < i && blob_at(om, #[trigger] old.spec_keys()[k]) && blob_at(nm, old.spec_keys()[k])
                && blob_changed(om, nm, old.spec_keys()[k]) ==> exists|j: int|
                0 <= j < r.modified@.len() && #[trigger] r.modified@[j].0.path@ == old.spec_keys()[k],
            crate::bytemap::keys_sorted(old.spec_keys()),
            in_path_order(r),
            i < n ==> forall|a: int| 0 <= a < r.deleted@.len() ==> crate::bytes::seq_order(#[trigger] r.deleted@[a].path@,
                old.spec_keys()[i as int]) == crate::bytes::Order::Less,
            i < n ==> forall|a: int| 0 <= a < r.modified@.len() ==> crate::bytes::seq_order(#[trigger] r.modified@[a].0.path@,
                old.spec_keys()[i as int]) == crate::bytes::Order::Less,
        decreases n - i,
    {
        let e = old.val_at(i);
        let ghost k = old.spec_keys()[i as int];
        proof {
            assert(om.contains_key(k) && om[k] == *e);
        }
        if !e.mode.is_tree() {
            match new.get(e.path.as_slice()) {
                Some(ne) if !ne.mode.is_tree() => {
                    if !ne.oid.same(&e.oid) || ne.mode != e.mode {
                        let ghost before = r.modified@;
                        proof {
                            assert(e.path@ == k);
                            assert(nm.contains_key(k) && nm[k] == *ne);
                            assert(blob_changed(om, nm, k));
                        }
                        r.modified.push((e.copy(), ne.copy()));
                        proof {
                            let last = r.modified@.len() - 1;
                            assert(r.modified@[last].0.path@ == k);
                            assert forall|j: int| 0 <= j < r.modified@.len() implies blob_at(om, #[trigger] r.modified@[j].0.path@) && blob_at(nm, r.modified@[j].0.path@)
                                && blob_changed(om, nm, r.modified@[j].0.path@) && r.modified@[j].0@ == om[r.modified@[j].0.path@]@
                                && r.modified@[j].1@ == nm[r.modified@[j].0.path@]@ by {
                                if j < last {
                                    assert(r.modified@[j] == before[j]);
                                }
                            }
                            assert forall|kk: int| 0 <= kk < i + 1 && blob_at(om, #[trigger] old.spec_keys()[kk]) && blob_at(nm, old.spec_keys()[kk])
                                && blob_changed(om, nm, old.spec_keys()[kk]) implies exists|j: int|
                                0 <= j < r.modified@.len() && #[trigger] r.modified@[j].0.path@ == old.spec_keys()[kk] by {
                                if kk == i {
                                    assert(r.modified@[r.modified@.len() - 1].0.path@ == old.spec_keys()[kk]);
                                } else {
                                    let j = choose|j: int| 0 <= j < before.len() && #[trigger] before[j].0.path@ == old.spec_keys()[kk];
                                    assert(r.modified@[j] == before[j]);
                                }
                            }
                        }
                    }
                },
                _ => {
                    let ghost before = r.deleted@;
                    r.deleted.push(e.copy());
                    proof {
                        assert forall|kk: int| 0 <= kk < i + 1 && blob_at(om, #[trigger] old.spec_keys()[kk]) && !blob_at(nm, old.spec_keys()[kk])
                            implies exists|j: int| 0 <= j < r.deleted@.len() && #[trigger] r.deleted@[j].path@ == old.spec_keys()[kk] by {
                            if kk == i {
                                assert(r.deleted@[r.deleted@.len() - 1].path@ == old.spec_keys()[kk]);
                            } else {
                                let j = choose|j: int| 0 <= j < before.len() && #[trigger] before[j].path@ == old.spec_keys()[kk];
                                assert(r.deleted@[j] == before[j]);
                            }
                        }
                    }
                },
            }
        }
        proof {
            let ki = old.spec_keys()[i as int];
            if i + 1 < n {
                let kn = old.spec_keys()[i + 1];
                assert(crate::bytes::seq_order(ki, kn) == crate::bytes::Order::Less);
                assert forall|a: int| 0 <= a < r.deleted@.len() implies crate::bytes::seq_order(#[trigger] r.deleted@[a].path@, kn)
                    == crate::bytes::Order::Less by {
                    if r.deleted@[a].path@ == ki {
                    } else {
                        crate::bytes::lemma_seq_order_trans(r.deleted@[a].path@, ki, kn);
                    }
                }
                assert forall|a: int| 0 <= a < r.modified@.len() implies crate::bytes::seq_order(#[trigger] r.modified@[a].0.path@, kn)
                    == crate::bytes::Order::Less by {
                    if r.modified@[a].0.path@ == ki {
                    } else {
                        crate::bytes::lemma_seq_order_trans(r.modified@[a].0.path@, ki, kn);
                    }
                }
            }
        }
        i = i + 1;
    }
    let m = new.len();
    let mut i: usize = 0;
    while i < m
        invariant
            0 <= i <= m,
            m == new.spec_keys().len(),
            m == new.spec_vals().len(),
            om == old.spec_map(),
            nm == new.spec_map(),
            flat_keys_ok(om),
            flat_keys_ok(nm),
            forall|k: int| 0 <= k < new.spec_keys().len() ==> nm.contains_key(#[trigger] new.spec_keys()[k])
                && nm[new.spec_keys()[k]] == new.spec_vals()[k],
            forall|p: Seq<u8>| nm.contains_key(p) ==> exists|k: int| 0 <= k < new.spec_keys().len() && new.spec_keys()[k] == p,
            forall|p: Seq<u8>| om.contains_key(p) ==> exists|k: int| 0 <= k < old.spec_keys().len() && old.spec_keys()[k] == p,
            forall|k: int| 0 <= k < old.spec_keys().len() ==> om.contains_key(#[trigger] old.spec_keys()[k]),
            forall|j: int| 0 <= j < r.deleted@.len() ==> blob_at(om, #[trigger] r.deleted@[j].path@) && !blob_at(nm, r.deleted@[j].path@)
                && r.deleted@[j]@ == om[r.deleted@[j].path@]@,
            forall|k: int| 0 <= k < old.spec_keys().len() && blob_at(om, #[trigger] old.spec_keys()[k]) && !blob_at(nm, old.spec_keys()[k]) ==> exists|j: int|
                0 <= j < r.deleted@.len() && #[trigger] r.deleted@[j].path@ == old.spec_keys()[k],
            forall|j: int| 0 <= j < r.modified@.len() ==> blob_at(om, #[trigger] r.modified@[j].0.path@) && blob_at(nm, r.modified@[j].0.path@)
                && blob_changed(om, nm, r.modified@[j].0.path@) && r.modified@[j].0@ == om[r.modified@[j].0.path@]@
                && r.modified@[j].1@ == nm[r.modified@[j].0.path@]@,
            forall|k: int| 0 <= k < old.spec_keys().len() && blob_at(om, #[trigger] old.spec_keys()[k]) && blob_at(nm, old.spec_keys()[k])
                && blob_changed(om, nm, old.spec_keys()[k]) ==> exists|j: int|
                0 <= j < r.modified@.len() && #[trigger] r.modified@[j].0.path@ == old.spec_keys()[k],
            forall|j: int| 0 <= j < r.new@.len() ==> blob_at(nm, #[trigger] r.new@[j].path@) && !blob_at(om, r.new@[j].path@)
                && r.new@[j]@ == nm[r.new@[j].path@]@,
            forall|k: int| 0 <= k < i && blob_at(nm, #[trigger] new.spec_keys()[k]) && !blob_at(om, new.spec_keys()[k]) ==> exists|j: int|
                0 <= j < r.new@.len() && #[trigger] r.new@[j].path@ == new.spec_keys()[k],
            crate::bytemap::keys_sorted(new.spec_keys()),
            in_path_order(r),
            i < m ==> forall|a: int| 0 <= a < r.new@.len() ==> crate::bytes::seq_order(#[trigger] r.new@[a].path@,
                new.spec_keys()[i as int]) == crate::bytes::Order::Less,
        decreases m - i,
    {
        let e = new.val_at(i);
        let ghost k = new.spec_keys()[i as int];
        proof {
            assert(nm.contains_key(k) && nm[k] == *e);
        }
        if !e.mode.is_tree() {
            let in_old = match old.get(e.path.as_slice()) {
                Some(oe) => !oe.mode.is_tree(),
                None => false,
            };
            if !in_old {
                let ghost before = r.new@;
                r.new.push(e.copy());
                proof {
                    assert forall|kk: int| 0 <= kk < i + 1 && blob_at(nm, #[trigger] new.spec_keys()[kk]) && !blob_at(om, new.spec_keys()[kk])
                        implies exists|j: int| 0 <= j < r.new@.len() && #[trigger] r.new@[j].path@ == new.spec_keys()[kk] by {
                        if kk == i {
                            assert(r.new@[r.new@.len() - 1].path@ == new.spec_keys()[kk]);
                        } else {
                            let j = choose|j: int| 0 <= j < before.len() && #[trigger] before[j].path@ == new.spec_keys()[kk];
                            assert(r.new@[j] == before[j]);
                        }
                    }
                }
            }
        }
        proof {
            let ki = new.spec_keys()[i as int];
            if i + 1 < m {
                let kn = new.spec_keys()[i + 1];
                assert(crate::bytes::seq_order(ki, kn) == crate::bytes::Order::Less);
                assert forall|a: int| 0 <= a < r.new@.len() implies crate::bytes::seq_order(#[trigger] r.new@[a].path@, kn)
                    == crate::bytes::Order::Less by {
                    if r.new@[a].path@ == ki {
                    } else {
                        crate::bytes::lemma_seq_order_trans(r.new@[a].path@, ki, kn);
                    }
                }
            }
        }
        i = i + 1;
    }
    proof {
        assert forall|p: Seq<u8>| blob_at(nm, p) && !blob_at(om, p) implies exists|j: int| 0 <= j < r.new@.len() && #[trigger] r.new@[j].path@ == p by {
            let k = choose|k: int| 0 <= k < new.spec_keys().len() && new.spec_keys()[k] == p;
            assert(blob_at(nm, new.spec_keys()[k]));
        }
        assert forall|p: Seq<u8>| blob_at(om, p) && !blob_at(nm, p) implies exists|j: int| 0 <= j < r.deleted@.len() && #[trigger] r.deleted@[j].path@ == p by {
            let k = choose|k: int| 0 <= k < old.spec_keys().len() && old.spec_keys()[k] == p;
            assert(blob_at(om, old.spec_keys()[k]));
        }
        assert forall|p: Seq<u8>| blob_at(om, p) && blob_at(nm, p) && blob_changed(om, nm, p) implies exists|j: int|
            0 <= j < r.modified@.len() && #[trigger] r.modified@[j].0.path@ == p by {
            let k = choose|k: int| 0 <= k < old.spec_keys().len() && old.spec_keys()[k] == p;
            assert(blob_at(om, old.spec_keys()[k]));
        }
    }
    r
}

/// The entries of stage `Normal` of an index, as a flattened tree.
pub open spec fn index_flat_spec(entries: Map<Seq<u8>, BitIndexEntry>, m: Map<Seq<u8>, TreeEntry>) -> bool {
    &&& forall|p: Seq<u8>| #[trigger] m.contains_key(p) <==> entries.contains_key(index_key(p, MergeStage::Normal))
    &&& forall|p: Seq<u8>| #[trigger] m.contains_key(p) ==> m[p].path@ == p && m[p].mode == entries[index_key(p, MergeStage::Normal)].mode
        && m[p].oid@ == entries[index_key(p, MergeStage::Normal)].oid@
}

/// The files of a working tree, as a flattened tree whose ids are those of the contents.
pub open spec fn worktree_flat_spec(files: Map<Seq<u8>, WorktreeFile>, m: Map<Seq<u8>, TreeEntry>) -> bool {
    &&& forall|p: Seq<u8>| #[trigger] m.contains_key(p) <==> files.contains_key(p)
    &&& forall|p: Seq<u8>| #[trigger] m.contains_key(p) ==> m[p].path@ == p && m[p].mode == files[p].mode
        && m[p].oid@ == obj_oid(ObjView::Blob(files[p].data@))
}


/// A file (not a tree) is listed at `p` (over entry views).
pub open spec fn file_at(m: Map<Seq<u8>, TreeEntryView>, p: Seq<u8>) -> bool {
    m.contains_key(p) && m[p].mode != FileMode::TREE
}

/// The added files of `s` are exactly the files of `new` that `old` lacks, as in `new`.
pub open spec fn diff_new_ok(old: Map<Seq<u8>, TreeEntryView>, new: Map<Seq<u8>, TreeEntryView>, s: WorkspaceStatus) -> bool {
    &&& forall|j: int| 0 <= j < s.new@.len() ==> file_at(new, #[trigger] s.new@[j].path@) && !file_at(old, s.new@[j].path@)
        && s.new@[j]@ == new[s.new@[j].path@]
    &&& forall|p: Seq<u8>| file_at(new, p) && !file_at(old, p) ==> exists|j: int| 0 <= j < s.new@.len() && #[trigger] s.new@[j].path@ == p
}

/// The removed files of `s` are exactly the files of `old` that `new` lacks, as in `old`.
pub open spec fn diff_deleted_ok(old: Map<Seq<u8>, TreeEntryView>, new: Map<Seq<u8>, TreeEntryView>, s: WorkspaceStatus) -> bool {
    &&& forall|j: int| 0 <= j < s.deleted@.len() ==> file_at(old, #[trigger] s.deleted@[j].path@) && !file_at(new, s.deleted@[j].path@)
        && s.deleted@[j]@ == old[s.deleted@[j].path@]
    &&& forall|p: Seq<u8>| file_at(old, p) && !file_at(new, p) ==> exists|j: int| 0 <= j < s.deleted@.len() && #[trigger] s.deleted@[j].path@ == p
}

/// The changed files of `s` are exactly the files of both whose id or mode differ, with both
/// versions.
pub open spec fn diff_modified_ok(old: Map<Seq<u8>, TreeEntryView>, new: Map<Seq<u8>, TreeEntryView>, s: WorkspaceStatus) -> bool {
    &&& forall|j: int| 0 <= j < s.modified@.len() ==> file_at(old, #[trigger] s.modified@[j].0.path@) && file_at(new, s.modified@[j].0.path@)
        && (old[s.modified@[j].0.path@].oid != new[s.modified@[j].0.path@].oid || old[s.modified@[j].0.path@].mode
        != new[s.modified@[j].0.path@].mode) && s.modified@[j].0@ == old[s.modified@[j].0.path@] && s.modified@[j].1@
        == new[s.modified@[j].0.path@]
    &&& forall|p: Seq<u8>| file_at(old, p) && file_at(new, p) && (old[p].oid != new[p].oid || old[p].mode != new[p].mode)
        ==> exists|j: int| 0 <= j < s.modified@.len() && #[trigger] s.modified@[j].0.path@ == p
}

/// `s` is the difference from `old` to `new`, over entry views.
pub open spec fn diff_of(old: Map<Seq<u8>, TreeEntryView>, new: Map<Seq<u8>, TreeEntryView>, s: WorkspaceStatus) -> bool {
    diff_new_ok(old, new, s) && diff_deleted_ok(old, new, s) && diff_modified_ok(old, new, s) && in_path_order(s)
}

/// The difference of two flattened trees is the difference of their views.
pub proof fn lemma_diff_of(old: Map<Seq<u8>, TreeEntry>, new: Map<Seq<u8>, TreeEntry>, s: WorkspaceStatus)
    requires
        is_diff(old, new, s),
        in_path_order(s),
    ensures
        diff_of(flat_view(old), flat_view(new), s),
{
    let ov = flat_view(old);
    let nv = flat_view(new);
    assert forall|p: Seq<u8>| file_at(nv, p) == blob_at(new, p) && file_at(ov, p) == blob_at(old, p) by {}
    assert forall|p: Seq<u8>| file_at(ov, p) && file_at(nv, p) implies ((ov[p].oid != nv[p].oid || ov[p].mode
        != nv[p].mode) == blob_changed(old, new, p)) by {}
}

/// The stage `Normal` entries of an index, as the view of a flattened tree.
pub open spec fn index_view(entries: Map<Seq<u8>, BitIndexEntry>) -> Map<Seq<u8>, TreeEntryView> {
    Map::new(
        |p: Seq<u8>| entries.contains_key(index_key(p, MergeStage::Normal)),
        |p: Seq<u8>|
            TreeEntryView {
                mode: entries[index_key(p, MergeStage::Normal)].mode,
                path: p,
                oid: entries[index_key(p, MergeStage::Normal)].oid@,
            },
    )
}

/// The files of a working tree, as the view of a flattened tree with the ids of the contents.
pub open spec fn worktree_view(files: Map<Seq<u8>, WorktreeFile>) -> Map<Seq<u8>, TreeEntryView> {
    Map::new(
        |p: Seq<u8>| files.contains_key(p),
        |p: Seq<u8>| TreeEntryView { mode: files[p].mode, path: p, oid: obj_oid(ObjView::Blob(files[p].data@)) },
    )
}

pub proof fn lemma_index_view(entries: Map<Seq<u8>, BitIndexEntry>, m: Map<Seq<u8>, TreeEntry>)
    requires
        index_flat_spec(entries, m),
    ensures
        flat_view(m) == index_view(entries),
{
    assert(flat_view(m) =~= index_view(entries));
}

pub proof fn lemma_worktree_view(files: Map<Seq<u8>, WorktreeFile>, m: Map<Seq<u8>, TreeEntry>)
    requires
        worktree_flat_spec(files, m),
    ensures
        flat_view(m) == worktree_view(files),
{
    assert(flat_view(m) =~= worktree_view(files));
}

/// The tree of the commit `reference` resolves to, or the unknown id where it names a branch
/// that does not exist yet; `None` where it resolves to something other than a commit.
pub open spec fn ref_tree_spec(repo: BitRepo, reference: RefView) -> Option<Seq<u8>> {
    if !crate::repo::resolves(repo.spec_refs(), repo.spec_head(), reference) {
        Some(crate::hash::zero_hash())
    } else {
        let c = crate::repo::resolve(repo.spec_refs(), repo.spec_head(), reference);
        if repo.spec_odb().contains_key(c) && repo.spec_odb()[c] is Commit {
            Some(repo.spec_odb()[c]->Commit_0.tree@)
        } else {
            None
        }
    }
}

/// The tree of HEAD (see `ref_tree_spec`).
pub open spec fn head_tree_spec(repo: BitRepo) -> Option<Seq<u8>> {
    ref_tree_spec(repo, RefView::Symbolic(crate::repo::head_name()))
}


/// The difference between a tree and itself is empty.
pub proof fn law_diff_with_itself_is_empty(m: Map<Seq<u8>, TreeEntryView>, s: WorkspaceStatus)
    requires
        diff_of(m, m, s),
    ensures
        s.new@.len() == 0,
        s.modified@.len() == 0,
        s.deleted@.len() == 0,
{
    if s.new@.len() > 0 {
        assert(file_at(m, s.new@[0].path@));
    }
    if s.deleted@.len() > 0 {
        assert(file_at(m, s.deleted@[0].path@));
    }
    if s.modified@.len() > 0 {
        let p = s.modified@[0].0.path@;
        assert(m[p].oid != m[p].oid || m[p].mode != m[p].mode);
    }
}

/// Swapping the two sides of a difference swaps the added and the removed files, and keeps
/// the changed ones.
pub proof fn law_diff_reversed(
    a: Map<Seq<u8>, TreeEntryView>,
    b: Map<Seq<u8>, TreeEntryView>,
    ab: WorkspaceStatus,
    ba: WorkspaceStatus,
)
    requires
        diff_of(a, b, ab),
        diff_of(b, a, ba),
    ensures
        forall|p: Seq<u8>| #![trigger lists_new(ab, p)] #![trigger lists_deleted(ba, p)] lists_new(ab, p) <==> lists_deleted(ba, p),
        forall|p: Seq<u8>| #![trigger lists_modified(ab, p)] #![trigger lists_modified(ba, p)] lists_modified(ab, p) <==> lists_modified(ba, p),
{
    assert forall|p: Seq<u8>| #![trigger lists_new(ab, p)] #![trigger lists_deleted(ba, p)] lists_new(ab, p) <==> lists_deleted(ba, p) by {
        if lists_new(ab, p) {
            let j = choose|j: int| 0 <= j < ab.new@.len() && #[trigger] ab.new@[j].path@ == p;
            assert(file_at(b, ab.new@[j].path@) && !file_at(a, ab.new@[j].path@));
        }
        if lists_deleted(ba, p) {
            let k = choose|k: int| 0 <= k < ba.deleted@.len() && #[trigger] ba.deleted@[k].path@ == p;
            assert(file_at(b, ba.deleted@[k].path@) && !file_at(a, ba.deleted@[k].path@));
        }
    }
    assert forall|p: Seq<u8>| #![trigger lists_modified(ab, p)] #![trigger lists_modified(ba, p)] lists_modified(ab, p) <==> lists_modified(ba, p) by {
        if lists_modified(ab, p) {
            let j = choose|j: int| 0 <= j < ab.modified@.len() && #[trigger] ab.modified@[j].0.path@ == p;
            assert(file_at(a, p) && file_at(b, p));
        }
        if lists_modified(ba, p) {
            let k = choose|k: int| 0 <= k < ba.modified@.len() && #[trigger] ba.modified@[k].0.path@ == p;
            assert(file_at(a, p) && file_at(b, p));
        }
    }
}

impl BitRepo {
    /// The index (stage `Normal`) as a flattened tree.
    pub fn index_flat(&self) -> (r: ByteMap<TreeEntry>)
        requires
            self.wf(),
        ensures
            flat_keys_ok(r.spec_map()),
            index_flat_spec(self.spec_index().spec_entries(), r.spec_map()),
    {
        let index = self.index();
        let n = index.len();
        let mut r: ByteMap<TreeEntry> = ByteMap::new();
        proof {
            index.lemma_list_entries();
        }
        let mut i: usize = 0;
        while i < n
            invariant
                0 <= i <= n,
                n == index.spec_list().len(),
                *index == self.spec_index(),
                index.wf(),
                forall|p: Seq<u8>| #[trigger] r.spec_map().contains_key(p) ==> index.spec_entries().contains_key(index_key(p, MergeStage::Normal))
                    && r.spec_map()[p].path@ == p && r.spec_map()[p].mode == index.spec_entries()[index_key(p, MergeStage::Normal)].mode
                    && r.spec_map()[p].oid@ == index.spec_entries()[index_key(p, MergeStage::Normal)].oid@,
                forall|k: int| 0 <= k < i && index.spec_list()[k].spec_stage() == MergeStage::Normal ==>
                    r.spec_map().contains_key(#[trigger] index.spec_list()[k].path@),
                forall|k: int|
                    0 <= k < index.spec_list().len() ==> index.spec_entries().contains_key(
                        #[trigger] index.spec_keys()[k],
                    ) && index.spec_entries()[index.spec_keys()[k]] == index.spec_list()[k],
                forall|q: Seq<u8>|
                    #[trigger] index.spec_entries().contains_key(q) ==> exists|k: int|
                        0 <= k < index.spec_keys().len() && index.spec_keys()[k] == q,
            decreases n - i,
        {
            let e = index.entry_at(i);
            if e.stage() == MergeStage::Normal {
                let ghost key = index.spec_keys()[i as int];
                proof {
                    assert(key == index_key(e.path@, e.spec_stage()));
                }
                r.insert(copy_bytes(&e.path), e.to_tree_entry());
            }
            i = i + 1;
        }
        proof {
            assert forall|p: Seq<u8>| #[trigger] r.spec_map().contains_key(p) <==> index.spec_entries().contains_key(
                index_key(p, MergeStage::Normal)) by {
                if index.spec_entries().contains_key(index_key(p, MergeStage::Normal)) {
                    let k = choose|k: int| 0 <= k < index.spec_keys().len() && index.spec_keys()[k] == index_key(p, MergeStage::Normal);
                    crate::index::lemma_index_key_injective(p, MergeStage::Normal, index.spec_list()[k].path@, index.spec_list()[k].spec_stage());
                }
            }
        }
        r
    }

    /// The working tree as a flattened tree, each file under the id of its contents.
    pub fn worktree_flat(&self) -> (r: ByteMap<TreeEntry>)
        ensures
            flat_keys_ok(r.spec_map()),
            worktree_flat_spec(self.spec_worktree(), r.spec_map()),
    {
        let paths = self.worktree_paths();
        let mut r: ByteMap<TreeEntry> = ByteMap::new();
        let mut i: usize = 0;
        while i < paths.len()
            invariant
                0 <= i <= paths@.len(),
                forall|j: int| 0 <= j < paths@.len() ==> self.spec_worktree().contains_key(#[trigger] paths@[j]@),
                forall|p: Seq<u8>| self.spec_worktree().contains_key(p) ==> exists|j: int|
                    0 <= j < paths@.len() && #[trigger] paths@[j]@ == p,
                forall|p: Seq<u8>| #[trigger] r.spec_map().contains_key(p) ==> self.spec_worktree().contains_key(p)
                    && r.spec_map()[p].path@ == p && r.spec_map()[p].mode == self.spec_worktree()[p].mode
                    && r.spec_map()[p].oid@ == obj_oid(ObjView::Blob(self.spec_worktree()[p].data@)),
                forall|j: int| 0 <= j < i ==> r.spec_map().contains_key(#[trigger] paths@[j]@),
            decreases paths@.len() - i,
        {
            let p = &paths[i];
            let f = self.worktree_file(p.as_slice()).unwrap();
            let blob = BitObjKind::Blob(Blob { bytes: copy_bytes(&f.data) });
            let oid = blob.hash();
            r.insert(copy_bytes(p), TreeEntry { mode: f.mode, path: copy_bytes(p), oid });
            i = i + 1;
        }
        r
    }

    /// The id of the tree of the commit HEAD names, or the unknown id when HEAD names a
    /// branch that does not exist yet.
    pub fn head_tree(&self) -> (r: BitResult<Oid>)
        ensures
            !crate::repo::resolves(self.spec_refs(), self.spec_head(), RefView::Symbolic(crate::repo::head_name()))
                ==> (r matches Ok(o) && o@ == crate::hash::zero_hash()),
            r is Ok <==> head_tree_spec(*self) is Some,
            r matches Ok(o) ==> head_tree_spec(*self) == Some(o@),
            r matches Err(e) ==> (e is ObjectNotFound || e is ExpectedCommit),
    {
        match self.fully_resolve_head() {
            Ok(oid) => {
                let c = self.read_commit(&oid)?;
                Ok(c.tree)
            },
            Err(_) => Ok(SHA1Hash::unknown()),
        }
    }

    /// The difference between the trees `a` and `b`.
    pub fn diff_tree_to_tree(&self, a: &Oid, b: &Oid) -> (r: BitResult<WorkspaceStatus>)
        ensures
            r is Ok <==> (flatten_spec(self.spec_odb(), a@, self.spec_odb_len()) is Some && flatten_spec(
                self.spec_odb(),
                b@,
                self.spec_odb_len(),
            ) is Some),
            r matches Ok(s) ==> diff_of(
                flatten_spec(self.spec_odb(), a@, self.spec_odb_len())->0,
                flatten_spec(self.spec_odb(), b@, self.spec_odb_len())->0,
                s,
            ),
    {
        let fa = self.flatten_tree(a)?;
        let fb = self.flatten_tree(b)?;
        let d = diff_flat(&fa, &fb);
        proof {
            lemma_diff_of(fa.spec_map(), fb.spec_map(), d);
        }
        Ok(d)
    }

    /// The difference between the tree `tree` and the index.
    pub fn diff_tree_index(&self, tree: &Oid) -> (r: BitResult<WorkspaceStatus>)
        requires
            self.wf(),
        ensures
            r is Ok <==> flatten_spec(self.spec_odb(), tree@, self.spec_odb_len()) is Some,
            r matches Ok(s) ==> diff_of(
                flatten_spec(self.spec_odb(), tree@, self.spec_odb_len())->0,
                index_view(self.spec_index().spec_entries()),
                s,
            ),
            r matches Err(e) ==> (e is ObjectNotFound || e is ExpectedTree || e is ExpectedCommit || e is Unsupported),
    {
        let ft = self.flatten_tree(tree)?;
        let fi = self.index_flat();
        let d = diff_flat(&ft, &fi);
        proof {
            lemma_diff_of(ft.spec_map(), fi.spec_map(), d);
            lemma_index_view(self.spec_index().spec_entries(), fi.spec_map());
        }
        Ok(d)
    }

    /// The difference between the tree of HEAD and the index: the staged changes.
    pub fn diff_head_index(&self) -> (r: BitResult<WorkspaceStatus>)
        requires
            self.wf(),
        ensures
            r is Ok <==> (head_tree_spec(*self) is Some && flatten_spec(
                self.spec_odb(),
                head_tree_spec(*self)->0,
                self.spec_odb_len(),
            ) is Some),
            r matches Ok(s) ==> diff_of(
                flatten_spec(self.spec_odb(), head_tree_spec(*self)->0, self.spec_odb_len())->0,
                index_view(self.spec_index().spec_entries()),
                s,
            ),
            r matches Err(e) ==> (e is ObjectNotFound || e is ExpectedTree || e is ExpectedCommit || e is Unsupported),
    {
        let t = self.head_tree()?;
        self.diff_tree_index(&t)
    }

    /// The difference between the tree that `reference` resolves to (the empty tree when it
    /// names a branch that does not exist yet) and the index.
    pub fn diff_ref_index(&self, reference: &BitRef) -> (r: BitResult<WorkspaceStatus>)
        requires
            self.wf(),
        ensures
            r is Ok <==> (ref_tree_spec(*self, reference@) is Some && flatten_spec(
                self.spec_odb(),
                ref_tree_spec(*self, reference@)->0,
                self.spec_odb_len(),
            ) is Some),
            r matches Ok(s) ==> diff_of(
                flatten_spec(self.spec_odb(), ref_tree_spec(*self, reference@)->0, self.spec_odb_len())->0,
                index_view(self.spec_index().spec_entries()),
                s,
            ),
    {
        match self.fully_resolve_ref(reference) {
            Ok(oid) => {
                let c = self.read_commit(&oid)?;
                let t = c.tree;
                self.diff_tree_index(&t)
            },
            Err(_) => self.diff_tree_index(&SHA1Hash::unknown()),
        }
    }

    /// The difference between the index and the working tree: untracked files are new,
    /// files of the index that are gone are deleted, and changed files are modified.
    pub fn diff_index_worktree(&self) -> (r: WorkspaceStatus)
        requires
            self.wf(),
        ensures
            diff_of(index_view(self.spec_index().spec_entries()), worktree_view(self.spec_worktree()), r),
            diff_deleted_ok(index_view(self.spec_index().spec_entries()), worktree_view(self.spec_worktree()), r),
            diff_modified_ok(index_view(self.spec_index().spec_entries()), worktree_view(self.spec_worktree()), r),
            in_path_order(r),
    {
        let fi = self.index_flat();
        let fw = self.worktree_flat();
        let d = diff_flat(&fi, &fw);
        proof {
            lemma_diff_of(fi.spec_map(), fw.spec_map(), d);
            lemma_index_view(self.spec_index().spec_entries(), fi.spec_map());
            lemma_worktree_view(self.spec_worktree(), fw.spec_map());
        }
        d
    }

    /// The difference between the tree `tree` and the working tree.
    pub fn diff_tree_worktree(&self, tree: &Oid) -> (r: BitResult<WorkspaceStatus>)
        ensures
            r is Ok <==> flatten_spec(self.spec_odb(), tree@, self.spec_odb_len()) is Some,
            r matches Ok(s) ==> diff_of(
                flatten_spec(self.spec_odb(), tree@, self.spec_odb_len())->0,
                worktree_view(self.spec_worktree()),
                s,
            ),
    {
        let ft = self.flatten_tree(tree)?;
        let fw = self.worktree_flat();
        let d = diff_flat(&ft, &fw);
        proof {
            lemma_diff_of(ft.spec_map(), fw.spec_map(), d);
            lemma_worktree_view(self.spec_worktree(), fw.spec_map());
        }
        Ok(d)
    }
}

/// Whether a file of the working tree differs from its index entry, as far as the entries
/// tell: `Maybe` where only hashing the file can tell.
#[derive(Debug, Clone, Copy, PartialEq, Eq, Structural)]
pub enum Changed {
    Yes,
    No,
    Maybe,
}

/// `a` is no later than `b`.
pub open spec fn timespec_le(a: Timespec, b: Timespec) -> bool {
    a.sec < b.sec || (a.sec == b.sec && a.nano <= b.nano)
}

/// Whether an entry is racy: the index file, written at `index_mtime` (unknown where it was
/// never written), is not older than the entry's modification time, so the file may have
/// changed within the same time stamp.
pub fn is_racy_entry(index_mtime: Option<Timespec>, entry: &BitIndexEntry) -> (r: bool)
    ensures
        r == match index_mtime {
            None => true,
            Some(m) => timespec_le(m, entry.mtime),
        },
{
    match index_mtime {
        None => true,
        Some(m) => m.sec < entry.mtime.sec || (m.sec == entry.mtime.sec && m.nano <= entry.mtime.nano),
    }
}

/// What the entries tell of a change: equal ids mean no change and two different known ids
/// a change; then an equal modification time means no change unless the entry is racy; then
/// a different size or inode, or a different mode where file modes are tracked, mean a
/// change; otherwise it is uncertain.
pub open spec fn changed_spec(
    index_mtime: Option<Timespec>,
    filemode: bool,
    idxe: IndexEntryView,
    wte: IndexEntryView,
) -> Changed {
    if idxe.oid == wte.oid {
        Changed::No
    } else if wte.oid != zero_hash() {
        Changed::Yes
    } else if idxe.mtime == wte.mtime && !(match index_mtime {
        None => true,
        Some(m) => timespec_le(m, idxe.mtime),
    }) {
        Changed::No
    } else if idxe.filesize != wte.filesize || idxe.inode != wte.inode || (filemode && idxe.mode
        != wte.mode) {
        Changed::Yes
    } else {
        Changed::Maybe
    }
}

/// Whether the working tree entry `wte` differs from the index entry `idxe` of the same path,
/// from their ids and file system data; `filemode` says whether file modes are tracked.
pub fn has_changes_inner(
    index_mtime: Option<Timespec>,
    filemode: bool,
    idxe: &BitIndexEntry,
    wte: &BitIndexEntry,
) -> (r: Changed)
    ensures
        r == changed_spec(index_mtime, filemode, idxe@, wte@),
{
    if idxe.oid.same(&wte.oid) {
        return Changed::No;
    } else if wte.oid.is_known() {
        return Changed::Yes;
    }
    if idxe.mtime == wte.mtime {
        if !is_racy_entry(index_mtime, idxe) {
            return Changed::No;
        }
    }
    if idxe.filesize != wte.filesize {
        return Changed::Yes;
    }
    if idxe.inode != wte.inode {
        return Changed::Yes;
    }
    if filemode && idxe.mode != wte.mode {
        return Changed::Yes;
    }
    Changed::Maybe
}

} // verus!
