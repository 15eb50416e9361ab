//! Checkout: moving the working tree and the index from the tree of HEAD (the baseline) to a
//! target tree, without losing local changes unless forced.
use crate::bytemap::{keys_sorted, ByteMap};
use crate::bytes::{copy_bytes, is_path_under, path_under};
use crate::diff::blob_at;
use crate::error::{BitError, BitResult};
use crate::hash::{Oid, SHA1Hash};
use crate::index::{index_key, BitIndexEntry, BitIndexInner, MergeStage};
use crate::obj::{obj_oid, Blob, BitObjKind, FileMode, ObjView, TreeEntry};
use crate::repo::{BitRef, BitRepo, RefView, WorktreeFile};
use crate::tree::flat_keys_ok;
use vstd::prelude::*;

verus! {

/// How much a checkout may overwrite. Each level implies the one before.
#[derive(Debug, Clone, Copy, PartialEq, Eq, Structural)]
pub enum CheckoutStrategy {
    Noop,
    Safe,
    /// The index and working tree end up matching the target tree.
    Force,
}

pub open spec fn strategy_level(s: CheckoutStrategy) -> int {
    match s {
        CheckoutStrategy::Noop => 0,
        CheckoutStrategy::Safe => 1,
        CheckoutStrategy::Force => 2,
    }
}

/// The strategy overwrites what stands in the way of a checkout.
pub open spec fn strategy_forces(s: CheckoutStrategy) -> bool {
    strategy_level(s) >= 2
}

impl Default for CheckoutStrategy {
    fn default() -> (r: Self)
        ensures
            r == CheckoutStrategy::Safe,
    {
        CheckoutStrategy::Safe
    }
}

/// The options of a checkout.
#[derive(Debug, Clone, Copy, PartialEq, Eq, Structural)]
pub struct CheckoutOpts {
    pub strategy: CheckoutStrategy,
}

impl Default for CheckoutOpts {
    fn default() -> (r: Self)
        ensures
            r.strategy == CheckoutStrategy::Safe,
    {
        CheckoutOpts { strategy: CheckoutStrategy::Safe }
    }
}

impl CheckoutOpts {
    /// The options of a forced checkout.
    pub fn forced() -> (r: Self)
        ensures
            r.strategy == CheckoutStrategy::Force,
    {
        CheckoutOpts { strategy: CheckoutStrategy::Force }
    }

    pub fn is_forced(&self) -> (r: bool)
        ensures
            r == (strategy_level(self.strategy) >= 2),
    {
        match self.strategy {
            CheckoutStrategy::Force => true,
            _ => false,
        }
    }

    pub fn is_safe(&self) -> (r: bool)
        ensures
            r == (strategy_level(self.strategy) >= 1),
    {
        match self.strategy {
            CheckoutStrategy::Noop => false,
            _ => true,
        }
    }
}

/// What a checkout does to one path.
#[derive(Debug, Clone, Copy, PartialEq, Eq, Structural)]
pub enum CheckoutAction {
    /// Leave the file (or its absence) as it is.
    Keep,
    /// Delete the file and its index entries.
    Remove,
    /// Write the file of the target tree and stage it.
    Write,
    /// A local change is in the way.
    Conflict,
}

/// A tree is listed at `p`.
pub open spec fn tree_at(m: Map<Seq<u8>, TreeEntry>, p: Seq<u8>) -> bool {
    m.contains_key(p) && m[p].mode == FileMode::TREE
}

/// The file at `p` differs from its index entry (or has none).
pub open spec fn wt_modified(w: Map<Seq<u8>, WorktreeFile>, i: Map<Seq<u8>, BitIndexEntry>, p: Seq<u8>) -> bool {
    let k = index_key(p, MergeStage::Normal);
    !i.contains_key(k) || i[k].oid@ != obj_oid(ObjView::Blob(w[p].data@)) || i[k].mode != w[p].mode
}

/// The decision for one path, from the baseline `b`, the target `t`, the working tree `w` and
/// the index `i`.
pub open spec fn decide(
    b: Map<Seq<u8>, TreeEntry>,
    t: Map<Seq<u8>, TreeEntry>,
    w: Map<Seq<u8>, WorktreeFile>,
    i: Map<Seq<u8>, BitIndexEntry>,
    forced: bool,
    p: Seq<u8>,
) -> CheckoutAction {
    let in_b = blob_at(b, p);
    let in_t = blob_at(t, p);
    let in_w = w.contains_key(p);
    let modified = in_w && wt_modified(w, i, p);
    if !in_b && !in_t {
        if in_w && tree_at(b, p) && !tree_at(t, p) {
            // a file where the baseline had a tree that the target deletes
            if forced { CheckoutAction::Remove } else { CheckoutAction::Conflict }
        } else if in_w && forced {
            CheckoutAction::Remove
        } else {
            CheckoutAction::Keep
        }
    } else if in_b && !in_t {
        if modified && !forced { CheckoutAction::Conflict } else { CheckoutAction::Remove }
    } else if !in_b && in_t {
        if in_w && !forced { CheckoutAction::Conflict } else { CheckoutAction::Write }
    } else if b[p].oid@ != t[p].oid@ || b[p].mode != t[p].mode {
        if in_w {
            if modified && !forced { CheckoutAction::Conflict } else { CheckoutAction::Write }
        } else {
            if forced { CheckoutAction::Write } else { CheckoutAction::Conflict }
        }
    } else {
        if (in_w && modified && forced) || (!in_w && forced) {
            CheckoutAction::Write
        } else {
            CheckoutAction::Keep
        }
    }
}

/// Whether the file at `p` differs from its index entry (or has none).
fn is_worktree_entry_modified(repo: &BitRepo, p: &[u8], f: &WorktreeFile) -> (r: bool)
    requires
        repo.spec_worktree().contains_key(p@),
        repo.spec_worktree()[p@] == *f,
    ensures
        r == wt_modified(repo.spec_worktree(), repo.spec_index().spec_entries(), p@),
{
    match repo.index().find_entry(p, MergeStage::Normal) {
        None => true,
        Some(e) => {
            let blob = BitObjKind::Blob(Blob { bytes: copy_bytes(&f.data) });
            let oid = blob.hash();
            !e.oid.same(&oid) || e.mode != f.mode
        },
    }
}

/// The decision for the path `p`.
pub fn decide_path(
    repo: &BitRepo,
    baseline: &ByteMap<TreeEntry>,
    target: &ByteMap<TreeEntry>,
    forced: bool,
    p: &[u8],
) -> (r: CheckoutAction)
    ensures
        r == decide(baseline.spec_map(), target.spec_map(), repo.spec_worktree(), repo.spec_index().spec_entries(), forced, p@),
{
    let be = baseline.get(p);
    let te = target.get(p);
    let in_b = match be {
        Some(e) => !e.mode.is_tree(),
        None => false,
    };
    let in_t = match te {
        Some(e) => !e.mode.is_tree(),
        None => false,
    };
    let tree_b = match be {
        Some(e) => e.mode.is_tree(),
        None => false,
    };
    let tree_t = match te {
        Some(e) => e.mode.is_tree(),
        None => false,
    };
    let wf = repo.worktree_file(p);
    let in_w = wf.is_some();
    let modified = match wf {
        Some(f) => is_worktree_entry_modified(repo, p, f),
        None => false,
    };
    if !in_b && !in_t {
        if in_w && tree_b && !tree_t {
            if forced { CheckoutAction::Remove } else { CheckoutAction::Conflict }
        } else if in_w && forced {
            CheckoutAction::Remove
        } else {
            CheckoutAction::Keep
        }
    } else if in_b && !in_t {
        if modified && !forced { CheckoutAction::Conflict } else { CheckoutAction::Remove }
    } else if !in_b && in_t {
        if in_w && !forced { CheckoutAction::Conflict } else { CheckoutAction::Write }
    } else {
        let b = be.unwrap();
        let t = te.unwrap();
        if !b.oid.same(&t.oid) || b.mode != t.mode {
            if in_w {
                if modified && !forced { CheckoutAction::Conflict } else { CheckoutAction::Write }
            } else {
                if forced { CheckoutAction::Write } else { CheckoutAction::Conflict }
            }
        } else {
            if (in_w && modified && forced) || (!in_w && forced) {
                CheckoutAction::Write
            } else {
                CheckoutAction::Keep
            }
        }
    }
}


/// A safe checkout never deletes or overwrites a file of the working tree that differs from
/// its index entry (or is untracked): such a file is kept, or the checkout stops on it.
pub proof fn law_safe_checkout_keeps_local_changes(
    b: Map<Seq<u8>, TreeEntry>,
    t: Map<Seq<u8>, TreeEntry>,
    w: Map<Seq<u8>, WorktreeFile>,
    i: Map<Seq<u8>, BitIndexEntry>,
    p: Seq<u8>,
)
    requires
        w.contains_key(p),
        wt_modified(w, i, p),
    ensures
        action(b, t, w, i, false, p) == CheckoutAction::Keep || action(b, t, w, i, false, p) == CheckoutAction::Conflict,
{
}

/// A checkout that went through left every modified or untracked file of the working tree
/// out of the files it deletes and writes, unless forced.
pub proof fn law_safe_migration_keeps_local_changes(
    b: Map<Seq<u8>, TreeEntry>,
    t: Map<Seq<u8>, TreeEntry>,
    w: Map<Seq<u8>, WorktreeFile>,
    i: Map<Seq<u8>, BitIndexEntry>,
    rms: Seq<Vec<u8>>,
    creates: Seq<TreeEntry>,
    p: Seq<u8>,
)
    requires
        w.contains_key(p),
        wt_modified(w, i, p),
        forall|j: int| 0 <= j < rms.len() ==> action(b, t, w, i, false, #[trigger] rms[j]@) == CheckoutAction::Remove,
        forall|j: int| 0 <= j < creates.len() ==> action(b, t, w, i, false, #[trigger] creates[j].path@) == CheckoutAction::Write,
    ensures
        forall|j: int| 0 <= j < rms.len() ==> #[trigger] rms[j]@ != p,
        forall|j: int| 0 <= j < creates.len() ==> #[trigger] creates[j].path@ != p,
{
    law_safe_checkout_keeps_local_changes(b, t, w, i, p);
}

/// No entry of a flattened tree lies under a file of it (as in any tree read from the object
/// store).
pub open spec fn files_hold_nothing(t: Map<Seq<u8>, TreeEntry>) -> bool {
    forall|q: Seq<u8>, r: Seq<u8>| #[trigger] blob_at(t, q) && #[trigger] t.contains_key(r) ==> !path_under(q, r)
}

/// A forced checkout to a target shaped like a tree never stops on a conflict.
pub proof fn law_forced_checkout_has_no_conflicts(
    b: Map<Seq<u8>, TreeEntry>,
    t: Map<Seq<u8>, TreeEntry>,
    w: Map<Seq<u8>, WorktreeFile>,
    i: Map<Seq<u8>, BitIndexEntry>,
    p: Seq<u8>,
)
    requires
        files_hold_nothing(t),
    ensures
        action(b, t, w, i, true, p) != CheckoutAction::Conflict,
{
    if w.contains_key(p) && decide(b, t, w, i, true, p) != CheckoutAction::Remove && writes_under(b, t, w, i, true, p) {
        // a file kept or written by a forced checkout is a file of the target, and the
        // target lists nothing under one of its files
        assert(blob_at(t, p));
        let q = choose|q: Seq<u8>| path_under(p, q) && blob_at(t, q) && #[trigger] decide(b, t, w, i, true, q) == CheckoutAction::Write;
        assert(t.contains_key(q));
    }
}

/// Some file of the target under `d` is written.
pub open spec fn writes_under(
    b: Map<Seq<u8>, TreeEntry>,
    t: Map<Seq<u8>, TreeEntry>,
    w: Map<Seq<u8>, WorktreeFile>,
    i: Map<Seq<u8>, BitIndexEntry>,
    forced: bool,
    d: Seq<u8>,
) -> bool {
    exists|p: Seq<u8>| path_under(d, p) && blob_at(t, p) && #[trigger] decide(b, t, w, i, forced, p) == CheckoutAction::Write
}

/// The action of a checkout on `p`: the decision for the path, except that a file that
/// stays where the target writes files beneath it is in conflict.
pub open spec fn action(
    b: Map<Seq<u8>, TreeEntry>,
    t: Map<Seq<u8>, TreeEntry>,
    w: Map<Seq<u8>, WorktreeFile>,
    i: Map<Seq<u8>, BitIndexEntry>,
    forced: bool,
    p: Seq<u8>,
) -> CheckoutAction {
    if w.contains_key(p) && decide(b, t, w, i, forced, p) != CheckoutAction::Remove && writes_under(b, t, w, i, forced, p) {
        CheckoutAction::Conflict
    } else {
        decide(b, t, w, i, forced, p)
    }
}

/// The paths a checkout looks at: the files of the baseline, of the target and of the
/// working tree.
pub open spec fn in_union(b: Map<Seq<u8>, TreeEntry>, t: Map<Seq<u8>, TreeEntry>, w: Map<Seq<u8>, WorktreeFile>, p: Seq<u8>) -> bool {
    blob_at(b, p) || blob_at(t, p) || w.contains_key(p)
}

/// Whether some file of the target under `d` is written.
fn writes_under_exec(
    repo: &BitRepo,
    baseline: &ByteMap<TreeEntry>,
    target: &ByteMap<TreeEntry>,
    forced: bool,
    d: &[u8],
) -> (r: bool)
    ensures
        r == writes_under(baseline.spec_map(), target.spec_map(), repo.spec_worktree(), repo.spec_index().spec_entries(), forced, d@),
{
    target.well_formed();
    proof {
        target.lemma_list();
    }
    let n = target.len();
    let mut i: usize = 0;
    while i < n
        invariant
            0 <= i <= n,
            n == target.spec_keys().len(),
            n == target.spec_vals().len(),
            forall|k: int| 0 <= k < target.spec_keys().len() ==> target.spec_map().contains_key(#[trigger] target.spec_keys()[k])
                && target.spec_map()[target.spec_keys()[k]] == target.spec_vals()[k],
            forall|k: int| 0 <= k < i ==> !(path_under(d@, #[trigger] target.spec_keys()[k]) && blob_at(target.spec_map(), target.spec_keys()[k])
                && decide(baseline.spec_map(), target.spec_map(), repo.spec_worktree(), repo.spec_index().spec_entries(), forced,
                target.spec_keys()[k]) == CheckoutAction::Write),
        decreases n - i,
    {
        let k = target.key_at(i);
        if is_path_under(d, k.as_slice()) && !target.val_at(i).mode.is_tree() {
            if decide_path(repo, baseline, target, forced, k.as_slice()) == CheckoutAction::Write {
                proof {
                    assert(target.spec_map().contains_key(target.spec_keys()[i as int]));
                }
                return true;
            }
        }
        i = i + 1;
    }
    proof {
        assert forall|p: Seq<u8>| !(path_under(d@, p) && blob_at(target.spec_map(), p) && #[trigger] decide(baseline.spec_map(),
            target.spec_map(), repo.spec_worktree(), repo.spec_index().spec_entries(), forced, p) == CheckoutAction::Write) by {
            if target.spec_map().contains_key(p) {
                let k = choose|k: int| 0 <= k < target.spec_keys().len() && target.spec_keys()[k] == p;
                assert(!(path_under(d@, target.spec_keys()[k]) && blob_at(target.spec_map(), target.spec_keys()[k])
                    && decide(baseline.spec_map(), target.spec_map(), repo.spec_worktree(), repo.spec_index().spec_entries(), forced,
                    target.spec_keys()[k]) == CheckoutAction::Write));
            }
        }
    }
    false
}

/// The action of a checkout on the path `p`.
pub fn action_of(
    repo: &BitRepo,
    baseline: &ByteMap<TreeEntry>,
    target: &ByteMap<TreeEntry>,
    forced: bool,
    p: &[u8],
) -> (r: CheckoutAction)
    ensures
        r == action(baseline.spec_map(), target.spec_map(), repo.spec_worktree(), repo.spec_index().spec_entries(), forced, p@),
{
    let d = decide_path(repo, baseline, target, forced, p);
    if repo.worktree_file(p).is_some() && d != CheckoutAction::Remove && writes_under_exec(repo, baseline, target, forced, p) {
        CheckoutAction::Conflict
    } else {
        d
    }
}

/// Whether some path of `v` is `p`.
fn contains_path(v: &Vec<Vec<u8>>, p: &[u8]) -> (r: bool)
    ensures
        r == exists|j: int| 0 <= j < v@.len() && v@[j]@ == p@,
{
    let mut j: usize = 0;
    while j < v.len()
        invariant
            0 <= j <= v@.len(),
            forall|k: int| 0 <= k < j ==> v@[k]@ != p@,
        decreases v@.len() - j,
    {
        if crate::hash::bytes_eq(v[j].as_slice(), p) {
            return true;
        }
        j = j + 1;
    }
    false
}

/// Appends the keys of `m` whose entries are files.
fn push_keys_where_blob(m: &ByteMap<TreeEntry>, out: &mut Vec<Vec<u8>>)
    ensures
        forall|j: int| 0 <= j < old(out)@.len() ==> final(out)@[j] == old(out)@[j],
        final(out)@.len() >= old(out)@.len(),
        forall|j: int| old(out)@.len() <= j < final(out)@.len() ==> blob_at(m.spec_map(), #[trigger] final(out)@[j]@),
        forall|p: Seq<u8>| blob_at(m.spec_map(), p) ==> exists|j: int| old(out)@.len() <= j < final(out)@.len() && #[trigger] final(out)@[j]@ == p,
{
    m.well_formed();
    proof {
        m.lemma_list();
    }
    let n = m.len();
    let mut i: usize = 0;
    let ghost start = out@.len();
    while i < n
        invariant
            0 <= i <= n,
            n == m.spec_keys().len(),
            n == m.spec_vals().len(),
            start == old(out)@.len(),
            out@.len() >= start,
            forall|j: int| 0 <= j < start ==> out@[j] == old(out)@[j],
            forall|j: int| start <= j < out@.len() ==> blob_at(m.spec_map(), #[trigger] out@[j]@),
            forall|k: int| 0 <= k < i && blob_at(m.spec_map(), #[trigger] m.spec_keys()[k]) ==> exists|j: int|
                start <= j < out@.len() && out@[j]@ == m.spec_keys()[k],
            forall|k: int| 0 <= k < m.spec_keys().len() ==> m.spec_map().contains_key(#[trigger] m.spec_keys()[k])
                && m.spec_map()[m.spec_keys()[k]] == m.spec_vals()[k],
        decreases n - i,
    {
        if !m.val_at(i).mode.is_tree() {
            let ghost before = out@;
            out.push(copy_bytes(m.key_at(i)));
            proof {
                assert forall|k: int| 0 <= k < i + 1 && blob_at(m.spec_map(), #[trigger] m.spec_keys()[k]) implies exists|j: int|
                    start <= j < out@.len() && out@[j]@ == m.spec_keys()[k] by {
                    if k == i {
                        assert(out@[out@.len() - 1]@ == m.spec_keys()[k]);
                    } else {
                        let j = choose|j: int| start <= j < before.len() && before[j]@ == m.spec_keys()[k];
                        assert(out@[j] == before[j]);
                    }
                }
            }
        }
        i = i + 1;
    }
    proof {
        assert forall|p: Seq<u8>| blob_at(m.spec_map(), p) implies exists|j: int| start <= j < out@.len() && #[trigger] out@[j]@ == p by {
            let k = choose|k: int| 0 <= k < m.spec_keys().len() && m.spec_keys()[k] == p;
            assert(blob_at(m.spec_map(), m.spec_keys()[k]));
        }
    }
}

/// Every path a checkout looks at (some more than once).
fn union_paths(repo: &BitRepo, baseline: &ByteMap<TreeEntry>, target: &ByteMap<TreeEntry>) -> (r: Vec<Vec<u8>>)
    ensures
        forall|j: int| 0 <= j < r@.len() ==> in_union(baseline.spec_map(), target.spec_map(), repo.spec_worktree(), #[trigger] r@[j]@),
        forall|p: Seq<u8>| in_union(baseline.spec_map(), target.spec_map(), repo.spec_worktree(), p) ==> exists|j: int|
            0 <= j < r@.len() && #[trigger] r@[j]@ == p,
{
    let mut r: Vec<Vec<u8>> = Vec::new();
    push_keys_where_blob(baseline, &mut r);
    let ghost r1 = r@;
    push_keys_where_blob(target, &mut r);
    let ghost r2 = r@;
    let w = repo.worktree_paths();
    let mut i: usize = 0;
    while i < w.len()
        invariant
            0 <= i <= w@.len(),
            r@.len() == r2.len() + i,
            forall|j: int| 0 <= j < r2.len() ==> r@[j] == r2[j],
            forall|j: int| r2.len() <= j < r@.len() ==> r@[j]@ == w@[j - r2.len()]@,
            forall|j: int| 0 <= j < w@.len() ==> repo.spec_worktree().contains_key(#[trigger] w@[j]@),
        decreases w@.len() - i,
    {
        r.push(copy_bytes(&w[i]));
        i = i + 1;
    }
    proof {
        assert forall|j: int| 0 <= j < r@.len() implies in_union(baseline.spec_map(), target.spec_map(), repo.spec_worktree(), #[trigger] r@[j]@) by {
            if j < r1.len() {
                assert(r@[j] == r2[j]);
                assert(r2[j] == r1[j]);
            } else if j < r2.len() {
                assert(r@[j] == r2[j]);
            } else {
                assert(r@[j]@ == w@[j - r2.len()]@);
            }
        }
        assert forall|p: Seq<u8>| in_union(baseline.spec_map(), target.spec_map(), repo.spec_worktree(), p) implies exists|j: int|
            0 <= j < r@.len() && #[trigger] r@[j]@ == p by {
            if blob_at(baseline.spec_map(), p) {
                let j = choose|j: int| 0 <= j < r1.len() && #[trigger] r1[j]@ == p;
                assert(r@[j] == r1[j]);
            } else if blob_at(target.spec_map(), p) {
                let j = choose|j: int| r1.len() <= j < r2.len() && #[trigger] r2[j]@ == p;
                assert(r@[j] == r2[j]);
            } else {
                let j = choose|j: int| 0 <= j < w@.len() && #[trigger] w@[j]@ == p;
                assert(r@[r2.len() + j]@ == w@[j]@);
            }
        }
    }
    r
}

/// The changes a checkout makes: directories of the baseline that go away (`rmrfs`), files
/// to delete outside them (`rms`), directories of the target that come (`mkdirs`) and files
/// of the target to write and stage (`creates`); `removes` lists every file to delete with
/// its index entries, inside the removed directories too.
#[derive(Debug)]
pub struct Migration {
    pub rmrfs: Vec<TreeEntry>,
    pub rms: Vec<Vec<u8>>,
    pub mkdirs: Vec<TreeEntry>,
    pub creates: Vec<TreeEntry>,
    pub removes: Vec<Vec<u8>>,
}

/// A tree of `b` that is no tree in `t`.
pub open spec fn tree_gone(b: Map<Seq<u8>, TreeEntry>, t: Map<Seq<u8>, TreeEntry>, p: Seq<u8>) -> bool {
    b.contains_key(p) && b[p].mode == FileMode::TREE && !(t.contains_key(p) && t[p].mode == FileMode::TREE)
}

/// `p` lies under one of the directories `dirs`.
pub open spec fn under_one(dirs: Seq<TreeEntry>, p: Seq<u8>) -> bool {
    exists|j: int| 0 <= j < dirs.len() && path_under(#[trigger] dirs[j].path@, p)
}

/// The directory changes of a migration that deletes the files `removes`: the trees of the
/// baseline that go away, none under another and each other one under one of them; the
/// files of `removes` outside them; the trees of the target that the baseline lacks.
pub open spec fn dir_changes_ok(
    b: Map<Seq<u8>, TreeEntry>,
    t: Map<Seq<u8>, TreeEntry>,
    removes: Seq<Vec<u8>>,
    rmrfs: Seq<TreeEntry>,
    rms: Seq<Vec<u8>>,
    mkdirs: Seq<TreeEntry>,
) -> bool {
    &&& forall|j: int| 0 <= j < rmrfs.len() ==> tree_gone(b, t, #[trigger] rmrfs[j].path@) && rmrfs[j]@ == b[rmrfs[j].path@]@
    &&& forall|j: int, k: int| 0 <= j < rmrfs.len() && 0 <= k < rmrfs.len() && j != k ==> !path_under(#[trigger] rmrfs[j].path@, #[trigger] rmrfs[k].path@)
    &&& forall|p: Seq<u8>| tree_gone(b, t, p) ==> (exists|j: int| 0 <= j < rmrfs.len() && #[trigger] rmrfs[j].path@ == p) || under_one(rmrfs, p)
    &&& forall|j: int| 0 <= j < rms.len() ==> !under_one(rmrfs, #[trigger] rms[j]@) && exists|k: int| 0 <= k < removes.len() && removes[k]@ == rms[j]@
    &&& forall|k: int| 0 <= k < removes.len() && !under_one(rmrfs, #[trigger] removes[k]@) ==> exists|j: int| 0 <= j < rms.len() && rms[j]@ == removes[k]@
    &&& forall|j: int| 0 <= j < mkdirs.len() ==> t.contains_key(#[trigger] mkdirs[j].path@) && t[mkdirs[j].path@].mode == FileMode::TREE
        && !(b.contains_key(mkdirs[j].path@) && b[mkdirs[j].path@].mode == FileMode::TREE) && mkdirs[j]@ == t[mkdirs[j].path@]@
    &&& forall|p: Seq<u8>| t.contains_key(p) && t[p].mode == FileMode::TREE && !(b.contains_key(p) && b[p].mode == FileMode::TREE)
        ==> exists|j: int| 0 <= j < mkdirs.len() && #[trigger] mkdirs[j].path@ == p
}

/// Whether `p` lies under one of the directories.
fn under_one_exec(dirs: &Vec<TreeEntry>, p: &[u8]) -> (r: bool)
    ensures
        r == under_one(dirs@, p@),
{
    let mut j: usize = 0;
    while j < dirs.len()
        invariant
            0 <= j <= dirs@.len(),
            forall|k: int| 0 <= k < j ==> !path_under(#[trigger] dirs@[k].path@, p@),
        decreases dirs@.len() - j,
    {
        if is_path_under(dirs[j].path.as_slice(), p) {
            return true;
        }
        j = j + 1;
    }
    false
}

/// The directory changes of a migration (see `dir_changes_ok`), in path order.
fn dir_changes(baseline: &ByteMap<TreeEntry>, target: &ByteMap<TreeEntry>, removes: &Vec<Vec<u8>>) -> (r: (
    Vec<TreeEntry>,
    Vec<Vec<u8>>,
    Vec<TreeEntry>,
))
    requires
        flat_keys_ok(baseline.spec_map()),
        flat_keys_ok(target.spec_map()),
    ensures
        dir_changes_ok(baseline.spec_map(), target.spec_map(), removes@, r.0@, r.1@, r.2@),
{
    let ghost b = baseline.spec_map();
    let ghost t = target.spec_map();
    baseline.well_formed();
    target.well_formed();
    proof {
        baseline.lemma_list();
        target.lemma_list();
    }
    let mut rmrfs: Vec<TreeEntry> = Vec::new();
    let n = baseline.len();
    let mut i: usize = 0;
    while i < n
        invariant
            0 <= i <= n,
            n == baseline.spec_keys().len(),
            b == baseline.spec_map(),
            t == target.spec_map(),
            flat_keys_ok(b),
            baseline.spec_keys().len() == baseline.spec_vals().len(),
            forall|k: int| 0 <= k < baseline.spec_keys().len() ==> b.contains_key(#[trigger] baseline.spec_keys()[k])
                && b[baseline.spec_keys()[k]] == baseline.spec_vals()[k],
            forall|q: Seq<u8>| #[trigger] b.contains_key(q) ==> exists|k: int| 0 <= k < baseline.spec_keys().len() && baseline.spec_keys()[k] == q,
            forall|j: int| 0 <= j < rmrfs@.len() ==> tree_gone(b, t, #[trigger] rmrfs@[j].path@) && rmrfs@[j]@ == b[rmrfs@[j].path@]@,
            forall|j: int, k: int| 0 <= j < rmrfs@.len() && 0 <= k < rmrfs@.len() && j != k ==> !path_under(#[trigger] rmrfs@[j].path@, #[trigger] rmrfs@[k].path@),
            forall|k: int| 0 <= k < i && tree_gone(b, t, #[trigger] baseline.spec_keys()[k]) ==> (exists|j: int|
                0 <= j < rmrfs@.len() && rmrfs@[j].path@ == baseline.spec_keys()[k]) || under_one(rmrfs@, baseline.spec_keys()[k]),
            forall|j: int| 0 <= j < rmrfs@.len() ==> exists|k: int| 0 <= k < i && #[trigger] rmrfs@[j].path@ == baseline.spec_keys()[k],
            keys_sorted(baseline.spec_keys()),
        decreases n - i,
    {
        let p = baseline.key_at(i);
        let e = baseline.val_at(i);
        let gone = e.mode.is_tree() && match target.get(p.as_slice()) {
            Some(te) => !te.mode.is_tree(),
            None => true,
        };
        if gone && !under_one_exec(&rmrfs, p.as_slice()) {
            let ghost before = rmrfs@;
            proof {
                assert forall|j: int| 0 <= j < before.len() implies !path_under(p@, #[trigger] before[j].path@) by {
                    let k = choose|k: int| 0 <= k < i && #[trigger] before[j].path@ == baseline.spec_keys()[k];
                    assert(crate::bytes::seq_order(baseline.spec_keys()[k], baseline.spec_keys()[i as int]) == crate::bytes::Order::Less);
                    if path_under(p@, before[j].path@) {
                        crate::bytes::lemma_under_order(p@, before[j].path@);
                        crate::bytes::lemma_seq_order_antisym(p@, before[j].path@);
                    }
                }
            }
            rmrfs.push(e.copy());
            proof {
                assert forall|j: int, k: int| 0 <= j < rmrfs@.len() && 0 <= k < rmrfs@.len() && j != k implies !path_under(
                    #[trigger] rmrfs@[j].path@, #[trigger] rmrfs@[k].path@) by {
                    if j == before.len() {
                        assert(rmrfs@[k] == before[k]);
                    } else if k == before.len() {
                        assert(rmrfs@[j] == before[j]);
                        assert(!under_one(before, p@));
                    } else {
                        assert(rmrfs@[j] == before[j] && rmrfs@[k] == before[k]);
                    }
                }
                assert forall|q: Seq<u8>| under_one(before, q) implies under_one(rmrfs@, q) by {
                    let j = choose|j: int| 0 <= j < before.len() && path_under(#[trigger] before[j].path@, q);
                    assert(rmrfs@[j] == before[j]);
                }
                assert forall|j: int| 0 <= j < rmrfs@.len() implies exists|k: int| 0 <= k < i + 1 && #[trigger] rmrfs@[j].path@
                    == baseline.spec_keys()[k] by {
                    if j < before.len() {
                        assert(rmrfs@[j] == before[j]);
                        let k = choose|k: int| 0 <= k < i && #[trigger] before[j].path@ == baseline.spec_keys()[k];
                    } else {
                        assert(rmrfs@[j].path@ == baseline.spec_keys()[i as int]);
                    }
                }
                assert forall|k: int| 0 <= k < i + 1 && tree_gone(b, t, #[trigger] baseline.spec_keys()[k]) implies (exists|j: int|
                    0 <= j < rmrfs@.len() && rmrfs@[j].path@ == baseline.spec_keys()[k]) || under_one(rmrfs@, baseline.spec_keys()[k]) by {
                    if k < i {
                        if exists|j: int| 0 <= j < before.len() && before[j].path@ == baseline.spec_keys()[k] {
                            let j = choose|j: int| 0 <= j < before.len() && before[j].path@ == baseline.spec_keys()[k];
                            assert(rmrfs@[j] == before[j]);
                        }
                    } else {
                        assert(rmrfs@[before.len() as int].path@ == baseline.spec_keys()[k]);
                    }
                }
            }
        }
        i = i + 1;
    }
    proof {
        assert forall|q: Seq<u8>| tree_gone(b, t, q) implies (exists|j: int| 0 <= j < rmrfs@.len() && #[trigger] rmrfs@[j].path@ == q)
            || under_one(rmrfs@, q) by {
            let k = choose|k: int| 0 <= k < baseline.spec_keys().len() && baseline.spec_keys()[k] == q;
            assert(tree_gone(b, t, baseline.spec_keys()[k]));
        }
    }
    let mut rms: Vec<Vec<u8>> = Vec::new();
    let mut i: usize = 0;
    while i < removes.len()
        invariant
            0 <= i <= removes@.len(),
            forall|j: int| 0 <= j < rms@.len() ==> !under_one(rmrfs@, #[trigger] rms@[j]@) && exists|k: int|
                0 <= k < removes@.len() && removes@[k]@ == rms@[j]@,
            forall|k: int| 0 <= k < i && !under_one(rmrfs@, #[trigger] removes@[k]@) ==> exists|j: int| 0 <= j < rms@.len() && rms@[j]@ == removes@[k]@,
        decreases removes@.len() - i,
    {
        if !under_one_exec(&rmrfs, removes[i].as_slice()) {
            let ghost before = rms@;
            rms.push(copy_bytes(&removes[i]));
            proof {
                assert forall|k: int| 0 <= k < i + 1 && !under_one(rmrfs@, #[trigger] removes@[k]@) implies exists|j: int|
                    0 <= j < rms@.len() && rms@[j]@ == removes@[k]@ by {
                    if k < i {
                        let j = choose|j: int| 0 <= j < before.len() && before[j]@ == removes@[k]@;
                        assert(rms@[j] == before[j]);
                    } else {
                        assert(rms@[before.len() as int]@ == removes@[k]@);
                    }
                }
                assert forall|j: int| 0 <= j < rms@.len() implies !under_one(rmrfs@, #[trigger] rms@[j]@) && exists|k: int|
                    0 <= k < removes@.len() && removes@[k]@ == rms@[j]@ by {
                    if j < before.len() {
                        assert(rms@[j] == before[j]);
                    } else {
                        assert(removes@[i as int]@ == rms@[j]@);
                    }
                }
            }
        }
        i = i + 1;
    }
    let mut mkdirs: Vec<TreeEntry> = Vec::new();
    let m = target.len();
    let mut i: usize = 0;
    while i < m
        invariant
            0 <= i <= m,
            m == target.spec_keys().len(),
            b == baseline.spec_map(),
            t == target.spec_map(),
            flat_keys_ok(t),
            target.spec_keys().len() == target.spec_vals().len(),
            forall|k: int| 0 <= k < target.spec_keys().len() ==> t.contains_key(#[trigger] target.spec_keys()[k])
                && t[target.spec_keys()[k]] == target.spec_vals()[k],
            forall|q: Seq<u8>| #[trigger] t.contains_key(q) ==> exists|k: int| 0 <= k < target.spec_keys().len() && target.spec_keys()[k] == q,
            forall|j: int| 0 <= j < mkdirs@.len() ==> t.contains_key(#[trigger] mkdirs@[j].path@) && t[mkdirs@[j].path@].mode == FileMode::TREE
                && !(b.contains_key(mkdirs@[j].path@) && b[mkdirs@[j].path@].mode == FileMode::TREE) && mkdirs@[j]@ == t[mkdirs@[j].path@]@,
            forall|k: int| 0 <= k < i && t[#[trigger] target.spec_keys()[k]].mode == FileMode::TREE && !(b.contains_key(target.spec_keys()[k])
                && b[target.spec_keys()[k]].mode == FileMode::TREE) ==> exists|j: int| 0 <= j < mkdirs@.len() && mkdirs@[j].path@ == target.spec_keys()[k],
        decreases m - i,
    {
        let p = target.key_at(i);
        let e = target.val_at(i);
        let was_tree = match baseline.get(p.as_slice()) {
            Some(be) => be.mode.is_tree(),
            None => false,
        };
        if e.mode.is_tree() && !was_tree {
            let ghost before = mkdirs@;
            mkdirs.push(e.copy());
            proof {
                assert forall|k: int| 0 <= k < i + 1 && t[#[trigger] target.spec_keys()[k]].mode == FileMode::TREE && !(b.contains_key(
                    target.spec_keys()[k]) && b[target.spec_keys()[k]].mode == FileMode::TREE) implies exists|j: int|
                    0 <= j < mkdirs@.len() && mkdirs@[j].path@ == target.spec_keys()[k] by {
                    if k < i {
                        let j = choose|j: int| 0 <= j < before.len() && before[j].path@ == target.spec_keys()[k];
                        assert(mkdirs@[j] == before[j]);
                    } else {
                        assert(mkdirs@[before.len() as int].path@ == target.spec_keys()[k]);
                    }
                }
            }
        }
        i = i + 1;
    }
    proof {
        assert forall|q: Seq<u8>| t.contains_key(q) && t[q].mode == FileMode::TREE && !(b.contains_key(q) && b[q].mode == FileMode::TREE)
            implies exists|j: int| 0 <= j < mkdirs@.len() && #[trigger] mkdirs@[j].path@ == q by {
            let k = choose|k: int| 0 <= k < target.spec_keys().len() && target.spec_keys()[k] == q;
            assert(t[target.spec_keys()[k]].mode == FileMode::TREE);
        }
    }
    (rmrfs, rms, mkdirs)
}

/// The paths whose local changes a checkout would lose.
#[derive(Debug, Clone, PartialEq, Eq)]
pub struct CheckoutConflicts {
    pub worktree: Vec<Vec<u8>>,
}

impl CheckoutConflicts {
    pub fn is_empty(&self) -> (r: bool)
        ensures
            r == (self.worktree@.len() == 0),
    {
        self.worktree.len() == 0
    }

    pub fn len(&self) -> (r: usize)
        ensures
            r == self.worktree@.len(),
    {
        self.worktree.len()
    }
}

impl Migration {
    /// The migration from `baseline` to `target` for the working tree and index of `repo`,
    /// or the conflicting paths when some path's action is a conflict.
    pub fn generate(
        repo: &BitRepo,
        baseline: &ByteMap<TreeEntry>,
        target: &ByteMap<TreeEntry>,
        opts: CheckoutOpts,
    ) -> (r: Result<Migration, CheckoutConflicts>)
        requires
            flat_keys_ok(baseline.spec_map()),
            flat_keys_ok(target.spec_map()),
        ensures
            ({
                let b = baseline.spec_map();
                let t = target.spec_map();
                let w = repo.spec_worktree();
                let i = repo.spec_index().spec_entries();
                let f = strategy_level(opts.strategy) >= 2;
                &&& r is Ok <==> forall|p: Seq<u8>| in_union(b, t, w, p) ==> #[trigger] action(b, t, w, i, f, p) != CheckoutAction::Conflict
                &&& r matches Err(c) ==> (forall|j: int| 0 <= j < c.worktree@.len() ==> in_union(b, t, w, #[trigger] c.worktree@[j]@)
                    && action(b, t, w, i, f, c.worktree@[j]@) == CheckoutAction::Conflict)
                &&& r matches Err(c) ==> (forall|p: Seq<u8>| in_union(b, t, w, p) && action(b, t, w, i, f, p) == CheckoutAction::Conflict
                    ==> exists|j: int| 0 <= j < c.worktree@.len() && #[trigger] c.worktree@[j]@ == p)
                &&& r matches Ok(m) ==> (forall|j: int| 0 <= j < m.removes@.len() ==> in_union(b, t, w, #[trigger] m.removes@[j]@)
                    && action(b, t, w, i, f, m.removes@[j]@) == CheckoutAction::Remove)
                &&& r matches Ok(m) ==> (forall|p: Seq<u8>| in_union(b, t, w, p) && action(b, t, w, i, f, p) == CheckoutAction::Remove
                    ==> exists|j: int| 0 <= j < m.removes@.len() && #[trigger] m.removes@[j]@ == p)
                &&& r matches Ok(m) ==> (forall|j: int| 0 <= j < m.creates@.len() ==> blob_at(t, #[trigger] m.creates@[j].path@)
                    && m.creates@[j]@ == t[m.creates@[j].path@]@ && action(b, t, w, i, f, m.creates@[j].path@) == CheckoutAction::Write)
                &&& r matches Ok(m) ==> (forall|p: Seq<u8>| in_union(b, t, w, p) && action(b, t, w, i, f, p) == CheckoutAction::Write
                    ==> exists|j: int| 0 <= j < m.creates@.len() && #[trigger] m.creates@[j].path@ == p)
                &&& r matches Ok(m) ==> dir_changes_ok(b, t, m.removes@, m.rmrfs@, m.rms@, m.mkdirs@)
            }),
    {
        let forced = opts.is_forced();
        let ghost b = baseline.spec_map();
        let ghost t = target.spec_map();
        let ghost w = repo.spec_worktree();
        let ghost ix = repo.spec_index().spec_entries();
        let paths = union_paths(repo, baseline, target);
        let mut removes: Vec<Vec<u8>> = Vec::new();
        let mut creates: Vec<TreeEntry> = Vec::new();
        let mut conflicts: Vec<Vec<u8>> = Vec::new();
        let mut k: usize = 0;
        while k < paths.len()
            invariant
                0 <= k <= paths@.len(),
                forall|j: int| 0 <= j < paths@.len() ==> in_union(b, t, w, #[trigger] paths@[j]@),
                forall|p: Seq<u8>| in_union(b, t, w, p) ==> exists|j: int| 0 <= j < paths@.len() && #[trigger] paths@[j]@ == p,
                b == baseline.spec_map(),
                t == target.spec_map(),
                w == repo.spec_worktree(),
                ix == repo.spec_index().spec_entries(),
                flat_keys_ok(t),
                forall|j: int| 0 <= j < conflicts@.len() ==> in_union(b, t, w, #[trigger] conflicts@[j]@)
                    && action(b, t, w, ix, forced, conflicts@[j]@) == CheckoutAction::Conflict,
                forall|q: int| 0 <= q < k && action(b, t, w, ix, forced, #[trigger] paths@[q]@) == CheckoutAction::Conflict
                    ==> exists|j: int| 0 <= j < conflicts@.len() && conflicts@[j]@ == paths@[q]@,
                forall|j: int| 0 <= j < removes@.len() ==> in_union(b, t, w, #[trigger] removes@[j]@)
                    && action(b, t, w, ix, forced, removes@[j]@) == CheckoutAction::Remove,
                forall|q: int| 0 <= q < k && action(b, t, w, ix, forced, #[trigger] paths@[q]@) == CheckoutAction::Remove
                    ==> exists|j: int| 0 <= j < removes@.len() && removes@[j]@ == paths@[q]@,
                forall|j: int| 0 <= j < creates@.len() ==> blob_at(t, #[trigger] creates@[j].path@)
                    && creates@[j]@ == t[creates@[j].path@]@ && action(b, t, w, ix, forced, creates@[j].path@) == CheckoutAction::Write,
                forall|q: int| 0 <= q < k && action(b, t, w, ix, forced, #[trigger] paths@[q]@) == CheckoutAction::Write
                    ==> exists|j: int| 0 <= j < creates@.len() && creates@[j].path@ == paths@[q]@,
            decreases paths@.len() - k,
        {
            let p = &paths[k];
            let a = action_of(repo, baseline, target, forced, p.as_slice());
            let ghost c0 = conflicts@;
            let ghost r0 = removes@;
            let ghost w0 = creates@;
            match a {
                CheckoutAction::Keep => {},
                CheckoutAction::Remove => {
                    removes.push(copy_bytes(p));
                },
                CheckoutAction::Write => {
                    let e = target.get(p.as_slice()).unwrap();
                    creates.push(e.copy());
                },
                CheckoutAction::Conflict => {
                    if !contains_path(&conflicts, p.as_slice()) {
                        conflicts.push(copy_bytes(p));
                    }
                },
            }
            proof {
                assert forall|q: int| 0 <= q < k + 1 && action(b, t, w, ix, forced, #[trigger] paths@[q]@) == CheckoutAction::Conflict
                    implies exists|j: int| 0 <= j < conflicts@.len() && conflicts@[j]@ == paths@[q]@ by {
                    if q == k {
                        if conflicts@.len() > c0.len() {
                            assert(conflicts@[conflicts@.len() - 1]@ == paths@[q]@);
                        } else {
                            let j = choose|j: int| 0 <= j < c0.len() && c0[j]@ == paths@[q]@;
                            assert(conflicts@[j] == c0[j]);
                        }
                    } else {
                        let j = choose|j: int| 0 <= j < c0.len() && c0[j]@ == paths@[q]@;
                        assert(conflicts@[j] == c0[j]);
                    }
                }
                assert forall|q: int| 0 <= q < k + 1 && action(b, t, w, ix, forced, #[trigger] paths@[q]@) == CheckoutAction::Remove
                    implies exists|j: int| 0 <= j < removes@.len() && removes@[j]@ == paths@[q]@ by {
                    if q == k {
                        assert(removes@[removes@.len() - 1]@ == paths@[q]@);
                    } else {
                        let j = choose|j: int| 0 <= j < r0.len() && r0[j]@ == paths@[q]@;
                        assert(removes@[j] == r0[j]);
                    }
                }
                assert forall|q: int| 0 <= q < k + 1 && action(b, t, w, ix, forced, #[trigger] paths@[q]@) == CheckoutAction::Write
                    implies exists|j: int| 0 <= j < creates@.len() && creates@[j].path@ == paths@[q]@ by {
                    if q == k {
                        assert(creates@[creates@.len() - 1].path@ == paths@[q]@);
                    } else {
                        let j = choose|j: int| 0 <= j < w0.len() && w0[j].path@ == paths@[q]@;
                        assert(creates@[j] == w0[j]);
                    }
                }
            }
            k = k + 1;
        }
        proof {
            assert forall|p: Seq<u8>| in_union(b, t, w, p) && action(b, t, w, ix, forced, p) == CheckoutAction::Conflict
                implies exists|j: int| 0 <= j < conflicts@.len() && #[trigger] conflicts@[j]@ == p by {
                let q = choose|q: int| 0 <= q < paths@.len() && #[trigger] paths@[q]@ == p;
                assert(action(b, t, w, ix, forced, paths@[q]@) == CheckoutAction::Conflict);
            }
            assert forall|p: Seq<u8>| in_union(b, t, w, p) && action(b, t, w, ix, forced, p) == CheckoutAction::Remove
                implies exists|j: int| 0 <= j < removes@.len() && #[trigger] removes@[j]@ == p by {
                let q = choose|q: int| 0 <= q < paths@.len() && #[trigger] paths@[q]@ == p;
                assert(action(b, t, w, ix, forced, paths@[q]@) == CheckoutAction::Remove);
            }
            assert forall|p: Seq<u8>| in_union(b, t, w, p) && action(b, t, w, ix, forced, p) == CheckoutAction::Write
                implies exists|j: int| 0 <= j < creates@.len() && #[trigger] creates@[j].path@ == p by {
                let q = choose|q: int| 0 <= q < paths@.len() && #[trigger] paths@[q]@ == p;
                assert(action(b, t, w, ix, forced, paths@[q]@) == CheckoutAction::Write);
            }
        }
        if conflicts.len() == 0 {
            proof {
                assert forall|p: Seq<u8>| in_union(b, t, w, p) implies #[trigger] action(b, t, w, ix, forced, p) != CheckoutAction::Conflict by {
                    if action(b, t, w, ix, forced, p) == CheckoutAction::Conflict {
                        let j = choose|j: int| 0 <= j < conflicts@.len() && #[trigger] conflicts@[j]@ == p;
                    }
                }
            }
            let (rmrfs, rms, mkdirs) = dir_changes(baseline, target, &removes);
            Ok(Migration { rmrfs, rms, mkdirs, creates, removes })
        } else {
            proof {
                assert(in_union(b, t, w, conflicts@[0]@) && action(b, t, w, ix, forced, conflicts@[0]@) == CheckoutAction::Conflict);
            }
            Err(CheckoutConflicts { worktree: conflicts })
        }
    }
}


/// The contents of the blob `oid` of `odb` (empty where there is none).
pub open spec fn blob_bytes(odb: Map<Seq<u8>, BitObjKind>, oid: Seq<u8>) -> Seq<u8> {
    if odb.contains_key(oid) && odb[oid] is Blob {
        odb[oid]->Blob_0.bytes@
    } else {
        Seq::empty()
    }
}

/// The position of the last entry of `creates` at `p`, or -1 where there is none.
pub open spec fn last_at(creates: Seq<TreeEntry>, p: Seq<u8>) -> int
    decreases creates.len(),
{
    if creates.len() == 0 {
        -1
    } else if creates.last().path@ == p {
        creates.len() - 1
    } else {
        last_at(creates.drop_last(), p)
    }
}

/// Some path of `paths` is `p`.
pub open spec fn listed(paths: Seq<Vec<u8>>, p: Seq<u8>) -> bool {
    exists|j: int| 0 <= j < paths.len() && #[trigger] paths[j]@ == p
}

/// The file and index entries of `p` are as before.
pub open spec fn path_unchanged(
    w0: Map<Seq<u8>, WorktreeFile>,
    i0: Map<Seq<u8>, BitIndexEntry>,
    w1: Map<Seq<u8>, WorktreeFile>,
    i1: Map<Seq<u8>, BitIndexEntry>,
    p: Seq<u8>,
) -> bool {
    &&& (w1.contains_key(p) <==> w0.contains_key(p))
    &&& w0.contains_key(p) ==> w1[p] == w0[p]
    &&& forall|s: MergeStage| (#[trigger] i1.contains_key(index_key(p, s)) <==> i0.contains_key(index_key(p, s)))
    &&& forall|s: MergeStage| #[trigger] i0.contains_key(index_key(p, s)) ==> i1[index_key(p, s)] == i0[index_key(p, s)]
}

/// `p` has neither a file nor an index entry.
pub open spec fn path_removed(w1: Map<Seq<u8>, WorktreeFile>, i1: Map<Seq<u8>, BitIndexEntry>, p: Seq<u8>) -> bool {
    &&& !w1.contains_key(p)
    &&& forall|s: MergeStage| !(#[trigger] i1.contains_key(index_key(p, s)))
}

/// The file at `p` holds the blob of `e` with its mode.
pub open spec fn file_written(odb: Map<Seq<u8>, BitObjKind>, w1: Map<Seq<u8>, WorktreeFile>, p: Seq<u8>, e: TreeEntry) -> bool {
    &&& w1.contains_key(p)
    &&& w1[p].mode == e.mode
    &&& w1[p].data@ == blob_bytes(odb, e.oid@)
}

/// `p` has no conflict entries.
pub open spec fn conflicts_cleared(i1: Map<Seq<u8>, BitIndexEntry>, p: Seq<u8>) -> bool {
    &&& !i1.contains_key(index_key(p, MergeStage::Base))
    &&& !i1.contains_key(index_key(p, MergeStage::Ours))
    &&& !i1.contains_key(index_key(p, MergeStage::Theirs))
}

/// The entry of stage `Normal` of `p` has the id and mode of `e`.
pub open spec fn entry_staged(i1: Map<Seq<u8>, BitIndexEntry>, p: Seq<u8>, e: TreeEntry) -> bool {
    let k = index_key(p, MergeStage::Normal);
    &&& i1.contains_key(k)
    &&& i1[k].path@ == p
    &&& i1[k].oid@ == e.oid@
    &&& i1[k].mode == e.mode
    &&& i1[k].spec_stage() == MergeStage::Normal
}

/// The file at `p` holds the blob of `e` with its mode, and `e` is the only index entry of `p`.
pub open spec fn path_written(
    odb: Map<Seq<u8>, BitObjKind>,
    w1: Map<Seq<u8>, WorktreeFile>,
    i1: Map<Seq<u8>, BitIndexEntry>,
    p: Seq<u8>,
    e: TreeEntry,
) -> bool {
    &&& file_written(odb, w1, p, e)
    &&& entry_staged(i1, p, e)
    &&& conflicts_cleared(i1, p)
}

/// Some file of `creates` after the position `from` collides with an index entry at `p`.
pub open spec fn collides_after(creates: Seq<TreeEntry>, p: Seq<u8>, from: int) -> bool {
    exists|k: int| 0 <= k && from < k < creates.len() && crate::index::collide_paths(p, (#[trigger] creates[k]).path@)
}

/// What deleting the files `removes` and then writing the files `creates` leaves at `p`: the
/// last file written there, else nothing where it was deleted, else what was there; staging
/// a file takes out the entries (of stage `Normal`) that collide with it.
pub open spec fn path_applied(
    removes: Seq<Vec<u8>>,
    creates: Seq<TreeEntry>,
    odb: Map<Seq<u8>, BitObjKind>,
    w0: Map<Seq<u8>, WorktreeFile>,
    i0: Map<Seq<u8>, BitIndexEntry>,
    w1: Map<Seq<u8>, WorktreeFile>,
    i1: Map<Seq<u8>, BitIndexEntry>,
    p: Seq<u8>,
) -> bool {
    let n = index_key(p, MergeStage::Normal);
    if last_at(creates, p) >= 0 {
        let j = last_at(creates, p);
        &&& file_written(odb, w1, p, creates[j])
        &&& conflicts_cleared(i1, p)
        &&& if collides_after(creates, p, j) {
            !i1.contains_key(n)
        } else {
            entry_staged(i1, p, creates[j])
        }
    } else if listed(removes, p) {
        path_removed(w1, i1, p)
    } else {
        &&& (w1.contains_key(p) <==> w0.contains_key(p))
        &&& w0.contains_key(p) ==> w1[p] == w0[p]
        &&& forall|s: MergeStage| s != MergeStage::Normal ==> (#[trigger] i1.contains_key(index_key(p, s)) <==> i0.contains_key(
            index_key(p, s)))
        &&& (i1.contains_key(n) <==> i0.contains_key(n) && !collides_after(creates, p, -1))
        &&& forall|s: MergeStage| #[trigger] i1.contains_key(index_key(p, s)) ==> i1[index_key(p, s)] == i0[index_key(p, s)]
    }
}

proof fn lemma_last_at(creates: Seq<TreeEntry>, p: Seq<u8>)
    ensures
        -1 <= last_at(creates, p) < creates.len(),
        last_at(creates, p) >= 0 ==> creates[last_at(creates, p)].path@ == p,
        last_at(creates, p) < 0 ==> forall|j: int| 0 <= j < creates.len() ==> (#[trigger] creates[j]).path@ != p,
    decreases creates.len(),
{
    if creates.len() > 0 {
        lemma_last_at(creates.drop_last(), p);
        if creates.last().path@ != p {
            assert forall|j: int| 0 <= j < creates.len() - 1 implies creates[j] == creates.drop_last()[j] by {}
        }
    }
}

/// What a checkout that went through leaves at `p`: the file of the target, written and
/// staged, where the action is to write; nothing where it is to delete; what was there
/// before otherwise.
pub open spec fn path_checked_out(
    b: Map<Seq<u8>, TreeEntry>,
    t: Map<Seq<u8>, TreeEntry>,
    odb: Map<Seq<u8>, BitObjKind>,
    w0: Map<Seq<u8>, WorktreeFile>,
    i0: Map<Seq<u8>, BitIndexEntry>,
    forced: bool,
    w1: Map<Seq<u8>, WorktreeFile>,
    i1: Map<Seq<u8>, BitIndexEntry>,
    p: Seq<u8>,
) -> bool {
    let n = index_key(p, MergeStage::Normal);
    let wc = writes_collide(b, t, w0, i0, forced, p);
    if in_union(b, t, w0, p) && action(b, t, w0, i0, forced, p) == CheckoutAction::Write {
        &&& file_written(odb, w1, p, t[p])
        &&& conflicts_cleared(i1, p)
        &&& !wc ==> entry_staged(i1, p, t[p])
        &&& i1.contains_key(n) ==> entry_staged(i1, p, t[p])
    } else if in_union(b, t, w0, p) && action(b, t, w0, i0, forced, p) == CheckoutAction::Remove {
        path_removed(w1, i1, p)
    } else {
        &&& (w1.contains_key(p) <==> w0.contains_key(p))
        &&& w0.contains_key(p) ==> w1[p] == w0[p]
        &&& forall|s: MergeStage| s != MergeStage::Normal ==> (#[trigger] i1.contains_key(index_key(p, s)) <==> i0.contains_key(
            index_key(p, s)))
        &&& (i1.contains_key(n) <==> i0.contains_key(n) && !wc)
        &&& forall|s: MergeStage| #[trigger] i1.contains_key(index_key(p, s)) ==> i1[index_key(p, s)] == i0[index_key(p, s)]
    }
}

/// Some file the checkout writes collides with an index entry at `p` (lies under it, or at a
/// directory above it): staging it takes out the entry of stage `Normal` of `p`.
pub open spec fn writes_collide(
    b: Map<Seq<u8>, TreeEntry>,
    t: Map<Seq<u8>, TreeEntry>,
    w: Map<Seq<u8>, WorktreeFile>,
    i: Map<Seq<u8>, BitIndexEntry>,
    forced: bool,
    p: Seq<u8>,
) -> bool {
    exists|q: Seq<u8>| in_union(b, t, w, q) && #[trigger] action(b, t, w, i, forced, q) == CheckoutAction::Write
        && crate::index::collide_paths(p, q)
}

/// A checkout of the reference `x` goes through: it names a commit, and the checkout of that
/// commit's tree goes through.
pub open spec fn ref_checkout_goes_through(repo: BitRepo, x: RefView, forced: bool) -> bool {
    let c = crate::repo::resolve(repo.spec_refs(), repo.spec_head(), x);
    &&& crate::repo::resolves(repo.spec_refs(), repo.spec_head(), x)
    &&& repo.spec_odb().contains_key(c) && repo.spec_odb()[c] is Commit
    &&& checkout_goes_through(repo, repo.spec_odb()[c]->Commit_0.tree@, forced)
}

/// A checkout of the reference `x` stops on a conflict: it names a commit, and the checkout of
/// that commit's tree is blocked.
pub open spec fn ref_checkout_blocked(repo: BitRepo, x: RefView, forced: bool) -> bool {
    let c = crate::repo::resolve(repo.spec_refs(), repo.spec_head(), x);
    &&& crate::repo::resolves(repo.spec_refs(), repo.spec_head(), x)
    &&& repo.spec_odb().contains_key(c) && repo.spec_odb()[c] is Commit
    &&& checkout_blocked(repo, repo.spec_odb()[c]->Commit_0.tree@, forced)
}

/// A checkout of the reference `x` took `before` to `after`: `x` names a commit, the
/// working tree and index are checked out to its tree, and HEAD points at `x` (at the commit,
/// for a remote branch).
pub open spec fn checkout_outcome(before: BitRepo, after: BitRepo, x: RefView, forced: bool) -> bool {
    let c = crate::repo::resolve(before.spec_refs(), before.spec_head(), x);
    &&& x != RefView::Symbolic(crate::repo::head_name())
    &&& crate::repo::resolves(before.spec_refs(), before.spec_head(), x)
    &&& before.spec_odb().contains_key(c) && before.spec_odb()[c] is Commit
    &&& checked_out(before, before.spec_odb()[c]->Commit_0.tree@, forced, after.spec_worktree(), after.spec_index().spec_entries())
    &&& after.spec_head() == (if x matches RefView::Symbolic(n) && crate::bytes::is_prefix(crate::repo::remotes_prefix(), n) {
        RefView::Direct(c)
    } else {
        x
    })
}

/// A checkout from the tree of HEAD of `repo` to the tree `tree` went through and left the
/// working tree `w1` and the index entries `i1`: every path is as `path_checked_out` says,
/// for the two trees as `flatten_tree` reads them.
pub open spec fn checked_out(
    repo: BitRepo,
    tree: Seq<u8>,
    forced: bool,
    w1: Map<Seq<u8>, WorktreeFile>,
    i1: Map<Seq<u8>, BitIndexEntry>,
) -> bool {
    let odb = repo.spec_odb();
    let fuel = repo.spec_odb_len();
    exists|b: Map<Seq<u8>, TreeEntry>, t: Map<Seq<u8>, TreeEntry>|
        #![trigger crate::tree::flat_view(b), crate::tree::flat_view(t)]
        {
            &&& crate::diff::head_tree_spec(repo) is Some
            &&& crate::tree::flatten_spec(odb, crate::diff::head_tree_spec(repo)->Some_0, fuel) == Some(crate::tree::flat_view(b))
            &&& crate::tree::flatten_spec(odb, tree, fuel) == Some(crate::tree::flat_view(t))
            &&& forall|p: Seq<u8>| in_union(b, t, repo.spec_worktree(), p) ==> #[trigger] action(b, t, repo.spec_worktree(),
                repo.spec_index().spec_entries(), forced, p) != CheckoutAction::Conflict
            &&& forall|p: Seq<u8>| #[trigger] path_checked_out(b, t, odb, repo.spec_worktree(), repo.spec_index().spec_entries(),
                forced, w1, i1, p)
        }
}

/// A checkout with the default options is a safe one: it forces nothing, so it goes
/// through, is blocked, and leaves the working tree and index exactly as a checkout that
/// is not forced does (the contract of `checkout_tree`).
pub proof fn law_default_checkout_is_safe(repo: BitRepo, tree: Seq<u8>, opts: CheckoutOpts, w1: Map<Seq<u8>, WorktreeFile>, i1: Map<
    Seq<u8>, BitIndexEntry>, c: CheckoutConflicts)
    requires
        opts.strategy == CheckoutStrategy::Safe,
    ensures
        checkout_goes_through(repo, tree, strategy_level(opts.strategy) >= 2) == checkout_goes_through(repo, tree, false),
        checkout_blocked(repo, tree, strategy_level(opts.strategy) >= 2) == checkout_blocked(repo, tree, false),
        checked_out(repo, tree, strategy_level(opts.strategy) >= 2, w1, i1) == checked_out(repo, tree, false, w1, i1),
        stopped_on(repo, tree, strategy_level(opts.strategy) >= 2, c) == stopped_on(repo, tree, false, c),
{
}

/// The actions of a checkout depend on the flattened trees only through the views of their
/// entries.
pub proof fn lemma_action_views(
    b1: Map<Seq<u8>, TreeEntry>,
    t1: Map<Seq<u8>, TreeEntry>,
    b2: Map<Seq<u8>, TreeEntry>,
    t2: Map<Seq<u8>, TreeEntry>,
    w: Map<Seq<u8>, WorktreeFile>,
    i: Map<Seq<u8>, BitIndexEntry>,
    forced: bool,
)
    requires
        crate::tree::flat_view(b1) == crate::tree::flat_view(b2),
        crate::tree::flat_view(t1) == crate::tree::flat_view(t2),
    ensures
        forall|p: Seq<u8>| #[trigger] action(b1, t1, w, i, forced, p) == action(b2, t2, w, i, forced, p),
        forall|p: Seq<u8>| #[trigger] in_union(b1, t1, w, p) == in_union(b2, t2, w, p),
        forall|p: Seq<u8>| #[trigger] blob_at(t1, p) ==> blob_at(t2, p) && t1[p].oid@ == t2[p].oid@,
{
    assert forall|p: Seq<u8>| {
        &&& #[trigger] decide(b1, t1, w, i, forced, p) == decide(b2, t2, w, i, forced, p)
        &&& blob_at(b1, p) == blob_at(b2, p)
        &&& blob_at(t1, p) == blob_at(t2, p)
        &&& (blob_at(t1, p) ==> t1[p].oid@ == t2[p].oid@)
    } by {
        assert(b1.contains_key(p) == crate::tree::flat_view(b1).contains_key(p));
        assert(b2.contains_key(p) == crate::tree::flat_view(b2).contains_key(p));
        assert(t1.contains_key(p) == crate::tree::flat_view(t1).contains_key(p));
        assert(t2.contains_key(p) == crate::tree::flat_view(t2).contains_key(p));
        if b1.contains_key(p) {
            assert(crate::tree::flat_view(b1)[p] == b1[p]@);
            assert(crate::tree::flat_view(b2)[p] == b2[p]@);
        }
        if t1.contains_key(p) {
            assert(crate::tree::flat_view(t1)[p] == t1[p]@);
            assert(crate::tree::flat_view(t2)[p] == t2[p]@);
        }
    }
    assert forall|d: Seq<u8>| #[trigger] writes_under(b1, t1, w, i, forced, d) == writes_under(b2, t2, w, i, forced, d) by {
        if writes_under(b1, t1, w, i, forced, d) {
            let p = choose|p: Seq<u8>| path_under(d, p) && blob_at(t1, p) && #[trigger] decide(b1, t1, w, i, forced, p)
                == CheckoutAction::Write;
            assert(decide(b2, t2, w, i, forced, p) == CheckoutAction::Write);
        }
        if writes_under(b2, t2, w, i, forced, d) {
            let p = choose|p: Seq<u8>| path_under(d, p) && blob_at(t2, p) && #[trigger] decide(b2, t2, w, i, forced, p)
                == CheckoutAction::Write;
            assert(decide(b1, t1, w, i, forced, p) == CheckoutAction::Write);
        }
    }
    assert forall|p: Seq<u8>| #[trigger] action(b1, t1, w, i, forced, p) == action(b2, t2, w, i, forced, p) by {
        assert(decide(b1, t1, w, i, forced, p) == decide(b2, t2, w, i, forced, p));
        assert(writes_under(b1, t1, w, i, forced, p) == writes_under(b2, t2, w, i, forced, p));
    }
    assert forall|p: Seq<u8>| #[trigger] in_union(b1, t1, w, p) == in_union(b2, t2, w, p) by {
        assert(decide(b1, t1, w, i, forced, p) == decide(b2, t2, w, i, forced, p));
    }
    assert forall|p: Seq<u8>| #[trigger] blob_at(t1, p) implies blob_at(t2, p) && t1[p].oid@ == t2[p].oid@ by {
        assert(decide(b1, t1, w, i, forced, p) == decide(b2, t2, w, i, forced, p));
    }
}

/// A checkout of `tree` from HEAD goes through: both trees flatten, no path's action is a
/// conflict, and every blob the checkout writes is stored.
pub open spec fn checkout_goes_through(repo: BitRepo, tree: Seq<u8>, forced: bool) -> bool {
    let odb = repo.spec_odb();
    let fuel = repo.spec_odb_len();
    let w = repo.spec_worktree();
    let i = repo.spec_index().spec_entries();
    exists|b: Map<Seq<u8>, TreeEntry>, t: Map<Seq<u8>, TreeEntry>|
        #![trigger crate::tree::flat_view(b), crate::tree::flat_view(t)]
        {
            &&& crate::diff::head_tree_spec(repo) is Some
            &&& crate::tree::flatten_spec(odb, crate::diff::head_tree_spec(repo)->Some_0, fuel) == Some(crate::tree::flat_view(b))
            &&& crate::tree::flatten_spec(odb, tree, fuel) == Some(crate::tree::flat_view(t))
            &&& forall|p: Seq<u8>| in_union(b, t, w, p) ==> #[trigger] action(b, t, w, i, forced, p) != CheckoutAction::Conflict
            &&& forall|p: Seq<u8>| in_union(b, t, w, p) && #[trigger] action(b, t, w, i, forced, p) == CheckoutAction::Write
                ==> crate::merge::blob_stored(odb, t[p].oid@)
        }
}

/// A checkout of `tree` from HEAD stops on a conflict: both trees flatten and some path's
/// action is a conflict.
pub open spec fn checkout_blocked(repo: BitRepo, tree: Seq<u8>, forced: bool) -> bool {
    let odb = repo.spec_odb();
    let fuel = repo.spec_odb_len();
    let w = repo.spec_worktree();
    let i = repo.spec_index().spec_entries();
    exists|b: Map<Seq<u8>, TreeEntry>, t: Map<Seq<u8>, TreeEntry>|
        #![trigger crate::tree::flat_view(b), crate::tree::flat_view(t)]
        {
            &&& crate::diff::head_tree_spec(repo) is Some
            &&& crate::tree::flatten_spec(odb, crate::diff::head_tree_spec(repo)->Some_0, fuel) == Some(crate::tree::flat_view(b))
            &&& crate::tree::flatten_spec(odb, tree, fuel) == Some(crate::tree::flat_view(t))
            &&& exists|p: Seq<u8>| in_union(b, t, w, p) && #[trigger] action(b, t, w, i, forced, p) == CheckoutAction::Conflict
        }
}

/// A checkout from the tree of HEAD of `repo` to the tree `tree` stops on the conflicts `c`:
/// the paths whose action is a conflict, each listed.
pub open spec fn stopped_on(repo: BitRepo, tree: Seq<u8>, forced: bool, c: CheckoutConflicts) -> bool {
    let odb = repo.spec_odb();
    let fuel = repo.spec_odb_len();
    let w = repo.spec_worktree();
    let i = repo.spec_index().spec_entries();
    exists|b: Map<Seq<u8>, TreeEntry>, t: Map<Seq<u8>, TreeEntry>|
        #![trigger crate::tree::flat_view(b), crate::tree::flat_view(t)]
        {
            &&& crate::diff::head_tree_spec(repo) is Some
            &&& crate::tree::flatten_spec(odb, crate::diff::head_tree_spec(repo)->Some_0, fuel) == Some(crate::tree::flat_view(b))
            &&& crate::tree::flatten_spec(odb, tree, fuel) == Some(crate::tree::flat_view(t))
            &&& c.worktree@.len() > 0
            &&& forall|j: int| 0 <= j < c.worktree@.len() ==> in_union(b, t, w, #[trigger] c.worktree@[j]@)
                && action(b, t, w, i, forced, c.worktree@[j]@) == CheckoutAction::Conflict
            &&& forall|p: Seq<u8>| in_union(b, t, w, p) && action(b, t, w, i, forced, p) == CheckoutAction::Conflict
                ==> #[trigger] listed(c.worktree@, p)
        }
}

/// A migration as `generate` makes it, applied, leaves each path as `path_checked_out` says.
proof fn lemma_applied_is_checked_out(
    b: Map<Seq<u8>, TreeEntry>,
    t: Map<Seq<u8>, TreeEntry>,
    odb: Map<Seq<u8>, BitObjKind>,
    w0: Map<Seq<u8>, WorktreeFile>,
    i0: Map<Seq<u8>, BitIndexEntry>,
    f: bool,
    m: Migration,
    w1: Map<Seq<u8>, WorktreeFile>,
    i1: Map<Seq<u8>, BitIndexEntry>,
    p: Seq<u8>,
)
    requires
        forall|j: int| 0 <= j < m.removes@.len() ==> in_union(b, t, w0, #[trigger] m.removes@[j]@)
            && action(b, t, w0, i0, f, m.removes@[j]@) == CheckoutAction::Remove,
        forall|q: Seq<u8>| in_union(b, t, w0, q) && action(b, t, w0, i0, f, q) == CheckoutAction::Remove
            ==> exists|j: int| 0 <= j < m.removes@.len() && #[trigger] m.removes@[j]@ == q,
        forall|j: int| 0 <= j < m.creates@.len() ==> blob_at(t, #[trigger] m.creates@[j].path@)
            && m.creates@[j]@ == t[m.creates@[j].path@]@ && action(b, t, w0, i0, f, m.creates@[j].path@) == CheckoutAction::Write,
        forall|q: Seq<u8>| in_union(b, t, w0, q) && action(b, t, w0, i0, f, q) == CheckoutAction::Write
            ==> exists|j: int| 0 <= j < m.creates@.len() && #[trigger] m.creates@[j].path@ == q,
        path_applied(m.removes@, m.creates@, odb, w0, i0, w1, i1, p),
    ensures
        path_checked_out(b, t, odb, w0, i0, f, w1, i1, p),
{
    lemma_last_at(m.creates@, p);
    let a = action(b, t, w0, i0, f, p);
    let wc = writes_collide(b, t, w0, i0, f, p);
    assert forall|from: int| #[trigger] collides_after(m.creates@, p, from) implies wc by {
        let k = choose|k: int| 0 <= k && from < k < m.creates@.len() && crate::index::collide_paths(p, (#[trigger] m.creates@[k]).path@);
        assert(blob_at(t, m.creates@[k].path@));
        assert(action(b, t, w0, i0, f, m.creates@[k].path@) == CheckoutAction::Write);
    }
    if wc {
        let q = choose|q: Seq<u8>| in_union(b, t, w0, q) && #[trigger] action(b, t, w0, i0, f, q) == CheckoutAction::Write
            && crate::index::collide_paths(p, q);
        let j = choose|j: int| 0 <= j < m.creates@.len() && #[trigger] m.creates@[j].path@ == q;
        assert(collides_after(m.creates@, p, -1));
    }
    if in_union(b, t, w0, p) && a == CheckoutAction::Write {
        let j = choose|j: int| 0 <= j < m.creates@.len() && #[trigger] m.creates@[j].path@ == p;
        assert(m.creates@[j].path@ == p);
        let l = last_at(m.creates@, p);
        assert(m.creates@[l]@ == t[p]@);
    } else {
        if last_at(m.creates@, p) >= 0 {
            let l = last_at(m.creates@, p);
            assert(blob_at(t, m.creates@[l].path@));
        }
        if in_union(b, t, w0, p) && a == CheckoutAction::Remove {
            let j = choose|j: int| 0 <= j < m.removes@.len() && #[trigger] m.removes@[j]@ == p;
        } else if listed(m.removes@, p) {
            let j = choose|j: int| 0 <= j < m.removes@.len() && #[trigger] m.removes@[j]@ == p;
            assert(in_union(b, t, w0, m.removes@[j]@));
        }
    }
}

/// A forced checkout that went through leaves exactly the files of the target in the working
/// tree: each one written from the target and staged, or already there, matching its index
/// entry, with the same entry in the baseline as in the target.
pub proof fn law_forced_checkout_leaves_target_files(
    b: Map<Seq<u8>, TreeEntry>,
    t: Map<Seq<u8>, TreeEntry>,
    odb: Map<Seq<u8>, BitObjKind>,
    w0: Map<Seq<u8>, WorktreeFile>,
    i0: Map<Seq<u8>, BitIndexEntry>,
    w1: Map<Seq<u8>, WorktreeFile>,
    i1: Map<Seq<u8>, BitIndexEntry>,
    p: Seq<u8>,
)
    requires
        files_hold_nothing(t),
        path_checked_out(b, t, odb, w0, i0, true, w1, i1, p),
    ensures
        w1.contains_key(p) <==> blob_at(t, p),
        blob_at(t, p) ==> path_written(odb, w1, i1, p, t[p]) || (path_unchanged(w0, i0, w1, i1, p) && w0.contains_key(p)
            && !wt_modified(w0, i0, p) && b.contains_key(p) && b[p].oid@ == t[p].oid@ && b[p].mode == t[p].mode),
{
    law_forced_checkout_has_no_conflicts(b, t, w0, i0, p);
    if blob_at(t, p) && writes_collide(b, t, w0, i0, true, p) {
        let q = choose|q: Seq<u8>| in_union(b, t, w0, q) && #[trigger] action(b, t, w0, i0, true, q) == CheckoutAction::Write
            && crate::index::collide_paths(p, q);
        assert(decide(b, t, w0, i0, true, q) == CheckoutAction::Write);
        assert(blob_at(t, q));
        assert(t.contains_key(q) && t.contains_key(p));
        assert(!path_under(p, q) && !path_under(q, p));
        assert(false);
    }
    if blob_at(t, p) && action(b, t, w0, i0, true, p) != CheckoutAction::Write {
        assert(!writes_collide(b, t, w0, i0, true, p));
        assert(action(b, t, w0, i0, true, p) != CheckoutAction::Remove);
        assert forall|s: MergeStage| (#[trigger] i1.contains_key(index_key(p, s)) <==> i0.contains_key(index_key(p, s))) by {
            match s {
                MergeStage::Normal => {},
                _ => {},
            }
        }
        assert forall|s: MergeStage| #[trigger] i0.contains_key(index_key(p, s)) implies i1[index_key(p, s)] == i0[index_key(p, s)] by {
            assert(i1.contains_key(index_key(p, s)));
        }
        assert(path_unchanged(w0, i0, w1, i1, p));
    }
}

impl BitRepo {
    /// Applies a migration: deletes the files (and index entries) to delete, then writes
    /// and stages the files of the target. Fails when a blob to write is not stored.
    pub fn apply_migration(&mut self, migration: &Migration) -> (r: BitResult<()>)
        requires
            old(self).wf(),
        ensures
            final(self).wf(),
            r is Ok ==> forall|j: int| 0 <= j < migration.creates@.len() ==> final(self).spec_worktree().contains_key(
                #[trigger] migration.creates@[j].path@),
            r is Ok ==> forall|j: int| 0 <= j < migration.removes@.len() ==> !final(self).spec_worktree().contains_key(
                #[trigger] migration.removes@[j]@) || exists|c: int| 0 <= c < migration.creates@.len()
                && migration.creates@[c].path@ == migration.removes@[j]@,
            r matches Err(e) ==> !(e is CheckoutConflict) && !(e is MergeConflict),
            r is Ok ==> forall|p: Seq<u8>| #[trigger] path_applied(migration.removes@, migration.creates@, old(self).spec_odb(),
                old(self).spec_worktree(), old(self).spec_index().spec_entries(), final(self).spec_worktree(),
                final(self).spec_index().spec_entries(), p),
            final(self).spec_odb() == old(self).spec_odb(),
            final(self).spec_refs() == old(self).spec_refs(),
            final(self).spec_head() == old(self).spec_head(),
            r is Ok <==> forall|j: int| 0 <= j < migration.creates@.len() ==> crate::merge::blob_stored(old(self).spec_odb(),
                (#[trigger] migration.creates@[j]).oid@),
            r is Err ==> *final(self) == *old(self),
    {
        let ghost odb = self.spec_odb();
        let ghost w0 = self.spec_worktree();
        let ghost i0 = self.spec_index().spec_entries();
        let mut k: usize = 0;
        while k < migration.creates.len()
            invariant
                0 <= k <= migration.creates@.len(),
                *self == *old(self),
                self.wf(),
                odb == self.spec_odb(),
                w0 == self.spec_worktree(),
                i0 == self.spec_index().spec_entries(),
                forall|j: int| 0 <= j < k ==> crate::merge::blob_stored(odb, (#[trigger] migration.creates@[j]).oid@),
            decreases migration.creates@.len() - k,
        {
            match self.read_blob(&migration.creates[k].oid) {
                Ok(_) => {},
                Err(e) => {
                    return Err(e);
                },
            }
            k = k + 1;
        }
        let mut i: usize = 0;
        while i < migration.removes.len()
            invariant
                0 <= i <= migration.removes@.len(),
                self.wf(),
                self.spec_odb() == odb,
                odb == old(self).spec_odb(),
                self.spec_refs() == old(self).spec_refs(),
                self.spec_head() == old(self).spec_head(),
                forall|j: int| 0 <= j < i ==> !self.spec_worktree().contains_key(#[trigger] migration.removes@[j]@),
                forall|p: Seq<u8>| #[trigger] path_applied(migration.removes@.take(i as int), Seq::<TreeEntry>::empty(), odb, w0, i0,
                    self.spec_worktree(), self.spec_index().spec_entries(), p),
                forall|j: int| 0 <= j < migration.creates@.len() ==> crate::merge::blob_stored(odb, (#[trigger] migration.creates@[j]).oid@),
            decreases migration.removes@.len() - i,
        {
            let p = &migration.removes[i];
            let ghost w1 = self.spec_worktree();
            let ghost i1 = self.spec_index().spec_entries();
            self.rm(p.as_slice());
            self.index_remove_all_stages(p.as_slice());
            proof {
                let rs = migration.removes@.take(i as int);
                let rs1 = migration.removes@.take(i + 1);
                assert forall|q: Seq<u8>| #[trigger] path_applied(rs1, Seq::<TreeEntry>::empty(), odb, w0, i0,
                    self.spec_worktree(), self.spec_index().spec_entries(), q) by {
                    assert(last_at(Seq::<TreeEntry>::empty(), q) == -1);
                    assert(path_applied(rs, Seq::<TreeEntry>::empty(), odb, w0, i0, w1, i1, q));
                    assert forall|s: MergeStage, t: MergeStage| index_key(q, s) == index_key(p@, t) ==> q == p@ by {
                        crate::index::lemma_index_key_injective(q, s, p@, t);
                    }
                    if q == p@ {
                        assert(rs1[i as int]@ == q);
                        assert forall|s: MergeStage| !(#[trigger] self.spec_index().spec_entries().contains_key(index_key(q, s))) by {
                            match s {
                                MergeStage::Normal => {},
                                MergeStage::Base => {},
                                MergeStage::Ours => {},
                                MergeStage::Theirs => {},
                            }
                        }
                    } else {
                        if listed(rs1, q) {
                            let j = choose|j: int| 0 <= j < rs1.len() && #[trigger] rs1[j]@ == q;
                            assert(rs[j]@ == q);
                        }
                        if listed(rs, q) {
                            let j = choose|j: int| 0 <= j < rs.len() && #[trigger] rs[j]@ == q;
                            assert(rs1[j]@ == q);
                        }
                    }
                }
            }
            i = i + 1;
        }
        proof {
            assert(migration.removes@.take(migration.removes@.len() as int) =~= migration.removes@);
            assert(migration.creates@.take(0) =~= Seq::<TreeEntry>::empty());
        }
        let mut i: usize = 0;
        while i < migration.creates.len()
            invariant
                0 <= i <= migration.creates@.len(),
                self.wf(),
                self.spec_odb() == odb,
                odb == old(self).spec_odb(),
                self.spec_refs() == old(self).spec_refs(),
                self.spec_head() == old(self).spec_head(),
                forall|j: int| 0 <= j < i ==> self.spec_worktree().contains_key(#[trigger] migration.creates@[j].path@),
                forall|j: int| 0 <= j < migration.removes@.len() ==> !self.spec_worktree().contains_key(
                    #[trigger] migration.removes@[j]@) || exists|c: int| 0 <= c < i && migration.creates@[c].path@ == migration.removes@[j]@,
                forall|p: Seq<u8>| #[trigger] path_applied(migration.removes@, migration.creates@.take(i as int), odb, w0, i0,
                    self.spec_worktree(), self.spec_index().spec_entries(), p),
                forall|j: int| 0 <= j < migration.creates@.len() ==> crate::merge::blob_stored(odb, (#[trigger] migration.creates@[j]).oid@),
            decreases migration.creates@.len() - i,
        {
            let e = &migration.creates[i];
            let ghost w1 = self.spec_worktree();
            let ghost i1 = self.spec_index().spec_entries();
            proof {
                assert(crate::merge::blob_stored(odb, migration.creates@[i as int].oid@));
            }
            let data = copy_bytes(self.read_blob(&e.oid)?);
            self.write_file(copy_bytes(&e.path), WorktreeFile { mode: e.mode, data });
            let entry = BitIndexEntry::from_tree_entry(e);
            let ghost entry_g = entry;
            let ghost idx1 = self.spec_index();
            self.index_add_entry(entry);
            proof {
                assert forall|j: int| 0 <= j < migration.removes@.len() implies !self.spec_worktree().contains_key(
                    #[trigger] migration.removes@[j]@) || exists|c: int| 0 <= c < i + 1 && migration.creates@[c].path@ == migration.removes@[j]@ by {
                    if self.spec_worktree().contains_key(migration.removes@[j]@) && migration.removes@[j]@ != e.path@ {
                        let c = choose|c: int| 0 <= c < i && migration.creates@[c].path@ == migration.removes@[j]@;
                    }
                }
                let cs = migration.creates@.take(i as int);
                let cs1 = migration.creates@.take(i + 1);
                let c = e.path@;
                assert(cs1.drop_last() =~= cs);
                assert(cs1.last() == *e);
                assert(blob_bytes(odb, e.oid@) == data@);
                assert forall|q: Seq<u8>, from: int| #![trigger collides_after(cs1, q, from)] from < i implies (collides_after(cs1, q, from)
                    <==> collides_after(cs, q, from) || crate::index::collide_paths(q, c)) by {
                    if collides_after(cs1, q, from) {
                        let k = choose|k: int| 0 <= k && from < k < cs1.len() && crate::index::collide_paths(q, (#[trigger] cs1[k]).path@);
                        if k < i {
                            assert(cs[k] == cs1[k]);
                        }
                    }
                    if collides_after(cs, q, from) {
                        let k = choose|k: int| 0 <= k && from < k < cs.len() && crate::index::collide_paths(q, (#[trigger] cs[k]).path@);
                        assert(cs[k] == cs1[k]);
                    }
                    if crate::index::collide_paths(q, c) {
                        assert(cs1[i as int].path@ == c);
                    }
                }
                assert forall|q: Seq<u8>| #[trigger] path_applied(migration.removes@, cs1, odb, w0, i0,
                    self.spec_worktree(), self.spec_index().spec_entries(), q) by {
                    assert(path_applied(migration.removes@, cs, odb, w0, i0, w1, i1, q));
                    if q == c {
                        crate::index::lemma_index_key_injective(q, MergeStage::Normal, q, MergeStage::Base);
                        crate::index::lemma_index_key_injective(q, MergeStage::Normal, q, MergeStage::Ours);
                        crate::index::lemma_index_key_injective(q, MergeStage::Normal, q, MergeStage::Theirs);
                        assert(last_at(cs1, q) == i);
                        assert(!collides_after(cs1, q, i as int));
                    } else {
                        assert(last_at(cs1, q) == last_at(cs, q));
                        lemma_last_at(cs, q);
                        assert forall|s: MergeStage| (#[trigger] self.spec_index().spec_entries().contains_key(index_key(q, s))
                            <==> (i1.contains_key(index_key(q, s)) && !(s == MergeStage::Normal && crate::index::collide_paths(q, c))))
                            && (self.spec_index().spec_entries().contains_key(index_key(q, s)) ==> self.spec_index().spec_entries()[index_key(q, s)]
                            == i1[index_key(q, s)]) by {
                            crate::repo::lemma_index_add_other(idx1, c, entry_g, q, s);
                        }
                        if last_at(cs, q) >= 0 {
                            assert(cs1[last_at(cs, q)] == cs[last_at(cs, q)]);
                            assert(self.spec_index().spec_entries().contains_key(index_key(q, MergeStage::Base)) ==> i1.contains_key(index_key(q, MergeStage::Base)));
                            assert(self.spec_index().spec_entries().contains_key(index_key(q, MergeStage::Ours)) ==> i1.contains_key(index_key(q, MergeStage::Ours)));
                            assert(self.spec_index().spec_entries().contains_key(index_key(q, MergeStage::Theirs)) ==> i1.contains_key(index_key(q, MergeStage::Theirs)));
                        }
                    }
                }
            }
            i = i + 1;
        }
        proof {
            assert(migration.creates@.take(migration.creates@.len() as int) =~= migration.creates@);
        }
        Ok(())
    }

    /// Moves the working tree and the index from the tree of HEAD to the tree `tree`.
    /// Fails with the conflicting paths, changing nothing, when local changes are in the
    /// way (unless forced).
    pub fn checkout_tree_with_opts(&mut self, tree: &Oid, opts: CheckoutOpts) -> (r: BitResult<()>)
        requires
            old(self).wf(),
        ensures
            final(self).wf(),
            r matches Err(e) && e is CheckoutConflict ==> final(self).spec_worktree() == old(self).spec_worktree()
                && final(self).spec_index() == old(self).spec_index(),
            r is Ok ==> checked_out(*old(self), tree@, strategy_level(opts.strategy) >= 2, final(self).spec_worktree(),
                final(self).spec_index().spec_entries()),
            r matches Err(e) ==> !(e is MergeConflict),
            r matches Err(BitError::CheckoutConflict(c)) ==> stopped_on(*old(self), tree@, strategy_level(opts.strategy) >= 2, c),
            final(self).spec_odb() == old(self).spec_odb(),
            final(self).spec_refs() == old(self).spec_refs(),
            final(self).spec_head() == old(self).spec_head(),
            r is Ok <==> checkout_goes_through(*old(self), tree@, strategy_level(opts.strategy) >= 2),
            (r matches Err(e) && e is CheckoutConflict) <==> checkout_blocked(*old(self), tree@, strategy_level(opts.strategy) >= 2),
            r is Err ==> *final(self) == *old(self),
    {
        let ghost repo0 = *self;
        let head_tree = self.head_tree()?;
        let baseline = self.flatten_tree(&head_tree)?;
        let target = self.flatten_tree(tree)?;
        match Migration::generate(self, &baseline, &target, opts) {
            Ok(m) => {
                let r = self.apply_migration(&m);
                proof {
                    let b = baseline.spec_map();
                    let t = target.spec_map();
                    let f = strategy_level(opts.strategy) >= 2;
                    let w = repo0.spec_worktree();
                    let ix = repo0.spec_index().spec_entries();
                    let odb = repo0.spec_odb();
                    assert forall|b2: Map<Seq<u8>, TreeEntry>, t2: Map<Seq<u8>, TreeEntry>|
                        crate::tree::flat_view(b2) == crate::tree::flat_view(b) && crate::tree::flat_view(t2) == crate::tree::flat_view(t)
                        implies !(exists|p: Seq<u8>| in_union(b2, t2, w, p) && #[trigger] action(b2, t2, w, ix, f, p)
                        == CheckoutAction::Conflict) by {
                        lemma_action_views(b, t, b2, t2, w, ix, f);
                        assert forall|p: Seq<u8>| in_union(b2, t2, w, p) implies #[trigger] action(b2, t2, w, ix, f, p)
                            != CheckoutAction::Conflict by {
                            assert(action(b, t, w, ix, f, p) == action(b2, t2, w, ix, f, p));
                            assert(in_union(b, t, w, p) == in_union(b2, t2, w, p));
                        }
                    }
                    assert(!checkout_blocked(repo0, tree@, f));
                    let all_stored = forall|p: Seq<u8>| in_union(b, t, w, p) && #[trigger] action(b, t, w, ix, f, p)
                        == CheckoutAction::Write ==> crate::merge::blob_stored(odb, t[p].oid@);
                    if all_stored {
                        assert forall|j: int| 0 <= j < m.creates@.len() implies crate::merge::blob_stored(odb,
                            (#[trigger] m.creates@[j]).oid@) by {
                            let q = m.creates@[j].path@;
                            assert(action(b, t, w, ix, f, q) == CheckoutAction::Write);
                            assert(m.creates@[j]@ == t[q]@);
                        }
                        assert(checkout_goes_through(repo0, tree@, f));
                    } else {
                        let q = choose|p: Seq<u8>| !(in_union(b, t, w, p) && #[trigger] action(b, t, w, ix, f, p)
                            == CheckoutAction::Write ==> crate::merge::blob_stored(odb, t[p].oid@));
                        let j = choose|j: int| 0 <= j < m.creates@.len() && #[trigger] m.creates@[j].path@ == q;
                        assert(m.creates@[j]@ == t[q]@);
                        assert(!crate::merge::blob_stored(odb, m.creates@[j].oid@));
                        assert forall|b2: Map<Seq<u8>, TreeEntry>, t2: Map<Seq<u8>, TreeEntry>|
                            crate::tree::flat_view(b2) == crate::tree::flat_view(b) && crate::tree::flat_view(t2) == crate::tree::flat_view(t)
                            implies !(forall|p: Seq<u8>| in_union(b2, t2, w, p) && #[trigger] action(b2, t2, w, ix, f, p)
                            == CheckoutAction::Write ==> crate::merge::blob_stored(odb, t2[p].oid@)) by {
                            lemma_action_views(b, t, b2, t2, w, ix, f);
                            assert(in_union(b2, t2, w, q) && action(b2, t2, w, ix, f, q) == CheckoutAction::Write);
                        }
                        assert(!checkout_goes_through(repo0, tree@, f));
                    }
                    if r is Ok {
                        let b = baseline.spec_map();
                        let t = target.spec_map();
                        let f = strategy_level(opts.strategy) >= 2;
                        assert forall|p: Seq<u8>| #[trigger] path_checked_out(b, t, repo0.spec_odb(), repo0.spec_worktree(),
                            repo0.spec_index().spec_entries(), f, self.spec_worktree(), self.spec_index().spec_entries(), p) by {
                            assert(path_applied(m.removes@, m.creates@, repo0.spec_odb(), repo0.spec_worktree(),
                                repo0.spec_index().spec_entries(), self.spec_worktree(), self.spec_index().spec_entries(), p));
                            lemma_applied_is_checked_out(b, t, repo0.spec_odb(), repo0.spec_worktree(), repo0.spec_index().spec_entries(),
                                f, m, self.spec_worktree(), self.spec_index().spec_entries(), p);
                        }
                        assert(checked_out(repo0, tree@, f, self.spec_worktree(), self.spec_index().spec_entries()));
                    }
                }
                r
            },
            Err(c) => {
                proof {
                    let b = baseline.spec_map();
                    let t = target.spec_map();
                    let f = strategy_level(opts.strategy) >= 2;
                    assert forall|p: Seq<u8>| in_union(b, t, repo0.spec_worktree(), p) && action(b, t, repo0.spec_worktree(),
                        repo0.spec_index().spec_entries(), f, p) == CheckoutAction::Conflict implies #[trigger] listed(c.worktree@, p) by {
                        let j = choose|j: int| 0 <= j < c.worktree@.len() && #[trigger] c.worktree@[j]@ == p;
                    }
                    assert(stopped_on(repo0, tree@, f, c));
                    let w = repo0.spec_worktree();
                    let ix = repo0.spec_index().spec_entries();
                    let q = choose|p: Seq<u8>| !(in_union(b, t, w, p) ==> #[trigger] action(b, t, w, ix, f, p) != CheckoutAction::Conflict);
                    assert(in_union(b, t, w, q) && action(b, t, w, ix, f, q) == CheckoutAction::Conflict);
                    assert(checkout_blocked(repo0, tree@, f));
                    assert forall|b2: Map<Seq<u8>, TreeEntry>, t2: Map<Seq<u8>, TreeEntry>|
                        crate::tree::flat_view(b2) == crate::tree::flat_view(b) && crate::tree::flat_view(t2) == crate::tree::flat_view(t)
                        implies !(forall|p: Seq<u8>| in_union(b2, t2, w, p) ==> #[trigger] action(b2, t2, w, ix, f, p)
                        != CheckoutAction::Conflict) by {
                        lemma_action_views(b, t, b2, t2, w, ix, f);
                        assert(in_union(b2, t2, w, q) && action(b2, t2, w, ix, f, q) == CheckoutAction::Conflict);
                    }
                    assert(!checkout_goes_through(repo0, tree@, f));
                }
                Err(BitError::CheckoutConflict(c))
            },
        }
    }

    /// Safe checkout of a tree.
    pub fn checkout_tree(&mut self, tree: &Oid) -> (r: BitResult<()>)
        requires
            old(self).wf(),
        ensures
            final(self).wf(),
            r matches Err(e) && e is CheckoutConflict ==> final(self).spec_worktree() == old(self).spec_worktree()
                && final(self).spec_index() == old(self).spec_index(),
            r is Ok ==> checked_out(*old(self), tree@, false, final(self).spec_worktree(), final(self).spec_index().spec_entries()),
            r matches Err(BitError::CheckoutConflict(c)) ==> stopped_on(*old(self), tree@, false, c),
            final(self).spec_refs() == old(self).spec_refs(),
            final(self).spec_head() == old(self).spec_head(),
            r is Ok <==> checkout_goes_through(*old(self), tree@, false),
            (r matches Err(e) && e is CheckoutConflict) <==> checkout_blocked(*old(self), tree@, false),
            r is Err ==> *final(self) == *old(self),
    {
        self.checkout_tree_with_opts(tree, CheckoutOpts::default())
    }

    /// Forced checkout of a tree: the index and working tree end up matching it.
    pub fn force_checkout_tree(&mut self, tree: &Oid) -> (r: BitResult<()>)
        requires
            old(self).wf(),
        ensures
            final(self).wf(),
            r is Ok ==> checked_out(*old(self), tree@, true, final(self).spec_worktree(), final(self).spec_index().spec_entries()),
            r matches Err(BitError::CheckoutConflict(c)) ==> stopped_on(*old(self), tree@, true, c),
            final(self).spec_refs() == old(self).spec_refs(),
            final(self).spec_head() == old(self).spec_head(),
            r is Ok <==> checkout_goes_through(*old(self), tree@, true),
            (r matches Err(e) && e is CheckoutConflict) <==> checkout_blocked(*old(self), tree@, true),
            r is Err ==> *final(self) == *old(self),
    {
        self.checkout_tree_with_opts(tree, CheckoutOpts::forced())
    }

    /// Checks out the commit `reference` resolves to, then points HEAD at the reference
    /// (at the commit itself when the reference is a remote branch, which is not moved
    /// locally).
    pub fn checkout(&mut self, reference: BitRef, opts: CheckoutOpts) -> (r: BitResult<()>)
        requires
            old(self).wf(),
            reference@ != RefView::Symbolic(crate::repo::head_name()),
        ensures
            final(self).wf(),
            r is Ok ==> crate::repo::resolves(old(self).spec_refs(), old(self).spec_head(), reference@),
            r is Ok && !(reference@ matches RefView::Symbolic(n) && crate::bytes::is_prefix(crate::repo::remotes_prefix(), n))
                ==> final(self).spec_head() == reference@,
            r is Ok && (reference@ matches RefView::Symbolic(n) && crate::bytes::is_prefix(crate::repo::remotes_prefix(), n))
                ==> final(self).spec_head() == RefView::Direct(crate::repo::resolve(old(self).spec_refs(), old(self).spec_head(), reference@)),
            r is Err ==> final(self).spec_head() == old(self).spec_head(),
            r is Ok ==> ({
                let c = crate::repo::resolve(old(self).spec_refs(), old(self).spec_head(), reference@);
                &&& old(self).spec_odb().contains_key(c) && old(self).spec_odb()[c] is Commit
                &&& checked_out(*old(self), old(self).spec_odb()[c]->Commit_0.tree@, strategy_level(opts.strategy) >= 2,
                    final(self).spec_worktree(), final(self).spec_index().spec_entries())
            }),
            r matches Err(BitError::CheckoutConflict(cs)) ==> ({
                let c = crate::repo::resolve(old(self).spec_refs(), old(self).spec_head(), reference@);
                &&& old(self).spec_odb().contains_key(c) && old(self).spec_odb()[c] is Commit
                &&& stopped_on(*old(self), old(self).spec_odb()[c]->Commit_0.tree@, strategy_level(opts.strategy) >= 2, cs)
                &&& final(self).spec_worktree() == old(self).spec_worktree()
                &&& final(self).spec_index() == old(self).spec_index()
            }),
            r is Ok <==> ref_checkout_goes_through(*old(self), reference@, strategy_forces(opts.strategy)),
            (r matches Err(e) && e is CheckoutConflict) <==> ref_checkout_blocked(*old(self), reference@, strategy_forces(opts.strategy)),
            r is Err ==> *final(self) == *old(self),
            final(self).spec_refs() == old(self).spec_refs(),
    {
        let oid = self.fully_resolve_ref(&reference)?;
        let tree = self.read_commit(&oid)?.tree;
        self.checkout_tree_with_opts(&tree, opts)?;
        if reference.is_remote() {
            self.set_head(BitRef::Direct(oid));
        } else {
            self.set_head(reference);
        }
        Ok(())
    }

    /// Checks out the revision `rev` (see `resolve_rev`).
    pub fn checkout_revision(&mut self, rev: &[u8], opts: CheckoutOpts) -> (r: BitResult<()>)
        requires
            old(self).wf(),
        ensures
            final(self).wf(),
            final(self).spec_refs() == old(self).spec_refs(),
            r is Err ==> final(self).spec_head() == old(self).spec_head(),
            r is Ok ==> exists|x: RefView| #[trigger] checkout_outcome(*old(self), *final(self), x, strategy_forces(opts.strategy)),
            crate::rev::base_end(rev@, 0) == rev@.len() && rev@ != crate::repo::head_name() && rev@.len() == 40
                && crate::hash::all_hex_digits(rev@) && r is Ok ==> checkout_outcome(*old(self), *final(self),
                RefView::Direct(crate::hash::hex_value(rev@)), strategy_forces(opts.strategy)),
            crate::rev::base_end(rev@, 0) == rev@.len() && rev@ != crate::repo::head_name() && !(rev@.len() == 40
                && crate::hash::all_hex_digits(rev@)) ==> (crate::repo::expand_ref(old(self).spec_refs(), rev@) is None ==> r is Err),
            crate::rev::base_end(rev@, 0) == rev@.len() && rev@ != crate::repo::head_name() && !(rev@.len() == 40
                && crate::hash::all_hex_digits(rev@)) && r is Ok ==> checkout_outcome(*old(self), *final(self),
                RefView::Symbolic(crate::repo::expand_ref(old(self).spec_refs(), rev@)->0), strategy_forces(opts.strategy)),
            r is Err ==> *final(self) == *old(self),
            crate::rev::base_end(rev@, 0) == rev@.len() && rev@ != crate::repo::head_name() && !(rev@.len() == 40
                && crate::hash::all_hex_digits(rev@)) && crate::repo::expand_ref(old(self).spec_refs(), rev@) is Some ==> (r is Ok
                <==> ref_checkout_goes_through(*old(self), RefView::Symbolic(crate::repo::expand_ref(old(self).spec_refs(), rev@)->0),
                strategy_forces(opts.strategy))),
            crate::rev::base_end(rev@, 0) == rev@.len() && rev@ != crate::repo::head_name() && rev@.len() == 40
                && crate::hash::all_hex_digits(rev@) ==> (r is Ok <==> ref_checkout_goes_through(*old(self),
                RefView::Direct(crate::hash::hex_value(rev@)), strategy_forces(opts.strategy))),
            rev@ == crate::repo::head_name() && old(self).spec_head() != RefView::Symbolic(crate::repo::head_name()) ==> (r is Ok
                <==> ref_checkout_goes_through(*old(self), old(self).spec_head(), strategy_forces(opts.strategy))),
            rev@ == crate::repo::head_name() && r is Ok ==> checkout_outcome(*old(self), *final(self), old(self).spec_head(),
                strategy_forces(opts.strategy)),
            crate::rev::base_end(rev@, 0) < rev@.len() && r is Ok ==> final(self).spec_head() is Direct,
            crate::rev::is_first_parent_rev(rev@) && crate::rev::first_parent_rev(*old(self), rev@) is None ==> r is Err,
            crate::rev::is_first_parent_rev(rev@) && crate::rev::first_parent_rev(*old(self), rev@) is Some ==> (r is Ok
                <==> ref_checkout_goes_through(*old(self), RefView::Direct(crate::rev::first_parent_rev(*old(self), rev@)->0),
                strategy_forces(opts.strategy))),
            crate::rev::is_first_parent_rev(rev@) && r is Ok ==> checkout_outcome(*old(self), *final(self), RefView::Direct(
                crate::rev::first_parent_rev(*old(self), rev@)->0), strategy_forces(opts.strategy)),
    {
        proof {
            if rev@ == crate::repo::head_name() {
                assert(crate::rev::base_end(rev@, 4) == 4);
                assert(crate::rev::base_end(rev@, 3) == 4);
                assert(crate::rev::base_end(rev@, 2) == 4);
                assert(crate::rev::base_end(rev@, 1) == 4);
                assert(crate::rev::base_end(rev@, 0) == 4);
            }
        }
        let reference = self.resolve_rev(rev)?;
        let hn = crate::repo::head_name_bytes();
        match &reference {
            BitRef::Symbolic(n) => {
                if crate::hash::bytes_eq(n.as_slice(), hn.as_slice()) {
                    return Err(BitError::InvalidRevision);
                }
            },
            BitRef::Direct(_) => {},
        }
        let r = self.checkout(reference, opts);
        proof {
            if r is Ok {
                assert(checkout_outcome(*old(self), *self, reference@, strategy_forces(opts.strategy)));
            }
        }
        r
    }
}

} // verus!
