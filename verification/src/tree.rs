//! Trees of the object store: reading a tree as the flat list of everything under it, and
//! writing the tree of the index.
use crate::bytemap::ByteMap;
use crate::bytes::{is_prefix, join_path, path_join, slice_to_vec, starts_with};
use crate::error::{BitError, BitResult};
use crate::hash::{zero_hash, Oid, SHA1Hash};
use crate::index::{entry_views, BitIndexEntry, IndexEntryView, MergeStage};
use crate::obj::{obj_oid, BitObjKind, FileMode, ObjView, Tree, TreeEntry, TreeEntryView};
use crate::repo::BitRepo;
use vstd::prelude::*;

verus! {

/// Every entry of a flattened tree is stored under its own path.
pub open spec fn flat_keys_ok(m: Map<Seq<u8>, TreeEntry>) -> bool {
    forall|k: Seq<u8>| #[trigger] m.contains_key(k) ==> m[k].path@ == k
}

/// Every id stored in `old` is still stored in `new`.
pub open spec fn odb_extends(old: Map<Seq<u8>, BitObjKind>, new: Map<Seq<u8>, BitObjKind>) -> bool {
    forall|k: Seq<u8>| #[trigger] old.contains_key(k) ==> new.contains_key(k)
}

/// The first position at or after `from` that holds `/`, or the length when there is none.
pub open spec fn next_slash(p: Seq<u8>, from: int) -> int
    decreases p.len() - from,
{
    if from >= p.len() {
        p.len() as int
    } else if p[from] == 47u8 {
        from
    } else {
        next_slash(p, from + 1)
    }
}

pub proof fn lemma_next_slash(p: Seq<u8>, from: int)
    requires
        0 <= from <= p.len(),
    ensures
        from <= next_slash(p, from) <= p.len(),
        next_slash(p, from) < p.len() ==> p[next_slash(p, from)] == 47u8,
        forall|i: int| from <= i < next_slash(p, from) ==> p[i] != 47u8,
    decreases p.len() - from,
{
    if from < p.len() && p[from] != 47u8 {
        lemma_next_slash(p, from + 1);
    }
}

/// The position of the first `/` at or after `from`, or the length.
pub(crate) fn find_slash(p: &[u8], from: usize) -> (r: usize)
    requires
        from <= p@.len(),
    ensures
        r == next_slash(p@, from as int),
        from <= r <= p@.len(),
{
    proof {
        lemma_next_slash(p@, from as int);
    }
    let mut i = from;
    while i < p.len()
        invariant
            from <= i <= p@.len(),
            next_slash(p@, from as int) == next_slash(p@, i as int),
        decreases p@.len() - i,
    {
        if p[i] == 47u8 {
            return i;
        }
        i = i + 1;
    }
    i
}

/// The views of the entries of a flattened tree.
pub open spec fn flat_view(m: Map<Seq<u8>, TreeEntry>) -> Map<Seq<u8>, TreeEntryView> {
    m.map_values(|e: TreeEntry| e@)
}

/// `m` with the entries of the tree `oid` and of every tree under it inserted, each under
/// its path below `prefix`, in the order of the trees; `None` where a tree is missing from
/// `odb` or trees nest deeper than `fuel`.
pub open spec fn flat_tree(
    odb: Map<Seq<u8>, BitObjKind>,
    oid: Seq<u8>,
    prefix: Seq<u8>,
    m: Map<Seq<u8>, TreeEntryView>,
    fuel: nat,
) -> Option<Map<Seq<u8>, TreeEntryView>>
    decreases fuel, 1nat, 0nat,
{
    if fuel == 0 {
        None
    } else if odb.contains_key(oid) && odb[oid] is Tree {
        let es = odb[oid]->Tree_0.entries@;
        flat_entries(odb, es, prefix, m, (fuel - 1) as nat, es.len())
    } else {
        None
    }
}

/// `m` with the first `i` entries of `es` (of a tree at `prefix`) inserted, and for each
/// that is a tree, what is under it.
pub open spec fn flat_entries(
    odb: Map<Seq<u8>, BitObjKind>,
    es: Seq<TreeEntry>,
    prefix: Seq<u8>,
    m: Map<Seq<u8>, TreeEntryView>,
    fuel: nat,
    i: nat,
) -> Option<Map<Seq<u8>, TreeEntryView>>
    decreases fuel + 1, 0nat, i,
{
    if i == 0 {
        Some(m)
    } else {
        match flat_entries(odb, es, prefix, m, fuel, (i - 1) as nat) {
            None => None,
            Some(m1) => {
                let e = es[i - 1];
                let p = path_join(prefix, e.path@);
                let m2 = m1.insert(p, TreeEntryView { mode: e.mode, path: p, oid: e.oid@ });
                if e.mode == FileMode::TREE {
                    flat_tree(odb, e.oid@, p, m2, fuel)
                } else {
                    Some(m2)
                }
            },
        }
    }
}

/// The flattened tree `oid`: every entry under it at any depth, trees too, keyed by full
/// path; the unknown id stands for the empty tree.
pub open spec fn flatten_spec(odb: Map<Seq<u8>, BitObjKind>, oid: Seq<u8>, fuel: nat) -> Option<
    Map<Seq<u8>, TreeEntryView>,
> {
    if oid == zero_hash() {
        Some(Map::empty())
    } else {
        flat_tree(odb, oid, Seq::empty(), Map::empty(), fuel)
    }
}

proof fn lemma_flat_entries_none(
    odb: Map<Seq<u8>, BitObjKind>,
    es: Seq<TreeEntry>,
    prefix: Seq<u8>,
    m: Map<Seq<u8>, TreeEntryView>,
    fuel: nat,
    i: nat,
    j: nat,
)
    requires
        flat_entries(odb, es, prefix, m, fuel, i) is None,
        i <= j,
    ensures
        flat_entries(odb, es, prefix, m, fuel, j) is None,
    decreases j - i,
{
    if i < j {
        lemma_flat_entries_none(odb, es, prefix, m, fuel, i, (j - 1) as nat);
    }
}

/// The tree entry `t` lists the index entry `e` under the part of its path past `plen`.
#[verifier::opaque]
pub open spec fn lists_entry(t: TreeEntry, e: IndexEntryView, plen: int) -> bool {
    t.mode == e.mode && t.oid@ == e.oid && t.path@ == e.path.subrange(plen, e.path.len() as int)
}

/// The path of `e` holds no `/` past its first `plen` bytes.
#[verifier::opaque]
pub open spec fn file_at_level(e: IndexEntryView, plen: int) -> bool {
    plen <= e.path.len() && next_slash(e.path, plen) == e.path.len()
}

/// The entries `t` of a tree list, each under the rest of its path, exactly the entries of
/// `es[lo..hi]` whose paths hold no `/` past their first `plen` bytes, as its entries that
/// are not trees.
pub open spec fn lists_files(t: Seq<TreeEntry>, es: Seq<IndexEntryView>, lo: int, hi: int, plen: int) -> bool {
    &&& forall|k: int| lo <= k < hi && #[trigger] file_at_level(es[k], plen) ==> exists|j: int| 0 <= j < t.len()
        && #[trigger] lists_entry(t[j], es[k], plen)
    &&& forall|j: int| 0 <= j < t.len() && (#[trigger] t[j]).mode != FileMode::TREE ==> exists|k: int| lo <= k < hi
        && #[trigger] file_at_level(es[k], plen) && lists_entry(t[j], es[k], plen)
}

proof fn lemma_lists_files_push_file(t0: Seq<TreeEntry>, x: TreeEntry, es: Seq<IndexEntryView>, lo: int, i: int, plen: int)
    requires
        lo <= i,
        lists_files(t0, es, lo, i, plen),
        lists_entry(x, es[i], plen),
        file_at_level(es[i], plen),
    ensures
        lists_files(t0.push(x), es, lo, i + 1, plen),
{
    let t1 = t0.push(x);
    assert forall|k: int| lo <= k < i + 1 && #[trigger] file_at_level(es[k], plen) implies exists|j: int| 0 <= j < t1.len()
        && #[trigger] lists_entry(t1[j], es[k], plen) by {
        if k < i {
            let j = choose|j: int| 0 <= j < t0.len() && #[trigger] lists_entry(t0[j], es[k], plen);
            assert(t1[j] == t0[j]);
        } else {
            assert(t1[t0.len() as int] == x);
        }
    }
    assert forall|j: int| 0 <= j < t1.len() && (#[trigger] t1[j]).mode != FileMode::TREE implies exists|k: int| lo <= k < i + 1
        && #[trigger] file_at_level(es[k], plen) && lists_entry(t1[j], es[k], plen) by {
        if j < t0.len() {
            assert(t1[j] == t0[j]);
            let k = choose|k: int| lo <= k < i && #[trigger] file_at_level(es[k], plen) && lists_entry(t0[j], es[k], plen);
        } else {
            assert(t1[j] == x);
        }
    }
}

proof fn lemma_lists_files_push_tree(t0: Seq<TreeEntry>, x: TreeEntry, es: Seq<IndexEntryView>, lo: int, i: int, j: int, plen: int)
    requires
        lo <= i <= j,
        lists_files(t0, es, lo, i, plen),
        x.mode == FileMode::TREE,
        forall|k: int| i <= k < j ==> !#[trigger] file_at_level(es[k], plen),
    ensures
        lists_files(t0.push(x), es, lo, j, plen),
{
    let t1 = t0.push(x);
    assert forall|k: int| lo <= k < j && #[trigger] file_at_level(es[k], plen) implies exists|j2: int| 0 <= j2 < t1.len()
        && #[trigger] lists_entry(t1[j2], es[k], plen) by {
        let j2 = choose|j2: int| 0 <= j2 < t0.len() && #[trigger] lists_entry(t0[j2], es[k], plen);
        assert(t1[j2] == t0[j2]);
    }
    assert forall|j2: int| 0 <= j2 < t1.len() && (#[trigger] t1[j2]).mode != FileMode::TREE implies exists|k: int| lo <= k < j
        && #[trigger] file_at_level(es[k], plen) && lists_entry(t1[j2], es[k], plen) by {
        assert(j2 < t0.len());
        assert(t1[j2] == t0[j2]);
        let k = choose|k: int| lo <= k < i && #[trigger] file_at_level(es[k], plen) && lists_entry(t0[j2], es[k], plen);
    }
}

impl BitRepo {
    /// Adds to `out` every entry under the tree `oid`, with paths below `prefix`; trees are
    /// entered at most `fuel` levels deep.
    fn flatten_into(&self, oid: &Oid, prefix: &[u8], out: &mut ByteMap<TreeEntry>, fuel: usize) -> (r:
        BitResult<()>)
        requires
            flat_keys_ok(old(out).spec_map()),
        ensures
            flat_keys_ok(final(out).spec_map()),
            r is Ok <==> flat_tree(self.spec_odb(), oid@, prefix@, flat_view(old(out).spec_map()), fuel as nat) is Some,
            r is Ok ==> flat_tree(self.spec_odb(), oid@, prefix@, flat_view(old(out).spec_map()), fuel as nat)
                == Some(flat_view(final(out).spec_map())),
            r matches Err(e) ==> (e is ObjectNotFound || e is ExpectedTree || e is Unsupported),
        decreases fuel,
    {
        if fuel == 0 {
            return Err(BitError::Unsupported);
        }
        let tree = self.read_tree(oid)?;
        let ghost odb = self.spec_odb();
        let ghost es = tree.entries@;
        let ghost m0 = flat_view(out.spec_map());
        let n = tree.entries.len();
        let mut i: usize = 0;
        while i < n
            invariant
                0 <= i <= n,
                n == tree.entries@.len(),
                es == tree.entries@,
                odb == self.spec_odb(),
                odb.contains_key(oid@) && odb[oid@] == BitObjKind::Tree(*tree),
                m0 == flat_view(old(out).spec_map()),
                fuel > 0,
                flat_keys_ok(out.spec_map()),
                flat_entries(odb, es, prefix@, m0, (fuel - 1) as nat, i as nat) == Some(flat_view(out.spec_map())),
            decreases n - i,
        {
            let e = &tree.entries[i];
            let path = join_path(prefix, e.path.as_slice());
            let entry = TreeEntry { mode: e.mode, path: slice_to_vec(path.as_slice()), oid: e.oid };
            let ghost before = flat_view(out.spec_map());
            out.insert(path, entry);
            proof {
                assert forall|k: Seq<u8>| #[trigger] out.spec_map().contains_key(k) implies out.spec_map()[k].path@ == k by {}
                assert(flat_view(out.spec_map()) =~= before.insert(
                    path_join(prefix@, e.path@),
                    TreeEntryView { mode: e.mode, path: path_join(prefix@, e.path@), oid: e.oid@ },
                ));
            }
            let ghost after_insert = flat_view(out.spec_map());
            if e.mode.is_tree() {
                let sub = entry_path_of(&tree.entries[i], prefix);
                match self.flatten_into(&e.oid, sub.as_slice(), out, fuel - 1) {
                    Ok(()) => {},
                    Err(err) => {
                        proof {
                            assert(flat_tree(odb, e.oid@, path_join(prefix@, e.path@), after_insert, (fuel - 1) as nat) is None);
                            assert(es[i as int] == *e);
                            assert(flat_entries(odb, es, prefix@, m0, (fuel - 1) as nat, (i + 1) as nat) is None);
                            lemma_flat_entries_none(odb, es, prefix@, m0, (fuel - 1) as nat, (i + 1) as nat, n as nat);
                            assert(odb[oid@] == BitObjKind::Tree(*tree));
                        }
                        return Err(err);
                    },
                }
            }
            i = i + 1;
        }
        Ok(())
    }

    /// Every entry under the tree `oid` at any depth, keyed by its full path; trees are listed
    /// as well as the entries inside them. The unknown id stands for the empty tree. Trees
    /// are entered at most as many levels deep as there are objects.
    pub fn flatten_tree(&self, oid: &Oid) -> (r: BitResult<ByteMap<TreeEntry>>)
        ensures
            r matches Ok(m) ==> flat_keys_ok(m.spec_map()),
            r is Ok <==> flatten_spec(self.spec_odb(), oid@, self.spec_odb_len()) is Some,
            r matches Ok(m) ==> flatten_spec(self.spec_odb(), oid@, self.spec_odb_len()) == Some(
                flat_view(m.spec_map()),
            ),
            oid@ == crate::hash::zero_hash() ==> (r matches Ok(m) && m.spec_map() == Map::<Seq<u8>, TreeEntry>::empty()),
            r matches Err(e) ==> (e is ObjectNotFound || e is ExpectedTree || e is Unsupported),
    {
        let mut out: ByteMap<TreeEntry> = ByteMap::new();
        if oid.is_unknown() {
            assert(flat_view(out.spec_map()) =~= Map::<Seq<u8>, TreeEntryView>::empty());
            return Ok(out);
        }
        let prefix: Vec<u8> = Vec::new();
        let fuel = self.odb_len();
        proof {
            assert(flat_view(out.spec_map()) =~= Map::<Seq<u8>, TreeEntryView>::empty());
            assert(prefix@ =~= Seq::<u8>::empty());
        }
        self.flatten_into(oid, prefix.as_slice(), &mut out, fuel)?;
        Ok(out)
    }

    /// Writes the trees for `entries[lo..hi]`, whose paths all extend past `plen`, taking
    /// the part of each path after `plen` as the path inside the tree; returns the id of
    /// the tree holding them.
    fn build_tree(&mut self, entries: &Vec<BitIndexEntry>, lo: usize, hi: usize, plen: usize) -> (r: Oid)
        requires
            old(self).wf(),
            lo <= hi <= entries@.len(),
            forall|k: int| lo <= k < hi ==> plen <= (#[trigger] entries@[k]).path@.len(),
        ensures
            final(self).wf(),
            odb_extends(old(self).spec_odb(), final(self).spec_odb()),
            final(self).spec_odb().contains_key(r@),
            final(self).spec_odb()[r@] is Tree,
            final(self).spec_refs() == old(self).spec_refs(),
            final(self).spec_head() == old(self).spec_head(),
            final(self).spec_index() == old(self).spec_index(),
            final(self).spec_worktree() == old(self).spec_worktree(),
            final(self).spec_time() == old(self).spec_time(),
            lo == hi ==> r@ == obj_oid(ObjView::Tree(Seq::empty())),
            r@ == obj_oid(final(self).spec_odb()[r@]@),
            lists_files(final(self).spec_odb()[r@]->Tree_0.entries@, entry_views(entries@), lo as int, hi as int, plen as int),
        decreases hi - lo, if lo < hi {
            entries@[lo as int].path@.len() - plen
        } else {
            0
        },
    {
        let mut tree_entries: Vec<TreeEntry> = Vec::new();
        let mut i = lo;
        while i < hi
            invariant
                lo <= i <= hi,
                i == lo ==> tree_entries@.len() == 0,
                hi <= entries@.len(),
                forall|k: int| lo <= k < hi ==> plen <= (#[trigger] entries@[k]).path@.len(),
                self.wf(),
                odb_extends(old(self).spec_odb(), self.spec_odb()),
                self.spec_refs() == old(self).spec_refs(),
                self.spec_head() == old(self).spec_head(),
                self.spec_index() == old(self).spec_index(),
                self.spec_worktree() == old(self).spec_worktree(),
                self.spec_time() == old(self).spec_time(),
                lists_files(tree_entries@, entry_views(entries@), lo as int, i as int, plen as int),
            decreases hi - i,
        {
            let ghost t0 = tree_entries@;
            let ghost es = entry_views(entries@);
            let path = &entries[i].path;
            let s = find_slash(path.as_slice(), plen);
            if s == path.len() {
                let name = crate::hash::slice_range(path.as_slice(), plen, s);
                tree_entries.push(TreeEntry { mode: entries[i].mode, path: name, oid: entries[i].oid });
                proof {
                    let ii = i as int;
                    assert(es[ii] == entries@[ii]@);
                    reveal(lists_entry);
                    reveal(file_at_level);
                    assert(tree_entries@ == t0.push(tree_entries@[t0.len() as int]));
                    lemma_lists_files_push_file(t0, tree_entries@[t0.len() as int], es, lo as int, ii, plen as int);
                }
                i = i + 1;
            } else {
                let dir = crate::hash::slice_range(path.as_slice(), 0, s + 1);
                let mut j = i + 1;
                while j < hi && starts_with(entries[j].path.as_slice(), dir.as_slice())
                    invariant
                        i < j <= hi,
                        hi <= entries@.len(),
                        dir@.len() == s + 1,
                        forall|k: int| i < k < j ==> is_prefix(dir@, (#[trigger] entries@[k]).path@),
                    decreases hi - j,
                {
                    j = j + 1;
                }
                proof {
                    assert forall|k: int| i <= k < j implies s + 1 <= (#[trigger] entries@[k]).path@.len() by {
                        if k > i {
                            assert(is_prefix(dir@, entries@[k].path@));
                        }
                    }
                }
                let sub = self.build_tree(entries, i, j, s + 1);
                let name = crate::hash::slice_range(path.as_slice(), plen, s);
                tree_entries.push(TreeEntry { mode: FileMode::TREE, path: name, oid: sub });
                proof {
                    let ii = i as int;
                    let jj = j as int;
                    reveal(file_at_level);
                    lemma_next_slash(entries@[ii].path@, plen as int);
                    assert(plen <= s < entries@[ii].path@.len() && entries@[ii].path@[s as int] == 47u8);
                    assert(dir@[s as int] == 47u8);
                    assert forall|k: int| ii <= k < jj implies !#[trigger] file_at_level(es[k], plen as int) by {
                        assert(es[k] == entries@[k]@);
                        let pk = entries@[k].path@;
                        if k > ii {
                            assert(is_prefix(dir@, pk));
                            assert(pk[s as int] == dir@[s as int]);
                        }
                        assert(s < pk.len() && pk[s as int] == 47u8);
                        lemma_next_slash(pk, plen as int);
                    }
                    assert(tree_entries@ == t0.push(tree_entries@[t0.len() as int]));
                    lemma_lists_files_push_tree(t0, tree_entries@[t0.len() as int], es, lo as int, ii, jj, plen as int);
                }
                i = j;
            }
        }
        proof {
            if lo == hi {
                assert(crate::obj::tree_entries_view(tree_entries@) =~= Seq::empty());
            }
        }
        let ghost te = tree_entries@;
        let oid = self.write_obj(BitObjKind::Tree(Tree { entries: tree_entries }));
        proof {
            assert(self.spec_odb()[oid@]->Tree_0.entries@ == te);
        }
        oid
    }

    /// Writes the trees holding the given entries, whose paths are in increasing order, and
    /// returns the id of the root tree.
    pub fn write_tree_of(&mut self, entries: &Vec<BitIndexEntry>) -> (r: Oid)
        requires
            old(self).wf(),
        ensures
            final(self).wf(),
            odb_extends(old(self).spec_odb(), final(self).spec_odb()),
            final(self).spec_odb().contains_key(r@),
            final(self).spec_odb()[r@] is Tree,
            final(self).spec_refs() == old(self).spec_refs(),
            final(self).spec_head() == old(self).spec_head(),
            final(self).spec_index() == old(self).spec_index(),
            final(self).spec_worktree() == old(self).spec_worktree(),
            final(self).spec_time() == old(self).spec_time(),
    {
        let n = entries.len();
        self.build_tree(entries, 0, n, 0)
    }

    /// Writes the tree of the index (and all trees inside it) to the object store and
    /// returns its id. Fails when the index has conflicts, and then writes nothing. The
    /// entries of the root tree that are not trees are exactly the index's files at the top
    /// level, each with its id and mode.
    pub fn write_tree(&mut self) -> (r: BitResult<Oid>)
        requires
            old(self).wf(),
        ensures
            final(self).wf(),
            r is Ok <==> !old(self).spec_index().has_conflicts_spec(),
            r is Err ==> r == Err::<Oid, BitError>(BitError::UnmergedIndex),
            r is Err ==> *final(self) == *old(self),
            old(self).spec_index().spec_entries() == Map::<Seq<u8>, BitIndexEntry>::empty() ==> (r matches Ok(o) && o@ == obj_oid(
                ObjView::Tree(Seq::empty()))),
            odb_extends(old(self).spec_odb(), final(self).spec_odb()),
            r matches Ok(o) ==> final(self).spec_odb().contains_key(o@) && final(self).spec_odb()[o@] is Tree,
            r matches Ok(o) ==> o@ == obj_oid(final(self).spec_odb()[o@]@),
            r matches Ok(o) ==> lists_files(final(self).spec_odb()[o@]->Tree_0.entries@, crate::index::non_gitlinks(
                old(self).spec_index().spec_list()), 0, crate::index::non_gitlinks(old(self).spec_index().spec_list()).len() as int, 0),
            final(self).spec_refs() == old(self).spec_refs(),
            final(self).spec_head() == old(self).spec_head(),
            final(self).spec_index() == old(self).spec_index(),
            final(self).spec_worktree() == old(self).spec_worktree(),
            final(self).spec_time() == old(self).spec_time(),
    {
        proof {
            if self.spec_index().spec_entries() == Map::<Seq<u8>, BitIndexEntry>::empty() {
                self.spec_index().lemma_list_entries();
                if self.spec_index().spec_list().len() > 0 {
                    assert(self.spec_index().spec_entries().contains_key(self.spec_index().spec_keys()[0]));
                }
            }
        }
        if self.index().has_conflicts() {
            return Err(BitError::UnmergedIndex);
        }
        let entries = self.index().std_iter();
        proof {
            if self.spec_index().spec_entries() == Map::<Seq<u8>, BitIndexEntry>::empty() {
                self.spec_index().lemma_list_entries();
                if self.spec_index().spec_list().len() > 0 {
                    assert(self.spec_index().spec_entries().contains_key(self.spec_index().spec_keys()[0]));
                }
                assert(entry_views(entries@).len() == 0);
            }
        }
        let n = entries.len();
        let oid = self.build_tree(&entries, 0, n, 0);
        Ok(oid)
    }
}

/// The full path of a tree entry listed under `prefix`.
fn entry_path_of(e: &TreeEntry, prefix: &[u8]) -> (r: Vec<u8>)
    ensures
        r@ == path_join(prefix@, e.path@),
{
    join_path(prefix, e.path.as_slice())
}

} // verus!
