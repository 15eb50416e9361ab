//! Iterating over trees: every entry of a tree in depth-first order, with the option to step
//! over a subtree, and walking several such iterators side by side.
use crate::bytes::{append_bytes, bytes_order, copy_bytes, is_path_under, join_path, lemma_seq_order_equal, lemma_seq_order_trans, path_join, path_under, seq_order, Order};
use crate::error::{BitError, BitResult};
use crate::hash::{Oid, SHA1Hash};
use crate::obj::{BitObjKind, FileMode, TreeEntry, TreeEntryView};
use crate::repo::BitRepo;
use crate::diff::head_tree_spec;
use vstd::prelude::*;

verus! {

/// An iterator over a list of entries in depth-first order (each tree before the entries
/// under it, which follow it directly).
pub struct TreeIter {
    entries: Vec<TreeEntry>,
    pos: usize,
}

impl TreeIter {
    /// The entries listed.
    pub closed spec fn spec_entries(&self) -> Seq<TreeEntry> {
        self.entries@
    }

    /// The position of the next entry.
    pub closed spec fn spec_pos(&self) -> nat {
        self.pos as nat
    }

    #[verifier::type_invariant]
    closed spec fn inv(self) -> bool {
        self.pos <= self.entries@.len()
    }

    /// An iterator at the first of the entries.
    pub fn new(entries: Vec<TreeEntry>) -> (r: Self)
        ensures
            r.spec_entries() == entries@,
            r.spec_pos() == 0,
    {
        TreeIter { entries, pos: 0 }
    }

    /// The next entry, without moving.
    pub fn peek(&self) -> (r: Option<TreeEntry>)
        ensures
            self.spec_pos() < self.spec_entries().len() ==> (r matches Some(e) && e@ == self.spec_entries()[self.spec_pos() as int]@),
            self.spec_pos() >= self.spec_entries().len() ==> r is None,
    {
        proof {
            use_type_invariant(self);
        }
        if self.pos < self.entries.len() {
            Some(self.entries[self.pos].copy())
        } else {
            None
        }
    }

    /// The next entry; moves past it.
    pub fn next(&mut self) -> (r: Option<TreeEntry>)
        ensures
            final(self).spec_entries() == old(self).spec_entries(),
            old(self).spec_pos() < old(self).spec_entries().len() ==> (r matches Some(e) && e@ == old(self).spec_entries()[old(self).spec_pos() as int]@
                && final(self).spec_pos() == old(self).spec_pos() + 1),
            old(self).spec_pos() >= old(self).spec_entries().len() ==> r is None && final(self).spec_pos() == old(self).spec_pos(),
    {
        proof {
            use_type_invariant(&*self);
        }
        if self.pos < self.entries.len() {
            let e = self.entries[self.pos].copy();
            self.pos = self.pos + 1;
            Some(e)
        } else {
            None
        }
    }

    /// The next entry; moves past it and, for a tree, past every entry under it.
    pub fn over(&mut self) -> (r: Option<TreeEntry>)
        ensures
            final(self).spec_entries() == old(self).spec_entries(),
            old(self).spec_pos() < old(self).spec_entries().len() ==> (r matches Some(e) && e@ == old(self).spec_entries()[old(self).spec_pos() as int]@),
            old(self).spec_pos() >= old(self).spec_entries().len() ==> r is None && final(self).spec_pos() == old(self).spec_pos(),
            old(self).spec_pos() < old(self).spec_entries().len() ==> old(self).spec_pos() < final(self).spec_pos() <= old(self).spec_entries().len(),
            old(self).spec_pos() < old(self).spec_entries().len() && old(self).spec_entries()[old(self).spec_pos() as int].mode
                == FileMode::TREE ==> forall|j: int| old(self).spec_pos() < j < final(self).spec_pos() ==> path_under(
                old(self).spec_entries()[old(self).spec_pos() as int].path@, #[trigger] old(self).spec_entries()[j].path@),
            old(self).spec_pos() < old(self).spec_entries().len() && old(self).spec_entries()[old(self).spec_pos() as int].mode
                == FileMode::TREE && final(self).spec_pos() < old(self).spec_entries().len() ==> !path_under(
                old(self).spec_entries()[old(self).spec_pos() as int].path@, old(self).spec_entries()[final(self).spec_pos() as int].path@),
            old(self).spec_pos() < old(self).spec_entries().len() && old(self).spec_entries()[old(self).spec_pos() as int].mode
                != FileMode::TREE ==> final(self).spec_pos() == old(self).spec_pos() + 1,
    {
        proof {
            use_type_invariant(&*self);
        }
        if self.pos >= self.entries.len() {
            return None;
        }
        let e = self.entries[self.pos].copy();
        let start = self.pos;
        let mut j = self.pos + 1;
        if e.mode.is_tree() {
            while j < self.entries.len() && is_path_under(e.path.as_slice(), self.entries[j].path.as_slice())
                invariant
                    start < j <= self.entries@.len(),
                    e@ == self.entries@[start as int]@,
                    e.mode == FileMode::TREE,
                    forall|k: int| start < k < j ==> path_under(e.path@, #[trigger] self.entries@[k].path@),
                decreases self.entries@.len() - j,
            {
                j = j + 1;
            }
        }
        self.pos = j;
        Some(e)
    }
}

/// The views of the entries.
pub open spec fn entry_views(s: Seq<TreeEntry>) -> Seq<TreeEntryView> {
    s.map_values(|e: TreeEntry| e@)
}

/// The entries under the tree `oid` in depth-first order (each tree followed by what is in
/// it), with full paths below `prefix`; `None` where a tree is missing from `odb` or trees
/// nest deeper than `fuel`.
pub open spec fn tree_listing(odb: Map<Seq<u8>, BitObjKind>, oid: Seq<u8>, prefix: Seq<u8>, fuel: nat) -> Option<
    Seq<TreeEntryView>,
>
    decreases fuel, 1nat, 0nat,
{
    if fuel == 0 {
        None
    } else if odb.contains_key(oid) && odb[oid] is Tree {
        let es = odb[oid]->Tree_0.entries@;
        entries_listing(odb, es, prefix, (fuel - 1) as nat, es.len())
    } else {
        None
    }
}

/// The listing of the first `i` entries of `es` (of a tree at `prefix`), each followed, for
/// a tree, by the listing of what is under it.
pub open spec fn entries_listing(odb: Map<Seq<u8>, BitObjKind>, es: Seq<TreeEntry>, prefix: Seq<u8>, fuel: nat, i: nat) -> Option<
    Seq<TreeEntryView>,
>
    decreases fuel + 1, 0nat, i,
{
    if i == 0 {
        Some(Seq::empty())
    } else {
        match entries_listing(odb, es, prefix, fuel, (i - 1) as nat) {
            None => None,
            Some(s) => {
                let e = es[i - 1];
                let p = path_join(prefix, e.path@);
                let s2 = s.push(TreeEntryView { mode: e.mode, path: p, oid: e.oid@ });
                if e.mode == FileMode::TREE {
                    match tree_listing(odb, e.oid@, p, fuel) {
                        None => None,
                        Some(sub) => Some(s2 + sub),
                    }
                } else {
                    Some(s2)
                }
            },
        }
    }
}

proof fn lemma_entries_listing_none(
    odb: Map<Seq<u8>, BitObjKind>,
    es: Seq<TreeEntry>,
    prefix: Seq<u8>,
    fuel: nat,
    i: nat,
    j: nat,
)
    requires
        entries_listing(odb, es, prefix, fuel, i) is None,
        i <= j,
    ensures
        entries_listing(odb, es, prefix, fuel, j) is None,
    decreases j - i,
{
    if i < j {
        lemma_entries_listing_none(odb, es, prefix, fuel, i, (j - 1) as nat);
    }
}

/// The entries of the listing that are not trees, in order.
pub open spec fn files_of(s: Seq<TreeEntryView>) -> Seq<TreeEntryView>
    decreases s.len(),
{
    if s.len() == 0 {
        Seq::empty()
    } else if s.last().mode != FileMode::TREE {
        files_of(s.drop_last()).push(s.last())
    } else {
        files_of(s.drop_last())
    }
}

/// The listing of the tree `oid` from its root: the root itself (empty path) and what is
/// under it; the unknown id stands for the empty tree.
pub open spec fn iter_listing(odb: Map<Seq<u8>, BitObjKind>, oid: Seq<u8>, fuel: nat) -> Option<Seq<TreeEntryView>> {
    let root = TreeEntryView { mode: FileMode::TREE, path: Seq::empty(), oid: oid };
    if oid == crate::hash::zero_hash() {
        Some(seq![root])
    } else {
        match tree_listing(odb, oid, Seq::empty(), fuel) {
            None => None,
            Some(s) => Some(seq![root] + s),
        }
    }
}

impl BitRepo {
    /// Appends the entries under the tree `oid` in depth-first order, with paths below
    /// `prefix`; trees are entered at most `fuel` levels deep.
    fn list_tree_into(&self, oid: &Oid, prefix: &[u8], out: &mut Vec<TreeEntry>, fuel: usize) -> (r: BitResult<()>)
        ensures
            r is Ok <==> tree_listing(self.spec_odb(), oid@, prefix@, fuel as nat) is Some,
            r is Ok ==> entry_views(final(out)@) == entry_views(old(out)@) + tree_listing(self.spec_odb(), oid@, prefix@,
                fuel as nat)->0,
            r matches Err(e) ==> (e is ObjectNotFound || e is ExpectedTree || e is Unsupported),
        decreases fuel,
    {
        if fuel == 0 {
            return Err(BitError::Unsupported);
        }
        let tree = self.read_tree(oid)?;
        let ghost odb = self.spec_odb();
        let ghost es = tree.entries@;
        let ghost o0 = entry_views(out@);
        let n = tree.entries.len();
        let mut i: usize = 0;
        while i < n
            invariant
                0 <= i <= n,
                n == tree.entries@.len(),
                es == tree.entries@,
                odb == self.spec_odb(),
                odb.contains_key(oid@) && odb[oid@] == BitObjKind::Tree(*tree),
                o0 == entry_views(old(out)@),
                fuel > 0,
                entries_listing(odb, es, prefix@, (fuel - 1) as nat, i as nat) is Some,
                entry_views(out@) == o0 + entries_listing(odb, es, prefix@, (fuel - 1) as nat, i as nat)->0,
            decreases n - i,
        {
            let e = &tree.entries[i];
            let path = join_path(prefix, e.path.as_slice());
            let ghost before = entry_views(out@);
            let ghost s = entries_listing(odb, es, prefix@, (fuel - 1) as nat, i as nat)->0;
            out.push(TreeEntry { mode: e.mode, path: copy_bytes(&path), oid: e.oid });
            proof {
                assert(es[i as int] == *e);
                assert(entry_views(out@) =~= before.push(TreeEntryView { mode: e.mode, path: path@, oid: e.oid@ }));
                assert(entry_views(out@) =~= o0 + s.push(TreeEntryView { mode: e.mode, path: path@, oid: e.oid@ }));
            }
            if e.mode.is_tree() {
                let ghost mid = entry_views(out@);
                match self.list_tree_into(&e.oid, path.as_slice(), out, fuel - 1) {
                    Ok(()) => {
                        proof {
                            let sub = tree_listing(odb, e.oid@, path@, (fuel - 1) as nat)->0;
                            assert(entry_views(out@) =~= o0 + (s.push(TreeEntryView { mode: e.mode, path: path@, oid: e.oid@ }) + sub));
                        }
                    },
                    Err(err) => {
                        proof {
                            assert(entries_listing(odb, es, prefix@, (fuel - 1) as nat, (i + 1) as nat) is None);
                            lemma_entries_listing_none(odb, es, prefix@, (fuel - 1) as nat, (i + 1) as nat, n as nat);
                        }
                        return Err(err);
                    },
                }
            }
            i = i + 1;
        }
        Ok(())
    }

    /// An iterator over the tree `oid`: first the root (path empty, mode tree), then every
    /// entry under it in depth-first order. The unknown id stands for the empty tree. Trees
    /// are entered at most as many levels deep as there are objects.
    pub fn tree_iter(&self, oid: Oid) -> (r: BitResult<TreeIter>)
        ensures
            r matches Ok(it) ==> it.spec_pos() == 0 && it.spec_entries().len() >= 1 && it.spec_entries()[0].path@.len() == 0
                && it.spec_entries()[0].mode == FileMode::TREE && it.spec_entries()[0].oid@ == oid@,
            oid@ == crate::hash::zero_hash() ==> (r matches Ok(it) && it.spec_entries().len() == 1),
            r is Ok <==> iter_listing(self.spec_odb(), oid@, self.spec_odb_len()) is Some,
            r matches Ok(it) ==> entry_views(it.spec_entries()) == iter_listing(self.spec_odb(), oid@, self.spec_odb_len())->0,
            r matches Err(e) ==> (e is ObjectNotFound || e is ExpectedTree || e is Unsupported),
    {
        let mut out: Vec<TreeEntry> = Vec::new();
        out.push(TreeEntry { mode: FileMode::TREE, path: Vec::new(), oid });
        proof {
            assert(entry_views(out@) =~= seq![TreeEntryView { mode: FileMode::TREE, path: Seq::empty(), oid: oid@ }]);
        }
        if oid.is_known() {
            let prefix: Vec<u8> = Vec::new();
            let fuel = self.odb_len();
            proof {
                assert(prefix@ =~= Seq::<u8>::empty());
            }
            self.list_tree_into(&oid, prefix.as_slice(), &mut out, fuel)?;
        }
        proof {
            assert(entry_views(out@).len() == out@.len());
            assert(entry_views(out@)[0] == out@[0]@);
        }
        Ok(TreeIter::new(out))
    }
}


/// The key entries are ordered by in a depth-first listing: the path, with a `/` appended
/// for a tree.
pub open spec fn sort_key_spec(e: TreeEntry) -> Seq<u8> {
    if e.mode == FileMode::TREE {
        e.path@.push(47u8)
    } else {
        e.path@
    }
}

/// The key an entry is ordered by in a depth-first listing.
pub fn sort_key(e: &TreeEntry) -> (r: Vec<u8>)
    ensures
        r@ == sort_key_spec(*e),
{
    let mut r = copy_bytes(&e.path);
    if e.mode.is_tree() {
        r.push(47u8);
    }
    r
}

/// The entry an iterator stands at, if it is not done.
pub open spec fn iter_head(it: TreeIter) -> Option<TreeEntryView> {
    if it.spec_pos() < it.spec_entries().len() {
        Some(it.spec_entries()[it.spec_pos() as int]@)
    } else {
        None
    }
}

/// The key of an entry in a depth-first listing, over its view.
pub open spec fn view_key(e: TreeEntryView) -> Seq<u8> {
    if e.mode == FileMode::TREE {
        e.path.push(47u8)
    } else {
        e.path
    }
}

/// The iterator stands at an entry with the key `f`.
pub open spec fn stands_at(it: TreeIter, f: Seq<u8>) -> bool {
    match iter_head(it) {
        Some(e) => view_key(e) == f,
        None => false,
    }
}

/// The iterator is done, or stands at a key not below `f`.
pub open spec fn not_below(it: TreeIter, f: Seq<u8>) -> bool {
    match iter_head(it) {
        Some(e) => seq_order(view_key(e), f) != Order::Less,
        None => true,
    }
}

/// `f` is the least key at which one of the iterators stands.
pub open spec fn walk_front(its: Seq<TreeIter>, f: Seq<u8>) -> bool {
    &&& exists|j: int| 0 <= j < its.len() && #[trigger] stands_at(its[j], f)
    &&& forall|j: int| 0 <= j < its.len() ==> #[trigger] not_below(its[j], f)
}

/// What a step yields at the key `f`: for each iterator, its entry if it stands at `f`.
pub open spec fn walk_yield(its: Seq<TreeIter>, f: Seq<u8>, v: Seq<Option<TreeEntry>>) -> bool {
    &&& v.len() == its.len()
    &&& forall|i: int| #![trigger v[i]] 0 <= i < its.len() ==> match iter_head(its[i]) {
        Some(e) => if view_key(e) == f {
            v[i] matches Some(x) && x@ == e
        } else {
            v[i] is None
        },
        None => v[i] is None,
    }
}

/// The iterators that yield step over their entry: at least two yield, and what they yield is
/// one and the same tree.
pub open spec fn walk_steps_over(v: Seq<Option<TreeEntry>>) -> bool {
    &&& exists|a: int, b: int| 0 <= a < b < v.len() && #[trigger] v[a] is Some && #[trigger] v[b] is Some
    &&& forall|a: int, b: int| 0 <= a < v.len() && 0 <= b < v.len() && #[trigger] v[a] is Some && #[trigger] v[b] is Some
        ==> v[a]->0.mode == FileMode::TREE && v[a]->0.oid@ == v[b]->0.oid@
}

/// How an iterator that yields moves on: past its entry, or (`over`) past the entry and
/// everything under it.
pub open spec fn walk_moved(a: TreeIter, b: TreeIter, over: bool) -> bool {
    let pos = a.spec_pos() as int;
    let es = a.spec_entries();
    &&& b.spec_entries() == es
    &&& pos < es.len()
    &&& if over {
        &&& pos < b.spec_pos() <= es.len()
        &&& forall|j: int| pos < j < b.spec_pos() ==> path_under(es[pos].path@, #[trigger] es[j].path@)
        &&& b.spec_pos() < es.len() ==> !path_under(es[pos].path@, es[b.spec_pos() as int].path@)
    } else {
        b.spec_pos() == pos + 1
    }
}

/// Several tree iterators walked side by side: each step yields, for every iterator, its
/// next entry if that entry comes first among all of them (`None` otherwise), and moves
/// those iterators on. When the entries yielded are all the same tree (and there are at
/// least two), the iterators step over it.
pub struct WalkIterators {
    iters: Vec<TreeIter>,
}

impl WalkIterators {
    /// The iterators walked.
    pub closed spec fn spec_iters(&self) -> Seq<TreeIter> {
        self.iters@
    }

    pub open spec fn spec_len(&self) -> nat {
        self.spec_iters().len()
    }

    pub fn new(iters: Vec<TreeIter>) -> (r: Self)
        ensures
            r.spec_iters() == iters@,
    {
        WalkIterators { iters }
    }

    /// The next entries, or `None` when every iterator is done.
    pub fn next(&mut self) -> (r: Option<Vec<Option<TreeEntry>>>)
        ensures
            final(self).spec_len() == old(self).spec_len(),
            (r is None) <==> (forall|i: int| 0 <= i < old(self).spec_len() ==> #[trigger] iter_head(old(self).spec_iters()[i]) is None),
            r is None ==> final(self).spec_iters() == old(self).spec_iters(),
            r matches Some(v) ==> exists|f: Seq<u8>| walk_front(old(self).spec_iters(), f) && walk_yield(old(self).spec_iters(), f, v@),
            r matches Some(v) ==> forall|i: int| 0 <= i < old(self).spec_len() ==> if (#[trigger] v@[i]) is Some {
                walk_moved(old(self).spec_iters()[i], final(self).spec_iters()[i], walk_steps_over(v@))
            } else {
                final(self).spec_iters()[i] == old(self).spec_iters()[i]
            },
    {
        let ghost its = self.iters@;
        let n = self.iters.len();
        let mut next: Vec<Option<TreeEntry>> = Vec::new();
        let mut first: Option<Vec<u8>> = None;
        let mut i: usize = 0;
        while i < n
            invariant
                0 <= i <= n,
                n == its.len(),
                self.iters@ == its,
                next@.len() == i,
                (first is None) <==> (forall|j: int| 0 <= j < i ==> #[trigger] iter_head(its[j]) is None),
                first is Some ==> exists|j: int| 0 <= j < i && #[trigger] stands_at(its[j], first->0@),
                first is Some ==> forall|j: int| 0 <= j < i ==> #[trigger] not_below(its[j], first->0@),
                forall|j: int| #![trigger next@[j]] 0 <= j < i ==> match iter_head(its[j]) {
                    Some(e) => if first is Some && view_key(e) == first->0@ {
                        next@[j] matches Some(x) && x@ == e
                    } else {
                        next@[j] is None
                    },
                    None => next@[j] is None,
                },
            decreases n - i,
        {
            let ghost old_next = next@;
            match self.iters[i].peek() {
                None => {
                    next.push(None);
                    proof {
                        assert(iter_head(its[i as int]) is None);
                        if first is None {
                            assert forall|j: int| 0 <= j < i + 1 implies #[trigger] iter_head(its[j]) is None by {
                                if j < i {
                                    assert(iter_head(its[j]) is None);
                                }
                            }
                        }
                        assert forall|j: int| #![trigger next@[j]] 0 <= j < i + 1 implies match iter_head(its[j]) {
                            Some(e) => if first is Some && view_key(e) == first->0@ {
                                next@[j] matches Some(x) && x@ == e
                            } else {
                                next@[j] is None
                            },
                            None => next@[j] is None,
                        } by {
                            if j < i {
                                assert(next@[j] == old_next[j]);
                            }
                        }
                    }
                },
                Some(e) => {
                    let key = sort_key(&e);
                    let ghost he = e@;
                    proof {
                        assert(iter_head(its[i as int]) == Some(he));
                        assert(key@ == view_key(he));
                    }
                    match first {
                        None => {
                            first = Some(key);
                            next.push(Some(e));
                            proof {
                                lemma_seq_order_equal(view_key(he), view_key(he));
                                assert forall|j: int| 0 <= j < i implies #[trigger] iter_head(its[j]) is None by {
                                }
                                assert forall|j: int| #![trigger next@[j]] 0 <= j < i + 1 implies match iter_head(its[j]) {
                                    Some(e) => if first is Some && view_key(e) == first->0@ {
                                        next@[j] matches Some(x) && x@ == e
                                    } else {
                                        next@[j] is None
                                    },
                                    None => next@[j] is None,
                                } by {
                                    if j < i {
                                        assert(iter_head(its[j]) is None);
                                        assert(next@[j] == old_next[j]);
                                    }
                                }
                                assert(stands_at(its[i as int], first->0@));
                                assert forall|j: int| 0 <= j < i + 1 implies #[trigger] not_below(its[j], first->0@) by {
                                    if j < i {
                                        assert(iter_head(its[j]) is None);
                                    }
                                }
                            }
                        },
                        Some(f) => {
                            let ghost fv = f@;
                            match bytes_order(key.as_slice(), f.as_slice()) {
                                Order::Less => {
                                    let mut k: usize = 0;
                                    let mut cleared: Vec<Option<TreeEntry>> = Vec::new();
                                    while k < i
                                        invariant
                                            0 <= k <= i,
                                            cleared@.len() == k,
                                            forall|j: int| 0 <= j < k ==> (#[trigger] cleared@[j]) is None,
                                        decreases i - k,
                                    {
                                        cleared.push(None);
                                        k = k + 1;
                                    }
                                    next = cleared;
                                    next.push(Some(e));
                                    first = Some(key);
                                    proof {
                                        lemma_seq_order_equal(view_key(he), view_key(he));
                                        assert(stands_at(its[i as int], first->0@));
                                        assert forall|j: int| 0 <= j < i + 1 implies #[trigger] not_below(its[j], view_key(he)) by {
                                            if j < i {
                                                assert(not_below(its[j], fv));
                                                if let Some(ej) = iter_head(its[j]) {
                                                    if seq_order(view_key(ej), view_key(he)) == Order::Less {
                                                        lemma_seq_order_trans(view_key(ej), view_key(he), fv);
                                                    }
                                                }
                                            }
                                        }
                                        assert forall|j: int| #![trigger next@[j]] 0 <= j < i + 1 implies match iter_head(its[j]) {
                                            Some(e) => if first is Some && view_key(e) == first->0@ {
                                                next@[j] matches Some(x) && x@ == e
                                            } else {
                                                next@[j] is None
                                            },
                                            None => next@[j] is None,
                                        } by {
                                            if j < i {
                                                assert(next@[j] is None);
                                                assert(not_below(its[j], fv));
                                            }
                                        }
                                    }
                                },
                                Order::Equal => {
                                    next.push(Some(e));
                                    first = Some(f);
                                    proof {
                                        lemma_seq_order_equal(view_key(he), fv);
                                        assert forall|j: int| #![trigger next@[j]] 0 <= j < i + 1 implies match iter_head(its[j]) {
                                            Some(e) => if first is Some && view_key(e) == first->0@ {
                                                next@[j] matches Some(x) && x@ == e
                                            } else {
                                                next@[j] is None
                                            },
                                            None => next@[j] is None,
                                        } by {
                                            if j < i {
                                                assert(next@[j] == old_next[j]);
                                            }
                                        }
                                        assert forall|j: int| 0 <= j < i + 1 implies #[trigger] not_below(its[j], fv) by {
                                        }
                                        let w = choose|j: int| 0 <= j < i && #[trigger] stands_at(its[j], fv);
                                        assert(0 <= w < i + 1 && stands_at(its[w], fv));
                                    }
                                },
                                Order::Greater => {
                                    next.push(None);
                                    first = Some(f);
                                    proof {
                                        lemma_seq_order_equal(view_key(he), fv);
                                        assert forall|j: int| #![trigger next@[j]] 0 <= j < i + 1 implies match iter_head(its[j]) {
                                            Some(e) => if first is Some && view_key(e) == first->0@ {
                                                next@[j] matches Some(x) && x@ == e
                                            } else {
                                                next@[j] is None
                                            },
                                            None => next@[j] is None,
                                        } by {
                                            if j < i {
                                                assert(next@[j] == old_next[j]);
                                            }
                                        }
                                        assert forall|j: int| 0 <= j < i + 1 implies #[trigger] not_below(its[j], fv) by {
                                        }
                                        let w = choose|j: int| 0 <= j < i && #[trigger] stands_at(its[j], fv);
                                        assert(0 <= w < i + 1 && stands_at(its[w], fv));
                                    }
                                },
                            }
                        },
                    }
                },
            }
            i = i + 1;
        }
        if first.is_none() {
            return None;
        }
        let ghost fk = first->0@;
        let ghost v = next@;
        proof {
            assert(walk_front(its, fk));
            assert(walk_yield(its, fk, v));
        }
        let mut step_over = true;
        let mut count: usize = 0;
        let mut oid: Option<Oid> = None;
        let mut i: usize = 0;
        while i < n
            invariant
                0 <= i <= n,
                next@ == v,
                v.len() == n,
                count <= i,
                (count == 0) <==> (forall|a: int| 0 <= a < i ==> (#[trigger] v[a]) is None),
                (count >= 2) <==> (exists|a: int, b: int| 0 <= a < b < i && #[trigger] v[a] is Some && #[trigger] v[b] is Some),
                step_over <==> (forall|a: int, b: int| 0 <= a < i && 0 <= b < i && #[trigger] v[a] is Some && #[trigger] v[b] is Some
                    ==> v[a]->0.mode == FileMode::TREE && v[a]->0.oid@ == v[b]->0.oid@),
                oid is None ==> forall|a: int| 0 <= a < i && (#[trigger] v[a]) is Some ==> v[a]->0.mode != FileMode::TREE,
                oid matches Some(o) ==> exists|a: int| 0 <= a < i && (#[trigger] v[a]) is Some && v[a]->0.mode == FileMode::TREE && v[a]->0.oid@ == o@,
            decreases n - i,
        {
            let ghost old_count = count;
            let ghost old_step = step_over;
            let ghost old_oid = oid;
            match &next[i] {
                Some(e) => {
                    if !e.mode.is_tree() {
                        step_over = false;
                    } else {
                        match oid {
                            Some(o) => {
                                if !o.same(&e.oid) {
                                    step_over = false;
                                }
                            },
                            None => {
                                oid = Some(e.oid);
                            },
                        }
                    }
                    count = count + 1;
                    proof {
                        let ii = i as int;
                        if old_count != 0 {
                            let a = choose|a: int| 0 <= a < i && (#[trigger] v[a]) is Some;
                            assert(0 <= a < ii + 1 && v[a] is Some && v[ii] is Some);
                        } else {
                            assert forall|a: int, b: int| 0 <= a < b < ii + 1 && #[trigger] v[a] is Some && #[trigger] v[b] is Some implies false by {
                                assert(v[a] is None);
                            }
                        }
                        if !step_over {
                            if !old_step {
                                let (a, b) = choose|a: int, b: int| !(0 <= a < i && 0 <= b < i && #[trigger] v[a] is Some && #[trigger] v[b] is Some
                                    ==> v[a]->0.mode == FileMode::TREE && v[a]->0.oid@ == v[b]->0.oid@);
                                assert(0 <= a < ii + 1 && 0 <= b < ii + 1 && v[a] is Some && v[b] is Some);
                            } else if e.mode != FileMode::TREE {
                                assert(v[ii] is Some && v[ii]->0.mode != FileMode::TREE);
                            } else {
                                let o = old_oid->0;
                                let a = choose|a: int| 0 <= a < i && (#[trigger] v[a]) is Some && v[a]->0.mode == FileMode::TREE && v[a]->0.oid@ == o@;
                                assert(v[a] is Some && v[ii] is Some && v[a]->0.oid@ != v[ii]->0.oid@);
                            }
                        } else {
                            assert forall|a: int, b: int| 0 <= a < ii + 1 && 0 <= b < ii + 1 && #[trigger] v[a] is Some && #[trigger] v[b] is Some
                                implies v[a]->0.mode == FileMode::TREE && v[a]->0.oid@ == v[b]->0.oid@ by {
                                if old_oid is Some {
                                    let o = old_oid->0;
                                    let w = choose|w: int| 0 <= w < i && (#[trigger] v[w]) is Some && v[w]->0.mode == FileMode::TREE && v[w]->0.oid@ == o@;
                                    assert(v[w] is Some);
                                    if a < ii {
                                        assert(v[a]->0.oid@ == v[w]->0.oid@);
                                    }
                                    if b < ii {
                                        assert(v[b]->0.oid@ == v[w]->0.oid@);
                                    }
                                } else {
                                    if a < ii {
                                        assert(v[a]->0.mode == FileMode::TREE);
                                    }
                                    if b < ii {
                                        assert(v[b]->0.mode == FileMode::TREE);
                                    }
                                }
                            }
                        }
                        if oid is Some {
                            if old_oid is Some {
                                let o = old_oid->0;
                                let w = choose|w: int| 0 <= w < i && (#[trigger] v[w]) is Some && v[w]->0.mode == FileMode::TREE && v[w]->0.oid@ == o@;
                                assert(0 <= w < ii + 1 && v[w] is Some);
                            } else {
                                assert(v[ii] is Some && v[ii]->0.mode == FileMode::TREE);
                            }
                        }
                    }
                },
                None => {
                    proof {
                        let ii = i as int;
                        assert(v[ii] is None);
                        if old_count >= 2 {
                            let (a, b) = choose|a: int, b: int| 0 <= a < b < i && #[trigger] v[a] is Some && #[trigger] v[b] is Some;
                            assert(0 <= a < b < ii + 1 && v[a] is Some && v[b] is Some);
                        }
                        if !old_step {
                            let (a, b) = choose|a: int, b: int| !(0 <= a < i && 0 <= b < i && #[trigger] v[a] is Some && #[trigger] v[b] is Some
                                ==> v[a]->0.mode == FileMode::TREE && v[a]->0.oid@ == v[b]->0.oid@);
                            assert(0 <= a < ii + 1 && 0 <= b < ii + 1 && v[a] is Some && v[b] is Some);
                        }
                        if oid is Some {
                            let o = oid->0;
                            let w = choose|w: int| 0 <= w < i && (#[trigger] v[w]) is Some && v[w]->0.mode == FileMode::TREE && v[w]->0.oid@ == o@;
                            assert(0 <= w < ii + 1 && v[w] is Some);
                        }
                    }
                },
            }
            i = i + 1;
        }
        let over = step_over && count > 1;
        proof {
            assert(over == walk_steps_over(v));
        }
        let ghost orig = self.iters@;
        let mut old_iters: Vec<TreeIter> = Vec::new();
        std::mem::swap(&mut old_iters, &mut self.iters);
        let mut k: usize = 0;
        while k < n
            invariant
                0 <= k <= n,
                orig == its,
                its.len() == n,
                old_iters@ == its.skip(k as int),
                self.iters@.len() == k,
                next@ == v,
                walk_yield(its, fk, v),
                over ==> walk_steps_over(v),
                forall|j: int| 0 <= j < k ==> if (#[trigger] v[j]) is Some {
                    walk_moved(its[j], self.iters@[j], over)
                } else {
                    self.iters@[j] == its[j]
                },
            decreases n - k,
        {
            let ghost before = self.iters@;
            let mut it = old_iters.remove(0);
            let ghost it0 = it;
            proof {
                assert(it0 == its[k as int]);
                assert(old_iters@ =~= its.skip(k + 1));
            }
            if next[k].is_some() {
                proof {
                    let kk = k as int;
                    assert(v[kk] is Some);
                    assert(iter_head(its[kk]) is Some);
                    if over {
                        assert(v[kk]->0.mode == FileMode::TREE);
                    }
                }
                if over {
                    let _ = it.over();
                } else {
                    let _ = it.next();
                }
            }
            self.iters.push(it);
            proof {
                assert forall|j: int| 0 <= j < k + 1 implies if (#[trigger] v[j]) is Some {
                    walk_moved(its[j], self.iters@[j], over)
                } else {
                    self.iters@[j] == its[j]
                } by {
                    if j < k {
                        assert(self.iters@[j] == before[j]);
                    }
                }
            }
            k = k + 1;
        }
        Some(next)
    }
}

impl BitRepo {
    /// Walks several tree iterators side by side.
    pub fn walk_iterators(&self, iters: Vec<TreeIter>) -> (r: WalkIterators)
        ensures
            r.spec_iters() == iters@,
    {
        WalkIterators::new(iters)
    }

    /// The files (not trees) under the tree `oid`, in depth-first order.
    pub fn tree_entry_iter(&self, oid: Oid) -> (r: BitResult<Vec<TreeEntry>>)
        ensures
            r matches Ok(v) ==> forall|j: int| 0 <= j < v@.len() ==> (#[trigger] v@[j]).mode != FileMode::TREE,
            r is Ok <==> iter_listing(self.spec_odb(), oid@, self.spec_odb_len()) is Some,
            r matches Ok(v) ==> entry_views(v@) == files_of(iter_listing(self.spec_odb(), oid@, self.spec_odb_len())->0),
            r matches Err(e) ==> (e is ObjectNotFound || e is ExpectedTree || e is Unsupported),
    {
        let mut it = self.tree_iter(oid)?;
        let ghost all = entry_views(it.spec_entries());
        let mut out: Vec<TreeEntry> = Vec::new();
        proof {
            assert(all.take(0) =~= Seq::<TreeEntryView>::empty());
            assert(entry_views(out@) =~= Seq::<TreeEntryView>::empty());
        }
        loop
            invariant
                forall|j: int| 0 <= j < out@.len() ==> (#[trigger] out@[j]).mode != FileMode::TREE,
                all == entry_views(it.spec_entries()),
                it.spec_pos() <= it.spec_entries().len(),
                entry_views(out@) == files_of(all.take(it.spec_pos() as int)),
            ensures
                entry_views(out@) == files_of(all),
                forall|j: int| 0 <= j < out@.len() ==> (#[trigger] out@[j]).mode != FileMode::TREE,
            decreases it.spec_entries().len() - it.spec_pos(),
        {
            let ghost pos = it.spec_pos() as int;
            let ghost before = entry_views(out@);
            match it.next() {
                Some(e) => {
                    proof {
                        assert(all.take(pos + 1).drop_last() =~= all.take(pos));
                        assert(all.take(pos + 1).last() == e@);
                    }
                    if !e.mode.is_tree() {
                        out.push(e);
                        proof {
                            assert(entry_views(out@) =~= before.push(e@));
                        }
                    }
                },
                None => {
                    proof {
                        assert(all.take(pos) =~= all);
                    }
                    break;
                },
            }
        }
        Ok(out)
    }

    /// An iterator over the tree of the commit HEAD names (the empty tree when there is none).
    pub fn head_tree_iter(&self) -> (r: BitResult<TreeIter>)
        ensures
            head_tree_spec(*self) is None ==> r is Err,
            head_tree_spec(*self) == Some(crate::hash::zero_hash()) ==> (r matches Ok(it) && it.spec_entries().len() == 1),
            r matches Ok(it) ==> it.spec_pos() == 0 && it.spec_entries().len() >= 1 && it.spec_entries()[0].path@.len() == 0
                && it.spec_entries()[0].mode == FileMode::TREE && Some(it.spec_entries()[0].oid@) == head_tree_spec(*self),
            r is Ok <==> (head_tree_spec(*self) is Some && iter_listing(self.spec_odb(), head_tree_spec(*self)->0,
                self.spec_odb_len()) is Some),
            r matches Ok(it) ==> entry_views(it.spec_entries()) == iter_listing(self.spec_odb(), head_tree_spec(*self)->0,
                self.spec_odb_len())->0,
    {
        let t = self.head_tree()?;
        self.tree_iter(t)
    }

    /// The files of the tree of the commit HEAD names, in depth-first order.
    pub fn head_iter(&self) -> (r: BitResult<Vec<TreeEntry>>)
        ensures
            head_tree_spec(*self) is None ==> r is Err,
            r matches Ok(v) ==> forall|j: int| 0 <= j < v@.len() ==> (#[trigger] v@[j]).mode != FileMode::TREE,
            r is Ok <==> (head_tree_spec(*self) is Some && iter_listing(self.spec_odb(), head_tree_spec(*self)->0,
                self.spec_odb_len()) is Some),
            r matches Ok(v) ==> entry_views(v@) == files_of(iter_listing(self.spec_odb(), head_tree_spec(*self)->0,
                self.spec_odb_len())->0),
    {
        let t = self.head_tree()?;
        self.tree_entry_iter(t)
    }
}

} // verus!
