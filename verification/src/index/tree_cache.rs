//! The tree cache of the index: for each directory, the id of its tree and how many files
//! the index holds under it, or nothing known (an entry count of -1).
use crate::bytes::copy_bytes;
use crate::error::{BitError, BitResult};
use crate::hash::{bytes_eq, slice_range, zero_hash, Oid, SHA1Hash};
use crate::obj::{BitObjKind, FileMode, TreeEntry};
use crate::repo::BitRepo;
use crate::tree::{find_slash, lemma_next_slash, next_slash};
use vstd::prelude::*;

verus! {

/// What the tree cache holds for one directory, and for the directories under it.
pub struct TreeCacheView {
    pub path: Seq<u8>,
    pub tree_oid: Seq<u8>,
    pub entry_count: int,
    pub children: Seq<TreeCacheView>,
}

/// The tree cache of a directory.
#[derive(Debug, PartialEq)]
pub struct BitTreeCache {
    /// The path of the directory relative to its parent.
    pub path: Vec<u8>,
    /// The id of the tree of the directory.
    pub tree_oid: Oid,
    /// The number of files under the directory; -1 when unknown.
    pub entry_count: i64,
    /// The directories in the directory, each under its own path.
    pub children: Vec<BitTreeCache>,
}

impl BitTreeCache {
    /// What the cache holds.
    pub open spec fn view_of(self) -> TreeCacheView
        decreases self,
    {
        TreeCacheView {
            path: self.path@,
            tree_oid: self.tree_oid@,
            entry_count: self.entry_count as int,
            children: Seq::new(
                self.children@.len(),
                |i: int|
                    if 0 <= i < self.children@.len() {
                        self.children@[i].view_of()
                    } else {
                        arbitrary()
                    },
            ),
        }
    }
}

/// The components of `p` from position `from` on: the parts between slashes.
pub open spec fn comps_from(p: Seq<u8>, from: int) -> Seq<Seq<u8>>
    decreases p.len() + 1 - from,
{
    if from >= p.len() || from < 0 {
        Seq::empty()
    } else {
        let s = next_slash(p, from);
        proof {
            lemma_next_slash(p, from);
        }
        seq![p.subrange(from, s)] + comps_from(p, s + 1)
    }
}

/// The components of the path `p`.
pub open spec fn components(p: Seq<u8>) -> Seq<Seq<u8>> {
    comps_from(p, 0)
}

/// The position of the first of `cs` at the path `name`, or -1.
pub open spec fn child_pos(cs: Seq<TreeCacheView>, name: Seq<u8>) -> int
    decreases cs.len(),
{
    if cs.len() == 0 {
        -1
    } else {
        let r = child_pos(cs.drop_last(), name);
        if r >= 0 {
            r
        } else if cs.last().path == name {
            cs.len() - 1
        } else {
            -1
        }
    }
}

pub proof fn lemma_child_pos(cs: Seq<TreeCacheView>, name: Seq<u8>)
    ensures
        -1 <= child_pos(cs, name) < cs.len(),
        child_pos(cs, name) >= 0 ==> cs[child_pos(cs, name)].path == name,
        forall|j: int| 0 <= j < cs.len() && (child_pos(cs, name) < 0 || j < child_pos(cs, name)) ==> (#[trigger] cs[j]).path != name,
    decreases cs.len(),
{
    if cs.len() > 0 {
        lemma_child_pos(cs.drop_last(), name);
        assert forall|j: int| 0 <= j < cs.len() - 1 implies cs[j] == cs.drop_last()[j] by {}
    }
}

/// The cache of the directory that the components `comps` lead to from `v`.
pub open spec fn find_spec(v: TreeCacheView, comps: Seq<Seq<u8>>) -> Option<TreeCacheView>
    decreases comps.len(),
{
    if comps.len() == 0 {
        Some(v)
    } else {
        let i = child_pos(v.children, comps[0]);
        if i < 0 {
            None
        } else {
            find_spec(v.children[i], comps.skip(1))
        }
    }
}

/// `v` with the caches on the way to the directory the components `comps` lead to marked
/// unknown: `v` itself, and each directory on the way that the cache holds.
pub open spec fn invalidated(v: TreeCacheView, comps: Seq<Seq<u8>>) -> TreeCacheView
    decreases comps.len(),
{
    let cs = if comps.len() == 0 {
        v.children
    } else {
        let i = child_pos(v.children, comps[0]);
        if i < 0 {
            v.children
        } else {
            v.children.update(i, invalidated(v.children[i], comps.skip(1)))
        }
    };
    TreeCacheView { path: v.path, tree_oid: v.tree_oid, entry_count: -1, children: cs }
}

/// The cache and every cache under it are valid (their entry counts are known).
pub open spec fn fully_valid(v: TreeCacheView) -> bool
    decreases v, 0int,
{
    v.entry_count >= 0 && all_fully_valid(v.children, v.children.len() as int)
}

/// The first `n` caches of `cs` are fully valid.
pub open spec fn all_fully_valid(cs: Seq<TreeCacheView>, n: int) -> bool
    decreases cs, n,
{
    if n <= 0 || n > cs.len() {
        true
    } else {
        all_fully_valid(cs, n - 1) && fully_valid(cs[n - 1])
    }
}

/// What the caches hold.
pub open spec fn views(cs: Seq<BitTreeCache>) -> Seq<TreeCacheView> {
    Seq::new(cs.len(), |j: int| cs[j].view_of())
}

/// `cs` with the cache `c` stored under its path: in place of the first one at that path, or
/// added at the end.
pub open spec fn put_child(cs: Seq<TreeCacheView>, c: TreeCacheView) -> Seq<TreeCacheView> {
    let k = child_pos(cs, c.path);
    if k < 0 {
        cs.push(c)
    } else {
        cs.update(k, c)
    }
}

/// The cache of the tree `oid` at `path` in `odb`: its id, the number of files under it and
/// the caches of the trees in it; `None` where a tree is missing, a tree holds a submodule,
/// trees nest deeper than `fuel`, or a count does not fit an `i64`.
pub open spec fn cache_read(odb: Map<Seq<u8>, BitObjKind>, oid: Seq<u8>, path: Seq<u8>, fuel: nat) -> Option<TreeCacheView>
    decreases fuel, 1nat, 0nat,
{
    if fuel == 0 {
        None
    } else if odb.contains_key(oid) && odb[oid] is Tree {
        let es = odb[oid]->Tree_0.entries@;
        match cache_entries(odb, es, (fuel - 1) as nat, es.len()) {
            None => None,
            Some(r) => Some(TreeCacheView { path: path, tree_oid: oid, entry_count: r.0, children: r.1 }),
        }
    } else {
        None
    }
}

/// The number of files under the first `i` entries of `es` and the caches of the trees among
/// them, each stored under its path.
pub open spec fn cache_entries(odb: Map<Seq<u8>, BitObjKind>, es: Seq<TreeEntry>, fuel: nat, i: nat) -> Option<
    (int, Seq<TreeCacheView>),
>
    decreases fuel + 1, 0nat, i,
{
    if i == 0 {
        Some((0, Seq::empty()))
    } else {
        match cache_entries(odb, es, fuel, (i - 1) as nat) {
            None => None,
            Some(r) => {
                let e = es[i - 1];
                if e.mode == FileMode::TREE {
                    match cache_read(odb, e.oid@, e.path@, fuel) {
                        None => None,
                        Some(c) => if r.0 + c.entry_count > i64::MAX {
                            None
                        } else {
                            Some((r.0 + c.entry_count, put_child(r.1, c)))
                        },
                    }
                } else if e.mode == FileMode::GITLINK {
                    None
                } else if r.0 + 1 > i64::MAX {
                    None
                } else {
                    Some((r.0 + 1, r.1))
                }
            },
        }
    }
}

pub proof fn lemma_cache_read_nonneg(odb: Map<Seq<u8>, BitObjKind>, oid: Seq<u8>, path: Seq<u8>, fuel: nat)
    ensures
        cache_read(odb, oid, path, fuel) matches Some(v) ==> v.entry_count >= 0,
    decreases fuel, 1nat, 0nat,
{
    if fuel > 0 && odb.contains_key(oid) && odb[oid] is Tree {
        let es = odb[oid]->Tree_0.entries@;
        lemma_cache_entries_nonneg(odb, es, (fuel - 1) as nat, es.len());
    }
}

pub proof fn lemma_cache_entries_nonneg(odb: Map<Seq<u8>, BitObjKind>, es: Seq<TreeEntry>, fuel: nat, i: nat)
    ensures
        cache_entries(odb, es, fuel, i) matches Some(r) ==> r.0 >= 0,
    decreases fuel + 1, 0nat, i,
{
    if i > 0 {
        lemma_cache_entries_nonneg(odb, es, fuel, (i - 1) as nat);
        let e = es[i - 1];
        if e.mode == FileMode::TREE {
            lemma_cache_read_nonneg(odb, e.oid@, e.path@, fuel);
        }
    }
}

/// The sum of the entry counts of the caches.
pub open spec fn sum_counts(cs: Seq<TreeCacheView>) -> int
    decreases cs.len(),
{
    if cs.len() == 0 {
        0
    } else {
        sum_counts(cs.drop_last()) + cs.last().entry_count
    }
}

/// Adding the counts of `cs` one by one to `base` stays within the range of an `i64`.
pub open spec fn sums_fit(base: int, cs: Seq<TreeCacheView>) -> bool
    decreases cs.len(),
{
    if cs.len() == 0 {
        i64::MIN <= base <= i64::MAX
    } else {
        sums_fit(base, cs.drop_last()) && i64::MIN <= base + sum_counts(cs) <= i64::MAX
    }
}

/// The cache `old` brought up to date with the tree `oid` (see `update_entries`): its path
/// stays; `None` where `cache_read` would fail or a count does not fit an `i64`.
pub open spec fn cache_update(odb: Map<Seq<u8>, BitObjKind>, old: TreeCacheView, oid: Seq<u8>, fuel: nat) -> Option<
    TreeCacheView,
>
    decreases fuel, 1nat, 0nat,
{
    if fuel == 0 {
        None
    } else if odb.contains_key(oid) && odb[oid] is Tree {
        let es = odb[oid]->Tree_0.entries@;
        match update_entries(odb, old.children, es, (fuel - 1) as nat, es.len()) {
            None => None,
            Some(r) => if sums_fit(r.0, r.2) {
                Some(TreeCacheView { path: old.path, tree_oid: oid, entry_count: r.0 + sum_counts(r.2), children: r.2 })
            } else {
                None
            },
        }
    } else {
        None
    }
}

/// Along the first `i` entries of a tree: the number of files, the old caches of `olds` not
/// yet taken, and the new caches of the trees. A tree takes the old cache at its path, which
/// stays as it is where it is valid and of the same id, and is brought up to date otherwise;
/// without an old cache the tree is read afresh.
pub open spec fn update_entries(
    odb: Map<Seq<u8>, BitObjKind>,
    olds: Seq<TreeCacheView>,
    es: Seq<TreeEntry>,
    fuel: nat,
    i: nat,
) -> Option<(int, Seq<TreeCacheView>, Seq<TreeCacheView>)>
    decreases fuel + 1, 0nat, i,
{
    if i == 0 {
        Some((0, olds, Seq::empty()))
    } else {
        match update_entries(odb, olds, es, fuel, (i - 1) as nat) {
            None => None,
            Some(r) => {
                let e = es[i - 1];
                if e.mode == FileMode::TREE {
                    let k = child_pos(r.1, e.path@);
                    if 0 <= k < r.1.len() {
                        let c = r.1[k];
                        let rest = r.1.remove(k);
                        if c.entry_count < 0 || c.tree_oid != e.oid@ {
                            match cache_update(odb, c, e.oid@, fuel) {
                                None => None,
                                Some(c2) => Some((r.0, rest, put_child(r.2, c2))),
                            }
                        } else {
                            Some((r.0, rest, put_child(r.2, c)))
                        }
                    } else {
                        match cache_read(odb, e.oid@, e.path@, fuel) {
                            None => None,
                            Some(c2) => Some((r.0, r.1, put_child(r.2, c2))),
                        }
                    }
                } else if e.mode == FileMode::GITLINK {
                    None
                } else if r.0 + 1 > i64::MAX {
                    None
                } else {
                    Some((r.0 + 1, r.1, r.2))
                }
            },
        }
    }
}

proof fn lemma_update_entries_none(
    odb: Map<Seq<u8>, BitObjKind>,
    olds: Seq<TreeCacheView>,
    es: Seq<TreeEntry>,
    fuel: nat,
    i: nat,
    j: nat,
)
    requires
        update_entries(odb, olds, es, fuel, i) is None,
        i <= j,
    ensures
        update_entries(odb, olds, es, fuel, j) is None,
    decreases j - i,
{
    if i < j {
        lemma_update_entries_none(odb, olds, es, fuel, i, (j - 1) as nat);
    }
}

proof fn lemma_sums_fit_prefix(base: int, cs: Seq<TreeCacheView>, j: int)
    requires
        0 <= j <= cs.len(),
        sums_fit(base, cs),
    ensures
        sums_fit(base, cs.take(j)),
    decreases cs.len() - j,
{
    if j < cs.len() {
        assert(cs.drop_last().take(j) =~= cs.take(j));
        lemma_sums_fit_prefix(base, cs.drop_last(), j);
    } else {
        assert(cs.take(j) =~= cs);
    }
}

proof fn lemma_cache_entries_none(odb: Map<Seq<u8>, BitObjKind>, es: Seq<TreeEntry>, fuel: nat, i: nat, j: nat)
    requires
        cache_entries(odb, es, fuel, i) is None,
        i <= j,
    ensures
        cache_entries(odb, es, fuel, j) is None,
    decreases j - i,
{
    if i < j {
        lemma_cache_entries_none(odb, es, fuel, i, (j - 1) as nat);
    }
}

proof fn lemma_all_fully_valid(cs: Seq<TreeCacheView>, m: int, n: int)
    requires
        0 < m <= n <= cs.len(),
        !all_fully_valid(cs, m),
    ensures
        !all_fully_valid(cs, n),
    decreases n - m,
{
    if m < n {
        lemma_all_fully_valid(cs, m, n - 1);
    }
}

impl Default for BitTreeCache {
    /// The cache of the root directory with nothing known.
    fn default() -> (r: Self)
        ensures
            r.view_of() == (TreeCacheView { path: Seq::empty(), tree_oid: zero_hash(), entry_count: -1, children: Seq::empty() }),
    {
        let r = BitTreeCache { path: Vec::new(), tree_oid: SHA1Hash::unknown(), entry_count: -1, children: Vec::new() };
        proof {
            assert(r.view_of().path =~= Seq::<u8>::empty());
            assert(r.view_of().children =~= Seq::<TreeCacheView>::empty());
        }
        r
    }
}

/// The position of the first cache of `children` at the path `name`, if there is one.
fn position_in(children: &Vec<BitTreeCache>, name: &[u8]) -> (r: Option<usize>)
    ensures
        r is None <==> child_pos(views(children@), name@) < 0,
        r matches Some(i) ==> i == child_pos(views(children@), name@) && i < children@.len(),
{
    let ghost cs = views(children@);
    proof {
        lemma_child_pos(cs, name@);
    }
    let mut i: usize = 0;
    while i < children.len()
        invariant
            0 <= i <= children@.len(),
            cs == views(children@),
            cs.len() == children@.len(),
            -1 <= child_pos(cs, name@) < cs.len(),
            child_pos(cs, name@) >= 0 ==> cs[child_pos(cs, name@)].path == name@,
            forall|j: int| 0 <= j < cs.len() && (child_pos(cs, name@) < 0 || j < child_pos(cs, name@)) ==> (#[trigger] cs[j]).path
                != name@,
            forall|j: int| 0 <= j < i ==> (#[trigger] cs[j]).path != name@,
        decreases children@.len() - i,
    {
        assert(cs[i as int] == children@[i as int].view_of());
        if bytes_eq(children[i].path.as_slice(), name) {
            return Some(i);
        }
        i = i + 1;
    }
    None
}

/// Stores `c` among `children` under its path (see `put_child`).
fn put_child_exec(children: &mut Vec<BitTreeCache>, c: BitTreeCache)
    ensures
        views(final(children)@) == put_child(views(old(children)@), c.view_of()),
{
    let ghost v = c.view_of();
    match position_in(children, c.path.as_slice()) {
        None => {
            children.push(c);
            proof {
                assert(views(final(children)@) =~= views(old(children)@).push(v));
            }
        },
        Some(k) => {
            children.set(k, c);
            proof {
                assert(views(final(children)@) =~= views(old(children)@).update(k as int, v));
            }
        },
    }
}

impl BitTreeCache {
    /// The cache of the tree `oid` (of the root directory): see `cache_read`. Trees are read
    /// at most as many levels deep as there are objects; counts that do not fit an `i64` fail.
    pub fn read_tree(repo: &BitRepo, oid: &Oid) -> (r: BitResult<BitTreeCache>)
        ensures
            r matches Ok(c) ==> cache_read(repo.spec_odb(), oid@, Seq::empty(), repo.spec_odb_len()) == Some(c.view_of()),
            r is Err <==> cache_read(repo.spec_odb(), oid@, Seq::empty(), repo.spec_odb_len()) is None,
    {
        let fuel = repo.odb_len();
        let path: Vec<u8> = Vec::new();
        proof {
            assert(path@ =~= Seq::<u8>::empty());
        }
        Self::read_tree_internal(repo, oid, path, fuel)
    }

    fn read_tree_internal(repo: &BitRepo, oid: &Oid, path: Vec<u8>, fuel: usize) -> (r: BitResult<BitTreeCache>)
        ensures
            r matches Ok(c) ==> cache_read(repo.spec_odb(), oid@, path@, fuel as nat) == Some(c.view_of()),
            r is Err <==> cache_read(repo.spec_odb(), oid@, path@, fuel as nat) is None,
        decreases fuel,
    {
        if fuel == 0 {
            return Err(BitError::Unsupported);
        }
        let tree = match repo.read_tree(oid) {
            Ok(t) => t,
            Err(e) => {
                return Err(e);
            },
        };
        let ghost odb = repo.spec_odb();
        let ghost es = tree.entries@;
        let ghost f = (fuel - 1) as nat;
        let n = tree.entries.len();
        let mut count: i64 = 0;
        let mut children: Vec<BitTreeCache> = Vec::new();
        let mut i: usize = 0;
        proof {
            assert(views(children@) =~= Seq::<TreeCacheView>::empty());
        }
        while i < n
            invariant
                0 <= i <= n,
                n == es.len(),
                es == tree.entries@,
                odb == repo.spec_odb(),
                odb.contains_key(oid@) && odb[oid@] == BitObjKind::Tree(*tree),
                fuel > 0,
                f == fuel - 1,
                cache_entries(odb, es, f, i as nat) == Some((count as int, views(children@))),
            decreases n - i,
        {
            let e = &tree.entries[i];
            proof {
                assert(es[i as int] == *e);
            }
            if e.mode.is_tree() {
                let child = match Self::read_tree_internal(repo, &e.oid, copy_bytes(&e.path), fuel - 1) {
                    Ok(c) => c,
                    Err(err) => {
                        proof {
                            lemma_cache_entries_none(odb, es, f, (i + 1) as nat, n as nat);
                        }
                        return Err(err);
                    },
                };
                proof {
                    lemma_cache_read_nonneg(odb, e.oid@, e.path@, f);
                }
                match count.checked_add(child.entry_count) {
                    Some(c2) => {
                        count = c2;
                    },
                    None => {
                        proof {
                            lemma_cache_entries_none(odb, es, f, (i + 1) as nat, n as nat);
                        }
                        return Err(BitError::Unsupported);
                    },
                }
                put_child_exec(&mut children, child);
            } else if e.mode.is_gitlink() {
                        proof {
                            lemma_cache_entries_none(odb, es, f, (i + 1) as nat, n as nat);
                        }
                return Err(BitError::Unsupported);
            } else {
                match count.checked_add(1) {
                    Some(c2) => {
                        count = c2;
                    },
                    None => {
                        proof {
                            lemma_cache_entries_none(odb, es, f, (i + 1) as nat, n as nat);
                        }
                        return Err(BitError::Unsupported);
                    },
                }
            }
            i = i + 1;
        }
        let r = BitTreeCache { path, tree_oid: *oid, entry_count: count, children };
        proof {
            assert(r.view_of().children =~= views(r.children@));
        }
        Ok(r)
    }

    /// Brings the cache of the root directory up to date with the tree `oid` (see
    /// `cache_update`), keeping the caches of subtrees that did not change. Trees are read at
    /// most as many levels deep as there are objects.
    pub fn update(&mut self, repo: &BitRepo, oid: &Oid) -> (r: BitResult<()>)
        requires
            old(self).path@.len() == 0,
        ensures
            r is Ok <==> cache_update(repo.spec_odb(), old(self).view_of(), oid@, repo.spec_odb_len()) is Some,
            r is Ok ==> cache_update(repo.spec_odb(), old(self).view_of(), oid@, repo.spec_odb_len()) == Some(
                final(self).view_of(),
            ),
    {
        let fuel = repo.odb_len();
        self.update_internal(repo, oid, fuel)
    }

    fn update_internal(&mut self, repo: &BitRepo, oid: &Oid, fuel: usize) -> (r: BitResult<()>)
        ensures
            r is Ok <==> cache_update(repo.spec_odb(), old(self).view_of(), oid@, fuel as nat) is Some,
            r is Ok ==> cache_update(repo.spec_odb(), old(self).view_of(), oid@, fuel as nat) == Some(final(self).view_of()),
        decreases fuel,
    {
        if fuel == 0 {
            return Err(BitError::Unsupported);
        }
        let tree = match repo.read_tree(oid) {
            Ok(t) => t,
            Err(e) => {
                return Err(e);
            },
        };
        let ghost odb = repo.spec_odb();
        let ghost es = tree.entries@;
        let ghost f = (fuel - 1) as nat;
        let ghost v0 = self.view_of();
        let mut olds: Vec<BitTreeCache> = Vec::new();
        std::mem::swap(&mut olds, &mut self.children);
        proof {
            assert(views(olds@) =~= v0.children);
        }
        let n = tree.entries.len();
        let mut files: i64 = 0;
        let mut news: Vec<BitTreeCache> = Vec::new();
        proof {
            assert(views(news@) =~= Seq::<TreeCacheView>::empty());
        }
        let mut i: usize = 0;
        while i < n
            invariant
                0 <= i <= n,
                n == es.len(),
                es == tree.entries@,
                odb == repo.spec_odb(),
                odb.contains_key(oid@) && odb[oid@] == BitObjKind::Tree(*tree),
                fuel > 0,
                f == fuel - 1,
                update_entries(odb, v0.children, es, f, i as nat) == Some((files as int, views(olds@), views(news@))),
                v0 == old(self).view_of(),
            decreases n - i,
        {
            let e = &tree.entries[i];
            proof {
                assert(es[i as int] == *e);
            }
            if e.mode.is_tree() {
                match position_in(&olds, e.path.as_slice()) {
                    Some(k) => {
                        let ghost vo = views(olds@);
                        let mut c = olds.remove(k);
                        proof {
                            assert(vo[k as int] == c.view_of());
                            assert(views(olds@) =~= vo.remove(k as int));
                        }
                        if !c.is_valid() || !c.tree_oid.same(&e.oid) {
                            match c.update_internal(repo, &e.oid, fuel - 1) {
                                Ok(()) => {},
                                Err(err) => {
                                    proof {
                                        lemma_update_entries_none(odb, v0.children, es, f, (i + 1) as nat, n as nat);
                                    }
                                    return Err(err);
                                },
                            }
                        }
                        put_child_exec(&mut news, c);
                    },
                    None => {
                        let c = match Self::read_tree_internal(repo, &e.oid, copy_bytes(&e.path), fuel - 1) {
                            Ok(c) => c,
                            Err(err) => {
                                proof {
                                    lemma_update_entries_none(odb, v0.children, es, f, (i + 1) as nat, n as nat);
                                }
                                return Err(err);
                            },
                        };
                        put_child_exec(&mut news, c);
                    },
                }
            } else if e.mode.is_gitlink() {
                proof {
                    lemma_update_entries_none(odb, v0.children, es, f, (i + 1) as nat, n as nat);
                }
                return Err(BitError::Unsupported);
            } else {
                match files.checked_add(1) {
                    Some(c2) => {
                        files = c2;
                    },
                    None => {
                        proof {
                            assert(update_entries(odb, v0.children, es, f, (i + 1) as nat) is None);
                            lemma_update_entries_none(odb, v0.children, es, f, (i + 1) as nat, n as nat);
                            assert(update_entries(odb, v0.children, es, f, es.len()) is None);
                        }
                        return Err(BitError::Unsupported);
                    },
                }
            }
            i = i + 1;
        }
        let ghost vn = views(news@);
        let mut total: i64 = files;
        let mut j: usize = 0;
        proof {
            assert(vn.take(0) =~= Seq::<TreeCacheView>::empty());
        }
        while j < news.len()
            invariant
                0 <= j <= news@.len(),
                vn == views(news@),
                vn.len() == news@.len(),
                total == files + sum_counts(vn.take(j as int)),
                sums_fit(files as int, vn.take(j as int)),
                v0 == old(self).view_of(),
                odb == repo.spec_odb(),
                odb.contains_key(oid@) && odb[oid@] == BitObjKind::Tree(*tree),
                n == es.len(),
                es == tree.entries@,
                fuel > 0,
                f == fuel - 1,
                update_entries(odb, v0.children, es, f, n as nat) == Some((files as int, views(olds@), vn)),
            decreases news@.len() - j,
        {
            proof {
                assert(vn.take(j + 1).drop_last() =~= vn.take(j as int));
                assert(vn.take(j + 1).last() == news@[j as int].view_of());
            }
            match total.checked_add(news[j].entry_count) {
                Some(t) => {
                    total = t;
                },
                None => {
                    proof {
                        if sums_fit(files as int, vn) {
                            lemma_sums_fit_prefix(files as int, vn, j + 1);
                        }
                    }
                    return Err(BitError::Unsupported);
                },
            }
            j = j + 1;
        }
        proof {
            assert(vn.take(vn.len() as int) =~= vn);
        }
        self.tree_oid = *oid;
        self.entry_count = total;
        self.children = news;
        proof {
            assert(self.view_of().children =~= vn);
        }
        Ok(())
    }

    /// A copy of the cache.
    pub fn copy(&self) -> (r: Self)
        ensures
            r.view_of() == self.view_of(),
        decreases self,
    {
        let mut children: Vec<BitTreeCache> = Vec::new();
        let mut i: usize = 0;
        while i < self.children.len()
            invariant
                0 <= i <= self.children@.len(),
                children@.len() == i,
                forall|j: int| 0 <= j < i ==> (#[trigger] children@[j]).view_of() == self.children@[j].view_of(),
            decreases self.children@.len() - i,
        {
            assert(decreases_to!(self => self.children@[i as int]));
            let c = self.children[i].copy();
            children.push(c);
            i = i + 1;
        }
        let r = BitTreeCache { path: copy_bytes(&self.path), tree_oid: self.tree_oid, entry_count: self.entry_count, children };
        proof {
            assert(r.view_of().children =~= self.view_of().children);
        }
        r
    }

    /// Whether the entry count is known.
    pub fn is_valid(&self) -> (r: bool)
        ensures
            r == (self.entry_count >= 0),
    {
        self.entry_count >= 0
    }

    /// Whether this cache and every cache under it are valid.
    pub fn is_fully_valid(&self) -> (r: bool)
        ensures
            r == fully_valid(self.view_of()),
        decreases self,
    {
        if !self.is_valid() {
            return false;
        }
        let ghost cs = self.view_of().children;
        let mut i: usize = 0;
        while i < self.children.len()
            invariant
                0 <= i <= self.children@.len(),
                cs == self.view_of().children,
                cs.len() == self.children@.len(),
                self.entry_count >= 0,
                all_fully_valid(cs, i as int),
            decreases self.children@.len() - i,
        {
            assert(decreases_to!(self => self.children@[i as int]));
            assert(cs[i as int] == self.children@[i as int].view_of());
            if !self.children[i].is_fully_valid() {
                proof {
                    lemma_all_fully_valid(cs, i as int + 1, cs.len() as int);
                }
                return false;
            }
            i = i + 1;
        }
        true
    }

    /// Marks the entry count unknown.
    pub fn invalidate(&mut self)
        ensures
            final(self).view_of() == (TreeCacheView { entry_count: -1, ..old(self).view_of() }),
    {
        self.entry_count = -1;
        proof {
            assert(final(self).view_of().children =~= old(self).view_of().children);
        }
    }

    /// Marks unknown this cache and the caches of the directories on the way to `path` that
    /// it holds.
    pub fn invalidate_path(&mut self, path: &[u8])
        ensures
            final(self).view_of() == invalidated(old(self).view_of(), components(path@)),
    {
        self.invalidate_from(path, 0);
    }

    fn invalidate_from(&mut self, path: &[u8], from: usize)
        requires
            from <= path@.len(),
        ensures
            final(self).view_of() == invalidated(old(self).view_of(), comps_from(path@, from as int)),
        decreases path@.len() - from,
    {
        let ghost v0 = self.view_of();
        self.invalidate();
        if from >= path.len() {
            proof {
                assert(comps_from(path@, from as int) =~= Seq::<Seq<u8>>::empty());
            }
            return;
        }
        let s = find_slash(path, from);
        proof {
            lemma_next_slash(path@, from as int);
        }
        let name = slice_range(path, from, s);
        let ghost cs = comps_from(path@, from as int);
        proof {
            assert(cs[0] == name@);
            assert(cs.skip(1) =~= comps_from(path@, s + 1));
            assert(comps_from(path@, path@.len() + 1int) =~= comps_from(path@, path@.len() as int));
        }
        match self.child_index(name.as_slice()) {
            None => {},
            Some(i) => {
                let ghost before = self.children@;
                let mut child = self.children.remove(i);
                let next = if s < path.len() {
                    s + 1
                } else {
                    s
                };
                let ghost cv = child.view_of();
                child.invalidate_from(path, next);
                self.children.insert(i, child);
                proof {
                    assert(self.children@ =~= before.update(i as int, child));
                    assert(cv == v0.children[i as int]);
                    assert(self.view_of().children =~= v0.children.update(i as int, child.view_of()));
                }
            },
        }
    }

    /// The cache of the directory at `path` below this one, if its entry count is known and
    /// not zero.
    pub fn find_valid_child(&self, path: &[u8]) -> (r: Option<&BitTreeCache>)
        ensures
            r is None <==> (find_spec(self.view_of(), components(path@)) is None || find_spec(self.view_of(), components(
                path@,
            ))->0.entry_count <= 0),
            r matches Some(c) ==> find_spec(self.view_of(), components(path@)) == Some(c.view_of()),
    {
        match self.find_child(path) {
            Some(c) => {
                if c.entry_count > 0 {
                    Some(c)
                } else {
                    None
                }
            },
            None => None,
        }
    }

    /// The position of the child at the path `name`, if there is one.
    fn child_index(&self, name: &[u8]) -> (r: Option<usize>)
        ensures
            r is None <==> child_pos(self.view_of().children, name@) < 0,
            r matches Some(i) ==> i == child_pos(self.view_of().children, name@) && i < self.children@.len(),
    {
        let ghost cs = self.view_of().children;
        proof {
            lemma_child_pos(cs, name@);
        }
        let mut i: usize = 0;
        while i < self.children.len()
            invariant
                0 <= i <= self.children@.len(),
                cs == self.view_of().children,
                cs.len() == self.children@.len(),
                -1 <= child_pos(cs, name@) < cs.len(),
                child_pos(cs, name@) >= 0 ==> cs[child_pos(cs, name@)].path == name@,
                forall|j: int| 0 <= j < cs.len() && (child_pos(cs, name@) < 0 || j < child_pos(cs, name@)) ==> (#[trigger] cs[j]).path
                    != name@,
                forall|j: int| 0 <= j < i ==> (#[trigger] cs[j]).path != name@,
            decreases self.children@.len() - i,
        {
            assert(cs[i as int] == self.children@[i as int].view_of());
            if bytes_eq(self.children[i].path.as_slice(), name) {
                return Some(i);
            }
            i = i + 1;
        }
        None
    }

    /// The cache of the directory at `path` below this one.
    pub fn find_child(&self, path: &[u8]) -> (r: Option<&BitTreeCache>)
        ensures
            r is None <==> find_spec(self.view_of(), components(path@)) is None,
            r matches Some(c) ==> find_spec(self.view_of(), components(path@)) == Some(c.view_of()),
    {
        let mut cur: &BitTreeCache = self;
        let mut from: usize = 0;
        while from < path.len()
            invariant
                from <= path@.len(),
                find_spec(self.view_of(), components(path@)) == find_spec(cur.view_of(), comps_from(path@, from as int)),
            decreases path@.len() - from,
        {
            let s = find_slash(path, from);
            proof {
                lemma_next_slash(path@, from as int);
            }
            let name = slice_range(path, from, s);
            match cur.child_index(name.as_slice()) {
                None => {
                    return None;
                },
                Some(i) => {
                    proof {
                        let cs = comps_from(path@, from as int);
                        assert(cs[0] == name@);
                        assert(cs.skip(1) =~= comps_from(path@, s + 1));
                        assert(cur.view_of().children[i as int] == cur.children@[i as int].view_of());
                        assert(comps_from(path@, path@.len() + 1int) =~= comps_from(path@, path@.len() as int));
                    }
                    cur = &cur.children[i];
                    if s < path.len() {
                        from = s + 1;
                    } else {
                        from = s;
                    }
                },
            }
        }
        proof {
            assert(comps_from(path@, from as int) =~= Seq::<Seq<u8>>::empty());
        }
        Some(cur)
    }
}

} // verus!
