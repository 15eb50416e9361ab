//! The ancestry of commits: every commit a commit leads to, and the best common ancestors
//! of two commits.
use crate::bytemap::ByteMap;
use crate::bytes::slice_to_vec;
use crate::hash::Oid;
use crate::merge::{is_parent_path, parent_of, reaches};
use crate::obj::BitObjKind;
use crate::repo::BitRepo;
use vstd::prelude::*;

verus! {

/// `c` is a commit of `odb`.
pub open spec fn is_commit(odb: Map<Seq<u8>, BitObjKind>, c: Seq<u8>) -> bool {
    odb.contains_key(c) && odb[c] is Commit
}

/// `c` is a commit that the commit `from` leads to, following parents (`from` itself too).
pub open spec fn ancestor(odb: Map<Seq<u8>, BitObjKind>, from: Seq<u8>, c: Seq<u8>) -> bool {
    reaches(odb, from, c) && is_commit(odb, c)
}

/// `c` is an ancestor of both `a` and `b`.
pub open spec fn common_ancestor(odb: Map<Seq<u8>, BitObjKind>, a: Seq<u8>, b: Seq<u8>, c: Seq<u8>) -> bool {
    ancestor(odb, a, c) && ancestor(odb, b, c)
}

/// `c` is a best common ancestor of `a` and `b`: a common ancestor that no other common
/// ancestor leads to.
pub open spec fn best_common_ancestor(odb: Map<Seq<u8>, BitObjKind>, a: Seq<u8>, b: Seq<u8>, c: Seq<u8>) -> bool {
    &&& common_ancestor(odb, a, b, c)
    &&& forall|d: Seq<u8>| #[trigger] common_ancestor(odb, a, b, d) && d != c ==> !reaches(odb, d, c)
}

/// The id of parent `k` of the commit `c`.
pub open spec fn parent_id(odb: Map<Seq<u8>, BitObjKind>, c: Seq<u8>, k: int) -> Seq<u8> {
    odb[c]->Commit_0.parents@[k]@
}

/// Some commit waiting in `work` is `c`.
pub open spec fn waiting(work: Seq<Oid>, c: Seq<u8>) -> bool {
    exists|j: int| 0 <= j < work.len() && (#[trigger] work[j])@ == c
}

/// Every commit of `seen` that is not waiting has its parents that are commits in `seen`.
pub open spec fn closed_but(odb: Map<Seq<u8>, BitObjKind>, seen: Map<Seq<u8>, Oid>, work: Seq<Oid>) -> bool {
    forall|c: Seq<u8>, k: int| #[trigger] seen.contains_key(c) && !waiting(work, c) && 0 <= k < odb[c]->Commit_0.parents@.len()
        && is_commit(odb, #[trigger] parent_id(odb, c, k)) ==> seen.contains_key(parent_id(odb, c, k))
}

/// A set of commits that holds `x` and the parents that are commits of each of its commits
/// holds every ancestor of `x`.
proof fn lemma_closed_holds_ancestors(odb: Map<Seq<u8>, BitObjKind>, seen: Map<Seq<u8>, Oid>, x: Seq<u8>, c: Seq<u8>)
    requires
        seen.contains_key(x),
        forall|y: Seq<u8>| #[trigger] seen.contains_key(y) ==> is_commit(odb, y),
        closed_but(odb, seen, Seq::empty()),
        ancestor(odb, x, c),
    ensures
        seen.contains_key(c),
{
    let path = choose|path: Seq<Seq<u8>>| #[trigger] is_parent_path(odb, path) && path.len() >= 1 && path[0] == x && path.last() == c;
    lemma_closed_holds_path(odb, seen, path, path.len() - 1);
}

/// Every commit of a parent path that starts in a closed set of commits and ends at a
/// commit lies in the set.
proof fn lemma_closed_holds_path(odb: Map<Seq<u8>, BitObjKind>, seen: Map<Seq<u8>, Oid>, path: Seq<Seq<u8>>, i: int)
    requires
        0 <= i < path.len(),
        is_parent_path(odb, path),
        seen.contains_key(path[0]),
        is_commit(odb, path.last()),
        forall|y: Seq<u8>| #[trigger] seen.contains_key(y) ==> is_commit(odb, y),
        closed_but(odb, seen, Seq::empty()),
    ensures
        seen.contains_key(path[i]),
    decreases i,
{
    if i > 0 {
        lemma_closed_holds_path(odb, seen, path, i - 1);
        let y = path[i - 1];
        assert(parent_of(odb, y, path[i]));
        let k = choose|k: int| 0 <= k < odb[y]->Commit_0.parents@.len() && (#[trigger] odb[y]->Commit_0.parents@[k])@ == path[i];
        assert(parent_id(odb, y, k) == path[i]);
        if i < path.len() - 1 {
            assert(parent_of(odb, path[i], path[i + 1]));
        }
        assert(is_commit(odb, path[i]));
        assert(!waiting(Seq::<Oid>::empty(), y));
    }
}

/// What `a` leads to, and what that leads to, `a` leads to.
pub proof fn lemma_reaches_trans(odb: Map<Seq<u8>, BitObjKind>, a: Seq<u8>, b: Seq<u8>, c: Seq<u8>)
    requires
        reaches(odb, a, b),
        reaches(odb, b, c),
    ensures
        reaches(odb, a, c),
{
    let p1 = choose|path: Seq<Seq<u8>>| #[trigger] is_parent_path(odb, path) && path.len() >= 1 && path[0] == a && path.last() == b;
    let p2 = choose|path: Seq<Seq<u8>>| #[trigger] is_parent_path(odb, path) && path.len() >= 1 && path[0] == b && path.last() == c;
    let p = p1 + p2.drop_first();
    assert forall|i: int| 0 <= i < p.len() - 1 implies parent_of(odb, #[trigger] p[i], p[i + 1]) by {
        if i < p1.len() - 1 {
            assert(p[i] == p1[i] && p[i + 1] == p1[i + 1]);
        } else if i == p1.len() - 1 {
            assert(p[i] == b && p2[0] == b);
            assert(p[i + 1] == p2[1]);
            assert(parent_of(odb, p2[0], p2[1]));
        } else {
            let k = i - p1.len() + 1;
            assert(p[i] == p2[k] && p[i + 1] == p2[k + 1]);
            assert(parent_of(odb, p2[k], p2[k + 1]));
        }
    }
    assert(is_parent_path(odb, p));
    if p2.len() == 1 {
        assert(p =~= p1);
    } else {
        assert(p.last() == p2.last());
    }
}

/// A commit that has an ancestor is itself a commit.
pub proof fn lemma_ancestor_from_commit(odb: Map<Seq<u8>, BitObjKind>, a: Seq<u8>, c: Seq<u8>)
    requires
        ancestor(odb, a, c),
    ensures
        is_commit(odb, a),
{
    let p = choose|path: Seq<Seq<u8>>| #[trigger] is_parent_path(odb, path) && path.len() >= 1 && path[0] == a && path.last() == c;
    if p.len() > 1 {
        assert(parent_of(odb, p[0], p[1]));
    }
}

/// `c` lies on no cycle of parents: nothing it leads to leads back to it, but itself.
pub open spec fn acyclic_at(odb: Map<Seq<u8>, BitObjKind>, c: Seq<u8>) -> bool {
    forall|d: Seq<u8>| #[trigger] reaches(odb, c, d) && reaches(odb, d, c) ==> d == c
}

/// `c` is the one best common ancestor of `a` and `b`.
pub open spec fn only_best_common_ancestor(odb: Map<Seq<u8>, BitObjKind>, a: Seq<u8>, b: Seq<u8>, c: Seq<u8>) -> bool {
    &&& best_common_ancestor(odb, a, b, c)
    &&& forall|d: Seq<u8>| #[trigger] best_common_ancestor(odb, a, b, d) ==> d == c
}

/// When the commit `y` is an ancestor of the commit `x`, and lies on no cycle, `y` is the one
/// best common ancestor of `x` and `y`, taken in either order.
pub proof fn law_ancestor_is_the_merge_base(odb: Map<Seq<u8>, BitObjKind>, x: Seq<u8>, y: Seq<u8>)
    requires
        ancestor(odb, x, y),
        acyclic_at(odb, y),
    ensures
        only_best_common_ancestor(odb, x, y, y),
        only_best_common_ancestor(odb, y, x, y),
{
    crate::merge::lemma_reaches_self(odb, y);
    assert(common_ancestor(odb, x, y, y));
    assert forall|d: Seq<u8>| #[trigger] common_ancestor(odb, x, y, d) && d != y implies !reaches(odb, d, y) by {
        assert(reaches(odb, y, d));
    }
    assert(best_common_ancestor(odb, x, y, y));
    assert forall|d: Seq<u8>| #[trigger] best_common_ancestor(odb, x, y, d) implies d == y by {
        if d != y {
            assert(reaches(odb, y, d));
            assert(!reaches(odb, y, d));
        }
    }
    assert forall|d: Seq<u8>| #[trigger] common_ancestor(odb, y, x, d) <==> common_ancestor(odb, x, y, d) by {}
    assert(best_common_ancestor(odb, y, x, y));
    assert forall|d: Seq<u8>| #[trigger] best_common_ancestor(odb, y, x, d) implies d == y by {
        assert(best_common_ancestor(odb, x, y, d));
    }
}

/// The ids of `v` are pairwise distinct.
pub open spec fn distinct_ids(v: Seq<Oid>) -> bool {
    forall|i: int, j: int| 0 <= i < j < v.len() ==> (#[trigger] v[i])@ != (#[trigger] v[j])@
}

/// Whether some commit of `v` is `o`.
fn holds_oid(v: &Vec<Oid>, o: &Oid) -> (r: bool)
    ensures
        r == waiting(v@, o@),
{
    let mut i: usize = 0;
    while i < v.len()
        invariant
            0 <= i <= v@.len(),
            forall|j: int| 0 <= j < i ==> (#[trigger] v@[j])@ != o@,
        decreases v@.len() - i,
    {
        if v[i].same(o) {
            return true;
        }
        i = i + 1;
    }
    false
}

/// Pushing an id that `v` lacks keeps the ids distinct and adds it to those waiting.
proof fn lemma_push_distinct(v: Seq<Oid>, o: Oid)
    requires
        distinct_ids(v),
        !waiting(v, o@),
    ensures
        distinct_ids(v.push(o)),
        forall|c: Seq<u8>| #[trigger] waiting(v.push(o), c) <==> waiting(v, c) || c == o@,
{
    let w = v.push(o);
    assert forall|i: int, j: int| 0 <= i < j < w.len() implies (#[trigger] w[i])@ != (#[trigger] w[j])@ by {
        if j == v.len() {
            assert(w[i] == v[i]);
        } else {
            assert(w[i] == v[i] && w[j] == v[j]);
        }
    }
    assert forall|c: Seq<u8>| #[trigger] waiting(w, c) <==> waiting(v, c) || c == o@ by {
        if waiting(v, c) {
            let j = choose|j: int| 0 <= j < v.len() && (#[trigger] v[j])@ == c;
            assert(w[j] == v[j]);
        }
        if c == o@ {
            assert(w[v.len() as int] == o);
        }
        if waiting(w, c) {
            let j = choose|j: int| 0 <= j < w.len() && (#[trigger] w[j])@ == c;
            if j < v.len() {
                assert(w[j] == v[j]);
            }
        }
    }
}

impl BitRepo {
    /// Every commit that the commit `x` leads to, following parents, `x` among them; each
    /// mapped to its id.
    pub fn ancestors(&self, x: Oid) -> (r: ByteMap<Oid>)
        requires
            is_commit(self.spec_odb(), x@),
        ensures
            forall|c: Seq<u8>| #[trigger] r.spec_map().contains_key(c) <==> ancestor(self.spec_odb(), x@, c),
            forall|c: Seq<u8>| #[trigger] r.spec_map().contains_key(c) ==> r.spec_map()[c]@ == c,
    {
        let ghost odb = self.spec_odb();
        let mut seen: ByteMap<Oid> = ByteMap::new();
        seen.insert(slice_to_vec(x.as_bytes().as_slice()), x);
        let mut work: Vec<Oid> = Vec::new();
        work.push(x);
        proof {
            crate::merge::lemma_reaches_self(odb, x@);
            assert(seen.spec_map().dom() =~= Set::<Seq<u8>>::empty().insert(x@));
            self.lemma_odb_bound(seen.spec_map().dom());
            assert(work@[0]@ == x@);
        }
        while work.len() > 0
            invariant
                odb == self.spec_odb(),
                seen.spec_map().dom().finite(),
                seen.spec_map().dom().len() <= self.spec_odb_len(),
                seen.spec_map().contains_key(x@),
                forall|c: Seq<u8>| #[trigger] seen.spec_map().contains_key(c) ==> ancestor(odb, x@, c),
                forall|c: Seq<u8>| #[trigger] seen.spec_map().contains_key(c) ==> seen.spec_map()[c]@ == c,
                forall|j: int| 0 <= j < work@.len() ==> seen.spec_map().contains_key((#[trigger] work@[j])@),
                closed_but(odb, seen.spec_map(), work@),
            decreases self.spec_odb_len() - seen.spec_map().dom().len(), work@.len(),
        {
            let ghost len0 = seen.spec_map().dom().len();
            let ghost work0 = work@;
            let y = work.pop().unwrap();
            let ghost work1 = work@;
            proof {
                assert(work0[work0.len() - 1] == y);
                assert(seen.spec_map().contains_key(y@));
                assert forall|j: int| 0 <= j < work1.len() implies work1[j] == work0[j] by {}
            }
            let commit = self.read_commit(&y).unwrap();
            let n = commit.parents.len();
            let mut k: usize = 0;
            while k < n
                invariant
                    0 <= k <= n,
                    n == commit.parents@.len(),
                    odb == self.spec_odb(),
                    odb[y@] == BitObjKind::Commit(*commit),
                    ancestor(odb, x@, y@),
                    seen.spec_map().dom().finite(),
                    seen.spec_map().dom().len() <= self.spec_odb_len(),
                    seen.spec_map().dom().len() >= len0,
                    work@.len() == work1.len() + (seen.spec_map().dom().len() - len0),
                    forall|j: int| 0 <= j < work1.len() ==> work@[j] == work1[j],
                    seen.spec_map().contains_key(x@),
                    seen.spec_map().contains_key(y@),
                    forall|c: Seq<u8>| #[trigger] seen.spec_map().contains_key(c) ==> ancestor(odb, x@, c),
                    forall|c: Seq<u8>| #[trigger] seen.spec_map().contains_key(c) ==> seen.spec_map()[c]@ == c,
                    forall|j: int| 0 <= j < work@.len() ==> seen.spec_map().contains_key((#[trigger] work@[j])@),
                    forall|c: Seq<u8>, i: int| #[trigger] seen.spec_map().contains_key(c) && !waiting(work0, c) && !waiting(work@, c)
                        && 0 <= i < odb[c]->Commit_0.parents@.len() && is_commit(odb, #[trigger] parent_id(odb, c, i))
                        ==> seen.spec_map().contains_key(parent_id(odb, c, i)),
                    forall|i: int| 0 <= i < k && is_commit(odb, #[trigger] parent_id(odb, y@, i)) ==> seen.spec_map().contains_key(
                        parent_id(odb, y@, i)),
                decreases n - k,
            {
                let p = commit.parents[k];
                proof {
                    assert(parent_id(odb, y@, k as int) == p@);
                }
                if self.read_commit(&p).is_ok() && !seen.contains_key(p.as_bytes().as_slice()) {
                    let ghost m0 = seen.spec_map();
                    let ghost w0 = work@;
                    seen.insert(slice_to_vec(p.as_bytes().as_slice()), p);
                    work.push(p);
                    proof {
                        assert(parent_of(odb, y@, p@)) by {
                            assert((odb[y@]->Commit_0.parents@[k as int])@ == p@);
                        }
                        crate::merge::lemma_reaches_parent(odb, x@, y@, p@);
                        assert(seen.spec_map().dom() =~= m0.dom().insert(p@));
                        assert(forall|c: Seq<u8>| #[trigger] seen.spec_map().contains_key(c) ==> odb.contains_key(c));
                        self.lemma_odb_bound(seen.spec_map().dom());
                        assert forall|j: int| 0 <= j < work@.len() implies seen.spec_map().contains_key((#[trigger] work@[j])@) by {
                            if j < w0.len() {
                                assert(work@[j] == w0[j]);
                            }
                        }
                        assert forall|c: Seq<u8>, i: int| #[trigger] seen.spec_map().contains_key(c) && !waiting(work0, c) && !waiting(
                            work@, c) && 0 <= i < odb[c]->Commit_0.parents@.len() && is_commit(odb, #[trigger] parent_id(odb, c, i))
                            implies seen.spec_map().contains_key(parent_id(odb, c, i)) by {
                            if c != p@ {
                                assert(m0.contains_key(c));
                                if waiting(w0, c) {
                                    let j = choose|j: int| 0 <= j < w0.len() && (#[trigger] w0[j])@ == c;
                                    assert(work@[j] == w0[j]);
                                }
                            } else {
                                assert(work@[w0.len() as int] == p);
                            }
                        }
                        assert forall|j: int| 0 <= j < work1.len() implies work@[j] == work1[j] by {
                            assert(work@[j] == w0[j]);
                        }
                    }
                }
                k = k + 1;
            }
            proof {
                assert forall|c: Seq<u8>, i: int| #[trigger] seen.spec_map().contains_key(c) && !waiting(work@, c) && 0 <= i
                    < odb[c]->Commit_0.parents@.len() && is_commit(odb, #[trigger] parent_id(odb, c, i)) implies seen.spec_map().contains_key(
                    parent_id(odb, c, i)) by {
                    if c != y@ && waiting(work0, c) {
                        {
                            let j = choose|j: int| 0 <= j < work0.len() && (#[trigger] work0[j])@ == c;
                            if j < work1.len() {
                                assert(work@[j] == work1[j]);
                                assert(waiting(work@, c));
                            } else {
                                assert(work0[j] == y);
                            }
                        }
                    }
                }
            }
        }
        proof {
            assert(work@ =~= Seq::<Oid>::empty());
            assert forall|c: Seq<u8>| ancestor(odb, x@, c) implies #[trigger] seen.spec_map().contains_key(c) by {
                lemma_closed_holds_ancestors(odb, seen.spec_map(), x@, c);
            }
        }
        seen
    }

    /// The best common ancestors of the commits `a` and `b`, each once: first those of
    /// `order`, in its order, then the others in increasing order of id.
    pub fn best_common_ancestors(&self, a: Oid, b: Oid, order: &Vec<Oid>) -> (r: Vec<Oid>)
        requires
            is_commit(self.spec_odb(), a@),
            is_commit(self.spec_odb(), b@),
        ensures
            forall|j: int| 0 <= j < r@.len() ==> best_common_ancestor(self.spec_odb(), a@, b@, (#[trigger] r@[j])@),
            forall|c: Seq<u8>| #[trigger] best_common_ancestor(self.spec_odb(), a@, b@, c) ==> waiting(r@, c),
            distinct_ids(r@),
    {
        let ghost odb = self.spec_odb();
        let sa = self.ancestors(a);
        let sb = self.ancestors(b);
        sa.well_formed();
        proof {
            sa.lemma_list();
        }
        let n = sa.len();
        let mut common: Vec<Oid> = Vec::new();
        let mut i: usize = 0;
        while i < n
            invariant
                0 <= i <= n,
                n == sa.spec_keys().len(),
                n == sa.spec_vals().len(),
                forall|k: int| 0 <= k < sa.spec_keys().len() ==> sa.spec_map().contains_key(#[trigger] sa.spec_keys()[k])
                    && sa.spec_map()[sa.spec_keys()[k]] == sa.spec_vals()[k],
                forall|c: Seq<u8>| #[trigger] sa.spec_map().contains_key(c) ==> sa.spec_map()[c]@ == c,
                forall|c: Seq<u8>| #[trigger] sa.spec_map().contains_key(c) <==> ancestor(odb, a@, c),
                forall|c: Seq<u8>| #[trigger] sb.spec_map().contains_key(c) <==> ancestor(odb, b@, c),
                forall|j: int| 0 <= j < common@.len() ==> common_ancestor(odb, a@, b@, (#[trigger] common@[j])@),
                forall|k: int| 0 <= k < i && common_ancestor(odb, a@, b@, #[trigger] sa.spec_keys()[k]) ==> waiting(common@,
                    sa.spec_keys()[k]),
            decreases n - i,
        {
            let o = *sa.val_at(i);
            proof {
                assert(o@ == sa.spec_keys()[i as int]);
            }
            let ghost c0 = common@;
            if sb.contains_key(o.as_bytes().as_slice()) {
                common.push(o);
                proof {
                    assert(common@[c0.len() as int] == o);
                    assert forall|k: int| 0 <= k < i + 1 && common_ancestor(odb, a@, b@, #[trigger] sa.spec_keys()[k]) implies waiting(
                        common@, sa.spec_keys()[k]) by {
                        if k < i {
                            let j = choose|j: int| 0 <= j < c0.len() && (#[trigger] c0[j])@ == sa.spec_keys()[k];
                            assert(common@[j] == c0[j]);
                        }
                    }
                    assert forall|j: int| 0 <= j < common@.len() implies common_ancestor(odb, a@, b@, (#[trigger] common@[j])@) by {
                        if j < c0.len() {
                            assert(common@[j] == c0[j]);
                        }
                    }
                }
            }
            i = i + 1;
        }
        proof {
            assert forall|c: Seq<u8>| common_ancestor(odb, a@, b@, c) implies #[trigger] waiting(common@, c) by {
                assert(sa.spec_map().contains_key(c));
                let k = choose|k: int| 0 <= k < sa.spec_keys().len() && sa.spec_keys()[k] == c;
                assert(common_ancestor(odb, a@, b@, sa.spec_keys()[k]));
            }
        }
        let m = common.len();
        let mut stale: ByteMap<u8> = ByteMap::new();
        let mut i: usize = 0;
        while i < m
            invariant
                odb == self.spec_odb(),
                0 <= i <= m,
                m == common@.len(),
                forall|j: int| 0 <= j < common@.len() ==> common_ancestor(odb, a@, b@, (#[trigger] common@[j])@),
                forall|c: Seq<u8>| #[trigger] stale.spec_map().contains_key(c) ==> exists|d: Seq<u8>| #[trigger] common_ancestor(odb,
                    a@, b@, d) && d != c && reaches(odb, d, c),
                forall|j: int, k: int| 0 <= j < i && 0 <= k < m && (#[trigger] common@[j])@ != (#[trigger] common@[k])@ && ancestor(
                    odb, common@[j]@, common@[k]@) ==> stale.spec_map().contains_key(common@[k]@),
            decreases m - i,
        {
            let d = common[i];
            proof {
                assert(common_ancestor(odb, a@, b@, common@[i as int]@));
            }
            let ad = self.ancestors(d);
            let mut k: usize = 0;
            while k < m
                invariant
                    0 <= k <= m,
                    0 <= i < m,
                    m == common@.len(),
                    d == common@[i as int],
                    forall|c: Seq<u8>| #[trigger] ad.spec_map().contains_key(c) <==> ancestor(odb, d@, c),
                    forall|j: int| 0 <= j < common@.len() ==> common_ancestor(odb, a@, b@, (#[trigger] common@[j])@),
                    forall|c: Seq<u8>| #[trigger] stale.spec_map().contains_key(c) ==> exists|d2: Seq<u8>| #[trigger] common_ancestor(
                        odb, a@, b@, d2) && d2 != c && reaches(odb, d2, c),
                    forall|j: int, k2: int| 0 <= j < i && 0 <= k2 < m && (#[trigger] common@[j])@ != (#[trigger] common@[k2])@
                        && ancestor(odb, common@[j]@, common@[k2]@) ==> stale.spec_map().contains_key(common@[k2]@),
                    forall|k2: int| 0 <= k2 < k && (#[trigger] common@[k2])@ != d@ && ancestor(odb, d@, common@[k2]@)
                        ==> stale.spec_map().contains_key(common@[k2]@),
                decreases m - k,
            {
                let c = common[k];
                if !c.same(&d) && ad.contains_key(c.as_bytes().as_slice()) {
                    stale.insert(slice_to_vec(c.as_bytes().as_slice()), 1u8);
                    proof {
                        assert(common_ancestor(odb, a@, b@, common@[i as int]@));
                    }
                }
                k = k + 1;
            }
            proof {
                assert forall|j: int, k2: int| 0 <= j < i + 1 && 0 <= k2 < m && (#[trigger] common@[j])@ != (#[trigger] common@[k2])@
                    && ancestor(odb, common@[j]@, common@[k2]@) implies stale.spec_map().contains_key(common@[k2]@) by {
                    if j == i {
                        assert(common@[k2]@ != d@);
                    }
                }
            }
            i = i + 1;
        }
        proof {
            assert forall|c: Seq<u8>| #[trigger] waiting(common@, c) implies (best_common_ancestor(odb, a@, b@, c)
                <==> !stale.spec_map().contains_key(c)) by {
                let k = choose|k: int| 0 <= k < common@.len() && (#[trigger] common@[k])@ == c;
                if stale.spec_map().contains_key(c) {
                    let d = choose|d: Seq<u8>| #[trigger] common_ancestor(odb, a@, b@, d) && d != c && reaches(odb, d, c);
                }
                if !best_common_ancestor(odb, a@, b@, c) {
                    assert(common_ancestor(odb, a@, b@, common@[k]@));
                    let d = choose|d: Seq<u8>| #[trigger] common_ancestor(odb, a@, b@, d) && d != c && reaches(odb, d, c);
                    assert(waiting(common@, d));
                    let j = choose|j: int| 0 <= j < common@.len() && (#[trigger] common@[j])@ == d;
                    assert(ancestor(odb, common@[j]@, common@[k]@));
                }
            }
        }
        let mut r: Vec<Oid> = Vec::new();
        let mut i: usize = 0;
        while i < order.len()
            invariant
                0 <= i <= order@.len(),
                forall|c: Seq<u8>| #[trigger] waiting(common@, c) ==> (best_common_ancestor(odb, a@, b@, c)
                    <==> !stale.spec_map().contains_key(c)),
                forall|c: Seq<u8>| #[trigger] sa.spec_map().contains_key(c) <==> ancestor(odb, a@, c),
                forall|c: Seq<u8>| #[trigger] sb.spec_map().contains_key(c) <==> ancestor(odb, b@, c),
                forall|c: Seq<u8>| common_ancestor(odb, a@, b@, c) ==> #[trigger] waiting(common@, c),
                forall|j: int| 0 <= j < r@.len() ==> best_common_ancestor(odb, a@, b@, (#[trigger] r@[j])@),
                distinct_ids(r@),
            decreases order@.len() - i,
        {
            let o = order[i];
            if sa.contains_key(o.as_bytes().as_slice()) && sb.contains_key(o.as_bytes().as_slice()) && !stale.contains_key(
                o.as_bytes().as_slice()) && !holds_oid(&r, &o) {
                proof {
                    assert(waiting(common@, o@));
                    lemma_push_distinct(r@, o);
                }
                let ghost r0 = r@;
                r.push(o);
                proof {
                    assert forall|j: int| 0 <= j < r@.len() implies best_common_ancestor(odb, a@, b@, (#[trigger] r@[j])@) by {
                        if j < r0.len() {
                            assert(r@[j] == r0[j]);
                        }
                    }
                }
            }
            i = i + 1;
        }
        let mut i: usize = 0;
        while i < m
            invariant
                odb == self.spec_odb(),
                0 <= i <= m,
                m == common@.len(),
                forall|c: Seq<u8>| #[trigger] waiting(common@, c) ==> (best_common_ancestor(odb, a@, b@, c)
                    <==> !stale.spec_map().contains_key(c)),
                forall|c: Seq<u8>| common_ancestor(odb, a@, b@, c) ==> #[trigger] waiting(common@, c),
                forall|j: int| 0 <= j < r@.len() ==> best_common_ancestor(odb, a@, b@, (#[trigger] r@[j])@),
                distinct_ids(r@),
                forall|k: int| 0 <= k < i && best_common_ancestor(odb, a@, b@, (#[trigger] common@[k])@) ==> waiting(r@, common@[k]@),
            decreases m - i,
        {
            let c = common[i];
            proof {
                assert(waiting(common@, c@)) by {
                    assert(common@[i as int] == c);
                }
            }
            let ghost r0 = r@;
            if !stale.contains_key(c.as_bytes().as_slice()) && !holds_oid(&r, &c) {
                proof {
                    lemma_push_distinct(r@, c);
                }
                r.push(c);
                proof {
                    assert forall|j: int| 0 <= j < r@.len() implies best_common_ancestor(odb, a@, b@, (#[trigger] r@[j])@) by {
                        if j < r0.len() {
                            assert(r@[j] == r0[j]);
                        }
                    }
                }
            }
            proof {
                assert forall|k: int| 0 <= k < i + 1 && best_common_ancestor(odb, a@, b@, (#[trigger] common@[k])@) implies waiting(
                    r@, common@[k]@) by {
                    if waiting(r0, common@[k]@) {
                        let j = choose|j: int| 0 <= j < r0.len() && (#[trigger] r0[j])@ == common@[k]@;
                        assert(r@[j] == r0[j]);
                    }
                    if k == i && !waiting(r0, common@[k]@) {
                        assert(waiting(common@, common@[k]@));
                    }
                }
            }
            i = i + 1;
        }
        proof {
            assert forall|c: Seq<u8>| #[trigger] best_common_ancestor(odb, a@, b@, c) implies waiting(r@, c) by {
                assert(waiting(common@, c));
                let k = choose|k: int| 0 <= k < common@.len() && (#[trigger] common@[k])@ == c;
                assert(best_common_ancestor(odb, a@, b@, common@[k]@));
            }
        }
        r
    }
}

} // verus!
