//! Revisions: a reference, `HEAD` or an id, followed by `^n` (the n-th parent) and `~n`
//! (the n-th first-parent ancestor) steps.
use crate::bytes::slice_to_vec;
use crate::error::{BitError, BitResult};
use crate::hash::{all_hex_digits, bytes_eq, hex_value, Oid, SHA1Hash};
use crate::obj::{BitObjKind, Commit};
use crate::repo::{expand_ref, head_name, head_name_bytes, resolve, resolves, BitRef, BitRepo, RefView};
use vstd::prelude::*;

verus! {

/// `^` or `~`
pub open spec fn is_step_char(c: u8) -> bool {
    c == 94u8 || c == 126u8
}

/// The position of the first `^` or `~` at or after `from`, or the length.
pub open spec fn base_end(s: Seq<u8>, from: int) -> int
    decreases s.len() - from,
{
    if from >= s.len() {
        s.len() as int
    } else if is_step_char(s[from]) {
        from
    } else {
        base_end(s, from + 1)
    }
}

proof fn lemma_base_end(s: Seq<u8>, from: int)
    requires
        0 <= from <= s.len(),
    ensures
        from <= base_end(s, from) <= s.len(),
        base_end(s, from) < s.len() ==> is_step_char(s[base_end(s, from)]),
        forall|i: int| from <= i < base_end(s, from) ==> !is_step_char(s[i]),
    decreases s.len() - from,
{
    if from < s.len() && !is_step_char(s[from]) {
        lemma_base_end(s, from + 1);
    }
}

/// The parent `n` of a commit: `0` is the commit itself, `n` is its `n`-th parent.
pub open spec fn nth_parent(odb: Map<Seq<u8>, BitObjKind>, oid: Seq<u8>, n: nat) -> Option<Seq<u8>> {
    if n == 0 {
        Some(oid)
    } else if odb.contains_key(oid) && odb[oid] is Commit && n <= odb[oid]->Commit_0.parents@.len() {
        Some(odb[oid]->Commit_0.parents@[n - 1]@)
    } else {
        None
    }
}

/// The ancestor `n` first parents up from a commit.
pub open spec fn first_parent_ancestor(odb: Map<Seq<u8>, BitObjKind>, oid: Seq<u8>, n: nat) -> Option<Seq<u8>>
    decreases n,
{
    if n == 0 {
        Some(oid)
    } else {
        match nth_parent(odb, oid, 1) {
            Some(p) => first_parent_ancestor(odb, p, (n - 1) as nat),
            None => None,
        }
    }
}

/// The reference that a revision's base (the part before its first step) stands for, where
/// it stands for one: what HEAD holds, an id, or the full name of a reference.
pub open spec fn rev_base_ref(repo: BitRepo, base: Seq<u8>) -> Option<RefView> {
    if base == head_name() {
        Some(repo.spec_head())
    } else if base.len() == 40 && all_hex_digits(base) {
        Some(RefView::Direct(hex_value(base)))
    } else {
        match expand_ref(repo.spec_refs(), base) {
            Some(n) => Some(RefView::Symbolic(n)),
            None => None,
        }
    }
}

/// The revision is its base followed by one `^`.
pub open spec fn is_first_parent_rev(rev: Seq<u8>) -> bool {
    rev.len() > 0 && base_end(rev, 0) == rev.len() - 1 && rev[rev.len() - 1] == 94u8
}

/// The first parent of the commit that the base of `rev` leads to.
pub open spec fn first_parent_rev(repo: BitRepo, rev: Seq<u8>) -> Option<Seq<u8>> {
    let base = rev.subrange(0, rev.len() - 1);
    match rev_base_ref(repo, base) {
        Some(x) => if resolves(repo.spec_refs(), repo.spec_head(), x) {
            nth_parent(repo.spec_odb(), resolve(repo.spec_refs(), repo.spec_head(), x), 1)
        } else {
            None
        },
        None => None,
    }
}

/// An ASCII decimal digit.
pub open spec fn is_digit(c: u8) -> bool {
    48u8 <= c && c <= 57u8
}

/// The end of the run of digits of `s` that starts at `from`.
pub open spec fn digits_end(s: Seq<u8>, from: int) -> int
    decreases s.len() - from,
{
    if from < 0 || from >= s.len() || !is_digit(s[from]) {
        from
    } else {
        digits_end(s, from + 1)
    }
}

/// The number that the digits `s[from..to]` write in decimal.
pub open spec fn dec_value(s: Seq<u8>, from: int, to: int) -> int
    decreases to - from,
{
    if to <= from {
        0
    } else {
        dec_value(s, from, to - 1) * 10 + (s[to - 1] - 48)
    }
}

/// The count of a step whose digits end at `e`: one when it has no digits.
pub open spec fn step_count(s: Seq<u8>, e: int) -> nat {
    if e == 1 {
        1
    } else {
        dec_value(s, 1, e) as nat
    }
}

/// The digits of a step, but for the last, already write a number above 100000: counts
/// that large are refused.
pub open spec fn count_too_large(s: Seq<u8>, e: int) -> bool {
    e >= 3 && dec_value(s, 1, e - 1) > 100000
}

/// Where the steps `s` (each `^` or `~`, then optional digits) lead from the commit `oid`:
/// `^n` to the `n`-th parent, `~n` to the `n`-th first-parent ancestor, a step without
/// digits counting one. `None` where a step is malformed or leads nowhere.
pub open spec fn apply_steps(odb: Map<Seq<u8>, BitObjKind>, oid: Seq<u8>, s: Seq<u8>) -> Option<Seq<u8>>
    decreases s.len(),
{
    if s.len() == 0 {
        Some(oid)
    } else if !is_step_char(s[0]) {
        None
    } else {
        let e = digits_end(s, 1);
        if e < 1 || e > s.len() || count_too_large(s, e) {
            None
        } else {
            let n = step_count(s, e);
            let next = if s[0] == 94u8 {
                nth_parent(odb, oid, n)
            } else {
                first_parent_ancestor(odb, oid, n)
            };
            match next {
                Some(p) => apply_steps(odb, p, s.subrange(e, s.len() as int)),
                None => None,
            }
        }
    }
}

/// The commit a revision leads to: its base resolved, then its steps applied.
pub open spec fn rev_target(repo: BitRepo, rev: Seq<u8>) -> Option<Seq<u8>> {
    let end = base_end(rev, 0);
    match rev_base_ref(repo, rev.subrange(0, end)) {
        Some(x) => if resolves(repo.spec_refs(), repo.spec_head(), x) {
            apply_steps(repo.spec_odb(), resolve(repo.spec_refs(), repo.spec_head(), x), rev.subrange(end, rev.len() as int))
        } else {
            None
        },
        None => None,
    }
}

/// The commit the base of a revision (without steps) resolves to.
pub open spec fn base_target(repo: BitRepo, base: Seq<u8>) -> Option<Seq<u8>> {
    match rev_base_ref(repo, base) {
        Some(x) => if resolves(repo.spec_refs(), repo.spec_head(), x) {
            Some(resolve(repo.spec_refs(), repo.spec_head(), x))
        } else {
            None
        },
        None => None,
    }
}

proof fn lemma_digits_end(s: Seq<u8>, from: int)
    requires
        0 <= from <= s.len(),
    ensures
        from <= digits_end(s, from) <= s.len(),
        digits_end(s, from) < s.len() ==> !is_digit(s[digits_end(s, from)]),
        forall|k: int| from <= k < digits_end(s, from) ==> is_digit(#[trigger] s[k]),
    decreases s.len() - from,
{
    if from < s.len() && is_digit(s[from]) {
        lemma_digits_end(s, from + 1);
    }
}

/// The end of a run of digits is where the first non-digit (or the end) comes.
proof fn lemma_digits_end_at(s: Seq<u8>, from: int, e: int)
    requires
        0 <= from <= e <= s.len(),
        forall|k: int| from <= k < e ==> is_digit(#[trigger] s[k]),
        e < s.len() ==> !is_digit(s[e]),
    ensures
        digits_end(s, from) == e,
    decreases e - from,
{
    if from < e {
        lemma_digits_end_at(s, from + 1, e);
    }
}

/// More digits write no smaller a number.
proof fn lemma_dec_value_mono(s: Seq<u8>, from: int, a: int, b: int)
    requires
        from <= a <= b <= s.len(),
        0 <= from,
        forall|k: int| from <= k < b ==> is_digit(#[trigger] s[k]),
    ensures
        0 <= dec_value(s, from, a) <= dec_value(s, from, b),
    decreases b - a,
{
    if a < b {
        lemma_dec_value_mono(s, from, a, b - 1);
        assert(is_digit(s[b - 1]));
        lemma_dec_value_nonneg(s, from, b - 1);
    } else {
        lemma_dec_value_nonneg(s, from, a);
    }
}

proof fn lemma_dec_value_nonneg(s: Seq<u8>, from: int, to: int)
    requires
        0 <= from,
        to <= s.len(),
        forall|k: int| from <= k < to ==> is_digit(#[trigger] s[k]),
    ensures
        0 <= dec_value(s, from, to),
    decreases to - from,
{
    if from < to {
        lemma_dec_value_nonneg(s, from, to - 1);
        assert(is_digit(s[to - 1]));
    }
}

/// The digits of `s` before `to` write the same number in `s + t`.
proof fn lemma_dec_value_prefix(s: Seq<u8>, t: Seq<u8>, from: int, to: int)
    requires
        0 <= from,
        to <= s.len(),
    ensures
        dec_value(s + t, from, to) == dec_value(s, from, to),
    decreases to - from,
{
    if from < to {
        lemma_dec_value_prefix(s, t, from, to - 1);
        assert((s + t)[to - 1] == s[to - 1]);
    }
}

/// The digits after a first byte write the same number as on their own.
proof fn lemma_dec_value_shift(c: u8, d: Seq<u8>, k: int)
    requires
        0 <= k <= d.len(),
    ensures
        dec_value(seq![c] + d, 1, 1 + k) == dec_value(d, 0, k),
    decreases k,
{
    if k > 0 {
        lemma_dec_value_shift(c, d, k - 1);
        assert((seq![c] + d)[k] == d[k - 1]);
    }
}

/// `dec_digits(n)` is digits only, and writes `n`; without its last digit it writes `n / 10`.
proof fn lemma_dec_digits(n: nat)
    ensures
        crate::bytes::dec_digits(n).len() >= 1,
        forall|k: int| 0 <= k < crate::bytes::dec_digits(n).len() ==> is_digit(#[trigger] crate::bytes::dec_digits(n)[k]),
        dec_value(crate::bytes::dec_digits(n), 0, crate::bytes::dec_digits(n).len() as int) == n,
        dec_value(crate::bytes::dec_digits(n), 0, crate::bytes::dec_digits(n).len() - 1) == n / 10,
    decreases n,
{
    let d = crate::bytes::dec_digits(n);
    if n < 10 {
        assert(d.len() == 1);
        assert(d[0] == (n + 48) as u8);
        assert(dec_value(d, 0, 0) == 0);
        assert(dec_value(d, 0, 1) == dec_value(d, 0, 0) * 10 + (d[0] - 48));
    } else {
        let q = crate::bytes::dec_digits(n / 10);
        lemma_dec_digits(n / 10);
        assert(d == q.push(((n % 10) + 48) as u8));
        assert(d =~= q + seq![((n % 10) + 48) as u8]);
        lemma_dec_value_prefix(q, seq![((n % 10) + 48) as u8], 0, q.len() as int);
        assert(d[d.len() - 1] == ((n % 10) + 48) as u8);
        assert forall|k: int| 0 <= k < d.len() implies is_digit(#[trigger] d[k]) by {
            if k < q.len() {
                assert(d[k] == q[k]);
            }
        }
        assert(dec_value(q, 0, q.len() - 1) == (n / 10) / 10);
        assert(dec_value(d, 0, d.len() - 1) == n / 10);
        assert(dec_value(d, 0, d.len() as int) == dec_value(d, 0, d.len() - 1) * 10 + (d[d.len() - 1] - 48));
        assert(d[d.len() - 1] - 48 == n % 10);
        assert((n / 10) * 10 + n % 10 == n);
    }
}

/// A step character followed by the digits of `n` is one step, whose count is `n`.
proof fn lemma_one_step_parse(c: u8, n: nat)
    requires
        n <= 1000000,
    ensures
        ({
            let s = seq![c] + crate::bytes::dec_digits(n);
            &&& digits_end(s, 1) == s.len()
            &&& step_count(s, s.len() as int) == n
            &&& !count_too_large(s, s.len() as int)
            &&& s.subrange(s.len() as int, s.len() as int) =~= Seq::<u8>::empty()
        }),
{
    let d = crate::bytes::dec_digits(n);
    lemma_dec_digits(n);
    let s = seq![c] + d;
    assert forall|k: int| 1 <= k < s.len() implies is_digit(#[trigger] s[k]) by {
        assert(s[k] == d[k - 1]);
    }
    lemma_digits_end_at(s, 1, s.len() as int);
    lemma_dec_value_shift(c, d, d.len() as int);
    lemma_dec_value_shift(c, d, d.len() - 1);
}

/// A single step `~n` leads from a commit to its `n`-th first-parent ancestor, and `^n` to its
/// `n`-th parent (for counts up to a million); a step without digits counts one.
pub proof fn law_single_step(odb: Map<Seq<u8>, BitObjKind>, oid: Seq<u8>, n: nat)
    requires
        n <= 1000000,
    ensures
        apply_steps(odb, oid, seq![126u8] + crate::bytes::dec_digits(n)) == first_parent_ancestor(odb, oid, n),
        apply_steps(odb, oid, seq![94u8] + crate::bytes::dec_digits(n)) == nth_parent(odb, oid, n),
        apply_steps(odb, oid, seq![126u8]) == first_parent_ancestor(odb, oid, 1),
        apply_steps(odb, oid, seq![94u8]) == nth_parent(odb, oid, 1),
{
    reveal_with_fuel(apply_steps, 2);
    lemma_one_step_parse(126u8, n);
    lemma_one_step_parse(94u8, n);
    let d = crate::bytes::dec_digits(n);
    assert((seq![126u8] + d)[0] == 126u8);
    assert((seq![94u8] + d)[0] == 94u8);
    let t = seq![126u8];
    lemma_digits_end_at(t, 1, 1);
    assert(t.subrange(1, 1) =~= Seq::<u8>::empty());
    let u = seq![94u8];
    lemma_digits_end_at(u, 1, 1);
    assert(u.subrange(1, 1) =~= Seq::<u8>::empty());
}

/// Steps compose: the steps `s` then `t` lead where `t` leads from where `s` leads, when `t`
/// starts a new step.
pub proof fn law_steps_compose(odb: Map<Seq<u8>, BitObjKind>, oid: Seq<u8>, s: Seq<u8>, t: Seq<u8>)
    requires
        t.len() == 0 || is_step_char(t[0]),
    ensures
        apply_steps(odb, oid, s + t) == match apply_steps(odb, oid, s) {
            Some(p) => apply_steps(odb, p, t),
            None => None,
        },
    decreases s.len(),
{
    if s.len() == 0 {
        assert(s + t =~= t);
    } else {
        let st = s + t;
        assert(st[0] == s[0]);
        if is_step_char(s[0]) {
            lemma_digits_end(s, 1);
            let e = digits_end(s, 1);
            assert forall|k: int| 1 <= k < e implies is_digit(#[trigger] st[k]) by {
                assert(st[k] == s[k]);
            }
            if e < s.len() {
                assert(st[e] == s[e]);
            } else if t.len() > 0 {
                assert(st[e] == t[0]);
            }
            lemma_digits_end_at(st, 1, e);
            lemma_dec_value_prefix(s, t, 1, e);
            lemma_dec_value_prefix(s, t, 1, e - 1);
            assert(st.subrange(e, st.len() as int) =~= s.subrange(e, s.len() as int) + t);
            let n = step_count(s, e);
            let next = if s[0] == 94u8 {
                nth_parent(odb, oid, n)
            } else {
                first_parent_ancestor(odb, oid, n)
            };
            if let Some(p) = next {
                law_steps_compose(odb, p, s.subrange(e, s.len() as int), t);
            }
        }
    }
}

/// A revision `base~n` leads to the `n`-th first-parent ancestor of what its base resolves
/// to, and `base^n` to the `n`-th parent.
pub proof fn law_rev_single_step(repo: BitRepo, base: Seq<u8>, n: nat)
    requires
        base_end(base, 0) == base.len(),
        n <= 1000000,
    ensures
        rev_target(repo, base + seq![126u8] + crate::bytes::dec_digits(n)) == match base_target(repo, base) {
            Some(o) => first_parent_ancestor(repo.spec_odb(), o, n),
            None => None,
        },
        rev_target(repo, base + seq![94u8] + crate::bytes::dec_digits(n)) == match base_target(repo, base) {
            Some(o) => nth_parent(repo.spec_odb(), o, n),
            None => None,
        },
{
    law_single_step(repo.spec_odb(), if base_target(repo, base) is Some { base_target(repo, base)->0 } else { Seq::empty() }, n);
    lemma_base_split(base, 126u8, n);
    lemma_base_split(base, 94u8, n);
}

/// A base without steps, a step character and digits: the base ends where the step starts.
proof fn lemma_base_split(base: Seq<u8>, c: u8, n: nat)
    requires
        base_end(base, 0) == base.len(),
        is_step_char(c),
    ensures
        ({
            let rev = base + seq![c] + crate::bytes::dec_digits(n);
            &&& base_end(rev, 0) == base.len()
            &&& rev.subrange(0, base.len() as int) == base
            &&& rev.subrange(base.len() as int, rev.len() as int) == seq![c] + crate::bytes::dec_digits(n)
        }),
{
    lemma_base_end(base, 0);
    let rev = base + seq![c] + crate::bytes::dec_digits(n);
    assert forall|k: int| 0 <= k < base.len() implies !is_step_char(#[trigger] rev[k]) by {
        assert(rev[k] == base[k]);
    }
    assert(rev[base.len() as int] == c);
    lemma_base_end_at(rev, 0, base.len() as int);
    assert(rev.subrange(0, base.len() as int) =~= base);
    assert(rev.subrange(base.len() as int, rev.len() as int) =~= seq![c] + crate::bytes::dec_digits(n));
}

/// Appending steps to a revision applies them to the commit the revision leads to.
pub proof fn law_rev_append_steps(repo: BitRepo, rev: Seq<u8>, t: Seq<u8>)
    requires
        t.len() > 0,
        is_step_char(t[0]),
    ensures
        rev_target(repo, rev + t) == match rev_target(repo, rev) {
            Some(o) => apply_steps(repo.spec_odb(), o, t),
            None => None,
        },
{
    lemma_base_end(rev, 0);
    let e = base_end(rev, 0);
    let rt = rev + t;
    assert forall|k: int| 0 <= k < e implies !is_step_char(#[trigger] rt[k]) by {
        assert(rt[k] == rev[k]);
    }
    if e < rev.len() {
        assert(rt[e] == rev[e]);
    } else {
        assert(rt[e] == t[0]);
    }
    lemma_base_end_at(rt, 0, e);
    assert(rt.subrange(0, e) =~= rev.subrange(0, e));
    assert(rt.subrange(e, rt.len() as int) =~= rev.subrange(e, rev.len() as int) + t);
    match rev_base_ref(repo, rev.subrange(0, e)) {
        Some(x) => {
            if resolves(repo.spec_refs(), repo.spec_head(), x) {
                law_steps_compose(repo.spec_odb(), resolve(repo.spec_refs(), repo.spec_head(), x), rev.subrange(e, rev.len() as int), t);
            }
        },
        None => {},
    }
}

/// The base of a revision ends at its first step.
proof fn lemma_base_end_at(s: Seq<u8>, from: int, e: int)
    requires
        0 <= from <= e < s.len(),
        forall|k: int| from <= k < e ==> !is_step_char(#[trigger] s[k]),
        is_step_char(s[e]),
    ensures
        base_end(s, from) == e,
    decreases e - from,
{
    if from < e {
        lemma_base_end_at(s, from + 1, e);
    }
}

impl BitRepo {
    /// The `n`-th parent of a commit (`0` is the commit itself).
    pub fn parent_of(&self, oid: Oid, n: u64) -> (r: BitResult<Oid>)
        ensures
            r is Ok <==> nth_parent(self.spec_odb(), oid@, n as nat) is Some,
            r matches Ok(p) ==> Some(p@) == nth_parent(self.spec_odb(), oid@, n as nat),
    {
        if n == 0 {
            return Ok(oid);
        }
        match self.read_commit(&oid) {
            Ok(c) => {
                if n <= c.parents.len() as u64 {
                    let i = (n - 1) as usize;
                    Ok(c.parents[i])
                } else {
                    Err(BitError::InvalidRevision)
                }
            },
            Err(_) => Err(BitError::InvalidRevision),
        }
    }

    /// The ancestor `n` first parents up from a commit.
    pub fn ancestor_of(&self, oid: Oid, n: u64) -> (r: BitResult<Oid>)
        ensures
            r is Ok <==> first_parent_ancestor(self.spec_odb(), oid@, n as nat) is Some,
            r matches Ok(p) ==> Some(p@) == first_parent_ancestor(self.spec_odb(), oid@, n as nat),
        decreases n,
    {
        if n == 0 {
            return Ok(oid);
        }
        let p = self.parent_of(oid, 1)?;
        self.ancestor_of(p, n - 1)
    }

    /// The reference a revision stands for. Without steps: `HEAD` gives what HEAD holds,
    /// 40 hex digits give that id, and a name gives the full name of the reference (looked
    /// up as given, under `refs/heads/`, then under `refs/remotes/`). With steps, the id of
    /// the commit they lead to. Fails on a name that resolves to nothing, on a step with
    /// a malformed count and on a missing parent.
    pub fn resolve_rev(&self, rev: &[u8]) -> (r: BitResult<BitRef>)
        ensures
            base_end(rev@, 0) == rev@.len() && rev@ == head_name() ==> (r matches Ok(x) && x@ == self.spec_head()),
            base_end(rev@, 0) == rev@.len() && rev@ != head_name() && rev@.len() == 40 && all_hex_digits(rev@)
                ==> (r matches Ok(x) && x@ == RefView::Direct(hex_value(rev@))),
            base_end(rev@, 0) == rev@.len() && rev@ != head_name() && !(rev@.len() == 40 && all_hex_digits(rev@))
                ==> (r is Ok <==> expand_ref(self.spec_refs(), rev@) is Some),
            base_end(rev@, 0) == rev@.len() && rev@ != head_name() && !(rev@.len() == 40 && all_hex_digits(rev@))
                ==> (r matches Ok(x) ==> x@ == RefView::Symbolic(expand_ref(self.spec_refs(), rev@).unwrap())),
            base_end(rev@, 0) < rev@.len() ==> (r matches Ok(x) ==> x is Direct),
            is_first_parent_rev(rev@) ==> (r is Ok <==> first_parent_rev(*self, rev@) is Some),
            is_first_parent_rev(rev@) ==> (r matches Ok(x) ==> x@ == RefView::Direct(first_parent_rev(*self, rev@)->0)),
            base_end(rev@, 0) < rev@.len() ==> (r is Ok <==> rev_target(*self, rev@) is Some),
            base_end(rev@, 0) < rev@.len() ==> (r matches Ok(x) ==> x@ == RefView::Direct(rev_target(*self, rev@)->0)),
    {
        proof {
            lemma_base_end(rev@, 0);
        }
        let mut end: usize = 0;
        while end < rev.len() && !(rev[end] == 94u8 || rev[end] == 126u8)
            invariant
                0 <= end <= rev@.len(),
                base_end(rev@, 0) == base_end(rev@, end as int),
            decreases rev@.len() - end,
        {
            end = end + 1;
        }
        let base = crate::hash::slice_range(rev, 0, end);
        proof {
            if end == rev@.len() {
                assert(base@ =~= rev@);
            }
            assert(base_end(rev@, 0) == end);
        }
        let hn = head_name_bytes();
        let base_ref = if bytes_eq(base.as_slice(), hn.as_slice()) {
            self.read_head().copy()
        } else {
            match SHA1Hash::from_hex(base.as_slice()) {
                Ok(oid) => BitRef::Direct(oid),
                Err(_) => {
                    let full = self.expand_ref_name(base.as_slice())?;
                    BitRef::Symbolic(full)
                },
            }
        };
        if end == rev.len() {
            proof {
                assert(base@ =~= rev@);
            }
            return Ok(base_ref);
        }
        proof {
            if is_first_parent_rev(rev@) {
                assert(base@ =~= rev@.subrange(0, rev@.len() - 1));
                assert(rev_base_ref(*self, base@) == Some(base_ref@));
            }
            assert(base@ =~= rev@.subrange(0, end as int));
            assert(rev_base_ref(*self, base@) == Some(base_ref@));
        }
        let mut oid = self.fully_resolve_ref(&base_ref)?;
        let ghost start = oid@;
        proof {
            if is_first_parent_rev(rev@) {
                assert(base@ =~= rev@.subrange(0, rev@.len() - 1));
                assert(first_parent_rev(*self, rev@) == nth_parent(self.spec_odb(), start, 1));
            }
        }
        let mut i = end;
        while i < rev.len()
            invariant
                end <= i <= rev@.len(),
                end < rev@.len(),
                base_end(rev@, 0) == end,
                i == end ==> oid@ == start,
                is_first_parent_rev(rev@) && i > end ==> i == rev@.len() && Some(oid@) == nth_parent(self.spec_odb(), start, 1),
                is_first_parent_rev(rev@) && i == end ==> rev@[i as int] == 94u8 && i + 1 == rev@.len(),
                is_first_parent_rev(rev@) ==> first_parent_rev(*self, rev@) == nth_parent(self.spec_odb(), start, 1),
                rev_target(*self, rev@) == apply_steps(self.spec_odb(), oid@, rev@.subrange(i as int, rev@.len() as int)),
            decreases rev@.len() - i,
        {
            let ghost p = i as int;
            let ghost rest = rev@.subrange(p, rev@.len() as int);
            let c = rev[i];
            proof {
                assert(rest[0] == c);
            }
            if c != 94u8 && c != 126u8 {
                return Err(BitError::InvalidRevision);
            }
            i = i + 1;
            let mut n: u64 = 0;
            let mut digits: bool = false;
            let ghost i0 = i;
            while i < rev.len() && 48u8 <= rev[i] && rev[i] <= 57u8
                invariant
                    end < i <= rev@.len(),
                    i0 <= i,
                    base_end(rev@, 0) == end,
                    is_first_parent_rev(rev@) ==> i == rev@.len() && !digits,
                    is_first_parent_rev(rev@) ==> c == 94u8 && oid@ == start,
                    !digits ==> i == i0,
                    digits ==> i > i0,
                    i0 == p + 1,
                    0 <= p < rev@.len(),
                    rest == rev@.subrange(p, rev@.len() as int),
                    rest.len() == rev@.len() - p,
                    forall|k: int| 1 <= k < i - p ==> is_digit(#[trigger] rest[k]),
                    n == dec_value(rest, 1, i - p),
                    i - p >= 2 ==> dec_value(rest, 1, i - p - 1) <= 100000,
                    rev_target(*self, rev@) == apply_steps(self.spec_odb(), oid@, rest),
                    is_step_char(rest[0]),
                    rest[0] == c,
                decreases rev@.len() - i,
            {
                let d = (rev[i] - 48u8) as u64;
                proof {
                    assert(rest[i - p] == rev@[i as int]);
                    assert(is_digit(rest[i - p]));
                }
                if n > 100000 {
                    proof {
                        lemma_digits_end(rest, 1);
                        let e = digits_end(rest, 1);
                        if e <= i - p {
                            assert(is_digit(rest[e]));
                        }
                        lemma_dec_value_mono(rest, 1, i - p, e - 1);
                        assert(i - p >= 2);
                        assert(count_too_large(rest, e));
                    }
                    return Err(BitError::InvalidRevision);
                }
                proof {
                    lemma_dec_value_nonneg(rest, 1, i - p);
                }
                n = n * 10 + d;
                digits = true;
                i = i + 1;
            }
            proof {
                if i < rev@.len() {
                    assert(rest[i - p] == rev@[i as int]);
                }
                lemma_digits_end_at(rest, 1, i - p);
                assert(rest.subrange(i - p, rest.len() as int) =~= rev@.subrange(i as int, rev@.len() as int));
                assert(!count_too_large(rest, i - p));
            }
            if !digits {
                n = 1;
            }
            proof {
                assert(step_count(rest, i - p) == n);
            }
            if c == 94u8 {
                oid = self.parent_of(oid, n)?;
            } else {
                oid = self.ancestor_of(oid, n)?;
            }
        }
        Ok(BitRef::Direct(oid))
    }

    /// The id a revision finally names.
    pub fn fully_resolve_rev(&self, rev: &[u8]) -> (r: BitResult<Oid>)
        ensures
            base_end(rev@, 0) == rev@.len() && rev@ == head_name() ==> (r is Ok <==> resolves(
                self.spec_refs(),
                self.spec_head(),
                RefView::Symbolic(head_name()),
            )) && (r matches Ok(o) ==> o@ == resolve(
                self.spec_refs(),
                self.spec_head(),
                RefView::Symbolic(head_name()),
            )),
            base_end(rev@, 0) == rev@.len() && rev@ != head_name() && rev@.len() == 40 && all_hex_digits(rev@)
                ==> (r matches Ok(o) && o@ == hex_value(rev@)),
            base_end(rev@, 0) < rev@.len() ==> (r is Ok <==> rev_target(*self, rev@) is Some),
            base_end(rev@, 0) < rev@.len() ==> (r matches Ok(o) ==> o@ == rev_target(*self, rev@)->0),
    {
        let reference = self.resolve_rev(rev)?;
        self.fully_resolve_ref(&reference)
    }
}

} // verus!
