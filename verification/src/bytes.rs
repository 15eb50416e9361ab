//! Byte string helpers: copying, appending, comparison, decimal rendering and paths.
use vstd::prelude::*;

verus! {

/// The result of comparing two values.
#[derive(Debug, Clone, Copy, PartialEq, Eq, Structural)]
pub enum Order {
    Less,
    Equal,
    Greater,
}

/// A fresh copy of a byte vector.
pub fn copy_bytes(v: &Vec<u8>) -> (r: Vec<u8>)
    ensures
        r@ == v@,
{
    let mut r: Vec<u8> = Vec::new();
    let mut i: usize = 0;
    while i < v.len()
        invariant
            0 <= i <= v@.len(),
            r@ == v@.take(i as int),
        decreases v@.len() - i,
    {
        r.push(v[i]);
        i = i + 1;
        proof {
            assert(r@ =~= v@.take(i as int));
        }
    }
    assert(v@.take(v@.len() as int) =~= v@);
    r
}

/// A byte vector holding the bytes of a slice.
pub fn slice_to_vec(s: &[u8]) -> (r: Vec<u8>)
    ensures
        r@ == s@,
{
    let mut r: Vec<u8> = Vec::new();
    let mut i: usize = 0;
    while i < s.len()
        invariant
            0 <= i <= s@.len(),
            r@ == s@.take(i as int),
        decreases s@.len() - i,
    {
        r.push(s[i]);
        i = i + 1;
        proof {
            assert(r@ =~= s@.take(i as int));
        }
    }
    assert(s@.take(s@.len() as int) =~= s@);
    r
}

/// Appends the bytes of `s` to `v`.
pub fn append_bytes(v: &mut Vec<u8>, s: &[u8])
    ensures
        final(v)@ == old(v)@ + s@,
{
    let ghost v0 = v@;
    let mut i: usize = 0;
    while i < s.len()
        invariant
            0 <= i <= s@.len(),
            v@ == v0 + s@.take(i as int),
        decreases s@.len() - i,
    {
        v.push(s[i]);
        i = i + 1;
        proof {
            assert(v@ =~= v0 + s@.take(i as int));
        }
    }
    assert(s@.take(s@.len() as int) =~= s@);
}

/// Lexicographic order of byte sequences (a proper prefix comes first).
pub open spec fn seq_order(a: Seq<u8>, b: Seq<u8>) -> Order
    decreases a.len(),
{
    if a.len() == 0 {
        if b.len() == 0 {
            Order::Equal
        } else {
            Order::Less
        }
    } else if b.len() == 0 {
        Order::Greater
    } else if a[0] < b[0] {
        Order::Less
    } else if a[0] > b[0] {
        Order::Greater
    } else {
        seq_order(a.drop_first(), b.drop_first())
    }
}

/// `seq_order` is determined by the first difference, and equality of the sequences.
proof fn lemma_seq_order_index(a: Seq<u8>, b: Seq<u8>, i: int)
    requires
        0 <= i <= a.len(),
        i <= b.len(),
        a.take(i) == b.take(i),
    ensures
        seq_order(a, b) == seq_order(a.skip(i), b.skip(i)),
    decreases i,
{
    if i > 0 {
        assert(a[0] == a.take(i)[0]);
        assert(b[0] == b.take(i)[0]);
        assert(a.drop_first().take(i - 1) =~= a.take(i).drop_first());
        assert(b.drop_first().take(i - 1) =~= b.take(i).drop_first());
        lemma_seq_order_index(a.drop_first(), b.drop_first(), i - 1);
        assert(a.drop_first().skip(i - 1) =~= a.skip(i));
        assert(b.drop_first().skip(i - 1) =~= b.skip(i));
    } else {
        assert(a.skip(0) =~= a);
        assert(b.skip(0) =~= b);
    }
}

/// A directory comes before every path under it.
pub proof fn lemma_under_order(d: Seq<u8>, q: Seq<u8>)
    requires
        path_under(d, q),
    ensures
        seq_order(d, q) == Order::Less,
{
    if d.len() > 0 {
        let n = d.len() as int;
        assert(d.push(47u8).take(n) =~= d);
        assert(q.take(n) =~= d.push(47u8).take(n)) by {
            assert(q.take(n + 1) == d.push(47u8));
            assert forall|k: int| 0 <= k < n implies q.take(n)[k] == d.push(47u8).take(n)[k] by {
                assert(q.take(n + 1)[k] == q[k]);
            }
        }
        assert(d.take(n) =~= d);
        lemma_seq_order_index(d, q, n);
        assert(d.skip(n) =~= Seq::<u8>::empty());
    }
}

/// `seq_order` is `Equal` exactly on equal sequences.
pub proof fn lemma_seq_order_equal(a: Seq<u8>, b: Seq<u8>)
    ensures
        (seq_order(a, b) == Order::Equal) <==> (a == b),
    decreases a.len(),
{
    if a.len() == 0 && b.len() == 0 {
        assert(a =~= b);
    }
    if a.len() > 0 && b.len() > 0 {
        lemma_seq_order_equal(a.drop_first(), b.drop_first());
        if a[0] == b[0] && a.drop_first() == b.drop_first() {
            assert(a =~= seq![a[0]] + a.drop_first());
            assert(b =~= seq![b[0]] + b.drop_first());
        }
    }
}

/// `seq_order` swaps `Less` and `Greater` when its arguments are swapped.
pub proof fn lemma_seq_order_antisym(a: Seq<u8>, b: Seq<u8>)
    ensures
        (seq_order(a, b) == Order::Less) <==> (seq_order(b, a) == Order::Greater),
    decreases a.len(),
{
    if a.len() > 0 && b.len() > 0 {
        lemma_seq_order_antisym(a.drop_first(), b.drop_first());
    }
}

/// `Less` under `seq_order` is transitive.
pub proof fn lemma_seq_order_trans(a: Seq<u8>, b: Seq<u8>, c: Seq<u8>)
    requires
        seq_order(a, b) == Order::Less,
        seq_order(b, c) == Order::Less,
    ensures
        seq_order(a, c) == Order::Less,
    decreases a.len(),
{
    if a.len() > 0 && b.len() > 0 && c.len() > 0 && a[0] == b[0] && b[0] == c[0] {
        lemma_seq_order_trans(a.drop_first(), b.drop_first(), c.drop_first());
    }
}

/// Compares two byte slices lexicographically.
pub fn bytes_order(a: &[u8], b: &[u8]) -> (r: Order)
    ensures
        r == seq_order(a@, b@),
{
    let mut i: usize = 0;
    while i < a.len() && i < b.len()
        invariant
            0 <= i <= a@.len(),
            i <= b@.len(),
            a@.take(i as int) == b@.take(i as int),
        decreases a@.len() - i,
    {
        if a[i] < b[i] {
            proof {
                lemma_seq_order_index(a@, b@, i as int);
            }
            return Order::Less;
        }
        if a[i] > b[i] {
            proof {
                lemma_seq_order_index(a@, b@, i as int);
            }
            return Order::Greater;
        }
        proof {
            assert(a@.take(i + 1) =~= a@.take(i as int).push(a@[i as int]));
            assert(b@.take(i + 1) =~= b@.take(i as int).push(b@[i as int]));
        }
        i = i + 1;
    }
    proof {
        lemma_seq_order_index(a@, b@, i as int);
    }
    if i < a.len() {
        Order::Greater
    } else if i < b.len() {
        Order::Less
    } else {
        Order::Equal
    }
}

/// Whether `p` is a prefix of `s`.
pub open spec fn is_prefix(p: Seq<u8>, s: Seq<u8>) -> bool {
    p.len() <= s.len() && s.take(p.len() as int) == p
}

pub fn starts_with(s: &[u8], p: &[u8]) -> (r: bool)
    ensures
        r == is_prefix(p@, s@),
{
    if p.len() > s.len() {
        return false;
    }
    let mut i: usize = 0;
    while i < p.len()
        invariant
            0 <= i <= p@.len(),
            p@.len() <= s@.len(),
            forall|j: int| 0 <= j < i ==> s@[j] == p@[j],
        decreases p@.len() - i,
    {
        if s[i] != p[i] {
            assert(s@.take(p@.len() as int)[i as int] == s@[i as int]);
            return false;
        }
        i = i + 1;
    }
    assert(s@.take(p@.len() as int) =~= p@);
    true
}

/// ASCII decimal digits of a natural number.
pub open spec fn dec_digits(n: nat) -> Seq<u8>
    decreases n,
{
    if n < 10 {
        seq![(n + 48) as u8]
    } else {
        dec_digits(n / 10).push(((n % 10) + 48) as u8)
    }
}

/// Renders a number as ASCII decimal digits.
pub fn u64_to_dec(n: u64) -> (r: Vec<u8>)
    ensures
        r@ == dec_digits(n as nat),
    decreases n,
{
    if n < 10 {
        let mut r: Vec<u8> = Vec::new();
        r.push((n + 48) as u8);
        assert(r@ =~= dec_digits(n as nat));
        r
    } else {
        let mut r = u64_to_dec(n / 10);
        r.push(((n % 10) + 48) as u8);
        r
    }
}

/// The path `parent/name`, or `name` itself when `parent` is the root (empty) path.
pub open spec fn path_join(parent: Seq<u8>, name: Seq<u8>) -> Seq<u8> {
    if parent.len() == 0 {
        name
    } else {
        parent.push(47u8) + name
    }
}

pub fn join_path(parent: &[u8], name: &[u8]) -> (r: Vec<u8>)
    ensures
        r@ == path_join(parent@, name@),
{
    let mut r = slice_to_vec(parent);
    if parent.len() > 0 {
        r.push(47u8);
    }
    append_bytes(&mut r, name);
    r
}

/// Whether `path` lies inside the directory `dir` (`dir` is a proper ancestor).
pub open spec fn path_under(dir: Seq<u8>, path: Seq<u8>) -> bool {
    if dir.len() == 0 {
        path.len() > 0
    } else {
        is_prefix(dir.push(47u8), path)
    }
}

pub fn is_path_under(dir: &[u8], path: &[u8]) -> (r: bool)
    ensures
        r == path_under(dir@, path@),
{
    if dir.len() == 0 {
        path.len() > 0
    } else {
        let mut d = slice_to_vec(dir);
        d.push(47u8);
        starts_with(path, d.as_slice())
    }
}

} // verus!
