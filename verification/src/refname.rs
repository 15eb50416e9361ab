//! The rules a reference name follows (those of `git check-ref-format`).
use vstd::prelude::*;

verus! {

/// A byte that no reference name holds: a control character, a space, or one of `~ ^ : ? * [ \`.
pub open spec fn bad_name_byte(c: u8) -> bool {
    c < 32 || c == 127 || c == 32 || c == 126 || c == 94 || c == 58 || c == 63 || c == 42 || c == 91 || c == 92
}

/// The bytes of `s` just before position `j` are `.lock`.
pub open spec fn lock_before(s: Seq<u8>, j: int) -> bool {
    j >= 5 && s.subrange(j - 5, j) == seq![46u8, 108, 111, 99, 107]
}

/// Two bytes that no reference name holds one after the other: `..`, `@{`, `//` and `/.`.
pub open spec fn bad_name_pair(a: u8, b: u8) -> bool {
    (a == 46 && b == 46) || (a == 64 && b == 123) || (a == 47 && b == 47) || (a == 47 && b == 46)
}

/// The byte at `i` of `s` breaks no rule: it is allowed, it starts no forbidden pair, and a
/// `/` there does not end a component named `....lock`.
pub open spec fn name_byte_ok(s: Seq<u8>, i: int) -> bool {
    &&& !bad_name_byte(s[i])
    &&& i + 1 < s.len() ==> !bad_name_pair(s[i], s[i + 1])
    &&& s[i] == 47 ==> !lock_before(s, i)
}

/// `s` is a valid reference name: not empty and not `@`; no forbidden byte or pair; it neither
/// starts with `/` or `.` nor ends with `/`, `.` or `.lock`; and no component starts with `.`
/// or ends with `.lock`.
pub open spec fn valid_ref_name(s: Seq<u8>) -> bool {
    &&& s.len() > 0
    &&& !(s.len() == 1 && s[0] == 64)
    &&& s[0] != 47 && s[0] != 46
    &&& s[s.len() - 1] != 47 && s[s.len() - 1] != 46
    &&& !lock_before(s, s.len() as int)
    &&& forall|i: int| 0 <= i < s.len() ==> #[trigger] name_byte_ok(s, i)
}

/// Whether the bytes of `s` just before position `j` are `.lock`.
fn lock_before_exec(s: &[u8], j: usize) -> (r: bool)
    requires
        j <= s@.len(),
    ensures
        r == lock_before(s@, j as int),
{
    if j < 5 {
        return false;
    }
    let r = s[j - 5] == 46u8 && s[j - 4] == 108u8 && s[j - 3] == 111u8 && s[j - 2] == 99u8 && s[j - 1] == 107u8;
    proof {
        let w = s@.subrange(j - 5, j as int);
        if r {
            assert(w =~= seq![46u8, 108, 111, 99, 107]);
        } else {
            if w == seq![46u8, 108, 111, 99, 107] {
                assert(w[0] == s@[j - 5] && w[1] == s@[j - 4] && w[2] == s@[j - 3] && w[3] == s@[j - 2] && w[4] == s@[j - 1]);
            }
        }
    }
    r
}

/// Whether `s` is a valid reference name (see `valid_ref_name`).
pub fn is_valid_name(s: &[u8]) -> (r: bool)
    ensures
        r == valid_ref_name(s@),
{
    let n = s.len();
    if n == 0 {
        return false;
    }
    if n == 1 && s[0] == 64u8 {
        return false;
    }
    if s[0] == 47u8 || s[0] == 46u8 || s[n - 1] == 47u8 || s[n - 1] == 46u8 {
        return false;
    }
    if lock_before_exec(s, n) {
        return false;
    }
    let mut i: usize = 0;
    while i < n
        invariant
            0 <= i <= n,
            n == s@.len(),
            forall|k: int| 0 <= k < i ==> #[trigger] name_byte_ok(s@, k),
        decreases n - i,
    {
        let c = s[i];
        if c < 32u8 || c == 127u8 || c == 32u8 || c == 126u8 || c == 94u8 || c == 58u8 || c == 63u8 || c == 42u8
            || c == 91u8 || c == 92u8 {
            proof {
                assert(!name_byte_ok(s@, i as int));
            }
            return false;
        }
        if i + 1 < n {
            let d = s[i + 1];
            if (c == 46u8 && d == 46u8) || (c == 64u8 && d == 123u8) || (c == 47u8 && d == 47u8) || (c == 47u8 && d == 46u8) {
                proof {
                    assert(!name_byte_ok(s@, i as int));
                }
                return false;
            }
        }
        if c == 47u8 && lock_before_exec(s, i) {
            proof {
                assert(!name_byte_ok(s@, i as int));
            }
            return false;
        }
        i = i + 1;
    }
    true
}

} // verus!
