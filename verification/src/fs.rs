//! Fresh paths in the working tree for files moved out of the way.
use crate::bytes::{append_bytes, dec_digits, slice_to_vec, u64_to_dec};
use crate::error::{BitError, BitResult};
use crate::repo::{worktree_has, BitRepo};
use vstd::prelude::*;

verus! {

/// A suffix counter: nothing at first, then `_0`, `_1`, ...
#[derive(Debug, Clone, Copy, PartialEq, Eq, Structural)]
pub struct RenameIndex(pub Option<u64>);

/// The suffix a counter stands for.
pub open spec fn rename_suffix(i: Option<u64>) -> Seq<u8> {
    match i {
        None => Seq::empty(),
        Some(n) => seq![95u8] + dec_digits(n as nat),
    }
}

/// The place of a counter value in the order of tries: nothing first, then 0, 1, ...
pub open spec fn suffix_rank(i: Option<u64>) -> int {
    match i {
        None => 0,
        Some(n) => n + 1,
    }
}

impl RenameIndex {
    /// The counter before its first step.
    pub fn new() -> (r: Self)
        ensures
            r.0 is None,
    {
        RenameIndex(None)
    }

    /// Steps the counter: nothing becomes 0, and n becomes n + 1.
    pub fn inc(&mut self)
        requires
            old(self).0 matches Some(n) ==> n < u64::MAX,
        ensures
            final(self).0 == (match old(self).0 {
                None => Some(0u64),
                Some(n) => Some((n + 1) as u64),
            }),
    {
        match self.0 {
            Some(i) => self.0 = Some(i + 1),
            None => self.0 = Some(0),
        }
    }

    /// The suffix: empty, or `_` and the number.
    pub fn suffix(&self) -> (r: Vec<u8>)
        ensures
            r@ == rename_suffix(self.0),
    {
        match self.0 {
            None => Vec::new(),
            Some(n) => {
                let mut r = vec![95u8];
                let d = u64_to_dec(n);
                append_bytes(&mut r, d.as_slice());
                proof {
                    assert(r@ =~= seq![95u8] + dec_digits(n as nat));
                }
                r
            },
        }
    }
}

/// Paths that name nothing in the working tree.
pub struct UniquePath;

impl UniquePath {
    /// The first of `base`, `base_0`, `base_1`, ... that names nothing in the working tree
    /// (neither a file nor a directory holding one). Gives up, failing, after as many tries
    /// as there are files.
    pub fn new(repo: &BitRepo, base: &[u8]) -> (r: BitResult<Vec<u8>>)
        ensures
            r matches Ok(p) ==> !worktree_has(repo.spec_worktree(), p@),
            r matches Ok(p) ==> exists|i: Option<u64>| p@ == base@ + rename_suffix(i) && forall|j: Option<u64>| suffix_rank(j)
                < suffix_rank(i) ==> worktree_has(repo.spec_worktree(), base@ + #[trigger] rename_suffix(j)),
            r matches Err(e) ==> e is Unsupported,
    {
        let n = repo.worktree_paths().len();
        let mut i = RenameIndex::new();
        let mut tries: usize = 0;
        while tries <= n
            invariant
                i.0 is None ==> tries == 0,
                i.0 matches Some(k) ==> k as int + 1 == tries,
                suffix_rank(i.0) == tries,
                tries <= n + 1,
                forall|j: Option<u64>| suffix_rank(j) < tries ==> worktree_has(repo.spec_worktree(), base@ + #[trigger] rename_suffix(j)),
            decreases n + 1 - tries,
        {
            let mut p = slice_to_vec(base);
            let s = i.suffix();
            append_bytes(&mut p, s.as_slice());
            if !repo.path_exists(p.as_slice()) {
                return Ok(p);
            }
            proof {
                assert forall|j: Option<u64>| suffix_rank(j) < tries + 1 implies worktree_has(repo.spec_worktree(), base@
                    + #[trigger] rename_suffix(j)) by {
                    if suffix_rank(j) == tries {
                        assert(j == i.0);
                    }
                }
            }
            if tries == n {
                break;
            }
            i.inc();
            tries = tries + 1;
        }
        Err(BitError::Unsupported)
    }
}

} // verus!
