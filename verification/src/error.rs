//! Errors of the library.
use vstd::prelude::*;

verus! {

/// The errors the library reports. The variants that carry no payload stand for the
/// conditions that are reported with a message only.
#[derive(Debug, Clone, PartialEq, Eq)]
pub enum BitError {
    /// No object with this id is in the object store.
    ObjectNotFound(crate::hash::SHA1Hash),
    /// The reference names nothing that exists.
    NonExistentSymRef(Vec<u8>),
    /// The object was expected to be a commit.
    ExpectedCommit(crate::hash::SHA1Hash, crate::obj::BitObjType),
    /// Uncommitted changes that a merge would overwrite.
    MergeConflict(crate::merge::MergeConflicts),
    /// Local changes that a checkout would overwrite.
    CheckoutConflict(crate::checkout::CheckoutConflicts),
    /// The object was expected to be a tree.
    ExpectedTree(crate::hash::SHA1Hash, crate::obj::BitObjType),
    /// The object was expected to be a blob.
    ExpectedBlob(crate::hash::SHA1Hash, crate::obj::BitObjType),
    /// Input ended before a value was complete.
    UnexpectedEof,
    /// A hash was not 40 hex digits.
    InvalidHex,
    /// A declared size did not match the actual one.
    SizeMismatch,
    /// An unknown object type name.
    UnknownObjectType,
    /// A file mode that git does not know.
    InvalidFileMode,
    /// A malformed index file.
    CorruptIndex,
    /// `write-tree` on an index with conflicts.
    UnmergedIndex,
    /// An invalid branch name; the name.
    InvalidBranchName(Vec<u8>),
    /// A pathspec that matched no file; the pathspec.
    NoFilesMatched(Vec<u8>),
    /// A commit that would not change anything; the status of the repository.
    EmptyCommit(crate::commit::BitStatus),
    /// A malformed config value.
    InvalidConfigValue,
    /// Config text that does not parse.
    InvalidConfig,
    /// A revision that cannot be resolved.
    InvalidRevision,
    /// Merges of commits with more than one parent are not cherry-picked.
    CherrypickMergeCommit,
    /// Compressed data that does not decompress.
    CorruptCompressedData,
    /// Something the library does not support yet.
    Unsupported,
}

pub type BitResult<T> = Result<T, BitError>;

impl BitError {
    /// Whether the error says that an object was not found.
    pub fn is_not_found_err(&self) -> (r: bool)
        ensures
            r == (self is ObjectNotFound),
    {
        match self {
            BitError::ObjectNotFound(..) => true,
            _ => false,
        }
    }

    /// Whether the error is fatal, as opposed to an expected outcome a caller may handle.
    /// The conflicts of a checkout that stopped on them; any other error is handed back.
    pub fn try_into_checkout_conflict(self) -> (r: BitResult<crate::checkout::CheckoutConflicts>)
        ensures
            self matches BitError::CheckoutConflict(c) ==> r == Ok::<crate::checkout::CheckoutConflicts, BitError>(c),
            !(self is CheckoutConflict) ==> r == Err::<crate::checkout::CheckoutConflicts, BitError>(self),
    {
        match self {
            BitError::CheckoutConflict(c) => Ok(c),
            e => Err(e),
        }
    }

    /// The uncommitted changes that stopped a merge; any other error is handed back.
    pub fn try_into_merge_conflict(self) -> (r: BitResult<crate::merge::MergeConflicts>)
        ensures
            self matches BitError::MergeConflict(c) ==> r == Ok::<crate::merge::MergeConflicts, BitError>(c),
            !(self is MergeConflict) ==> r == Err::<crate::merge::MergeConflicts, BitError>(self),
    {
        match self {
            BitError::MergeConflict(c) => Ok(c),
            e => Err(e),
        }
    }

    /// The status carried by a refused empty commit; any other error is handed back.
    pub fn try_into_status_error(self) -> (r: BitResult<crate::commit::BitStatus>)
        ensures
            self matches BitError::EmptyCommit(s) ==> r == Ok::<crate::commit::BitStatus, BitError>(s),
            !(self is EmptyCommit) ==> r == Err::<crate::commit::BitStatus, BitError>(self),
    {
        match self {
            BitError::EmptyCommit(s) => Ok(s),
            e => Err(e),
        }
    }

    /// The message of a refused empty commit in a repository with files.
    pub fn empty_commit_clean_worktree() -> (r: &'static str)
        ensures
            r@ == "nothing to commit, working tree clean"@,
    {
        "nothing to commit, working tree clean"
    }

    /// The message of a refused empty first commit in an empty repository.
    pub fn empty_commit_empty_worktree() -> (r: &'static str)
        ensures
            r@ == "nothing to commit (create/copy files and use \"bit add\" to track)"@,
    {
        "nothing to commit (create/copy files and use \"bit add\" to track)"
    }

    /// The message of the error.
    pub fn to_string(&self) -> (r: String)
        ensures
            self matches BitError::EmptyCommit(s) ==> (s.initial ==> r@ == Self::spec_empty_worktree_msg())
                && (!s.initial ==> r@ == Self::spec_clean_worktree_msg()),
            self is UnmergedIndex ==> r@ == "cannot write-tree an an index that is not fully merged"@,
            self is CherrypickMergeCommit ==> r@ == "TODO cherrypick merge commit"@,
    {
        match self {
            BitError::EmptyCommit(s) => {
                if s.initial {
                    Self::empty_commit_empty_worktree().to_owned()
                } else {
                    Self::empty_commit_clean_worktree().to_owned()
                }
            },
            BitError::ObjectNotFound(id) => {
                let mut m = "bit object with hash `".to_string();
                m.append(id.to_hex().as_str());
                m.append("` not found");
                m
            },
            BitError::NonExistentSymRef(name) => Self::quoted("failed to resolve symbolic reference", name, ""),
            BitError::CheckoutConflict(_) => "some checkout conflicts".to_owned(),
            BitError::MergeConflict(_) => "merge conflicts with uncommitted changes".to_owned(),
            BitError::ExpectedCommit(oid, t) => {
                let mut m = "`".to_string();
                m.append(oid.to_hex().as_str());
                m.append("` is a ");
                m.append(
                    match t {
                        crate::obj::BitObjType::Commit => "commit",
                        crate::obj::BitObjType::Tree => "tree",
                        crate::obj::BitObjType::Blob => "blob",
                        crate::obj::BitObjType::Tag => "tag",
                    },
                );
                m.append(", expected commit");
                m
            },
            BitError::ExpectedTree(..) => "expected tree".to_owned(),
            BitError::ExpectedBlob(..) => "expected blob".to_owned(),
            BitError::UnmergedIndex => "cannot write-tree an an index that is not fully merged".to_owned(),
            BitError::InvalidRevision => "invalid revision".to_owned(),
            BitError::InvalidBranchName(name) => Self::quoted("invalid branch name", name, ""),
            BitError::NoFilesMatched(p) => Self::quoted("no files added: pathspec", p, " did not match any files"),
            BitError::CherrypickMergeCommit => "TODO cherrypick merge commit".to_owned(),
            BitError::UnknownObjectType => "unknown bit object type".to_owned(),
            BitError::InvalidHex => "creating SHA1 with invalid hex string".to_owned(),
            BitError::CorruptCompressedData => "corrupt compressed data".to_owned(),
            BitError::CorruptIndex => "corrupt index".to_owned(),
            BitError::InvalidFileMode => "invalid file mode".to_owned(),
            BitError::UnexpectedEof => "unexpected end of input".to_owned(),
            BitError::SizeMismatch => "size mismatch".to_owned(),
            BitError::InvalidConfigValue => "invalid config value".to_owned(),
            BitError::InvalidConfig => "invalid config".to_owned(),
            BitError::Unsupported => "unsupported".to_owned(),
        }
    }

    /// `head`, a space, the name in backquotes, then `tail`; without the name where it is
    /// not UTF-8.
    fn quoted(head: &str, name: &Vec<u8>, tail: &str) -> (r: String) {
        let mut m = head.to_string();
        match crate::config::string_from_utf8(name.clone()) {
            Some(n) => {
                m.append(" `");
                m.append(n.as_str());
                m.append("`");
            },
            None => {},
        }
        m.append(tail);
        m
    }

    pub open spec fn spec_clean_worktree_msg() -> Seq<char> {
        "nothing to commit, working tree clean"@
    }

    pub open spec fn spec_empty_worktree_msg() -> Seq<char> {
        "nothing to commit (create/copy files and use \"bit add\" to track)"@
    }

    /// Whether the error is fatal: all are but a missing object and the conflicts of a
    /// checkout or merge.
    pub fn is_fatal(&self) -> (r: bool)
        ensures
            r == !(self is ObjectNotFound || self is MergeConflict || self is CheckoutConflict),
    {
        match self {
            BitError::ObjectNotFound(..) => false,
            BitError::MergeConflict(..) => false,
            BitError::CheckoutConflict(..) => false,
            _ => true,
        }
    }
}

} // verus!
