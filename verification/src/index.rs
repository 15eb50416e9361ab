//! The index: the staged entries of the next commit, one per path and merge stage.
use crate::bytemap::{keys_sorted, ByteMap};
use crate::bytes::{append_bytes, copy_bytes, is_path_under, is_prefix, path_under, slice_to_vec};
use crate::error::{BitError, BitResult};
use crate::hash::{Oid, SHA1Hash};
use crate::obj::{FileMode, TreeEntry};
use vstd::prelude::*;

pub mod serialize;
pub mod tree_cache;

verus! {

/// The stage of an index entry: `Normal` outside of a merge conflict, otherwise the side of
/// the conflict the entry comes from.
#[derive(Debug, Clone, Copy, PartialEq, Eq, Structural)]
pub enum MergeStage {
    Normal,
    Base,
    Ours,
    Theirs,
}

pub open spec fn stage_value(s: MergeStage) -> u8 {
    match s {
        MergeStage::Normal => 0,
        MergeStage::Base => 1,
        MergeStage::Ours => 2,
        MergeStage::Theirs => 3,
    }
}

impl MergeStage {
    pub fn as_u8(self) -> (r: u8)
        ensures
            r == stage_value(self),
    {
        match self {
            MergeStage::Normal => 0,
            MergeStage::Base => 1,
            MergeStage::Ours => 2,
            MergeStage::Theirs => 3,
        }
    }

    /// The stage with number `u` (0 to 3).
    pub fn from_u8(u: u8) -> (r: Option<Self>)
        ensures
            r is Some <==> u < 4,
            r matches Some(s) ==> stage_value(s) == u,
    {
        if u == 0 {
            Some(MergeStage::Normal)
        } else if u == 1 {
            Some(MergeStage::Base)
        } else if u == 2 {
            Some(MergeStage::Ours)
        } else if u == 3 {
            Some(MergeStage::Theirs)
        } else {
            None
        }
    }

    /// Whether the entry is part of a conflict.
    pub fn is_unmerged(self) -> (r: bool)
        ensures
            r == (stage_value(self) > 0),
    {
        self.as_u8() > 0
    }
}

impl Default for MergeStage {
    fn default() -> (r: Self)
        ensures
            r == MergeStage::Normal,
    {
        MergeStage::Normal
    }
}

/// A time stamp of the file system.
#[derive(Debug, Clone, Copy, PartialEq, Eq, Structural)]
pub struct Timespec {
    pub sec: u32,
    pub nano: u32,
}

impl Timespec {
    pub fn zero() -> (r: Self)
        ensures
            r.sec == 0 && r.nano == 0,
    {
        Timespec { sec: 0, nano: 0 }
    }
}

/// The flags of an index entry: 1 bit assume-valid, 1 bit extended, 2 bits stage and 12 bits
/// path length (0xFFF for longer paths).
#[derive(Debug, Clone, Copy, PartialEq, Eq, Structural)]
pub struct BitIndexEntryFlags(pub u16);

pub open spec fn stage_of_bits(u: u16) -> MergeStage {
    let s = (u & 0x3000) >> 12u16;
    if s == 0 {
        MergeStage::Normal
    } else if s == 1 {
        MergeStage::Base
    } else if s == 2 {
        MergeStage::Ours
    } else {
        MergeStage::Theirs
    }
}

impl BitIndexEntryFlags {
    /// Flags holding only the path length; a length of 0xFFF or more is stored as 0xFFF.
    pub fn with_path_len(len: usize) -> (r: Self)
        ensures
            r.0 == (if len < 0xFFF {
                len
            } else {
                0xFFF
            }),
    {
        if len < 0xFFF {
            Self(len as u16)
        } else {
            Self(0xFFF)
        }
    }

    pub fn new(u: u16) -> (r: Self)
        ensures
            r.0 == u,
    {
        Self(u)
    }

    pub fn assume_valid(self) -> (r: bool)
        ensures
            r == (self.0 & 0x8000 != 0),
    {
        self.0 & 0x8000 != 0
    }

    pub fn extended(self) -> (r: bool)
        ensures
            r == (self.0 & 0x4000 != 0),
    {
        self.0 & 0x4000 != 0
    }

    pub fn stage(self) -> (r: MergeStage)
        ensures
            r == stage_of_bits(self.0),
    {
        let s = (self.0 & 0x3000) >> 12u16;
        if s == 0 {
            MergeStage::Normal
        } else if s == 1 {
            MergeStage::Base
        } else if s == 2 {
            MergeStage::Ours
        } else {
            MergeStage::Theirs
        }
    }

    /// Replaces the two stage bits.
    pub fn set_stage(&mut self, stage: MergeStage)
        ensures
            final(self).0 == (old(self).0 & !0x3000u16) | ((stage_value(stage) as u16) << 12u16),
            stage_of_bits(final(self).0) == stage,
            final(self).0 & 0xCFFF == old(self).0 & 0xCFFF,
    {
        let old_bits = self.0;
        let st = stage.as_u8() as u16;
        let bits = (old_bits & !0x3000u16) | (st << 12u16);
        proof {
            assert(st < 4 ==> ((bits & 0x3000) >> 12u16) == st && bits & 0xCFFF == old_bits
                & 0xCFFF) by (bit_vector)
                requires
                    bits == (old_bits & !0x3000u16) | (st << 12u16),
            ;
        }
        self.0 = bits;
    }

    pub fn path_len(self) -> (r: u16)
        ensures
            r == self.0 & 0x0FFF,
    {
        self.0 & 0x0FFF
    }
}

/// The extended flags of an index entry (version 3 indexes).
#[derive(Debug, Clone, Copy, PartialEq, Eq, Structural)]
pub struct BitIndexEntryExtendedFlags(pub u16);

impl BitIndexEntryExtendedFlags {
    /// The flags; the bit `0x1000` is reserved and must be zero.
    pub fn new(flags: u16) -> (r: Self)
        requires
            flags & 0x1000 == 0,
        ensures
            r.0 == flags,
    {
        Self(flags)
    }
}

/// An entry of the index; also the uniform representation of tree entries and worktree
/// entries while they are compared.
#[derive(Debug, PartialEq, Eq)]
pub struct BitIndexEntry {
    pub ctime: Timespec,
    pub mtime: Timespec,
    pub device: u32,
    pub inode: u32,
    pub mode: FileMode,
    pub uid: u32,
    pub gid: u32,
    pub filesize: u32,
    pub oid: Oid,
    pub flags: BitIndexEntryFlags,
    pub extended_flags: BitIndexEntryExtendedFlags,
    pub path: Vec<u8>,
}

/// The mathematical value of an index entry.
pub struct IndexEntryView {
    pub ctime: Timespec,
    pub mtime: Timespec,
    pub device: u32,
    pub inode: u32,
    pub mode: FileMode,
    pub uid: u32,
    pub gid: u32,
    pub filesize: u32,
    pub oid: Seq<u8>,
    pub flags: u16,
    pub extended_flags: u16,
    pub path: Seq<u8>,
}

impl View for BitIndexEntry {
    type V = IndexEntryView;

    open spec fn view(&self) -> IndexEntryView {
        IndexEntryView {
            ctime: self.ctime,
            mtime: self.mtime,
            device: self.device,
            inode: self.inode,
            mode: self.mode,
            uid: self.uid,
            gid: self.gid,
            filesize: self.filesize,
            oid: self.oid@,
            flags: self.flags.0,
            extended_flags: self.extended_flags.0,
            path: self.path@,
        }
    }
}

/// The key of an index entry as stored: the path, a zero byte and the stage number. Paths
/// hold no zero byte, so the byte order of keys is the order by path and then stage.
pub open spec fn index_key(path: Seq<u8>, stage: MergeStage) -> Seq<u8> {
    path + seq![0u8, stage_value(stage)]
}

/// The entry stored under the key of `p` and `s` has that path and that stage.
pub proof fn lemma_entry_at_key(idx: BitIndexInner, p: Seq<u8>, s: MergeStage)
    requires
        idx.wf(),
        idx.spec_entries().contains_key(index_key(p, s)),
    ensures
        idx.spec_entries()[index_key(p, s)].path@ == p,
        idx.spec_entries()[index_key(p, s)].spec_stage() == s,
{
    let e = idx.spec_entries()[index_key(p, s)];
    lemma_index_key_injective(p, s, e.path@, e.spec_stage());
}

/// Distinct paths or stages give distinct keys.
pub proof fn lemma_index_key_injective(p: Seq<u8>, s: MergeStage, q: Seq<u8>, t: MergeStage)
    ensures
        index_key(p, s) == index_key(q, t) ==> p == q && s == t,
{
    if index_key(p, s) == index_key(q, t) {
        let a = index_key(p, s);
        assert(a.len() == p.len() + 2);
        assert(p =~= a.take(p.len() as int));
        assert(q =~= a.take(q.len() as int));
        assert(a[a.len() - 1] == stage_value(s));
        assert(a[a.len() - 1] == stage_value(t));
    }
}

pub fn make_index_key(path: &[u8], stage: MergeStage) -> (r: Vec<u8>)
    ensures
        r@ == index_key(path@, stage),
{
    let mut k = slice_to_vec(path);
    k.push(0u8);
    k.push(stage.as_u8());
    proof {
        assert(k@ =~= index_key(path@, stage));
    }
    k
}

/// The size an entry whose size is unknown is given.
pub const UNKNOWN_SIZE: u32 = 0xFFFF_FFFF;

/// Size in bytes of an on-disk index entry without its path and extended flags.
pub const ENTRY_SIZE_WITHOUT_FILEPATH: usize = 62;

impl BitIndexEntry {
    pub open spec fn spec_stage(&self) -> MergeStage {
        stage_of_bits(self.flags.0)
    }

    /// The key of the entry: its path and stage.
    pub fn key(&self) -> (r: (Vec<u8>, MergeStage))
        ensures
            r.0@ == self.path@,
            r.1 == self.spec_stage(),
    {
        (copy_bytes(&self.path), self.stage())
    }

    pub fn stage(&self) -> (r: MergeStage)
        ensures
            r == self.spec_stage(),
    {
        self.flags.stage()
    }

    pub fn set_stage(&mut self, stage: MergeStage)
        ensures
            final(self).spec_stage() == stage,
            final(self).path@ == old(self).path@,
            final(self).oid@ == old(self).oid@,
            final(self).mode == old(self).mode,
            *final(self) == (BitIndexEntry { flags: final(self).flags, ..*old(self) }),
            final(self).flags.0 & 0xCFFF == old(self).flags.0 & 0xCFFF,
    {
        self.flags.set_stage(stage)
    }

    pub fn is_unmerged(&self) -> (r: bool)
        ensures
            r == (stage_value(self.spec_stage()) > 0),
    {
        self.stage().is_unmerged()
    }

    /// A copy of the entry.
    pub fn copy(&self) -> (r: Self)
        ensures
            r@ == self@,
    {
        BitIndexEntry {
            ctime: self.ctime,
            mtime: self.mtime,
            device: self.device,
            inode: self.inode,
            mode: self.mode,
            uid: self.uid,
            gid: self.gid,
            filesize: self.filesize,
            oid: self.oid,
            flags: self.flags,
            extended_flags: self.extended_flags,
            path: copy_bytes(&self.path),
        }
    }

    /// The entry for a tree entry: the metadata the tree does not hold is zeroed and the size
    /// is unknown; the path length goes into the flags.
    pub fn from_tree_entry(entry: &TreeEntry) -> (r: Self)
        ensures
            r.path@ == entry.path@,
            r.oid@ == entry.oid@,
            r.mode == entry.mode,
            r.spec_stage() == MergeStage::Normal,
            r.filesize == UNKNOWN_SIZE,
            r.ctime == Timespec::zero_spec(),
    {
        let flags = BitIndexEntryFlags::with_path_len(entry.path.len());
        proof {
            let l = flags.0;
            assert(l <= 0xFFF ==> (l & 0x3000) >> 12u16 == 0) by (bit_vector);
        }
        BitIndexEntry {
            ctime: Timespec::zero(),
            mtime: Timespec::zero(),
            device: 0,
            inode: 0,
            mode: entry.mode,
            uid: 0,
            gid: 0,
            filesize: UNKNOWN_SIZE,
            oid: entry.oid,
            flags,
            extended_flags: BitIndexEntryExtendedFlags(0),
            path: copy_bytes(&entry.path),
        }
    }

    /// The tree entry of this entry (path, mode and id).
    pub fn to_tree_entry(&self) -> (r: TreeEntry)
        ensures
            r.path@ == self.path@,
            r.oid@ == self.oid@,
            r.mode == self.mode,
    {
        TreeEntry { mode: self.mode, path: copy_bytes(&self.path), oid: self.oid }
    }

    /// The number of zero bytes after the path of the on-disk entry (at least one: the
    /// terminator), making the entry size a multiple of eight.
    pub fn padding_len_for_filepath(filepath_len: usize, is_extended: bool) -> (r: usize)
        ensures
            r == entry_padding(filepath_len as nat, is_extended),
            1 <= r <= 8,
            (ENTRY_SIZE_WITHOUT_FILEPATH + filepath_len + (if is_extended { 2int } else { 0 }) + r)
                % 8 == 0,
    {
        let fixed: usize = ENTRY_SIZE_WITHOUT_FILEPATH + if is_extended {
            2
        } else {
            0
        };
        let m = (fixed + filepath_len % 8) % 8;
        proof {
            let size = fixed + filepath_len;
            assert(m == size % 8) by (nonlinear_arith)
                requires
                    m == (fixed + filepath_len % 8) % 8,
                    size == fixed + filepath_len,
                    fixed >= 0,
                    filepath_len >= 0,
            ;
        }
        8 - m
    }

    pub fn padding_len(&self) -> (r: usize)
        ensures
            r == entry_padding(self.path@.len(), self.flags.0 & 0x4000 != 0),
            1 <= r <= 8,
    {
        Self::padding_len_for_filepath(self.path.len(), self.flags.extended())
    }
}

/// The number of zero bytes after the path of an on-disk entry, the terminator included: the
/// entry size becomes a multiple of eight.
pub open spec fn entry_padding(path_len: nat, extended: bool) -> nat {
    (8 - ((ENTRY_SIZE_WITHOUT_FILEPATH + path_len + if extended {
        2int
    } else {
        0int
    }) % 8)) as nat
}

impl Timespec {
    pub open spec fn zero_spec() -> Timespec {
        Timespec { sec: 0, nano: 0 }
    }
}

/// The stages that occur for a path in conflict.
#[derive(Debug, PartialEq, Eq, Clone, Copy, Structural)]
pub enum ConflictType {
    /// Base, ours and theirs.
    BothModified,
    /// Ours and theirs.
    BothAdded,
    /// Base and ours.
    ModifyDelete,
    /// Base and theirs.
    DeleteModify,
    /// Ours only.
    AddedByUs,
    /// Theirs only.
    AddedByThem,
}

/// The conflict type of a list of stages, if it is one of the four.
pub open spec fn conflict_type_of(stages: Seq<MergeStage>) -> Option<ConflictType> {
    if stages == seq![MergeStage::Base, MergeStage::Ours, MergeStage::Theirs] {
        Some(ConflictType::BothModified)
    } else if stages == seq![MergeStage::Ours, MergeStage::Theirs] {
        Some(ConflictType::BothAdded)
    } else if stages == seq![MergeStage::Base, MergeStage::Ours] {
        Some(ConflictType::ModifyDelete)
    } else if stages == seq![MergeStage::Base, MergeStage::Theirs] {
        Some(ConflictType::DeleteModify)
    } else if stages == seq![MergeStage::Ours] {
        Some(ConflictType::AddedByUs)
    } else if stages == seq![MergeStage::Theirs] {
        Some(ConflictType::AddedByThem)
    } else {
        None
    }
}

impl ConflictType {
    /// The conflict type of the stages present for a path (in stage order).
    pub fn new(stages: &Vec<MergeStage>) -> (r: Option<Self>)
        ensures
            r == conflict_type_of(stages@),
    {
        let n = stages.len();
        if n == 3 && stages[0] == MergeStage::Base && stages[1] == MergeStage::Ours && stages[2]
            == MergeStage::Theirs {
            proof {
                assert(stages@ =~= seq![MergeStage::Base, MergeStage::Ours, MergeStage::Theirs]);
            }
            Some(ConflictType::BothModified)
        } else if n == 2 && stages[0] == MergeStage::Ours && stages[1] == MergeStage::Theirs {
            proof {
                assert(stages@ =~= seq![MergeStage::Ours, MergeStage::Theirs]);
            }
            Some(ConflictType::BothAdded)
        } else if n == 2 && stages[0] == MergeStage::Base && stages[1] == MergeStage::Ours {
            proof {
                assert(stages@ =~= seq![MergeStage::Base, MergeStage::Ours]);
            }
            Some(ConflictType::ModifyDelete)
        } else if n == 2 && stages[0] == MergeStage::Base && stages[1] == MergeStage::Theirs {
            proof {
                assert(stages@ =~= seq![MergeStage::Base, MergeStage::Theirs]);
            }
            Some(ConflictType::DeleteModify)
        } else if n == 1 && stages[0] == MergeStage::Ours {
            proof {
                assert(stages@ =~= seq![MergeStage::Ours]);
            }
            Some(ConflictType::AddedByUs)
        } else if n == 1 && stages[0] == MergeStage::Theirs {
            proof {
                assert(stages@ =~= seq![MergeStage::Theirs]);
            }
            Some(ConflictType::AddedByThem)
        } else {
            proof {
                if stages@.len() == 3 {
                    assert(stages@ != seq![MergeStage::Ours, MergeStage::Theirs]);
                    assert(stages@ != seq![MergeStage::Base, MergeStage::Ours]);
                    assert(stages@ != seq![MergeStage::Base, MergeStage::Theirs]);
                    if stages@ == seq![MergeStage::Base, MergeStage::Ours, MergeStage::Theirs] {
                        assert(stages@[0] == MergeStage::Base);
                    }
                } else if stages@.len() == 2 {
                    assert(stages@ != seq![MergeStage::Base, MergeStage::Ours, MergeStage::Theirs]);
                    if stages@ == seq![MergeStage::Ours, MergeStage::Theirs] {
                        assert(stages@[0] == MergeStage::Ours);
                    }
                    if stages@ == seq![MergeStage::Base, MergeStage::Ours] {
                        assert(stages@[1] == MergeStage::Ours);
                    }
                    if stages@ == seq![MergeStage::Base, MergeStage::Theirs] {
                        assert(stages@[1] == MergeStage::Theirs);
                    }
                } else if stages@.len() == 1 {
                    assert(stages@ != seq![MergeStage::Base, MergeStage::Ours, MergeStage::Theirs]);
                    assert(stages@ != seq![MergeStage::Ours, MergeStage::Theirs]);
                    assert(stages@ != seq![MergeStage::Base, MergeStage::Ours]);
                    assert(stages@ != seq![MergeStage::Base, MergeStage::Theirs]);
                    if stages@ == seq![MergeStage::Ours] {
                        assert(stages@[0] == MergeStage::Ours);
                    }
                    if stages@ == seq![MergeStage::Theirs] {
                        assert(stages@[0] == MergeStage::Theirs);
                    }
                } else {
                    assert(stages@.len() != 1 && stages@.len() != 2 && stages@.len() != 3);
                    assert(stages@ != seq![MergeStage::Ours]);
                    assert(stages@ != seq![MergeStage::Theirs]);
                    assert(stages@ != seq![MergeStage::Base, MergeStage::Ours, MergeStage::Theirs]);
                    assert(stages@ != seq![MergeStage::Ours, MergeStage::Theirs]);
                    assert(stages@ != seq![MergeStage::Base, MergeStage::Ours]);
                    assert(stages@ != seq![MergeStage::Base, MergeStage::Theirs]);
                }
            }
            None
        }
    }
}

/// A path in conflict and the kind of conflict.
#[derive(Debug, PartialEq, Eq)]
pub struct Conflict {
    pub path: Vec<u8>,
    pub conflict_type: ConflictType,
}

impl Conflict {
    pub fn new_with_type(path: Vec<u8>, conflict_type: ConflictType) -> (r: Self)
        ensures
            r.path@ == path@,
            r.conflict_type == conflict_type,
    {
        Conflict { path, conflict_type }
    }
}

/// The index: entries keyed by path and stage.
pub struct BitIndexInner {
    entries: ByteMap<BitIndexEntry>,
}

impl BitIndexInner {
    /// The entries by key (`index_key` of path and stage).
    pub closed spec fn spec_entries(&self) -> Map<Seq<u8>, BitIndexEntry> {
        self.entries.spec_map()
    }

    /// The entries in key order.
    pub closed spec fn spec_list(&self) -> Seq<BitIndexEntry> {
        self.entries.spec_vals()
    }

    /// The keys in order.
    pub closed spec fn spec_keys(&self) -> Seq<Seq<u8>> {
        self.entries.spec_keys()
    }

    /// The keys are sorted and as many as the entries.
    pub closed spec fn sorted(&self) -> bool {
        &&& keys_sorted(self.entries.spec_keys())
        &&& self.entries.spec_keys().len() == self.entries.spec_vals().len()
    }

    /// Every entry is stored under the key of its path and stage.
    pub open spec fn wf(&self) -> bool {
        &&& self.sorted()
        &&& self.spec_keys().len() == self.spec_list().len()
        &&& forall|i: int|
            0 <= i < self.spec_keys().len() ==> #[trigger] self.spec_keys()[i] == index_key(
                self.spec_list()[i].path@,
                self.spec_list()[i].spec_stage(),
            )
        &&& forall|k: Seq<u8>|
            #[trigger] self.spec_entries().contains_key(k) ==> k == index_key(
                self.spec_entries()[k].path@,
                self.spec_entries()[k].spec_stage(),
            )
    }

    pub proof fn lemma_list_entries(&self)
        requires
            self.wf(),
        ensures
            forall|i: int|
                0 <= i < self.spec_list().len() ==> self.spec_entries().contains_key(
                    #[trigger] self.spec_keys()[i],
                ) && self.spec_entries()[self.spec_keys()[i]] == self.spec_list()[i],
            forall|k: Seq<u8>|
                #[trigger] self.spec_entries().contains_key(k) ==> exists|i: int|
                    0 <= i < self.spec_keys().len() && self.spec_keys()[i] == k,
    {
        self.entries.lemma_list();
    }

    /// No key is listed twice.
    pub proof fn lemma_keys_distinct(&self)
        requires
            self.wf(),
        ensures
            forall|i: int, j: int|
                0 <= i < j < self.spec_keys().len() ==> #[trigger] self.spec_keys()[i]
                    != #[trigger] self.spec_keys()[j],
    {
        assert forall|i: int, j: int|
            0 <= i < j < self.spec_keys().len() implies #[trigger] self.spec_keys()[i]
            != #[trigger] self.spec_keys()[j] by {
            crate::bytes::lemma_seq_order_equal(self.spec_keys()[i], self.spec_keys()[j]);
        }
    }

    pub fn new() -> (r: Self)
        ensures
            r.wf(),
            r.spec_entries() == Map::<Seq<u8>, BitIndexEntry>::empty(),
            r.spec_list().len() == 0,
    {
        let r = BitIndexInner { entries: ByteMap::new() };
        r
    }

    pub fn len(&self) -> (r: usize)
        ensures
            r == self.spec_list().len(),
    {
        self.entries.len()
    }

    /// The entry at position `i` in key order.
    pub fn entry_at(&self, i: usize) -> (r: &BitIndexEntry)
        requires
            i < self.spec_list().len(),
        ensures
            *r == self.spec_list()[i as int],
    {
        self.entries.val_at(i)
    }

    /// The entry with the given path and stage.
    pub fn find_entry(&self, path: &[u8], stage: MergeStage) -> (r: Option<&BitIndexEntry>)
        ensures
            r is Some <==> self.spec_entries().contains_key(index_key(path@, stage)),
            r matches Some(e) ==> *e == self.spec_entries()[index_key(path@, stage)],
    {
        let k = make_index_key(path, stage);
        self.entries.get(k.as_slice())
    }

    /// Inserts the entry, replacing the entry with the same path and stage.
    pub fn insert_entry(&mut self, entry: BitIndexEntry)
        requires
            old(self).wf(),
        ensures
            final(self).wf(),
            final(self).spec_entries() == old(self).spec_entries().insert(
                index_key(entry.path@, entry.spec_stage()),
                entry,
            ),
    {
        let k = make_index_key(entry.path.as_slice(), entry.stage());
        let ghost e = entry;
        self.entries.insert(k, entry);
        self.entries.well_formed();
        proof {
            self.entries.lemma_list();
            old(self).entries.lemma_list();
        }
    }

    /// Removes the entry with the given path and stage, if there is one.
    pub fn remove_entry(&mut self, path: &[u8], stage: MergeStage)
        requires
            old(self).wf(),
        ensures
            final(self).wf(),
            final(self).spec_entries() == old(self).spec_entries().remove(index_key(path@, stage)),
    {
        let k = make_index_key(path, stage);
        let _ = self.entries.remove(k.as_slice());
        self.entries.well_formed();
        proof {
            self.entries.lemma_list();
            old(self).entries.lemma_list();
        }
    }

    /// Removes the conflict entries (stages base, ours and theirs) of a path.
    pub fn remove_conflicted(&mut self, path: &[u8])
        requires
            old(self).wf(),
        ensures
            final(self).wf(),
            final(self).spec_entries() == old(self).spec_entries().remove(
                index_key(path@, MergeStage::Base),
            ).remove(index_key(path@, MergeStage::Ours)).remove(
                index_key(path@, MergeStage::Theirs),
            ),
    {
        self.remove_entry(path, MergeStage::Base);
        self.remove_entry(path, MergeStage::Ours);
        self.remove_entry(path, MergeStage::Theirs);
    }

    /// Some entry is in conflict.
    pub open spec fn has_conflicts_spec(&self) -> bool {
        exists|i: int|
            0 <= i < self.spec_list().len() && stage_value(#[trigger] self.spec_list()[i].spec_stage()) > 0
    }

    /// Whether some entry is in conflict.
    pub fn has_conflicts(&self) -> (r: bool)
        requires
            self.wf(),
        ensures
            r == self.has_conflicts_spec(),
    {
        let n = self.entries.len();
        let mut i: usize = 0;
        while i < n
            invariant
                0 <= i <= n,
                n == self.spec_list().len(),
                forall|j: int| 0 <= j < i ==> stage_value(#[trigger] self.spec_list()[j].spec_stage()) == 0,
            decreases n - i,
        {
            if self.entries.val_at(i).is_unmerged() {
                return true;
            }
            i = i + 1;
        }
        false
    }

    /// Copies of the entries in key order, leaving out gitlinks.
    pub fn std_iter(&self) -> (r: Vec<BitIndexEntry>)
        ensures
            entry_views(r@) == non_gitlinks(self.spec_list()),
    {
        let n = self.entries.len();
        let mut r: Vec<BitIndexEntry> = Vec::new();
        let mut i: usize = 0;
        while i < n
            invariant
                0 <= i <= n,
                n == self.spec_list().len(),
                entry_views(r@) == non_gitlinks(self.spec_list().subrange(0, i as int)),
            decreases n - i,
        {
            let e = self.entries.val_at(i);
            proof {
                assert(self.spec_list().subrange(0, i + 1).drop_last() =~= self.spec_list().subrange(0, i as int));
            }
            let ghost before = r@;
            if !e.mode.is_gitlink() {
                r.push(e.copy());
                proof {
                    assert(entry_views(r@) =~= entry_views(before).push(e@));
                }
            }
            i = i + 1;
        }
        proof {
            assert(self.spec_list().subrange(0, n as int) =~= self.spec_list());
        }
        r
    }

    /// The conflicts, ordered by path: for each path with conflict entries, the kind given by
    /// the stages present. Fails if the stages of a path match none of the four kinds.
    pub fn conflicts(&self) -> (r: BitResult<Vec<Conflict>>)
        requires
            self.wf(),
        ensures
            r matches Ok(cs) ==> forall|j: int|
                0 <= j < cs@.len() ==> exists|i: int|
                    0 <= i < self.spec_list().len() && self.spec_list()[i].path@ == (
                    #[trigger] cs@[j]).path@ && stage_value(self.spec_list()[i].spec_stage()) > 0,
            r matches Err(e) ==> e is Unsupported,
    {
        let n = self.entries.len();
        let mut r: Vec<Conflict> = Vec::new();
        let mut i: usize = 0;
        while i < n
            invariant
                0 <= i <= n,
                n == self.spec_list().len(),
                forall|j: int|
                    0 <= j < r@.len() ==> exists|k: int|
                        0 <= k < self.spec_list().len() && self.spec_list()[k].path@ == (
                        #[trigger] r@[j]).path@ && stage_value(self.spec_list()[k].spec_stage()) > 0,
            decreases n - i,
        {
            let e = self.entries.val_at(i);
            if e.is_unmerged() {
                let ghost k0 = i as int;
                let path = copy_bytes(&e.path);
                let mut stages: Vec<MergeStage> = Vec::new();
                stages.push(e.stage());
                i = i + 1;
                let ghost i0 = i;
                while i < n && crate::hash::bytes_eq(self.entries.val_at(i).path.as_slice(), path.as_slice())
                    invariant
                        i0 <= i <= n,
                        n == self.spec_list().len(),
                    decreases n - i,
                {
                    stages.push(self.entries.val_at(i).stage());
                    i = i + 1;
                }
                match ConflictType::new(&stages) {
                    Some(t) => {
                        r.push(Conflict { path, conflict_type: t });
                    },
                    None => {
                        return Err(BitError::Unsupported);
                    },
                }
            } else {
                i = i + 1;
            }
        }
        Ok(r)
    }

    /// Removes every entry (of stage `Normal`) at or under the directory `dir`.
    pub fn remove_directory(&mut self, dir: &[u8])
        requires
            old(self).wf(),
        ensures
            final(self).wf(),
            forall|k: Seq<u8>|
                #[trigger] final(self).spec_entries().contains_key(k) <==> (old(self).spec_entries().contains_key(k)
                    && !in_dir(old(self).spec_entries()[k], dir@)),
            forall|k: Seq<u8>|
                #[trigger] final(self).spec_entries().contains_key(k) ==> final(self).spec_entries()[k]
                    == old(self).spec_entries()[k],
    {
        self.remove_normal(dir, false);
    }

    /// Removes the entries of stage `Normal` that collide with a file at `path`: those at a
    /// directory above it and those under it.
    pub fn remove_collisions(&mut self, path: &[u8])
        requires
            old(self).wf(),
        ensures
            final(self).wf(),
            forall|k: Seq<u8>|
                #[trigger] final(self).spec_entries().contains_key(k) <==> (old(self).spec_entries().contains_key(k)
                    && !collides(old(self).spec_entries()[k], path@)),
            forall|k: Seq<u8>|
                #[trigger] final(self).spec_entries().contains_key(k) ==> final(self).spec_entries()[k]
                    == old(self).spec_entries()[k],
    {
        self.remove_normal(path, true);
    }

    /// Removes the entries of stage `Normal` that `removal` picks for `dir` and `around`.
    fn remove_normal(&mut self, dir: &[u8], around: bool)
        requires
            old(self).wf(),
        ensures
            final(self).wf(),
            forall|k: Seq<u8>|
                #[trigger] final(self).spec_entries().contains_key(k) <==> (old(self).spec_entries().contains_key(k)
                    && !removal(old(self).spec_entries()[k], dir@, around)),
            forall|k: Seq<u8>|
                #[trigger] final(self).spec_entries().contains_key(k) ==> final(self).spec_entries()[k]
                    == old(self).spec_entries()[k],
    {
        let mut to_remove: Vec<Vec<u8>> = Vec::new();
        let n = self.entries.len();
        let ghost keys = self.spec_keys();
        let ghost list = self.spec_list();
        let ghost mut qs: Seq<int> = Seq::empty();
        let mut i: usize = 0;
        while i < n
            invariant
                0 <= i <= n,
                n == list.len(),
                keys.len() == list.len(),
                keys == self.spec_keys(),
                list == self.spec_list(),
                qs.len() == to_remove@.len(),
                forall|j: int|
                    0 <= j < to_remove@.len() ==> 0 <= #[trigger] qs[j] < i && key_of(to_remove@[j], keys[qs[j]])
                        && removal(list[qs[j]], dir@, around),
                forall|q: int|
                    0 <= q < i && removal(#[trigger] list[q], dir@, around) ==> removes(to_remove@, keys[q]),
            decreases n - i,
        {
            let e = self.entries.val_at(i);
            let picked = if around {
                (e.path.len() > 0 && is_path_under(e.path.as_slice(), dir)) || is_path_under(dir, e.path.as_slice())
            } else {
                crate::hash::bytes_eq(e.path.as_slice(), dir) || is_path_under(dir, e.path.as_slice())
            };
            if e.stage() == MergeStage::Normal && picked {
                let k = self.entries.key_at(i);
                let ghost before = to_remove@;
                to_remove.push(copy_bytes(k));
                proof {
                    let last = to_remove@.len() - 1;
                    qs = qs.push(i as int);
                    assert(key_of(to_remove@[last], keys[i as int]));
                    assert(removal(list[i as int], dir@, around));
                    assert forall|q: int| 0 <= q < i + 1 && removal(#[trigger] list[q], dir@, around) implies removes(to_remove@, keys[q]) by {
                        if q == i {
                            assert(to_remove@[last]@ == keys[q]);
                        } else {
                            assert(removes(before, keys[q]));
                            let jj = choose|jj: int| 0 <= jj < before.len() && before[jj]@ == keys[q];
                            assert(to_remove@[jj] == before[jj]);
                        }
                    }
                }
            }
            i = i + 1;
        }
        let ghost snapshot = self.spec_entries();
        let mut j: usize = 0;
        while j < to_remove.len()
            invariant
                0 <= j <= to_remove@.len(),
                self.wf(),
                forall|k: Seq<u8>| #[trigger] self.spec_entries().contains_key(k) <==> (snapshot.contains_key(k) && !(exists|q: int| 0 <= q < j && to_remove@[q]@ == k)),
                forall|k: Seq<u8>| #[trigger] self.spec_entries().contains_key(k) ==> self.spec_entries()[k] == snapshot[k],
            decreases to_remove@.len() - j,
        {
            let k = &to_remove[j];
            let _ = self.entries.remove(k.as_slice());
            self.entries.well_formed();
            proof {
                self.entries.lemma_list();
            }
            j = j + 1;
        }
        proof {
            old(self).lemma_list_entries();
            assert forall|k: Seq<u8>| #[trigger] self.spec_entries().contains_key(k) <==> (old(self).spec_entries().contains_key(k)
                && !removal(old(self).spec_entries()[k], dir@, around)) by {
                if old(self).spec_entries().contains_key(k) {
                    let q = choose|q: int| 0 <= q < keys.len() && keys[q] == k;
                    assert(old(self).spec_entries()[keys[q]] == list[q]);
                    if removal(list[q], dir@, around) {
                        let jj = choose|jj: int| 0 <= jj < to_remove@.len() && to_remove@[jj]@ == keys[q];
                        assert(to_remove@[jj]@ == k);
                    } else {
                        if exists|jj: int| 0 <= jj < to_remove@.len() && to_remove@[jj]@ == k {
                            let jj = choose|jj: int| 0 <= jj < to_remove@.len() && to_remove@[jj]@ == k;
                            let q2 = qs[jj];
                            assert(key_of(to_remove@[jj], keys[q2]));
                            assert(old(self).spec_entries()[keys[q2]] == list[q2]);
                        }
                    }
                }
            }
        }
    }
}

/// The byte string `v` is the key `k`.
pub open spec fn key_of(v: Vec<u8>, k: Seq<u8>) -> bool {
    v@ == k
}

/// Some byte string of `vs` is the key `k`.
pub open spec fn removes(vs: Seq<Vec<u8>>, k: Seq<u8>) -> bool {
    exists|j: int| 0 <= j < vs.len() && vs[j]@ == k
}

/// The views of the entries.
pub open spec fn entry_views(s: Seq<BitIndexEntry>) -> Seq<IndexEntryView> {
    s.map_values(|e: BitIndexEntry| e@)
}

/// The views of the entries that are not gitlinks, in order.
pub open spec fn non_gitlinks(s: Seq<BitIndexEntry>) -> Seq<IndexEntryView>
    decreases s.len(),
{
    if s.len() == 0 {
        Seq::empty()
    } else {
        let rest = non_gitlinks(s.drop_last());
        if s.last().mode != FileMode::GITLINK {
            rest.push(s.last()@)
        } else {
            rest
        }
    }
}

/// Whether the entry is of stage `Normal` and at or under the directory `dir`.
pub open spec fn in_dir(e: BitIndexEntry, dir: Seq<u8>) -> bool {
    e.spec_stage() == MergeStage::Normal && (e.path@ == dir || path_under(dir, e.path@))
}

/// The entry is of stage `Normal` and collides with a file at `p`: it lies at a directory
/// above `p` or under `p`.
pub open spec fn collides(e: BitIndexEntry, p: Seq<u8>) -> bool {
    e.spec_stage() == MergeStage::Normal && collide_paths(e.path@, p)
}

/// `q` lies at a directory above `p` or under `p`: an entry of stage `Normal` at `q` collides
/// with a file at `p`.
pub open spec fn collide_paths(q: Seq<u8>, p: Seq<u8>) -> bool {
    (q.len() > 0 && path_under(q, p)) || path_under(p, q)
}

/// The entries with those that collide with a file at `p` taken out.
pub open spec fn without_collisions(m: Map<Seq<u8>, BitIndexEntry>, p: Seq<u8>) -> Map<Seq<u8>, BitIndexEntry> {
    Map::new(|k: Seq<u8>| m.contains_key(k) && !collides(m[k], p), |k: Seq<u8>| m[k])
}

/// No entry of stage `Normal` lies under another (with a nonempty path) of stage `Normal`: no
/// file of the index is also a directory of it.
pub open spec fn normal_apart(m: Map<Seq<u8>, BitIndexEntry>) -> bool {
    forall|k1: Seq<u8>, k2: Seq<u8>|
        #[trigger] m.contains_key(k1) && #[trigger] m.contains_key(k2) && m[k1].spec_stage() == MergeStage::Normal
            && m[k2].spec_stage() == MergeStage::Normal && m[k1].path@.len() > 0 ==> !path_under(m[k1].path@, m[k2].path@)
}

/// Staging a file (as `index_add_entry` does, taking out the colliding entries) keeps the
/// entries of stage `Normal` apart.
pub proof fn law_staging_keeps_entries_apart(m: Map<Seq<u8>, BitIndexEntry>, entry: BitIndexEntry)
    requires
        normal_apart(m),
        entry.spec_stage() == MergeStage::Normal,
    ensures
        ({
            let c = entry.path@;
            normal_apart(without_collisions(m.remove(index_key(c, MergeStage::Base)).remove(index_key(c, MergeStage::Ours)).remove(
                index_key(c, MergeStage::Theirs)), c).insert(index_key(c, MergeStage::Normal), entry))
        }),
{
    let c = entry.path@;
    let m1 = m.remove(index_key(c, MergeStage::Base)).remove(index_key(c, MergeStage::Ours)).remove(index_key(c, MergeStage::Theirs));
    let m2 = without_collisions(m1, c).insert(index_key(c, MergeStage::Normal), entry);
    assert forall|k1: Seq<u8>, k2: Seq<u8>|
        #[trigger] m2.contains_key(k1) && #[trigger] m2.contains_key(k2) && m2[k1].spec_stage() == MergeStage::Normal
            && m2[k2].spec_stage() == MergeStage::Normal && m2[k1].path@.len() > 0 implies !path_under(m2[k1].path@, m2[k2].path@) by {
        let nk = index_key(c, MergeStage::Normal);
        if k1 != nk && k2 != nk {
            assert(m.contains_key(k1) && m.contains_key(k2));
        } else if k1 == nk && k2 != nk {
            assert(!collides(m1[k2], c));
        } else if k1 != nk && k2 == nk {
            assert(!collides(m1[k1], c));
        } else {
            assert(!crate::bytes::is_prefix(c.push(47u8), c));
        }
    }
}

/// The entries that `remove_normal` removes: those in the directory `p`, or those colliding
/// with a file at `p`.
pub open spec fn removal(e: BitIndexEntry, p: Seq<u8>, around: bool) -> bool {
    if around {
        collides(e, p)
    } else {
        in_dir(e, p)
    }
}

} // verus!
