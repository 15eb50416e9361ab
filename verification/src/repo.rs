//! The repository: object store, references, HEAD, index and working tree, held in memory.
use crate::bytemap::{keys_sorted, ByteMap};
use crate::bytes::{append_bytes, copy_bytes, is_path_under, is_prefix, path_under, slice_to_vec, starts_with};
use crate::error::{BitError, BitResult};
use crate::hash::{bytes_eq, Oid, SHA1Hash};
use crate::index::serialize::{entries_map, entry_view_map, lemma_entries_map_list};
use crate::index::{entry_views, index_key, without_collisions, BitIndexEntry, BitIndexInner, MergeStage};
use crate::obj::{obj_oid, BitObjKind, BitObjType, Blob, Commit, FileMode, ObjView, Tree, TreeEntry};
use vstd::prelude::*;

verus! {

/// A file of the working tree: its mode and contents.
#[derive(Debug, PartialEq, Eq)]
pub struct WorktreeFile {
    pub mode: FileMode,
    pub data: Vec<u8>,
}

impl WorktreeFile {
    /// A copy of the file.
    pub fn copy(&self) -> (r: Self)
        ensures
            r.mode == self.mode,
            r.data@ == self.data@,
    {
        WorktreeFile { mode: self.mode, data: copy_bytes(&self.data) }
    }
}

/// A reference: either an object id, or the full name of another reference.
#[derive(Debug, PartialEq, Eq)]
pub enum BitRef {
    Direct(Oid),
    Symbolic(Vec<u8>),
}

/// `refs/heads/`
pub open spec fn heads_prefix() -> Seq<u8> {
    seq![114u8, 101, 102, 115, 47, 104, 101, 97, 100, 115, 47]
}

/// `refs/remotes/`
pub open spec fn remotes_prefix() -> Seq<u8> {
    seq![114u8, 101, 102, 115, 47, 114, 101, 109, 111, 116, 101, 115, 47]
}

/// `refs/`
pub open spec fn refs_prefix() -> Seq<u8> {
    seq![114u8, 101, 102, 115, 47]
}

/// `HEAD`
pub open spec fn head_name() -> Seq<u8> {
    seq![72u8, 69, 65, 68]
}

pub fn heads_prefix_bytes() -> (r: Vec<u8>)
    ensures
        r@ == heads_prefix(),
{
    let r = vec![114u8, 101, 102, 115, 47, 104, 101, 97, 100, 115, 47];
    assert(r@ =~= heads_prefix());
    r
}

pub fn remotes_prefix_bytes() -> (r: Vec<u8>)
    ensures
        r@ == remotes_prefix(),
{
    let r = vec![114u8, 101, 102, 115, 47, 114, 101, 109, 111, 116, 101, 115, 47];
    assert(r@ =~= remotes_prefix());
    r
}

pub fn refs_prefix_bytes() -> (r: Vec<u8>)
    ensures
        r@ == refs_prefix(),
{
    let r = vec![114u8, 101, 102, 115, 47];
    assert(r@ =~= refs_prefix());
    r
}

pub fn head_name_bytes() -> (r: Vec<u8>)
    ensures
        r@ == head_name(),
{
    let r = vec![72u8, 69, 65, 68];
    assert(r@ =~= head_name());
    r
}

/// The mathematical value of a reference.
pub enum RefView {
    Direct(Seq<u8>),
    Symbolic(Seq<u8>),
}

impl View for BitRef {
    type V = RefView;

    open spec fn view(&self) -> RefView {
        match self {
            BitRef::Direct(o) => RefView::Direct(o@),
            BitRef::Symbolic(n) => RefView::Symbolic(n@),
        }
    }
}

impl BitRef {
    pub fn is_direct(&self) -> (r: bool)
        ensures
            r == (self is Direct),
    {
        match self {
            BitRef::Direct(_) => true,
            BitRef::Symbolic(_) => false,
        }
    }

    pub fn is_symbolic(&self) -> (r: bool)
        ensures
            r == (self is Symbolic),
    {
        !self.is_direct()
    }

    /// Whether the reference names a remote branch (`refs/remotes/...`).
    pub fn is_remote(&self) -> (r: bool)
        ensures
            r == (self matches BitRef::Symbolic(n) && is_prefix(remotes_prefix(), n@)),
    {
        match self {
            BitRef::Direct(_) => false,
            BitRef::Symbolic(n) => {
                let p = remotes_prefix_bytes();
                starts_with(n.as_slice(), p.as_slice())
            },
        }
    }

    /// A copy of the reference.
    pub fn copy(&self) -> (r: Self)
        ensures
            r@ == self@,
    {
        match self {
            BitRef::Direct(o) => BitRef::Direct(*o),
            BitRef::Symbolic(n) => BitRef::Symbolic(copy_bytes(n)),
        }
    }

    /// The reference `HEAD`.
    pub fn head() -> (r: Self)
        ensures
            r@ == RefView::Symbolic(head_name()),
    {
        BitRef::Symbolic(head_name_bytes())
    }
}

/// Where a reference name is looked up: as given, then under `refs/heads/`, then under
/// `refs/remotes/`.
pub open spec fn expand_ref(refs: Map<Seq<u8>, Oid>, name: Seq<u8>) -> Option<Seq<u8>> {
    if refs.contains_key(name) {
        Some(name)
    } else if refs.contains_key(heads_prefix() + name) {
        Some(heads_prefix() + name)
    } else if refs.contains_key(remotes_prefix() + name) {
        Some(remotes_prefix() + name)
    } else {
        None
    }
}

/// A repository held in memory.
pub struct BitRepo {
    odb: ByteMap<BitObjKind>,
    refs: ByteMap<Oid>,
    head: BitRef,
    index: BitIndexInner,
    worktree: ByteMap<WorktreeFile>,
    time: u64,
}

impl BitRepo {
    /// The objects, by id.
    pub closed spec fn spec_odb(&self) -> Map<Seq<u8>, BitObjKind> {
        self.odb.spec_map()
    }

    /// The references, by full name.
    pub closed spec fn spec_refs(&self) -> Map<Seq<u8>, Oid> {
        self.refs.spec_map()
    }

    pub closed spec fn spec_head(&self) -> RefView {
        self.head@
    }

    pub closed spec fn spec_index(&self) -> BitIndexInner {
        self.index
    }

    /// The files of the working tree, by path.
    pub closed spec fn spec_worktree(&self) -> Map<Seq<u8>, WorktreeFile> {
        self.worktree.spec_map()
    }

    /// The clock that stamps commits.
    pub closed spec fn spec_time(&self) -> u64 {
        self.time
    }

    /// The index is well formed.
    pub open spec fn wf(&self) -> bool {
        self.spec_index().wf()
    }

    /// An empty repository whose HEAD names the branch `master`, which does not exist yet.
    pub fn new() -> (r: Self)
        ensures
            r.wf(),
            r.spec_odb() == Map::<Seq<u8>, BitObjKind>::empty(),
            r.spec_refs() == Map::<Seq<u8>, Oid>::empty(),
            r.spec_worktree() == Map::<Seq<u8>, WorktreeFile>::empty(),
            r.spec_index().spec_entries() == Map::<Seq<u8>, BitIndexEntry>::empty(),
            r.spec_head() == RefView::Symbolic(heads_prefix() + seq![109u8, 97, 115, 116, 101, 114]),
    {
        let mut name = heads_prefix_bytes();
        let master = vec![109u8, 97, 115, 116, 101, 114];
        append_bytes(&mut name, master.as_slice());
        proof {
            assert(master@ =~= seq![109u8, 97, 115, 116, 101, 114]);
        }
        BitRepo {
            odb: ByteMap::new(),
            refs: ByteMap::new(),
            head: BitRef::Symbolic(name),
            index: BitIndexInner::new(),
            worktree: ByteMap::new(),
            time: 0,
        }
    }

    /// The index.
    pub fn index(&self) -> (r: &BitIndexInner)
        ensures
            *r == self.spec_index(),
    {
        &self.index
    }

    /// The number of objects stored.
    pub closed spec fn spec_odb_len(&self) -> nat {
        self.odb.spec_keys().len()
    }

    /// A finite set of stored ids holds at most as many ids as there are objects.
    pub proof fn lemma_odb_bound(&self, s: Set<Seq<u8>>)
        requires
            forall|k: Seq<u8>| #[trigger] s.contains(k) ==> self.spec_odb().contains_key(k),
        ensures
            s.finite(),
            s.len() <= self.spec_odb_len(),
    {
        let ks = self.odb.spec_keys();
        ks.lemma_cardinality_of_set();
        assert(s.subset_of(ks.to_set()));
        vstd::set_lib::lemma_len_subset(s, ks.to_set());
    }

    /// The number of objects stored.
    pub fn odb_len(&self) -> (r: usize)
        ensures
            r == self.spec_odb_len(),
    {
        self.odb.len()
    }

    // ---------------------------------------------------------------------------------
    // The object store

    /// Stores an object under its id and returns the id.
    pub fn write_obj(&mut self, obj: BitObjKind) -> (r: Oid)
        requires
            old(self).wf(),
        ensures
            final(self).wf(),
            r@ == obj_oid(obj@),
            final(self).spec_odb() == old(self).spec_odb().insert(r@, obj),
            final(self).spec_refs() == old(self).spec_refs(),
            final(self).spec_head() == old(self).spec_head(),
            final(self).spec_index() == old(self).spec_index(),
            final(self).spec_worktree() == old(self).spec_worktree(),
            final(self).spec_time() == old(self).spec_time(),
    {
        let oid = obj.hash();
        let key = slice_to_vec(oid.as_bytes().as_slice());
        self.odb.insert(key, obj);
        oid
    }

    /// Stores a blob with the given contents and returns its id.
    pub fn write_blob(&mut self, bytes: Vec<u8>) -> (r: Oid)
        requires
            old(self).wf(),
        ensures
            final(self).wf(),
            r@ == obj_oid(ObjView::Blob(bytes@)),
            final(self).spec_odb() == old(self).spec_odb().insert(r@, BitObjKind::Blob(Blob { bytes })),
            final(self).spec_refs() == old(self).spec_refs(),
            final(self).spec_head() == old(self).spec_head(),
            final(self).spec_index() == old(self).spec_index(),
            final(self).spec_worktree() == old(self).spec_worktree(),
            final(self).spec_time() == old(self).spec_time(),
    {
        let ghost b = bytes;
        self.write_obj(BitObjKind::Blob(Blob { bytes }))
    }

    /// The object with the given id.
    pub fn read_obj(&self, oid: &Oid) -> (r: BitResult<&BitObjKind>)
        ensures
            r is Ok <==> self.spec_odb().contains_key(oid@),
            r matches Ok(o) ==> *o == self.spec_odb()[oid@],
            r matches Err(e) ==> e == BitError::ObjectNotFound(*oid),
    {
        match self.odb.get(oid.as_bytes().as_slice()) {
            Some(o) => Ok(o),
            None => Err(BitError::ObjectNotFound(*oid)),
        }
    }

    /// Whether an object with the given id is stored.
    pub fn contains_obj(&self, oid: &Oid) -> (r: bool)
        ensures
            r == self.spec_odb().contains_key(oid@),
    {
        self.odb.contains_key(oid.as_bytes().as_slice())
    }

    /// The contents of the blob with the given id.
    pub fn read_blob(&self, oid: &Oid) -> (r: BitResult<&Vec<u8>>)
        ensures
            r is Ok <==> (self.spec_odb().contains_key(oid@) && self.spec_odb()[oid@] is Blob),
            r matches Ok(b) ==> self.spec_odb()[oid@] == BitObjKind::Blob(Blob { bytes: *b }),
            r matches Err(e) ==> (e is ObjectNotFound || e is ExpectedBlob),
    {
        match self.read_obj(oid)? {
            BitObjKind::Blob(b) => Ok(&b.bytes),
            o => Err(BitError::ExpectedBlob(*oid, o.obj_type())),
        }
    }

    /// The tree with the given id.
    pub fn read_tree(&self, oid: &Oid) -> (r: BitResult<&Tree>)
        ensures
            r is Ok <==> (self.spec_odb().contains_key(oid@) && self.spec_odb()[oid@] is Tree),
            r matches Ok(t) ==> self.spec_odb()[oid@] == BitObjKind::Tree(*t),
            r matches Err(e) ==> (e is ObjectNotFound || e is ExpectedTree),
    {
        match self.read_obj(oid)? {
            BitObjKind::Tree(t) => Ok(t),
            o => Err(BitError::ExpectedTree(*oid, o.obj_type())),
        }
    }

    /// The commit with the given id.
    pub fn read_commit(&self, oid: &Oid) -> (r: BitResult<&Commit>)
        ensures
            r is Ok <==> (self.spec_odb().contains_key(oid@) && self.spec_odb()[oid@] is Commit),
            r matches Ok(c) ==> self.spec_odb()[oid@] == BitObjKind::Commit(*c),
            r matches Err(e) ==> (e is ObjectNotFound || e is ExpectedCommit),
    {
        match self.read_obj(oid)? {
            BitObjKind::Commit(c) => Ok(c),
            o => Err(BitError::ExpectedCommit(*oid, o.obj_type())),
        }
    }

    /// Returns the clock's reading and advances it (it stops at its largest value).
    pub fn tick(&mut self) -> (r: u64)
        requires
            old(self).wf(),
        ensures
            final(self).wf(),
            r == old(self).spec_time(),
            final(self).spec_time() == (if r < u64::MAX { r + 1 } else { r as int }),
            final(self).spec_odb() == old(self).spec_odb(),
            final(self).spec_refs() == old(self).spec_refs(),
            final(self).spec_head() == old(self).spec_head(),
            final(self).spec_index() == old(self).spec_index(),
            final(self).spec_worktree() == old(self).spec_worktree(),
    {
        let t = self.time;
        if t < u64::MAX {
            self.time = t + 1;
        }
        t
    }

    // ---------------------------------------------------------------------------------
    // References

    /// What HEAD holds.
    pub fn read_head(&self) -> (r: &BitRef)
        ensures
            r@ == self.spec_head(),
    {
        &self.head
    }

    /// Whether HEAD holds an object id rather than the name of a branch.
    pub fn is_head_detached(&self) -> (r: bool)
        ensures
            r == (self.spec_head() is Direct),
    {
        self.head.is_direct()
    }

    /// Replaces what HEAD holds.
    pub fn set_head(&mut self, new_head: BitRef)
        requires
            old(self).wf(),
        ensures
            final(self).wf(),
            final(self).spec_head() == new_head@,
            final(self).spec_odb() == old(self).spec_odb(),
            final(self).spec_refs() == old(self).spec_refs(),
            final(self).spec_index() == old(self).spec_index(),
            final(self).spec_worktree() == old(self).spec_worktree(),
            final(self).spec_time() == old(self).spec_time(),
    {
        self.head = new_head;
    }

    /// Sets the reference with the given full name.
    pub fn write_ref(&mut self, name: Vec<u8>, oid: Oid)
        requires
            old(self).wf(),
        ensures
            final(self).wf(),
            final(self).spec_refs() == old(self).spec_refs().insert(name@, oid),
            final(self).spec_head() == old(self).spec_head(),
            final(self).spec_odb() == old(self).spec_odb(),
            final(self).spec_index() == old(self).spec_index(),
            final(self).spec_worktree() == old(self).spec_worktree(),
            final(self).spec_time() == old(self).spec_time(),
    {
        self.refs.insert(name, oid);
    }

    /// The full name that a reference name stands for.
    pub fn expand_ref_name(&self, name: &[u8]) -> (r: BitResult<Vec<u8>>)
        ensures
            r is Ok <==> expand_ref(self.spec_refs(), name@) is Some,
            r matches Ok(n) ==> expand_ref(self.spec_refs(), name@) == Some(n@),
            r matches Err(e) ==> (e matches BitError::NonExistentSymRef(n) && n@ == name@),
    {
        if self.refs.contains_key(name) {
            return Ok(slice_to_vec(name));
        }
        let mut h = heads_prefix_bytes();
        append_bytes(&mut h, name);
        if self.refs.contains_key(h.as_slice()) {
            return Ok(h);
        }
        let mut rm = remotes_prefix_bytes();
        append_bytes(&mut rm, name);
        if self.refs.contains_key(rm.as_slice()) {
            return Ok(rm);
        }
        Err(BitError::NonExistentSymRef(slice_to_vec(name)))
    }

    /// The object id that a reference finally names: HEAD is followed to the branch it
    /// names, and a branch name to the id it holds.
    pub fn fully_resolve_ref(&self, reference: &BitRef) -> (r: BitResult<Oid>)
        ensures
            r is Ok <==> resolves(self.spec_refs(), self.spec_head(), reference@),
            r matches Ok(o) ==> o@ == resolve(self.spec_refs(), self.spec_head(), reference@),
            r matches Err(e) ==> e is NonExistentSymRef,
    {
        match reference {
            BitRef::Direct(o) => Ok(*o),
            BitRef::Symbolic(name) => {
                let hn = head_name_bytes();
                if bytes_eq(name.as_slice(), hn.as_slice()) {
                    match &self.head {
                        BitRef::Direct(o) => Ok(*o),
                        BitRef::Symbolic(b) => {
                            let full = self.expand_ref_name(b.as_slice())?;
                            Ok(*self.refs.get(full.as_slice()).unwrap())
                        },
                    }
                } else {
                    let full = self.expand_ref_name(name.as_slice())?;
                    Ok(*self.refs.get(full.as_slice()).unwrap())
                }
            },
        }
    }

    /// The id HEAD finally names.
    pub fn fully_resolve_head(&self) -> (r: BitResult<Oid>)
        ensures
            r is Ok <==> resolves(self.spec_refs(), self.spec_head(), RefView::Symbolic(head_name())),
            r matches Ok(o) ==> o@ == resolve(self.spec_refs(), self.spec_head(), RefView::Symbolic(head_name())),
            r matches Err(e) ==> e is NonExistentSymRef,
    {
        self.fully_resolve_ref(&BitRef::head())
    }

    /// Points the branch HEAD names (or HEAD itself, when detached) at `oid`.
    pub fn update_current_ref(&mut self, oid: Oid)
        requires
            old(self).wf(),
        ensures
            final(self).wf(),
            old(self).spec_head() matches RefView::Symbolic(b) ==> final(self).spec_refs()
                == old(self).spec_refs().insert(b, oid) && final(self).spec_head() == old(self).spec_head(),
            old(self).spec_head() is Direct ==> final(self).spec_refs() == old(self).spec_refs()
                && final(self).spec_head() == RefView::Direct(oid@),
            final(self).spec_odb() == old(self).spec_odb(),
            final(self).spec_odb_len() == old(self).spec_odb_len(),
            final(self).spec_index() == old(self).spec_index(),
            final(self).spec_worktree() == old(self).spec_worktree(),
            final(self).spec_time() == old(self).spec_time(),
    {
        match &self.head {
            BitRef::Direct(_) => {
                self.head = BitRef::Direct(oid);
            },
            BitRef::Symbolic(b) => {
                let name = copy_bytes(b);
                self.refs.insert(name, oid);
            },
        }
    }

    /// Creates (or moves) a branch. A name that starts with `refs/` is taken as the full
    /// name; any other name is a branch under `refs/heads/`. Fails on an empty name and on
    /// a source that does not resolve.
    pub fn create_branch(&mut self, name: &[u8], from: &BitRef) -> (r: BitResult<()>)
        requires
            old(self).wf(),
        ensures
            final(self).wf(),
            r is Ok <==> (name@.len() > 0 && resolves(old(self).spec_refs(), old(self).spec_head(), from@)),
            r is Ok ==> final(self).spec_refs().dom() == old(self).spec_refs().dom().insert(branch_full_name(name@)),
            r is Ok ==> final(self).spec_refs()[branch_full_name(name@)]@ == resolve(
                old(self).spec_refs(),
                old(self).spec_head(),
                from@,
            ),
            r is Ok ==> forall|n: Seq<u8>| n != branch_full_name(name@) && #[trigger] old(self).spec_refs().contains_key(n)
                ==> final(self).spec_refs()[n] == old(self).spec_refs()[n],
            r is Err ==> final(self).spec_refs() == old(self).spec_refs(),
            name@.len() == 0 ==> (r matches Err(BitError::InvalidBranchName(n)) && n@ == name@),
            final(self).spec_head() == old(self).spec_head(),
            final(self).spec_odb() == old(self).spec_odb(),
            final(self).spec_index() == old(self).spec_index(),
            final(self).spec_worktree() == old(self).spec_worktree(),
            final(self).spec_time() == old(self).spec_time(),
    {
        if name.len() == 0 {
            return Err(BitError::InvalidBranchName(slice_to_vec(name)));
        }
        let oid = self.fully_resolve_ref(from)?;
        let full = branch_name_bytes(name);
        self.refs.insert(full, oid);
        Ok(())
    }

    // ---------------------------------------------------------------------------------
    // The working tree

    /// The file at `path`, if there is one.
    pub fn worktree_file(&self, path: &[u8]) -> (r: Option<&WorktreeFile>)
        ensures
            r is Some <==> self.spec_worktree().contains_key(path@),
            r matches Some(f) ==> *f == self.spec_worktree()[path@],
    {
        self.worktree.get(path)
    }

    /// The contents of the file at `path`, if there is one.
    pub fn cat(&self, path: &[u8]) -> (r: Option<Vec<u8>>)
        ensures
            r is Some <==> self.spec_worktree().contains_key(path@),
            r matches Some(d) ==> d@ == self.spec_worktree()[path@].data@,
    {
        match self.worktree.get(path) {
            Some(f) => Some(copy_bytes(&f.data)),
            None => None,
        }
    }

    /// Whether `path` is a file of the working tree or a directory holding one.
    pub fn path_exists(&self, path: &[u8]) -> (r: bool)
        ensures
            r == worktree_has(self.spec_worktree(), path@),
    {
        if self.worktree.contains_key(path) {
            return true;
        }
        let n = self.worktree.len();
        let mut i: usize = 0;
        self.worktree.well_formed();
        proof {
            self.worktree.lemma_list();
        }
        while i < n
            invariant
                0 <= i <= n,
                n == self.worktree.spec_keys().len(),
                forall|j: int| 0 <= j < i ==> !path_under(path@, #[trigger] self.worktree.spec_keys()[j]),
            decreases n - i,
        {
            if is_path_under(path, self.worktree.key_at(i).as_slice()) {
                proof {
                    assert(self.spec_worktree().contains_key(self.worktree.spec_keys()[i as int]));
                }
                return true;
            }
            i = i + 1;
        }
        proof {
            assert forall|p: Seq<u8>| #[trigger] self.spec_worktree().contains_key(p) implies !path_under(path@, p) by {
                let j = choose|j: int| 0 <= j < self.worktree.spec_keys().len() && self.worktree.spec_keys()[j] == p;
                assert(!path_under(path@, self.worktree.spec_keys()[j]));
            }
        }
        false
    }

    /// Writes the file at `path` (creating or replacing it).
    pub fn write_file(&mut self, path: Vec<u8>, file: WorktreeFile)
        requires
            old(self).wf(),
        ensures
            final(self).wf(),
            final(self).spec_worktree() == old(self).spec_worktree().insert(path@, file),
            final(self).spec_odb() == old(self).spec_odb(),
            final(self).spec_refs() == old(self).spec_refs(),
            final(self).spec_head() == old(self).spec_head(),
            final(self).spec_index() == old(self).spec_index(),
            final(self).spec_time() == old(self).spec_time(),
    {
        self.worktree.insert(path, file);
    }

    /// Writes a regular file with the given contents at `path`.
    pub fn touch(&mut self, path: &[u8], data: &[u8])
        requires
            old(self).wf(),
        ensures
            final(self).wf(),
            final(self).spec_worktree() == old(self).spec_worktree().insert(
                path@,
                WorktreeFile { mode: FileMode::REG, data: final(self).spec_worktree()[path@].data },
            ),
            final(self).spec_worktree()[path@].data@ == data@,
            final(self).spec_odb() == old(self).spec_odb(),
            final(self).spec_refs() == old(self).spec_refs(),
            final(self).spec_head() == old(self).spec_head(),
            final(self).spec_index() == old(self).spec_index(),
            final(self).spec_time() == old(self).spec_time(),
    {
        self.write_file(slice_to_vec(path), WorktreeFile { mode: FileMode::REG, data: slice_to_vec(data) });
    }

    /// Removes the file at `path`; nothing happens when there is none.
    pub fn rm(&mut self, path: &[u8])
        requires
            old(self).wf(),
        ensures
            final(self).wf(),
            final(self).spec_worktree() == old(self).spec_worktree().remove(path@),
            final(self).spec_odb() == old(self).spec_odb(),
            final(self).spec_refs() == old(self).spec_refs(),
            final(self).spec_head() == old(self).spec_head(),
            final(self).spec_index() == old(self).spec_index(),
            final(self).spec_time() == old(self).spec_time(),
    {
        let _ = self.worktree.remove(path);
    }

    /// Removes `dir` and every file under it.
    pub fn rmdir_all(&mut self, dir: &[u8])
        requires
            old(self).wf(),
        ensures
            final(self).wf(),
            forall|p: Seq<u8>| #[trigger] final(self).spec_worktree().contains_key(p) <==> (
                old(self).spec_worktree().contains_key(p) && p != dir@ && !path_under(dir@, p)),
            forall|p: Seq<u8>| #[trigger] final(self).spec_worktree().contains_key(p) ==>
                final(self).spec_worktree()[p] == old(self).spec_worktree()[p],
            final(self).spec_odb() == old(self).spec_odb(),
            final(self).spec_refs() == old(self).spec_refs(),
            final(self).spec_head() == old(self).spec_head(),
            final(self).spec_index() == old(self).spec_index(),
            final(self).spec_time() == old(self).spec_time(),
    {
        let paths = self.worktree_paths();
        let mut i: usize = 0;
        let ghost w0 = self.spec_worktree();
        while i < paths.len()
            invariant
                0 <= i <= paths@.len(),
                self.wf(),
                forall|j: int| 0 <= j < paths@.len() ==> w0.contains_key(#[trigger] paths@[j]@),
                forall|p: Seq<u8>| w0.contains_key(p) ==> exists|j: int| 0 <= j < paths@.len() && #[trigger] paths@[j]@ == p,
                forall|p: Seq<u8>| #[trigger] self.spec_worktree().contains_key(p) <==> (w0.contains_key(p)
                    && !((p == dir@ || path_under(dir@, p)) && exists|j: int| 0 <= j < i && paths@[j]@ == p)),
                forall|p: Seq<u8>| #[trigger] self.spec_worktree().contains_key(p) ==> self.spec_worktree()[p] == w0[p],
                self.spec_odb() == old(self).spec_odb(),
                self.spec_refs() == old(self).spec_refs(),
                self.spec_head() == old(self).spec_head(),
                self.spec_index() == old(self).spec_index(),
                self.spec_time() == old(self).spec_time(),
            decreases paths@.len() - i,
        {
            let p = &paths[i];
            if bytes_eq(p.as_slice(), dir) || is_path_under(dir, p.as_slice()) {
                self.rm(p.as_slice());
            }
            i = i + 1;
        }
    }

    // ---------------------------------------------------------------------------------
    // The index

    /// Replaces the index.
    pub fn set_index(&mut self, index: BitIndexInner)
        requires
            old(self).wf(),
            index.wf(),
        ensures
            final(self).wf(),
            final(self).spec_index() == index,
            final(self).spec_odb() == old(self).spec_odb(),
            final(self).spec_refs() == old(self).spec_refs(),
            final(self).spec_head() == old(self).spec_head(),
            final(self).spec_worktree() == old(self).spec_worktree(),
            final(self).spec_time() == old(self).spec_time(),
    {
        self.index = index;
    }

    /// Adds an entry of stage `Normal`, replacing the entry and the conflict entries of its path;
    /// the entries (of stage `Normal`) at directories above it or under it are removed.
    pub fn index_add_entry(&mut self, entry: BitIndexEntry)
        requires
            old(self).wf(),
            entry.spec_stage() == MergeStage::Normal,
        ensures
            final(self).wf(),
            final(self).spec_index().spec_entries() == without_collisions(old(self).spec_index().spec_entries().remove(
                index_key(entry.path@, MergeStage::Base),
            ).remove(index_key(entry.path@, MergeStage::Ours)).remove(
                index_key(entry.path@, MergeStage::Theirs),
            ), entry.path@).insert(index_key(entry.path@, MergeStage::Normal), entry),
            final(self).spec_odb() == old(self).spec_odb(),
            final(self).spec_refs() == old(self).spec_refs(),
            final(self).spec_head() == old(self).spec_head(),
            final(self).spec_worktree() == old(self).spec_worktree(),
            final(self).spec_time() == old(self).spec_time(),
    {
        self.index.remove_conflicted(entry.path.as_slice());
        let ghost m1 = self.index.spec_entries();
        self.index.remove_collisions(entry.path.as_slice());
        proof {
            assert(self.index.spec_entries() =~= without_collisions(m1, entry.path@));
        }
        self.index.insert_entry(entry);
    }

    /// Adds `entry` as the conflict entry of the given stage, removing the entry of stage
    /// `Normal` of its path and those at directories above it or under it.
    pub fn index_add_conflicted(&mut self, entry: BitIndexEntry, stage: MergeStage)
        requires
            old(self).wf(),
            stage != MergeStage::Normal,
        ensures
            final(self).wf(),
            final(self).spec_index().spec_entries().contains_key(index_key(entry.path@, stage)),
            final(self).spec_index().spec_entries()[index_key(entry.path@, stage)].spec_stage() == stage,
            final(self).spec_index().spec_entries()[index_key(entry.path@, stage)].path@ == entry.path@,
            final(self).spec_index().spec_entries()[index_key(entry.path@, stage)].oid@ == entry.oid@,
            final(self).spec_index().spec_entries()[index_key(entry.path@, stage)].mode == entry.mode,
            final(self).spec_index().spec_entries() == without_collisions(old(self).spec_index().spec_entries().remove(
                index_key(entry.path@, MergeStage::Normal),
            ), entry.path@).insert(index_key(entry.path@, stage), final(self).spec_index().spec_entries()[index_key(entry.path@, stage)]),
            final(self).spec_odb() == old(self).spec_odb(),
            final(self).spec_refs() == old(self).spec_refs(),
            final(self).spec_head() == old(self).spec_head(),
            final(self).spec_worktree() == old(self).spec_worktree(),
            final(self).spec_time() == old(self).spec_time(),
    {
        let mut entry = entry;
        self.index.remove_entry(entry.path.as_slice(), MergeStage::Normal);
        let ghost m1 = self.index.spec_entries();
        self.index.remove_collisions(entry.path.as_slice());
        proof {
            assert(self.index.spec_entries() =~= without_collisions(m1, entry.path@));
        }
        entry.set_stage(stage);
        self.index.insert_entry(entry);
    }

    /// Removes the entry of the given path and stage.
    pub fn index_remove(&mut self, path: &[u8], stage: MergeStage)
        requires
            old(self).wf(),
        ensures
            final(self).wf(),
            final(self).spec_index().spec_entries() == old(self).spec_index().spec_entries().remove(index_key(path@, stage)),
            final(self).spec_odb() == old(self).spec_odb(),
            final(self).spec_refs() == old(self).spec_refs(),
            final(self).spec_head() == old(self).spec_head(),
            final(self).spec_worktree() == old(self).spec_worktree(),
            final(self).spec_time() == old(self).spec_time(),
    {
        self.index.remove_entry(path, stage);
    }

    /// Removes the entries of every stage of a path.
    pub fn index_remove_all_stages(&mut self, path: &[u8])
        requires
            old(self).wf(),
        ensures
            final(self).wf(),
            final(self).spec_index().spec_entries() == old(self).spec_index().spec_entries().remove(
                index_key(path@, MergeStage::Normal),
            ).remove(index_key(path@, MergeStage::Base)).remove(index_key(path@, MergeStage::Ours)).remove(
                index_key(path@, MergeStage::Theirs),
            ),
            final(self).spec_odb() == old(self).spec_odb(),
            final(self).spec_refs() == old(self).spec_refs(),
            final(self).spec_head() == old(self).spec_head(),
            final(self).spec_worktree() == old(self).spec_worktree(),
            final(self).spec_time() == old(self).spec_time(),
    {
        self.index.remove_entry(path, MergeStage::Normal);
        self.index.remove_conflicted(path);
    }

    /// Removes the entries (of stage `Normal`) at or under `dir`.
    pub fn index_remove_directory(&mut self, dir: &[u8])
        requires
            old(self).wf(),
        ensures
            final(self).wf(),
            forall|k: Seq<u8>| #[trigger] final(self).spec_index().spec_entries().contains_key(k) <==> (
                old(self).spec_index().spec_entries().contains_key(k)
                && !crate::index::in_dir(old(self).spec_index().spec_entries()[k], dir@)),
            final(self).spec_odb() == old(self).spec_odb(),
            final(self).spec_refs() == old(self).spec_refs(),
            final(self).spec_head() == old(self).spec_head(),
            final(self).spec_worktree() == old(self).spec_worktree(),
            final(self).spec_time() == old(self).spec_time(),
    {
        self.index.remove_directory(dir);
    }

    /// Stages the file at `path`: its contents become a blob and its entry replaces the
    /// entries of the path. When there is no such file the entries of the path are removed;
    /// fails when there is neither file nor entry.
    pub fn add_path(&mut self, path: &[u8]) -> (r: BitResult<()>)
        requires
            old(self).wf(),
        ensures
            final(self).wf(),
            r is Err <==> (!old(self).spec_worktree().contains_key(path@) && !old(self).spec_index().spec_entries().contains_key(
                index_key(path@, MergeStage::Normal)) && !old(self).spec_index().spec_entries().contains_key(
                index_key(path@, MergeStage::Base)) && !old(self).spec_index().spec_entries().contains_key(
                index_key(path@, MergeStage::Ours)) && !old(self).spec_index().spec_entries().contains_key(
                index_key(path@, MergeStage::Theirs))),
            r is Err ==> (r matches Err(BitError::NoFilesMatched(q)) && q@ == path@),
            old(self).spec_worktree().contains_key(path@) ==> final(self).spec_index().spec_entries().contains_key(
                index_key(path@, MergeStage::Normal)) && final(self).spec_index().spec_entries()[index_key(path@, MergeStage::Normal)].oid@
                == obj_oid(ObjView::Blob(old(self).spec_worktree()[path@].data@))
                && final(self).spec_index().spec_entries()[index_key(path@, MergeStage::Normal)].mode
                == old(self).spec_worktree()[path@].mode,
            !old(self).spec_worktree().contains_key(path@) ==> !final(self).spec_index().spec_entries().contains_key(
                index_key(path@, MergeStage::Normal)),
            forall|s: MergeStage| s != MergeStage::Normal ==> !(#[trigger] final(self).spec_index().spec_entries().contains_key(
                index_key(path@, s))),
            forall|q: Seq<u8>, s: MergeStage| q != path@ && !(s == MergeStage::Normal && old(self).spec_worktree().contains_key(path@)
                && crate::index::collide_paths(q, path@)) ==> (#[trigger] final(self).spec_index().spec_entries().contains_key(
                index_key(q, s)) <==> old(self).spec_index().spec_entries().contains_key(index_key(q, s))),
            forall|q: Seq<u8>, s: MergeStage| q != path@ && #[trigger] final(self).spec_index().spec_entries().contains_key(
                index_key(q, s)) ==> final(self).spec_index().spec_entries()[index_key(q, s)]
                == old(self).spec_index().spec_entries()[index_key(q, s)],
            old(self).spec_worktree().contains_key(path@) ==> forall|q: Seq<u8>| crate::index::collide_paths(q, path@) ==> !(
                #[trigger] final(self).spec_index().spec_entries().contains_key(index_key(q, MergeStage::Normal))),
            final(self).spec_refs() == old(self).spec_refs(),
            final(self).spec_head() == old(self).spec_head(),
            final(self).spec_worktree() == old(self).spec_worktree(),
    {
        match self.worktree.get(path) {
            Some(f) => {
                let mode = f.mode;
                let data = copy_bytes(&f.data);
                let ghost d = data@;
                let oid = self.write_blob(data);
                let te = TreeEntry { mode, path: slice_to_vec(path), oid };
                let entry = BitIndexEntry::from_tree_entry(&te);
                let ghost i1 = self.spec_index();
                self.index_add_entry(entry);
                proof {
                    assert forall|q: Seq<u8>, s: MergeStage| #[trigger] i1.spec_entries().contains_key(index_key(q, s)) implies (
                        i1.spec_entries()[index_key(q, s)].path@ == q && i1.spec_entries()[index_key(q, s)].spec_stage() == s) by {
                        crate::index::lemma_entry_at_key(i1, q, s);
                    }
                    assert forall|q: Seq<u8>, s: MergeStage, t: MergeStage| #![trigger index_key(q, s), index_key(path@, t)] q != path@ implies index_key(q, s) != index_key(path@, t) by {
                        crate::index::lemma_index_key_injective(q, s, path@, t);
                    }
                    assert forall|s: MergeStage| #![trigger index_key(path@, s)] s != MergeStage::Normal implies index_key(path@, s) != index_key(path@, MergeStage::Normal) by {
                        crate::index::lemma_index_key_injective(path@, s, path@, MergeStage::Normal);
                    }
                    assert forall|s: MergeStage| s != MergeStage::Normal implies !(#[trigger] self.spec_index().spec_entries().contains_key(
                        index_key(path@, s))) by {
                        match s {
                            MergeStage::Normal => {},
                            MergeStage::Base => {},
                            MergeStage::Ours => {},
                            MergeStage::Theirs => {},
                        }
                    }
                }
                Ok(())
            },
            None => {
                let some = self.index.find_entry(path, MergeStage::Normal).is_some()
                    || self.index.find_entry(path, MergeStage::Base).is_some()
                    || self.index.find_entry(path, MergeStage::Ours).is_some()
                    || self.index.find_entry(path, MergeStage::Theirs).is_some();
                if !some {
                    return Err(BitError::NoFilesMatched(slice_to_vec(path)));
                }
                self.index_remove_all_stages(path);
                proof {
                    assert forall|q: Seq<u8>| q != path@ implies (#[trigger] self.spec_index().spec_entries().contains_key(
                        index_key(q, MergeStage::Normal)) == old(self).spec_index().spec_entries().contains_key(
                        index_key(q, MergeStage::Normal))) by {
                        crate::index::lemma_index_key_injective(q, MergeStage::Normal, path@, MergeStage::Normal);
                        crate::index::lemma_index_key_injective(q, MergeStage::Normal, path@, MergeStage::Base);
                        crate::index::lemma_index_key_injective(q, MergeStage::Normal, path@, MergeStage::Ours);
                        crate::index::lemma_index_key_injective(q, MergeStage::Normal, path@, MergeStage::Theirs);
                    }
                    assert forall|q: Seq<u8>, s: MergeStage, t: MergeStage| #![trigger index_key(q, s), index_key(path@, t)] q != path@ implies index_key(q, s) != index_key(path@, t) by {
                        crate::index::lemma_index_key_injective(q, s, path@, t);
                    }
                    assert forall|s: MergeStage| !(#[trigger] self.spec_index().spec_entries().contains_key(index_key(path@, s))) by {
                        match s {
                            MergeStage::Normal => {},
                            MergeStage::Base => {},
                            MergeStage::Ours => {},
                            MergeStage::Theirs => {},
                        }
                    }
                }
                Ok(())
            },
        }
    }

    /// Stages everything: every file of the working tree, and the removal of every indexed
    /// path that has no file any more.
    pub fn add_all(&mut self)
        requires
            old(self).wf(),
        ensures
            final(self).wf(),
            files_apart(old(self).spec_worktree()) ==> forall|p: Seq<u8>| #[trigger] old(self).spec_worktree().contains_key(p)
                ==> final(self).spec_index().spec_entries().contains_key(index_key(p, MergeStage::Normal)),
            files_apart(old(self).spec_worktree()) ==> forall|p: Seq<u8>| #[trigger] old(self).spec_worktree().contains_key(p)
                ==> crate::cmd::staged(old(self).spec_worktree(), final(self).spec_index().spec_entries(), p),
            forall|q: Seq<u8>, s: MergeStage| #[trigger] final(self).spec_index().spec_entries().contains_key(index_key(q, s)) ==>
                old(self).spec_worktree().contains_key(q) && s == MergeStage::Normal,
            final(self).spec_refs() == old(self).spec_refs(),
            final(self).spec_head() == old(self).spec_head(),
            final(self).spec_worktree() == old(self).spec_worktree(),
    {
        let paths = self.worktree_paths();
        let mut i: usize = 0;
        while i < paths.len()
            invariant
                0 <= i <= paths@.len(),
                self.wf(),
                self.spec_refs() == old(self).spec_refs(),
                self.spec_head() == old(self).spec_head(),
                self.spec_worktree() == old(self).spec_worktree(),
                forall|j: int| 0 <= j < paths@.len() ==> self.spec_worktree().contains_key(#[trigger] paths@[j]@),
                forall|p: Seq<u8>| self.spec_worktree().contains_key(p) ==> exists|j: int|
                    0 <= j < paths@.len() && #[trigger] paths@[j]@ == p,
                files_apart(old(self).spec_worktree()) ==> forall|j: int| 0 <= j < i ==> crate::cmd::staged(self.spec_worktree(),
                    self.spec_index().spec_entries(), #[trigger] paths@[j]@),
                forall|j: int, s: MergeStage| 0 <= j < i && s != MergeStage::Normal ==> !#[trigger] self.spec_index().spec_entries().contains_key(
                    index_key(paths@[j]@, s)),
            decreases paths@.len() - i,
        {
            let ghost i1 = self.spec_index().spec_entries();
            let _ = self.add_path(paths[i].as_slice());
            proof {
                let pi = paths@[i as int]@;
                if files_apart(old(self).spec_worktree()) {
                    assert forall|j: int| 0 <= j < i + 1 implies crate::cmd::staged(self.spec_worktree(), self.spec_index().spec_entries(),
                        #[trigger] paths@[j]@) by {
                        if j < i && paths@[j]@ != pi {
                            assert(self.spec_worktree().contains_key(paths@[j]@) && self.spec_worktree().contains_key(pi));
                            assert(!crate::index::collide_paths(paths@[j]@, pi));
                            assert(crate::cmd::staged(self.spec_worktree(), i1, paths@[j]@));
                            assert forall|s: MergeStage| s != MergeStage::Normal implies !(#[trigger] self.spec_index().spec_entries().contains_key(
                                index_key(paths@[j]@, s))) by {
                                assert(!i1.contains_key(index_key(paths@[j]@, s)));
                            }
                        }
                    }
                }
                assert forall|j: int, s: MergeStage| 0 <= j < i + 1 && s != MergeStage::Normal implies !#[trigger] self.spec_index().spec_entries().contains_key(
                    index_key(paths@[j]@, s)) by {
                    if j < i && paths@[j]@ != pi {
                        assert(!i1.contains_key(index_key(paths@[j]@, s)));
                    }
                }
            }
            i = i + 1;
        }
        proof {
            assert forall|p: Seq<u8>, s: MergeStage| self.spec_worktree().contains_key(p) && s != MergeStage::Normal implies
                !#[trigger] self.spec_index().spec_entries().contains_key(index_key(p, s)) by {
                let j = choose|j: int| 0 <= j < paths@.len() && #[trigger] paths@[j]@ == p;
                assert(!self.spec_index().spec_entries().contains_key(index_key(paths@[j]@, s)));
            }
            if files_apart(old(self).spec_worktree()) {
                assert forall|p: Seq<u8>| #[trigger] self.spec_worktree().contains_key(p) implies crate::cmd::staged(
                    self.spec_worktree(), self.spec_index().spec_entries(), p) by {
                    let j = choose|j: int| 0 <= j < paths@.len() && #[trigger] paths@[j]@ == p;
                    assert(crate::cmd::staged(self.spec_worktree(), self.spec_index().spec_entries(), paths@[j]@));
                }
            }
        }
        let ghost mid = self.spec_index();
        let n = self.index.len();
        let mut entries: Vec<BitIndexEntry> = Vec::new();
        let mut k: usize = 0;
        while k < n
            invariant
                0 <= k <= n,
                n == mid.spec_list().len(),
                mid == self.spec_index(),
                entries@.len() == k,
                forall|j: int| 0 <= j < k ==> (#[trigger] entries@[j])@ == mid.spec_list()[j]@,
            decreases n - k,
        {
            entries.push(self.index.entry_at(k).copy());
            k = k + 1;
        }
        let mut k: usize = 0;
        while k < entries.len()
            invariant
                0 <= k <= entries@.len(),
                self.wf(),
                self.spec_refs() == old(self).spec_refs(),
                self.spec_head() == old(self).spec_head(),
                self.spec_worktree() == old(self).spec_worktree(),
                files_apart(old(self).spec_worktree()) ==> forall|p: Seq<u8>| #[trigger] old(self).spec_worktree().contains_key(p)
                    ==> self.spec_index().spec_entries().contains_key(index_key(p, MergeStage::Normal)),
                files_apart(old(self).spec_worktree()) ==> forall|p: Seq<u8>| #[trigger] old(self).spec_worktree().contains_key(p)
                    ==> crate::cmd::staged(old(self).spec_worktree(), self.spec_index().spec_entries(), p),
                forall|p: Seq<u8>, s: MergeStage| old(self).spec_worktree().contains_key(p) && s != MergeStage::Normal ==>
                    !#[trigger] self.spec_index().spec_entries().contains_key(index_key(p, s)),
                forall|x: Seq<u8>| #[trigger] self.spec_index().spec_entries().contains_key(x) ==> mid.spec_entries().contains_key(x)
                    && self.spec_index().spec_entries()[x] == mid.spec_entries()[x],
                forall|j: int, s: MergeStage| 0 <= j < k && !old(self).spec_worktree().contains_key(entries@[j].path@)
                    ==> !#[trigger] self.spec_index().spec_entries().contains_key(index_key(entries@[j].path@, s)),
                entries@.len() == mid.spec_list().len(),
                forall|j: int| 0 <= j < entries@.len() ==> (#[trigger] entries@[j])@ == mid.spec_list()[j]@,
                mid.wf(),
            decreases entries@.len() - k,
        {
            let p = &entries[k].path;
            if !self.worktree.contains_key(p.as_slice()) {
                let ghost i1 = self.spec_index().spec_entries();
                self.index_remove_all_stages(p.as_slice());
                proof {
                    assert forall|j: int, s: MergeStage| 0 <= j < k + 1 && !old(self).spec_worktree().contains_key(entries@[j].path@)
                        implies !#[trigger] self.spec_index().spec_entries().contains_key(index_key(entries@[j].path@, s)) by {
                        match s {
                            MergeStage::Normal => {},
                            MergeStage::Base => {},
                            MergeStage::Ours => {},
                            MergeStage::Theirs => {},
                        }
                    }
                    assert forall|q: Seq<u8>, s: MergeStage| old(self).spec_worktree().contains_key(q) && s != MergeStage::Normal
                        implies !#[trigger] self.spec_index().spec_entries().contains_key(index_key(q, s)) by {
                        assert(!i1.contains_key(index_key(q, s)));
                    }
                    if files_apart(old(self).spec_worktree()) {
                        assert forall|q: Seq<u8>| #[trigger] old(self).spec_worktree().contains_key(q) implies crate::cmd::staged(
                            old(self).spec_worktree(), self.spec_index().spec_entries(), q) by {
                            crate::index::lemma_index_key_injective(q, MergeStage::Normal, p@, MergeStage::Normal);
                            crate::index::lemma_index_key_injective(q, MergeStage::Normal, p@, MergeStage::Base);
                            crate::index::lemma_index_key_injective(q, MergeStage::Normal, p@, MergeStage::Ours);
                            crate::index::lemma_index_key_injective(q, MergeStage::Normal, p@, MergeStage::Theirs);
                            assert(crate::cmd::staged(old(self).spec_worktree(), i1, q));
                            assert forall|s: MergeStage| s != MergeStage::Normal implies !(#[trigger] self.spec_index().spec_entries().contains_key(
                                index_key(q, s))) by {
                                assert(!i1.contains_key(index_key(q, s)));
                            }
                        }
                    }
                }
                proof {
                    if files_apart(old(self).spec_worktree()) {
                        assert forall|q: Seq<u8>| #[trigger] old(self).spec_worktree().contains_key(q) implies self.spec_index().spec_entries().contains_key(
                            index_key(q, MergeStage::Normal)) by {
                            crate::index::lemma_index_key_injective(q, MergeStage::Normal, p@, MergeStage::Normal);
                            crate::index::lemma_index_key_injective(q, MergeStage::Normal, p@, MergeStage::Base);
                            crate::index::lemma_index_key_injective(q, MergeStage::Normal, p@, MergeStage::Ours);
                            crate::index::lemma_index_key_injective(q, MergeStage::Normal, p@, MergeStage::Theirs);
                        }
                    }
                }
            }
            k = k + 1;
        }
        proof {
            assert forall|q: Seq<u8>, s: MergeStage| #[trigger] self.spec_index().spec_entries().contains_key(index_key(q, s)) implies
                old(self).spec_worktree().contains_key(q) && s == MergeStage::Normal by {
                let key = index_key(q, s);
                mid.lemma_list_entries();
                let i = choose|i: int| 0 <= i < mid.spec_keys().len() && mid.spec_keys()[i] == key;
                assert(mid.spec_entries()[mid.spec_keys()[i]] == mid.spec_list()[i]);
                crate::index::lemma_index_key_injective(q, s, mid.spec_list()[i].path@, mid.spec_list()[i].spec_stage());
                assert(entries@[i]@ == mid.spec_list()[i]@);
                assert(entries@[i].path@ == q);
                if !old(self).spec_worktree().contains_key(q) {
                    assert(!self.spec_index().spec_entries().contains_key(index_key(entries@[i].path@, s)));
                }
                if s != MergeStage::Normal {
                    assert(!self.spec_index().spec_entries().contains_key(index_key(q, s)));
                }
            }
        }
    }

    /// Moves the file at `from` to `to`; nothing happens when there is no file at `from`.
    pub fn mv(&mut self, from: &[u8], to: Vec<u8>)
        requires
            old(self).wf(),
        ensures
            final(self).wf(),
            old(self).spec_worktree().contains_key(from@) ==> final(self).spec_worktree() == old(self).spec_worktree().remove(
                from@).insert(to@, old(self).spec_worktree()[from@]),
            !old(self).spec_worktree().contains_key(from@) ==> final(self).spec_worktree() == old(self).spec_worktree(),
            final(self).spec_odb() == old(self).spec_odb(),
            final(self).spec_refs() == old(self).spec_refs(),
            final(self).spec_head() == old(self).spec_head(),
            final(self).spec_index() == old(self).spec_index(),
            final(self).spec_time() == old(self).spec_time(),
    {
        match self.worktree.remove(from) {
            Some(f) => self.worktree.insert(to, f),
            None => {},
        }
    }

    /// A copy of the working tree.
    pub fn copy_worktree(&self) -> (r: ByteMap<WorktreeFile>)
        ensures
            forall|p: Seq<u8>| #[trigger] r.spec_map().contains_key(p) <==> self.spec_worktree().contains_key(p),
            forall|p: Seq<u8>| #[trigger] r.spec_map().contains_key(p) ==> r.spec_map()[p].mode == self.spec_worktree()[p].mode
                && r.spec_map()[p].data@ == self.spec_worktree()[p].data@,
    {
        let paths = self.worktree_paths();
        let mut r: ByteMap<WorktreeFile> = ByteMap::new();
        let mut i: usize = 0;
        while i < paths.len()
            invariant
                0 <= i <= paths@.len(),
                forall|j: int| 0 <= j < paths@.len() ==> self.spec_worktree().contains_key(#[trigger] paths@[j]@),
                forall|p: Seq<u8>| self.spec_worktree().contains_key(p) ==> exists|j: int|
                    0 <= j < paths@.len() && #[trigger] paths@[j]@ == p,
                forall|p: Seq<u8>| #[trigger] r.spec_map().contains_key(p) ==> self.spec_worktree().contains_key(p)
                    && r.spec_map()[p].mode == self.spec_worktree()[p].mode && r.spec_map()[p].data@ == self.spec_worktree()[p].data@,
                forall|j: int| 0 <= j < i ==> r.spec_map().contains_key(#[trigger] paths@[j]@),
            decreases paths@.len() - i,
        {
            let p = &paths[i];
            let f = self.worktree.get(p.as_slice()).unwrap();
            r.insert(copy_bytes(p), f.copy());
            i = i + 1;
        }
        r
    }

    /// Replaces the working tree.
    pub fn set_worktree(&mut self, worktree: ByteMap<WorktreeFile>)
        requires
            old(self).wf(),
        ensures
            final(self).wf(),
            final(self).spec_worktree() == worktree.spec_map(),
            final(self).spec_odb() == old(self).spec_odb(),
            final(self).spec_refs() == old(self).spec_refs(),
            final(self).spec_head() == old(self).spec_head(),
            final(self).spec_index() == old(self).spec_index(),
            final(self).spec_time() == old(self).spec_time(),
    {
        self.worktree = worktree;
    }

    /// A copy of the index: the same entries under the same keys.
    pub fn copy_index(&self) -> (r: BitIndexInner)
        requires
            self.wf(),
        ensures
            r.wf(),
            entry_view_map(r.spec_entries()) == entry_view_map(self.spec_index().spec_entries()),
    {
        let n = self.index.len();
        let ghost views = entry_views(self.index.spec_list());
        let mut r = BitIndexInner::new();
        let mut i: usize = 0;
        proof {
            assert(entry_view_map(r.spec_entries()) =~= entries_map(views.take(0)));
        }
        while i < n
            invariant
                0 <= i <= n,
                n == self.index.spec_list().len(),
                views == entry_views(self.index.spec_list()),
                r.wf(),
                entry_view_map(r.spec_entries()) == entries_map(views.take(i as int)),
            decreases n - i,
        {
            let e = self.index.entry_at(i).copy();
            proof {
                assert(views.take(i + 1).drop_last() =~= views.take(i as int));
                assert(views.take(i + 1).last() == e@);
            }
            r.insert_entry(e);
            proof {
                assert(entry_view_map(r.spec_entries()) =~= entries_map(views.take(i + 1)));
            }
            i = i + 1;
        }
        proof {
            assert(views.take(n as int) =~= views);
            lemma_entries_map_list(self.index);
        }
        r
    }

    /// The paths of the files of the working tree, in increasing order.
    pub fn worktree_paths(&self) -> (r: Vec<Vec<u8>>)
        ensures
            forall|j: int| 0 <= j < r@.len() ==> self.spec_worktree().contains_key(#[trigger] r@[j]@),
            forall|p: Seq<u8>| self.spec_worktree().contains_key(p) ==> exists|j: int|
                0 <= j < r@.len() && #[trigger] r@[j]@ == p,
    {
        self.worktree.well_formed();
        proof {
            self.worktree.lemma_list();
        }
        let n = self.worktree.len();
        let mut r: Vec<Vec<u8>> = Vec::new();
        let mut i: usize = 0;
        while i < n
            invariant
                0 <= i <= n,
                n == self.worktree.spec_keys().len(),
                r@.len() == i,
                forall|j: int| 0 <= j < i ==> #[trigger] r@[j]@ == self.worktree.spec_keys()[j],
            decreases n - i,
        {
            r.push(copy_bytes(self.worktree.key_at(i)));
            i = i + 1;
        }
        proof {
            assert forall|j: int| 0 <= j < r@.len() implies self.spec_worktree().contains_key(#[trigger] r@[j]@) by {
                assert(r@[j]@ == self.worktree.spec_keys()[j]);
            }
            assert forall|p: Seq<u8>| self.spec_worktree().contains_key(p) implies exists|j: int|
                0 <= j < r@.len() && #[trigger] r@[j]@ == p by {
                let j = choose|j: int| 0 <= j < self.worktree.spec_keys().len() && self.worktree.spec_keys()[j] == p;
                assert(r@[j]@ == p);
            }
        }
        r
    }
}

/// Whether `reference` resolves to an id.
pub open spec fn resolves(refs: Map<Seq<u8>, Oid>, head: RefView, reference: RefView) -> bool {
    match reference {
        RefView::Direct(_) => true,
        RefView::Symbolic(name) => if name == head_name() {
            match head {
                RefView::Direct(_) => true,
                RefView::Symbolic(b) => expand_ref(refs, b) is Some,
            }
        } else {
            expand_ref(refs, name) is Some
        },
    }
}

/// The id `reference` resolves to.
pub open spec fn resolve(refs: Map<Seq<u8>, Oid>, head: RefView, reference: RefView) -> Seq<u8> {
    match reference {
        RefView::Direct(o) => o,
        RefView::Symbolic(name) => if name == head_name() {
            match head {
                RefView::Direct(o) => o,
                RefView::Symbolic(b) => refs[expand_ref(refs, b).unwrap()]@,
            }
        } else {
            refs[expand_ref(refs, name).unwrap()]@
        },
    }
}

/// Staging a file at `c` leaves the entries of any other path `q` as they were, but for the
/// entry of stage `Normal` of a path that collides with `c`, which goes.
pub proof fn lemma_index_add_other(idx: BitIndexInner, c: Seq<u8>, entry: BitIndexEntry, q: Seq<u8>, s: MergeStage)
    requires
        idx.wf(),
        q != c,
    ensures
        ({
            let m = without_collisions(idx.spec_entries().remove(index_key(c, MergeStage::Base)).remove(
                index_key(c, MergeStage::Ours)).remove(index_key(c, MergeStage::Theirs)), c).insert(
                index_key(c, MergeStage::Normal), entry);
            &&& m.contains_key(index_key(q, s)) <==> (idx.spec_entries().contains_key(index_key(q, s)) && !(s
                == MergeStage::Normal && crate::index::collide_paths(q, c)))
            &&& m.contains_key(index_key(q, s)) ==> m[index_key(q, s)] == idx.spec_entries()[index_key(q, s)]
        }),
{
    crate::index::lemma_index_key_injective(q, s, c, MergeStage::Normal);
    crate::index::lemma_index_key_injective(q, s, c, MergeStage::Base);
    crate::index::lemma_index_key_injective(q, s, c, MergeStage::Ours);
    crate::index::lemma_index_key_injective(q, s, c, MergeStage::Theirs);
    if idx.spec_entries().contains_key(index_key(q, s)) {
        crate::index::lemma_entry_at_key(idx, q, s);
    }
}

/// No file of the working tree lies under another (as on a file system).
pub open spec fn files_apart(w: Map<Seq<u8>, WorktreeFile>) -> bool {
    forall|p: Seq<u8>, q: Seq<u8>| #[trigger] w.contains_key(p) && #[trigger] w.contains_key(q) ==> !path_under(p, q)
}

/// The two working trees hold the same files, with the same modes and contents.
pub open spec fn same_files(w1: Map<Seq<u8>, WorktreeFile>, w0: Map<Seq<u8>, WorktreeFile>) -> bool {
    &&& forall|p: Seq<u8>| #[trigger] w1.contains_key(p) <==> w0.contains_key(p)
    &&& forall|p: Seq<u8>| #[trigger] w1.contains_key(p) ==> w1[p].mode == w0[p].mode && w1[p].data@ == w0[p].data@
}

/// Whether `path` is a file of `worktree` or a directory holding one.
pub open spec fn worktree_has(worktree: Map<Seq<u8>, WorktreeFile>, path: Seq<u8>) -> bool {
    worktree.contains_key(path) || exists|p: Seq<u8>| worktree.contains_key(p) && path_under(path, p)
}

/// The full name of a branch: names under `refs/` stand for themselves, others are put
/// under `refs/heads/`.
pub open spec fn branch_full_name(name: Seq<u8>) -> Seq<u8> {
    if is_prefix(refs_prefix(), name) {
        name
    } else {
        heads_prefix() + name
    }
}

pub fn branch_name_bytes(name: &[u8]) -> (r: Vec<u8>)
    ensures
        r@ == branch_full_name(name@),
{
    let rp = refs_prefix_bytes();
    if starts_with(name, rp.as_slice()) {
        slice_to_vec(name)
    } else {
        let mut h = heads_prefix_bytes();
        append_bytes(&mut h, name);
        h
    }
}

} // verus!
