//! Objects of the object store: blobs, trees, commits and tags, and their serialized form.
use crate::bytes::{append_bytes, copy_bytes, dec_digits, slice_to_vec, u64_to_dec};
use crate::error::{BitError, BitResult};
use crate::hash::{bytes_eq, hash_bytes, spec_sha1, Oid, SHA1Hash};
use vstd::prelude::*;

verus! {

/// The mode of a tree entry.
#[derive(Debug, Clone, Copy, PartialEq, Eq, Structural)]
pub enum FileMode {
    REG,
    EXEC,
    LINK,
    TREE,
    GITLINK,
}

/// The numeric (octal) value of a mode.
pub open spec fn mode_value(m: FileMode) -> u32 {
    match m {
        FileMode::REG => 0o100644,
        FileMode::EXEC => 0o100755,
        FileMode::LINK => 0o120000,
        FileMode::TREE => 0o40000,
        FileMode::GITLINK => 0o160000,
    }
}

/// Whether a number is the value of some mode.
pub open spec fn is_mode_value(u: u32) -> bool {
    u == 0o100644 || u == 0o100755 || u == 0o120000 || u == 0o40000 || u == 0o160000
}

/// The octal digits a mode is written with in a tree object.
pub open spec fn mode_bytes(m: FileMode) -> Seq<u8> {
    match m {
        FileMode::REG => seq![49u8, 48, 48, 54, 52, 52],
        FileMode::EXEC => seq![49u8, 48, 48, 55, 53, 53],
        FileMode::LINK => seq![49u8, 50, 48, 48, 48, 48],
        FileMode::TREE => seq![52u8, 48, 48, 48, 48],
        FileMode::GITLINK => seq![49u8, 54, 48, 48, 48, 48],
    }
}

impl FileMode {
    pub fn as_u32(self) -> (r: u32)
        ensures
            r == mode_value(self),
    {
        match self {
            FileMode::REG => 0o100644,
            FileMode::EXEC => 0o100755,
            FileMode::LINK => 0o120000,
            FileMode::TREE => 0o40000,
            FileMode::GITLINK => 0o160000,
        }
    }

    pub fn is_link(self) -> (r: bool)
        ensures
            r == (self == FileMode::LINK),
    {
        matches!(self, FileMode::LINK)
    }

    pub fn is_gitlink(self) -> (r: bool)
        ensures
            r == (self == FileMode::GITLINK),
    {
        matches!(self, FileMode::GITLINK)
    }

    pub fn is_file(self) -> (r: bool)
        ensures
            r == (self == FileMode::REG || self == FileMode::EXEC),
    {
        matches!(self, FileMode::EXEC | FileMode::REG)
    }

    pub fn is_blob(self) -> (r: bool)
        ensures
            r == (self == FileMode::REG || self == FileMode::EXEC || self == FileMode::LINK),
    {
        matches!(self, FileMode::EXEC | FileMode::REG | FileMode::LINK)
    }

    pub fn is_tree(self) -> (r: bool)
        ensures
            r == (self == FileMode::TREE),
    {
        matches!(self, FileMode::TREE)
    }

    /// The mode with the given numeric value; the value must be one of the five modes.
    pub fn new(u: u32) -> (r: Self)
        requires
            is_mode_value(u),
        ensures
            mode_value(r) == u,
    {
        if u == 0o100644 {
            FileMode::REG
        } else if u == 0o100755 {
            FileMode::EXEC
        } else if u == 0o120000 {
            FileMode::LINK
        } else if u == 0o40000 {
            FileMode::TREE
        } else {
            FileMode::GITLINK
        }
    }

    /// The mode with the given numeric value, if there is one.
    pub fn try_new(u: u32) -> (r: Option<Self>)
        ensures
            r is Some <==> is_mode_value(u),
            r matches Some(m) ==> mode_value(m) == u,
    {
        if is_mode_value_exec(u) {
            Some(Self::new(u))
        } else {
            None
        }
    }

    /// The type of object an entry with this mode refers to; gitlinks refer to no object here.
    pub fn infer_obj_type(self) -> (r: BitObjType)
        requires
            self != FileMode::GITLINK,
        ensures
            r == (if self == FileMode::TREE {
                BitObjType::Tree
            } else {
                BitObjType::Blob
            }),
    {
        match self {
            FileMode::TREE => BitObjType::Tree,
            _ => BitObjType::Blob,
        }
    }

    /// The octal digits of the mode as written in a tree object.
    pub fn to_bytes(self) -> (r: Vec<u8>)
        ensures
            r@ == mode_bytes(self),
    {
        let r = match self {
            FileMode::REG => vec![49u8, 48, 48, 54, 52, 52],
            FileMode::EXEC => vec![49u8, 48, 48, 55, 53, 53],
            FileMode::LINK => vec![49u8, 50, 48, 48, 48, 48],
            FileMode::TREE => vec![52u8, 48, 48, 48, 48],
            FileMode::GITLINK => vec![49u8, 54, 48, 48, 48, 48],
        };
        assert(r@ =~= mode_bytes(self));
        r
    }
}

fn is_mode_value_exec(u: u32) -> (r: bool)
    ensures
        r == is_mode_value(u),
{
    u == 0o100644 || u == 0o100755 || u == 0o120000 || u == 0o40000 || u == 0o160000
}

/// The type of an object.
#[derive(Debug, Clone, Copy, PartialEq, Eq, Structural)]
pub enum BitObjType {
    Commit,
    Tree,
    Blob,
    Tag,
}

/// The name of an object type, as it appears in object headers.
pub open spec fn obj_type_name(t: BitObjType) -> Seq<u8> {
    match t {
        BitObjType::Commit => seq![99u8, 111, 109, 109, 105, 116],
        BitObjType::Tree => seq![116u8, 114, 101, 101],
        BitObjType::Blob => seq![98u8, 108, 111, 98],
        BitObjType::Tag => seq![116u8, 97, 103],
    }
}

impl BitObjType {
    /// The name of the type (`commit`, `tree`, `blob` or `tag`).
    pub fn name(self) -> (r: Vec<u8>)
        ensures
            r@ == obj_type_name(self),
    {
        let r = match self {
            BitObjType::Commit => vec![99u8, 111, 109, 109, 105, 116],
            BitObjType::Tree => vec![116u8, 114, 101, 101],
            BitObjType::Blob => vec![98u8, 108, 111, 98],
            BitObjType::Tag => vec![116u8, 97, 103],
        };
        assert(r@ =~= obj_type_name(self));
        r
    }

    /// Parses a type name.
    pub fn from_name(s: &[u8]) -> (r: BitResult<Self>)
        ensures
            r matches Ok(t) ==> obj_type_name(t) == s@,
            r is Err <==> (forall|t: BitObjType| obj_type_name(t) != s@),
    {
        let c = Self::Commit.name();
        let t = Self::Tree.name();
        let b = Self::Blob.name();
        let g = Self::Tag.name();
        if bytes_eq(s, c.as_slice()) {
            Ok(Self::Commit)
        } else if bytes_eq(s, t.as_slice()) {
            Ok(Self::Tree)
        } else if bytes_eq(s, b.as_slice()) {
            Ok(Self::Blob)
        } else if bytes_eq(s, g.as_slice()) {
            Ok(Self::Tag)
        } else {
            proof {
                assert forall|x: BitObjType| obj_type_name(x) != s@ by {
                    match x {
                        BitObjType::Commit => {},
                        BitObjType::Tree => {},
                        BitObjType::Blob => {},
                        BitObjType::Tag => {},
                    }
                }
            }
            Err(BitError::UnknownObjectType)
        }
    }
}

/// The cached header information of an object.
#[derive(Debug, Clone, Copy)]
pub struct BitObjCached {
    oid: Oid,
    obj_type: BitObjType,
    size: u64,
}

impl BitObjCached {
    pub closed spec fn spec_oid(&self) -> Seq<u8> {
        self.oid@
    }

    pub closed spec fn spec_obj_type(&self) -> BitObjType {
        self.obj_type
    }

    pub closed spec fn spec_size(&self) -> u64 {
        self.size
    }

    pub fn new(oid: Oid, obj_type: BitObjType, size: u64) -> (r: Self)
        ensures
            r.spec_oid() == oid@,
            r.spec_obj_type() == obj_type,
            r.spec_size() == size,
    {
        Self { oid, obj_type, size }
    }

    pub fn oid(&self) -> (r: Oid)
        ensures
            r@ == self.spec_oid(),
    {
        self.oid
    }

    pub fn obj_type(&self) -> (r: BitObjType)
        ensures
            r == self.spec_obj_type(),
    {
        self.obj_type
    }

    pub fn size(&self) -> (r: u64)
        ensures
            r == self.spec_size(),
    {
        self.size
    }
}

/// The header of a serialized object: its type and the size of its body.
#[derive(Debug, Clone, Copy, PartialEq, Eq)]
pub struct BitObjHeader {
    pub obj_type: BitObjType,
    pub size: u64,
}

/// An entry of a tree: the mode, the name (or the full path, where entries are listed
/// relative to the root) and the id of the object.
#[derive(Debug, Clone, PartialEq, Eq)]
pub struct TreeEntry {
    pub mode: FileMode,
    pub path: Vec<u8>,
    pub oid: Oid,
}

/// The mathematical value of a tree entry.
pub struct TreeEntryView {
    pub mode: FileMode,
    pub path: Seq<u8>,
    pub oid: Seq<u8>,
}

impl View for TreeEntry {
    type V = TreeEntryView;

    open spec fn view(&self) -> TreeEntryView {
        TreeEntryView { mode: self.mode, path: self.path@, oid: self.oid@ }
    }
}

impl TreeEntry {
    /// A copy of the entry.
    pub fn copy(&self) -> (r: TreeEntry)
        ensures
            r@ == self@,
    {
        TreeEntry { mode: self.mode, path: copy_bytes(&self.path), oid: self.oid }
    }
}

/// The views of a sequence of tree entries.
pub open spec fn tree_entries_view(s: Seq<TreeEntry>) -> Seq<TreeEntryView> {
    s.map_values(|e: TreeEntry| e@)
}

/// A tree object.
#[derive(Debug, PartialEq, Eq)]
pub struct Tree {
    pub entries: Vec<TreeEntry>,
}

/// A blob object.
#[derive(Debug, PartialEq, Eq)]
pub struct Blob {
    pub bytes: Vec<u8>,
}

/// A commit object.
#[derive(Debug, PartialEq, Eq)]
pub struct Commit {
    pub tree: Oid,
    pub parents: Vec<Oid>,
    /// `Name <email>` of the author, who is also the committer.
    pub author: Vec<u8>,
    /// Commit time in seconds.
    pub time: u64,
    pub message: Vec<u8>,
}

/// A tag object.
#[derive(Debug, PartialEq, Eq)]
pub struct Tag {
    pub object: Oid,
    pub name: Vec<u8>,
}

/// The mathematical value of a commit.
pub struct CommitView {
    pub tree: Seq<u8>,
    pub parents: Seq<Seq<u8>>,
    pub author: Seq<u8>,
    pub time: u64,
    pub message: Seq<u8>,
}

impl View for Commit {
    type V = CommitView;

    open spec fn view(&self) -> CommitView {
        CommitView {
            tree: self.tree@,
            parents: self.parents@.map_values(|p: Oid| p@),
            author: self.author@,
            time: self.time,
            message: self.message@,
        }
    }
}

/// Any object of the object store.
#[derive(Debug, PartialEq, Eq)]
pub enum BitObjKind {
    Blob(Blob),
    Commit(Commit),
    Tree(Tree),
    Tag(Tag),
}

/// The mathematical value of an object.
pub enum ObjView {
    Blob(Seq<u8>),
    Commit(CommitView),
    Tree(Seq<TreeEntryView>),
    Tag(Seq<u8>, Seq<u8>),
}

impl View for BitObjKind {
    type V = ObjView;

    open spec fn view(&self) -> ObjView {
        match self {
            BitObjKind::Blob(b) => ObjView::Blob(b.bytes@),
            BitObjKind::Commit(c) => ObjView::Commit(c@),
            BitObjKind::Tree(t) => ObjView::Tree(tree_entries_view(t.entries@)),
            BitObjKind::Tag(t) => ObjView::Tag(t.object@, t.name@),
        }
    }
}

pub open spec fn obj_view_type(o: ObjView) -> BitObjType {
    match o {
        ObjView::Blob(_) => BitObjType::Blob,
        ObjView::Commit(_) => BitObjType::Commit,
        ObjView::Tree(_) => BitObjType::Tree,
        ObjView::Tag(_, _) => BitObjType::Tag,
    }
}

/// Copies a vector of ids.
pub fn copy_oids(v: &Vec<Oid>) -> (r: Vec<Oid>)
    ensures
        r@ == v@,
{
    let mut r: Vec<Oid> = Vec::new();
    let mut i: usize = 0;
    while i < v.len()
        invariant
            0 <= i <= v@.len(),
            r@ == v@.take(i as int),
        decreases v@.len() - i,
    {
        r.push(v[i]);
        i = i + 1;
        proof {
            assert(r@ =~= v@.take(i as int));
        }
    }
    assert(v@.take(v@.len() as int) =~= v@);
    r
}

/// Copies a vector of tree entries.
pub fn copy_tree_entries(v: &Vec<TreeEntry>) -> (r: Vec<TreeEntry>)
    ensures
        tree_entries_view(r@) == tree_entries_view(v@),
{
    let mut r: Vec<TreeEntry> = Vec::new();
    let mut i: usize = 0;
    while i < v.len()
        invariant
            0 <= i <= v@.len(),
            tree_entries_view(r@) == tree_entries_view(v@.take(i as int)),
        decreases v@.len() - i,
    {
        let ghost old_r = r@;
        let e = v[i].copy();
        r.push(e);
        proof {
            assert(r@ =~= old_r.push(e));
            assert(tree_entries_view(r@) =~= tree_entries_view(old_r).push(e@));
            assert(v@.take(i + 1) =~= v@.take(i as int).push(v@[i as int]));
            assert(tree_entries_view(v@.take(i + 1)) =~= tree_entries_view(v@.take(i as int)).push(
                v@[i as int]@,
            ));
        }
        i = i + 1;
    }
    assert(v@.take(v@.len() as int) =~= v@);
    r
}

impl Commit {
    pub fn copy(&self) -> (r: Commit)
        ensures
            r@ == self@,
    {
        let r = Commit {
            tree: self.tree,
            parents: copy_oids(&self.parents),
            author: copy_bytes(&self.author),
            time: self.time,
            message: copy_bytes(&self.message),
        };
        assert(r@.parents =~= self@.parents);
        r
    }
}

impl BitObjKind {
    pub fn copy(&self) -> (r: BitObjKind)
        ensures
            r@ == self@,
    {
        match self {
            BitObjKind::Blob(b) => BitObjKind::Blob(Blob { bytes: copy_bytes(&b.bytes) }),
            BitObjKind::Commit(c) => BitObjKind::Commit(c.copy()),
            BitObjKind::Tree(t) => BitObjKind::Tree(Tree { entries: copy_tree_entries(&t.entries) }),
            BitObjKind::Tag(t) => BitObjKind::Tag(Tag { object: t.object, name: copy_bytes(&t.name) }),
        }
    }

    /// The tree inside; the object must be a tree.
    pub fn into_tree(self) -> (r: Tree)
        requires
            self is Tree,
        ensures
            ObjView::Tree(tree_entries_view(r.entries@)) == self@,
    {
        match self {
            BitObjKind::Tree(tree) => tree,
            _ => {
                proof {
                    assert(false);
                }
                Tree { entries: Vec::new() }
            },
        }
    }

    pub fn is_commit(&self) -> (r: bool)
        ensures
            r == (self is Commit),
    {
        matches!(self, Self::Commit(..))
    }

    pub fn obj_type(&self) -> (r: BitObjType)
        ensures
            r == obj_view_type(self@),
    {
        match self {
            BitObjKind::Blob(_) => BitObjType::Blob,
            BitObjKind::Commit(_) => BitObjType::Commit,
            BitObjKind::Tree(_) => BitObjType::Tree,
            BitObjKind::Tag(_) => BitObjType::Tag,
        }
    }

    /// The commit inside, or an error naming the actual type.
    pub fn try_into_commit(self, oid: Oid) -> (r: BitResult<Commit>)
        ensures
            self is Commit ==> (r matches Ok(c) && ObjView::Commit(c@) == self@),
            !(self is Commit) ==> r == Err::<Commit, BitError>(
                BitError::ExpectedCommit(oid, obj_view_type(self@)),
            ),
    {
        let ty = self.obj_type();
        match self {
            Self::Commit(commit) => Ok(commit),
            _ => Err(BitError::ExpectedCommit(oid, ty)),
        }
    }

    /// The commit inside; the object must be a commit.
    pub fn into_commit(self) -> (r: Commit)
        requires
            self is Commit,
        ensures
            ObjView::Commit(r@) == self@,
    {
        match self {
            Self::Commit(commit) => commit,
            _ => {
                proof {
                    assert(false);
                }
                Commit {
                    tree: SHA1Hash::unknown(),
                    parents: Vec::new(),
                    author: Vec::new(),
                    time: 0,
                    message: Vec::new(),
                }
            },
        }
    }

    /// The blob inside; the object must be a blob.
    pub fn into_blob(self) -> (r: Blob)
        requires
            self is Blob,
        ensures
            ObjView::Blob(r.bytes@) == self@,
    {
        match self {
            BitObjKind::Blob(blob) => blob,
            _ => {
                proof {
                    assert(false);
                }
                Blob { bytes: Vec::new() }
            },
        }
    }

    pub fn is_tree(self) -> (r: bool)
        ensures
            r == (self is Tree),
    {
        matches!(self, Self::Tree(..))
    }

    pub fn is_treeish(self) -> (r: bool)
        ensures
            r == (self is Tree || self is Commit),
    {
        matches!(self, Self::Tree(..) | Self::Commit(..))
    }
}

/// The ASCII hex digit (lowercase) of a value below 16.
pub open spec fn hex_digit_byte(v: u8) -> u8 {
    if v < 10 {
        (v + 48) as u8
    } else {
        (v + 87) as u8
    }
}

/// Lowercase hexadecimal ASCII of a byte sequence.
pub open spec fn hex_ascii(s: Seq<u8>) -> Seq<u8>
    decreases s.len(),
{
    if s.len() == 0 {
        Seq::empty()
    } else {
        seq![hex_digit_byte(s[0] / 16), hex_digit_byte(s[0] % 16)] + hex_ascii(s.drop_first())
    }
}

/// `hex::encode_to_slice`: writes the lowercase hex digits of the 20 input bytes.
#[verifier::external_body]
fn hex_encode_to_slice(input: &[u8; 20], out: &mut [u8; 40]) -> (r: Result<(), hex::FromHexError>)
    ensures
        r is Ok,
        final(out)@ == hex_ascii(input@),
{
    hex::encode_to_slice(input, out)
}

/// The 40 hex digits of an id, as ASCII bytes.
pub fn oid_hex_bytes(oid: &Oid) -> (r: Vec<u8>)
    ensures
        r@ == hex_ascii(oid@),
{
    let mut buf = [0u8; 40];
    let _ = hex_encode_to_slice(oid.as_bytes(), &mut buf);
    slice_to_vec(buf.as_slice())
}

/// The serialized body of a tree.
pub open spec fn tree_body(entries: Seq<TreeEntryView>) -> Seq<u8>
    decreases entries.len(),
{
    if entries.len() == 0 {
        Seq::empty()
    } else {
        let e = entries[0];
        mode_bytes(e.mode) + seq![32u8] + e.path + seq![0u8] + e.oid + tree_body(
            entries.drop_first(),
        )
    }
}

proof fn lemma_tree_body_push(entries: Seq<TreeEntryView>, e: TreeEntryView)
    ensures
        tree_body(entries.push(e)) == tree_body(entries) + (mode_bytes(e.mode) + seq![32u8]
            + e.path + seq![0u8] + e.oid),
    decreases entries.len(),
{
    if entries.len() == 0 {
        let s = entries.push(e);
        assert(s[0] == e);
        assert(s.drop_first() =~= Seq::<TreeEntryView>::empty());
        assert(tree_body(s.drop_first()) == Seq::<u8>::empty());
        assert(tree_body(entries) == Seq::<u8>::empty());
        assert(tree_body(entries.push(e)) =~= (mode_bytes(e.mode) + seq![32u8] + e.path + seq![
            0u8,
        ] + e.oid));
    } else {
        assert(entries.push(e).drop_first() =~= entries.drop_first().push(e));
        lemma_tree_body_push(entries.drop_first(), e);
        let f = entries[0];
        assert(tree_body(entries.push(e)) =~= tree_body(entries) + (mode_bytes(e.mode)
            + seq![32u8] + e.path + seq![0u8] + e.oid));
    }
}

/// The lines naming the parents of a commit.
pub open spec fn parent_lines(parents: Seq<Seq<u8>>) -> Seq<u8>
    decreases parents.len(),
{
    if parents.len() == 0 {
        Seq::empty()
    } else {
        seq![112u8, 97, 114, 101, 110, 116, 32] + hex_ascii(parents[0]) + seq![10u8]
            + parent_lines(parents.drop_first())
    }
}

proof fn lemma_parent_lines_push(parents: Seq<Seq<u8>>, p: Seq<u8>)
    ensures
        parent_lines(parents.push(p)) == parent_lines(parents) + (seq![
            112u8,
            97,
            114,
            101,
            110,
            116,
            32,
        ] + hex_ascii(p) + seq![10u8]),
    decreases parents.len(),
{
    if parents.len() == 0 {
        let s = parents.push(p);
        assert(s[0] == p);
        assert(s.drop_first() =~= Seq::<Seq<u8>>::empty());
        assert(parent_lines(s.drop_first()) == Seq::<u8>::empty());
        assert(parent_lines(parents) == Seq::<u8>::empty());
        assert(parent_lines(parents.push(p)) =~= parent_lines(parents) + (seq![
            112u8,
            97,
            114,
            101,
            110,
            116,
            32,
        ] + hex_ascii(p) + seq![10u8]));
    } else {
        assert(parents.push(p).drop_first() =~= parents.drop_first().push(p));
        lemma_parent_lines_push(parents.drop_first(), p);
        assert(parent_lines(parents.push(p)) =~= parent_lines(parents) + (seq![
            112u8,
            97,
            114,
            101,
            110,
            116,
            32,
        ] + hex_ascii(p) + seq![10u8]));
    }
}

/// A signature line (`author` or `committer`): name and email, time, and the `+0000` zone.
pub open spec fn signature_line(keyword: Seq<u8>, author: Seq<u8>, time: u64) -> Seq<u8> {
    keyword + seq![32u8] + author + seq![32u8] + dec_digits(time as nat) + seq![
        32u8,
        43,
        48,
        48,
        48,
        48,
        10,
    ]
}

pub open spec fn author_keyword() -> Seq<u8> {
    seq![97u8, 117, 116, 104, 111, 114]
}

pub open spec fn committer_keyword() -> Seq<u8> {
    seq![99u8, 111, 109, 109, 105, 116, 116, 101, 114]
}

/// The serialized body of a commit.
pub open spec fn commit_body(c: CommitView) -> Seq<u8> {
    seq![116u8, 114, 101, 101, 32] + hex_ascii(c.tree) + seq![10u8] + parent_lines(c.parents)
        + signature_line(author_keyword(), c.author, c.time) + signature_line(
        committer_keyword(),
        c.author,
        c.time,
    ) + seq![10u8] + c.message
}

/// The serialized body of an object.
pub open spec fn obj_body(o: ObjView) -> Seq<u8> {
    match o {
        ObjView::Blob(b) => b,
        ObjView::Tree(entries) => tree_body(entries),
        ObjView::Commit(c) => commit_body(c),
        ObjView::Tag(object, name) => seq![111u8, 98, 106, 101, 99, 116, 32] + hex_ascii(object)
            + seq![10u8, 116, 97, 103, 32] + name + seq![10u8],
    }
}

/// The header `<type> <size>\0` that precedes the body of an object.
pub open spec fn obj_header(t: BitObjType, size: nat) -> Seq<u8> {
    obj_type_name(t) + seq![32u8] + dec_digits(size) + seq![0u8]
}

/// The serialized object with its header; its SHA-1 is the object's id.
pub open spec fn obj_with_header(o: ObjView) -> Seq<u8> {
    obj_header(obj_view_type(o), obj_body(o).len()) + obj_body(o)
}

/// The id of an object.
pub open spec fn obj_oid(o: ObjView) -> Seq<u8> {
    spec_sha1(obj_with_header(o))
}

/// Serializes the entries of a tree.
pub fn serialize_tree(entries: &Vec<TreeEntry>) -> (r: Vec<u8>)
    ensures
        r@ == tree_body(tree_entries_view(entries@)),
{
    let mut r: Vec<u8> = Vec::new();
    let mut i: usize = 0;
    while i < entries.len()
        invariant
            0 <= i <= entries@.len(),
            r@ == tree_body(tree_entries_view(entries@.take(i as int))),
        decreases entries@.len() - i,
    {
        let e = &entries[i];
        let m = e.mode.to_bytes();
        append_bytes(&mut r, m.as_slice());
        r.push(32u8);
        append_bytes(&mut r, e.path.as_slice());
        r.push(0u8);
        append_bytes(&mut r, e.oid.as_bytes().as_slice());
        proof {
            let prev = tree_entries_view(entries@.take(i as int));
            assert(tree_entries_view(entries@.take(i + 1)) =~= prev.push(entries@[i as int]@));
            lemma_tree_body_push(prev, entries@[i as int]@);
            assert(r@ =~= tree_body(prev) + (mode_bytes(e.mode) + seq![32u8] + e.path@ + seq![
                0u8,
            ] + e.oid@));
        }
        i = i + 1;
    }
    assert(entries@.take(entries@.len() as int) =~= entries@);
    r
}

fn signature_line_exec(keyword: &[u8], author: &[u8], time: u64) -> (r: Vec<u8>)
    ensures
        r@ == signature_line(keyword@, author@, time),
{
    let mut r = slice_to_vec(keyword);
    r.push(32u8);
    append_bytes(&mut r, author);
    r.push(32u8);
    let d = u64_to_dec(time);
    append_bytes(&mut r, d.as_slice());
    let zone = vec![32u8, 43, 48, 48, 48, 48, 10];
    append_bytes(&mut r, zone.as_slice());
    proof {
        assert(r@ =~= signature_line(keyword@, author@, time));
    }
    r
}

/// Serializes a commit.
pub fn serialize_commit(c: &Commit) -> (r: Vec<u8>)
    ensures
        r@ == commit_body(c@),
{
    let mut r: Vec<u8> = vec![116u8, 114, 101, 101, 32];
    let t = oid_hex_bytes(&c.tree);
    append_bytes(&mut r, t.as_slice());
    r.push(10u8);
    let ghost head = r@;
    let mut i: usize = 0;
    while i < c.parents.len()
        invariant
            0 <= i <= c.parents@.len(),
            r@ == head + parent_lines(c@.parents.take(i as int)),
        decreases c.parents@.len() - i,
    {
        let kw = vec![112u8, 97, 114, 101, 110, 116, 32];
        append_bytes(&mut r, kw.as_slice());
        let h = oid_hex_bytes(&c.parents[i]);
        append_bytes(&mut r, h.as_slice());
        r.push(10u8);
        proof {
            let prev = c@.parents.take(i as int);
            assert(c@.parents.take(i + 1) =~= prev.push(c.parents@[i as int]@));
            lemma_parent_lines_push(prev, c.parents@[i as int]@);
            assert(r@ =~= head + parent_lines(c@.parents.take(i + 1)));
        }
        i = i + 1;
    }
    assert(c@.parents.take(c@.parents.len() as int) =~= c@.parents);
    let ak = vec![97u8, 117, 116, 104, 111, 114];
    let a = signature_line_exec(ak.as_slice(), c.author.as_slice(), c.time);
    append_bytes(&mut r, a.as_slice());
    let ck = vec![99u8, 111, 109, 109, 105, 116, 116, 101, 114];
    let cl = signature_line_exec(ck.as_slice(), c.author.as_slice(), c.time);
    append_bytes(&mut r, cl.as_slice());
    r.push(10u8);
    append_bytes(&mut r, c.message.as_slice());
    proof {
        assert(ak@ =~= author_keyword());
        assert(ck@ =~= committer_keyword());
        assert(r@ =~= commit_body(c@));
    }
    r
}

impl BitObjKind {
    /// The serialized body of the object.
    pub fn serialize(&self) -> (r: Vec<u8>)
        ensures
            r@ == obj_body(self@),
    {
        match self {
            BitObjKind::Blob(b) => copy_bytes(&b.bytes),
            BitObjKind::Tree(t) => serialize_tree(&t.entries),
            BitObjKind::Commit(c) => serialize_commit(c),
            BitObjKind::Tag(t) => {
                let mut r = vec![111u8, 98, 106, 101, 99, 116, 32];
                let h = oid_hex_bytes(&t.object);
                append_bytes(&mut r, h.as_slice());
                let kw = vec![10u8, 116, 97, 103, 32];
                append_bytes(&mut r, kw.as_slice());
                append_bytes(&mut r, t.name.as_slice());
                r.push(10u8);
                proof {
                    assert(r@ =~= obj_body(self@));
                }
                r
            },
        }
    }

    /// The serialized object preceded by the header `<type> <size>\0`.
    pub fn serialize_with_headers(&self) -> (r: Vec<u8>)
        ensures
            r@ == obj_with_header(self@),
    {
        let body = self.serialize();
        let mut r = self.obj_type().name();
        r.push(32u8);
        let d = u64_to_dec(body.len() as u64);
        append_bytes(&mut r, d.as_slice());
        r.push(0u8);
        append_bytes(&mut r, body.as_slice());
        proof {
            assert(r@ =~= obj_with_header(self@));
        }
        r
    }

    /// The id of the object: the SHA-1 of its serialization with headers.
    pub fn hash(&self) -> (r: Oid)
        ensures
            r@ == obj_oid(self@),
    {
        let bytes = self.serialize_with_headers();
        hash_bytes(bytes.as_slice())
    }
}

/// The id of an object.
pub fn hash_obj(obj: &BitObjKind) -> (r: BitResult<Oid>)
    ensures
        (r matches Ok(oid) && oid@ == obj_oid(obj@)),
{
    Ok(obj.hash())
}

/// The name of a type holds neither a space nor a zero byte.
proof fn lemma_type_name_bytes(t: BitObjType)
    ensures
        forall|k: int| 0 <= k < obj_type_name(t).len() ==> obj_type_name(t)[k] != 32u8 && obj_type_name(t)[k] != 0u8,
        obj_type_name(t).len() > 0,
{
}

/// What a header `h` that starts `bytes` shows of them: the first space ends the type name,
/// and the first zero byte after it ends the size.
proof fn lemma_header_prefix(bytes: Seq<u8>, t: BitObjType, sz: u64)
    requires
        crate::bytes::is_prefix(obj_header(t, sz as nat), bytes),
    ensures
        ({
            let nl = obj_type_name(t).len() as int;
            let dl = dec_digits(sz as nat).len() as int;
            &&& bytes[nl] == 32u8
            &&& forall|k: int| 0 <= k < nl ==> bytes[k] != 32u8
            &&& bytes.take(nl) == obj_type_name(t)
            &&& bytes[nl + 1 + dl] == 0u8
            &&& forall|k: int| nl + 1 <= k < nl + 1 + dl ==> bytes[k] != 0u8
            &&& bytes.subrange(nl + 1, nl + 1 + dl) == dec_digits(sz as nat)
            &&& dl >= 1
        }),
{
    let h = obj_header(t, sz as nat);
    let nl = obj_type_name(t).len() as int;
    let dl = dec_digits(sz as nat).len() as int;
    lemma_type_name_bytes(t);
    lemma_dec_digits_shape(sz as nat);
    assert(bytes.take(h.len() as int) == h);
    assert forall|k: int| 0 <= k < h.len() implies bytes[k] == h[k] by {
        assert(bytes.take(h.len() as int)[k] == bytes[k]);
    }
    assert forall|k: int| 0 <= k < nl implies bytes[k] != 32u8 by {
        assert(h[k] == obj_type_name(t)[k]);
    }
    assert forall|k: int| nl + 1 <= k < nl + 1 + dl implies bytes[k] != 0u8 by {
        assert(h[k] == dec_digits(sz as nat)[k - nl - 1]);
        assert(48 <= dec_digits(sz as nat)[k - nl - 1] <= 57);
    }
    assert(bytes.take(nl) =~= obj_type_name(t));
    assert(bytes.subrange(nl + 1, nl + 1 + dl) =~= dec_digits(sz as nat));
}

/// Parses the header of a serialized object, `<type> <size>\0`; returns the header and the
/// number of bytes it took. Succeeds exactly where `bytes` start with such a header.
pub fn read_obj_header(bytes: &[u8]) -> (r: BitResult<(BitObjHeader, usize)>)
    ensures
        r matches Ok((h, n)) ==> n <= bytes@.len() && bytes@.take(n as int) == obj_header(
            h.obj_type,
            h.size as nat,
        ),
        r is Ok <==> exists|t: BitObjType, sz: u64| #[trigger] crate::bytes::is_prefix(obj_header(t, sz as nat), bytes@),
{
    let mut i: usize = 0;
    while i < bytes.len() && bytes[i] != 32u8
        invariant
            0 <= i <= bytes@.len(),
            forall|k: int| 0 <= k < i ==> bytes@[k] != 32u8,
        decreases bytes@.len() - i,
    {
        i = i + 1;
    }
    if i >= bytes.len() {
        proof {
            assert forall|t: BitObjType, sz: u64| !#[trigger] crate::bytes::is_prefix(obj_header(t, sz as nat), bytes@) by {
                if crate::bytes::is_prefix(obj_header(t, sz as nat), bytes@) {
                    lemma_header_prefix(bytes@, t, sz);
                }
            }
        }
        return Err(BitError::UnexpectedEof);
    }
    let name = crate::hash::slice_range(bytes, 0, i);
    let obj_type = match BitObjType::from_name(name.as_slice()) {
        Ok(t) => t,
        Err(e) => {
            proof {
                assert forall|t: BitObjType, sz: u64| !#[trigger] crate::bytes::is_prefix(obj_header(t, sz as nat), bytes@) by {
                    if crate::bytes::is_prefix(obj_header(t, sz as nat), bytes@) {
                        lemma_header_prefix(bytes@, t, sz);
                        let nl = obj_type_name(t).len() as int;
                        assert(i == nl);
                        assert(name@ =~= bytes@.take(nl));
                    }
                }
            }
            return Err(e);
        },
    };
    let start = i + 1;
    let mut j = start;
    let mut size: u64 = 0;
    while j < bytes.len() && bytes[j] != 0u8
        invariant
            start <= j <= bytes@.len(),
            forall|k: int| start <= k < j ==> bytes@[k] != 0u8,
        decreases bytes@.len() - j,
    {
        j = j + 1;
    }
    if j >= bytes.len() || j == start {
        proof {
            assert forall|t: BitObjType, sz: u64| !#[trigger] crate::bytes::is_prefix(obj_header(t, sz as nat), bytes@) by {
                if crate::bytes::is_prefix(obj_header(t, sz as nat), bytes@) {
                    lemma_header_prefix(bytes@, t, sz);
                    let nl = obj_type_name(t).len() as int;
                    let dl = dec_digits(sz as nat).len() as int;
                    assert(i == nl);
                    assert(j == nl + 1 + dl);
                }
            }
        }
        return Err(BitError::UnexpectedEof);
    }
    let digits = crate::hash::slice_range(bytes, start, j);
    let parsed = parse_dec(digits.as_slice());
    match parsed {
        Some(n) => {
            let h = BitObjHeader { obj_type, size: n };
            proof {
                assert(bytes@.take(j + 1) =~= name@ + seq![32u8] + digits@ + seq![0u8]);
                assert(crate::bytes::is_prefix(obj_header(obj_type, n as nat), bytes@));
            }
            Ok((h, j + 1))
        },
        None => {
            proof {
                assert forall|t: BitObjType, sz: u64| !#[trigger] crate::bytes::is_prefix(obj_header(t, sz as nat), bytes@) by {
                    if crate::bytes::is_prefix(obj_header(t, sz as nat), bytes@) {
                        lemma_header_prefix(bytes@, t, sz);
                        let nl = obj_type_name(t).len() as int;
                        let dl = dec_digits(sz as nat).len() as int;
                        assert(i == nl);
                        assert(j == nl + 1 + dl);
                        assert(digits@ =~= dec_digits(sz as nat));
                    }
                }
            }
            Err(BitError::SizeMismatch)
        },
    }
}

/// The digits of a number are digits, hold its value, and start with no zero unless the
/// number is 0.
pub proof fn lemma_dec_digits_shape(m: nat)
    ensures
        dec_digits(m).len() >= 1,
        crate::config::all_dec_digits(dec_digits(m)),
        crate::config::dec_value(dec_digits(m)) == m,
        dec_digits(m).len() > 1 ==> dec_digits(m)[0] != 48u8,
    decreases m,
{
    if m >= 10 {
        lemma_dec_digits_shape(m / 10);
        let d = dec_digits(m);
        assert(d.drop_last() =~= dec_digits(m / 10));
        assert((m / 10) * 10 + m % 10 == m) by (nonlinear_arith);
        assert(m / 10 >= 1);
        assert(d.last() == ((m % 10) + 48) as u8);
        assert(d.last() - 48 == m % 10);
        if m / 10 < 10 {
            assert(dec_digits(m / 10)[0] == ((m / 10) + 48) as u8);
        } else {
            assert(dec_digits(m / 10).len() > 1) by {
                lemma_dec_digits_shape(m / 10 / 10);
                assert(dec_digits(m / 10) == dec_digits(m / 10 / 10).push(((m / 10 % 10) + 48) as u8));
            }
        }
        assert(d[0] == dec_digits(m / 10)[0]);
        assert(crate::config::dec_value(d) == crate::config::dec_value(d.drop_last()) * 10 + (d.last() - 48));
    } else {
        let d = dec_digits(m);
        assert(d.drop_last() =~= Seq::<u8>::empty());
        assert(crate::config::dec_value(d) == crate::config::dec_value(d.drop_last()) * 10 + (d.last() - 48));
    }
}

/// A prefix of digits has no greater value.
pub proof fn lemma_dec_value_prefix(s: Seq<u8>, k: int)
    requires
        crate::config::all_dec_digits(s),
        0 <= k <= s.len(),
    ensures
        crate::config::dec_value(s.take(k)) <= crate::config::dec_value(s),
        crate::config::dec_value(s) >= 0,
    decreases s.len(),
{
    if s.len() > 0 {
        assert(crate::config::all_dec_digits(s.drop_last()));
        if k < s.len() {
            assert(s.drop_last().take(k) =~= s.take(k));
            lemma_dec_value_prefix(s.drop_last(), k);
        } else {
            assert(s.take(k) =~= s);
            lemma_dec_value_prefix(s.drop_last(), 0);
        }
    } else {
        assert(s.take(k) =~= s);
    }
}

/// Parses ASCII decimal digits written without leading zeros: succeeds exactly on the digits
/// of a `u64`.
pub fn parse_dec(s: &[u8]) -> (r: Option<u64>)
    ensures
        r matches Some(n) ==> dec_digits(n as nat) == s@,
        r is Some <==> exists|m: u64| dec_digits(m as nat) == s@,
{
    let mut n: u64 = 0;
    let mut i: usize = 0;
    if s.len() == 0 {
        proof {
            assert forall|m: u64| dec_digits(m as nat) != s@ by {
                lemma_dec_digits_shape(m as nat);
            }
        }
        return None;
    }
    while i < s.len()
        invariant
            0 <= i <= s@.len(),
            s@.len() > 0,
            i > 0 ==> dec_digits(n as nat) == s@.take(i as int),
            i > 0 ==> (n == 0 ==> i == 1),
            i == 0 ==> n == 0,
            crate::config::all_dec_digits(s@.take(i as int)),
            n == crate::config::dec_value(s@.take(i as int)),
        decreases s@.len() - i,
    {
        let c = s[i];
        if c < 48 || c > 57 {
            proof {
                assert forall|m: u64| dec_digits(m as nat) != s@ by {
                    lemma_dec_digits_shape(m as nat);
                    if dec_digits(m as nat) == s@ {
                        assert(48 <= s@[i as int] <= 57);
                    }
                }
            }
            return None;
        }
        if i > 0 && n == 0 {
            proof {
                assert(s@.take(1) == dec_digits(0));
                assert(s@[0] == s@.take(1)[0]);
                assert forall|m: u64| dec_digits(m as nat) != s@ by {
                    lemma_dec_digits_shape(m as nat);
                }
            }
            return None;
        }
        let d = (c - 48) as u64;
        proof {
            assert(s@.take(i + 1).drop_last() =~= s@.take(i as int));
            assert(crate::config::dec_value(s@.take(i + 1)) == n * 10 + d);
        }
        if n > 1844674407370955161 || (n == 1844674407370955161 && d > 5) {
            proof {
                assert(n * 10 + d > 18446744073709551615) by (nonlinear_arith)
                    requires
                        n > 1844674407370955161 || (n == 1844674407370955161 && d > 5),
                ;
                assert forall|m: u64| dec_digits(m as nat) != s@ by {
                    lemma_dec_digits_shape(m as nat);
                    if dec_digits(m as nat) == s@ {
                        lemma_dec_value_prefix(s@, i + 1);
                    }
                }
            }
            return None;
        }
        proof {
            assert(n * 10 + d <= 18446744073709551615) by (nonlinear_arith)
                requires
                    !(n > 1844674407370955161 || (n == 1844674407370955161 && d > 5)),
                    d <= 9,
            ;
        }
        let n2 = n * 10 + d;
        proof {
            if i > 0 {
                assert(n2 >= 10) by (nonlinear_arith)
                    requires
                        n >= 1,
                        n2 == n * 10 + d,
                ;
                assert(n2 / 10 == n) by (nonlinear_arith)
                    requires
                        n2 == n * 10 + d,
                        d < 10,
                ;
                assert(n2 % 10 == d) by (nonlinear_arith)
                    requires
                        n2 == n * 10 + d,
                        d < 10,
                ;
                assert(dec_digits(n2 as nat) == dec_digits(n as nat).push(((d) + 48) as u8));
            } else {
                assert(n2 == d);
            }
            assert(s@.take(i + 1) =~= s@.take(i as int).push(c));
        }
        n = n2;
        i = i + 1;
    }
    assert(s@.take(s@.len() as int) =~= s@);
    Some(n)
}

/// Reads the header of a stored (zlib-compressed) object: decompresses `data`, then parses
/// the header at its start; returns the header, the number of header bytes and the
/// decompressed bytes.
pub fn read_stored_obj_header(data: &[u8]) -> (r: BitResult<(BitObjHeader, usize, Vec<u8>)>)
    ensures
        r is Ok <==> (crate::io::spec_zlib_decode(data@) matches Some(d) && exists|t: BitObjType, sz: u64| #[trigger]
            crate::bytes::is_prefix(obj_header(t, sz as nat), d)),
        r matches Ok((h, n, d)) ==> crate::io::spec_zlib_decode(data@) == Some(d@) && n <= d@.len() && d@.take(n as int)
            == obj_header(h.obj_type, h.size as nat),
{
    let d = crate::io::zlib_decode(data)?;
    let ghost dv = d@;
    let s = d.as_slice();
    proof {
        assert(s@ == dv);
    }
    match read_obj_header(s) {
        Ok((h, n)) => {
            proof {
                let sz: u64 = h.size;
                assert(crate::bytes::is_prefix(obj_header(h.obj_type, sz as nat), dv));
                assert(crate::io::spec_zlib_decode(data@) == Some(dv));
                assert(crate::bytes::is_prefix(obj_header(h.obj_type, sz as nat), crate::io::spec_zlib_decode(data@)->0));
            }
            Ok((h, n, d))
        },
        Err(e) => Err(e),
    }
}

} // verus!
