//! Deltas of packed objects: a list of copy and insert instructions against a source.
use crate::bytemap::ByteMap;
use crate::bytes::{append_bytes, slice_to_vec};
use crate::error::{BitError, BitResult};
use crate::io::{le_varint_value, msb_run, packed_len, packed_value, varint_len, ByteReader};
use vstd::prelude::*;

verus! {

/// Chunk size of the delta index.
pub const CHUNK_SIZE: usize = 16;

/// An instruction of a delta.
#[derive(Debug, PartialEq, Eq)]
pub enum DeltaOp {
    /// Copy `size` bytes starting at `offset` of the source.
    Copy(u64, u64),
    /// Insert the given bytes.
    Insert(Vec<u8>),
}

/// The mathematical value of a delta instruction.
pub enum DeltaOpView {
    Copy(u64, u64),
    Insert(Seq<u8>),
}

impl View for DeltaOp {
    type V = DeltaOpView;

    open spec fn view(&self) -> DeltaOpView {
        match self {
            DeltaOp::Copy(o, s) => DeltaOpView::Copy(*o, *s),
            DeltaOp::Insert(v) => DeltaOpView::Insert(v@),
        }
    }
}

pub open spec fn ops_view(ops: Seq<DeltaOp>) -> Seq<DeltaOpView> {
    ops.map_values(|o: DeltaOp| o@)
}

/// Whether every copy instruction stays within a source of `len` bytes.
pub open spec fn ops_in_range(ops: Seq<DeltaOpView>, len: nat) -> bool {
    forall|i: int|
        0 <= i < ops.len() ==> match #[trigger] ops[i] {
            DeltaOpView::Copy(o, s) => o + s <= len,
            DeltaOpView::Insert(_) => true,
        }
}

/// The bytes the instructions produce from `source`.
pub open spec fn expand_ops(ops: Seq<DeltaOpView>, source: Seq<u8>) -> Seq<u8>
    decreases ops.len(),
{
    if ops.len() == 0 {
        Seq::empty()
    } else {
        let piece = match ops.last() {
            DeltaOpView::Copy(o, s) => source.subrange(o as int, o + s),
            DeltaOpView::Insert(b) => b,
        };
        expand_ops(ops.drop_last(), source) + piece
    }
}

/// The instruction at position `p` of `s` and the position after it; `None` where `s` ends
/// before the instruction does.
pub open spec fn op_at(s: Seq<u8>, p: int) -> Option<(DeltaOpView, int)> {
    if p < 0 || p >= s.len() {
        None
    } else {
        let b = s[p];
        if b & 0x80 != 0 {
            if p + 1 + packed_len(b, 0) <= s.len() {
                let n = packed_value(s, p + 1, b, 0, 0);
                Some(
                    (
                        DeltaOpView::Copy(
                            n & 0xFFFFFFFF,
                            if n >> 32 == 0 {
                                16
                            } else {
                                n >> 32
                            },
                        ),
                        p + 1 + packed_len(b, 0),
                    ),
                )
            } else {
                None
            }
        } else if p + 1 + (b & 0x7f) <= s.len() {
            Some((DeltaOpView::Insert(s.subrange(p + 1, p + 1 + (b & 0x7f))), p + 1 + (b & 0x7f)))
        } else {
            None
        }
    }
}

/// The instructions from position `p` of `s` to its end.
pub open spec fn ops_from(s: Seq<u8>, p: int) -> Option<Seq<DeltaOpView>>
    decreases s.len() - p,
{
    if p < 0 || p >= s.len() {
        Some(Seq::empty())
    } else {
        match op_at(s, p) {
            None => None,
            Some(r) => if r.1 <= p {
                None
            } else {
                match ops_from(s, r.1) {
                    None => None,
                    Some(rest) => Some(seq![r.0] + rest),
                }
            },
        }
    }
}

/// A size in the size encoding at position `p` of `s`, and the position after it.
pub open spec fn size_at(s: Seq<u8>, p: int) -> Option<(u64, int)> {
    if 0 <= p < s.len() && p + varint_len(s, p) <= s.len() {
        Some((le_varint_value(s, p, 0), p + varint_len(s, p)))
    } else {
        None
    }
}

/// The delta at position `p` of `s` whose instructions take `size` bytes (fewer where `s`
/// ends): source size, target size, instructions and the position after it.
pub open spec fn delta_at(s: Seq<u8>, p: int, size: u64) -> Option<(u64, u64, Seq<DeltaOpView>, int)> {
    match size_at(s, p) {
        None => None,
        Some(a) => match size_at(s, a.1) {
            None => None,
            Some(b) => {
                let end = if s.len() - b.1 <= size {
                    s.len() as int
                } else {
                    b.1 + size
                };
                match ops_from(s.subrange(b.1, end), 0) {
                    None => None,
                    Some(ops) => Some((a.0, b.0, ops, end)),
                }
            },
        },
    }
}

/// A delta: the sizes of source and target and the instructions that build the target.
#[derive(Debug, PartialEq, Eq)]
pub struct Delta {
    source_size: u64,
    target_size: u64,
    ops: Vec<DeltaOp>,
}

impl Delta {
    pub closed spec fn spec_source_size(&self) -> u64 {
        self.source_size
    }

    pub closed spec fn spec_target_size(&self) -> u64 {
        self.target_size
    }

    pub closed spec fn spec_ops(&self) -> Seq<DeltaOpView> {
        ops_view(self.ops@)
    }

    pub fn new(source_size: u64, target_size: u64, ops: Vec<DeltaOp>) -> (r: Self)
        ensures
            r.spec_source_size() == source_size,
            r.spec_target_size() == target_size,
            r.spec_ops() == ops_view(ops@),
    {
        Delta { source_size, target_size, ops }
    }

    /// Applies the delta to `bytes`: fails unless the source has the declared size and the
    /// result has the declared target size.
    pub fn expand(&self, bytes: &[u8]) -> (r: BitResult<Vec<u8>>)
        requires
            self.spec_source_size() == bytes@.len() ==> ops_in_range(
                self.spec_ops(),
                bytes@.len(),
            ),
        ensures
            self.spec_source_size() != bytes@.len() ==> r == Err::<Vec<u8>, BitError>(
                BitError::SizeMismatch,
            ),
            self.spec_source_size() == bytes@.len() ==> {
                let e = expand_ops(self.spec_ops(), bytes@);
                &&& e.len() == self.spec_target_size() ==> (r matches Ok(v) && v@ == e)
                &&& e.len() != self.spec_target_size() ==> r == Err::<Vec<u8>, BitError>(
                    BitError::SizeMismatch,
                )
            },
    {
        let blen = bytes.len();
        if self.source_size != blen as u64 {
            return Err(BitError::SizeMismatch);
        }
        let mut expanded: Vec<u8> = Vec::new();
        let mut i: usize = 0;
        while i < self.ops.len()
            invariant
                0 <= i <= self.ops@.len(),
                self.source_size == bytes@.len(),
                blen == bytes@.len(),
                ops_in_range(ops_view(self.ops@), bytes@.len()),
                expanded@ == expand_ops(ops_view(self.ops@).take(i as int), bytes@),
            decreases self.ops@.len() - i,
        {
            let ghost prev = ops_view(self.ops@).take(i as int);
            proof {
                assert(ops_view(self.ops@).take(i + 1).drop_last() =~= prev);
                assert(ops_view(self.ops@)[i as int] == self.ops@[i as int]@);
            }
            match &self.ops[i] {
                DeltaOp::Copy(offset, size) => {
                    proof {
                        assert(*offset + *size <= bytes@.len());
                        assert(*offset <= usize::MAX && *size <= usize::MAX);
                    }
                    let o: usize = *offset as usize;
                    let s: usize = *size as usize;
                    assert(o == *offset && s == *size);
                    let piece = crate::hash::slice_range(bytes, o, o + s);
                    append_bytes(&mut expanded, piece.as_slice());
                    proof {
                        assert(ops_view(self.ops@).take(i + 1).last() == self.ops@[i as int]@);
                        assert(expanded@ == expand_ops(ops_view(self.ops@).take(i + 1), bytes@));
                    }
                },
                DeltaOp::Insert(slice) => {
                    append_bytes(&mut expanded, slice.as_slice());
                    proof {
                        assert(ops_view(self.ops@).take(i + 1).last() == self.ops@[i as int]@);
                        assert(expanded@ == expand_ops(ops_view(self.ops@).take(i + 1), bytes@));
                    }
                },
            }
            i = i + 1;
        }
        proof {
            assert(ops_view(self.ops@).take(self.ops@.len() as int) =~= ops_view(self.ops@));
        }
        if self.target_size != expanded.len() as u64 {
            return Err(BitError::SizeMismatch);
        }
        Ok(expanded)
    }

    /// Parses a delta of `size` bytes (after the two sizes): the source size and target size,
    /// each in the size encoding, followed by instructions up to the end of the `size` bytes
    /// (see `delta_at`).
    pub fn deserialize_sized(r: &mut ByteReader, size: u64) -> (res: BitResult<Self>)
        requires
            forall|p: int|
                old(r).spec_pos() <= p < old(r).spec_bytes().len() ==> msb_run(
                    old(r).spec_bytes(),
                    p,
                ) <= 8,
        ensures
            final(r).spec_bytes() == old(r).spec_bytes(),
            res is Ok <==> delta_at(old(r).spec_bytes(), old(r).spec_pos(), size) is Some,
            res matches Ok(d) ==> delta_at(old(r).spec_bytes(), old(r).spec_pos(), size) == Some(
                (d.spec_source_size(), d.spec_target_size(), d.spec_ops(), final(r).spec_pos()),
            ),
    {
        let ghost s = r.spec_bytes();
        let ghost p0 = r.spec_pos();
        let _ = r.remaining();
        let source_size = r.read_size()?;
        let _ = r.remaining();
        let ghost p1 = r.spec_pos();
        let target_size = r.read_size()?;
        let _ = r.remaining();
        let ghost p2 = r.spec_pos();
        let avail = read_available(r, size);
        let ghost end = r.spec_pos();
        proof {
            assert(avail@ =~= s.subrange(p2, end));
        }
        let mut sub = ByteReader::new(avail);
        let mut ops: Vec<DeltaOp> = Vec::new();
        proof {
            assert(delta_at(old(r).spec_bytes(), old(r).spec_pos(), size) == (match ops_from(avail@, 0) {
                None => None,
                Some(o) => Some((source_size, target_size, o, end)),
            }));
            assert(ops_view(ops@) =~= Seq::<DeltaOpView>::empty());
            assert(ops_from(avail@, 0) == (match ops_from(avail@, sub.spec_pos()) {
                None => None,
                Some(rest) => Some(ops_view(ops@) + rest),
            }));
        }
        while !sub.is_at_eof()
            invariant
                0 <= sub.spec_pos() <= sub.spec_bytes().len(),
                sub.spec_bytes() == avail@,
                r.spec_bytes() == old(r).spec_bytes(),
                ops_from(avail@, 0) == (match ops_from(avail@, sub.spec_pos()) {
                    None => None,
                    Some(rest) => Some(ops_view(ops@) + rest),
                }),
                r.spec_pos() == end,
                delta_at(old(r).spec_bytes(), old(r).spec_pos(), size) == (match ops_from(avail@, 0) {
                    None => None,
                    Some(o) => Some((source_size, target_size, o, end)),
                }),
            decreases sub.spec_bytes().len() - sub.spec_pos(),
        {
            let ghost q = sub.spec_pos();
            let op = match DeltaOp::deserialize(&mut sub) {
                Ok(op) => op,
                Err(e) => {
                    proof {
                        assert(ops_from(avail@, q) is None);
                    }
                    return Err(e);
                },
            };
            let ghost before = ops_view(ops@);
            ops.push(op);
            proof {
                assert(ops_view(ops@) =~= before.push(op@));
                let nq = sub.spec_pos();
                if ops_from(avail@, nq) is Some {
                    assert(ops_view(ops@) + ops_from(avail@, nq)->0 =~= before + (seq![op@] + ops_from(avail@, nq)->0));
                }
            }
        }
        proof {
            assert(ops_from(avail@, sub.spec_pos()) == Some(Seq::<DeltaOpView>::empty()));
            assert(ops_view(ops@) + Seq::<DeltaOpView>::empty() =~= ops_view(ops@));
        }
        Ok(Delta { source_size, target_size, ops })
    }
}

/// Reads up to `size` bytes (fewer if the input ends).
fn read_available(r: &mut ByteReader, size: u64) -> (v: Vec<u8>)
    ensures
        final(r).spec_bytes() == old(r).spec_bytes(),
        v@ == old(r).spec_bytes().subrange(old(r).spec_pos(), final(r).spec_pos()),
        final(r).spec_pos() == if old(r).spec_bytes().len() - old(r).spec_pos() <= size {
            old(r).spec_bytes().len() as int
        } else {
            old(r).spec_pos() + size
        },
{
    let left = r.remaining();
    let n: usize = if (left as u64) <= size {
        left
    } else {
        size as usize
    };
    match r.read_bytes(n) {
        Ok(v) => v,
        Err(_) => Vec::new(),
    }
}

impl DeltaOp {
    /// Parses one instruction: a byte with the top bit set starts a copy whose offset (low
    /// four operand bytes) and size (the next three, 16 when zero) follow packed; otherwise
    /// the byte is the number of bytes to insert, which follow.
    pub fn deserialize(r: &mut ByteReader) -> (res: BitResult<Self>)
        ensures
            final(r).spec_bytes() == old(r).spec_bytes(),
            res is Ok <==> op_at(old(r).spec_bytes(), old(r).spec_pos()) is Some,
            res matches Ok(o) ==> op_at(old(r).spec_bytes(), old(r).spec_pos()) == Some((o@, final(r).spec_pos())),
            res is Ok ==> final(r).spec_pos() > old(r).spec_pos(),
            final(r).spec_pos() <= final(r).spec_bytes().len(),
            res matches Ok(DeltaOp::Insert(v)) ==> {
                let b = old(r).spec_bytes()[old(r).spec_pos()];
                &&& b & 0x80 == 0
                &&& v@ == old(r).spec_bytes().subrange(
                    old(r).spec_pos() + 1,
                    old(r).spec_pos() + 1 + (b & 0x7f),
                )
            },
            res matches Ok(DeltaOp::Copy(offset, size)) ==> {
                let b = old(r).spec_bytes()[old(r).spec_pos()];
                let n = packed_value(old(r).spec_bytes(), old(r).spec_pos() + 1, b, 0, 0);
                &&& b & 0x80 != 0
                &&& offset == n & 0xFFFFFFFF
                &&& size == (if n >> 32 == 0 {
                    16
                } else {
                    n >> 32
                })
            },
    {
        let _ = r.remaining();
        let byte = r.read_u8()?;
        if byte & 0x80 != 0 {
            let n = match r.read_le_packed(byte) {
                Ok(n) => n,
                Err(e) => {
                    let _ = r.remaining();
                    return Err(e);
                },
            };
            let offset = n & 0xFFFFFFFF;
            let mut size = n >> 32;
            if size == 0 {
                size = 16;
            }
            let _ = r.remaining();
            Ok(DeltaOp::Copy(offset, size))
        } else {
            let len = (byte & 0x7f) as usize;
            let v = match r.read_bytes(len) {
                Ok(v) => v,
                Err(e) => {
                    let _ = r.remaining();
                    return Err(e);
                },
            };
            let _ = r.remaining();
            Ok(DeltaOp::Insert(v))
        }
    }
}

/// The index of the first `n` whole 16 byte chunks of `source`: each chunk maps to the
/// offset of its last occurrence among them.
pub open spec fn chunk_index(source: Seq<u8>, n: nat) -> Map<Seq<u8>, usize>
    decreases n,
{
    if n == 0 {
        Map::empty()
    } else {
        let o = 16 * (n - 1);
        chunk_index(source, (n - 1) as nat).insert(source.subrange(o, o + 16), o as usize)
    }
}

/// An index of the 16 byte chunks of a source, for building deltas against it.
pub struct DeltaIndex {
    source: Vec<u8>,
    /// Each chunk, mapped to the offset of its last occurrence.
    indices: ByteMap<usize>,
}

impl DeltaIndex {
    pub closed spec fn spec_source(&self) -> Seq<u8> {
        self.source@
    }

    pub closed spec fn spec_indices(&self) -> Map<Seq<u8>, usize> {
        self.indices.spec_map()
    }

    /// Indexes every whole chunk of `source`: each distinct chunk maps to the offset of its
    /// last occurrence; a partial chunk at the end is not indexed.
    pub fn new(source: &[u8]) -> (r: Self)
        ensures
            r.spec_source() == source@,
            r.spec_indices() == chunk_index(source@, (source@.len() / 16) as nat),
            forall|k: Seq<u8>| #[trigger] r.spec_indices().contains_key(k) ==> {
                let o = r.spec_indices()[k] as int;
                &&& o % 16 == 0
                &&& o + 16 <= source@.len()
                &&& source@.subrange(o, o + 16) == k
                &&& forall|p: int| o < p && p % 16 == 0 && p + 16 <= source@.len() ==> #[trigger] source@.subrange(p, p + 16) != k
            },
    {
        let n = source.len() / CHUNK_SIZE;
        let mut indices: ByteMap<usize> = ByteMap::new();
        let mut i: usize = 0;
        while i < n
            invariant
                0 <= i <= n,
                n == source@.len() / 16,
                source@.len() <= usize::MAX,
                indices.spec_map() == chunk_index(source@, i as nat),
                forall|k: Seq<u8>| #[trigger] indices.spec_map().contains_key(k) ==> {
                    let o = indices.spec_map()[k] as int;
                    &&& o % 16 == 0
                    &&& o + 16 <= 16 * i
                    &&& source@.subrange(o, o + 16) == k
                    &&& forall|p: int| o < p && p % 16 == 0 && p + 16 <= 16 * i ==> #[trigger] source@.subrange(p, p + 16) != k
                },
            decreases n - i,
        {
            proof {
                assert(i * 16 + 16 <= source@.len()) by (nonlinear_arith)
                    requires
                        i < n,
                        n == source@.len() / 16,
                ;
            }
            let o = i * 16;
            let chunk = crate::hash::slice_range(source, o, o + 16);
            let ghost m0 = indices.spec_map();
            let ghost c = chunk@;
            indices.insert(chunk, o);
            proof {
                assert forall|k: Seq<u8>| #[trigger] indices.spec_map().contains_key(k) implies {
                    let o2 = indices.spec_map()[k] as int;
                    &&& o2 % 16 == 0
                    &&& o2 + 16 <= 16 * (i + 1)
                    &&& source@.subrange(o2, o2 + 16) == k
                    &&& forall|p: int| o2 < p && p % 16 == 0 && p + 16 <= 16 * (i + 1) ==> #[trigger] source@.subrange(p, p + 16) != k
                } by {
                    if k != c {
                        assert(m0.contains_key(k));
                        let o2 = m0[k] as int;
                        assert forall|p: int| o2 < p && p % 16 == 0 && p + 16 <= 16 * (i + 1) implies #[trigger] source@.subrange(p, p + 16)
                            != k by {
                            if p + 16 > 16 * i {
                                assert(p == 16 * i) by (nonlinear_arith)
                                    requires
                                        p % 16 == 0,
                                        p + 16 > 16 * i,
                                        p + 16 <= 16 * (i + 1),
                                ;
                            }
                        }
                    } else {
                        assert forall|p: int| 16 * i < p && p % 16 == 0 && p + 16 <= 16 * (i + 1) implies #[trigger] source@.subrange(p, p + 16)
                            != k by {
                            assert(false) by (nonlinear_arith)
                                requires
                                    16 * i < p,
                                    p % 16 == 0,
                                    p + 16 <= 16 * (i + 1),
                            ;
                        }
                    }
                }
            }
            i = i + 1;
        }
        DeltaIndex { source: slice_to_vec(source), indices }
    }

    /// The offset of the last chunk equal to `chunk`, if any.
    pub fn get(&self, chunk: &[u8]) -> (r: Option<usize>)
        ensures
            r is Some <==> self.spec_indices().contains_key(chunk@),
            r matches Some(o) ==> o == self.spec_indices()[chunk@],
    {
        match self.indices.get(chunk) {
            Some(o) => Some(*o),
            None => None,
        }
    }
}

/// The state of building a delta of `target` against an indexed source.
pub struct DeltaIndexCompressor {
    target: Vec<u8>,
    /// Start of the pending insertion.
    insert_start: usize,
    /// Current position in the target.
    target_idx: usize,
    ops: Vec<DeltaOp>,
}

impl DeltaIndexCompressor {
    pub closed spec fn spec_target(&self) -> Seq<u8> {
        self.target@
    }

    pub closed spec fn spec_target_idx(&self) -> usize {
        self.target_idx
    }

    pub closed spec fn spec_ops_len(&self) -> nat {
        self.ops@.len()
    }

    /// A compressor at the start of `target`, with no instructions yet.
    pub fn new(target: &[u8]) -> (r: Self)
        ensures
            r.spec_target() == target@,
            r.spec_target_idx() == 0,
            r.spec_ops_len() == 0,
    {
        DeltaIndexCompressor {
            target: slice_to_vec(target),
            insert_start: 0,
            target_idx: 0,
            ops: Vec::new(),
        }
    }
}

} // verus!
