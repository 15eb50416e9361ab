//! The on-disk form of index entries.
use crate::bytes::append_bytes;
use crate::error::{BitError, BitResult};
use crate::hash::{hash_bytes, spec_sha1};
use crate::index::{
    entry_padding, entry_views, index_key, stage_of_bits, BitIndexInner, BitIndexEntry, BitIndexEntryExtendedFlags, BitIndexEntryFlags, IndexEntryView,
    Timespec,
};
use crate::io::{
    be2, be4, be_value, lemma_be2, lemma_be4, nul_free, write_oid, write_u16, write_u32,
    ByteReader, HashWriter,
};
use crate::obj::{is_mode_value, mode_value, FileMode};
use vstd::prelude::*;

verus! {

/// `n` zero bytes.
pub open spec fn zeros(n: nat) -> Seq<u8> {
    Seq::new(n, |i: int| 0u8)
}

/// Whether the flags announce the two bytes of extended flags.
pub open spec fn flags_extended(flags: u16) -> bool {
    flags & 0x4000 != 0
}

/// The big-endian number in the `n` bytes of `s` at `i`.
pub open spec fn be_at(s: Seq<u8>, i: int, n: int) -> nat {
    be_value(s.subrange(i, i + n))
}

#[verifier::opaque]
/// The 62 bytes an on-disk entry starts with: the two time stamps, device, inode, mode, user,
/// group and size as big-endian `u32`s, the object id and the flags.
pub open spec fn entry_head(e: IndexEntryView) -> Seq<u8> {
    be4(e.ctime.sec) + be4(e.ctime.nano) + be4(e.mtime.sec) + be4(e.mtime.nano) + be4(e.device)
        + be4(e.inode) + be4(mode_value(e.mode)) + be4(e.uid) + be4(e.gid) + be4(e.filesize)
        + e.oid + be2(e.flags)
}

/// The on-disk bytes of an entry: the head, the extended flags where the flags announce them,
/// the path and the zero padding.
pub open spec fn entry_bytes(e: IndexEntryView) -> Seq<u8> {
    let ext = flags_extended(e.flags);
    entry_head(e) + (if ext {
        be2(e.extended_flags)
    } else {
        Seq::<u8>::empty()
    }) + e.path + zeros(entry_padding(e.path.len(), ext))
}

/// Whether `s` starts with an on-disk entry of `len` bytes that reads as `e`: the numbers at
/// their offsets, the path from the end of the flags to the first zero byte at or after the
/// path length the flags give, then the padding, whose bytes are not looked at.
pub open spec fn entry_decodes(s: Seq<u8>, e: IndexEntryView, len: int) -> bool {
    let ext = flags_extended(e.flags);
    let base: int = if ext {
        64
    } else {
        62
    };
    let n = (e.flags & 0xFFF) as int;
    &&& base + e.path.len() < len <= s.len()
    &&& e.ctime.sec == be_at(s, 0, 4) && e.ctime.nano == be_at(s, 4, 4)
    &&& e.mtime.sec == be_at(s, 8, 4) && e.mtime.nano == be_at(s, 12, 4)
    &&& e.device == be_at(s, 16, 4) && e.inode == be_at(s, 20, 4)
    &&& mode_value(e.mode) == be_at(s, 24, 4)
    &&& e.uid == be_at(s, 28, 4) && e.gid == be_at(s, 32, 4) && e.filesize == be_at(s, 36, 4)
    &&& e.oid == s.subrange(40, 60)
    &&& e.flags == be_at(s, 60, 2)
    &&& e.extended_flags == (if ext {
        be_at(s, 62, 2)
    } else {
        0
    })
    &&& n <= e.path.len()
    &&& e.path == s.subrange(base, base + e.path.len())
    &&& nul_free(e.path.skip(n))
    &&& s[base + e.path.len()] == 0u8
    &&& len == base + e.path.len() + entry_padding(e.path.len(), ext)
}

/// An entry as written to disk: a 20 byte id, a path without zero bytes that is no shorter
/// than the length in the flags, and no extended flags unless the flags announce them.
pub open spec fn canonical_entry(e: IndexEntryView) -> bool {
    &&& e.oid.len() == 20
    &&& nul_free(e.path)
    &&& (e.flags & 0xFFF) as int <= e.path.len()
    &&& !flags_extended(e.flags) ==> e.extended_flags == 0
}

proof fn lemma_field4(s: Seq<u8>, head: Seq<u8>, i: int, u: u32)
    requires
        0 <= i,
        i + 4 <= head.len(),
        head.len() <= s.len(),
        s.take(head.len() as int) == head,
        head.subrange(i, i + 4) == be4(u),
    ensures
        be_at(s, i, 4) == u,
{
    assert(s.subrange(i, i + 4) =~= head.subrange(i, i + 4));
    lemma_be4(u);
}

/// Where the fields of an entry stand in its head.
proof fn lemma_head_layout(e: IndexEntryView)
    requires
        e.oid.len() == 20,
    ensures
        entry_head(e).len() == 62,
        entry_head(e).subrange(0, 4) == be4(e.ctime.sec),
        entry_head(e).subrange(4, 8) == be4(e.ctime.nano),
        entry_head(e).subrange(8, 12) == be4(e.mtime.sec),
        entry_head(e).subrange(12, 16) == be4(e.mtime.nano),
        entry_head(e).subrange(16, 20) == be4(e.device),
        entry_head(e).subrange(20, 24) == be4(e.inode),
        entry_head(e).subrange(24, 28) == be4(mode_value(e.mode)),
        entry_head(e).subrange(28, 32) == be4(e.uid),
        entry_head(e).subrange(32, 36) == be4(e.gid),
        entry_head(e).subrange(36, 40) == be4(e.filesize),
        entry_head(e).subrange(40, 60) == e.oid,
        entry_head(e).subrange(60, 62) == be2(e.flags),
{
    reveal(entry_head);
    let h = entry_head(e);
    let a = be4(e.ctime.sec) + be4(e.ctime.nano) + be4(e.mtime.sec) + be4(e.mtime.nano)
        + be4(e.device);
    let b = be4(e.inode) + be4(mode_value(e.mode)) + be4(e.uid) + be4(e.gid) + be4(
        e.filesize,
    );
    assert(h =~= a + b + e.oid + be2(e.flags));
    assert(a.len() == 20 && b.len() == 20);
    assert(h.subrange(0, 4) =~= be4(e.ctime.sec));
    assert(h.subrange(4, 8) =~= be4(e.ctime.nano));
    assert(h.subrange(8, 12) =~= be4(e.mtime.sec));
    assert(h.subrange(12, 16) =~= be4(e.mtime.nano));
    assert(h.subrange(16, 20) =~= be4(e.device));
    assert(h.subrange(20, 24) =~= be4(e.inode));
    assert(h.subrange(24, 28) =~= be4(mode_value(e.mode)));
    assert(h.subrange(28, 32) =~= be4(e.uid));
    assert(h.subrange(32, 36) =~= be4(e.gid));
    assert(h.subrange(36, 40) =~= be4(e.filesize));
    assert(h.subrange(40, 60) =~= e.oid);
    assert(h.subrange(60, 62) =~= be2(e.flags));
}

/// Where the parts of `head + extb + path + pad + tail` stand.
proof fn lemma_parts(head: Seq<u8>, extb: Seq<u8>, path: Seq<u8>, pad: Seq<u8>, tail: Seq<u8>)
    requires
        pad.len() >= 1,
        pad[0] == 0u8,
    ensures
        ({
            let s = head + extb + path + pad + tail;
            let base = (head.len() + extb.len()) as int;
            &&& s.len() == base + path.len() + pad.len() + tail.len()
            &&& s.take(head.len() as int) == head
            &&& s.subrange(head.len() as int, base) == extb
            &&& s.subrange(base, base + path.len()) == path
            &&& s[base + path.len()] == 0u8
        }),
{
    let s = head + extb + path + pad + tail;
    let base = (head.len() + extb.len()) as int;
    assert(s.take(head.len() as int) =~= head);
    assert(s.subrange(head.len() as int, base) =~= extb);
    assert(s.subrange(base, base + path.len()) =~= path);
}

/// An entry read back from its on-disk bytes is the entry written, whatever follows it.
pub proof fn lemma_entry_roundtrip(e: IndexEntryView, tail: Seq<u8>)
    requires
        canonical_entry(e),
    ensures
        entry_decodes(entry_bytes(e) + tail, e, entry_bytes(e).len() as int),
{
    let ext = flags_extended(e.flags);
    let base: int = if ext {
        64
    } else {
        62
    };
    let head = entry_head(e);
    let pad = entry_padding(e.path.len(), ext);
    let extb = if ext {
        be2(e.extended_flags)
    } else {
        Seq::<u8>::empty()
    };
    let s = entry_bytes(e) + tail;
    lemma_head_layout(e);
    lemma_be2(e.flags);
    lemma_be2(e.extended_flags);
    lemma_parts(head, extb, e.path, zeros(pad), tail);
    assert(s == head + extb + e.path + zeros(pad) + tail);
    lemma_field4(s, head, 0, e.ctime.sec);
    lemma_field4(s, head, 4, e.ctime.nano);
    lemma_field4(s, head, 8, e.mtime.sec);
    lemma_field4(s, head, 12, e.mtime.nano);
    lemma_field4(s, head, 16, e.device);
    lemma_field4(s, head, 20, e.inode);
    lemma_field4(s, head, 24, mode_value(e.mode));
    lemma_field4(s, head, 28, e.uid);
    lemma_field4(s, head, 32, e.gid);
    lemma_field4(s, head, 36, e.filesize);
    assert(s.subrange(40, 60) =~= head.subrange(40, 60));
    assert(s.subrange(60, 62) =~= head.subrange(60, 62));
    if ext {
        assert(s.subrange(62, 64) =~= extb);
    }
}
/// Facts on reading at `p0 + i` of `b`, stated on `b.skip(p0)`.
proof fn lemma_rest_sub(b: Seq<u8>, p0: int, i: int, n: int)
    requires
        0 <= p0,
        0 <= i,
        0 <= n,
        p0 + i + n <= b.len(),
    ensures
        b.skip(p0).subrange(i, i + n) == b.subrange(p0 + i, p0 + i + n),
{
    assert(b.skip(p0).subrange(i, i + n) =~= b.subrange(p0 + i, p0 + i + n));
}

proof fn lemma_short_decodes_nothing(s: Seq<u8>)
    ensures
        s.len() <= 62 ==> forall|e: IndexEntryView, len: int| !#[trigger] entry_decodes(s, e, len),
{
}

/// Different entries never read from the same bytes.
pub proof fn lemma_entry_decodes_unique(s: Seq<u8>, e1: IndexEntryView, k1: int, e2: IndexEntryView, k2: int)
    requires
        entry_decodes(s, e1, k1),
        entry_decodes(s, e2, k2),
    ensures
        e1 == e2,
        k1 == k2,
{
    let ext = flags_extended(e1.flags);
    let base: int = if ext {
        64
    } else {
        62
    };
    let n = (e1.flags & 0xFFF) as int;
    let l1 = e1.path.len() as int;
    let l2 = e2.path.len() as int;
    if l1 < l2 {
        assert(e2.path.skip(n)[l1 - n] == s[base + l1]);
    } else if l2 < l1 {
        assert(e1.path.skip(n)[l2 - n] == s[base + l2]);
    }
    assert(e1.path =~= e2.path);
    assert(e1.oid =~= e2.oid);
    assert(e1.mode == e2.mode);
    assert(e1.ctime == e2.ctime);
    assert(e1.mtime == e2.mtime);
}

/// The result of reading one entry from the start of `s`: the entry and the number of bytes
/// it takes, or the error.
pub open spec fn decode_entry(s: Seq<u8>) -> Result<(IndexEntryView, int), BitError> {
    if exists|e: IndexEntryView, len: int| entry_decodes(s, e, len) {
        let (e, len) = choose|e: IndexEntryView, len: int| entry_decodes(s, e, len);
        Ok((e, len))
    } else if s.len() >= 28 && !is_mode_value(be_at(s, 24, 4) as u32) {
        Err(BitError::InvalidFileMode)
    } else {
        Err(BitError::UnexpectedEof)
    }
}

proof fn lemma_decode_entry_ok(s: Seq<u8>, e: IndexEntryView, k: int)
    requires
        entry_decodes(s, e, k),
    ensures
        decode_entry(s) == Ok::<(IndexEntryView, int), BitError>((e, k)),
{
    let (e2, k2) = choose|e2: IndexEntryView, k2: int| entry_decodes(s, e2, k2);
    lemma_entry_decodes_unique(s, e, k, e2, k2);
}

/// Reading `n` entries one after the other from the start of `s`: the entries and the number
/// of bytes they take, or the first error.
pub open spec fn decode_entries(s: Seq<u8>, n: nat) -> Result<(Seq<IndexEntryView>, int), BitError>
    decreases n,
{
    if n == 0 {
        Ok((Seq::empty(), 0))
    } else {
        match decode_entries(s, (n - 1) as nat) {
            Err(err) => Err(err),
            Ok((es, k)) => match decode_entry(s.skip(k)) {
                Err(err) => Err(err),
                Ok((e, k2)) => Ok((es.push(e), k + k2)),
            },
        }
    }
}

/// The on-disk bytes of entries written one after the other.
pub open spec fn entries_bytes(es: Seq<IndexEntryView>) -> Seq<u8>
    decreases es.len(),
{
    if es.len() == 0 {
        Seq::empty()
    } else {
        entries_bytes(es.drop_last()) + entry_bytes(es.last())
    }
}

/// The index the entries make when inserted in order: a later entry with the key of an
/// earlier one replaces it.
pub open spec fn entries_map(es: Seq<IndexEntryView>) -> Map<Seq<u8>, IndexEntryView>
    decreases es.len(),
{
    if es.len() == 0 {
        Map::empty()
    } else {
        entries_map(es.drop_last()).insert(
            index_key(es.last().path, stage_of_bits(es.last().flags)),
            es.last(),
        )
    }
}

proof fn lemma_decode_entries_ok(s: Seq<u8>, n: nat)
    requires
        decode_entries(s, n) is Ok,
    ensures
        ({
            let (es, k) = decode_entries(s, n)->Ok_0;
            es.len() == n && 0 <= k <= s.len()
        }),
    decreases n,
{
    if n > 0 {
        lemma_decode_entries_ok(s, (n - 1) as nat);
    }
}

/// Entries written one after the other read back as themselves, whatever follows them.
pub proof fn lemma_entries_roundtrip(es: Seq<IndexEntryView>, tail: Seq<u8>)
    requires
        forall|i: int| 0 <= i < es.len() ==> canonical_entry(#[trigger] es[i]),
    ensures
        decode_entries(entries_bytes(es) + tail, es.len()) == Ok::<
            (Seq<IndexEntryView>, int),
            BitError,
        >((es, entries_bytes(es).len() as int)),
    decreases es.len(),
{
    if es.len() > 0 {
        let init = es.drop_last();
        let p = entries_bytes(init);
        let e = entry_bytes(es.last());
        assert(entries_bytes(es) + tail =~= p + (e + tail));
        assert forall|i: int| 0 <= i < init.len() implies canonical_entry(#[trigger] init[i]) by {
            assert(init[i] == es[i]);
        }
        lemma_entries_roundtrip(init, e + tail);
        assert((p + (e + tail)).skip(p.len() as int) =~= e + tail);
        lemma_entry_roundtrip(es.last(), tail);
        lemma_decode_entry_ok(e + tail, es.last(), e.len() as int);
        assert(init.push(es.last()) =~= es);
        assert(entries_bytes(es).len() == p.len() + e.len());
    } else {
        assert(es =~= Seq::<IndexEntryView>::empty());
        assert(entries_bytes(es) + tail =~= tail);
    }
}

/// `DIRC`, the signature an index file starts with.
pub open spec fn index_signature() -> Seq<u8> {
    seq![68u8, 73, 82, 67]
}

/// The header of an index file.
pub struct BitIndexHeader {
    pub signature: [u8; 4],
    pub version: u32,
    pub entryc: u32,
}

impl Default for BitIndexHeader {
    /// The header of an empty version 2 index.
    fn default() -> (r: Self)
        ensures
            r.signature@ == index_signature(),
            r.version == 2,
            r.entryc == 0,
    {
        let r = BitIndexHeader { signature: [68u8, 73, 82, 67], version: 2, entryc: 0 };
        assert(r.signature@ =~= index_signature());
        r
    }
}

/// The bytes of a header: the signature, then the version and the number of entries as
/// big-endian `u32`s.
pub open spec fn header_bytes(signature: Seq<u8>, version: u32, entryc: u32) -> Seq<u8> {
    signature + be4(version) + be4(entryc)
}

impl BitIndexHeader {
    pub fn serialize(&self, w: &mut Vec<u8>)
        ensures
            final(w)@ == old(w)@ + header_bytes(self.signature@, self.version, self.entryc),
    {
        append_bytes(w, self.signature.as_slice());
        write_u32(w, self.version);
        write_u32(w, self.entryc);
        assert(w@ =~= old(w)@ + header_bytes(self.signature@, self.version, self.entryc));
    }
}

/// An extension of the index file: a signature, the size of the data and the data.
pub struct BitIndexExtension {
    pub signature: [u8; 4],
    pub size: u32,
    pub data: Vec<u8>,
}

impl BitIndexExtension {
    pub fn serialize(&self, w: &mut Vec<u8>)
        ensures
            final(w)@ == old(w)@ + self.signature@ + be4(self.size) + self.data@,
    {
        append_bytes(w, self.signature.as_slice());
        write_u32(w, self.size);
        append_bytes(w, self.data.as_slice());
    }
}

/// The extensions between the entries and the 20 byte trailer: signature, size and data, one
/// after the other while more than 20 bytes are left; `None` where a size runs past the end.
pub open spec fn extensions_spec(buf: Seq<u8>) -> Option<Seq<(Seq<u8>, nat, Seq<u8>)>>
    decreases buf.len(),
{
    if buf.len() <= 20 {
        Some(Seq::empty())
    } else {
        let size = be_at(buf, 4, 4);
        if 8 + size > buf.len() {
            None
        } else {
            match extensions_spec(buf.skip(8 + size as int)) {
                None => None,
                Some(rest) => Some(seq![(buf.take(4), size, buf.subrange(8, 8 + size as int))] + rest),
            }
        }
    }
}

/// The view of an extension: signature, size and data.
pub open spec fn extension_view(x: BitIndexExtension) -> (Seq<u8>, nat, Seq<u8>) {
    (x.signature@, x.size as nat, x.data@)
}

/// Reads the extensions that `buf`, the bytes after the entries, holds before its 20 byte
/// trailer.
pub fn parse_extensions(buf: &[u8]) -> (r: BitResult<Vec<BitIndexExtension>>)
    ensures
        r is Ok <==> extensions_spec(buf@) is Some,
        r is Err ==> r == Err::<Vec<BitIndexExtension>, BitError>(BitError::CorruptIndex),
        r matches Ok(v) ==> v@.map_values(|x: BitIndexExtension| extension_view(x))
            == extensions_spec(buf@)->0,
{
    let mut exts: Vec<BitIndexExtension> = Vec::new();
    let mut rd = ByteReader::new(crate::bytes::slice_to_vec(buf));
    let ghost whole = buf@;
    proof {
        assert(rd.rest() =~= whole);
        match extensions_spec(whole) {
            None => {},
            Some(rest) => {
                assert(exts@.map_values(|x: BitIndexExtension| extension_view(x)) + rest =~= rest);
            },
        }
    }
    loop
        invariant
            whole == buf@,
            rd.spec_bytes() == whole,
            0 <= rd.spec_pos() <= whole.len(),
            extensions_spec(whole) == (match extensions_spec(rd.rest()) {
                None => None,
                Some(rest) => Some(
                    exts@.map_values(|x: BitIndexExtension| extension_view(x)) + rest,
                ),
            }),
        decreases whole.len() - rd.spec_pos(),
    {
        let ghost cur = rd.rest();
        if rd.remaining() <= 20 {
            assert(extensions_spec(cur) == Some(Seq::<(Seq<u8>, nat, Seq<u8>)>::empty()));
            let ghost views = exts@.map_values(|x: BitIndexExtension| extension_view(x));
            assert(views + Seq::<(Seq<u8>, nat, Seq<u8>)>::empty() =~= views);
            assert(extensions_spec(whole) == Some(views));
            return Ok(exts);
        }
        let sig = match rd.read_bytes(4) {
            Ok(v) => v,
            Err(_) => {
                return Err(BitError::CorruptIndex);
            },
        };
        let size = match rd.read_u32() {
            Ok(v) => v,
            Err(_) => {
                return Err(BitError::CorruptIndex);
            },
        };
        proof {
            assert(whole.subrange(rd.spec_pos() - 4, rd.spec_pos() as int) =~= cur.subrange(4, 8));
        }
        if (size as usize) > rd.remaining() {
            return Err(BitError::CorruptIndex);
        }
        let data = match rd.read_bytes(size as usize) {
            Ok(v) => v,
            Err(_) => {
                return Err(BitError::CorruptIndex);
            },
        };
        let signature: [u8; 4] = [sig[0], sig[1], sig[2], sig[3]];
        let x = BitIndexExtension { signature, size, data };
        let ghost old_views = exts@.map_values(|x: BitIndexExtension| extension_view(x));
        exts.push(x);
        proof {
            assert(rd.rest() =~= cur.skip(8 + size));
            assert(signature@ =~= cur.take(4));
            assert(x.data@ =~= cur.subrange(8, 8 + size));
            let nv = exts@.map_values(|x: BitIndexExtension| extension_view(x));
            assert(nv =~= old_views.push(extension_view(x)));
            match extensions_spec(rd.rest()) {
                None => {},
                Some(rest) => {
                    assert(old_views + (seq![extension_view(x)] + rest) =~= nv + rest);
                },
            }
        }
    }
}

impl BitIndexEntry {
    /// Appends the on-disk form of the entry.
    pub fn serialize(&self, w: &mut Vec<u8>)
        requires
            !(self.path@.len() > 0 && self.path@[0] == 0x2fu8),
        ensures
            final(w)@ == old(w)@ + entry_bytes(self@),
    {
        reveal(entry_head);
        write_u32(w, self.ctime.sec);
        write_u32(w, self.ctime.nano);
        write_u32(w, self.mtime.sec);
        write_u32(w, self.mtime.nano);
        write_u32(w, self.device);
        write_u32(w, self.inode);
        write_u32(w, self.mode.as_u32());
        write_u32(w, self.uid);
        write_u32(w, self.gid);
        write_u32(w, self.filesize);
        write_oid(w, self.oid);
        write_u16(w, self.flags.0);
        let ghost after_head = w@;
        assert(after_head =~= old(w)@ + entry_head(self@));
        let ghost ext = flags_extended(self.flags.0);
        let ghost extb = if ext {
            be2(self.extended_flags.0)
        } else {
            Seq::<u8>::empty()
        };
        if self.flags.extended() {
            write_u16(w, self.extended_flags.0);
        }
        assert(w@ =~= after_head + extb);
        append_bytes(w, self.path.as_slice());
        let ghost before_pad = w@;
        assert(before_pad == old(w)@ + (entry_head(self@) + extb + self.path@)) by {
            assert(before_pad =~= old(w)@ + (entry_head(self@) + extb + self.path@));
        }
        let pad = self.padding_len();
        let mut i: usize = 0;
        while i < pad
            invariant
                i <= pad,
                w@ == before_pad + zeros(i as nat),
            decreases pad - i,
        {
            w.push(0u8);
            i = i + 1;
            assert(w@ =~= before_pad + zeros(i as nat));
        }
        assert(entry_bytes(self@) == entry_head(self@) + extb + self.path@ + zeros(pad as nat));
        assert(w@ =~= old(w)@ + entry_bytes(self@));
    }

    /// Reads an on-disk entry; fails where the bytes end early or hold no valid mode.
    pub fn deserialize(r: &mut ByteReader) -> (res: BitResult<BitIndexEntry>)
        ensures
            final(r).spec_bytes() == old(r).spec_bytes(),
            res matches Ok(x) ==> entry_decodes(
                old(r).rest(),
                x@,
                final(r).spec_pos() - old(r).spec_pos(),
            ),
            res is Err ==> forall|e: IndexEntryView, len: int|
                !#[trigger] entry_decodes(old(r).rest(), e, len),
            res is Err ==> res == Err::<BitIndexEntry, BitError>(BitError::InvalidFileMode)
                || res == Err::<BitIndexEntry, BitError>(BitError::UnexpectedEof),
            res == Err::<BitIndexEntry, BitError>(BitError::InvalidFileMode) <==> (old(
                r,
            ).rest().len() >= 28 && !is_mode_value(be_at(old(r).rest(), 24, 4) as u32)),
    {
        let ghost b = r.spec_bytes();
        let ghost p0 = r.spec_pos();
        let ghost s = r.rest();
        let _ = r.remaining();
        proof {
            assert(s.len() == b.len() - p0);
            lemma_short_decodes_nothing(s);
        }
        let csec = r.read_u32()?;
        let cnano = r.read_u32()?;
        let msec = r.read_u32()?;
        let mnano = r.read_u32()?;
        let device = r.read_u32()?;
        let inode = r.read_u32()?;
        let m = r.read_u32()?;
        proof {
            lemma_rest_sub(b, p0, 0, 4);
            lemma_rest_sub(b, p0, 4, 4);
            lemma_rest_sub(b, p0, 8, 4);
            lemma_rest_sub(b, p0, 12, 4);
            lemma_rest_sub(b, p0, 16, 4);
            lemma_rest_sub(b, p0, 20, 4);
            lemma_rest_sub(b, p0, 24, 4);
        }
        let mode = match FileMode::try_new(m) {
            Some(mode) => mode,
            None => {
                return Err(BitError::InvalidFileMode);
            },
        };
        let uid = r.read_u32()?;
        let gid = r.read_u32()?;
        let filesize = r.read_u32()?;
        let oid = r.read_oid()?;
        let fl = r.read_u16()?;
        proof {
            lemma_rest_sub(b, p0, 28, 4);
            lemma_rest_sub(b, p0, 32, 4);
            lemma_rest_sub(b, p0, 36, 4);
            lemma_rest_sub(b, p0, 40, 20);
            lemma_rest_sub(b, p0, 60, 2);
        }
        let flags = BitIndexEntryFlags::new(fl);
        let ext = flags.extended();
        let xf: u16 = if ext {
            let v = r.read_u16()?;
            proof {
                lemma_rest_sub(b, p0, 62, 2);
            }
            v
        } else {
            0
        };
        let ghost base: int = if ext {
            64
        } else {
            62
        };
        let n = flags.path_len() as usize;
        let ghost sb = r.rest();
        proof {
            assert(sb =~= s.skip(base));
        }
        let path = match r.read_null_terminated_skip_n(n) {
            Ok(p) => p,
            Err(err) => {
                proof {
                    assert forall|e: IndexEntryView, len: int|
                        !#[trigger] entry_decodes(s, e, len) by {
                        if entry_decodes(s, e, len) {
                            let k = e.path.len() - n;
                            assert(sb.skip(n as int)[k] == s[base + e.path.len()]);
                        }
                    }
                }
                return Err(err);
            },
        };
        let pad = BitIndexEntry::padding_len_for_filepath(path.len(), ext);
        let ghost sp = r.rest();
        match r.read_bytes(pad - 1) {
            Ok(_) => {},
            Err(err) => {
                proof {
                    assert forall|e: IndexEntryView, len: int|
                        !#[trigger] entry_decodes(s, e, len) by {
                        if entry_decodes(s, e, len) {
                            let pl = path@.len() as int;
                            let el = e.path.len() as int;
                            if el < pl {
                                assert(path@.skip(n as int)[el - n] == s[base + el]);
                            } else if pl < el {
                                assert(e.path.skip(n as int)[pl - n] == s[base + pl]);
                            }
                        }
                    }
                }
                return Err(err);
            },
        }
        let entry = BitIndexEntry {
            ctime: Timespec { sec: csec, nano: cnano },
            mtime: Timespec { sec: msec, nano: mnano },
            device,
            inode,
            mode,
            uid,
            gid,
            filesize,
            oid,
            flags,
            extended_flags: BitIndexEntryExtendedFlags(xf),
            path,
        };
        proof {
            assert(entry@.path =~= s.subrange(base, base + path@.len()));
        }
        Ok(entry)
    }
}

/// The version of the index files written.
pub const BIT_INDEX_VERSION: u32 = 2;

/// Whether a path is relative: it does not start with `/`.
pub open spec fn is_relative(p: Seq<u8>) -> bool {
    !(p.len() > 0 && p[0] == 0x2fu8)
}

/// The bytes of an index file holding `es`, before the trailer: a version 2 header and the
/// entries.
pub open spec fn index_body(es: Seq<IndexEntryView>) -> Seq<u8> {
    header_bytes(index_signature(), 2, es.len() as u32) + entries_bytes(es)
}

/// The views of the entries of a map.
pub open spec fn entry_view_map(m: Map<Seq<u8>, BitIndexEntry>) -> Map<Seq<u8>, IndexEntryView> {
    m.map_values(|e: BitIndexEntry| e@)
}

/// What reading an index file gives: its entries in file order, or the error. The file must
/// start with `DIRC` and version 2 or 3 and the number of entries, then hold that many
/// entries, then extensions that fit, and end with the SHA-1 of everything before its last
/// 20 bytes.
pub open spec fn parse_index(b: Seq<u8>) -> Result<Seq<IndexEntryView>, BitError> {
    if b.len() < 4 {
        Err(BitError::UnexpectedEof)
    } else if b.take(4) != index_signature() {
        Err(BitError::CorruptIndex)
    } else if b.len() < 8 {
        Err(BitError::UnexpectedEof)
    } else if be_at(b, 4, 4) != 2 && be_at(b, 4, 4) != 3 {
        Err(BitError::CorruptIndex)
    } else if b.len() < 12 {
        Err(BitError::UnexpectedEof)
    } else {
        match decode_entries(b.skip(12), be_at(b, 8, 4)) {
            Err(err) => Err(err),
            Ok((es, k)) => {
                if b.len() - (12 + k) < 20 || extensions_spec(b.skip(12 + k)) is None || b.skip(
                    b.len() - 20,
                ) != spec_sha1(b.take(b.len() - 20)) {
                    Err(BitError::CorruptIndex)
                } else {
                    Ok(es)
                }
            },
        }
    }
}

proof fn lemma_decode_entries_err(s: Seq<u8>, m: nat, n: nat)
    requires
        decode_entries(s, m) is Err,
        m <= n,
    ensures
        decode_entries(s, n) == decode_entries(s, m),
    decreases n - m,
{
    if m < n {
        lemma_decode_entries_err(s, m, (n - 1) as nat);
    }
}

proof fn lemma_entries_map_prefix(idx: BitIndexInner, i: int)
    requires
        idx.wf(),
        0 <= i <= idx.spec_list().len(),
    ensures
        forall|k: Seq<u8>|
            #[trigger] entries_map(entry_views(idx.spec_list()).take(i)).contains_key(k) <==> exists|
                j: int,
            |
                0 <= j < i && idx.spec_keys()[j] == k,
        forall|j: int|
            0 <= j < i ==> entries_map(entry_views(idx.spec_list()).take(i))[#[trigger] idx.spec_keys()[j]]
                == idx.spec_list()[j]@,
    decreases i,
{
    let list = idx.spec_list();
    let keys = idx.spec_keys();
    let views = entry_views(list);
    if i > 0 {
        lemma_entries_map_prefix(idx, i - 1);
        idx.lemma_keys_distinct();
        assert(views.take(i).drop_last() =~= views.take(i - 1));
        assert(views.take(i).last() == list[i - 1]@);
        assert(keys[i - 1] == index_key(list[i - 1].path@, list[i - 1].spec_stage()));
        let m = entries_map(views.take(i));
        let prev = entries_map(views.take(i - 1));
        assert(m == prev.insert(keys[i - 1], list[i - 1]@));
        assert forall|k: Seq<u8>| #[trigger] m.contains_key(k) <==> exists|j: int|
            0 <= j < i && keys[j] == k by {
            if prev.contains_key(k) {
                let j = choose|j: int| 0 <= j < i - 1 && keys[j] == k;
                assert(0 <= j < i && keys[j] == k);
            }
            if exists|j: int| 0 <= j < i && keys[j] == k {
                let j = choose|j: int| 0 <= j < i && keys[j] == k;
                if j < i - 1 {
                    assert(prev.contains_key(keys[j]));
                }
            }
        }
        assert forall|j: int| 0 <= j < i implies m[#[trigger] keys[j]] == list[j]@ by {
            if j < i - 1 {
                assert(keys[j] != keys[i - 1]);
                assert(prev[keys[j]] == list[j]@);
            }
        }
    } else {
        assert(views.take(0) =~= Seq::<IndexEntryView>::empty());
    }
}

/// Inserting the entries of an index in key order makes the index again.
pub proof fn lemma_entries_map_list(idx: BitIndexInner)
    requires
        idx.wf(),
    ensures
        entries_map(entry_views(idx.spec_list())) == entry_view_map(idx.spec_entries()),
{
    let n = idx.spec_list().len() as int;
    lemma_entries_map_prefix(idx, n);
    idx.lemma_list_entries();
    let views = entry_views(idx.spec_list());
    assert(views.take(n) =~= views);
    assert(entries_map(views) =~= entry_view_map(idx.spec_entries()));
}

/// An index written out reads back as the same index: the same entries, in key order. The
/// entries must be as written to disk (`canonical_entry`), their number must fit the header
/// and the digest be twenty bytes.
pub proof fn lemma_index_roundtrip(idx: BitIndexInner)
    requires
        idx.wf(),
        forall|i: int|
            0 <= i < idx.spec_list().len() ==> canonical_entry(#[trigger] idx.spec_list()[i]@),
        idx.spec_list().len() <= u32::MAX,
        spec_sha1(index_body(entry_views(idx.spec_list()))).len() == 20,
    ensures
        parse_index(
            index_body(entry_views(idx.spec_list())) + spec_sha1(
                index_body(entry_views(idx.spec_list())),
            ),
        ) == Ok::<Seq<IndexEntryView>, BitError>(entry_views(idx.spec_list())),
        entries_map(entry_views(idx.spec_list())) == entry_view_map(idx.spec_entries()),
{
    let views = entry_views(idx.spec_list());
    let n = views.len();
    let body = index_body(views);
    let d = spec_sha1(body);
    let b = body + d;
    let head = header_bytes(index_signature(), 2, n as u32);
    let eb = entries_bytes(views);
    lemma_be4(2);
    lemma_be4(n as u32);
    assert(head.len() == 12);
    assert(b.take(4) =~= index_signature());
    assert(b.subrange(4, 8) =~= be4(2));
    assert(b.subrange(8, 12) =~= be4(n as u32));
    assert(b.skip(12) =~= eb + d);
    assert forall|i: int| 0 <= i < views.len() implies canonical_entry(#[trigger] views[i]) by {
        assert(views[i] == idx.spec_list()[i]@);
    }
    lemma_entries_roundtrip(views, d);
    assert(b.skip(12 + eb.len() as int) =~= d);
    assert(extensions_spec(d) == Some(Seq::<(Seq<u8>, nat, Seq<u8>)>::empty()));
    assert(b.skip(b.len() - 20) =~= d);
    assert(b.take(b.len() - 20) =~= body);
    lemma_entries_map_list(idx);
}

impl BitIndexInner {
    /// Reads the header of an index file.
    pub fn parse_header(r: &mut ByteReader) -> (res: BitResult<BitIndexHeader>)
        ensures
            final(r).spec_bytes() == old(r).spec_bytes(),
            res matches Ok(h) ==> {
                &&& old(r).rest().len() >= 12
                &&& h.signature@ == index_signature()
                &&& old(r).rest().take(4) == index_signature()
                &&& h.version == be_at(old(r).rest(), 4, 4)
                &&& (h.version == 2 || h.version == 3)
                &&& h.entryc == be_at(old(r).rest(), 8, 4)
                &&& final(r).spec_pos() == old(r).spec_pos() + 12
            },
            res matches Err(e) ==> parse_index(old(r).rest()) == Err::<Seq<IndexEntryView>, BitError>(e),
    {
        let ghost b = r.spec_bytes();
        let ghost p0 = r.spec_pos();
        let ghost s = r.rest();
        let _ = r.remaining();
        let sig = r.read_bytes(4)?;
        if !(sig[0] == 68u8 && sig[1] == 73u8 && sig[2] == 82u8 && sig[3] == 67u8) {
            proof {
                assert(s.take(4) =~= sig@);
            }
            return Err(BitError::CorruptIndex);
        }
        proof {
            assert(s.take(4) =~= index_signature());
        }
        let version = r.read_u32()?;
        proof {
            lemma_rest_sub(b, p0, 4, 4);
        }
        if version != 2 && version != 3 {
            return Err(BitError::CorruptIndex);
        }
        let entryc = r.read_u32()?;
        proof {
            lemma_rest_sub(b, p0, 8, 4);
        }
        let h = BitIndexHeader { signature: [68u8, 73, 82, 67], version, entryc };
        assert(h.signature@ =~= index_signature());
        Ok(h)
    }

    /// The index file of this index: header, entries in key order, and the SHA-1 trailer.
    pub fn serialize(&self) -> (r: Vec<u8>)
        requires
            self.wf(),
            forall|i: int|
                0 <= i < self.spec_list().len() ==> is_relative(#[trigger] self.spec_list()[i].path@),
        ensures
            r@ == index_body(entry_views(self.spec_list())) + spec_sha1(
                index_body(entry_views(self.spec_list())),
            ),
    {
        let ghost views = entry_views(self.spec_list());
        let n = self.len();
        let header = BitIndexHeader {
            signature: [68u8, 73, 82, 67],
            version: BIT_INDEX_VERSION,
            entryc: n as u32,
        };
        assert(header.signature@ =~= index_signature());
        let mut hw = HashWriter::new_sha1(Vec::new());
        let mut buf: Vec<u8> = Vec::new();
        header.serialize(&mut buf);
        hw.write(buf.as_slice());
        let ghost head = header_bytes(index_signature(), 2, n as u32);
        assert(hw.written() =~= head);
        assert(hw.hashed() =~= head);
        let mut i: usize = 0;
        while i < n
            invariant
                self.wf(),
                n == self.spec_list().len(),
                views == entry_views(self.spec_list()),
                forall|j: int|
                    0 <= j < self.spec_list().len() ==> is_relative(
                        #[trigger] self.spec_list()[j].path@,
                    ),
                i <= n,
                hw.written() == head + entries_bytes(views.take(i as int)),
                hw.hashed() == head + entries_bytes(views.take(i as int)),
            decreases n - i,
        {
            let e = self.entry_at(i);
            let mut eb: Vec<u8> = Vec::new();
            e.serialize(&mut eb);
            hw.write(eb.as_slice());
            proof {
                assert(views.take(i + 1).drop_last() =~= views.take(i as int));
                assert(views.take(i + 1).last() == e@);
                assert(eb@ =~= entry_bytes(e@));
                assert(hw.written() =~= head + entries_bytes(views.take(i + 1)));
                assert(hw.hashed() =~= head + entries_bytes(views.take(i + 1)));
            }
            i = i + 1;
        }
        proof {
            assert(views.take(n as int) =~= views);
            assert(views.len() == n);
        }
        hw.write_hash()
    }

    /// Reads an index file.
    pub fn deserialize(bytes: &[u8]) -> (res: BitResult<BitIndexInner>)
        ensures
            res matches Ok(idx) ==> {
                &&& idx.wf()
                &&& parse_index(bytes@) is Ok
                &&& entry_view_map(idx.spec_entries()) == entries_map(parse_index(bytes@)->Ok_0)
            },
            res matches Err(e) ==> parse_index(bytes@) == Err::<Seq<IndexEntryView>, BitError>(e),
    {
        let ghost b = bytes@;
        let mut rd = ByteReader::new(crate::bytes::slice_to_vec(bytes));
        assert(rd.rest() =~= b);
        let header = Self::parse_header(&mut rd)?;
        let ghost es: Seq<IndexEntryView> = Seq::empty();
        let mut inner = BitIndexInner::new();
        let mut i: u32 = 0;
        proof {
            assert(entry_view_map(inner.spec_entries()) =~= entries_map(es));
        }
        while i < header.entryc
            invariant
                b == bytes@,
                rd.spec_bytes() == b,
                b.len() >= 12,
                b.take(4) == index_signature(),
                be_at(b, 4, 4) == header.version,
                header.version == 2 || header.version == 3,
                be_at(b, 8, 4) == header.entryc,
                i <= header.entryc,
                12 <= rd.spec_pos() <= b.len(),
                decode_entries(b.skip(12), i as nat) == Ok::<(Seq<IndexEntryView>, int), BitError>(
                    (es, rd.spec_pos() - 12),
                ),
                inner.wf(),
                entry_view_map(inner.spec_entries()) == entries_map(es),
            decreases header.entryc - i,
        {
            let ghost s = rd.rest();
            let ghost p = rd.spec_pos();
            proof {
                assert(s =~= b.skip(12).skip(p - 12));
            }
            match BitIndexEntry::deserialize(&mut rd) {
                Ok(e) => {
                    let _ = rd.remaining();
                    proof {
                        lemma_decode_entry_ok(s, e@, rd.spec_pos() - p);
                    }
                    let ghost prev = inner.spec_entries();
                    inner.insert_entry(e);
                    proof {
                        assert(es.push(e@).drop_last() =~= es);
                        assert(es.push(e@).last() == e@);
                        assert(entry_view_map(inner.spec_entries()) =~= entries_map(es.push(e@)));
                        es = es.push(e@);
                    }
                    i = i + 1;
                },
                Err(err) => {
                    proof {
                        assert(decode_entry(s) == Err::<(IndexEntryView, int), BitError>(err));
                        assert(decode_entries(b.skip(12), (i + 1) as nat) is Err);
                        lemma_decode_entries_err(
                            b.skip(12),
                            (i + 1) as nat,
                            header.entryc as nat,
                        );
                    }
                    return Err(err);
                },
            }
        }
        let ghost k = rd.spec_pos() - 12;
        let remainder = rd.read_to_vec();
        proof {
            assert(remainder@ =~= b.skip(12 + k));
        }
        if remainder.len() < 20 {
            return Err(BitError::CorruptIndex);
        }
        let _exts = parse_extensions(remainder.as_slice())?;
        let split = bytes.len() - 20;
        let body = crate::hash::slice_range(bytes, 0, split);
        let trailer = crate::hash::slice_range(bytes, split, bytes.len());
        let actual = hash_bytes(body.as_slice());
        let same = crate::hash::bytes_eq(actual.as_bytes().as_slice(), trailer.as_slice());
        proof {
            assert(body@ =~= b.take(b.len() - 20));
            assert(trailer@ =~= b.skip(b.len() - 20));
        }
        if !same {
            return Err(BitError::CorruptIndex);
        }
        Ok(inner)
    }
}

} // verus!
