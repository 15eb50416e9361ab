use libbit::error::BitError;
use libbit::hash::Oid;
use libbit::index::serialize::{parse_extensions, BitIndexExtension, BitIndexHeader};
use libbit::index::{BitIndexEntry, BitIndexEntryFlags, BitIndexInner, MergeStage};
use libbit::io::ByteReader;
use libbit::obj::{FileMode, TreeEntry};

fn entry(path: &str, byte: u8) -> BitIndexEntry {
    let te = TreeEntry { mode: FileMode::REG, path: path.as_bytes().to_vec(), oid: Oid::new([byte; 20]) };
    BitIndexEntry::from_tree_entry(&te)
}

fn sample_index() -> BitIndexInner {
    let mut index = BitIndexInner::new();
    index.insert_entry(entry("foo", 1));
    index.insert_entry(entry("dir/bar", 2));
    let mut conflicted = entry("dir/baz", 3);
    conflicted.set_stage(MergeStage::Ours);
    index.insert_entry(conflicted);
    index
}

#[test]
fn index_entry_bytes_layout() {
    let e = entry("foo", 7);
    let mut w = Vec::new();
    e.serialize(&mut w);
    // 62 fixed bytes, the path and zero padding up to a multiple of eight
    assert_eq!(w.len(), 72);
    assert_eq!(&w[24..28], &[0, 0, 0x81, 0xa4]);
    assert_eq!(&w[36..40], &[0xff, 0xff, 0xff, 0xff]);
    assert_eq!(&w[40..60], &[7u8; 20]);
    assert_eq!(&w[60..62], &[0, 3]);
    assert_eq!(&w[62..65], b"foo");
    assert!(w[65..].iter().all(|b| *b == 0));
}

#[test]
fn index_entry_roundtrip() {
    let e = entry("some/longer/path.txt", 9);
    let mut w = Vec::new();
    e.serialize(&mut w);
    w.extend_from_slice(b"tail");
    let mut r = ByteReader::new(w);
    let back = BitIndexEntry::deserialize(&mut r).unwrap();
    assert_eq!(back, e);
    assert_eq!(r.remaining(), 4);
}

#[test]
fn index_entry_invalid_mode() {
    let mut w = Vec::new();
    entry("foo", 1).serialize(&mut w);
    w[27] = 0x01;
    let mut r = ByteReader::new(w);
    assert_eq!(BitIndexEntry::deserialize(&mut r), Err(BitError::InvalidFileMode));
}

#[test]
fn index_entry_truncated() {
    let mut w = Vec::new();
    entry("foo", 1).serialize(&mut w);
    w.truncate(64);
    let mut r = ByteReader::new(w);
    assert_eq!(BitIndexEntry::deserialize(&mut r), Err(BitError::UnexpectedEof));
}

#[test]
fn index_file_roundtrip() {
    let index = sample_index();
    let bytes = index.serialize();
    assert_eq!(&bytes[0..4], b"DIRC");
    assert_eq!(&bytes[4..8], &[0, 0, 0, 2]);
    assert_eq!(&bytes[8..12], &[0, 0, 0, 3]);
    let back = BitIndexInner::deserialize(&bytes).unwrap();
    assert_eq!(back.len(), 3);
    assert!(back.has_conflicts());
    for i in 0..3 {
        assert_eq!(back.entry_at(i), index.entry_at(i));
    }
}

#[test]
fn index_file_bad_trailer() {
    let mut bytes = sample_index().serialize();
    let n = bytes.len();
    bytes[n - 1] ^= 0xff;
    assert_eq!(BitIndexInner::deserialize(&bytes).err(), Some(BitError::CorruptIndex));
}

#[test]
fn index_file_bad_signature_and_version() {
    let mut bytes = sample_index().serialize();
    bytes[0] = b'X';
    assert_eq!(BitIndexInner::deserialize(&bytes).err(), Some(BitError::CorruptIndex));
    let mut bytes = sample_index().serialize();
    bytes[7] = 4;
    assert_eq!(BitIndexInner::deserialize(&bytes).err(), Some(BitError::CorruptIndex));
    assert_eq!(BitIndexInner::deserialize(b"DIR").err(), Some(BitError::UnexpectedEof));
}

#[test]
fn index_empty_file_roundtrip() {
    let bytes = BitIndexInner::new().serialize();
    assert_eq!(bytes.len(), 32);
    assert_eq!(BitIndexInner::deserialize(&bytes).unwrap().len(), 0);
}

#[test]
fn index_header_and_extension_bytes() {
    let mut w = Vec::new();
    BitIndexHeader::default().serialize(&mut w);
    assert_eq!(w, b"DIRC\0\0\0\x02\0\0\0\0".to_vec());
    let ext = BitIndexExtension { signature: *b"TREE", size: 3, data: vec![1, 2, 3] };
    let mut w = Vec::new();
    ext.serialize(&mut w);
    assert_eq!(w, b"TREE\0\0\0\x03\x01\x02\x03".to_vec());
}

#[test]
fn index_extensions_are_framed() {
    let mut buf = b"TREE\0\0\0\x02ab".to_vec();
    buf.extend_from_slice(&[0u8; 20]);
    let exts = parse_extensions(&buf).unwrap();
    assert_eq!(exts.len(), 1);
    assert_eq!(exts[0].data, b"ab".to_vec());
    let mut bad = b"TREE\0\0\0\xffab".to_vec();
    bad.extend_from_slice(&[0u8; 20]);
    assert_eq!(parse_extensions(&bad).err(), Some(BitError::CorruptIndex));
    assert_eq!(parse_extensions(&[0u8; 20]).unwrap().len(), 0);
}

#[test]
fn long_path_lengths_are_stored_as_0xfff() {
    assert_eq!(BitIndexEntryFlags::with_path_len(0x10000).path_len(), 0xFFF);
    assert_eq!(BitIndexEntryFlags::with_path_len(0xFFF).path_len(), 0xFFF);
    assert_eq!(BitIndexEntryFlags::with_path_len(0x1000).path_len(), 0xFFF);
    assert_eq!(BitIndexEntryFlags::with_path_len(12).path_len(), 12);
    let f = BitIndexEntryFlags::with_path_len(0x10000);
    assert_eq!(f.stage(), MergeStage::Normal);
    assert!(!f.extended());
    assert!(!f.assume_valid());
}
