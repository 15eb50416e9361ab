use libbit::hash::SHA1Hash;
use libbit::io::{ByteReader, HashReader, HashWriter};

#[test]
fn test_read_le_varint() {
    let mut bytes = ByteReader::new(vec![0x4d]);
    assert_eq!(bytes.read_le_varint().unwrap(), 0x4d);

    let mut bytes = ByteReader::new(vec![0xc9, 0x8d, 0x7a]);
    assert_eq!(bytes.read_le_varint().unwrap(), 0x1e86c9);

    let mut bytes = ByteReader::new(vec![0b10001101, 0b10001011, 0b01101010]);
    assert_eq!(bytes.read_le_varint().unwrap(), 0x1a858d);
}

#[test]
fn test_read_offset() {
    let mut bytes = ByteReader::new(vec![0b10000001, 0b10010000, 0b00100000]);
    assert_eq!(bytes.read_offset().unwrap(), 34976);
}

#[test]
fn test_read_le_packed_int() {
    let header = 0b11010010;
    let mut bytes = ByteReader::new(vec![0x35, 0x15, 0x82]);
    assert_eq!(bytes.read_le_packed(header).unwrap(), 0x82001500003500);
}

#[test]
fn test_read_le_packed_header_only() {
    let header = 0b10000000;
    let mut bytes = ByteReader::new(vec![]);
    assert_eq!(bytes.read_le_packed(header).unwrap(), 0);
}

#[test]
fn test_hash_reader_hashes_what_it_reads() {
    // sha1("abc")
    let expected: [u8; 20] = [
        0xa9, 0x99, 0x3e, 0x36, 0x47, 0x06, 0x81, 0x6a, 0xba, 0x3e, 0x25, 0x71, 0x78, 0x50, 0xc2,
        0x6c, 0x9c, 0xd0, 0xd8, 0x9d,
    ];
    let mut reader = HashReader::new_sha1(ByteReader::new(b"abc".to_vec()));
    let bytes = reader.read_to_vec();
    assert_eq!(bytes, b"abc".to_vec());
    assert_eq!(reader.finalize_sha1_hash(), SHA1Hash::new(expected));
}

#[test]
fn test_hash_writer_hashes_what_it_writes() {
    let expected: [u8; 20] = [
        0xa9, 0x99, 0x3e, 0x36, 0x47, 0x06, 0x81, 0x6a, 0xba, 0x3e, 0x25, 0x71, 0x78, 0x50, 0xc2,
        0x6c, 0x9c, 0xd0, 0xd8, 0x9d,
    ];
    let mut writer = HashWriter::new_sha1(Vec::new());
    writer.write(b"abc");
    let out = writer.write_hash();
    assert_eq!(&out[..3], b"abc");
    assert_eq!(&out[3..], &expected[..]);
}

#[test]
fn test_read_past_end_is_an_error() {
    let mut bytes = ByteReader::new(vec![0x80]);
    assert!(bytes.read_le_varint().is_err());
}

fn zlib(data: &[u8]) -> Vec<u8> {
    let mut e = flate2::write::ZlibEncoder::new(Vec::new(), flate2::Compression::default());
    std::io::Write::write_all(&mut e, data).unwrap();
    e.finish().unwrap()
}

#[test]
fn zlib_decode_gives_back_what_was_compressed() {
    let data = b"blob 3\0abc".to_vec();
    assert_eq!(libbit::io::zlib_decode(&zlib(&data)).unwrap(), data);
    assert_eq!(libbit::io::zlib_decode(b"not zlib"), Err(libbit::error::BitError::CorruptCompressedData));
}

#[test]
fn stored_object_header_is_read_after_decompression() {
    let data = b"blob 3\0abc".to_vec();
    let (h, n, d) = libbit::obj::read_stored_obj_header(&zlib(&data)).unwrap();
    assert_eq!(h.obj_type, libbit::obj::BitObjType::Blob);
    assert_eq!(h.size, 3);
    assert_eq!(n, 7);
    assert_eq!(d, data);
}

#[test]
fn crc_of_is_the_ieee_crc32() {
    assert_eq!(libbit::hash::crc_of(b"123456789"), 0xCBF43926);
    assert_eq!(libbit::hash::crc_of(b""), 0);
}

#[test]
fn delta_index_maps_each_chunk_to_its_last_offset() {
    let source = b"0123456789abcdef0123456789abcdefXYZ";
    let index = libbit::delta::DeltaIndex::new(source);
    assert_eq!(index.get(b"0123456789abcdef"), Some(16));
    assert_eq!(index.get(b"XYZ"), None);
    let other = libbit::delta::DeltaIndex::new(b"0123456789abcdefABCDEFGHIJKLMNOP");
    assert_eq!(other.get(b"0123456789abcdef"), Some(0));
    assert_eq!(other.get(b"ABCDEFGHIJKLMNOP"), Some(16));
}
