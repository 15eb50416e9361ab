//! Object ids (SHA-1 hashes) and the hash functions of the object store.
use sha1::Digest;
use vstd::prelude::*;

verus! {

/// Number of bytes in an object id.
pub const BIT_HASH_SIZE: usize = 20;

/// A SHA-1 hash, used as the id of every object.
#[derive(Clone, Copy, Debug)]
pub struct SHA1Hash {
    bytes: [u8; 20],
}

/// The id of an object.
pub type Oid = SHA1Hash;

impl View for SHA1Hash {
    type V = Seq<u8>;

    closed spec fn view(&self) -> Seq<u8> {
        self.bytes@
    }
}

impl PartialEq for SHA1Hash {
    fn eq(&self, other: &Self) -> (r: bool) {
        bytes20_eq(&self.bytes, &other.bytes)
    }
}

impl Eq for SHA1Hash {
}

impl vstd::std_specs::cmp::PartialEqSpecImpl for SHA1Hash {
    open spec fn obeys_eq_spec() -> bool {
        true
    }

    open spec fn eq_spec(&self, other: &SHA1Hash) -> bool {
        self@ == other@
    }
}

fn bytes20_eq(a: &[u8; 20], b: &[u8; 20]) -> (r: bool)
    ensures
        r == (a@ == b@),
{
    let mut i: usize = 0;
    while i < 20
        invariant
            0 <= i <= 20,
            a@.len() == 20,
            b@.len() == 20,
            forall|j: int| 0 <= j < i ==> a@[j] == b@[j],
        decreases 20 - i,
    {
        if a[i] != b[i] {
            return false;
        }
        i = i + 1;
    }
    assert(a@ =~= b@);
    true
}

/// Compares two byte slices for equality.
pub fn bytes_eq(a: &[u8], b: &[u8]) -> (r: bool)
    ensures
        r == (a@ == b@),
{
    if a.len() != b.len() {
        return false;
    }
    let mut i: usize = 0;
    while i < a.len()
        invariant
            0 <= i <= a@.len(),
            a@.len() == b@.len(),
            forall|j: int| 0 <= j < i ==> a@[j] == b@[j],
        decreases a@.len() - i,
    {
        if a[i] != b[i] {
            return false;
        }
        i = i + 1;
    }
    assert(a@ =~= b@);
    true
}

/// The id of the empty tree.
pub open spec fn empty_tree_hash() -> Seq<u8> {
    seq![
        0x4bu8, 0x82, 0x5d, 0xc6, 0x42, 0xcb, 0x6e, 0xb9, 0xa0, 0x60, 0xe5, 0x4b, 0xf8,
        0xd6, 0x92, 0x88, 0xfb, 0xee, 0x49, 0x04,
    ]
}

/// The byte sequence of twenty zero bytes: the id that stands for "unknown".
pub open spec fn zero_hash() -> Seq<u8> {
    Seq::new(20, |i: int| 0u8)
}

impl SHA1Hash {
    /// The hash of an empty file (e69de29bb2d1d6434b8b29ae775ad8c2e48c5391).
    pub fn empty_blob() -> (r: Self)
        ensures
            r@ == seq![
                0xe6u8, 0x9d, 0xe2, 0x9b, 0xb2, 0xd1, 0xd6, 0x43, 0x4b, 0x8b, 0x29, 0xae, 0x77,
                0x5a, 0xd8, 0xc2, 0xe4, 0x8c, 0x53, 0x91,
            ],
    {
        let r = Self {
            bytes: [
                0xe6, 0x9d, 0xe2, 0x9b, 0xb2, 0xd1, 0xd6, 0x43, 0x4b, 0x8b, 0x29, 0xae, 0x77, 0x5a,
                0xd8, 0xc2, 0xe4, 0x8c, 0x53, 0x91,
            ],
        };
        assert(r@ =~= seq![
            0xe6u8, 0x9d, 0xe2, 0x9b, 0xb2, 0xd1, 0xd6, 0x43, 0x4b, 0x8b, 0x29, 0xae, 0x77,
            0x5a, 0xd8, 0xc2, 0xe4, 0x8c, 0x53, 0x91,
        ]);
        r
    }

    /// The hash of an empty tree (4b825dc642cb6eb9a060e54bf8d69288fbee4904).
    pub fn empty_tree() -> (r: Self)
        ensures
            r@ == empty_tree_hash(),
    {
        let r = Self {
            bytes: [
                0x4b, 0x82, 0x5d, 0xc6, 0x42, 0xcb, 0x6e, 0xb9, 0xa0, 0x60, 0xe5, 0x4b, 0xf8, 0xd6,
                0x92, 0x88, 0xfb, 0xee, 0x49, 0x04,
            ],
        };
        assert(r@ =~= seq![
            0x4bu8, 0x82, 0x5d, 0xc6, 0x42, 0xcb, 0x6e, 0xb9, 0xa0, 0x60, 0xe5, 0x4b, 0xf8,
            0xd6, 0x92, 0x88, 0xfb, 0xee, 0x49, 0x04,
        ]);
        r
    }

    /// The special value that represents an unknown hash (twenty zero bytes).
    pub fn unknown() -> (r: Self)
        ensures
            r@ == zero_hash(),
    {
        let r = Self { bytes: [0u8; 20] };
        assert(r@ =~= zero_hash());
        r
    }

    /// An id is twenty bytes.
    pub proof fn lemma_len(&self)
        ensures
            self@.len() == 20,
    {
    }

    pub fn new(bytes: [u8; 20]) -> (r: Self)
        ensures
            r@ == bytes@,
    {
        Self { bytes }
    }

    pub fn as_bytes(&self) -> (r: &[u8; 20])
        ensures
            r@ == self@,
    {
        &self.bytes
    }

    pub fn is_unknown(self) -> (r: bool)
        ensures
            r == (self@ == zero_hash()),
    {
        let z = Self::unknown();
        bytes20_eq(&self.bytes, &z.bytes)
    }

    pub fn is_known(self) -> (r: bool)
        ensures
            r == (self@ != zero_hash()),
    {
        !self.is_unknown()
    }

    /// Compares two hashes.
    pub fn same(&self, other: &Self) -> (r: bool)
        ensures
            r == (self@ == other@),
    {
        bytes20_eq(&self.bytes, &other.bytes)
    }

    /// Lowercase hexadecimal rendering of the hash.
    pub fn to_hex(&self) -> (r: String)
        ensures
            r@ == hex_chars(self@),
    {
        hex_encode(self.bytes.as_slice())
    }

    /// Splits the hash into the hex of its first byte and the hex of the remaining bytes,
    /// as used to find `<directory>/<file>` of a loose object.
    pub fn split(&self) -> (r: (String, String))
        ensures
            r.0@ == hex_chars(self@.take(1)),
            r.1@ == hex_chars(self@.skip(1)),
    {
        let first = slice_range(self.bytes.as_slice(), 0, 1);
        let rest = slice_range(self.bytes.as_slice(), 1, 20);
        proof {
            assert(first@ =~= self@.take(1));
            assert(rest@ =~= self@.skip(1));
        }
        (hex_encode(first.as_slice()), hex_encode(rest.as_slice()))
    }

    /// Parses a hash from its 40 character hexadecimal form.
    pub fn from_hex(s: &[u8]) -> (r: Result<Self, crate::error::BitError>)
        ensures
            r is Ok <==> (s@.len() == 40 && all_hex_digits(s@)),
            r matches Ok(h) ==> h@ == hex_value(s@),
    {
        if s.len() != 40 {
            return Err(crate::error::BitError::InvalidHex);
        }
        let mut i: usize = 0;
        while i < s.len()
            invariant
                0 <= i <= s@.len(),
                forall|j: int| 0 <= j < i ==> is_hex_digit(#[trigger] s@[j]),
            decreases s@.len() - i,
        {
            if !is_hex_digit_exec(s[i]) {
                return Err(crate::error::BitError::InvalidHex);
            }
            i = i + 1;
        }
        let mut buf = [0u8; 20];
        match hex_decode_to_slice(s, &mut buf) {
            Ok(()) => Ok(Self { bytes: buf }),
            Err(_) => Err(crate::error::BitError::InvalidHex),
        }
    }
}

/// Copies `s[start..end]` into a new vector.
pub fn slice_range(s: &[u8], start: usize, end: usize) -> (r: Vec<u8>)
    requires
        start <= end <= s@.len(),
    ensures
        r@ == s@.subrange(start as int, end as int),
{
    let mut r: Vec<u8> = Vec::new();
    let mut i = start;
    while i < end
        invariant
            start <= i <= end,
            end <= s@.len(),
            r@ == s@.subrange(start as int, i as int),
        decreases end - i,
    {
        r.push(s[i]);
        i = i + 1;
        proof {
            assert(r@ =~= s@.subrange(start as int, i as int));
        }
    }
    r
}

/// The lowercase hex digit of a value below 16.
pub open spec fn hex_digit_char(v: u8) -> char {
    if v < 10 {
        ((v + 48) as u8) as char
    } else {
        ((v + 87) as u8) as char
    }
}

/// Lowercase hexadecimal characters of a byte sequence, two per byte, high nibble first.
pub open spec fn hex_chars(s: Seq<u8>) -> Seq<char>
    decreases s.len(),
{
    if s.len() == 0 {
        Seq::empty()
    } else {
        seq![hex_digit_char(s[0] / 16), hex_digit_char(s[0] % 16)] + hex_chars(s.drop_first())
    }
}

/// An ASCII hex digit (either case).
pub open spec fn is_hex_digit(c: u8) -> bool {
    (48 <= c <= 57) || (97 <= c <= 102) || (65 <= c <= 70)
}

pub open spec fn all_hex_digits(s: Seq<u8>) -> bool {
    forall|i: int| 0 <= i < s.len() ==> is_hex_digit(#[trigger] s[i])
}

/// Value of an ASCII hex digit.
pub open spec fn hex_digit_value(c: u8) -> u8 {
    if 48 <= c <= 57 {
        (c - 48) as u8
    } else if 97 <= c <= 102 {
        (c - 87) as u8
    } else {
        (c - 55) as u8
    }
}

/// Bytes denoted by a sequence of hex digit pairs.
pub open spec fn hex_value(s: Seq<u8>) -> Seq<u8> {
    Seq::new(
        s.len() / 2,
        |i: int| (hex_digit_value(s[2 * i]) * 16 + hex_digit_value(s[2 * i + 1])) as u8,
    )
}

fn is_hex_digit_exec(c: u8) -> (r: bool)
    ensures
        r == is_hex_digit(c),
{
    (48 <= c && c <= 57) || (97 <= c && c <= 102) || (65 <= c && c <= 70)
}

/// `hex::encode`: lowercase hexadecimal, two characters per byte.
#[verifier::external_body]
fn hex_encode(bytes: &[u8]) -> (r: String)
    ensures
        r@ == hex_chars(bytes@),
{
    hex::encode(bytes)
}

/// `hex::decode_to_slice`: succeeds exactly when the input has twice as many characters as the
/// output has bytes and all of them are hex digits; the output then holds the decoded bytes.
#[verifier::external_body]
fn hex_decode_to_slice(s: &[u8], out: &mut [u8; 20]) -> (r: Result<(), hex::FromHexError>)
    ensures
        r is Ok <==> (s@.len() == 40 && all_hex_digits(s@)),
        r is Ok ==> final(out)@ == hex_value(s@),
{
    hex::decode_to_slice(s, out)
}

#[verifier::external_type_specification]
#[verifier::external_body]
pub struct ExFromHexError(hex::FromHexError);

/// The SHA-1 digest of a byte sequence (computed by the `sha1` crate).
pub uninterp spec fn spec_sha1(data: Seq<u8>) -> Seq<u8>;

/// `sha1::Sha1` digest of `bytes`.
#[verifier::external_body]
pub fn hash_bytes(bytes: &[u8]) -> (r: SHA1Hash)
    ensures
        r@ == spec_sha1(bytes@),
{
    let mut hasher = sha1::Sha1::new();
    hasher.update(bytes);
    SHA1Hash::new(hasher.finalize().into())
}

/// One bit step of the reflected CRC-32 (IEEE polynomial, reversed: 0xEDB88320).
pub open spec fn crc32_bit(c: u32) -> u32 {
    if c & 1 == 1 {
        (c >> 1u32) ^ 0xEDB88320u32
    } else {
        c >> 1u32
    }
}

/// The CRC-32 register after taking in the byte `b`.
pub open spec fn crc32_byte(c: u32, b: u8) -> u32 {
    let x = c ^ (b as u32);
    crc32_bit(crc32_bit(crc32_bit(crc32_bit(crc32_bit(crc32_bit(crc32_bit(crc32_bit(x))))))))
}

/// The CRC-32 register after taking in the bytes of `s`, from the all-ones start.
pub open spec fn crc32_register(s: Seq<u8>) -> u32
    decreases s.len(),
{
    if s.len() == 0 {
        0xFFFF_FFFFu32
    } else {
        crc32_byte(crc32_register(s.drop_last()), s.last())
    }
}

/// The CRC-32 (IEEE) checksum of a byte sequence.
pub open spec fn spec_crc32(data: Seq<u8>) -> u32 {
    crc32_register(data) ^ 0xFFFF_FFFFu32
}

/// The `flate2::Crc` checksum of `bytes` (computed by `crc32fast`, the IEEE CRC-32); the
/// contract claims it is the standard reflected CRC-32 of the bytes.
#[verifier::external_body]
pub fn crc_of(bytes: &[u8]) -> (r: u32)
    ensures
        r == spec_crc32(bytes@),
{
    let mut crc = flate2::Crc::new();
    crc.update(bytes);
    crc.sum()
}

} // verus!
