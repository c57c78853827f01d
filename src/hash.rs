//! Content hashes, blob formats and their CID forms.
use vstd::prelude::*;

use crate::encoding::{
    ascii_lower, ascii_upper, base32_bytes, base32_nopad, base32_string, hex_encode, hex_string,
    lemma_base32_case, push_varint, read_varint_u64, to_ascii_lower, to_ascii_upper, varint,
    varint_parse_u64,
};

verus! {

/// What BLAKE3 gives for a byte string.
pub uninterp spec fn blake3_of(data: Seq<u8>) -> Seq<u8>;

/// Relies on blake3::hash (as bao_tree re-exports it): the 32-byte digest of
/// the input.
#[verifier::external_body]
fn blake3_digest(data: &[u8]) -> (r: [u8; 32])
    ensures
        r@ == blake3_of(data@),
{
    *bao_tree::blake3::hash(data).as_bytes()
}

/// What multibase makes of a string: the bytes behind its base prefix, or
/// nothing where the prefix or the digits are not valid.
pub uninterp spec fn multibase_decoded(s: Seq<char>) -> Option<Seq<u8>>;

/// Relies on multibase::decode: the base is picked by the first character and
/// the rest is decoded in it.
#[verifier::external_body]
fn multibase_bytes(s: &str) -> (r: Option<Vec<u8>>)
    ensures
        match multibase_decoded(s@) {
            Some(b) => r matches Some(v) && v@ == b,
            None => r is None,
        },
{
    multibase::decode(s).ok().map(|(_base, bytes)| bytes)
}

/// The failures of reading a hash or a CID.
#[derive(Debug, Clone, Copy, PartialEq, Eq, Structural)]
pub enum CidError {
    /// The text is not base32.
    InvalidBase32,
    /// The text is not in a known multibase encoding.
    InvalidMultibase,
    /// The CID does not have the length of a BLAKE3 CID.
    InvalidLength,
    /// The CID does not start with the raw BLAKE3 prefix.
    InvalidPrefix,
    /// The bytes end before the CID does, or a varint is malformed.
    Truncated,
    /// The CID version is not 1.
    InvalidVersion,
    /// The hash function is not BLAKE3.
    InvalidHashCode,
    /// The hash size is not 32.
    InvalidHashSize,
}

/// A 32-byte BLAKE3 hash.
#[derive(Debug, Clone, Copy, PartialOrd, Ord, Hash)]
pub struct Hash(pub [u8; 32]);

impl PartialEq for Hash {
    fn eq(&self, o: &Hash) -> (r: bool) {
        let mut i: usize = 0;
        while i < 32
            invariant
                0 <= i <= 32,
                self.0@.subrange(0, i as int) == o.0@.subrange(0, i as int),
            decreases 32 - i,
        {
            if self.0[i] != o.0[i] {
                return false;
            }
            proof {
                assert(self.0@.subrange(0, i + 1) =~= self.0@.subrange(0, i as int).push(self.0@[i as int]));
                assert(o.0@.subrange(0, i + 1) =~= o.0@.subrange(0, i as int).push(o.0@[i as int]));
            }
            i = i + 1;
        }
        proof {
            assert(self.0@ =~= self.0@.subrange(0, 32));
            assert(o.0@ =~= o.0@.subrange(0, 32));
        }
        true
    }
}

impl vstd::std_specs::cmp::PartialEqSpecImpl for Hash {
    open spec fn obeys_eq_spec() -> bool {
        true
    }

    open spec fn eq_spec(&self, o: &Hash) -> bool {
        self.0@ == o.0@
    }
}

impl Eq for Hash {

}

/// Two hashes with the same bytes are the same hash.
pub proof fn lemma_hash_ext(a: Hash, b: Hash)
    requires
        a.0@ == b.0@,
    ensures
        a == b,
{
    assert(a.0 =~= b.0);
}

/// The four bytes that open a raw BLAKE3 CID: version 1, raw codec, BLAKE3,
/// 32 bytes.
pub open spec fn cid_prefix() -> Seq<u8> {
    seq![0x01u8, 0x55, 0x1e, 0x20]
}

/// True when the bytes are a raw BLAKE3 CID.
pub open spec fn is_hash_cid(b: Seq<u8>) -> bool {
    b.len() == 36 && b.subrange(0, 4) == cid_prefix()
}

/// The error for bytes that are not a raw BLAKE3 CID.
pub open spec fn hash_cid_error(b: Seq<u8>) -> CidError {
    if b.len() != 36 {
        CidError::InvalidLength
    } else {
        CidError::InvalidPrefix
    }
}

/// The outcome of reading a hash from CID bytes.
pub open spec fn hash_from_cid(b: Seq<u8>, r: Result<Hash, CidError>) -> bool {
    if is_hash_cid(b) {
        r matches Ok(h) && h.0@ == b.subrange(4, 36)
    } else {
        r == Err::<Hash, CidError>(hash_cid_error(b))
    }
}

/// What reading the text `s` as a hash gives. A 59-character string that
/// starts with `b` is read as base32 of either case; any other string as
/// multibase.
pub open spec fn parse_outcome(s: Seq<char>, r: Result<Hash, CidError>) -> bool {
    &&& s.len() == 59 && s[0] == 'b' ==> {
        let t = ascii_upper(s.subrange(1, 59));
        &&& (forall|b: Seq<u8>| #[trigger] base32_nopad(b) != t) ==> r == Err::<Hash, CidError>(
            CidError::InvalidBase32,
        )
        &&& forall|b: Seq<u8>| #[trigger] base32_nopad(b) == t ==> hash_from_cid(b, r)
    }
    &&& !(s.len() == 59 && s[0] == 'b') ==> match multibase_decoded(s) {
        Some(b) => hash_from_cid(b, r),
        None => r == Err::<Hash, CidError>(CidError::InvalidMultibase),
    }
}

impl Hash {
    pub open spec fn bytes(self) -> Seq<u8> {
        self.0@
    }

    /// The CID bytes of this hash.
    pub open spec fn cid_bytes(self) -> Seq<u8> {
        cid_prefix() + self.0@
    }

    /// The text form: `b` and the CID in lower-case unpadded base32.
    pub open spec fn text(self) -> Seq<char> {
        seq!['b'] + ascii_lower(base32_nopad(self.cid_bytes()))
    }

    /// Calculate the hash of the provided bytes.
    pub fn new(buf: &[u8]) -> (r: Hash)
        ensures
            r.0@ == blake3_of(buf@),
    {
        Hash(blake3_digest(buf))
    }

    /// The hash with the given bytes.
    pub fn from_bytes(bytes: [u8; 32]) -> (r: Hash)
        ensures
            r.0 == bytes,
    {
        Hash(bytes)
    }

    /// Bytes of the hash.
    pub fn as_bytes(&self) -> (r: &[u8; 32])
        ensures
            r@ == self.0@,
    {
        &self.0
    }

    /// The CID of the hash as bytes.
    pub fn as_cid_bytes(&self) -> (r: [u8; 36])
        ensures
            r@ == self.cid_bytes(),
    {
        let mut res = [0u8; 36];
        res[0] = 0x01;
        res[1] = 0x55;
        res[2] = 0x1e;
        res[3] = 0x20;
        let mut i: usize = 0;
        while i < 32
            invariant
                0 <= i <= 32,
                res@.len() == 36,
                res@.subrange(0, 4) == cid_prefix(),
                forall|j: int| 0 <= j < i ==> res@[4 + j] == self.0@[j],
            decreases 32 - i,
        {
            res[4 + i] = self.0[i];
            i = i + 1;
        }
        assert(res@ =~= self.cid_bytes());
        res
    }

    /// Reads a hash from the bytes of a raw BLAKE3 CID.
    pub fn from_cid_bytes(bytes: &[u8]) -> (r: Result<Hash, CidError>)
        ensures
            hash_from_cid(bytes@, r),
    {
        if bytes.len() != 36 {
            return Err(CidError::InvalidLength);
        }
        if bytes[0] != 0x01 || bytes[1] != 0x55 || bytes[2] != 0x1e || bytes[3] != 0x20 {
            proof {
                if bytes@.subrange(0, 4) == cid_prefix() {
                    assert(bytes@[0] == bytes@.subrange(0, 4)[0]);
                    assert(bytes@[1] == bytes@.subrange(0, 4)[1]);
                    assert(bytes@[2] == bytes@.subrange(0, 4)[2]);
                    assert(bytes@[3] == bytes@.subrange(0, 4)[3]);
                }
            }
            return Err(CidError::InvalidPrefix);
        }
        assert(bytes@.subrange(0, 4) =~= cid_prefix());
        let mut h = [0u8; 32];
        let mut i: usize = 0;
        while i < 32
            invariant
                0 <= i <= 32,
                bytes@.len() == 36,
                h@.len() == 32,
                forall|j: int| 0 <= j < i ==> h@[j] == bytes@[4 + j],
            decreases 32 - i,
        {
            h[i] = bytes[4 + i];
            i = i + 1;
        }
        assert(h@ =~= bytes@.subrange(4, 36));
        Ok(Hash(h))
    }

    /// The hash as 64 lower-case hex digits.
    pub fn to_hex(&self) -> (r: String)
        ensures
            r@ == hex_encode(self.0@),
    {
        hex_string(&self.0)
    }

    /// The text form of the hash: `b` followed by its CID in lower-case
    /// unpadded base32.
    pub fn to_string(&self) -> (r: String)
        ensures
            r@ == self.text(),
    {
        let cid = self.as_cid_bytes();
        let enc = base32_string(&cid);
        let low = to_ascii_lower(enc.as_str());
        let mut res = String::from_str("b");
        res.append(low.as_str());
        proof {
            reveal_strlit("b");
            assert(res@ =~= self.text());
        }
        res
    }

    /// Reads a hash from its text form. A 59-character string that starts with
    /// `b` is read as base32 of either case; any other string as multibase.
    pub fn parse(s: &str) -> (r: Result<Hash, CidError>)
        ensures
            parse_outcome(s@, r),
    {
        if s.unicode_len() == 59 && s.get_char(0) == 'b' {
            let t = s.substring_char(1, 59);
            let up = to_ascii_upper(t);
            match base32_bytes(up.as_str()) {
                Some(b) => Hash::from_cid_bytes(b.as_slice()),
                None => Err(CidError::InvalidBase32),
            }
        } else {
            match multibase_bytes(s) {
                Some(b) => Hash::from_cid_bytes(b.as_slice()),
                None => Err(CidError::InvalidMultibase),
            }
        }
    }
}

impl core::str::FromStr for Hash {
    type Err = CidError;

    fn from_str(s: &str) -> Result<Hash, CidError> {
        Hash::parse(s)
    }
}

impl From<[u8; 32]> for Hash {
    fn from(value: [u8; 32]) -> (r: Hash) {
        Hash(value)
    }
}

impl vstd::std_specs::convert::FromSpecImpl<[u8; 32]> for Hash {
    open spec fn obeys_from_spec() -> bool {
        true
    }

    open spec fn from_spec(v: [u8; 32]) -> Hash {
        Hash(v)
    }
}

/// The text form of a hash reads back as the same hash: for every 32-byte
/// array `a`, parsing the text of `Hash(a)` gives `Hash(a)`.
pub proof fn lemma_hash_text_round_trip(a: [u8; 32], r: Result<Hash, CidError>)
    requires
        parse_outcome(Hash(a).text(), r),
    ensures
        r == Ok::<Hash, CidError>(Hash(a)),
{
    let h = Hash(a);
    let s = h.text();
    let c = h.cid_bytes();
    let e = base32_nopad(c);
    assert(e.len() == 58);
    assert(s.len() == 59);
    assert(s[0] == 'b');
    assert(s.subrange(1, 59) =~= ascii_lower(e));
    lemma_base32_case(c);
    assert(base32_nopad(c) == ascii_upper(s.subrange(1, 59)));
    assert(hash_from_cid(c, r));
    assert(c.subrange(0, 4) =~= cid_prefix());
    assert(c.subrange(4, 36) =~= h.0@);
    let r_h = r->Ok_0;
    lemma_hash_ext(r_h, h);
}

/// A format identifier: the multicodec of the content that a hash refers to.
#[derive(Debug, Clone, Copy, PartialEq, Eq, Structural, PartialOrd, Ord, Hash)]
pub struct BlobFormat(pub u64);

/// The multicodec of raw binary.
pub const RAW_CODEC: u64 = 0x55;

/// The code of iroh collections.
pub const COLLECTION_CODEC: u64 = 0x73;

impl BlobFormat {
    /// Raw format.
    pub fn raw() -> (r: BlobFormat)
        ensures
            r.0 == RAW_CODEC,
    {
        BlobFormat(RAW_CODEC)
    }

    /// Collection format.
    pub fn collection() -> (r: BlobFormat)
        ensures
            r.0 == COLLECTION_CODEC,
    {
        BlobFormat(COLLECTION_CODEC)
    }

    /// True if this is a raw blob.
    pub fn is_raw(&self) -> (r: bool)
        ensures
            r == (self.0 == RAW_CODEC),
    {
        self.0 == RAW_CODEC
    }

    /// True if this is an iroh collection.
    pub fn is_collection(&self) -> (r: bool)
        ensures
            r == (self.0 == COLLECTION_CODEC),
    {
        self.0 == COLLECTION_CODEC
    }

    /// The format code as an integer.
    pub fn code(&self) -> (r: u64)
        ensures
            r == self.0,
    {
        self.0
    }
}

/// A hash and the format of the content it refers to.
#[derive(Debug, Clone, Copy, PartialOrd, Ord, Hash)]
pub struct HashAndFormat {
    pub hash: Hash,
    pub format: BlobFormat,
}

impl PartialEq for HashAndFormat {
    fn eq(&self, o: &HashAndFormat) -> (r: bool) {
        self.hash == o.hash && self.format == o.format
    }
}

impl vstd::std_specs::cmp::PartialEqSpecImpl for HashAndFormat {
    open spec fn obeys_eq_spec() -> bool {
        true
    }

    open spec fn eq_spec(&self, o: &HashAndFormat) -> bool {
        self.hash.0@ == o.hash.0@ && self.format == o.format
    }
}

impl Eq for HashAndFormat {

}

/// The multicodec of the BLAKE3 hash function.
pub const BLAKE3_CODE: u64 = 0x1e;

/// The bytes of a CID version 1 with the given codec and a 32-byte BLAKE3
/// hash: four varints and the hash.
pub open spec fn cid_encoding(codec: u64, hash: Seq<u8>) -> Seq<u8> {
    varint(1) + varint(codec as nat) + varint(0x1e) + varint(32) + hash
}

/// The fields of CID bytes read as four varints and 32 hash bytes, with the
/// number of bytes read; trailing bytes are left alone.
pub open spec fn cid_fields(b: Seq<u8>) -> Option<(nat, nat, nat, nat, Seq<u8>)> {
    match varint_parse_u64(b) {
        None => None,
        Some((v, n1)) => {
            let b1 = b.subrange(n1 as int, b.len() as int);
            match varint_parse_u64(b1) {
                None => None,
                Some((c, n2)) => {
                    let b2 = b1.subrange(n2 as int, b1.len() as int);
                    match varint_parse_u64(b2) {
                        None => None,
                        Some((h, n3)) => {
                            let b3 = b2.subrange(n3 as int, b2.len() as int);
                            match varint_parse_u64(b3) {
                                None => None,
                                Some((z, n4)) => {
                                    let b4 = b3.subrange(n4 as int, b3.len() as int);
                                    if b4.len() < 32 {
                                        None
                                    } else {
                                        Some((v, c, h, z, b4.subrange(0, 32)))
                                    }
                                },
                            }
                        },
                    }
                },
            }
        },
    }
}

/// The outcome of reading a CID from bytes.
pub open spec fn cid_outcome(b: Seq<u8>, r: Result<Cid, CidError>) -> bool {
    match cid_fields(b) {
        None => r == Err::<Cid, CidError>(CidError::Truncated),
        Some((v, c, h, z, d)) => if v != 1 {
            r == Err::<Cid, CidError>(CidError::InvalidVersion)
        } else if h != 0x1e {
            r == Err::<Cid, CidError>(CidError::InvalidHashCode)
        } else if z != 32 {
            r == Err::<Cid, CidError>(CidError::InvalidHashSize)
        } else {
            r matches Ok(cid) && cid.0.0@ == d && cid.1.0 == c
        },
    }
}

/// A hash and format pair.
#[derive(Debug, Clone, Copy, PartialEq, Eq, PartialOrd, Ord, Hash)]
pub struct Cid(pub Hash, pub BlobFormat);

impl Cid {
    /// The CID bytes: version 1, the format as codec, BLAKE3, 32, the hash.
    pub fn to_cid_bytes(&self) -> (r: Vec<u8>)
        ensures
            r@ == cid_encoding(self.1.0, self.0.0@),
    {
        let mut out: Vec<u8> = Vec::new();
        push_varint(&mut out, 1);
        push_varint(&mut out, self.1.0);
        push_varint(&mut out, BLAKE3_CODE);
        push_varint(&mut out, 32);
        let mut i: usize = 0;
        let ghost start = out@;
        while i < 32
            invariant
                0 <= i <= 32,
                out@ == start + self.0.0@.subrange(0, i as int),
            decreases 32 - i,
        {
            out.push(self.0.0[i]);
            proof {
                assert(self.0.0@.subrange(0, i + 1) =~= self.0.0@.subrange(0, i as int).push(self.0.0@[i as int]));
            }
            i = i + 1;
        }
        proof {
            assert(self.0.0@.subrange(0, 32) =~= self.0.0@);
            assert(out@ =~= cid_encoding(self.1.0, self.0.0@));
        }
        out
    }

    /// Reads a CID from bytes; bytes after the hash are ignored.
    pub fn from_cid_bytes(bytes: &[u8]) -> (r: Result<Cid, CidError>)
        ensures
            cid_outcome(bytes@, r),
    {
        let ghost b = bytes@;
        let len = bytes.len();
        let (v, n1) = match read_varint_u64(bytes, 0) {
            Some(x) => x,
            None => {
                assert(b.subrange(0, b.len() as int) =~= b);
                return Err(CidError::Truncated);
            },
        };
        assert(b.subrange(0, b.len() as int) =~= b);
        proof {
            crate::encoding::lemma_varint_parse_len(b);
        }
        let ghost b1 = b.subrange(n1 as int, b.len() as int);
        let (c, n2) = match read_varint_u64(bytes, n1) {
            Some(x) => x,
            None => return Err(CidError::Truncated),
        };
        proof {
            crate::encoding::lemma_varint_parse_len(b1);
            assert(varint_parse_u64(b1) is Some);
            assert(n2 <= b1.len());
        }
        let pos2 = n1 + n2;
        let ghost b2 = b1.subrange(n2 as int, b1.len() as int);
        assert(b2 =~= b.subrange(pos2 as int, b.len() as int));
        let (h, n3) = match read_varint_u64(bytes, pos2) {
            Some(x) => x,
            None => return Err(CidError::Truncated),
        };
        proof {
            crate::encoding::lemma_varint_parse_len(b2);
            assert(varint_parse_u64(b2) is Some);
            assert(n3 <= b2.len());
        }
        let pos3 = pos2 + n3;
        let ghost b3 = b2.subrange(n3 as int, b2.len() as int);
        assert(b3 =~= b.subrange(pos3 as int, b.len() as int));
        let (z, n4) = match read_varint_u64(bytes, pos3) {
            Some(x) => x,
            None => return Err(CidError::Truncated),
        };
        proof {
            crate::encoding::lemma_varint_parse_len(b3);
            assert(varint_parse_u64(b3) is Some);
            assert(n4 <= b3.len());
        }
        let pos4 = pos3 + n4;
        let ghost b4 = b3.subrange(n4 as int, b3.len() as int);
        assert(b4 =~= b.subrange(pos4 as int, b.len() as int));
        if len - pos4 < 32 {
            return Err(CidError::Truncated);
        }
        if v != 1 {
            return Err(CidError::InvalidVersion);
        }
        if h != BLAKE3_CODE {
            return Err(CidError::InvalidHashCode);
        }
        if z != 32 {
            return Err(CidError::InvalidHashSize);
        }
        let mut d = [0u8; 32];
        let mut i: usize = 0;
        while i < 32
            invariant
                0 <= i <= 32,
                pos4 + 32 <= len,
                len == bytes@.len(),
                d@.len() == 32,
                forall|j: int| 0 <= j < i ==> d@[j] == bytes@[pos4 + j],
            decreases 32 - i,
        {
            d[i] = bytes[pos4 + i];
            i = i + 1;
        }
        assert(d@ =~= b4.subrange(0, 32));
        Ok(Cid(Hash(d), BlobFormat(c)))
    }

    /// The text form: `b` and the CID bytes in lower-case unpadded base32.
    pub fn to_string(&self) -> (r: String)
        ensures
            r@ == seq!['b'] + ascii_lower(base32_nopad(cid_encoding(self.1.0, self.0.0@))),
    {
        let bytes = self.to_cid_bytes();
        let enc = base32_string(bytes.as_slice());
        let low = to_ascii_lower(enc.as_str());
        let mut res = String::from_str("b");
        res.append(low.as_str());
        proof {
            reveal_strlit("b");
            assert(res@ =~= seq!['b'] + ascii_lower(base32_nopad(cid_encoding(self.1.0, self.0.0@))));
        }
        res
    }
}

/// The CID of a raw blob is the CID of its hash.
pub proof fn lemma_raw_cid_is_hash_cid(h: Hash)
    ensures
        cid_encoding(RAW_CODEC, h.0@) == h.cid_bytes(),
{
    reveal_with_fuel(varint, 2);
    assert(cid_encoding(RAW_CODEC, h.0@) =~= h.cid_bytes());
}

} // verus!
