//! Byte and text encodings: lowercase hex, RFC 4648 base32 without padding,
//! LEB128 varints and fixed-width integers.
use vstd::prelude::*;

verus! {

/// The sixteen lowercase hex digits.
pub open spec fn hex_alphabet() -> Seq<char> {
    seq!['0', '1', '2', '3', '4', '5', '6', '7', '8', '9', 'a', 'b', 'c', 'd', 'e', 'f']
}

/// True for the characters that hex accepts in input, either case.
pub open spec fn is_hex_char(c: char) -> bool {
    ('0' <= c && c <= '9') || ('a' <= c && c <= 'f') || ('A' <= c && c <= 'F')
}

/// The value of a hex digit of either case.
pub open spec fn hex_value(c: char) -> int {
    if '0' <= c && c <= '9' {
        c as int - '0' as int
    } else if 'a' <= c && c <= 'f' {
        c as int - 'a' as int + 10
    } else {
        c as int - 'A' as int + 10
    }
}

/// Two lowercase hex digits per byte, the high nibble first.
pub open spec fn hex_encode(b: Seq<u8>) -> Seq<char> {
    Seq::new(
        2 * b.len(),
        |i: int|
            if i % 2 == 0 {
                hex_alphabet()[b[i / 2] as int / 16]
            } else {
                hex_alphabet()[b[i / 2] as int % 16]
            },
    )
}

/// True when every character is a hex digit.
pub open spec fn all_hex(s: Seq<char>) -> bool {
    forall|i: int| 0 <= i < s.len() ==> is_hex_char(#[trigger] s[i])
}

/// The bytes that a string of hex digit pairs stands for.
pub open spec fn hex_decode(s: Seq<char>) -> Seq<u8> {
    Seq::new(s.len() / 2, |i: int| (16 * hex_value(s[2 * i]) + hex_value(s[2 * i + 1])) as u8)
}

/// Relies on hex::encode: two lowercase digits for each byte, high nibble first.
#[verifier::external_body]
pub(crate) fn hex_string(b: &[u8]) -> (r: String)
    ensures
        r@ == hex_encode(b@),
{
    hex::encode(b)
}

/// Relies on hex::decode_to_slice into a 32-byte buffer: it succeeds exactly when
/// the input holds 64 hex digits of either case.
#[verifier::external_body]
pub(crate) fn hex_decode_32(s: &str) -> (r: Option<[u8; 32]>)
    ensures
        r is Some <==> (s@.len() == 64 && all_hex(s@)),
        r matches Some(a) ==> a@ == hex_decode(s@),
{
    let mut out = [0u8; 32];
    hex::decode_to_slice(s, &mut out).ok().map(|_| out)
}

/// Relies on hex::decode_to_slice into a 16-byte buffer: it succeeds exactly when
/// the input holds 32 hex digits of either case.
#[verifier::external_body]
pub(crate) fn hex_decode_16(s: &str) -> (r: Option<[u8; 16]>)
    ensures
        r is Some <==> (s@.len() == 32 && all_hex(s@)),
        r matches Some(a) ==> a@ == hex_decode(s@),
{
    let mut out = [0u8; 16];
    hex::decode_to_slice(s, &mut out).ok().map(|_| out)
}

/// Relies on hex::decode: it succeeds exactly when the input is an even number
/// of hex digits of either case.
#[verifier::external_body]
pub(crate) fn hex_decode_vec(s: &str) -> (r: Option<Vec<u8>>)
    ensures
        r is Some <==> (s@.len() % 2 == 0 && all_hex(s@)),
        r matches Some(v) ==> v@ == hex_decode(s@),
{
    hex::decode(s).ok()
}

/// Decoding what was encoded gives the bytes back.
pub proof fn lemma_hex_round_trip(b: Seq<u8>)
    ensures
        all_hex(hex_encode(b)),
        hex_decode(hex_encode(b)) == b,
{
    let e = hex_encode(b);
    assert forall|i: int| 0 <= i < e.len() implies is_hex_char(#[trigger] e[i]) by {
        let v = if i % 2 == 0 { b[i / 2] as int / 16 } else { b[i / 2] as int % 16 };
        assert(0 <= v < 16);
        assert(is_hex_char(hex_alphabet()[v]));
    }
    assert forall|i: int| 0 <= i < b.len() implies #[trigger] hex_decode(e)[i] == b[i] by {
        let hi = b[i] as int / 16;
        let lo = b[i] as int % 16;
        assert(e[2 * i] == hex_alphabet()[hi]);
        assert(e[2 * i + 1] == hex_alphabet()[lo]);
        assert(hex_value(hex_alphabet()[hi]) == hi);
        assert(hex_value(hex_alphabet()[lo]) == lo);
    }
    assert(hex_decode(e) =~= b);
}


/// The base32 alphabet of RFC 4648.
pub open spec fn base32_alphabet() -> Seq<char> {
    seq![
        'A', 'B', 'C', 'D', 'E', 'F', 'G', 'H', 'I', 'J', 'K', 'L', 'M', 'N', 'O', 'P',
        'Q', 'R', 'S', 'T', 'U', 'V', 'W', 'X', 'Y', 'Z', '2', '3', '4', '5', '6', '7',
    ]
}

/// Bit `k` of a byte string, most significant bit of each byte first; zero
/// past the end.
pub open spec fn bit_at(b: Seq<u8>, k: int) -> int {
    if 0 <= k < 8 * b.len() {
        (b[k / 8] as int / seq![128int, 64, 32, 16, 8, 4, 2, 1][k % 8]) % 2
    } else {
        0
    }
}

/// The value of the `i`-th five-bit group.
pub open spec fn base32_symbol(b: Seq<u8>, i: int) -> int {
    16 * bit_at(b, 5 * i) + 8 * bit_at(b, 5 * i + 1) + 4 * bit_at(b, 5 * i + 2) + 2 * bit_at(
        b,
        5 * i + 3,
    ) + bit_at(b, 5 * i + 4)
}

/// Unpadded base32 of RFC 4648: one symbol per five bits, the last group
/// filled with zero bits.
pub open spec fn base32_nopad(b: Seq<u8>) -> Seq<char> {
    Seq::new(((8 * b.len() + 4) / 5) as nat, |i: int| base32_alphabet()[base32_symbol(b, i)])
}

/// Relies on data_encoding::BASE32_NOPAD.encode: unpadded RFC 4648 base32 with
/// the upper-case alphabet.
#[verifier::external_body]
pub(crate) fn base32_string(b: &[u8]) -> (r: String)
    ensures
        r@ == base32_nopad(b@),
{
    data_encoding::BASE32_NOPAD.encode(b)
}

/// Relies on data_encoding::BASE32_NOPAD.decode, which checks the trailing bits:
/// it gives back the bytes of which the input is the encoding, and fails on
/// any input that encodes no bytes.
#[verifier::external_body]
pub(crate) fn base32_bytes(s: &str) -> (r: Option<Vec<u8>>)
    ensures
        r matches Some(v) ==> base32_nopad(v@) == s@,
        r matches Some(v) ==> forall|b: Seq<u8>| #[trigger] base32_nopad(b) == s@ ==> v@ == b,
        r is None ==> forall|b: Seq<u8>| #[trigger] base32_nopad(b) != s@,
{
    data_encoding::BASE32_NOPAD.decode(s.as_bytes()).ok()
}

/// ASCII letters in lower case, other characters unchanged.
pub open spec fn lower_char(c: char) -> char {
    if 'A' <= c && c <= 'Z' {
        ((c as u32) + 32) as char
    } else {
        c
    }
}

/// ASCII letters in upper case, other characters unchanged.
pub open spec fn upper_char(c: char) -> char {
    if 'a' <= c && c <= 'z' {
        ((c as u32) - 32) as char
    } else {
        c
    }
}

pub open spec fn ascii_lower(s: Seq<char>) -> Seq<char> {
    s.map_values(|c: char| lower_char(c))
}

pub open spec fn ascii_upper(s: Seq<char>) -> Seq<char> {
    s.map_values(|c: char| upper_char(c))
}

/// Relies on str::to_ascii_lowercase: ASCII letters go to lower case, the rest
/// is kept.
#[verifier::external_body]
pub(crate) fn to_ascii_lower(s: &str) -> (r: String)
    ensures
        r@ == ascii_lower(s@),
{
    s.to_ascii_lowercase()
}

/// Relies on str::to_ascii_uppercase: ASCII letters go to upper case, the rest
/// is kept.
#[verifier::external_body]
pub(crate) fn to_ascii_upper(s: &str) -> (r: String)
    ensures
        r@ == ascii_upper(s@),
{
    s.to_ascii_uppercase()
}

/// Base32 text in lower case turns back into the same text in upper case.
pub proof fn lemma_base32_case(b: Seq<u8>)
    ensures
        ascii_upper(ascii_lower(base32_nopad(b))) == base32_nopad(b),
{
    let e = base32_nopad(b);
    assert forall|i: int| 0 <= i < e.len() implies #[trigger] upper_char(lower_char(e[i])) == e[i] by {
        let v = base32_symbol(b, i);
        assert(0 <= bit_at(b, 5 * i) <= 1);
        assert(0 <= bit_at(b, 5 * i + 1) <= 1);
        assert(0 <= bit_at(b, 5 * i + 2) <= 1);
        assert(0 <= bit_at(b, 5 * i + 3) <= 1);
        assert(0 <= bit_at(b, 5 * i + 4) <= 1);
        assert(0 <= v < 32);
        let c = base32_alphabet()[v];
        assert(upper_char(lower_char(c)) == c);
    }
    assert(ascii_upper(ascii_lower(e)) =~= e);
}

/// LEB128: seven bits per byte, least significant group first, the high bit
/// set on every byte but the last.
pub open spec fn varint(n: nat) -> Seq<u8>
    decreases n,
{
    if n < 128 {
        seq![n as u8]
    } else {
        seq![(n % 128 + 128) as u8] + varint(n / 128)
    }
}

/// Reads a LEB128 value of at most `d` bytes from the front of `s`; with
/// `d == 1` the byte must be 0 or 1, as the tenth byte of a `u64` must be.
/// Gives the value and the number of bytes read.
pub open spec fn varint_parse(s: Seq<u8>, d: nat) -> Option<(nat, nat)>
    decreases d,
{
    if d == 0 || s.len() == 0 {
        None
    } else if s[0] < 128 {
        if d == 1 && s[0] > 1 {
            None
        } else {
            Some((s[0] as nat, 1nat))
        }
    } else {
        match varint_parse(s.subrange(1, s.len() as int), (d - 1) as nat) {
            Some((v, n)) => Some((((s[0] - 128) + 128 * v) as nat, n + 1)),
            None => None,
        }
    }
}

/// A `u64` takes at most ten LEB128 bytes.
pub open spec fn varint_parse_u64(s: Seq<u8>) -> Option<(nat, nat)> {
    varint_parse(s, 10)
}

pub open spec fn pow128(k: nat) -> nat
    decreases k,
{
    if k == 0 {
        1
    } else {
        128 * pow128((k - 1) as nat)
    }
}

proof fn lemma_varint_parse_bound(s: Seq<u8>, d: nat)
    requires
        d >= 1,
    ensures
        varint_parse(s, d) matches Some((v, n)) ==> v < 2 * pow128((d - 1) as nat) && 1 <= n
            <= d && n <= s.len(),
    decreases d,
{
    if d > 1 && s.len() > 0 && s[0] >= 128 {
        let t = s.subrange(1, s.len() as int);
        lemma_varint_parse_bound(t, (d - 1) as nat);
        if let Some((v, n)) = varint_parse(t, (d - 1) as nat) {
            let a = s[0] - 128;
            let p = pow128((d - 2) as nat);
            assert(pow128((d - 1) as nat) == 128 * p);
            assert(a + 128 * v < 2 * (128 * p)) by (nonlinear_arith)
                requires
                    0 <= a < 128,
                    v < 2 * p,
            ;
        }
    } else {
        lemma_pow128_pos((d - 1) as nat);
        assert(pow128(0) == 1);
        if s.len() > 0 && s[0] >= 128 {
            assert(varint_parse(s.subrange(1, s.len() as int), 0) is None);
        }
    }
}

proof fn lemma_pow128_pos(k: nat)
    ensures
        pow128(k) >= 1,
        k >= 1 ==> pow128(k) >= 128,
    decreases k,
{
    if k > 0 {
        lemma_pow128_pos((k - 1) as nat);
    }
}

/// Appends the LEB128 bytes of `n` to `out`.
pub fn push_varint(out: &mut Vec<u8>, n: u64)
    ensures
        final(out)@ == old(out)@ + varint(n as nat),
{
    let mut v: u64 = n;
    while v >= 128
        invariant
            out@ + varint(v as nat) == old(out)@ + varint(n as nat),
        decreases v,
    {
        let ghost before = out@;
        out.push(((v % 128) + 128) as u8);
        proof {
            assert(varint(v as nat) == seq![((v % 128) + 128) as u8] + varint((v / 128) as nat));
            assert(out@ + varint((v / 128) as nat) =~= before + varint(v as nat));
        }
        v = v / 128;
    }
    out.push(v as u8);
    proof {
        assert(out@ =~= old(out)@ + varint(n as nat));
    }
}

/// Reads a LEB128 `u64` at `pos`, taking at most `d` bytes.
fn read_varint_at(s: &[u8], pos: usize, d: u64) -> (r: Option<(u64, usize)>)
    requires
        pos <= s@.len(),
        1 <= d <= 10,
    ensures
        match varint_parse(s@.subrange(pos as int, s@.len() as int), d as nat) {
            Some((v, n)) => r matches Some((x, m)) && x == v && m == n,
            None => r is None,
        },
    decreases d,
{
    let ghost t = s@.subrange(pos as int, s@.len() as int);
    proof {
        lemma_varint_parse_bound(t, d as nat);
    }
    if pos >= s.len() {
        return None;
    }
    let b = s[pos];
    if b < 128 {
        if d == 1 && b > 1 {
            None
        } else {
            Some((b as u64, 1))
        }
    } else if d == 1 {
        None
    } else {
        proof {
            assert(t.subrange(1, t.len() as int) =~= s@.subrange(pos + 1, s@.len() as int));
            lemma_varint_parse_bound(t.subrange(1, t.len() as int), (d - 1) as nat);
            lemma_pow128_le((d - 2) as nat);
        }
        match read_varint_at(s, pos + 1, d - 1) {
            Some((v, n)) => Some(((b - 128) as u64 + 128 * v, n + 1)),
            None => None,
        }
    }
}

proof fn lemma_pow128_le(k: nat)
    requires
        k <= 8,
    ensures
        pow128(k) <= 0x100_0000_0000_0000,
    decreases 8 - k,
{
    if k < 8 {
        lemma_pow128_le(k + 1);
        assert(pow128(k + 1) == 128 * pow128(k));
    } else {
        reveal_with_fuel(pow128, 9);
    }
}

/// Reads a LEB128 `u64` at `pos`, as postcard reads one: the value and the
/// number of bytes it took.
pub fn read_varint_u64(s: &[u8], pos: usize) -> (r: Option<(u64, usize)>)
    requires
        pos <= s@.len(),
    ensures
        match varint_parse_u64(s@.subrange(pos as int, s@.len() as int)) {
            Some((v, n)) => r matches Some((x, m)) && x == v && m == n,
            None => r is None,
        },
{
    read_varint_at(s, pos, 10)
}

/// A varint that reads takes at least one byte and no more than there are.
pub proof fn lemma_varint_parse_len(s: Seq<u8>)
    ensures
        varint_parse_u64(s) matches Some((v, n)) ==> 1 <= n <= s.len() && v < 0x1_0000_0000_0000_0000,
{
    lemma_varint_parse_bound(s, 10);
    lemma_pow128_le(8);
    assert(pow128(9) == 128 * pow128(8));
}

/// A varint reads back as the value it was written from.
pub proof fn lemma_varint_round_trip(n: nat, rest: Seq<u8>, d: nat)
    requires
        n < pow128((d - 1) as nat),
        d >= 1,
    ensures
        varint_parse(varint(n) + rest, d) == Some((n, varint(n).len())),
    decreases n,
{
    let e = varint(n) + rest;
    if n < 128 {
        assert(e[0] == n as u8);
    } else {
        lemma_pow128_pos((d - 1) as nat);
        assert(d >= 2) by {
            if d == 1 {
                assert(pow128(0) == 1);
            }
        }
        assert(pow128((d - 1) as nat) == 128 * pow128((d - 2) as nat));
        assert(n / 128 < pow128((d - 2) as nat));
        lemma_varint_round_trip(n / 128, rest, (d - 1) as nat);
        assert(e.subrange(1, e.len() as int) =~= varint(n / 128) + rest);
    }
}

pub open spec fn pow256(k: nat) -> nat
    decreases k,
{
    if k == 0 {
        1
    } else {
        256 * pow256((k - 1) as nat)
    }
}

/// The `k` bytes of `n`, least significant first.
pub open spec fn le_bytes(n: nat, k: nat) -> Seq<u8>
    decreases k,
{
    if k == 0 {
        Seq::empty()
    } else {
        seq![(n % 256) as u8] + le_bytes(n / 256, (k - 1) as nat)
    }
}

/// The number that bytes stand for, least significant first.
pub open spec fn le_value(b: Seq<u8>) -> nat
    decreases b.len(),
{
    if b.len() == 0 {
        0
    } else {
        (b[0] + 256 * le_value(b.subrange(1, b.len() as int))) as nat
    }
}

/// The number that bytes stand for, most significant first.
pub open spec fn be_value(b: Seq<u8>) -> nat
    decreases b.len(),
{
    if b.len() == 0 {
        0
    } else {
        (256 * be_value(b.subrange(0, b.len() - 1)) + b[b.len() - 1]) as nat
    }
}

pub proof fn lemma_pow256_8()
    ensures
        pow256(8) == 0x1_0000_0000_0000_0000,
        pow256(7) == 0x100_0000_0000_0000,
{
    reveal_with_fuel(pow256, 9);
}

proof fn lemma_pow256_mono(a: nat, b: nat)
    requires
        a <= b,
    ensures
        pow256(a) <= pow256(b),
    decreases b,
{
    if a < b {
        lemma_pow256_mono(a, (b - 1) as nat);
    }
}

proof fn lemma_le_value_bound(b: Seq<u8>)
    ensures
        le_value(b) < pow256(b.len()),
    decreases b.len(),
{
    if b.len() > 0 {
        let t = b.subrange(1, b.len() as int);
        lemma_le_value_bound(t);
        let v = le_value(t);
        let p = pow256(t.len());
        assert(b[0] + 256 * v < 256 * p) by (nonlinear_arith)
            requires
                b[0] < 256,
                v < p,
        ;
    }
}

proof fn lemma_be_value_bound(b: Seq<u8>)
    ensures
        be_value(b) < pow256(b.len()),
    decreases b.len(),
{
    if b.len() > 0 {
        let t = b.subrange(0, b.len() - 1);
        lemma_be_value_bound(t);
        let v = be_value(t);
        let p = pow256(t.len());
        let l = b[b.len() - 1];
        assert(256 * v + l < 256 * p) by (nonlinear_arith)
            requires
                l < 256,
                v < p,
        ;
    }
}

/// Eight bytes written from a number read back as that number.
pub proof fn lemma_le_round_trip(n: nat, k: nat)
    ensures
        le_value(le_bytes(n, k)) == n % pow256(k),
        le_bytes(n, k).len() == k,
    decreases k,
{
    if k > 0 {
        lemma_le_round_trip(n / 256, (k - 1) as nat);
        let e = le_bytes(n, k);
        assert(e.subrange(1, e.len() as int) =~= le_bytes(n / 256, (k - 1) as nat));
        let p = pow256((k - 1) as nat);
        assert(p > 0) by {
            lemma_pow256_mono(0, (k - 1) as nat);
        }
        assert((n % 256) + 256 * ((n / 256) % p) == n % (256 * p)) by (nonlinear_arith)
            requires
                p > 0,
        {
            vstd::arithmetic::div_mod::lemma_breakdown(n as int, 256, p as int);
        }
    }
}

/// The eight bytes of `n`, least significant first.
pub fn u64_le_bytes(n: u64) -> (r: Vec<u8>)
    ensures
        r@ == le_bytes(n as nat, 8),
{
    let mut out: Vec<u8> = Vec::new();
    let mut v: u64 = n;
    let mut i: u64 = 0;
    while i < 8
        invariant
            i <= 8,
            out@ + le_bytes(v as nat, (8 - i) as nat) == le_bytes(n as nat, 8),
        decreases 8 - i,
    {
        let ghost before = out@;
        assert(le_bytes(v as nat, (8 - i) as nat) == seq![(v % 256) as u8] + le_bytes(
            (v / 256) as nat,
            (8 - i - 1) as nat,
        ));
        out.push((v % 256) as u8);
        assert(out@ + le_bytes((v / 256) as nat, (8 - i - 1) as nat) =~= before + le_bytes(
            v as nat,
            (8 - i) as nat,
        ));
        v = v / 256;
        i = i + 1;
    }
    assert(out@ =~= le_bytes(n as nat, 8));
    out
}

/// The number that eight bytes stand for, least significant first.
pub fn u64_from_le(b: &[u8]) -> (r: u64)
    requires
        b@.len() == 8,
    ensures
        r == le_value(b@),
{
    let mut v: u64 = 0;
    let mut i: usize = 8;
    proof {
        assert(b@.subrange(8, 8) =~= Seq::<u8>::empty());
    }
    while i > 0
        invariant
            i <= 8,
            b@.len() == 8,
            v == le_value(b@.subrange(i as int, 8)),
        decreases i,
    {
        let ghost t = b@.subrange(i - 1, 8);
        proof {
            assert(t.subrange(1, t.len() as int) =~= b@.subrange(i as int, 8));
            lemma_le_value_bound(b@.subrange(i as int, 8));
            lemma_pow256_mono((8 - i) as nat, 7);
            lemma_pow256_8();
        }
        v = v * 256 + b[i - 1] as u64;
        i = i - 1;
    }
    assert(b@.subrange(0, 8) =~= b@);
    v
}

/// The number that eight bytes stand for, most significant first.
pub fn u64_from_be(b: &[u8]) -> (r: u64)
    requires
        b@.len() == 8,
    ensures
        r == be_value(b@),
{
    let mut v: u64 = 0;
    let mut i: usize = 0;
    proof {
        assert(b@.subrange(0, 0) =~= Seq::<u8>::empty());
    }
    while i < 8
        invariant
            i <= 8,
            b@.len() == 8,
            v == be_value(b@.subrange(0, i as int)),
        decreases 8 - i,
    {
        let ghost t = b@.subrange(0, i + 1);
        proof {
            assert(t.subrange(0, t.len() - 1) =~= b@.subrange(0, i as int));
            lemma_be_value_bound(b@.subrange(0, i as int));
            lemma_pow256_mono(i as nat, 7);
            lemma_pow256_8();
        }
        v = v * 256 + b[i] as u64;
        i = i + 1;
    }
    assert(b@.subrange(0, 8) =~= b@);
    v
}

/// The eight bytes of `n`, most significant first.
pub fn u64_be_bytes(n: u64) -> (r: Vec<u8>)
    ensures
        r@.len() == 8,
        be_value(r@) == n,
{
    let le = u64_le_bytes(n);
    let mut out: Vec<u8> = Vec::new();
    let mut i: usize = 8;
    proof {
        lemma_le_round_trip(n as nat, 8);
        lemma_pow256_8();
    }
    while i > 0
        invariant
            i <= 8,
            le@.len() == 8,
            out@.len() == 8 - i,
            forall|j: int| 0 <= j < out@.len() ==> out@[j] == le@[7 - j],
        decreases i,
    {
        out.push(le[i - 1]);
        i = i - 1;
    }
    proof {
        lemma_be_is_reversed_le(out@, le@);
    }
    out
}

proof fn lemma_be_is_reversed_le(a: Seq<u8>, b: Seq<u8>)
    requires
        a.len() == b.len(),
        forall|j: int| 0 <= j < a.len() ==> a[j] == b[b.len() - 1 - j],
    ensures
        be_value(a) == le_value(b),
    decreases a.len(),
{
    if a.len() > 0 {
        let a1 = a.subrange(0, a.len() - 1);
        let b1 = b.subrange(1, b.len() as int);
        lemma_be_is_reversed_le(a1, b1);
    }
}

} // verus!
