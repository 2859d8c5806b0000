use vstd::prelude::*;

use sha2::Digest;
use vstd::utf8::{encode_utf8, is_ascii_chars, is_ascii_chars_encode_utf8};

verus! {

/// The SHA-256 digest of a byte sequence, named but not written out: the
/// computation is delegated to the `sha2` crate and never restated here.
pub uninterp spec fn spec_sha256(data: Seq<u8>) -> Seq<u8>;

/// Relies on sha2's `Sha256::digest`: the digest depends on the input bytes
/// alone, and is 32 bytes long.
#[verifier::external_body]
pub(crate) fn sha256_digest(data: &[u8]) -> (r: Vec<u8>)
    ensures
        r@ == spec_sha256(data@),
        r@.len() == 32,
{
    sha2::Sha256::digest(data).to_vec()
}

/// The ASCII code of the lower-case hexadecimal digit for a nibble.
pub open spec fn spec_hex_digit(n: u8) -> u8
    recommends
        n < 16,
{
    if n < 10 {
        (0x30 + n) as u8
    } else {
        (0x57 + n) as u8
    }
}

/// The ASCII codes of the lower-case hexadecimal encoding of a byte
/// sequence: two digits per byte, high nibble first.
pub open spec fn spec_hex_bytes(data: Seq<u8>) -> Seq<u8>
    decreases data.len(),
{
    if data.len() == 0 {
        Seq::empty()
    } else {
        spec_hex_bytes(data.drop_last()) + seq![
            spec_hex_digit(data.last() / 16),
            spec_hex_digit(data.last() % 16),
        ]
    }
}

/// The same encoding, as the characters of the hexadecimal string.
pub open spec fn spec_hex_chars(data: Seq<u8>) -> Seq<char> {
    spec_hex_bytes(data).map_values(|b: u8| b as char)
}

/// Relies on `hex::encode`: lower-case hexadecimal, two digits per byte,
/// high nibble first.
#[verifier::external_body]
pub(crate) fn hex_encode(data: &[u8]) -> (r: String)
    ensures
        r@ == spec_hex_chars(data@),
{
    hex::encode(data)
}

/// Every ASCII code produced by the hexadecimal encoding is below 0x80.
proof fn lemma_hex_bytes_ascii_range(data: Seq<u8>)
    ensures
        forall|i: int| 0 <= i < spec_hex_bytes(data).len() ==> #[trigger] spec_hex_bytes(data)[i] < 0x80,
    decreases data.len(),
{
    if data.len() != 0 {
        lemma_hex_bytes_ascii_range(data.drop_last());
        let prefix = spec_hex_bytes(data.drop_last());
        let pair = seq![
            spec_hex_digit(data.last() / 16),
            spec_hex_digit(data.last() % 16),
        ];
        assert(spec_hex_bytes(data) == prefix + pair);
        assert(pair[0] < 0x80);
        assert(pair[1] < 0x80);
        assert forall|i: int| 0 <= i < spec_hex_bytes(data).len()
            implies #[trigger] spec_hex_bytes(data)[i] < 0x80 by {
            if i < prefix.len() {
                assert(spec_hex_bytes(data)[i] == prefix[i]);
            } else {
                assert(spec_hex_bytes(data)[i] == pair[i - prefix.len()]);
            }
        }
    }
}

/// The UTF-8 bytes of the hexadecimal string are the ASCII codes themselves.
pub proof fn lemma_hex_chars_utf8(data: Seq<u8>)
    ensures
        encode_utf8(spec_hex_chars(data)) =~= spec_hex_bytes(data),
{
    let bytes = spec_hex_bytes(data);
    let chars = spec_hex_chars(data);
    lemma_hex_bytes_ascii_range(data);
    assert forall|i: int| 0 <= i < chars.len() implies '\0' <= #[trigger] chars[i] <= '\u{7f}' by {
        assert(chars[i] == bytes[i] as char);
        assert(bytes[i] < 0x80);
    }
    assert(is_ascii_chars(chars));
    is_ascii_chars_encode_utf8(chars);
    assert forall|i: int| 0 <= i < chars.len() implies encode_utf8(chars)[i] == bytes[i] by {
        assert(chars[i] as u8 == encode_utf8(chars)[i]);
        assert(chars[i] == bytes[i] as char);
    }
}

/// The ASCII codes of the decimal digits of a number, most significant
/// first, as `u128::to_string` would print it.
pub open spec fn spec_decimal(n: nat) -> Seq<u8>
    decreases n,
{
    if n < 10 {
        seq![(0x30 + n) as u8]
    } else {
        spec_decimal(n / 10) + seq![(0x30 + n % 10) as u8]
    }
}

/// Writes a number in decimal, as its `to_string` form would read.
pub fn u128_decimal(n: u128) -> (r: Vec<u8>)
    ensures
        r@ == spec_decimal(n as nat),
{
    let mut rev: Vec<u8> = Vec::new();
    let mut m: u128 = n;
    if m == 0 {
        rev.push(0x30);
        return rev;
    }
    while m > 0
        invariant
            m == 0 ==> rev@.len() > 0,
            m > 0 ==> spec_decimal(n as nat) == spec_decimal(m as nat) + rev@.reverse(),
            m == 0 ==> spec_decimal(n as nat) == rev@.reverse(),
        decreases m,
    {
        let d: u8 = (m % 10) as u8;
        let old_rev = Ghost(rev@);
        rev.push(0x30 + d);
        proof {
            assert(rev@.reverse() =~= seq![(0x30 + d) as u8] + old_rev@.reverse());
            if m / 10 > 0 {
                assert(spec_decimal(m as nat) == spec_decimal(m as nat / 10) + seq![(0x30 + (m as nat) % 10) as u8]);
                assert(spec_decimal(m as nat) + old_rev@.reverse()
                    =~= spec_decimal(m as nat / 10) + rev@.reverse());
            } else {
                assert(m < 10);
                assert(spec_decimal(m as nat) == seq![(0x30 + m as nat) as u8]);
                assert(spec_decimal(m as nat) + old_rev@.reverse() =~= rev@.reverse());
            }
        }
        m = m / 10;
    }
    let mut r: Vec<u8> = Vec::new();
    let mut i: usize = rev.len();
    while i > 0
        invariant
            i <= rev@.len(),
            r@ =~= rev@.reverse().take(rev@.len() - i),
        decreases i,
    {
        i = i - 1;
        r.push(rev[i]);
        proof {
            assert(rev@.reverse()[rev@.len() - i - 1] == rev@[i as int]);
            assert(r@ =~= rev@.reverse().take(rev@.len() - i));
        }
    }
    proof {
        assert(r@ =~= rev@.reverse());
    }
    r
}

} // verus!
