//! Public keys written in hex: what `nostr::key::PublicKey::from_hex` accepts and
//! the lowercase form that `PublicKey::to_hex` writes back.
use vstd::prelude::*;

verus! {

/// An ASCII hex digit, in either case.
pub open spec fn is_hex_digit(c: char) -> bool {
    let u = c as u32;
    ||| 0x30 <= u <= 0x39
    ||| 0x61 <= u <= 0x66
    ||| 0x41 <= u <= 0x46
}

/// The value of a hex digit.
pub open spec fn hex_value(c: char) -> int {
    let u = c as u32;
    if u <= 0x39 {
        u - 0x30
    } else if u >= 0x61 {
        u - 0x61 + 10
    } else {
        u - 0x41 + 10
    }
}

/// The lowercase hex digits, indexed by value.
pub open spec fn lower_hex_digits() -> Seq<char> {
    seq!['0', '1', '2', '3', '4', '5', '6', '7', '8', '9', 'a', 'b', 'c', 'd', 'e', 'f']
}

/// The text that `PublicKey::from_hex` accepts: all hex digits, an even
/// number of them, and at least the 64 that encode 32 bytes (only those 64
/// are read).
pub open spec fn is_public_key_hex(s: Seq<char>) -> bool {
    &&& s.len() >= 64
    &&& s.len() % 2 == 0
    &&& forall|i: int| 0 <= i < s.len() ==> is_hex_digit(#[trigger] s[i])
}

/// Lowercase hex encoding, two digits per byte, high nibble first.
pub open spec fn hex_encoding(bytes: Seq<u8>) -> Seq<char> {
    Seq::new(
        2 * bytes.len(),
        |i: int|
            if i % 2 == 0 {
                lower_hex_digits()[bytes[i / 2] as int / 16]
            } else {
                lower_hex_digits()[bytes[i / 2] as int % 16]
            },
    )
}

/// The canonical form of a hex public key: its first 64 digits in lowercase,
/// or `None` where the text is no hex public key.
pub open spec fn canonical_key(s: Seq<char>) -> Option<Seq<char>> {
    if is_public_key_hex(s) {
        Some(Seq::new(64, |i: int| lower_hex_digits()[hex_value(s[i])]))
    } else {
        None
    }
}

/// Calls `nostr::key::PublicKey::from_hex`, which hex-decodes 32 bytes with
/// `faster_hex::hex_decode` (no curve check). Claimed: it succeeds exactly on
/// the text of `is_public_key_hex`, and byte `i` is the value of digits
/// `2i` and `2i + 1`.
#[verifier::external_body]
fn decode_public_key_hex(hex: &str) -> (r: Option<[u8; 32]>)
    ensures
        r is Some <==> is_public_key_hex(hex@),
        r matches Some(bytes) ==> forall|i: int|
            0 <= i < 32 ==> #[trigger] bytes@[i] as int == 16 * hex_value(hex@[2 * i]) + hex_value(
                hex@[2 * i + 1],
            ),
{
    match nostr::key::PublicKey::from_hex(hex) {
        Ok(key) => Some(key.to_bytes()),
        Err(_) => None,
    }
}

/// Calls `nostr::key::PublicKey::to_hex` on the key of the given bytes. Claimed:
/// the result is the lowercase hex encoding of the bytes
/// (`faster_hex::hex_encode`).
#[verifier::external_body]
fn encode_public_key_hex(bytes: [u8; 32]) -> (r: String)
    ensures
        r@ == hex_encoding(bytes@),
{
    nostr::key::PublicKey::from_byte_array(bytes).to_hex()
}

proof fn lemma_nibbles(x: int, y: int)
    requires
        0 <= x < 16,
        0 <= y < 16,
    ensures
        (16 * x + y) / 16 == x,
        (16 * x + y) % 16 == y,
{
    assert((16 * x + y) / 16 == x && (16 * x + y) % 16 == y) by (nonlinear_arith)
        requires
            0 <= x < 16,
            0 <= y < 16,
    ;
}

/// Parses `hex` as a public key and writes it back in canonical hex, as
/// `PublicKey::from_hex(hex).map(|key| key.to_hex())` does.
pub fn canonical_public_key(hex: &str) -> (r: Option<String>)
    ensures
        r.deep_view() == canonical_key(hex@),
{
    match decode_public_key_hex(hex) {
        None => None,
        Some(bytes) => {
            let text = encode_public_key_hex(bytes);
            proof {
                let s = hex@;
                let want = Seq::new(64, |i: int| lower_hex_digits()[hex_value(s[i])]);
                assert forall|i: int| 0 <= i < 64 implies #[trigger] text@[i] == want[i] by {
                    let k = i / 2;
                    assert(0 <= k < 32);
                    let hi = hex_value(s[2 * k]);
                    let lo = hex_value(s[2 * k + 1]);
                    assert(is_hex_digit(s[2 * k]) && is_hex_digit(s[2 * k + 1]));
                    assert(bytes@[k] as int == 16 * hi + lo);
                    lemma_nibbles(hi, lo);
                }
                assert(text@ =~= want);
            }
            Some(text)
        },
    }
}

} // verus!
