//! SHA-256 content hashes, fed chunk by chunk, and their lowercase hexadecimal text.

use vstd::prelude::*;
use vstd::string::StringSliceAdditionalSpecFns;
use vstd::utf8::{
    decode_utf8, encode_utf8, encode_utf8_decode_utf8, encode_utf8_valid_utf8, is_ascii_chars,
    is_ascii_chars_encode_utf8, is_char_boundary, is_char_boundary_iff_not_is_continuation_byte,
    is_char_boundary_start_end_of_seq,
};

verus! {

/// A running SHA-256 computation over the bytes fed to it so far (sha2's `Sha256`).
#[verifier::external_body]
pub struct Sha256Stream {
    inner: sha2::Sha256,
}

/// The bytes fed so far to a running SHA-256 computation, in order.
pub uninterp spec fn absorbed(h: Sha256Stream) -> Seq<u8>;

/// The SHA-256 digest of a byte sequence.
pub uninterp spec fn sha256(data: Seq<u8>) -> Seq<u8>;

/// The lowercase hexadecimal digit for `v` (`0 <= v < 16`).
pub open spec fn hex_digit(v: nat) -> char {
    if v < 10 {
        (v + 48) as char
    } else {
        (v + 87) as char
    }
}

/// Two lowercase hexadecimal digits per byte, high nibble first.
pub open spec fn lower_hex(bytes: Seq<u8>) -> Seq<char>
    decreases bytes.len(),
{
    if bytes.len() == 0 {
        Seq::empty()
    } else {
        lower_hex(bytes.drop_last()) + seq![
            hex_digit((bytes.last() / 16) as nat),
            hex_digit((bytes.last() % 16) as nat),
        ]
    }
}

/// Every character is one of `0-9a-f`.
pub open spec fn is_lower_hex_text(s: Seq<char>) -> bool {
    forall|k: int| 0 <= k < s.len() ==> ('0' <= #[trigger] s[k] <= '9' || 'a' <= s[k] <= 'f')
}

/// Calls `<sha2::Sha256 as Digest>::new()`. Claimed: a fresh computation has absorbed nothing.
#[verifier::external_body]
fn sha256_new() -> (h: Sha256Stream)
    ensures
        absorbed(h) == Seq::<u8>::empty(),
{
    Sha256Stream { inner: <sha2::Sha256 as sha2::Digest>::new() }
}

/// Calls `Digest::update` on sha2's `Sha256`. Claimed: the bytes are appended to what the
/// computation has absorbed.
#[verifier::external_body]
fn sha256_update(h: &mut Sha256Stream, data: &[u8])
    ensures
        absorbed(*final(h)) == absorbed(*old(h)) + data@,
{
    sha2::Digest::update(&mut h.inner, data)
}

/// Calls `Digest::finalize` on sha2's `Sha256`. Claimed: the result is the SHA-256 digest of all
/// absorbed bytes, 32 bytes long.
#[verifier::external_body]
fn sha256_finalize(h: Sha256Stream) -> (r: Vec<u8>)
    ensures
        r@ == sha256(absorbed(h)),
        r@.len() == 32,
{
    sha2::Digest::finalize(h.inner).to_vec()
}

/// Calls `hex::encode`. Claimed: two lowercase hexadecimal digits per byte, high nibble first.
#[verifier::external_body]
fn hex_encode(data: &[u8]) -> (r: String)
    ensures
        r@ == lower_hex(data@),
{
    hex::encode(data)
}

impl Sha256Stream {
    /// Starts a SHA-256 computation over no bytes.
    pub fn new() -> (h: Self)
        ensures
            absorbed(h) == Seq::<u8>::empty(),
    {
        sha256_new()
    }

    /// Feeds the next chunk of input.
    pub fn update(&mut self, chunk: &[u8])
        ensures
            absorbed(*final(self)) == absorbed(*old(self)) + chunk@,
    {
        sha256_update(self, chunk)
    }

    /// The hexadecimal SHA-256 digest of everything fed so far: 64 lowercase hex digits.
    pub fn finish_hex(self) -> (r: String)
        ensures
            r@ == lower_hex(sha256(absorbed(self))),
            r@.len() == 64,
            is_lower_hex_text(r@),
    {
        let digest = sha256_finalize(self);
        let r = hex_encode(digest.as_slice());
        proof {
            lemma_lower_hex_shape(digest@);
        }
        r
    }
}

pub proof fn lemma_lower_hex_shape(bytes: Seq<u8>)
    ensures
        lower_hex(bytes).len() == 2 * bytes.len(),
        is_lower_hex_text(lower_hex(bytes)),
    decreases bytes.len(),
{
    if bytes.len() > 0 {
        lemma_lower_hex_shape(bytes.drop_last());
        let hi = (bytes.last() / 16) as nat;
        let lo = (bytes.last() % 16) as nat;
        assert(hi < 16 && lo < 16);
        let prev = lower_hex(bytes.drop_last());
        let pair = seq![hex_digit(hi), hex_digit(lo)];
        assert forall|k: int| 0 <= k < lower_hex(bytes).len() implies ('0' <= #[trigger] lower_hex(
            bytes,
        )[k] <= '9' || 'a' <= lower_hex(bytes)[k] <= 'f') by {
            if k < prev.len() {
                assert(lower_hex(bytes)[k] == prev[k]);
            } else {
                assert(lower_hex(bytes)[k] == pair[k - prev.len()]);
            }
        }
    }
}

/// The first 16 bytes of a hash text, as `&sha256[..16]` takes them. Slicing there panics
/// unless byte 16 is a character boundary (which needs at least 16 bytes), so `requires`
/// leaves other texts out.
pub fn hash_preview(sha256: &str) -> (r: &str)
    requires
        is_char_boundary(sha256.spec_bytes(), 16),
    ensures
        r@ == decode_utf8(sha256.spec_bytes().subrange(0, 16)),
{
    let (head, _tail) = sha256.split_at(16);
    proof {
        encode_utf8_decode_utf8(head@);
    }
    head
}

/// A digest text always has a preview: its UTF-8 bytes have a character boundary at byte 16,
/// and the first 16 bytes read back as its first 16 characters.
pub proof fn law_digest_text_preview(s: Seq<char>)
    requires
        is_lower_hex_text(s),
        s.len() >= 16,
    ensures
        is_char_boundary(encode_utf8(s), 16),
        decode_utf8(encode_utf8(s).subrange(0, 16)) == s.take(16),
{
    assert(is_ascii_chars(s)) by {
        assert forall|i: int| 0 <= i < s.len() implies '\0' <= #[trigger] s[i] <= '\u{7f}' by {
            assert('0' <= s[i] <= '9' || 'a' <= s[i] <= 'f');
        }
    }
    is_ascii_chars_encode_utf8(s);
    encode_utf8_valid_utf8(s);
    let bytes = encode_utf8(s);
    if s.len() == 16 {
        is_char_boundary_start_end_of_seq(bytes);
    } else {
        is_char_boundary_iff_not_is_continuation_byte(bytes, 16);
        assert(bytes[16] == s[16] as u8);
        assert('0' <= s[16] <= '9' || 'a' <= s[16] <= 'f');
    }
    let head = s.take(16);
    assert(is_ascii_chars(head));
    is_ascii_chars_encode_utf8(head);
    assert(encode_utf8(head) =~= bytes.subrange(0, 16));
    encode_utf8_decode_utf8(head);
}

/// The value of a lowercase hexadecimal digit.
pub open spec fn hex_value(c: char) -> int {
    if '0' <= c <= '9' {
        c as int - 48
    } else {
        c as int - 87
    }
}

/// The hex text holds each byte, in order, as two digits: the high nibble then the low one, so
/// that digit `2k` times 16 plus digit `2k + 1` is byte `k`.
pub proof fn law_hex_text_spells_bytes(bytes: Seq<u8>)
    ensures
        lower_hex(bytes).len() == 2 * bytes.len(),
        forall|k: int|
            0 <= k < bytes.len() ==> hex_value(#[trigger] lower_hex(bytes)[2 * k]) * 16 + hex_value(
                lower_hex(bytes)[2 * k + 1],
            ) == bytes[k],
    decreases bytes.len(),
{
    lemma_lower_hex_shape(bytes);
    if bytes.len() > 0 {
        let b0 = bytes.drop_last();
        law_hex_text_spells_bytes(b0);
        lemma_lower_hex_shape(b0);
        let prev = lower_hex(b0);
        let b = bytes.last();
        let hi = (b / 16) as nat;
        let lo = (b % 16) as nat;
        assert(hex_value(hex_digit(hi)) == hi);
        assert(hex_value(hex_digit(lo)) == lo);
        assert forall|k: int| 0 <= k < bytes.len() implies hex_value(
            #[trigger] lower_hex(bytes)[2 * k],
        ) * 16 + hex_value(lower_hex(bytes)[2 * k + 1]) == bytes[k] by {
            if k < b0.len() {
                assert(lower_hex(bytes)[2 * k] == prev[2 * k]);
                assert(lower_hex(bytes)[2 * k + 1] == prev[2 * k + 1]);
                assert(bytes[k] == b0[k]);
            } else {
                assert(lower_hex(bytes)[2 * k] == hex_digit(hi));
                assert(lower_hex(bytes)[2 * k + 1] == hex_digit(lo));
            }
        }
    }
}

} // verus!
