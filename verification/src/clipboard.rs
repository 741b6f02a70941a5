//! Clipboard fingerprints, and the guard that keeps the application from
//! recording its own clipboard writes.
//!
//! Capturing runs on demand (GNOME 46 gives background clients no
//! clipboard-change signal), and pasting writes to the clipboard too, so every
//! capture would otherwise re-record our own echo. The caller remembers the
//! 64-bit fingerprint of its last write and asks [`is_self_written`] before
//! recording what it reads.

use vstd::prelude::*;
use sha2::Digest;
use crate::text::push_char;

verus! {

/// The SHA-256 digest of `data`.
pub uninterp spec fn sha256_digest(data: Seq<u8>) -> Seq<u8>;

/// `sha2::Sha256::digest`: the contract claims that the result is the
/// SHA-256 digest of `data` (a function of `data` alone, named
/// `sha256_digest`) and that it is 32 bytes long.
#[verifier::external_body]
fn sha256(data: &[u8]) -> (r: Vec<u8>)
    ensures
        r@ == sha256_digest(data@),
        r@.len() == 32,
{
    sha2::Sha256::digest(data).to_vec()
}

/// The UTF-8 bytes of a text.
pub open spec fn text_bytes(t: Seq<char>) -> Seq<u8> {
    vstd::utf8::encode_utf8(t)
}

pub open spec fn hex_digit(d: int) -> char {
    if d < 10 {
        digit_char_hex(d)
    } else {
        letter_hex(d)
    }
}

pub open spec fn digit_char_hex(d: int) -> char {
    crate::text::digit_char(d)
}

pub open spec fn letter_hex(d: int) -> char {
    if d == 10 {
        'a'
    } else if d == 11 {
        'b'
    } else if d == 12 {
        'c'
    } else if d == 13 {
        'd'
    } else if d == 14 {
        'e'
    } else {
        'f'
    }
}

/// Lower-case hex of `bytes`, two digits per byte (`format!("{:x}", ..)` of a
/// digest).
pub open spec fn lower_hex(bytes: Seq<u8>) -> Seq<char>
    decreases bytes.len(),
{
    if bytes.len() == 0 {
        Seq::empty()
    } else {
        lower_hex(bytes.drop_last()).push(hex_digit(bytes.last() as int / 16)).push(
            hex_digit(bytes.last() as int % 16),
        )
    }
}

/// The big-endian value of `bytes`.
pub open spec fn be_value(bytes: Seq<u8>) -> int
    decreases bytes.len(),
{
    if bytes.len() == 0 {
        0
    } else {
        be_value(bytes.drop_last()) * 256 + bytes.last()
    }
}

pub open spec fn pow256(k: nat) -> int
    decreases k,
{
    if k == 0 {
        1
    } else {
        pow256((k - 1) as nat) * 256
    }
}

fn hex_of(d: u8) -> (c: char)
    requires
        d < 16,
    ensures
        c == hex_digit(d as int),
{
    match d {
        0 => '0',
        1 => '1',
        2 => '2',
        3 => '3',
        4 => '4',
        5 => '5',
        6 => '6',
        7 => '7',
        8 => '8',
        9 => '9',
        10 => 'a',
        11 => 'b',
        12 => 'c',
        13 => 'd',
        14 => 'e',
        _ => 'f',
    }
}

proof fn lemma_lower_hex_len(bytes: Seq<u8>)
    ensures
        lower_hex(bytes).len() == 2 * bytes.len(),
    decreases bytes.len(),
{
    if bytes.len() > 0 {
        lemma_lower_hex_len(bytes.drop_last());
    }
}

proof fn lemma_pow256_bound(k: nat)
    requires
        k <= 8,
    ensures
        pow256(k) <= 0x1_0000_0000_0000_0000,
{
    assert(pow256(0) == 1);
    assert(pow256(1) == 0x100);
    assert(pow256(2) == 0x1_0000);
    assert(pow256(3) == 0x100_0000);
    assert(pow256(4) == 0x1_0000_0000);
    assert(pow256(5) == 0x100_0000_0000);
    assert(pow256(6) == 0x1_0000_0000_0000);
    assert(pow256(7) == 0x100_0000_0000_0000);
    assert(pow256(8) == 0x1_0000_0000_0000_0000);
}

/// The value of a lower-case hex digit.
pub open spec fn hex_digit_value(c: char) -> int {
    if (c as u32) < 97 {
        c as u32 - 48
    } else {
        c as u32 - 87
    }
}

/// The number that the hex digits `s` spell, most significant first.
pub open spec fn hex_value(s: Seq<char>) -> int
    decreases s.len(),
{
    if s.len() == 0 {
        0
    } else {
        hex_value(s.drop_last()) * 16 + hex_digit_value(s.last())
    }
}

proof fn lemma_hex_digit_value(d: int)
    requires
        0 <= d < 16,
    ensures
        hex_digit_value(hex_digit(d)) == d,
{
}

proof fn lemma_hex_value_of_lower_hex(bytes: Seq<u8>)
    ensures
        hex_value(lower_hex(bytes)) == be_value(bytes),
    decreases bytes.len(),
{
    if bytes.len() > 0 {
        let rest = bytes.drop_last();
        let b = bytes.last() as int;
        let x = lower_hex(rest);
        let y = x.push(hex_digit(b / 16));
        let z = y.push(hex_digit(b % 16));
        lemma_hex_value_of_lower_hex(rest);
        lemma_hex_digit_value(b / 16);
        lemma_hex_digit_value(b % 16);
        assert(z.drop_last() =~= y);
        assert(y.drop_last() =~= x);
        let v = hex_value(x);
        assert(z.last() == hex_digit(b % 16));
        assert(y.last() == hex_digit(b / 16));
        assert(hex_value(y) == v * 16 + b / 16);
        assert(hex_value(z) == hex_value(y) * 16 + b % 16);
        assert(lower_hex(bytes) == z);
        assert((v * 16 + b / 16) * 16 + b % 16 == v * 256 + (b / 16) * 16 + b % 16) by (nonlinear_arith);
        assert(b == (b / 16) * 16 + b % 16);
    }
}

proof fn lemma_lower_hex_take(bytes: Seq<u8>, k: int)
    requires
        0 <= k <= bytes.len(),
    ensures
        lower_hex(bytes).take(2 * k) == lower_hex(bytes.take(k)),
    decreases bytes.len(),
{
    lemma_lower_hex_len(bytes);
    if k == bytes.len() {
        assert(bytes.take(k) =~= bytes);
        assert(lower_hex(bytes).take(2 * k) =~= lower_hex(bytes));
    } else {
        let rest = bytes.drop_last();
        lemma_lower_hex_take(rest, k);
        lemma_lower_hex_len(rest);
        assert(rest.take(k) =~= bytes.take(k));
        assert(lower_hex(bytes).take(2 * k) =~= lower_hex(rest).take(2 * k));
    }
}

/// The first sixteen hex digits of a digest's lower-case hex spell the
/// big-endian value of its first eight bytes: the 64-bit fingerprint of a
/// text is the start of its history hash, read as a number.
pub proof fn lemma_fingerprint_is_hash_prefix(digest: Seq<u8>)
    requires
        digest.len() >= 8,
    ensures
        hex_value(lower_hex(digest).take(16)) == be_value(digest.take(8)),
{
    lemma_lower_hex_take(digest, 8);
    lemma_hex_value_of_lower_hex(digest.take(8));
}

/// True when `hash` is the fingerprint of our own most recent clipboard
/// write, `last_written` (0 when nothing has been written yet).
pub fn is_self_written(hash: u64, last_written: u64) -> (r: bool)
    ensures
        r == (hash != 0 && last_written == hash),
{
    hash != 0 && last_written == hash
}

/// Lower-case hex of a digest, two digits per byte.
pub fn digest_hex(digest: &[u8]) -> (r: String)
    ensures
        r@ == lower_hex(digest@),
        r@.len() == 2 * digest@.len(),
{
    let mut out = String::new();
    let mut i: usize = 0;
    while i < digest.len()
        invariant
            i <= digest.len(),
            out@ == lower_hex(digest@.take(i as int)),
        decreases digest.len() - i,
    {
        let b = digest[i];
        push_char(&mut out, hex_of(b / 16));
        push_char(&mut out, hex_of(b % 16));
        assert(digest@.take(i + 1).drop_last() =~= digest@.take(i as int));
        i = i + 1;
    }
    assert(digest@.take(digest.len() as int) =~= digest@);
    proof {
        lemma_lower_hex_len(digest@);
    }
    out
}

/// The first eight bytes of a digest, read big-endian.
pub fn digest_prefix_u64(digest: &[u8]) -> (r: u64)
    requires
        digest@.len() >= 8,
    ensures
        r == be_value(digest@.take(8)),
{
    let mut acc: u128 = 0;
    let mut i: usize = 0;
    while i < 8
        invariant
            i <= 8,
            digest@.len() >= 8,
            acc == be_value(digest@.take(i as int)),
            acc < pow256(i as nat),
            pow256(i as nat) <= 0x1_0000_0000_0000_0000,
        decreases 8 - i,
    {
        assert(digest@.take(i + 1).drop_last() =~= digest@.take(i as int));
        assert(pow256((i + 1) as nat) == pow256(i as nat) * 256);
        proof {
            lemma_pow256_bound((i + 1) as nat);
        }
        acc = acc * 256 + digest[i] as u128;
        i = i + 1;
    }
    acc as u64
}

/// Stable fingerprint of clipboard text, used for deduplication: the
/// lower-case hex SHA-256 of its UTF-8 bytes, 64 characters long.
pub fn hash_text(text: &str) -> (r: String)
    ensures
        r@ == lower_hex(sha256_digest(text_bytes(text@))),
        r@.len() == 64,
{
    let digest = sha256(text.as_bytes());
    digest_hex(digest.as_slice())
}

/// Fold a text into the 64-bit value the self-write guard compares: the
/// first eight bytes of its SHA-256 digest, read big-endian, which is the
/// number that the first sixteen digits of [`hash_text`] spell.
pub fn hash_u64(text: &str) -> (r: u64)
    ensures
        r == be_value(sha256_digest(text_bytes(text@)).take(8)),
        r == hex_value(lower_hex(sha256_digest(text_bytes(text@))).take(16)),
{
    let digest = sha256(text.as_bytes());
    proof {
        lemma_fingerprint_is_hash_prefix(digest@);
    }
    digest_prefix_u64(digest.as_slice())
}

} // verus!
