//! Bytes as text: lowercase hex, and base64 as RFC 4648 defines it, in the
//! standard alphabet with padding and in the URL-safe one without.
//!
//! Hex is written here; base64 is the `base64` crate's, and what it produces
//! is stated in full by [`base64_text`], so that a caller can prove what a
//! token or a data URI looks like.

use vstd::prelude::*;

use crate::publish::{hex_char, hex_digit};

verus! {

// -------------------------------------------------------------------- hex

/// A byte as two lowercase hex digits, as `format!("{b:02x}")` writes it.
pub open spec fn hex_pair(b: u8) -> Seq<char> {
    seq![hex_digit((b / 16) as nat), hex_digit((b % 16) as nat)]
}

/// Bytes as lowercase hex, two digits each.
pub open spec fn hex_text(b: Seq<u8>) -> Seq<char>
    decreases b.len(),
{
    if b.len() == 0 {
        Seq::<char>::empty()
    } else {
        hex_text(b.drop_last()) + hex_pair(b.last())
    }
}

/// Whether `c` is a lowercase hex digit.
pub open spec fn is_lower_hex(c: char) -> bool {
    ('0' <= c <= '9') || ('a' <= c <= 'f')
}

proof fn lemma_hex_digit_lower(d: nat)
    requires
        d < 16,
    ensures
        is_lower_hex(hex_digit(d)),
{
    if d < 10 {
        assert(((d + 48) as u8) as int == d + 48);
    } else {
        assert(((d + 87) as u8) as int == d + 87);
    }
}

/// Hex text is two digits a byte, every one of them lowercase hex.
pub proof fn lemma_hex_text(b: Seq<u8>)
    ensures
        hex_text(b).len() == 2 * b.len(),
        forall|k: int| 0 <= k < hex_text(b).len() ==> is_lower_hex(#[trigger] hex_text(b)[k]),
    decreases b.len(),
{
    if b.len() > 0 {
        lemma_hex_text(b.drop_last());
        lemma_hex_digit_lower((b.last() / 16) as nat);
        lemma_hex_digit_lower((b.last() % 16) as nat);
        let h = hex_text(b);
        let p = hex_text(b.drop_last());
        assert forall|k: int| 0 <= k < h.len() implies is_lower_hex(#[trigger] h[k]) by {
            if k < p.len() {
                assert(h[k] == p[k]);
            } else {
                assert(h[k] == hex_pair(b.last())[k - p.len()]);
            }
        }
    }
}

/// Bytes as lowercase hex.
pub fn hex_of(bytes: &[u8]) -> (r: String)
    ensures
        r@ == hex_text(bytes@),
{
    let mut out: Vec<char> = Vec::new();
    let mut i: usize = 0;
    assert(bytes@.take(0) =~= Seq::<u8>::empty());
    while i < bytes.len()
        invariant
            i <= bytes@.len(),
            out@ == hex_text(bytes@.take(i as int)),
        decreases bytes@.len() - i,
    {
        let b = bytes[i];
        out.push(hex_char((b / 16) as u32));
        out.push(hex_char((b % 16) as u32));
        proof {
            let t = bytes@.take(i + 1);
            assert(t.drop_last() =~= bytes@.take(i as int));
            assert(t.last() == b);
            assert(out@ =~= hex_text(t));
        }
        i = i + 1;
    }
    assert(bytes@.take(bytes@.len() as int) =~= bytes@);
    crate::text::string_of(&out)
}

// ----------------------------------------------------------------- base64

/// The base64 digit for a six-bit value: `A-Z`, `a-z`, `0-9`, then `+` and
/// `/`, or `-` and `_` in the URL-safe alphabet.
pub open spec fn b64_digit(v: nat, url_safe: bool) -> char {
    if v < 26 {
        ((v + 65) as u8) as char
    } else if v < 52 {
        ((v + 71) as u8) as char
    } else if v < 62 {
        ((v - 4) as u8) as char
    } else if v == 62 {
        if url_safe {
            '-'
        } else {
            '+'
        }
    } else if url_safe {
        '_'
    } else {
        '/'
    }
}

/// Base64 per RFC 4648: every three bytes become four digits; a final one or
/// two bytes become two or three digits, followed by `=` to a multiple of four
/// when padding.
pub open spec fn base64_text(b: Seq<u8>, url_safe: bool, pad: bool) -> Seq<char>
    decreases b.len(),
{
    if b.len() == 0 {
        Seq::<char>::empty()
    } else if b.len() == 1 {
        let x = b[0] as nat;
        seq![b64_digit(x / 4, url_safe), b64_digit((x % 4) * 16, url_safe)] + if pad {
            seq!['=', '=']
        } else {
            Seq::<char>::empty()
        }
    } else if b.len() == 2 {
        let (x, y) = (b[0] as nat, b[1] as nat);
        seq![
            b64_digit(x / 4, url_safe),
            b64_digit((x % 4) * 16 + y / 16, url_safe),
            b64_digit((y % 16) * 4, url_safe),
        ] + if pad {
            seq!['=']
        } else {
            Seq::<char>::empty()
        }
    } else {
        let (x, y, z) = (b[0] as nat, b[1] as nat, b[2] as nat);
        seq![
            b64_digit(x / 4, url_safe),
            b64_digit((x % 4) * 16 + y / 16, url_safe),
            b64_digit((y % 16) * 4 + z / 64, url_safe),
            b64_digit(z % 64, url_safe),
        ] + base64_text(b.skip(3), url_safe, pad)
    }
}

/// The length of the base64 text of `n` bytes.
pub open spec fn base64_len(n: nat, pad: bool) -> nat {
    if n % 3 == 0 {
        (n / 3) * 4
    } else if pad {
        (n / 3) * 4 + 4
    } else {
        (n / 3) * 4 + n % 3 + 1
    }
}

/// Whether `c` is a digit of the URL-safe alphabet.
pub open spec fn is_url_safe(c: char) -> bool {
    ('A' <= c <= 'Z') || ('a' <= c <= 'z') || ('0' <= c <= '9') || c == '-' || c == '_'
}

proof fn lemma_b64_digit_url(v: nat)
    requires
        v < 64,
    ensures
        is_url_safe(b64_digit(v, true)),
{
    if v < 26 {
        assert(((v + 65) as u8) as int == v + 65);
    } else if v < 52 {
        assert(((v + 71) as u8) as int == v + 71);
    } else if v < 62 {
        assert(((v - 4) as u8) as int == v - 4);
    }
}

/// URL-safe base64 without padding has the stated length and only URL-safe
/// digits.
pub proof fn lemma_base64_url(b: Seq<u8>)
    ensures
        base64_text(b, true, false).len() == base64_len(b.len(), false),
        forall|k: int|
            0 <= k < base64_text(b, true, false).len() ==> is_url_safe(
                #[trigger] base64_text(b, true, false)[k],
            ),
    decreases b.len(),
{
    let t = base64_text(b, true, false);
    if b.len() == 0 {
    } else if b.len() == 1 {
        let x = b[0] as nat;
        lemma_b64_digit_url(x / 4);
        lemma_b64_digit_url((x % 4) * 16);
        assert forall|k: int| 0 <= k < t.len() implies is_url_safe(#[trigger] t[k]) by {
            assert(k == 0 || k == 1);
        }
    } else if b.len() == 2 {
        let (x, y) = (b[0] as nat, b[1] as nat);
        lemma_b64_digit_url(x / 4);
        lemma_b64_digit_url((x % 4) * 16 + y / 16);
        lemma_b64_digit_url((y % 16) * 4);
        assert forall|k: int| 0 <= k < t.len() implies is_url_safe(#[trigger] t[k]) by {
            assert(k == 0 || k == 1 || k == 2);
        }
    } else {
        let (x, y, z) = (b[0] as nat, b[1] as nat, b[2] as nat);
        lemma_base64_url(b.skip(3));
        lemma_b64_digit_url(x / 4);
        lemma_b64_digit_url((x % 4) * 16 + y / 16);
        lemma_b64_digit_url((y % 16) * 4 + z / 64);
        lemma_b64_digit_url(z % 64);
        let r = base64_text(b.skip(3), true, false);
        assert forall|k: int| 0 <= k < t.len() implies is_url_safe(#[trigger] t[k]) by {
            if k >= 4 {
                assert(t[k] == r[k - 4]);
            }
        }
        assert(b.len() - 3 == b.skip(3).len());
    }
}

/// `base64::engine::general_purpose::URL_SAFE_NO_PAD.encode`: RFC 4648
/// base64 in the URL-safe alphabet (`-` and `_`), without padding. The crate
/// panics only when the encoded length overflows `usize`, which `requires`
/// rules out.
#[verifier::external_body]
pub(crate) fn base64_url_safe(bytes: &[u8]) -> (r: String)
    requires
        base64_len(bytes@.len(), false) <= usize::MAX,
    ensures
        r@ == base64_text(bytes@, true, false),
{
    base64::Engine::encode(&base64::engine::general_purpose::URL_SAFE_NO_PAD, bytes)
}

/// `base64::engine::general_purpose::STANDARD.encode`: RFC 4648 base64 in
/// the standard alphabet (`+` and `/`), padded with `=`. The crate panics only
/// when the encoded length overflows `usize`, which `requires` rules out.
#[verifier::external_body]
pub(crate) fn base64_standard(bytes: &[u8]) -> (r: String)
    requires
        base64_len(bytes@.len(), true) <= usize::MAX,
    ensures
        r@ == base64_text(bytes@, false, true),
{
    base64::Engine::encode(&base64::engine::general_purpose::STANDARD, bytes)
}

// ----------------------------------------------------------------- random

/// This thread's random generator, `rand::rngs::ThreadRng`.
#[verifier::external_type_specification]
#[verifier::external_body]
pub struct ExThreadRng(rand::rngs::ThreadRng);

/// `rand::thread_rng`: a handle on this thread's generator — ChaCha, seeded
/// and periodically reseeded from the operating system. Nothing is promised
/// of it.
#[verifier::external_body]
fn thread_rng() -> (r: rand::rngs::ThreadRng) {
    rand::thread_rng()
}

/// `RngCore::fill_bytes` on the thread generator: every byte of `dest` is
/// overwritten with generated ones, so only the length is promised. It panics
/// if the operating system cannot supply entropy, which no argument can rule
/// out.
#[verifier::external_body]
fn fill_bytes(rng: &mut rand::rngs::ThreadRng, dest: &mut Vec<u8>)
    ensures
        final(dest)@.len() == old(dest)@.len(),
{
    rand::RngCore::fill_bytes(rng, dest.as_mut_slice())
}

/// `n` bytes from this thread's generator. Nothing is stated of them but
/// their number: they are chance.
pub(crate) fn random_bytes(n: usize) -> (r: Vec<u8>)
    ensures
        r@.len() == n,
{
    let mut v: Vec<u8> = Vec::new();
    let mut i: usize = 0;
    while i < n
        invariant
            i <= n,
            v@.len() == i,
        decreases n - i,
    {
        v.push(0u8);
        i = i + 1;
    }
    let mut rng = thread_rng();
    fill_bytes(&mut rng, &mut v);
    v
}

} // verus!
