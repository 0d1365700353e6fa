//! Content digests: an outside hash behind one trusted wrapper, verified hex
//! encoding on top of it, and the comparison against a published digest.

use crate::bytestr::bytes_eq;
use vstd::prelude::*;

verus! {

/// The 16-byte digest that the outside hash assigns to the given input bytes.
pub uninterp spec fn md5_of(bytes: Seq<u8>) -> Seq<u8>;

/// Relies on md5::compute: the digest is 16 bytes and depends on the input
/// bytes alone.
#[verifier::external_body]
fn md5_bytes(bytes: &[u8]) -> (r: Vec<u8>)
    ensures
        r@ == md5_of(bytes@),
        r@.len() == 16,
{
    md5::compute(bytes).0.to_vec()
}

/// The lower-case hex character for a value below 16.
pub open spec fn hex_digit(n: u8) -> u8 {
    if n < 10 {
        (48 + n) as u8
    } else {
        (87 + n) as u8
    }
}

/// Lower-case hex encoding: two characters per input byte, high nibble first.
pub open spec fn hex_of(b: Seq<u8>) -> Seq<u8> {
    Seq::new(
        b.len() * 2,
        |i: int|
            if i % 2 == 0 {
                hex_digit(b[i / 2] / 16)
            } else {
                hex_digit(b[i / 2] % 16)
            },
    )
}

fn hex_digit_byte(n: u8) -> (r: u8)
    requires
        n < 16,
    ensures
        r == hex_digit(n),
{
    if n < 10 {
        48 + n
    } else {
        87 + n
    }
}

/// Hex-encodes a byte string.
pub fn hex_encode(b: &[u8]) -> (r: Vec<u8>)
    ensures
        r@ == hex_of(b@),
{
    let mut r: Vec<u8> = Vec::new();
    let mut i: usize = 0;
    while i < b.len()
        invariant
            i <= b@.len(),
            r@ == hex_of(b@).take(2 * i),
        decreases b@.len() - i,
    {
        r.push(hex_digit_byte(b[i] / 16));
        r.push(hex_digit_byte(b[i] % 16));
        proof {
            assert(r@ =~= hex_of(b@).take(2 * (i + 1)));
        }
        i += 1;
    }
    proof {
        assert(hex_of(b@).take(2 * (i as int)) =~= hex_of(b@));
    }
    r
}

/// The published form of a content digest: the hex encoding of the hash.
pub open spec fn digest_of(bytes: Seq<u8>) -> Seq<u8> {
    hex_of(md5_of(bytes))
}

/// Computes the digest of a file's content, in its published hex form.
pub fn digest(bytes: &[u8]) -> (r: Vec<u8>)
    ensures
        r@ == digest_of(bytes@),
        r@.len() == 32,
{
    let h = md5_bytes(bytes);
    hex_encode(h.as_slice())
}

/// Hex encodings hold no byte below `'0'`, so no separator of the metadata
/// document's serialized form.
pub proof fn lemma_hex_no_low(b: Seq<u8>, c: u8)
    requires
        c < 48,
    ensures
        !hex_of(b).contains(c),
{
    assert forall|j: int| 0 <= j < hex_of(b).len() implies hex_of(b)[j] != c by {
        assert(hex_of(b)[j] == if j % 2 == 0 {
            hex_digit(b[j / 2] / 16)
        } else {
            hex_digit(b[j / 2] % 16)
        });
        assert(hex_of(b)[j] >= 48);
    }
}

#[derive(Debug, Clone, Copy, PartialEq, Eq, Structural)]
pub enum VerifyOutcome {
    DigestMatch,
    DigestMismatch,
}

/// Compares a file's content against the digest the archive published for it.
/// The caller reads the file; a failed read never reaches this comparison.
pub fn verify_bytes(bytes: &[u8], expected: &[u8]) -> (r: VerifyOutcome)
    ensures
        r == VerifyOutcome::DigestMatch <==> digest_of(bytes@) == expected@,
{
    let d = digest(bytes);
    if bytes_eq(d.as_slice(), expected) {
        VerifyOutcome::DigestMatch
    } else {
        VerifyOutcome::DigestMismatch
    }
}

} // verus!
