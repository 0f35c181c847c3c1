//! Where the marks of a source file are kept: a file named by the digest of
//! the source file's path.

use vstd::prelude::*;

verus! {

/// The SHA-256 digest of `data`.
pub uninterp spec fn sha256_of(data: Seq<u8>) -> Seq<u8>;

/// Relies on `sha2::Sha256::digest` (through `sha2::Digest`): the SHA-256
/// digest of `data`, which is 32 bytes long.
#[verifier::external_body]
fn sha256(data: &[u8]) -> (r: Vec<u8>)
    ensures
        r@ == sha256_of(data@),
        r@.len() == 32,
{
    <sha2::Sha256 as sha2::Digest>::digest(data).to_vec()
}

/// The lowercase hexadecimal digit of `v < 16`, as an ASCII byte.
pub open spec fn hex_digit(v: int) -> u8 {
    if v < 10 {
        (48 + v) as u8
    } else {
        (87 + v) as u8
    }
}

/// Two lowercase hexadecimal digits per byte, high half first.
pub open spec fn lower_hex(b: Seq<u8>) -> Seq<u8>
    decreases b.len(),
{
    if b.len() == 0 {
        Seq::empty()
    } else {
        lower_hex(b.drop_last()) + seq![hex_digit(b.last() as int / 16), hex_digit(b.last() as int % 16)]
    }
}

fn hex_digit_exec(v: u8) -> (r: u8)
    requires
        v < 16,
    ensures
        r == hex_digit(v as int),
{
    if v < 10 {
        48 + v
    } else {
        87 + v
    }
}

/// `digest` written as lowercase hexadecimal.
pub fn hex_name(digest: &[u8]) -> (r: Vec<u8>)
    ensures
        r@ == lower_hex(digest@),
{
    let mut out: Vec<u8> = Vec::new();
    let mut k: usize = 0;
    while k < digest.len()
        invariant
            k <= digest@.len(),
            out@ == lower_hex(digest@.take(k as int)),
        decreases digest@.len() - k,
    {
        let b = digest[k];
        out.push(hex_digit_exec(b / 16));
        out.push(hex_digit_exec(b % 16));
        proof {
            assert(digest@.take(k + 1).drop_last() =~= digest@.take(k as int));
            assert(out@ =~= lower_hex(digest@.take(k + 1)));
        }
        k = k + 1;
    }
    assert(digest@.take(k as int) =~= digest@);
    out
}

/// The name of the file that keeps the marks of the source file whose
/// canonical path has the bytes `path`: its SHA-256 digest in lowercase
/// hexadecimal.
pub fn spec_file_name(path: &[u8]) -> (r: Vec<u8>)
    ensures
        r@ == lower_hex(sha256_of(path@)),
        r@.len() == 64,
{
    let digest = sha256(path);
    let name = hex_name(digest.as_slice());
    proof {
        lemma_lower_hex_len(digest@);
    }
    name
}

pub proof fn lemma_lower_hex_len(b: Seq<u8>)
    ensures
        lower_hex(b).len() == 2 * b.len(),
    decreases b.len(),
{
    if b.len() > 0 {
        lemma_lower_hex_len(b.drop_last());
    }
}

} // verus!
