//! SHA-256 content addressing, used only for dedup, redefinition detection and
//! provenance, never for naming atoms.
use vstd::prelude::*;
use crate::text::push_char;

verus! {

/// The 32-byte SHA-256 digest of `data`.
pub uninterp spec fn sha256_spec(data: Seq<u8>) -> Seq<u8>;

/// `sha2::Sha256::digest`. Claimed of it: the result is the digest that
/// `sha256_spec` names for these bytes, and it is 32 bytes long (the output
/// size `sha2` declares for SHA-256).
#[verifier::external_body]
fn sha256(data: &[u8]) -> (r: Vec<u8>)
    ensures
        r@ == sha256_spec(data@),
        r@.len() == 32,
{
    <sha2::Sha256 as sha2::Digest>::digest(data).to_vec()
}

/// The lowercase hexadecimal digit for `d < 16`.
pub open spec fn hex_digit(d: nat) -> char {
    if d < 10 {
        ((d + 48) as u8) as char
    } else {
        ((d + 87) as u8) as char
    }
}

/// Two lowercase hexadecimal digits per byte, most significant first.
pub open spec fn hex_spec(bytes: Seq<u8>) -> Seq<char>
    decreases bytes.len(),
{
    if bytes.len() == 0 {
        Seq::empty()
    } else {
        hex_spec(bytes.drop_last()) + seq![
            hex_digit((bytes.last() / 16) as nat),
            hex_digit((bytes.last() % 16) as nat),
        ]
    }
}

fn hex_char(d: u8) -> (c: char)
    requires
        d < 16,
    ensures
        c == hex_digit(d as nat),
{
    if d < 10 {
        (d + 48) as char
    } else {
        (d + 87) as char
    }
}

/// The SHA-256 digest of `data` as 64 lowercase hexadecimal characters.
pub fn hash_hex(data: &[u8]) -> (r: String)
    ensures
        r@ == hex_spec(sha256_spec(data@)),
        r@.len() == 64,
{
    let out = sha256(data);
    let mut s = String::new();
    let mut i: usize = 0;
    while i < out.len()
        invariant
            i <= out@.len(),
            out@.len() == 32,
            s@ == hex_spec(out@.subrange(0, i as int)),
            s@.len() == 2 * i,
        decreases out@.len() - i,
    {
        let b = out[i];
        push_char(&mut s, hex_char(b / 16));
        push_char(&mut s, hex_char(b % 16));
        proof {
            let t = out@.subrange(0, i + 1);
            assert(t.drop_last() =~= out@.subrange(0, i as int));
            assert(t.last() == b);
            assert(s@ =~= hex_spec(t));
        }
        i = i + 1;
    }
    proof {
        assert(out@.subrange(0, 32) =~= out@);
    }
    s
}

/// The hash of a text: the SHA-256 of its UTF-8 bytes, in hexadecimal.
pub open spec fn text_hash(t: Seq<char>) -> Seq<char> {
    hex_spec(sha256_spec(vstd::utf8::encode_utf8(t)))
}

/// The hash of a text (see [`text_hash`]).
pub fn hash_text(s: &String) -> (r: String)
    ensures
        r@ == text_hash(s@),
{
    hash_hex(s.as_str().as_bytes())
}

} // verus!
