//! The server's secret: a random key string, hashed with SHA-256 and written in hex.

use vstd::prelude::*;
use rand::Rng;
use sha2::{Digest, Sha256};
use rand::rngs::ThreadRng;
use crate::text::{is_ws, no_ws};

verus! {

#[verifier::external_type_specification]
#[verifier::external_body]
pub struct ExThreadRng(ThreadRng);

/// `rand::rng`: a handle on this thread's random number generator. Nothing is
/// claimed of it.
#[verifier::external_body]
fn thread_rng() -> ThreadRng {
    rand::rng()
}

/// `Rng::random_range(0..n)`: a random index below `n`. The claim is only that the
/// result is below `n` (the crate panics on an empty range, which `requires` excludes);
/// which index comes is left open.
#[verifier::external_body]
fn random_index(rng: &mut ThreadRng, n: usize) -> (i: usize)
    requires
        n > 0,
    ensures
        i < n,
{
    rng.random_range(0..n)
}

/// The SHA-256 digest of `data`.
pub uninterp spec fn sha256_spec(data: Seq<u8>) -> Seq<u8>;

/// `Digest::digest` of `sha2::Sha256`: the claim is that the result is the SHA-256
/// digest of `data`, a function of `data` alone, and that it has 32 bytes (the
/// output size of `Sha256`).
#[verifier::external_body]
fn sha256(data: &[u8]) -> (digest: Vec<u8>)
    ensures
        digest@ == sha256_spec(data@),
        digest@.len() == 32,
{
    Sha256::digest(data).to_vec()
}

/// The lower-case hex digit for `d < 16`.
pub open spec fn hex_digit(d: int) -> char {
    seq!['0', '1', '2', '3', '4', '5', '6', '7', '8', '9', 'a', 'b', 'c', 'd', 'e', 'f'][d]
}

/// `data` in lower-case hex, two digits per byte, high half first.
pub open spec fn hex_spec(data: Seq<u8>) -> Seq<char>
    decreases data.len(),
{
    if data.len() == 0 {
        Seq::empty()
    } else {
        seq![hex_digit(data[0] as int / 16), hex_digit(data[0] as int % 16)] + hex_spec(data.drop_first())
    }
}

/// `hex::encode`: the claim is that the result is [`hex_spec`] of `data`, which is
/// what the crate's table `0123456789abcdef` and its high-half-first order give.
#[verifier::external_body]
fn hex_encode(data: &[u8]) -> (s: String)
    ensures
        s@ == hex_spec(data@),
{
    hex::encode(data)
}

/// The key string for chosen positions in the character set.
pub open spec fn key_chars(indices: Seq<usize>, charset: Seq<u8>) -> Seq<char> {
    indices.map_values(|i: usize| charset[i as int] as char)
}

/// The key string whose `j`-th character is `charset[indices[j]]`.
pub fn key_string_from_indices(indices: &[usize], charset: &[u8]) -> (key: String)
    requires
        forall|j: int| 0 <= j < indices@.len() ==> #[trigger] indices@[j] < charset@.len(),
    ensures
        key@ == key_chars(indices@, charset@),
{
    let mut out: Vec<char> = Vec::new();
    for j in 0..indices.len()
        invariant
            forall|j: int| 0 <= j < indices@.len() ==> #[trigger] indices@[j] < charset@.len(),
            out@ == key_chars(indices@.take(j as int), charset@),
    {
        let i = indices[j];
        out.push(charset[i] as char);
        assert(key_chars(indices@.take(j + 1), charset@) =~= key_chars(
            indices@.take(j as int),
            charset@,
        ).push(charset@[i as int] as char));
    }
    assert(indices@.take(indices@.len() as int) =~= indices@);
    crate::text::string_of(&out)
}

/// A random key string of `size` characters, each drawn from `charset`.
pub fn generate_secret_key_string(size: usize, charset: &[u8]) -> (key: String)
    requires
        size > 0 ==> charset@.len() > 0,
    ensures
        exists|indices: Seq<usize>|
            {
                &&& indices.len() == size
                &&& forall|j: int| 0 <= j < size ==> #[trigger] indices[j] < charset@.len()
                &&& key@ == key_chars(indices, charset@)
            },
{
    let mut rng = thread_rng();
    let mut indices: Vec<usize> = Vec::new();
    for _k in 0..size
        invariant
            size > 0 ==> charset@.len() > 0,
            forall|j: int| 0 <= j < indices@.len() ==> #[trigger] indices@[j] < charset@.len(),
            indices@.len() == _k,
    {
        let i = random_index(&mut rng, charset.len());
        indices.push(i);
    }
    let key = key_string_from_indices(&indices, charset);
    assert(indices@.len() == size);
    key
}

/// The secret written for a digest: its bytes in lower-case hex.
pub fn secret_from_digest(digest: &[u8]) -> (secret: String)
    ensures
        secret@ == hex_spec(digest@),
        secret@.len() == 2 * digest@.len(),
{
    proof {
        lemma_hex_spec(digest@);
    }
    hex_encode(digest)
}

/// The server's secret for a key string: the SHA-256 digest of its UTF-8 bytes, in
/// lower-case hex.
pub fn secret_key_from(key_string: &str) -> (secret: String)
    ensures
        secret@ == hex_spec(sha256_spec(vstd::utf8::encode_utf8(key_string@))),
        secret@.len() == 64,
{
    let digest = sha256(key_string.as_bytes());
    secret_from_digest(&digest)
}

/// Hex text is twice as long as its bytes and made of `0`-`9` and `a`-`f` only.
pub proof fn lemma_hex_spec(data: Seq<u8>)
    ensures
        hex_spec(data).len() == 2 * data.len(),
        forall|i: int|
            0 <= i < hex_spec(data).len() ==> {
                let c = #[trigger] hex_spec(data)[i];
                ('0' <= c <= '9') || ('a' <= c <= 'f')
            },
    decreases data.len(),
{
    if data.len() > 0 {
        lemma_hex_spec(data.drop_first());
        let head = seq![hex_digit(data[0] as int / 16), hex_digit(data[0] as int % 16)];
        let tail = hex_spec(data.drop_first());
        assert forall|i: int| 0 <= i < hex_spec(data).len() implies {
            let c = #[trigger] hex_spec(data)[i];
            ('0' <= c <= '9') || ('a' <= c <= 'f')
        } by {
            if i < 2 {
                let d = if i == 0 {
                    data[0] as int / 16
                } else {
                    data[0] as int % 16
                };
                assert(hex_spec(data)[i] == hex_digit(d));
                assert(0 <= d < 16);
            } else {
                assert(hex_spec(data)[i] == tail[i - 2]);
            }
        }
    }
}

/// A secret written in hex holds no white space and no NUL, so it meets what the
/// registration and signing laws ask of a secret.
pub proof fn lemma_hex_secret_is_plain(digest: Seq<u8>)
    ensures
        no_ws(hex_spec(digest)),
        forall|i: int| 0 <= i < hex_spec(digest).len() ==> #[trigger] hex_spec(digest)[i] != '\0',
{
    lemma_hex_spec(digest);
    let h = hex_spec(digest);
    assert forall|i: int| 0 <= i < h.len() implies !is_ws(#[trigger] h[i]) by {
        assert(('0' <= h[i] <= '9') || ('a' <= h[i] <= 'f'));
    }
}

} // verus!
