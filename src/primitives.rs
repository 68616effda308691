//! The outside primitives the scheme is built from, each behind one trusted
//! item: key generation, Shamir key splitting, the AEAD cipher, the
//! compressor and the hex transport encoding.
use vstd::prelude::*;
use chacha20poly1305::aead::{Aead, KeyInit};
use chacha20poly1305::ChaCha20Poly1305;
use rand::rngs::OsRng;

verus! {

/// Length of a symmetric key.
pub const KEY_LEN: usize = 32;

/// Length of a cipher nonce.
pub const NONCE_LEN: usize = 12;

/// Length of the integrity tag that sealing appends.
pub const TAG_LEN: usize = 16;

/// Length of the secret that the sharing scheme splits (the key, zero padded).
pub const SECRET_LEN: usize = 64;

/// Length of one key share as the sharing scheme encodes it.
pub const KEY_SHARE_LEN: usize = 113;

/// The bytes of an optional buffer.
pub open spec fn bytes_of(o: Option<Vec<u8>>) -> Option<Seq<u8>> {
    match o {
        Some(v) => Some(v@),
        None => None,
    }
}

/// The entries of `s` at the positions listed in `sel`, in that order.
pub open spec fn select(s: Seq<Seq<u8>>, sel: Seq<int>) -> Seq<Seq<u8>> {
    Seq::new(sel.len(), |j: int| s[sel[j]])
}

/// `sel` lists at least `k` distinct positions below `n`.
pub open spec fn valid_selection(sel: Seq<int>, n: nat, k: nat) -> bool {
    &&& sel.len() >= k
    &&& forall|j: int| 0 <= j < sel.len() ==> 0 <= #[trigger] sel[j] < n
    &&& forall|a: int, b: int| 0 <= a < b < sel.len() ==> sel[a] != sel[b]
}

/// What the sharing scheme restores from a list of key shares, if anything.
pub uninterp spec fn key_recovered(key_shares: Seq<Seq<u8>>) -> Option<Seq<u8>>;

/// `ks` is a splitting of `secret` into `n` key shares with threshold `k`:
/// key share `i` starts with its evaluation point `i + 1`, and any `k` or
/// more distinct key shares restore the secret.
pub open spec fn key_shares_of(secret: Seq<u8>, n: nat, k: nat, ks: Seq<Seq<u8>>) -> bool {
    &&& ks.len() == n
    &&& forall|i: int| 0 <= i < ks.len() ==> (#[trigger] ks[i]).len() == KEY_SHARE_LEN && ks[i][0] as int == i + 1
    &&& forall|sel: Seq<int>|
        #[trigger] valid_selection(sel, n, k) ==> key_recovered(select(ks, sel)) == Some(secret)
}

/// Relies on shamirsecretsharing::create_shares: it refuses `n == 0` and
/// `k == 0 || k > n`, and otherwise returns `n` shares of `SHARE_SIZE` (113)
/// bytes, share `i` starting with its point `i + 1`, of which any `k`
/// distinct ones restore the secret.
#[verifier::external_body]
pub(crate) fn split_key(secret: &[u8], n: u8, k: u8) -> (r: Option<Vec<Vec<u8>>>)
    requires
        secret@.len() == SECRET_LEN,
    ensures
        r is Some <==> 1 <= k <= n,
        r matches Some(ks) ==> key_shares_of(secret@, n as nat, k as nat, ks.deep_view()),
{
    shamirsecretsharing::create_shares(secret, n, k).ok()
}

/// Relies on shamirsecretsharing::combine_shares: on shares of the right
/// length it returns `Ok`, holding the restored `DATA_SIZE` (64) byte secret
/// or nothing when the shares do not restore one.
#[verifier::external_body]
pub(crate) fn recover_key(key_shares: &Vec<Vec<u8>>) -> (r: Option<Vec<u8>>)
    requires
        forall|i: int| 0 <= i < key_shares@.len() ==> (#[trigger] key_shares@[i])@.len() == KEY_SHARE_LEN,
    ensures
        bytes_of(r) == key_recovered(key_shares.deep_view()),
        r matches Some(v) ==> v@.len() == SECRET_LEN,
{
    match shamirsecretsharing::combine_shares(key_shares) {
        Ok(r) => r,
        Err(_) => None,
    }
}

/// Relies on chacha20poly1305's `KeyInit::generate_key` with the operating
/// system's random source: a fresh 32 byte key.
#[verifier::external_body]
pub(crate) fn generate_key() -> (r: Vec<u8>)
    ensures
        r@.len() == KEY_LEN,
{
    ChaCha20Poly1305::generate_key(&mut OsRng).to_vec()
}

/// What ChaCha20-Poly1305 produces from a key, a nonce and a plaintext.
pub uninterp spec fn sealed(key: Seq<u8>, nonce: Seq<u8>, plaintext: Seq<u8>) -> Seq<u8>;

/// What ChaCha20-Poly1305 opens from a key, a nonce and a ciphertext:
/// nothing when the tag does not verify.
pub uninterp spec fn opened(key: Seq<u8>, nonce: Seq<u8>, ciphertext: Seq<u8>) -> Option<Seq<u8>>;

/// Relies on chacha20poly1305's `Aead::encrypt`: it refuses a plaintext of
/// `u32::MAX` or more 64 byte blocks, and otherwise returns the ciphertext
/// followed by a 16 byte tag, which the same key and nonce open to the plaintext.
#[verifier::external_body]
pub(crate) fn seal(key: &[u8], nonce: &[u8], plaintext: &[u8]) -> (r: Option<Vec<u8>>)
    requires
        key@.len() == KEY_LEN,
        nonce@.len() == NONCE_LEN,
    ensures
        r is Some <==> plaintext@.len() / 64 < 0xffff_ffff,
        r matches Some(c) ==> c@ == sealed(key@, nonce@, plaintext@) && c@.len() == plaintext@.len() + TAG_LEN
            && opened(key@, nonce@, c@) == Some(plaintext@),
{
    let cipher = ChaCha20Poly1305::new(chacha20poly1305::Key::from_slice(key));
    cipher.encrypt(chacha20poly1305::Nonce::from_slice(nonce), plaintext).ok()
}

/// Relies on chacha20poly1305's `Aead::decrypt`: the plaintext, or nothing
/// when the tag does not verify.
#[verifier::external_body]
pub(crate) fn open(key: &[u8], nonce: &[u8], ciphertext: &[u8]) -> (r: Option<Vec<u8>>)
    requires
        key@.len() == KEY_LEN,
        nonce@.len() == NONCE_LEN,
    ensures
        bytes_of(r) == opened(key@, nonce@, ciphertext@),
{
    let cipher = ChaCha20Poly1305::new(chacha20poly1305::Key::from_slice(key));
    cipher.decrypt(chacha20poly1305::Nonce::from_slice(nonce), ciphertext).ok()
}

/// What zstd decodes from a byte stream: nothing when it is not a valid stream.
pub uninterp spec fn decompressed(stream: Seq<u8>) -> Option<Seq<u8>>;

/// An upper bound on zstd's `ZSTD_COMPRESSBOUND(len)`: the input length,
/// plus one byte in 256, plus a margin of at most 64 bytes.
pub open spec fn compress_bound(len: nat) -> nat {
    len + len / 256 + 64
}

/// Relies on zstd::stream::encode_all at the default level: from a slice
/// into a `Vec` it fails only when memory runs out (and then panics, as
/// allocation does); the stream stays within zstd's compress bound and
/// decodes to the input (the compression is lossless).
#[verifier::external_body]
pub(crate) fn compress(data: &[u8]) -> (r: Vec<u8>)
    ensures
        r@.len() <= compress_bound(data@.len()),
        decompressed(r@) == Some(data@),
{
    zstd::stream::encode_all(data, 0).expect("in-memory zstd encoding")
}

/// Relies on zstd::stream::decode_all: the decoded bytes, or nothing on an
/// invalid stream.
#[verifier::external_body]
pub(crate) fn decompress(stream: &[u8]) -> (r: Option<Vec<u8>>)
    ensures
        bytes_of(r) == decompressed(stream@),
{
    zstd::stream::decode_all(stream).ok()
}


/// The lower-case hex digit for a value below 16.
pub open spec fn hex_digit(v: int) -> u8 {
    if v < 10 {
        (48 + v) as u8
    } else {
        (87 + v) as u8
    }
}

/// Lower-case hex text of `b`: two digits per byte, high nibble first.
pub open spec fn hex_of(b: Seq<u8>) -> Seq<u8> {
    Seq::new(
        2 * b.len(),
        |i: int|
            if i % 2 == 0 {
                hex_digit(b[i / 2] as int / 16)
            } else {
                hex_digit(b[i / 2] as int % 16)
            },
    )
}

/// The value of a hex digit of either case.
pub open spec fn hex_value(c: u8) -> Option<int> {
    if 48 <= c <= 57 {
        Some(c - 48)
    } else if 97 <= c <= 102 {
        Some(c - 87)
    } else if 65 <= c <= 70 {
        Some(c - 55)
    } else {
        None
    }
}

/// The bytes that hex text `s` stands for: nothing when its length is odd
/// or when it holds a character that is not a hex digit.
pub open spec fn hex_decoding(s: Seq<u8>) -> Option<Seq<u8>> {
    if s.len() % 2 == 0 && forall|i: int| 0 <= i < s.len() ==> (#[trigger] hex_value(s[i])) is Some {
        Some(
            Seq::new(
                s.len() / 2,
                |j: int| (hex_value(s[2 * j]).unwrap() * 16 + hex_value(s[2 * j + 1]).unwrap()) as u8,
            ),
        )
    } else {
        None
    }
}

/// Relies on hex::encode: lower-case digits, two per byte, high nibble first.
#[verifier::external_body]
pub(crate) fn to_hex(b: &[u8]) -> (r: Vec<u8>)
    ensures
        r@ == hex_of(b@),
{
    hex::encode(b).into_bytes()
}

/// Relies on hex::decode: it refuses odd lengths and characters outside
/// `0-9`, `a-f`, `A-F`, and otherwise reads the digits in pairs.
#[verifier::external_body]
pub(crate) fn from_hex(s: &[u8]) -> (r: Option<Vec<u8>>)
    ensures
        bytes_of(r) == hex_decoding(s@),
{
    hex::decode(s).ok()
}

} // verus!
