//! Splitting a payload into shares and combining shares back into it.
use vstd::prelude::*;
use vstd::slice::{slice_subrange, slice_to_vec};
use crate::error::ShareError;
use crate::primitives::{
    compress, compress_bound, decompress, decompressed, generate_key, key_recovered, key_shares_of,
    open, opened, recover_key, seal, sealed, split_key, KEY_LEN, KEY_SHARE_LEN, NONCE_LEN,
    SECRET_LEN, TAG_LEN,
};

verus! {

/// The largest payload that splitting is sure to accept: 2^37 bytes, whose
/// compressed form stays below the cipher's limit of `u32::MAX` blocks.
pub const MAX_PAYLOAD_LEN: u64 = 137438953472;

/// The nonce used with every key. Each key is fresh and seals exactly one
/// payload, so a fixed nonce never repeats under one key.
pub open spec fn zero_nonce() -> Seq<u8> {
    Seq::new(NONCE_LEN as nat, |i: int| 0u8)
}

/// The secret handed to the sharing scheme: the key followed by zeros.
pub open spec fn padded_key(key: Seq<u8>) -> Seq<u8> {
    key + Seq::new((SECRET_LEN - KEY_LEN) as nat, |i: int| 0u8)
}

/// The key share at the front of a share.
pub open spec fn key_part(share: Seq<u8>) -> Seq<u8> {
    share.subrange(0, KEY_SHARE_LEN as int)
}

/// The ciphertext behind the key share of a share.
pub open spec fn cipher_part(share: Seq<u8>) -> Seq<u8> {
    share.subrange(KEY_SHARE_LEN as int, share.len() as int)
}

/// `shares` is what splitting `data` with parameters `n` and `k` yields:
/// for some 32 byte key and some stream that decompresses to `data`, the
/// shares are the key's `n` key shares, each followed by the stream sealed
/// under the key and the fixed nonce.
pub open spec fn split_of(data: Seq<u8>, n: nat, k: nat, shares: Seq<Seq<u8>>) -> bool {
    exists|key: Seq<u8>, ks: Seq<Seq<u8>>, stream: Seq<u8>|
        #[trigger] split_with(data, n, k, shares, key, ks, stream)
}

/// `shares` is a splitting of `data` made with this key, these key shares and
/// this compressed stream.
pub open spec fn split_with(
    data: Seq<u8>,
    n: nat,
    k: nat,
    shares: Seq<Seq<u8>>,
    key: Seq<u8>,
    ks: Seq<Seq<u8>>,
    stream: Seq<u8>,
) -> bool {
    &&& 1 <= k <= n <= 255
    &&& key.len() == KEY_LEN
    &&& key_shares_of(padded_key(key), n, k, ks)
    &&& decompressed(stream) == Some(data)
    &&& sealed(key, zero_nonce(), stream).len() == stream.len() + TAG_LEN
    &&& opened(key, zero_nonce(), sealed(key, zero_nonce(), stream)) == Some(stream)
    &&& shares == Seq::new(n, |i: int| ks[i] + sealed(key, zero_nonce(), stream))
}

/// What combining `shares` gives: the checks run in order on length, on the
/// agreement of the ciphertexts, on the recovered key and on the stream.
pub open spec fn combine_outcome(shares: Seq<Seq<u8>>) -> Result<Seq<u8>, ShareError> {
    if exists|i: int| 0 <= i < shares.len() && (#[trigger] shares[i]).len() < KEY_SHARE_LEN {
        Err(ShareError::MalformedShare)
    } else if exists|i: int|
        0 <= i < shares.len() && cipher_part(#[trigger] shares[i]) != cipher_part(shares[0]) {
        Err(ShareError::InconsistentShares)
    } else {
        match key_recovered(shares.map_values(|s: Seq<u8>| key_part(s))) {
            None => Err(ShareError::AuthenticationFailure),
            Some(secret) => match opened(secret.subrange(0, KEY_LEN as int), zero_nonce(), cipher_part(shares[0])) {
                None => Err(ShareError::AuthenticationFailure),
                Some(stream) => match decompressed(stream) {
                    None => Err(ShareError::DecompressionError),
                    Some(data) => Ok(data),
                },
            },
        }
    }
}

/// The shape of a splitting into `n` shares: each share is longer than a
/// key share, all carry the same ciphertext, and no two carry the same
/// key share.
pub open spec fn split_shape(shares: Seq<Seq<u8>>, n: nat) -> bool {
    &&& shares.len() == n
    &&& forall|i: int| 0 <= i < shares.len() ==> (#[trigger] shares[i]).len() >= KEY_SHARE_LEN + TAG_LEN
    &&& forall|i: int| 0 <= i < shares.len() ==> cipher_part(#[trigger] shares[i]) == cipher_part(shares[0])
    &&& forall|i: int, j: int|
        0 <= i < shares.len() && 0 <= j < shares.len() && i != j
            ==> key_part(#[trigger] shares[i]) != key_part(#[trigger] shares[j])
}

/// Every splitting has the shape of one.
pub proof fn lemma_split_shape(data: Seq<u8>, n: nat, k: nat, shares: Seq<Seq<u8>>)
    requires
        split_of(data, n, k, shares),
    ensures
        split_shape(shares, n),
{
    let (key, ks, stream) = choose|key: Seq<u8>, ks: Seq<Seq<u8>>, stream: Seq<u8>|
        #[trigger] split_with(data, n, k, shares, key, ks, stream);
    let ct = sealed(key, zero_nonce(), stream);
    assert forall|i: int| 0 <= i < shares.len() implies (#[trigger] shares[i]).len() >= KEY_SHARE_LEN + TAG_LEN
        && cipher_part(shares[i]) == ct && key_part(shares[i]) == ks[i] by {
        assert(ks[i].len() == KEY_SHARE_LEN);
        assert(cipher_part(shares[i]) =~= ct);
        assert(key_part(shares[i]) =~= ks[i]);
    }
    assert forall|i: int, j: int|
        0 <= i < shares.len() && 0 <= j < shares.len() && i != j
            implies key_part(#[trigger] shares[i]) != key_part(#[trigger] shares[j]) by {
        assert(ks[i][0] as int == i + 1);
        assert(ks[j][0] as int == j + 1);
        assert(key_part(shares[i])[0] == ks[i][0]);
        assert(key_part(shares[j])[0] == ks[j][0]);
    }
}

/// Splits `data` into `n` shares, any `k` of which restore it.
pub fn create_shares(n: u8, k: u8, data: &[u8]) -> (r: Result<Vec<Vec<u8>>, ShareError>)
    ensures
        r == Err::<Vec<Vec<u8>>, ShareError>(ShareError::InvalidParameters) <==> !(1 <= k <= n),
        1 <= k <= n && data@.len() <= MAX_PAYLOAD_LEN ==> r is Ok,
        r matches Ok(shares) ==> split_of(data@, n as nat, k as nat, shares.deep_view())
            && split_shape(shares.deep_view(), n as nat),
        r matches Err(e) ==> e == ShareError::InvalidParameters || (e == ShareError::EncryptionError
            && data@.len() > MAX_PAYLOAD_LEN),
{
    let key = generate_key();
    let mut secret: Vec<u8> = Vec::new();
    let mut i: usize = 0;
    while i < SECRET_LEN
        invariant
            key@.len() == KEY_LEN,
            i <= SECRET_LEN,
            secret@.len() == i,
            forall|j: int| 0 <= j < i ==> #[trigger] secret@[j] == padded_key(key@)[j],
        decreases SECRET_LEN - i,
    {
        if i < KEY_LEN {
            secret.push(key[i]);
        } else {
            secret.push(0u8);
        }
        i = i + 1;
    }
    assert(secret@ =~= padded_key(key@));
    let key_shares = match split_key(secret.as_slice(), n, k) {
        Some(ks) => ks,
        None => return Err(ShareError::InvalidParameters),
    };
    let stream = compress(data);
    let nonce: Vec<u8> = vec![0u8; NONCE_LEN];
    assert(nonce@ =~= zero_nonce());
    assert(data@.len() <= MAX_PAYLOAD_LEN ==> compress_bound(data@.len()) / 64 < 0xffff_ffff);
    let ciphertext = match seal(key.as_slice(), nonce.as_slice(), stream.as_slice()) {
        Some(c) => c,
        None => return Err(ShareError::EncryptionError),
    };
    let ghost ks = key_shares.deep_view();
    let mut shares: Vec<Vec<u8>> = Vec::new();
    let mut i: usize = 0;
    while i < key_shares.len()
        invariant
            ks == key_shares.deep_view(),
            ks.len() == n,
            i <= key_shares.len(),
            shares@.len() == i,
            forall|j: int| 0 <= j < i ==> (#[trigger] shares@[j])@ == ks[j] + ciphertext@,
        decreases key_shares.len() - i,
    {
        let mut share: Vec<u8> = Vec::new();
        share.extend_from_slice(key_shares[i].as_slice());
        share.extend_from_slice(ciphertext.as_slice());
        assert(share@ =~= ks[i as int] + ciphertext@);
        shares.push(share);
        i = i + 1;
    }
    assert forall|j: int| 0 <= j < shares@.len() implies shares.deep_view()[j] == shares@[j]@ by {
        assert(shares@[j].deep_view() =~= shares@[j]@);
    }
    assert(shares.deep_view() =~= Seq::new(n as nat, |j: int| ks[j] + sealed(key@, zero_nonce(), stream@)));
    assert(split_with(data@, n as nat, k as nat, shares.deep_view(), key@, ks, stream@));
    proof {
        lemma_split_shape(data@, n as nat, k as nat, shares.deep_view());
    }
    Ok(shares)
}


/// The bytes of a result.
pub open spec fn result_bytes(r: Result<Vec<u8>, ShareError>) -> Result<Seq<u8>, ShareError> {
    match r {
        Ok(v) => Ok(v@),
        Err(e) => Err(e),
    }
}

/// Whether two byte strings are equal.
pub fn same_bytes(a: &[u8], b: &[u8]) -> (r: bool)
    ensures
        r == (a@ == b@),
{
    if a.len() != b.len() {
        return false;
    }
    let mut i: usize = 0;
    while i < a.len()
        invariant
            a@.len() == b@.len(),
            i <= a@.len(),
            forall|j: int| 0 <= j < i ==> a@[j] == b@[j],
        decreases a.len() - i,
    {
        if a[i] != b[i] {
            return false;
        }
        i = i + 1;
    }
    assert(a@ =~= b@);
    true
}

/// Restores the payload from shares of one splitting; at least the
/// splitting's threshold of distinct shares must be given.
pub fn combine_shares(shares: &[Vec<u8>]) -> (r: Result<Vec<u8>, ShareError>)
    requires
        shares@.len() >= 1,
    ensures
        result_bytes(r) == combine_outcome(shares.deep_view()),
{
    let ghost all = shares.deep_view();
    assert forall|j: int| 0 <= j < shares@.len() implies all[j] == shares@[j]@ by {
        assert(shares@[j].deep_view() =~= shares@[j]@);
    }
    let mut i: usize = 0;
    while i < shares.len()
        invariant
            all == shares.deep_view(),
            forall|j: int| 0 <= j < shares@.len() ==> all[j] == (#[trigger] shares@[j])@,
            i <= shares@.len(),
            forall|j: int| 0 <= j < i ==> (#[trigger] all[j]).len() >= KEY_SHARE_LEN,
        decreases shares.len() - i,
    {
        if shares[i].len() < KEY_SHARE_LEN {
            assert(all[i as int].len() < KEY_SHARE_LEN);
            return Err(ShareError::MalformedShare);
        }
        i = i + 1;
    }
    let ciphertext = slice_subrange(shares[0].as_slice(), KEY_SHARE_LEN, shares[0].len());
    let mut i: usize = 1;
    while i < shares.len()
        invariant
            all == shares.deep_view(),
            forall|j: int| 0 <= j < shares@.len() ==> all[j] == (#[trigger] shares@[j])@,
            forall|j: int| 0 <= j < shares@.len() ==> (#[trigger] all[j]).len() >= KEY_SHARE_LEN,
            ciphertext@ == cipher_part(all[0]),
            1 <= i <= shares@.len(),
            forall|j: int| 0 <= j < i ==> cipher_part(#[trigger] all[j]) == cipher_part(all[0]),
        decreases shares.len() - i,
    {
        let own = slice_subrange(shares[i].as_slice(), KEY_SHARE_LEN, shares[i].len());
        if !same_bytes(own, ciphertext) {
            assert(cipher_part(all[i as int]) != cipher_part(all[0]));
            return Err(ShareError::InconsistentShares);
        }
        i = i + 1;
    }
    let ghost parts = all.map_values(|s: Seq<u8>| key_part(s));
    let mut key_shares: Vec<Vec<u8>> = Vec::new();
    let mut i: usize = 0;
    while i < shares.len()
        invariant
            all == shares.deep_view(),
            parts == all.map_values(|s: Seq<u8>| key_part(s)),
            forall|j: int| 0 <= j < shares@.len() ==> all[j] == (#[trigger] shares@[j])@,
            forall|j: int| 0 <= j < shares@.len() ==> (#[trigger] all[j]).len() >= KEY_SHARE_LEN,
            i <= shares@.len(),
            key_shares@.len() == i,
            forall|j: int| 0 <= j < i ==> (#[trigger] key_shares@[j])@ == parts[j],
        decreases shares.len() - i,
    {
        key_shares.push(slice_to_vec(slice_subrange(shares[i].as_slice(), 0, KEY_SHARE_LEN)));
        i = i + 1;
    }
    assert forall|j: int| 0 <= j < key_shares@.len() implies key_shares.deep_view()[j] == parts[j] by {
        assert(key_shares@[j].deep_view() =~= key_shares@[j]@);
    }
    assert(key_shares.deep_view() =~= parts);
    let secret = match recover_key(&key_shares) {
        Some(s) => s,
        None => return Err(ShareError::AuthenticationFailure),
    };
    let key = slice_subrange(secret.as_slice(), 0, KEY_LEN);
    let nonce: Vec<u8> = vec![0u8; NONCE_LEN];
    assert(nonce@ =~= zero_nonce());
    let stream = match open(key, nonce.as_slice(), ciphertext) {
        Some(p) => p,
        None => return Err(ShareError::AuthenticationFailure),
    };
    match decompress(stream.as_slice()) {
        Some(data) => Ok(data),
        None => Err(ShareError::DecompressionError),
    }
}

} // verus!
