//! What holds of splitting and combining taken together.
use vstd::prelude::*;
use crate::error::ShareError;
use crate::primitives::{hex_decoding, hex_digit, hex_of, hex_value, select, valid_selection, KEY_LEN, KEY_SHARE_LEN};
use crate::transport::{combine_text_outcome, decode_outcome, joined, lines_of, pieces, NEWLINE};
use crate::scheme::{cipher_part, combine_outcome, key_part, padded_key, split_of, split_with};

verus! {

/// Round trip: combining any `k` or more distinct shares of a splitting of
/// `data` with parameters `n` and `k` gives back `data` exactly.
pub proof fn lemma_round_trip(data: Seq<u8>, n: nat, k: nat, shares: Seq<Seq<u8>>, sel: Seq<int>)
    requires
        split_of(data, n, k, shares),
        valid_selection(sel, n, k),
    ensures
        combine_outcome(select(shares, sel)) == Ok::<Seq<u8>, ShareError>(data),
{
    let (key, ks, stream) = choose|key: Seq<u8>, ks: Seq<Seq<u8>>, stream: Seq<u8>|
        #[trigger] split_with(data, n, k, shares, key, ks, stream);
    let ct = crate::primitives::sealed(key, crate::scheme::zero_nonce(), stream);
    let picked = select(shares, sel);
    assert(sel.len() >= 1);
    assert forall|j: int| 0 <= j < picked.len() implies (#[trigger] picked[j]).len() >= KEY_SHARE_LEN
        && cipher_part(picked[j]) == ct && key_part(picked[j]) == ks[sel[j]] by {
        assert(0 <= sel[j] < n);
        assert(picked[j] == ks[sel[j]] + ct);
        assert(ks[sel[j]].len() == KEY_SHARE_LEN);
        assert(cipher_part(picked[j]) =~= ct);
        assert(key_part(picked[j]) =~= ks[sel[j]]);
    }
    assert(!exists|i: int| 0 <= i < picked.len() && (#[trigger] picked[i]).len() < KEY_SHARE_LEN);
    assert(!exists|i: int|
        0 <= i < picked.len() && cipher_part(#[trigger] picked[i]) != cipher_part(picked[0]));
    assert(picked.map_values(|s: Seq<u8>| key_part(s)) =~= select(ks, sel));
    assert(padded_key(key).subrange(0, KEY_LEN as int) =~= key);
}

/// Subset independence: any two selections of `k` or more distinct shares
/// of one splitting combine to the same payload.
pub proof fn lemma_subset_independence(
    data: Seq<u8>,
    n: nat,
    k: nat,
    shares: Seq<Seq<u8>>,
    sel1: Seq<int>,
    sel2: Seq<int>,
)
    requires
        split_of(data, n, k, shares),
        valid_selection(sel1, n, k),
        valid_selection(sel2, n, k),
    ensures
        combine_outcome(select(shares, sel1)) == combine_outcome(select(shares, sel2)),
{
    lemma_round_trip(data, n, k, shares, sel1);
    lemma_round_trip(data, n, k, shares, sel2);
}

/// Shares whose ciphertexts differ, as those of two splittings under
/// different keys do, are refused together: a list of shares, each from
/// one of two splittings, that holds two such shares combines to
/// `InconsistentShares`.
pub proof fn lemma_mixed_splits_rejected(
    data1: Seq<u8>,
    n1: nat,
    k1: nat,
    shares1: Seq<Seq<u8>>,
    data2: Seq<u8>,
    n2: nat,
    k2: nat,
    shares2: Seq<Seq<u8>>,
    mixed: Seq<Seq<u8>>,
    a: int,
    b: int,
)
    requires
        split_of(data1, n1, k1, shares1),
        split_of(data2, n2, k2, shares2),
        forall|j: int| 0 <= j < mixed.len() ==> shares1.contains(#[trigger] mixed[j]) || shares2.contains(mixed[j]),
        0 <= a < mixed.len(),
        0 <= b < mixed.len(),
        shares1.contains(mixed[a]),
        shares2.contains(mixed[b]),
        cipher_part(mixed[a]) != cipher_part(mixed[b]),
    ensures
        combine_outcome(mixed) == Err::<Seq<u8>, ShareError>(ShareError::InconsistentShares),
{
    lemma_shares_long_enough(data1, n1, k1, shares1);
    lemma_shares_long_enough(data2, n2, k2, shares2);
    assert forall|j: int| 0 <= j < mixed.len() implies (#[trigger] mixed[j]).len() >= KEY_SHARE_LEN by {
        if shares1.contains(mixed[j]) {
            let i = choose|i: int| 0 <= i < shares1.len() && shares1[i] == mixed[j];
        } else {
            let i = choose|i: int| 0 <= i < shares2.len() && shares2[i] == mixed[j];
        }
    }
    if cipher_part(mixed[a]) == cipher_part(mixed[0]) {
        assert(cipher_part(mixed[b]) != cipher_part(mixed[0]));
    }
}

/// Every share of a splitting is at least a key share long.
pub proof fn lemma_shares_long_enough(data: Seq<u8>, n: nat, k: nat, shares: Seq<Seq<u8>>)
    requires
        split_of(data, n, k, shares),
    ensures
        forall|i: int| 0 <= i < shares.len() ==> (#[trigger] shares[i]).len() >= KEY_SHARE_LEN,
{
    let (key, ks, stream) = choose|key: Seq<u8>, ks: Seq<Seq<u8>>, stream: Seq<u8>|
        #[trigger] split_with(data, n, k, shares, key, ks, stream);
    assert forall|i: int| 0 <= i < shares.len() implies (#[trigger] shares[i]).len() >= KEY_SHARE_LEN by {
        assert(ks[i].len() == KEY_SHARE_LEN);
    }
}


/// `s` with bit `bit` of the byte at `pos` flipped.
pub open spec fn flip_bit(s: Seq<u8>, pos: int, bit: u8) -> Seq<u8> {
    s.update(pos, s[pos] ^ (1u8 << bit))
}

/// Tampering among several shares: when two or more distinct shares of a
/// splitting are combined and one bit in the ciphertext of one of them has
/// been flipped, combining fails with `InconsistentShares` instead of
/// returning a payload. (With a single share the tampering reaches the
/// cipher, whose tag check is not modelled here.)
pub proof fn lemma_tampered_share_rejected(
    data: Seq<u8>,
    n: nat,
    k: nat,
    shares: Seq<Seq<u8>>,
    sel: Seq<int>,
    t: int,
    pos: int,
    bit: u8,
)
    requires
        split_of(data, n, k, shares),
        valid_selection(sel, n, k),
        sel.len() >= 2,
        0 <= t < sel.len(),
        KEY_SHARE_LEN <= pos < select(shares, sel)[t].len(),
        bit < 8,
    ensures
        combine_outcome(select(shares, sel).update(t, flip_bit(select(shares, sel)[t], pos, bit)))
            == Err::<Seq<u8>, ShareError>(ShareError::InconsistentShares),
{
    let (key, ks, stream) = choose|key: Seq<u8>, ks: Seq<Seq<u8>>, stream: Seq<u8>|
        #[trigger] split_with(data, n, k, shares, key, ks, stream);
    let ct = crate::primitives::sealed(key, crate::scheme::zero_nonce(), stream);
    let picked = select(shares, sel);
    let tampered = picked.update(t, flip_bit(picked[t], pos, bit));
    assert forall|j: int| 0 <= j < picked.len() implies (#[trigger] picked[j]).len() >= KEY_SHARE_LEN
        && cipher_part(picked[j]) == ct by {
        assert(0 <= sel[j] < n);
        assert(picked[j] == ks[sel[j]] + ct);
        assert(ks[sel[j]].len() == KEY_SHARE_LEN);
        assert(cipher_part(picked[j]) =~= ct);
    }
    assert forall|j: int| 0 <= j < tampered.len() implies (#[trigger] tampered[j]).len() >= KEY_SHARE_LEN by {
        assert(picked[j].len() >= KEY_SHARE_LEN);
    }
    let x = picked[t][pos];
    assert(x ^ (1u8 << bit) != x) by (bit_vector)
        requires
            bit < 8,
    ;
    let o: int = if t == 0 { 1 } else { 0 };
    assert(cipher_part(tampered[t])[pos - KEY_SHARE_LEN] != cipher_part(tampered[o])[pos - KEY_SHARE_LEN]);
    assert(cipher_part(tampered[t]) != cipher_part(tampered[o]));
    if t == 0 {
        assert(cipher_part(tampered[1]) != cipher_part(tampered[0]));
    } else {
        assert(cipher_part(tampered[t]) != cipher_part(tampered[0]));
    }
}


/// Hex decoding undoes hex encoding.
pub proof fn lemma_hex_round_trip(b: Seq<u8>)
    ensures
        hex_decoding(hex_of(b)) == Some(b),
{
    let h = hex_of(b);
    assert forall|v: int| 0 <= v < 16 implies hex_value(#[trigger] hex_digit(v)) == Some(v) by {}
    assert forall|i: int| 0 <= i < h.len() implies (#[trigger] hex_value(h[i])) is Some by {
        assert(0 <= b[i / 2] as int / 16 < 16);
    }
    let d = hex_decoding(h).unwrap();
    assert forall|j: int| 0 <= j < b.len() implies d[j] == b[j] by {
        assert((2 * j) % 2 == 0 && (2 * j) / 2 == j);
        assert((2 * j + 1) % 2 == 1 && (2 * j + 1) / 2 == j);
        let x = b[j] as int;
        assert(h[2 * j] == hex_digit(x / 16));
        assert(h[2 * j + 1] == hex_digit(x % 16));
        assert((x / 16) * 16 + x % 16 == x);
    }
    assert(d =~= b);
}

/// Text without a newline is a single piece.
proof fn lemma_pieces_single(b: Seq<u8>)
    requires
        !b.contains(NEWLINE),
    ensures
        pieces(b) == seq![b],
    decreases b.len(),
{
    if b.len() > 0 {
        assert(!b.drop_last().contains(NEWLINE)) by {
            if b.drop_last().contains(NEWLINE) {
                let i = choose|i: int| 0 <= i < b.drop_last().len() && b.drop_last()[i] == NEWLINE;
                assert(b[i] == NEWLINE);
            }
        }
        lemma_pieces_single(b.drop_last());
        assert(b.last() != NEWLINE) by {
            assert(b[b.len() - 1] == b.last());
        }
        assert(b.drop_last().push(b.last()) =~= b);
        assert(pieces(b) =~= seq![b]);
    } else {
        assert(b =~= Seq::<u8>::empty());
    }
}

/// A newline followed by newline-free text adds that text as the next piece.
proof fn lemma_pieces_after_newline(a: Seq<u8>, b: Seq<u8>)
    requires
        !b.contains(NEWLINE),
    ensures
        pieces(a + seq![NEWLINE] + b) == pieces(a).push(b),
    decreases b.len(),
{
    let t = a + seq![NEWLINE] + b;
    if b.len() == 0 {
        assert(t.drop_last() =~= a);
        assert(b =~= Seq::<u8>::empty());
    } else {
        assert(!b.drop_last().contains(NEWLINE)) by {
            if b.drop_last().contains(NEWLINE) {
                let i = choose|i: int| 0 <= i < b.drop_last().len() && b.drop_last()[i] == NEWLINE;
                assert(b[i] == NEWLINE);
            }
        }
        lemma_pieces_after_newline(a, b.drop_last());
        assert(t.drop_last() =~= a + seq![NEWLINE] + b.drop_last());
        assert(t.last() == b.last());
        assert(b.last() != NEWLINE) by {
            assert(b[b.len() - 1] == b.last());
        }
        assert(b.drop_last().push(b.last()) =~= b);
        assert(pieces(t) =~= pieces(a).push(b));
    }
}

/// Joining newline-free lines and cutting the text again gives the lines back.
proof fn lemma_pieces_of_joined(ls: Seq<Seq<u8>>)
    requires
        ls.len() >= 1,
        forall|i: int| 0 <= i < ls.len() ==> !(#[trigger] ls[i]).contains(NEWLINE),
    ensures
        pieces(joined(ls)) == ls,
    decreases ls.len(),
{
    if ls.len() == 1 {
        lemma_pieces_single(ls[0]);
        assert(seq![ls[0]] =~= ls);
    } else {
        lemma_pieces_of_joined(ls.drop_last());
        assert(!ls.last().contains(NEWLINE)) by {
            assert(ls[ls.len() - 1] == ls.last());
        }
        lemma_pieces_after_newline(joined(ls.drop_last()), ls.last());
        assert(ls.drop_last().push(ls.last()) =~= ls);
    }
}

/// The lines of joined non-empty, newline-free lines are those lines.
pub proof fn lemma_lines_of_joined(ls: Seq<Seq<u8>>)
    requires
        forall|i: int| 0 <= i < ls.len() ==> !(#[trigger] ls[i]).contains(NEWLINE) && ls[i].len() > 0,
    ensures
        lines_of(joined(ls)) == ls,
{
    if ls.len() == 0 {
        assert(pieces(joined(ls)) =~= seq![Seq::<u8>::empty()]);
        assert(lines_of(joined(ls)) =~= ls);
    } else {
        lemma_pieces_of_joined(ls);
        assert(ls.last() == ls[ls.len() - 1]);
    }
}

/// A final newline after joined lines opens no new line.
pub proof fn lemma_lines_of_joined_newline(ls: Seq<Seq<u8>>)
    requires
        ls.len() >= 1,
        forall|i: int| 0 <= i < ls.len() ==> !(#[trigger] ls[i]).contains(NEWLINE) && ls[i].len() > 0,
    ensures
        lines_of(joined(ls) + seq![NEWLINE]) == ls,
{
    let t = joined(ls);
    lemma_pieces_of_joined(ls);
    assert((t + seq![NEWLINE]).drop_last() =~= t);
    assert(pieces(t + seq![NEWLINE]) == ls.push(Seq::<u8>::empty()));
    assert(ls.push(Seq::<u8>::empty()).drop_last() =~= ls);
}

/// Round trip through text: writing any `k` or more distinct shares of a
/// splitting of `data` as hex lines, with or without a final newline, and
/// combining that text, gives back `data` exactly.
pub proof fn lemma_text_round_trip(data: Seq<u8>, n: nat, k: nat, shares: Seq<Seq<u8>>, sel: Seq<int>)
    requires
        split_of(data, n, k, shares),
        valid_selection(sel, n, k),
    ensures
        combine_text_outcome(joined(select(shares, sel).map_values(|s: Seq<u8>| hex_of(s))))
            == Ok::<Seq<u8>, ShareError>(data),
        combine_text_outcome(joined(select(shares, sel).map_values(|s: Seq<u8>| hex_of(s))) + seq![NEWLINE])
            == Ok::<Seq<u8>, ShareError>(data),
{
    let picked = select(shares, sel);
    let hs = picked.map_values(|s: Seq<u8>| hex_of(s));
    lemma_shares_long_enough(data, n, k, shares);
    assert forall|i: int| 0 <= i < hs.len() implies !(#[trigger] hs[i]).contains(NEWLINE) && hs[i].len() > 0 by {
        assert(0 <= sel[i] < n);
        assert(picked[i].len() >= KEY_SHARE_LEN);
        if hs[i].contains(NEWLINE) {
            let p = choose|p: int| 0 <= p < hs[i].len() && hs[i][p] == NEWLINE;
            assert(0 <= picked[i][p / 2] as int / 16 < 16);
        }
    }
    assert(sel.len() >= 1);
    lemma_lines_of_joined(hs);
    lemma_lines_of_joined_newline(hs);
    let t = joined(hs);
    let t2 = t + seq![NEWLINE];
    assert forall|i: int| 0 <= i < hs.len() implies #[trigger] hex_decoding(hs[i]) == Some(picked[i]) by {
        lemma_hex_round_trip(picked[i]);
    }
    assert(forall|i: int| 0 <= i < lines_of(t).len() ==> (#[trigger] hex_decoding(lines_of(t)[i])) is Some);
    assert(Seq::new(hs.len(), |i: int| hex_decoding(hs[i]).unwrap()) =~= picked);
    assert(decode_outcome(t) == Ok::<Seq<Seq<u8>>, ShareError>(picked));
    assert(forall|i: int| 0 <= i < lines_of(t2).len() ==> (#[trigger] hex_decoding(lines_of(t2)[i])) is Some);
    assert(decode_outcome(t2) == Ok::<Seq<Seq<u8>>, ShareError>(picked));
    assert(sel.len() >= 1);
    lemma_round_trip(data, n, k, shares, sel);
}

} // verus!
