//! Shares as text: one line of hex digits per share.
use vstd::prelude::*;
use crate::error::ShareError;
use crate::primitives::{from_hex, hex_decoding, hex_of, to_hex};
use crate::scheme::{combine_outcome, combine_shares, create_shares, result_bytes, split_of, MAX_PAYLOAD_LEN};

verus! {

/// The newline byte.
pub const NEWLINE: u8 = 10;

/// `lines` joined with a newline between each two.
pub open spec fn joined(lines: Seq<Seq<u8>>) -> Seq<u8>
    decreases lines.len(),
{
    if lines.len() == 0 {
        Seq::empty()
    } else if lines.len() == 1 {
        lines[0]
    } else {
        joined(lines.drop_last()) + seq![NEWLINE] + lines.last()
    }
}

/// `t` cut at every newline: one piece more than it has newlines.
pub open spec fn pieces(t: Seq<u8>) -> Seq<Seq<u8>>
    decreases t.len(),
{
    if t.len() == 0 {
        seq![Seq::empty()]
    } else {
        let init = pieces(t.drop_last());
        if t.last() == NEWLINE {
            init.push(Seq::empty())
        } else {
            init.update(init.len() - 1, init.last().push(t.last()))
        }
    }
}

/// The lines of `t`: its pieces, without the last one when that is empty
/// (so a final newline ends the last line and opens no new one).
pub open spec fn lines_of(t: Seq<u8>) -> Seq<Seq<u8>> {
    let p = pieces(t);
    if p.last().len() == 0 {
        p.drop_last()
    } else {
        p
    }
}

/// What reading shares from text gives: each line decoded from hex, or
/// `MalformedShare` when some line is not valid hex.
pub open spec fn decode_outcome(t: Seq<u8>) -> Result<Seq<Seq<u8>>, ShareError> {
    let ls = lines_of(t);
    if forall|i: int| 0 <= i < ls.len() ==> (#[trigger] hex_decoding(ls[i])) is Some {
        Ok(Seq::new(ls.len(), |i: int| hex_decoding(ls[i]).unwrap()))
    } else {
        Err(ShareError::MalformedShare)
    }
}

/// Writes shares as text, one line of lower-case hex per share.
pub fn encode_shares(shares: &[Vec<u8>]) -> (r: Vec<u8>)
    ensures
        r@ == joined(shares.deep_view().map_values(|s: Seq<u8>| hex_of(s))),
{
    let ghost hexes = shares.deep_view().map_values(|s: Seq<u8>| hex_of(s));
    let mut out: Vec<u8> = Vec::new();
    let mut i: usize = 0;
    while i < shares.len()
        invariant
            hexes == shares.deep_view().map_values(|s: Seq<u8>| hex_of(s)),
            i <= shares@.len(),
            out@ == joined(hexes.take(i as int)),
        decreases shares.len() - i,
    {
        assert(shares@[i as int].deep_view() =~= shares@[i as int]@);
        let h = to_hex(shares[i].as_slice());
        assert(hexes.take(i + 1).drop_last() =~= hexes.take(i as int));
        if i > 0 {
            out.push(NEWLINE);
        } else {
            assert(hexes.take(1) =~= seq![hexes[0]]);
        }
        out.extend_from_slice(h.as_slice());
        assert(out@ =~= joined(hexes.take(i + 1)));
        i = i + 1;
    }
    assert(hexes.take(shares@.len() as int) =~= hexes);
    out
}


/// The bytes of a list of buffers, or the error.
pub open spec fn result_lines(r: Result<Vec<Vec<u8>>, ShareError>) -> Result<Seq<Seq<u8>>, ShareError> {
    match r {
        Ok(v) => Ok(v.deep_view()),
        Err(e) => Err(e),
    }
}

/// Cuts text into its lines (a final newline opens no new line).
pub fn split_lines(text: &[u8]) -> (r: Vec<Vec<u8>>)
    ensures
        r.deep_view() == lines_of(text@),
{
    let mut lines: Vec<Vec<u8>> = Vec::new();
    let mut cur: Vec<u8> = Vec::new();
    let mut i: usize = 0;
    while i < text.len()
        invariant
            i <= text@.len(),
            pieces(text@.take(i as int)).len() == lines@.len() + 1,
            forall|j: int| 0 <= j < lines@.len() ==> pieces(text@.take(i as int))[j] == (#[trigger] lines@[j])@,
            pieces(text@.take(i as int))[lines@.len() as int] == cur@,
        decreases text.len() - i,
    {
        let ghost before = pieces(text@.take(i as int));
        assert(text@.take(i + 1).drop_last() =~= text@.take(i as int));
        assert(text@.take(i + 1).last() == text@[i as int]);
        if text[i] == NEWLINE {
            lines.push(cur);
            cur = Vec::new();
            assert(pieces(text@.take(i + 1)) == before.push(Seq::<u8>::empty()));
        } else {
            cur.push(text[i]);
            assert(pieces(text@.take(i + 1)) == before.update(before.len() - 1, before.last().push(text@[i as int])));
        }
        i = i + 1;
    }
    assert(text@.take(text@.len() as int) =~= text@);
    if cur.len() > 0 {
        lines.push(cur);
    }
    let ghost ls = lines_of(text@);
    assert forall|j: int| 0 <= j < lines@.len() implies lines.deep_view()[j] == ls[j] by {
        assert(lines@[j].deep_view() =~= lines@[j]@);
    }
    assert(lines.deep_view() =~= ls);
    lines
}

/// Reads shares from text, one line of hex per share.
pub fn decode_shares(text: &[u8]) -> (r: Result<Vec<Vec<u8>>, ShareError>)
    ensures
        result_lines(r) == decode_outcome(text@),
{
    let lines = split_lines(text);
    let ghost ls = lines_of(text@);
    assert forall|j: int| 0 <= j < lines@.len() implies (#[trigger] lines@[j])@ == ls[j] by {
        assert(lines@[j].deep_view() =~= lines@[j]@);
    }
    let mut shares: Vec<Vec<u8>> = Vec::new();
    let mut i: usize = 0;
    while i < lines.len()
        invariant
            ls == lines_of(text@),
            lines@.len() == ls.len(),
            forall|j: int| 0 <= j < lines@.len() ==> (#[trigger] lines@[j])@ == ls[j],
            i <= lines@.len(),
            shares@.len() == i,
            forall|j: int| 0 <= j < i ==> hex_decoding(ls[j]) == Some((#[trigger] shares@[j])@),
        decreases lines.len() - i,
    {
        match from_hex(lines[i].as_slice()) {
            Some(b) => shares.push(b),
            None => {
                assert(hex_decoding(ls[i as int]) is None);
                assert(!(forall|j: int| 0 <= j < ls.len() ==> (#[trigger] hex_decoding(ls[j])) is Some));
                return Err(ShareError::MalformedShare);
            },
        }
        i = i + 1;
    }
    assert forall|j: int| 0 <= j < shares@.len() implies shares.deep_view()[j] == hex_decoding(ls[j]).unwrap() by {
        assert(shares@[j].deep_view() =~= shares@[j]@);
    }
    assert(shares.deep_view() =~= Seq::new(ls.len(), |j: int| hex_decoding(ls[j]).unwrap()));
    assert forall|j: int| 0 <= j < ls.len() implies (#[trigger] hex_decoding(ls[j])) is Some by {
        assert(hex_decoding(ls[j]) == Some(shares@[j]@));
    }
    Ok(shares)
}


/// What combining the shares written in `t` gives.
pub open spec fn combine_text_outcome(t: Seq<u8>) -> Result<Seq<u8>, ShareError> {
    match decode_outcome(t) {
        Err(e) => Err(e),
        Ok(shares) => if shares.len() == 0 {
            Err(ShareError::MalformedShare)
        } else {
            combine_outcome(shares)
        },
    }
}

/// Splits `data` into `n` shares, any `k` of which restore it, and writes
/// them as text, one line of hex per share.
pub fn split_to_text(n: u8, k: u8, data: &[u8]) -> (r: Result<Vec<u8>, ShareError>)
    ensures
        r == Err::<Vec<u8>, ShareError>(ShareError::InvalidParameters) <==> !(1 <= k <= n),
        r matches Ok(t) ==> exists|shares: Seq<Seq<u8>>|
            split_of(data@, n as nat, k as nat, shares)
            && t@ == joined(shares.map_values(|s: Seq<u8>| hex_of(s))),
        1 <= k <= n && data@.len() <= MAX_PAYLOAD_LEN ==> r is Ok,
        r matches Err(e) ==> e == ShareError::InvalidParameters || (e == ShareError::EncryptionError
            && data@.len() > MAX_PAYLOAD_LEN),
{
    match create_shares(n, k, data) {
        Ok(shares) => {
            let t = encode_shares(shares.as_slice());
            assert(split_of(data@, n as nat, k as nat, shares.deep_view()));
            Ok(t)
        },
        Err(e) => Err(e),
    }
}

/// Reads shares from text, one line of hex per share, and combines them.
pub fn combine_text(text: &[u8]) -> (r: Result<Vec<u8>, ShareError>)
    ensures
        result_bytes(r) == combine_text_outcome(text@),
{
    match decode_shares(text) {
        Err(e) => Err(e),
        Ok(shares) => {
            if shares.len() == 0 {
                return Err(ShareError::MalformedShare);
            }
            proof {
                let dv = shares.deep_view();
                assert forall|j: int| 0 <= j < shares@.len() implies shares@[j].deep_view() == dv[j] by {}
            }
            combine_shares(shares.as_slice())
        },
    }
}

} // verus!
