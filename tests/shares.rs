use rand::seq::SliceRandom;
use rand::thread_rng;
use shamir_share::{
    combine_shares, combine_text, create_shares, decode_shares, encode_shares, split_lines,
    split_to_text, ShareError, KEY_SHARE_LEN,
};

fn lines(text: &[u8]) -> Vec<String> {
    String::from_utf8(text.to_vec())
        .unwrap()
        .split_terminator('\n')
        .map(String::from)
        .collect()
}

fn pick(shares: &[Vec<u8>], sel: &[usize]) -> Vec<Vec<u8>> {
    sel.iter().map(|&i| shares[i].clone()).collect()
}

fn all_subsets(n: usize, k: usize) -> Vec<Vec<usize>> {
    let mut out = Vec::new();
    for mask in 0u32..(1u32 << n) {
        if mask.count_ones() as usize == k {
            out.push((0..n).filter(|i| mask & (1 << i) != 0).collect());
        }
    }
    out
}

#[test]
fn test() {
    let plaintext = "yup";
    let shares = split_to_text(3, 2, plaintext.as_bytes()).unwrap();
    let shares = lines(&shares);
    let subset = shares
        .choose_multiple(&mut thread_rng(), 2)
        .cloned()
        .collect::<Vec<String>>()
        .join("\n");
    let result = combine_text(subset.as_bytes()).unwrap();
    assert_eq!(String::from_utf8_lossy(&result), plaintext);
}

#[test]
fn yup_every_pair_of_three() {
    let text = split_to_text(3, 2, b"yup").unwrap();
    let shares = lines(&text);
    assert_eq!(shares.len(), 3);
    for sel in all_subsets(3, 2) {
        let subset: Vec<String> = sel.iter().map(|&i| shares[i].clone()).collect();
        let result = combine_text(subset.join("\n").as_bytes()).unwrap();
        assert_eq!(result, b"yup".to_vec());
    }
}

#[test]
fn round_trip_various_parameters() {
    let payloads: Vec<Vec<u8>> = vec![
        Vec::new(),
        b"x".to_vec(),
        b"hello, threshold world".to_vec(),
        (0..5000u32).map(|i| (i * 7 % 251) as u8).collect(),
    ];
    for data in &payloads {
        for &(n, k) in &[(1u8, 1u8), (2, 1), (2, 2), (5, 3), (7, 7)] {
            let shares = create_shares(n, k, data).unwrap();
            assert_eq!(shares.len(), n as usize);
            let first: Vec<usize> = (0..k as usize).collect();
            assert_eq!(combine_shares(&pick(&shares, &first)).unwrap(), *data);
            let last: Vec<usize> = (n as usize - k as usize..n as usize).rev().collect();
            assert_eq!(combine_shares(&pick(&shares, &last)).unwrap(), *data);
            assert_eq!(combine_shares(&shares).unwrap(), *data);
        }
    }
}

#[test]
fn every_subset_reconstructs() {
    let data = b"subset independence".to_vec();
    let shares = create_shares(5, 3, &data).unwrap();
    for sel in all_subsets(5, 3) {
        assert_eq!(combine_shares(&pick(&shares, &sel)).unwrap(), data);
    }
    for sel in all_subsets(5, 4) {
        assert_eq!(combine_shares(&pick(&shares, &sel)).unwrap(), data);
    }
}

#[test]
fn shares_carry_identical_ciphertext() {
    let shares = create_shares(4, 2, b"payload").unwrap();
    for s in &shares {
        assert!(s.len() > KEY_SHARE_LEN);
        assert_eq!(s[KEY_SHARE_LEN..], shares[0][KEY_SHARE_LEN..]);
    }
}

#[test]
fn single_share_boundary() {
    let data = b"one of one".to_vec();
    let shares = create_shares(1, 1, &data).unwrap();
    assert_eq!(shares.len(), 1);
    assert_eq!(combine_shares(&shares).unwrap(), data);
}

#[test]
fn largest_threshold_boundary() {
    let data = b"two hundred fifty five".to_vec();
    let shares = create_shares(255, 255, &data).unwrap();
    assert_eq!(shares.len(), 255);
    assert_eq!(combine_shares(&shares).unwrap(), data);
}

#[test]
fn invalid_parameters() {
    assert_eq!(create_shares(0, 0, b"d"), Err(ShareError::InvalidParameters));
    assert_eq!(create_shares(3, 0, b"d"), Err(ShareError::InvalidParameters));
    assert_eq!(create_shares(2, 3, b"d"), Err(ShareError::InvalidParameters));
    assert_eq!(create_shares(0, 1, b"d"), Err(ShareError::InvalidParameters));
    assert_eq!(split_to_text(1, 2, b"d"), Err(ShareError::InvalidParameters));
}

#[test]
fn tampered_share_among_several_is_rejected() {
    let shares = create_shares(3, 2, b"do not touch").unwrap();
    let mut picked = pick(&shares, &[0, 2]);
    let pos = KEY_SHARE_LEN + 3;
    picked[1][pos] ^= 0x10;
    assert_eq!(combine_shares(&picked), Err(ShareError::InconsistentShares));
}

#[test]
fn tampered_single_share_fails_authentication() {
    let shares = create_shares(1, 1, b"do not touch").unwrap();
    let mut picked = shares.clone();
    let last = picked[0].len() - 1;
    picked[0][last] ^= 0x01;
    assert_eq!(combine_shares(&picked), Err(ShareError::AuthenticationFailure));
    let mut picked = shares.clone();
    picked[0][KEY_SHARE_LEN] ^= 0x80;
    assert_eq!(combine_shares(&picked), Err(ShareError::AuthenticationFailure));
}

#[test]
fn shares_of_two_splits_are_rejected() {
    let a = create_shares(3, 2, b"same payload").unwrap();
    let b = create_shares(3, 2, b"same payload").unwrap();
    let mixed = vec![a[0].clone(), b[1].clone()];
    assert_eq!(combine_shares(&mixed), Err(ShareError::InconsistentShares));
}

#[test]
fn too_few_shares_fail_authentication() {
    let shares = create_shares(5, 3, b"needs three").unwrap();
    let picked = pick(&shares, &[1, 4]);
    assert_eq!(combine_shares(&picked), Err(ShareError::AuthenticationFailure));
}

#[test]
fn short_share_is_malformed() {
    let shares = create_shares(2, 2, b"short").unwrap();
    let mut picked = shares.clone();
    picked[1].truncate(KEY_SHARE_LEN - 1);
    assert_eq!(combine_shares(&picked), Err(ShareError::MalformedShare));
}

#[test]
fn bad_text_is_malformed() {
    assert_eq!(combine_text(b""), Err(ShareError::MalformedShare));
    assert_eq!(combine_text(b"abc"), Err(ShareError::MalformedShare));
    assert_eq!(combine_text(b"zz\n"), Err(ShareError::MalformedShare));
    assert_eq!(decode_shares(b"0g"), Err(ShareError::MalformedShare));
}

#[test]
fn hex_encoding_of_shares() {
    let text = encode_shares(&[vec![0xab, 0x01], vec![], vec![0xff, 0x00, 0x9c]]);
    assert_eq!(text, b"ab01\n\nff009c".to_vec());
    assert_eq!(encode_shares(&[]), Vec::<u8>::new());
}

#[test]
fn hex_decoding_of_lines() {
    assert_eq!(
        decode_shares(b"AB01\nff\n").unwrap(),
        vec![vec![0xab, 0x01], vec![0xff]]
    );
    assert_eq!(decode_shares(b"").unwrap(), Vec::<Vec<u8>>::new());
    assert_eq!(decode_shares(b"\n\n").unwrap(), vec![vec![], vec![]]);
}

#[test]
fn line_splitting_drops_only_a_final_empty_line() {
    assert_eq!(split_lines(b"a\nb"), vec![b"a".to_vec(), b"b".to_vec()]);
    assert_eq!(split_lines(b"a\nb\n"), vec![b"a".to_vec(), b"b".to_vec()]);
    assert_eq!(split_lines(b"a\n\n"), vec![b"a".to_vec(), b"".to_vec()]);
    assert_eq!(split_lines(b""), Vec::<Vec<u8>>::new());
}

#[test]
fn ciphertext_is_sealed_compressed_payload() {
    let data = vec![b'a'; 4000];
    let shares = create_shares(2, 1, &data).unwrap();
    let ciphertext = &shares[0][KEY_SHARE_LEN..];
    let compressed = zstd::stream::encode_all(&data[..], 0).unwrap();
    assert!(ciphertext.len() < data.len());
    assert_eq!(ciphertext.len(), compressed.len() + 16);
    assert_ne!(ciphertext, &compressed[..]);
}

#[test]
fn key_shares_differ_between_participants() {
    let shares = create_shares(3, 2, b"k").unwrap();
    assert_ne!(shares[0][..KEY_SHARE_LEN], shares[1][..KEY_SHARE_LEN]);
    assert_ne!(shares[1][..KEY_SHARE_LEN], shares[2][..KEY_SHARE_LEN]);
}

#[test]
fn empty_payload_shares_carry_the_tag() {
    let shares = create_shares(3, 2, b"").unwrap();
    assert_eq!(shares.len(), 3);
    for s in &shares {
        assert!(s.len() >= KEY_SHARE_LEN + 16);
    }
    assert_eq!(combine_shares(&shares[1..]).unwrap(), Vec::<u8>::new());
}

#[test]
fn key_shares_start_with_their_point() {
    let shares = create_shares(5, 3, b"points").unwrap();
    for (i, s) in shares.iter().enumerate() {
        assert_eq!(s[0] as usize, i + 1);
    }
}

#[test]
fn text_with_final_newline_combines() {
    let text = split_to_text(4, 3, b"newline at the end").unwrap();
    let shares = lines(&text);
    let subset = format!("{}\n{}\n{}\n", shares[3], shares[0], shares[2]);
    assert_eq!(combine_text(subset.as_bytes()).unwrap(), b"newline at the end".to_vec());
}
