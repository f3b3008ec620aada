use argon2rs::{base64_no_pad, constant_eq, debase64_no_pad};

const BASE64_CASES: [(&[u8], &[u8]); 5] = [
    (b"any carnal pleasure.", b"YW55IGNhcm5hbCBwbGVhc3VyZS4"),
    (b"any carnal pleasure", b"YW55IGNhcm5hbCBwbGVhc3VyZQ"),
    (b"any carnal pleasur", b"YW55IGNhcm5hbCBwbGVhc3Vy"),
    (b"any carnal pleasu", b"YW55IGNhcm5hbCBwbGVhc3U"),
    (b"any carnal pleas", b"YW55IGNhcm5hbCBwbGVhcw"),
];

#[test]
fn test_base64_no_pad() {
    for &(s, exp) in BASE64_CASES.iter() {
        assert_eq!(&base64_no_pad(s)[..], exp);
    }
}

#[test]
fn test_debase64_no_pad() {
    for &(exp, s) in BASE64_CASES.iter() {
        assert_eq!(debase64_no_pad(s).unwrap(), exp);
    }
}

#[test]
fn test_base64_round_trip_all_lengths() {
    let bytes: Vec<u8> = (0u16..256).map(|b| b as u8).collect();
    for n in 0..bytes.len() {
        let enc = base64_no_pad(&bytes[..n]);
        assert_eq!(debase64_no_pad(&enc).unwrap(), &bytes[..n]);
    }
}

#[test]
fn test_debase64_rejects_residue_one() {
    // length 1 mod 4 can never be an unpadded encoding
    assert!(debase64_no_pad(b"YW55I").is_none());
    assert!(debase64_no_pad(b"A").is_none());
}

#[test]
fn test_debase64_rejects_off_alphabet() {
    assert!(debase64_no_pad(b"YW=5").is_none());
    assert!(debase64_no_pad(b"YW5$").is_none());
}

#[test]
fn test_constant_eq_matches_equality() {
    assert!(constant_eq(b"", b""));
    assert!(constant_eq(b"abc", b"abc"));
    assert!(!constant_eq(b"abc", b"abd"));
    assert!(!constant_eq(b"abc", b"ab"));
    assert!(!constant_eq(b"\x00", b"\x01"));
    let xs: Vec<u8> = (0u16..256).map(|b| b as u8).collect();
    let mut ys = xs.clone();
    assert!(constant_eq(&xs, &ys));
    ys[255] ^= 0x80;
    assert!(!constant_eq(&xs, &ys));
}
