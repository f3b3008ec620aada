use argon2rs::{Argon2, DecodeError, ParamErr, Variant, Verifier};

const ENCODED: &[u8] =
    b"$argon2i$m=4096,t=3,p=1$dG9kbzogZnV6eiB0ZXN0cw$Eh1lW3mjkhlMLRQdE7vXZnvwDXSGLBfXa6BGK4a1J3s";

#[test]
fn test_verify() {
    let v = Verifier::from_u8(ENCODED).unwrap();
    assert_eq!(v.verify(b"argon2i!"), true);
    assert_eq!(v.verify(b"nope"), false);
}

#[test]
fn test_phc_round_trip_plain() {
    let s: &[u8] = b"$argon2d$m=32,t=3,p=4$c29tZXNhbHQ$aGFzaGhhc2g";
    let v = Verifier::from_u8(s).unwrap();
    assert_eq!(v.to_u8(), s);
}

#[test]
fn test_phc_round_trip_keyid_and_data() {
    let s: &[u8] = b"$argon2i$m=8,t=1,p=1,keyid=QUJD,data=REVG$c2FsdA$dGFn";
    let v = Verifier::from_u8(s).unwrap();
    assert_eq!(v.to_u8(), s);
}

#[test]
fn test_phc_round_trip_keyid_only() {
    let s: &[u8] = b"$argon2i$m=8,t=1,p=1,keyid=QUJD$c2FsdA$dGFn";
    let v = Verifier::from_u8(s).unwrap();
    assert_eq!(v.to_u8(), s);
}

#[test]
fn test_phc_round_trip_data_only() {
    let s: &[u8] = b"$argon2i$m=8,t=1,p=1,data=REVG$c2FsdA$dGFn";
    let v = Verifier::from_u8(s).unwrap();
    assert_eq!(v.to_u8(), s);
}

#[test]
fn test_from_u8_rejects_bad_variant() {
    match Verifier::from_u8(b"$argon2x$m=8,t=1,p=1$c2FsdA$dGFn") {
        Err(DecodeError::ParseError(pos)) => assert_eq!(pos, 7),
        _ => panic!("expected a parse error"),
    }
}

#[test]
fn test_from_u8_rejects_bad_salt() {
    // the salt segment has length 1 mod 4
    match Verifier::from_u8(b"$argon2i$m=8,t=1,p=1$YW55I$dGFn") {
        Err(DecodeError::ParseError(pos)) => assert_eq!(pos, 21),
        _ => panic!("expected a parse error"),
    }
}

#[test]
fn test_from_u8_rejects_invalid_params() {
    match Verifier::from_u8(b"$argon2i$m=16,t=3,p=4$c2FsdA$dGFn") {
        Err(DecodeError::InvalidParams(ParamErr::MinKiB(min))) => assert_eq!(min, 32),
        _ => panic!("expected invalid parameters"),
    }
}

#[test]
fn test_new_then_verify() {
    let a = Argon2::new(1, 1, 8, Variant::Argon2d).ok().unwrap();
    let v = Verifier::new(a, b"secret pw", b"some salt", b"", b"");
    assert!(v.verify(b"secret pw"));
    assert!(!v.verify(b"wrong pw"));
}

#[test]
fn test_argon2_new_rejects_bad_params() {
    assert!(matches!(
        Argon2::new(0, 1, 4096, Variant::Argon2i),
        Err(ParamErr::TooFewPasses)
    ));
    assert!(matches!(
        Argon2::new(3, 0, 4096, Variant::Argon2i),
        Err(ParamErr::TooFewLanes)
    ));
    assert!(matches!(
        Argon2::new(3, 4, 16, Variant::Argon2i),
        Err(ParamErr::MinKiB(32))
    ));
}
