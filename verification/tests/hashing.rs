use argon2rs::{argon2d_simple, argon2i_simple, h0, h_prime, index_alpha, Argon2, Variant};

#[test]
fn test_argon2i_simple_deterministic() {
    let t1 = argon2i_simple("password", "somesalt");
    let t2 = argon2i_simple("password", "somesalt");
    assert_eq!(t1.len(), 64);
    assert_eq!(t1, t2);
}

#[test]
fn test_argon2d_simple_differs_from_argon2i() {
    let ti = argon2i_simple("password", "somesalt");
    let td = argon2d_simple("password", "somesalt");
    assert_eq!(td.len(), 64);
    assert_ne!(ti, td);
}

#[test]
fn test_different_passwords_differ() {
    let a = Argon2::new(1, 1, 8, Variant::Argon2i).ok().unwrap();
    let mut t1 = vec![0u8; 32];
    let mut t2 = vec![0u8; 32];
    a.hash(&mut t1, b"password one", b"some salt", b"", b"");
    a.hash(&mut t2, b"password two", b"some salt", b"", b"");
    assert_ne!(t1, t2);
}

#[test]
fn test_hash_ignores_worker_shape_for_fixed_lanes() {
    // with the lane count fixed, repeated runs give identical bytes
    let a = Argon2::new(2, 3, 24, Variant::Argon2d).ok().unwrap();
    let mut t1 = vec![0u8; 24];
    let mut t2 = vec![0u8; 24];
    a.hash(&mut t1, b"pw", b"salt", b"key", b"data");
    a.hash(&mut t2, b"pw", b"salt", b"key", b"data");
    assert_eq!(t1, t2);
}

#[test]
fn test_h_prime_lengths() {
    // |H'(m, tau)| == tau across the short and long regimes
    for &tau in [1usize, 4, 32, 63, 64, 65, 96, 97, 128, 200, 1024].iter() {
        let mut out = vec![0u8; tau];
        h_prime(&mut out, b"input bytes");
        assert_eq!(out.len(), tau);
    }
}

#[test]
fn test_h_prime_overwrites() {
    let mut out = vec![0xa5u8; 64];
    let before = out.clone();
    h_prime(&mut out, b"x");
    assert_ne!(out, before);
}

#[test]
fn test_h0_is_72_bytes_with_zero_scratch() {
    let r = h0(
        1,
        32,
        8,
        1,
        0x10,
        Variant::Argon2i,
        b"pw",
        b"salt",
        b"",
        b"",
    );
    assert_eq!(r.len(), 72);
    assert_eq!(&r[64..], &[0u8; 8]);
    let r2 = h0(
        1,
        32,
        8,
        1,
        0x10,
        Variant::Argon2d,
        b"pw",
        b"salt",
        b"",
        b"",
    );
    assert_ne!(r[..64], r2[..64]);
}

#[test]
fn test_index_alpha_window() {
    // pass 0, slice 0: the reference stays strictly before the current block
    assert_eq!(index_alpha(0, 0, 0, 1, 2, 4, 0, 0), 0);
    // a later pass wraps into the window starting after the current slice
    assert_eq!(index_alpha(1, 0, 0, 1, 0, 4, 0xffff_ffff, 0), 4);
    // every legal input lands inside the lane
    for idx in 0..8u32 {
        for j1 in [0u32, 1, 0x8000_0000, 0xffff_ffff] {
            let z = index_alpha(1, 0, 2, 2, idx, 8, j1, 1);
            assert!(z < 32);
        }
    }
}
