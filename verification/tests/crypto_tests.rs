use localvault::crypto::{dec, enc, enc_with_nonce, open_sealed, DecFault, NONCE_LEN, TAG_LEN};

fn key(b: u8) -> [u8; 32] {
    [b; 32]
}

#[test]
fn sealed_record_opens_with_same_key_and_aad() {
    let k = key(7);
    let sealed = enc(&k, b"secret entry", b"LocalVault|entry|a1|v1").unwrap();
    assert_eq!(sealed.len(), NONCE_LEN + 12 + TAG_LEN);
    let plain = dec(&k, &sealed, b"LocalVault|entry|a1|v1").unwrap();
    assert_eq!(plain, b"secret entry".to_vec());
}

#[test]
fn sealed_empty_record_opens() {
    let k = key(1);
    let sealed = enc(&k, b"", b"aad").unwrap();
    assert_eq!(sealed.len(), NONCE_LEN + TAG_LEN);
    assert_eq!(dec(&k, &sealed, b"aad").unwrap(), Vec::<u8>::new());
}

#[test]
fn two_seals_use_different_nonces() {
    let k = key(3);
    let a = enc(&k, b"same", b"x").unwrap();
    let b = enc(&k, b"same", b"x").unwrap();
    assert_ne!(a[..NONCE_LEN], b[..NONCE_LEN]);
}

#[test]
fn seal_with_nonce_puts_nonce_in_front() {
    let k = key(9);
    let n = [5u8; 24];
    let a = enc_with_nonce(&k, &n, b"hello", b"x").unwrap();
    let b = enc_with_nonce(&k, &n, b"hello", b"x").unwrap();
    assert_eq!(a, b);
    assert_eq!(&a[..24], &n[..]);
    assert_eq!(a.len(), 24 + 5 + 16);
    assert_ne!(&a[24..29], b"hello");
}

#[test]
fn wrong_aad_is_refused() {
    let k = key(7);
    let sealed = enc(&k, b"secret", b"LocalVault|entry|a1|v1").unwrap();
    assert_eq!(
        dec(&k, &sealed, b"LocalVault|entry|a2|v1").unwrap_err(),
        "authentication failed"
    );
}

#[test]
fn wrong_key_is_refused() {
    let sealed = enc(&key(7), b"secret", b"a").unwrap();
    assert_eq!(open_sealed(&key(8), &sealed, b"a").unwrap_err(), DecFault::Unauthenticated);
}

#[test]
fn tampered_ciphertext_tag_or_nonce_is_refused() {
    let k = key(7);
    let sealed = enc(&k, b"secret data", b"a").unwrap();
    for pos in [0usize, 23, 24, sealed.len() - 1] {
        let mut t = sealed.clone();
        t[pos] ^= 0x01;
        assert_eq!(dec(&k, &t, b"a").unwrap_err(), "authentication failed");
    }
}

#[test]
fn short_record_is_invalid_ciphertext() {
    let k = key(7);
    assert_eq!(dec(&k, &[0u8; 39], b"a").unwrap_err(), "invalid ciphertext");
    assert_eq!(open_sealed(&k, &[], b"a").unwrap_err(), DecFault::TooShort);
    assert_eq!(dec(&k, &[0u8; 40], b"a").unwrap_err(), "authentication failed");
}
