use cryptolab::tea::{u128_to_u32_be, Cbc, Mode, Tea};
use rand::random;

#[test]
fn lab2_encrypt_and_decrypt() {
    let text = b"Hello my friends";
    let key: u128 = random();
    let iv: u64 = random();
    let mut cbc0 = Cbc::new(iv, Tea::new(key));
    let mut cbc1 = Cbc::new(iv, Tea::new(key));
    let encrypted = cbc0.process_slice(&Mode::Encrypt, text.as_slice());
    let decrypted = cbc1.process_slice(&Mode::Decrypt, encrypted.as_slice());
    assert_eq!(decrypted, text);
}

#[test]
fn key_splits_into_big_endian_words() {
    let key: u128 = 0x00112233_44556677_8899aabb_ccddeeff;
    assert_eq!(
        u128_to_u32_be(key),
        [0x00112233, 0x44556677, 0x8899aabb, 0xccddeeff]
    );
}

#[test]
fn block_cipher_round_trips() {
    let tea = Tea::new(0xdeadbeef_01234567_89abcdef_55aa55aa);
    let block = 0x0123456789abcdefu64;
    let enc = tea.encrypt_block(block);
    assert_ne!(enc, block);
    assert_eq!(tea.decrypt_block(enc), block);
}

#[test]
fn chaining_round_trips_unaligned_input() {
    let key: u128 = 7;
    let iv: u64 = 42;
    let data = b"an input of seventeen...!";
    let mut enc = Cbc::new(iv, Tea::new(key));
    let mut dec = Cbc::new(iv, Tea::new(key));
    let encrypted = enc.process_slice(&Mode::Encrypt, data.as_slice());
    let decrypted = dec.process_slice(&Mode::Decrypt, encrypted.as_slice());
    // Output blocks always fill whole chunks of eight, so the zero padding
    // of the last chunk comes back too.
    assert_eq!(&decrypted[..data.len()], data.as_slice());
    assert!(decrypted[data.len()..].iter().all(|b| *b == 0));
    assert_eq!(decrypted.len(), 32);
}
