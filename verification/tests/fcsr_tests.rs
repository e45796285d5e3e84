use cryptolab::fcsr::Cipher;

#[test]
fn lab3_encrypt_and_decrypt() {
    let text = "Привет, Rust пока ***@@@ жизнь! :(";
    let mut cipher = Cipher::new();
    let enc = cipher.process_str(text);
    let mut cipher = Cipher::new();
    let dec = cipher.process_str(enc.as_str());
    assert_eq!(text, dec);
}

#[test]
fn encrypt_and_decrypt2() {
    let text = "ven-ig3-2tr345g 4 134 4y  f  kf13ык 32 345 р5кнт кл ё2о 353 ";
    let mut cipher = Cipher::new();
    let enc = cipher.process_str(text);
    let mut cipher = Cipher::new();
    let dec = cipher.process_str(enc.as_str());
    assert_eq!(text, dec);
}

#[test]
fn masking_twice_restores_each_char() {
    let mut one = Cipher::new();
    let mut two = Cipher::new();
    for ch in ['a', 'Ω', '0', ' '] {
        let enc = one.process_char(ch);
        let dec = two.process_char(enc);
        assert_eq!(ch, dec);
    }
}
