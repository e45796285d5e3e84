use cryptolab::transposition::check_keyword;

#[test]
fn accepts_distinct_alphabetic_keyword() {
    assert!(check_keyword("шифр"));
    assert!(check_keyword("key"));
    assert!(check_keyword(""));
}

#[test]
fn rejects_duplicates_and_non_letters() {
    assert!(!check_keyword("aa"));
    assert!(!check_keyword("k1"));
    assert!(!check_keyword("a b"));
}

#[test]
fn transposition_encrypt_known_fixture() {
    let mut cipher = cryptolab::transposition::Cipher::new(String::from("шифр"));
    cipher.write_str("перестановочный шифр");
    assert_eq!(cipher.encrypt(), String::from("етвыиенч рраойфпсонш"));
}

#[test]
fn transposition_write_then_read_back() {
    let text = "перестановочный шифр";
    let mut cipher = cryptolab::transposition::Cipher::new(String::from("шифр"));
    cipher.write_str(text);
    let iterator = cryptolab::transposition::CipherIterator::new(cipher);
    let mut iterator = iterator;
    let mut out = String::new();
    while let Some(c) = iterator.next() {
        out.push(c);
    }
    assert_eq!(out, text);
}

#[test]
fn transposition_decrypt_reads_in_feed_order() {
    let text = "abc";
    let mut cipher = cryptolab::transposition::Cipher::new(String::from("ba"));
    cipher.write_str(text);
    assert_eq!(cipher.decrypt(), String::from("abc"));
}
