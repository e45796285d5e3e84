use cryptolab::bignum::big_from_u64;
use cryptolab::codec::decode_block;
use cryptolab::rsa::{
    decrypt_via_cycling, decrypt_via_factorization, fermat_factorization, mod_inverse,
    recover_block_by_cycling, RecoverError, CYCLE_CAP, FERMAT_CAP,
};
use num_bigint::BigInt;

fn scenario_b_blocks() -> Vec<BigInt> {
    vec![
        BigInt::from(54879925681459u64),
        BigInt::from(72167008182929u64),
        BigInt::from(17828219756166u64),
        BigInt::from(17814399744948u64),
        BigInt::from(37136636080011u64),
        BigInt::from(77223434260215u64),
        BigInt::from(4272415279426u64),
        BigInt::from(73759271926435u64),
        BigInt::from(74021335775875u64),
        BigInt::from(16903113250201u64),
        BigInt::from(77520052156956u64),
        BigInt::from(41247980943013u64),
    ]
}

#[test]
fn lab4_complex_test() {
    let numbers = scenario_b_blocks();
    assert_eq!(
        decrypt_via_factorization(
            &BigInt::from(84032429242009u64),
            &BigInt::from(2581907),
            &numbers,
        ),
        Ok("параллельными мостами, а всемаршрутные пакеты -_".to_string())
    );
}

#[test]
fn lab5_complex_test() {
    let numbers = scenario_b_blocks();
    assert_eq!(
        decrypt_via_cycling(
            &BigInt::from(84032429242009u64),
            &BigInt::from(2581907),
            &numbers,
        ),
        Ok("параллельными мостами, а всемаршрутные пакеты -_".to_string())
    );
}

#[test]
fn cycling_scenario_first_block() {
    // The first block of the fixture that the factorization test recovers
    // in full: the cycling attack finds the same fragment without ever
    // factoring the modulus.
    let numbers = [BigInt::from(54879925681459u64)];
    assert_eq!(
        decrypt_via_cycling(
            &BigInt::from(84032429242009u64),
            &BigInt::from(2581907),
            &numbers,
        ),
        Ok("пара".to_string())
    );
}

#[test]
fn scenario_a_factorization() {
    let numbers = [
        BigInt::from(32279109612093u64),
        BigInt::from(17838629182964u64),
        BigInt::from(4165776716262u64),
        BigInt::from(13093284635895u64),
        BigInt::from(20048651313008u64),
        BigInt::from(54626454832531u64),
        BigInt::from(12801053743903u64),
        BigInt::from(54675332003643u64),
        BigInt::from(4544911979279u64),
        BigInt::from(31928373564570u64),
        BigInt::from(798945495513u64),
        BigInt::from(19569174668782u64),
    ];
    assert_eq!(
        decrypt_via_factorization(
            &BigInt::from(59046883376179u64),
            &BigInt::from(4044583),
            &numbers,
        ),
        Ok("уровне. Перечислим признаки неэффективного испол".to_string())
    );
}

#[test]
fn fermat_finds_close_factors() {
    let n = BigInt::from(15u64);
    let (p, q) = fermat_factorization(&n, FERMAT_CAP).unwrap();
    assert_eq!(p, BigInt::from(5u64));
    assert_eq!(q, BigInt::from(3u64));
    let n2 = BigInt::from(221u64);
    let (p2, q2) = fermat_factorization(&n2, FERMAT_CAP).unwrap();
    assert_eq!(p2, BigInt::from(17u64));
    assert_eq!(q2, BigInt::from(13u64));
}

#[test]
fn mod_inverse_exists_for_coprime() {
    let d = mod_inverse(&BigInt::from(3u64), &BigInt::from(20u64));
    assert_eq!(d, Some(BigInt::from(7u64)));
    let d2 = mod_inverse(&BigInt::from(4044583u64), &BigInt::from(59046868003704u64));
    let d2 = d2.expect("inverse must exist");
    assert_eq!(
        (BigInt::from(4044583u64) * d2) % BigInt::from(59046868003704u64),
        BigInt::from(1u64)
    );
}

#[test]
fn mod_inverse_signals_no_inverse() {
    assert_eq!(mod_inverse(&BigInt::from(2u64), &BigInt::from(8u64)), None);
    assert_eq!(mod_inverse(&BigInt::from(6u64), &BigInt::from(9u64)), None);
}

#[test]
fn cycling_recovers_small_block() {
    let m = recover_block_by_cycling(
        &BigInt::from(33u64),
        &BigInt::from(3u64),
        &BigInt::from(26u64),
        CYCLE_CAP,
    );
    assert_eq!(m, Some(BigInt::from(5u64)));
}

#[test]
fn factorization_round_trip_small() {
    // m = 5 encrypted as 5^3 mod 33 = 26; recovery uses only n, e and c.
    let blocks = [BigInt::from(26u64)];
    assert_eq!(
        decrypt_via_factorization(&BigInt::from(33u64), &BigInt::from(3u64), &blocks),
        Ok("\u{5}".to_string())
    );
}

#[test]
fn cycling_round_trip_small() {
    let blocks = [BigInt::from(26u64)];
    assert_eq!(
        decrypt_via_cycling(&BigInt::from(33u64), &BigInt::from(3u64), &blocks),
        Ok("\u{5}".to_string())
    );
}

#[test]
fn invalid_encoding_fails_closed() {
    // 1320697640 decrypts to the block 0xEFBBBFFF, whose bytes open with a
    // byte-order mark and then break off invalidly, which the decoder
    // rejects; the whole recovery must fail with no partial text.
    // 4295229443 is 65539 * 65537.
    let blocks = [BigInt::from(1320697640u64)];
    assert_eq!(
        decrypt_via_factorization(&BigInt::from(4295229443u64), &BigInt::from(5u64), &blocks),
        Err(RecoverError::InvalidEncoding)
    );
    let cycling_blocks = [BigInt::from(0xEFBBBFFFu64)];
    assert_eq!(
        decrypt_via_cycling(
            &BigInt::from(8589934592u64),
            &BigInt::from(1u64),
            &cycling_blocks,
        ),
        Err(RecoverError::InvalidEncoding)
    );
}

#[test]
fn no_modular_inverse_aborts_recovery() {
    // n = 15 factors as 5 * 3, phi = 8, and e = 2 shares a factor with it.
    let blocks = [BigInt::from(4u64)];
    assert_eq!(
        decrypt_via_factorization(&BigInt::from(15u64), &BigInt::from(2u64), &blocks),
        Err(RecoverError::NoModularInverse)
    );
}

#[test]
fn decode_block_renders_legacy_bytes() {
    assert_eq!(decode_block(&BigInt::from(0xE0u64)), Some("а".to_string()));
    assert_eq!(decode_block(&BigInt::from(0xEFBBBFFFu64)), None);
    assert_eq!(decode_block(&big_from_u64(0)), Some("\u{0}".to_string()));
}
