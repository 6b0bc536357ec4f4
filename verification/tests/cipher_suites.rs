use dtls_client_hello::cipher_suite::{
    cipher_suite_for_id, cipher_suites_eq, marshal_cipher_suites, unmarshal_cipher_suites,
    CipherSuite,
};
use dtls_client_hello::error::Error;

fn all_suites() -> Vec<(CipherSuite, u16)> {
    vec![
        (CipherSuite::EcdheEcdsaWithAes128Ccm, 0xc0ac),
        (CipherSuite::EcdheEcdsaWithAes128Ccm8, 0xc0ae),
        (CipherSuite::EcdheEcdsaWithAes128GcmSha256, 0xc02b),
        (CipherSuite::EcdheRsaWithAes128GcmSha256, 0xc02f),
        (CipherSuite::EcdheEcdsaWithAes256CbcSha, 0xc00a),
        (CipherSuite::EcdheRsaWithAes256CbcSha, 0xc014),
        (CipherSuite::PskWithAes128Ccm, 0xc0a4),
        (CipherSuite::PskWithAes128Ccm8, 0xc0a8),
        (CipherSuite::PskWithAes128GcmSha256, 0x00a8),
    ]
}

#[test]
fn test_identifiers() {
    for (suite, id) in all_suites() {
        assert_eq!(suite.id(), id);
        assert_eq!(cipher_suite_for_id(id), Ok(suite));
    }
}

#[test]
fn test_registry_holds_nothing_else() {
    let known: Vec<u16> = all_suites().iter().map(|(_, id)| *id).collect();
    for id in 0..=0xffffu16 {
        match cipher_suite_for_id(id) {
            Ok(suite) => {
                assert!(known.contains(&id));
                assert_eq!(suite.id(), id);
            }
            Err(e) => {
                assert!(!known.contains(&id));
                assert_eq!(e, Error::UnsupportedCipherSuite);
            }
        }
    }
}

#[test]
fn test_unregistered_identifier() {
    assert_eq!(cipher_suite_for_id(0xffff), Err(Error::UnsupportedCipherSuite));
    assert_eq!(cipher_suite_for_id(0x0000), Err(Error::UnsupportedCipherSuite));
    assert_eq!(cipher_suite_for_id(0x2bc0), Err(Error::UnsupportedCipherSuite));
}

#[test]
fn test_list_exact_bytes() {
    let suites = vec![CipherSuite::EcdheEcdsaWithAes128GcmSha256, CipherSuite::PskWithAes128GcmSha256];
    let raw = marshal_cipher_suites(&suites).unwrap();
    assert_eq!(raw, vec![0x00, 0x04, 0xc0, 0x2b, 0x00, 0xa8]);
    assert_eq!(unmarshal_cipher_suites(&raw), Ok((suites, 6)));
}

#[test]
fn test_empty_list() {
    assert_eq!(marshal_cipher_suites(&vec![]), Ok(vec![0x00, 0x00]));
    assert_eq!(unmarshal_cipher_suites(&[0x00, 0x00, 0x77]), Ok((vec![], 2)));
}

#[test]
fn test_list_round_trip_keeps_order_and_repeats() {
    let suites: Vec<CipherSuite> = all_suites()
        .iter()
        .chain(all_suites().iter().rev())
        .map(|(suite, _)| *suite)
        .collect();
    let raw = marshal_cipher_suites(&suites).unwrap();
    assert_eq!(raw.len(), 2 + 2 * 18);
    assert_eq!(unmarshal_cipher_suites(&raw), Ok((suites, 38)));
}

#[test]
fn test_list_with_unknown_identifier() {
    let raw = [0x00, 0x04, 0xc0, 0x2b, 0xff, 0xff];
    assert_eq!(unmarshal_cipher_suites(&raw), Err(Error::UnsupportedCipherSuite));
}

#[test]
fn test_list_with_odd_byte_count() {
    let raw = [0x00, 0x03, 0xc0, 0x2b, 0xc0];
    assert_eq!(unmarshal_cipher_suites(&raw), Err(Error::MalformedLength));
    // The count is refused before the identifiers are looked at.
    assert_eq!(unmarshal_cipher_suites(&[0x00, 0x01]), Err(Error::MalformedLength));
    assert_eq!(unmarshal_cipher_suites(&[0x00, 0x03, 0xff, 0xff, 0x00]), Err(Error::MalformedLength));
}

#[test]
fn test_list_truncated() {
    assert_eq!(unmarshal_cipher_suites(&[]), Err(Error::Truncated));
    assert_eq!(unmarshal_cipher_suites(&[0x00]), Err(Error::Truncated));
    assert_eq!(unmarshal_cipher_suites(&[0x00, 0x02]), Err(Error::Truncated));
    assert_eq!(unmarshal_cipher_suites(&[0x00, 0x02, 0xc0]), Err(Error::Truncated));
    assert_eq!(unmarshal_cipher_suites(&[0x00, 0x04, 0xc0, 0x2b, 0xc0]), Err(Error::Truncated));
}

#[test]
fn test_first_failing_identifier_decides() {
    // The unknown identifier comes before the missing one.
    assert_eq!(
        unmarshal_cipher_suites(&[0x00, 0x04, 0xff, 0xff, 0xc0]),
        Err(Error::UnsupportedCipherSuite)
    );
}

#[test]
fn test_list_length_limit() {
    let suites = vec![CipherSuite::EcdheRsaWithAes128GcmSha256; 0x7fff];
    let raw = marshal_cipher_suites(&suites).unwrap();
    assert_eq!(&raw[..4], &[0xff, 0xfe, 0xc0, 0x2f]);
    assert_eq!(unmarshal_cipher_suites(&raw), Ok((suites, 0xffff + 1)));
    let suites = vec![CipherSuite::EcdheRsaWithAes128GcmSha256; 0x8000];
    assert_eq!(marshal_cipher_suites(&suites), Err(Error::MalformedLength));
}

#[test]
fn test_list_equality() {
    let a = vec![CipherSuite::PskWithAes128Ccm, CipherSuite::PskWithAes128Ccm8];
    let b = vec![CipherSuite::PskWithAes128Ccm8, CipherSuite::PskWithAes128Ccm];
    assert!(cipher_suites_eq(&a, &a.clone()));
    assert!(!cipher_suites_eq(&a, &b));
    assert!(!cipher_suites_eq(&a, &a[..1].to_vec()));
    assert!(cipher_suites_eq(&vec![], &vec![]));
}
