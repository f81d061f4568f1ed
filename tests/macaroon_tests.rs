use macaroon::macaroon::{key_from_str, ByteString, Caveat, Macaroon, VERSION};
use macaroon::verification::Verifier;
use macaroon::MacaroonError;

type Predicates = Verifier<Box<dyn Fn(&Caveat) -> bool>>;

fn root_key() -> ByteString {
    ByteString(vec![7u8; 32])
}

fn caveat_key() -> ByteString {
    ByteString((0u8..32).collect())
}

fn first_party(id: &str) -> Caveat {
    Caveat { identifier: id.into(), ..Default::default() }
}

fn third_party(id: &str, location: &str) -> Caveat {
    Caveat { identifier: id.into(), location: Some(location.to_string()), ..Default::default() }
}

fn first_party_token() -> Macaroon {
    let mut m = Macaroon::new(&root_key(), "a test".into(), None).unwrap();
    m.add_first_party_caveat(first_party("foo = bar")).unwrap();
    m.add_first_party_caveat(first_party("user = me")).unwrap();
    m
}

fn exact_verifier(ids: &[&str]) -> Predicates {
    let mut v: Predicates = Verifier::default();
    for id in ids {
        v.satisfy_exact((*id).into());
    }
    v
}

#[test]
fn string_key() {
    let test_key = "a test";
    let k = key_from_str(test_key).unwrap();
    let reparsed_key = std::str::from_utf8(&k.0).unwrap();
    assert!(reparsed_key.contains(test_key));

    // Long key should error
    let test_key = "To be, or not to be? That is the question. Whether 'tis nobler in the mind to suffer the slings of fortune...";
    let res = key_from_str(test_key);
    assert!(res.is_err());
}

#[test]
fn string_key_is_right_aligned_in_zeros() {
    let k = key_from_str("ab").unwrap();
    let mut expected = vec![0u8; 30];
    expected.extend_from_slice(b"ab");
    assert_eq!(k.0, expected);
    assert_eq!(key_from_str(&"x".repeat(32)).unwrap().0, vec![b'x'; 32]);
    assert_eq!(key_from_str(&"x".repeat(33)).unwrap_err(), MacaroonError::InvalidKeyLength);
}

#[test]
fn new_rejects_wrong_key_length() {
    let short = ByteString(vec![1u8; 31]);
    assert_eq!(Macaroon::new(&short, "a test".into(), None).unwrap_err(), MacaroonError::InvalidKeyLength);
}

#[test]
fn new_token_fields() {
    let m = Macaroon::new(&root_key(), "a test".into(), Some("http://issuer".to_string())).unwrap();
    assert_eq!(m.version, VERSION);
    assert_eq!(m.version, 2);
    assert_eq!(m.identifier, ByteString::from("a test"));
    assert_eq!(m.location, Some("http://issuer".to_string()));
    assert_eq!(m.signature.0.len(), 32);
    assert_ne!(m.signature.0, root_key().0);
    assert!(m.get_caveats().is_empty());
}

#[test]
fn minting_is_deterministic() {
    let a = first_party_token();
    let b = first_party_token();
    assert_eq!(a.signature, b.signature);
    let c = Macaroon::new(&ByteString(vec![8u8; 32]), "a test".into(), None).unwrap();
    assert_ne!(c.signature, Macaroon::new(&root_key(), "a test".into(), None).unwrap().signature);
}

#[test]
fn first_party_chain_matches_hash() {
    let mut m = Macaroon::new(&root_key(), "a test".into(), None).unwrap();
    let before = m.signature.clone();
    m.add_first_party_caveat(first_party("foo = bar")).unwrap();
    let expected = Macaroon::hash_first_party(&before, &"foo = bar".into()).unwrap();
    assert_eq!(m.signature, expected);
    assert_ne!(m.signature, before);
    assert_eq!(
        Macaroon::hash_first_party(&ByteString(vec![1u8; 5]), &"x".into()).unwrap_err(),
        MacaroonError::InvalidKeyLength
    );
}

#[test]
fn third_party_hash_order_matters() {
    let sig = root_key();
    let a = Macaroon::hash_third_party(&sig, &"id".into(), &"vid".into()).unwrap();
    let b = Macaroon::hash_third_party(&sig, &"vid".into(), &"id".into()).unwrap();
    assert_ne!(a, b);
    assert_eq!(a.0.len(), 32);
    assert_eq!(
        Macaroon::hash_third_party(&ByteString(vec![]), &"id".into(), &"vid".into()).unwrap_err(),
        MacaroonError::InvalidKeyLength
    );
}

#[test]
fn first_party_happy_path() {
    let m = first_party_token();
    let v = exact_verifier(&["foo = bar", "user = me"]);
    assert_eq!(v.verify(&m, &root_key(), Vec::new()), Ok(()));
}

#[test]
fn first_party_missing_rule_fails() {
    let m = first_party_token();
    let v = exact_verifier(&["foo = bar"]);
    assert_eq!(v.verify(&m, &root_key(), Vec::new()), Err(MacaroonError::CaveatNotSatisfied));
}

#[test]
fn general_predicate_accepts_caveat() {
    let m = first_party_token();
    let mut v = exact_verifier(&["foo = bar"]);
    v.satisfy_general(Box::new(|c: &Caveat| c.identifier.0.starts_with(b"user = ")));
    assert_eq!(v.verify(&m, &root_key(), Vec::new()), Ok(()));

    let mut w = exact_verifier(&["foo = bar"]);
    w.satisfy_general(Box::new(|_: &Caveat| false));
    assert_eq!(w.verify(&m, &root_key(), Vec::new()), Err(MacaroonError::CaveatNotSatisfied));
}

#[test]
fn verify_rejects_wrong_key() {
    let m = first_party_token();
    let v = exact_verifier(&["foo = bar", "user = me"]);
    assert_eq!(v.verify(&m, &ByteString(vec![9u8; 32]), Vec::new()), Err(MacaroonError::SignatureMismatch));
    assert_eq!(v.verify(&m, &ByteString(vec![9u8; 3]), Vec::new()), Err(MacaroonError::InvalidKeyLength));
}

#[test]
fn tampered_signature_fails() {
    let m = first_party_token();
    let v = exact_verifier(&["foo = bar", "user = me"]);
    for i in 0..m.signature.0.len() {
        let mut t = m.clone();
        t.signature.0[i] ^= 0x01;
        let r = v.verify(&t, &root_key(), Vec::new());
        assert!(r == Err(MacaroonError::SignatureMismatch) || r == Err(MacaroonError::CaveatNotSatisfied));
    }
}

#[test]
fn tampered_caveat_identifier_fails() {
    let m = first_party_token();
    let v = exact_verifier(&["foo = bar", "user = me", "foo = baz"]);
    let mut caveats = m.get_caveats();
    caveats[0].identifier.0[6] ^= 0x04; // "foo = bar" becomes "foo = far"
    let t = Macaroon::from_parts(m.version, m.identifier.clone(), None, m.signature.clone(), caveats);
    assert_eq!(v.verify(&t, &root_key(), Vec::new()), Err(MacaroonError::CaveatNotSatisfied));

    let mut caveats = m.get_caveats();
    caveats[0].identifier = "foo = baz".into();
    let t = Macaroon::from_parts(m.version, m.identifier.clone(), None, m.signature.clone(), caveats);
    assert_eq!(v.verify(&t, &root_key(), Vec::new()), Err(MacaroonError::SignatureMismatch));
}

#[test]
fn base64_round_trip_keeps_signature() {
    let m = first_party_token();
    let text = m.signature.to_base64();
    let back = ByteString::new_from_base64(&text).unwrap();
    assert_eq!(back, m.signature);
}

#[test]
fn base64_known_values() {
    assert_eq!(ByteString::from("foo").to_base64(), "Zm9v");
    assert_eq!(ByteString::from("fo").to_base64(), "Zm8=");
    assert_eq!(ByteString::new_from_base64("Zm9vYg==").unwrap(), ByteString::from("foob"));
    assert_eq!(ByteString::new_from_base64("not base64!").unwrap_err(), MacaroonError::DecodeError);
}

#[test]
fn caveat_accessors_filter_by_location() {
    let mut m = Macaroon::new(&root_key(), "a test".into(), None).unwrap();
    m.add_first_party_caveat(first_party("a")).unwrap();
    m.add_third_party_caveat(&caveat_key(), third_party("b", "http://auth")).unwrap();
    m.add_first_party_caveat(first_party("c")).unwrap();
    let all = m.get_caveats();
    assert_eq!(all.len(), 3);
    let first: Vec<ByteString> = m.get_first_party_caveats().into_iter().map(|c| c.identifier).collect();
    assert_eq!(first, vec![ByteString::from("a"), ByteString::from("c")]);
    let third = m.get_third_party_caveats();
    assert_eq!(third.len(), 1);
    assert_eq!(third[0].identifier, ByteString::from("b"));
    assert_eq!(third[0].location, Some("http://auth".to_string()));
    // nonce (24) + sealed key (32) + tag (16)
    assert_eq!(third[0].verification_id.0.len(), 72);
}

#[test]
fn third_party_caveat_with_nonce_is_exact() {
    let mut a = Macaroon::new(&root_key(), "a test".into(), None).unwrap();
    let mut b = Macaroon::new(&root_key(), "a test".into(), None).unwrap();
    let nonce = ByteString(vec![3u8; 24]);
    a.add_third_party_caveat_with_nonce(&caveat_key(), third_party("x", "http://auth"), &nonce).unwrap();
    b.add_third_party_caveat_with_nonce(&caveat_key(), third_party("x", "http://auth"), &nonce).unwrap();
    assert_eq!(a.signature, b.signature);
    let vid = &a.get_caveats()[0].verification_id;
    assert_eq!(&vid.0[..24], &nonce.0[..]);
    assert_ne!(&vid.0[24..56], &caveat_key().0[..]);
}

fn third_party_setup() -> (Macaroon, Macaroon) {
    let mut m = Macaroon::new(&root_key(), "a test".into(), None).unwrap();
    m.add_third_party_caveat(&caveat_key(), third_party("foo = bar", "http://my.auth")).unwrap();
    let mut discharge = Macaroon::new(&caveat_key(), "foo = bar".into(), Some("http://my.auth".to_string())).unwrap();
    discharge.add_first_party_caveat(first_party("bar = baz")).unwrap();
    (m, discharge)
}

#[test]
fn third_party_happy_path() {
    let (mut m, discharge) = third_party_setup();
    let bound = m.prepare_for_request(&discharge).unwrap();
    let v = exact_verifier(&["foo = bar", "bar = baz"]);
    assert_eq!(v.verify(&m, &root_key(), vec![bound]), Ok(()));
}

#[test]
fn unbound_discharge_fails() {
    let (m, discharge) = third_party_setup();
    let v = exact_verifier(&["foo = bar", "bar = baz"]);
    assert_eq!(v.verify(&m, &root_key(), vec![discharge]), Err(MacaroonError::SignatureMismatch));
}

#[test]
fn prepare_for_request_changes_only_signature() {
    let (mut m, discharge) = third_party_setup();
    let before = m.signature.clone();
    let bound = m.prepare_for_request(&discharge).unwrap();
    assert_eq!(m.signature, before);
    assert_eq!(bound.identifier, discharge.identifier);
    assert_eq!(bound.location, discharge.location);
    assert_eq!(bound.get_caveats().len(), 1);
    assert_ne!(bound.signature, discharge.signature);
    let zero = ByteString(vec![0u8; 32]);
    assert_eq!(bound.signature, Macaroon::hash_third_party(&zero, &m.signature, &discharge.signature).unwrap());
}

#[test]
fn discharge_caveat_must_be_satisfied() {
    let (mut m, discharge) = third_party_setup();
    let bound = m.prepare_for_request(&discharge).unwrap();
    let v = exact_verifier(&["foo = bar"]);
    assert_eq!(v.verify(&m, &root_key(), vec![bound]), Err(MacaroonError::CaveatNotSatisfied));
}

#[test]
fn extra_discharge_is_unused() {
    let (mut m, discharge) = third_party_setup();
    let bound = m.prepare_for_request(&discharge).unwrap();
    let extra = Macaroon::new(&caveat_key(), "other".into(), None).unwrap();
    let extra = m.prepare_for_request(&extra).unwrap();
    let v = exact_verifier(&["foo = bar", "bar = baz"]);
    assert_eq!(v.verify(&m, &root_key(), vec![bound, extra]), Err(MacaroonError::UnusedDischarges));

    let plain = first_party_token();
    let w = exact_verifier(&["foo = bar", "user = me"]);
    let spare = Macaroon::new(&caveat_key(), "spare".into(), None).unwrap();
    assert_eq!(w.verify(&plain, &root_key(), vec![spare]), Err(MacaroonError::UnusedDischarges));
}

#[test]
fn no_discharge_is_missing() {
    let (m, _) = third_party_setup();
    let v = exact_verifier(&["foo = bar", "bar = baz"]);
    assert_eq!(v.verify(&m, &root_key(), Vec::new()), Err(MacaroonError::MissingDischarge));
}

#[test]
fn discharge_cannot_serve_two_caveats() {
    let mut m = Macaroon::new(&root_key(), "a test".into(), None).unwrap();
    m.add_third_party_caveat(&caveat_key(), third_party("foo = bar", "http://my.auth")).unwrap();
    m.add_third_party_caveat(&caveat_key(), third_party("foo = bar", "http://my.auth")).unwrap();
    let discharge = Macaroon::new(&caveat_key(), "foo = bar".into(), None).unwrap();
    let bound = m.prepare_for_request(&discharge).unwrap();
    let v = exact_verifier(&["foo = bar"]);
    assert_eq!(v.verify(&m, &root_key(), vec![bound]), Err(MacaroonError::MissingDischarge));
}

#[test]
fn short_verification_id_fails_decryption() {
    let (mut m, discharge) = third_party_setup();
    let bound = m.prepare_for_request(&discharge).unwrap();
    let mut caveats = m.get_caveats();
    caveats[0].verification_id.0.truncate(39);
    let t = Macaroon::from_parts(m.version, m.identifier.clone(), None, m.signature.clone(), caveats);
    let v = exact_verifier(&["foo = bar", "bar = baz"]);
    assert_eq!(v.verify(&t, &root_key(), vec![bound]), Err(MacaroonError::DecryptionFailure));
}

#[test]
fn corrupted_verification_id_fails_decryption() {
    let (mut m, discharge) = third_party_setup();
    let bound = m.prepare_for_request(&discharge).unwrap();
    let mut caveats = m.get_caveats();
    caveats[0].verification_id.0[30] ^= 0x80;
    let t = Macaroon::from_parts(m.version, m.identifier.clone(), None, m.signature.clone(), caveats);
    let v = exact_verifier(&["foo = bar", "bar = baz"]);
    assert_eq!(v.verify(&t, &root_key(), vec![bound]), Err(MacaroonError::DecryptionFailure));
}

#[test]
fn first_party_append_rejects_malformed() {
    let mut m = Macaroon::new(&root_key(), "a test".into(), None).unwrap();
    let before = m.signature.clone();
    let with_vid = Caveat { identifier: "x".into(), location: None, verification_id: "v".into() };
    assert_eq!(m.add_first_party_caveat(with_vid), Err(MacaroonError::MalformedCaveat));
    assert_eq!(m.add_first_party_caveat(third_party("x", "http://auth")), Err(MacaroonError::MalformedCaveat));
    assert_eq!(m.signature, before);
    assert!(m.get_caveats().is_empty());
}

#[test]
fn third_party_append_rejects_malformed() {
    let mut m = Macaroon::new(&root_key(), "a test".into(), None).unwrap();
    let before = m.signature.clone();
    assert_eq!(m.add_third_party_caveat(&caveat_key(), first_party("x")), Err(MacaroonError::MalformedCaveat));
    let with_vid = Caveat { identifier: "x".into(), location: Some("http://auth".to_string()), verification_id: "v".into() };
    assert_eq!(m.add_third_party_caveat(&caveat_key(), with_vid), Err(MacaroonError::MalformedCaveat));
    assert_eq!(
        m.add_third_party_caveat(&ByteString(vec![1u8; 4]), third_party("x", "http://auth")),
        Err(MacaroonError::InvalidKeyLength)
    );
    assert_eq!(m.signature, before);
    assert!(m.get_caveats().is_empty());
}

#[test]
fn tampered_signature_blocks_appending() {
    let mut m = Macaroon::new(&root_key(), "a test".into(), None).unwrap();
    m.signature = "ohnoesthisisbad".into();
    assert_eq!(m.add_first_party_caveat(first_party("x")), Err(MacaroonError::InvalidKeyLength));
}

#[test]
fn from_text_keeps_utf8_bytes() {
    assert_eq!(ByteString::from(String::from("ab\u{e9}")).0, vec![b'a', b'b', 0xc3, 0xa9]);
    assert_eq!(ByteString::from("ab").0, b"ab".to_vec());
}

#[test]
fn hashes_have_key_width() {
    let sig = root_key();
    assert_eq!(Macaroon::hash_first_party(&sig, &"".into()).unwrap().0.len(), 32);
    assert_eq!(Macaroon::hash_third_party(&sig, &"".into(), &"".into()).unwrap().0.len(), 32);
}
