use xsec::error::XSecError;
use xsec::protector::system::hash_identity;
use xsec::protector::system::linux::{
    authorization, availability, parse_payload, probe_secure_memory, XSecSystemProtector,
    MACOS_MAGIC, MAGIC, PAYLOAD_SIZE, PAYLOAD_VERSION, POLKIT_ACTION, WINDOWS_MAGIC,
};
use xsec::secret::SecretKey;

fn framed(identity: &[u8; 32]) -> Vec<u8> {
    let mut payload = Vec::with_capacity(PAYLOAD_SIZE);
    payload.extend_from_slice(MAGIC.as_bytes());
    payload.extend_from_slice(&PAYLOAD_VERSION.to_be_bytes());
    payload.extend_from_slice(identity);
    payload.extend_from_slice(&[3; 16]);
    payload
}

#[test]
fn payload_round_trip() {
    let mut protector = XSecSystemProtector::new("test-account");
    let key = SecretKey::new([7; 32]);
    let payload = protector.wrap_key(&key).unwrap();

    assert_eq!(payload.len(), PAYLOAD_SIZE);
    assert!(parse_payload(&payload, Some(protector.identity())).is_ok());
    let key_id = parse_payload(&payload, Some(protector.identity())).unwrap();
    assert_eq!(
        protector.copy_key(&key_id).unwrap().expose_secret(),
        key.expose_secret()
    );
}

#[test]
fn replacing_key_invalidates_previous_payload() {
    let mut protector = XSecSystemProtector::new("test-account");
    let first = protector.wrap_key(&SecretKey::new([1; 32])).unwrap();
    protector.wrap_key(&SecretKey::new([2; 32])).unwrap();

    let first_key_id = parse_payload(&first, Some(protector.identity())).unwrap();
    assert!(matches!(
        protector.copy_key(&first_key_id),
        Err(XSecError::SystemKeyInvalidated)
    ));
}

#[test]
fn key_is_not_available_to_a_new_protector() {
    let protector = XSecSystemProtector::new("test-account");
    let key_id = [0; 16];
    assert!(matches!(
        protector.copy_key(&key_id),
        Err(XSecError::SystemKeyNotFound)
    ));
}

#[test]
fn parser_rejects_wrong_identity_and_platform() {
    let protector = XSecSystemProtector::new("test-account");
    let payload = framed(protector.identity());

    let other_identity = hash_identity("another-account");
    assert!(matches!(
        parse_payload(&payload, Some(&other_identity)),
        Err(XSecError::SystemKeyInvalidated)
    ));

    let mut windows_payload = [0; PAYLOAD_SIZE];
    windows_payload[..WINDOWS_MAGIC.len()].copy_from_slice(WINDOWS_MAGIC.as_bytes());
    assert!(matches!(
        parse_payload(&windows_payload, Some(protector.identity())),
        Err(XSecError::IncompatibleSystemProtector)
    ));
}

#[test]
fn linux_parser_rejects_invalid_framing_and_version() {
    let protector = XSecSystemProtector::new("test-account");
    let mut payload = framed(protector.identity());

    assert!(matches!(
        parse_payload(&payload[..payload.len() - 1], Some(protector.identity())),
        Err(XSecError::Corrupted)
    ));

    payload[MAGIC.len()..MAGIC.len() + 2].copy_from_slice(&2u16.to_be_bytes());
    assert!(matches!(
        parse_payload(&payload, Some(protector.identity())),
        Err(XSecError::UnsupportedVersion)
    ));
}

#[test]
fn a_payload_names_its_key() {
    let protector = XSecSystemProtector::new("test-account");
    let payload = framed(protector.identity());
    assert_eq!(
        parse_payload(&payload, Some(protector.identity())).unwrap(),
        [3; 16]
    );
    assert_eq!(parse_payload(&payload, None).unwrap(), [3; 16]);
}

#[test]
fn a_stored_payload_restores_the_identity() {
    let protector = XSecSystemProtector::new("test-account");
    let restored = XSecSystemProtector::from_stored(&framed(protector.identity())).unwrap();
    assert_eq!(restored.identity(), protector.identity());
    assert_eq!(restored.kind(), "system");
}

#[test]
fn unwrapping_needs_authorization_and_the_key() {
    let mut protector = XSecSystemProtector::new("test-account");
    let payload = protector.wrap_key(&SecretKey::new([7; 32])).unwrap();
    assert_eq!(
        protector.finish_unwrap(&payload, Ok(())).unwrap().expose_secret(),
        &[7; 32]
    );
    assert!(matches!(
        protector.finish_unwrap(&payload, Err(XSecError::AuthenticationCancelled)),
        Err(XSecError::AuthenticationCancelled)
    ));
    protector.delete().unwrap();
    assert!(matches!(
        protector.finish_unwrap(&payload, Ok(())),
        Err(XSecError::SystemKeyNotFound)
    ));
}

#[test]
fn a_given_identifier_is_written_into_the_payload() {
    let mut protector = XSecSystemProtector::new("test-account");
    let payload = protector.store_key([5; 16], &SecretKey::new([7; 32])).unwrap();
    assert_eq!(&payload[..6], b"XSecLP");
    assert_eq!(&payload[6..8], &[0, 1]);
    assert_eq!(&payload[8..40], protector.identity());
    assert_eq!(&payload[40..], &[5; 16]);
    assert_eq!(protector.copy_key(&[5; 16]).unwrap().expose_secret(), &[7; 32]);
}

#[test]
fn polkit_has_to_list_the_action() {
    assert!(availability(&vec!["other".to_owned(), POLKIT_ACTION.to_owned()]).is_ok());
    assert!(matches!(
        availability(&vec!["other".to_owned()]),
        Err(XSecError::SystemAuthenticationNotConfigured)
    ));
    let protector = XSecSystemProtector::new("test-account");
    assert!(protector
        .check_availability(Ok(vec!["com.xsec.XSec.unlock".to_owned()]))
        .is_ok());
    assert!(matches!(
        protector.check_availability(Ok(vec![])),
        Err(XSecError::SystemAuthenticationNotConfigured)
    ));
    assert!(matches!(
        protector.check_availability(Err(XSecError::NotFound)),
        Err(XSecError::NotFound)
    ));
}

#[test]
fn polkit_answers_are_told_apart() {
    assert!(authorization(true, None).is_ok());
    assert!(matches!(
        authorization(false, Some("true")),
        Err(XSecError::AuthenticationCancelled)
    ));
    assert!(matches!(
        authorization(false, Some("")),
        Err(XSecError::AuthenticationFailed)
    ));
    assert!(matches!(
        authorization(false, None),
        Err(XSecError::AuthenticationFailed)
    ));
}

#[test]
fn a_macos_payload_is_not_for_linux() {
    let protector = XSecSystemProtector::new("test-account");
    assert_eq!(MACOS_MAGIC, "XSecMP");
    let mut short = [0; PAYLOAD_SIZE];
    short[..MACOS_MAGIC.len()].copy_from_slice(MACOS_MAGIC.as_bytes());
    let mut long = vec![0; 229];
    long[..MACOS_MAGIC.len()].copy_from_slice(MACOS_MAGIC.as_bytes());
    for payload in [&short[..], &long[..]] {
        assert!(matches!(
            parse_payload(payload, Some(protector.identity())),
            Err(XSecError::IncompatibleSystemProtector)
        ));
        assert!(matches!(
            XSecSystemProtector::from_stored(payload),
            Err(XSecError::IncompatibleSystemProtector)
        ));
    }
}

#[test]
fn locked_memory_is_given() {
    assert!(probe_secure_memory().is_ok());
}
