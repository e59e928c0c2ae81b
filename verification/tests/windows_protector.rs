use xsec::error::{ErrorSource, XSecError};
use xsec::protector::system::hash_identity;
use xsec::protector::system::windows::crypto::{
    seal_key, seal_key_with, Challenge, SystemEnvelope, WindowsHelloPrf, MAGIC,
};
use xsec::protector::system::windows::{
    after_create, after_open, check_signature, map_credential_status, CredentialAction,
    CredentialStatus, Operation, XSecSystemProtector, CREDENTIAL_PREFIX,
};
use xsec::secret::SecretKey;

const IDENTITY_OFFSET: usize = 8;
const SALT_OFFSET: usize = 56;
const NONCE_OFFSET: usize = 88;

fn fixture() -> (SecretKey, [u8; 32], Challenge, WindowsHelloPrf) {
    (
        SecretKey::new([9; 32]),
        hash_identity("test-account"),
        Challenge::new([4; 16]),
        WindowsHelloPrf::from_signature(b"stable-windows-hello-signature"),
    )
}

#[test]
fn wrong_signature_cannot_open_envelope() {
    let (key, identity, challenge, prf) = fixture();
    let payload = seal_key(&key, &identity, &challenge, &prf).unwrap();
    let envelope = SystemEnvelope::parse(&payload, &identity).unwrap();
    let wrong_prf = WindowsHelloPrf::from_signature(b"attacker-controlled-signature");

    assert!(matches!(
        envelope.open(&wrong_prf),
        Err(XSecError::AuthenticationFailed)
    ));
}

#[test]
fn wrong_identity_is_rejected_before_opening() {
    let (key, identity, challenge, prf) = fixture();
    let payload = seal_key(&key, &identity, &challenge, &prf).unwrap();

    assert!(matches!(
        SystemEnvelope::parse(&payload, &hash_identity("another-account")),
        Err(XSecError::SystemKeyInvalidated)
    ));
}

#[test]
fn crypto_parser_rejects_invalid_framing_and_version() {
    let (key, identity, challenge, prf) = fixture();
    let payload = seal_key(&key, &identity, &challenge, &prf).unwrap();

    assert!(matches!(
        SystemEnvelope::parse(&payload[..payload.len() - 1], &identity),
        Err(XSecError::Corrupted)
    ));

    let mut trailing = payload.clone();
    trailing.push(0);
    assert!(matches!(
        SystemEnvelope::parse(&trailing, &identity),
        Err(XSecError::Corrupted)
    ));

    let mut wrong_magic = payload.clone();
    wrong_magic[0] ^= 1;
    assert!(matches!(
        SystemEnvelope::parse(&wrong_magic, &identity),
        Err(XSecError::Corrupted)
    ));

    let mut wrong_identity = payload.clone();
    wrong_identity[IDENTITY_OFFSET] ^= 1;
    assert!(matches!(
        SystemEnvelope::parse(&wrong_identity, &identity),
        Err(XSecError::SystemKeyInvalidated)
    ));

    let mut wrong_version = payload;
    wrong_version[MAGIC.len()..MAGIC.len() + 2].copy_from_slice(&3u16.to_be_bytes());
    assert!(matches!(
        SystemEnvelope::parse(&wrong_version, &identity),
        Err(XSecError::UnsupportedVersion)
    ));
}

#[test]
fn each_seal_uses_fresh_salt_and_nonce() {
    let (key, identity, challenge, prf) = fixture();
    let first = seal_key(&key, &identity, &challenge, &prf).unwrap();
    let second = seal_key(&key, &identity, &challenge, &prf).unwrap();

    assert_ne!(
        &first[SALT_OFFSET..SALT_OFFSET + 32],
        &second[SALT_OFFSET..SALT_OFFSET + 32]
    );
    assert_ne!(
        &first[NONCE_OFFSET..NONCE_OFFSET + 12],
        &second[NONCE_OFFSET..NONCE_OFFSET + 12]
    );
}

#[test]
fn mod_identity_is_not_exposed_in_credential_name() {
    let protector = XSecSystemProtector::new("account/secret-name");
    assert!(protector.credential_name().starts_with(CREDENTIAL_PREFIX));
    assert!(!protector.credential_name().contains("account"));
}

#[test]
fn a_given_salt_and_nonce_stand_in_the_windows_envelope() {
    let (key, identity, challenge, prf) = fixture();
    let payload = seal_key_with(&key, &identity, &challenge, &prf, [1; 32], [2; 12]).unwrap();
    assert_eq!(&payload[..8], b"XSecSP\x00\x02");
    assert_eq!(&payload[8..40], &identity);
    assert_eq!(&payload[40..56], &[4; 16]);
    assert_eq!(&payload[56..88], &[1; 32]);
    assert_eq!(&payload[88..100], &[2; 12]);
    assert_eq!(payload.len(), 148);
}

#[test]
fn a_windows_protector_unwraps_what_it_wrapped() {
    let protector = XSecSystemProtector::new("test-account");
    let challenge = Challenge::new([4; 16]);
    let payload = protector
        .finish_wrap(&SecretKey::new([9; 32]), &challenge, b"signature")
        .unwrap();
    assert_eq!(protector.challenge_of(&payload).unwrap(), vec![4; 16]);
    assert_eq!(
        protector.finish_unwrap(&payload, b"signature").unwrap().expose_secret(),
        &[9; 32]
    );
    let restored = XSecSystemProtector::from_stored(&payload).unwrap();
    assert_eq!(restored.credential_name(), protector.credential_name());
}

#[test]
fn credential_answers_are_mapped() {
    assert!(matches!(
        map_credential_status(CredentialStatus::NotFound, Operation::Open),
        XSecError::SystemKeyNotFound
    ));
    assert!(matches!(
        after_create(CredentialStatus::CredentialAlreadyExists),
        CredentialAction::Open
    ));
    assert!(matches!(after_create(CredentialStatus::Success), CredentialAction::Use));
    assert!(matches!(
        after_open(CredentialStatus::NotFound),
        CredentialAction::Fail(XSecError::SystemKeyNotFound)
    ));
    assert!(check_signature(CredentialStatus::Success, 256).is_ok());
    assert!(matches!(
        check_signature(CredentialStatus::Success, 0),
        Err(XSecError::AuthenticationFailed)
    ));
}

#[test]
fn hello_has_to_be_supported_and_deletion_is_lenient() {
    let protector = XSecSystemProtector::new("test-account");
    assert!(protector.check_availability(true).is_ok());
    assert!(matches!(
        protector.check_availability(false),
        Err(XSecError::WindowsHelloNotSupported)
    ));
    assert!(protector.delete(None).is_ok());
    let missing = ErrorSource::new("missing".to_owned());
    assert!(protector.delete(Some((0x8009_0016, missing))).is_ok());
    let odd = ErrorSource::new("odd".to_owned());
    assert!(matches!(
        protector.delete(Some((1, odd))),
        Err(XSecError::Protector { .. })
    ));
}

#[test]
fn payloads_of_other_systems_are_not_for_windows() {
    let identity = hash_identity("test-account");
    for magic in ["XSecLP", "XSecMP"] {
        for length in [56, 148, 229] {
            let mut payload = vec![0; length];
            payload[..magic.len()].copy_from_slice(magic.as_bytes());
            assert!(matches!(
                SystemEnvelope::parse(&payload, &identity),
                Err(XSecError::IncompatibleSystemProtector)
            ));
        }
    }
}

#[test]
fn challenges_are_drawn_anew() {
    let first = Challenge::random().unwrap();
    let second = Challenge::random().unwrap();
    assert_ne!(first.as_bytes(), second.as_bytes());
}
