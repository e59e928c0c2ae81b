use aes_gcm::aead::{Aead, KeyInit, Payload};
use aes_gcm::{Aes256Gcm, Nonce};
use xsec::error::XSecError;
use xsec::protector::system::windows_v1::{
    check_public_key, identity_hash, random_challenge, SystemPayload, XSecSystemProtector, AEAD_ALGORITHM,
    CHALLENGE_SIZE, CREDENTIAL_PREFIX, ENVELOPE_VERSION, KDF_ALGORITHM, MAGIC,
    SIGNATURE_ALGORITHM, WINDOWS_BACKEND,
};
use xsec::secret::SecretKey;

const KEY_SIZE: usize = 32;
const NONCE_SIZE: usize = 12;
const TAG_SIZE: usize = 16;

#[test]
fn windows_identity_is_not_exposed_in_credential_name() {
    let protector = XSecSystemProtector::new("account/secret-name");
    assert!(protector.credential_name().starts_with(CREDENTIAL_PREFIX));
    assert!(!protector.credential_name().contains("account"));
}

#[test]
fn parser_rejects_truncated_payload() {
    assert!(matches!(
        SystemPayload::parse(&[0; 16]),
        Err(XSecError::Corrupted)
    ));
}

fn test_payload() -> Vec<u8> {
    let public_key = [3u8; 24];
    let backend_length = 6
        + 4
        + public_key.len()
        + 2
        + CHALLENGE_SIZE
        + 1
        + NONCE_SIZE
        + 4
        + KEY_SIZE
        + TAG_SIZE;
    let mut payload = Vec::new();
    payload.extend_from_slice(MAGIC.as_bytes());
    payload.extend_from_slice(&ENVELOPE_VERSION.to_be_bytes());
    payload.extend_from_slice(&WINDOWS_BACKEND.to_be_bytes());
    payload.extend_from_slice(&identity_hash("test"));
    payload.extend_from_slice(&(backend_length as u32).to_be_bytes());
    payload.extend_from_slice(&SIGNATURE_ALGORITHM.to_be_bytes());
    payload.extend_from_slice(&KDF_ALGORITHM.to_be_bytes());
    payload.extend_from_slice(&AEAD_ALGORITHM.to_be_bytes());
    payload.extend_from_slice(&(public_key.len() as u32).to_be_bytes());
    payload.extend_from_slice(&public_key);
    payload.extend_from_slice(&(CHALLENGE_SIZE as u16).to_be_bytes());
    payload.extend_from_slice(&[4u8; CHALLENGE_SIZE]);
    payload.push(NONCE_SIZE as u8);
    payload.extend_from_slice(&[5u8; NONCE_SIZE]);
    payload.extend_from_slice(&((KEY_SIZE + TAG_SIZE) as u32).to_be_bytes());
    payload.extend_from_slice(&[6u8; KEY_SIZE + TAG_SIZE]);
    payload
}

#[test]
fn envelope_parser_accepts_v1_and_rejects_trailing_data() {
    let payload = test_payload();
    let parsed = SystemPayload::parse(&payload).unwrap();
    assert_eq!(parsed.public_key, &[3u8; 24]);
    assert_eq!(parsed.challenge, &[4u8; CHALLENGE_SIZE]);
    let mut trailing = payload;
    trailing.push(0);
    assert!(matches!(
        SystemPayload::parse(&trailing),
        Err(XSecError::Corrupted)
    ));
}

#[test]
fn envelope_parser_rejects_another_backend() {
    let mut payload = test_payload();
    payload[6..8].copy_from_slice(&2u16.to_be_bytes());
    assert!(matches!(
        SystemPayload::parse(&payload),
        Err(XSecError::IncompatibleSystemProtector)
    ));
}

#[test]
fn wrapped_key_cannot_be_opened_without_the_hello_signature() {
    let identity = identity_hash("test-account");
    let enrolled_kek = XSecSystemProtector::derive_kek(b"hello-signature", &identity).unwrap();
    let bypass_kek = XSecSystemProtector::derive_kek(b"attacker-controlled", &identity).unwrap();
    let nonce_bytes = [7u8; NONCE_SIZE];
    let nonce = Nonce::try_from(nonce_bytes.as_slice()).unwrap();
    let aad = b"xsec-system-test-header";
    let ciphertext = Aes256Gcm::new_from_slice(&enrolled_kek.expose_secret()[..])
        .unwrap()
        .encrypt(
            &nonce,
            Payload {
                msg: &[9u8; KEY_SIZE],
                aad,
            },
        )
        .unwrap();

    assert!(Aes256Gcm::new_from_slice(&bypass_kek.expose_secret()[..])
        .unwrap()
        .decrypt(
            &nonce,
            Payload {
                msg: &ciphertext,
                aad,
            },
        )
        .is_err());
}

#[test]
fn a_v1_protector_unwraps_what_it_wrapped() {
    let protector = XSecSystemProtector::new("test-account");
    let public_key = [3u8; 24];
    let payload = protector
        .finish_wrap(&SecretKey::new([9; 32]), &public_key, &[4; 16], b"signature")
        .unwrap();
    assert_eq!(
        protector.challenge_of(&payload, Some(&public_key)).unwrap(),
        vec![4; 16]
    );
    assert_eq!(
        protector
            .finish_unwrap(&payload, &public_key, b"signature")
            .unwrap()
            .expose_secret(),
        &[9; 32]
    );
    assert!(matches!(
        protector.challenge_of(&payload, Some(&[2u8; 24])),
        Err(XSecError::SystemKeyInvalidated)
    ));
    assert!(protector.finish_unwrap(&payload, &public_key, b"other").is_err());
}

#[test]
fn public_keys_have_a_limited_length() {
    assert!(check_public_key(24).is_ok());
    assert!(check_public_key(16384).is_ok());
    assert!(matches!(
        check_public_key(23),
        Err(XSecError::SystemKeyInvalidated)
    ));
    assert!(check_public_key(16385).is_err());
}

#[test]
fn first_format_challenges_are_drawn_anew() {
    assert_ne!(random_challenge().unwrap(), random_challenge().unwrap());
}
