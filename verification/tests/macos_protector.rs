use sha2::{Digest, Sha256};
use xsec::error::{ErrorSource, XSecError};
use xsec::protector::system::hash_identity;
use xsec::protector::system::macos::crypto::{
    seal_key, seal_key_with, MacosEnvelope, LINUX_MAGIC, MAGIC,
    PUBLIC_KEY_SIZE, WINDOWS_MAGIC,
};
use xsec::protector::system::macos::{
    after_create, after_open, export_public_key, map_cf_error, map_status, shared_secret,
    KeyAction, XSecSystemProtector, ERR_SEC_DUPLICATE_ITEM, ERR_SEC_ITEM_NOT_FOUND, ERR_SEC_PARAM,
    KEY_PREFIX, LA_ERROR_DOMAIN, LA_ERROR_USER_CANCEL,
};
use xsec::secret::SecretKey;

const PUBLIC_KEY_OFFSET: usize = 72;

fn fixture() -> (SecretKey, [u8; 32], [u8; 32], [u8; 65], SecretKey) {
    let mut public_key = [3; PUBLIC_KEY_SIZE];
    public_key[0] = 4;
    (
        SecretKey::new([9; 32]),
        hash_identity("test-account"),
        Sha256::digest(public_key).into(),
        public_key,
        SecretKey::new([7; 32]),
    )
}

#[test]
fn wrong_identity_and_key_are_rejected() {
    let (key, identity, key_hash, public_key, shared_secret) = fixture();
    let payload = seal_key(&key, &identity, &key_hash, &public_key, &shared_secret).unwrap();

    assert!(matches!(
        MacosEnvelope::parse(&payload, &hash_identity("another-account")),
        Err(XSecError::SystemKeyInvalidated)
    ));

    let envelope = MacosEnvelope::parse(&payload, &identity).unwrap();
    assert!(matches!(
        envelope.open(&SecretKey::new([8; 32])),
        Err(XSecError::AuthenticationFailed)
    ));
}

#[test]
fn parser_rejects_invalid_framing_version_and_platform() {
    let (key, identity, key_hash, public_key, shared_secret) = fixture();
    let payload = seal_key(&key, &identity, &key_hash, &public_key, &shared_secret).unwrap();

    assert!(matches!(
        MacosEnvelope::parse(&payload[..payload.len() - 1], &identity),
        Err(XSecError::Corrupted)
    ));

    let mut trailing = payload.clone();
    trailing.push(0);
    assert!(matches!(
        MacosEnvelope::parse(&trailing, &identity),
        Err(XSecError::Corrupted)
    ));

    let mut wrong_version = payload;
    wrong_version[MAGIC.len()..MAGIC.len() + 2].copy_from_slice(&2u16.to_be_bytes());
    assert!(matches!(
        MacosEnvelope::parse(&wrong_version, &identity),
        Err(XSecError::UnsupportedVersion)
    ));

    for platform_magic in [WINDOWS_MAGIC, LINUX_MAGIC] {
        assert!(matches!(
            MacosEnvelope::parse(platform_magic.as_bytes(), &identity),
            Err(XSecError::IncompatibleSystemProtector)
        ));
    }
}

#[test]
fn parser_rejects_invalid_public_key_encoding() {
    let (key, identity, key_hash, public_key, shared_secret) = fixture();
    let mut payload = seal_key(&key, &identity, &key_hash, &public_key, &shared_secret).unwrap();
    payload[PUBLIC_KEY_OFFSET] = 2;

    assert!(matches!(
        MacosEnvelope::parse(&payload, &identity),
        Err(XSecError::Corrupted)
    ));
}

#[test]
fn identity_is_not_exposed_in_key_tag() {
    let protector = XSecSystemProtector::new("account/secret-name");
    let key_tag = String::from_utf8(protector.key_tag().to_vec()).unwrap();

    assert!(key_tag.starts_with(KEY_PREFIX));
    assert!(!key_tag.contains("account"));
}

#[test]
fn a_given_salt_and_nonce_stand_in_the_envelope() {
    let (key, identity, key_hash, public_key, shared_secret) = fixture();
    let payload = seal_key_with(
        &key,
        &identity,
        &key_hash,
        &public_key,
        &shared_secret,
        [1; 32],
        [2; 12],
    )
    .unwrap();
    assert_eq!(&payload[..6], b"XSecMP");
    assert_eq!(&payload[6..8], &[0, 1]);
    assert_eq!(&payload[8..40], &identity);
    assert_eq!(&payload[40..72], &key_hash);
    assert_eq!(&payload[72..137], &public_key);
    assert_eq!(&payload[137..169], &[1; 32]);
    assert_eq!(&payload[169..181], &[2; 12]);
    assert_eq!(payload.len(), 229);
}

#[test]
fn a_protector_unwraps_what_it_wrapped() {
    let (key, _, _, public_key, secret) = fixture();
    let protector = XSecSystemProtector::new("test-account");
    let mut recipient = [8; PUBLIC_KEY_SIZE];
    recipient[0] = 4;
    let payload = protector
        .finish_wrap(&key, &recipient, &public_key, &secret)
        .unwrap();
    assert_eq!(protector.check_recipient(&payload, &recipient).unwrap(), public_key);
    let mut other = recipient;
    other[1] = 9;
    assert!(matches!(
        protector.check_recipient(&payload, &other),
        Err(XSecError::SystemKeyInvalidated)
    ));
    assert_eq!(
        protector.finish_unwrap(&payload, &secret).unwrap().expose_secret(),
        &[9; 32]
    );
    let restored = XSecSystemProtector::from_stored(&payload).unwrap();
    assert_eq!(restored.key_tag(), protector.key_tag());
}

#[test]
fn statuses_are_mapped() {
    assert!(matches!(
        map_status(ERR_SEC_ITEM_NOT_FOUND, "missing"),
        XSecError::SystemKeyNotFound
    ));
    let other = map_status(-1, "odd");
    assert!(matches!(
        &other,
        XSecError::Protector { source } if source.code == Some(-1)
    ));
    assert!(matches!(
        map_cf_error(LA_ERROR_DOMAIN, LA_ERROR_USER_CANCEL, "cancelled"),
        XSecError::AuthenticationCancelled
    ));
}

#[test]
fn the_key_is_opened_or_made() {
    assert!(matches!(after_open(Ok(())), KeyAction::UseKey));
    assert!(matches!(
        after_open(Err(XSecError::SystemKeyNotFound)),
        KeyAction::CreateKey
    ));
    assert!(matches!(
        after_open(Err(XSecError::AuthenticationFailed)),
        KeyAction::Fail(XSecError::AuthenticationFailed)
    ));
    assert!(matches!(after_create(Ok(())), KeyAction::OpenKey));
    let duplicate = XSecError::Protector {
        source: ErrorSource::with_code(ERR_SEC_DUPLICATE_ITEM, "duplicate".to_owned()),
    };
    assert!(matches!(after_create(Err(duplicate)), KeyAction::OpenKey));
}

#[test]
fn availability_and_deletion_follow_the_framework() {
    let protector = XSecSystemProtector::new("test-account");
    assert!(protector.check_availability(true, Ok(true)).is_ok());
    assert!(matches!(
        protector.check_availability(false, Ok(true)),
        Err(XSecError::SystemAuthenticationNotConfigured)
    ));
    assert!(matches!(
        protector.check_availability(true, Ok(false)),
        Err(XSecError::ProviderNotSupported)
    ));
    assert!(matches!(
        protector.check_availability(true, Err(XSecError::UserVerificationRequired)),
        Err(XSecError::SystemAuthenticationNotConfigured)
    ));
    let parameter = XSecError::Protector {
        source: ErrorSource::with_code(ERR_SEC_PARAM, "parameter".to_owned()),
    };
    assert!(matches!(
        protector.check_availability(true, Err(parameter)),
        Err(XSecError::ProviderNotSupported)
    ));
    assert!(protector.delete(0, "").is_ok());
    assert!(protector.delete(ERR_SEC_ITEM_NOT_FOUND, "").is_ok());
    assert!(protector.delete(-1, "odd").is_err());
}

#[test]
fn keys_have_the_right_length() {
    let mut point = [3; 65];
    point[0] = 4;
    assert_eq!(export_public_key(Some(&point)).unwrap(), point);
    assert!(export_public_key(Some(&point[..64])).is_err());
    assert!(export_public_key(None).is_err());
    assert_eq!(shared_secret(&[5; 32]).unwrap().expose_secret(), &[5; 32]);
    assert!(shared_secret(&[5; 31]).is_err());
}
