use sha2::{Digest, Sha256};
use xsec::error::XSecError;
use xsec::protector::system::hash_identity;
use xsec::protector::system::macos;
use xsec::protector::system::macos::crypto::MacosEnvelope;
use xsec::protector::system::windows;
use xsec::protector::system::windows::crypto::{Challenge, SystemEnvelope, WindowsHelloPrf};
use xsec::secret::SecretKey;

fn macos_fixture() -> (SecretKey, [u8; 32], [u8; 32], [u8; 65], SecretKey) {
    let mut public_key = [3; macos::crypto::PUBLIC_KEY_SIZE];
    public_key[0] = 4;
    (
        SecretKey::new([9; 32]),
        hash_identity("test-account"),
        Sha256::digest(public_key).into(),
        public_key,
        SecretKey::new([7; 32]),
    )
}

fn windows_fixture() -> (SecretKey, [u8; 32], Challenge, WindowsHelloPrf) {
    (
        SecretKey::new([9; 32]),
        hash_identity("test-account"),
        Challenge::new([4; 16]),
        WindowsHelloPrf::from_signature(b"stable-windows-hello-signature"),
    )
}

#[test]
fn crypto_envelope_round_trip() {
    let (key, identity, key_hash, public_key, shared_secret) = macos_fixture();
    let payload = macos::crypto::seal_key(&key, &identity, &key_hash, &public_key, &shared_secret).unwrap();
    let envelope = MacosEnvelope::parse(&payload, &identity).unwrap();
    let stored_envelope = MacosEnvelope::parse_stored(&payload).unwrap();
    let opened = envelope.open(&shared_secret).unwrap();

    assert_eq!(payload.len(), macos::crypto::PAYLOAD_SIZE);
    assert_eq!(opened.expose_secret(), key.expose_secret());
    assert_eq!(stored_envelope.identity(), &identity);
    assert_eq!(envelope.recipient_key_hash(), &key_hash);
    assert_eq!(envelope.ephemeral_public_key(), &public_key);

    let (key, identity, challenge, prf) = windows_fixture();
    let payload = windows::crypto::seal_key(&key, &identity, &challenge, &prf).unwrap();
    let envelope = SystemEnvelope::parse(&payload, &identity).unwrap();
    let opened = envelope.open(&prf).unwrap();

    assert_eq!(opened.expose_secret(), key.expose_secret());
    assert_eq!(envelope.challenge(), challenge.as_bytes());
}

#[test]
fn crypto_authenticated_fields_reject_tampering() {
    let (key, identity, key_hash, public_key, shared_secret) = macos_fixture();
    let payload = macos::crypto::seal_key(&key, &identity, &key_hash, &public_key, &shared_secret).unwrap();

    for offset in [
        40,
        72 + 1,
        137,
        169,
        macos::crypto::HEADER_SIZE,
        macos::crypto::PAYLOAD_SIZE - 1,
    ] {
        let mut tampered = payload.clone();
        tampered[offset] ^= 1;
        let envelope = MacosEnvelope::parse(&tampered, &identity).unwrap();
        assert!(matches!(
            envelope.open(&shared_secret),
            Err(XSecError::AuthenticationFailed)
        ));
    }

    let (key, identity, challenge, prf) = windows_fixture();
    let payload = windows::crypto::seal_key(&key, &identity, &challenge, &prf).unwrap();

    for offset in [
        40,
        56,
        88,
        windows::crypto::HEADER_SIZE,
        windows::crypto::PAYLOAD_SIZE - 1,
    ] {
        let mut tampered = payload.clone();
        tampered[offset] ^= 1;
        let envelope = SystemEnvelope::parse(&tampered, &identity).unwrap();
        assert!(
            matches!(envelope.open(&prf), Err(XSecError::AuthenticationFailed)),
            "tampering at offset {offset} was accepted"
        );
    }
}
