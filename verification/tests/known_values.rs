use xsec::protector::biometric::windows::XSecBiometricProtector;
use xsec::protector::password::{derive_key, seal_payload};
use xsec::protector::system::windows::crypto::{Challenge, WindowsHelloPrf};
use xsec::protector::system::{hash_identity, hex, macos, windows, windows_v1};
use xsec::secret::SecretKey;
use xsec::xsec::draft_metadata;
use xsec::{XSec, XSecKeyProtector, XSecResult, XSecStorage};

/// A storage that holds one given blob.
struct Holds(Vec<u8>);

impl XSecStorage for Holds {
    fn load(&self) -> XSecResult<Option<Vec<u8>>> {
        Ok(Some(self.0.clone()))
    }

    fn save(&self, _: &[u8]) -> XSecResult<()> {
        Ok(())
    }

    fn delete(&self) -> XSecResult<()> {
        Ok(())
    }
}

/// A protector that always gives the same key.
struct Fixed;

impl XSecKeyProtector for Fixed {
    fn kind(&self) -> &'static str {
        "fixed"
    }

    fn wrap_key(&self, _: &SecretKey) -> XSecResult<Vec<u8>> {
        Ok(Vec::new())
    }

    fn unwrap_key(&self, _: &[u8]) -> XSecResult<SecretKey> {
        Ok(key())
    }
}

fn key() -> SecretKey {
    SecretKey::new([9; 32])
}

fn bytes_of(text: &str) -> Vec<u8> {
    (0..text.len() / 2)
        .map(|i| u8::from_str_radix(&text[2 * i..2 * i + 2], 16).unwrap())
        .collect()
}

#[test]
fn argon2id_derives_a_known_key() {
    let derived = derive_key(b"password", &[2; 16], 65536, 3, 1).unwrap();
    assert_eq!(
        hex(derived.expose_secret()),
        "fe525ab59ed3b936920e320c0c812a4721c7e8213b4bd4b960c9f15b409c9540"
    );
    let other = derive_key(b"password", &[3; 16], 65536, 3, 1).unwrap();
    assert_ne!(derived.expose_secret(), other.expose_secret());
}

#[test]
fn a_password_payload_is_sealed_to_known_bytes() {
    let payload = seal_payload(&SecretKey::new([1; 32]), [2; 16], [3; 12], &key()).unwrap();
    assert_eq!(
        hex(&payload[..20]),
        "0001000100010000000000030000000100200010"
    );
    assert_eq!(payload[36], 12);
    assert_eq!(
        hex(&payload[49..]),
        "f1681d93f68d3e60a4f5ef6ec5102da1b13aa8448ec6cbbba519b44fa3438f7a\
         6070fdc522c4ee5490fb88635ccf7dfd"
    );
}

#[test]
fn metadata_has_a_known_tag() {
    let (_, blob) = draft_metadata("password", vec![1, 2, 3], &key()).unwrap();
    assert_eq!(
        hex(&blob[29..]),
        "75bb8e499eae5b45d6db90af0f14a1b6ce99d908bcdd6eefc6a01663eeed071f"
    );
}

#[test]
fn a_known_ciphertext_is_decrypted() {
    let (_, blob) = draft_metadata("fixed", Vec::new(), &key()).unwrap();
    let mut xsec = XSec::new();
    xsec.load(Holds(blob)).unwrap();
    xsec.unlock(&Fixed).unwrap();
    let sealed = bytes_of(
        "58536563435400010001000000000000000000000000000000000c03030303030303030303\
         0303b9f1871e3a8ea7e847fb3e0c90398191a546d6c74f",
    );
    let opened = xsec.decrypt_with_aad(&sealed, b"context").unwrap();
    assert_eq!(opened.as_slice(), b"hello");
}

#[test]
fn an_identity_has_a_known_hash() {
    assert_eq!(
        hex(&hash_identity("account")),
        "613d93b270885af80b69013ebbf121b27c9758d4f8482475843599be86a61634"
    );
    assert_eq!(
        hex(&windows_v1::identity_hash("account")),
        "613d93b270885af80b69013ebbf121b27c9758d4f8482475843599be86a61634"
    );
}

#[test]
fn a_windows_envelope_is_sealed_to_known_bytes() {
    let payload = windows::crypto::seal_key_with(
        &key(),
        &hash_identity("account"),
        &Challenge::new([4; 16]),
        &WindowsHelloPrf::from_signature(b"signature"),
        [5; 32],
        [3; 12],
    )
    .unwrap();
    assert_eq!(
        hex(&payload[100..]),
        "a9f5d478e28c1e89a37333cb05e61bc60e72d5862d3e839eeeb032a84e1ed7dc\
         fdb3252d7f91557db465588b43acb2da"
    );
}

#[test]
fn a_macos_envelope_is_sealed_to_known_bytes() {
    let mut ephemeral = [7; 65];
    ephemeral[0] = 4;
    let payload = macos::crypto::seal_key_with(
        &key(),
        &hash_identity("account"),
        &[6; 32],
        &ephemeral,
        &SecretKey::new([8; 32]),
        [5; 32],
        [3; 12],
    )
    .unwrap();
    assert_eq!(
        hex(&payload[181..]),
        "edc5791f93241e680e969809b1b502aa0c60ffc76b540500110f47086375b359\
         55a5e36c4fd543e22f666d0c07342cdd"
    );
}

#[test]
fn a_first_format_payload_is_sealed_to_known_bytes() {
    let protector = windows_v1::XSecSystemProtector::new("account");
    let payload = protector
        .seal_with_nonce(&key(), &[7; 24], &[4; 16], b"signature", [3; 12])
        .unwrap();
    assert_eq!(
        hex(&payload[113..]),
        "4e0d471a0edd630c509a2ba34614ee578ce4a7cbacbded81800303cc64e049ab\
         941960617d4a72b66c2ba09848419240"
    );
}

#[test]
fn a_biometric_payload_is_sealed_to_known_bytes() {
    let protector = XSecBiometricProtector::new("account".to_owned());
    let payload = protector
        .seal_with_nonce(&key(), b"signature", [3; 12])
        .unwrap();
    assert_eq!(
        hex(&payload),
        "000100076163636f756e740303030303030303030303039066d607725738eec5f4c2e1a804d795\
         58f3d64077781dd356b36ec5263eec0790c68f6a0ebc3acaae3e5a9a98cc4e5d"
    );
}
