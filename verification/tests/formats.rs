use std::path::PathBuf;

use xsec::error::{ErrorSource, XSecError};
use xsec::metadata::{validate_kind, Metadata, MAX_METADATA_LENGTH};
use xsec::protector::biometric;
use xsec::protector::password::{
    open_payload, seal_payload, validate_params, PasswordPayload,
};
use xsec::protector::system::{hash_identity, hex};
use xsec::secret::{SecretBytes, SecretKey};
use xsec::storage::file::{directory_of, FileFailure, LoadStep, XSecFileStorage};
use xsec::xsec::draft_metadata;
use xsec::{XSecKeyProtector, XSecPasswordProtector};

#[test]
fn a_password_payload_has_its_documented_form() {
    let kek = SecretKey::new([1; 32]);
    let key = SecretKey::new([9; 32]);
    let payload = seal_payload(&kek, [2; 16], [3; 12], &key).unwrap();
    let parsed = PasswordPayload::parse(&payload).unwrap();
    assert_eq!(parsed.salt, &[2; 16]);
    assert_eq!(parsed.nonce, &[3; 12]);
    assert_eq!(parsed.memory_cost, 65536);
    assert_eq!(parsed.time_cost, 3);
    assert_eq!(parsed.parallelism, 1);
    assert_eq!(
        open_payload(&kek, &parsed).unwrap().expose_secret(),
        &[9; 32]
    );
    assert!(matches!(
        open_payload(&SecretKey::new([8; 32]), &parsed),
        Err(XSecError::AuthenticationFailed)
    ));
    let mut trailing = payload.clone();
    trailing.push(0);
    assert!(matches!(PasswordPayload::parse(&trailing), Err(XSecError::Corrupted)));
    assert!(PasswordPayload::parse(&payload[..payload.len() - 1]).is_err());
}

#[test]
fn password_parameters_are_limited() {
    assert!(validate_params(65536, 3, 1, 16).is_ok());
    assert!(validate_params(0, 3, 1, 16).is_err());
    assert!(validate_params(65536, 0, 1, 16).is_err());
    assert!(validate_params(65536, 3, 0, 16).is_err());
    assert!(validate_params(u32::MAX, 3, 1, 16).is_err());
}

#[test]
fn a_password_protector_wraps_and_unwraps() {
    let protector = XSecPasswordProtector::new(SecretBytes::new(b"password".to_vec()));
    assert_eq!(protector.kind(), "password");
    let payload = protector.wrap_key(&SecretKey::new([9; 32])).unwrap();
    assert_eq!(
        protector.unwrap_key(&payload).unwrap().expose_secret(),
        &[9; 32]
    );
    assert!(matches!(
        protector.unwrap_key(&payload[..10]),
        Err(XSecError::Corrupted)
    ));
}

#[test]
fn metadata_reads_back() {
    let key = SecretKey::new([9; 32]);
    let (_, blob) = draft_metadata("password", vec![1, 2, 3], &key).unwrap();
    assert_eq!(&blob[..6], b"XSecMD");
    assert_eq!(&blob[6..12], &[0, 1, 0, 1, 0, 1]);
    assert_eq!(&blob[12..14], &[0, 8]);
    assert_eq!(&blob[14..22], b"password");
    assert_eq!(&blob[22..26], &[0, 0, 0, 3]);
    assert_eq!(&blob[26..29], &[1, 2, 3]);
    assert_eq!(blob.len(), 29 + 32);
    let parsed = Metadata::parse(&blob).unwrap();
    assert_eq!(parsed.kinds(), vec!["password"]);
    assert_eq!(parsed.payload_of("password"), Some(&[1, 2, 3][..]));
    assert!(parsed.verify(&key).is_ok());
    assert!(matches!(
        parsed.verify(&SecretKey::new([8; 32])),
        Err(XSecError::Corrupted)
    ));
    assert!(matches!(
        draft_metadata("password", vec![0; 65537], &key),
        Err(XSecError::Corrupted)
    ));
}

#[test]
fn kinds_have_a_form() {
    for kind in ["a", "0", "a.b_c-9"] {
        assert!(validate_kind(kind).is_ok());
    }
    for kind in ["", "A", ".a", "a b", "\u{e4}"] {
        assert!(validate_kind(kind).is_err());
    }
    assert!(validate_kind(&"a".repeat(128)).is_ok());
    assert!(validate_kind(&"a".repeat(129)).is_err());
}

#[test]
fn identities_are_hashed_in_a_domain() {
    assert_ne!(hash_identity("a"), hash_identity("b"));
    assert_eq!(hash_identity("a"), hash_identity("a"));
    assert_eq!(hex(&[0x00, 0x9f, 0xff]), "009fff");
}

#[test]
fn a_biometric_protector_unwraps_what_it_wrapped() {
    let protector = biometric::windows::XSecBiometricProtector::new("account".to_owned());
    assert_eq!(protector.kind(), "windows-hello");
    assert_eq!(protector.name(), "account");
    let payload = protector
        .finish_wrap(&SecretKey::new([9; 32]), b"signature")
        .unwrap();
    assert!(protector.check_payload(&payload).is_ok());
    assert_eq!(
        protector.finish_unwrap(&payload, b"signature").unwrap().expose_secret(),
        &[9; 32]
    );
    assert!(protector.finish_unwrap(&payload, b"other").is_err());
}

#[test]
fn a_file_storage_keeps_its_path() {
    let storage = XSecFileStorage::new(PathBuf::from("keys"));
    assert_eq!(storage.path(), &PathBuf::from("keys"));
}

#[test]
fn a_file_storage_loads_what_it_may_save() {
    let storage = XSecFileStorage::new(PathBuf::from("keys"));
    assert!(storage.check_save(&vec![0; MAX_METADATA_LENGTH]).is_ok());
    assert!(matches!(
        storage.check_save(&vec![0; MAX_METADATA_LENGTH + 1]),
        Err(XSecError::Corrupted)
    ));
    assert!(matches!(
        storage.after_inspect(Ok(MAX_METADATA_LENGTH as u64)),
        LoadStep::Read
    ));
    assert!(matches!(
        storage.after_inspect(Ok(MAX_METADATA_LENGTH as u64 + 1)),
        LoadStep::Done(Err(XSecError::Corrupted))
    ));
    assert!(matches!(
        storage.after_inspect(Err(FileFailure::NotFound)),
        LoadStep::Done(Ok(None))
    ));
    assert_eq!(storage.after_read(Ok(vec![1])).unwrap(), Some(vec![1]));
    assert!(matches!(
        storage.after_read(Ok(vec![0; MAX_METADATA_LENGTH + 1])),
        Err(XSecError::Corrupted)
    ));
}

#[test]
fn a_file_storage_reports_failures() {
    let storage = XSecFileStorage::new(PathBuf::from("keys"));
    let source = || ErrorSource::new("denied".to_owned());
    assert!(matches!(
        storage.after_inspect(Err(FileFailure::Other(source()))),
        LoadStep::Done(Err(XSecError::Storage { .. }))
    ));
    assert!(matches!(
        storage.after_read(Err(source())),
        Err(XSecError::Storage { .. })
    ));
    assert!(storage.after_save(Ok(())).is_ok());
    assert!(matches!(
        storage.after_save(Err(source())),
        Err(XSecError::Storage { .. })
    ));
    assert!(storage.after_delete(Err(FileFailure::NotFound)).is_ok());
    assert!(matches!(
        storage.after_delete(Err(FileFailure::Other(source()))),
        Err(XSecError::Storage { .. })
    ));
    assert!(storage.check_exists(Ok(true)).unwrap());
    assert!(storage.check_exists(Err(source())).is_err());
}

#[test]
fn a_file_is_replaced_in_its_own_directory() {
    assert_eq!(directory_of(Some("a"), false, "."), "a");
    assert_eq!(directory_of(Some(""), true, "."), ".");
    assert_eq!(directory_of(None, false, "."), ".");
}
