use std::sync::{Arc, Mutex};

use xsec::error::ErrorSource;
use xsec::secret::{SecretBytes, SecretKey};
use xsec::{
    XSec, XSecError, XSecKeyProtector, XSecPasswordProtector, XSecResult, XSecStorage,
};

#[derive(Clone, Default)]
struct Mem(Arc<Mutex<Option<Vec<u8>>>>);

impl XSecStorage for Mem {
    fn load(&self) -> XSecResult<Option<Vec<u8>>> {
        Ok(self.0.lock().unwrap().clone())
    }

    fn save(&self, b: &[u8]) -> XSecResult<()> {
        *self.0.lock().unwrap() = Some(b.to_vec());
        Ok(())
    }

    fn delete(&self) -> XSecResult<()> {
        *self.0.lock().unwrap() = None;
        Ok(())
    }
}

/// A storage that refuses to be written.
struct ReadOnly(Mem);

fn refusal() -> XSecError {
    XSecError::Storage {
        source: ErrorSource::new("read-only".to_owned()),
    }
}

impl XSecStorage for ReadOnly {
    fn load(&self) -> XSecResult<Option<Vec<u8>>> {
        self.0.load()
    }

    fn save(&self, _: &[u8]) -> XSecResult<()> {
        Err(refusal())
    }

    fn delete(&self) -> XSecResult<()> {
        Err(refusal())
    }
}

struct P(&'static str, u8);

impl XSecKeyProtector for P {
    fn kind(&self) -> &'static str {
        self.0
    }

    fn wrap_key(&self, k: &SecretKey) -> XSecResult<Vec<u8>> {
        Ok(k.expose_secret().iter().map(|x| x ^ self.1).collect())
    }

    fn unwrap_key(&self, b: &[u8]) -> XSecResult<SecretKey> {
        let v: [u8; 32] = b
            .iter()
            .map(|x| x ^ self.1)
            .collect::<Vec<_>>()
            .try_into()
            .map_err(|_| XSecError::AuthenticationFailed)?;
        Ok(SecretKey::new(v))
    }
}

fn created(storage: Mem) -> XSec<Mem> {
    let mut x = XSec::new();
    x.load(storage).unwrap();
    x.create(&P("test", 7)).unwrap();
    x
}

#[test]
fn lifecycle() {
    let s = Mem::default();
    let p = P("test", 7);
    let mut x = XSec::new();
    x.load(s.clone()).unwrap();
    assert!(!x.is_initialized());
    x.create(&p).unwrap();
    let c = x.encrypt_with_aad(b"hello", b"id").unwrap();
    assert_eq!(x.decrypt_with_aad(&c, b"id").unwrap().as_slice(), b"hello");
    x.lock().unwrap();
    assert!(matches!(x.decrypt(&c), Err(XSecError::Locked)));
    let mut y = XSec::new();
    y.load(s).unwrap();
    y.unlock(&p).unwrap();
    assert_eq!(y.decrypt_with_aad(&c, b"id").unwrap().as_slice(), b"hello");
}

#[test]
fn nothing_works_before_a_storage_is_loaded() {
    let mut x: XSec<Mem> = XSec::new();
    assert!(!x.is_loaded() && !x.is_initialized() && x.is_locked() && !x.is_destroyed());
    assert!(matches!(x.create(&P("test", 7)), Err(XSecError::StorageNotLoaded)));
    assert!(matches!(x.unlock(&P("test", 7)), Err(XSecError::StorageNotLoaded)));
    assert!(matches!(x.lock(), Err(XSecError::StorageNotLoaded)));
    assert!(matches!(x.encrypt(b"x"), Err(XSecError::StorageNotLoaded)));
    assert!(matches!(x.destroy(), Err(XSecError::StorageNotLoaded)));
    assert!(x.into_storage().is_none());
}

#[test]
fn a_storage_is_loaded_once_and_a_key_made_once() {
    let s = Mem::default();
    let mut x = created(s.clone());
    assert!(matches!(x.load(s), Err(XSecError::AlreadyLoaded)));
    assert!(matches!(x.create(&P("other", 1)), Err(XSecError::AlreadyExists)));
    assert!(matches!(x.unlock(&P("test", 7)), Err(XSecError::AlreadyUnlocked)));
}

#[test]
fn an_uninitialized_storage_cannot_be_unlocked() {
    let mut x = XSec::new();
    x.load(Mem::default()).unwrap();
    assert!(matches!(x.unlock(&P("test", 7)), Err(XSecError::NotInitialized)));
    assert!(matches!(x.encrypt(b"x"), Err(XSecError::NotInitialized)));
    assert!(x.key_protector_kinds().is_empty());
}

#[test]
fn a_locked_key_decrypts_nothing_until_it_is_unlocked() {
    let mut x = created(Mem::default());
    let c = x.encrypt(b"hello").unwrap();
    x.lock().unwrap();
    x.lock().unwrap();
    assert!(x.is_locked() && x.is_initialized());
    assert!(matches!(x.encrypt(b"x"), Err(XSecError::Locked)));
    assert!(matches!(x.add_key_protector(&P("b", 1)), Err(XSecError::Locked)));
    assert!(matches!(x.remove_key_protector("test"), Err(XSecError::Locked)));
    assert!(matches!(x.unlock(&P("none", 7)), Err(XSecError::ProtectorNotFound)));
    x.unlock(&P("test", 7)).unwrap();
    assert_eq!(x.decrypt(&c).unwrap().as_slice(), b"hello");
}

#[test]
fn a_wrong_key_does_not_verify_the_metadata() {
    let mut x = created(Mem::default());
    x.lock().unwrap();
    assert!(matches!(x.unlock(&P("test", 8)), Err(XSecError::Corrupted)));
    assert!(x.is_locked());
    x.unlock(&P("test", 7)).unwrap();
}

#[test]
fn protectors_are_added_removed_and_replaced_under_one_key() {
    let s = Mem::default();
    let mut x = created(s.clone());
    let c = x.encrypt(b"hello").unwrap();
    x.add_key_protector(&P("alpha", 1)).unwrap();
    assert_eq!(x.key_protector_kinds(), vec!["alpha", "test"]);
    assert!(matches!(
        x.add_key_protector(&P("alpha", 2)),
        Err(XSecError::ProtectorAlreadyExists)
    ));
    assert!(matches!(
        x.remove_key_protector("none"),
        Err(XSecError::ProtectorNotFound)
    ));
    x.remove_key_protector("test").unwrap();
    assert!(matches!(
        x.remove_key_protector("alpha"),
        Err(XSecError::LastProtector)
    ));
    assert!(matches!(
        x.replace_key_protector("none", &P("beta", 3)),
        Err(XSecError::ProtectorNotFound)
    ));
    x.replace_key_protector("alpha", &P("beta", 3)).unwrap();
    assert_eq!(x.key_protector_kinds(), vec!["beta"]);

    let mut y = XSec::new();
    y.load(s).unwrap();
    assert!(matches!(y.unlock(&P("test", 7)), Err(XSecError::ProtectorNotFound)));
    y.unlock(&P("beta", 3)).unwrap();
    assert_eq!(y.decrypt(&c).unwrap().as_slice(), b"hello");
}

#[test]
fn the_order_of_additions_does_not_show() {
    let mut x = created(Mem::default());
    x.add_key_protector(&P("b", 1)).unwrap();
    x.add_key_protector(&P("a", 2)).unwrap();
    let mut y = created(Mem::default());
    y.add_key_protector(&P("a", 2)).unwrap();
    y.add_key_protector(&P("b", 1)).unwrap();
    assert_eq!(x.key_protector_kinds(), y.key_protector_kinds());
}

#[test]
fn a_kind_has_to_be_storable() {
    let mut x = XSec::new();
    x.load(Mem::default()).unwrap();
    assert!(matches!(x.create(&P("Test", 7)), Err(XSecError::Corrupted)));
    assert!(!x.is_initialized());
    x.create(&P("test", 7)).unwrap();
    assert!(matches!(x.add_key_protector(&P("", 1)), Err(XSecError::Corrupted)));
}

#[test]
fn a_failing_storage_changes_nothing() {
    let s = Mem::default();
    created(s.clone());
    let mut x = XSec::new();
    x.load(ReadOnly(s)).unwrap();
    x.unlock(&P("test", 7)).unwrap();
    assert!(matches!(
        x.add_key_protector(&P("b", 1)),
        Err(XSecError::Storage { .. })
    ));
    assert_eq!(x.key_protector_kinds(), vec!["test"]);
    assert!(matches!(x.destroy(), Err(XSecError::Storage { .. })));
    assert!(!x.is_destroyed() && !x.is_locked());

    let mut y = XSec::new();
    y.load(ReadOnly(Mem::default())).unwrap();
    assert!(matches!(y.create(&P("test", 7)), Err(XSecError::Storage { .. })));
    assert!(!y.is_initialized());
}

#[test]
fn what_is_destroyed_stays_destroyed() {
    let s = Mem::default();
    let mut x = created(s.clone());
    x.destroy().unwrap();
    assert!(x.is_destroyed() && x.is_locked() && !x.is_initialized());
    assert!(s.0.lock().unwrap().is_none());
    assert!(matches!(x.encrypt(b"x"), Err(XSecError::Destroyed)));
    assert!(matches!(x.unlock(&P("test", 7)), Err(XSecError::Destroyed)));
    assert!(matches!(x.create(&P("test", 7)), Err(XSecError::AlreadyExists)));
    x.destroy().unwrap();
    assert!(x.is_destroyed());
    assert!(x.into_storage().is_some());
}

#[test]
fn a_damaged_blob_is_refused() {
    let s = Mem::default();
    created(s.clone());
    let blob = s.0.lock().unwrap().clone().unwrap();
    *s.0.lock().unwrap() = Some(b"short".to_vec());
    let mut x = XSec::new();
    assert!(matches!(x.load(s.clone()), Err(XSecError::Corrupted)));
    assert!(!x.is_loaded());
    let mut version = blob.clone();
    version[7] = 2;
    *s.0.lock().unwrap() = Some(version);
    assert!(matches!(x.load(s.clone()), Err(XSecError::UnsupportedVersion)));
    let mut algorithm = blob.clone();
    algorithm[9] = 2;
    *s.0.lock().unwrap() = Some(algorithm);
    assert!(matches!(x.load(s.clone()), Err(XSecError::UnsupportedAlgorithm)));
    let mut tag = blob;
    let last = tag.len() - 1;
    tag[last] ^= 1;
    *s.0.lock().unwrap() = Some(tag);
    x.load(s).unwrap();
    assert!(matches!(x.unlock(&P("test", 7)), Err(XSecError::Corrupted)));
}

#[test]
fn a_ciphertext_has_its_documented_form() {
    let x = created(Mem::default());
    let c = x.encrypt_with_aad(b"hello", b"id").unwrap();
    assert_eq!(&c[..6], b"XSecCT");
    assert_eq!(&c[6..10], &[0, 1, 0, 1]);
    assert_eq!(&c[10..26], &[0; 16]);
    assert_eq!(c[26], 12);
    assert_eq!(c.len(), 39 + 5 + 16);
    assert_ne!(x.encrypt_with_aad(b"hello", b"id").unwrap(), c);
}

#[test]
fn a_ciphertext_is_bound_to_everything_in_it() {
    let x = created(Mem::default());
    let c = x.encrypt_with_aad(b"hello", b"id").unwrap();
    assert!(matches!(
        x.decrypt_with_aad(&c, b"other"),
        Err(XSecError::InvalidCiphertext)
    ));
    assert!(matches!(x.decrypt(&c), Err(XSecError::InvalidCiphertext)));
    assert!(matches!(x.decrypt(&c[..54]), Err(XSecError::InvalidCiphertext)));
    let mut nonce = c.clone();
    nonce[27] ^= 1;
    assert!(matches!(
        x.decrypt_with_aad(&nonce, b"id"),
        Err(XSecError::InvalidCiphertext)
    ));
    let mut version = c.clone();
    version[7] = 2;
    assert!(matches!(
        x.decrypt_with_aad(&version, b"id"),
        Err(XSecError::UnsupportedVersion)
    ));
    let mut algorithm = c;
    algorithm[9] = 2;
    assert!(matches!(
        x.decrypt_with_aad(&algorithm, b"id"),
        Err(XSecError::UnsupportedAlgorithm)
    ));
}

#[test]
fn an_empty_message_is_encrypted() {
    let x = created(Mem::default());
    let c = x.encrypt(b"").unwrap();
    assert_eq!(x.decrypt(&c).unwrap().as_slice(), b"");
}

#[test]
fn a_password_unlocks_what_it_wrapped() {
    let s = Mem::default();
    let protector = XSecPasswordProtector::new(SecretBytes::new(b"password".to_vec()));
    let mut x = XSec::new();
    x.load(s.clone()).unwrap();
    x.create(&protector).unwrap();
    let c = x.encrypt(b"hello").unwrap();
    x.lock().unwrap();
    let wrong = XSecPasswordProtector::new(SecretBytes::new(b"passwore".to_vec()));
    assert!(matches!(x.unlock(&wrong), Err(XSecError::AuthenticationFailed)));
    x.unlock(&protector).unwrap();
    assert_eq!(x.decrypt(&c).unwrap().as_slice(), b"hello");
    assert_eq!(x.key_protector_kinds(), vec!["password"]);
    assert!(x.key_protector_payload("password").is_some());
    assert!(x.key_protector_payload("system").is_none());
}

#[test]
fn errors_have_their_texts() {
    assert_eq!(XSecError::Locked.message(), "XSec is locked");
    assert_eq!(refusal().message(), "storage error: read-only");
    assert_eq!(
        XSecError::LastProtector.message(),
        "the last key protector cannot be removed"
    );
}
