//! The system protector of macOS: a Secure Enclave key behind biometry.
//!
//! The calls into the Security framework are made by the host; what they mean, and
//! what follows from them, is decided here.
pub mod crypto;

use vstd::prelude::*;
use vstd::string::*;
use vstd::utf8::*;

use crate::bytes;
use crate::error::{ErrorSource, XSecError, XSecResult};
use crate::protector::system;
use crate::protector::system::macos::crypto::{MacosEnvelope, PUBLIC_KEY_SIZE};
use crate::secret::SecretKey;

verus! {

pub const KEY_PREFIX: &'static str = "xsec-system-";

pub const AUTHENTICATION_REASON: &'static str = "Unlock encrypted data";

pub const LA_ERROR_DOMAIN: &'static str = "com.apple.LocalAuthentication";

pub const ERR_SEC_SUCCESS: i32 = 0;

pub const ERR_SEC_PARAM: i32 = -50;

pub const ERR_SEC_USER_CANCELED: i32 = -128;

pub const ERR_SEC_NOT_AVAILABLE: i32 = -25291;

pub const ERR_SEC_AUTH_FAILED: i32 = -25293;

pub const ERR_SEC_DUPLICATE_ITEM: i32 = -25299;

pub const ERR_SEC_ITEM_NOT_FOUND: i32 = -25300;

pub const ERR_SEC_INTERACTION_NOT_ALLOWED: i32 = -25308;

pub const ERR_SEC_MISSING_ENTITLEMENT: i32 = -34018;

pub const LA_ERROR_AUTHENTICATION_FAILED: i32 = -1;

pub const LA_ERROR_USER_CANCEL: i32 = -2;

pub const LA_ERROR_USER_FALLBACK: i32 = -3;

pub const LA_ERROR_SYSTEM_CANCEL: i32 = -4;

pub const LA_ERROR_PASSCODE_NOT_SET: i32 = -5;

pub const LA_ERROR_BIOMETRY_NOT_AVAILABLE: i32 = -6;

pub const LA_ERROR_BIOMETRY_NOT_ENROLLED: i32 = -7;

pub const LA_ERROR_BIOMETRY_LOCKOUT: i32 = -8;

pub const LA_ERROR_APP_CANCEL: i32 = -9;

pub const LA_ERROR_NOT_INTERACTIVE: i32 = -1004;

/// Wraps the data key under a Secure Enclave key named after the identity.
pub struct XSecSystemProtector {
    identity: [u8; 32],
    key_tag: Vec<u8>,
}

/// What to do next on the way to the Secure Enclave key.
pub enum KeyAction {
    /// The key is at hand.
    UseKey,
    /// The key is to be made.
    CreateKey,
    /// The key is to be looked up once more.
    OpenKey,
    /// There is no way on.
    Fail(XSecError),
}

/// The name of the key of an identity hash.
pub open spec fn key_tag_of(identity: Seq<u8>) -> Seq<u8> {
    encode_utf8(KEY_PREFIX@ + system::hex_text(identity))
}

/// What a status of the Security framework means, `None` where it has no meaning
/// of its own.
pub open spec fn status_error(status: i32) -> Option<XSecError> {
    if status == ERR_SEC_USER_CANCELED {
        Some(XSecError::AuthenticationCancelled)
    } else if status == ERR_SEC_AUTH_FAILED {
        Some(XSecError::AuthenticationFailed)
    } else if status == ERR_SEC_ITEM_NOT_FOUND {
        Some(XSecError::SystemKeyNotFound)
    } else if status == ERR_SEC_INTERACTION_NOT_ALLOWED {
        Some(XSecError::UserVerificationRequired)
    } else if status == ERR_SEC_MISSING_ENTITLEMENT || status == ERR_SEC_NOT_AVAILABLE {
        Some(XSecError::SystemProtectorUnavailable)
    } else {
        None
    }
}

/// What a code of the local authentication framework means, `None` where it has no
/// meaning of its own.
pub open spec fn authentication_error(code: i32) -> Option<XSecError> {
    if code == LA_ERROR_USER_CANCEL || code == LA_ERROR_USER_FALLBACK || code
        == LA_ERROR_SYSTEM_CANCEL || code == LA_ERROR_APP_CANCEL {
        Some(XSecError::AuthenticationCancelled)
    } else if code == LA_ERROR_PASSCODE_NOT_SET || code == LA_ERROR_BIOMETRY_NOT_AVAILABLE || code
        == LA_ERROR_BIOMETRY_NOT_ENROLLED {
        Some(XSecError::SystemAuthenticationNotConfigured)
    } else if code == LA_ERROR_NOT_INTERACTIVE {
        Some(XSecError::UserVerificationRequired)
    } else if code == LA_ERROR_AUTHENTICATION_FAILED || code == LA_ERROR_BIOMETRY_LOCKOUT {
        Some(XSecError::AuthenticationFailed)
    } else {
        None
    }
}

/// `error` is the code and its description, wrapped.
pub open spec fn is_framework_error(error: XSecError, code: i32, description: Seq<char>) -> bool {
    error matches XSecError::Protector { source } && source.code == Some(code) && source.message@
        == "macOS Security framework error "@ + bytes::ascii_chars(bytes::signed_decimal(code as int))
        + ": "@ + description
}

/// `error` came with the given code.
pub open spec fn has_code(error: XSecError, code: i32) -> bool {
    error matches XSecError::Protector { source } && source.code == Some(code)
}

fn framework_error(code: i32, description: &str) -> (error: XSecError)
    ensures
        is_framework_error(error, code, description@),
{
    let mut message: String = "macOS Security framework error ".to_owned();
    message.append(bytes::decimal_text(code).as_str());
    message.append(": ");
    message.append(description);
    XSecError::protector(ErrorSource::with_code(code, message))
}

/// The error for a status of the Security framework.
pub fn map_status(status: i32, description: &str) -> (error: XSecError)
    ensures
        match status_error(status) {
            Some(e) => error == e,
            None => is_framework_error(error, status, description@),
        },
{
    if status == ERR_SEC_USER_CANCELED {
        XSecError::AuthenticationCancelled
    } else if status == ERR_SEC_AUTH_FAILED {
        XSecError::AuthenticationFailed
    } else if status == ERR_SEC_ITEM_NOT_FOUND {
        XSecError::SystemKeyNotFound
    } else if status == ERR_SEC_INTERACTION_NOT_ALLOWED {
        XSecError::UserVerificationRequired
    } else if status == ERR_SEC_MISSING_ENTITLEMENT || status == ERR_SEC_NOT_AVAILABLE {
        XSecError::SystemProtectorUnavailable
    } else {
        framework_error(status, description)
    }
}

/// The error for an error object of a system framework.
pub fn map_cf_error(domain: &str, code: i32, description: &str) -> (error: XSecError)
    ensures
        match (if domain@ == LA_ERROR_DOMAIN@ {
            authentication_error(code)
        } else {
            status_error(code)
        }) {
            Some(e) => error == e,
            None => is_framework_error(error, code, description@),
        },
{
    if !bytes::same_text(domain, LA_ERROR_DOMAIN) {
        return map_status(code, description);
    }
    if code == LA_ERROR_USER_CANCEL || code == LA_ERROR_USER_FALLBACK || code
        == LA_ERROR_SYSTEM_CANCEL || code == LA_ERROR_APP_CANCEL {
        XSecError::AuthenticationCancelled
    } else if code == LA_ERROR_PASSCODE_NOT_SET || code == LA_ERROR_BIOMETRY_NOT_AVAILABLE || code
        == LA_ERROR_BIOMETRY_NOT_ENROLLED {
        XSecError::SystemAuthenticationNotConfigured
    } else if code == LA_ERROR_NOT_INTERACTIVE {
        XSecError::UserVerificationRequired
    } else if code == LA_ERROR_AUTHENTICATION_FAILED || code == LA_ERROR_BIOMETRY_LOCKOUT {
        XSecError::AuthenticationFailed
    } else {
        framework_error(code, description)
    }
}

fn error_has_code(error: &XSecError, code: i32) -> (yes: bool)
    ensures
        yes == has_code(*error, code),
{
    match error {
        XSecError::Protector { source } => match source.code {
            Some(actual) => actual == code,
            None => false,
        },
        _ => false,
    }
}

/// What follows the first look for the key.
pub fn after_open(opened: XSecResult<()>) -> (action: KeyAction)
    ensures
        match opened {
            Ok(_) => action is UseKey,
            Err(e) => if e is SystemKeyNotFound {
                action is CreateKey
            } else {
                action == KeyAction::Fail(e)
            },
        },
{
    match opened {
        Ok(()) => KeyAction::UseKey,
        Err(XSecError::SystemKeyNotFound) => KeyAction::CreateKey,
        Err(error) => KeyAction::Fail(error),
    }
}

/// What follows the attempt to make the key: another process may have made it.
pub fn after_create(created: XSecResult<()>) -> (action: KeyAction)
    ensures
        match created {
            Ok(_) => action is OpenKey,
            Err(e) => if has_code(e, ERR_SEC_DUPLICATE_ITEM) {
                action is OpenKey
            } else {
                action == KeyAction::Fail(e)
            },
        },
{
    match created {
        Ok(()) => KeyAction::OpenKey,
        Err(error) => if error_has_code(&error, ERR_SEC_DUPLICATE_ITEM) {
            KeyAction::OpenKey
        } else {
            KeyAction::Fail(error)
        },
    }
}

/// Whether biometry is set up, from what the policy evaluation said.
pub fn policy_availability(can_evaluate: bool) -> (result: XSecResult<()>)
    ensures
        result is Ok <==> can_evaluate,
        result matches Err(e) ==> e is SystemAuthenticationNotConfigured,
{
    if can_evaluate {
        Ok(())
    } else {
        Err(XSecError::SystemAuthenticationNotConfigured)
    }
}

/// What it means that no probe key could be made.
pub open spec fn probe_error(e: XSecError) -> XSecError {
    if e is AuthenticationFailed || e is UserVerificationRequired {
        XSecError::SystemAuthenticationNotConfigured
    } else if has_code(e, ERR_SEC_PARAM) {
        XSecError::ProviderNotSupported
    } else {
        e
    }
}

/// Whether a key could be made, from how the making of a probe key ended.
pub fn probe_availability(created: XSecResult<()>) -> (result: XSecResult<()>)
    ensures
        match created {
            Ok(_) => result is Ok,
            Err(e) => result == XSecResult::<()>::Err(probe_error(e)),
        },
{
    match created {
        Ok(()) => Ok(()),
        Err(XSecError::AuthenticationFailed) => Err(XSecError::SystemAuthenticationNotConfigured),
        Err(XSecError::UserVerificationRequired) => Err(
            XSecError::SystemAuthenticationNotConfigured,
        ),
        Err(error) => if error_has_code(&error, ERR_SEC_PARAM) {
            Err(XSecError::ProviderNotSupported)
        } else {
            Err(error)
        },
    }
}

/// Whether the key agrees on secrets, from what the framework says it supports.
pub fn require_key_exchange(supported: bool) -> (result: XSecResult<()>)
    ensures
        result is Ok <==> supported,
        result matches Err(e) ==> e is ProviderNotSupported,
{
    if supported {
        Ok(())
    } else {
        Err(XSecError::ProviderNotSupported)
    }
}

/// A public key in the external form that the framework gave: 65 bytes,
/// uncompressed.
pub fn export_public_key(representation: Option<&[u8]>) -> (key: XSecResult<[u8; 65]>)
    ensures
        ({
            let valid = representation is Some && representation->Some_0@.len() == PUBLIC_KEY_SIZE
                && representation->Some_0@[0] == 4;
            match key {
                Ok(k) => valid && k@ == representation->Some_0@,
                Err(e) => !valid && e is Crypto,
            }
        }),
{
    match representation {
        None => Err(XSecError::Crypto),
        Some(raw) => {
            if raw.len() != PUBLIC_KEY_SIZE || raw[0] != 4 {
                return Err(XSecError::Crypto);
            }
            let mut key: [u8; 65] = [0; 65];
            bytes::copy_into(&mut key, raw);
            Ok(key)
        },
    }
}

/// A shared secret that two keys agreed on: 32 bytes.
pub fn shared_secret(agreed: &[u8]) -> (secret: XSecResult<SecretKey>)
    ensures
        match secret {
            Ok(s) => agreed@.len() == 32 && s@ == agreed@,
            Err(e) => agreed@.len() != 32 && e is Crypto,
        },
{
    match SecretKey::from_slice(agreed) {
        Some(secret) => Ok(secret),
        None => Err(XSecError::Crypto),
    }
}

impl XSecSystemProtector {
    /// The hash of the identity.
    pub closed spec fn view(&self) -> Seq<u8> {
        self.identity@
    }

    /// The key is named after the identity hash.
    pub closed spec fn wf(&self) -> bool {
        self.key_tag@ == key_tag_of(self.identity@)
    }

    fn named(identity: [u8; 32]) -> (protector: Self)
        ensures
            protector.wf(),
            protector@ == identity@,
    {
        let mut name: String = KEY_PREFIX.to_owned();
        name.append(system::hex(&identity).as_str());
        let raw: &[u8] = name.as_str().as_bytes();
        let key_tag: Vec<u8> = bytes::copy_range(raw, 0, raw.len());
        assert(key_tag@ =~= raw@);
        XSecSystemProtector { identity, key_tag }
    }

    /// A protector for an identity; no system service is touched.
    pub fn new(identity: &str) -> (protector: Self)
        requires
            system::valid_identity(identity@),
        ensures
            protector.wf(),
            protector@ == system::identity_hash(identity@),
    {
        Self::named(system::hash_identity(identity))
    }

    /// A protector for the identity that a stored payload was written for.
    pub fn from_stored(payload: &[u8]) -> (protector: XSecResult<Self>)
        ensures
            match protector {
                Ok(p) => p.wf() && (crypto::read_envelope(payload@, None) matches Ok(envelope)
                    && p@ == envelope.identity),
                Err(e) => crypto::read_envelope(payload@, None) == XSecResult::<
                    crypto::EnvelopeView,
                >::Err(e),
            },
    {
        match MacosEnvelope::parse_stored(payload) {
            Err(error) => Err(error),
            Ok(envelope) => {
                let mut identity: [u8; 32] = [0; 32];
                bytes::copy_into(&mut identity, envelope.identity());
                Ok(Self::named(identity))
            },
        }
    }

    /// Whether the protector can be used: biometry is set up, a probe key could be made
    /// and it agrees on secrets.
    pub fn check_availability(&self, can_evaluate: bool, probe: XSecResult<bool>) -> (result:
        XSecResult<()>)
        ensures
            result is Ok <==> can_evaluate && (probe matches Ok(supported) && supported),
            result matches Err(e) ==> e == if !can_evaluate {
                XSecError::SystemAuthenticationNotConfigured
            } else {
                match probe {
                    Ok(_) => XSecError::ProviderNotSupported,
                    Err(reason) => probe_error(reason),
                }
            },
    {
        if let Err(error) = policy_availability(can_evaluate) {
            return Err(error);
        }
        match probe {
            Err(error) => match probe_availability(Err(error)) {
                Err(error) => Err(error),
                Ok(()) => Ok(()),
            },
            Ok(supported) => require_key_exchange(supported),
        }
    }

    /// What the status of a deletion means: it is no error that there was no key.
    pub fn delete(&self, status: i32, description: &str) -> (result: XSecResult<()>)
        ensures
            result is Ok <==> status == ERR_SEC_SUCCESS || status == ERR_SEC_ITEM_NOT_FOUND,
            result matches Err(error) ==> match status_error(status) {
                Some(e) => error == e,
                None => is_framework_error(error, status, description@),
            },
    {
        if status == ERR_SEC_SUCCESS || status == ERR_SEC_ITEM_NOT_FOUND {
            Ok(())
        } else {
            Err(map_status(status, description))
        }
    }

    /// The kind of the protector.
    pub fn kind(&self) -> (kind: &'static str)
        ensures
            kind@ == system::KIND@,
    {
        system::KIND
    }

    /// The name of the Secure Enclave key: it shows the identity's hash only.
    pub fn key_tag(&self) -> (tag: &[u8])
        requires
            self.wf(),
        ensures
            tag@ == key_tag_of(self@),
    {
        self.key_tag.as_slice()
    }

    /// Seals the data key, given the public half of the Secure Enclave key, an
    /// ephemeral public key, and the secret that the two agreed on.
    pub fn finish_wrap(
        &self,
        key: &SecretKey,
        recipient_public_key: &[u8; 65],
        ephemeral_public_key: &[u8; 65],
        shared_secret: &SecretKey,
    ) -> (payload: XSecResult<Vec<u8>>)
        ensures
            match payload {
                Ok(p) => (exists|salt: Seq<u8>, nonce: Seq<u8>|
                    salt.len() == 32 && nonce.len() == 12 && crate::crypto::drawn::<32>(salt)
                        && crate::crypto::drawn::<12>(nonce) && p@ == #[trigger] crypto::sealed_envelope(
                        key@,
                        self@,
                        crate::crypto::sha256_digest(recipient_public_key@),
                        ephemeral_public_key@,
                        shared_secret@,
                        salt,
                        nonce,
                    )) && (ephemeral_public_key@[0] == 4 ==> crypto::holds_key(
                    p@,
                    self@,
                    shared_secret@,
                    key@,
                )),
                Err(e) => e is Crypto && (crate::crypto::draw_failed::<32>()
                    || crate::crypto::draw_failed::<12>()),
            },
    {
        let recipient_key_hash: [u8; 32] = crate::crypto::sha256(recipient_public_key);
        let payload: XSecResult<Vec<u8>> = crypto::seal_key(
            key,
            &self.identity,
            &recipient_key_hash,
            ephemeral_public_key,
            shared_secret,
        );
        assert(self.identity@ == self@);
        assert(recipient_key_hash@ == crate::crypto::sha256_digest(recipient_public_key@));
        payload
    }

    /// Checks, before the key is looked up, that a payload was written for this identity.
    pub fn check_payload(&self, payload: &[u8]) -> (result: XSecResult<()>)
        ensures
            match crypto::read_envelope(payload@, Some(self@)) {
                Err(e) => result == XSecResult::<()>::Err(e),
                Ok(_) => result is Ok,
            },
    {
        match MacosEnvelope::parse(payload, &self.identity) {
            Err(error) => Err(error),
            Ok(_) => Ok(()),
        }
    }

    /// Checks a payload against the public half of the Secure Enclave key, and gives
    /// the ephemeral public key to agree with.
    pub fn check_recipient(&self, payload: &[u8], recipient_public_key: &[u8; 65]) -> (key:
        XSecResult<[u8; 65]>)
        ensures
            match crypto::read_envelope(payload@, Some(self@)) {
                Err(e) => key == XSecResult::<[u8; 65]>::Err(e),
                Ok(envelope) => if envelope.recipient_key_hash == crate::crypto::sha256_digest(
                    recipient_public_key@,
                ) {
                    key matches Ok(k) && k@ == envelope.ephemeral_public_key
                } else {
                    key == XSecResult::<[u8; 65]>::Err(XSecError::SystemKeyInvalidated)
                },
            },
    {
        match MacosEnvelope::parse(payload, &self.identity) {
            Err(error) => Err(error),
            Ok(envelope) => {
                let actual: [u8; 32] = crate::crypto::sha256(recipient_public_key);
                if !bytes::equal(envelope.recipient_key_hash(), &actual) {
                    return Err(XSecError::SystemKeyInvalidated);
                }
                let mut key: [u8; 65] = [0; 65];
                bytes::copy_into(&mut key, envelope.ephemeral_public_key());
                Ok(key)
            },
        }
    }

    /// Takes the data key out of a payload, given the secret that the keys agreed on.
    pub fn finish_unwrap(&self, payload: &[u8], shared_secret: &SecretKey) -> (key: XSecResult<
        SecretKey,
    >)
        ensures
            match crypto::read_envelope(payload@, Some(self@)) {
                Err(e) => key == XSecResult::<SecretKey>::Err(e),
                Ok(envelope) => match key {
                    Ok(k) => crypto::opened(envelope, shared_secret@) == XSecResult::<
                        Seq<u8>,
                    >::Ok(k@),
                    Err(e) => crypto::opened(envelope, shared_secret@) == XSecResult::<
                        Seq<u8>,
                    >::Err(e),
                },
            },
    {
        match MacosEnvelope::parse(payload, &self.identity) {
            Err(error) => Err(error),
            Ok(envelope) => envelope.open(shared_secret),
        }
    }
}

} // verus!
