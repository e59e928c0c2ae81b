//! The system protector of Windows: a Windows Hello credential whose signature
//! gives the wrapping key.
//!
//! The calls into Windows are made by the host; what they mean, and what follows
//! from them, is decided here.
pub mod crypto;

use vstd::prelude::*;
use vstd::string::*;

use crate::bytes;
use crate::error::{ErrorSource, XSecError, XSecResult};
use crate::protector::system;
use crate::protector::system::windows::crypto::{Challenge, SystemEnvelope, WindowsHelloPrf};
use crate::secret::SecretKey;

verus! {

pub const CREDENTIAL_PREFIX: &'static str = "xsec-system-";

pub const MAX_SIGNATURE_SIZE: usize = 16_384;

/// How a credential operation of Windows Hello ended.
#[derive(Clone, Copy, PartialEq, Eq, Structural)]
pub enum CredentialStatus {
    Success,
    UnknownError,
    NotFound,
    UserCanceled,
    UserPrefersPassword,
    CredentialAlreadyExists,
    SecurityDeviceLocked,
    Other,
}

/// Which credential operation it was.
#[derive(Clone, Copy, PartialEq, Eq, Structural)]
pub enum Operation {
    Open,
    Create,
    Sign,
}

/// What to do next on the way to the credential.
pub enum CredentialAction {
    /// The credential is at hand.
    Use,
    /// The credential is to be opened.
    Open,
    /// There is no way on.
    Fail(XSecError),
}

/// Wraps the data key under a credential named after the identity.
pub struct XSecSystemProtector {
    identity: [u8; 32],
    credential_name: String,
}

/// The name of the credential of an identity hash.
pub open spec fn credential_name_of(prefix: Seq<char>, identity: Seq<u8>) -> Seq<char> {
    prefix + system::hex_text(identity)
}

/// What a status other than success means.
pub open spec fn status_error(status: CredentialStatus, operation: Operation) -> XSecError {
    match status {
        CredentialStatus::UserCanceled => XSecError::AuthenticationCancelled,
        CredentialStatus::UserPrefersPassword => XSecError::UserVerificationRequired,
        CredentialStatus::SecurityDeviceLocked => XSecError::AuthenticationFailed,
        CredentialStatus::CredentialAlreadyExists => if operation == Operation::Create {
            XSecError::SystemKeyInvalidated
        } else {
            XSecError::WindowsHelloNotConfigured
        },
        CredentialStatus::NotFound => XSecError::SystemKeyNotFound,
        CredentialStatus::UnknownError => XSecError::WindowsHelloNotConfigured,
        _ => XSecError::Crypto,
    }
}

/// The error for a status other than success.
pub fn map_credential_status(status: CredentialStatus, operation: Operation) -> (error: XSecError)
    ensures
        error == status_error(status, operation),
{
    match status {
        CredentialStatus::UserCanceled => XSecError::AuthenticationCancelled,
        CredentialStatus::UserPrefersPassword => XSecError::UserVerificationRequired,
        CredentialStatus::SecurityDeviceLocked => XSecError::AuthenticationFailed,
        CredentialStatus::CredentialAlreadyExists => if operation == Operation::Create {
            XSecError::SystemKeyInvalidated
        } else {
            XSecError::WindowsHelloNotConfigured
        },
        CredentialStatus::NotFound => XSecError::SystemKeyNotFound,
        CredentialStatus::UnknownError => XSecError::WindowsHelloNotConfigured,
        _ => XSecError::Crypto,
    }
}

/// Whether Windows Hello can be used at all.
pub fn require_hello(supported: bool) -> (result: XSecResult<()>)
    ensures
        result is Ok <==> supported,
        result matches Err(e) ==> e is WindowsHelloNotSupported,
{
    if supported {
        Ok(())
    } else {
        Err(XSecError::WindowsHelloNotSupported)
    }
}

/// What follows the request to make a credential: one that exists is opened.
pub fn after_create(status: CredentialStatus) -> (action: CredentialAction)
    ensures
        match status {
            CredentialStatus::Success => action is Use,
            CredentialStatus::CredentialAlreadyExists => action is Open,
            _ => action == CredentialAction::Fail(status_error(status, Operation::Create)),
        },
{
    match status {
        CredentialStatus::Success => CredentialAction::Use,
        CredentialStatus::CredentialAlreadyExists => CredentialAction::Open,
        _ => CredentialAction::Fail(map_credential_status(status, Operation::Create)),
    }
}

/// What follows the request to open a credential.
pub fn after_open(status: CredentialStatus) -> (action: CredentialAction)
    ensures
        match status {
            CredentialStatus::Success => action is Use,
            CredentialStatus::NotFound => action == CredentialAction::Fail(
                XSecError::SystemKeyNotFound,
            ),
            _ => action == CredentialAction::Fail(status_error(status, Operation::Open)),
        },
{
    match status {
        CredentialStatus::Success => CredentialAction::Use,
        CredentialStatus::NotFound => CredentialAction::Fail(XSecError::SystemKeyNotFound),
        _ => CredentialAction::Fail(map_credential_status(status, Operation::Open)),
    }
}

/// Whether a signing request gave a signature, from its status and the length of
/// what came back.
pub fn check_signature(status: CredentialStatus, length: usize) -> (result: XSecResult<()>)
    ensures
        result is Ok <==> status == CredentialStatus::Success && 1 <= length <= MAX_SIGNATURE_SIZE,
        result matches Err(e) ==> e == (if status == CredentialStatus::Success {
            XSecError::AuthenticationFailed
        } else {
            status_error(status, Operation::Sign)
        }),
{
    if status != CredentialStatus::Success {
        return Err(map_credential_status(status, Operation::Sign));
    }
    if length == 0 || length > MAX_SIGNATURE_SIZE {
        return Err(XSecError::AuthenticationFailed);
    }
    Ok(())
}

/// The code of an error that only found no credential.
pub open spec fn no_credential(code: u32) -> bool {
    code == 0x8009_0016 || code == 0x8007_0490
}

/// Whether a failed deletion only found no credential.
pub fn is_not_found(code: u32) -> (yes: bool)
    ensures
        yes == no_credential(code),
{
    code == 0x8009_0016 || code == 0x8007_0490
}

impl XSecSystemProtector {
    /// The hash of the identity.
    pub closed spec fn view(&self) -> Seq<u8> {
        self.identity@
    }

    /// The credential is named after the identity hash.
    pub closed spec fn wf(&self) -> bool {
        self.credential_name@ == credential_name_of(CREDENTIAL_PREFIX@, self.identity@)
    }

    fn named(identity: [u8; 32]) -> (protector: Self)
        ensures
            protector.wf(),
            protector@ == identity@,
    {
        let mut credential_name: String = CREDENTIAL_PREFIX.to_owned();
        credential_name.append(system::hex(&identity).as_str());
        XSecSystemProtector { identity, credential_name }
    }

    /// A protector for an identity; no system service is touched.
    pub fn new(identity: &str) -> (protector: Self)
        requires
            system::valid_identity(identity@),
        ensures
            protector.wf(),
            protector@ == system::identity_hash(identity@),
    {
        Self::named(system::hash_identity(identity))
    }

    /// A protector for the identity that a stored payload was written for.
    pub fn from_stored(payload: &[u8]) -> (protector: XSecResult<Self>)
        ensures
            match protector {
                Ok(p) => p.wf() && (crypto::read_envelope(payload@, None) matches Ok(envelope)
                    && p@ == envelope.identity),
                Err(e) => crypto::read_envelope(payload@, None) == XSecResult::<
                    crypto::EnvelopeView,
                >::Err(e),
            },
    {
        match SystemEnvelope::parse_stored(payload) {
            Err(error) => Err(error),
            Ok(envelope) => {
                let mut identity: [u8; 32] = [0; 32];
                bytes::copy_into(&mut identity, envelope.identity());
                Ok(Self::named(identity))
            },
        }
    }

    /// Whether the protector can be used.
    pub fn check_availability(&self, supported: bool) -> (result: XSecResult<()>)
        ensures
            result is Ok <==> supported,
            result matches Err(e) ==> e is WindowsHelloNotSupported,
    {
        require_hello(supported)
    }

    /// What the answer to a deletion means, `failure` the code and the text of an
    /// error: it is no error that there was no credential.
    pub fn delete(&self, failure: Option<(u32, ErrorSource)>) -> (result: XSecResult<()>)
        ensures
            match failure {
                None => result is Ok,
                Some((code, source)) => if no_credential(code) {
                    result is Ok
                } else {
                    result == XSecResult::<()>::Err(XSecError::Protector { source })
                },
            },
    {
        match failure {
            None => Ok(()),
            Some((code, source)) => {
                if is_not_found(code) {
                    Ok(())
                } else {
                    Err(XSecError::protector(source))
                }
            },
        }
    }

    /// The kind of the protector.
    pub fn kind(&self) -> (kind: &'static str)
        ensures
            kind@ == system::KIND@,
    {
        system::KIND
    }

    /// The name of the credential: it shows the identity's hash only.
    pub fn credential_name(&self) -> (name: &str)
        requires
            self.wf(),
        ensures
            name@ == credential_name_of(CREDENTIAL_PREFIX@, self@),
    {
        self.credential_name.as_str()
    }

    /// Seals the data key, given the challenge that was signed and the signature.
    pub fn finish_wrap(&self, key: &SecretKey, challenge: &Challenge, signature: &[u8]) -> (payload:
        XSecResult<Vec<u8>>)
        ensures
            match payload {
                Ok(p) => crypto::holds_key(
                    p@,
                    self@,
                    challenge@,
                    crate::crypto::sha256_digest(signature@),
                    key@,
                ) && exists|salt: Seq<u8>, nonce: Seq<u8>|
                    salt.len() == 32 && nonce.len() == 12 && crate::crypto::drawn::<32>(salt)
                        && crate::crypto::drawn::<12>(nonce) && p@ == #[trigger] crypto::sealed_envelope(
                        key@,
                        self@,
                        challenge@,
                        crate::crypto::sha256_digest(signature@),
                        salt,
                        nonce,
                    ),
                Err(e) => e is Crypto && (crate::crypto::draw_failed::<32>()
                    || crate::crypto::draw_failed::<12>()),
            },
    {
        let prf: WindowsHelloPrf = WindowsHelloPrf::from_signature(signature);
        let payload: XSecResult<Vec<u8>> = crypto::seal_key(key, &self.identity, challenge, &prf);
        assert(self.identity@ == self@);
        payload
    }

    /// What Windows Hello must sign to open a payload.
    pub fn challenge_of(&self, payload: &[u8]) -> (challenge: XSecResult<Vec<u8>>)
        ensures
            match crypto::read_envelope(payload@, Some(self@)) {
                Err(e) => challenge == XSecResult::<Vec<u8>>::Err(e),
                Ok(envelope) => challenge matches Ok(c) && c@ == envelope.challenge,
            },
    {
        match SystemEnvelope::parse(payload, &self.identity) {
            Err(error) => Err(error),
            Ok(envelope) => {
                let challenge: &[u8] = envelope.challenge();
                let copy: Vec<u8> = bytes::copy_range(challenge, 0, challenge.len());
                assert(copy@ =~= challenge@);
                Ok(copy)
            },
        }
    }

    /// Takes the data key out of a payload, given the signature of its challenge.
    pub fn finish_unwrap(&self, payload: &[u8], signature: &[u8]) -> (key: XSecResult<SecretKey>)
        ensures
            match crypto::read_envelope(payload@, Some(self@)) {
                Err(e) => key == XSecResult::<SecretKey>::Err(e),
                Ok(envelope) => match key {
                    Ok(k) => crypto::opened(envelope, crate::crypto::sha256_digest(signature@))
                        == XSecResult::<Seq<u8>>::Ok(k@),
                    Err(e) => crypto::opened(envelope, crate::crypto::sha256_digest(signature@))
                        == XSecResult::<Seq<u8>>::Err(e),
                },
            },
    {
        match SystemEnvelope::parse(payload, &self.identity) {
            Err(error) => Err(error),
            Ok(envelope) => envelope.open(&WindowsHelloPrf::from_signature(signature)),
        }
    }
}

} // verus!
