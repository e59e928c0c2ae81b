//! The system protector of Linux.
//!
//! The data key stays in protected memory of this process and is handed out again
//! once polkit has authorized the user; the payload only says which key it was.
use vstd::prelude::*;
use vstd::utf8::*;

use crate::bytes;
use crate::crypto;
use crate::error::{ErrorSource, XSecError, XSecResult};
use crate::protector::system;
use crate::secret::SecretKey;

verus! {

pub const MAGIC: &'static str = "XSecLP";

pub const WINDOWS_MAGIC: &'static str = "XSecSP";

pub const MACOS_MAGIC: &'static str = "XSecMP";

pub const PAYLOAD_VERSION: u16 = 1;

pub const PAYLOAD_SIZE: usize = 56;

pub const POLKIT_ACTION: &'static str = "com.xsec.XSec.unlock";

/// The error of `secure_types`, opaque here.
#[verifier::external_type_specification]
#[verifier::external_body]
pub struct ExSecureTypesError(secure_types::Error);

/// A key in a `secure_types::SecureArray`: locked memory, zeroized on drop.
#[verifier::external_body]
pub struct SecureKey {
    inner: secure_types::SecureArray<u8, 32>,
}

/// The bytes that a `secure_types::SecureArray<u8, 32>` holds.
pub uninterp spec fn secure_key_bytes(key: SecureKey) -> Seq<u8>;

/// `SecureArray::from_slice_mut`: the array holds the bytes that were handed in,
/// and they are zeroized. It fails where the system gives no locked memory; then
/// they are zeroized too.
#[verifier::external_body]
fn secure_array_from(bytes: &mut [u8; 32]) -> (key: Result<SecureKey, secure_types::Error>)
    ensures
        key matches Ok(k) ==> secure_key_bytes(k) == old(bytes)@,
        forall|i: int| 0 <= i < 32 ==> final(bytes)@[i] == 0,
{
    secure_types::SecureArray::from_slice_mut(bytes).map(|inner| SecureKey { inner })
}

/// `SecureArray::unlock` with a copy of the bytes: all 32 of them.
#[verifier::external_body]
fn secure_array_copy(key: &SecureKey) -> (copy: Option<SecretKey>)
    ensures
        copy is Some,
        copy matches Some(c) ==> c@ == secure_key_bytes(*key),
{
    key.inner.unlock(|bytes| SecretKey::from_slice(bytes))
}

/// The text that `secure_types::Error` displays. Nothing is claimed of it.
#[verifier::external_body]
fn secure_error_text(error: secure_types::Error) -> (text: String) {
    error.to_string()
}

struct StoredKey {
    id: [u8; 16],
    key: SecureKey,
}

/// Keeps at most one data key for the identity it was made with.
pub struct XSecSystemProtector {
    identity: [u8; 32],
    key: Option<StoredKey>,
}

/// The protector as contracts see it: the identity hash, and the identifier and
/// the bytes of the key it keeps.
pub struct ProtectorView {
    pub identity: Seq<u8>,
    pub stored: Option<(Seq<u8>, Seq<u8>)>,
}

/// The payload of a key kept under `key_id`.
pub open spec fn payload_bytes(identity: Seq<u8>, key_id: Seq<u8>) -> Seq<u8> {
    bytes::text(MAGIC) + bytes::be16(PAYLOAD_VERSION) + identity + key_id
}

/// The key identifier in a payload, or why it is refused. `expected` is the
/// identity that it must have been written for, where there is one to compare.
pub open spec fn read_payload(payload: Seq<u8>, expected: Option<Seq<u8>>) -> XSecResult<Seq<u8>> {
    if bytes::text(WINDOWS_MAGIC).is_prefix_of(payload) || bytes::text(MACOS_MAGIC).is_prefix_of(
        payload,
    ) {
        Err(XSecError::IncompatibleSystemProtector)
    } else if payload.len() != PAYLOAD_SIZE || !bytes::text(MAGIC).is_prefix_of(payload) {
        Err(XSecError::Corrupted)
    } else if payload.subrange(6, 8) != bytes::be16(PAYLOAD_VERSION) {
        Err(XSecError::UnsupportedVersion)
    } else if expected is Some && payload.subrange(8, 40) != expected->Some_0 {
        Err(XSecError::SystemKeyInvalidated)
    } else {
        Ok(payload.skip(40))
    }
}

/// The key that the protector hands out for an identifier, or why it does not.
pub open spec fn stored_key(stored: Option<(Seq<u8>, Seq<u8>)>, key_id: Seq<u8>) -> XSecResult<
    Seq<u8>,
> {
    match stored {
        None => Err(XSecError::SystemKeyNotFound),
        Some((id, key)) => if id != key_id {
            Err(XSecError::SystemKeyInvalidated)
        } else {
            Ok(key)
        },
    }
}

/// What `unwrap_key` gives once polkit has authorized the user.
pub open spec fn unwrapped(protector: ProtectorView, payload: Seq<u8>) -> XSecResult<Seq<u8>> {
    match read_payload(payload, Some(protector.identity)) {
        Err(e) => Err(e),
        Ok(key_id) => stored_key(protector.stored, key_id),
    }
}

proof fn lemma_magic()
    ensures
        bytes::text(MAGIC).len() == 6,
        bytes::text(WINDOWS_MAGIC).len() == 6,
        bytes::text(MACOS_MAGIC).len() == 6,
        bytes::text(MAGIC) != bytes::text(WINDOWS_MAGIC),
        bytes::text(MAGIC) != bytes::text(MACOS_MAGIC),
{
    reveal_strlit("XSecLP");
    reveal_strlit("XSecSP");
    reveal_strlit("XSecMP");
    assert(is_ascii_chars(MAGIC@));
    assert(is_ascii_chars(WINDOWS_MAGIC@));
    assert(is_ascii_chars(MACOS_MAGIC@));
    is_ascii_chars_encode_utf8(MAGIC@);
    is_ascii_chars_encode_utf8(WINDOWS_MAGIC@);
    is_ascii_chars_encode_utf8(MACOS_MAGIC@);
    assert(MAGIC@[4] == 'L');
    assert(WINDOWS_MAGIC@[4] == 'S');
    assert(MACOS_MAGIC@[4] == 'M');
    if bytes::text(MAGIC) == bytes::text(WINDOWS_MAGIC) {
        bytes::lemma_text_injective(MAGIC@, WINDOWS_MAGIC@);
    }
    if bytes::text(MAGIC) == bytes::text(MACOS_MAGIC) {
        bytes::lemma_text_injective(MAGIC@, MACOS_MAGIC@);
    }
}

/// A payload names the key it was written for, to the identity it was written for.
pub proof fn law_payload_round_trip(identity: Seq<u8>, key_id: Seq<u8>)
    requires
        identity.len() == 32,
        key_id.len() == 16,
    ensures
        payload_bytes(identity, key_id).len() == PAYLOAD_SIZE,
        read_payload(payload_bytes(identity, key_id), Some(identity)) == XSecResult::<Seq<u8>>::Ok(
            key_id,
        ),
{
    lemma_magic();
    let p = payload_bytes(identity, key_id);
    assert(p.take(6) =~= bytes::text(MAGIC));
    assert(p.subrange(0, 6) =~= p.take(6));
    assert(p.subrange(6, 8) =~= bytes::be16(PAYLOAD_VERSION));
    assert(p.subrange(8, 40) =~= identity);
    assert(p.skip(40) =~= key_id);
}

/// A payload opens to the key that is kept when the user is authorized, and to
/// nothing once another key took its place.
pub proof fn law_wrapped_key_is_handed_out(identity: Seq<u8>, key_id: Seq<u8>, key: Seq<u8>, other: (Seq<u8>, Seq<u8>))
    requires
        identity.len() == 32,
        key_id.len() == 16,
        other.0 != key_id,
    ensures
        unwrapped(
            ProtectorView { identity, stored: Some((key_id, key)) },
            payload_bytes(identity, key_id),
        ) == XSecResult::<Seq<u8>>::Ok(key),
        unwrapped(
            ProtectorView { identity, stored: Some(other) },
            payload_bytes(identity, key_id),
        ) == XSecResult::<Seq<u8>>::Err(XSecError::SystemKeyInvalidated),
{
    law_payload_round_trip(identity, key_id);
}

/// Reads the identifier of the key that a payload was written for.
pub fn parse_payload(payload: &[u8], expected: Option<&[u8; 32]>) -> (key_id: XSecResult<[u8; 16]>)
    ensures
        ({
            let expected = match expected {
                Some(identity) => Some(identity@),
                None => None,
            };
            match key_id {
                Ok(id) => read_payload(payload@, expected) == XSecResult::<Seq<u8>>::Ok(id@),
                Err(e) => read_payload(payload@, expected) == XSecResult::<Seq<u8>>::Err(e),
            }
        }),
{
    proof {
        lemma_magic();
    }
    if bytes::starts_with(payload, WINDOWS_MAGIC.as_bytes()) || bytes::starts_with(
        payload,
        MACOS_MAGIC.as_bytes(),
    ) {
        return Err(XSecError::IncompatibleSystemProtector);
    }
    if payload.len() != PAYLOAD_SIZE || !bytes::starts_with(payload, MAGIC.as_bytes()) {
        return Err(XSecError::Corrupted);
    }
    proof {
        bytes::lemma_from_be16(payload@.subrange(6, 8));
        bytes::lemma_be16(PAYLOAD_VERSION);
    }
    if bytes::read_u16_at(payload, 6) != PAYLOAD_VERSION {
        return Err(XSecError::UnsupportedVersion);
    }
    match expected {
        Some(identity) => {
            if !bytes::equal(&payload[8..40], identity) {
                return Err(XSecError::SystemKeyInvalidated);
            }
        },
        None => {},
    }
    let mut key_id: [u8; 16] = [0; 16];
    bytes::copy_into(&mut key_id, &payload[40..56]);
    assert(payload@.subrange(40, 56) =~= payload@.skip(40));
    Ok(key_id)
}

fn secure_memory_error(error: secure_types::Error) -> (mapped: XSecError)
    ensures
        mapped is Protector,
{
    XSecError::protector(ErrorSource::new(secure_error_text(error)))
}

/// The system was asked for locked memory for a key and answered `given`.
pub closed spec fn was_asked_for_memory(
    key: Seq<u8>,
    given: Result<SecureKey, secure_types::Error>,
) -> bool {
    exists|handed: &mut [u8; 32]|
        (*handed)@ == key && #[trigger] call_ensures(secure_array_from, (handed,), given)
}

/// The system was asked for locked memory for a key and gave none.
pub open spec fn memory_refused(key: Seq<u8>) -> bool {
    exists|reason: secure_types::Error| #[trigger]
        was_asked_for_memory(key, Result::<SecureKey, secure_types::Error>::Err(reason))
}

/// Keeps a key in locked memory.
fn keep(bytes: &mut [u8; 32]) -> (key: Result<SecureKey, secure_types::Error>)
    ensures
        was_asked_for_memory(old(bytes)@, key),
        key matches Ok(k) ==> secure_key_bytes(k) == old(bytes)@,
        forall|i: int| 0 <= i < 32 ==> final(bytes)@[i] == 0,
{
    secure_array_from(bytes)
}

/// A key of zeros.
pub open spec fn zeros() -> Seq<u8> {
    Seq::new(32, |i: int| 0u8)
}

/// Whether the process gets locked memory for a key.
pub fn probe_secure_memory() -> (result: XSecResult<()>)
    ensures
        exists|given: Result<SecureKey, secure_types::Error>| #[trigger]
            was_asked_for_memory(zeros(), given) && match given {
                Ok(_) => result is Ok,
                Err(_) => result matches Err(e) && e is Protector,
            },
{
    let mut probe: [u8; 32] = [0; 32];
    assert(probe@ =~= zeros());
    let given: Result<SecureKey, secure_types::Error> = keep(&mut probe);
    assert(was_asked_for_memory(zeros(), given));
    match given {
        Err(error) => Err(secure_memory_error(error)),
        Ok(_) => Ok(()),
    }
}

/// The action that authorizes an unlock is among those that polkit lists.
pub open spec fn lists_action(actions: Seq<String>) -> bool {
    exists|i: int| 0 <= i < actions.len() && (#[trigger] actions[i])@ == POLKIT_ACTION@
}

/// Whether polkit knows the action that authorizes an unlock, from the actions it
/// lists.
pub fn availability(actions: &Vec<String>) -> (result: XSecResult<()>)
    ensures
        result is Ok <==> lists_action(actions@),
        result matches Err(e) ==> e is SystemAuthenticationNotConfigured,
{
    let mut i: usize = 0;
    while i < actions.len()
        invariant
            i <= actions@.len(),
            forall|j: int| 0 <= j < i ==> (#[trigger] actions@[j])@ != POLKIT_ACTION@,
        decreases actions@.len() - i,
    {
        if bytes::same_text(actions[i].as_str(), POLKIT_ACTION) {
            return Ok(());
        }
        i = i + 1;
    }
    Err(XSecError::SystemAuthenticationNotConfigured)
}

/// What polkit's answer to an authorization request means: `dismissed` is the
/// detail that it adds where the user closed the dialog.
pub fn authorization(is_authorized: bool, dismissed: Option<&str>) -> (result: XSecResult<()>)
    ensures
        result is Ok <==> is_authorized,
        result matches Err(e) ==> if dismissed is Some && dismissed->Some_0@.len() > 0 {
            e is AuthenticationCancelled
        } else {
            e is AuthenticationFailed
        },
{
    if is_authorized {
        return Ok(());
    }
    match dismissed {
        Some(detail) => if detail.is_empty() {
            Err(XSecError::AuthenticationFailed)
        } else {
            Err(XSecError::AuthenticationCancelled)
        },
        None => Err(XSecError::AuthenticationFailed),
    }
}

impl XSecSystemProtector {
    /// See `ProtectorView`.
    pub closed spec fn view(&self) -> ProtectorView {
        ProtectorView {
            identity: self.identity@,
            stored: match self.key {
                Some(stored) => Some((stored.id@, secure_key_bytes(stored.key))),
                None => None,
            },
        }
    }

    /// A protector for an identity; it keeps no key yet.
    pub fn new(identity: &str) -> (protector: Self)
        requires
            system::valid_identity(identity@),
        ensures
            protector@.identity == system::identity_hash(identity@),
            protector@.stored is None,
    {
        XSecSystemProtector { identity: system::hash_identity(identity), key: None }
    }

    /// A protector for the identity that a stored payload was written for.
    pub fn from_stored(payload: &[u8]) -> (protector: XSecResult<Self>)
        ensures
            match protector {
                Ok(p) => read_payload(payload@, None) is Ok && p@.identity == payload@.subrange(
                    8,
                    40,
                ) && p@.stored is None,
                Err(e) => read_payload(payload@, None) == XSecResult::<Seq<u8>>::Err(e),
            },
    {
        match parse_payload(payload, None) {
            Err(error) => Err(error),
            Ok(_) => {
                let mut identity: [u8; 32] = [0; 32];
                bytes::copy_into(&mut identity, &payload[8..40]);
                Ok(XSecSystemProtector { identity, key: None })
            },
        }
    }

    /// The hash of the identity.
    pub fn identity(&self) -> (identity: &[u8; 32])
        ensures
            identity@ == self@.identity,
    {
        &self.identity
    }

    /// The kind of the protector.
    pub fn kind(&self) -> (kind: &'static str)
        ensures
            kind@ == system::KIND@,
    {
        system::KIND
    }

    /// Whether the protector can be used, given the actions that polkit lists or why
    /// they could not be listed. A process that gets no locked memory cannot use it.
    pub fn check_availability(&self, listed: XSecResult<Vec<String>>) -> (result: XSecResult<()>)
        ensures
            exists|given: Result<SecureKey, secure_types::Error>| #[trigger]
                was_asked_for_memory(zeros(), given) && match (given, listed) {
                    (Err(_), _) => result matches Err(e) && e is Protector,
                    (Ok(_), Err(reason)) => result == XSecResult::<()>::Err(reason),
                    (Ok(_), Ok(actions)) => if lists_action(actions@) {
                        result is Ok
                    } else {
                        result == XSecResult::<()>::Err(
                            XSecError::SystemAuthenticationNotConfigured,
                        )
                    },
                },
    {
        match probe_secure_memory() {
            Err(error) => Err(error),
            Ok(()) => match listed {
                Err(error) => Err(error),
                Ok(actions) => availability(&actions),
            },
        }
    }

    /// Forgets the key.
    pub fn delete(&mut self) -> (result: XSecResult<()>)
        ensures
            result is Ok,
            final(self)@.identity == old(self)@.identity,
            final(self)@.stored is None,
    {
        self.key = None;
        Ok(())
    }

    /// Keeps the key under an identifier, in place of any other, and writes its
    /// payload. It fails where the process gets no locked memory; then the key that
    /// was kept stays.
    pub fn store_key(&mut self, key_id: [u8; 16], key: &SecretKey) -> (payload: XSecResult<Vec<u8>>)
        ensures
            final(self)@.identity == old(self)@.identity,
            match payload {
                Ok(p) => p@ == payload_bytes(old(self)@.identity, key_id@) && final(self)@.stored
                    == Some((key_id@, key@)) && unwrapped(final(self)@, p@) == XSecResult::<
                    Seq<u8>,
                >::Ok(key@),
                Err(e) => e is Protector && memory_refused(key@) && final(self)@.stored
                    == old(self)@.stored,
            },
    {
        let mut copy: [u8; 32] = *key.expose_secret();
        let secure_key: SecureKey = match keep(&mut copy) {
            Err(error) => {
                return Err(secure_memory_error(error));
            },
            Ok(secure_key) => secure_key,
        };
        self.key = Some(StoredKey { id: key_id, key: secure_key });
        let mut payload: Vec<u8> = Vec::new();
        payload.extend_from_slice(MAGIC.as_bytes());
        bytes::push_u16(&mut payload, PAYLOAD_VERSION);
        payload.extend_from_slice(&self.identity);
        payload.extend_from_slice(&key_id);
        proof {
            assert(payload@ =~= payload_bytes(self@.identity, key_id@));
            law_payload_round_trip(self@.identity, key_id@);
        }
        Ok(payload)
    }

    /// Keeps the key under a fresh random identifier and writes its payload.
    pub fn wrap_key(&mut self, key: &SecretKey) -> (payload: XSecResult<Vec<u8>>)
        ensures
            final(self)@.identity == old(self)@.identity,
            match payload {
                Ok(p) => final(self)@.stored is Some && final(self)@.stored->Some_0.1 == key@
                    && crypto::drawn::<16>(final(self)@.stored->Some_0.0) && p@
                    == payload_bytes(old(self)@.identity, final(self)@.stored->Some_0.0)
                    && unwrapped(final(self)@, p@) == XSecResult::<Seq<u8>>::Ok(key@),
                Err(e) => ((e is Crypto && crypto::draw_failed::<16>()) || (e is Protector
                    && memory_refused(key@))) && final(self)@.stored == old(self)@.stored,
            },
    {
        match crypto::draw::<16>() {
            Err(_) => Err(XSecError::Crypto),
            Ok(key_id) => self.store_key(key_id, key),
        }
    }

    /// A copy of the key that is kept under an identifier.
    pub fn copy_key(&self, expected_id: &[u8; 16]) -> (key: XSecResult<SecretKey>)
        ensures
            match key {
                Ok(k) => stored_key(self@.stored, expected_id@) == XSecResult::<Seq<u8>>::Ok(k@),
                Err(e) => stored_key(self@.stored, expected_id@) == XSecResult::<Seq<u8>>::Err(e),
            },
    {
        match &self.key {
            None => Err(XSecError::SystemKeyNotFound),
            Some(stored) => {
                if !bytes::equal(&stored.id, expected_id) {
                    return Err(XSecError::SystemKeyInvalidated);
                }
                match secure_array_copy(&stored.key) {
                    Some(key) => Ok(key),
                    None => Err(XSecError::Crypto),
                }
            },
        }
    }

    /// Checks a payload before the user is asked for authorization.
    pub fn expected_key(&self, payload: &[u8]) -> (key_id: XSecResult<[u8; 16]>)
        ensures
            match key_id {
                Ok(id) => read_payload(payload@, Some(self@.identity)) == XSecResult::<
                    Seq<u8>,
                >::Ok(id@),
                Err(e) => read_payload(payload@, Some(self@.identity)) == XSecResult::<
                    Seq<u8>,
                >::Err(e),
            },
    {
        parse_payload(payload, Some(&self.identity))
    }

    /// Hands out the key of a payload, given how the authorization ended.
    pub fn finish_unwrap(&self, payload: &[u8], authorized: XSecResult<()>) -> (key: XSecResult<
        SecretKey,
    >)
        ensures
            match read_payload(payload@, Some(self@.identity)) {
                Err(e) => key == XSecResult::<SecretKey>::Err(e),
                Ok(_) => match authorized {
                    Err(e) => key == XSecResult::<SecretKey>::Err(e),
                    Ok(_) => match key {
                        Ok(k) => unwrapped(self@, payload@) == XSecResult::<Seq<u8>>::Ok(k@),
                        Err(e) => unwrapped(self@, payload@) == XSecResult::<Seq<u8>>::Err(e),
                    },
                },
            },
    {
        match self.expected_key(payload) {
            Err(error) => Err(error),
            Ok(key_id) => match authorized {
                Err(error) => Err(error),
                Ok(()) => self.copy_key(&key_id),
            },
        }
    }
}

} // verus!
