//! The life cycle of one data key: loaded, created, unlocked, used, destroyed.
use vstd::prelude::*;

use crate::bytes;
use crate::ciphertext;
use crate::ciphertext::{Ciphertext, CiphertextHeader};
use crate::crypto;
use crate::crypto::TAG_LENGTH;
use crate::error::{XSecError, XSecResult};
use crate::metadata;
use crate::metadata::{Metadata, MetadataView, ProtectorRecord, RecordView};
use crate::protector::XSecKeyProtector;
use crate::secret::{SecretKey, ZeroizingBytes};
use crate::storage::XSecStorage;

verus! {

enum State<S> {
    Empty,
    Uninitialized(S),
    Locked(S, Metadata),
    Unlocked(S, Metadata, SecretKey),
    Destroyed(S),
}

/// A data key, the storage of its metadata, and whether the key is at hand.
pub struct XSec<S> {
    state: State<S>,
}

/// The state of an `XSec` as contracts see it.
pub enum StateView<S> {
    Empty,
    Uninitialized(S),
    Locked(S, MetadataView),
    Unlocked(S, MetadataView, Seq<u8>),
    Destroyed(S),
}

impl<S> StateView<S> {
    /// Metadata is well formed, and a key at hand is the one it was sealed with.
    pub open spec fn wf(self) -> bool {
        match self {
            StateView::Locked(_, m) => m.wf(),
            StateView::Unlocked(_, m, key) => m.wf() && m.verified_by(key),
            _ => true,
        }
    }

    /// The metadata, where there is any.
    pub open spec fn metadata(self) -> Option<MetadataView> {
        match self {
            StateView::Locked(_, m) => Some(m),
            StateView::Unlocked(_, m, _) => Some(m),
            _ => None,
        }
    }

    /// The storage, where one was loaded.
    pub open spec fn storage(self) -> Option<S> {
        match self {
            StateView::Empty => None,
            StateView::Uninitialized(s) => Some(s),
            StateView::Locked(s, _) => Some(s),
            StateView::Unlocked(s, _, _) => Some(s),
            StateView::Destroyed(s) => Some(s),
        }
    }

    /// The data key, or why there is none.
    pub open spec fn key(self) -> XSecResult<Seq<u8>> {
        match self {
            StateView::Unlocked(_, _, key) => Ok(key),
            StateView::Empty => Err(XSecError::StorageNotLoaded),
            StateView::Uninitialized(_) => Err(XSecError::NotInitialized),
            StateView::Locked(..) => Err(XSecError::Locked),
            StateView::Destroyed(_) => Err(XSecError::Destroyed),
        }
    }
}

impl<S> View for XSec<S> {
    type V = StateView<S>;

    closed spec fn view(&self) -> StateView<S> {
        match self.state {
            State::Empty => StateView::Empty,
            State::Uninitialized(s) => StateView::Uninitialized(s),
            State::Locked(s, m) => StateView::Locked(s, m@),
            State::Unlocked(s, m, k) => StateView::Unlocked(s, m@, k@),
            State::Destroyed(s) => StateView::Destroyed(s),
        }
    }
}

/// Caller data that can be bound to a ciphertext: with the framing it still fits
/// in memory.
pub open spec fn bindable(aad: Seq<u8>) -> bool {
    67 + aad.len() <= usize::MAX
}

/// A message and caller data within the limits of the cipher.
pub open spec fn encryptable(plaintext: Seq<u8>, aad: Seq<u8>) -> bool {
    &&& plaintext.len() <= crypto::MAX_MESSAGE_LENGTH
    &&& bindable(aad)
    &&& 67 + aad.len() <= crypto::MAX_AAD_LENGTH
}

/// How an encryption ends under `key`: under a nonce that was drawn for it, and in a form
/// that opens to the message again.
pub open spec fn encrypt_outcome(
    key: XSecResult<Seq<u8>>,
    plaintext: Seq<u8>,
    aad: Seq<u8>,
    result: XSecResult<Vec<u8>>,
) -> bool {
    match key {
        Err(e) => result == XSecResult::<Vec<u8>>::Err(e),
        Ok(key) => match result {
            Ok(c) => {
                &&& encryptable(plaintext, aad)
                &&& exists|nonce: Seq<u8>|
                    nonce.len() == 12 && crypto::drawn::<12>(nonce) && c@
                        == #[trigger] ciphertext::sealed(key, nonce, plaintext, aad)
                &&& c@.len() == plaintext.len() + 55
                &&& ciphertext::opened(key, c@, aad) == XSecResult::<Seq<u8>>::Ok(plaintext)
            },
            Err(e) => e is Crypto && (crypto::draw_failed::<12>() || !encryptable(plaintext, aad)),
        },
    }
}

/// How a decryption ends under `key`.
pub open spec fn decrypt_outcome(
    key: XSecResult<Seq<u8>>,
    input: Seq<u8>,
    aad: Seq<u8>,
    result: XSecResult<ZeroizingBytes>,
) -> bool {
    match key {
        Err(e) => result == XSecResult::<ZeroizingBytes>::Err(e),
        Ok(key) => if bindable(aad) {
            match result {
                Ok(p) => ciphertext::opened(key, input, aad) == XSecResult::<Seq<u8>>::Ok(p@),
                Err(e) => ciphertext::opened(key, input, aad) == XSecResult::<Seq<u8>>::Err(e),
            }
        } else {
            result == XSecResult::<ZeroizingBytes>::Err(
                match ciphertext::read_ciphertext(input) {
                    Err(e) => e,
                    Ok(_) => XSecError::Crypto,
                },
            )
        },
    }
}

/// How `load` ends when the storage answered `loaded`.
pub open spec fn load_outcome<S>(
    storage: S,
    loaded: XSecResult<Option<Vec<u8>>>,
    result: XSecResult<()>,
    after: StateView<S>,
) -> bool {
    match loaded {
        Err(e) => result == XSecResult::<()>::Err(e) && after is Empty,
        Ok(None) => result is Ok && after == StateView::Uninitialized(storage),
        Ok(Some(blob)) => match result {
            Ok(_) => after matches StateView::Locked(s, m) && s == storage && m.wf()
                && metadata::is_metadata(blob@, m.protectors, m.mac),
            Err(e) => after is Empty && e == metadata::refusal(blob@) && forall|
                r: Seq<RecordView>,
                mac: Seq<u8>,
            | !#[trigger] metadata::is_metadata(blob@, r, mac),
        },
    }
}

/// How `unlock` ends when the protector answered `unwrapped`.
pub open spec fn unlock_outcome<S>(
    storage: S,
    m: MetadataView,
    unwrapped: XSecResult<SecretKey>,
    result: XSecResult<()>,
    after: StateView<S>,
) -> bool {
    match unwrapped {
        Err(e) => result == XSecResult::<()>::Err(e) && after == StateView::Locked(storage, m),
        Ok(key) => if m.verified_by(key@) {
            result is Ok && after == StateView::Unlocked(storage, m, key@)
        } else {
            result == XSecResult::<()>::Err(XSecError::Corrupted) && after == StateView::Locked(
                storage,
                m,
            )
        },
    }
}

/// How a change of the metadata ends when the storage answered `saved`.
pub open spec fn save_outcome<S>(
    before: StateView<S>,
    intended: StateView<S>,
    saved: XSecResult<()>,
    result: XSecResult<()>,
    after: StateView<S>,
) -> bool {
    match saved {
        Ok(_) => result is Ok && after == intended,
        Err(e) => result == XSecResult::<()>::Err(e) && after == before,
    }
}

impl<S> XSec<S> {
    /// See `StateView::wf`.
    pub open spec fn wf(&self) -> bool {
        self@.wf()
    }

    /// Nothing is loaded yet.
    pub fn new() -> (xsec: Self)
        ensures
            xsec.wf(),
            xsec@ is Empty,
    {
        XSec { state: State::Empty }
    }

    /// Whether a storage was loaded.
    pub fn is_loaded(&self) -> (yes: bool)
        ensures
            yes == !(self@ is Empty),
    {
        !matches!(self.state, State::Empty)
    }

    /// Whether there is metadata.
    pub fn is_initialized(&self) -> (yes: bool)
        ensures
            yes == (self@ is Locked || self@ is Unlocked),
    {
        matches!(self.state, State::Locked(..) | State::Unlocked(..))
    }

    /// Whether no data key is at hand.
    pub fn is_locked(&self) -> (yes: bool)
        ensures
            yes == !(self@ is Unlocked),
    {
        !matches!(self.state, State::Unlocked(..))
    }

    /// Whether the metadata was destroyed.
    pub fn is_destroyed(&self) -> (yes: bool)
        ensures
            yes == (self@ is Destroyed),
    {
        matches!(self.state, State::Destroyed(..))
    }

    /// Forgets the data key. It fails only where nothing is loaded, and changes
    /// nothing but an unlocked state.
    pub fn lock(&mut self) -> (result: XSecResult<()>)
        requires
            old(self).wf(),
        ensures
            final(self).wf(),
            match old(self)@ {
                StateView::Empty => result == XSecResult::<()>::Err(XSecError::StorageNotLoaded)
                    && final(self)@ == old(self)@,
                StateView::Unlocked(s, m, _) => result is Ok && final(self)@ == StateView::Locked(
                    s,
                    m,
                ),
                _ => result is Ok && final(self)@ == old(self)@,
            },
    {
        let mut state: State<S> = State::Empty;
        std::mem::swap(&mut self.state, &mut state);
        match state {
            State::Unlocked(storage, metadata, _) => {
                self.state = State::Locked(storage, metadata);
                Ok(())
            },
            State::Empty => Err(XSecError::StorageNotLoaded),
            other => {
                self.state = other;
                Ok(())
            },
        }
    }

    /// Gives the storage back, where one was loaded.
    pub fn into_storage(self) -> (storage: Option<S>)
        ensures
            storage == self@.storage(),
    {
        match self.state {
            State::Empty => None,
            State::Uninitialized(storage) => Some(storage),
            State::Locked(storage, _) => Some(storage),
            State::Unlocked(storage, _, _) => Some(storage),
            State::Destroyed(storage) => Some(storage),
        }
    }

    fn key(&self) -> (key: XSecResult<&SecretKey>)
        ensures
            key matches Ok(k) ==> self@.key() == XSecResult::<Seq<u8>>::Ok(k@),
            key matches Err(e) ==> self@.key() == XSecResult::<Seq<u8>>::Err(e),
    {
        match &self.state {
            State::Unlocked(_, _, key) => Ok(key),
            State::Empty => Err(XSecError::StorageNotLoaded),
            State::Uninitialized(_) => Err(XSecError::NotInitialized),
            State::Locked(..) => Err(XSecError::Locked),
            State::Destroyed(_) => Err(XSecError::Destroyed),
        }
    }

    /// What encryption makes of a message under a given nonce.
    pub(crate) fn encrypt_with_nonce(&self, nonce: [u8; 12], plaintext: &[u8], aad: &[u8]) -> (result:
        XSecResult<Vec<u8>>)
        requires
            plaintext@.len() + TAG_LENGTH <= isize::MAX,
        ensures
            match self@.key() {
                Err(e) => result == XSecResult::<Vec<u8>>::Err(e),
                Ok(key) => match result {
                    Ok(c) => encryptable(plaintext@, aad@) && c@ == ciphertext::sealed(
                        key,
                        nonce@,
                        plaintext@,
                        aad@,
                    ) && c@.len() == plaintext@.len() + 55 && ciphertext::opened(key, c@, aad@)
                        == XSecResult::<Seq<u8>>::Ok(plaintext@),
                    Err(e) => !encryptable(plaintext@, aad@) && e is Crypto,
                },
            },
    {
        let key: &SecretKey = match self.key() {
            Err(error) => {
                return Err(error);
            },
            Ok(key) => key,
        };
        let header: CiphertextHeader = CiphertextHeader::from_nonce(nonce);
        let combined: Vec<u8> = match header.combined_aad(aad) {
            Err(error) => {
                return Err(error);
            },
            Ok(combined) => combined,
        };
        proof {
            ciphertext::law_header_round_trip(nonce@);
            ciphertext::lemma_combined_aad_length(nonce@, aad@);
        }
        let sealed: Vec<u8> = match crypto::seal(
            key.expose_secret(),
            &nonce,
            plaintext,
            combined.as_slice(),
        ) {
            Err(_) => {
                return Err(XSecError::Crypto);
            },
            Ok(sealed) => sealed,
        };
        proof {
            ciphertext::law_ciphertext_round_trip(nonce@, sealed@);
        }
        match Ciphertext::new(header, sealed) {
            Err(error) => Err(error),
            Ok(ciphertext) => Ok(ciphertext.encode()),
        }
    }

    /// Encrypts a message and binds it to `aad`, under a fresh random nonce. What
    /// comes out decrypts to the message under the same key and `aad`. It fails
    /// where the key is not at hand, on a message or `aad` over the limits of the
    /// cipher, and where the system gives no randomness.
    pub fn encrypt_with_aad(&self, plaintext: &[u8], aad: &[u8]) -> (result: XSecResult<Vec<u8>>)
        requires
            plaintext@.len() + TAG_LENGTH <= isize::MAX,
        ensures
            encrypt_outcome(self@.key(), plaintext@, aad@, result),
    {
        match self.key() {
            Err(error) => Err(error),
            Ok(_) => match CiphertextHeader::new() {
                Err(error) => Err(error),
                Ok(header) => self.encrypt_with_nonce(*header.nonce(), plaintext, aad),
            },
        }
    }

    /// `encrypt_with_aad` with nothing bound.
    pub fn encrypt(&self, plaintext: &[u8]) -> (result: XSecResult<Vec<u8>>)
        requires
            plaintext@.len() + TAG_LENGTH <= isize::MAX,
        ensures
            encrypt_outcome(self@.key(), plaintext@, Seq::empty(), result),
    {
        let none: Vec<u8> = Vec::new();
        assert(none@ =~= Seq::<u8>::empty());
        self.encrypt_with_aad(plaintext, none.as_slice())
    }

    /// Decrypts a ciphertext that was bound to `aad`.
    pub fn decrypt_with_aad(&self, input: &[u8], aad: &[u8]) -> (result: XSecResult<ZeroizingBytes>)
        ensures
            decrypt_outcome(self@.key(), input@, aad@, result),
    {
        let key: &SecretKey = match self.key() {
            Err(error) => {
                return Err(error);
            },
            Ok(key) => key,
        };
        let parsed: Ciphertext = match Ciphertext::parse(input) {
            Err(error) => {
                return Err(error);
            },
            Ok(parsed) => parsed,
        };
        let combined: Vec<u8> = match parsed.header().combined_aad(aad) {
            Err(error) => {
                return Err(error);
            },
            Ok(combined) => combined,
        };
        match crypto::open(
            key.expose_secret(),
            parsed.header().nonce(),
            parsed.encrypted_payload(),
            combined.as_slice(),
        ) {
            Err(_) => Err(XSecError::InvalidCiphertext),
            Ok(plaintext) => Ok(ZeroizingBytes::new(plaintext)),
        }
    }

    /// `decrypt_with_aad` with nothing bound.
    pub fn decrypt(&self, input: &[u8]) -> (result: XSecResult<ZeroizingBytes>)
        ensures
            decrypt_outcome(self@.key(), input@, Seq::empty(), result),
    {
        let none: Vec<u8> = Vec::new();
        assert(none@ =~= Seq::<u8>::empty());
        self.decrypt_with_aad(input, none.as_slice())
    }

    /// The kinds of the stored protectors, in ascending order; none without
    /// metadata. They are authentic only once the key was unlocked.
    pub fn key_protector_kinds(&self) -> (kinds: Vec<&str>)
        ensures
            match self@.metadata() {
                Some(m) => kinds@.len() == m.protectors.len() && forall|i: int|
                    0 <= i < kinds@.len() ==> (#[trigger] kinds@[i])@ == m.protectors[i].kind,
                None => kinds@.len() == 0,
            },
    {
        match &self.state {
            State::Locked(_, metadata) => metadata.kinds(),
            State::Unlocked(_, metadata, _) => metadata.kinds(),
            _ => Vec::new(),
        }
    }

    /// The stored payload of a kind.
    pub fn key_protector_payload(&self, kind: &str) -> (payload: Option<&[u8]>)
        ensures
            match self@.metadata() {
                Some(m) => (payload is Some <==> m.has_kind(kind@)) && (payload matches Some(p)
                    ==> exists|i: int| #[trigger]
                    m.first_of_kind(kind@, i) && p@ == m.protectors[i].payload),
                None => payload is None,
            },
    {
        match &self.state {
            State::Locked(_, metadata) => metadata.payload_of(kind),
            State::Unlocked(_, metadata, _) => metadata.payload_of(kind),
            _ => None,
        }
    }

    /// What follows when the storage answered a `load`.
    pub fn finish_load(&mut self, storage: S, loaded: XSecResult<Option<Vec<u8>>>) -> (result:
        XSecResult<()>)
        requires
            old(self).wf(),
        ensures
            final(self).wf(),
            if old(self)@ is Empty {
                load_outcome(storage, loaded, result, final(self)@)
            } else {
                result == XSecResult::<()>::Err(XSecError::AlreadyLoaded) && final(self)@
                    == old(self)@
            },
    {
        if !matches!(self.state, State::Empty) {
            return Err(XSecError::AlreadyLoaded);
        }
        match loaded {
            Err(error) => Err(error),
            Ok(None) => {
                self.state = State::Uninitialized(storage);
                Ok(())
            },
            Ok(Some(blob)) => match Metadata::parse(blob.as_slice()) {
                Err(error) => Err(error),
                Ok(metadata) => {
                    self.state = State::Locked(storage, metadata);
                    Ok(())
                },
            },
        }
    }

    /// What follows when the storage answered the save of new metadata.
    pub fn finish_create(&mut self, metadata: Metadata, key: SecretKey, saved: XSecResult<()>) -> (result:
        XSecResult<()>)
        requires
            old(self).wf(),
            old(self)@ is Uninitialized,
            metadata@.wf(),
            metadata@.verified_by(key@),
        ensures
            final(self).wf(),
            save_outcome(
                old(self)@,
                StateView::Unlocked(old(self)@.storage()->Some_0, metadata@, key@),
                saved,
                result,
                final(self)@,
            ),
    {
        match saved {
            Err(error) => Err(error),
            Ok(()) => {
                let mut state: State<S> = State::Empty;
                std::mem::swap(&mut self.state, &mut state);
                match state {
                    State::Uninitialized(storage) => {
                        self.state = State::Unlocked(storage, metadata, key);
                    },
                    other => {
                        self.state = other;
                    },
                }
                Ok(())
            },
        }
    }

    /// What follows when the protector answered an `unlock`.
    pub fn finish_unlock(&mut self, unwrapped: XSecResult<SecretKey>) -> (result: XSecResult<()>)
        requires
            old(self).wf(),
            old(self)@ is Locked,
        ensures
            final(self).wf(),
            old(self)@ matches StateView::Locked(storage, m) && unlock_outcome(
                storage,
                m,
                unwrapped,
                result,
                final(self)@,
            ),
    {
        let key: SecretKey = match unwrapped {
            Err(error) => {
                return Err(error);
            },
            Ok(key) => key,
        };
        let mut state: State<S> = State::Empty;
        std::mem::swap(&mut self.state, &mut state);
        match state {
            State::Locked(storage, metadata) => match metadata.verify(&key) {
                Err(error) => {
                    self.state = State::Locked(storage, metadata);
                    Err(error)
                },
                Ok(()) => {
                    self.state = State::Unlocked(storage, metadata, key);
                    Ok(())
                },
            },
            other => {
                self.state = other;
                Ok(())
            },
        }
    }

    /// What follows when the storage answered the save of changed metadata.
    pub fn finish_change(&mut self, changed: Metadata, saved: XSecResult<()>) -> (result: XSecResult<
        (),
    >)
        requires
            old(self).wf(),
            old(self)@ is Unlocked,
            changed@.wf(),
            changed@.verified_by(old(self)@.key()->Ok_0),
        ensures
            final(self).wf(),
            old(self)@ matches StateView::Unlocked(storage, m, key) && save_outcome(
                old(self)@,
                StateView::Unlocked(storage, changed@, key),
                saved,
                result,
                final(self)@,
            ),
    {
        match saved {
            Err(error) => Err(error),
            Ok(()) => {
                let mut state: State<S> = State::Empty;
                std::mem::swap(&mut self.state, &mut state);
                match state {
                    State::Unlocked(storage, _, key) => {
                        self.state = State::Unlocked(storage, changed, key);
                    },
                    other => {
                        self.state = other;
                    },
                }
                Ok(())
            },
        }
    }

    /// What follows when the storage answered a `delete`.
    pub fn finish_destroy(&mut self, deleted: XSecResult<()>) -> (result: XSecResult<()>)
        requires
            old(self).wf(),
            !(old(self)@ is Empty),
        ensures
            final(self).wf(),
            save_outcome(
                old(self)@,
                StateView::Destroyed(old(self)@.storage()->Some_0),
                deleted,
                result,
                final(self)@,
            ),
    {
        match deleted {
            Err(error) => Err(error),
            Ok(()) => {
                let mut state: State<S> = State::Empty;
                std::mem::swap(&mut self.state, &mut state);
                match state {
                    State::Empty => {},
                    State::Uninitialized(storage) => {
                        self.state = State::Destroyed(storage);
                    },
                    State::Locked(storage, _) => {
                        self.state = State::Destroyed(storage);
                    },
                    State::Unlocked(storage, _, _) => {
                        self.state = State::Destroyed(storage);
                    },
                    State::Destroyed(storage) => {
                        self.state = State::Destroyed(storage);
                    },
                }
                Ok(())
            },
        }
    }
}

/// The metadata of one new protector, with its blob. It fails on a kind or a
/// payload that cannot be stored.
pub fn draft_metadata(kind: &str, payload: Vec<u8>, key: &SecretKey) -> (draft: XSecResult<
    (Metadata, Vec<u8>),
>)
    ensures
        ({
            let one = first_record(kind@, payload@);
            &&& draft is Ok <==> metadata::storable(one)
            &&& draft matches Ok(d) ==> d.0@ == metadata::sealed_metadata(one, key@) && d.0@.wf()
                && d.1@ == metadata::encoded(one, key@)
            &&& draft matches Err(e) ==> e is Corrupted
        }),
{
    let mut protectors: Vec<ProtectorRecord> = Vec::new();
    protectors.push(ProtectorRecord { kind: kind.to_owned(), payload });
    let mut draft: Metadata = Metadata::new(protectors);
    proof {
        let one = first_record(kind@, payload@);
        assert(draft@.protectors =~= one);
        metadata::law_sorted_records_fixed(one);
    }
    match draft.encode(key) {
        Err(error) => Err(error),
        Ok(blob) => Ok((draft, blob)),
    }
}

/// The list of one record.
pub open spec fn first_record(kind: Seq<char>, payload: Seq<u8>) -> Seq<RecordView> {
    seq![RecordView { kind, payload }]
}

/// The records after `payload` was added under `kind`.
pub open spec fn added(m: MetadataView, kind: Seq<char>, payload: Seq<u8>) -> Seq<RecordView> {
    metadata::sorted_records(m.protectors.push(RecordView { kind, payload }))
}

/// The records after `kind` was removed and `payload` added under `new_kind`.
pub open spec fn replaced(
    m: MetadataView,
    kind: Seq<char>,
    new_kind: Seq<char>,
    payload: Seq<u8>,
) -> Seq<RecordView> {
    metadata::sorted_records(
        metadata::without_kind(m.protectors, kind).push(RecordView { kind: new_kind, payload }),
    )
}

/// The storage was handed the blob of `records` under `key` and answered `saved`.
pub open spec fn was_saved<S: XSecStorage>(
    storage: S,
    records: Seq<RecordView>,
    key: Seq<u8>,
    saved: XSecResult<()>,
) -> bool {
    exists|data: &[u8]|
        data@ == metadata::encoded(records, key) && #[trigger] call_ensures(
            S::save,
            (&storage, data),
            saved,
        )
}

/// The storage was handed the blob of `records` under `key` and accepted it.
pub open spec fn save_accepted<S: XSecStorage>(
    storage: S,
    records: Seq<RecordView>,
    key: Seq<u8>,
) -> bool {
    exists|saved: XSecResult<()>| saved is Ok && #[trigger] was_saved(storage, records, key, saved)
}

/// The storage was asked to delete its blob and answered `deleted`.
pub open spec fn was_deleted<S: XSecStorage>(storage: S, deleted: XSecResult<()>) -> bool {
    call_ensures(S::delete, (&storage,), deleted)
}

/// The protector was handed the key and answered `wrapped`.
pub open spec fn was_wrapped<P: XSecKeyProtector>(
    protector: &P,
    key: Seq<u8>,
    wrapped: XSecResult<Vec<u8>>,
) -> bool {
    exists|k: SecretKey|
        k@ == key && #[trigger] call_ensures(P::wrap_key, (protector, &k), wrapped)
}

/// The protector was handed the payload and answered `unwrapped`.
pub open spec fn was_unwrapped<P: XSecKeyProtector>(
    protector: &P,
    payload: Seq<u8>,
    unwrapped: XSecResult<SecretKey>,
) -> bool {
    exists|p: &[u8]|
        p@ == payload && #[trigger] call_ensures(P::unwrap_key, (protector, p), unwrapped)
}

/// How a change of the protectors ends: the protector wrapped the key, the new
/// records were saved, and only then did the state change.
pub open spec fn change_outcome<S: XSecStorage, P: XSecKeyProtector>(
    before: StateView<S>,
    protector: &P,
    change: spec_fn(Seq<u8>) -> Seq<RecordView>,
    result: XSecResult<()>,
    after: StateView<S>,
) -> bool {
    before matches StateView::Unlocked(storage, m, key) && match result {
        Ok(_) => exists|payload: Vec<u8>|
            #![trigger was_wrapped(protector, key, XSecResult::<Vec<u8>>::Ok(payload))]
            {
                let records = change(payload@);
                &&& was_wrapped(protector, key, XSecResult::<Vec<u8>>::Ok(payload))
                &&& metadata::storable(records)
                &&& save_accepted(storage, records, key)
                &&& after == StateView::Unlocked(
                    storage,
                    metadata::sealed_metadata(records, key),
                    key,
                )
            },
        Err(e) => after == before && {
            ||| was_wrapped(protector, key, XSecResult::<Vec<u8>>::Err(e))
            ||| exists|payload: Vec<u8>|
                #![trigger was_wrapped(protector, key, XSecResult::<Vec<u8>>::Ok(payload))]
                {
                    let records = change(payload@);
                    &&& was_wrapped(protector, key, XSecResult::<Vec<u8>>::Ok(payload))
                    &&& if metadata::storable(records) {
                        was_saved(storage, records, key, XSecResult::<()>::Err(e))
                    } else {
                        e is Corrupted
                    }
                }
        },
    }
}

impl<S: XSecStorage> XSec<S> {
    /// Takes a storage and reads its metadata. It fails where a storage was loaded
    /// before, where the storage fails and where its blob is not metadata; then
    /// nothing is loaded.
    pub fn load(&mut self, storage: S) -> (result: XSecResult<()>)
        requires
            old(self).wf(),
        ensures
            final(self).wf(),
            if old(self)@ is Empty {
                exists|loaded: XSecResult<Option<Vec<u8>>>| #[trigger]
                    call_ensures(S::load, (&storage,), loaded) && load_outcome(
                        storage,
                        loaded,
                        result,
                        final(self)@,
                    )
            } else {
                result == XSecResult::<()>::Err(XSecError::AlreadyLoaded) && final(self)@
                    == old(self)@
            },
    {
        if !matches!(self.state, State::Empty) {
            return Err(XSecError::AlreadyLoaded);
        }
        let loaded: XSecResult<Option<Vec<u8>>> = storage.load();
        self.finish_load(storage, loaded)
    }

    /// Makes a random data key, wraps it with a first protector and saves the
    /// metadata. Only when all of that is done is the key at hand; a failure at any
    /// point leaves the state as it was.
    pub fn create<P: XSecKeyProtector>(&mut self, protector: &P) -> (result: XSecResult<()>)
        requires
            old(self).wf(),
        ensures
            final(self).wf(),
            result is Err ==> final(self)@ == old(self)@,
            match old(self)@ {
                StateView::Empty => result == XSecResult::<()>::Err(XSecError::StorageNotLoaded),
                StateView::Uninitialized(storage) => {
                    &&& !metadata::valid_kind(protector.kind_name()) ==> result == XSecResult::<
                        (),
                    >::Err(XSecError::Corrupted)
                    &&& match result {
                        Ok(_) => exists|key: Seq<u8>, payload: Vec<u8>|
                            #![trigger was_wrapped(protector, key, XSecResult::<Vec<u8>>::Ok(payload))]
                            {
                                let one = first_record(protector.kind_name(), payload@);
                                &&& crypto::drawn::<32>(key)
                                &&& was_wrapped(protector, key, XSecResult::<Vec<u8>>::Ok(payload))
                                &&& metadata::storable(one)
                                &&& save_accepted(storage, one, key)
                                &&& final(self)@ == StateView::Unlocked(
                                    storage,
                                    metadata::sealed_metadata(one, key),
                                    key,
                                )
                            },
                        Err(e) => {
                            ||| e is Crypto && crypto::draw_failed::<32>()
                            ||| e is Corrupted && !metadata::valid_kind(protector.kind_name())
                            ||| exists|key: Seq<u8>| #[trigger]
                                was_wrapped(protector, key, XSecResult::<Vec<u8>>::Err(e))
                                    && crypto::drawn::<32>(key)
                            ||| exists|key: Seq<u8>, payload: Vec<u8>|
                                #![trigger was_wrapped(protector, key, XSecResult::<Vec<u8>>::Ok(payload))]
                                {
                                    let one = first_record(protector.kind_name(), payload@);
                                    &&& crypto::drawn::<32>(key)
                                    &&& was_wrapped(
                                        protector,
                                        key,
                                        XSecResult::<Vec<u8>>::Ok(payload),
                                    )
                                    &&& if metadata::storable(one) {
                                        was_saved(storage, one, key, XSecResult::<()>::Err(e))
                                    } else {
                                        e is Corrupted
                                    }
                                }
                        },
                    }
                },
                _ => result == XSecResult::<()>::Err(XSecError::AlreadyExists),
            },
    {
        if matches!(self.state, State::Empty) {
            return Err(XSecError::StorageNotLoaded);
        }
        if !matches!(self.state, State::Uninitialized(_)) {
            return Err(XSecError::AlreadyExists);
        }
        let kind: &'static str = protector.kind();
        if metadata::validate_kind(kind).is_err() {
            return Err(XSecError::Corrupted);
        }
        let key: SecretKey = match crypto::draw::<32>() {
            Err(_) => {
                return Err(XSecError::Crypto);
            },
            Ok(raw) => SecretKey::new(raw),
        };
        let payload: Vec<u8> = match protector.wrap_key(&key) {
            Err(error) => {
                assert(was_wrapped(protector, key@, XSecResult::<Vec<u8>>::Err(error)));
                return Err(error);
            },
            Ok(payload) => payload,
        };
        assert(was_wrapped(protector, key@, XSecResult::<Vec<u8>>::Ok(payload)));
        let (draft, blob): (Metadata, Vec<u8>) = match draft_metadata(kind, payload, &key) {
            Err(error) => {
                return Err(error);
            },
            Ok(draft) => draft,
        };
        let saved: XSecResult<()> = match &self.state {
            State::Uninitialized(storage) => storage.save(blob.as_slice()),
            _ => Ok(()),
        };
        assert(was_saved(
            self@.storage()->Some_0,
            first_record(protector.kind_name(), payload@),
            key@,
            saved,
        ));
        self.finish_create(draft, key, saved)
    }

    /// Takes the data key out of the protector's payload and checks the metadata
    /// under it. A failure leaves the state as it was.
    pub fn unlock<P: XSecKeyProtector>(&mut self, protector: &P) -> (result: XSecResult<()>)
        requires
            old(self).wf(),
        ensures
            final(self).wf(),
            result is Err ==> final(self)@ == old(self)@,
            match old(self)@ {
                StateView::Empty => result == XSecResult::<()>::Err(XSecError::StorageNotLoaded),
                StateView::Uninitialized(_) => result == XSecResult::<()>::Err(
                    XSecError::NotInitialized,
                ),
                StateView::Unlocked(..) => result == XSecResult::<()>::Err(
                    XSecError::AlreadyUnlocked,
                ),
                StateView::Destroyed(_) => result == XSecResult::<()>::Err(XSecError::Destroyed),
                StateView::Locked(storage, m) => if m.has_kind(protector.kind_name()) {
                    exists|i: int, unwrapped: XSecResult<SecretKey>|
                        #![trigger m.first_of_kind(protector.kind_name(), i), was_unwrapped(protector, m.protectors[i].payload, unwrapped)]
                        m.first_of_kind(protector.kind_name(), i) && was_unwrapped(
                            protector,
                            m.protectors[i].payload,
                            unwrapped,
                        ) && unlock_outcome(storage, m, unwrapped, result, final(self)@)
                } else {
                    result == XSecResult::<()>::Err(XSecError::ProtectorNotFound)
                },
            },
    {
        let unwrapped: XSecResult<SecretKey> = match &self.state {
            State::Empty => {
                return Err(XSecError::StorageNotLoaded);
            },
            State::Uninitialized(_) => {
                return Err(XSecError::NotInitialized);
            },
            State::Unlocked(..) => {
                return Err(XSecError::AlreadyUnlocked);
            },
            State::Destroyed(_) => {
                return Err(XSecError::Destroyed);
            },
            State::Locked(_, metadata) => match metadata.payload_of(protector.kind()) {
                None => {
                    return Err(XSecError::ProtectorNotFound);
                },
                Some(payload) => {
                    let unwrapped: XSecResult<SecretKey> = protector.unwrap_key(payload);
                    assert(was_unwrapped(protector, payload@, unwrapped));
                    unwrapped
                },
            },
        };
        self.finish_unlock(unwrapped)
    }

    /// Wraps the data key with one more protector and saves the metadata. It fails
    /// where the key is not at hand and where the kind is taken; a failure leaves the
    /// state as it was.
    pub fn add_key_protector<P: XSecKeyProtector>(&mut self, protector: &P) -> (result: XSecResult<
        (),
    >)
        requires
            old(self).wf(),
        ensures
            final(self).wf(),
            result is Err ==> final(self)@ == old(self)@,
            match old(self)@ {
                StateView::Unlocked(storage, m, key) => if m.has_kind(protector.kind_name()) {
                    result == XSecResult::<()>::Err(XSecError::ProtectorAlreadyExists)
                } else {
                    change_outcome(
                        old(self)@,
                        protector,
                        |payload: Seq<u8>| added(m, protector.kind_name(), payload),
                        result,
                        final(self)@,
                    )
                },
                _ => result == XSecResult::<()>::Err(XSecError::Locked),
            },
    {
        let ghost m: MetadataView = self@.metadata()->Some_0;
        let ghost change: spec_fn(Seq<u8>) -> Seq<RecordView> = |payload: Seq<u8>|
            added(m, protector.kind_name(), payload);
        let (changed, saved): (Metadata, XSecResult<()>) = match &self.state {
            State::Unlocked(storage, metadata, key) => {
                let kind: &'static str = protector.kind();
                if metadata.contains_kind(kind) {
                    return Err(XSecError::ProtectorAlreadyExists);
                }
                let payload: Vec<u8> = match protector.wrap_key(key) {
                    Err(error) => {
                        assert(was_wrapped(protector, key@, XSecResult::<Vec<u8>>::Err(error)));
                        return Err(error);
                    },
                    Ok(payload) => payload,
                };
                assert(was_wrapped(protector, key@, XSecResult::<Vec<u8>>::Ok(payload)));
                let mut changed: Metadata = metadata.with_protector(kind, payload);
                assert(change(payload@) == metadata::sorted_records(changed@.protectors));
                match changed.encode(key) {
                    Err(error) => {
                        return Err(error);
                    },
                    Ok(blob) => {
                        let saved: XSecResult<()> = storage.save(blob.as_slice());
                        assert(was_saved(*storage, change(payload@), key@, saved));
                        (changed, saved)
                    },
                }
            },
            _ => {
                return Err(XSecError::Locked);
            },
        };
        self.finish_change(changed, saved)
    }

    /// Removes the protector of a kind and saves the metadata. It fails where the
    /// key is not at hand, where there is no such protector, on the last protector,
    /// and where the storage fails; a failure leaves the state as it was.
    pub fn remove_key_protector(&mut self, kind: &str) -> (result: XSecResult<()>)
        requires
            old(self).wf(),
        ensures
            final(self).wf(),
            result is Err ==> final(self)@ == old(self)@,
            match old(self)@ {
                StateView::Unlocked(storage, m, key) => if !m.has_kind(kind@) {
                    result == XSecResult::<()>::Err(XSecError::ProtectorNotFound)
                } else if m.protectors.len() == 1 {
                    result == XSecResult::<()>::Err(XSecError::LastProtector)
                } else {
                    let rest = metadata::without_kind(m.protectors, kind@);
                    exists|saved: XSecResult<()>| #[trigger]
                        was_saved(storage, rest, key, saved) && save_outcome(
                            old(self)@,
                            StateView::Unlocked(
                                storage,
                                metadata::sealed_metadata(rest, key),
                                key,
                            ),
                            saved,
                            result,
                            final(self)@,
                        )
                },
                _ => result == XSecResult::<()>::Err(XSecError::Locked),
            },
    {
        let (changed, saved): (Metadata, XSecResult<()>) = match &self.state {
            State::Unlocked(storage, metadata, key) => {
                if !metadata.contains_kind(kind) {
                    return Err(XSecError::ProtectorNotFound);
                }
                if metadata.protector_count() == 1 {
                    return Err(XSecError::LastProtector);
                }
                proof {
                    metadata::law_removal_storable(metadata@.protectors, kind@);
                }
                let mut changed: Metadata = metadata.without_protector(kind);
                match changed.encode(key) {
                    Err(error) => {
                        return Err(error);
                    },
                    Ok(blob) => {
                        let saved: XSecResult<()> = storage.save(blob.as_slice());
                        assert(was_saved(*storage, changed@.protectors, key@, saved));
                        (changed, saved)
                    },
                }
            },
            _ => {
                return Err(XSecError::Locked);
            },
        };
        self.finish_change(changed, saved)
    }

    /// Wraps the same data key anew: the protector of `kind` is removed and
    /// `protector` added in one saved change. It fails where the key is not at hand,
    /// where there is no protector of `kind`, and where the kind of `protector` is
    /// taken by another one; a failure leaves the state as it was.
    pub fn replace_key_protector<P: XSecKeyProtector>(&mut self, kind: &str, protector: &P) -> (result:
        XSecResult<()>)
        requires
            old(self).wf(),
        ensures
            final(self).wf(),
            result is Err ==> final(self)@ == old(self)@,
            match old(self)@ {
                StateView::Unlocked(storage, m, key) => if !m.has_kind(kind@) {
                    result == XSecResult::<()>::Err(XSecError::ProtectorNotFound)
                } else if protector.kind_name() != kind@ && m.has_kind(protector.kind_name()) {
                    result == XSecResult::<()>::Err(XSecError::ProtectorAlreadyExists)
                } else {
                    change_outcome(
                        old(self)@,
                        protector,
                        |payload: Seq<u8>| replaced(m, kind@, protector.kind_name(), payload),
                        result,
                        final(self)@,
                    )
                },
                _ => result == XSecResult::<()>::Err(XSecError::Locked),
            },
    {
        let ghost m: MetadataView = self@.metadata()->Some_0;
        let ghost change: spec_fn(Seq<u8>) -> Seq<RecordView> = |payload: Seq<u8>|
            replaced(m, kind@, protector.kind_name(), payload);
        let (changed, saved): (Metadata, XSecResult<()>) = match &self.state {
            State::Unlocked(storage, metadata, key) => {
                if !metadata.contains_kind(kind) {
                    return Err(XSecError::ProtectorNotFound);
                }
                let new_kind: &'static str = protector.kind();
                if !bytes::same_text(new_kind, kind) && metadata.contains_kind(new_kind) {
                    return Err(XSecError::ProtectorAlreadyExists);
                }
                let payload: Vec<u8> = match protector.wrap_key(key) {
                    Err(error) => {
                        assert(was_wrapped(protector, key@, XSecResult::<Vec<u8>>::Err(error)));
                        return Err(error);
                    },
                    Ok(payload) => payload,
                };
                assert(was_wrapped(protector, key@, XSecResult::<Vec<u8>>::Ok(payload)));
                let rest: Metadata = metadata.without_protector(kind);
                let mut changed: Metadata = rest.with_protector(new_kind, payload);
                assert(change(payload@) == metadata::sorted_records(changed@.protectors));
                match changed.encode(key) {
                    Err(error) => {
                        return Err(error);
                    },
                    Ok(blob) => {
                        let saved: XSecResult<()> = storage.save(blob.as_slice());
                        assert(was_saved(*storage, change(payload@), key@, saved));
                        (changed, saved)
                    },
                }
            },
            _ => {
                return Err(XSecError::Locked);
            },
        };
        self.finish_change(changed, saved)
    }

    /// Deletes the metadata from the storage and forgets the key. It fails where
    /// nothing is loaded and where the storage fails; a failure leaves the state as
    /// it was. What was destroyed stays destroyed.
    pub fn destroy(&mut self) -> (result: XSecResult<()>)
        requires
            old(self).wf(),
        ensures
            final(self).wf(),
            result is Err ==> final(self)@ == old(self)@,
            match old(self)@ {
                StateView::Empty => result == XSecResult::<()>::Err(XSecError::StorageNotLoaded),
                StateView::Destroyed(_) => result is Ok && final(self)@ == old(self)@,
                _ => exists|deleted: XSecResult<()>| #[trigger]
                    was_deleted(old(self)@.storage()->Some_0, deleted) && save_outcome(
                        old(self)@,
                        StateView::Destroyed(old(self)@.storage()->Some_0),
                        deleted,
                        result,
                        final(self)@,
                    ),
            },
    {
        let deleted: XSecResult<()> = match &self.state {
            State::Empty => {
                return Err(XSecError::StorageNotLoaded);
            },
            State::Destroyed(_) => {
                return Ok(());
            },
            State::Uninitialized(storage) => storage.delete(),
            State::Locked(storage, _) => storage.delete(),
            State::Unlocked(storage, _, _) => storage.delete(),
        };
        assert(was_deleted(self@.storage()->Some_0, deleted));
        self.finish_destroy(deleted)
    }
}

impl<S: XSecStorage> Default for XSec<S> {
    fn default() -> (xsec: Self)
        ensures
            xsec.wf(),
            xsec@ is Empty,
    {
        Self::new()
    }
}

} // verus!
