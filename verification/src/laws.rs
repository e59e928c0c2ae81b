//! What holds across the operations on a data key.
pub mod formats;
pub mod life;
pub mod parts;
pub mod protectors;

use vstd::prelude::*;

use crate::ciphertext;
use crate::error::{XSecError, XSecResult};
use crate::metadata;
use crate::metadata::{MetadataView, RecordView};
use crate::protector::password;
use crate::protector::password::XSecPasswordProtector;
use crate::protector::XSecKeyProtector;
use crate::secret::{SecretKey, ZeroizingBytes};
use crate::storage::XSecStorage;
use crate::xsec;
use crate::xsec::StateView;

verus! {

/// What was encrypted is decrypted under the same key and the same caller data.
pub proof fn law_decrypt_undoes_encrypt(
    key: XSecResult<Seq<u8>>,
    plaintext: Seq<u8>,
    aad: Seq<u8>,
    sealed: Vec<u8>,
    result: XSecResult<ZeroizingBytes>,
)
    requires
        xsec::encrypt_outcome(key, plaintext, aad, Ok(sealed)),
        xsec::decrypt_outcome(key, sealed@, aad, result),
    ensures
        result matches Ok(p) && p@ == plaintext,
{
}

/// What was encrypted before the key was locked is decrypted once a protector that gives
/// the same key back has unlocked it.
pub proof fn law_decrypt_after_unlock<S>(
    before: StateView<S>,
    plaintext: Seq<u8>,
    aad: Seq<u8>,
    sealed: Vec<u8>,
    key: SecretKey,
    unlocked: XSecResult<()>,
    after: StateView<S>,
    result: XSecResult<ZeroizingBytes>,
)
    requires
        before.wf(),
        before.key() == XSecResult::<Seq<u8>>::Ok(key@),
        xsec::encrypt_outcome(before.key(), plaintext, aad, Ok(sealed)),
        xsec::unlock_outcome(
            before.storage()->Some_0,
            before.metadata()->Some_0,
            Ok(key),
            unlocked,
            after,
        ),
        xsec::decrypt_outcome(after.key(), sealed@, aad, result),
    ensures
        unlocked is Ok,
        after == before,
        result matches Ok(p) && p@ == plaintext,
{
}

/// Metadata that was saved is what a later load finds: the storage that gives the saved
/// blob back leaves the key locked under the same metadata.
pub proof fn law_saved_metadata_is_loaded<S>(
    storage: S,
    records: Seq<RecordView>,
    key: Seq<u8>,
    blob: Vec<u8>,
    result: XSecResult<()>,
    after: StateView<S>,
)
    requires
        metadata::sealed_metadata(records, key).wf(),
        blob@ == metadata::encoded(records, key),
        xsec::load_outcome(storage, Ok(Some(blob)), result, after),
    ensures
        result is Ok,
        after == StateView::Locked(storage, metadata::sealed_metadata(records, key)),
{
    let sealed = metadata::sealed_metadata(records, key);
    metadata::law_encoded_is_metadata(records, sealed.mac);
    assert(metadata::is_metadata(blob@, records, sealed.mac));
    if let StateView::Locked(_, m) = after {
        metadata::law_metadata_unique(blob@, records, sealed.mac, m.protectors, m.mac);
        assert(m =~= sealed);
    }
}

/// Metadata verifies under the key that it was sealed with: a protector that gives the
/// key back unlocks it.
pub proof fn law_own_key_unlocks<S>(
    storage: S,
    records: Seq<RecordView>,
    key: SecretKey,
    result: XSecResult<()>,
    after: StateView<S>,
)
    requires
        xsec::unlock_outcome(
            storage,
            metadata::sealed_metadata(records, key@),
            Ok(key),
            result,
            after,
        ),
    ensures
        result is Ok,
        after == StateView::Unlocked(storage, metadata::sealed_metadata(records, key@), key@),
{
}

/// What was encrypted under a key is decrypted by another holder of the stored metadata:
/// it loads the saved blob, a protector gives the same key back, and the message opens.
pub proof fn law_decrypt_elsewhere<S>(
    records: Seq<RecordView>,
    key: SecretKey,
    plaintext: Seq<u8>,
    aad: Seq<u8>,
    sealed: Vec<u8>,
    blob: Vec<u8>,
    storage: S,
    loaded: XSecResult<()>,
    locked: StateView<S>,
    unlocked: XSecResult<()>,
    after: StateView<S>,
    result: XSecResult<ZeroizingBytes>,
)
    requires
        xsec::encrypt_outcome(Ok(key@), plaintext, aad, Ok(sealed)),
        metadata::sealed_metadata(records, key@).wf(),
        blob@ == metadata::encoded(records, key@),
        xsec::load_outcome(storage, Ok(Some(blob)), loaded, locked),
        xsec::unlock_outcome(storage, locked.metadata()->Some_0, Ok(key), unlocked, after),
        xsec::decrypt_outcome(after.key(), sealed@, aad, result),
    ensures
        loaded is Ok,
        unlocked is Ok,
        result matches Ok(p) && p@ == plaintext,
{
    law_saved_metadata_is_loaded(storage, records, key@, blob, loaded, locked);
    law_own_key_unlocks(storage, records, key, unlocked, after);
}

/// What a password protector wrapped, the same password unwraps: an unlock with it
/// gives the very data key back. Only the key derivation itself may fail.
pub proof fn law_password_unlocks<S>(
    protector: &XSecPasswordProtector,
    storage: S,
    records: Seq<RecordView>,
    key: Seq<u8>,
    payload: Vec<u8>,
    unwrapped: XSecResult<SecretKey>,
    result: XSecResult<()>,
    after: StateView<S>,
)
    requires
        xsec::was_wrapped(protector, key, Ok(payload)),
        xsec::was_unwrapped(protector, payload@, unwrapped),
        xsec::unlock_outcome(
            storage,
            metadata::sealed_metadata(records, key),
            unwrapped,
            result,
            after,
        ),
    ensures
        match result {
            Ok(_) => after == StateView::Unlocked(
                storage,
                metadata::sealed_metadata(records, key),
                key,
            ),
            Err(e) => e is Protector && after == StateView::Locked(
                storage,
                metadata::sealed_metadata(records, key),
            ),
        },
{
    let k = choose|k: SecretKey|
        k@ == key && #[trigger] call_ensures(
            <XSecPasswordProtector as XSecKeyProtector>::wrap_key,
            (protector, &k),
            Ok(payload),
        );
    assert(password::unwrapped(protector@, payload@) == XSecResult::<Seq<u8>>::Ok(key));
    let p = choose|p: &[u8]|
        p@ == payload@ && #[trigger] call_ensures(
            <XSecPasswordProtector as XSecKeyProtector>::unwrap_key,
            (protector, p),
            unwrapped,
        );
    assert(match unwrapped {
        Ok(k) => password::unwrapped(protector@, p@) == XSecResult::<Seq<u8>>::Ok(k@),
        Err(e) => password::unwrapped(protector@, p@) == XSecResult::<Seq<u8>>::Err(e)
            || e is Protector,
    });
}

/// No change of the protectors changes the data key or the storage, whatever its
/// outcome: what was encrypted before stays readable.
pub proof fn law_change_keeps_key<S: XSecStorage, P: XSecKeyProtector>(
    before: StateView<S>,
    protector: &P,
    change: spec_fn(Seq<u8>) -> Seq<RecordView>,
    result: XSecResult<()>,
    after: StateView<S>,
    input: Seq<u8>,
    aad: Seq<u8>,
)
    requires
        xsec::change_outcome(before, protector, change, result, after),
    ensures
        before.key() is Ok,
        after.key() == before.key(),
        after.storage() == before.storage(),
        ciphertext::opened(after.key()->Ok_0, input, aad) == ciphertext::opened(
            before.key()->Ok_0,
            input,
            aad,
        ),
{
}

/// Neither does the removal of a protector, whatever the storage answered.
pub proof fn law_removal_keeps_key<S>(
    storage: S,
    m: MetadataView,
    key: Seq<u8>,
    kind: Seq<char>,
    saved: XSecResult<()>,
    result: XSecResult<()>,
    after: StateView<S>,
    input: Seq<u8>,
    aad: Seq<u8>,
)
    requires
        xsec::save_outcome(
            StateView::Unlocked(storage, m, key),
            StateView::Unlocked(
                storage,
                metadata::sealed_metadata(metadata::without_kind(m.protectors, kind), key),
                key,
            ),
            saved,
            result,
            after,
        ),
    ensures
        after.key() == XSecResult::<Seq<u8>>::Ok(key),
        after.storage() == Some(storage),
        ciphertext::opened(after.key()->Ok_0, input, aad) == ciphertext::opened(key, input, aad),
{
}

/// A change of the protectors that failed changed nothing at all.
pub proof fn law_failed_change<S: XSecStorage, P: XSecKeyProtector>(
    before: StateView<S>,
    protector: &P,
    change: spec_fn(Seq<u8>) -> Seq<RecordView>,
    error: XSecError,
    after: StateView<S>,
)
    requires
        xsec::change_outcome(before, protector, change, Err(error), after),
    ensures
        after == before,
{
}

/// The order in which protectors are added does not show in the metadata: the stored
/// list is the same.
pub proof fn law_addition_order(
    m: MetadataView,
    a: RecordView,
    b: RecordView,
    with_a: MetadataView,
    with_b: MetadataView,
)
    requires
        m.wf(),
        with_a.protectors == xsec::added(m, a.kind, a.payload),
        with_b.protectors == xsec::added(m, b.kind, b.payload),
        metadata::storable(xsec::added(with_a, b.kind, b.payload)),
        metadata::storable(xsec::added(with_b, a.kind, a.payload)),
    ensures
        xsec::added(with_a, b.kind, b.payload) == xsec::added(with_b, a.kind, a.payload),
{
    broadcast use vstd::seq_lib::group_to_multiset_ensures;

    let x = xsec::added(with_a, b.kind, b.payload);
    let y = xsec::added(with_b, a.kind, a.payload);
    metadata::law_sorted_records(m.protectors.push(a));
    metadata::law_sorted_records(m.protectors.push(b));
    metadata::law_sorted_records(with_a.protectors.push(b));
    metadata::law_sorted_records(with_b.protectors.push(a));
    assert(x.to_multiset() =~= y.to_multiset());
    metadata::lemma_ascending_unique(x, y);
}

} // verus!
