//! The life of a data key: what each operation does to the state, and when it is refused.
use vstd::prelude::*;
use vstd::utf8::*;

use crate::bytes;
use crate::ciphertext;
use crate::crypto;
use crate::error::{XSecError, XSecResult};
use crate::laws::formats;
use crate::metadata;
use crate::metadata::{Metadata, MetadataView, RecordView};
use crate::protector::XSecKeyProtector;
use crate::secret::{SecretKey, ZeroizingBytes};
use crate::storage::XSecStorage;
use crate::xsec;
use crate::xsec::{draft_metadata, StateView, XSec};

verus! {

/// What each state says of itself.
pub proof fn law_states_told<S>(
    xsec: &XSec<S>,
    loaded: bool,
    initialized: bool,
    locked: bool,
    destroyed: bool,
)
    requires
        call_ensures(XSec::<S>::is_loaded, (xsec,), loaded),
        call_ensures(XSec::<S>::is_initialized, (xsec,), initialized),
        call_ensures(XSec::<S>::is_locked, (xsec,), locked),
        call_ensures(XSec::<S>::is_destroyed, (xsec,), destroyed),
    ensures
        match xsec@ {
            StateView::Empty => !loaded && !initialized && locked && !destroyed,
            StateView::Uninitialized(_) => loaded && !initialized && locked && !destroyed,
            StateView::Locked(..) => loaded && initialized && locked && !destroyed,
            StateView::Unlocked(..) => loaded && initialized && !locked && !destroyed,
            StateView::Destroyed(_) => loaded && !initialized && locked && destroyed,
        },
{
}

/// To lock forgets the data key and nothing else; to lock again changes nothing.
pub proof fn law_locking<S>(xsec: &mut XSec<S>, result: XSecResult<()>)
    requires
        old(xsec).wf(),
        call_ensures(XSec::<S>::lock, (xsec,), result),
    ensures
        match old(xsec)@ {
            StateView::Unlocked(storage, m, _) => result is Ok && final(xsec)@ == StateView::Locked(
                storage,
                m,
            ),
            StateView::Empty => (result matches Err(e) && e is StorageNotLoaded) && final(xsec)@
                is Empty,
            other => result is Ok && final(xsec)@ == other,
        },
{
}

/// The storage comes back as it was handed in.
pub proof fn law_storage_returned<S>(xsec: XSec<S>, storage: Option<S>)
    requires
        call_ensures(XSec::<S>::into_storage, (xsec,), storage),
    ensures
        match xsec@ {
            StateView::Empty => storage is None,
            StateView::Uninitialized(s) => storage == Some(s),
            StateView::Locked(s, _) => storage == Some(s),
            StateView::Unlocked(s, _, _) => storage == Some(s),
            StateView::Destroyed(s) => storage == Some(s),
        },
{
}

/// A storage is loaded once. One without a blob is left uninitialized, one with a blob is
/// locked under the records that are in it; where the storage fails or its blob is none,
/// nothing is loaded.
pub proof fn law_loading<S: XSecStorage>(xsec: &mut XSec<S>, storage: S, result: XSecResult<()>)
    requires
        old(xsec).wf(),
        call_ensures(XSec::<S>::load, (xsec, storage), result),
    ensures
        !(old(xsec)@ is Empty) ==> (result matches Err(e) && e is AlreadyLoaded) && final(xsec)@
            == old(xsec)@,
        old(xsec)@ is Empty ==> exists|answer: XSecResult<Option<Vec<u8>>>|
            #[trigger] call_ensures(S::load, (&storage,), answer) && match answer {
                Err(reason) => (result matches Err(e) && e == reason) && final(xsec)@ is Empty,
                Ok(None) => result is Ok && final(xsec)@ == StateView::Uninitialized(storage),
                Ok(Some(blob)) => match result {
                    Ok(_) => final(xsec)@ matches StateView::Locked(s, m) && s == storage
                        && formats::is_blob(blob@, m.protectors, m.mac),
                    Err(_) => final(xsec)@ is Empty && forall|
                        records: Seq<RecordView>,
                        tag: Seq<u8>,
                    | !#[trigger] formats::is_blob(blob@, records, tag),
                },
            },
{
    if old(xsec)@ is Empty {
        let answer = choose|answer: XSecResult<Option<Vec<u8>>>| #[trigger]
            call_ensures(S::load, (&storage,), answer) && xsec::load_outcome(
                storage,
                answer,
                result,
                final(xsec)@,
            );
        if let Ok(Some(blob)) = answer {
            match result {
                Ok(_) => {
                    if let StateView::Locked(s, m) = final(xsec)@ {
                        formats::lemma_blob(blob@, m.protectors, m.mac);
                    }
                },
                Err(_) => {
                    assert forall|records: Seq<RecordView>, tag: Seq<u8>|
                        !#[trigger] formats::is_blob(blob@, records, tag) by {
                        formats::lemma_blob(blob@, records, tag);
                    }
                },
            }
        }
        assert(call_ensures(S::load, (&storage,), answer));
    }
}

/// A blob of records under a data key.
pub open spec fn blob_of(blob: Seq<u8>, records: Seq<RecordView>, key: Seq<u8>) -> bool {
    blob.len() >= 32 && formats::is_blob(
        blob,
        records,
        crypto::hmac_sha256(
            crypto::hkdf_sha256(None, key, encode_utf8("xsec:metadata-auth:v1"@)),
            blob.take(blob.len() - 32),
        ),
    )
}

/// The storage took a blob of records under a data key.
pub open spec fn was_taken<S: XSecStorage>(
    storage: S,
    records: Seq<RecordView>,
    key: Seq<u8>,
) -> bool {
    exists|data: &[u8], answer: XSecResult<()>|
        blob_of(data@, records, key) && answer is Ok && #[trigger] call_ensures(
            S::save,
            (&storage, data),
            answer,
        )
}

pub(crate) proof fn lemma_taken<S: XSecStorage>(
    storage: S,
    records: Seq<RecordView>,
    key: Seq<u8>,
)
    requires
        metadata::storable(records),
        xsec::save_accepted(storage, records, key),
        metadata::mac_of(key, metadata::authenticated_bytes(records)).len() == 32,
    ensures
        was_taken(storage, records, key),
{
    let saved = choose|saved: XSecResult<()>|
        saved is Ok && #[trigger] xsec::was_saved(storage, records, key, saved);
    let data = choose|data: &[u8]|
        data@ == metadata::encoded(records, key) && #[trigger] call_ensures(
            S::save,
            (&storage, data),
            saved,
        );
    let body = metadata::authenticated_bytes(records);
    let tag = metadata::mac_of(key, body);
    metadata::law_encoded_is_metadata(records, tag);
    formats::lemma_blob(data@, records, tag);
    assert(data@.take(data@.len() - 32) =~= body);
    assert(blob_of(data@, records, key));
}

/// Why a change failed: the protector gave no payload, or the storage did not take the records
/// with it, or no blob can hold them.
pub open spec fn change_failed<S: XSecStorage, P: XSecKeyProtector>(
    storage: S,
    protector: &P,
    key: Seq<u8>,
    changed: spec_fn(Seq<u8>, Seq<RecordView>) -> bool,
    reason: XSecError,
) -> bool {
    ||| xsec::was_wrapped(protector, key, XSecResult::<Vec<u8>>::Err(reason))
    ||| exists|payload: Seq<u8>, records: Seq<RecordView>|
        {
            &&& #[trigger] made(protector, key, payload)
            &&& #[trigger] changed(payload, records)
            &&& if formats::too_much(records) {
                reason is Corrupted
            } else {
                xsec::was_saved(storage, records, key, XSecResult::<()>::Err(reason))
            }
        }
}

/// A protector was handed the data key and made a payload of it.
pub open spec fn made<P: XSecKeyProtector>(protector: &P, key: Seq<u8>, payload: Seq<u8>) -> bool {
    exists|k: SecretKey, p: Vec<u8>|
        k@ == key && p@ == payload && #[trigger] call_ensures(
            P::wrap_key,
            (protector, &k),
            XSecResult::<Vec<u8>>::Ok(p),
        )
}

pub(crate) proof fn lemma_made<P: XSecKeyProtector>(protector: &P, key: Seq<u8>, payload: Vec<u8>)
    requires
        xsec::was_wrapped(protector, key, XSecResult::<Vec<u8>>::Ok(payload)),
    ensures
        made(protector, key, payload@),
{
    let k = choose|k: SecretKey|
        k@ == key && #[trigger] call_ensures(
            P::wrap_key,
            (protector, &k),
            XSecResult::<Vec<u8>>::Ok(payload),
        );
    assert(k@ == key);
}

/// A data key is made only where there is none. It is drawn at random, handed to the
/// protector, and at hand once the storage took a blob of this one protector; a failure
/// leaves everything as it was.
pub proof fn law_creation<S: XSecStorage, P: XSecKeyProtector>(
    xsec: &mut XSec<S>,
    protector: &P,
    result: XSecResult<()>,
)
    requires
        old(xsec).wf(),
        call_ensures(XSec::<S>::create::<P>, (xsec, protector), result),
    ensures
        result is Err ==> final(xsec)@ == old(xsec)@,
        old(xsec)@ is Empty ==> (result matches Err(e) && e is StorageNotLoaded),
        old(xsec)@ is Locked || old(xsec)@ is Unlocked || old(xsec)@ is Destroyed ==> (result
            matches Err(e) && e is AlreadyExists),
        old(xsec)@ matches StateView::Uninitialized(storage) ==> result is Ok ==> (
        final(xsec)@ matches StateView::Unlocked(s, m, key) && s == storage && crypto::drawn::<32>(
            key,
        ) && m.protectors.len() == 1 && m.protectors[0].kind == protector.kind_name() && made(
            protector,
            key,
            m.protectors[0].payload,
        ) && was_taken(s, m.protectors, key)),
        old(xsec)@ is Uninitialized && !formats::is_kind(protector.kind_name()) ==> (result
            matches Err(e) && e is Corrupted),
        old(xsec)@ matches StateView::Uninitialized(storage) ==> formats::is_kind(
            protector.kind_name(),
        ) ==> (result matches Err(e) ==> (e is Crypto && crypto::draw_failed::<32>()) || exists|
            key: Seq<u8>,
        |
            #[trigger] crypto::drawn::<32>(key) && change_failed(
                storage,
                protector,
                key,
                |payload: Seq<u8>, records: Seq<RecordView>|
                    records == seq![RecordView { kind: protector.kind_name(), payload }],
                e,
            )),
{
    formats::lemma_kind(protector.kind_name());
    if let (StateView::Uninitialized(storage), Err(e)) = (old(xsec)@, result) {
        if formats::is_kind(protector.kind_name()) && !(e is Crypto && crypto::draw_failed::<32>()) {
            lemma_creation_failed(storage, protector, e);
        }
    }
    if let StateView::Uninitialized(storage) = old(xsec)@ {
        if result is Ok {
            let (key, payload) = choose|key: Seq<u8>, payload: Vec<u8>|
                #![trigger xsec::was_wrapped(protector, key, XSecResult::<Vec<u8>>::Ok(payload))]
                {
                    let one = xsec::first_record(protector.kind_name(), payload@);
                    &&& crypto::drawn::<32>(key)
                    &&& xsec::was_wrapped(protector, key, XSecResult::<Vec<u8>>::Ok(payload))
                    &&& metadata::storable(one)
                    &&& xsec::save_accepted(storage, one, key)
                    &&& final(xsec)@ == StateView::Unlocked(
                        storage,
                        metadata::sealed_metadata(one, key),
                        key,
                    )
                };
            lemma_made(protector, key, payload);
            let one = xsec::first_record(protector.kind_name(), payload@);
            assert(final(xsec)@.wf());
            lemma_taken(storage, one, key);
            assert(one[0] == (RecordView { kind: protector.kind_name(), payload: payload@ }));
        }
    }
}

proof fn lemma_creation_failed<S: XSecStorage, P: XSecKeyProtector>(
    storage: S,
    protector: &P,
    e: XSecError,
)
    requires
        ({
            ||| exists|key: Seq<u8>| #[trigger]
                xsec::was_wrapped(protector, key, XSecResult::<Vec<u8>>::Err(e))
                    && crypto::drawn::<32>(key)
            ||| exists|key: Seq<u8>, payload: Vec<u8>|
                #![trigger xsec::was_wrapped(protector, key, XSecResult::<Vec<u8>>::Ok(payload))]
                {
                    let one = xsec::first_record(protector.kind_name(), payload@);
                    &&& crypto::drawn::<32>(key)
                    &&& xsec::was_wrapped(protector, key, XSecResult::<Vec<u8>>::Ok(payload))
                    &&& if metadata::storable(one) {
                        xsec::was_saved(storage, one, key, XSecResult::<()>::Err(e))
                    } else {
                        e is Corrupted
                    }
                }
        }),
    ensures
        exists|key: Seq<u8>| #[trigger]
            crypto::drawn::<32>(key) && change_failed(
                storage,
                protector,
                key,
                |payload: Seq<u8>, records: Seq<RecordView>|
                    records == seq![RecordView { kind: protector.kind_name(), payload }],
                e,
            ),
{
    let changed = |payload: Seq<u8>, records: Seq<RecordView>|
        records == seq![RecordView { kind: protector.kind_name(), payload }];
    if exists|key: Seq<u8>| #[trigger]
        xsec::was_wrapped(protector, key, XSecResult::<Vec<u8>>::Err(e)) && crypto::drawn::<32>(
            key,
        ) {
        let key = choose|key: Seq<u8>| #[trigger]
            xsec::was_wrapped(protector, key, XSecResult::<Vec<u8>>::Err(e)) && crypto::drawn::<
                32,
            >(key);
        assert(change_failed(storage, protector, key, changed, e));
        assert(crypto::drawn::<32>(key));
    } else {
        let (key, payload) = choose|key: Seq<u8>, payload: Vec<u8>|
            #![trigger xsec::was_wrapped(protector, key, XSecResult::<Vec<u8>>::Ok(payload))]
            {
                let one = xsec::first_record(protector.kind_name(), payload@);
                &&& crypto::drawn::<32>(key)
                &&& xsec::was_wrapped(protector, key, XSecResult::<Vec<u8>>::Ok(payload))
                &&& if metadata::storable(one) {
                    xsec::was_saved(storage, one, key, XSecResult::<()>::Err(e))
                } else {
                    e is Corrupted
                }
            };
        let one = xsec::first_record(protector.kind_name(), payload@);
        lemma_made(protector, key, payload);
        formats::lemma_too_much(one);
        assert(changed(payload@, one));
        assert(change_failed(storage, protector, key, changed, e));
        assert(crypto::drawn::<32>(key));
    }
}

/// A storage is unlocked where it is locked and has a payload of the protector's kind. The
/// key is the one that the protector finds in that payload, and it has to give the tag of the
/// metadata; nothing but the key is new. A failure leaves everything as it was.
pub proof fn law_unlocking<S: XSecStorage, P: XSecKeyProtector>(
    xsec: &mut XSec<S>,
    protector: &P,
    result: XSecResult<()>,
)
    requires
        old(xsec).wf(),
        call_ensures(XSec::<S>::unlock::<P>, (xsec, protector), result),
    ensures
        result is Err ==> final(xsec)@ == old(xsec)@,
        match old(xsec)@ {
            StateView::Empty => result matches Err(e) && e is StorageNotLoaded,
            StateView::Uninitialized(_) => result matches Err(e) && e is NotInitialized,
            StateView::Unlocked(..) => result matches Err(e) && e is AlreadyUnlocked,
            StateView::Destroyed(_) => result matches Err(e) && e is Destroyed,
            StateView::Locked(storage, m) => if forall|i: int|
                0 <= i < m.protectors.len() ==> (#[trigger] m.protectors[i]).kind
                    != protector.kind_name() {
                result matches Err(e) && e is ProtectorNotFound
            } else {
                &&& result matches Err(e) ==> exists|i: int, answer: XSecResult<SecretKey>|
                    {
                        &&& 0 <= i < m.protectors.len()
                        &&& (#[trigger] m.protectors[i]).kind == protector.kind_name()
                        &&& #[trigger] xsec::was_unwrapped(
                            protector,
                            m.protectors[i].payload,
                            answer,
                        )
                        &&& match answer {
                            Err(reason) => e == reason,
                            Ok(key) => e is Corrupted && m.mac != crypto::hmac_sha256(
                                crypto::hkdf_sha256(
                                    None,
                                    key@,
                                    encode_utf8("xsec:metadata-auth:v1"@),
                                ),
                                m.authenticated,
                            ),
                        }
                    }
                &&& result is Ok ==> (final(xsec)@ matches StateView::Unlocked(s, n, key) && s == storage
                    && n == m && m.mac == crypto::hmac_sha256(
                    crypto::hkdf_sha256(None, key, encode_utf8("xsec:metadata-auth:v1"@)),
                    m.authenticated,
                ) && exists|i: int, k: SecretKey|
                    0 <= i < m.protectors.len() && k@ == key && (#[trigger] m.protectors[i]).kind
                        == protector.kind_name() && #[trigger] xsec::was_unwrapped(
                        protector,
                        m.protectors[i].payload,
                        XSecResult::<SecretKey>::Ok(k),
                    ))
            },
        },
{
    if let StateView::Locked(storage, m) = old(xsec)@ {
        let kind = protector.kind_name();
        if m.has_kind(kind) {
            let (i, unwrapped) = choose|i: int, unwrapped: XSecResult<SecretKey>|
                #![trigger m.first_of_kind(kind, i), xsec::was_unwrapped(protector, m.protectors[i].payload, unwrapped)]
                m.first_of_kind(kind, i) && xsec::was_unwrapped(
                    protector,
                    m.protectors[i].payload,
                    unwrapped,
                ) && xsec::unlock_outcome(storage, m, unwrapped, result, final(xsec)@);
            assert(m.protectors[i].kind == kind);
            if result is Ok {
                let k = unwrapped->Ok_0;
                assert(xsec::was_unwrapped(
                    protector,
                    m.protectors[i].payload,
                    XSecResult::<SecretKey>::Ok(k),
                ));
            }
        }
    }
}

/// The storage has a protector of a kind.
pub open spec fn holds(m: MetadataView, kind: Seq<char>) -> bool {
    exists|i: int| 0 <= i < m.protectors.len() && (#[trigger] m.protectors[i]).kind == kind
}

/// Without a data key at hand no protector is added, removed or replaced, and nothing
/// changes.
pub proof fn law_changes_need_key<S: XSecStorage, P: XSecKeyProtector>(
    a: &mut XSec<S>,
    b: &mut XSec<S>,
    c: &mut XSec<S>,
    kind: &str,
    protector: &P,
    added: XSecResult<()>,
    removed: XSecResult<()>,
    replaced: XSecResult<()>,
)
    requires
        old(a).wf() && old(b).wf() && old(c).wf(),
        call_ensures(XSec::<S>::add_key_protector::<P>, (a, protector), added),
        call_ensures(XSec::<S>::remove_key_protector, (b, kind), removed),
        call_ensures(XSec::<S>::replace_key_protector::<P>, (c, kind, protector), replaced),
    ensures
        !(old(a)@ is Unlocked) ==> (added matches Err(e) && e is Locked) && final(a)@ == old(a)@,
        !(old(b)@ is Unlocked) ==> (removed matches Err(e) && e is Locked) && final(b)@ == old(b)@,
        !(old(c)@ is Unlocked) ==> (replaced matches Err(e) && e is Locked) && final(c)@
            == old(c)@,
{
}

/// What was made of the key where a change failed behind that.
proof fn lemma_change_failed<S: XSecStorage, P: XSecKeyProtector>(
    before: StateView<S>,
    protector: &P,
    change: spec_fn(Seq<u8>) -> Seq<RecordView>,
    result: XSecResult<()>,
    after: StateView<S>,
) -> (payload: Seq<u8>)
    requires
        xsec::change_outcome(before, protector, change, result, after),
        result is Err,
        !xsec::was_wrapped(
            protector,
            before.key()->Ok_0,
            XSecResult::<Vec<u8>>::Err(result->Err_0),
        ),
    ensures
        before matches StateView::Unlocked(storage, m, key) && made(protector, key, payload)
            && if formats::too_much(change(payload)) {
            result->Err_0 is Corrupted
        } else {
            xsec::was_saved(storage, change(payload), key, XSecResult::<()>::Err(result->Err_0))
        },
{
    let (storage, key) = (before.storage()->Some_0, before.key()->Ok_0);
    let e = result->Err_0;
    let payload = choose|payload: Vec<u8>|
        #![trigger xsec::was_wrapped(protector, key, XSecResult::<Vec<u8>>::Ok(payload))]
        {
            let records = change(payload@);
            &&& xsec::was_wrapped(protector, key, XSecResult::<Vec<u8>>::Ok(payload))
            &&& if metadata::storable(records) {
                xsec::was_saved(storage, records, key, XSecResult::<()>::Err(e))
            } else {
                e is Corrupted
            }
        };
    lemma_made(protector, key, payload);
    formats::lemma_too_much(change(payload@));
    payload@
}

/// A protector is added beside the others: the records are those that were, and one with its
/// kind and what it made of the same data key. The storage took them, in the order of their
/// kinds. A kind that is taken is refused; a failure leaves everything as it was.
pub proof fn law_protector_added<S: XSecStorage, P: XSecKeyProtector>(
    xsec: &mut XSec<S>,
    protector: &P,
    result: XSecResult<()>,
)
    requires
        old(xsec).wf(),
        old(xsec)@ is Unlocked,
        call_ensures(XSec::<S>::add_key_protector::<P>, (xsec, protector), result),
    ensures
        result is Err ==> final(xsec)@ == old(xsec)@,
        old(xsec)@ matches StateView::Unlocked(storage, m, key) && {
            &&& holds(m, protector.kind_name()) ==> (result matches Err(e) && e
                is ProtectorAlreadyExists)
            &&& result is Ok ==> (final(xsec)@ matches StateView::Unlocked(s, n, k) && s == storage
                && k == key && formats::may_be_held(n.protectors) && was_taken(
                s,
                n.protectors,
                key,
            ) && exists|payload: Seq<u8>| #[trigger]
                made(protector, key, payload) && n.protectors.to_multiset()
                    == m.protectors.to_multiset().insert(
                    RecordView { kind: protector.kind_name(), payload },
                ))
            &&& !holds(m, protector.kind_name()) ==> (result matches Err(e) ==> change_failed(
                storage,
                protector,
                key,
                |payload: Seq<u8>, records: Seq<RecordView>|
                    metadata::ascending(records) && records.to_multiset()
                        == m.protectors.to_multiset().insert(
                        RecordView { kind: protector.kind_name(), payload },
                    ),
                e,
            ))
        },
{
    broadcast use vstd::seq_lib::group_to_multiset_ensures;

    if let StateView::Unlocked(storage, m, key) = old(xsec)@ {
        let kind = protector.kind_name();
        if holds(m, kind) {
            assert(m.has_kind(kind));
        } else if let Err(e) = result {
            let changed = |payload: Seq<u8>, records: Seq<RecordView>|
                metadata::ascending(records) && records.to_multiset()
                    == m.protectors.to_multiset().insert(RecordView { kind, payload });
            if !xsec::was_wrapped(protector, key, XSecResult::<Vec<u8>>::Err(e)) {
                let change = |payload: Seq<u8>| xsec::added(m, kind, payload);
                let payload = lemma_change_failed(
                    old(xsec)@,
                    protector,
                    change,
                    result,
                    final(xsec)@,
                );
                let records = xsec::added(m, kind, payload);
                metadata::law_sorted_records(m.protectors.push(RecordView { kind, payload }));
                assert(changed(payload, records));
            }
            assert(change_failed(storage, protector, key, changed, e));
        }
        if result is Ok {
            let change = |payload: Seq<u8>| xsec::added(m, kind, payload);
            let payload = choose|payload: Vec<u8>|
                #![trigger xsec::was_wrapped(protector, key, XSecResult::<Vec<u8>>::Ok(payload))]
                {
                    let records = change(payload@);
                    &&& xsec::was_wrapped(protector, key, XSecResult::<Vec<u8>>::Ok(payload))
                    &&& metadata::storable(records)
                    &&& xsec::save_accepted(storage, records, key)
                    &&& final(xsec)@ == StateView::Unlocked(
                        storage,
                        metadata::sealed_metadata(records, key),
                        key,
                    )
                };
            let records = xsec::added(m, kind, payload@);
            lemma_made(protector, key, payload);
            assert(final(xsec)@.wf());
            lemma_taken(storage, records, key);
            formats::lemma_held(records);
            metadata::law_sorted_records(m.protectors.push(RecordView { kind, payload: payload@ }));
        }
    }
}

/// The records that are left without a kind.
proof fn lemma_left(records: Seq<RecordView>, kind: Seq<char>, record: RecordView)
    ensures
        metadata::without_kind(records, kind).contains(record) == (records.contains(record)
            && record.kind != kind),
    decreases records.len(),
{
    if records.len() > 0 {
        let front = records.drop_last();
        lemma_left(front, kind, record);
        let rest = metadata::without_kind(front, kind);
        if records.contains(record) {
            let i = records.index_of(record);
            if i < front.len() {
                assert(front[i] == record);
            }
        }
        if front.contains(record) {
            let i = front.index_of(record);
            assert(records[i] == record);
        }
        assert(records[records.len() - 1] == records.last());
        if records.last().kind != kind {
            let all = rest.push(records.last());
            if rest.contains(record) {
                let i = rest.index_of(record);
                assert(all[i] == record);
            }
            if all.contains(record) {
                let i = all.index_of(record);
                if i < rest.len() {
                    assert(rest[i] == record);
                }
            }
            assert(all[rest.len() as int] == records.last());
        }
    }
}

/// A protector is removed and no other: exactly the records of other kinds are left, and the
/// storage took them. The data key stays the same. The last protector is not removed, and
/// neither is one that is not there; a failure leaves everything as it was.
pub proof fn law_protector_removed<S: XSecStorage>(
    xsec: &mut XSec<S>,
    kind: &str,
    result: XSecResult<()>,
)
    requires
        old(xsec).wf(),
        old(xsec)@ is Unlocked,
        call_ensures(XSec::<S>::remove_key_protector, (xsec, kind), result),
    ensures
        result is Err ==> final(xsec)@ == old(xsec)@,
        old(xsec)@ matches StateView::Unlocked(storage, m, key) && {
            &&& !holds(m, kind@) ==> (result matches Err(e) && e is ProtectorNotFound)
            &&& holds(m, kind@) && m.protectors.len() == 1 ==> (result matches Err(e) && e
                is LastProtector)
            &&& result is Ok ==> (final(xsec)@ matches StateView::Unlocked(s, n, k) && s == storage
                && k == key && formats::may_be_held(n.protectors) && was_taken(
                s,
                n.protectors,
                key,
            ) && forall|record: RecordView| #[trigger]
                n.protectors.contains(record) == (m.protectors.contains(record) && record.kind
                    != kind@))
            &&& holds(m, kind@) && m.protectors.len() > 1 ==> (result matches Err(e) ==> exists|
                left: Seq<RecordView>,
            |
                #[trigger] xsec::was_saved(storage, left, key, XSecResult::<()>::Err(e)) && forall|
                    record: RecordView,
                | #[trigger] left.contains(record) == (m.protectors.contains(record) && record.kind
                    != kind@))
        },
{
    if let StateView::Unlocked(storage, m, key) = old(xsec)@ {
        let rest = metadata::without_kind(m.protectors, kind@);
        assert forall|record: RecordView| #[trigger] rest.contains(record) == (
        m.protectors.contains(record) && record.kind != kind@) by {
            lemma_left(m.protectors, kind@, record);
        }
        if holds(m, kind@) {
            assert(m.has_kind(kind@));
            if m.protectors.len() > 1 {
                if let Err(e) = result {
                    let saved = choose|saved: XSecResult<()>| #[trigger]
                        xsec::was_saved(storage, rest, key, saved) && xsec::save_outcome(
                            old(xsec)@,
                            StateView::Unlocked(storage, metadata::sealed_metadata(rest, key), key),
                            saved,
                            result,
                            final(xsec)@,
                        );
                    assert(saved == XSecResult::<()>::Err(e));
                }
            }
        }
        if result is Ok {
            let saved = choose|saved: XSecResult<()>| #[trigger]
                xsec::was_saved(storage, rest, key, saved) && xsec::save_outcome(
                    old(xsec)@,
                    StateView::Unlocked(storage, metadata::sealed_metadata(rest, key), key),
                    saved,
                    result,
                    final(xsec)@,
                );
            assert(final(xsec)@.wf());
            assert(xsec::save_accepted(storage, rest, key));
            lemma_taken(storage, rest, key);
            formats::lemma_held(rest);
        }
    }
}

/// A protector takes the place of another: the records of other kinds are left, and one with
/// the new protector's kind and what it made of the same data key is added, in one change that
/// the storage took. The old kind has to be there, and the new one may not be that of a third;
/// a failure leaves everything as it was.
pub proof fn law_protector_replaced<S: XSecStorage, P: XSecKeyProtector>(
    xsec: &mut XSec<S>,
    kind: &str,
    protector: &P,
    result: XSecResult<()>,
)
    requires
        old(xsec).wf(),
        old(xsec)@ is Unlocked,
        call_ensures(XSec::<S>::replace_key_protector::<P>, (xsec, kind, protector), result),
    ensures
        result is Err ==> final(xsec)@ == old(xsec)@,
        old(xsec)@ matches StateView::Unlocked(storage, m, key) && {
            &&& !holds(m, kind@) ==> (result matches Err(e) && e is ProtectorNotFound)
            &&& holds(m, kind@) && protector.kind_name() != kind@ && holds(
                m,
                protector.kind_name(),
            ) ==> (result matches Err(e) && e is ProtectorAlreadyExists)
            &&& result is Ok ==> (final(xsec)@ matches StateView::Unlocked(s, n, k) && s == storage
                && k == key && formats::may_be_held(n.protectors) && was_taken(
                s,
                n.protectors,
                key,
            ) && exists|payload: Seq<u8>| #[trigger]
                made(protector, key, payload) && forall|record: RecordView| #[trigger]
                    n.protectors.contains(record) == ((m.protectors.contains(record) && record.kind
                        != kind@) || record == (RecordView {
                        kind: protector.kind_name(),
                        payload,
                    })))
            &&& holds(m, kind@) && (protector.kind_name() == kind@ || !holds(
                m,
                protector.kind_name(),
            )) ==> (result matches Err(e) ==> change_failed(
                storage,
                protector,
                key,
                |payload: Seq<u8>, records: Seq<RecordView>|
                    metadata::ascending(records) && forall|record: RecordView| #[trigger]
                        records.contains(record) == ((m.protectors.contains(record) && record.kind
                            != kind@) || record == (RecordView {
                            kind: protector.kind_name(),
                            payload,
                        })),
                e,
            ))
        },
{

    if let StateView::Unlocked(storage, m, key) = old(xsec)@ {
        let new_kind = protector.kind_name();
        if holds(m, kind@) {
            assert(m.has_kind(kind@));
        }
        if holds(m, new_kind) {
            assert(m.has_kind(new_kind));
        }
        if let Err(e) = result {
            if holds(m, kind@) && (new_kind == kind@ || !holds(m, new_kind)) {
                let changed = |payload: Seq<u8>, records: Seq<RecordView>|
                    metadata::ascending(records) && forall|record: RecordView| #[trigger]
                        records.contains(record) == ((m.protectors.contains(record) && record.kind
                            != kind@) || record == (RecordView { kind: new_kind, payload }));
                if !xsec::was_wrapped(protector, key, XSecResult::<Vec<u8>>::Err(e)) {
                    let change = |payload: Seq<u8>| xsec::replaced(m, kind@, new_kind, payload);
                    let payload = lemma_change_failed(
                        old(xsec)@,
                        protector,
                        change,
                        result,
                        final(xsec)@,
                    );
                    lemma_replaced(m, kind@, RecordView { kind: new_kind, payload });
                    assert(changed(payload, change(payload)));
                }
                assert(change_failed(storage, protector, key, changed, e));
            }
        }
        if result is Ok {
            let change = |payload: Seq<u8>| xsec::replaced(m, kind@, new_kind, payload);
            let payload = choose|payload: Vec<u8>|
                #![trigger xsec::was_wrapped(protector, key, XSecResult::<Vec<u8>>::Ok(payload))]
                {
                    let records = change(payload@);
                    &&& xsec::was_wrapped(protector, key, XSecResult::<Vec<u8>>::Ok(payload))
                    &&& metadata::storable(records)
                    &&& xsec::save_accepted(storage, records, key)
                    &&& final(xsec)@ == StateView::Unlocked(
                        storage,
                        metadata::sealed_metadata(records, key),
                        key,
                    )
                };
            let records = xsec::replaced(m, kind@, new_kind, payload@);
            lemma_made(protector, key, payload);
            assert(final(xsec)@.wf());
            lemma_taken(storage, records, key);
            formats::lemma_held(records);
            lemma_replaced(m, kind@, RecordView { kind: new_kind, payload: payload@ });
        }
    }
}

/// The records once one took the place of a kind.
proof fn lemma_replaced(m: MetadataView, kind: Seq<char>, new: RecordView)
    ensures
        ({
            let records = xsec::replaced(m, kind, new.kind, new.payload);
            &&& metadata::ascending(records)
            &&& forall|record: RecordView| #[trigger]
                records.contains(record) == ((m.protectors.contains(record) && record.kind != kind)
                    || record == new)
        }),
{
    broadcast use vstd::seq_lib::group_to_multiset_ensures;

    let records = xsec::replaced(m, kind, new.kind, new.payload);
    let rest = metadata::without_kind(m.protectors, kind);
    metadata::law_sorted_records(rest.push(new));
    assert forall|record: RecordView| #[trigger] records.contains(record) == ((
    m.protectors.contains(record) && record.kind != kind) || record == new) by {
        lemma_left(m.protectors, kind, record);
        assert(records.contains(record) == (records.to_multiset().count(record) > 0));
        assert(rest.push(new).contains(record) == (rest.push(new).to_multiset().count(record) > 0));
        if rest.contains(record) {
            let i = rest.index_of(record);
            assert(rest.push(new)[i] == record);
        }
        if rest.push(new).contains(record) {
            let i = rest.push(new).index_of(record);
            if i < rest.len() {
                assert(rest[i] == record);
            }
        }
        assert(rest.push(new)[rest.len() as int] == new);
    }
}

/// To destroy deletes the blob and forgets the key, where the storage did its part; what is
/// destroyed stays so, and a failure leaves everything as it was.
pub proof fn law_destruction<S: XSecStorage>(xsec: &mut XSec<S>, result: XSecResult<()>)
    requires
        old(xsec).wf(),
        call_ensures(XSec::<S>::destroy, (xsec,), result),
    ensures
        result is Err ==> final(xsec)@ == old(xsec)@,
        match old(xsec)@ {
            StateView::Empty => result matches Err(e) && e is StorageNotLoaded,
            StateView::Destroyed(storage) => result is Ok && final(xsec)@ == StateView::Destroyed(
                storage,
            ),
            StateView::Uninitialized(storage) => ended(storage, result, final(xsec)@),
            StateView::Locked(storage, _) => ended(storage, result, final(xsec)@),
            StateView::Unlocked(storage, _, _) => ended(storage, result, final(xsec)@),
        },
{
    if !(old(xsec)@ is Empty) && !(old(xsec)@ is Destroyed) {
        let storage = old(xsec)@.storage()->Some_0;
        let deleted = choose|deleted: XSecResult<()>| #[trigger]
            xsec::was_deleted(storage, deleted) && xsec::save_outcome(
                old(xsec)@,
                StateView::Destroyed(storage),
                deleted,
                result,
                final(xsec)@,
            );
        assert(call_ensures(S::delete, (&storage,), deleted));
    }
}

/// The storage was asked to delete its blob, and what it answered is what came of it.
pub open spec fn ended<S: XSecStorage>(
    storage: S,
    result: XSecResult<()>,
    after: StateView<S>,
) -> bool {
    exists|answer: XSecResult<()>| #[trigger]
        call_ensures(S::delete, (&storage,), answer) && match answer {
            Ok(_) => result is Ok && after == StateView::Destroyed(storage),
            Err(reason) => result matches Err(e) && e == reason,
        }
}

/// Why no data key is at hand.
pub open spec fn keyless<S>(state: StateView<S>, e: XSecError) -> bool {
    match state {
        StateView::Empty => e is StorageNotLoaded,
        StateView::Uninitialized(_) => e is NotInitialized,
        StateView::Locked(..) => e is Locked,
        StateView::Destroyed(_) => e is Destroyed,
        StateView::Unlocked(..) => false,
    }
}

/// A message is encrypted with the data key at hand, under a nonce that was drawn for it: a
/// header with the nonce, and what the cipher makes of the message and of the data that is
/// bound to it, 55 bytes more than the message. Without a key the state says why.
pub proof fn law_encryption<S>(
    xsec: &XSec<S>,
    message: &[u8],
    bound: &[u8],
    result: XSecResult<Vec<u8>>,
)
    requires
        message@.len() + 16 <= isize::MAX,
        call_ensures(XSec::<S>::encrypt_with_aad, (xsec, message, bound), result),
    ensures
        match xsec@ {
            StateView::Unlocked(_, _, key) => match result {
                Ok(sealed) => {
                    &&& sealed@.len() == message@.len() + 55
                    &&& exists|nonce: Seq<u8>|
                        {
                            &&& crypto::drawn::<12>(nonce)
                            &&& #[trigger] formats::is_header(sealed@.take(39), nonce)
                            &&& sealed@.skip(39) == crypto::aes256_gcm_seal(
                                key,
                                nonce,
                                message@,
                                ciphertext::combined_aad(sealed@.take(39), bound@),
                            )
                        }
                },
                Err(e) => e is Crypto && (crypto::draw_failed::<12>() || message@.len()
                    > 68_719_476_704 || bound@.len() + 67 > 0x1FFF_FFFF_FFFF_FFFF || bound@.len()
                    + 67 > usize::MAX),
            },
            state => result matches Err(e) && keyless(state, e),
        },
{
    if let StateView::Unlocked(_, _, key) = xsec@ {
        if let Ok(sealed) = result {
            let nonce = choose|nonce: Seq<u8>|
                nonce.len() == 12 && crypto::drawn::<12>(nonce) && sealed@
                    == #[trigger] ciphertext::sealed(key, nonce, message@, bound@);
            let head = ciphertext::header_bytes(nonce);
            ciphertext::law_header_round_trip(nonce);
            assert(sealed@.take(39) =~= head);
            formats::lemma_header(nonce);
            assert(sealed@.skip(39) =~= crypto::aes256_gcm_seal(
                key,
                nonce,
                message@,
                ciphertext::combined_aad(head, bound@),
            ));
        }
    }
}

/// What is decrypted with the data key at hand is what the cipher opens, under the nonce and
/// with the header of the ciphertext. What is no ciphertext, and what does not open, is
/// refused. Without a key the state says why.
pub proof fn law_decryption<S>(
    xsec: &XSec<S>,
    input: &[u8],
    bound: &[u8],
    result: XSecResult<ZeroizingBytes>,
)
    requires
        bound@.len() <= 0x7FFF_FFFF,
        call_ensures(XSec::<S>::decrypt_with_aad, (xsec, input, bound), result),
    ensures
        match xsec@ {
            StateView::Unlocked(_, _, key) => {
                &&& input@.len() < 55 ==> result is Err
                &&& forall|nonce: Seq<u8>|
                    input@.len() >= 55 && #[trigger] formats::is_header(input@.take(39), nonce)
                        ==> match crypto::aes256_gcm_open(
                        key,
                        nonce,
                        input@.skip(39),
                        ciphertext::combined_aad(input@.take(39), bound@),
                    ) {
                        Some(message) => result matches Ok(p) && p@ == message,
                        None => result matches Err(e) && e is InvalidCiphertext,
                    }
                &&& (forall|nonce: Seq<u8>| !#[trigger] formats::is_header(
                    input@.take(39),
                    nonce,
                )) ==> result is Err
            },
            state => result matches Err(e) && keyless(state, e),
        },
{
    if let StateView::Unlocked(_, _, key) = xsec@ {
        assert(xsec::bindable(bound@));
        let raw = input@.take(39);
        formats::lemma_header_read(raw);
        assert forall|nonce: Seq<u8>|
            input@.len() >= 55 && #[trigger] formats::is_header(raw, nonce) implies match crypto::aes256_gcm_open(
            key,
            nonce,
            input@.skip(39),
            ciphertext::combined_aad(raw, bound@),
        ) {
            Some(message) => result matches Ok(p) && p@ == message,
            None => result matches Err(e) && e is InvalidCiphertext,
        } by {
            ciphertext::law_header_canonical(raw);
        }
        if input@.len() >= 39 {
            if let Ok(nonce) = ciphertext::read_header(raw) {
                assert(formats::is_header(raw, nonce));
            }
        }
    }
}

/// To encrypt or decrypt without bound data is to bind none.
pub proof fn law_nothing_bound<S>(
    xsec: &XSec<S>,
    message: &[u8],
    sealed: Vec<u8>,
    other: &XSec<S>,
    result: XSecResult<ZeroizingBytes>,
    input: &[u8],
)
    requires
        message@.len() + 16 <= isize::MAX,
        call_ensures(XSec::<S>::encrypt, (xsec, message), XSecResult::<Vec<u8>>::Ok(sealed)),
        input@ == sealed@,
        other@.key() == xsec@.key(),
        call_ensures(XSec::<S>::decrypt, (other, input), result),
    ensures
        result matches Ok(p) && p@ == message@,
{
}

/// What was encrypted is decrypted again, under the same key and with the same bound data.
pub proof fn law_message_round_trip<S, T>(
    xsec: &XSec<S>,
    message: &[u8],
    bound: &[u8],
    sealed: Vec<u8>,
    other: &XSec<T>,
    input: &[u8],
    result: XSecResult<ZeroizingBytes>,
)
    requires
        message@.len() + 16 <= isize::MAX,
        call_ensures(
            XSec::<S>::encrypt_with_aad,
            (xsec, message, bound),
            XSecResult::<Vec<u8>>::Ok(sealed),
        ),
        input@ == sealed@,
        other@.key() == xsec@.key(),
        call_ensures(XSec::<T>::decrypt_with_aad, (other, input, bound), result),
    ensures
        result matches Ok(p) && p@ == message@,
{
}

/// The kinds of the protectors are told in the order in which they are held, and the payload
/// These are the kinds of the protectors, in their order, and this is the payload of one.
pub open spec fn are_told(
    m: MetadataView,
    kinds: Seq<&str>,
    kind: Seq<char>,
    payload: Option<&[u8]>,
) -> bool {
    &&& kinds.len() == m.protectors.len()
    &&& forall|i: int| 0 <= i < kinds.len() ==> (#[trigger] kinds[i])@ == m.protectors[i].kind
    &&& payload is Some == holds(m, kind)
    &&& forall|i: int|
        0 <= i < m.protectors.len() && (#[trigger] m.protectors[i]).kind == kind ==> (
        payload matches Some(p) && p@ == m.protectors[i].payload)
}

/// of a kind is the one that is held under it.
pub proof fn law_protectors_told<S>(
    xsec: &XSec<S>,
    kinds: Vec<&str>,
    kind: &str,
    payload: Option<&[u8]>,
)
    requires
        xsec.wf(),
        call_ensures(XSec::<S>::key_protector_kinds, (xsec,), kinds),
        call_ensures(XSec::<S>::key_protector_payload, (xsec, kind), payload),
    ensures
        match xsec@ {
            StateView::Locked(_, m) => are_told(m, kinds@, kind@, payload),
            StateView::Unlocked(_, m, _) => are_told(m, kinds@, kind@, payload),
            _ => kinds@.len() == 0 && payload is None,
        },
{
    if let Some(m) = xsec@.metadata() {
        assert forall|i: int|
            0 <= i < m.protectors.len() && (#[trigger] m.protectors[i]).kind == kind@ implies (
        payload matches Some(p) && p@ == m.protectors[i].payload) by {
            assert(m.has_kind(kind@));
            let j = choose|j: int| #[trigger]
                m.first_of_kind(kind@, j) && payload->Some_0@ == m.protectors[j].payload;
            if j < i {
                assert(metadata::kind_less(m.protectors[j].kind, m.protectors[i].kind));
                formats::lemma_not_before_itself(encode_utf8(kind@));
            }
        }
        if holds(m, kind@) {
            assert(m.has_kind(kind@));
        }
    }
}

/// What the storage answered decides: where it took a change, the change is in force; where it
/// did not, its error is handed on and everything is as before.
pub proof fn law_change_finished<S>(
    a: &mut XSec<S>,
    metadata: Metadata,
    key: SecretKey,
    b: &mut XSec<S>,
    changed: Metadata,
    c: &mut XSec<S>,
    answer: XSecResult<()>,
    created: XSecResult<()>,
    result: XSecResult<()>,
    destroyed: XSecResult<()>,
)
    requires
        call_ensures(XSec::<S>::finish_create, (a, metadata, key, answer), created),
        old(a)@ is Uninitialized,
        call_ensures(XSec::<S>::finish_change, (b, changed, answer), result),
        old(b)@ is Unlocked,
        call_ensures(XSec::<S>::finish_destroy, (c, answer), destroyed),
        !(old(c)@ is Empty),
    ensures
        answer matches Err(reason) ==> {
            &&& created == XSecResult::<()>::Err(reason)
            &&& result == XSecResult::<()>::Err(reason)
            &&& destroyed == XSecResult::<()>::Err(reason)
            &&& final(a)@ == old(a)@
            &&& final(b)@ == old(b)@
            &&& final(c)@ == old(c)@
        },
        answer is Ok ==> created is Ok && result is Ok && destroyed is Ok && final(c)@ is Destroyed,
        answer is Ok ==> (old(a)@ matches StateView::Uninitialized(storage) && final(a)@
            == StateView::Unlocked(storage, metadata@, key@)),
        answer is Ok ==> (old(b)@ matches StateView::Unlocked(storage, _, k) && final(b)@
            == StateView::Unlocked(storage, changed@, k)),
        answer is Ok ==> match old(c)@ {
            StateView::Empty => true,
            StateView::Uninitialized(storage) => final(c)@ == StateView::Destroyed(storage),
            StateView::Locked(storage, _) => final(c)@ == StateView::Destroyed(storage),
            StateView::Unlocked(storage, _, _) => final(c)@ == StateView::Destroyed(storage),
            StateView::Destroyed(storage) => final(c)@ == StateView::Destroyed(storage),
        },
{
}

/// A key that was unwrapped is tried on the stored tag: it unlocks where it makes that tag, and
/// is refused as corruption where it does not. Where none was unwrapped, that is the error.
/// What is not unlocked stays locked, and nothing stored changes.
pub proof fn law_unlock_finished<S>(
    xsec: &mut XSec<S>,
    unwrapped: XSecResult<SecretKey>,
    result: XSecResult<()>,
)
    requires
        call_ensures(XSec::<S>::finish_unlock, (xsec, unwrapped), result),
        old(xsec)@ is Locked,
    ensures
        old(xsec)@ matches StateView::Locked(storage, m) && match unwrapped {
            Err(reason) => result == XSecResult::<()>::Err(reason) && final(xsec)@ == old(xsec)@,
            Ok(key) => if m.mac == crypto::hmac_sha256(
                crypto::hkdf_sha256(None, key@, encode_utf8("xsec:metadata-auth:v1"@)),
                m.authenticated,
            ) {
                result is Ok && final(xsec)@ == StateView::Unlocked(storage, m, key@)
            } else {
                result == XSecResult::<()>::Err(XSecError::Corrupted) && final(xsec)@ == old(xsec)@
            },
        },
{
}

/// The metadata of a first protector is drafted if its kind is one and its payload has at most
/// 65536 bytes: the one record, under the blob and the tag that the key makes.
pub proof fn law_first_draft(
    kind: &str,
    payload: Vec<u8>,
    key: &SecretKey,
    draft: XSecResult<(Metadata, Vec<u8>)>,
)
    requires
        call_ensures(draft_metadata, (kind, payload, key), draft),
    ensures
        draft is Ok == (formats::is_kind(kind@) && payload@.len() <= 65_536),
        draft matches Err(e) ==> e is Corrupted,
        draft matches Ok(d) ==> {
            let one = seq![RecordView { kind: kind@, payload: payload@ }];
            &&& blob_of(d.1@, one, key@)
            &&& d.0@.protectors == one
            &&& d.0@.authenticated == d.1@.take(d.1@.len() - 32)
            &&& d.0@.mac == d.1@.skip(d.1@.len() - 32)
        },
{
    let one = seq![RecordView { kind: kind@, payload: payload@ }];
    formats::lemma_held(one);
    formats::lemma_too_much(one);
    formats::lemma_kind(kind@);
    assert(one.drop_last() =~= Seq::<RecordView>::empty());
    assert(one.last() == RecordView { kind: kind@, payload: payload@ });
    reveal_with_fuel(metadata::records_bytes, 2);
    assert(metadata::valid_record(one[0]) ==> formats::may_be_held(one));
    assert(formats::may_be_held(one) ==> metadata::valid_record(one[0]));
    if formats::may_be_held(one) {
        assert(encode_utf8(one[0].kind).len() <= 128);
        assert(metadata::records_bytes(one).len() + 44 <= 1_048_576);
    }
    if let Ok(d) = draft {
        let body = metadata::authenticated_bytes(one);
        let tag = metadata::mac_of(key@, body);
        metadata::law_encoded_is_metadata(one, tag);
        formats::lemma_blob(d.1@, one, tag);
        assert(d.1@.take(d.1@.len() - 32) =~= body);
        assert(d.1@.skip(d.1@.len() - 32) =~= tag);
    }
}

/// What is shown for each error.
pub proof fn law_errors_shown(error: XSecError, text: String)
    requires
        call_ensures(XSecError::message, (&error,), text),
    ensures
        match error {
            XSecError::NotFound => text@ == "XSec metadata was not found"@,
            XSecError::AlreadyExists => text@ == "XSec metadata already exists"@,
            XSecError::StorageNotLoaded => text@ == "XSec storage has not been loaded"@,
            XSecError::AlreadyLoaded => text@ == "XSec storage has already been loaded"@,
            XSecError::NotInitialized => text@ == "XSec is not initialized"@,
            XSecError::Locked => text@ == "XSec is locked"@,
            XSecError::Destroyed => text@ == "XSec has been destroyed"@,
            XSecError::AlreadyUnlocked => text@ == "XSec is already unlocked"@,
            XSecError::AuthenticationFailed => text@ == "authentication failed"@,
            XSecError::AuthenticationCancelled => text@ == "authentication was cancelled"@,
            XSecError::WindowsHelloNotSupported => text@ == "Windows Hello is not supported"@,
            XSecError::WindowsHelloNotConfigured => text@ == "Windows Hello is not configured"@,
            XSecError::ProviderNotSupported => text@
                == "the cryptographic provider does not support required user verification"@,
            XSecError::UserVerificationRequired => text@ == "user verification is required"@,
            XSecError::SystemProtectorUnavailable => text@
                == "the system protector is unavailable"@,
            XSecError::SystemAuthenticationNotConfigured => text@
                == "system authentication is not configured"@,
            XSecError::SystemKeyNotFound => text@ == "the system key was not found"@,
            XSecError::SystemKeyInvalidated => text@ == "the system key has been invalidated"@,
            XSecError::IncompatibleSystemProtector => text@
                == "the key is protected by an incompatible system protector"@,
            XSecError::Corrupted => text@ == "XSec metadata is corrupted"@,
            XSecError::InvalidCiphertext => text@ == "ciphertext is invalid"@,
            XSecError::UnsupportedVersion => text@ == "format version is unsupported"@,
            XSecError::UnsupportedAlgorithm => text@ == "algorithm is unsupported"@,
            XSecError::ProtectorNotFound => text@ == "key protector was not found"@,
            XSecError::ProtectorAlreadyExists => text@ == "key protector already exists"@,
            XSecError::LastProtector => text@ == "the last key protector cannot be removed"@,
            XSecError::Storage { source } => text@ == "storage error: "@ + source.message@,
            XSecError::Protector { source } => text@ == "key protector error: "@ + source.message@,
            XSecError::Crypto => text@ == "cryptographic operation failed"@,
        },
{
}

} // verus!
