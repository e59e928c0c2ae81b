//! Protecting and revealing the values of a whole document.
use vstd::prelude::*;
use vstd::utf8::*;

use crate::bytes;
use crate::cli::document;
use crate::cli::document::{DocumentView, EnvDocument};
use crate::cli::dotenv;
use crate::cli::dotenv::{index_environment, EntryView, EnvEntry};
use crate::cli::environment;
use crate::cli::environment::{
    parse_environment, validate_environment, zeroize_environment, NamePolicy, Pair,
};
use crate::cli::error::{CliError, CliResult};
use crate::cli::value;
use crate::cli::value::{
    decrypt_environment_value, encode_environment_value, encrypt_environment_value, is_encrypted,
    MAX_ENCRYPTED_ENV_FILE_SIZE, MAX_ENV_FILE_SIZE,
};
use crate::crypto;
use crate::error::{XSecError, XSecResult};
use crate::secret::ZeroizingBytes;
use crate::xsec::XSec;

verus! {

/// New bytes for a range of a source.
pub struct Replacement {
    pub start: usize,
    pub end: usize,
    pub value: ZeroizingBytes,
}

/// A replacement as contracts see it.
#[verifier::ext_equal]
pub struct ReplacementView {
    pub start: int,
    pub end: int,
    pub value: Seq<u8>,
}

impl View for Replacement {
    type V = ReplacementView;

    open spec fn view(&self) -> ReplacementView {
        ReplacementView { start: self.start as int, end: self.end as int, value: self.value@ }
    }
}

/// The replacements of a list.
pub open spec fn replacement_views(replacements: Seq<Replacement>) -> Seq<ReplacementView> {
    Seq::new(replacements.len(), |i: int| replacements[i]@)
}

/// A source with ranges replaced, the last one first, so that the earlier ranges
/// stay where they were.
pub open spec fn replaced(source: Seq<u8>, replacements: Seq<ReplacementView>) -> Seq<u8>
    decreases replacements.len(),
{
    if replacements.len() == 0 {
        source
    } else {
        let last = replacements.last();
        replaced(
            document::spliced(source, last.start, last.end, last.value),
            replacements.drop_last(),
        )
    }
}

/// The ranges stand one behind the other in a source.
pub open spec fn in_order(source: Seq<u8>, replacements: Seq<ReplacementView>) -> bool {
    &&& forall|i: int|
        0 <= i < replacements.len() ==> 0 <= (#[trigger] replacements[i]).start
            <= replacements[i].end <= source.len()
    &&& forall|i: int, j: int|
        0 <= i < j < replacements.len() ==> (#[trigger] replacements[i]).end <= (
        #[trigger] replacements[j]).start
}

/// How a rewritten document ends: the source is the rewritten one, the entries are
/// those of it, and it has to be short enough and readable.
pub open spec fn rewrite_outcome(
    before: DocumentView,
    source: Seq<u8>,
    limit: usize,
    too_large: CliError,
    result: CliResult<()>,
    after: DocumentView,
) -> bool {
    &&& after.source == source
    &&& after.policy == before.policy
    &&& match dotenv::index_of(source) {
        None => after.entries == before.entries && result == CliResult::<()>::Err(
            CliError::InvalidEnvironment,
        ),
        Some(entries) => after.entries == entries && if source.len() > limit {
            result == CliResult::<()>::Err(too_large)
        } else {
            exists|read: Seq<Option<Pair>>| #[trigger]
                environment::reading(source, read) && match result {
                    Ok(_) => environment::accepted(read, before.policy),
                    Err(e) => environment::refused(read, before.policy, e),
                }
        },
    }
}

impl EnvDocument {
    /// Replaces ranges of the source and finds the declarations anew.
    fn replace_values(&mut self, replacements: Vec<Replacement>) -> (result: CliResult<()>)
        requires
            in_order(old(self)@.source, replacement_views(replacements@)),
        ensures
            final(self)@.source == replaced(
                old(self)@.source,
                replacement_views(replacements@),
            ),
            final(self)@.policy == old(self)@.policy,
            match dotenv::index_of(final(self)@.source) {
                None => final(self)@.entries == old(self)@.entries && (result matches Err(e) && e
                    is InvalidEnvironment),
                Some(entries) => final(self)@.entries == entries && result is Ok,
            },
    {
        let ghost whole = replacement_views(replacements@);
        let mut n: usize = replacements.len();
        assert(whole.take(n as int) =~= whole);
        while n > 0
            invariant
                n <= replacements@.len(),
                whole == replacement_views(replacements@),
                self.entries == old(self).entries,
                self.policy == old(self).policy,
                in_order(self@.source, whole.take(n as int)),
                replaced(self@.source, whole.take(n as int)) == replaced(old(self)@.source, whole),
            decreases n,
        {
            let last: &Replacement = &replacements[n - 1];
            let ghost front = whole.take(n as int);
            proof {
                assert(front.last() == last@);
                assert(front[n - 1] == last@);
                assert(front.drop_last() =~= whole.take(n - 1));
                assert forall|i: int| 0 <= i < n - 1 implies (#[trigger] whole.take(n - 1)[i])
                    == front[i] by {}
            }
            let source: Vec<u8> = document::splice(
                self.source.as_slice(),
                last.start,
                last.end,
                last.value.as_slice(),
            );
            self.source = ZeroizingBytes::new(source);
            n = n - 1;
        }
        assert(whole.take(0) =~= Seq::empty());
        match index_environment(self.source.as_slice()) {
            Err(error) => Err(error),
            Ok(entries) => {
                self.entries = entries;
                Ok(())
            },
        }
    }

    /// Replaces ranges of the source; the document has to stay short enough and
    /// readable.
    fn rewrite(&mut self, replacements: Vec<Replacement>, limit: usize, too_large: CliError) -> (result:
        CliResult<()>)
        requires
            in_order(old(self)@.source, replacement_views(replacements@)),
        ensures
            rewrite_outcome(
                old(self)@,
                replaced(old(self)@.source, replacement_views(replacements@)),
                limit,
                too_large,
                result,
                final(self)@,
            ),
    {
        match self.replace_values(replacements) {
            Err(_) => Err(CliError::InvalidEnvironment),
            Ok(()) => {
                if self.source.as_slice().len() > limit {
                    return Err(too_large);
                }
                validate_environment(self.source.as_slice(), self.policy)
            },
        }
    }
}

/// A variable whose value is protected but does not decrypt.
pub open spec fn broken(key: XSecResult<Seq<u8>>, pair: Pair) -> bool {
    value::is_protected(pair.1) && value::revealed(key, pair.0, pair.1) is None
}

/// The replacement protects the value of the entry.
pub open spec fn protects(
    key: XSecResult<Seq<u8>>,
    source: Seq<u8>,
    entry: EntryView,
    pair: Pair,
    replacement: ReplacementView,
) -> bool {
    &&& replacement.start == entry.value_start
    &&& replacement.end == entry.value_end
    &&& exists|nonce: Seq<u8>|
        {
            let text = #[trigger] value::protected(
                key->Ok_0,
                nonce,
                pair.0,
                encode_utf8(pair.1),
            );
            &&& key is Ok
            &&& nonce.len() == 12
            &&& crypto::drawn::<12>(nonce)
            &&& replacement.value == document::replacement(source, entry, encode_utf8(text))
            &&& value::revealed(key, pair.0, text) == Some(encode_utf8(pair.1))
        }
}

/// The replacements protect the values of the first `n` variables, and only those
/// that were not protected; those that were decrypt.
pub open spec fn protects_all(
    key: XSecResult<Seq<u8>>,
    source: Seq<u8>,
    entries: Seq<EntryView>,
    pairs: Seq<Pair>,
    n: int,
    replacements: Seq<ReplacementView>,
) -> bool
    decreases n,
{
    if n <= 0 {
        replacements.len() == 0
    } else if value::is_protected(pairs[n - 1].1) {
        !broken(key, pairs[n - 1]) && protects_all(key, source, entries, pairs, n - 1, replacements)
    } else {
        replacements.len() > 0 && protects(
            key,
            source,
            entries[n - 1],
            pairs[n - 1],
            replacements.last(),
        ) && protects_all(key, source, entries, pairs, n - 1, replacements.drop_last())
    }
}

/// Why a value could not be protected.
pub open spec fn protection_failure(key: XSecResult<Seq<u8>>, pair: Pair, e: CliError) -> bool {
    if value::is_protected(pair.1) {
        broken(key, pair) && (e matches CliError::InvalidEncryptedVariable(name) && name@
            == pair.0)
    } else {
        encryption_failure(key, pair.0, encode_utf8(pair.1), e)
    }
}

/// Why bytes could not be encrypted: they are too many, the key is not at hand, or
/// the cipher or the source of randomness failed.
pub open spec fn encryption_failure(
    key: XSecResult<Seq<u8>>,
    name: Seq<char>,
    plaintext: Seq<u8>,
    e: CliError,
) -> bool {
    if plaintext.len() > value::MAX_PROTECTABLE_LENGTH {
        e is EnvironmentValueTooLarge
    } else {
        match key {
            Err(reason) => e == CliError::XSec(reason),
            Ok(_) => e == CliError::XSec(XSecError::Crypto) && value::unsealable(name, plaintext),
        }
    }
}

/// The number of variables that a document and a reading of it have in common.
pub open spec fn common(entries: Seq<EntryView>, pairs: Seq<Pair>) -> int {
    if entries.len() < pairs.len() {
        entries.len() as int
    } else {
        pairs.len() as int
    }
}

/// How the protection of a reading ends.
pub open spec fn protection_outcome(
    key: XSecResult<Seq<u8>>,
    source: Seq<u8>,
    entries: Seq<EntryView>,
    pairs: Seq<Pair>,
    result: CliResult<Vec<Replacement>>,
) -> bool {
    match result {
        Ok(replacements) => protects_all(
            key,
            source,
            entries,
            pairs,
            common(entries, pairs),
            replacement_views(replacements@),
        ),
        Err(e) => exists|i: int|
            0 <= i < common(entries, pairs) && protection_failure(key, #[trigger] pairs[i], e) && (
            forall|j: int| 0 <= j < i ==> !broken(key, #[trigger] pairs[j])),
    }
}

/// The ranges of the replacements are value ranges of the first `n` entries, in
/// their order.
spec fn within(entries: Seq<EntryView>, n: int, replacements: Seq<ReplacementView>, source: Seq<u8>) -> bool {
    &&& in_order(source, replacements)
    &&& replacements.len() > 0 ==> exists|k: int|
        0 <= k < n && replacements.last().end == (#[trigger] entries[k]).value_end
}

/// Appending the value range of a later entry keeps the order.
proof fn lemma_within_push(
    entries: Seq<EntryView>,
    n: int,
    replacements: Seq<ReplacementView>,
    source: Seq<u8>,
    value: Seq<u8>,
)
    requires
        dotenv::laid_out(source, entries, 0),
        0 <= n < entries.len(),
        within(entries, n, replacements, source),
    ensures
        within(
            entries,
            n + 1,
            replacements.push(
                ReplacementView {
                    start: entries[n].value_start,
                    end: entries[n].value_end,
                    value,
                },
            ),
            source,
        ),
{
    let added = ReplacementView {
        start: entries[n].value_start,
        end: entries[n].value_end,
        value,
    };
    let all = replacements.push(added);
    assert(dotenv::placed(source, entries[n]));
    if replacements.len() > 0 {
        let k = choose|k: int|
            0 <= k < n && replacements.last().end == (#[trigger] entries[k]).value_end;
        assert(dotenv::placed(source, entries[k]));
        assert(entries[k].end <= entries[n].start);
        assert(replacements[replacements.len() - 1].end <= added.start);
    }
    assert forall|i: int, j: int| 0 <= i < j < all.len() implies (#[trigger] all[i]).end <= (
    #[trigger] all[j]).start by {
        if j == replacements.len() {
            if i < replacements.len() - 1 {
                assert(replacements[i].end <= replacements[replacements.len() - 1].start);
            }
        }
    }
    assert(entries[n].value_end == all.last().end);
}

/// Protects the values of a reading that are not protected yet, and checks that the
/// others decrypt.
pub fn protect_values<S>(
    document: &EnvDocument,
    environment: &Vec<(String, String)>,
    xsec: &XSec<S>,
) -> (result: CliResult<Vec<Replacement>>)
    requires
        document@.wf(),
    ensures
        protection_outcome(
            xsec@.key(),
            document@.source,
            document@.entries,
            environment::pairs_of(environment@),
            result,
        ),
        result matches Ok(replacements) ==> in_order(
            document@.source,
            replacement_views(replacements@),
        ),
{
    let entries: &Vec<EnvEntry> = &document.entries;
    let ghost source = document@.source;
    let ghost views = document@.entries;
    proof {
        dotenv::law_index_laid_out(source, 0);
    }
    let ghost pairs = environment::pairs_of(environment@);
    let ghost key = xsec@.key();
    let mut replacements: Vec<Replacement> = Vec::new();
    let mut i: usize = 0;
    assert(replacement_views(replacements@) =~= Seq::empty());
    while i < entries.len() && i < environment.len()
        invariant
            0 <= i <= common(views, pairs),
            views == dotenv::entry_views(entries@),
            views == document@.entries,
            source == document@.source,
            pairs == environment::pairs_of(environment@),
            key == xsec@.key(),
            dotenv::laid_out(source, views, 0),
            protects_all(key, source, views, pairs, i as int, replacement_views(replacements@)),
            within(views, i as int, replacement_views(replacements@), source),
            forall|j: int| 0 <= j < i ==> !broken(key, #[trigger] pairs[j]),
        decreases entries@.len() - i,
    {
        let name: &str = environment[i].0.as_str();
        let value: &str = environment[i].1.as_str();
        let ghost pair = pairs[i as int];
        assert(pair == (name@, value@));
        if is_encrypted(value) {
            if let Err(error) = decrypt_environment_value(name, value, xsec) {
                assert(protection_failure(key, pairs[i as int], error));
                return Err(error);
            }
        } else {
            let encrypted: ZeroizingBytes = match encrypt_environment_value(
                name,
                value.as_bytes(),
                xsec,
            ) {
                Err(error) => {
                    assert(protection_failure(key, pairs[i as int], error));
                    return Err(error);
                },
                Ok(encrypted) => encrypted,
            };
            let ghost nonce = choose|nonce: Seq<u8>|
                nonce.len() == 12 && crypto::drawn::<12>(nonce) && encrypted@ == encode_utf8(
                    #[trigger] value::protected(key->Ok_0, nonce, name@, encode_utf8(value@)),
                ) && value::revealed(
                    key,
                    name@,
                    value::protected(key->Ok_0, nonce, name@, encode_utf8(value@)),
                ) == Some(encode_utf8(value@));
            proof {
                value::law_protected_quotable(key->Ok_0, nonce, name@, encode_utf8(value@));
            }
            let encoded: ZeroizingBytes = match encode_environment_value(encrypted.as_slice()) {
                Err(error) => {
                    return Err(error);
                },
                Ok(encoded) => encoded,
            };
            let ghost before = replacement_views(replacements@);
            let entry: &EnvEntry = &entries[i];
            assert(entry@ == views[i as int]);
            let text: Vec<u8> = document::replacement_text(
                document.source.as_slice(),
                entry,
                encoded.as_slice(),
            );
            replacements.push(
                Replacement {
                    start: entry.value_start,
                    end: entry.value_end,
                    value: ZeroizingBytes::new(text),
                },
            );
            proof {
                let added = ReplacementView {
                    start: views[i as int].value_start,
                    end: views[i as int].value_end,
                    value: text@,
                };
                let all = replacement_views(replacements@);
                assert(all =~= before.push(added));
                lemma_within_push(views, i as int, before, source, text@);
                assert(protects(key, source, views[i as int], pair, added));
                assert(all.drop_last() =~= before);
            }
        }
        i = i + 1;
    }
    assert(i == common(views, pairs));
    Ok(replacements)
}

/// A variable whose protected value cannot stand in a document once it is revealed.
pub open spec fn unquotable(key: XSecResult<Seq<u8>>, pair: Pair) -> bool {
    value::is_protected(pair.1) && (value::revealed(key, pair.0, pair.1) matches Some(plaintext)
        && !value::quotable(plaintext))
}

/// The replacements that reveal the protected values among the first `n` variables.
pub open spec fn revelation(
    key: XSecResult<Seq<u8>>,
    source: Seq<u8>,
    entries: Seq<EntryView>,
    pairs: Seq<Pair>,
    n: int,
) -> Seq<ReplacementView>
    decreases n,
{
    if n <= 0 {
        Seq::empty()
    } else if value::is_protected(pairs[n - 1].1) {
        revelation(key, source, entries, pairs, n - 1).push(
            ReplacementView {
                start: entries[n - 1].value_start,
                end: entries[n - 1].value_end,
                value: document::replacement(
                    source,
                    entries[n - 1],
                    value::revealed(key, pairs[n - 1].0, pairs[n - 1].1)->Some_0,
                ),
            },
        )
    } else {
        revelation(key, source, entries, pairs, n - 1)
    }
}

/// How the revelation of a reading ends.
pub open spec fn revelation_outcome(
    key: XSecResult<Seq<u8>>,
    source: Seq<u8>,
    entries: Seq<EntryView>,
    pairs: Seq<Pair>,
    result: CliResult<Vec<Replacement>>,
) -> bool {
    let n = common(entries, pairs);
    match result {
        Ok(replacements) => replacement_views(replacements@) == revelation(key, source, entries, pairs, n)
            && forall|i: int|
            0 <= i < n ==> !broken(key, #[trigger] pairs[i]) && !unquotable(key, pairs[i]),
        Err(e) => exists|i: int|
            {
                &&& 0 <= i < n
                &&& revelation_failure(key, #[trigger] pairs[i], e)
                &&& forall|j: int|
                    0 <= j < i ==> !broken(key, #[trigger] pairs[j]) && !unquotable(key, pairs[j])
            },
    }
}

/// Why a value could not be revealed in a document.
pub open spec fn revelation_failure(key: XSecResult<Seq<u8>>, pair: Pair, e: CliError) -> bool {
    ||| broken(key, pair) && (e matches CliError::InvalidEncryptedVariable(name) && name@ == pair.0)
    ||| unquotable(key, pair) && e is InvalidEnvironmentValue
}

/// Reveals the protected values of a reading.
pub fn reveal_values<S>(
    document: &EnvDocument,
    environment: &Vec<(String, String)>,
    xsec: &XSec<S>,
) -> (result: CliResult<Vec<Replacement>>)
    requires
        document@.wf(),
    ensures
        revelation_outcome(
            xsec@.key(),
            document@.source,
            document@.entries,
            environment::pairs_of(environment@),
            result,
        ),
        result matches Ok(replacements) ==> in_order(
            document@.source,
            replacement_views(replacements@),
        ),
{
    let entries: &Vec<EnvEntry> = &document.entries;
    let ghost source = document@.source;
    let ghost views = document@.entries;
    proof {
        dotenv::law_index_laid_out(source, 0);
    }
    let ghost pairs = environment::pairs_of(environment@);
    let ghost key = xsec@.key();
    let mut replacements: Vec<Replacement> = Vec::new();
    let mut i: usize = 0;
    assert(replacement_views(replacements@) =~= Seq::empty());
    while i < entries.len() && i < environment.len()
        invariant
            0 <= i <= common(views, pairs),
            views == dotenv::entry_views(entries@),
            views == document@.entries,
            source == document@.source,
            pairs == environment::pairs_of(environment@),
            key == xsec@.key(),
            dotenv::laid_out(source, views, 0),
            replacement_views(replacements@) == revelation(key, source, views, pairs, i as int),
            within(views, i as int, replacement_views(replacements@), source),
            forall|j: int|
                0 <= j < i ==> !broken(key, #[trigger] pairs[j]) && !unquotable(key, pairs[j]),
        decreases entries@.len() - i,
    {
        let name: &str = environment[i].0.as_str();
        let value: &str = environment[i].1.as_str();
        assert(pairs[i as int] == (name@, value@));
        if is_encrypted(value) {
            let plaintext: ZeroizingBytes = match decrypt_environment_value(name, value, xsec) {
                Err(error) => {
                    assert(revelation_failure(key, pairs[i as int], error));
                    return Err(error);
                },
                Ok(plaintext) => plaintext,
            };
            let encoded: ZeroizingBytes = match encode_environment_value(plaintext.as_slice()) {
                Err(error) => {
                    assert(revelation_failure(key, pairs[i as int], error));
                    return Err(error);
                },
                Ok(encoded) => encoded,
            };
            let ghost before = replacement_views(replacements@);
            let entry: &EnvEntry = &entries[i];
            assert(entry@ == views[i as int]);
            let text: Vec<u8> = document::replacement_text(
                document.source.as_slice(),
                entry,
                encoded.as_slice(),
            );
            replacements.push(
                Replacement {
                    start: entry.value_start,
                    end: entry.value_end,
                    value: ZeroizingBytes::new(text),
                },
            );
            proof {
                let added = ReplacementView {
                    start: views[i as int].value_start,
                    end: views[i as int].value_end,
                    value: text@,
                };
                assert(replacement_views(replacements@) =~= before.push(added));
                lemma_within_push(views, i as int, before, source, text@);
            }
        }
        i = i + 1;
    }
    assert(i == common(views, pairs));
    Ok(replacements)
}

/// How a whole document is rewritten: it is read, replacements are made from the
/// reading, and the source is rewritten with them. Where the reading or the
/// replacements fail, nothing changes.
pub open spec fn document_outcome(
    before: DocumentView,
    made: spec_fn(Seq<Pair>, CliResult<Vec<Replacement>>) -> bool,
    limit: usize,
    too_large: CliError,
    result: CliResult<()>,
    after: DocumentView,
) -> bool {
    exists|read: Seq<Option<Pair>>| #[trigger]
        environment::reading(before.source, read) && {
            ||| result matches Err(e) && environment::refused(read, before.policy, e) && after
                == before
            ||| exists|pairs: Seq<Pair>, replacements: CliResult<Vec<Replacement>>|
                {
                    &&& environment::accepted(read, before.policy)
                    &&& read == environment::all_read(pairs)
                    &&& #[trigger] made(pairs, replacements)
                    &&& match replacements {
                        Err(e) => result == CliResult::<()>::Err(e) && after == before,
                        Ok(list) => rewrite_outcome(
                            before,
                            replaced(before.source, replacement_views(list@)),
                            limit,
                            too_large,
                            result,
                            after,
                        ),
                    }
                }
        }
}

/// How the replacements are made that protect a document.
pub open spec fn protection_made(key: XSecResult<Seq<u8>>, before: DocumentView) -> spec_fn(
    Seq<Pair>,
    CliResult<Vec<Replacement>>,
) -> bool {
    |pairs: Seq<Pair>, replacements: CliResult<Vec<Replacement>>|
        protection_outcome(key, before.source, before.entries, pairs, replacements)
}

/// How the protection of a document ends.
pub open spec fn encryption_outcome(
    key: XSecResult<Seq<u8>>,
    before: DocumentView,
    result: CliResult<()>,
    after: DocumentView,
) -> bool {
    document_outcome(
        before,
        protection_made(key, before),
        MAX_ENCRYPTED_ENV_FILE_SIZE,
        CliError::UpdatedEnvironmentTooLarge,
        result,
        after,
    )
}

/// How the replacements are made that reveal a document.
pub open spec fn revelation_made(key: XSecResult<Seq<u8>>, before: DocumentView) -> spec_fn(
    Seq<Pair>,
    CliResult<Vec<Replacement>>,
) -> bool {
    |pairs: Seq<Pair>, replacements: CliResult<Vec<Replacement>>|
        revelation_outcome(key, before.source, before.entries, pairs, replacements)
}

/// How the revelation of a document ends.
pub open spec fn decryption_outcome(
    key: XSecResult<Seq<u8>>,
    before: DocumentView,
    result: CliResult<()>,
    after: DocumentView,
) -> bool {
    document_outcome(
        before,
        revelation_made(key, before),
        MAX_ENV_FILE_SIZE,
        CliError::DecryptedEnvironmentTooLarge,
        result,
        after,
    )
}

/// Protects every value of a document that is not protected yet; everything else in
/// the document stays as it is. It fails where the document cannot be read or a value
/// cannot be protected, and then changes nothing; it fails as well where the result is
/// too long or cannot be read.
pub fn encrypt_environment_document<S>(document: &mut EnvDocument, xsec: &XSec<S>) -> (result:
    CliResult<()>)
    requires
        old(document)@.wf(),
    ensures
        encryption_outcome(xsec@.key(), old(document)@, result, final(document)@),
{
    let ghost made = protection_made(xsec@.key(), old(document)@);
    let mut environment: Vec<(String, String)> = match parse_environment(
        document.source.as_slice(),
        document.policy,
    ) {
        Err(error) => {
            return Err(error);
        },
        Ok(environment) => environment,
    };
    let ghost pairs = environment::pairs_of(environment@);
    let replacements: CliResult<Vec<Replacement>> = protect_values(document, &environment, xsec);
    assert(made(pairs, replacements));
    zeroize_environment(&mut environment);
    match replacements {
        Err(error) => Err(error),
        Ok(list) => document.rewrite(
            list,
            MAX_ENCRYPTED_ENV_FILE_SIZE,
            CliError::UpdatedEnvironmentTooLarge,
        ),
    }
}

/// Reveals every protected value of a document; everything else in the document stays
/// as it is. It fails where the document cannot be read or a value cannot be revealed,
/// and then changes nothing; it fails as well where the result is too long or cannot
/// be read.
pub fn decrypt_environment_document<S>(document: &mut EnvDocument, xsec: &XSec<S>) -> (result:
    CliResult<()>)
    requires
        old(document)@.wf(),
    ensures
        decryption_outcome(xsec@.key(), old(document)@, result, final(document)@),
{
    let ghost made = revelation_made(xsec@.key(), old(document)@);
    let mut environment: Vec<(String, String)> = match parse_environment(
        document.source.as_slice(),
        document.policy,
    ) {
        Err(error) => {
            return Err(error);
        },
        Ok(environment) => environment,
    };
    let ghost pairs = environment::pairs_of(environment@);
    let replacements: CliResult<Vec<Replacement>> = reveal_values(document, &environment, xsec);
    assert(made(pairs, replacements));
    zeroize_environment(&mut environment);
    match replacements {
        Err(error) => Err(error),
        Ok(list) => document.rewrite(
            list,
            MAX_ENV_FILE_SIZE,
            CliError::DecryptedEnvironmentTooLarge,
        ),
    }
}

/// A variable whose value can be revealed as text.
pub open spec fn readable(key: XSecResult<Seq<u8>>, pair: Pair) -> bool {
    value::revealed(key, pair.0, pair.1) matches Some(plaintext) && valid_utf8(plaintext)
}

/// How the values of a reading are revealed: each variable keeps its name and has the
/// revealed value, or the first one that cannot be revealed as text is named.
pub open spec fn values_outcome(
    key: XSecResult<Seq<u8>>,
    pairs: Seq<Pair>,
    result: CliResult<Vec<(String, String)>>,
) -> bool {
    match result {
        Ok(environment) => environment@.len() == pairs.len() && forall|i: int|
            0 <= i < pairs.len() ==> {
                let (name, text) = #[trigger] environment::pairs_of(environment@)[i];
                name == pairs[i].0 && value::revealed(key, pairs[i].0, pairs[i].1) == Some(
                    encode_utf8(text),
                )
            },
        Err(e) => exists|i: int|
            {
                &&& 0 <= i < pairs.len()
                &&& !readable(key, #[trigger] pairs[i])
                &&& (e matches CliError::InvalidEncryptedVariable(name) && name@ == pairs[i].0)
                &&& forall|j: int| 0 <= j < i ==> readable(key, #[trigger] pairs[j])
            },
    }
}

/// Reveals the values of variables.
#[verifier::loop_isolation(false)]
pub fn reveal_environment<S>(environment: Vec<(String, String)>, xsec: &XSec<S>) -> (result: CliResult<
    Vec<(String, String)>,
>)
    ensures
        values_outcome(xsec@.key(), environment::pairs_of(environment@), result),
{
    let ghost pairs = environment::pairs_of(environment@);
    let ghost key = xsec@.key();
    let mut rest: Vec<(String, String)> = environment;
    let mut revealed: Vec<(String, String)> = Vec::new();
    let mut i: usize = 0;
    while i < rest.len()
        invariant
            i <= rest@.len(),
            pairs == environment::pairs_of(rest@),
            revealed@.len() == i,
            forall|j: int|
                0 <= j < i ==> {
                    let (name, text) = #[trigger] environment::pairs_of(revealed@)[j];
                    name == pairs[j].0 && value::revealed(key, pairs[j].0, pairs[j].1) == Some(
                        encode_utf8(text),
                    )
                },
            forall|j: int| 0 <= j < i ==> readable(key, #[trigger] pairs[j]),
        decreases rest@.len() - i,
    {
        let name: &str = rest[i].0.as_str();
        let value: &str = rest[i].1.as_str();
        assert(pairs[i as int] == (name@, value@));
        let plaintext: ZeroizingBytes = match decrypt_environment_value(name, value, xsec) {
            Err(error) => {
                assert(!readable(key, pairs[i as int]));
                zeroize_environment(&mut rest);
                zeroize_environment(&mut revealed);
                return Err(error);
            },
            Ok(plaintext) => plaintext,
        };
        let text: String = match bytes::utf8_text(plaintext.as_slice()) {
            None => {
                assert(!readable(key, pairs[i as int]));
                let error: CliError = CliError::InvalidEncryptedVariable(name.to_owned());
                zeroize_environment(&mut rest);
                zeroize_environment(&mut revealed);
                return Err(error);
            },
            Some(text) => text.to_owned(),
        };
        let ghost before = revealed@;
        proof {
            encode_utf8_valid_utf8(text@);
        }
        revealed.push((name.to_owned(), text));
        proof {
            assert(environment::pairs_of(revealed@) =~= environment::pairs_of(before).push(
                (name@, text@),
            ));
        }
        i = i + 1;
    }
    zeroize_environment(&mut rest);
    Ok(revealed)
}

/// How the values of a document are revealed on a reading of it.
pub open spec fn reading_outcome(
    key: XSecResult<Seq<u8>>,
    read: Seq<Option<Pair>>,
    policy: NamePolicy,
    result: CliResult<Vec<(String, String)>>,
) -> bool {
    ||| result matches Err(e) && environment::refused(read, policy, e)
    ||| exists|pairs: Seq<Pair>|
        {
            &&& environment::accepted(read, policy)
            &&& read == #[trigger] environment::all_read(pairs)
            &&& values_outcome(key, pairs, result)
        }
}

/// The variables of a document with their values revealed.
pub fn decrypt_environment_values<S>(document: &EnvDocument, xsec: &XSec<S>) -> (result: CliResult<
    Vec<(String, String)>,
>)
    ensures
        exists|read: Seq<Option<Pair>>| #[trigger]
            environment::reading(document@.source, read) && reading_outcome(
                xsec@.key(),
                read,
                document@.policy,
                result,
            ),
{
    let environment: Vec<(String, String)> = match parse_environment(
        document.source.as_slice(),
        document.policy,
    ) {
        Err(error) => {
            proof {
                let read = choose|read: Seq<Option<Pair>>| #[trigger]
                    environment::reading(document@.source, read) && environment::refused(
                        read,
                        document@.policy,
                        error,
                    );
                assert(environment::reading(document@.source, read));
                assert(environment::refused(read, document@.policy, error));
                assert(reading_outcome(xsec@.key(), read, document@.policy, Err(error)));
            }
            return Err(error);
        },
        Ok(environment) => environment,
    };
    let ghost pairs = environment::pairs_of(environment@);
    let ghost read = environment::all_read(pairs);
    assert(environment::reading(document@.source, read));
    let result: CliResult<Vec<(String, String)>> = reveal_environment(environment, xsec);
    assert(values_outcome(xsec@.key(), pairs, result));
    assert(reading_outcome(xsec@.key(), read, document@.policy, result));
    result
}

} // verus!
