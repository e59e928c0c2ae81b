//! A dotenv document that is changed one value or one declaration at a time.
use vstd::prelude::*;
use vstd::utf8::*;

use crate::bytes;
use crate::cli::dotenv;
use crate::cli::dotenv::{
    index_environment, EntryView, EnvEntry, CARRIAGE_RETURN, EQUALS, HASH, LINE_FEED, SPACE,
};
use crate::cli::environment;
use crate::cli::environment::{
    normalized_environment_key, parse_environment, zeroize_environment, NamePolicy, Pair,
};
use crate::cli::error::{CliError, CliResult};
use crate::cli::value;
use crate::cli::value::{encode_environment_value, MAX_ENCRYPTED_ENV_FILE_SIZE};
use crate::secret::ZeroizingBytes;

verus! {

/// A document with the places of its declarations.
pub struct EnvDocument {
    pub source: ZeroizingBytes,
    pub entries: Vec<EnvEntry>,
    pub policy: NamePolicy,
}

/// A document as contracts see it.
#[verifier::ext_equal]
pub struct DocumentView {
    pub source: Seq<u8>,
    pub entries: Seq<EntryView>,
    pub policy: NamePolicy,
}

impl View for EnvDocument {
    type V = DocumentView;

    open spec fn view(&self) -> DocumentView {
        DocumentView {
            source: self.source@,
            entries: dotenv::entry_views(self.entries@),
            policy: self.policy,
        }
    }
}

impl DocumentView {
    /// The entries are those of the source.
    pub open spec fn wf(self) -> bool {
        dotenv::index_of(self.source) == Some(self.entries)
    }

    /// `i` is the first entry with the given name, as names are compared.
    pub open spec fn first_named(self, key: Seq<char>, i: int) -> bool {
        &&& 0 <= i < self.entries.len()
        &&& self.names(i, key)
        &&& forall|j: int| 0 <= j < i ==> !#[trigger] self.names(j, key)
    }

    /// The entry at `i` has the given name, as names are compared.
    pub open spec fn names(self, i: int, key: Seq<char>) -> bool {
        environment::normalized(self.policy, self.entries[i].name) == environment::normalized(
            self.policy,
            key,
        )
    }

    /// No entry has the given name.
    pub open spec fn lacks(self, key: Seq<char>) -> bool {
        forall|i: int| 0 <= i < self.entries.len() ==> !#[trigger] self.names(i, key)
    }
}

/// A source with the bytes from `start` to `end` replaced.
pub open spec fn spliced(source: Seq<u8>, start: int, end: int, value: Seq<u8>) -> Seq<u8> {
    source.take(start) + value + source.skip(end)
}

/// A line feed behind a carriage return occurs.
pub open spec fn has_crlf(source: Seq<u8>) -> bool {
    exists|i: int|
        0 <= i && i + 1 < source.len() && #[trigger] source[i] == CARRIAGE_RETURN && source[i + 1]
            == LINE_FEED
}

/// The line ending in use: that of Windows where it occurs at all.
pub open spec fn line_ending(source: Seq<u8>) -> Seq<u8> {
    if has_crlf(source) {
        seq![CARRIAGE_RETURN, LINE_FEED]
    } else {
        seq![LINE_FEED]
    }
}

/// The last line is ended.
pub open spec fn line_ended(source: Seq<u8>) -> bool {
    source.len() > 0 && source.last() == LINE_FEED
}

/// A source with one more declaration, on a line of its own. The last line is ended
/// where it was before.
pub open spec fn appended(source: Seq<u8>, name: Seq<u8>, quoted: Seq<u8>) -> Seq<u8> {
    let before = if source.len() > 0 && !line_ended(source) {
        line_ending(source)
    } else {
        Seq::empty()
    };
    let after = if line_ended(source) {
        line_ending(source)
    } else {
        Seq::empty()
    };
    source + before + name + seq![EQUALS] + quoted + after
}

/// What replaces the value of an entry: the quoted value, and a blank where a
/// comment follows at once.
pub open spec fn replacement(source: Seq<u8>, entry: EntryView, value: Seq<u8>) -> Seq<u8> {
    if dotenv::byte_at(source, entry.value_end, HASH) {
        value::quoted(value) + seq![SPACE]
    } else {
        value::quoted(value)
    }
}

/// A document's source with the value of a variable set: the value of its first entry
/// replaced and every other byte kept, or a declaration appended where there is none.
pub open spec fn with_value(
    document: DocumentView,
    key: Seq<char>,
    value: Seq<u8>,
    after: Seq<u8>,
) -> bool {
    if document.lacks(key) {
        after == appended(document.source, encode_utf8(key), value::quoted(value))
    } else {
        exists|i: int| #[trigger]
            document.first_named(key, i) && after == spliced(
                document.source,
                document.entries[i].value_start,
                document.entries[i].value_end,
                replacement(document.source, document.entries[i], value),
            )
    }
}

/// A document's source without the first declaration of a variable, every other byte
/// kept.
pub open spec fn without_declaration(document: DocumentView, key: Seq<char>, after: Seq<u8>) -> bool {
    if document.lacks(key) {
        after == document.source
    } else {
        exists|i: int| #[trigger]
            document.first_named(key, i) && after == spliced(
                document.source,
                document.entries[i].start,
                document.entries[i].end,
                Seq::empty(),
            )
    }
}

/// The names of a reading are those of the entries, in the same order.
pub open spec fn same_names(entries: Seq<EntryView>, read: Seq<Option<Pair>>) -> bool {
    &&& entries.len() == read.len()
    &&& forall|i: int|
        0 <= i < entries.len() ==> (#[trigger] read[i] matches Some(pair) && pair.0
            == entries[i].name)
}

/// How `parse` ends on a reading of the source.
pub open spec fn parse_outcome(
    source: Seq<u8>,
    policy: NamePolicy,
    read: Seq<Option<Pair>>,
    result: CliResult<EnvDocument>,
) -> bool {
    match result {
        Ok(document) => {
            &&& environment::accepted(read, policy)
            &&& document@.wf()
            &&& document@.source == source
            &&& document@.policy == policy
            &&& same_names(document@.entries, read)
        },
        Err(e) => {
            ||| environment::refused(read, policy, e)
            ||| environment::accepted(read, policy) && e is InvalidEnvironment && match dotenv::index_of(
                source,
            ) {
                None => true,
                Some(entries) => !same_names(entries, read),
            }
        },
    }
}

/// A quoted value as it replaces the one of an entry.
pub(crate) fn replacement_text(source: &[u8], entry: &EnvEntry, encoded: &[u8]) -> (text: Vec<u8>)
    ensures
        forall|value: Seq<u8>|
            encoded@ == value::quoted(value) ==> text@ == #[trigger] replacement(
                source@,
                entry@,
                value,
            ),
{
    let mut text: Vec<u8> = Vec::new();
    text.extend_from_slice(encoded);
    assert(text@ =~= encoded@);
    if entry.value_end < source.len() && source[entry.value_end] == HASH {
        text.push(SPACE);
        assert(text@ =~= encoded@ + seq![SPACE]);
    }
    text
}

/// A copy of `source` with the bytes from `start` to `end` replaced.
pub(crate) fn splice(source: &[u8], start: usize, end: usize, value: &[u8]) -> (out: Vec<u8>)
    requires
        start <= end <= source@.len(),
    ensures
        out@ == spliced(source@, start as int, end as int, value@),
{
    let mut out: Vec<u8> = bytes::copy_range(source, 0, start);
    out.extend_from_slice(value);
    out.extend_from_slice(&source[end..source.len()]);
    assert(out@ =~= spliced(source@, start as int, end as int, value@));
    out
}

fn contains_crlf(source: &[u8]) -> (found: bool)
    ensures
        found == has_crlf(source@),
{
    let mut i: usize = 0;
    while i < source.len()
        invariant
            i <= source@.len(),
            forall|j: int|
                0 <= j < i && j + 1 < source@.len() ==> !(#[trigger] source@[j] == CARRIAGE_RETURN
                    && source@[j + 1] == LINE_FEED),
        decreases source@.len() - i,
    {
        if i + 1 < source.len() && source[i] == CARRIAGE_RETURN && source[i + 1] == LINE_FEED {
            return true;
        }
        i = i + 1;
    }
    false
}

fn push_line_ending(out: &mut Vec<u8>, crlf: bool)
    ensures
        final(out)@ == old(out)@ + if crlf {
            seq![CARRIAGE_RETURN, LINE_FEED]
        } else {
            seq![LINE_FEED]
        },
{
    if crlf {
        out.push(CARRIAGE_RETURN);
    }
    out.push(LINE_FEED);
    assert(out@ =~= old(out)@ + if crlf {
        seq![CARRIAGE_RETURN, LINE_FEED]
    } else {
        seq![LINE_FEED]
    });
}

impl EnvDocument {
    /// Reads a document and finds its declarations. It fails where the document
    /// cannot be read, and where the reader and the index do not see the same
    /// names.
    pub fn parse(source: ZeroizingBytes, policy: NamePolicy) -> (result: CliResult<Self>)
        ensures
            exists|read: Seq<Option<Pair>>| #[trigger]
                environment::reading(source@, read) && parse_outcome(source@, policy, read, result),
    {
        let mut environment: Vec<(String, String)> = match parse_environment(
            source.as_slice(),
            policy,
        ) {
            Err(error) => {
                return Err(error);
            },
            Ok(environment) => environment,
        };
        let ghost pairs = environment::pairs_of(environment@);
        let ghost read = environment::all_read(pairs);
        let entries: Vec<EnvEntry> = match index_environment(source.as_slice()) {
            Err(error) => {
                return Err(error);
            },
            Ok(entries) => entries,
        };
        let ghost views = dotenv::entry_views(entries@);
        let mut matches: bool = entries.len() == environment.len();
        let mut i: usize = 0;
        while matches && i < entries.len()
            invariant
                i <= entries@.len(),
                pairs == environment::pairs_of(environment@),
                read == environment::all_read(pairs),
                views == dotenv::entry_views(entries@),
                matches ==> entries@.len() == environment@.len() && forall|j: int|
                    0 <= j < i ==> (#[trigger] read[j] matches Some(pair) && pair.0
                        == views[j].name),
                !matches ==> !same_names(views, read),
            decreases entries@.len() - i,
        {
            matches = bytes::same_text(entries[i].name.as_str(), environment[i].0.as_str());
            assert(read[i as int] == Some(pairs[i as int]));
            i = i + 1;
        }
        zeroize_environment(&mut environment);
        if !matches {
            return Err(CliError::InvalidEnvironment);
        }
        assert(same_names(views, read));
        Ok(EnvDocument { source, entries, policy })
    }

    /// The place of the first entry with a name.
    fn find(&self, key: &str) -> (found: Option<usize>)
        ensures
            found is None == self@.lacks(key@),
            found matches Some(i) ==> self@.first_named(key@, i as int),
    {
        let wanted: String = normalized_environment_key(key, self.policy);
        let mut i: usize = 0;
        while i < self.entries.len()
            invariant
                i <= self.entries@.len(),
                wanted@ == environment::normalized(self.policy, key@),
                forall|j: int| 0 <= j < i ==> !#[trigger] self@.names(j, key@),
            decreases self.entries@.len() - i,
        {
            let name: String = normalized_environment_key(self.entries[i].name.as_str(), self.policy);
            if bytes::same_text(name.as_str(), wanted.as_str()) {
                assert(self@.names(i as int, key@));
                return Some(i);
            }
            assert(!self@.names(i as int, key@));
            i = i + 1;
        }
        None
    }

    /// The name under which a variable is declared.
    pub fn stored_name(&self, key: &str) -> (name: Option<&str>)
        ensures
            name is None == self@.lacks(key@),
            name matches Some(n) ==> exists|i: int| #[trigger]
                self@.first_named(key@, i) && n@ == self@.entries[i].name,
    {
        match self.find(key) {
            None => None,
            Some(i) => Some(self.entries[i].name.as_str()),
        }
    }

    /// Sets the value of a variable in the source. It fails on a value that cannot be
    /// quoted, and then changes nothing; it fails as well where the source became too
    /// long. The entries are not updated.
    pub fn set(&mut self, key: &str, value: &[u8]) -> (result: CliResult<()>)
        requires
            old(self)@.wf(),
        ensures
            final(self)@.entries == old(self)@.entries,
            final(self)@.policy == old(self)@.policy,
            if value::quotable(value@) {
                &&& with_value(old(self)@, key@, value@, final(self)@.source)
                &&& result is Ok == (final(self)@.source.len() <= MAX_ENCRYPTED_ENV_FILE_SIZE)
                &&& result matches Err(e) ==> e is UpdatedEnvironmentTooLarge
            } else {
                &&& final(self)@ == old(self)@
                &&& result matches Err(e) && e is InvalidEnvironmentValue
            },
    {
        proof {
            dotenv::law_index_laid_out(self@.source, 0);
        }
        let encoded: ZeroizingBytes = match encode_environment_value(value) {
            Err(error) => {
                return Err(error);
            },
            Ok(encoded) => encoded,
        };
        let source: Vec<u8> = match self.find(key) {
            Some(i) => {
                let entry: &EnvEntry = &self.entries[i];
                assert(self@.entries[i as int] == entry@);
                let before: &[u8] = self.source.as_slice();
                let text: Vec<u8> = replacement_text(before, entry, encoded.as_slice());
                assert(text@ == replacement(self@.source, entry@, value@));
                splice(before, entry.value_start, entry.value_end, text.as_slice())
            },
            None => self.append(key, encoded.as_slice()),
        };
        assert(with_value(old(self)@, key@, value@, source@));
        self.source = ZeroizingBytes::new(source);
        if self.source.as_slice().len() > MAX_ENCRYPTED_ENV_FILE_SIZE {
            return Err(CliError::UpdatedEnvironmentTooLarge);
        }
        Ok(())
    }

    /// Removes the first declaration of a variable from the source, and says whether
    /// there was one. The entries are not updated.
    pub fn unset(&mut self, key: &str) -> (found: bool)
        requires
            old(self)@.wf(),
        ensures
            final(self)@.entries == old(self)@.entries,
            final(self)@.policy == old(self)@.policy,
            found == !old(self)@.lacks(key@),
            without_declaration(old(self)@, key@, final(self)@.source),
    {
        proof {
            dotenv::law_index_laid_out(self@.source, 0);
        }
        match self.find(key) {
            None => false,
            Some(i) => {
                let entry: &EnvEntry = &self.entries[i];
                assert(self@.entries[i as int] == entry@);
                let nothing: Vec<u8> = Vec::new();
                assert(nothing@ =~= Seq::empty());
                let source: Vec<u8> = splice(
                    self.source.as_slice(),
                    entry.start,
                    entry.end,
                    nothing.as_slice(),
                );
                assert(without_declaration(old(self)@, key@, source@));
                self.source = ZeroizingBytes::new(source);
                true
            },
        }
    }

    /// The source with one more declaration.
    fn append(&self, key: &str, encoded: &[u8]) -> (source: Vec<u8>)
        ensures
            source@ == appended(self@.source, encode_utf8(key@), encoded@),
    {
        let before: &[u8] = self.source.as_slice();
        let crlf: bool = contains_crlf(before);
        let ended: bool = before.len() > 0 && before[before.len() - 1] == LINE_FEED;
        let mut source: Vec<u8> = bytes::copy_range(before, 0, before.len());
        if before.len() > 0 && !ended {
            push_line_ending(&mut source, crlf);
        }
        source.extend_from_slice(key.as_bytes());
        source.push(EQUALS);
        source.extend_from_slice(encoded);
        if ended {
            push_line_ending(&mut source, crlf);
        }
        assert(source@ =~= appended(self@.source, encode_utf8(key@), encoded@));
        source
    }
}

/// Reads a document from a file's bytes.
pub fn load_environment_document(encrypted: Vec<u8>, policy: NamePolicy) -> (result: CliResult<
    EnvDocument,
>)
    ensures
        exists|read: Seq<Option<Pair>>| #[trigger]
            environment::reading(encrypted@, read) && parse_outcome(
                encrypted@,
                policy,
                read,
                result,
            ),
{
    EnvDocument::parse(ZeroizingBytes::new(encrypted), policy)
}

} // verus!
