use std::sync::{Arc, Mutex};

use xsec::cli::commands::{get_value, injected, remove_value, set_value};
use xsec::cli::document::{load_environment_document, EnvDocument};
use xsec::cli::dotenv::{index_environment, validate_variable_name};
use xsec::cli::environment::{
    collect_environment, normalized_environment_key, parse_environment, validate_environment,
    zeroize_environment, NamePolicy,
};
use xsec::cli::error::{CliError, CliResult};
use xsec::cli::protection::{
    decrypt_environment_document, decrypt_environment_values, encrypt_environment_document,
};
use xsec::cli::value::{
    decrypt_environment_value, encode_environment_value, encrypt_environment_value, is_encrypted,
    mark_ciphertext, read_environment_value, ENCRYPTED_VALUE_PREFIX, MAX_ENV_FILE_SIZE,
};
use xsec::secret::{SecretBytes, ZeroizingBytes};
use xsec::{XSec, XSecError, XSecPasswordProtector, XSecResult, XSecStorage};

#[derive(Clone, Default)]
struct Mem(Arc<Mutex<Option<Vec<u8>>>>);

impl XSecStorage for Mem {
    fn load(&self) -> XSecResult<Option<Vec<u8>>> {
        Ok(self.0.lock().unwrap().clone())
    }

    fn save(&self, b: &[u8]) -> XSecResult<()> {
        *self.0.lock().unwrap() = Some(b.to_vec());
        Ok(())
    }

    fn delete(&self) -> XSecResult<()> {
        *self.0.lock().unwrap() = None;
        Ok(())
    }
}

fn create_test_xsec() -> XSec<Mem> {
    let protector = XSecPasswordProtector::new(SecretBytes::new(b"password".to_vec()));
    let mut xsec = XSec::new();
    xsec.load(Mem::default()).unwrap();
    xsec.create(&protector).unwrap();
    xsec
}

fn document(source: &[u8]) -> CliResult<EnvDocument> {
    EnvDocument::parse(ZeroizingBytes::new(source.to_vec()), NamePolicy::Exact)
}

fn parsed(source: &[u8]) -> CliResult<Vec<(String, String)>> {
    parse_environment(source, NamePolicy::Exact)
}

fn pair(name: &str, value: &str) -> (String, String) {
    (name.to_owned(), value.to_owned())
}

#[test]
fn set_preserves_document_formatting_and_other_values() {
    let mut document = document(
        b"# heading\r\nexport FIRST = 'old' # keep\r\nMULTI=\"line1\r\nline2\"\r\nEMPTY=   # empty\r\n",
    )
    .unwrap();

    document.set("FIRST", b"new $\"\n\\").unwrap();

    assert_eq!(
        document.source.as_slice(),
        b"# heading\r\nexport FIRST = \"new \\$\\\"\\n\\\\\" # keep\r\nMULTI=\"line1\r\nline2\"\r\nEMPTY=   # empty\r\n"
    );
    validate_environment(document.source.as_slice(), NamePolicy::Exact).unwrap();
}

#[test]
fn set_preserves_an_inline_comment_after_an_empty_value() {
    let mut document = document(b"EMPTY=   # keep\n").unwrap();

    document.set("EMPTY", b"value").unwrap();

    assert_eq!(document.source.as_slice(), b"EMPTY=   \"value\" # keep\n");
}

#[test]
fn set_appends_with_the_existing_newline_style() {
    let mut document = document(b"FIRST=one\r\n").unwrap();

    document.set("SECOND", b"two").unwrap();

    assert_eq!(
        document.source.as_slice(),
        b"FIRST=one\r\nSECOND=\"two\"\r\n"
    );
}

#[test]
fn unset_removes_only_the_exact_multiline_declaration() {
    let mut document =
        document(b"KEY=\"first\nsecond\"\nKEY_SUFFIX=keep\n# trailing\n").unwrap();

    assert!(document.unset("KEY"));

    assert_eq!(document.source.as_slice(), b"KEY_SUFFIX=keep\n# trailing\n");
}

#[test]
fn unset_reports_a_missing_exact_key_without_changes() {
    let source = b"KEY_SUFFIX=keep\n".to_vec();
    let mut document = document(&source).unwrap();

    assert!(!document.unset("KEY"));

    assert_eq!(document.source.as_slice(), source);
}

#[test]
fn environment_value_encoding_round_trips() {
    let encoded = encode_environment_value(b"slash\\ quote\" dollar$ line\n").unwrap();
    let mut document = b"VALUE=".to_vec();
    document.extend_from_slice(encoded.as_slice());
    document.push(b'\n');

    assert_eq!(
        parsed(&document).unwrap(),
        vec![pair("VALUE", "slash\\ quote\" dollar$ line\n")]
    );
}

#[test]
fn encrypts_and_decrypts_each_environment_value() {
    let xsec = create_test_xsec();
    let mut document = document(b"# heading\nFIRST=one # keep\nSECOND=one\n").unwrap();

    encrypt_environment_document(&mut document, &xsec).unwrap();

    let encrypted = parsed(document.source.as_slice()).unwrap();
    assert!(encrypted
        .iter()
        .all(|(_, value)| value.starts_with(ENCRYPTED_VALUE_PREFIX)));
    assert!(encrypted.iter().all(|(_, value)| {
        let encoded = value.strip_prefix(ENCRYPTED_VALUE_PREFIX).unwrap();
        !encoded.contains('=') && !encoded.contains('+') && !encoded.contains('/')
    }));
    assert_ne!(encrypted[0].1, encrypted[1].1);
    let encrypted_source = std::str::from_utf8(document.source.as_slice()).unwrap();
    assert!(encrypted_source.starts_with("# heading\n"));
    assert!(encrypted_source.contains(" # keep\nSECOND=\"xsec:"));

    decrypt_environment_document(&mut document, &xsec).unwrap();

    assert_eq!(
        parsed(document.source.as_slice()).unwrap(),
        vec![pair("FIRST", "one"), pair("SECOND", "one")]
    );
    assert!(document.source.as_slice().starts_with(b"# heading\n"));
}

#[test]
fn encryption_is_idempotent_for_encrypted_values() {
    let xsec = create_test_xsec();
    let mut document = document(b"KEY=value\n").unwrap();
    encrypt_environment_document(&mut document, &xsec).unwrap();
    let encrypted = document.source.as_slice().to_vec();

    encrypt_environment_document(&mut document, &xsec).unwrap();

    assert_eq!(document.source.as_slice(), encrypted);
}

#[test]
fn encrypted_value_is_bound_to_its_key() {
    let xsec = create_test_xsec();
    let encrypted = encrypt_environment_value("FIRST", b"secret", &xsec).unwrap();
    let encrypted = std::str::from_utf8(encrypted.as_slice()).unwrap();

    assert!(matches!(
        decrypt_environment_value("SECOND", encrypted, &xsec),
        Err(CliError::InvalidEncryptedVariable(key)) if key == "SECOND"
    ));
}

#[test]
fn protected_inputs_preserve_plaintext_values() {
    let xsec = create_test_xsec();
    let encrypted = encrypt_environment_value("SECRET", b"secret", &xsec).unwrap();
    let mut source = b"PUBLIC=visible\nSECRET=".to_vec();
    source.extend_from_slice(
        encode_environment_value(encrypted.as_slice())
            .unwrap()
            .as_slice(),
    );
    source.push(b'\n');
    let mut decrypted = document(&source).unwrap();

    let environment = decrypt_environment_values(&document(&source).unwrap(), &xsec).unwrap();
    assert_eq!(
        environment,
        vec![pair("PUBLIC", "visible"), pair("SECRET", "secret")]
    );

    decrypt_environment_document(&mut decrypted, &xsec).unwrap();
    assert_eq!(
        parsed(decrypted.source.as_slice()).unwrap(),
        vec![pair("PUBLIC", "visible"), pair("SECRET", "secret")]
    );
}

#[test]
fn rejects_legacy_whole_document_ciphertext() {
    assert!(matches!(
        load_environment_document(b"XSecCT legacy ciphertext".to_vec(), NamePolicy::Exact),
        Err(CliError::InvalidEnvironment)
    ));
}

#[test]
fn parses_environment_without_mutating_process_environment() {
    let environment = parsed(b"FIRST=one\nSECOND=\"two words\"\n").unwrap();
    assert_eq!(
        environment,
        vec![pair("FIRST", "one"), pair("SECOND", "two words")]
    );
}

#[test]
fn rejects_duplicate_environment_variables() {
    assert!(matches!(
        parsed(b"DUPLICATE=one\nDUPLICATE=two\n"),
        Err(CliError::DuplicateVariable(key)) if key == "DUPLICATE"
    ));
}

#[test]
fn names_are_compared_by_policy() {
    let source = b"Name=one\nNAME=two\n";
    assert!(parse_environment(source, NamePolicy::Exact).is_ok());
    assert!(matches!(
        parse_environment(source, NamePolicy::AsciiCaseInsensitive),
        Err(CliError::DuplicateVariable(key)) if key == "NAME"
    ));
    assert_eq!(
        normalized_environment_key("a_b\u{e4}Z", NamePolicy::AsciiCaseInsensitive),
        "A_B\u{e4}Z"
    );
    assert_eq!(normalized_environment_key("a", NamePolicy::Exact), "a");
    let folded = EnvDocument::parse(
        ZeroizingBytes::new(b"Name=one\n".to_vec()),
        NamePolicy::AsciiCaseInsensitive,
    )
    .unwrap();
    assert_eq!(folded.stored_name("NAME"), Some("Name"));
    assert_eq!(document(b"Name=one\n").unwrap().stored_name("NAME"), None);
}

#[test]
fn the_first_bad_declaration_is_reported() {
    let read = vec![Some(pair("A", "1")), Some(pair("B", "\0")), None];
    assert!(matches!(
        collect_environment(read, NamePolicy::Exact),
        Err(CliError::InvalidVariable(key)) if key == "B"
    ));
    let read = vec![Some(pair("A", "1")), None, Some(pair("A", "1"))];
    assert!(matches!(
        collect_environment(read, NamePolicy::Exact),
        Err(CliError::InvalidEnvironment)
    ));
    let read = vec![Some(pair("A", "1")), Some(pair("A", "2"))];
    assert!(matches!(
        collect_environment(read, NamePolicy::Exact),
        Err(CliError::DuplicateVariable(key)) if key == "A"
    ));
    assert!(matches!(parsed(b"A=\"open\n"), Err(CliError::InvalidEnvironment)));
    assert!(matches!(parsed(b"A=\0\n"), Err(CliError::InvalidVariable(key)) if key == "A"));
}

#[test]
fn zeroized_variables_are_empty() {
    let mut environment = vec![pair("A", "1"), pair("B", "2")];
    zeroize_environment(&mut environment);
    assert_eq!(environment, vec![pair("", ""), pair("", "")]);
}

#[test]
fn every_declaration_is_indexed() {
    let source = b"# note\n\nexport A = 'x y' # c\nB.c=\"1\n2\"\r\nexport=z\nD=";
    let entries = index_environment(source).unwrap();
    let names: Vec<&str> = entries.iter().map(|entry| entry.name.as_str()).collect();
    assert_eq!(names, vec!["A", "B.c", "export", "D"]);
    assert_eq!(&source[entries[0].value_start..entries[0].value_end], b"'x y'");
    assert_eq!(&source[entries[1].value_start..entries[1].value_end], b"\"1\n2\"");
    assert_eq!(&source[entries[1].start..entries[1].end], b"B.c=\"1\n2\"\r\n");
    assert_eq!(&source[entries[2].value_start..entries[2].value_end], b"z");
    assert_eq!(entries[3].value_start, source.len());
    assert!(matches!(index_environment(b"1A=x"), Err(CliError::InvalidEnvironment)));
    assert!(matches!(index_environment(b"A x"), Err(CliError::InvalidEnvironment)));
    assert!(matches!(index_environment(b"A=\xff"), Err(CliError::InvalidEnvironment)));
    assert!(index_environment(b"").unwrap().is_empty());
}

#[test]
fn names_are_checked() {
    for name in ["A", "_", "a.b_9", "export"] {
        assert!(validate_variable_name(name).is_ok());
    }
    for name in ["", "9A", ".a", "A-B", "\u{e4}"] {
        assert!(matches!(
            validate_variable_name(name),
            Err(CliError::InvalidVariableName(found)) if found == name
        ));
    }
}

#[test]
fn entered_values_are_checked() {
    assert_eq!(
        read_environment_value("a\nb".to_owned()).unwrap().as_slice(),
        b"a\nb"
    );
    assert!(read_environment_value("x".repeat(MAX_ENV_FILE_SIZE)).is_ok());
    assert!(matches!(
        read_environment_value("x".repeat(MAX_ENV_FILE_SIZE + 1)),
        Err(CliError::EnvironmentValueTooLarge)
    ));
    for value in ["a\0", "a\rb"] {
        assert!(matches!(
            read_environment_value(value.to_owned()),
            Err(CliError::InvalidEnvironmentValue)
        ));
    }
}

#[test]
fn values_are_quoted() {
    assert_eq!(
        encode_environment_value(b"a\\b\"c$d\ne\r").unwrap().as_slice(),
        b"\"a\\\\b\\\"c\\$d\\ne\r\""
    );
    assert_eq!(encode_environment_value(b"").unwrap().as_slice(), b"\"\"");
    assert!(matches!(
        encode_environment_value(b"\0"),
        Err(CliError::InvalidEnvironmentValue)
    ));
    assert!(matches!(
        encode_environment_value(b"\xff"),
        Err(CliError::InvalidEnvironmentValue)
    ));
}

#[test]
fn ciphertexts_are_marked_in_base64() {
    assert_eq!(mark_ciphertext(b"").as_slice(), b"xsec:");
    assert_eq!(mark_ciphertext(b"\x00").as_slice(), b"xsec:AA");
    assert_eq!(mark_ciphertext(b"fo").as_slice(), b"xsec:Zm8");
    assert_eq!(mark_ciphertext(b"foo").as_slice(), b"xsec:Zm9v");
    assert_eq!(mark_ciphertext(b"\xfb\xff\xbf\xff").as_slice(), b"xsec:-_-__w");
    assert!(is_encrypted("xsec:"));
    assert!(!is_encrypted("xsec"));
}

#[test]
fn a_malformed_protected_value_is_rejected() {
    let xsec = create_test_xsec();
    for value in ["xsec:", "xsec:A", "xsec:AB", "xsec:????", "xsec:AA=="] {
        assert!(matches!(
            decrypt_environment_value("KEY", value, &xsec),
            Err(CliError::InvalidEncryptedVariable(key)) if key == "KEY"
        ));
    }
    assert_eq!(
        decrypt_environment_value("KEY", "plain", &xsec).unwrap().as_slice(),
        b"plain"
    );
    let broken = document(b"A=1\nB=xsec:AA\n").unwrap();
    assert!(matches!(
        decrypt_environment_values(&broken, &xsec),
        Err(CliError::InvalidEncryptedVariable(key)) if key == "B"
    ));
    let mut again = document(b"A=1\nB=xsec:AA\n").unwrap();
    assert!(encrypt_environment_document(&mut again, &xsec).is_err());
    assert_eq!(again.source.as_slice(), b"A=1\nB=xsec:AA\n");
}

#[test]
fn a_locked_key_protects_nothing() {
    let mut xsec = create_test_xsec();
    xsec.lock().unwrap();
    assert!(matches!(
        encrypt_environment_value("KEY", b"x", &xsec),
        Err(CliError::XSec(XSecError::Locked))
    ));
    let mut document = document(b"KEY=x\n").unwrap();
    assert!(matches!(
        encrypt_environment_document(&mut document, &xsec),
        Err(CliError::XSec(XSecError::Locked))
    ));
    assert_eq!(document.source.as_slice(), b"KEY=x\n");
}

#[test]
fn what_is_set_is_found() {
    let xsec = create_test_xsec();
    let mut first = document(b"").unwrap();
    set_value(&mut first, "TOKEN", b"one $\"two\"\\\n", &xsec).unwrap();
    let mut second = document(first.source.as_slice()).unwrap();
    set_value(&mut second, "OTHER", b"three", &xsec).unwrap();
    let mut third = document(second.source.as_slice()).unwrap();
    set_value(&mut third, "TOKEN", b"four", &xsec).unwrap();

    let read = |source: &[u8], key: &str| {
        let environment = parsed(source).unwrap();
        get_value(environment, key, NamePolicy::Exact, &xsec)
            .unwrap()
            .map(|value| value.as_slice().to_vec())
    };
    assert_eq!(
        read(first.source.as_slice(), "TOKEN"),
        Some(b"one $\"two\"\\\n".to_vec())
    );
    assert_eq!(read(third.source.as_slice(), "TOKEN"), Some(b"four".to_vec()));
    assert_eq!(read(third.source.as_slice(), "OTHER"), Some(b"three".to_vec()));
    assert_eq!(read(third.source.as_slice(), "NONE"), None);

    let mut fourth = document(third.source.as_slice()).unwrap();
    assert!(remove_value(&mut fourth, "TOKEN").unwrap());
    assert_eq!(read(fourth.source.as_slice(), "TOKEN"), None);
    assert_eq!(read(fourth.source.as_slice(), "OTHER"), Some(b"three".to_vec()));
    assert!(!remove_value(&mut fourth, "NONE").unwrap());
}

#[test]
fn get_reports_a_value_that_does_not_decrypt() {
    let xsec = create_test_xsec();
    assert!(matches!(
        get_value(vec![pair("A", "xsec:AA")], "A", NamePolicy::Exact, &xsec),
        Err(CliError::InvalidEncryptedVariable(key)) if key == "A"
    ));
}

#[test]
fn a_written_document_is_protected_and_revealed_byte_for_byte() {
    let xsec = create_test_xsec();
    let source = b"A=\"one\"\nB=\"two \\$ \\\"\\\\\\n\"\n";
    let mut changed = document(source).unwrap();
    encrypt_environment_document(&mut changed, &xsec).unwrap();
    assert_ne!(changed.source.as_slice(), source);
    decrypt_environment_document(&mut changed, &xsec).unwrap();
    assert_eq!(changed.source.as_slice(), source);
}

#[test]
fn a_document_that_grows_too_long_is_refused() {
    let xsec = create_test_xsec();
    let mut source = b"A=\"".to_vec();
    source.extend_from_slice(&vec![b'x'; MAX_ENV_FILE_SIZE]);
    source.extend_from_slice(b"\"\n");
    let mut changed = document(&source).unwrap();
    encrypt_environment_document(&mut changed, &xsec).unwrap();
    assert!(matches!(
        decrypt_environment_document(&mut changed, &xsec),
        Err(CliError::DecryptedEnvironmentTooLarge)
    ));
    let mut set = document(b"").unwrap();
    assert!(matches!(
        set.set("A", &vec![b'x'; 16 * MAX_ENV_FILE_SIZE]),
        Err(CliError::UpdatedEnvironmentTooLarge)
    ));
}

#[test]
fn only_missing_variables_are_injected() {
    let environment = vec![pair("A", "1"), pair("B", "2")];
    assert_eq!(
        injected(&environment, &vec![true, false], false),
        vec![pair("B", "2")]
    );
    assert_eq!(
        injected(&environment, &vec![true, false], true),
        vec![pair("A", "1"), pair("B", "2")]
    );
}

/// The text of each declaration, by name, and the text of its value.
fn declarations(source: &[u8]) -> Vec<(String, Vec<u8>, Vec<u8>)> {
    index_environment(source)
        .unwrap()
        .into_iter()
        .map(|entry| {
            (
                entry.name,
                source[entry.start..entry.end].to_vec(),
                source[entry.value_start..entry.value_end].to_vec(),
            )
        })
        .collect()
}

const MIXED: &[u8] = b"# note\nexport A = 'x y' # c\nB=\"1\n2\"\r\n\nC=z";

#[test]
fn unset_leaves_the_other_declarations() {
    let before = declarations(MIXED);
    for (i, name) in ["A", "B", "C"].into_iter().enumerate() {
        let mut document = document(MIXED).unwrap();
        assert!(document.unset(name));
        let mut expected = before.clone();
        expected.remove(i);
        assert_eq!(declarations(document.source.as_slice()), expected);
    }
}

#[test]
fn set_replaces_one_value_and_leaves_the_other_declarations() {
    let before = declarations(MIXED);
    for (i, name) in ["A", "B", "C"].into_iter().enumerate() {
        let mut document = document(MIXED).unwrap();
        document.set(name, b"new \"value\"\nhere").unwrap();
        let after = declarations(document.source.as_slice());
        assert_eq!(after.len(), before.len());
        for (j, (old, new)) in before.iter().zip(&after).enumerate() {
            if i == j {
                assert_eq!(new.0, old.0);
                assert_eq!(new.2, b"\"new \\\"value\\\"\\nhere\"");
            } else {
                assert_eq!(new, old);
            }
        }
    }
}

#[test]
fn set_adds_one_declaration_behind_the_others() {
    let before = declarations(MIXED);
    let mut document = document(MIXED).unwrap();
    document.set("D", b"new").unwrap();
    let after = declarations(document.source.as_slice());
    assert_eq!(after[..2], before[..2]);
    assert_eq!(after[2], ("C".to_owned(), b"C=z\r\n".to_vec(), b"z".to_vec()));
    assert_eq!(after[3], ("D".to_owned(), b"D=\"new\"".to_vec(), b"\"new\"".to_vec()));
    assert_eq!(after.len(), 4);
}

#[test]
fn encryption_preserves_an_inline_comment_after_an_empty_value() {
    let xsec = create_test_xsec();
    let mut document = document(b"EMPTY=   # keep\n").unwrap();

    encrypt_environment_document(&mut document, &xsec).unwrap();

    let source = std::str::from_utf8(document.source.as_slice()).unwrap().to_owned();
    assert!(source.starts_with("EMPTY=   \"xsec:"));
    assert!(source.ends_with("\" # keep\n"));
    assert!(parsed(source.as_bytes()).unwrap()[0].1.starts_with(ENCRYPTED_VALUE_PREFIX));

    decrypt_environment_document(&mut document, &xsec).unwrap();

    assert_eq!(document.source.as_slice(), b"EMPTY=   \"\" # keep\n");
    assert_eq!(parsed(document.source.as_slice()).unwrap(), vec![pair("EMPTY", "")]);
}

/// Comments, blank lines, all kinds of quotes and escapes, and an unended last line.
const PLAIN: &[u8] = b"# it's a heading\n\n\t # indented \"\r\nexport A = 'one two' # it's kept\r\n\
B=three\\ four\\n  # five\nC=\"six\nseven \\\"\\$\"\nD=#nothing\nE=  \nF=a#b'c'\"d\"\nlast.1=\xC3\xA9";

fn spoken() -> Vec<(String, String)> {
    vec![
        pair("A", "one two"),
        pair("B", "three four\n"),
        pair("C", "six\nseven \"$"),
        pair("D", ""),
        pair("E", ""),
        pair("F", "a#bcd"),
        pair("last.1", "\u{e9}"),
    ]
}

#[test]
fn a_plain_document_is_read_as_it_says() {
    assert_eq!(parsed(PLAIN).unwrap(), spoken());
}

#[test]
fn protecting_and_revealing_a_plain_document_keeps_what_it_says() {
    let xsec = create_test_xsec();
    let mut document = document(PLAIN).unwrap();

    encrypt_environment_document(&mut document, &xsec).unwrap();
    let protected = document.source.as_slice().to_vec();
    let names: Vec<String> =
        parsed(&protected).unwrap().into_iter().map(|(name, _)| name).collect();
    assert_eq!(names, ["A", "B", "C", "D", "E", "F", "last.1"]);
    encrypt_environment_document(&mut document, &xsec).unwrap();
    assert_eq!(document.source.as_slice(), protected);

    decrypt_environment_document(&mut document, &xsec).unwrap();
    assert_eq!(parsed(document.source.as_slice()).unwrap(), spoken());
    assert_eq!(
        document.source.as_slice(),
        b"# it's a heading\n\n\t # indented \"\r\nexport A = \"one two\" # it's kept\r\n\
B=\"three four\\n\"  # five\nC=\"six\\nseven \\\"\\$\"\nD=\"\" #nothing\nE=  \"\"\n\
F=\"a#bcd\"\nlast.1=\"\xC3\xA9\""
    );
}

#[test]
fn setting_and_removing_in_a_plain_document_changes_one_variable() {
    let xsec = create_test_xsec();
    let mut changed = document(PLAIN).unwrap();
    set_value(&mut changed, "B", b"new", &xsec).unwrap();
    let mut expected = spoken();
    expected[1].1 = "new".to_owned();
    let read = document(changed.source.as_slice()).unwrap();
    assert_eq!(decrypt_environment_values(&read, &xsec).unwrap(), expected);

    let mut grown = document(PLAIN).unwrap();
    set_value(&mut grown, "G", b"more", &xsec).unwrap();
    let mut expected = spoken();
    expected.push(pair("G", "more"));
    let read = document(grown.source.as_slice()).unwrap();
    assert_eq!(decrypt_environment_values(&read, &xsec).unwrap(), expected);

    let mut shrunk = document(PLAIN).unwrap();
    assert!(remove_value(&mut shrunk, "C").unwrap());
    let mut expected = spoken();
    expected.remove(2);
    assert_eq!(parsed(shrunk.source.as_slice()).unwrap(), expected);
}

#[test]
fn a_quoted_document_is_restored_byte_for_byte() {
    let xsec = create_test_xsec();
    let source = b"# top\nA=\"one\"\n\n  B = \"two\\n\" # note\r\nC=\"\"";
    let mut document = document(source).unwrap();
    encrypt_environment_document(&mut document, &xsec).unwrap();
    assert_ne!(document.source.as_slice(), source);
    decrypt_environment_document(&mut document, &xsec).unwrap();
    assert_eq!(document.source.as_slice(), source);
}

#[test]
fn a_document_that_draws_on_a_variable_is_encrypted_as_it_was_read() {
    let xsec = create_test_xsec();
    let source = b"BASE=one\nNEXT=${BASE}two # it's here\nLAST='three'  # \"kept\"\n";
    let mut document = document(source).unwrap();
    let read = parsed(source).unwrap();
    assert_eq!(
        read,
        vec![pair("BASE", "one"), pair("NEXT", "onetwo"), pair("LAST", "three")]
    );

    encrypt_environment_document(&mut document, &xsec).unwrap();
    let protected = document.source.as_slice().to_vec();
    encrypt_environment_document(&mut document, &xsec).unwrap();
    assert_eq!(document.source.as_slice(), protected);

    decrypt_environment_document(&mut document, &xsec).unwrap();
    assert_eq!(parsed(document.source.as_slice()).unwrap(), read);
    assert_eq!(
        document.source.as_slice(),
        b"BASE=\"one\"\nNEXT=\"onetwo\" # it's here\nLAST=\"three\"  # \"kept\"\n"
    );
}

#[test]
fn a_variable_is_set_and_removed_beside_one_that_draws_on_another() {
    let xsec = create_test_xsec();
    let source = b"BASE=one\nNEXT=$BASE\n";
    let mut changed = document(source).unwrap();
    set_value(&mut changed, "BASE", b"new", &xsec).unwrap();
    let now = parsed(changed.source.as_slice()).unwrap();
    let found = get_value(now, "BASE", NamePolicy::Exact, &xsec).unwrap().unwrap();
    assert_eq!(found.as_slice(), b"new");

    let mut shrunk = document(source).unwrap();
    assert!(remove_value(&mut shrunk, "BASE").unwrap());
    let now = parsed(shrunk.source.as_slice()).unwrap();
    assert_eq!(now.len(), 1);
    assert_eq!(now[0].0, "NEXT");
    assert!(get_value(now, "BASE", NamePolicy::Exact, &xsec).unwrap().is_none());
}
