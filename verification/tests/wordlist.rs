use hkdf_tree::wordlist::{builtin, file_words, parse, resolve, Builtin, WordSource, WordlistError};

#[test]
fn rejects_unknown_builtin() {
    let err = resolve("no-such-list", false).unwrap_err();
    assert!(matches!(err, WordlistError::UnknownBuiltin(_)));
}

#[test]
fn parse_handles_tab_separated_format() {
    let raw = "11111\tabacus\n11112\tabdomen\n";
    let words = parse(raw);
    assert_eq!(words, vec!["abacus", "abdomen"]);
}

#[test]
fn parse_handles_plain_format() {
    let raw = "abacus\nabdomen\n";
    let words = parse(raw);
    assert_eq!(words, vec!["abacus", "abdomen"]);
}

#[test]
fn parse_skips_blank_lines_and_trims() {
    let raw = "\n  abacus  \n\n\tabdomen\n\n";
    let words = parse(raw);
    assert_eq!(words, vec!["abacus", "abdomen"]);
}

// ---------------------------------------------------------------------------
// Further cases
// ---------------------------------------------------------------------------

#[test]
fn resolves_builtin_name() {
    assert!(matches!(resolve("eff_large", false), Ok(WordSource::Builtin(Builtin::EffLarge))));
    assert_eq!(builtin("eff_large"), Some(Builtin::EffLarge));
    assert_eq!(builtin("eff_short"), None);
}

#[test]
fn resolves_paths_and_existing_files() {
    match resolve("./lists/words.txt", false) {
        Ok(WordSource::File(p)) => assert_eq!(p, "./lists/words.txt"),
        _ => panic!("expected a file"),
    }
    match resolve("words.txt", true) {
        Ok(WordSource::File(p)) => assert_eq!(p, "words.txt"),
        _ => panic!("expected a file"),
    }
    match resolve("words.txt", false) {
        Err(WordlistError::UnknownBuiltin(n)) => assert_eq!(n, "words.txt"),
        _ => panic!("expected an unknown builtin"),
    }
}

#[test]
fn parse_takes_text_after_last_tab_and_crlf() {
    let raw = "1\t2\t  alpha \r\nbeta\r\n   \r\ngamma";
    assert_eq!(parse(raw), vec!["alpha", "beta", "gamma"]);
}

#[test]
fn file_words_rejects_empty_file() {
    match file_words("list.txt", " \n\n\t\n") {
        Err(WordlistError::Empty(p)) => assert_eq!(p, "list.txt"),
        _ => panic!("expected an empty-wordlist error"),
    }
    assert_eq!(file_words("list.txt", "a\nb\n").unwrap(), vec!["a", "b"]);
    assert_eq!(
        WordlistError::Empty("list.txt".to_string()).message(),
        "wordlist list.txt contains no words"
    );
    assert_eq!(
        WordlistError::UnknownBuiltin("x".to_string()).message(),
        "unknown built-in wordlist: x"
    );
}

#[test]
fn resolves_eff_large_builtin() {
    // The built-in name resolves to the embedded list, even when a file of
    // that name exists; the words themselves are embedded by the tool.
    assert!(matches!(resolve("eff_large", false), Ok(WordSource::Builtin(Builtin::EffLarge))));
    assert!(matches!(resolve("eff_large", true), Ok(WordSource::Builtin(Builtin::EffLarge))));
    assert_eq!(builtin("eff_large"), Some(Builtin::EffLarge));
    // EFF-format lines parse to their words, in order.
    let words = parse("11111\tabacus\n11112\tabdomen\n11113\tabdominal\n");
    assert_eq!(words, vec!["abacus", "abdomen", "abdominal"]);
}
