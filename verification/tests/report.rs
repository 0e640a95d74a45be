use hkdf_tree::report::{card_qr, card_text, cover_lines, wrap_text, ReportEntry, ReportMeta};
use qrcode::types::QrError;
use qrcode::{Color, EcLevel, QrCode};

#[test]
fn wrap_text_respects_column_width() {
    let text = "one two three four five six seven eight nine ten";
    let lines = wrap_text(text, 12);
    for line in &lines {
        assert!(line.len() <= 12, "line too long: {line:?}");
    }
}

#[test]
fn wrap_text_handles_empty_string() {
    let lines = wrap_text("", 10);
    assert_eq!(lines, vec![String::new()]);
}

#[test]
fn wrap_text_packs_greedily() {
    let lines = wrap_text("one two three four five six seven eight nine ten", 12);
    assert_eq!(
        lines,
        vec!["one two", "three four", "five six", "seven eight", "nine ten"]
    );
}

#[test]
fn wrap_text_keeps_long_word_alone_and_collapses_whitespace() {
    let lines = wrap_text("  a\tverylongunsplittableword  b \n c ", 5);
    assert_eq!(lines, vec!["a", "verylongunsplittableword", "b c"]);
    assert_eq!(wrap_text(" \t\n ", 3), vec![String::new()]);
}

#[test]
fn wipe_clears_passphrase_only() {
    let mut e = ReportEntry {
        title: "t".to_string(),
        info_string: "a/b/c-v1".to_string(),
        encoding_desc: "numeric/4".to_string(),
        passphrase: "1234".to_string(),
        paper_backup: vec!["safe".to_string()],
        notes: None,
        is_derived: true,
    };
    e.wipe();
    assert_eq!(e.passphrase, "");
    assert_eq!(e.title, "t");
    assert_eq!(e.paper_backup, vec!["safe"]);
}

#[test]
fn card_text_of_derived_entry() {
    let e = ReportEntry {
        title: "Full disk encryption unlock for the daily laptop".to_string(),
        info_string: "alice/laptop/fde-daily-v1".to_string(),
        encoding_desc: "numeric/4".to_string(),
        passphrase: "1234".to_string(),
        paper_backup: vec!["home-safe".to_string(), "bank-vault".to_string()],
        notes: Some("rotate yearly".to_string()),
        is_derived: true,
    };
    let c = card_text(&e);
    assert_eq!(
        c.title_lines,
        vec!["Full disk encryption unlock for", "the daily laptop"]
    );
    assert_eq!(c.phrase_header, "PASSPHRASE");
    assert_eq!(c.phrase_lines, vec!["1234"]);
    assert_eq!(c.paper_backup.as_deref(), Some("home-safe, bank-vault"));
    assert_eq!(c.note_lines, Some(vec!["rotate yearly".to_string()]));
}

#[test]
fn card_text_of_placeholder_entry() {
    let e = ReportEntry {
        title: "pin".to_string(),
        info_string: "a/b/pin-v1".to_string(),
        encoding_desc: "manual".to_string(),
        passphrase: "(not derived)".to_string(),
        paper_backup: Vec::new(),
        notes: None,
        is_derived: false,
    };
    let c = card_text(&e);
    assert_eq!(c.phrase_header, "NOT DERIVED");
    assert_eq!(c.paper_backup, None);
    assert_eq!(c.note_lines, None);
    let one = ReportEntry {
        paper_backup: vec!["safe".to_string()],
        ..e
    };
    assert_eq!(card_text(&one).paper_backup.as_deref(), Some("safe"));
}

#[test]
fn cover_lines_list_count_salt_and_fingerprint() {
    let mut meta = ReportMeta {
        title: "hkdf-tree".to_string(),
        subtitle: "2024-01-01".to_string(),
        seed_fingerprint: None,
        salt_label: None,
    };
    assert_eq!(cover_lines(&meta, 12), vec!["Entries in this report: 12"]);
    meta.salt_label = Some("alice-hkdf-v1".to_string());
    meta.seed_fingerprint = Some("ab12cd34".to_string());
    assert_eq!(
        cover_lines(&meta, 0),
        vec![
            "Entries in this report: 0",
            "HKDF salt: alice-hkdf-v1",
            "Master seed fingerprint: ab12cd34"
        ]
    );
}

#[test]
fn wrap_text_breaks_only_when_next_word_does_not_fit() {
    let lines = wrap_text("aa bbb c dddd ee f gggggggggggggg h", 8);
    assert_eq!(lines, vec!["aa bbb c", "dddd ee", "f", "gggggggggggggg", "h"]);
    for pair in lines.windows(2) {
        let next_first = pair[1].split(' ').next().unwrap();
        assert!(pair[0].len() + 1 + next_first.len() > 8);
    }
}

fn card(passphrase: &str, is_derived: bool) -> ReportEntry {
    ReportEntry {
        title: "t".to_string(),
        info_string: "a/b/c-v1".to_string(),
        encoding_desc: "numeric/8".to_string(),
        passphrase: passphrase.to_string(),
        paper_backup: Vec::new(),
        notes: None,
        is_derived,
    }
}

#[test]
fn card_qr_encodes_the_passphrase_of_derived_cards() {
    let (width, modules) = card_qr(&card("correct horse battery staple", true)).unwrap().unwrap();
    let code = QrCode::with_error_correction_level(b"correct horse battery staple", EcLevel::M).unwrap();
    assert_eq!(width, code.width());
    assert_eq!(modules.len(), width * width);
    let dark: Vec<bool> = code.to_colors().iter().map(|c| *c == Color::Dark).collect();
    assert_eq!(modules, dark);
    // A different passphrase gives a different symbol.
    let (_, other) = card_qr(&card("correct horse battery stapler", true)).unwrap().unwrap();
    assert_ne!(other, modules);
    // Placeholder cards get no QR code.
    assert!(card_qr(&card("(manual — enter your chosen value by hand)", false)).is_none());
    // A payload too long for any QR version is refused.
    let long = "x".repeat(5000);
    assert_eq!(card_qr(&card(&long, true)).unwrap().unwrap_err(), QrError::DataTooLong);
}
