use hkdf_tree::commands::{
    report_card,
    check_derivable, check_selection, derive_passphrase, encode_for_entry, encoding_fits, first_salt,
    format_derivation, format_encoding, format_status, list_lines, passes_filters, placeholder,
    report_entry, report_title, select_entries, to_hex, DerivationFilter, PassphraseError, Refusal,
    SelectionError, StatusFilter, DERIVE_BUFFER_BYTES,
};
use hkdf_tree::derive_bytes;
use hkdf_tree::encoding::{encode_alphanumeric, encode_numeric, EncodeError};
use hkdf_tree::inventory::{Derivation, Domain, Encoding, Inventory, Purpose, Realm, Status, Version};

const SEED: &[u8] = b"deterministic-test-master-seed-32bytes";

fn version(encoding: Encoding, derivation: Derivation, status: Status) -> Version {
    Version {
        encoding,
        derivation,
        status,
        memorized: None,
        paper_backup: Vec::new(),
        notes: None,
    }
}

/// alice/laptop/{fde-daily (numeric 8, hkdf, active), uefi-pin (numeric 8, hkdf, active)},
/// alice/github/old-account (alphanumeric 12, manual, retired) -- in key order.
fn sample() -> Inventory {
    let purpose = |usage: Option<&str>, v: Version| Purpose {
        usage: usage.map(|s| s.to_string()),
        versions: vec![(1, v)],
    };
    let mut fde = version(Encoding::Numeric { length: 8 }, Derivation::Hkdf, Status::Active);
    fde.paper_backup = vec!["home-safe".to_string(), "bank-vault".to_string()];
    fde.notes = Some("printed twice".to_string());
    let laptop = Realm {
        kind: None,
        description: None,
        purposes: vec![
            ("fde-daily".to_string(), purpose(Some("disk unlock"), fde)),
            (
                "uefi-pin".to_string(),
                purpose(
                    None,
                    version(Encoding::Numeric { length: 8 }, Derivation::Hkdf, Status::Active),
                ),
            ),
        ],
    };
    let github = Realm {
        kind: None,
        description: None,
        purposes: vec![(
            "old-account".to_string(),
            purpose(
                None,
                version(Encoding::Alphanumeric { length: 12 }, Derivation::Manual, Status::Retired),
            ),
        )],
    };
    Inventory {
        schema_version: 1,
        domains: vec![(
            "alice".to_string(),
            Domain {
                salt: "alice-hkdf-v1".to_string(),
                description: None,
                realms: vec![("github".to_string(), github), ("laptop".to_string(), laptop)],
            },
        )],
    }
}

#[test]
fn filters_match_named_values() {
    assert!(StatusFilter::Active.matches(Status::Active));
    assert!(!StatusFilter::Active.matches(Status::Retired));
    assert!(DerivationFilter::ServiceGenerated.matches(Derivation::ServiceGenerated));
    assert!(!DerivationFilter::Hkdf.matches(Derivation::Manual));
    assert!(passes_filters(&[], &[], Status::Reserved, Derivation::Manual));
    assert!(passes_filters(&[StatusFilter::Retired, StatusFilter::Active], &[], Status::Active, Derivation::Manual));
    assert!(!passes_filters(&[StatusFilter::Retired], &[DerivationFilter::Manual], Status::Active, Derivation::Manual));
}

#[test]
fn formats() {
    assert_eq!(format_derivation(Derivation::ServiceGenerated), "service-generated");
    assert_eq!(format_status(Status::Reserved), "reserved");
    assert_eq!(
        format_encoding(&Encoding::Diceware { wordlist: "eff_large".to_string(), length: 8 }),
        "diceware/eff_large/8"
    );
    assert_eq!(format_encoding(&Encoding::Base64 { bytes: 32 }), "base64/32");
    assert_eq!(format_encoding(&Encoding::Numeric { length: 10 }), "numeric/10");
    assert_eq!(format_encoding(&Encoding::Alphanumeric { length: 0 }), "alphanumeric/0");
}

#[test]
fn list_prints_all_entries_sorted() {
    let inv = sample();
    assert_eq!(
        list_lines(&inv, false, &[], &[]),
        vec!["alice/github/old-account-v1", "alice/laptop/fde-daily-v1", "alice/laptop/uefi-pin-v1"]
    );
}

#[test]
fn list_verbose_and_filters() {
    let inv = sample();
    assert_eq!(
        list_lines(&inv, true, &[StatusFilter::Retired], &[]),
        vec!["alice/github/old-account-v1\tmanual\tretired\talphanumeric/12"]
    );
    assert_eq!(
        list_lines(&inv, false, &[], &[DerivationFilter::Hkdf]),
        vec!["alice/laptop/fde-daily-v1", "alice/laptop/uefi-pin-v1"]
    );
    assert!(list_lines(&inv, false, &[StatusFilter::Reserved], &[]).is_empty());
}

#[test]
fn show_refuses_manual_and_service_generated() {
    assert_eq!(check_derivable(Derivation::Hkdf), Ok(()));
    assert_eq!(check_derivable(Derivation::Manual), Err(Refusal::Manual));
    assert_eq!(check_derivable(Derivation::ServiceGenerated), Err(Refusal::ServiceGenerated));
}

#[test]
fn show_numeric_produces_pin() {
    let inv = sample();
    let e = inv.find_entry("alice/laptop/uefi-pin-v1").unwrap();
    let pin = derive_passphrase(SEED, &e, &[]).unwrap();
    assert_eq!(pin.len(), 8);
    assert!(pin.chars().all(|c| c.is_ascii_digit()));
    // The same as deriving and encoding by hand.
    let raw = derive_bytes(SEED, b"alice-hkdf-v1", b"alice/laptop/uefi-pin-v1", DERIVE_BUFFER_BYTES).unwrap();
    assert_eq!(pin, encode_numeric(&raw, 8).unwrap());
    // Deterministic, and distinct per entry.
    assert_eq!(pin, derive_passphrase(SEED, &e, &[]).unwrap());
    let other = inv.find_entry("alice/laptop/fde-daily-v1").unwrap();
    assert_ne!(pin, derive_passphrase(SEED, &other, &[]).unwrap());
}

#[test]
fn derive_empty_seed_is_error() {
    let inv = sample();
    let e = inv.find_entry("alice/laptop/uefi-pin-v1").unwrap();
    assert_eq!(derive_passphrase(&[], &e, &[]).unwrap_err(), PassphraseError::EmptySeed);
}

#[test]
fn encode_for_entry_dispatches() {
    let raw = [0u8; 16];
    assert_eq!(
        encode_for_entry(&raw, &Encoding::Diceware { wordlist: "x".to_string(), length: 2 }, &["w0", "w1"]).unwrap(),
        "w0 w0"
    );
    assert_eq!(
        encode_for_entry(&raw, &Encoding::Alphanumeric { length: 3 }, &[]).unwrap(),
        encode_alphanumeric(&raw, 3).unwrap()
    );
    assert_eq!(encode_for_entry(&raw, &Encoding::Base64 { bytes: 3 }, &[]).unwrap(), "AAAA");
    assert_eq!(
        encode_for_entry(&raw, &Encoding::Base64 { bytes: 17 }, &[]).unwrap_err(),
        EncodeError::InsufficientEntropy
    );
}

#[test]
fn encoding_limits() {
    assert!(encoding_fits(128, &Encoding::Numeric { length: 8 }, &[]));
    assert!(!encoding_fits(128, &Encoding::Numeric { length: usize::MAX }, &[]));
    assert!(encoding_fits(128, &Encoding::Numeric { length: 0 }, &[]));
    assert!(!encoding_fits(
        128,
        &Encoding::Diceware { wordlist: "x".to_string(), length: usize::MAX / 2 },
        &["abc"]
    ));
    assert!(encoding_fits(128, &Encoding::Diceware { wordlist: "x".to_string(), length: 8 }, &["abc"]));
    assert!(encoding_fits(128, &Encoding::Base64 { bytes: 200 }, &[]));
}

#[test]
fn hex_is_lowercase_two_digits_per_byte() {
    assert_eq!(to_hex(&[0x00, 0x0f, 0xa5, 0xff]), "000fa5ff");
    assert_eq!(to_hex(&[]), "");
}

#[test]
fn report_entry_filter_selects_one_card() {
    let inv = sample();
    let requested = vec!["alice/laptop/fde-daily-v1".to_string()];
    let sel = select_entries(&inv, &requested, &[StatusFilter::Retired], &[]);
    assert_eq!(sel.entries.len(), 1);
    assert_eq!(sel.entries[0].info_string, "alice/laptop/fde-daily-v1");
    assert!(sel.missing.is_empty());
    assert!(check_selection(sel.entries.len(), sel.missing).is_ok());
}

#[test]
fn report_unknown_entry_is_rejected() {
    let inv = sample();
    let requested = vec![
        "zed/x/y-v1".to_string(),
        "alice/laptop/fde-daily-v1".to_string(),
        "alice/laptop/typo-v1".to_string(),
        "zed/x/y-v1".to_string(),
    ];
    let sel = select_entries(&inv, &requested, &[], &[]);
    assert_eq!(sel.entries.len(), 1);
    assert_eq!(sel.missing, vec!["alice/laptop/typo-v1", "zed/x/y-v1"]);
    match check_selection(sel.entries.len(), sel.missing) {
        Err(SelectionError::NotInInventory(m)) => assert_eq!(m, vec!["alice/laptop/typo-v1", "zed/x/y-v1"]),
        _ => panic!("expected unknown entries"),
    }
}

#[test]
fn report_empty_selection_is_rejected() {
    let inv = sample();
    let sel = select_entries(&inv, &[], &[StatusFilter::Reserved], &[]);
    assert!(sel.entries.is_empty());
    assert!(matches!(check_selection(0, sel.missing), Err(SelectionError::NothingSelected)));
}

#[test]
fn report_filters_apply_without_requests() {
    let inv = sample();
    let sel = select_entries(&inv, &[], &[], &[DerivationFilter::Manual]);
    assert_eq!(sel.entries.len(), 1);
    assert_eq!(sel.entries[0].info_string, "alice/github/old-account-v1");
    assert_eq!(first_salt(&sel.entries), Some("alice-hkdf-v1".to_string()));
}

#[test]
fn report_cards() {
    let inv = sample();
    let fde = inv.find_entry("alice/laptop/fde-daily-v1").unwrap();
    assert_eq!(report_title(&fde), "disk unlock");
    let old = inv.find_entry("alice/github/old-account-v1").unwrap();
    assert_eq!(report_title(&old), "old-account-v1");
    let card = report_entry(&fde, "12345678".to_string(), true);
    assert_eq!(card.title, "disk unlock");
    assert_eq!(card.info_string, "alice/laptop/fde-daily-v1");
    assert_eq!(card.encoding_desc, "numeric/8");
    assert_eq!(card.passphrase, "12345678");
    assert_eq!(card.paper_backup, vec!["home-safe", "bank-vault"]);
    assert_eq!(card.notes.as_deref(), Some("printed twice"));
    assert!(card.is_derived);
    assert_eq!(placeholder(Refusal::Manual), "(manual — enter your chosen value by hand)");
    assert_eq!(
        placeholder(Refusal::ServiceGenerated),
        "(service-generated — paste recovery codes from the provider)"
    );
}

#[test]
fn report_card_derives_hkdf_entries_only() {
    let inv = sample();
    let pin = inv.find_entry("alice/laptop/uefi-pin-v1").unwrap();
    let card = report_card(SEED, &pin, &[]).unwrap();
    assert!(card.is_derived);
    assert_eq!(card.passphrase, derive_passphrase(SEED, &pin, &[]).unwrap());
    assert_eq!(card.info_string, "alice/laptop/uefi-pin-v1");
    assert_eq!(card.encoding_desc, "numeric/8");

    let old = inv.find_entry("alice/github/old-account-v1").unwrap();
    let card = report_card(SEED, &old, &[]).unwrap();
    assert!(!card.is_derived);
    assert_eq!(card.passphrase, placeholder(Refusal::Manual));
    // Nothing is derived for a manual entry, so an empty seed is no error.
    assert!(report_card(&[], &old, &[]).is_ok());

    assert_eq!(report_card(&[], &pin, &[]).unwrap_err(), PassphraseError::EmptySeed);
}
