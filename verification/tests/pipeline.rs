//! The command-line pipeline, driven through the library: hex output of
//! `derive`, the lines of `list`, and the lookups and derivations of `show`,
//! on the inventory the command-line examples use.

use hkdf_tree::commands::{
    check_derivable, derive_passphrase, list_lines, to_hex, DerivationFilter, Refusal, StatusFilter,
};
use hkdf_tree::derive_bytes;
use hkdf_tree::inventory::{Derivation, Domain, Encoding, Inventory, Purpose, Realm, Status, Version};

/// A fixed master seed used across the deterministic tests.
const SEED: &[u8] = b"deterministic-test-master-seed-32bytes";

fn version(encoding: Encoding, derivation: Derivation, status: Status) -> Version {
    Version {
        encoding,
        derivation,
        status,
        memorized: None,
        paper_backup: Vec::new(),
        notes: None,
    }
}

fn purpose(v: Version) -> Purpose {
    Purpose {
        usage: None,
        versions: vec![(1, v)],
    }
}

/// alice/laptop/{fde-daily (diceware eff_large 6), uefi-pin (numeric 8)},
/// both `hkdf` and active; alice/github/old-account (alphanumeric 12,
/// manual, retired). Keys in ascending order, as read from a document.
fn minimal_inventory() -> Inventory {
    let laptop = Realm {
        kind: None,
        description: None,
        purposes: vec![
            (
                "fde-daily".to_string(),
                purpose(version(
                    Encoding::Diceware {
                        wordlist: "eff_large".to_string(),
                        length: 6,
                    },
                    Derivation::Hkdf,
                    Status::Active,
                )),
            ),
            (
                "uefi-pin".to_string(),
                purpose(version(Encoding::Numeric { length: 8 }, Derivation::Hkdf, Status::Active)),
            ),
        ],
    };
    let github = Realm {
        kind: None,
        description: None,
        purposes: vec![(
            "old-account".to_string(),
            purpose(version(
                Encoding::Alphanumeric { length: 12 },
                Derivation::Manual,
                Status::Retired,
            )),
        )],
    };
    Inventory {
        schema_version: 1,
        domains: vec![(
            "alice".to_string(),
            Domain {
                salt: "alice-hkdf-v1".to_string(),
                description: None,
                realms: vec![("github".to_string(), github), ("laptop".to_string(), laptop)],
            },
        )],
    }
}

/// A stand-in Diceware list of 7776 lowercase words, the size of the EFF
/// large list.
fn stand_in_words() -> Vec<String> {
    (0..7776u32)
        .map(|i| {
            let mut w = String::new();
            let mut n = i;
            for _ in 0..4 {
                w.push((b'a' + (n % 26) as u8) as char);
                n /= 26;
            }
            w
        })
        .collect()
}

fn hex_derive(salt: &str, info: &str, output_len: usize) -> String {
    to_hex(&derive_bytes(SEED, salt.as_bytes(), info.as_bytes(), output_len).unwrap())
}

#[test]
fn derive_produces_hex_by_default() {
    let out = hex_derive("s", "alice/laptop/fde-daily-v1", 32);
    assert_eq!(out.len(), 64);
    assert!(out.chars().all(|c| c.is_ascii_hexdigit()));
}

#[test]
fn derive_is_deterministic() {
    assert_eq!(hex_derive("s", "i", 32), hex_derive("s", "i", 32));
}

#[test]
fn derive_different_info_different_output() {
    assert_ne!(hex_derive("s", "one", 32), hex_derive("s", "two", 32));
}

#[test]
fn derive_output_len_controls_length() {
    // 16 bytes = 32 hex chars (the tool adds a newline when printing).
    assert_eq!(hex_derive("", "i", 16).len(), 32);
}

#[test]
fn list_verbose_includes_metadata() {
    let out = list_lines(&minimal_inventory(), true, &[], &[]).join("\n");
    assert!(out.contains("hkdf"));
    assert!(out.contains("manual"));
    assert!(out.contains("diceware/eff_large/6"));
}

#[test]
fn list_filters_by_status() {
    let out = list_lines(&minimal_inventory(), false, &[StatusFilter::Retired], &[]).join("\n");
    assert!(out.contains("alice/github/old-account-v1"));
    assert!(!out.contains("alice/laptop/fde-daily-v1"));
}

#[test]
fn list_filters_by_derivation() {
    let out = list_lines(&minimal_inventory(), false, &[], &[DerivationFilter::Manual]).join("\n");
    assert!(out.contains("alice/github/old-account-v1"));
    assert!(!out.contains("alice/laptop/fde-daily-v1"));
}

#[test]
fn show_is_deterministic() {
    let inv = minimal_inventory();
    let words = stand_in_words();
    let words: Vec<&str> = words.iter().map(String::as_str).collect();
    let e = inv.find_entry("alice/laptop/fde-daily-v1").unwrap();
    let a = derive_passphrase(SEED, &e, &words).unwrap();
    let b = derive_passphrase(SEED, &e, &words).unwrap();
    assert_eq!(a, b);
    assert_eq!(a.split(' ').count(), 6);
}

#[test]
fn show_refuses_manual_entry() {
    let inv = minimal_inventory();
    let e = inv.find_entry("alice/github/old-account-v1").unwrap();
    assert_eq!(check_derivable(e.version.derivation), Err(Refusal::Manual));
}

#[test]
fn show_missing_entry_is_error() {
    assert!(minimal_inventory().find_entry("alice/laptop/nonexistent-v1").is_none());
}

#[test]
fn same_seed_same_inventory_same_passphrase() {
    let words = stand_in_words();
    let words: Vec<&str> = words.iter().map(String::as_str).collect();
    let first = minimal_inventory();
    let second = minimal_inventory();
    let e1 = first.find_entry("alice/laptop/fde-daily-v1").unwrap();
    let e2 = second.find_entry("alice/laptop/fde-daily-v1").unwrap();
    let phrase_1 = derive_passphrase(SEED, &e1, &words).unwrap();
    let phrase_2 = derive_passphrase(SEED, &e2, &words).unwrap();
    assert_eq!(phrase_1, phrase_2);
    assert!(!phrase_1.is_empty());
}
