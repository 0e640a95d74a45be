use hkdf_tree::inventory::{
    default_status, Derivation, Domain, Encoding, Inventory, InventoryError, Purpose, Realm, Status,
    Version,
};

fn version(encoding: Encoding, derivation: Derivation, status: Status) -> Version {
    Version {
        encoding,
        derivation,
        status,
        memorized: None,
        paper_backup: Vec::new(),
        notes: None,
    }
}

fn numeric4() -> Version {
    version(Encoding::Numeric { length: 4 }, Derivation::Hkdf, default_status())
}

fn purpose(usage: Option<&str>, versions: Vec<(u32, Version)>) -> Purpose {
    Purpose {
        usage: usage.map(|s| s.to_string()),
        versions,
    }
}

fn realm(purposes: Vec<(&str, Purpose)>) -> Realm {
    Realm {
        kind: None,
        description: None,
        purposes: purposes.into_iter().map(|(k, v)| (k.to_string(), v)).collect(),
    }
}

fn domain(salt: &str, realms: Vec<(&str, Realm)>) -> Domain {
    Domain {
        salt: salt.to_string(),
        description: None,
        realms: realms.into_iter().map(|(k, v)| (k.to_string(), v)).collect(),
    }
}

fn inventory(schema_version: u32, domains: Vec<(&str, Domain)>) -> Inventory {
    Inventory {
        schema_version,
        domains: domains.into_iter().map(|(k, v)| (k.to_string(), v)).collect(),
    }
}

/// The inventory of the minimal example document.
fn minimal() -> Inventory {
    let mut v1 = version(
        Encoding::Diceware {
            wordlist: "eff_large".to_string(),
            length: 8,
        },
        Derivation::Hkdf,
        default_status(),
    );
    v1.memorized = Some(true);
    v1.paper_backup = vec!["home-safe".to_string(), "bank-vault".to_string()];
    let mut laptop = realm(vec![(
        "fde-daily",
        purpose(Some("geli slot 0 unlock"), vec![(1, v1)]),
    )]);
    laptop.kind = Some("workstation-linux".to_string());
    inventory(1, vec![("alice", domain("alice-hkdf-v1", vec![("laptop", laptop)]))])
}

fn single(d: &str, r: &str, p: &str) -> Inventory {
    inventory(
        1,
        vec![(d, domain("s", vec![(r, realm(vec![(p, purpose(None, vec![(1, numeric4())]))]))]))],
    )
}

#[test]
fn loads_minimal_inventory() {
    let inv = minimal();
    assert!(inv.validate().is_ok());
    assert_eq!(inv.schema_version, 1);
    assert_eq!(inv.domains.len(), 1);
    let alice = &inv.domains[0].1;
    assert_eq!(alice.salt, "alice-hkdf-v1");
    let laptop = &alice.realms[0].1;
    assert_eq!(laptop.kind.as_deref(), Some("workstation-linux"));
    let v1 = &laptop.purposes[0].1.versions[0].1;
    assert_eq!(v1.derivation, Derivation::Hkdf);
    assert_eq!(v1.status, Status::Active);
    assert_eq!(v1.memorized, Some(true));
    assert_eq!(v1.paper_backup, vec!["home-safe", "bank-vault"]);
    assert_eq!(laptop.purposes[0].0, "fde-daily");
    assert_eq!(laptop.purposes[0].1.versions[0].0, 1);
    match &v1.encoding {
        Encoding::Diceware { wordlist, length } => {
            assert_eq!(wordlist, "eff_large");
            assert_eq!(*length, 8);
        }
        _ => panic!("expected diceware"),
    }
}

#[test]
fn entries_produces_correct_info_string() {
    let inv = minimal();
    let entries = inv.entries();
    assert_eq!(entries.len(), 1);
    assert_eq!(entries[0].info_string, "alice/laptop/fde-daily-v1");
    assert_eq!(entries[0].salt, "alice-hkdf-v1");
    assert_eq!(entries[0].usage, Some("geli slot 0 unlock"));
}

#[test]
fn multiple_versions_iterate_in_order() {
    let dice = || Encoding::Diceware {
        wordlist: "eff_large".to_string(),
        length: 8,
    };
    let inv = inventory(
        1,
        vec![(
            "alice",
            domain(
                "s",
                vec![(
                    "laptop",
                    realm(vec![(
                        "fde-daily",
                        purpose(
                            None,
                            vec![
                                (1, version(dice(), Derivation::Hkdf, Status::Retired)),
                                (2, version(dice(), Derivation::Hkdf, Status::Active)),
                            ],
                        ),
                    )]),
                )],
            ),
        )],
    );
    assert!(inv.validate().is_ok());
    let entries = inv.entries();
    assert_eq!(entries.len(), 2);
    assert_eq!(entries[0].info_string, "alice/laptop/fde-daily-v1");
    assert_eq!(entries[1].info_string, "alice/laptop/fde-daily-v2");
}

#[test]
fn multiple_domains_iterate_alphabetically() {
    let d = |salt: &str| domain(salt, vec![("x", realm(vec![("p", purpose(None, vec![(1, numeric4())]))]))]);
    let inv = inventory(1, vec![("alice", d("a")), ("bob", d("b")), ("charlie", d("c"))]);
    assert!(inv.validate().is_ok());
    let names: Vec<_> = inv
        .entries()
        .iter()
        .map(|e| e.info_string.split('/').next().unwrap().to_string())
        .collect();
    assert_eq!(names, vec!["alice", "bob", "charlie"]);
}

#[test]
fn rejects_unsupported_schema_version() {
    let inv = inventory(2, vec![]);
    match inv.validate().unwrap_err() {
        InventoryError::UnsupportedSchemaVersion(2) => {}
        other => panic!("wrong error: {other:?}"),
    }
}

#[test]
fn rejects_uppercase_name() {
    let inv = single("Alice", "laptop", "fde");
    match inv.validate().unwrap_err() {
        InventoryError::InvalidName { name, .. } => assert_eq!(name, "Alice"),
        other => panic!("wrong error: {other:?}"),
    }
}

#[test]
fn rejects_name_with_underscore() {
    let inv = single("alice", "my_laptop", "fde");
    match inv.validate().unwrap_err() {
        InventoryError::InvalidName { name, .. } => assert_eq!(name, "my_laptop"),
        other => panic!("wrong error: {other:?}"),
    }
}

#[test]
fn rejects_empty_domains() {
    let inv = inventory(1, vec![]);
    match inv.validate().unwrap_err() {
        InventoryError::EmptyContainer { path } => assert_eq!(path, "domains"),
        other => panic!("wrong error: {other:?}"),
    }
}

#[test]
fn rejects_realm_without_purposes() {
    let inv = inventory(1, vec![("alice", domain("s", vec![("laptop", realm(vec![]))]))]);
    match inv.validate().unwrap_err() {
        InventoryError::EmptyContainer { path } => {
            assert_eq!(path, "domains.alice.realms.laptop.purposes")
        }
        other => panic!("wrong error: {other:?}"),
    }
}

#[test]
fn accepts_service_generated_and_manual() {
    let inv = inventory(
        1,
        vec![(
            "alice",
            domain(
                "s",
                vec![(
                    "proton",
                    realm(vec![
                        (
                            "old-master",
                            purpose(
                                None,
                                vec![(
                                    1,
                                    version(
                                        Encoding::Alphanumeric { length: 47 },
                                        Derivation::Manual,
                                        Status::Active,
                                    ),
                                )],
                            ),
                        ),
                        (
                            "recovery-codes",
                            purpose(
                                None,
                                vec![(
                                    1,
                                    version(
                                        Encoding::Base64 { bytes: 32 },
                                        Derivation::ServiceGenerated,
                                        Status::Reserved,
                                    ),
                                )],
                            ),
                        ),
                    ]),
                )],
            ),
        )],
    );
    assert!(inv.validate().is_ok());
    let entries = inv.entries();
    assert_eq!(entries.len(), 2);
    assert_eq!(entries[0].version.derivation, Derivation::Manual);
    assert_eq!(entries[0].version.status, Status::Active);
    assert_eq!(entries[1].version.derivation, Derivation::ServiceGenerated);
    assert_eq!(entries[1].version.status, Status::Reserved);
}

// ---------------------------------------------------------------------------
// Further cases
// ---------------------------------------------------------------------------

#[test]
fn rejects_domain_without_realms() {
    let inv = inventory(1, vec![("alice", domain("s", vec![]))]);
    match inv.validate().unwrap_err() {
        InventoryError::EmptyContainer { path } => assert_eq!(path, "domains.alice.realms"),
        other => panic!("wrong error: {other:?}"),
    }
}

#[test]
fn rejects_purpose_without_versions() {
    let inv = inventory(
        1,
        vec![("alice", domain("s", vec![("phone", realm(vec![("pin", purpose(None, vec![]))]))]))],
    );
    match inv.validate().unwrap_err() {
        InventoryError::EmptyContainer { path } => {
            assert_eq!(path, "domains.alice.realms.phone.purposes.pin.versions")
        }
        other => panic!("wrong error: {other:?}"),
    }
}

#[test]
fn rejects_empty_purpose_name_with_its_path() {
    let inv = single("alice", "phone", "");
    match inv.validate().unwrap_err() {
        InventoryError::InvalidName { path, name } => {
            assert_eq!(path, "domains.alice.realms.phone.purposes");
            assert_eq!(name, "");
        }
        other => panic!("wrong error: {other:?}"),
    }
}

#[test]
fn accepts_digits_and_hyphens() {
    assert!(single("acme-corp", "build-server-42", "ssh-signing-key").validate().is_ok());
}

#[test]
fn find_entry_finds_and_misses() {
    let inv = minimal();
    let e = inv.find_entry("alice/laptop/fde-daily-v1").expect("present");
    assert_eq!(e.salt, "alice-hkdf-v1");
    assert!(inv.find_entry("alice/laptop/fde-daily-v2").is_none());
}

#[test]
fn inventory_error_messages() {
    let inv = single("alice", "my_laptop", "fde");
    assert_eq!(
        inv.validate().unwrap_err().message(),
        "invalid name \"my_laptop\" at domains.alice.realms: names must be lowercase ASCII letters, digits, and hyphens"
    );
    assert_eq!(
        InventoryError::UnsupportedSchemaVersion(2).message(),
        "unsupported schema_version: 2 (this tool supports version 1)"
    );
    assert_eq!(
        inventory(1, vec![]).validate().unwrap_err().message(),
        "empty container at domains: expected at least one child"
    );
}

#[test]
fn info_strings_tell_look_alike_entries_apart() {
    // "x" at version 12 and "x-v1" at version 2: names may hold "-v" and
    // digits, yet every entry keeps an info-string of its own.
    let inv = inventory(
        1,
        vec![(
            "d",
            domain(
                "s",
                vec![(
                    "r",
                    realm(vec![
                        ("x", purpose(None, vec![(1, numeric4()), (12, numeric4())])),
                        ("x-v1", purpose(Some("other"), vec![(2, numeric4())])),
                    ]),
                )],
            ),
        )],
    );
    assert!(inv.validate().is_ok());
    let infos: Vec<String> = inv.entries().into_iter().map(|e| e.info_string).collect();
    assert_eq!(infos, vec!["d/r/x-v1", "d/r/x-v12", "d/r/x-v1-v2"]);
    for info in &infos {
        let found = inv.find_entry(info).expect("entry is found");
        assert_eq!(&found.info_string, info);
    }
    assert_eq!(inv.find_entry("d/r/x-v1-v2").unwrap().usage, Some("other"));
    assert!(inv.find_entry("d/r/x-v2").is_none());
}

#[test]
fn invalid_name_message_quotes_as_debug_does() {
    let inv = single("a\"b", "laptop", "fde");
    assert_eq!(
        inv.validate().unwrap_err().message(),
        "invalid name \"a\\\"b\" at domains: names must be lowercase ASCII letters, digits, and hyphens"
    );
    let inv = single("alice", "lap\\top\n", "fde");
    assert_eq!(
        inv.validate().unwrap_err().message(),
        "invalid name \"lap\\\\top\\n\" at domains.alice.realms: names must be lowercase ASCII letters, digits, and hyphens"
    );
}

#[test]
fn rejects_repeated_or_unordered_keys() {
    let p = || purpose(None, vec![(1, numeric4())]);
    // Domains out of order.
    let inv = inventory(
        1,
        vec![
            ("bob", domain("b", vec![("x", realm(vec![("p", p())]))])),
            ("alice", domain("a", vec![("x", realm(vec![("p", p())]))])),
        ],
    );
    match inv.validate().unwrap_err() {
        InventoryError::UnorderedKey { path, key } => {
            assert_eq!(path, "domains");
            assert_eq!(key, "alice");
        }
        other => panic!("wrong error: {other:?}"),
    }
    // A repeated realm.
    let inv = inventory(
        1,
        vec![("alice", domain("a", vec![("x", realm(vec![("p", p())])), ("x", realm(vec![("q", p())]))]))],
    );
    assert_eq!(
        inv.validate().unwrap_err().message(),
        "key \"x\" at domains.alice.realms is repeated or out of order: keys must be unique and ascending"
    );
    // Purposes out of order.
    let inv = inventory(
        1,
        vec![("alice", domain("a", vec![("x", realm(vec![("q", p()), ("p", p())]))]))],
    );
    match inv.validate().unwrap_err() {
        InventoryError::UnorderedKey { path, key } => {
            assert_eq!(path, "domains.alice.realms.x.purposes");
            assert_eq!(key, "p");
        }
        other => panic!("wrong error: {other:?}"),
    }
    // Versions out of order, then repeated.
    let inv = single_versions(vec![(2, numeric4()), (1, numeric4())]);
    assert_eq!(
        inv.validate().unwrap_err().message(),
        "key \"1\" at domains.d.realms.r.purposes.p.versions is repeated or out of order: keys must be unique and ascending"
    );
    let inv = single_versions(vec![(1, numeric4()), (3, numeric4()), (3, numeric4())]);
    match inv.validate().unwrap_err() {
        InventoryError::UnorderedKey { path, key } => {
            assert_eq!(path, "domains.d.realms.r.purposes.p.versions");
            assert_eq!(key, "3");
        }
        other => panic!("wrong error: {other:?}"),
    }
    // Ascending versions pass; the order of two keys is checked before the
    // name of the second.
    assert!(single_versions(vec![(2, numeric4()), (10, numeric4())]).validate().is_ok());
    let inv = inventory(
        1,
        vec![("alice", domain("a", vec![("x", realm(vec![("q", p()), ("P", p())]))]))],
    );
    assert!(matches!(inv.validate().unwrap_err(), InventoryError::UnorderedKey { .. }));
}

fn single_versions(versions: Vec<(u32, Version)>) -> Inventory {
    inventory(1, vec![("d", domain("s", vec![("r", realm(vec![("p", purpose(None, versions))]))]))])
}
