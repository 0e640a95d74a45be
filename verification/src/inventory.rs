//! Inventory schema, flattening into entries, and structural validation.
//!
//! The inventory is the user-owned source of truth for what gets derived:
//! domains, realms, purposes and per-version encoding parameters. Every
//! mapping level is held as a vector of `(key, value)` pairs whose keys must
//! be unique and ascending (`Inventory::wf`), as in an ordered map;
//! `Inventory::validate` refuses an inventory where they are not. That makes
//! iteration order deterministic and every info-string distinct.
use vstd::prelude::*;
use vstd::string::*;

use crate::text::{
    debug_quote, debug_quoted, decimal, decimal_text, lemma_decimal_digits, lemma_decimal_injective,
    lemma_text_lt_total, lemma_text_lt_transitive, string_from, text_less, text_lt,
};

verus! {

/// Top-level inventory document.
#[derive(Debug, Clone)]
pub struct Inventory {
    /// Schema version of the document. This tool accepts schema version 1.
    pub schema_version: u32,
    /// Domains keyed by name (e.g., `alice`, `acme-corp`).
    pub domains: Vec<(String, Domain)>,
}

/// One responsibility domain within an inventory.
#[derive(Debug, Clone)]
pub struct Domain {
    /// Public HKDF salt for this domain.
    pub salt: String,
    /// Optional free-text description.
    pub description: Option<String>,
    /// Realms keyed by name (e.g., `laptop`, `phone`, `github`).
    pub realms: Vec<(String, Realm)>,
}

/// A container of related credentials within a domain: a device or a
/// service.
#[derive(Debug, Clone)]
pub struct Realm {
    /// Optional kind hint for reports (e.g., `phone-graphene`).
    pub kind: Option<String>,
    /// Optional free-text description.
    pub description: Option<String>,
    /// Purposes keyed by name (e.g., `owner-lockscreen`, `account`).
    pub purposes: Vec<(String, Purpose)>,
}

/// A specific role of a credential within a realm.
#[derive(Debug, Clone)]
pub struct Purpose {
    /// Optional free-text description of what this credential authenticates.
    pub usage: Option<String>,
    /// Versions of this purpose keyed by version number. Several versions
    /// allow rotation (v1 retired, v2 active).
    pub versions: Vec<(u32, Version)>,
}

/// One concrete version of a purpose.
#[derive(Debug, Clone)]
pub struct Version {
    /// How to turn the raw HKDF output into a usable secret.
    pub encoding: Encoding,
    /// How this secret is produced.
    pub derivation: Derivation,
    /// Lifecycle state of this version.
    pub status: Status,
    /// Whether the user commits this to memory (informational).
    pub memorized: Option<bool>,
    /// Paper-backup destinations (informational).
    pub paper_backup: Vec<String>,
    /// Free-form notes surfaced in reports.
    pub notes: Option<String>,
}

/// Encoding of the raw HKDF output into a user-visible secret.
#[derive(Debug, Clone)]
pub enum Encoding {
    /// Diceware passphrase: `length` words drawn from `wordlist`.
    Diceware {
        /// Name of the wordlist to use (e.g., `eff_large`).
        wordlist: String,
        /// Number of words in the passphrase.
        length: usize,
    },
    /// Alphanumeric passphrase of `length` characters.
    Alphanumeric {
        /// Number of characters in the output.
        length: usize,
    },
    /// Numeric PIN of `length` digits.
    Numeric {
        /// Number of digits in the output.
        length: usize,
    },
    /// Raw base64-encoded output derived from `bytes` HKDF bytes.
    Base64 {
        /// Number of HKDF output bytes to encode.
        bytes: usize,
    },
}

/// How a version's secret is produced.
#[derive(Debug, Clone, Copy, PartialEq, Eq, Structural)]
pub enum Derivation {
    /// Deterministically derived from the master seed via HKDF.
    Hkdf,
    /// Chosen out of band; the inventory only documents its existence.
    Manual,
    /// Issued by an external service; documented only.
    ServiceGenerated,
}

/// Lifecycle status of a version.
#[derive(Debug, Clone, Copy, PartialEq, Eq, Structural)]
pub enum Status {
    /// Currently in use.
    Active,
    /// Superseded by a newer version; kept for documentation.
    Retired,
    /// Planned but not yet materialized.
    Reserved,
}

/// The status of a version that declares none.
pub fn default_status() -> (s: Status)
    ensures
        s == Status::Active,
{
    Status::Active
}

/// Errors found by structural validation.
#[derive(Debug, Clone)]
pub enum InventoryError {
    /// Unsupported schema version.
    UnsupportedSchemaVersion(u32),
    /// A name in the hierarchy does not match the canonicalization rule.
    InvalidName {
        /// Path within the inventory tree, e.g. `domains.alice.realms`.
        path: String,
        /// The offending name.
        name: String,
    },
    /// A domain, realm, or purpose has no children.
    EmptyContainer {
        /// Path within the inventory tree.
        path: String,
    },
    /// The keys of a mapping level are repeated or not in ascending order.
    UnorderedKey {
        /// Path of the mapping within the inventory tree.
        path: String,
        /// The first key that is not greater than the key before it.
        key: String,
    },
}

/// The content of an [`InventoryError`].
pub enum InventoryFault {
    /// Unsupported schema version.
    UnsupportedSchemaVersion(u32),
    /// Invalid name at a path.
    InvalidName { path: Seq<char>, name: Seq<char> },
    /// Empty container at a path.
    EmptyContainer { path: Seq<char> },
    /// A repeated or out-of-order key in the mapping at a path.
    UnorderedKey { path: Seq<char>, key: Seq<char> },
}

impl View for InventoryError {
    type V = InventoryFault;

    open spec fn view(&self) -> InventoryFault {
        match self {
            InventoryError::UnsupportedSchemaVersion(v) => InventoryFault::UnsupportedSchemaVersion(*v),
            InventoryError::InvalidName { path, name } => InventoryFault::InvalidName { path: path@, name: name@ },
            InventoryError::EmptyContainer { path } => InventoryFault::EmptyContainer { path: path@ },
            InventoryError::UnorderedKey { path, key } => InventoryFault::UnorderedKey { path: path@, key: key@ },
        }
    }
}

impl InventoryError {
    /// The error message.
    pub fn message(&self) -> (m: String)
        ensures
            m@ == inventory_error_message(self@),
    {
        match self {
            InventoryError::UnsupportedSchemaVersion(v) => {
                let mut s = string_from("unsupported schema_version: ");
                s.append(decimal(*v as usize).as_str());
                s.append(" (this tool supports version 1)");
                s
            },
            InventoryError::InvalidName { path, name } => {
                let quoted = debug_quote(name.as_str());
                invalid_name_message(quoted.as_str(), path.as_str())
            },
            InventoryError::EmptyContainer { path } => {
                let mut s = string_from("empty container at ");
                s.append(path.as_str());
                s.append(": expected at least one child");
                s
            },
            InventoryError::UnorderedKey { path, key } => {
                let quoted = debug_quote(key.as_str());
                unordered_key_message(quoted.as_str(), path.as_str())
            },
        }
    }
}

/// The message for an invalid name, given the name as `{:?}` prints it.
pub fn invalid_name_message(quoted_name: &str, path: &str) -> (m: String)
    ensures
        m@ == "invalid name "@ + quoted_name@ + " at "@ + path@
            + ": names must be lowercase ASCII letters, digits, and hyphens"@,
{
    let mut s = string_from("invalid name ");
    s.append(quoted_name);
    s.append(" at ");
    s.append(path);
    s.append(": names must be lowercase ASCII letters, digits, and hyphens");
    s
}

/// The message for a repeated or out-of-order key, given the key as `{:?}`
/// prints it.
pub fn unordered_key_message(quoted_key: &str, path: &str) -> (m: String)
    ensures
        m@ == "key "@ + quoted_key@ + " at "@ + path@ + " is repeated or out of order: keys must be unique and ascending"@,
{
    let mut s = string_from("key ");
    s.append(quoted_key);
    s.append(" at ");
    s.append(path);
    s.append(" is repeated or out of order: keys must be unique and ascending");
    s
}

/// The message for a validation fault.
pub open spec fn inventory_error_message(f: InventoryFault) -> Seq<char> {
    match f {
        InventoryFault::UnsupportedSchemaVersion(v) => "unsupported schema_version: "@ + decimal_text(v as nat)
            + " (this tool supports version 1)"@,
        InventoryFault::InvalidName { path, name } => "invalid name "@ + debug_quoted(name) + " at "@ + path
            + ": names must be lowercase ASCII letters, digits, and hyphens"@,
        InventoryFault::EmptyContainer { path } => "empty container at "@ + path + ": expected at least one child"@,
        InventoryFault::UnorderedKey { path, key } => "key "@ + debug_quoted(key) + " at "@ + path
            + " is repeated or out of order: keys must be unique and ascending"@,
    }
}

// ---------------------------------------------------------------------------
// Names and validation
// ---------------------------------------------------------------------------

/// A character allowed in names: lowercase ASCII letter, ASCII digit, `-`.
pub open spec fn name_char_ok(c: char) -> bool {
    ('a' <= c && c <= 'z') || ('0' <= c && c <= '9') || c == '-'
}

/// The canonicalization rule for names: non-empty, lowercase ASCII letters,
/// digits and hyphens only.
pub open spec fn name_ok(name: Seq<char>) -> bool {
    &&& name.len() > 0
    &&& forall|i: int| 0 <= i < name.len() ==> name_char_ok(#[trigger] name[i])
}

/// The validation fault of a version list: the first version number that
/// is not greater than the one before it.
pub open spec fn versions_fault(path: Seq<char>, vs: Seq<(u32, Version)>) -> Option<InventoryFault>
    decreases vs.len(),
{
    if vs.len() < 2 {
        None
    } else if !(vs[0].0 < vs[1].0) {
        Some(InventoryFault::UnorderedKey { path, key: decimal_text(vs[1].0 as nat) })
    } else {
        versions_fault(path, vs.drop_first())
    }
}

/// The validation fault of a purpose list, in order: for each purpose, a
/// name that breaks the rule, no versions, version numbers out of order,
/// then a next purpose name that does not come after it.
pub open spec fn purposes_fault(d: Seq<char>, r: Seq<char>, ps: Seq<(String, Purpose)>) -> Option<InventoryFault>
    decreases ps.len(),
{
    if ps.len() == 0 {
        None
    } else {
        let p = ps[0].0@;
        let at = "domains."@ + d + ".realms."@ + r + ".purposes"@;
        if !name_ok(p) {
            Some(InventoryFault::InvalidName { path: at, name: p })
        } else if ps[0].1.versions@.len() == 0 {
            Some(InventoryFault::EmptyContainer { path: at + "."@ + p + ".versions"@ })
        } else {
            match versions_fault(at + "."@ + p + ".versions"@, ps[0].1.versions@) {
                Some(f) => Some(f),
                None => if ps.len() > 1 && !text_lt(p, ps[1].0@) {
                    Some(InventoryFault::UnorderedKey { path: at, key: ps[1].0@ })
                } else {
                    purposes_fault(d, r, ps.drop_first())
                },
            }
        }
    }
}

/// The validation fault of a realm list, in order.
pub open spec fn realms_fault(d: Seq<char>, rs: Seq<(String, Realm)>) -> Option<InventoryFault>
    decreases rs.len(),
{
    if rs.len() == 0 {
        None
    } else {
        let r = rs[0].0@;
        let at = "domains."@ + d + ".realms"@;
        if !name_ok(r) {
            Some(InventoryFault::InvalidName { path: at, name: r })
        } else if rs[0].1.purposes@.len() == 0 {
            Some(InventoryFault::EmptyContainer { path: at + "."@ + r + ".purposes"@ })
        } else {
            match purposes_fault(d, r, rs[0].1.purposes@) {
                Some(f) => Some(f),
                None => if rs.len() > 1 && !text_lt(r, rs[1].0@) {
                    Some(InventoryFault::UnorderedKey { path: at, key: rs[1].0@ })
                } else {
                    realms_fault(d, rs.drop_first())
                },
            }
        }
    }
}

/// The validation fault of a domain list, in order.
pub open spec fn domains_fault(ds: Seq<(String, Domain)>) -> Option<InventoryFault>
    decreases ds.len(),
{
    if ds.len() == 0 {
        None
    } else {
        let d = ds[0].0@;
        if !name_ok(d) {
            Some(InventoryFault::InvalidName { path: "domains"@, name: d })
        } else if ds[0].1.realms@.len() == 0 {
            Some(InventoryFault::EmptyContainer { path: "domains."@ + d + ".realms"@ })
        } else {
            match realms_fault(d, ds[0].1.realms@) {
                Some(f) => Some(f),
                None => if ds.len() > 1 && !text_lt(d, ds[1].0@) {
                    Some(InventoryFault::UnorderedKey { path: "domains"@, key: ds[1].0@ })
                } else {
                    domains_fault(ds.drop_first())
                },
            }
        }
    }
}

/// The first structural fault of an inventory, if any: unsupported schema
/// version, no domains, then names and empty containers in tree order.
pub open spec fn inventory_fault(inv: Inventory) -> Option<InventoryFault> {
    if inv.schema_version != 1 {
        Some(InventoryFault::UnsupportedSchemaVersion(inv.schema_version))
    } else if inv.domains@.len() == 0 {
        Some(InventoryFault::EmptyContainer { path: "domains"@ })
    } else {
        domains_fault(inv.domains@)
    }
}

/// The fault reported by a validation result.
pub open spec fn result_fault(r: Result<(), InventoryError>) -> Option<InventoryFault> {
    match r {
        Ok(()) => None,
        Err(e) => Some(e@),
    }
}

/// Checks `name` against the canonicalization rule; `path` locates it in
/// the tree for the error.
pub fn validate_name(name: &str, path: &str) -> (res: Result<(), InventoryError>)
    ensures
        name_ok(name@) ==> res is Ok,
        !name_ok(name@) ==> result_fault(res) == Some(InventoryFault::InvalidName { path: path@, name: name@ }),
{
    let mut ok = !name.is_empty();
    for c in it: name.chars()
        invariant
            it.seq() == name@,
            ok <==> name@.len() > 0 && forall|i: int| 0 <= i < it.index() ==> name_char_ok(#[trigger] name@[i]),
    {
        if !(('a' <= c && c <= 'z') || ('0' <= c && c <= '9') || c == '-') {
            ok = false;
        }
    }
    if !ok {
        return Err(InventoryError::InvalidName { path: string_from(path), name: string_from(name) });
    }
    Ok(())
}

/// Checks that the version numbers at `path` ascend.
fn validate_versions(path: &String, versions: &Vec<(u32, Version)>) -> (res: Result<(), InventoryError>)
    ensures
        result_fault(res) == versions_fault(path@, versions@),
{
    proof {
        assert(versions@.skip(0) =~= versions@);
    }
    let mut i: usize = 0;
    while i < versions.len() && i + 1 < versions.len()
        invariant
            i <= versions@.len(),
            versions_fault(path@, versions@) == versions_fault(path@, versions@.skip(i as int)),
        decreases versions@.len() - i,
    {
        proof {
            assert(versions@.skip(i as int)[0] == versions@[i as int]);
            assert(versions@.skip(i as int)[1] == versions@[i + 1]);
        }
        if versions[i].0 >= versions[i + 1].0 {
            let v = versions[i + 1].0;
            return Err(InventoryError::UnorderedKey { path: path.clone(), key: decimal(v as usize) });
        }
        proof {
            assert(versions@.skip(i as int).drop_first() =~= versions@.skip(i + 1));
        }
        i = i + 1;
    }
    Ok(())
}

/// Checks the purposes of realm `r` in domain `d`, in order.
fn validate_purposes(d: &String, r: &String, purposes: &Vec<(String, Purpose)>) -> (res: Result<(), InventoryError>)
    ensures
        result_fault(res) == purposes_fault(d@, r@, purposes@),
{
    let mut at = string_from("domains.");
    at.append(d.as_str());
    at.append(".realms.");
    at.append(r.as_str());
    at.append(".purposes");
    proof {
        assert(purposes@.skip(0) =~= purposes@);
    }
    let mut k: usize = 0;
    while k < purposes.len()
        invariant
            k <= purposes@.len(),
            at@ == "domains."@ + d@ + ".realms."@ + r@ + ".purposes"@,
            purposes_fault(d@, r@, purposes@) == purposes_fault(d@, r@, purposes@.skip(k as int)),
        decreases purposes@.len() - k,
    {
        let pair = &purposes[k];
        proof {
            assert(purposes@.skip(k as int)[0] == purposes@[k as int]);
        }
        match validate_name(pair.0.as_str(), at.as_str()) {
            Err(e) => {
                return Err(e);
            },
            Ok(()) => {},
        }
        let mut path = at.clone();
        path.append(".");
        path.append(pair.0.as_str());
        path.append(".versions");
        if pair.1.versions.len() == 0 {
            return Err(InventoryError::EmptyContainer { path });
        }
        match validate_versions(&path, &pair.1.versions) {
            Err(e) => {
                return Err(e);
            },
            Ok(()) => {},
        }
        if k + 1 < purposes.len() && !text_less(pair.0.as_str(), purposes[k + 1].0.as_str()) {
            proof {
                assert(purposes@.skip(k as int)[1] == purposes@[k + 1]);
            }
            return Err(InventoryError::UnorderedKey { path: at.clone(), key: purposes[k + 1].0.clone() });
        }
        proof {
            assert(purposes@.skip(k as int).drop_first() =~= purposes@.skip(k + 1));
            if k + 1 < purposes@.len() {
                assert(purposes@.skip(k as int)[1] == purposes@[k + 1]);
            }
        }
        k = k + 1;
    }
    Ok(())
}

/// Checks the realms of domain `d`, in order.
fn validate_realms(d: &String, realms: &Vec<(String, Realm)>) -> (res: Result<(), InventoryError>)
    ensures
        result_fault(res) == realms_fault(d@, realms@),
{
    let mut at = string_from("domains.");
    at.append(d.as_str());
    at.append(".realms");
    proof {
        assert(realms@.skip(0) =~= realms@);
    }
    let mut j: usize = 0;
    while j < realms.len()
        invariant
            j <= realms@.len(),
            at@ == "domains."@ + d@ + ".realms"@,
            realms_fault(d@, realms@) == realms_fault(d@, realms@.skip(j as int)),
        decreases realms@.len() - j,
    {
        let pair = &realms[j];
        proof {
            assert(realms@.skip(j as int)[0] == realms@[j as int]);
        }
        match validate_name(pair.0.as_str(), at.as_str()) {
            Err(e) => {
                return Err(e);
            },
            Ok(()) => {},
        }
        if pair.1.purposes.len() == 0 {
            let mut path = at.clone();
            path.append(".");
            path.append(pair.0.as_str());
            path.append(".purposes");
            return Err(InventoryError::EmptyContainer { path });
        }
        match validate_purposes(d, &pair.0, &pair.1.purposes) {
            Err(e) => {
                return Err(e);
            },
            Ok(()) => {},
        }
        if j + 1 < realms.len() && !text_less(pair.0.as_str(), realms[j + 1].0.as_str()) {
            proof {
                assert(realms@.skip(j as int)[1] == realms@[j + 1]);
            }
            return Err(InventoryError::UnorderedKey { path: at.clone(), key: realms[j + 1].0.clone() });
        }
        proof {
            assert(realms@.skip(j as int).drop_first() =~= realms@.skip(j + 1));
            if j + 1 < realms@.len() {
                assert(realms@.skip(j as int)[1] == realms@[j + 1]);
            }
        }
        j = j + 1;
    }
    Ok(())
}

// ---------------------------------------------------------------------------
// Entries
// ---------------------------------------------------------------------------

/// A single derivable entry, flattened from the tree for iteration.
#[derive(Debug, Clone)]
pub struct Entry<'a> {
    /// The hierarchical info-string used for HKDF derivation:
    /// `<domain>/<realm>/<purpose>-v<N>`.
    pub info_string: String,
    /// The purpose's free-text usage description, if declared.
    pub usage: Option<&'a str>,
    /// The domain's salt.
    pub salt: &'a str,
    /// The version metadata.
    pub version: &'a Version,
}

/// What an entry says: info-string, usage, salt, version.
pub type EntryView = (Seq<char>, Option<Seq<char>>, Seq<char>, Version);

impl<'a> View for Entry<'a> {
    type V = EntryView;

    open spec fn view(&self) -> EntryView {
        (
            self.info_string@,
            match self.usage {
                Some(u) => Some(u@),
                None => None,
            },
            self.salt@,
            *self.version,
        )
    }
}

/// The views of a list of entries.
pub open spec fn entry_views<'a>(es: Seq<Entry<'a>>) -> Seq<EntryView> {
    es.map_values(|e: Entry<'a>| e@)
}

/// The info-string `<domain>/<realm>/<purpose>-v<N>`.
pub open spec fn info_text(d: Seq<char>, r: Seq<char>, p: Seq<char>, v: u32) -> Seq<char> {
    d + "/"@ + r + "/"@ + p + "-v"@ + decimal_text(v as nat)
}

/// The text of an optional string.
pub open spec fn opt_text(u: Option<String>) -> Option<Seq<char>> {
    match u {
        Some(s) => Some(s@),
        None => None,
    }
}

/// The entries of the versions of purpose `p`, in list order.
pub open spec fn version_entries(
    d: Seq<char>,
    r: Seq<char>,
    p: Seq<char>,
    usage: Option<Seq<char>>,
    salt: Seq<char>,
    vs: Seq<(u32, Version)>,
) -> Seq<EntryView>
    decreases vs.len(),
{
    if vs.len() == 0 {
        Seq::empty()
    } else {
        version_entries(d, r, p, usage, salt, vs.drop_last()).push(
            (info_text(d, r, p, vs.last().0), usage, salt, vs.last().1),
        )
    }
}

/// The entries of the purposes of realm `r`, in list order.
pub open spec fn purpose_entries(d: Seq<char>, r: Seq<char>, salt: Seq<char>, ps: Seq<(String, Purpose)>) -> Seq<EntryView>
    decreases ps.len(),
{
    if ps.len() == 0 {
        Seq::empty()
    } else {
        purpose_entries(d, r, salt, ps.drop_last()) + version_entries(
            d,
            r,
            ps.last().0@,
            opt_text(ps.last().1.usage),
            salt,
            ps.last().1.versions@,
        )
    }
}

/// The entries of the realms of domain `d`, in list order.
pub open spec fn realm_entries(d: Seq<char>, salt: Seq<char>, rs: Seq<(String, Realm)>) -> Seq<EntryView>
    decreases rs.len(),
{
    if rs.len() == 0 {
        Seq::empty()
    } else {
        realm_entries(d, salt, rs.drop_last()) + purpose_entries(d, rs.last().0@, salt, rs.last().1.purposes@)
    }
}

/// The entries of a list of domains, in list order.
pub open spec fn domain_entries(ds: Seq<(String, Domain)>) -> Seq<EntryView>
    decreases ds.len(),
{
    if ds.len() == 0 {
        Seq::empty()
    } else {
        domain_entries(ds.drop_last()) + realm_entries(ds.last().0@, ds.last().1.salt@, ds.last().1.realms@)
    }
}

/// Entry `k` is the first one whose info-string is `info`.
pub open spec fn is_first_match(es: Seq<EntryView>, info: Seq<char>, k: int) -> bool {
    &&& 0 <= k < es.len()
    &&& es[k].0 == info
    &&& forall|j: int| 0 <= j < k ==> (#[trigger] es[j]).0 != info
}

proof fn lemma_views_push<'a>(es: Seq<Entry<'a>>, e: Entry<'a>)
    ensures
        entry_views(es.push(e)) == entry_views(es).push(e@),
{
    assert(entry_views(es.push(e)) =~= entry_views(es).push(e@));
}

fn push_version_entries<'a>(
    out: &mut Vec<Entry<'a>>,
    d: &str,
    r: &str,
    p: &str,
    usage: Option<&'a str>,
    salt: &'a str,
    versions: &'a Vec<(u32, Version)>,
)
    ensures
        entry_views(final(out)@) == entry_views(old(out)@) + version_entries(
            d@,
            r@,
            p@,
            match usage {
                Some(u) => Some(u@),
                None => None,
            },
            salt@,
            versions@,
        ),
{
    let ghost u = match usage {
        Some(u) => Some(u@),
        None => None,
    };
    let mut l: usize = 0;
    while l < versions.len()
        invariant
            l <= versions@.len(),
            u == match usage {
                Some(u) => Some(u@),
                None => None,
            },
            entry_views(out@) == entry_views(old(out)@) + version_entries(d@, r@, p@, u, salt@, versions@.take(l as int)),
        decreases versions@.len() - l,
    {
        let pair = &versions[l];
        let mut info = string_from(d);
        info.append("/");
        info.append(r);
        info.append("/");
        info.append(p);
        info.append("-v");
        info.append(decimal(pair.0 as usize).as_str());
        let e = Entry { info_string: info, usage, salt, version: &pair.1 };
        proof {
            assert(info@ == info_text(d@, r@, p@, pair.0));
            assert(e@ == (info_text(d@, r@, p@, versions@.take(l + 1).last().0), u, salt@, versions@.take(l + 1).last().1));
            lemma_views_push(out@, e);
            assert(versions@.take(l + 1).drop_last() =~= versions@.take(l as int));
            assert(versions@.take(l + 1).last() == versions@[l as int]);
            assert((entry_views(old(out)@) + version_entries(d@, r@, p@, u, salt@, versions@.take(l as int))).push(e@)
                =~= entry_views(old(out)@) + version_entries(d@, r@, p@, u, salt@, versions@.take(l as int)).push(e@));
        }
        out.push(e);
        l = l + 1;
    }
    proof {
        assert(versions@.take(versions@.len() as int) =~= versions@);
    }
}

fn push_purpose_entries<'a>(out: &mut Vec<Entry<'a>>, d: &str, r: &str, salt: &'a str, purposes: &'a Vec<(String, Purpose)>)
    ensures
        entry_views(final(out)@) == entry_views(old(out)@) + purpose_entries(d@, r@, salt@, purposes@),
{
    let mut k: usize = 0;
    while k < purposes.len()
        invariant
            k <= purposes@.len(),
            entry_views(out@) == entry_views(old(out)@) + purpose_entries(d@, r@, salt@, purposes@.take(k as int)),
        decreases purposes@.len() - k,
    {
        let pair = &purposes[k];
        let usage = match &pair.1.usage {
            Some(u) => Some(u.as_str()),
            None => None,
        };
        let ghost before = entry_views(out@);
        push_version_entries(out, d, r, pair.0.as_str(), usage, salt, &pair.1.versions);
        proof {
            assert(purposes@.take(k + 1).drop_last() =~= purposes@.take(k as int));
            assert(purposes@.take(k + 1).last() == purposes@[k as int]);
            assert((match usage {
                Some(u) => Some(u@),
                None => None,
            }) == opt_text(pair.1.usage));
            assert(before + version_entries(d@, r@, pair.0@, opt_text(pair.1.usage), salt@, pair.1.versions@)
                =~= entry_views(old(out)@) + purpose_entries(d@, r@, salt@, purposes@.take(k + 1)));
        }
        k = k + 1;
    }
    proof {
        assert(purposes@.take(purposes@.len() as int) =~= purposes@);
    }
}

fn push_realm_entries<'a>(out: &mut Vec<Entry<'a>>, d: &str, salt: &'a str, realms: &'a Vec<(String, Realm)>)
    ensures
        entry_views(final(out)@) == entry_views(old(out)@) + realm_entries(d@, salt@, realms@),
{
    let mut j: usize = 0;
    while j < realms.len()
        invariant
            j <= realms@.len(),
            entry_views(out@) == entry_views(old(out)@) + realm_entries(d@, salt@, realms@.take(j as int)),
        decreases realms@.len() - j,
    {
        let pair = &realms[j];
        push_purpose_entries(out, d, pair.0.as_str(), salt, &pair.1.purposes);
        proof {
            assert(realms@.take(j + 1).drop_last() =~= realms@.take(j as int));
            assert(realms@.take(j + 1).last() == realms@[j as int]);
            assert(entry_views(old(out)@) + realm_entries(d@, salt@, realms@.take(j as int)) + purpose_entries(
                d@,
                pair.0@,
                salt@,
                pair.1.purposes@,
            ) =~= entry_views(old(out)@) + realm_entries(d@, salt@, realms@.take(j + 1)));
        }
        j = j + 1;
    }
    proof {
        assert(realms@.take(realms@.len() as int) =~= realms@);
    }
}

impl Inventory {
    /// Checks the structure: schema version 1, at least one domain, every
    /// name canonical, no empty domain, realm or purpose, and the keys of
    /// every mapping level unique and ascending. Reports the first fault in
    /// tree order.
    pub fn validate(&self) -> (res: Result<(), InventoryError>)
        ensures
            result_fault(res) == inventory_fault(*self),
            res is Ok ==> self.wf(),
    {
        if self.schema_version != 1 {
            return Err(InventoryError::UnsupportedSchemaVersion(self.schema_version));
        }
        if self.domains.len() == 0 {
            return Err(InventoryError::EmptyContainer { path: string_from("domains") });
        }
        proof {
            assert(self.domains@.skip(0) =~= self.domains@);
        }
        let mut i: usize = 0;
        while i < self.domains.len()
            invariant
                i <= self.domains@.len(),
                self.schema_version == 1,
                self.domains@.len() > 0,
                domains_fault(self.domains@) == domains_fault(self.domains@.skip(i as int)),
            decreases self.domains@.len() - i,
        {
            let pair = &self.domains[i];
            proof {
                assert(self.domains@.skip(i as int)[0] == self.domains@[i as int]);
            }
            match validate_name(pair.0.as_str(), "domains") {
                Err(e) => {
                    return Err(e);
                },
                Ok(()) => {},
            }
            if pair.1.realms.len() == 0 {
                let mut path = string_from("domains.");
                path.append(pair.0.as_str());
                path.append(".realms");
                return Err(InventoryError::EmptyContainer { path });
            }
            match validate_realms(&pair.0, &pair.1.realms) {
                Err(e) => {
                    return Err(e);
                },
                Ok(()) => {},
            }
            if i + 1 < self.domains.len() && !text_less(pair.0.as_str(), self.domains[i + 1].0.as_str()) {
                proof {
                    assert(self.domains@.skip(i as int)[1] == self.domains@[i + 1]);
                }
                return Err(
                    InventoryError::UnorderedKey { path: string_from("domains"), key: self.domains[i + 1].0.clone() },
                );
            }
            proof {
                assert(self.domains@.skip(i as int).drop_first() =~= self.domains@.skip(i + 1));
                if i + 1 < self.domains@.len() {
                    assert(self.domains@.skip(i as int)[1] == self.domains@[i + 1]);
                }
            }
            i = i + 1;
        }
        proof {
            lemma_valid_inventory(*self);
        }
        Ok(())
    }

    /// One entry per (domain, realm, purpose, version), in list order at
    /// every level: sorted by name, then by version number, for an inventory
    /// whose keys are ascending (`wf`).
    pub fn entries(&self) -> (es: Vec<Entry<'_>>)
        ensures
            entry_views(es@) == domain_entries(self.domains@),
    {
        let mut out: Vec<Entry<'_>> = Vec::new();
        let mut i: usize = 0;
        while i < self.domains.len()
            invariant
                i <= self.domains@.len(),
                entry_views(out@) == domain_entries(self.domains@.take(i as int)),
            decreases self.domains@.len() - i,
        {
            let pair = &self.domains[i];
            push_realm_entries(&mut out, pair.0.as_str(), pair.1.salt.as_str(), &pair.1.realms);
            proof {
                assert(self.domains@.take(i + 1).drop_last() =~= self.domains@.take(i as int));
                assert(self.domains@.take(i + 1).last() == self.domains@[i as int]);
            }
            i = i + 1;
        }
        proof {
            assert(self.domains@.take(self.domains@.len() as int) =~= self.domains@);
            assert(entry_views(Seq::<Entry<'_>>::empty()) =~= Seq::<EntryView>::empty());
        }
        out
    }

    /// The first entry whose info-string is `info_string`
    /// (`<domain>/<realm>/<purpose>-v<N>`), if any.
    pub fn find_entry(&self, info_string: &str) -> (res: Option<Entry<'_>>)
        ensures
            match res {
                Some(e) => exists|k: int| is_first_match(domain_entries(self.domains@), info_string@, k)
                    && e@ == domain_entries(self.domains@)[k],
                None => forall|k: int| 0 <= k < domain_entries(self.domains@).len()
                    ==> (#[trigger] domain_entries(self.domains@)[k]).0 != info_string@,
            },
    {
        let mut all = self.entries();
        let target = string_from(info_string);
        let ghost es = domain_entries(self.domains@);
        let mut k: usize = 0;
        while k < all.len()
            invariant
                k <= all@.len(),
                entry_views(all@) == es,
                es == domain_entries(self.domains@),
                target@ == info_string@,
                forall|j: int| 0 <= j < k ==> (#[trigger] es[j]).0 != info_string@,
            decreases all@.len() - k,
        {
            if all[k].info_string == target {
                proof {
                    assert(entry_views(all@)[k as int] == all@[k as int]@);
                    assert(is_first_match(es, info_string@, k as int));
                }
                let found = all.remove(k);
                proof {
                    assert(found@ == es[k as int]);
                }
                return Some(found);
            }
            k = k + 1;
        }
        None
    }
}

/// `x` is the entry of one of the versions `vs` of purpose `p` of realm `r`
/// of domain `d`: its info-string is built from those names and the version
/// number, and it carries `usage`, `salt` and that version.
pub open spec fn is_version_entry(
    x: EntryView,
    d: Seq<char>,
    r: Seq<char>,
    p: Seq<char>,
    usage: Option<Seq<char>>,
    salt: Seq<char>,
    vs: Seq<(u32, Version)>,
) -> bool {
    exists|e: int| #![trigger vs[e]] 0 <= e < vs.len() && x == (info_text(d, r, p, vs[e].0), usage, salt, vs[e].1)
}

/// `x` is the entry of a version of one of the purposes `ps`, with that
/// purpose's name and usage.
pub open spec fn is_purpose_entry(x: EntryView, d: Seq<char>, r: Seq<char>, salt: Seq<char>, ps: Seq<(String, Purpose)>) -> bool {
    exists|c: int| #![trigger ps[c]]
        0 <= c < ps.len() && is_version_entry(x, d, r, ps[c].0@, opt_text(ps[c].1.usage), salt, ps[c].1.versions@)
}

/// `x` is the entry of a version of a purpose of one of the realms `rs`.
pub open spec fn is_realm_entry(x: EntryView, d: Seq<char>, salt: Seq<char>, rs: Seq<(String, Realm)>) -> bool {
    exists|b: int| #![trigger rs[b]] 0 <= b < rs.len() && is_purpose_entry(x, d, rs[b].0@, salt, rs[b].1.purposes@)
}

/// `x` is the entry of a version in the tree of domains `ds`, with the name
/// and the salt of its own domain.
pub open spec fn is_tree_entry(x: EntryView, ds: Seq<(String, Domain)>) -> bool {
    exists|a: int| #![trigger ds[a]] 0 <= a < ds.len() && is_realm_entry(x, ds[a].0@, ds[a].1.salt@, ds[a].1.realms@)
}

proof fn lemma_version_entries_from(
    d: Seq<char>,
    r: Seq<char>,
    p: Seq<char>,
    usage: Option<Seq<char>>,
    salt: Seq<char>,
    vs: Seq<(u32, Version)>,
)
    ensures
        forall|k: int| 0 <= k < version_entries(d, r, p, usage, salt, vs).len() ==> is_version_entry(
            #[trigger] version_entries(d, r, p, usage, salt, vs)[k],
            d,
            r,
            p,
            usage,
            salt,
            vs,
        ),
    decreases vs.len(),
{
    if vs.len() > 0 {
        let init = vs.drop_last();
        lemma_version_entries_from(d, r, p, usage, salt, init);
        let es = version_entries(d, r, p, usage, salt, vs);
        let ei = version_entries(d, r, p, usage, salt, init);
        assert forall|k: int| 0 <= k < es.len() implies is_version_entry(#[trigger] es[k], d, r, p, usage, salt, vs) by {
            if k < ei.len() {
                assert(es[k] == ei[k]);
                let e = choose|e: int| #![trigger init[e]] 0 <= e < init.len() && ei[k] == (
                    info_text(d, r, p, init[e].0),
                    usage,
                    salt,
                    init[e].1,
                );
                assert(vs[e] == init[e]);
            } else {
                assert(vs[vs.len() - 1] == vs.last());
            }
        }
    }
}

proof fn lemma_purpose_entries_from(d: Seq<char>, r: Seq<char>, salt: Seq<char>, ps: Seq<(String, Purpose)>)
    ensures
        forall|k: int| 0 <= k < purpose_entries(d, r, salt, ps).len() ==> is_purpose_entry(
            #[trigger] purpose_entries(d, r, salt, ps)[k],
            d,
            r,
            salt,
            ps,
        ),
    decreases ps.len(),
{
    if ps.len() > 0 {
        let init = ps.drop_last();
        let last = ps.last();
        let n = ps.len() - 1;
        assert(last == ps[n]);
        lemma_purpose_entries_from(d, r, salt, init);
        lemma_version_entries_from(d, r, last.0@, opt_text(last.1.usage), salt, last.1.versions@);
        let a = purpose_entries(d, r, salt, init);
        let b = version_entries(d, r, last.0@, opt_text(last.1.usage), salt, last.1.versions@);
        assert forall|k: int| 0 <= k < (a + b).len() implies is_purpose_entry(#[trigger] (a + b)[k], d, r, salt, ps) by {
            if k < a.len() {
                assert((a + b)[k] == a[k]);
                let c = choose|c: int| #![trigger init[c]]
                    0 <= c < init.len() && is_version_entry(
                        a[k],
                        d,
                        r,
                        init[c].0@,
                        opt_text(init[c].1.usage),
                        salt,
                        init[c].1.versions@,
                    );
                assert(ps[c] == init[c]);
            } else {
                assert((a + b)[k] == b[k - a.len()]);
                assert(is_version_entry(b[k - a.len()], d, r, ps[n].0@, opt_text(ps[n].1.usage), salt, ps[n].1.versions@));
            }
        }
    }
}

proof fn lemma_realm_entries_from(d: Seq<char>, salt: Seq<char>, rs: Seq<(String, Realm)>)
    ensures
        forall|k: int| 0 <= k < realm_entries(d, salt, rs).len() ==> is_realm_entry(
            #[trigger] realm_entries(d, salt, rs)[k],
            d,
            salt,
            rs,
        ),
    decreases rs.len(),
{
    if rs.len() > 0 {
        let init = rs.drop_last();
        let last = rs.last();
        let n = rs.len() - 1;
        assert(last == rs[n]);
        lemma_realm_entries_from(d, salt, init);
        lemma_purpose_entries_from(d, last.0@, salt, last.1.purposes@);
        let a = realm_entries(d, salt, init);
        let b = purpose_entries(d, last.0@, salt, last.1.purposes@);
        assert forall|k: int| 0 <= k < (a + b).len() implies is_realm_entry(#[trigger] (a + b)[k], d, salt, rs) by {
            if k < a.len() {
                assert((a + b)[k] == a[k]);
                let c = choose|c: int| #![trigger init[c]]
                    0 <= c < init.len() && is_purpose_entry(a[k], d, init[c].0@, salt, init[c].1.purposes@);
                assert(rs[c] == init[c]);
            } else {
                assert((a + b)[k] == b[k - a.len()]);
                assert(is_purpose_entry(b[k - a.len()], d, rs[n].0@, salt, rs[n].1.purposes@));
            }
        }
    }
}

/// Every entry is the entry of one version in the tree: for entry `k` there
/// are a domain, one of its realms, one of that realm's purposes and one of
/// that purpose's versions such that the entry's info-string is
/// `<domain>/<realm>/<purpose>-v<N>` of their names and number, its usage is
/// that purpose's, its salt is the salt of that same domain, and its version
/// is that version.
pub proof fn lemma_entries_from_tree(ds: Seq<(String, Domain)>)
    ensures
        forall|k: int| 0 <= k < domain_entries(ds).len() ==> is_tree_entry(#[trigger] domain_entries(ds)[k], ds),
    decreases ds.len(),
{
    if ds.len() > 0 {
        let init = ds.drop_last();
        let last = ds.last();
        let n = ds.len() - 1;
        assert(last == ds[n]);
        lemma_entries_from_tree(init);
        lemma_realm_entries_from(last.0@, last.1.salt@, last.1.realms@);
        let a = domain_entries(init);
        let b = realm_entries(last.0@, last.1.salt@, last.1.realms@);
        assert forall|k: int| 0 <= k < (a + b).len() implies is_tree_entry(#[trigger] (a + b)[k], ds) by {
            if k < a.len() {
                assert((a + b)[k] == a[k]);
                let c = choose|c: int| #![trigger init[c]]
                    0 <= c < init.len() && is_realm_entry(a[k], init[c].0@, init[c].1.salt@, init[c].1.realms@);
                assert(ds[c] == init[c]);
            } else {
                assert((a + b)[k] == b[k - a.len()]);
                assert(is_realm_entry(b[k - a.len()], ds[n].0@, ds[n].1.salt@, ds[n].1.realms@));
            }
        }
    }
}

/// The entry of version `v` of purpose `p` of realm `r` of domain `d`.
pub open spec fn version_tuple(
    d: Seq<char>,
    r: Seq<char>,
    p: Seq<char>,
    usage: Option<Seq<char>>,
    salt: Seq<char>,
    v: (u32, Version),
) -> EntryView {
    (info_text(d, r, p, v.0), usage, salt, v.1)
}

proof fn lemma_version_entries_complete(
    d: Seq<char>,
    r: Seq<char>,
    p: Seq<char>,
    usage: Option<Seq<char>>,
    salt: Seq<char>,
    vs: Seq<(u32, Version)>,
)
    ensures
        version_entries(d, r, p, usage, salt, vs).len() == vs.len(),
        forall|e: int| 0 <= e < vs.len() ==> version_entries(d, r, p, usage, salt, vs)[e] == version_tuple(
            d,
            r,
            p,
            usage,
            salt,
            #[trigger] vs[e],
        ),
    decreases vs.len(),
{
    if vs.len() > 0 {
        let init = vs.drop_last();
        lemma_version_entries_complete(d, r, p, usage, salt, init);
        assert forall|e: int| 0 <= e < vs.len() implies version_entries(d, r, p, usage, salt, vs)[e] == version_tuple(
            d,
            r,
            p,
            usage,
            salt,
            #[trigger] vs[e],
        ) by {
            if e < init.len() {
                assert(vs[e] == init[e]);
            }
        }
    }
}

proof fn lemma_purpose_entries_complete(d: Seq<char>, r: Seq<char>, salt: Seq<char>, ps: Seq<(String, Purpose)>)
    ensures
        forall|c: int, e: int|
            0 <= c < ps.len() && 0 <= e < ps[c].1.versions@.len() ==> purpose_entries(d, r, salt, ps).contains(
                version_tuple(d, r, ps[c].0@, opt_text(ps[c].1.usage), salt, #[trigger] ps[c].1.versions@[e]),
            ),
    decreases ps.len(),
{
    if ps.len() > 0 {
        let init = ps.drop_last();
        let n = ps.len() - 1;
        let last = ps[n];
        assert(ps.last() == last);
        lemma_purpose_entries_complete(d, r, salt, init);
        lemma_version_entries_complete(d, r, last.0@, opt_text(last.1.usage), salt, last.1.versions@);
        let a = purpose_entries(d, r, salt, init);
        let b = version_entries(d, r, last.0@, opt_text(last.1.usage), salt, last.1.versions@);
        assert forall|c: int, e: int| 0 <= c < ps.len() && 0 <= e < ps[c].1.versions@.len() implies (a + b).contains(
            version_tuple(d, r, ps[c].0@, opt_text(ps[c].1.usage), salt, #[trigger] ps[c].1.versions@[e]),
        ) by {
            let x = version_tuple(d, r, ps[c].0@, opt_text(ps[c].1.usage), salt, ps[c].1.versions@[e]);
            if c < n {
                assert(ps[c] == init[c]);
                assert(x == version_tuple(d, r, init[c].0@, opt_text(init[c].1.usage), salt, init[c].1.versions@[e]));
                let k = choose|k: int| 0 <= k < a.len() && a[k] == x;
                assert((a + b)[k] == x);
            } else {
                assert(b[e] == x);
                assert((a + b)[a.len() + e] == x);
            }
        }
    }
}

proof fn lemma_realm_entries_complete(d: Seq<char>, salt: Seq<char>, rs: Seq<(String, Realm)>)
    ensures
        forall|b: int, c: int, e: int|
            0 <= b < rs.len() && 0 <= c < rs[b].1.purposes@.len() && 0 <= e < rs[b].1.purposes@[c].1.versions@.len()
                ==> realm_entries(d, salt, rs).contains(
                version_tuple(
                    d,
                    rs[b].0@,
                    rs[b].1.purposes@[c].0@,
                    opt_text(rs[b].1.purposes@[c].1.usage),
                    salt,
                    #[trigger] rs[b].1.purposes@[c].1.versions@[e],
                ),
            ),
    decreases rs.len(),
{
    if rs.len() > 0 {
        let init = rs.drop_last();
        let n = rs.len() - 1;
        let last = rs[n];
        assert(rs.last() == last);
        lemma_realm_entries_complete(d, salt, init);
        lemma_purpose_entries_complete(d, last.0@, salt, last.1.purposes@);
        let a = realm_entries(d, salt, init);
        let bb = purpose_entries(d, last.0@, salt, last.1.purposes@);
        assert forall|b: int, c: int, e: int|
            0 <= b < rs.len() && 0 <= c < rs[b].1.purposes@.len() && 0 <= e < rs[b].1.purposes@[c].1.versions@.len()
                implies (a + bb).contains(
            version_tuple(
                d,
                rs[b].0@,
                rs[b].1.purposes@[c].0@,
                opt_text(rs[b].1.purposes@[c].1.usage),
                salt,
                #[trigger] rs[b].1.purposes@[c].1.versions@[e],
            ),
        ) by {
            let ps = rs[b].1.purposes@;
            let x = version_tuple(d, rs[b].0@, ps[c].0@, opt_text(ps[c].1.usage), salt, ps[c].1.versions@[e]);
            if b < n {
                assert(rs[b] == init[b]);
                assert(x == version_tuple(
                    d,
                    init[b].0@,
                    init[b].1.purposes@[c].0@,
                    opt_text(init[b].1.purposes@[c].1.usage),
                    salt,
                    init[b].1.purposes@[c].1.versions@[e],
                ));
                let k = choose|k: int| 0 <= k < a.len() && a[k] == x;
                assert((a + bb)[k] == x);
            } else {
                assert(bb.contains(x));
                let k = choose|k: int| 0 <= k < bb.len() && bb[k] == x;
                assert((a + bb)[a.len() + k] == x);
            }
        }
    }
}

/// Every version in the tree has its entry: for each domain, realm of it,
/// purpose of that realm and version of that purpose, the entries hold one
/// whose info-string is built from their names and number, with the
/// purpose's usage, the salt of that domain, and that version.
pub proof fn lemma_entries_cover_tree(ds: Seq<(String, Domain)>)
    ensures
        forall|a: int, b: int, c: int, e: int|
            0 <= a < ds.len() && 0 <= b < ds[a].1.realms@.len() && 0 <= c < ds[a].1.realms@[b].1.purposes@.len() && 0
                <= e < ds[a].1.realms@[b].1.purposes@[c].1.versions@.len() ==> domain_entries(ds).contains(
                version_tuple(
                    ds[a].0@,
                    ds[a].1.realms@[b].0@,
                    ds[a].1.realms@[b].1.purposes@[c].0@,
                    opt_text(ds[a].1.realms@[b].1.purposes@[c].1.usage),
                    ds[a].1.salt@,
                    #[trigger] ds[a].1.realms@[b].1.purposes@[c].1.versions@[e],
                ),
            ),
    decreases ds.len(),
{
    if ds.len() > 0 {
        let init = ds.drop_last();
        let n = ds.len() - 1;
        let last = ds[n];
        assert(ds.last() == last);
        lemma_entries_cover_tree(init);
        lemma_realm_entries_complete(last.0@, last.1.salt@, last.1.realms@);
        let aa = domain_entries(init);
        let bb = realm_entries(last.0@, last.1.salt@, last.1.realms@);
        assert forall|a: int, b: int, c: int, e: int|
            0 <= a < ds.len() && 0 <= b < ds[a].1.realms@.len() && 0 <= c < ds[a].1.realms@[b].1.purposes@.len() && 0
                <= e < ds[a].1.realms@[b].1.purposes@[c].1.versions@.len() implies (aa + bb).contains(
            version_tuple(
                ds[a].0@,
                ds[a].1.realms@[b].0@,
                ds[a].1.realms@[b].1.purposes@[c].0@,
                opt_text(ds[a].1.realms@[b].1.purposes@[c].1.usage),
                ds[a].1.salt@,
                #[trigger] ds[a].1.realms@[b].1.purposes@[c].1.versions@[e],
            ),
        ) by {
            let rs = ds[a].1.realms@;
            let ps = rs[b].1.purposes@;
            let x = version_tuple(ds[a].0@, rs[b].0@, ps[c].0@, opt_text(ps[c].1.usage), ds[a].1.salt@, ps[c].1.versions@[e]);
            if a < n {
                assert(ds[a] == init[a]);
                assert(x == version_tuple(
                    init[a].0@,
                    init[a].1.realms@[b].0@,
                    init[a].1.realms@[b].1.purposes@[c].0@,
                    opt_text(init[a].1.realms@[b].1.purposes@[c].1.usage),
                    init[a].1.salt@,
                    init[a].1.realms@[b].1.purposes@[c].1.versions@[e],
                ));
                let k = choose|k: int| 0 <= k < aa.len() && aa[k] == x;
                assert((aa + bb)[k] == x);
            } else {
                assert(bb.contains(x));
                let k = choose|k: int| 0 <= k < bb.len() && bb[k] == x;
                assert((aa + bb)[aa.len() + k] == x);
            }
        }
    }
}

// ---------------------------------------------------------------------------
// Iteration order
// ---------------------------------------------------------------------------

/// Keys in strictly ascending [`text_lt`] order, hence none repeated.
pub open spec fn names_ascending<V>(m: Seq<(String, V)>) -> bool {
    forall|i: int, j: int| 0 <= i < j < m.len() ==> text_lt(#[trigger] m[i].0@, #[trigger] m[j].0@)
}

/// Version numbers in strictly ascending order, hence none repeated.
pub open spec fn numbers_ascending(m: Seq<(u32, Version)>) -> bool {
    forall|i: int, j: int| 0 <= i < j < m.len() ==> #[trigger] m[i].0 < #[trigger] m[j].0
}

/// A purpose list whose names, and the version numbers of each purpose,
/// are ascending.
pub open spec fn purposes_wf(ps: Seq<(String, Purpose)>) -> bool {
    &&& names_ascending(ps)
    &&& forall|c: int| 0 <= c < ps.len() ==> numbers_ascending((#[trigger] ps[c]).1.versions@)
}

/// A realm list ascending by name, each realm's purposes well-formed.
pub open spec fn realms_wf(rs: Seq<(String, Realm)>) -> bool {
    &&& names_ascending(rs)
    &&& forall|b: int| 0 <= b < rs.len() ==> purposes_wf((#[trigger] rs[b]).1.purposes@)
}

/// A domain list ascending by name, each domain's realms well-formed.
pub open spec fn domains_wf(ds: Seq<(String, Domain)>) -> bool {
    &&& names_ascending(ds)
    &&& forall|a: int| 0 <= a < ds.len() ==> realms_wf((#[trigger] ds[a]).1.realms@)
}

impl Inventory {
    /// Every mapping level holds its keys in ascending order without
    /// repeats, as an ordered map does; `validate` accepts no inventory
    /// without it.
    pub open spec fn wf(self) -> bool {
        domains_wf(self.domains@)
    }
}

/// The position of an entry in the tree: domain, realm and purpose names
/// and the version number.
pub type EntryKey = (Seq<char>, Seq<char>, Seq<char>, u32);

/// Tree order on positions: by domain name, then realm name, then purpose
/// name, then version number.
pub open spec fn key_lt(a: EntryKey, b: EntryKey) -> bool {
    ||| text_lt(a.0, b.0)
    ||| a.0 == b.0 && text_lt(a.1, b.1)
    ||| a.0 == b.0 && a.1 == b.1 && text_lt(a.2, b.2)
    ||| a.0 == b.0 && a.1 == b.1 && a.2 == b.2 && a.3 < b.3
}

/// Positions in strictly increasing tree order.
pub open spec fn keys_increasing(s: Seq<EntryKey>) -> bool {
    forall|i: int, j: int| 0 <= i < j < s.len() ==> key_lt(#[trigger] s[i], #[trigger] s[j])
}

/// The positions of the versions of purpose `p`, in list order.
pub open spec fn version_keys(d: Seq<char>, r: Seq<char>, p: Seq<char>, vs: Seq<(u32, Version)>) -> Seq<EntryKey>
    decreases vs.len(),
{
    if vs.len() == 0 {
        Seq::empty()
    } else {
        version_keys(d, r, p, vs.drop_last()).push((d, r, p, vs.last().0))
    }
}

/// The positions of the purposes of realm `r`, in list order.
pub open spec fn purpose_keys(d: Seq<char>, r: Seq<char>, ps: Seq<(String, Purpose)>) -> Seq<EntryKey>
    decreases ps.len(),
{
    if ps.len() == 0 {
        Seq::empty()
    } else {
        purpose_keys(d, r, ps.drop_last()) + version_keys(d, r, ps.last().0@, ps.last().1.versions@)
    }
}

/// The positions of the realms of domain `d`, in list order.
pub open spec fn realm_keys(d: Seq<char>, rs: Seq<(String, Realm)>) -> Seq<EntryKey>
    decreases rs.len(),
{
    if rs.len() == 0 {
        Seq::empty()
    } else {
        realm_keys(d, rs.drop_last()) + purpose_keys(d, rs.last().0@, rs.last().1.purposes@)
    }
}

/// The positions of the entries of a list of domains, in list order.
pub open spec fn domain_keys(ds: Seq<(String, Domain)>) -> Seq<EntryKey>
    decreases ds.len(),
{
    if ds.len() == 0 {
        Seq::empty()
    } else {
        domain_keys(ds.drop_last()) + realm_keys(ds.last().0@, ds.last().1.realms@)
    }
}

/// Entries and positions correspond one to one: entry `k` has the
/// info-string of position `k`.
pub open spec fn entries_match_keys(es: Seq<EntryView>, ks: Seq<EntryKey>) -> bool {
    &&& es.len() == ks.len()
    &&& forall|k: int| 0 <= k < es.len() ==> (#[trigger] es[k]).0 == info_text(ks[k].0, ks[k].1, ks[k].2, ks[k].3)
}

proof fn lemma_concat_increasing(a: Seq<EntryKey>, b: Seq<EntryKey>)
    requires
        keys_increasing(a),
        keys_increasing(b),
        forall|i: int, j: int| 0 <= i < a.len() && 0 <= j < b.len() ==> key_lt(#[trigger] a[i], #[trigger] b[j]),
    ensures
        keys_increasing(a + b),
{
    assert forall|i: int, j: int| 0 <= i < j < (a + b).len() implies key_lt(#[trigger] (a + b)[i], #[trigger] (a + b)[j]) by {
        if j < a.len() {
            assert((a + b)[i] == a[i] && (a + b)[j] == a[j]);
        } else if i < a.len() {
            assert((a + b)[i] == a[i] && (a + b)[j] == b[j - a.len()]);
        } else {
            assert((a + b)[i] == b[i - a.len()] && (a + b)[j] == b[j - a.len()]);
        }
    }
}

proof fn lemma_concat_match(ea: Seq<EntryView>, ka: Seq<EntryKey>, eb: Seq<EntryView>, kb: Seq<EntryKey>)
    requires
        entries_match_keys(ea, ka),
        entries_match_keys(eb, kb),
    ensures
        entries_match_keys(ea + eb, ka + kb),
{
    assert forall|k: int| 0 <= k < (ea + eb).len() implies (#[trigger] (ea + eb)[k]).0 == info_text(
        (ka + kb)[k].0,
        (ka + kb)[k].1,
        (ka + kb)[k].2,
        (ka + kb)[k].3,
    ) by {
        if k < ea.len() {
            assert((ea + eb)[k] == ea[k] && (ka + kb)[k] == ka[k]);
        } else {
            assert((ea + eb)[k] == eb[k - ea.len()] && (ka + kb)[k] == kb[k - ea.len()]);
        }
    }
}

proof fn lemma_version_keys(
    d: Seq<char>,
    r: Seq<char>,
    p: Seq<char>,
    usage: Option<Seq<char>>,
    salt: Seq<char>,
    vs: Seq<(u32, Version)>,
)
    requires
        numbers_ascending(vs),
    ensures
        keys_increasing(version_keys(d, r, p, vs)),
        entries_match_keys(version_entries(d, r, p, usage, salt, vs), version_keys(d, r, p, vs)),
        forall|k: int| 0 <= k < version_keys(d, r, p, vs).len() ==> {
            let key = #[trigger] version_keys(d, r, p, vs)[k];
            key.0 == d && key.1 == r && key.2 == p && exists|i: int| 0 <= i < vs.len() && key.3 == vs[i].0
                && forall|j: int| i < j < vs.len() ==> key.3 < #[trigger] vs[j].0
        },
    decreases vs.len(),
{
    if vs.len() > 0 {
        let init = vs.drop_last();
        assert(numbers_ascending(init)) by {
            assert forall|i: int, j: int| 0 <= i < j < init.len() implies #[trigger] init[i].0 < #[trigger] init[j].0 by {
                assert(init[i] == vs[i] && init[j] == vs[j]);
            }
        }
        lemma_version_keys(d, r, p, usage, salt, init);
        let ks = version_keys(d, r, p, vs);
        let ki = version_keys(d, r, p, init);
        let last = (d, r, p, vs.last().0);
        assert(ks == ki.push(last));
        assert forall|k: int| 0 <= k < ks.len() implies {
            let key = #[trigger] ks[k];
            key.0 == d && key.1 == r && key.2 == p && exists|i: int| 0 <= i < vs.len() && key.3 == vs[i].0
                && forall|j: int| i < j < vs.len() ==> key.3 < #[trigger] vs[j].0
        } by {
            if k < ki.len() {
                assert(ks[k] == ki[k]);
                let i = choose|i: int| 0 <= i < init.len() && ki[k].3 == init[i].0
                    && forall|j: int| i < j < init.len() ==> ki[k].3 < #[trigger] init[j].0;
                assert(init[i] == vs[i]);
                assert forall|j: int| i < j < vs.len() implies ki[k].3 < #[trigger] vs[j].0 by {
                    if j < init.len() {
                        assert(init[j] == vs[j]);
                    }
                }
            } else {
                assert(ks[k] == last);
                assert(vs.last() == vs[vs.len() - 1]);
            }
        }
        assert forall|i: int, j: int| 0 <= i < j < ks.len() implies key_lt(#[trigger] ks[i], #[trigger] ks[j]) by {
            if j < ki.len() {
                assert(ks[i] == ki[i] && ks[j] == ki[j]);
            } else {
                assert(ks[i] == ki[i]);
                assert(ks[j] == last);
                let t = choose|t: int| 0 <= t < init.len() && ki[i].3 == init[t].0
                    && forall|q: int| t < q < init.len() ==> ki[i].3 < #[trigger] init[q].0;
                assert(init[t] == vs[t]);
                assert(vs[t].0 < vs[vs.len() - 1].0);
            }
        }
        let es = version_entries(d, r, p, usage, salt, vs);
        let ei = version_entries(d, r, p, usage, salt, init);
        assert forall|k: int| 0 <= k < es.len() implies (#[trigger] es[k]).0 == info_text(
            ks[k].0,
            ks[k].1,
            ks[k].2,
            ks[k].3,
        ) by {
            if k < ei.len() {
                assert(es[k] == ei[k] && ks[k] == ki[k]);
            }
        }
    }
}

proof fn lemma_purpose_keys(d: Seq<char>, r: Seq<char>, salt: Seq<char>, ps: Seq<(String, Purpose)>)
    requires
        purposes_wf(ps),
    ensures
        keys_increasing(purpose_keys(d, r, ps)),
        entries_match_keys(purpose_entries(d, r, salt, ps), purpose_keys(d, r, ps)),
        forall|k: int| 0 <= k < purpose_keys(d, r, ps).len() ==> {
            let key = #[trigger] purpose_keys(d, r, ps)[k];
            key.0 == d && key.1 == r && exists|i: int| 0 <= i < ps.len() && key.2 == ps[i].0@
        },
    decreases ps.len(),
{
    if ps.len() > 0 {
        let init = ps.drop_last();
        let last = ps.last();
        let n = ps.len() - 1;
        assert(last == ps[n]);
        assert forall|c: int| 0 <= c < init.len() implies numbers_ascending((#[trigger] init[c]).1.versions@) by {
            assert(init[c] == ps[c]);
        }
        assert forall|i: int, j: int| 0 <= i < j < init.len() implies text_lt(#[trigger] init[i].0@, #[trigger] init[j].0@) by {
            assert(init[i] == ps[i] && init[j] == ps[j]);
        }
        lemma_purpose_keys(d, r, salt, init);
        lemma_version_keys(d, r, last.0@, opt_text(last.1.usage), salt, last.1.versions@);
        let a = purpose_keys(d, r, init);
        let b = version_keys(d, r, last.0@, last.1.versions@);
        assert forall|i: int, j: int| 0 <= i < a.len() && 0 <= j < b.len() implies key_lt(#[trigger] a[i], #[trigger] b[j]) by {
            let t = choose|t: int| 0 <= t < init.len() && a[i].2 == init[t].0@;
            assert(init[t] == ps[t]);
            assert(text_lt(ps[t].0@, ps[n].0@));
        }
        lemma_concat_increasing(a, b);
        lemma_concat_match(
            purpose_entries(d, r, salt, init),
            a,
            version_entries(d, r, last.0@, opt_text(last.1.usage), salt, last.1.versions@),
            b,
        );
        assert forall|k: int| 0 <= k < (a + b).len() implies {
            let key = #[trigger] (a + b)[k];
            key.0 == d && key.1 == r && exists|i: int| 0 <= i < ps.len() && key.2 == ps[i].0@
        } by {
            if k < a.len() {
                assert((a + b)[k] == a[k]);
                let t = choose|t: int| 0 <= t < init.len() && a[k].2 == init[t].0@;
                assert(init[t] == ps[t]);
            } else {
                assert((a + b)[k] == b[k - a.len()]);
            }
        }
    }
}

proof fn lemma_realm_keys(d: Seq<char>, salt: Seq<char>, rs: Seq<(String, Realm)>)
    requires
        realms_wf(rs),
    ensures
        keys_increasing(realm_keys(d, rs)),
        entries_match_keys(realm_entries(d, salt, rs), realm_keys(d, rs)),
        forall|k: int| 0 <= k < realm_keys(d, rs).len() ==> {
            let key = #[trigger] realm_keys(d, rs)[k];
            key.0 == d && exists|i: int| 0 <= i < rs.len() && key.1 == rs[i].0@
        },
    decreases rs.len(),
{
    if rs.len() > 0 {
        let init = rs.drop_last();
        let last = rs.last();
        let n = rs.len() - 1;
        assert(last == rs[n]);
        assert forall|b: int| 0 <= b < init.len() implies purposes_wf((#[trigger] init[b]).1.purposes@) by {
            assert(init[b] == rs[b]);
        }
        assert forall|i: int, j: int| 0 <= i < j < init.len() implies text_lt(#[trigger] init[i].0@, #[trigger] init[j].0@) by {
            assert(init[i] == rs[i] && init[j] == rs[j]);
        }
        lemma_realm_keys(d, salt, init);
        lemma_purpose_keys(d, last.0@, salt, last.1.purposes@);
        let a = realm_keys(d, init);
        let b = purpose_keys(d, last.0@, last.1.purposes@);
        assert forall|i: int, j: int| 0 <= i < a.len() && 0 <= j < b.len() implies key_lt(#[trigger] a[i], #[trigger] b[j]) by {
            let t = choose|t: int| 0 <= t < init.len() && a[i].1 == init[t].0@;
            assert(init[t] == rs[t]);
            assert(text_lt(rs[t].0@, rs[n].0@));
        }
        lemma_concat_increasing(a, b);
        lemma_concat_match(realm_entries(d, salt, init), a, purpose_entries(d, last.0@, salt, last.1.purposes@), b);
        assert forall|k: int| 0 <= k < (a + b).len() implies {
            let key = #[trigger] (a + b)[k];
            key.0 == d && exists|i: int| 0 <= i < rs.len() && key.1 == rs[i].0@
        } by {
            if k < a.len() {
                assert((a + b)[k] == a[k]);
                let t = choose|t: int| 0 <= t < init.len() && a[k].1 == init[t].0@;
                assert(init[t] == rs[t]);
            } else {
                assert((a + b)[k] == b[k - a.len()]);
            }
        }
    }
}

proof fn lemma_domain_keys(ds: Seq<(String, Domain)>)
    requires
        domains_wf(ds),
    ensures
        keys_increasing(domain_keys(ds)),
        entries_match_keys(domain_entries(ds), domain_keys(ds)),
        forall|k: int| 0 <= k < domain_keys(ds).len() ==> exists|i: int| 0 <= i < ds.len() && (#[trigger] domain_keys(ds)[k]).0 == ds[i].0@,
    decreases ds.len(),
{
    if ds.len() > 0 {
        let init = ds.drop_last();
        let last = ds.last();
        let n = ds.len() - 1;
        assert(last == ds[n]);
        assert forall|a: int| 0 <= a < init.len() implies realms_wf((#[trigger] init[a]).1.realms@) by {
            assert(init[a] == ds[a]);
        }
        assert forall|i: int, j: int| 0 <= i < j < init.len() implies text_lt(#[trigger] init[i].0@, #[trigger] init[j].0@) by {
            assert(init[i] == ds[i] && init[j] == ds[j]);
        }
        lemma_domain_keys(init);
        lemma_realm_keys(last.0@, last.1.salt@, last.1.realms@);
        let a = domain_keys(init);
        let b = realm_keys(last.0@, last.1.realms@);
        assert forall|i: int, j: int| 0 <= i < a.len() && 0 <= j < b.len() implies key_lt(#[trigger] a[i], #[trigger] b[j]) by {
            let t = choose|t: int| 0 <= t < init.len() && a[i].0 == init[t].0@;
            assert(init[t] == ds[t]);
            assert(text_lt(ds[t].0@, ds[n].0@));
        }
        lemma_concat_increasing(a, b);
        lemma_concat_match(domain_entries(init), a, realm_entries(last.0@, last.1.salt@, last.1.realms@), b);
        assert forall|k: int| 0 <= k < (a + b).len() implies exists|i: int| 0 <= i < ds.len() && (#[trigger] (a
            + b)[k]).0 == ds[i].0@ by {
            if k < a.len() {
                assert((a + b)[k] == a[k]);
                let t = choose|t: int| 0 <= t < init.len() && a[k].0 == init[t].0@;
                assert(init[t] == ds[t]);
            } else {
                assert((a + b)[k] == b[k - a.len()]);
                assert(b[k - a.len()].0 == ds[n].0@);
            }
        }
    }
}

/// The positions of an inventory's entries, in iteration order.
pub open spec fn inventory_keys(inv: Inventory) -> Seq<EntryKey> {
    domain_keys(inv.domains@)
}

/// Iteration order is deterministic: for a well-formed inventory (every
/// inventory that `validate` accepts is one), entry `k`
/// has the info-string `<domain>/<realm>/<purpose>-v<N>` of position `k`,
/// and positions come sorted by domain name, then realm name, then purpose
/// name, then version number, none repeated.
pub proof fn lemma_entries_in_tree_order(inv: Inventory)
    requires
        inv.wf(),
    ensures
        entries_match_keys(domain_entries(inv.domains@), inventory_keys(inv)),
        keys_increasing(inventory_keys(inv)),
{
    lemma_domain_keys(inv.domains@);
}
// ---------------------------------------------------------------------------
// Distinct info-strings
// ---------------------------------------------------------------------------

/// Every purpose of the list has a canonical name.
pub open spec fn purposes_named(ps: Seq<(String, Purpose)>) -> bool {
    forall|i: int| 0 <= i < ps.len() ==> name_ok((#[trigger] ps[i]).0@)
}

/// Every realm of the list, and every purpose below it, has a canonical name.
pub open spec fn realms_named(rs: Seq<(String, Realm)>) -> bool {
    forall|i: int| 0 <= i < rs.len() ==> name_ok((#[trigger] rs[i]).0@) && purposes_named(rs[i].1.purposes@)
}

/// Every domain of the list, and every realm and purpose below it, has a
/// canonical name.
pub open spec fn domains_named(ds: Seq<(String, Domain)>) -> bool {
    forall|i: int| 0 <= i < ds.len() ==> name_ok((#[trigger] ds[i]).0@) && realms_named(ds[i].1.realms@)
}

/// The three names of a position are canonical.
pub open spec fn key_named(k: EntryKey) -> bool {
    name_ok(k.0) && name_ok(k.1) && name_ok(k.2)
}

/// Every purpose of the list has at least one version.
pub open spec fn purposes_filled(ps: Seq<(String, Purpose)>) -> bool {
    forall|i: int| 0 <= i < ps.len() ==> (#[trigger] ps[i]).1.versions@.len() > 0
}

/// Every realm of the list has at least one purpose, and each of those at
/// least one version.
pub open spec fn realms_filled(rs: Seq<(String, Realm)>) -> bool {
    forall|i: int| 0 <= i < rs.len() ==> (#[trigger] rs[i]).1.purposes@.len() > 0 && purposes_filled(rs[i].1.purposes@)
}

/// Every domain of the list has at least one realm, and so on down to the
/// versions.
pub open spec fn domains_filled(ds: Seq<(String, Domain)>) -> bool {
    forall|i: int| 0 <= i < ds.len() ==> (#[trigger] ds[i]).1.realms@.len() > 0 && realms_filled(ds[i].1.realms@)
}

/// Keys ascending from position 1 on, and the first below the second, make
/// the whole list ascending.
proof fn lemma_names_ascending_cons<V>(m: Seq<(String, V)>)
    requires
        names_ascending(m.drop_first()),
        m.len() > 1 ==> text_lt(m[0].0@, m[1].0@),
    ensures
        names_ascending(m),
{
    let rest = m.drop_first();
    assert forall|i: int, j: int| 0 <= i < j < m.len() implies text_lt(#[trigger] m[i].0@, #[trigger] m[j].0@) by {
        if i > 0 {
            assert(m[i] == rest[i - 1] && m[j] == rest[j - 1]);
        } else if j > 1 {
            assert(m[1] == rest[0] && m[j] == rest[j - 1]);
            lemma_text_lt_transitive(m[0].0@, m[1].0@, m[j].0@);
        }
    }
}

proof fn lemma_versions_fault_free(path: Seq<char>, vs: Seq<(u32, Version)>)
    requires
        versions_fault(path, vs) is None,
    ensures
        numbers_ascending(vs),
    decreases vs.len(),
{
    if vs.len() >= 2 {
        let rest = vs.drop_first();
        lemma_versions_fault_free(path, rest);
        assert forall|i: int, j: int| 0 <= i < j < vs.len() implies #[trigger] vs[i].0 < #[trigger] vs[j].0 by {
            if i > 0 {
                assert(vs[i] == rest[i - 1] && vs[j] == rest[j - 1]);
            } else if j > 1 {
                assert(vs[1] == rest[0] && vs[j] == rest[j - 1]);
            }
        }
    }
}

proof fn lemma_purposes_fault_free(d: Seq<char>, r: Seq<char>, ps: Seq<(String, Purpose)>)
    requires
        purposes_fault(d, r, ps) is None,
    ensures
        purposes_named(ps),
        purposes_filled(ps),
        purposes_wf(ps),
    decreases ps.len(),
{
    if ps.len() > 0 {
        let rest = ps.drop_first();
        let at = "domains."@ + d + ".realms."@ + r + ".purposes"@;
        lemma_versions_fault_free(at + "."@ + ps[0].0@ + ".versions"@, ps[0].1.versions@);
        lemma_purposes_fault_free(d, r, rest);
        lemma_names_ascending_cons(ps);
        assert forall|i: int| 0 <= i < ps.len() implies name_ok((#[trigger] ps[i]).0@) && ps[i].1.versions@.len()
            > 0 && numbers_ascending(ps[i].1.versions@) by {
            if i > 0 {
                assert(ps[i] == rest[i - 1]);
            }
        }
    }
}

proof fn lemma_realms_fault_free(d: Seq<char>, rs: Seq<(String, Realm)>)
    requires
        realms_fault(d, rs) is None,
    ensures
        realms_named(rs),
        realms_filled(rs),
        realms_wf(rs),
    decreases rs.len(),
{
    if rs.len() > 0 {
        let rest = rs.drop_first();
        lemma_purposes_fault_free(d, rs[0].0@, rs[0].1.purposes@);
        lemma_realms_fault_free(d, rest);
        lemma_names_ascending_cons(rs);
        assert forall|i: int| 0 <= i < rs.len() implies name_ok((#[trigger] rs[i]).0@) && purposes_named(
            rs[i].1.purposes@,
        ) && rs[i].1.purposes@.len() > 0 && purposes_filled(rs[i].1.purposes@) && purposes_wf(rs[i].1.purposes@) by {
            if i > 0 {
                assert(rs[i] == rest[i - 1]);
            }
        }
    }
}

proof fn lemma_domains_fault_free(ds: Seq<(String, Domain)>)
    requires
        domains_fault(ds) is None,
    ensures
        domains_named(ds),
        domains_filled(ds),
        domains_wf(ds),
    decreases ds.len(),
{
    if ds.len() > 0 {
        let rest = ds.drop_first();
        lemma_realms_fault_free(ds[0].0@, ds[0].1.realms@);
        lemma_domains_fault_free(rest);
        lemma_names_ascending_cons(ds);
        assert forall|i: int| 0 <= i < ds.len() implies name_ok((#[trigger] ds[i]).0@) && realms_named(
            ds[i].1.realms@,
        ) && ds[i].1.realms@.len() > 0 && realms_filled(ds[i].1.realms@) && realms_wf(ds[i].1.realms@) by {
            if i > 0 {
                assert(ds[i] == rest[i - 1]);
            }
        }
    }
}

/// The naming rule: a name is canonical exactly when it is non-empty and
/// every character is a lowercase ASCII letter, an ASCII digit or a hyphen,
/// wherever it stands (a leading digit or hyphen included).
pub proof fn lemma_name_rule(name: Seq<char>)
    ensures
        name_ok(name) <==> (name.len() > 0 && forall|i: int|
            0 <= i < name.len() ==> ('a' <= #[trigger] name[i] && name[i] <= 'z') || ('0' <= name[i] && name[i] <= '9')
                || name[i] == '-'),
{
}

proof fn lemma_versions_fault_none(path: Seq<char>, vs: Seq<(u32, Version)>)
    requires
        numbers_ascending(vs),
    ensures
        versions_fault(path, vs) is None,
    decreases vs.len(),
{
    if vs.len() >= 2 {
        let rest = vs.drop_first();
        assert forall|i: int, j: int| 0 <= i < j < rest.len() implies #[trigger] rest[i].0 < #[trigger] rest[j].0 by {
            assert(rest[i] == vs[i + 1] && rest[j] == vs[j + 1]);
        }
        assert(vs[0].0 < vs[1].0);
        lemma_versions_fault_none(path, rest);
    }
}

proof fn lemma_purposes_fault_none(d: Seq<char>, r: Seq<char>, ps: Seq<(String, Purpose)>)
    requires
        purposes_named(ps),
        purposes_filled(ps),
        purposes_wf(ps),
    ensures
        purposes_fault(d, r, ps) is None,
    decreases ps.len(),
{
    if ps.len() > 0 {
        let rest = ps.drop_first();
        assert(name_ok(ps[0].0@) && ps[0].1.versions@.len() > 0 && numbers_ascending(ps[0].1.versions@));
        let at = "domains."@ + d + ".realms."@ + r + ".purposes"@;
        lemma_versions_fault_none(at + "."@ + ps[0].0@ + ".versions"@, ps[0].1.versions@);
        if ps.len() > 1 {
            assert(text_lt(ps[0].0@, ps[1].0@));
        }
        assert forall|i: int| 0 <= i < rest.len() implies name_ok((#[trigger] rest[i]).0@) && rest[i].1.versions@.len()
            > 0 && numbers_ascending(rest[i].1.versions@) by {
            assert(rest[i] == ps[i + 1]);
        }
        assert forall|i: int, j: int| 0 <= i < j < rest.len() implies text_lt(#[trigger] rest[i].0@, #[trigger] rest[j].0@) by {
            assert(rest[i] == ps[i + 1] && rest[j] == ps[j + 1]);
        }
        lemma_purposes_fault_none(d, r, rest);
    }
}

proof fn lemma_realms_fault_none(d: Seq<char>, rs: Seq<(String, Realm)>)
    requires
        realms_named(rs),
        realms_filled(rs),
        realms_wf(rs),
    ensures
        realms_fault(d, rs) is None,
    decreases rs.len(),
{
    if rs.len() > 0 {
        let rest = rs.drop_first();
        assert(name_ok(rs[0].0@) && rs[0].1.purposes@.len() > 0 && purposes_named(rs[0].1.purposes@)
            && purposes_filled(rs[0].1.purposes@) && purposes_wf(rs[0].1.purposes@));
        lemma_purposes_fault_none(d, rs[0].0@, rs[0].1.purposes@);
        if rs.len() > 1 {
            assert(text_lt(rs[0].0@, rs[1].0@));
        }
        assert forall|i: int| 0 <= i < rest.len() implies name_ok((#[trigger] rest[i]).0@) && purposes_named(
            rest[i].1.purposes@,
        ) && rest[i].1.purposes@.len() > 0 && purposes_filled(rest[i].1.purposes@) && purposes_wf(rest[i].1.purposes@) by {
            assert(rest[i] == rs[i + 1]);
        }
        assert forall|i: int, j: int| 0 <= i < j < rest.len() implies text_lt(#[trigger] rest[i].0@, #[trigger] rest[j].0@) by {
            assert(rest[i] == rs[i + 1] && rest[j] == rs[j + 1]);
        }
        lemma_realms_fault_none(d, rest);
    }
}

proof fn lemma_domains_fault_none(ds: Seq<(String, Domain)>)
    requires
        domains_named(ds),
        domains_filled(ds),
        domains_wf(ds),
    ensures
        domains_fault(ds) is None,
    decreases ds.len(),
{
    if ds.len() > 0 {
        let rest = ds.drop_first();
        assert(name_ok(ds[0].0@) && ds[0].1.realms@.len() > 0 && realms_named(ds[0].1.realms@) && realms_filled(
            ds[0].1.realms@,
        ) && realms_wf(ds[0].1.realms@));
        lemma_realms_fault_none(ds[0].0@, ds[0].1.realms@);
        if ds.len() > 1 {
            assert(text_lt(ds[0].0@, ds[1].0@));
        }
        assert forall|i: int| 0 <= i < rest.len() implies name_ok((#[trigger] rest[i]).0@) && realms_named(
            rest[i].1.realms@,
        ) && rest[i].1.realms@.len() > 0 && realms_filled(rest[i].1.realms@) && realms_wf(rest[i].1.realms@) by {
            assert(rest[i] == ds[i + 1]);
        }
        assert forall|i: int, j: int| 0 <= i < j < rest.len() implies text_lt(#[trigger] rest[i].0@, #[trigger] rest[j].0@) by {
            assert(rest[i] == ds[i + 1] && rest[j] == ds[j + 1]);
        }
        lemma_domains_fault_none(rest);
    }
}

/// `validate` accepts exactly the inventories of schema version 1 with at
/// least one domain, canonical names everywhere (see [`lemma_name_rule`]), no
/// empty domain, realm or purpose, and unique ascending keys at every level.
pub proof fn lemma_validate_accepts(inv: Inventory)
    ensures
        inventory_fault(inv) is None <==> (inv.schema_version == 1 && inv.domains@.len() > 0 && domains_named(
            inv.domains@,
        ) && domains_filled(inv.domains@) && inv.wf()),
{
    if inventory_fault(inv) is None {
        lemma_domains_fault_free(inv.domains@);
    }
    if inv.schema_version == 1 && inv.domains@.len() > 0 && domains_named(inv.domains@) && domains_filled(inv.domains@)
        && inv.wf() {
        lemma_domains_fault_none(inv.domains@);
    }
}

/// What `validate` accepting an inventory means: schema version 1, at least
/// one domain, every domain, realm and purpose name canonical, no empty
/// domain, realm or purpose, and the keys of every mapping level (names,
/// version numbers) unique and ascending.
pub proof fn lemma_valid_inventory(inv: Inventory)
    requires
        inventory_fault(inv) is None,
    ensures
        inv.schema_version == 1,
        inv.domains@.len() > 0,
        domains_named(inv.domains@),
        domains_filled(inv.domains@),
        inv.wf(),
{
    lemma_domains_fault_free(inv.domains@);
}

proof fn lemma_version_keys_named(d: Seq<char>, r: Seq<char>, p: Seq<char>, vs: Seq<(u32, Version)>)
    requires
        name_ok(d),
        name_ok(r),
        name_ok(p),
    ensures
        forall|k: int| 0 <= k < version_keys(d, r, p, vs).len() ==> key_named(#[trigger] version_keys(d, r, p, vs)[k]),
    decreases vs.len(),
{
    if vs.len() > 0 {
        lemma_version_keys_named(d, r, p, vs.drop_last());
        let ki = version_keys(d, r, p, vs.drop_last());
        assert forall|k: int| 0 <= k < version_keys(d, r, p, vs).len() implies key_named(
            #[trigger] version_keys(d, r, p, vs)[k],
        ) by {
            if k < ki.len() {
                assert(version_keys(d, r, p, vs)[k] == ki[k]);
            }
        }
    }
}

proof fn lemma_purpose_keys_named(d: Seq<char>, r: Seq<char>, ps: Seq<(String, Purpose)>)
    requires
        name_ok(d),
        name_ok(r),
        purposes_named(ps),
    ensures
        forall|k: int| 0 <= k < purpose_keys(d, r, ps).len() ==> key_named(#[trigger] purpose_keys(d, r, ps)[k]),
    decreases ps.len(),
{
    if ps.len() > 0 {
        let init = ps.drop_last();
        assert(ps.last() == ps[ps.len() - 1]);
        assert forall|i: int| 0 <= i < init.len() implies name_ok((#[trigger] init[i]).0@) by {
            assert(init[i] == ps[i]);
        }
        lemma_purpose_keys_named(d, r, init);
        lemma_version_keys_named(d, r, ps.last().0@, ps.last().1.versions@);
        let a = purpose_keys(d, r, init);
        let b = version_keys(d, r, ps.last().0@, ps.last().1.versions@);
        assert forall|k: int| 0 <= k < (a + b).len() implies key_named(#[trigger] (a + b)[k]) by {
            if k < a.len() {
                assert((a + b)[k] == a[k]);
            } else {
                assert((a + b)[k] == b[k - a.len()]);
            }
        }
    }
}

proof fn lemma_realm_keys_named(d: Seq<char>, rs: Seq<(String, Realm)>)
    requires
        name_ok(d),
        realms_named(rs),
    ensures
        forall|k: int| 0 <= k < realm_keys(d, rs).len() ==> key_named(#[trigger] realm_keys(d, rs)[k]),
    decreases rs.len(),
{
    if rs.len() > 0 {
        let init = rs.drop_last();
        let n = rs.len() - 1;
        assert(rs.last() == rs[n]);
        assert forall|i: int| 0 <= i < init.len() implies name_ok((#[trigger] init[i]).0@) && purposes_named(
            init[i].1.purposes@,
        ) by {
            assert(init[i] == rs[i]);
        }
        lemma_realm_keys_named(d, init);
        assert(name_ok(rs[n].0@) && purposes_named(rs[n].1.purposes@));
        lemma_purpose_keys_named(d, rs.last().0@, rs.last().1.purposes@);
        let a = realm_keys(d, init);
        let b = purpose_keys(d, rs.last().0@, rs.last().1.purposes@);
        assert forall|k: int| 0 <= k < (a + b).len() implies key_named(#[trigger] (a + b)[k]) by {
            if k < a.len() {
                assert((a + b)[k] == a[k]);
            } else {
                assert((a + b)[k] == b[k - a.len()]);
            }
        }
    }
}

proof fn lemma_domain_keys_named(ds: Seq<(String, Domain)>)
    requires
        domains_named(ds),
    ensures
        forall|k: int| 0 <= k < domain_keys(ds).len() ==> key_named(#[trigger] domain_keys(ds)[k]),
    decreases ds.len(),
{
    if ds.len() > 0 {
        let init = ds.drop_last();
        let n = ds.len() - 1;
        assert(ds.last() == ds[n]);
        assert forall|i: int| 0 <= i < init.len() implies name_ok((#[trigger] init[i]).0@) && realms_named(
            init[i].1.realms@,
        ) by {
            assert(init[i] == ds[i]);
        }
        lemma_domain_keys_named(init);
        assert(name_ok(ds[n].0@) && realms_named(ds[n].1.realms@));
        lemma_realm_keys_named(ds.last().0@, ds.last().1.realms@);
        let a = domain_keys(init);
        let b = realm_keys(ds.last().0@, ds.last().1.realms@);
        assert forall|k: int| 0 <= k < (a + b).len() implies key_named(#[trigger] (a + b)[k]) by {
            if k < a.len() {
                assert((a + b)[k] == a[k]);
            } else {
                assert((a + b)[k] == b[k - a.len()]);
            }
        }
    }
}

/// A text cut at the first `sep`, where the part before it holds none, is
/// cut at one place only.
proof fn lemma_split_first(a1: Seq<char>, b1: Seq<char>, a2: Seq<char>, b2: Seq<char>, sep: char)
    requires
        a1.push(sep) + b1 == a2.push(sep) + b2,
        forall|i: int| 0 <= i < a1.len() ==> a1[i] != sep,
        forall|i: int| 0 <= i < a2.len() ==> a2[i] != sep,
    ensures
        a1 == a2,
        b1 == b2,
{
    let s = a1.push(sep) + b1;
    if a1.len() < a2.len() {
        assert(s[a1.len() as int] == sep);
        assert((a2.push(sep) + b2)[a1.len() as int] == a2[a1.len() as int]);
    } else if a2.len() < a1.len() {
        assert(s[a2.len() as int] == a1[a2.len() as int]);
        assert((a2.push(sep) + b2)[a2.len() as int] == sep);
    }
    assert(a1 =~= s.take(a1.len() as int));
    assert(a2 =~= (a2.push(sep) + b2).take(a2.len() as int));
    assert(b1 =~= s.skip(a1.len() as int + 1));
    assert(b2 =~= (a2.push(sep) + b2).skip(a2.len() as int + 1));
}

/// A text ending in `-v` and a run of digits is cut there at one place only.
proof fn lemma_split_version(p1: Seq<char>, t1: Seq<char>, p2: Seq<char>, t2: Seq<char>)
    requires
        p1 + seq!['-', 'v'] + t1 == p2 + seq!['-', 'v'] + t2,
        forall|i: int| 0 <= i < t1.len() ==> '0' <= #[trigger] t1[i] <= '9',
        forall|i: int| 0 <= i < t2.len() ==> '0' <= #[trigger] t2[i] <= '9',
    ensures
        p1 == p2,
        t1 == t2,
{
    let s1 = p1 + seq!['-', 'v'] + t1;
    let s2 = p2 + seq!['-', 'v'] + t2;
    assert(s1.len() == s2.len());
    let n = s1.len();
    if t1.len() < t2.len() {
        assert(s1[n - t1.len() - 1] == 'v');
        assert(s2[n - t1.len() - 1] == t2[t2.len() - t1.len() - 1]);
    } else if t2.len() < t1.len() {
        assert(s2[n - t2.len() - 1] == 'v');
        assert(s1[n - t2.len() - 1] == t1[t1.len() - t2.len() - 1]);
    }
    assert(t1 =~= s1.skip(n - t1.len()));
    assert(t2 =~= s2.skip(n - t2.len()));
    assert(p1 =~= s1.take(p1.len() as int));
    assert(p2 =~= s2.take(p2.len() as int));
}

/// Positions with canonical names have distinct info-strings: the text
/// `<domain>/<realm>/<purpose>-v<N>` gives the position back.
proof fn lemma_info_text_injective(a: EntryKey, b: EntryKey)
    requires
        key_named(a),
        key_named(b),
        info_text(a.0, a.1, a.2, a.3) == info_text(b.0, b.1, b.2, b.3),
    ensures
        a == b,
{
    reveal_strlit("/");
    reveal_strlit("-v");
    let ta = decimal_text(a.3 as nat);
    let tb = decimal_text(b.3 as nat);
    let va = seq!['-', 'v'];
    assert(info_text(a.0, a.1, a.2, a.3) =~= a.0.push('/') + (a.1.push('/') + (a.2 + va + ta)));
    assert(info_text(b.0, b.1, b.2, b.3) =~= b.0.push('/') + (b.1.push('/') + (b.2 + va + tb)));
    lemma_split_first(a.0, a.1.push('/') + (a.2 + va + ta), b.0, b.1.push('/') + (b.2 + va + tb), '/');
    lemma_split_first(a.1, a.2 + va + ta, b.1, b.2 + va + tb, '/');
    lemma_decimal_digits(a.3 as nat);
    lemma_decimal_digits(b.3 as nat);
    lemma_split_version(a.2, ta, b.2, tb);
    lemma_decimal_injective(a.3 as nat, b.3 as nat);
}

/// In a valid inventory (one that `validate` accepts) no two entries share
/// an info-string, so each
/// entry is the first, and only, match for its own info-string: `find_entry`
/// given the info-string of entry `k` finds entry `k`.
pub proof fn lemma_info_strings_distinct(inv: Inventory)
    requires
        inventory_fault(inv) is None,
    ensures
        forall|i: int, j: int|
            0 <= i < j < domain_entries(inv.domains@).len() ==> (#[trigger] domain_entries(inv.domains@)[i]).0
                != (#[trigger] domain_entries(inv.domains@)[j]).0,
        forall|k: int|
            0 <= k < domain_entries(inv.domains@).len() ==> is_first_match(
                domain_entries(inv.domains@),
                (#[trigger] domain_entries(inv.domains@)[k]).0,
                k,
            ),
{
    let es = domain_entries(inv.domains@);
    let ks = domain_keys(inv.domains@);
    lemma_domains_fault_free(inv.domains@);
    lemma_domain_keys(inv.domains@);
    lemma_domain_keys_named(inv.domains@);
    assert forall|i: int, j: int| 0 <= i < j < es.len() implies (#[trigger] es[i]).0 != (#[trigger] es[j]).0 by {
        assert(key_lt(ks[i], ks[j]));
        if es[i].0 == es[j].0 {
            assert(key_named(ks[i]) && key_named(ks[j]));
            lemma_info_text_injective(ks[i], ks[j]);
            lemma_text_lt_total(ks[i].0, ks[i].0);
            lemma_text_lt_total(ks[i].1, ks[i].1);
            lemma_text_lt_total(ks[i].2, ks[i].2);
        }
    }
}
} // verus!
