//! The decisions behind the command-line subcommands: filtering and listing
//! inventory entries, refusing entries that cannot be derived, deriving and
//! encoding one entry's passphrase, selecting the entries of a report and
//! assembling their cards. Reading the seed and the inventory, resolving
//! wordlist files and writing output are left to the caller.
use vstd::prelude::*;
use vstd::string::*;
use vstd::utf8::encode_utf8;

use crate::encoding::{
    alphanumeric_encoding, base64_encoding, diceware_encoding, encode_alphanumeric, encode_base64,
    encode_diceware, encode_numeric, longest_word_bytes, numeric_encoding, text_result, word_texts,
    EncodeError,
};
use crate::inventory::{
    domain_entries, entry_views, Derivation, Encoding, Entry, EntryView, Inventory, Status,
};
use crate::report::{ReportEntry, ReportMeta};
use crate::secret::wipe_bytes;
use crate::text::{
    chars_of, decimal, decimal_text, lemma_text_lt_total, lemma_text_lt_transitive, push_char, string_from,
    string_of_chars, text_less, text_lt, texts,
};
use crate::{derive_bytes, hkdf_sha256, DeriveError};

verus! {

// ---------------------------------------------------------------------------
// Filters and descriptions
// ---------------------------------------------------------------------------

/// A `--status` filter value.
#[derive(Debug, Clone, Copy, PartialEq, Eq, Structural)]
pub enum StatusFilter {
    /// Matches `active` versions.
    Active,
    /// Matches `retired` versions.
    Retired,
    /// Matches `reserved` versions.
    Reserved,
}

/// A `--derivation` filter value.
#[derive(Debug, Clone, Copy, PartialEq, Eq, Structural)]
pub enum DerivationFilter {
    /// Matches `hkdf` versions.
    Hkdf,
    /// Matches `manual` versions.
    Manual,
    /// Matches `service-generated` versions.
    ServiceGenerated,
}

/// The status a filter value names.
pub open spec fn status_of_filter(f: StatusFilter) -> Status {
    match f {
        StatusFilter::Active => Status::Active,
        StatusFilter::Retired => Status::Retired,
        StatusFilter::Reserved => Status::Reserved,
    }
}

/// The derivation a filter value names.
pub open spec fn derivation_of_filter(f: DerivationFilter) -> Derivation {
    match f {
        DerivationFilter::Hkdf => Derivation::Hkdf,
        DerivationFilter::Manual => Derivation::Manual,
        DerivationFilter::ServiceGenerated => Derivation::ServiceGenerated,
    }
}

impl StatusFilter {
    /// The filter matches exactly the status it names.
    pub fn matches(self, status: Status) -> (b: bool)
        ensures
            b == (status_of_filter(self) == status),
    {
        match (self, status) {
            (StatusFilter::Active, Status::Active) => true,
            (StatusFilter::Retired, Status::Retired) => true,
            (StatusFilter::Reserved, Status::Reserved) => true,
            _ => false,
        }
    }
}

impl DerivationFilter {
    /// The filter matches exactly the derivation it names.
    pub fn matches(self, derivation: Derivation) -> (b: bool)
        ensures
            b == (derivation_of_filter(self) == derivation),
    {
        match (self, derivation) {
            (DerivationFilter::Hkdf, Derivation::Hkdf) => true,
            (DerivationFilter::Manual, Derivation::Manual) => true,
            (DerivationFilter::ServiceGenerated, Derivation::ServiceGenerated) => true,
            _ => false,
        }
    }
}

/// A version passes the status filters: there are none, or one matches.
pub open spec fn status_selected(filters: Seq<StatusFilter>, s: Status) -> bool {
    filters.len() == 0 || exists|i: int| 0 <= i < filters.len() && status_of_filter(#[trigger] filters[i]) == s
}

/// A version passes the derivation filters: there are none, or one matches.
pub open spec fn derivation_selected(filters: Seq<DerivationFilter>, d: Derivation) -> bool {
    filters.len() == 0 || exists|i: int| 0 <= i < filters.len() && derivation_of_filter(#[trigger] filters[i]) == d
}

/// An entry passes both kinds of filters.
pub open spec fn entry_selected(statuses: Seq<StatusFilter>, derivations: Seq<DerivationFilter>, e: EntryView) -> bool {
    status_selected(statuses, e.3.status) && derivation_selected(derivations, e.3.derivation)
}

/// Whether a version passes the `--status` and `--derivation` filters.
pub fn passes_filters(statuses: &[StatusFilter], derivations: &[DerivationFilter], status: Status, derivation: Derivation) -> (b: bool)
    ensures
        b == (status_selected(statuses@, status) && derivation_selected(derivations@, derivation)),
{
    let mut s_ok = statuses.len() == 0;
    let mut i: usize = 0;
    while i < statuses.len()
        invariant
            i <= statuses@.len(),
            s_ok == (statuses@.len() == 0 || exists|j: int| 0 <= j < i && status_of_filter(#[trigger] statuses@[j]) == status),
        decreases statuses@.len() - i,
    {
        if statuses[i].matches(status) {
            s_ok = true;
        }
        i = i + 1;
    }
    let mut d_ok = derivations.len() == 0;
    let mut k: usize = 0;
    while k < derivations.len()
        invariant
            k <= derivations@.len(),
            d_ok == (derivations@.len() == 0 || exists|j: int| 0 <= j < k && derivation_of_filter(#[trigger] derivations@[j]) == derivation),
        decreases derivations@.len() - k,
    {
        if derivations[k].matches(derivation) {
            d_ok = true;
        }
        k = k + 1;
    }
    s_ok && d_ok
}

/// The inventory spelling of a derivation kind.
pub open spec fn derivation_name(d: Derivation) -> Seq<char> {
    match d {
        Derivation::Hkdf => "hkdf"@,
        Derivation::Manual => "manual"@,
        Derivation::ServiceGenerated => "service-generated"@,
    }
}

/// The inventory spelling of a status.
pub open spec fn status_name(s: Status) -> Seq<char> {
    match s {
        Status::Active => "active"@,
        Status::Retired => "retired"@,
        Status::Reserved => "reserved"@,
    }
}

/// A compact description of an encoding: `diceware/<wordlist>/<length>`,
/// `alphanumeric/<length>`, `numeric/<length>` or `base64/<bytes>`.
pub open spec fn encoding_desc(e: Encoding) -> Seq<char> {
    match e {
        Encoding::Diceware { wordlist, length } => "diceware/"@ + wordlist@ + "/"@ + decimal_text(length as nat),
        Encoding::Alphanumeric { length } => "alphanumeric/"@ + decimal_text(length as nat),
        Encoding::Numeric { length } => "numeric/"@ + decimal_text(length as nat),
        Encoding::Base64 { bytes } => "base64/"@ + decimal_text(bytes as nat),
    }
}

/// The inventory spelling of a derivation kind.
pub fn format_derivation(d: Derivation) -> (s: &'static str)
    ensures
        s@ == derivation_name(d),
{
    match d {
        Derivation::Hkdf => "hkdf",
        Derivation::Manual => "manual",
        Derivation::ServiceGenerated => "service-generated",
    }
}

/// The inventory spelling of a status.
pub fn format_status(s: Status) -> (r: &'static str)
    ensures
        r@ == status_name(s),
{
    match s {
        Status::Active => "active",
        Status::Retired => "retired",
        Status::Reserved => "reserved",
    }
}

/// A compact description of an encoding, e.g. `diceware/eff_large/8`.
pub fn format_encoding(e: &Encoding) -> (s: String)
    ensures
        s@ == encoding_desc(*e),
{
    match e {
        Encoding::Diceware { wordlist, length } => {
            let mut s = string_from("diceware/");
            s.append(wordlist.as_str());
            s.append("/");
            s.append(decimal(*length).as_str());
            s
        },
        Encoding::Alphanumeric { length } => {
            let mut s = string_from("alphanumeric/");
            s.append(decimal(*length).as_str());
            s
        },
        Encoding::Numeric { length } => {
            let mut s = string_from("numeric/");
            s.append(decimal(*length).as_str());
            s
        },
        Encoding::Base64 { bytes } => {
            let mut s = string_from("base64/");
            s.append(decimal(*bytes).as_str());
            s
        },
    }
}

// ---------------------------------------------------------------------------
// list
// ---------------------------------------------------------------------------

/// One line of `list` output: the info-string, with derivation, status and
/// encoding appended (tab-separated) when verbose.
pub open spec fn list_line(e: EntryView, verbose: bool) -> Seq<char> {
    if verbose {
        e.0 + "\t"@ + derivation_name(e.3.derivation) + "\t"@ + status_name(e.3.status) + "\t"@ + encoding_desc(
            e.3.encoding,
        )
    } else {
        e.0
    }
}

/// The `list` output for `es`: one line per entry that passes the filters,
/// in entry order.
pub open spec fn list_output(
    es: Seq<EntryView>,
    verbose: bool,
    statuses: Seq<StatusFilter>,
    derivations: Seq<DerivationFilter>,
) -> Seq<Seq<char>>
    decreases es.len(),
{
    if es.len() == 0 {
        Seq::empty()
    } else if entry_selected(statuses, derivations, es.last()) {
        list_output(es.drop_last(), verbose, statuses, derivations).push(list_line(es.last(), verbose))
    } else {
        list_output(es.drop_last(), verbose, statuses, derivations)
    }
}

/// An entry passes the `--status` and `--derivation` filters: for each kind,
/// no value is given or one of the given values names the entry's.
pub open spec fn passes(statuses: Seq<StatusFilter>, derivations: Seq<DerivationFilter>) -> spec_fn(EntryView) -> bool {
    |e: EntryView|
        (statuses.len() == 0 || exists|i: int| 0 <= i < statuses.len() && status_of_filter(#[trigger] statuses[i]) == e.3.status)
            && (derivations.len() == 0 || exists|i: int|
            0 <= i < derivations.len() && derivation_of_filter(#[trigger] derivations[i]) == e.3.derivation)
}

/// The `list` output is the line of every entry that passes the filters,
/// and of no other, in entry order. Giving several values of one filter
/// widens the selection: an entry passes when any of them matches.
pub proof fn lemma_list_output_filters(
    es: Seq<EntryView>,
    verbose: bool,
    statuses: Seq<StatusFilter>,
    derivations: Seq<DerivationFilter>,
)
    ensures
        list_output(es, verbose, statuses, derivations) == es.filter(passes(statuses, derivations)).map_values(
            |e: EntryView| list_line(e, verbose),
        ),
    decreases es.len(),
{
    reveal(Seq::filter);
    let f = |e: EntryView| list_line(e, verbose);
    if es.len() > 0 {
        lemma_list_output_filters(es.drop_last(), verbose, statuses, derivations);
        let fl = es.drop_last().filter(passes(statuses, derivations));
        assert(passes(statuses, derivations)(es.last()) == entry_selected(statuses, derivations, es.last()));
        assert(fl.push(es.last()).map_values(f) =~= fl.map_values(f).push(f(es.last())));
    } else {
        assert(es.filter(passes(statuses, derivations)).map_values(f) =~= Seq::<Seq<char>>::empty());
    }
}

/// The lines the `list` subcommand prints for an inventory.
pub fn list_lines(inventory: &Inventory, verbose: bool, statuses: &[StatusFilter], derivations: &[DerivationFilter]) -> (lines: Vec<String>)
    ensures
        texts(lines@) == list_output(domain_entries(inventory.domains@), verbose, statuses@, derivations@),
{
    let es = inventory.entries();
    let ghost all = entry_views(es@);
    let mut lines: Vec<String> = Vec::new();
    let mut k: usize = 0;
    while k < es.len()
        invariant
            k <= es@.len(),
            all == entry_views(es@),
            all == domain_entries(inventory.domains@),
            texts(lines@) == list_output(all.take(k as int), verbose, statuses@, derivations@),
        decreases es@.len() - k,
    {
        let e = &es[k];
        proof {
            assert(all.take(k + 1).drop_last() =~= all.take(k as int));
            assert(all.take(k + 1).last() == e@);
        }
        if passes_filters(statuses, derivations, e.version.status, e.version.derivation) {
            let line = if verbose {
                let mut s = e.info_string.clone();
                s.append("\t");
                s.append(format_derivation(e.version.derivation));
                s.append("\t");
                s.append(format_status(e.version.status));
                s.append("\t");
                s.append(format_encoding(&e.version.encoding).as_str());
                s
            } else {
                e.info_string.clone()
            };
            proof {
                assert(texts(lines@.push(line)) =~= texts(lines@).push(line@));
            }
            lines.push(line);
        }
        k = k + 1;
    }
    proof {
        assert(all.take(es@.len() as int) =~= all);
    }
    lines
}

// ---------------------------------------------------------------------------
// show
// ---------------------------------------------------------------------------

/// Size of the HKDF output buffer passed to encoders: enough for a 20-word
/// Diceware phrase or a 40-character alphanumeric passphrase with room to
/// spare.
pub const DERIVE_BUFFER_BYTES: usize = 128;

/// Why an entry cannot be derived by this tool.
#[derive(Debug, Clone, Copy, PartialEq, Eq, Structural)]
pub enum Refusal {
    /// The value was chosen out of band.
    Manual,
    /// The value was issued by an external service.
    ServiceGenerated,
}

/// Only `hkdf` entries can be reproduced; manual and service-generated
/// entries are refused.
pub fn check_derivable(derivation: Derivation) -> (res: Result<(), Refusal>)
    ensures
        res == match derivation {
            Derivation::Hkdf => Ok::<(), Refusal>(()),
            Derivation::Manual => Err(Refusal::Manual),
            Derivation::ServiceGenerated => Err(Refusal::ServiceGenerated),
        },
{
    match derivation {
        Derivation::Hkdf => Ok(()),
        Derivation::Manual => Err(Refusal::Manual),
        Derivation::ServiceGenerated => Err(Refusal::ServiceGenerated),
    }
}

/// Errors while deriving an entry's passphrase.
#[derive(Debug, Clone, Copy, PartialEq, Eq, Structural)]
pub enum PassphraseError {
    /// The master seed is empty.
    EmptySeed,
    /// HKDF derivation failed.
    Derive(DeriveError),
    /// Encoding the derived bytes failed.
    Encode(EncodeError),
}

/// The limits under which encoding `raw_len` bytes with `encoding` allocates
/// its output without overflowing: the output's capacity must not exceed
/// `isize::MAX` bytes and the bit positions of the input must fit a `usize`.
pub open spec fn encoding_within_limits(raw_len: nat, encoding: Encoding, wordlist: Seq<&str>) -> bool {
    match encoding {
        Encoding::Diceware { length, .. } => 0 < wordlist.len() <= u32::MAX && length > 0 ==> {
            &&& 8 * raw_len <= usize::MAX
            &&& length * (longest_word_bytes(wordlist) + 1) <= isize::MAX
        },
        Encoding::Alphanumeric { length } => length > 0 ==> 8 * raw_len <= usize::MAX && length <= isize::MAX,
        Encoding::Numeric { length } => length > 0 ==> 8 * raw_len <= usize::MAX && length <= isize::MAX,
        Encoding::Base64 { bytes } => 0 < bytes <= raw_len ==> 4 * ((bytes + 2) / 3) <= usize::MAX,
    }
}

/// Whether encoding `raw_len` bytes with `encoding` stays within the
/// allocation limits.
pub fn encoding_fits(raw_len: usize, encoding: &Encoding, wordlist: &[&str]) -> (b: bool)
    ensures
        b == encoding_within_limits(raw_len as nat, *encoding, wordlist@),
{
    let bits_fit = raw_len <= usize::MAX / 8;
    match encoding {
        Encoding::Diceware { length, .. } => {
            let n = wordlist.len();
            if n == 0 || n > u32::MAX as usize || *length == 0 {
                return true;
            }
            let mut longest: usize = 0;
            let mut j: usize = 0;
            while j < n
                invariant
                    j <= n == wordlist@.len(),
                    longest == longest_word_bytes(wordlist@.take(j as int)),
                decreases n - j,
            {
                proof {
                    assert(wordlist@.take(j + 1).drop_last() =~= wordlist@.take(j as int));
                }
                let len = wordlist[j].len();
                if len > longest {
                    longest = len;
                }
                j = j + 1;
            }
            proof {
                assert(wordlist@.take(n as int) =~= wordlist@);
            }
            if longest >= isize::MAX as usize {
                proof {
                    let l = *length as int;
                    let m = (longest + 1) as int;
                    assert(l * m >= m) by (nonlinear_arith)
                        requires
                            l >= 1,
                            m >= 0,
                    ;
                }
                return false;
            }
            let fits_len = *length <= (isize::MAX as usize) / (longest + 1);
            proof {
                let l = *length as int;
                let m = (longest + 1) as int;
                let cap = isize::MAX as int;
                assert(l <= cap / m ==> l * m <= cap) by (nonlinear_arith)
                    requires
                        m > 0,
                        cap >= 0,
                ;
                assert(l > cap / m ==> l * m > cap) by (nonlinear_arith)
                    requires
                        m > 0,
                        cap >= 0,
                ;
                assert(fits_len == (l * m <= cap));
                assert(bits_fit == (8 * raw_len <= usize::MAX));
                assert(longest == longest_word_bytes(wordlist@));
            }
            bits_fit && fits_len
        },
        Encoding::Alphanumeric { length } => *length == 0 || (bits_fit && *length <= isize::MAX as usize),
        Encoding::Numeric { length } => *length == 0 || (bits_fit && *length <= isize::MAX as usize),
        Encoding::Base64 { bytes } => {
            if *bytes == 0 || *bytes > raw_len {
                true
            } else {
                let groups = *bytes / 3 + if *bytes % 3 == 0 { 0 } else { 1 };
                groups <= usize::MAX / 4
            }
        },
    }
}

/// What encoding `raw` with `encoding` gives.
pub open spec fn encoding_outcome(raw: Seq<u8>, encoding: Encoding, words: Seq<Seq<char>>) -> Result<Seq<char>, EncodeError> {
    match encoding {
        Encoding::Diceware { length, .. } => diceware_encoding(raw, words, length as nat),
        Encoding::Alphanumeric { length } => alphanumeric_encoding(raw, length as nat),
        Encoding::Numeric { length } => numeric_encoding(raw, length as nat),
        Encoding::Base64 { bytes } => base64_encoding(raw, bytes as nat),
    }
}

/// Applies the encoding declared in the inventory to a raw HKDF output
/// buffer. `wordlist` holds the words of the Diceware wordlist the encoding
/// names; other encodings ignore it.
pub fn encode_for_entry(raw: &[u8], encoding: &Encoding, wordlist: &[&str]) -> (res: Result<String, EncodeError>)
    requires
        encoding_within_limits(raw@.len(), *encoding, wordlist@),
    ensures
        text_result(res) == encoding_outcome(raw@, *encoding, word_texts(wordlist@)),
{
    match encoding {
        Encoding::Diceware { length, .. } => encode_diceware(raw, wordlist, *length),
        Encoding::Alphanumeric { length } => encode_alphanumeric(raw, *length),
        Encoding::Numeric { length } => encode_numeric(raw, *length),
        Encoding::Base64 { bytes } => encode_base64(raw, *bytes),
    }
}

/// The passphrase of an `hkdf` entry: HKDF-SHA256 of the seed with the
/// entry's salt and info-string, [`DERIVE_BUFFER_BYTES`] long, encoded as
/// the entry's version declares.
pub open spec fn passphrase_outcome(ikm: Seq<u8>, e: EntryView, words: Seq<Seq<char>>) -> Result<Seq<char>, PassphraseError> {
    if ikm.len() == 0 {
        Err(PassphraseError::EmptySeed)
    } else {
        match encoding_outcome(
            hkdf_sha256(ikm, encode_utf8(e.2), encode_utf8(e.0), DERIVE_BUFFER_BYTES as nat),
            e.3.encoding,
            words,
        ) {
            Ok(t) => Ok(t),
            Err(x) => Err(PassphraseError::Encode(x)),
        }
    }
}

/// The outcome of a passphrase derivation.
pub open spec fn passphrase_result(r: Result<String, PassphraseError>) -> Result<Seq<char>, PassphraseError> {
    match r {
        Ok(s) => Ok(s@),
        Err(e) => Err(e),
    }
}

/// Derives and encodes the passphrase of an `hkdf` entry from the master
/// seed `ikm`. `wordlist` holds the words of the Diceware wordlist the
/// entry's encoding names. The derived bytes are wiped once encoded.
pub fn derive_passphrase(ikm: &[u8], entry: &Entry, wordlist: &[&str]) -> (res: Result<String, PassphraseError>)
    requires
        encoding_within_limits(DERIVE_BUFFER_BYTES as nat, entry.version.encoding, wordlist@),
    ensures
        passphrase_result(res) == passphrase_outcome(ikm@, entry@, word_texts(wordlist@)),
{
    if ikm.len() == 0 {
        return Err(PassphraseError::EmptySeed);
    }
    let derived = derive_bytes(ikm, entry.salt.as_bytes(), entry.info_string.as_str().as_bytes(), DERIVE_BUFFER_BYTES);
    let mut raw = match derived {
        Ok(raw) => raw,
        Err(e) => {
            return Err(PassphraseError::Derive(e));
        },
    };
    let encoded = encode_for_entry(raw.as_slice(), &entry.version.encoding, wordlist);
    wipe_bytes(&mut raw);
    match encoded {
        Ok(s) => Ok(s),
        Err(e) => Err(PassphraseError::Encode(e)),
    }
}

// ---------------------------------------------------------------------------
// derive
// ---------------------------------------------------------------------------

/// Lowercase hexadecimal digit for `d < 16`.
pub open spec fn hex_digit(d: nat) -> char {
    if d < 10 {
        ('0' as nat + d) as char
    } else {
        ('a' as nat + (d - 10)) as char
    }
}

/// Lowercase hexadecimal text of `bytes`, two digits per byte, high nibble
/// first.
pub open spec fn hex_text(bytes: Seq<u8>) -> Seq<char>
    decreases bytes.len(),
{
    if bytes.len() == 0 {
        Seq::empty()
    } else {
        hex_text(bytes.drop_last()).push(hex_digit(bytes.last() as nat / 16)).push(hex_digit(bytes.last() as nat % 16))
    }
}

/// Hex text has two characters per byte: for byte `i`, the characters at
/// `2i` and `2i + 1` are the lowercase hexadecimal digits of its high and
/// low nibble, taken from `0123456789abcdef`.
pub proof fn lemma_hex_digits(bytes: Seq<u8>)
    ensures
        hex_text(bytes).len() == 2 * bytes.len(),
        forall|i: int|
            0 <= i < bytes.len() ==> hex_text(bytes)[2 * i] == "0123456789abcdef"@[(#[trigger] bytes[i]) as int / 16]
                && hex_text(bytes)[2 * i + 1] == "0123456789abcdef"@[bytes[i] as int % 16],
    decreases bytes.len(),
{
    reveal_strlit("0123456789abcdef");
    let alphabet = "0123456789abcdef"@;
    assert forall|d: nat| d < 16 implies #[trigger] hex_digit(d) == alphabet[d as int] by {
        assert(d < 10 || d == 10 || d == 11 || d == 12 || d == 13 || d == 14 || d == 15);
    }
    if bytes.len() > 0 {
        let init = bytes.drop_last();
        lemma_hex_digits(init);
        let h = hex_text(bytes);
        let hi = hex_text(init);
        assert forall|i: int| 0 <= i < bytes.len() implies h[2 * i] == alphabet[(#[trigger] bytes[i]) as int / 16]
            && h[2 * i + 1] == alphabet[bytes[i] as int % 16] by {
            if i < init.len() {
                assert(bytes[i] == init[i]);
                assert(h[2 * i] == hi[2 * i] && h[2 * i + 1] == hi[2 * i + 1]);
            } else {
                assert(bytes[i] == bytes.last());
                assert(hex_digit(bytes.last() as nat / 16) == alphabet[bytes.last() as int / 16]);
                assert(hex_digit(bytes.last() as nat % 16) == alphabet[bytes.last() as int % 16]);
            }
        }
    }
}

fn hex_symbol(d: u8) -> (c: char)
    requires
        d < 16,
    ensures
        c == hex_digit(d as nat),
{
    if d < 10 {
        (48u8 + d) as char
    } else {
        (97u8 + (d - 10)) as char
    }
}

/// Lowercase hexadecimal rendering of `bytes`, as the `derive` subcommand
/// prints derived key material.
pub fn to_hex(bytes: &[u8]) -> (s: String)
    ensures
        s@ == hex_text(bytes@),
{
    let mut s = String::new();
    let mut i: usize = 0;
    while i < bytes.len()
        invariant
            i <= bytes@.len(),
            s@ == hex_text(bytes@.take(i as int)),
        decreases bytes@.len() - i,
    {
        proof {
            assert(bytes@.take(i + 1).drop_last() =~= bytes@.take(i as int));
        }
        let b = bytes[i];
        push_char(&mut s, hex_symbol(b / 16));
        push_char(&mut s, hex_symbol(b % 16));
        i = i + 1;
    }
    proof {
        assert(bytes@.take(bytes@.len() as int) =~= bytes@);
    }
    s
}

// ---------------------------------------------------------------------------
// report
// ---------------------------------------------------------------------------

/// Whether `info` is the info-string of an entry before position `k`.
pub open spec fn seen_before(es: Seq<EntryView>, k: int, info: Seq<char>) -> bool {
    exists|j: int| 0 <= j < k && (#[trigger] es[j]).0 == info
}

/// Whether `info` is among the requested names.
pub open spec fn is_requested(requested: Seq<String>, info: Seq<char>) -> bool {
    exists|i: int| 0 <= i < requested.len() && (#[trigger] requested[i])@ == info
}

/// The entries a report includes, in entry order. With requested names,
/// exactly the first entry of each requested info-string (the status and
/// derivation filters do not apply); without, every entry that passes the
/// filters.
pub open spec fn report_selection(
    es: Seq<EntryView>,
    requested: Seq<String>,
    statuses: Seq<StatusFilter>,
    derivations: Seq<DerivationFilter>,
) -> Seq<EntryView>
    decreases es.len(),
{
    if es.len() == 0 {
        Seq::empty()
    } else {
        let e = es.last();
        let k = es.len() - 1;
        let chosen = if requested.len() > 0 {
            is_requested(requested, e.0) && !seen_before(es, k, e.0)
        } else {
            entry_selected(statuses, derivations, e)
        };
        let rest = report_selection(es.drop_last(), requested, statuses, derivations);
        if chosen {
            rest.push(e)
        } else {
            rest
        }
    }
}

/// Position `k` of `es` holds an info-string that is among the requested
/// names and that no earlier position holds.
pub open spec fn first_requested(es: Seq<EntryView>, requested: Seq<String>) -> spec_fn(int) -> bool {
    |k: int|
        (exists|i: int| 0 <= i < requested.len() && (#[trigger] requested[i])@ == es[k].0) && !(exists|j: int|
            0 <= j < k && (#[trigger] es[j]).0 == es[k].0)
}

proof fn lemma_filter_congruent<A>(s: Seq<A>, p: spec_fn(A) -> bool, q: spec_fn(A) -> bool)
    requires
        forall|i: int| 0 <= i < s.len() ==> p(#[trigger] s[i]) == q(s[i]),
    ensures
        s.filter(p) == s.filter(q),
    decreases s.len(),
{
    reveal(Seq::filter);
    if s.len() > 0 {
        let t = s.drop_last();
        assert forall|i: int| 0 <= i < t.len() implies p(#[trigger] t[i]) == q(t[i]) by {
            assert(t[i] == s[i]);
        }
        lemma_filter_congruent(t, p, q);
        assert(p(s[s.len() - 1]) == q(s[s.len() - 1]));
    }
}

proof fn lemma_filter_members<A>(s: Seq<A>, p: spec_fn(A) -> bool)
    ensures
        forall|i: int| 0 <= i < s.filter(p).len() ==> exists|j: int| 0 <= j < s.len() && s[j] == #[trigger] s.filter(p)[i],
    decreases s.len(),
{
    reveal(Seq::filter);
    if s.len() > 0 {
        let t = s.drop_last();
        lemma_filter_members(t, p);
        let f = s.filter(p);
        let ft = t.filter(p);
        assert forall|i: int| 0 <= i < f.len() implies exists|j: int| 0 <= j < s.len() && s[j] == #[trigger] f[i] by {
            if i < ft.len() {
                assert(f[i] == ft[i]);
                let j = choose|j: int| 0 <= j < t.len() && t[j] == ft[i];
                assert(s[j] == t[j]);
            } else {
                assert(f[i] == s[s.len() - 1]);
            }
        }
    }
}

/// The entries of a report. With requested names: exactly the entries whose
/// info-string is requested, each info-string once (its first entry), in
/// entry order, whatever the filters say; so every requested name that an
/// entry holds gets its card, however many names are given. Without: exactly
/// the entries that pass the filters, in entry order.
pub proof fn lemma_report_selection_exact(
    es: Seq<EntryView>,
    requested: Seq<String>,
    statuses: Seq<StatusFilter>,
    derivations: Seq<DerivationFilter>,
)
    ensures
        requested.len() > 0 ==> report_selection(es, requested, statuses, derivations) == Seq::new(
            es.len(),
            |k: int| k,
        ).filter(first_requested(es, requested)).map_values(|k: int| es[k]),
        requested.len() == 0 ==> report_selection(es, requested, statuses, derivations) == es.filter(
            passes(statuses, derivations),
        ),
    decreases es.len(),
{
    reveal(Seq::filter);
    let n = es.len();
    if n > 0 {
        let init = es.drop_last();
        let e = es.last();
        lemma_report_selection_exact(init, requested, statuses, derivations);
        if requested.len() > 0 {
            let idx = Seq::new(n, |k: int| k);
            let idx0 = Seq::new((n - 1) as nat, |k: int| k);
            assert(idx.drop_last() =~= idx0);
            assert(idx.last() == n - 1);
            assert forall|i: int| 0 <= i < idx0.len() implies first_requested(es, requested)(#[trigger] idx0[i])
                == first_requested(init, requested)(idx0[i]) by {
                let k = idx0[i];
                assert(k == i);
                assert(es[k] == init[k]);
                assert forall|j: int| 0 <= j < k implies (#[trigger] es[j]).0 == init[j].0 by {
                    assert(es[j] == init[j]);
                }
                if exists|j: int| 0 <= j < k && (#[trigger] es[j]).0 == es[k].0 {
                    let j = choose|j: int| 0 <= j < k && (#[trigger] es[j]).0 == es[k].0;
                    assert(init[j].0 == init[k].0);
                }
                if exists|j: int| 0 <= j < k && (#[trigger] init[j]).0 == init[k].0 {
                    let j = choose|j: int| 0 <= j < k && (#[trigger] init[j]).0 == init[k].0;
                    assert(es[j].0 == es[k].0);
                }
            }
            lemma_filter_congruent(idx0, first_requested(es, requested), first_requested(init, requested));
            let fl = idx0.filter(first_requested(init, requested));
            let g = |k: int| es[k];
            let g0 = |k: int| init[k];
            lemma_filter_members(idx0, first_requested(init, requested));
            assert forall|i: int| 0 <= i < fl.len() implies #[trigger] fl[i] < n - 1 && fl[i] >= 0 by {
                let j = choose|j: int| 0 <= j < idx0.len() && idx0[j] == fl[i];
            }
            assert(fl.map_values(g) =~= fl.map_values(g0)) by {
                assert forall|i: int| 0 <= i < fl.len() implies fl.map_values(g)[i] == fl.map_values(g0)[i] by {
                    assert(fl[i] < n - 1);
                }
            }
            assert(first_requested(es, requested)(n - 1) == (is_requested(requested, e.0) && !seen_before(
                es,
                n - 1,
                e.0,
            )));
            assert(fl.push(n - 1).map_values(g) =~= fl.map_values(g).push(e));
        } else {
            assert(passes(statuses, derivations)(e) == entry_selected(statuses, derivations, e));
        }
    } else {
        assert(Seq::new(0, |k: int| k).filter(first_requested(es, requested)).map_values(|k: int| es[k])
            =~= Seq::<EntryView>::empty());
    }
}

/// Requested names that are the info-string of no entry.
pub open spec fn unknown_names(es: Seq<EntryView>, requested: Seq<String>) -> Set<Seq<char>> {
    Set::new(|t: Seq<char>| is_requested(requested, t) && !seen_before(es, es.len() as int, t))
}

/// `s` is in strictly ascending text order.
pub open spec fn strictly_ascending(s: Seq<Seq<char>>) -> bool {
    forall|i: int, j: int| 0 <= i < j < s.len() ==> text_lt(#[trigger] s[i], #[trigger] s[j])
}

/// The entries selected for a report, and the requested names found in no
/// entry, sorted and without repeats.
pub struct Selection<'a> {
    /// The selected entries, in entry order.
    pub entries: Vec<Entry<'a>>,
    /// Requested info-strings that name no entry.
    pub missing: Vec<String>,
}

proof fn lemma_seen_before_extend(es: Seq<EntryView>, k: int, info: Seq<char>)
    requires
        0 <= k < es.len(),
    ensures
        seen_before(es, k + 1, info) == (seen_before(es, k, info) || es[k].0 == info),
{
    if es[k].0 == info {
        assert(seen_before(es, k + 1, info));
    }
}

proof fn lemma_seen_before_prefix(es: Seq<EntryView>, m: int, k: int, info: Seq<char>)
    requires
        0 <= k <= m <= es.len(),
    ensures
        seen_before(es.take(m), k, info) == seen_before(es, k, info),
{
    if seen_before(es, k, info) {
        let j = choose|j: int| 0 <= j < k && (#[trigger] es[j]).0 == info;
        assert(es.take(m)[j] == es[j]);
    }
    if seen_before(es.take(m), k, info) {
        let j = choose|j: int| 0 <= j < k && (#[trigger] es.take(m)[j]).0 == info;
        assert(es.take(m)[j] == es[j]);
    }
}

/// Inserts `name` into the strictly ascending list `sorted` unless it is
/// already there.
fn insert_sorted(sorted: &mut Vec<String>, name: String)
    requires
        strictly_ascending(texts(old(sorted)@)),
    ensures
        strictly_ascending(texts(final(sorted)@)),
        texts(final(sorted)@).to_set() == texts(old(sorted)@).to_set().insert(name@),
{
    let ghost old_t = texts(sorted@);
    let mut i: usize = 0;
    while i < sorted.len() && text_less(sorted[i].as_str(), name.as_str())
        invariant
            i <= sorted@.len(),
            texts(sorted@) == old_t,
            strictly_ascending(old_t),
            forall|p: int| 0 <= p < i ==> text_lt(#[trigger] old_t[p], name@),
        decreases sorted@.len() - i,
    {
        i = i + 1;
    }
    if i < sorted.len() && sorted[i] == name {
        proof {
            assert(old_t.to_set().insert(name@) =~= old_t.to_set()) by {
                assert(old_t[i as int] == name@);
            }
        }
        return;
    }
    proof {
        if i < old_t.len() {
            lemma_text_lt_total(old_t[i as int], name@);
        }
    }
    sorted.insert(i, name);
    proof {
        let new_t = texts(sorted@);
        assert(new_t =~= old_t.insert(i as int, name@));
        assert forall|p: int, q: int| 0 <= p < q < new_t.len() implies text_lt(#[trigger] new_t[p], #[trigger] new_t[q]) by {
            if q < i {
                assert(new_t[p] == old_t[p] && new_t[q] == old_t[q]);
            } else if q == i {
                assert(new_t[p] == old_t[p]);
            } else if p < i {
                assert(new_t[p] == old_t[p] && new_t[q] == old_t[q - 1]);
                assert(text_lt(name@, old_t[i as int]));
                if q - 1 > i {
                    lemma_text_lt_transitive(name@, old_t[i as int], old_t[q - 1]);
                }
                lemma_text_lt_transitive(old_t[p], name@, old_t[q - 1]);
            } else if p == i {
                assert(new_t[q] == old_t[q - 1]);
                if q - 1 > i {
                    lemma_text_lt_transitive(name@, old_t[i as int], old_t[q - 1]);
                }
            } else {
                assert(new_t[p] == old_t[p - 1] && new_t[q] == old_t[q - 1]);
            }
        }
        assert forall|t: Seq<char>| new_t.to_set().contains(t) <==> old_t.to_set().insert(name@).contains(t) by {
            if new_t.to_set().contains(t) {
                let p = choose|p: int| 0 <= p < new_t.len() && new_t[p] == t;
                if p < i {
                    assert(old_t[p] == t);
                } else if p > i {
                    assert(old_t[p - 1] == t);
                }
            }
            if old_t.to_set().contains(t) {
                let p = choose|p: int| 0 <= p < old_t.len() && old_t[p] == t;
                if p < i {
                    assert(new_t[p] == t);
                } else {
                    assert(new_t[p + 1] == t);
                }
            }
            if t == name@ {
                assert(new_t[i as int] == t);
            }
        }
        assert(new_t.to_set() =~= old_t.to_set().insert(name@));
    }
}

/// Whether some entry of `all` has the info-string `info`.
fn info_present(all: &Vec<Entry<'_>>, upto: usize, info: &String) -> (b: bool)
    requires
        upto <= all@.len(),
    ensures
        b == seen_before(entry_views(all@), upto as int, info@),
{
    let ghost es = entry_views(all@);
    let mut j: usize = 0;
    while j < upto
        invariant
            j <= upto <= all@.len(),
            es == entry_views(all@),
            !seen_before(es, j as int, info@),
        decreases upto - j,
    {
        proof {
            lemma_seen_before_extend(es, j as int, info@);
        }
        if all[j].info_string == *info {
            return true;
        }
        j = j + 1;
    }
    false
}

/// Whether `info` is among the requested names.
fn requested_contains(requested: &[String], info: &String) -> (b: bool)
    ensures
        b == is_requested(requested@, info@),
{
    let mut i: usize = 0;
    while i < requested.len()
        invariant
            i <= requested@.len(),
            forall|p: int| 0 <= p < i ==> (#[trigger] requested@[p])@ != info@,
        decreases requested@.len() - i,
    {
        if requested[i] == *info {
            return true;
        }
        i = i + 1;
    }
    false
}

/// Selects the entries of a report and collects the requested names that
/// match no entry.
///
/// An explicit request is never overridden by the status or derivation
/// filters: those apply only when nothing is requested.
pub fn select_entries<'a>(
    inventory: &'a Inventory,
    requested: &[String],
    statuses: &[StatusFilter],
    derivations: &[DerivationFilter],
) -> (sel: Selection<'a>)
    ensures
        entry_views(sel.entries@) == report_selection(domain_entries(inventory.domains@), requested@, statuses@, derivations@),
        strictly_ascending(texts(sel.missing@)),
        texts(sel.missing@).to_set() == unknown_names(domain_entries(inventory.domains@), requested@),
{
    let all = inventory.entries();
    let ghost es = entry_views(all@);
    let n = all.len();
    // Which entries are chosen.
    let mut chosen: Vec<bool> = Vec::new();
    let mut k: usize = 0;
    while k < n
        invariant
            k <= n == all@.len(),
            es == entry_views(all@),
            chosen@.len() == k,
            forall|p: int| 0 <= p < k ==> #[trigger] chosen@[p] == (if requested@.len() > 0 {
                is_requested(requested@, es[p].0) && !seen_before(es, p, es[p].0)
            } else {
                entry_selected(statuses@, derivations@, es[p])
            }),
        decreases n - k,
    {
        let e = &all[k];
        proof {
            assert(es[k as int] == e@);
        }
        let c = if requested.len() > 0 {
            requested_contains(requested, &e.info_string) && !info_present(&all, k, &e.info_string)
        } else {
            passes_filters(statuses, derivations, e.version.status, e.version.derivation)
        };
        chosen.push(c);
        k = k + 1;
    }
    // The requested names that name no entry.
    let mut missing: Vec<String> = Vec::new();
    let mut r: usize = 0;
    while r < requested.len()
        invariant
            r <= requested@.len(),
            n == all@.len(),
            es == entry_views(all@),
            strictly_ascending(texts(missing@)),
            texts(missing@).to_set() == Set::new(
                |t: Seq<char>| (exists|i: int| 0 <= i < r && (#[trigger] requested@[i])@ == t) && !seen_before(es, n as int, t),
            ),
        decreases requested@.len() - r,
    {
        let ghost before = texts(missing@).to_set();
        let name = &requested[r];
        if !info_present(&all, n, name) {
            insert_sorted(&mut missing, name.clone());
        }
        proof {
            let target = Set::new(
                |t: Seq<char>| (exists|i: int| 0 <= i < r + 1 && (#[trigger] requested@[i])@ == t) && !seen_before(es, n as int, t),
            );
            assert forall|t: Seq<char>| texts(missing@).to_set().contains(t) <==> target.contains(t) by {
                if target.contains(t) {
                    let i = choose|i: int| 0 <= i < r + 1 && (#[trigger] requested@[i])@ == t;
                    if i < r {
                        assert(before.contains(t));
                    }
                }
                if before.contains(t) {
                    let i = choose|i: int| 0 <= i < r && (#[trigger] requested@[i])@ == t;
                    assert(target.contains(t));
                }
            }
            assert(texts(missing@).to_set() =~= target);
        }
        r = r + 1;
    }
    proof {
        assert(Set::new(
            |t: Seq<char>| (exists|i: int| 0 <= i < requested@.len() && (#[trigger] requested@[i])@ == t) && !seen_before(es, n as int, t),
        ) =~= unknown_names(es, requested@));
    }
    // Move the chosen entries out, in order.
    let mut rest = all;
    let mut entries: Vec<Entry<'a>> = Vec::new();
    let mut k2: usize = 0;
    while k2 < n
        invariant
            k2 <= n == chosen@.len(),
            entry_views(rest@) == es.skip(k2 as int),
            entry_views(entries@) == report_selection(es.take(k2 as int), requested@, statuses@, derivations@),
            forall|p: int| 0 <= p < n ==> #[trigger] chosen@[p] == (if requested@.len() > 0 {
                is_requested(requested@, es[p].0) && !seen_before(es, p, es[p].0)
            } else {
                entry_selected(statuses@, derivations@, es[p])
            }),
            es.len() == n,
        decreases n - k2,
    {
        let ghost old_rest = rest@;
        proof {
            assert(entry_views(rest@).len() == rest@.len());
            assert(entry_views(rest@)[0] == es[k2 as int]);
            assert(es.take(k2 + 1).drop_last() =~= es.take(k2 as int));
            assert(es.take(k2 + 1).last() == es[k2 as int]);
            lemma_seen_before_prefix(es, k2 + 1, k2 as int, es[k2 as int].0);
        }
        let e = rest.remove(0);
        proof {
            assert(e@ == entry_views(old_rest)[0]);
            assert forall|i: int| 0 <= i < entry_views(rest@).len() implies #[trigger] entry_views(rest@)[i] == es.skip(
                k2 + 1,
            )[i] by {
                assert(rest@[i] == old_rest[i + 1]);
                assert(entry_views(old_rest)[i + 1] == es.skip(k2 as int)[i + 1]);
            }
            assert(entry_views(rest@) =~= es.skip(k2 + 1));
        }
        if chosen[k2] {
            proof {
                assert(entry_views(entries@.push(e)) =~= entry_views(entries@).push(e@));
            }
            entries.push(e);
        }
        k2 = k2 + 1;
    }
    proof {
        assert(es.take(n as int) =~= es);
    }
    Selection { entries, missing }
}

/// Why a report cannot be written.
#[derive(Debug, Clone)]
pub enum SelectionError {
    /// Requested info-strings that name no entry, sorted.
    NotInInventory(Vec<String>),
    /// Nothing was selected; an empty report is refused.
    NothingSelected,
}

/// The verdict on a report selection once its cards are built: a typo in
/// a requested info-string must not look like a successful run, and an
/// empty report is refused.
pub fn check_selection(selected: usize, missing: Vec<String>) -> (res: Result<(), SelectionError>)
    ensures
        missing@.len() > 0 ==> (res matches Err(SelectionError::NotInInventory(m)) && m@ == missing@),
        missing@.len() == 0 && selected == 0 ==> res matches Err(SelectionError::NothingSelected),
        missing@.len() == 0 && selected > 0 ==> res is Ok,
{
    if missing.len() > 0 {
        return Err(SelectionError::NotInInventory(missing));
    }
    if selected == 0 {
        return Err(SelectionError::NothingSelected);
    }
    Ok(())
}

/// The text after the last `/` of `s` (all of `s` if it has none).
pub open spec fn last_segment(s: Seq<char>) -> Seq<char>
    decreases s.len(),
{
    if s.len() == 0 {
        s
    } else if s.last() == '/' {
        Seq::empty()
    } else {
        last_segment(s.drop_last()).push(s.last())
    }
}

/// A card's title: the purpose's usage text, or else the last segment of
/// the info-string.
pub open spec fn card_title(e: EntryView) -> Seq<char> {
    match e.1 {
        Some(u) => u,
        None => last_segment(e.0),
    }
}

/// The title of an entry's card.
pub fn report_title(entry: &Entry) -> (t: String)
    ensures
        t@ == card_title(entry@),
{
    match entry.usage {
        Some(u) => string_from(u),
        None => {
            let v = chars_of(entry.info_string.as_str());
            let mut k = v.len();
            proof {
                assert(v@.take(k as int) =~= v@);
                assert(v@.subrange(k as int, k as int) =~= Seq::<char>::empty());
                assert(v@ + Seq::<char>::empty() =~= v@);
            }
            while k > 0 && v[k - 1] != '/'
                invariant
                    k <= v@.len(),
                    v@ == entry.info_string@,
                    last_segment(v@) == last_segment(v@.take(k as int)) + v@.subrange(k as int, v@.len() as int),
                decreases k,
            {
                proof {
                    let t = v@.take(k as int);
                    assert(t.drop_last() =~= v@.take(k - 1));
                    assert(v@.subrange(k - 1, v@.len() as int) =~= seq![t.last()] + v@.subrange(k as int, v@.len() as int));
                    assert(last_segment(t) == last_segment(t.drop_last()).push(t.last()));
                    assert(last_segment(t.drop_last()).push(t.last()) + v@.subrange(k as int, v@.len() as int)
                        =~= last_segment(t.drop_last()) + v@.subrange(k - 1, v@.len() as int));
                }
                k = k - 1;
            }
            proof {
                let t = v@.take(k as int);
                if k > 0 {
                    assert(t.last() == '/');
                    assert(last_segment(t) == Seq::<char>::empty());
                } else {
                    assert(t.len() == 0);
                }
                assert(last_segment(t) + v@.subrange(k as int, v@.len() as int) =~= v@.subrange(k as int, v@.len() as int));
            }
            let n = v.len();
            string_of_chars(v.as_slice(), k, n)
        },
    }
}

/// The placeholder printed in place of a passphrase that cannot be derived.
pub open spec fn placeholder_text(r: Refusal) -> Seq<char> {
    match r {
        Refusal::Manual => "(manual — enter your chosen value by hand)"@,
        Refusal::ServiceGenerated => "(service-generated — paste recovery codes from the provider)"@,
    }
}

/// The placeholder for a card whose passphrase cannot be derived.
pub fn placeholder(r: Refusal) -> (s: String)
    ensures
        s@ == placeholder_text(r),
{
    match r {
        Refusal::Manual => string_from("(manual — enter your chosen value by hand)"),
        Refusal::ServiceGenerated => string_from("(service-generated — paste recovery codes from the provider)"),
    }
}

/// The card for `entry` showing `passphrase`: the title, the info-string,
/// the encoding description, the paper-backup destinations and notes of the
/// entry's version.
pub fn report_entry(entry: &Entry, passphrase: String, is_derived: bool) -> (card: ReportEntry)
    ensures
        card.title@ == card_title(entry@),
        card.info_string@ == entry.info_string@,
        card.encoding_desc@ == encoding_desc(entry.version.encoding),
        card.passphrase@ == passphrase@,
        texts(card.paper_backup@) == texts(entry.version.paper_backup@),
        card.notes == entry.version.notes,
        card.is_derived == is_derived,
{
    let mut paper_backup: Vec<String> = Vec::new();
    let mut i: usize = 0;
    while i < entry.version.paper_backup.len()
        invariant
            i <= entry.version.paper_backup@.len(),
            texts(paper_backup@) == texts(entry.version.paper_backup@.take(i as int)),
        decreases entry.version.paper_backup@.len() - i,
    {
        let s = entry.version.paper_backup[i].clone();
        proof {
            assert(texts(paper_backup@.push(s)) =~= texts(paper_backup@).push(s@));
            assert(entry.version.paper_backup@.take(i + 1) =~= entry.version.paper_backup@.take(i as int).push(
                entry.version.paper_backup@[i as int],
            ));
            assert(texts(entry.version.paper_backup@.take(i + 1)) =~= texts(entry.version.paper_backup@.take(i as int)).push(
                entry.version.paper_backup@[i as int]@,
            ));
        }
        paper_backup.push(s);
        i = i + 1;
    }
    proof {
        assert(entry.version.paper_backup@.take(entry.version.paper_backup@.len() as int) =~= entry.version.paper_backup@);
    }
    ReportEntry {
        title: report_title(entry),
        info_string: entry.info_string.clone(),
        encoding_desc: format_encoding(&entry.version.encoding),
        passphrase,
        paper_backup,
        notes: entry.version.notes.clone(),
        is_derived,
    }
}

/// The card of `entry` in a report: for an `hkdf` entry, its passphrase
/// derived from the master seed `ikm` (with `wordlist` the words of the
/// Diceware wordlist its encoding names); for a manual or service-generated
/// entry, the placeholder, with nothing derived.
pub fn report_card(ikm: &[u8], entry: &Entry, wordlist: &[&str]) -> (r: Result<ReportEntry, PassphraseError>)
    requires
        entry.version.derivation == Derivation::Hkdf ==> encoding_within_limits(
            DERIVE_BUFFER_BYTES as nat,
            entry.version.encoding,
            wordlist@,
        ),
    ensures
        match r {
            Ok(card) => {
                &&& card.title@ == card_title(entry@)
                &&& card.info_string@ == entry.info_string@
                &&& card.encoding_desc@ == encoding_desc(entry.version.encoding)
                &&& texts(card.paper_backup@) == texts(entry.version.paper_backup@)
                &&& card.notes == entry.version.notes
                &&& card.is_derived == (entry.version.derivation == Derivation::Hkdf)
                &&& match entry.version.derivation {
                    Derivation::Hkdf => passphrase_outcome(ikm@, entry@, word_texts(wordlist@)) == Ok::<
                        Seq<char>,
                        PassphraseError,
                    >(card.passphrase@),
                    Derivation::Manual => card.passphrase@ == placeholder_text(Refusal::Manual),
                    Derivation::ServiceGenerated => card.passphrase@ == placeholder_text(Refusal::ServiceGenerated),
                }
            },
            Err(e) => entry.version.derivation == Derivation::Hkdf && passphrase_outcome(
                ikm@,
                entry@,
                word_texts(wordlist@),
            ) == Err::<Seq<char>, PassphraseError>(e),
        },
{
    match check_derivable(entry.version.derivation) {
        Ok(()) => match derive_passphrase(ikm, entry, wordlist) {
            Ok(p) => Ok(report_entry(entry, p, true)),
            Err(e) => Err(e),
        },
        Err(refusal) => Ok(report_entry(entry, placeholder(refusal), false)),
    }
}

/// The salt shown on the cover page: the salt of the first selected entry.
pub fn first_salt(entries: &Vec<Entry<'_>>) -> (s: Option<String>)
    ensures
        entries@.len() == 0 ==> s is None,
        entries@.len() > 0 ==> (s matches Some(t) && t@ == entries@[0].salt@),
{
    if entries.len() == 0 {
        None
    } else {
        Some(string_from(entries[0].salt))
    }
}

/// The cover-page metadata of a report.
pub fn report_meta(title: String, subtitle: String, seed_fingerprint: Option<String>, salt_label: Option<String>) -> (m: ReportMeta)
    ensures
        m.title == title,
        m.subtitle == subtitle,
        m.seed_fingerprint == seed_fingerprint,
        m.salt_label == salt_label,
{
    ReportMeta { title, subtitle, seed_fingerprint, salt_label }
}

/// An explicit request is never overridden by the status and derivation
/// filters: with requested names, the selection is the same whatever the
/// filters are.
pub proof fn lemma_requests_ignore_filters(
    es: Seq<EntryView>,
    requested: Seq<String>,
    statuses_a: Seq<StatusFilter>,
    derivations_a: Seq<DerivationFilter>,
    statuses_b: Seq<StatusFilter>,
    derivations_b: Seq<DerivationFilter>,
)
    requires
        requested.len() > 0,
    ensures
        report_selection(es, requested, statuses_a, derivations_a) == report_selection(
            es,
            requested,
            statuses_b,
            derivations_b,
        ),
    decreases es.len(),
{
    if es.len() > 0 {
        lemma_requests_ignore_filters(es.drop_last(), requested, statuses_a, derivations_a, statuses_b, derivations_b);
    }
}

/// With requested names, every selected entry is requested, and no
/// info-string is selected twice.
pub proof fn lemma_requested_selection(es: Seq<EntryView>, requested: Seq<String>, statuses: Seq<StatusFilter>, derivations: Seq<DerivationFilter>)
    requires
        requested.len() > 0,
    ensures
        forall|i: int| 0 <= i < report_selection(es, requested, statuses, derivations).len() ==> is_requested(
            requested,
            (#[trigger] report_selection(es, requested, statuses, derivations)[i]).0,
        ),
        forall|i: int, j: int| 0 <= i < j < report_selection(es, requested, statuses, derivations).len() ==> (
        #[trigger] report_selection(es, requested, statuses, derivations)[i]).0 != (
        #[trigger] report_selection(es, requested, statuses, derivations)[j]).0,
        forall|i: int| 0 <= i < report_selection(es, requested, statuses, derivations).len() ==> exists|k: int| 0 <= k < es.len() && es[k] == #[trigger] report_selection(es, requested, statuses, derivations)[i],
    decreases es.len(),
{
    if es.len() > 0 {
        let init = es.drop_last();
        lemma_requested_selection(init, requested, statuses, derivations);
        let rest = report_selection(init, requested, statuses, derivations);
        let e = es.last();
        let k = es.len() - 1;
        assert forall|i: int| 0 <= i < rest.len() implies exists|q: int| 0 <= q < es.len() && es[q] == #[trigger] rest[i] by {
            let q = choose|q: int| 0 <= q < init.len() && init[q] == rest[i];
            assert(es[q] == init[q]);
        }
        if is_requested(requested, e.0) && !seen_before(es, k, e.0) {
            let sel = rest.push(e);
            assert forall|i: int, j: int| 0 <= i < j < sel.len() implies (#[trigger] sel[i]).0 != (#[trigger] sel[j]).0 by {
                if j == rest.len() {
                    assert(sel[i] == rest[i]);
                    let q = choose|q: int| 0 <= q < init.len() && init[q] == rest[i];
                    assert(es[q] == init[q]);
                    if rest[i].0 == e.0 {
                        assert(seen_before(es, k, e.0));
                    }
                } else {
                    assert(sel[i] == rest[i] && sel[j] == rest[j]);
                }
            }
            assert forall|i: int| 0 <= i < sel.len() implies exists|q: int| 0 <= q < es.len() && es[q] == #[trigger] sel[i] by {
                if i < rest.len() {
                    assert(sel[i] == rest[i]);
                } else {
                    assert(es[k] == sel[i]);
                }
            }
        }
    }
}
} // verus!
