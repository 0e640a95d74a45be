//! Content of the printable paper-backup report.
//!
//! The report has a cover page described by [`ReportMeta`] and one card per
//! [`ReportEntry`]: a title next to a QR code of the passphrase, followed by
//! the info-string, the encoding description and the passphrase itself.
//! Laying the cards out on PDF pages is left to the caller; this module holds
//! the card content and the word-wrapping used for titles, passphrases and
//! notes.
use qrcode::types::QrError;
use qrcode::{EcLevel, QrCode};
use vstd::prelude::*;
use vstd::string::*;
use vstd::utf8::encode_utf8;

use crate::secret::wipe_text;
use crate::text::{chars_of, decimal, decimal_text, string_from, string_of_chars, texts};

verus! {

/// One card's worth of content in the report.
#[derive(Debug, Clone)]
pub struct ReportEntry {
    /// Card title: the purpose's `usage` text, or the last info-string
    /// segment as fallback. Wrapped next to the QR code.
    pub title: String,
    /// The full info-string identifying this credential.
    pub info_string: String,
    /// Description of the encoding (e.g., `diceware/eff_large/8`).
    pub encoding_desc: String,
    /// The derived passphrase, or a placeholder note if non-derivable.
    pub passphrase: String,
    /// Paper-backup destinations declared for this entry.
    pub paper_backup: Vec<String>,
    /// Optional free-form notes.
    pub notes: Option<String>,
    /// True if the passphrase was derived; false for manual and
    /// service-generated entries, whose `passphrase` is a placeholder.
    pub is_derived: bool,
}

impl ReportEntry {
    /// Overwrites the passphrase with zeros and empties it; for use once the
    /// card has been rendered.
    pub fn wipe(&mut self)
        ensures
            final(self).passphrase@ == Seq::<char>::empty(),
            final(self).title == old(self).title,
            final(self).info_string == old(self).info_string,
            final(self).encoding_desc == old(self).encoding_desc,
            final(self).paper_backup == old(self).paper_backup,
            final(self).notes == old(self).notes,
            final(self).is_derived == old(self).is_derived,
    {
        wipe_text(&mut self.passphrase);
    }
}

/// Metadata for the report's cover page.
#[derive(Debug, Clone)]
pub struct ReportMeta {
    /// Title displayed on the cover page.
    pub title: String,
    /// Free-form subtitle (typically the generation date).
    pub subtitle: String,
    /// Optional short fingerprint of the master seed for cross-verification
    /// against the user's BIP-39 backup.
    pub seed_fingerprint: Option<String>,
    /// Optional label of the salt used (for auditability).
    pub salt_label: Option<String>,
}

// ---------------------------------------------------------------------------
// Word wrapping
// ---------------------------------------------------------------------------

/// Unicode whitespace (the `White_Space` property, as `char::is_whitespace`
/// defines it).
pub open spec fn is_white_space(c: char) -> bool {
    ||| ('\t' <= c && c <= '\r')
    ||| c == ' '
    ||| c == '\u{85}'
    ||| c == '\u{A0}'
    ||| c == '\u{1680}'
    ||| ('\u{2000}' <= c && c <= '\u{200A}')
    ||| c == '\u{2028}'
    ||| c == '\u{2029}'
    ||| c == '\u{202F}'
    ||| c == '\u{205F}'
    ||| c == '\u{3000}'
}

fn white_space(c: char) -> (r: bool)
    ensures
        r == is_white_space(c),
{
    ('\t' <= c && c <= '\r') || c == ' ' || c == '\u{85}' || c == '\u{A0}' || c == '\u{1680}' || ('\u{2000}' <= c
        && c <= '\u{200A}') || c == '\u{2028}' || c == '\u{2029}' || c == '\u{202F}' || c == '\u{205F}' || c
        == '\u{3000}'
}

/// Splitting at whitespace, as far as `s` goes: the completed words and the
/// word still open at the end (possibly empty).
pub open spec fn word_scan(s: Seq<char>) -> (Seq<Seq<char>>, Seq<char>)
    decreases s.len(),
{
    if s.len() == 0 {
        (Seq::empty(), Seq::empty())
    } else {
        let (done, open) = word_scan(s.drop_last());
        if is_white_space(s.last()) {
            if open.len() > 0 {
                (done.push(open), Seq::empty())
            } else {
                (done, Seq::empty())
            }
        } else {
            (done, open.push(s.last()))
        }
    }
}

/// The words of `s`: its maximal runs of non-whitespace characters.
pub open spec fn words_in(s: Seq<char>) -> Seq<Seq<char>> {
    let (done, open) = word_scan(s);
    if open.len() > 0 {
        done.push(open)
    } else {
        done
    }
}

/// Greedy packing of `words` into lines of at most `max_col` characters,
/// words joined by single spaces; a word that does not fit on the current
/// line starts a new one. Gives the finished lines and the line being
/// filled (empty only before the first word).
pub open spec fn pack(words: Seq<Seq<char>>, max_col: nat) -> (Seq<Seq<char>>, Seq<char>)
    decreases words.len(),
{
    if words.len() == 0 {
        (Seq::empty(), Seq::empty())
    } else {
        let (lines, cur) = pack(words.drop_last(), max_col);
        let w = words.last();
        if cur.len() == 0 {
            (lines, w)
        } else if cur.len() + 1 + w.len() <= max_col {
            (lines, cur + seq![' '] + w)
        } else {
            (lines.push(cur), w)
        }
    }
}

/// `text` word-wrapped at `max_col` characters: its words, separated by
/// single spaces, packed greedily into lines; a word longer than `max_col`
/// stands alone on an oversized line. Text without words gives one empty
/// line.
pub open spec fn wrapped(text: Seq<char>, max_col: nat) -> Seq<Seq<char>> {
    let (lines, cur) = pack(words_in(text), max_col);
    let all = if cur.len() > 0 {
        lines.push(cur)
    } else {
        lines
    };
    if all.len() == 0 {
        seq![Seq::empty()]
    } else {
        all
    }
}

/// Adds the word `v[a..b]` to the packing state `(lines, cur)`.
fn pack_word(lines: &mut Vec<String>, cur: &mut Vec<char>, v: &Vec<char>, a: usize, b: usize, max_col: usize)
    requires
        a < b <= v@.len(),
    ensures
        (texts(final(lines)@), final(cur)@) == ({
            let w = v@.subrange(a as int, b as int);
            let c = old(cur)@;
            if c.len() == 0 {
                (texts(old(lines)@), w)
            } else if c.len() + 1 + w.len() <= max_col {
                (texts(old(lines)@), c + seq![' '] + w)
            } else {
                (texts(old(lines)@).push(c), w)
            }
        }),
{
    let ghost w = v@.subrange(a as int, b as int);
    let ghost c = cur@;
    let wlen = b - a;
    let clen = cur.len();
    if clen == 0 {
    } else if clen < max_col && wlen <= max_col - clen - 1 {
        cur.push(' ');
    } else {
        let line = string_of_chars(cur.as_slice(), 0, clen);
        proof {
            assert(c.subrange(0, clen as int) =~= c);
            assert(texts(lines@.push(line)) =~= texts(lines@).push(c));
        }
        lines.push(line);
        *cur = Vec::new();
    }
    let ghost before = cur@;
    let mut i = a;
    while i < b
        invariant
            a <= i <= b <= v@.len(),
            cur@ == before + v@.subrange(a as int, i as int),
        decreases b - i,
    {
        cur.push(v[i]);
        proof {
            assert(before + v@.subrange(a as int, i + 1) =~= (before + v@.subrange(a as int, i as int)).push(v@[i as int]));
        }
        i = i + 1;
    }
    proof {
        if clen != 0 && clen < max_col && wlen <= max_col - clen - 1 {
            assert(cur@ =~= c + seq![' '] + w);
        } else {
            assert(cur@ =~= w);
        }
    }
}

/// Word-wraps `text` at `max_col` characters: words are separated by
/// single spaces and packed greedily; a long unsplittable word is emitted on
/// its own oversized line. Always returns at least one line.
pub fn wrap_text(text: &str, max_col: usize) -> (lines: Vec<String>)
    ensures
        texts(lines@) == wrapped(text@, max_col as nat),
{
    let v = chars_of(text);
    let mut lines: Vec<String> = Vec::new();
    let mut cur: Vec<char> = Vec::new();
    let mut start: usize = 0;
    let mut k: usize = 0;
    let ghost mut done: Seq<Seq<char>> = Seq::empty();
    while k < v.len()
        invariant
            start <= k <= v@.len(),
            v@ == text@,
            word_scan(v@.take(k as int)) == (done, v@.subrange(start as int, k as int)),
            (texts(lines@), cur@) == pack(done, max_col as nat),
        decreases v@.len() - k,
    {
        proof {
            assert(v@.take(k + 1).drop_last() =~= v@.take(k as int));
        }
        if white_space(v[k]) {
            if start < k {
                pack_word(&mut lines, &mut cur, &v, start, k, max_col);
                proof {
                    let old_done = done;
                    done = done.push(v@.subrange(start as int, k as int));
                    assert(done.drop_last() =~= old_done);
                }
            }
            start = k + 1;
            proof {
                assert(v@.subrange(start as int, k + 1) =~= Seq::<char>::empty());
            }
        } else {
            proof {
                assert(v@.subrange(start as int, k + 1) =~= v@.subrange(start as int, k as int).push(v@[k as int]));
            }
        }
        k = k + 1;
    }
    proof {
        assert(v@.take(v@.len() as int) =~= v@);
    }
    if start < k {
        pack_word(&mut lines, &mut cur, &v, start, k, max_col);
        proof {
            let old_done = done;
            done = done.push(v@.subrange(start as int, k as int));
            assert(done.drop_last() =~= old_done);
        }
    }
    proof {
        assert(words_in(text@) == done);
    }
    if cur.len() > 0 {
        let n = cur.len();
        let line = string_of_chars(cur.as_slice(), 0, n);
        proof {
            assert(cur@.subrange(0, n as int) =~= cur@);
            assert(texts(lines@.push(line)) =~= texts(lines@).push(cur@));
        }
        lines.push(line);
    }
    if lines.len() == 0 {
        lines.push(String::new());
        proof {
            assert(texts(lines@) =~= seq![Seq::<char>::empty()]);
        }
    }
    lines
}

// ---------------------------------------------------------------------------
// Properties of wrapping
// ---------------------------------------------------------------------------

/// `s` contains no whitespace.
pub open spec fn solid(s: Seq<char>) -> bool {
    forall|i: int| 0 <= i < s.len() ==> !is_white_space(#[trigger] s[i])
}

/// A line fits: it is at most `max_col` characters long, or it is a single
/// word (no whitespace) that could not be split.
pub open spec fn line_fits(line: Seq<char>, max_col: nat) -> bool {
    line.len() <= max_col || solid(line)
}

proof fn lemma_words_solid(s: Seq<char>)
    ensures
        forall|i: int| 0 <= i < word_scan(s).0.len() ==> solid(#[trigger] word_scan(s).0[i]),
        solid(word_scan(s).1),
        forall|i: int| 0 <= i < words_in(s).len() ==> solid(#[trigger] words_in(s)[i]) && words_in(s)[i].len() > 0,
        forall|i: int| 0 <= i < word_scan(s).0.len() ==> (#[trigger] word_scan(s).0[i]).len() > 0,
    decreases s.len(),
{
    if s.len() > 0 {
        lemma_words_solid(s.drop_last());
        let (done, open) = word_scan(s.drop_last());
        if !is_white_space(s.last()) {
            assert(solid(open.push(s.last()))) by {
                assert forall|i: int| 0 <= i < open.push(s.last()).len() implies !is_white_space(
                    #[trigger] open.push(s.last())[i],
                ) by {
                    if i < open.len() {
                        assert(open.push(s.last())[i] == open[i]);
                    }
                }
            }
        }
    }
}

proof fn lemma_pack_fits(words: Seq<Seq<char>>, max_col: nat)
    requires
        forall|i: int| 0 <= i < words.len() ==> solid(#[trigger] words[i]),
    ensures
        forall|i: int| 0 <= i < pack(words, max_col).0.len() ==> line_fits(#[trigger] pack(words, max_col).0[i], max_col),
        line_fits(pack(words, max_col).1, max_col),
    decreases words.len(),
{
    if words.len() > 0 {
        lemma_pack_fits(words.drop_last(), max_col);
        assert(solid(words[words.len() - 1]));
    }
}

/// Every line of wrapped text respects the column width, except a line
/// holding a single word longer than the width.
pub proof fn lemma_wrapped_lines_fit(text: Seq<char>, max_col: nat)
    ensures
        forall|i: int| 0 <= i < wrapped(text, max_col).len() ==> line_fits(
            #[trigger] wrapped(text, max_col)[i],
            max_col,
        ),
{
    lemma_words_solid(text);
    lemma_pack_fits(words_in(text), max_col);
    let (lines, cur) = pack(words_in(text), max_col);
    assert(line_fits(Seq::<char>::empty(), max_col));
    if cur.len() > 0 {
        assert forall|i: int| 0 <= i < lines.push(cur).len() implies line_fits(#[trigger] lines.push(cur)[i], max_col) by {
            if i < lines.len() {
                assert(lines.push(cur)[i] == lines[i]);
            }
        }
    }
}

/// Texts joined by single spaces.
pub open spec fn spaced(ws: Seq<Seq<char>>) -> Seq<char>
    decreases ws.len(),
{
    if ws.len() == 0 {
        Seq::empty()
    } else if ws.len() == 1 {
        ws[0]
    } else {
        spaced(ws.drop_last()) + seq![' '] + ws.last()
    }
}

proof fn lemma_spaced_push(ws: Seq<Seq<char>>, w: Seq<char>)
    requires
        ws.len() > 0,
    ensures
        spaced(ws.push(w)) == spaced(ws) + seq![' '] + w,
{
    assert(ws.push(w).drop_last() =~= ws);
}

/// `spaced(ls.push(c))` splits at the last line.
proof fn lemma_spaced_split(ls: Seq<Seq<char>>, c: Seq<char>, tail: Seq<char>)
    ensures
        ls.len() > 0 ==> spaced(ls.push(c + seq![' '] + tail)) == spaced(ls.push(c)) + seq![' '] + tail,
        ls.len() == 0 ==> spaced(ls.push(c + seq![' '] + tail)) == c + seq![' '] + tail,
{
    if ls.len() > 0 {
        lemma_spaced_push(ls, c + seq![' '] + tail);
        lemma_spaced_push(ls, c);
        assert(spaced(ls) + seq![' '] + (c + seq![' '] + tail) =~= spaced(ls) + seq![' '] + c + seq![' '] + tail);
    } else {
        assert(ls.push(c + seq![' '] + tail) =~= seq![c + seq![' '] + tail]);
    }
}

proof fn lemma_pack_keeps_words(words: Seq<Seq<char>>, max_col: nat)
    requires
        forall|i: int| 0 <= i < words.len() ==> (#[trigger] words[i]).len() > 0,
    ensures
        (pack(words, max_col).1.len() == 0) == (words.len() == 0),
        pack(words, max_col).1.len() == 0 ==> pack(words, max_col).0.len() == 0,
        words.len() > 0 ==> spaced(pack(words, max_col).0.push(pack(words, max_col).1)) == spaced(words),
    decreases words.len(),
{
    if words.len() > 0 {
        let init = words.drop_last();
        let w = words.last();
        assert(w == words[words.len() - 1]);
        assert forall|i: int| 0 <= i < init.len() implies (#[trigger] init[i]).len() > 0 by {
            assert(init[i] == words[i]);
        }
        lemma_pack_keeps_words(init, max_col);
        let (lines, cur) = pack(init, max_col);
        if cur.len() == 0 {
            assert(init.len() == 0);
            assert(lines.push(w) =~= seq![w]);
            assert(words =~= seq![w]);
        } else {
            assert(init.len() > 0);
            if cur.len() + 1 + w.len() <= max_col {
                lemma_spaced_split(lines, cur, w);
                if lines.len() > 0 {
                    assert(spaced(lines.push(cur)) == spaced(init));
                } else {
                    assert(lines.push(cur) =~= seq![cur]);
                }
            } else {
                lemma_spaced_push(lines.push(cur), w);
            }
            assert(words.drop_last() =~= init);
        }
    }
}

/// Wrapping loses, adds and reorders no word: the lines joined by single
/// spaces are the words of the text joined by single spaces.
pub proof fn lemma_wrapped_keeps_words(text: Seq<char>, max_col: nat)
    ensures
        spaced(wrapped(text, max_col)) == spaced(words_in(text)),
{
    lemma_words_solid(text);
    let ws = words_in(text);
    lemma_pack_keeps_words(ws, max_col);
    let (lines, cur) = pack(ws, max_col);
    if cur.len() == 0 {
        assert(wrapped(text, max_col) =~= seq![Seq::<char>::empty()]);
    }
}
/// The first word of a line: its characters up to the first space.
pub open spec fn first_word(line: Seq<char>) -> Seq<char>
    decreases line.len(),
{
    if line.len() == 0 || line[0] == ' ' {
        Seq::empty()
    } else {
        seq![line[0]] + first_word(line.drop_first())
    }
}

proof fn lemma_first_word_append(c: Seq<char>, x: Seq<char>)
    requires
        c.len() > 0,
        x.len() > 0,
        x[0] == ' ',
    ensures
        first_word(c + x) == first_word(c),
    decreases c.len(),
{
    assert((c + x)[0] == c[0]);
    if c[0] != ' ' {
        let rest = c.drop_first();
        assert((c + x).drop_first() =~= rest + x);
        if rest.len() > 0 {
            lemma_first_word_append(rest, x);
        } else {
            assert(rest + x =~= x);
        }
    }
}

proof fn lemma_first_word_solid(w: Seq<char>)
    requires
        solid(w),
    ensures
        first_word(w) == w,
    decreases w.len(),
{
    if w.len() > 0 {
        assert(!is_white_space(w[0]));
        let rest = w.drop_first();
        assert forall|i: int| 0 <= i < rest.len() implies !is_white_space(#[trigger] rest[i]) by {
            assert(rest[i] == w[i + 1]);
        }
        lemma_first_word_solid(rest);
        assert(seq![w[0]] + rest =~= w);
    }
}

proof fn lemma_pack_greedy(words: Seq<Seq<char>>, max_col: nat)
    requires
        forall|i: int| 0 <= i < words.len() ==> solid(#[trigger] words[i]) && words[i].len() > 0,
    ensures
        forall|i: int| 0 <= i < pack(words, max_col).0.len() - 1 ==> (#[trigger] pack(words, max_col).0[i]).len() + 1
            + first_word(pack(words, max_col).0[i + 1]).len() > max_col,
        pack(words, max_col).0.len() > 0 ==> pack(words, max_col).0.last().len() + 1 + first_word(
            pack(words, max_col).1,
        ).len() > max_col,
    decreases words.len(),
{
    if words.len() > 0 {
        let init = words.drop_last();
        let w = words.last();
        assert(w == words[words.len() - 1]);
        assert forall|i: int| 0 <= i < init.len() implies solid(#[trigger] init[i]) && init[i].len() > 0 by {
            assert(init[i] == words[i]);
        }
        lemma_pack_greedy(init, max_col);
        lemma_pack_keeps_words(init, max_col);
        let (lines, cur) = pack(init, max_col);
        if cur.len() > 0 {
            if cur.len() + 1 + w.len() <= max_col {
                lemma_first_word_append(cur, seq![' '] + w);
                assert(cur + seq![' '] + w =~= cur + (seq![' '] + w));
            } else {
                lemma_first_word_solid(w);
                let nl = lines.push(cur);
                assert forall|i: int| 0 <= i < nl.len() - 1 implies (#[trigger] nl[i]).len() + 1 + first_word(
                    nl[i + 1],
                ).len() > max_col by {
                    assert(nl[i] == lines[i]);
                    if i < lines.len() - 1 {
                        assert(nl[i + 1] == lines[i + 1]);
                    } else {
                        assert(nl[i + 1] == cur);
                    }
                }
            }
        }
    }
}

/// Wrapping is greedy: every line but the last ends only because the first
/// word of the next line would not fit after it, past a single space.
pub proof fn lemma_wrapped_greedy(text: Seq<char>, max_col: nat)
    ensures
        forall|i: int| 0 <= i < wrapped(text, max_col).len() - 1 ==> (#[trigger] wrapped(text, max_col)[i]).len() + 1
            + first_word(wrapped(text, max_col)[i + 1]).len() > max_col,
{
    lemma_words_solid(text);
    let ws = words_in(text);
    lemma_pack_greedy(ws, max_col);
    lemma_pack_keeps_words(ws, max_col);
    let (lines, cur) = pack(ws, max_col);
    if cur.len() > 0 {
        let all = lines.push(cur);
        assert forall|i: int| 0 <= i < all.len() - 1 implies (#[trigger] all[i]).len() + 1 + first_word(all[i + 1]).len()
            > max_col by {
            assert(all[i] == lines[i]);
            if i < lines.len() - 1 {
                assert(all[i + 1] == lines[i + 1]);
            } else {
                assert(all[i + 1] == cur);
            }
        }
    }
}

// ---------------------------------------------------------------------------
// QR code of a card
// ---------------------------------------------------------------------------

/// The error of the `qrcode` crate when no QR code can be built.
#[verifier::external_type_specification]
#[verifier::external_body]
pub struct ExQrError(QrError);

/// The QR code of `data` at error-correction level M, in the smallest
/// version that holds it: its width in modules and its modules row by row,
/// `true` for dark. `None` when no QR code can hold the data.
pub uninterp spec fn qr_code_m(data: Seq<u8>) -> Option<(nat, Seq<bool>)>;

/// QR encoding through the `qrcode` crate:
/// `QrCode::with_error_correction_level(data, EcLevel::M)`, then `width` and
/// `to_colors`, each module mapped to whether it is `Color::Dark`. The
/// contract names the result `qr_code_m(data)`, a function of the bytes
/// alone, and claims that the module list has `width * width` entries, one
/// per cell of the square symbol, as the crate's canvas holds them. Which
/// version, mask and module pattern come out is left unsaid. The crate's
/// error is handed back as it is.
#[verifier::external_body]
fn qr_modules(data: &[u8]) -> (r: Result<(usize, Vec<bool>), QrError>)
    ensures
        match r {
            Ok((w, cells)) => qr_code_m(data@) == Some((w as nat, cells@)) && cells@.len() == w * w,
            Err(_) => qr_code_m(data@) is None,
        },
{
    match QrCode::with_error_correction_level(data, EcLevel::M) {
        Ok(code) => Ok((code.width(), code.to_colors().iter().map(|c| matches!(c, qrcode::Color::Dark)).collect())),
        Err(e) => Err(e),
    }
}

/// What a card's QR code is: for a derived card, the level-M QR code of the
/// UTF-8 bytes of its passphrase; a placeholder card has none.
pub open spec fn card_qr_outcome(card: ReportEntry, r: Option<Result<(usize, Vec<bool>), QrError>>) -> bool {
    if card.is_derived {
        match r {
            Some(Ok((w, cells))) => qr_code_m(encode_utf8(card.passphrase@)) == Some((w as nat, cells@))
                && cells@.len() == w * w,
            Some(Err(_)) => qr_code_m(encode_utf8(card.passphrase@)) is None,
            None => false,
        }
    } else {
        r is None
    }
}

/// The QR code printed on `card`: the level-M QR code of its passphrase for a
/// derived card, or the reason none could be made; none for a placeholder
/// card.
pub fn card_qr(card: &ReportEntry) -> (r: Option<Result<(usize, Vec<bool>), QrError>>)
    ensures
        card_qr_outcome(*card, r),
{
    if card.is_derived {
        Some(qr_modules(card.passphrase.as_str().as_bytes()))
    } else {
        None
    }
}

// ---------------------------------------------------------------------------
// Card and cover text
// ---------------------------------------------------------------------------

/// Columns for a card title, which sits left of the QR code.
pub const TITLE_COLUMNS: usize = 32;

/// Columns for a passphrase or placeholder.
pub const PHRASE_COLUMNS: usize = 60;

/// Columns for the notes of a card.
pub const NOTE_COLUMNS: usize = 80;

/// The text blocks of one card, in print order (the info-string and the
/// encoding description are printed as they stand in the entry).
#[derive(Debug, Clone)]
pub struct CardText {
    /// The title, wrapped at [`TITLE_COLUMNS`].
    pub title_lines: Vec<String>,
    /// `PASSPHRASE` above a derived passphrase, `NOT DERIVED` above a
    /// placeholder.
    pub phrase_header: String,
    /// The passphrase or placeholder, wrapped at [`PHRASE_COLUMNS`].
    pub phrase_lines: Vec<String>,
    /// The paper-backup destinations joined by `", "`, when there are any.
    pub paper_backup: Option<String>,
    /// The notes wrapped at [`NOTE_COLUMNS`], when there are notes.
    pub note_lines: Option<Vec<String>>,
}

/// The header above the passphrase block.
pub open spec fn phrase_header_text(is_derived: bool) -> Seq<char> {
    if is_derived {
        "PASSPHRASE"@
    } else {
        "NOT DERIVED"@
    }
}

/// `parts` joined with `sep` between neighbours.
pub open spec fn joined(parts: Seq<Seq<char>>, sep: Seq<char>) -> Seq<char>
    decreases parts.len(),
{
    if parts.len() == 0 {
        Seq::empty()
    } else if parts.len() == 1 {
        parts[0]
    } else {
        joined(parts.drop_last(), sep) + sep + parts.last()
    }
}

/// The paper-backup line of a card: the destinations joined by `", "`, or
/// nothing when none is declared.
pub open spec fn paper_backup_text(dests: Seq<String>) -> Option<Seq<char>> {
    if dests.len() == 0 {
        None
    } else {
        Some(joined(texts(dests), ", "@))
    }
}

/// `parts` joined by `", "`.
fn join_comma(parts: &Vec<String>) -> (s: String)
    ensures
        s@ == joined(texts(parts@), ", "@),
{
    let mut s = String::new();
    let mut i: usize = 0;
    while i < parts.len()
        invariant
            i <= parts@.len(),
            s@ == joined(texts(parts@.take(i as int)), ", "@),
        decreases parts@.len() - i,
    {
        let ghost before = texts(parts@.take(i as int));
        if i > 0 {
            s.append(", ");
        }
        s.append(parts[i].as_str());
        proof {
            let after = texts(parts@.take(i + 1));
            assert(after.drop_last() =~= before);
            assert(after.last() == parts@[i as int]@);
            if i == 0 {
                assert(after =~= seq![parts@[0]@]);
            }
        }
        i = i + 1;
    }
    proof {
        assert(parts@.take(parts@.len() as int) =~= parts@);
    }
    s
}

/// The text of the card for `entry`.
pub fn card_text(entry: &ReportEntry) -> (c: CardText)
    ensures
        texts(c.title_lines@) == wrapped(entry.title@, TITLE_COLUMNS as nat),
        c.phrase_header@ == phrase_header_text(entry.is_derived),
        texts(c.phrase_lines@) == wrapped(entry.passphrase@, PHRASE_COLUMNS as nat),
        match c.paper_backup {
            Some(t) => paper_backup_text(entry.paper_backup@) == Some(t@),
            None => paper_backup_text(entry.paper_backup@) is None,
        },
        match (c.note_lines, entry.notes) {
            (Some(lines), Some(n)) => texts(lines@) == wrapped(n@, NOTE_COLUMNS as nat),
            (None, None) => true,
            _ => false,
        },
{
    let phrase_header = if entry.is_derived {
        string_from("PASSPHRASE")
    } else {
        string_from("NOT DERIVED")
    };
    let paper_backup = if entry.paper_backup.len() == 0 {
        None
    } else {
        Some(join_comma(&entry.paper_backup))
    };
    let note_lines = match &entry.notes {
        Some(n) => Some(wrap_text(n.as_str(), NOTE_COLUMNS)),
        None => None,
    };
    CardText {
        title_lines: wrap_text(entry.title.as_str(), TITLE_COLUMNS),
        phrase_header,
        phrase_lines: wrap_text(entry.passphrase.as_str(), PHRASE_COLUMNS),
        paper_backup,
        note_lines,
    }
}

/// The facts printed on the cover under the title and subtitle: the number
/// of entries, then the salt label and the seed fingerprint where given.
pub open spec fn cover_facts(meta: ReportMeta, entry_count: nat) -> Seq<Seq<char>> {
    let count = seq!["Entries in this report: "@ + decimal_text(entry_count)];
    let with_salt = match meta.salt_label {
        Some(salt) => count.push("HKDF salt: "@ + salt@),
        None => count,
    };
    match meta.seed_fingerprint {
        Some(fp) => with_salt.push("Master seed fingerprint: "@ + fp@),
        None => with_salt,
    }
}

/// The cover facts for a report of `entry_count` cards.
pub fn cover_lines(meta: &ReportMeta, entry_count: usize) -> (lines: Vec<String>)
    ensures
        texts(lines@) == cover_facts(*meta, entry_count as nat),
{
    let mut lines: Vec<String> = Vec::new();
    let mut count = string_from("Entries in this report: ");
    let n = decimal(entry_count);
    count.append(n.as_str());
    lines.push(count);
    proof {
        assert(texts(lines@) =~= seq!["Entries in this report: "@ + decimal_text(entry_count as nat)]);
    }
    match &meta.salt_label {
        Some(salt) => {
            let mut line = string_from("HKDF salt: ");
            line.append(salt.as_str());
            let ghost before = lines@;
            lines.push(line);
            proof {
                assert(texts(lines@) =~= texts(before).push(line@));
            }
        },
        None => {},
    }
    match &meta.seed_fingerprint {
        Some(fp) => {
            let mut line = string_from("Master seed fingerprint: ");
            line.append(fp.as_str());
            let ghost before = lines@;
            lines.push(line);
            proof {
                assert(texts(lines@) =~= texts(before).push(line@));
            }
        },
        None => {},
    }
    lines
}
} // verus!
