//! Wordlist resolution and parsing for Diceware-style encodings.
//!
//! A wordlist name from the inventory (`wordlist: eff_large`) refers either
//! to a built-in list or, when it contains `/` or names an existing file, to
//! a file of words. Wordlist text is parsed permissively: one word per line
//! (as most Diceware lists are distributed) or the tab-separated
//! `<roll>\t<word>` format of the EFF's own distribution.
use vstd::prelude::*;
use vstd::string::*;

use crate::text::{chars_of, string_from, string_of_chars, texts};

verus! {

/// Errors that can arise while resolving a wordlist.
#[derive(Debug, Clone)]
pub enum WordlistError {
    /// The requested built-in wordlist name is not known.
    UnknownBuiltin(String),
    /// The wordlist file held no words.
    Empty(String),
}

impl WordlistError {
    /// The error message.
    pub fn message(&self) -> (m: String)
        ensures
            m@ == match self {
                WordlistError::UnknownBuiltin(n) => "unknown built-in wordlist: "@ + n@,
                WordlistError::Empty(p) => "wordlist "@ + p@ + " contains no words"@,
            },
    {
        match self {
            WordlistError::UnknownBuiltin(n) => {
                let mut s = string_from("unknown built-in wordlist: ");
                s.append(n.as_str());
                s
            },
            WordlistError::Empty(p) => {
                let mut s = string_from("wordlist ");
                s.append(p.as_str());
                s.append(" contains no words");
                s
            },
        }
    }
}

/// The wordlists built into the tool.
#[derive(Debug, Clone, Copy, PartialEq, Eq, Structural)]
pub enum Builtin {
    /// The EFF Large Wordlist (7776 words), named `eff_large`.
    EffLarge,
}

/// Where the words of a wordlist come from.
#[derive(Debug, Clone)]
pub enum WordSource {
    /// A built-in list.
    Builtin(Builtin),
    /// A file to be read, one word per line.
    File(String),
}

/// The built-in wordlist called `name`, if there is one.
pub fn builtin(name: &str) -> (b: Option<Builtin>)
    ensures
        b == (if name@ == "eff_large"@ { Some(Builtin::EffLarge) } else { None::<Builtin> }),
{
    let n = string_from(name);
    let eff = string_from("eff_large");
    if n == eff {
        Some(Builtin::EffLarge)
    } else {
        None
    }
}

/// `s` contains the character `c`.
pub open spec fn has_char(s: Seq<char>, c: char) -> bool {
    exists|i: int| 0 <= i < s.len() && s[i] == c
}

/// Resolves a wordlist name from the inventory to where its words come
/// from: a built-in list if `name` is a built-in identifier; otherwise the
/// file `name` if it contains a path separator or refers to an existing file
/// (`exists_on_disk`); otherwise an error, so that nothing unexpected is
/// silently used.
pub fn resolve(name: &str, exists_on_disk: bool) -> (res: Result<WordSource, WordlistError>)
    ensures
        name@ == "eff_large"@ ==> res matches Ok(WordSource::Builtin(Builtin::EffLarge)),
        name@ != "eff_large"@ && (has_char(name@, '/') || exists_on_disk) ==> (res matches Ok(WordSource::File(p))
            && p@ == name@),
        name@ != "eff_large"@ && !(has_char(name@, '/') || exists_on_disk) ==> (res matches Err(
            WordlistError::UnknownBuiltin(n),
        ) && n@ == name@),
{
    if let Some(b) = builtin(name) {
        return Ok(WordSource::Builtin(b));
    }
    let chars = chars_of(name);
    let mut slash = false;
    let mut i: usize = 0;
    while i < chars.len()
        invariant
            i <= chars@.len(),
            chars@ == name@,
            slash <==> exists|j: int| 0 <= j < i && chars@[j] == '/',
        decreases chars@.len() - i,
    {
        if chars[i] == '/' {
            slash = true;
        }
        i = i + 1;
    }
    if slash || exists_on_disk {
        return Ok(WordSource::File(string_from(name)));
    }
    Err(WordlistError::UnknownBuiltin(string_from(name)))
}

// ---------------------------------------------------------------------------
// Parsing
// ---------------------------------------------------------------------------

/// ASCII whitespace: space, tab, line feed, form feed, carriage return.
pub open spec fn is_ascii_space(c: char) -> bool {
    c == ' ' || c == '\t' || c == '\n' || c == '\x0C' || c == '\r'
}

/// `s` without its leading ASCII whitespace.
pub open spec fn trim_start(s: Seq<char>) -> Seq<char>
    decreases s.len(),
{
    if s.len() > 0 && is_ascii_space(s[0]) {
        trim_start(s.drop_first())
    } else {
        s
    }
}

/// `s` without its trailing ASCII whitespace.
pub open spec fn trim_end(s: Seq<char>) -> Seq<char>
    decreases s.len(),
{
    if s.len() > 0 && is_ascii_space(s.last()) {
        trim_end(s.drop_last())
    } else {
        s
    }
}

/// `s` without leading and trailing ASCII whitespace.
pub open spec fn trim(s: Seq<char>) -> Seq<char> {
    trim_end(trim_start(s))
}

/// The text after the last tab of `s` (all of `s` if it has no tab).
pub open spec fn after_last_tab(s: Seq<char>) -> Seq<char>
    decreases s.len(),
{
    if s.len() == 0 {
        s
    } else if s.last() == '\t' {
        Seq::empty()
    } else {
        after_last_tab(s.drop_last()).push(s.last())
    }
}

/// Splitting at line feeds, as far as `s` goes: the completed lines and the
/// line still open at the end.
pub open spec fn line_scan(s: Seq<char>) -> (Seq<Seq<char>>, Seq<char>)
    decreases s.len(),
{
    if s.len() == 0 {
        (Seq::empty(), Seq::empty())
    } else {
        let (done, open) = line_scan(s.drop_last());
        if s.last() == '\n' {
            (done.push(open), Seq::empty())
        } else {
            (done, open.push(s.last()))
        }
    }
}

/// The lines of `s`: the pieces between line feeds.
pub open spec fn lines_of(s: Seq<char>) -> Seq<Seq<char>> {
    line_scan(s).0.push(line_scan(s).1)
}

/// The word on a line: the trimmed line, or, if it holds a tab, the trimmed
/// text after its last tab; nothing for a blank line.
pub open spec fn line_word(line: Seq<char>) -> Option<Seq<char>> {
    let t = trim(line);
    if t.len() == 0 {
        None
    } else if has_char(t, '\t') {
        Some(trim(after_last_tab(t)))
    } else {
        Some(t)
    }
}

/// The words of a list of lines, in order, blank lines skipped.
pub open spec fn words_of_lines(lines: Seq<Seq<char>>) -> Seq<Seq<char>>
    decreases lines.len(),
{
    if lines.len() == 0 {
        Seq::empty()
    } else {
        match line_word(lines.last()) {
            Some(w) => words_of_lines(lines.drop_last()).push(w),
            None => words_of_lines(lines.drop_last()),
        }
    }
}

/// The words of wordlist text.
pub open spec fn parsed_words(raw: Seq<char>) -> Seq<Seq<char>> {
    words_of_lines(lines_of(raw))
}

proof fn lemma_trim_start_at(s: Seq<char>, k: int)
    requires
        0 <= k <= s.len(),
        forall|i: int| 0 <= i < k ==> is_ascii_space(#[trigger] s[i]),
        k == s.len() || !is_ascii_space(s[k]),
    ensures
        trim_start(s) == s.subrange(k, s.len() as int),
    decreases k,
{
    if k == 0 {
        assert(s.subrange(0, s.len() as int) =~= s);
    } else {
        lemma_trim_start_at(s.drop_first(), k - 1);
        assert(s.drop_first().subrange(k - 1, s.len() - 1) =~= s.subrange(k, s.len() as int));
    }
}

proof fn lemma_trim_end_at(s: Seq<char>, k: int)
    requires
        0 <= k <= s.len(),
        forall|i: int| k <= i < s.len() ==> is_ascii_space(#[trigger] s[i]),
        k == 0 || !is_ascii_space(s[k - 1]),
    ensures
        trim_end(s) == s.subrange(0, k),
    decreases s.len() - k,
{
    if k == s.len() {
        assert(s.subrange(0, k) =~= s);
    } else {
        lemma_trim_end_at(s.drop_last(), k);
        assert(s.drop_last().subrange(0, k) =~= s.subrange(0, k));
    }
}

proof fn lemma_after_last_tab_at(s: Seq<char>, t: int)
    requires
        0 <= t < s.len(),
        s[t] == '\t',
        forall|i: int| t < i < s.len() ==> #[trigger] s[i] != '\t',
    ensures
        after_last_tab(s) == s.subrange(t + 1, s.len() as int),
    decreases s.len(),
{
    if t == s.len() - 1 {
    } else {
        lemma_after_last_tab_at(s.drop_last(), t);
        assert(s.drop_last().subrange(t + 1, s.len() - 1).push(s.last()) =~= s.subrange(t + 1, s.len() as int));
    }
}

/// A word of a wordlist: non-empty, with no space, tab, line feed, form
/// feed or carriage return.
pub open spec fn plain_word(w: Seq<char>) -> bool {
    &&& w.len() > 0
    &&& forall|j: int|
        0 <= j < w.len() ==> #[trigger] w[j] != ' ' && w[j] != '\t' && w[j] != '\n' && w[j] != '\x0C' && w[j] != '\r'
}

/// A dice roll: ASCII digits only (possibly none).
pub open spec fn roll_digits(roll: Seq<char>) -> bool {
    forall|j: int| 0 <= j < roll.len() ==> '0' <= #[trigger] roll[j] && roll[j] <= '9'
}

/// One line of a wordlist file: the word alone, or its roll, a tab and the
/// word.
pub open spec fn listing_line(roll: Seq<char>, w: Seq<char>) -> Seq<char> {
    if roll.len() == 0 {
        w
    } else {
        roll + seq!['\t'] + w
    }
}

/// A wordlist file holding the words `ws`, one per line, each line ended
/// by a line feed, word `i` preceded by `rolls[i]` and a tab where that roll
/// is not empty.
pub open spec fn listing(rolls: Seq<Seq<char>>, ws: Seq<Seq<char>>) -> Seq<char>
    decreases ws.len(),
{
    if ws.len() == 0 || rolls.len() != ws.len() {
        Seq::empty()
    } else {
        listing(rolls.drop_last(), ws.drop_last()) + listing_line(rolls.last(), ws.last()) + seq!['\n']
    }
}

proof fn lemma_line_scan_append(s: Seq<char>, t: Seq<char>)
    requires
        forall|i: int| 0 <= i < t.len() ==> #[trigger] t[i] != '\n',
    ensures
        line_scan(s + t) == (line_scan(s).0, line_scan(s).1 + t),
    decreases t.len(),
{
    if t.len() == 0 {
        assert(s + t =~= s);
        assert(line_scan(s).1 + t =~= line_scan(s).1);
    } else {
        let t0 = t.drop_last();
        lemma_line_scan_append(s, t0);
        assert((s + t).drop_last() =~= s + t0);
        assert((s + t).last() == t.last());
        assert(t.last() == t[t.len() - 1]);
        assert(line_scan(s).1 + t0 + seq![t.last()] =~= line_scan(s).1 + t);
        assert((line_scan(s).1 + t0).push(t.last()) =~= line_scan(s).1 + t);
    }
}

proof fn lemma_trim_unchanged(l: Seq<char>)
    requires
        l.len() > 0,
        !is_ascii_space(l[0]),
        !is_ascii_space(l.last()),
    ensures
        trim(l) == l,
{
    lemma_trim_start_at(l, 0);
    assert(l.subrange(0, l.len() as int) =~= l);
    lemma_trim_end_at(l, l.len() as int);
}

proof fn lemma_listing_line_word(roll: Seq<char>, w: Seq<char>)
    requires
        plain_word(w),
        roll_digits(roll),
    ensures
        line_word(listing_line(roll, w)) == Some(w),
        forall|i: int| 0 <= i < listing_line(roll, w).len() ==> #[trigger] listing_line(roll, w)[i] != '\n',
{
    let l = listing_line(roll, w);
    assert(w[0] == w[0]);
    assert(w.last() == w[w.len() - 1]);
    lemma_trim_unchanged(w);
    if roll.len() == 0 {
        assert(!has_char(w, '\t'));
    } else {
        assert(roll[0] == roll[0]);
        assert(l[0] == roll[0]);
        assert(l.last() == w.last());
        lemma_trim_unchanged(l);
        let t = roll.len() as int;
        assert(l[t] == '\t');
        assert forall|i: int| t < i < l.len() implies #[trigger] l[i] != '\t' by {
            assert(l[i] == w[i - t - 1]);
        }
        lemma_after_last_tab_at(l, t);
        assert(l.subrange(t + 1, l.len() as int) =~= w);
        assert forall|i: int| 0 <= i < l.len() implies #[trigger] l[i] != '\n' by {
            if i < t {
                assert(l[i] == roll[i]);
            } else if i > t {
                assert(l[i] == w[i - t - 1]);
            }
        }
    }
}

proof fn lemma_listing_scan(rolls: Seq<Seq<char>>, ws: Seq<Seq<char>>)
    requires
        rolls.len() == ws.len(),
        forall|i: int| 0 <= i < ws.len() ==> plain_word(#[trigger] ws[i]),
        forall|i: int| 0 <= i < rolls.len() ==> roll_digits(#[trigger] rolls[i]),
    ensures
        line_scan(listing(rolls, ws)).1 == Seq::<char>::empty(),
        words_of_lines(line_scan(listing(rolls, ws)).0) == ws,
    decreases ws.len(),
{
    if ws.len() > 0 {
        let r0 = rolls.drop_last();
        let w0 = ws.drop_last();
        assert forall|i: int| 0 <= i < w0.len() implies plain_word(#[trigger] w0[i]) by {
            assert(w0[i] == ws[i]);
        }
        assert forall|i: int| 0 <= i < r0.len() implies roll_digits(#[trigger] r0[i]) by {
            assert(r0[i] == rolls[i]);
        }
        lemma_listing_scan(r0, w0);
        let prev = listing(r0, w0);
        let w = ws.last();
        let roll = rolls.last();
        assert(w == ws[ws.len() - 1] && roll == rolls[rolls.len() - 1]);
        lemma_listing_line_word(roll, w);
        let l = listing_line(roll, w);
        lemma_line_scan_append(prev, l);
        let raw = listing(rolls, ws);
        assert(raw == (prev + l).push('\n'));
        assert(raw.drop_last() =~= prev + l);
        assert(line_scan(prev).1 + l =~= l);
        let d0 = line_scan(prev).0;
        assert(line_scan(raw) == (d0.push(l), Seq::<char>::empty()));
        assert(d0.push(l).drop_last() =~= d0);
    }
}

/// Parsing a wordlist written one word per line, each line either the word
/// alone or a dice roll, a tab and the word, gives back exactly those
/// words, in order.
pub proof fn lemma_parse_listing(rolls: Seq<Seq<char>>, ws: Seq<Seq<char>>)
    requires
        rolls.len() == ws.len(),
        forall|i: int| 0 <= i < ws.len() ==> plain_word(#[trigger] ws[i]),
        forall|i: int| 0 <= i < rolls.len() ==> roll_digits(#[trigger] rolls[i]),
    ensures
        parsed_words(listing(rolls, ws)) == ws,
{
    lemma_listing_scan(rolls, ws);
    let d = line_scan(listing(rolls, ws)).0;
    let e = Seq::<char>::empty();
    assert(trim_start(e) == e);
    assert(trim_end(e) == e);
    assert(line_word(e) is None);
    assert(d.push(e).drop_last() =~= d);
}

/// The trimmed bounds of `v[from..to]`.
fn trim_bounds(v: &Vec<char>, from: usize, to: usize) -> (b: (usize, usize))
    requires
        from <= to <= v@.len(),
    ensures
        from <= b.0 <= b.1 <= to,
        trim(v@.subrange(from as int, to as int)) == v@.subrange(b.0 as int, b.1 as int),
{
    let ghost s = v@.subrange(from as int, to as int);
    let mut a = from;
    while a < to && is_space(v[a])
        invariant
            from <= a <= to <= v@.len(),
            forall|i: int| from <= i < a ==> is_ascii_space(#[trigger] v@[i]),
        decreases to - a,
    {
        a = a + 1;
    }
    proof {
        assert forall|i: int| 0 <= i < a - from implies is_ascii_space(#[trigger] s[i]) by {
            assert(s[i] == v@[from + i]);
        }
        lemma_trim_start_at(s, a - from);
        assert(s.subrange(a - from, s.len() as int) =~= v@.subrange(a as int, to as int));
    }
    let ghost t = v@.subrange(a as int, to as int);
    let mut b = to;
    while b > a && is_space(v[b - 1])
        invariant
            from <= a <= b <= to <= v@.len(),
            forall|i: int| b <= i < to ==> is_ascii_space(#[trigger] v@[i]),
        decreases b - a,
    {
        b = b - 1;
    }
    proof {
        assert forall|i: int| b - a <= i < t.len() implies is_ascii_space(#[trigger] t[i]) by {
            assert(t[i] == v@[a + i]);
        }
        lemma_trim_end_at(t, b - a);
        assert(t.subrange(0, b - a) =~= v@.subrange(a as int, b as int));
    }
    (a, b)
}

/// ASCII whitespace, computed.
fn is_space(c: char) -> (r: bool)
    ensures
        r == is_ascii_space(c),
{
    c == ' ' || c == '\t' || c == '\n' || c == '\x0C' || c == '\r'
}

/// The word on the line `v[from..to]`, if it is not blank.
fn word_on_line(v: &Vec<char>, from: usize, to: usize) -> (w: Option<String>)
    requires
        from <= to <= v@.len(),
    ensures
        match w {
            Some(s) => line_word(v@.subrange(from as int, to as int)) == Some(s@),
            None => line_word(v@.subrange(from as int, to as int)) is None,
        },
{
    let (a, b) = trim_bounds(v, from, to);
    if a == b {
        return None;
    }
    let ghost t = v@.subrange(a as int, b as int);
    let mut k = b;
    while k > a && v[k - 1] != '\t'
        invariant
            a <= k <= b <= v@.len(),
            forall|i: int| k <= i < b ==> #[trigger] v@[i] != '\t',
        decreases k - a,
    {
        k = k - 1;
    }
    if k == a {
        proof {
            assert forall|i: int| 0 <= i < t.len() implies #[trigger] t[i] != '\t' by {
                assert(t[i] == v@[a + i]);
            }
        }
        return Some(string_of_chars(v.as_slice(), a, b));
    }
    proof {
        let j = k - 1 - a;
        assert(t[j] == v@[k - 1]);
        assert forall|i: int| j < i < t.len() implies #[trigger] t[i] != '\t' by {
            assert(t[i] == v@[a + i]);
        }
        lemma_after_last_tab_at(t, j);
        assert(t.subrange(j + 1, t.len() as int) =~= v@.subrange(k as int, b as int));
    }
    let (c, d) = trim_bounds(v, k, b);
    Some(string_of_chars(v.as_slice(), c, d))
}

/// Parses wordlist text, accepting both plain (`word\n`) and EFF-style
/// tab-separated (`<roll>\t<word>\n`) formats.
///
/// Lines are trimmed of ASCII whitespace; blank lines are skipped. If a line
/// contains a tab, only the text after the last tab is taken as the word.
pub fn parse(raw: &str) -> (words: Vec<String>)
    ensures
        texts(words@) == parsed_words(raw@),
{
    let v = chars_of(raw);
    let mut words: Vec<String> = Vec::new();
    let mut start: usize = 0;
    let mut k: usize = 0;
    let ghost mut done: Seq<Seq<char>> = Seq::empty();
    while k < v.len()
        invariant
            start <= k <= v@.len(),
            v@ == raw@,
            line_scan(v@.take(k as int)) == (done, v@.subrange(start as int, k as int)),
            texts(words@) == words_of_lines(done),
        decreases v@.len() - k,
    {
        proof {
            assert(v@.take(k + 1).drop_last() =~= v@.take(k as int));
        }
        if v[k] == '\n' {
            let w = word_on_line(&v, start, k);
            proof {
                let line = v@.subrange(start as int, k as int);
                let old_done = done;
                done = done.push(line);
                assert(done.drop_last() =~= old_done);
                assert(done.last() == line);
            }
            match w {
                Some(s) => {
                    proof {
                        assert(texts(words@.push(s)) =~= texts(words@).push(s@));
                    }
                    words.push(s);
                },
                None => {},
            }
            start = k + 1;
            proof {
                assert(v@.subrange(start as int, k + 1) =~= Seq::<char>::empty());
            }
        } else {
            proof {
                assert(v@.subrange(start as int, k + 1) =~= v@.subrange(start as int, k as int).push(v@[k as int]));
            }
        }
        k = k + 1;
    }
    proof {
        assert(v@.take(v@.len() as int) =~= v@);
    }
    let w = word_on_line(&v, start, v.len());
    match w {
        Some(s) => {
            proof {
                assert(texts(words@.push(s)) =~= texts(words@).push(s@));
            }
            words.push(s);
        },
        None => {},
    }
    proof {
        assert(lines_of(raw@).drop_last() =~= done);
    }
    words
}

/// The words of a wordlist file's contents; an error naming `path` if
/// there are none.
pub fn file_words(path: &str, content: &str) -> (res: Result<Vec<String>, WordlistError>)
    ensures
        parsed_words(content@).len() == 0 ==> (res matches Err(WordlistError::Empty(p)) && p@ == path@),
        parsed_words(content@).len() > 0 ==> (res matches Ok(words) && texts(words@) == parsed_words(content@)),
{
    let words = parse(content);
    if words.len() == 0 {
        return Err(WordlistError::Empty(string_from(path)));
    }
    Ok(words)
}

} // verus!
