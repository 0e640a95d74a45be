//! Small string building blocks shared by the other modules: decimal
//! rendering of integers, conversion between `String` and character vectors,
//! and appending single characters.
use vstd::prelude::*;
use vstd::string::*;

verus! {

/// Appends one character (`String::push`): the string gains `c` at its end.
#[verifier::external_body]
pub(crate) fn push_char(s: &mut String, c: char)
    ensures
        final(s)@ == old(s)@.push(c),
{
    s.push(c);
}

/// An empty string with room for `capacity` bytes (`String::with_capacity`),
/// so that appending up to that many bytes never reallocates. `with_capacity`
/// panics when the capacity exceeds `isize::MAX` bytes; `requires` rules that
/// out.
#[verifier::external_body]
pub(crate) fn string_with_capacity(capacity: usize) -> (s: String)
    requires
        capacity <= isize::MAX,
    ensures
        s@ == Seq::<char>::empty(),
{
    String::with_capacity(capacity)
}

/// What `{:?}` prints for the string `s`: `s` in double quotes, with
/// quotes, backslashes, control characters and unprintable characters
/// escaped as `str`'s `Debug` implementation does.
pub uninterp spec fn debug_quoted(s: Seq<char>) -> Seq<char>;

/// `s` formatted with `{:?}` (`<str as core::fmt::Debug>::fmt`, through
/// `format!`). The contract names the result `debug_quoted(s)`: it depends
/// on `s` alone. Which characters are escaped follows std's Unicode tables
/// and is left unsaid.
#[verifier::external_body]
pub(crate) fn debug_quote(s: &str) -> (r: String)
    ensures
        r@ == debug_quoted(s@),
{
    format!("{:?}", s)
}

/// A fresh `String` holding the text of `s`.
pub fn string_from(s: &str) -> (r: String)
    ensures
        r@ == s@,
{
    String::from_str(s)
}

/// The decimal digit character for `d < 10`.
pub open spec fn digit_char(d: nat) -> char {
    ('0' as nat + d) as char
}

/// The decimal representation of `n`, without leading zeros (`"0"` for zero).
pub open spec fn decimal_text(n: nat) -> Seq<char>
    decreases n,
{
    if n < 10 {
        seq![digit_char(n)]
    } else {
        decimal_text(n / 10).push(digit_char(n % 10))
    }
}

/// The texts of a list of strings.
pub open spec fn texts(v: Seq<String>) -> Seq<Seq<char>> {
    v.map_values(|s: String| s@)
}

/// The digit character for `d`, computed.
pub fn digit(d: u8) -> (c: char)
    requires
        d < 10,
    ensures
        c == digit_char(d as nat),
{
    ((48u8 + d) as char)
}

/// Renders `n` in decimal.
pub fn decimal(n: usize) -> (s: String)
    ensures
        s@ == decimal_text(n as nat),
    decreases n,
{
    if n < 10 {
        let mut s = String::new();
        push_char(&mut s, digit(n as u8));
        s
    } else {
        let mut s = decimal(n / 10);
        push_char(&mut s, digit((n % 10) as u8));
        s
    }
}

/// The characters of `s`, in order.
pub fn chars_of(s: &str) -> (v: Vec<char>)
    ensures
        v@ == s@,
{
    let mut v: Vec<char> = Vec::new();
    for c in it: s.chars()
        invariant
            it.seq() == s@,
            v@ == it.seq().take(it.index() as int),
    {
        v.push(c);
    }
    v
}

/// A string made of the characters `v[from..to]`.
pub fn string_of_chars(v: &[char], from: usize, to: usize) -> (s: String)
    requires
        from <= to <= v@.len(),
    ensures
        s@ == v@.subrange(from as int, to as int),
{
    let mut s = String::new();
    let mut i = from;
    while i < to
        invariant
            from <= i <= to <= v@.len(),
            s@ == v@.subrange(from as int, i as int),
        decreases to - i,
    {
        push_char(&mut s, v[i]);
        i = i + 1;
    }
    s
}

/// Lexicographic order on texts, character by character (by code point),
/// a proper prefix first. For UTF-8 strings this is the byte order that
/// `str`'s `Ord` uses.
pub open spec fn text_lt(a: Seq<char>, b: Seq<char>) -> bool
    decreases a.len(),
{
    if a.len() == 0 {
        b.len() > 0
    } else if b.len() == 0 {
        false
    } else if a[0] != b[0] {
        a[0] < b[0]
    } else {
        text_lt(a.drop_first(), b.drop_first())
    }
}

/// `true` when `a` comes before `b` in [`text_lt`] order.
pub fn text_less(a: &str, b: &str) -> (r: bool)
    ensures
        r == text_lt(a@, b@),
{
    let x = chars_of(a);
    let y = chars_of(b);
    proof {
        assert(a@.skip(0) =~= a@);
        assert(b@.skip(0) =~= b@);
    }
    let mut i: usize = 0;
    while i < x.len() && i < y.len() && x[i] == y[i]
        invariant
            i <= x@.len(),
            i <= y@.len(),
            x@ == a@,
            y@ == b@,
            text_lt(a@, b@) == text_lt(a@.skip(i as int), b@.skip(i as int)),
        decreases x@.len() - i,
    {
        proof {
            assert(a@.skip(i as int).drop_first() =~= a@.skip(i + 1));
            assert(b@.skip(i as int).drop_first() =~= b@.skip(i + 1));
        }
        i = i + 1;
    }
    if i == x.len() {
        proof {
            assert(a@.skip(i as int).len() == 0);
        }
        i < y.len()
    } else if i == y.len() {
        false
    } else {
        proof {
            assert(a@.skip(i as int)[0] == x@[i as int]);
            assert(b@.skip(i as int)[0] == y@[i as int]);
        }
        x[i] < y[i]
    }
}

/// [`text_lt`] is a strict total order: irreflexive, transitive, and any two
/// distinct texts are ordered one way or the other.
pub proof fn lemma_text_lt_total(a: Seq<char>, b: Seq<char>)
    ensures
        !text_lt(a, a),
        a != b ==> (text_lt(a, b) || text_lt(b, a)),
        !(text_lt(a, b) && text_lt(b, a)),
    decreases a.len(),
{
    if a.len() > 0 {
        lemma_text_lt_total(a.drop_first(), a.drop_first());
        if b.len() > 0 {
            lemma_text_lt_total(a.drop_first(), b.drop_first());
            if a != b && a[0] == b[0] {
                assert(a.drop_first() != b.drop_first()) by {
                    if a.drop_first() == b.drop_first() {
                        assert(a =~= seq![a[0]] + a.drop_first());
                        assert(b =~= seq![b[0]] + b.drop_first());
                    }
                }
            }
        }
    } else {
        if b.len() == 0 {
            assert(a =~= b);
        }
    }
}

/// [`text_lt`] is transitive.
pub proof fn lemma_text_lt_transitive(a: Seq<char>, b: Seq<char>, c: Seq<char>)
    requires
        text_lt(a, b),
        text_lt(b, c),
    ensures
        text_lt(a, c),
    decreases a.len(),
{
    if a.len() > 0 && b.len() > 0 && c.len() > 0 {
        if a[0] == b[0] && b[0] == c[0] {
            lemma_text_lt_transitive(a.drop_first(), b.drop_first(), c.drop_first());
        }
    }
}
/// Every character of a decimal rendering is an ASCII digit, and there is at
/// least one.
pub proof fn lemma_decimal_digits(n: nat)
    ensures
        decimal_text(n).len() >= 1,
        n >= 10 ==> decimal_text(n).len() >= 2,
        forall|i: int| 0 <= i < decimal_text(n).len() ==> '0' <= #[trigger] decimal_text(n)[i] <= '9',
    decreases n,
{
    if n >= 10 {
        lemma_decimal_digits(n / 10);
        let t = decimal_text(n / 10);
        assert forall|i: int| 0 <= i < decimal_text(n).len() implies '0' <= #[trigger] decimal_text(n)[i] <= '9' by {
            if i < t.len() {
                assert(decimal_text(n)[i] == t[i]);
            }
        }
    }
}

/// Distinct numbers have distinct decimal renderings.
pub proof fn lemma_decimal_injective(n: nat, m: nat)
    requires
        decimal_text(n) == decimal_text(m),
    ensures
        n == m,
    decreases n,
{
    lemma_decimal_digits(n);
    lemma_decimal_digits(m);
    if n >= 10 && m >= 10 {
        let a = decimal_text(n);
        let b = decimal_text(m);
        assert(a.last() == b.last());
        assert(a.drop_last() =~= decimal_text(n / 10));
        assert(b.drop_last() =~= decimal_text(m / 10));
        lemma_decimal_injective(n / 10, m / 10);
        assert(digit_char(n % 10) as nat == 48 + n % 10);
        assert(digit_char(m % 10) as nat == 48 + m % 10);
    } else if n < 10 && m < 10 {
        assert(decimal_text(n)[0] == digit_char(n));
        assert(decimal_text(m)[0] == digit_char(m));
        assert(digit_char(n) == digit_char(m));
        assert(digit_char(n) as nat == 48 + n);
        assert(digit_char(m) as nat == 48 + m);
    }
}
} // verus!
