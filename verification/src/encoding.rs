//! Encoding of raw HKDF output bytes into user-visible secrets.
//!
//! Every encoding is a deterministic pure function of the input byte slice
//! plus encoding parameters: the same bytes always come out, which is what
//! lets a user recover a passphrase from the master seed alone.
//!
//! For alphabets whose size is not a power of two (Diceware 7776 words,
//! numeric 10 digits, alphanumeric 62 characters) a naive
//! `byte % alphabet_size` would introduce modulo bias. The encoders use
//! rejection sampling instead: read the smallest number of bits that covers
//! the alphabet, reject samples outside the alphabet, and try again with the
//! next bits. The number of input bytes consumed is therefore variable;
//! callers should provide a generous buffer (128 bytes suffices for any
//! realistic passphrase).
//!
//! Bit ordering, sample size, rejection rule and alphabet ordering are part
//! of the tool's public contract: the spec functions below state them.
use base64::Engine;
use vstd::prelude::*;
use vstd::std_specs::bits::u32_leading_zeros;
use vstd::string::*;

use crate::report::spaced;
use crate::secret::wipe_text;
use crate::text::{digit, digit_char, push_char, string_with_capacity};

verus! {

// ---------------------------------------------------------------------------
// The bit stream
// ---------------------------------------------------------------------------

/// `2^n`.
pub open spec fn two_pow(n: nat) -> nat
    decreases n,
{
    if n == 0 { 1 } else { 2 * two_pow((n - 1) as nat) }
}

/// Bit `i` of the stream over `bytes`: bits are numbered from the most
/// significant bit of `bytes[0]`, then through `bytes[1]`, and so on.
pub open spec fn bit_at(bytes: Seq<u8>, i: int) -> nat {
    ((bytes[i / 8] >> ((7 - i % 8) as u8)) & 1u8) as nat
}

/// The number formed by the `n` bits starting at bit `pos`, most significant
/// bit first.
pub open spec fn bits_value(bytes: Seq<u8>, pos: int, n: nat) -> nat
    decreases n,
{
    if n == 0 {
        0
    } else {
        2 * bits_value(bytes, pos, (n - 1) as nat) + bit_at(bytes, pos + n - 1)
    }
}

/// Reading `n` bits at bit position `pos`: `None` when fewer than `n` bits
/// remain in the stream.
pub open spec fn read_bits(bytes: Seq<u8>, pos: nat, n: nat) -> Option<nat> {
    if pos + n > 8 * bytes.len() {
        None
    } else {
        Some(bits_value(bytes, pos as int, n))
    }
}

proof fn lemma_bit_at_is_bit(bytes: Seq<u8>, i: int)
    ensures
        bit_at(bytes, i) <= 1,
{
    let b = bytes[i / 8];
    let s = (7 - i % 8) as u8;
    assert((b >> s) & 1u8 <= 1u8) by (bit_vector);
}

/// `n` bits form a number below `2^n`.
pub proof fn lemma_bits_value_bound(bytes: Seq<u8>, pos: int, n: nat)
    ensures
        bits_value(bytes, pos, n) < two_pow(n),
    decreases n,
{
    if n > 0 {
        lemma_bits_value_bound(bytes, pos, (n - 1) as nat);
        lemma_bit_at_is_bit(bytes, pos + n - 1);
    }
}

/// A reader over a byte slice that hands out bits most significant bit
/// first within each byte, `bytes[0]` first.
pub struct BitReader<'a> {
    bytes: &'a [u8],
    /// Bit position (0-indexed) counting from the MSB of `bytes[0]`.
    bit_pos: usize,
}

impl<'a> View for BitReader<'a> {
    /// The stream's bytes and the position of the next bit to read.
    type V = (Seq<u8>, nat);

    closed spec fn view(&self) -> (Seq<u8>, nat) {
        (self.bytes@, self.bit_pos as nat)
    }
}

impl<'a> BitReader<'a> {
    /// The position never passes the end of the stream, and every bit
    /// position of the stream fits in a `usize`.
    #[verifier::type_invariant]
    spec fn inv(self) -> bool {
        &&& self.bit_pos <= 8 * self.bytes@.len()
        &&& 8 * self.bytes@.len() <= usize::MAX
    }

    /// A reader positioned at the first bit of `bytes`.
    pub fn new(bytes: &'a [u8]) -> (r: Self)
        requires
            8 * bytes@.len() <= usize::MAX,
        ensures
            r@ == (bytes@, 0nat),
    {
        BitReader { bytes, bit_pos: 0 }
    }

    /// The position of the next bit to read.
    pub fn bit_pos(&self) -> (p: usize)
        ensures
            p == self@.1,
    {
        self.bit_pos
    }

    /// Reads `n` bits (`n <= 32`), most significant bit first, and returns
    /// them as a `u32`. Returns `None`, consuming nothing, if fewer than `n`
    /// bits remain. Reading zero bits gives `Some(0)`.
    pub fn read(&mut self, n: u32) -> (res: Option<u32>)
        requires
            n <= 32,
        ensures
            final(self)@.0 == old(self)@.0,
            match read_bits(old(self)@.0, old(self)@.1, n as nat) {
                None => res is None && final(self)@.1 == old(self)@.1,
                Some(v) => res == Some(v as u32) && final(self)@.1 == old(self)@.1 + n,
            },
    {
        proof {
            use_type_invariant(&*self);
        }
        let len = self.bytes.len();
        if self.bit_pos as u128 + n as u128 > 8 * (len as u128) {
            return None;
        }
        let ghost start = self.bit_pos as int;
        let mut out: u32 = 0;
        let mut k: u32 = 0;
        while k < n
            invariant
                k <= n <= 32,
                len == self.bytes@.len(),
                self.bytes@ == old(self)@.0,
                self.bit_pos == start + k,
                start + n <= 8 * len <= usize::MAX,
                out as nat == bits_value(self.bytes@, start, k as nat),
            decreases n - k,
        {
            proof {
                lemma_bits_value_bound(self.bytes@, start, k as nat);
                lemma_two_pow_monotone(k as nat, 31);
                lemma_two_pow_31();
            }
            let byte = self.bytes[self.bit_pos / 8];
            let bit_in_byte = (7 - (self.bit_pos % 8)) as u8;
            let bit = (byte >> bit_in_byte) & 1u8;
            proof {
                lemma_bit_at_is_bit(self.bytes@, start + k);
            }
            // Shift the bit in at the bottom (`(out << 1) | bit`).
            out = out * 2 + bit as u32;
            self.bit_pos = self.bit_pos + 1;
            k = k + 1;
        }
        Some(out)
    }
}

proof fn lemma_two_pow_monotone(a: nat, b: nat)
    requires
        a <= b,
    ensures
        two_pow(a) <= two_pow(b),
    decreases b,
{
    if a < b {
        lemma_two_pow_monotone(a, (b - 1) as nat);
    }
}

proof fn lemma_two_pow_31()
    ensures
        two_pow(31) == 0x8000_0000,
{
    reveal_with_fuel(two_pow, 32);
}

// ---------------------------------------------------------------------------
// Uniform sampling by rejection
// ---------------------------------------------------------------------------

/// Bits per sample for an alphabet of `max` symbols: the bit width of
/// `max - 1`, i.e. `32 - (max - 1).leading_zeros()`, which is
/// `ceil(log2(max))`.
pub open spec fn sample_width(max: u32) -> nat {
    (32 - u32_leading_zeros((max - 1) as u32)) as nat
}

/// One rejection-sampled draw from `0..max` starting at bit `pos`: read
/// `sample_width(max)` bits; keep the value if it is below `max`, otherwise
/// discard it and read again from the following bits. Gives the sample (or
/// `None` once the stream runs out) and the position after the last read
/// that succeeded.
pub open spec fn sample_spec(bytes: Seq<u8>, pos: nat, max: u32) -> (Option<u32>, nat)
    decreases 8 * bytes.len() - pos,
{
    let w = sample_width(max);
    if max == 0 || pos + w > 8 * bytes.len() {
        (None, pos)
    } else {
        let v = bits_value(bytes, pos as int, w);
        if v < max {
            (Some(v as u32), pos + w)
        } else {
            sample_spec(bytes, pos + w, max)
        }
    }
}

/// Every sample lies in `0..max`, and the position never moves backwards
/// nor past the end of the stream.
pub proof fn lemma_sample_in_range(bytes: Seq<u8>, pos: nat, max: u32)
    requires
        pos <= 8 * bytes.len(),
    ensures
        sample_spec(bytes, pos, max).0 matches Some(v) ==> v < max,
        pos <= sample_spec(bytes, pos, max).1 <= 8 * bytes.len(),
    decreases 8 * bytes.len() - pos,
{
    let w = sample_width(max);
    if !(max == 0 || pos + w > 8 * bytes.len()) {
        let v = bits_value(bytes, pos as int, w);
        if !(v < max) {
            lemma_sample_in_range(bytes, pos + w, max);
        }
    }
}

/// The sample width is `ceil(log2(max))`: the smallest `w` with
/// `max <= 2^w`.
pub proof fn lemma_sample_width_is_ceil_log2(max: u32)
    requires
        max > 0,
    ensures
        sample_width(max) <= 32,
        max <= two_pow(sample_width(max)),
        sample_width(max) > 0 ==> two_pow((sample_width(max) - 1) as nat) < max,
{
    let x = (max - 1) as u32;
    vstd::std_specs::bits::axiom_u32_leading_zeros(x);
    let lz = u32_leading_zeros(x);
    let w = (32 - lz) as u32;
    lemma_two_pow_u64(w as nat);
    assert(x >> ((32 - lz) as u32) == 0);
    assert(w <= 32 && x >> w == 0u32 ==> (x as u64) < (1u64 << (w as u64))) by (bit_vector);
    if w > 0 {
        lemma_two_pow_u64((w - 1) as nat);
        assert(lz < 32);
        assert((x >> ((31 - lz) as u32)) & 1u32 != 0u32);
        assert(0 < w <= 32 && (x >> ((w - 1) as u32)) & 1u32 != 0u32 ==> (x as u64) >= (1u64 << ((w - 1) as u64)))
            by (bit_vector);
    }
}

proof fn lemma_two_pow_u64(n: nat)
    requires
        n <= 32,
    ensures
        two_pow(n) == (1u64 << (n as u64)),
    decreases n,
{
    let k = n as u64;
    if n > 0 {
        lemma_two_pow_u64((n - 1) as nat);
        assert(0 < k <= 32 ==> (1u64 << k) == 2 * (1u64 << ((k - 1) as u64))) by (bit_vector);
    } else {
        assert(k == 0 ==> (1u64 << k) == 1) by (bit_vector);
    }
}

/// Draws one uniform sample in `0..max` from `reader` by rejection sampling.
/// Returns `None` if the stream runs out before a sample is accepted.
pub fn sample_uniform(reader: &mut BitReader<'_>, max: u32) -> (res: Option<u32>)
    requires
        max > 0,
    ensures
        final(reader)@.0 == old(reader)@.0,
        (res, final(reader)@.1) == sample_spec(old(reader)@.0, old(reader)@.1, max),
{
    proof {
        vstd::std_specs::bits::axiom_u32_leading_zeros((max - 1) as u32);
        use_type_invariant(&*reader);
    }
    let bits = 32 - (max - 1).leading_zeros();
    loop
        invariant
            max > 0,
            bits as nat == sample_width(max),
            bits <= 32,
            reader@.0 == old(reader)@.0,
            reader@.1 <= 8 * reader@.0.len(),
            sample_spec(old(reader)@.0, old(reader)@.1, max) == sample_spec(reader@.0, reader@.1, max),
        decreases 8 * reader@.0.len() - reader@.1,
    {
        match reader.read(bits) {
            None => {
                return None;
            },
            Some(sample) => {
                proof {
                    use_type_invariant(&*reader);
                    lemma_bits_value_bound(reader@.0, (reader@.1 - bits) as int, bits as nat);
                    lemma_two_pow_u64(bits as nat);
                    assert(bits <= 32 ==> (1u64 << (bits as u64)) <= 0x1_0000_0000u64) by (bit_vector);
                }
                if sample < max {
                    return Some(sample);
                }
            },
        }
    }
}

/// `count` consecutive samples from `0..max`, starting at bit `pos`, or
/// `None` if the stream runs out first.
pub open spec fn draw_samples(bytes: Seq<u8>, pos: nat, max: u32, count: nat) -> Option<Seq<u32>>
    decreases count,
{
    if count == 0 {
        Some(Seq::empty())
    } else {
        match sample_spec(bytes, pos, max) {
            (Some(v), next) => match draw_samples(bytes, next, max, (count - 1) as nat) {
                Some(rest) => Some(seq![v] + rest),
                None => None,
            },
            (None, _) => None,
        }
    }
}

/// `prefix` followed by the drawn samples, if any.
pub open spec fn after_prefix(prefix: Seq<u32>, rest: Option<Seq<u32>>) -> Option<Seq<u32>> {
    match rest {
        Some(r) => Some(prefix + r),
        None => None,
    }
}

proof fn lemma_draw_step(bytes: Seq<u8>, pos: nat, max: u32, count: nat, got: Seq<u32>, v: u32, next: nat)
    requires
        count > 0,
        sample_spec(bytes, pos, max) == (Some(v), next),
    ensures
        after_prefix(got, draw_samples(bytes, pos, max, count))
            == after_prefix(got.push(v), draw_samples(bytes, next, max, (count - 1) as nat)),
{
    match draw_samples(bytes, next, max, (count - 1) as nat) {
        Some(rest) => {
            assert(got + (seq![v] + rest) =~= got.push(v) + rest);
        },
        None => {},
    }
}

/// Every drawn sample lies in `0..max`.
pub proof fn lemma_draw_in_range(bytes: Seq<u8>, pos: nat, max: u32, count: nat)
    requires
        pos <= 8 * bytes.len(),
    ensures
        draw_samples(bytes, pos, max, count) matches Some(s) ==> s.len() == count
            && forall|i: int| 0 <= i < s.len() ==> #[trigger] s[i] < max,
    decreases count,
{
    if count > 0 {
        lemma_sample_in_range(bytes, pos, max);
        let (v, next) = sample_spec(bytes, pos, max);
        if v is Some {
            lemma_draw_in_range(bytes, next, max, (count - 1) as nat);
        }
    }
}

/// The `w`-bit groups of the stream from bit `pos` on, each read most
/// significant bit first, for as long as whole groups remain.
pub open spec fn groups(bytes: Seq<u8>, pos: nat, w: nat) -> Seq<nat>
    decreases 8 * bytes.len() - pos,
{
    if w == 0 || pos + w > 8 * bytes.len() {
        Seq::empty()
    } else {
        seq![bits_value(bytes, pos as int, w)] + groups(bytes, pos + w, w)
    }
}

/// Values below `max`.
pub open spec fn below(max: u32) -> spec_fn(nat) -> bool {
    |g: nat| g < max
}

/// The accepted draws for an alphabet of `max` symbols: of the groups of
/// `sample_width(max)` bits from bit `pos` on, those whose value is below
/// `max`, in order.
pub open spec fn accepted(bytes: Seq<u8>, pos: nat, max: u32) -> Seq<nat> {
    groups(bytes, pos, sample_width(max)).filter(below(max))
}

proof fn lemma_filter_cons(v: nat, rest: Seq<nat>, max: u32)
    ensures
        (seq![v] + rest).filter(below(max)) == if v < max {
            seq![v] + rest.filter(below(max))
        } else {
            rest.filter(below(max))
        },
{
    let one = seq![v];
    Seq::filter_distributes_over_add(one, rest, below(max));
    reveal(Seq::filter);
    assert(one.drop_last() =~= Seq::<nat>::empty());
    assert(Seq::<nat>::empty().filter(below(max)) == Seq::<nat>::empty());
    assert(one.last() == v);
    assert(below(max)(v) == (v < max));
    if v < max {
        assert(one.filter(below(max)) == Seq::<nat>::empty().push(v));
        assert(Seq::<nat>::empty().push(v) =~= one);
    } else {
        assert(one.filter(below(max)) == Seq::<nat>::empty());
        assert(Seq::<nat>::empty() + rest.filter(below(max)) =~= rest.filter(below(max)));
    }
}

/// One rejection-sampled draw takes the first accepted group, and leaves
/// the stream where the remaining accepted groups begin; with no accepted
/// group left, the draw fails.
pub proof fn lemma_sample_accepted(bytes: Seq<u8>, pos: nat, max: u32)
    requires
        max >= 2,
        pos <= 8 * bytes.len(),
    ensures
        accepted(bytes, pos, max).len() == 0 ==> sample_spec(bytes, pos, max).0 is None,
        accepted(bytes, pos, max).len() > 0 ==> {
            &&& sample_spec(bytes, pos, max).0 matches Some(x) && x as nat == accepted(bytes, pos, max)[0]
            &&& sample_spec(bytes, pos, max).1 <= 8 * bytes.len()
            &&& accepted(bytes, sample_spec(bytes, pos, max).1, max) == accepted(bytes, pos, max).drop_first()
        },
    decreases 8 * bytes.len() - pos,
{
    let w = sample_width(max);
    lemma_sample_width_is_ceil_log2(max);
    assert(w > 0);
    if pos + w <= 8 * bytes.len() {
        let v = bits_value(bytes, pos as int, w);
        let rest = groups(bytes, pos + w, w);
        lemma_filter_cons(v, rest, max);
        if v < max {
            assert(accepted(bytes, pos, max).drop_first() =~= accepted(bytes, pos + w, max));
        } else {
            lemma_sample_accepted(bytes, pos + w, max);
        }
    } else {
        reveal(Seq::filter);
    }
}

/// The groups from bit `pos` on are the whole groups left in the stream:
/// `(8 * bytes.len() - pos) / w` of them, read back to back.
pub proof fn lemma_groups_count(bytes: Seq<u8>, pos: nat, w: nat)
    requires
        w > 0,
        pos <= 8 * bytes.len(),
    ensures
        groups(bytes, pos, w).len() * w <= 8 * bytes.len() - pos,
        8 * bytes.len() - pos < (groups(bytes, pos, w).len() + 1) * w,
        forall|i: int| 0 <= i < groups(bytes, pos, w).len() ==> #[trigger] groups(bytes, pos, w)[i] == bits_value(
            bytes,
            pos + w * i,
            w,
        ),
    decreases 8 * bytes.len() - pos,
{
    let g = groups(bytes, pos, w);
    if pos + w <= 8 * bytes.len() {
        let rest = groups(bytes, pos + w, w);
        lemma_groups_count(bytes, pos + w, w);
        let n = rest.len();
        assert((n + 1) * w == n * w + w) by (nonlinear_arith);
        assert((n + 2) * w == (n + 1) * w + w) by (nonlinear_arith);
        assert forall|i: int| 0 <= i < g.len() implies #[trigger] g[i] == bits_value(bytes, pos + w * i, w) by {
            if i > 0 {
                assert(g[i] == rest[i - 1]);
                assert(pos + w + w * (i - 1) == pos + w * i) by (nonlinear_arith);
            }
        }
    } else {
        assert(g.len() == 0);
        assert((0 + 1) * w == w) by (nonlinear_arith);
    }
}

/// One rejection-sampled draw in closed form: with `k = sample_width(max)`
/// and `g` the `k`-bit groups from bit `pos` on, the draw is the first group
/// `g[j]` below `max` and leaves the stream at `pos + k * (j + 1)`; when no
/// group is below `max` it fails, with the stream past every whole group,
/// at `pos + k * g.len()`.
pub proof fn lemma_sample_closed_form(bytes: Seq<u8>, pos: nat, max: u32)
    requires
        max >= 2,
        pos <= 8 * bytes.len(),
    ensures
        ({
            let w = sample_width(max);
            let g = groups(bytes, pos, w);
            let (v, next) = sample_spec(bytes, pos, max);
            ||| exists|j: int|
                0 <= j < g.len() && g[j] < max && (forall|i: int| 0 <= i < j ==> #[trigger] g[i] >= max) && v
                    == Some(g[j] as u32) && next == pos + w * (j + 1)
            ||| (forall|i: int| 0 <= i < g.len() ==> #[trigger] g[i] >= max) && v is None && next == pos + w
                * g.len()
        }),
    decreases 8 * bytes.len() - pos,
{
    let w = sample_width(max);
    lemma_sample_width_is_ceil_log2(max);
    let g = groups(bytes, pos, w);
    if pos + w <= 8 * bytes.len() {
        let gv = bits_value(bytes, pos as int, w);
        let rest = groups(bytes, pos + w, w);
        assert(g[0] == gv);
        if gv < max {
            assert(pos + w * (0 + 1) == pos + w) by (nonlinear_arith);
        } else {
            lemma_sample_closed_form(bytes, pos + w, max);
            let (v, next) = sample_spec(bytes, pos + w, max);
            if exists|j: int|
                0 <= j < rest.len() && rest[j] < max && (forall|i: int| 0 <= i < j ==> #[trigger] rest[i] >= max) && v
                    == Some(rest[j] as u32) && next == pos + w + w * (j + 1) {
                let j = choose|j: int|
                    0 <= j < rest.len() && rest[j] < max && (forall|i: int| 0 <= i < j ==> #[trigger] rest[i] >= max)
                        && v == Some(rest[j] as u32) && next == pos + w + w * (j + 1);
                assert(g[j + 1] == rest[j]);
                assert forall|i: int| 0 <= i < j + 1 implies #[trigger] g[i] >= max by {
                    if i > 0 {
                        assert(g[i] == rest[i - 1]);
                    }
                }
                assert(pos + w + w * (j + 1) == pos + w * (j + 1 + 1)) by (nonlinear_arith);
            } else {
                assert forall|i: int| 0 <= i < g.len() implies #[trigger] g[i] >= max by {
                    if i > 0 {
                        assert(g[i] == rest[i - 1]);
                    }
                }
                assert(pos + w + w * rest.len() == pos + w * (rest.len() + 1)) by (nonlinear_arith);
            }
        }
    }
}

/// Drawing `count` samples gives the first `count` accepted groups, in
/// order, when there are that many, and fails otherwise.
pub proof fn lemma_draws_accepted(bytes: Seq<u8>, pos: nat, max: u32, count: nat)
    requires
        max >= 2,
        pos <= 8 * bytes.len(),
    ensures
        accepted(bytes, pos, max).len() >= count ==> (draw_samples(bytes, pos, max, count) matches Some(s) && s.len()
            == count && forall|i: int| 0 <= i < count ==> #[trigger] s[i] as nat == accepted(bytes, pos, max)[i]),
        accepted(bytes, pos, max).len() < count ==> draw_samples(bytes, pos, max, count) is None,
    decreases count,
{
    if count > 0 {
        let a = accepted(bytes, pos, max);
        lemma_sample_accepted(bytes, pos, max);
        if a.len() > 0 {
            let (v, next) = sample_spec(bytes, pos, max);
            lemma_draws_accepted(bytes, next, max, (count - 1) as nat);
            if a.len() >= count {
                let s = draw_samples(bytes, pos, max, count).unwrap();
                let rest = draw_samples(bytes, next, max, (count - 1) as nat).unwrap();
                assert forall|i: int| 0 <= i < count implies #[trigger] s[i] as nat == a[i] by {
                    if i > 0 {
                        assert(s[i] == rest[i - 1]);
                        assert(a.drop_first()[i - 1] == a[i]);
                    }
                }
            }
        }
    }
}

// ---------------------------------------------------------------------------
// Encodings
// ---------------------------------------------------------------------------

/// Errors returned by encoding functions.
#[derive(Debug, Clone, Copy, PartialEq, Eq, Structural)]
pub enum EncodeError {
    /// The input byte buffer was exhausted before the requested output was
    /// produced. Provide more HKDF output bytes.
    InsufficientEntropy,
    /// The requested wordlist size is not usable (0 or at least 2^32).
    InvalidWordlistSize(usize),
    /// The requested numeric or alphanumeric length is zero.
    ZeroLength,
}

impl EncodeError {
    /// The error message.
    pub fn message(&self) -> (m: String)
        ensures
            m@ == match self {
                EncodeError::InsufficientEntropy => "insufficient entropy in input buffer"@,
                EncodeError::InvalidWordlistSize(n) => "wordlist size "@ + crate::text::decimal_text(*n as nat)
                    + " is out of range"@,
                EncodeError::ZeroLength => "output length must be at least 1"@,
            },
    {
        match self {
            EncodeError::InsufficientEntropy => crate::text::string_from("insufficient entropy in input buffer"),
            EncodeError::InvalidWordlistSize(n) => {
                let mut s = crate::text::string_from("wordlist size ");
                s.append(crate::text::decimal(*n).as_str());
                s.append(" is out of range");
                s
            },
            EncodeError::ZeroLength => crate::text::string_from("output length must be at least 1"),
        }
    }
}

/// The text of an encoder's result.
pub open spec fn text_result(r: Result<String, EncodeError>) -> Result<Seq<char>, EncodeError> {
    match r {
        Ok(s) => Ok(s@),
        Err(e) => Err(e),
    }
}

/// Symbol `i` of the alphanumeric alphabet `A-Z a-z 0-9`, in that order.
pub open spec fn alphanumeric_char(i: nat) -> char {
    if i < 26 {
        ('A' as nat + i) as char
    } else if i < 52 {
        ('a' as nat + (i - 26)) as char
    } else {
        ('0' as nat + (i - 52)) as char
    }
}

/// Size of the alphanumeric alphabet.
pub const ALPHANUMERIC_LEN: u32 = 62;

/// The digits for `samples`, each sample in `0..10`.
pub open spec fn numeric_text(samples: Seq<u32>) -> Seq<char> {
    samples.map_values(|d: u32| digit_char(d as nat))
}

/// The characters for `samples`, each sample in `0..62`.
pub open spec fn alphanumeric_text(samples: Seq<u32>) -> Seq<char> {
    samples.map_values(|i: u32| alphanumeric_char(i as nat))
}

/// The words picked by `picks`, separated by single spaces.
pub open spec fn words_text(words: Seq<Seq<char>>, picks: Seq<u32>) -> Seq<char>
    decreases picks.len(),
{
    if picks.len() == 0 {
        Seq::empty()
    } else if picks.len() == 1 {
        words[picks[0] as int]
    } else {
        words_text(words, picks.drop_last()) + seq![' '] + words[picks.last() as int]
    }
}

/// The text of each word of a wordlist.
pub open spec fn word_texts(wordlist: Seq<&str>) -> Seq<Seq<char>> {
    wordlist.map_values(|w: &str| w@)
}

/// The UTF-8 length of the longest word (0 for an empty list).
pub open spec fn longest_word_bytes(wordlist: Seq<&str>) -> nat
    decreases wordlist.len(),
{
    if wordlist.len() == 0 {
        0
    } else {
        let rest = longest_word_bytes(wordlist.drop_last());
        let last = wordlist.last().len() as nat;
        if last > rest { last } else { rest }
    }
}

/// A Diceware passphrase: `word_count` words drawn uniformly from `words`.
pub open spec fn diceware_encoding(bytes: Seq<u8>, words: Seq<Seq<char>>, word_count: nat) -> Result<Seq<char>, EncodeError> {
    if words.len() == 0 || words.len() > u32::MAX {
        Err(EncodeError::InvalidWordlistSize(words.len() as usize))
    } else if word_count == 0 {
        Err(EncodeError::ZeroLength)
    } else {
        match draw_samples(bytes, 0, words.len() as u32, word_count) {
            Some(picks) => Ok(words_text(words, picks)),
            None => Err(EncodeError::InsufficientEntropy),
        }
    }
}

/// A numeric PIN of `length` decimal digits.
pub open spec fn numeric_encoding(bytes: Seq<u8>, length: nat) -> Result<Seq<char>, EncodeError> {
    if length == 0 {
        Err(EncodeError::ZeroLength)
    } else {
        match draw_samples(bytes, 0, 10, length) {
            Some(ds) => Ok(numeric_text(ds)),
            None => Err(EncodeError::InsufficientEntropy),
        }
    }
}

/// An alphanumeric passphrase of `length` characters from `A-Z a-z 0-9`.
pub open spec fn alphanumeric_encoding(bytes: Seq<u8>, length: nat) -> Result<Seq<char>, EncodeError> {
    if length == 0 {
        Err(EncodeError::ZeroLength)
    } else {
        match draw_samples(bytes, 0, ALPHANUMERIC_LEN, length) {
            Some(ds) => Ok(alphanumeric_text(ds)),
            None => Err(EncodeError::InsufficientEntropy),
        }
    }
}

/// Symbol `v` of the standard base64 alphabet (RFC 4648): `A-Z a-z 0-9 + /`.
pub open spec fn base64_char(v: nat) -> char {
    if v < 62 {
        alphanumeric_char(v)
    } else if v == 62 {
        '+'
    } else {
        '/'
    }
}

/// Number of `=` characters that pad the encoding of `n` bytes.
pub open spec fn base64_padding(n: nat) -> nat {
    if n % 3 == 0 {
        0
    } else if n % 3 == 1 {
        2
    } else {
        1
    }
}

/// Standard padded base64 (RFC 4648, section 4): the bits of `data`, most
/// significant bit first, are cut into 6-bit groups (the last group filled
/// up with zero bits); each group becomes one symbol of the standard
/// alphabet, and `=` pads the text to a multiple of four characters.
pub open spec fn base64_text(data: Seq<u8>) -> Seq<char> {
    let padded = data.push(0u8);
    Seq::new(((8 * data.len() + 5) / 6) as nat, |k: int| base64_char(bits_value(padded, 6 * k, 6)))
        + Seq::new(base64_padding(data.len()), |k: int| '=')
}

/// The first `byte_count` bytes as standard padded base64.
pub open spec fn base64_encoding(bytes: Seq<u8>, byte_count: nat) -> Result<Seq<char>, EncodeError> {
    if byte_count == 0 {
        Err(EncodeError::ZeroLength)
    } else if bytes.len() < byte_count {
        Err(EncodeError::InsufficientEntropy)
    } else {
        Ok(base64_text(bytes.take(byte_count as int)))
    }
}

/// The alphanumeric symbol for `i < 62`, computed.
fn alphanumeric_symbol(i: u32) -> (c: char)
    requires
        i < 62,
    ensures
        c == alphanumeric_char(i as nat),
{
    if i < 26 {
        (65u8 + i as u8) as char
    } else if i < 52 {
        (97u8 + (i - 26) as u8) as char
    } else {
        (48u8 + (i - 52) as u8) as char
    }
}

/// Encodes raw bytes as a Diceware-style passphrase of `word_count` words
/// drawn uniformly from `wordlist`, separated by single ASCII spaces.
pub fn encode_diceware(bytes: &[u8], wordlist: &[&str], word_count: usize) -> (res: Result<String, EncodeError>)
    requires
        0 < wordlist@.len() <= u32::MAX && word_count > 0 ==> {
            &&& 8 * bytes@.len() <= usize::MAX
            &&& word_count * (longest_word_bytes(wordlist@) + 1) <= isize::MAX
        },
    ensures
        text_result(res) == diceware_encoding(bytes@, word_texts(wordlist@), word_count as nat),
{
    let n = wordlist.len();
    if n == 0 || n > u32::MAX as usize {
        return Err(EncodeError::InvalidWordlistSize(n));
    }
    if word_count == 0 {
        return Err(EncodeError::ZeroLength);
    }
    let ghost words = word_texts(wordlist@);
    let mut reader = BitReader::new(bytes);
    // Allocate the final size up front: a growing String would reallocate and
    // strand unwiped copies of the partial passphrase in freed memory.
    let mut max_word_len: usize = 0;
    let mut j: usize = 0;
    while j < n
        invariant
            j <= n == wordlist@.len(),
            max_word_len == longest_word_bytes(wordlist@.take(j as int)),
            longest_word_bytes(wordlist@.take(j as int)) <= longest_word_bytes(wordlist@),
        decreases n - j,
    {
        proof {
            assert(wordlist@.take(j + 1).drop_last() =~= wordlist@.take(j as int));
        }
        let len = wordlist[j].len();
        if len > max_word_len {
            max_word_len = len;
        }
        j = j + 1;
        proof {
            lemma_longest_prefix(wordlist@, j as nat);
        }
    }
    proof {
        assert(wordlist@.take(n as int) =~= wordlist@);
        let m = max_word_len as int;
        let c = word_count as int;
        assert(c * (m + 1) >= m + 1) by (nonlinear_arith)
            requires
                c >= 1,
                m >= 0,
        ;
    }
    let mut out = string_with_capacity(word_count * (max_word_len + 1));
    let ghost mut picks: Seq<u32> = Seq::empty();
    let mut i: usize = 0;
    while i < word_count
        invariant
            0 < n == wordlist@.len() <= u32::MAX,
            words == word_texts(wordlist@),
            i <= word_count,
            reader@.0 == bytes@,
            picks.len() == i,
            out@ == words_text(words, picks),
            draw_samples(bytes@, 0, n as u32, word_count as nat)
                == after_prefix(picks, draw_samples(bytes@, reader@.1, n as u32, (word_count - i) as nat)),
        decreases word_count - i,
    {
        let ghost pos = reader@.1;
        proof {
            use_type_invariant(&reader);
            lemma_sample_in_range(bytes@, pos, n as u32);
        }
        match sample_uniform(&mut reader, n as u32) {
            None => {
                wipe_text(&mut out);
                return Err(EncodeError::InsufficientEntropy);
            },
            Some(idx) => {
                proof {
                    lemma_draw_step(bytes@, pos, n as u32, (word_count - i) as nat, picks, idx, reader@.1);
                }
                if i > 0 {
                    push_char(&mut out, ' ');
                }
                out.append(wordlist[idx as usize]);
                proof {
                    let old_picks = picks;
                    picks = picks.push(idx);
                    assert(picks.drop_last() =~= old_picks);
                }
                i = i + 1;
            },
        }
    }
    Ok(out)
}

proof fn lemma_longest_prefix(wordlist: Seq<&str>, j: nat)
    requires
        0 < j <= wordlist.len(),
    ensures
        longest_word_bytes(wordlist.take(j as int)) <= longest_word_bytes(wordlist),
    decreases wordlist.len() - j,
{
    if j < wordlist.len() {
        lemma_longest_prefix(wordlist, j + 1);
        assert(wordlist.take((j + 1) as int).drop_last() =~= wordlist.take(j as int));
    } else {
        assert(wordlist.take(j as int) =~= wordlist);
    }
}

/// Encodes raw bytes as a numeric PIN of `length` decimal digits.
pub fn encode_numeric(bytes: &[u8], length: usize) -> (res: Result<String, EncodeError>)
    requires
        length > 0 ==> 8 * bytes@.len() <= usize::MAX && length <= isize::MAX,
    ensures
        text_result(res) == numeric_encoding(bytes@, length as nat),
{
    if length == 0 {
        return Err(EncodeError::ZeroLength);
    }
    let mut reader = BitReader::new(bytes);
    let mut out = string_with_capacity(length);
    let ghost mut ds: Seq<u32> = Seq::empty();
    let mut i: usize = 0;
    while i < length
        invariant
            i <= length,
            reader@.0 == bytes@,
            ds.len() == i,
            out@ == numeric_text(ds),
            draw_samples(bytes@, 0, 10, length as nat)
                == after_prefix(ds, draw_samples(bytes@, reader@.1, 10, (length - i) as nat)),
        decreases length - i,
    {
        let ghost pos = reader@.1;
        proof {
            use_type_invariant(&reader);
            lemma_sample_in_range(bytes@, pos, 10);
        }
        match sample_uniform(&mut reader, 10) {
            None => {
                wipe_text(&mut out);
                return Err(EncodeError::InsufficientEntropy);
            },
            Some(d) => {
                proof {
                    lemma_draw_step(bytes@, pos, 10, (length - i) as nat, ds, d, reader@.1);
                }
                push_char(&mut out, digit(d as u8));
                proof {
                    let old_ds = ds;
                    ds = ds.push(d);
                    assert(numeric_text(ds) =~= numeric_text(old_ds).push(digit_char(d as nat)));
                }
                i = i + 1;
            },
        }
    }
    proof {
        assert(ds + Seq::<u32>::empty() =~= ds);
    }
    Ok(out)
}

/// Encodes raw bytes as an alphanumeric passphrase of `length` characters
/// drawn from `[A-Za-z0-9]`.
pub fn encode_alphanumeric(bytes: &[u8], length: usize) -> (res: Result<String, EncodeError>)
    requires
        length > 0 ==> 8 * bytes@.len() <= usize::MAX && length <= isize::MAX,
    ensures
        text_result(res) == alphanumeric_encoding(bytes@, length as nat),
{
    if length == 0 {
        return Err(EncodeError::ZeroLength);
    }
    let mut reader = BitReader::new(bytes);
    let mut out = string_with_capacity(length);
    let ghost mut ds: Seq<u32> = Seq::empty();
    let mut i: usize = 0;
    while i < length
        invariant
            i <= length,
            reader@.0 == bytes@,
            ds.len() == i,
            out@ == alphanumeric_text(ds),
            draw_samples(bytes@, 0, ALPHANUMERIC_LEN, length as nat)
                == after_prefix(ds, draw_samples(bytes@, reader@.1, ALPHANUMERIC_LEN, (length - i) as nat)),
        decreases length - i,
    {
        let ghost pos = reader@.1;
        proof {
            use_type_invariant(&reader);
            lemma_sample_in_range(bytes@, pos, ALPHANUMERIC_LEN);
        }
        match sample_uniform(&mut reader, ALPHANUMERIC_LEN) {
            None => {
                wipe_text(&mut out);
                return Err(EncodeError::InsufficientEntropy);
            },
            Some(c) => {
                proof {
                    lemma_draw_step(bytes@, pos, ALPHANUMERIC_LEN, (length - i) as nat, ds, c, reader@.1);
                }
                push_char(&mut out, alphanumeric_symbol(c));
                proof {
                    let old_ds = ds;
                    ds = ds.push(c);
                    assert(alphanumeric_text(ds) =~= alphanumeric_text(old_ds).push(alphanumeric_char(c as nat)));
                }
                i = i + 1;
            },
        }
    }
    proof {
        assert(ds + Seq::<u32>::empty() =~= ds);
    }
    Ok(out)
}

/// Standard padded base64 through the `base64` crate
/// (`base64::engine::general_purpose::STANDARD.encode`). The contract claims
/// that the result is the RFC 4648 standard encoding with padding, as the
/// crate documents for this engine. `encode` panics when the output length
/// overflows `usize`; `requires` rules that out.
#[verifier::external_body]
fn base64_standard(data: &[u8]) -> (s: String)
    requires
        4 * ((data@.len() + 2) / 3) <= usize::MAX,
    ensures
        s@ == base64_text(data@),
{
    base64::engine::general_purpose::STANDARD.encode(data)
}

/// Encodes the first `byte_count` bytes as a standard (padded) base64
/// string. No rejection sampling: every input byte contributes, front to
/// back.
pub fn encode_base64(bytes: &[u8], byte_count: usize) -> (res: Result<String, EncodeError>)
    requires
        0 < byte_count <= bytes@.len() ==> 4 * ((byte_count + 2) / 3) <= usize::MAX,
    ensures
        text_result(res) == base64_encoding(bytes@, byte_count as nat),
        res matches Ok(t) ==> t@.len() == 4 * ((byte_count + 2) / 3),
{
    if byte_count == 0 {
        return Err(EncodeError::ZeroLength);
    }
    if bytes.len() < byte_count {
        return Err(EncodeError::InsufficientEntropy);
    }
    let head = &bytes[0..byte_count];
    proof {
        lemma_base64_length(head@);
    }
    Ok(base64_standard(head))
}

// ---------------------------------------------------------------------------
// Properties of the encodings
// ---------------------------------------------------------------------------

/// The alphanumeric alphabet, in order.
pub open spec fn alphanumeric_alphabet() -> Seq<char> {
    Seq::new(ALPHANUMERIC_LEN as nat, |i: int| alphanumeric_char(i as nat))
}

/// The alphanumeric alphabet is `A-Z`, then `a-z`, then `0-9`, and the
/// standard base64 alphabet is the same followed by `+` and `/`.
pub proof fn lemma_alphabets()
    ensures
        alphanumeric_alphabet() == "ABCDEFGHIJKLMNOPQRSTUVWXYZabcdefghijklmnopqrstuvwxyz0123456789"@,
        Seq::new(64, |i: int| base64_char(i as nat))
            == "ABCDEFGHIJKLMNOPQRSTUVWXYZabcdefghijklmnopqrstuvwxyz0123456789+/"@,
{
    reveal_strlit("ABCDEFGHIJKLMNOPQRSTUVWXYZabcdefghijklmnopqrstuvwxyz0123456789");
    reveal_strlit("ABCDEFGHIJKLMNOPQRSTUVWXYZabcdefghijklmnopqrstuvwxyz0123456789+/");
    assert(alphanumeric_alphabet() =~= "ABCDEFGHIJKLMNOPQRSTUVWXYZabcdefghijklmnopqrstuvwxyz0123456789"@);
    assert(Seq::new(64, |i: int| base64_char(i as nat))
        =~= "ABCDEFGHIJKLMNOPQRSTUVWXYZabcdefghijklmnopqrstuvwxyz0123456789+/"@);
}

/// A numeric PIN consists of exactly `length` ASCII digits.
pub proof fn lemma_numeric_shape(bytes: Seq<u8>, length: nat)
    ensures
        numeric_encoding(bytes, length) matches Ok(t) ==> t.len() == length && forall|i: int|
            0 <= i < t.len() ==> '0' <= #[trigger] t[i] && t[i] <= '9',
{
    lemma_draw_in_range(bytes, 0, 10, length);
}

/// An alphanumeric passphrase consists of exactly `length` characters from
/// `A-Z a-z 0-9`.
pub proof fn lemma_alphanumeric_shape(bytes: Seq<u8>, length: nat)
    ensures
        alphanumeric_encoding(bytes, length) matches Ok(t) ==> t.len() == length && forall|i: int|
            0 <= i < t.len() ==> ('A' <= #[trigger] t[i] && t[i] <= 'Z') || ('a' <= t[i] && t[i] <= 'z') || ('0'
                <= t[i] && t[i] <= '9'),
{
    lemma_draw_in_range(bytes, 0, ALPHANUMERIC_LEN, length);
}

/// A Diceware passphrase is `word_count` words of the list, each drawn by
/// index, joined by single spaces.
pub proof fn lemma_diceware_shape(bytes: Seq<u8>, words: Seq<Seq<char>>, word_count: nat)
    ensures
        diceware_encoding(bytes, words, word_count) matches Ok(t) ==> exists|picks: Seq<u32>|
            #![trigger words_text(words, picks)]
            picks.len() == word_count && (forall|i: int| 0 <= i < picks.len() ==> #[trigger] picks[i] < words.len())
                && t == words_text(words, picks),
{
    if 0 < words.len() <= u32::MAX && word_count > 0 {
        lemma_draw_in_range(bytes, 0, words.len() as u32, word_count);
    }
}

/// A numeric PIN in closed form: its `i`-th digit is the `i`-th accepted
/// 4-bit group (value below 10) of the buffer; with fewer than `length`
/// accepted groups the encoding fails for lack of entropy.
pub proof fn lemma_numeric_accepted(bytes: Seq<u8>, length: nat)
    ensures
        length == 0 ==> numeric_encoding(bytes, length) == Err::<Seq<char>, EncodeError>(EncodeError::ZeroLength),
        length >= 1 && accepted(bytes, 0, 10).len() >= length ==> (numeric_encoding(bytes, length) matches Ok(t)
            && t.len() == length && forall|i: int| 0 <= i < length ==> #[trigger] t[i] == digit_char(
            accepted(bytes, 0, 10)[i],
        ) && t[i] as nat == '0' as nat + accepted(bytes, 0, 10)[i]),
        length >= 1 && accepted(bytes, 0, 10).len() < length ==> numeric_encoding(bytes, length) == Err::<
            Seq<char>,
            EncodeError,
        >(EncodeError::InsufficientEntropy),
{
    if length >= 1 {
        lemma_draws_accepted(bytes, 0, 10, length);
    }
}

/// An alphanumeric passphrase in closed form: its `i`-th character is the
/// symbol of the `i`-th accepted 6-bit group (value below 62) of the buffer;
/// with fewer than `length` accepted groups the encoding fails for lack of
/// entropy.
pub proof fn lemma_alphanumeric_accepted(bytes: Seq<u8>, length: nat)
    ensures
        length == 0 ==> alphanumeric_encoding(bytes, length) == Err::<Seq<char>, EncodeError>(EncodeError::ZeroLength),
        length >= 1 && accepted(bytes, 0, ALPHANUMERIC_LEN).len() >= length ==> (alphanumeric_encoding(
            bytes,
            length,
        ) matches Ok(t) && t.len() == length && forall|i: int| 0 <= i < length ==> #[trigger] t[i]
            == alphanumeric_char(accepted(bytes, 0, ALPHANUMERIC_LEN)[i])),
        length >= 1 && accepted(bytes, 0, ALPHANUMERIC_LEN).len() < length ==> alphanumeric_encoding(bytes, length)
            == Err::<Seq<char>, EncodeError>(EncodeError::InsufficientEntropy),
{
    if length >= 1 {
        lemma_draws_accepted(bytes, 0, ALPHANUMERIC_LEN, length);
    }
}

/// A Diceware passphrase in closed form: for a list of at least two words,
/// the words picked are those at the first `word_count` accepted groups of
/// `ceil(log2(words.len()))` bits (values below `words.len()`), in order,
/// joined by single spaces; with fewer accepted groups the encoding fails
/// for lack of entropy.
pub proof fn lemma_diceware_accepted(bytes: Seq<u8>, words: Seq<Seq<char>>, word_count: nat)
    requires
        2 <= words.len() <= u32::MAX,
        word_count >= 1,
    ensures
        accepted(bytes, 0, words.len() as u32).len() >= word_count ==> exists|picks: Seq<u32>|
            #![trigger words_text(words, picks)]
            picks.len() == word_count && (forall|i: int| 0 <= i < word_count ==> #[trigger] picks[i] as nat
                == accepted(bytes, 0, words.len() as u32)[i]) && diceware_encoding(bytes, words, word_count) == Ok::<
                Seq<char>,
                EncodeError,
            >(words_text(words, picks)),
        accepted(bytes, 0, words.len() as u32).len() < word_count ==> diceware_encoding(bytes, words, word_count)
            == Err::<Seq<char>, EncodeError>(EncodeError::InsufficientEntropy),
{
    lemma_draws_accepted(bytes, 0, words.len() as u32, word_count);
}

proof fn lemma_words_text_spaced(words: Seq<Seq<char>>, picks: Seq<u32>)
    ensures
        words_text(words, picks) == spaced(picks.map_values(|p: u32| words[p as int])),
    decreases picks.len(),
{
    let f = |p: u32| words[p as int];
    if picks.len() > 1 {
        lemma_words_text_spaced(words, picks.drop_last());
        assert(picks.map_values(f).drop_last() =~= picks.drop_last().map_values(f));
    }
}

/// A Diceware passphrase is its words joined by single spaces, word `i`
/// being the word of the list at the `i`-th accepted sample: for a list of
/// `n >= 2` words, the `i`-th group of `ceil(log2 n)` bits whose value is
/// below `n`. With fewer accepted samples than words asked for, the
/// encoding fails for lack of entropy.
pub proof fn lemma_diceware_words(bytes: Seq<u8>, words: Seq<Seq<char>>, word_count: nat)
    requires
        2 <= words.len() <= u32::MAX,
        word_count >= 1,
    ensures
        accepted(bytes, 0, words.len() as u32).len() >= word_count ==> diceware_encoding(bytes, words, word_count)
            == Ok::<Seq<char>, EncodeError>(
            spaced(Seq::new(word_count, |i: int| words[accepted(bytes, 0, words.len() as u32)[i] as int])),
        ),
        accepted(bytes, 0, words.len() as u32).len() < word_count ==> diceware_encoding(bytes, words, word_count)
            == Err::<Seq<char>, EncodeError>(EncodeError::InsufficientEntropy),
{
    let n = words.len() as u32;
    let a = accepted(bytes, 0, n);
    lemma_draws_accepted(bytes, 0, n, word_count);
    if a.len() >= word_count {
        let picks = draw_samples(bytes, 0, n, word_count).unwrap();
        lemma_words_text_spaced(words, picks);
        assert(picks.map_values(|p: u32| words[p as int]) =~= Seq::new(word_count, |i: int| words[a[i] as int]));
    }
}

/// Base64 of `n` bytes has `4 * ceil(n / 3)` characters.
pub proof fn lemma_base64_length(data: Seq<u8>)
    ensures
        base64_text(data).len() == 4 * ((data.len() + 2) / 3),
{
    let n = data.len();
    let m = n / 3;
    assert(n == 3 * m + n % 3);
    if n % 3 == 0 {
        assert((8 * n + 5) / 6 == 4 * m);
    } else if n % 3 == 1 {
        assert((8 * n + 5) / 6 == 4 * m + 2);
    } else {
        assert((8 * n + 5) / 6 == 4 * m + 3);
    }
}

proof fn lemma_bits_value_agree(b1: Seq<u8>, b2: Seq<u8>, pos: int, n: nat)
    requires
        pos >= 0,
        forall|q: int| pos <= q < pos + n ==> (#[trigger] (q / 8)) < b1.len() && q / 8 < b2.len() && b1[q / 8] == b2[q / 8],
    ensures
        bits_value(b1, pos, n) == bits_value(b2, pos, n),
    decreases n,
{
    if n > 0 {
        lemma_bits_value_agree(b1, b2, pos, (n - 1) as nat);
        let q = pos + n - 1;
        assert(q / 8 < b1.len());
    }
}

/// Bits read within `bytes` do not change when more bytes follow.
proof fn lemma_bits_value_extend(bytes: Seq<u8>, more: Seq<u8>, pos: int, n: nat)
    requires
        pos >= 0,
        pos + n <= 8 * bytes.len(),
    ensures
        bits_value(bytes, pos, n) == bits_value(bytes + more, pos, n),
{
    assert forall|q: int| pos <= q < pos + n implies (#[trigger] (q / 8)) < bytes.len() && q / 8 < (bytes
        + more).len() && bytes[q / 8] == (bytes + more)[q / 8] by {}
    lemma_bits_value_agree(bytes, bytes + more, pos, n);
}

/// A sample accepted within `bytes` is accepted, at the same position, when
/// more bytes follow.
proof fn lemma_sample_extend(bytes: Seq<u8>, more: Seq<u8>, pos: nat, max: u32)
    requires
        sample_spec(bytes, pos, max).0 is Some,
    ensures
        sample_spec(bytes + more, pos, max) == sample_spec(bytes, pos, max),
    decreases 8 * bytes.len() - pos,
{
    let w = sample_width(max);
    if !(max == 0 || pos + w > 8 * bytes.len()) {
        lemma_bits_value_extend(bytes, more, pos as int, w);
        let v = bits_value(bytes, pos as int, w);
        if !(v < max) {
            lemma_sample_extend(bytes, more, pos + w, max);
        }
    }
}

/// Samples drawn within `bytes` are drawn alike when more bytes follow.
pub proof fn lemma_draw_extend(bytes: Seq<u8>, more: Seq<u8>, pos: nat, max: u32, count: nat)
    requires
        draw_samples(bytes, pos, max, count) is Some,
    ensures
        draw_samples(bytes + more, pos, max, count) == draw_samples(bytes, pos, max, count),
    decreases count,
{
    if count > 0 {
        lemma_sample_extend(bytes, more, pos, max);
        let (v, next) = sample_spec(bytes, pos, max);
        lemma_draw_extend(bytes, more, next, max, (count - 1) as nat);
    }
}

/// A longer buffer never changes a passphrase that a shorter one already
/// yields: every successful encoding of `bytes` is also the encoding of
/// `bytes` followed by any further bytes.
pub proof fn lemma_longer_buffer_same_output(bytes: Seq<u8>, more: Seq<u8>, words: Seq<Seq<char>>, length: nat)
    ensures
        numeric_encoding(bytes, length) is Ok ==> numeric_encoding(bytes + more, length) == numeric_encoding(bytes, length),
        alphanumeric_encoding(bytes, length) is Ok ==> alphanumeric_encoding(bytes + more, length)
            == alphanumeric_encoding(bytes, length),
        diceware_encoding(bytes, words, length) is Ok ==> diceware_encoding(bytes + more, words, length)
            == diceware_encoding(bytes, words, length),
        base64_encoding(bytes, length) is Ok ==> base64_encoding(bytes + more, length) == base64_encoding(bytes, length),
{
    if length > 0 {
        if draw_samples(bytes, 0, 10, length) is Some {
            lemma_draw_extend(bytes, more, 0, 10, length);
        }
        if draw_samples(bytes, 0, ALPHANUMERIC_LEN, length) is Some {
            lemma_draw_extend(bytes, more, 0, ALPHANUMERIC_LEN, length);
        }
        if 0 < words.len() <= u32::MAX && draw_samples(bytes, 0, words.len() as u32, length) is Some {
            lemma_draw_extend(bytes, more, 0, words.len() as u32, length);
        }
        if bytes.len() >= length {
            assert((bytes + more).take(length as int) =~= bytes.take(length as int));
        }
    }
}

proof fn lemma_width_62()
    ensures
        sample_width(ALPHANUMERIC_LEN) == 6,
{
    lemma_sample_width_is_ceil_log2(ALPHANUMERIC_LEN);
    let w = sample_width(ALPHANUMERIC_LEN);
    assert(two_pow(5) == 32 && two_pow(6) == 64) by {
        reveal_with_fuel(two_pow, 7);
    }
    if w < 6 {
        lemma_two_pow_monotone(w, 5);
    } else if w > 6 {
        lemma_two_pow_monotone(6, (w - 1) as nat);
    }
}

/// With no 6-bit group of value 62 or 63 among the first `4 * k` groups,
/// alphanumeric sampling draws exactly those groups, one after another.
proof fn lemma_draw_sextets(bytes: Seq<u8>, j: nat, m: nat)
    requires
        6 * (j + m) <= 8 * bytes.len(),
        forall|i: int| j <= i < j + m ==> #[trigger] bits_value(bytes, 6 * i, 6) < 62,
    ensures
        draw_samples(bytes, 6 * j, ALPHANUMERIC_LEN, m) == Some(
            Seq::new(m, |i: int| bits_value(bytes, 6 * (j + i), 6) as u32),
        ),
    decreases m,
{
    lemma_width_62();
    if m > 0 {
        assert(bits_value(bytes, 6 * (j as int), 6) < 62);
        assert(sample_spec(bytes, 6 * j, ALPHANUMERIC_LEN) == (Some(bits_value(bytes, 6 * (j as int), 6) as u32), 6 * j + 6));
        lemma_draw_sextets(bytes, j + 1, (m - 1) as nat);
        assert(6 * (j + 1) == 6 * j + 6);
        assert(seq![bits_value(bytes, 6 * (j as int), 6) as u32] + Seq::new(
            (m - 1) as nat,
            |i: int| bits_value(bytes, 6 * ((j + 1) + i), 6) as u32,
        ) =~= Seq::new(m, |i: int| bits_value(bytes, 6 * (j + i), 6) as u32));
    }
}

proof fn lemma_padded_sextets(bytes: Seq<u8>, k: nat, i: int)
    requires
        3 * k <= bytes.len(),
        0 <= i < 4 * k,
    ensures
        bits_value(bytes.take(3 * k as int).push(0u8), 6 * i, 6) == bits_value(bytes, 6 * i, 6),
{
    let padded = bytes.take(3 * k as int).push(0u8);
    assert forall|q: int| 6 * i <= q < 6 * i + 6 implies (#[trigger] (q / 8)) < padded.len() && q / 8 < bytes.len()
        && padded[q / 8] == bytes[q / 8] by {
        assert(q / 8 < 3 * k);
    }
    lemma_bits_value_agree(padded, bytes, 6 * i, 6);
}

/// The alphanumeric and base64 alphabets coincide on `0..62` and both take
/// six bits at a time, most significant first: on input where no 6-bit
/// group is 62 or 63, `4k` alphanumeric characters are exactly the base64
/// encoding of the first `3k` bytes. Only the rejection rule tells them
/// apart.
pub proof fn lemma_alphanumeric_matches_base64(bytes: Seq<u8>, k: nat)
    requires
        k > 0,
        3 * k <= bytes.len(),
        forall|i: int| 0 <= i < 4 * k ==> #[trigger] bits_value(bytes, 6 * i, 6) < 62,
    ensures
        alphanumeric_encoding(bytes, 4 * k) == base64_encoding(bytes, 3 * k),
{
    lemma_draw_sextets(bytes, 0, 4 * k);
    let head = bytes.take(3 * k as int);
    let ds = Seq::new(4 * k, |i: int| bits_value(bytes, 6 * (0 + i), 6) as u32);
    let left = alphanumeric_text(ds);
    let right = base64_text(head);
    assert(head.len() == 3 * k);
    assert((8 * head.len() + 5) / 6 == 4 * k);
    assert(base64_padding(head.len()) == 0);
    assert(right.len() == 4 * k);
    assert forall|i: int| 0 <= i < 4 * k implies #[trigger] left[i] == right[i] by {
        lemma_padded_sextets(bytes, k, i);
        assert(bits_value(bytes, 6 * i, 6) < 62);
    }
    assert(left =~= right);
}
} // verus!
