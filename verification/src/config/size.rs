//! Byte sizes written as `<number><unit>` ("60mb", "1.5gb") and their
//! human-readable rendering.

use vstd::prelude::*;
use vstd::arithmetic::div_mod::{
    lemma_div_denominator, lemma_fundamental_div_mod, lemma_fundamental_div_mod_converse,
    lemma_mod_pos_bound,
};
use crate::config::binary64::{
    binary64_scaled_floor, lemma_huge, lemma_log2_of_whole, lemma_multiply_path,
    lemma_pow2_mono, lemma_pow2_positive, lemma_pow2_values, lemma_shift_path, lemma_tiny,
    lemma_whole_value, lemma_zero, log2_bounds, pow2, round_up_if, scale_floor,
};
use crate::text::{
    ascii_lower, debug_quoted, push_debug_quoted,
    chars_of, decimal, digit_char, lower, lower_range, push_decimal, push_digit, push_str,
    is_space, lemma_lower_idempotent, lemma_trim_idempotent, lemma_trim_lower, range_equals, string_of, trim, trim_end, trim_start,
    trim_range,
};

verus! {

/// A number of bytes.
#[derive(Debug, Clone, Copy, PartialEq, Eq, Default)]
pub struct ByteSize(pub u64);

impl ByteSize {
    pub fn as_u64(self) -> (r: u64)
        ensures
            r == self.0,
    {
        self.0
    }
}

/// Why a size string was refused.
#[derive(Debug, Clone, PartialEq, Eq)]
pub enum SizeError {
    /// Nothing but white space.
    Empty,
    /// The string does not start with a digit or a dot.
    MissingNumber,
    /// The leading digits and dots do not form a decimal number; holds them.
    InvalidNumber(String),
    /// The unit is none of b, kb, mb, gb, tb; holds it, trimmed and lowercased.
    InvalidUnit(String),
}

/// The message a refused size string is reported with; `input` is the
/// string as given.
pub open spec fn size_error_text(e: SizeError, input: Seq<char>) -> Seq<char> {
    match e {
        SizeError::Empty => "invalid size "@ + debug_quoted(input) + " (empty)"@,
        SizeError::MissingNumber => "invalid size "@ + debug_quoted(input)
            + " (expected format: \"60mb\", \"100kb\", \"1gb\")"@,
        SizeError::InvalidNumber(n) => "invalid size number "@ + debug_quoted(n@),
        SizeError::InvalidUnit(u) => "invalid size unit "@ + debug_quoted(u@)
            + " (expected b, kb, mb, gb, tb)"@,
    }
}

impl SizeError {
    /// The message this error is reported with; `input` is the size string
    /// as given.
    pub fn message(&self, input: &str) -> (r: String)
        ensures
            r@ == size_error_text(*self, input@),
    {
        let mut m = String::new();
        match self {
            SizeError::Empty => {
                push_str(&mut m, "invalid size ");
                push_debug_quoted(&mut m, input);
                push_str(&mut m, " (empty)");
            },
            SizeError::MissingNumber => {
                push_str(&mut m, "invalid size ");
                push_debug_quoted(&mut m, input);
                push_str(&mut m, " (expected format: \"60mb\", \"100kb\", \"1gb\")");
            },
            SizeError::InvalidNumber(n) => {
                push_str(&mut m, "invalid size number ");
                push_debug_quoted(&mut m, n.as_str());
            },
            SizeError::InvalidUnit(u) => {
                push_str(&mut m, "invalid size unit ");
                push_debug_quoted(&mut m, u.as_str());
                push_str(&mut m, " (expected b, kb, mb, gb, tb)");
            },
        }
        assert(m@ =~= size_error_text(*self, input@));
        m
    }
}

pub open spec fn is_digit(c: char) -> bool {
    '0' <= c && c <= '9'
}

pub open spec fn is_number_char(c: char) -> bool {
    is_digit(c) || c == '.'
}

pub open spec fn digit_value(c: char) -> nat {
    ((c as u32) - 48) as nat
}

pub open spec fn pow10(n: nat) -> nat
    decreases n,
{
    if n == 0 {
        1
    } else {
        10 * pow10((n - 1) as nat)
    }
}

/// The value of a string of decimal digits (0 for the empty string).
pub open spec fn digits_value(d: Seq<char>) -> nat
    decreases d.len(),
{
    if d.len() == 0 {
        0
    } else {
        10 * digits_value(d.drop_last()) + digit_value(d.last())
    }
}

/// Length of the longest prefix made of digits and dots.
pub open spec fn numeric_prefix_len(t: Seq<char>) -> nat
    decreases t.len(),
{
    if t.len() > 0 && is_number_char(t[0]) {
        1 + numeric_prefix_len(t.drop_first())
    } else {
        0
    }
}

/// Index of the first '.', or the length when there is none.
pub open spec fn first_dot(n: Seq<char>) -> nat
    decreases n.len(),
{
    if n.len() == 0 || n[0] == '.' {
        0
    } else {
        1 + first_dot(n.drop_first())
    }
}

/// A string of digits and dots that reads as a decimal number: nothing after
/// the first dot is another dot, and at least one digit is present.
pub open spec fn well_formed_number(n: Seq<char>) -> bool {
    &&& forall|j: int| first_dot(n) < j < n.len() ==> n[j] != '.'
    &&& exists|j: int| 0 <= j < n.len() && #[trigger] is_digit(n[j])
}

/// Digits before the dot.
pub open spec fn integer_digits(n: Seq<char>) -> Seq<char> {
    n.take(first_dot(n) as int)
}

/// Digits after the dot.
pub open spec fn fraction_digits(n: Seq<char>) -> Seq<char> {
    if first_dot(n) < n.len() {
        n.skip(first_dot(n) as int + 1)
    } else {
        Seq::empty()
    }
}

/// The decimal number `n` as a fraction: this over `number_denominator(n)`.
pub open spec fn number_numerator(n: Seq<char>) -> nat {
    digits_value(integer_digits(n)) * pow10(fraction_digits(n).len()) + digits_value(
        fraction_digits(n),
    )
}

/// `10^d` for `d` digits after the dot.
pub open spec fn number_denominator(n: Seq<char>) -> nat {
    pow10(fraction_digits(n).len())
}

/// Bytes per unit as a power of two (`2^k`); `None` for an unknown unit. No
/// unit means megabytes.
pub open spec fn unit_exponent(u: Seq<char>) -> Option<nat> {
    if u == "tb"@ {
        Some(40)
    } else if u == "gb"@ {
        Some(30)
    } else if u == "mb"@ || u == ""@ {
        Some(20)
    } else if u == "kb"@ {
        Some(10)
    } else if u == "b"@ {
        Some(0)
    } else {
        None
    }
}

/// The number part of a size string.
pub open spec fn size_number(s: Seq<char>) -> Seq<char> {
    trim(s).take(numeric_prefix_len(trim(s)) as int)
}

/// The unit part of a size string, trimmed and lowercased.
pub open spec fn size_unit(s: Seq<char>) -> Seq<char> {
    lower(trim(trim(s).skip(numeric_prefix_len(trim(s)) as int)))
}

/// `s` is a size that `parse_size` accepts.
pub open spec fn size_accepted(s: Seq<char>) -> bool {
    &&& trim(s).len() > 0
    &&& size_number(s).len() > 0
    &&& well_formed_number(size_number(s))
    &&& unit_exponent(size_unit(s)) is Some
}

/// `v` capped at `u64::MAX`.
pub open spec fn saturate(v: int) -> int {
    if v > u64::MAX {
        u64::MAX as int
    } else {
        v
    }
}

/// The bytes that an accepted size stands for: its number read as the
/// nearest binary64 value (ties to even), times the unit, rounded down and
/// saturated at `u64::MAX`.
pub open spec fn size_value(s: Seq<char>) -> int {
    let n = size_number(s);
    saturate(
        binary64_scaled_floor(
            number_numerator(n) as int,
            number_denominator(n) as int,
            unit_exponent(size_unit(s))->0,
        ),
    )
}

proof fn lemma_pow10_positive(n: nat)
    ensures
        pow10(n) >= 1,
    decreases n,
{
    if n > 0 {
        lemma_pow10_positive((n - 1) as nat);
    }
}

proof fn lemma_digit_le_9(c: char)
    requires
        is_digit(c),
    ensures
        digit_value(c) <= 9,
{
}

proof fn lemma_digits_bound(d: Seq<char>)
    requires
        forall|k: int| 0 <= k < d.len() ==> #[trigger] is_digit(d[k]),
    ensures
        digits_value(d) < pow10(d.len()),
    decreases d.len(),
{
    if d.len() > 0 {
        let p = d.drop_last();
        assert forall|k: int| 0 <= k < p.len() implies #[trigger] is_digit(p[k]) by {
            assert(p[k] == d[k]);
        }
        lemma_digits_bound(p);
        assert(is_digit(d[d.len() - 1]));
        lemma_digit_le_9(d.last());
        assert(pow10(d.len()) == 10 * pow10(p.len()));
    }
}

/// The value of a digit string read from its first digit.
proof fn lemma_digits_cons(c: char, t: Seq<char>)
    ensures
        digits_value(seq![c] + t) == digit_value(c) * pow10(t.len()) + digits_value(t),
    decreases t.len(),
{
    let s = seq![c] + t;
    if t.len() == 0 {
        assert(s.drop_last() =~= Seq::<char>::empty());
        assert(s.last() == c);
        assert(digits_value(s) == 10 * digits_value(s.drop_last()) + digit_value(s.last()));
        assert(digits_value(Seq::<char>::empty()) == 0);
        assert(pow10(0) == 1);
        assert(digit_value(c) * pow10(t.len()) == digit_value(c));
        assert(digits_value(t) == 0);
    } else {
        let tl = t.drop_last();
        assert(s.drop_last() =~= seq![c] + tl);
        lemma_digits_cons(c, tl);
        assert(s.last() == t.last());
        let p = pow10(tl.len());
        let dc = digit_value(c);
        assert(pow10(t.len()) == 10 * p);
        assert(digits_value(s.drop_last()) == dc * p + digits_value(tl));
        assert(digits_value(s) == 10 * digits_value(s.drop_last()) + digit_value(s.last()));
        assert(digits_value(t) == 10 * digits_value(tl) + digit_value(t.last()));
        assert(10 * (dc * p) == dc * (10 * p)) by (nonlinear_arith);
        assert(digits_value(s) == dc * pow10(t.len()) + digits_value(t));
    }
}

proof fn lemma_first_dot_at(n: Seq<char>, k: int)
    requires
        0 <= k <= n.len(),
        forall|j: int| 0 <= j < k ==> n[j] != '.',
        k == n.len() || n[k] == '.',
    ensures
        first_dot(n) == k,
    decreases k,
{
    if k > 0 {
        lemma_first_dot_at(n.drop_first(), k - 1);
    }
}

proof fn lemma_numeric_prefix_at(t: Seq<char>, k: int)
    requires
        0 <= k <= t.len(),
        forall|j: int| 0 <= j < k ==> is_number_char(#[trigger] t[j]),
        k == t.len() || !is_number_char(t[k]),
    ensures
        numeric_prefix_len(t) == k,
    decreases k,
{
    if k > 0 {
        lemma_numeric_prefix_at(t.drop_first(), k - 1);
    }
}

/// One step of the fraction scaling, read from the last digit backwards:
/// quotient and remainder of `(d·p + v)·m` by `10·p`.
proof fn lemma_fraction_step(d: nat, v: nat, m: nat, p: nat)
    requires
        p > 0,
        d <= 9,
    ensures
        ((d * p + v) * m) / (p * 10) == (d * m + (v * m) / p) / 10,
        ((d * p + v) * m) % (p * 10) == ((d * m + (v * m) / p) % 10) * p + (v * m) % p,
{
    let vm = (v * m) as int;
    let a = vm / (p as int);
    let r = vm % (p as int);
    lemma_fundamental_div_mod(vm, p as int);
    lemma_mod_pos_bound(vm, p as int);
    let c = d * m + a;
    let b = c / 10;
    let c0 = c % 10;
    lemma_fundamental_div_mod(c, 10);
    lemma_mod_pos_bound(c, 10);
    let x = ((d * p + v) * m) as int;
    assert(x == b * (p * 10) + (c0 * p + r)) by (nonlinear_arith)
        requires
            x == (d * p + v) * m,
            vm == v * m,
            vm == p * a + r,
            c == d * m + a,
            c == 10 * b + c0,
    ;
    assert(0 <= c0 * p + r < p * 10) by (nonlinear_arith)
        requires
            0 <= c0 < 10,
            0 <= r < p,
    ;
    lemma_fundamental_div_mod_converse(x, (p * 10) as int, b, c0 * p + r);
}

fn char_is_number(c: char) -> (r: bool)
    ensures
        r == is_number_char(c),
{
    ('0' <= c && c <= '9') || c == '.'
}

/// `min(digits_value(v[lo..hi]), 2^64)`.
fn capped_digits_value(v: &Vec<char>, lo: usize, hi: usize) -> (r: u128)
    requires
        lo <= hi <= v@.len(),
        forall|k: int| lo <= k < hi ==> is_digit(#[trigger] v@[k]),
    ensures
        r == if digits_value(v@.subrange(lo as int, hi as int)) < 0x1_0000_0000_0000_0000 {
            digits_value(v@.subrange(lo as int, hi as int))
        } else {
            0x1_0000_0000_0000_0000
        },
{
    let cap: u128 = 0x1_0000_0000_0000_0000;
    let mut acc: u128 = 0;
    let mut i = lo;
    proof {
        assert(v@.subrange(lo as int, lo as int) =~= Seq::<char>::empty());
    }
    while i < hi
        invariant
            lo <= i <= hi <= v@.len(),
            cap == 0x1_0000_0000_0000_0000,
            forall|k: int| lo <= k < hi ==> is_digit(#[trigger] v@[k]),
            acc == if digits_value(v@.subrange(lo as int, i as int)) < cap {
                digits_value(v@.subrange(lo as int, i as int))
            } else {
                cap as nat
            },
        decreases hi - i,
    {
        assert(is_digit(v@[i as int]));
        let d = (v[i] as u32 - 48) as u128;
        let ghost prev = v@.subrange(lo as int, i as int);
        let ghost next = v@.subrange(lo as int, i + 1);
        proof {
            assert(next.drop_last() =~= prev);
            assert(next.last() == v@[i as int]);
            assert(d == digit_value(v@[i as int]));
            assert(digits_value(next) == 10 * digits_value(prev) + d);
        }
        let t = acc * 10 + d;
        acc = if t < cap { t } else { cap };
        i += 1;
    }
    acc
}

/// `2^n`.
fn pow2_of(n: u32) -> (r: u128)
    requires
        n <= 100,
    ensures
        r == pow2(n as nat),
{
    let mut r: u128 = 1;
    let mut i: u32 = 0;
    proof {
        lemma_pow2_values();
    }
    while i < n
        invariant
            i <= n <= 100,
            r == pow2(i as nat),
            pow2(100) == 0x10_0000_0000_0000_0000_0000_0000,
        decreases n - i,
    {
        proof {
            lemma_pow2_mono((i + 1) as nat, 100);
            assert(pow2((i + 1) as nat) == 2 * pow2(i as nat));
        }
        r = r * 2;
        i = i + 1;
    }
    r
}

/// For the digits `v[lo..hi]` after a dot, standing for `f / 10^(hi-lo)`:
/// the whole part of `f·2^j / 10^(hi-lo)`, and whether that quotient is exact.
fn fraction_bits(v: &Vec<char>, lo: usize, hi: usize, j: u32) -> (r: (u128, bool))
    requires
        lo <= hi <= v@.len(),
        j <= 94,
        forall|k: int| lo <= k < hi ==> is_digit(#[trigger] v@[k]),
    ensures
        r.0 == (digits_value(v@.subrange(lo as int, hi as int)) * pow2(j as nat)) / pow10(
            (hi - lo) as nat,
        ),
        r.1 == ((digits_value(v@.subrange(lo as int, hi as int)) * pow2(j as nat)) % pow10(
            (hi - lo) as nat,
        ) == 0),
        r.0 < pow2(j as nat),
{
    let m = pow2_of(j);
    proof {
        lemma_pow2_values();
        lemma_pow2_mono(j as nat, 94);
        lemma_pow2_positive(j as nat);
        assert(pow2(100) == pow2(94) * pow2(6)) by {
            crate::config::binary64::lemma_pow2_add(94, 6);
        }
        assert(pow2(6) == 64) by {
            reveal_with_fuel(pow2, 7);
        }
    }
    let mut z: u128 = 0;
    let mut exact = true;
    let mut k = hi;
    proof {
        assert(v@.subrange(hi as int, hi as int) =~= Seq::<char>::empty());
        assert(digits_value(Seq::<char>::empty()) == 0);
        assert(pow10(0) == 1);
        assert(0 * (m as nat) == 0);
    }
    while k > lo
        invariant
            lo <= k <= hi <= v@.len(),
            1 <= m <= 0x4000_0000_0000_0000_0000_0000,
            m == pow2(j as nat),
            forall|i: int| lo <= i < hi ==> is_digit(#[trigger] v@[i]),
            z == (digits_value(v@.subrange(k as int, hi as int)) * (m as nat)) / pow10(
                (hi - k) as nat,
            ),
            exact == ((digits_value(v@.subrange(k as int, hi as int)) * (m as nat)) % pow10(
                (hi - k) as nat,
            ) == 0),
            z < m,
        decreases k,
    {
        assert(is_digit(v@[k - 1]));
        let d = (v[k - 1] as u32 - 48) as u128;
        let ghost tail = v@.subrange(k as int, hi as int);
        let ghost len = (hi - k) as nat;
        let ghost p = pow10(len);
        proof {
            lemma_pow10_positive(len);
            assert(v@.subrange(k - 1, hi as int) =~= seq![v@[k - 1]] + tail);
            lemma_digits_cons(v@[k - 1], tail);
            lemma_fraction_step(d as nat, digits_value(tail), m as nat, p);
            assert(pow10((hi - (k - 1)) as nat) == 10 * p);
            assert(p * 10 == 10 * p);
            assert(d * m + z <= 10 * m) by (nonlinear_arith)
                requires
                    d <= 9,
                    z < m,
            ;
            lemma_digits_bound(v@.subrange(k - 1, hi as int));
            let nv = digits_value(v@.subrange(k - 1, hi as int));
            assert((nv * (m as nat)) / (10 * p) < m) by (nonlinear_arith)
                requires
                    nv < 10 * p,
                    m >= 1,
                    p >= 1,
            ;
            let r0 = (digits_value(tail) * (m as nat)) % p;
            let c0 = ((d * m + z) % 10) as nat;
            assert((c0 * p + r0 == 0) == (c0 == 0 && r0 == 0)) by (nonlinear_arith)
                requires
                    p >= 1,
                    r0 >= 0,
            ;
        }
        let c = d * m + z;
        exact = exact && c % 10 == 0;
        z = c / 10;
        k -= 1;
    }
    (z, exact)
}

/// `lo + first_dot(v[lo..hi])`.
fn find_first_dot(v: &Vec<char>, lo: usize, hi: usize) -> (d: usize)
    requires
        lo <= hi <= v@.len(),
    ensures
        lo <= d <= hi,
        d - lo == first_dot(v@.subrange(lo as int, hi as int)),
        forall|j: int| lo <= j < d ==> v@[j] != '.',
        d < hi ==> v@[d as int] == '.',
{
    let mut d = lo;
    while d < hi && v[d] != '.'
        invariant
            lo <= d <= hi <= v@.len(),
            forall|j: int| lo <= j < d ==> v@[j] != '.',
        decreases hi - d,
    {
        d += 1;
    }
    proof {
        lemma_first_dot_at(v@.subrange(lo as int, hi as int), d - lo);
    }
    d
}

/// Whether `v[lo..hi]`, made of digits and dots with its first dot at `d`,
/// is a well-formed decimal number.
fn number_is_well_formed(v: &Vec<char>, lo: usize, hi: usize, d: usize) -> (r: bool)
    requires
        lo <= d <= hi <= v@.len(),
        d - lo == first_dot(v@.subrange(lo as int, hi as int)),
        forall|j: int| lo <= j < hi ==> is_number_char(#[trigger] v@[j]),
        forall|j: int| lo <= j < d ==> v@[j] != '.',
    ensures
        r == well_formed_number(v@.subrange(lo as int, hi as int)),
{
    let ghost n = v@.subrange(lo as int, hi as int);
    let mut k = lo;
    let mut extra_dot = false;
    let mut digit = false;
    while k < hi
        invariant
            lo <= k <= hi <= v@.len(),
            lo <= d <= hi,
            forall|j: int| lo <= j < hi ==> is_number_char(#[trigger] v@[j]),
            extra_dot == exists|j: int| d < j < k && v@[j] == '.',
            digit == exists|j: int| lo <= j < k && #[trigger] is_digit(v@[j]),
        decreases hi - k,
    {
        assert(is_number_char(v@[k as int]));
        if v[k] == '.' {
            if k > d {
                extra_dot = true;
            }
        } else {
            digit = true;
        }
        k += 1;
    }
    proof {
        if extra_dot {
            let j = choose|j: int| d < j < k && v@[j] == '.';
            assert(n[j - lo] == '.');
        } else {
            assert forall|j: int| first_dot(n) < j < n.len() implies n[j] != '.' by {
                assert(n[j] == v@[lo + j]);
            }
        }
        if digit {
            let j = choose|j: int| lo <= j < k && #[trigger] is_digit(v@[j]);
            assert(is_digit(n[j - lo]));
        } else {
            assert forall|j: int| 0 <= j < n.len() implies !#[trigger] is_digit(n[j]) by {
                assert(n[j] == v@[lo + j]);
            }
        }
    }
    !extra_dot && digit
}

/// `saturate(scale_floor(m, sh))`: a significand placed at its exponent.
fn scale_saturated(m: u128, sh: i32) -> (r: u64)
    requires
        m <= 0x20_0000_0000_0000,
        -100 <= sh <= 60,
    ensures
        r == saturate(scale_floor(m as int, sh as int)),
{
    proof {
        lemma_pow2_values();
    }
    if sh >= 0 {
        let p = pow2_of(sh as u32);
        proof {
            lemma_pow2_mono(sh as nat, 60);
            crate::config::binary64::lemma_pow2_add(40, 20);
            assert(pow2(60) == 0x1000_0000_0000_0000);
            assert(m * p <= 0x20_0000_0000_0000 * 0x1000_0000_0000_0000) by (nonlinear_arith)
                requires
                    m <= 0x20_0000_0000_0000,
                    p <= 0x1000_0000_0000_0000,
            ;
        }
        let v = m * p;
        if v > u64::MAX as u128 {
            u64::MAX
        } else {
            v as u64
        }
    } else {
        let p = pow2_of((-sh) as u32);
        proof {
            lemma_pow2_positive((-sh) as nat);
            vstd::arithmetic::div_mod::lemma_div_is_ordered_by_denominator(m as int, 1, p as int);
        }
        (m / p) as u64
    }
}

/// `round_up_if(base, ..)` with the dropped part described by the bit just
/// below `base` (`half_bit`) and whether anything lies below it (`rest`).
fn round_significand(base: u128, half_bit: bool, rest: bool) -> (r: u128)
    requires
        base < 0x20_0000_0000_0000,
    ensures
        r == round_up_if(base as int, half_bit && rest, half_bit && !rest),
        r <= 0x20_0000_0000_0000,
{
    if half_bit && (rest || base % 2 == 1) {
        base + 1
    } else {
        base
    }
}

/// `saturate(binary64_scaled_floor(..))` for the well-formed number
/// `v[lo..hi]`, whose first dot is at `d`, and the unit `2^k`.
fn number_value(v: &Vec<char>, lo: usize, hi: usize, d: usize, k: u32) -> (r: u64)
    requires
        lo <= d <= hi <= v@.len(),
        d - lo == first_dot(v@.subrange(lo as int, hi as int)),
        forall|j: int| lo <= j < hi ==> is_number_char(#[trigger] v@[j]),
        forall|j: int| lo <= j < d ==> v@[j] != '.',
        well_formed_number(v@.subrange(lo as int, hi as int)),
        k <= 40,
    ensures
        r == saturate(
            binary64_scaled_floor(
                number_numerator(v@.subrange(lo as int, hi as int)) as int,
                number_denominator(v@.subrange(lo as int, hi as int)) as int,
                k as nat,
            ),
        ),
{
    let ghost n = v@.subrange(lo as int, hi as int);
    let fl = if d < hi {
        d + 1
    } else {
        hi
    };
    proof {
        assert forall|j: int| lo <= j < d implies is_digit(#[trigger] v@[j]) by {
            assert(is_number_char(v@[j]));
        }
        assert forall|j: int| fl <= j < hi implies is_digit(#[trigger] v@[j]) by {
            assert(is_number_char(v@[j]));
            assert(n[j - lo] == v@[j]);
        }
        assert(integer_digits(n) =~= v@.subrange(lo as int, d as int));
        assert(fraction_digits(n) =~= v@.subrange(fl as int, hi as int));
        lemma_pow2_values();
    }
    let ghost iv = digits_value(v@.subrange(lo as int, d as int)) as int;
    let ghost fv = digits_value(v@.subrange(fl as int, hi as int)) as int;
    let ghost q = pow10((hi - fl) as nat) as int;
    proof {
        lemma_digits_bound(v@.subrange(fl as int, hi as int));
        lemma_pow10_positive((hi - fl) as nat);
        assert(number_numerator(n) == iv * q + fv);
        assert(number_denominator(n) == q);
    }
    let whole = capped_digits_value(v, lo, d);
    if whole == 0x1_0000_0000_0000_0000 {
        proof {
            assert(iv * q + fv >= q * pow2(64)) by (nonlinear_arith)
                requires
                    iv >= 0x1_0000_0000_0000_0000,
                    pow2(64) == 0x1_0000_0000_0000_0000,
                    q >= 1,
                    fv >= 0,
            ;
            lemma_huge(iv * q + fv, q, k as nat);
        }
        return u64::MAX;
    }
    assert(whole == iv);
    // whether the digits after the dot are all zero
    let (_, frac_zero) = fraction_bits(v, fl, hi, 0);
    proof {
        lemma_pow2_values();
        assert(pow2(0) == 1);
        assert(fv * 1 == fv);
        vstd::arithmetic::div_mod::lemma_small_mod(fv as nat, q as nat);
        assert(frac_zero == (fv == 0));
    }
    if whole == 0 {
        if frac_zero {
            proof {
                lemma_zero(q, k as nat);
                assert(iv * q + fv == 0);
            }
            return 0;
        }
        // the first t with f·2^t >= q
        let mut t: u32 = 1;
        proof {
            assert(fv * pow2(0) < q);
        }
        loop
            invariant
                1 <= t <= k + 2,
                k <= 40,
                fl <= hi <= v@.len(),
                forall|j: int| fl <= j < hi ==> is_digit(#[trigger] v@[j]),
                fv == digits_value(v@.subrange(fl as int, hi as int)),
                q == pow10((hi - fl) as nat),
                q >= 1,
                fv * pow2((t - 1) as nat) < q,
            ensures
                1 <= t <= k + 2,
                fv * pow2((t - 1) as nat) < q,
                t <= k + 1 ==> q <= fv * pow2(t as nat),
            decreases k + 2 - t,
        {
            if t > k + 1 {
                break;
            }
            let (c, _) = fraction_bits(v, fl, hi, t);
            if c >= 1 {
                proof {
                    assert(fv * pow2(t as nat) >= q) by (nonlinear_arith)
                        requires
                            c == (fv * pow2(t as nat)) / q,
                            c >= 1,
                            q >= 1,
                    ;
                }
                break;
            }
            proof {
                assert(fv * pow2(t as nat) < q) by (nonlinear_arith)
                    requires
                        c == (fv * pow2(t as nat)) / q,
                        c == 0,
                        q >= 1,
                        fv * pow2(t as nat) >= 0,
                ;
            }
            t = t + 1;
        }
        if t > k + 1 {
            proof {
                assert(fv * pow2((k + 1) as nat) < q);
                lemma_tiny(fv, q, k as nat);
                assert(iv * q + fv == fv);
            }
            return 0;
        }
        assert(1 <= t <= 41);
        proof {
            assert(pow2(t as nat) == 2 * pow2((t - 1) as nat));
            assert(fv * pow2(t as nat) < 2 * q) by (nonlinear_arith)
                requires
                    pow2(t as nat) == 2 * pow2((t - 1) as nat),
                    fv * pow2((t - 1) as nat) < q,
            ;
            assert(q <= fv * pow2(t as nat) < 2 * q);
            assert(log2_bounds(fv, q, -(t as int)));
        }
        let (w, exact) = fraction_bits(v, fl, hi, 53 + t);
        proof {
            assert((53 - (-(t as int))) as nat == (53 + t) as nat);
            lemma_multiply_path(0, fv, q, -(t as int), w as int, exact);
            assert(0 * q + fv == fv);
            assert(0 * pow2((52 - (-(t as int))) as nat) == 0);
        }
        let m = round_significand(w / 2, w % 2 == 1, !exact);
        scale_saturated(m, -(t as i32) - 52 + k as i32)
    } else {
        // the exponent of the whole part
        let mut e: u32 = 0;
        let mut pe: u128 = 1;
        proof {
            assert(pow2(0) == 1);
        }
        while pe <= whole / 2
            invariant
                1 <= whole < 0x1_0000_0000_0000_0000,
                pe == pow2(e as nat),
                1 <= pe <= whole,
                e <= 63,
                pow2(64) == 0x1_0000_0000_0000_0000,
            decreases whole - pe,
        {
            proof {
                assert(pow2((e + 1) as nat) == 2 * pow2(e as nat));
                if e + 1 >= 64 {
                    lemma_pow2_mono(64, (e + 1) as nat);
                }
            }
            pe = pe * 2;
            e = e + 1;
        }
        proof {
            assert(pow2((e + 1) as nat) == 2 * pow2(e as nat));
            lemma_log2_of_whole(iv, fv, q, e as nat);
        }
        if e <= 52 {
            let (w, exact) = fraction_bits(v, fl, hi, 53 - e);
            let ps = pow2_of(52 - e);
            proof {
                assert(iv * q + fv > 0) by (nonlinear_arith)
                    requires
                        iv >= 1,
                        q >= 1,
                        fv >= 0,
                ;
                assert((53 - e as int) as nat == (53 - e) as nat);
                assert((52 - e as int) as nat == (52 - e) as nat);
                lemma_multiply_path(iv, fv, q, e as int, w as int, exact);
                assert(whole * ps < 0x20_0000_0000_0000) by (nonlinear_arith)
                    requires
                        0 <= iv * ps + w / 2 < 0x20_0000_0000_0000,
                        whole == iv,
                        w >= 0,
                ;
            }
            let m = round_significand(whole * ps + w / 2, w % 2 == 1, !exact);
            scale_saturated(m, e as i32 - 52 + k as i32)
        } else {
            let x = e - 52;
            let px = pow2_of(x);
            let h = pow2_of(x - 1);
            proof {
                lemma_shift_path(iv, fv, q, e as int);
                assert((e as int - 52) as nat == x as nat);
                assert((e as int - 53) as nat == (x - 1) as nat);
                lemma_pow2_positive(x as nat);
            }
            let m0 = whole / px;
            let b = whole % px;
            let over = b > h || (b == h && !frac_zero);
            let half = b == h && frac_zero;
            let m = if over || (half && m0 % 2 == 1) {
                m0 + 1
            } else {
                m0
            };
            scale_saturated(m, x as i32 + k as i32)
        }
    }
}

/// `2^k` bytes per unit for a lowercased unit, or `None`.
fn unit_exponent_of(u: &Vec<char>) -> (r: Option<u32>)
    ensures
        match r {
            Some(k) => unit_exponent(u@) == Some(k as nat) && k <= 40,
            None => unit_exponent(u@) is None,
        },
{
    let n = u.len();
    proof {
        assert(u@.subrange(0, n as int) == u@);
    }
    if range_equals(u, 0, n, "tb") {
        Some(40)
    } else if range_equals(u, 0, n, "gb") {
        Some(30)
    } else if range_equals(u, 0, n, "mb") || range_equals(u, 0, n, "") {
        Some(20)
    } else if range_equals(u, 0, n, "kb") {
        Some(10)
    } else if range_equals(u, 0, n, "b") {
        Some(0)
    } else {
        None
    }
}

/// Parses a size such as "60mb", "1.5gb", "100kb", "1024b" or "2" (megabytes).
/// Surrounding white space is ignored and the unit is case-insensitive. The
/// number is read as the nearest binary64 value and the result is
/// `floor(value × unit)`, saturated at `u64::MAX`.
pub fn parse_size(s: &str) -> (r: Result<u64, SizeError>)
    ensures
        match r {
            Ok(v) => size_accepted(s@) && v == size_value(s@),
            Err(SizeError::Empty) => trim(s@).len() == 0,
            Err(SizeError::MissingNumber) => trim(s@).len() > 0 && size_number(s@).len() == 0,
            Err(SizeError::InvalidNumber(n)) => {
                &&& trim(s@).len() > 0
                &&& size_number(s@).len() > 0
                &&& !well_formed_number(size_number(s@))
                &&& n@ == size_number(s@)
            },
            Err(SizeError::InvalidUnit(u)) => {
                &&& trim(s@).len() > 0
                &&& size_number(s@).len() > 0
                &&& well_formed_number(size_number(s@))
                &&& unit_exponent(size_unit(s@)) is None
                &&& u@ == size_unit(s@)
            },
        },
{
    let cs = chars_of(s);
    proof {
        assert(cs@.subrange(0, cs@.len() as int) == cs@);
    }
    let (a, b) = trim_range(&cs, 0, cs.len());
    let ghost t = cs@.subrange(a as int, b as int);
    if a == b {
        return Err(SizeError::Empty);
    }
    // the number: the longest run of digits and dots
    let mut i = a;
    while i < b && char_is_number(cs[i])
        invariant
            a <= i <= b <= cs@.len(),
            forall|j: int| a <= j < i ==> is_number_char(#[trigger] cs@[j]),
        decreases b - i,
    {
        i += 1;
    }
    proof {
        assert forall|j: int| 0 <= j < i - a implies is_number_char(#[trigger] t[j]) by {
            assert(t[j] == cs@[a + j]);
        }
        lemma_numeric_prefix_at(t, i - a);
        assert(size_number(s@) =~= cs@.subrange(a as int, i as int));
        assert(t.skip(i - a) =~= cs@.subrange(i as int, b as int));
    }
    if i == a {
        return Err(SizeError::MissingNumber);
    }
    let d = find_first_dot(&cs, a, i);
    if !number_is_well_formed(&cs, a, i, d) {
        return Err(SizeError::InvalidNumber(string_of(&cs, a, i)));
    }
    // the unit
    let (ua, ub) = trim_range(&cs, i, b);
    let unit = lower_range(&cs, ua, ub);
    proof {
        assert(unit@.subrange(0, unit@.len() as int) == unit@);
        assert(size_unit(s@) == unit@);
    }
    match unit_exponent_of(&unit) {
        Some(k) => Ok(number_value(&cs, a, i, d, k)),
        None => Err(SizeError::InvalidUnit(string_of(&unit, 0, unit.len()))),
    }
}

/// How many low bits of `b` fall outside the 53-bit significand of a binary64.
pub open spec fn excess_bits(b: nat) -> nat
    decreases b,
{
    if b < 0x20_0000_0000_0000 {
        0
    } else {
        1 + excess_bits(b / 2)
    }
}

/// `b as f64`: the binary64 nearest to `b`, ties to even.
pub open spec fn nearest_f64(b: nat) -> nat {
    let e = excess_bits(b);
    if e == 0 {
        b
    } else {
        let q = b / pow2(e);
        let r = b % pow2(e);
        let h = pow2((e - 1) as nat);
        let q2 = if r > h || (r == h && q % 2 == 1) {
            q + 1
        } else {
            q
        };
        q2 * pow2(e)
    }
}

/// `v / d` in tenths, rounded to nearest with ties to even (what `{:.1}`
/// prints for an exactly representable quotient).
pub open spec fn tenths(v: nat, d: nat) -> nat {
    let q = (10 * v) / d;
    let r = (10 * v) % d;
    if 2 * r > d || (2 * r == d && q % 2 == 1) {
        q + 1
    } else {
        q
    }
}

/// A number of tenths written with one decimal.
pub open spec fn one_decimal(t: nat) -> Seq<char> {
    decimal(t / 10) + seq!['.', digit_char(t % 10)]
}

pub const KIB: u64 = 1024;

pub const MIB: u64 = 1048576;

pub const GIB: u64 = 1073741824;

/// The text `format_size` gives for `b` bytes.
pub open spec fn size_text(b: nat) -> Seq<char> {
    if b >= GIB {
        one_decimal(tenths(nearest_f64(b), GIB as nat)) + " GB"@
    } else if b >= MIB {
        one_decimal(tenths(nearest_f64(b), MIB as nat)) + " MB"@
    } else if b >= KIB {
        one_decimal(tenths(nearest_f64(b), KIB as nat)) + " KB"@
    } else {
        decimal(b) + " B"@
    }
}

/// `nearest_f64(b)`.
fn nearest_binary64(b: u64) -> (r: u128)
    ensures
        r == nearest_f64(b as nat),
        r <= 0x1_0000_0000_0000_0000,
{
    let mut e: u64 = 0;
    let mut p: u64 = 1;
    let mut t: u64 = b;
    proof {
        reveal_with_fuel(pow2, 12);
    }
    while t >= 0x20_0000_0000_0000
        invariant
            p == pow2(e as nat),
            1 <= p,
            e <= 11,
            t == (b as nat) / (p as nat),
            excess_bits(b as nat) == e + excess_bits(t as nat),
        decreases t,
    {
        proof {
            lemma_div_denominator(b as int, p as int, 2);
            assert(b as nat >= t * p) by (nonlinear_arith)
                requires
                    t == (b as nat) / (p as nat),
                    p >= 1,
            ;
            assert(p < 2048) by (nonlinear_arith)
                requires
                    b as nat >= t * p,
                    t >= 0x20_0000_0000_0000,
                    b < 0x1_0000_0000_0000_0000,
                    p >= 1,
            ;
            if e >= 11 {
                lemma_pow2_mono(11, e as nat);
                reveal_with_fuel(pow2, 12);
                assert(pow2(11) == 2048);
            }
        }
        t = t / 2;
        p = p * 2;
        e = e + 1;
    }
    if e == 0 {
        return b as u128;
    }
    let q = b / p;
    let r = b % p;
    let h = p / 2;
    proof {
        assert(pow2((e - 1) as nat) == h);
        lemma_pow2_mono(e as nat, 11);
        reveal_with_fuel(pow2, 12);
        assert(p <= 2048);
        assert(q < 0x20_0000_0000_0000);
        vstd::arithmetic::div_mod::lemma_fundamental_div_mod(b as int, p as int);
        assert(q * p <= b) by (nonlinear_arith)
            requires
                b == p * q + r,
                r >= 0,
        ;
    }
    let q2 = if r > h || (r == h && q % 2 == 1) { q + 1 } else { q };
    proof {
        assert(q2 * p <= 0x1_0000_0000_0000_0000) by (nonlinear_arith)
            requires
                q2 <= q + 1,
                q * p <= b,
                b < 0x1_0000_0000_0000_0000,
                p <= 2048,
                q2 == q || (q2 == q + 1 && q + 1 <= 0x20_0000_0000_0000),
        ;
    }
    (q2 as u128) * (p as u128)
}

/// `tenths(v, d)`.
fn tenths_of(v: u128, d: u128) -> (r: u128)
    requires
        v <= 0x1_0000_0000_0000_0000,
        1024 <= d <= 0x4000_0000,
    ensures
        r == tenths(v as nat, d as nat),
        r / 10 <= u64::MAX,
{
    let n = 10 * v;
    let q = n / d;
    let r = n % d;
    proof {
        vstd::arithmetic::div_mod::lemma_mod_pos_bound(n as int, d as int);
        assert(q <= n / 1024) by {
            vstd::arithmetic::div_mod::lemma_div_is_ordered_by_denominator(n as int, 1024, d as int);
        }
    }
    if 2 * r > d || (2 * r == d && q % 2 == 1) {
        q + 1
    } else {
        q
    }
}

/// Appends a number of tenths with one decimal.
fn push_one_decimal(s: &mut String, t: u128)
    requires
        t / 10 <= u64::MAX,
    ensures
        final(s)@ == old(s)@ + one_decimal(t as nat),
{
    push_decimal(s, (t / 10) as u64);
    s.push('.');
    push_digit(s, (t % 10) as u64);
    assert(s@ =~= old(s)@ + one_decimal(t as nat));
}

/// Renders a byte count: "1.5 GB", "60.0 MB", "100.0 KB" or "512 B", with
/// binary units and one decimal.
pub fn format_size(bytes: u64) -> (r: String)
    ensures
        r@ == size_text(bytes as nat),
{
    let mut s = String::new();
    let f = nearest_binary64(bytes);
    if bytes >= GIB {
        push_one_decimal(&mut s, tenths_of(f, GIB as u128));
        push_str(&mut s, " GB");
    } else {
        proof {
            assert(excess_bits(bytes as nat) == 0);
        }
        if bytes >= MIB {
            push_one_decimal(&mut s, tenths_of(f, MIB as u128));
            push_str(&mut s, " MB");
        } else if bytes >= KIB {
            push_one_decimal(&mut s, tenths_of(f, KIB as u128));
            push_str(&mut s, " KB");
        } else {
            push_decimal(&mut s, bytes);
            push_str(&mut s, " B");
        }
    }
    assert(s@ =~= size_text(bytes as nat));
    s
}

/// Surrounding white space never changes what a size string means: `s` and
/// its trimmed form are accepted or refused alike and stand for the same bytes.
pub proof fn lemma_size_ignores_surrounding_space(s: Seq<char>)
    ensures
        trim(trim(s)) == trim(s),
        size_number(trim(s)) == size_number(s),
        size_unit(trim(s)) == size_unit(s),
        size_accepted(trim(s)) == size_accepted(s),
        size_value(trim(s)) == size_value(s),
{
    lemma_trim_idempotent(s);
}

proof fn lemma_decimal_digits(n: nat)
    ensures
        decimal(n).len() >= 1,
        forall|k: int| 0 <= k < decimal(n).len() ==> #[trigger] is_digit(decimal(n)[k]),
        digits_value(decimal(n)) == n,
    decreases n,
{
    let d = digit_char(n % 10);
    assert(digit_value(d) == n % 10);
    if n < 10 {
        assert(seq![d].drop_last() =~= Seq::<char>::empty());
        assert(digits_value(Seq::<char>::empty()) == 0);
        assert(seq![d].last() == d);
        assert(digits_value(seq![d]) == 10 * digits_value(seq![d].drop_last()) + digit_value(d));
    } else {
        lemma_decimal_digits(n / 10);
        let p = decimal(n / 10);
        assert(decimal(n) == p.push(d));
        assert(p.push(d).drop_last() =~= p);
        assert(p.push(d).last() == d);
        assert(digits_value(p.push(d)) == 10 * digits_value(p) + digit_value(d));
        assert(n == 10 * (n / 10) + n % 10);
        assert forall|k: int| 0 <= k < decimal(n).len() implies #[trigger] is_digit(decimal(n)[k]) by {
            if k < p.len() {
                assert(decimal(n)[k] == p[k]);
            }
        }
    }
}

/// A size under one KiB is written as its bytes and reads back exactly:
/// `parse_size(format_size(b)) == Ok(b)`.
pub proof fn lemma_small_size_round_trip(b: nat)
    requires
        b < KIB,
    ensures
        size_text(b) == decimal(b) + " B"@,
        size_accepted(size_text(b)),
        size_value(size_text(b)) == b,
{
    reveal_strlit(" B");
    reveal_strlit("B");
    reveal_strlit("b");
    reveal_strlit("tb");
    reveal_strlit("gb");
    reveal_strlit("mb");
    reveal_strlit("kb");
    reveal_strlit("");
    let dec = decimal(b);
    let s = dec + " B"@;
    lemma_decimal_digits(b);
    assert(size_text(b) == s);
    // nothing to trim: a digit first, 'B' last
    assert(s[0] == dec[0]);
    assert(is_digit(dec[0]));
    assert(trim_start(s) == s);
    assert(s.last() == 'B');
    assert(trim_end(s) == s);
    assert(trim(s) == s);
    // the number is the digits
    assert forall|j: int| 0 <= j < dec.len() implies is_number_char(#[trigger] s[j]) by {
        assert(s[j] == dec[j]);
        assert(is_digit(dec[j]));
    }
    assert(s[dec.len() as int] == ' ');
    lemma_numeric_prefix_at(s, dec.len() as int);
    assert(s.take(dec.len() as int) =~= dec);
    assert(size_number(s) == dec);
    assert forall|j: int| 0 <= j < dec.len() implies dec[j] != '.' by {
        assert(is_digit(dec[j]));
    }
    lemma_first_dot_at(dec, dec.len() as int);
    assert(is_digit(dec[0]));
    assert(well_formed_number(dec));
    assert(integer_digits(dec) =~= dec);
    assert(fraction_digits(dec) =~= Seq::<char>::empty());
    // the unit is "b"
    let u = " B"@;
    assert(s.skip(dec.len() as int) =~= u);
    assert(is_space(u[0]));
    assert(u.drop_first() =~= "B"@);
    assert(trim_start("B"@) == "B"@);
    assert(trim_start(u) == "B"@);
    assert(trim_end("B"@) == "B"@);
    assert(lower("B"@) =~= "b"@);
    assert(size_unit(s) == "b"@);
    assert(unit_exponent("b"@) == Some(0nat));
    assert(digits_value(Seq::<char>::empty()) == 0);
    assert(pow10(0) == 1);
    assert(number_numerator(dec) == b);
    assert(number_denominator(dec) == 1);
    if b == 0 {
        lemma_zero(1, 0);
    } else {
        lemma_pow2_values();
        lemma_whole_value(b as int, 1, 0);
        assert(b * 1 == b);
        assert(pow2(0) == 1);
    }
}

/// How a text `w.d <c>B` reads as a size.
proof fn lemma_one_decimal_text(w: nat, d: nat, c: char)
    requires
        d < 10,
        !is_space(c),
    ensures
        ({
            let s = one_decimal(10 * w + d) + seq![' ', c, 'B'];
            let n = decimal(w) + seq!['.', digit_char(d)];
            &&& trim(s) == s
            &&& size_number(s) == n
            &&& well_formed_number(n)
            &&& number_numerator(n) == 10 * w + d
            &&& number_denominator(n) == 10
            &&& size_unit(s) == lower(seq![c, 'B'])
        }),
{
    let t = 10 * w + d;
    assert(t / 10 == w && t % 10 == d);
    let dec = decimal(w);
    lemma_decimal_digits(w);
    let dc = digit_char(d);
    assert(dc as u32 == d + 48);
    assert(is_digit(dc));
    assert(digit_value(dc) == d);
    let num = dec + seq!['.', dc];
    assert(one_decimal(t) == num);
    let tail = seq![' ', c, 'B'];
    let s = num + tail;
    assert(s[0] == dec[0]);
    assert(is_digit(dec[0]));
    assert(trim_start(s) == s);
    assert(s.last() == 'B');
    assert(trim_end(s) == s);
    assert forall|j: int| 0 <= j < num.len() implies is_number_char(#[trigger] s[j]) by {
        if j < dec.len() {
            assert(s[j] == dec[j]);
            assert(is_digit(dec[j]));
        } else if j == dec.len() {
            assert(s[j] == '.');
        } else {
            assert(s[j] == dc);
        }
    }
    assert(s[num.len() as int] == ' ');
    lemma_numeric_prefix_at(s, num.len() as int);
    assert(s.take(num.len() as int) =~= num);
    assert(size_number(s) == num);
    assert forall|j: int| 0 <= j < dec.len() implies num[j] != '.' by {
        assert(num[j] == dec[j]);
        assert(is_digit(dec[j]));
    }
    assert(num[dec.len() as int] == '.');
    lemma_first_dot_at(num, dec.len() as int);
    assert(num[dec.len() + 1int] == dc);
    assert(is_digit(num[0]));
    assert(well_formed_number(num));
    assert(integer_digits(num) =~= dec);
    assert(fraction_digits(num) =~= seq![dc]);
    assert(seq![dc].drop_last() =~= Seq::<char>::empty());
    assert(seq![dc].last() == dc);
    assert(digits_value(Seq::<char>::empty()) == 0);
    assert(digits_value(seq![dc]) == 10 * digits_value(Seq::<char>::empty()) + digit_value(dc));
    assert(pow10(0) == 1);
    assert(pow10(1) == 10);
    assert(digits_value(dec) == w);
    assert(number_numerator(num) == w * 10 + d);
    assert(s.skip(num.len() as int) =~= tail);
    let cb = seq![c, 'B'];
    assert(tail.drop_first() =~= cb);
    assert(is_space(tail[0]));
    assert(cb[0] == c);
    assert(trim_start(cb) == cb);
    assert(trim_start(tail) == cb);
    assert(cb.last() == 'B');
    assert(trim_end(cb) == cb);
}

/// `excess_bits(b) <= m` below `2^(53+m)`.
proof fn lemma_excess_bits_bound(b: nat, m: nat)
    requires
        b < pow2(53 + m),
    ensures
        excess_bits(b) <= m,
    decreases m,
{
    lemma_pow2_values();
    if b >= 0x20_0000_0000_0000 {
        if m == 0 {
            assert(false);
        } else {
            assert(pow2(53 + m) == 2 * pow2((52 + m) as nat));
            lemma_excess_bits_bound(b / 2, (m - 1) as nat);
        }
    }
}

/// A multiple of `2^30` below `2^64` converts to binary64 exactly.
proof fn lemma_nearest_f64_exact(n: nat)
    requires
        n * 1073741824 <= u64::MAX,
    ensures
        nearest_f64(n * 1073741824) == n * 1073741824,
{
    let b = n * 1073741824;
    lemma_pow2_values();
    crate::config::binary64::lemma_pow2_add(53, 11);
    lemma_excess_bits_bound(b, 11);
    let e = excess_bits(b);
    if e > 0 {
        let g = (30 - e) as nat;
        crate::config::binary64::lemma_pow2_add(g, e);
        assert(g + e == 30);
        lemma_pow2_positive(e);
        lemma_pow2_positive((e - 1) as nat);
        assert(b == (n * pow2(g)) * pow2(e)) by (nonlinear_arith)
            requires
                b == n * 1073741824,
                pow2(30) == pow2(g) * pow2(e),
                pow2(30) == 1073741824,
        ;
        lemma_fundamental_div_mod_converse(b as int, pow2(e) as int, (n * pow2(g)) as int, 0);
    }
}

/// `b as f64` is `b` below `2^53` and within 2048 of `b` above.
proof fn lemma_nearest_f64_close(b: nat)
    requires
        b <= u64::MAX,
    ensures
        b < 0x20_0000_0000_0000 ==> nearest_f64(b) == b,
        b <= nearest_f64(b) + 2048,
        nearest_f64(b) <= b + 2048,
{
    lemma_pow2_values();
    crate::config::binary64::lemma_pow2_add(53, 11);
    lemma_excess_bits_bound(b, 11);
    let e = excess_bits(b);
    if e > 0 {
        let pe = pow2(e);
        lemma_pow2_mono(e, 11);
        assert(pow2(11) == 2048) by {
            reveal_with_fuel(pow2, 12);
        }
        lemma_pow2_positive(e);
        let q = b / pe;
        let r = b % pe;
        lemma_fundamental_div_mod(b as int, pe as int);
        lemma_mod_pos_bound(b as int, pe as int);
        let f = nearest_f64(b);
        let hh = pow2((e - 1) as nat);
        let q2 = if r > hh || (r == hh && q % 2 == 1) {
            q + 1
        } else {
            q
        };
        assert(f == q2 * pe);
        assert(q * pe <= f <= (q + 1) * pe) by (nonlinear_arith)
            requires
                q <= q2 <= q + 1,
                f == q2 * pe,
                pe >= 1,
        ;
        assert(b - 2048 <= f <= b + 2048) by (nonlinear_arith)
            requires
                b == pe * q + r,
                0 <= r < pe,
                pe <= 2048,
                q * pe <= f <= (q + 1) * pe,
        ;
    }
}

/// The unit a size of at least 1 KiB is written in.
pub open spec fn display_unit(b: nat) -> nat {
    if b >= GIB {
        GIB as nat
    } else if b >= MIB {
        MIB as nat
    } else {
        KIB as nat
    }
}

/// The one decimal that `format_size` writes is the ratio to its unit
/// rounded to a tenth: within half a tenth of it below `2^53` bytes, and
/// within half a tenth plus ten times the float conversion error of `b`
/// (at most 2048 bytes) above.
pub proof fn lemma_format_size_close(b: nat)
    requires
        KIB <= b <= u64::MAX,
    ensures
        ({
            let u = display_unit(b);
            let t = tenths(nearest_f64(b), u);
            &&& size_text(b) == one_decimal(t) + (if b >= GIB {
                " GB"@
            } else if b >= MIB {
                " MB"@
            } else {
                " KB"@
            })
            &&& -(u as int) - 40960 <= 2 * (t * u - 10 * b) <= u + 40960
            &&& b < 0x20_0000_0000_0000 ==> -(u as int) <= 2 * (t * u - 10 * b) <= u
        }),
{
    let u = display_unit(b);
    let f = nearest_f64(b);
    lemma_nearest_f64_close(b);
    assert(tenths(f, u) == crate::config::binary64::round_half_even((10 * f) as int, u as int));
    crate::config::binary64::lemma_round_half_even_close((10 * f) as int, u as int);
    let t = tenths(f, u);
    assert(-(u as int) <= 2 * (t * u - 10 * f) <= u);
    assert(b - 2048 <= f <= b + 2048);
}

/// The bytes read back from a size written in the unit `u = 2^j <= b` lie
/// within `b/16 + 1` of `b`.
proof fn lemma_unit_text_close(b: nat, u: nat, j: nat)
    requires
        b <= u64::MAX,
        u == pow2(j),
        1024 <= u <= b,
    ensures
        ({
            let v = saturate(binary64_scaled_floor(tenths(nearest_f64(b), u) as int, 10, j));
            b - b / 16 - 1 <= v <= b + b / 16 + 1
        }),
{
    lemma_pow2_values();
    let f = nearest_f64(b);
    let t = tenths(f, u);
    let h = b / 16;
    assert(16 * h <= b < 16 * h + 16);
    lemma_nearest_f64_close(b);
    assert(tenths(f, u) == crate::config::binary64::round_half_even((10 * f) as int, u as int));
    crate::config::binary64::lemma_round_half_even_close((10 * f) as int, u as int);
    let x = t * u;
    assert(-(u as int) <= 2 * (x - 10 * f) <= u);
    assert(u <= b);
    assert(t >= 10) by (nonlinear_arith)
        requires
            x == t * u,
            2 * (x - 10 * f) >= -(u as int),
            b <= f + 2048,
            u <= b,
            u >= 1024,
            b < 0x20_0000_0000_0000 ==> f == b,
            t >= 0,
    ;
    crate::config::binary64::lemma_scaled_floor_close(t as int, 10, j);
    let v = binary64_scaled_floor(t as int, 10, j);
    assert(0x20_0000_0000_0000 * v * 10 <= 0x20_0000_0000_0001 * x) by (nonlinear_arith)
        requires
            0x20_0000_0000_0000 * v * 10 <= 0x20_0000_0000_0001 * (t * pow2(j)),
            x == t * u,
            u == pow2(j),
    ;
    assert(0x20_0000_0000_0000 * (v + 1) * 10 >= 0x1f_ffff_ffff_ffff * x) by (nonlinear_arith)
        requires
            0x20_0000_0000_0000 * (v + 1) * 10 >= 0x1f_ffff_ffff_ffff * (t * pow2(j)),
            x == t * u,
            u == pow2(j),
    ;
    assert(v <= b + h + 1) by (nonlinear_arith)
        requires
            0x20_0000_0000_0000 * v * 10 <= 0x20_0000_0000_0001 * x,
            2 * (x - 10 * f) <= u,
            f <= b + 2048,
            b < 0x20_0000_0000_0000 ==> f == b,
            u <= b,
            16 * h + 16 > b,
    ;
    assert(v >= b - h - 1) by (nonlinear_arith)
        requires
            0x20_0000_0000_0000 * (v + 1) * 10 >= 0x1f_ffff_ffff_ffff * x,
            -(u as int) <= 2 * (x - 10 * f),
            b <= f + 2048,
            b < 0x20_0000_0000_0000 ==> f == b,
            u <= b,
            u >= 1024,
            16 * h + 16 > b,
    ;
}

/// A whole number of units `u = 2^j` is written as `n.0` and reads back exactly.
proof fn lemma_unit_text_exact(b: nat, u: nat, j: nat)
    requires
        b <= u64::MAX,
        u == pow2(j),
        1024 <= u <= b,
        u == GIB || b < GIB,
        u >= MIB || b < MIB,
        b % u == 0,
    ensures
        tenths(nearest_f64(b), u) == 10 * (b / u),
        saturate(binary64_scaled_floor((10 * (b / u)) as int, 10, j)) == b,
{
    lemma_pow2_values();
    let f = nearest_f64(b);
    let t = tenths(f, u);
    let n = b / u;
    lemma_fundamental_div_mod(b as int, u as int);
    assert(b == n * u);
    assert(n >= 1) by (nonlinear_arith)
        requires
            b == n * u,
            b >= u,
            u >= 1,
            n >= 0,
    ;
    if b >= GIB {
        assert(u == GIB);
        lemma_nearest_f64_exact(n);
    } else {
        assert(excess_bits(b) == 0);
    }
    assert(f == b);
    assert(10 * b == (10 * n) * u) by (nonlinear_arith)
        requires
            b == n * u,
    ;
    lemma_fundamental_div_mod_converse((10 * b) as int, u as int, (10 * n) as int, 0);
    assert(t == 10 * n);
    assert(n < pow2(53)) by (nonlinear_arith)
        requires
            b == n * u,
            u >= 1024,
            u >= 1048576 || b < 1048576,
            b <= u64::MAX,
            pow2(53) == 0x20_0000_0000_0000,
    ;
    lemma_whole_value(n as int, 10, j);
    assert(n * 10 == 10 * n);
    assert(n * pow2(j) == b);
}

/// Every size's text reads back: `parse_size(format_size(b))` succeeds, lies
/// within `b/16 + 1` of `b`, and is exactly `b` for fewer than 1024 bytes and
/// for whole numbers of the unit the text is written in.
pub proof fn lemma_size_text_round_trip(b: nat)
    requires
        b <= u64::MAX,
    ensures
        size_accepted(size_text(b)),
        b - b / 16 - 1 <= size_value(size_text(b)) <= b + b / 16 + 1,
        (b < KIB || (b % (KIB as nat) == 0 && b < MIB) || (b % (MIB as nat) == 0 && b < GIB)
            || b % (GIB as nat) == 0) ==> size_value(size_text(b)) == b,
{
    reveal_strlit(" GB");
    reveal_strlit(" MB");
    reveal_strlit(" KB");
    reveal_strlit("gb");
    reveal_strlit("mb");
    reveal_strlit("kb");
    reveal_strlit("tb");
    reveal_strlit("b");
    reveal_strlit("");
    lemma_pow2_values();
    if b < KIB {
        lemma_small_size_round_trip(b);
        return;
    }
    let (u, c, j) = if b >= GIB {
        (GIB as nat, 'G', 30nat)
    } else if b >= MIB {
        (MIB as nat, 'M', 20nat)
    } else {
        (KIB as nat, 'K', 10nat)
    };
    assert(u == pow2(j));
    let f = nearest_f64(b);
    let t = tenths(f, u);
    let w = t / 10;
    let d = t % 10;
    assert(t == 10 * w + d);
    assert(!is_space(c));
    lemma_one_decimal_text(w, d, c);
    assert(seq![' ', c, 'B'] == (if b >= GIB {
        " GB"@
    } else if b >= MIB {
        " MB"@
    } else {
        " KB"@
    }));
    assert(size_text(b) == one_decimal(t) + seq![' ', c, 'B']);
    let s = size_text(b);
    assert(lower(seq![c, 'B']) =~= seq![ascii_lower(c), 'b']);
    if b >= GIB {
        assert(ascii_lower('G') == 'g');
        assert(seq!['g', 'b'] =~= "gb"@);
    } else if b >= MIB {
        assert(ascii_lower('M') == 'm');
        assert(seq!['m', 'b'] =~= "mb"@);
    } else {
        assert(ascii_lower('K') == 'k');
        assert(seq!['k', 'b'] =~= "kb"@);
    }
    assert(unit_exponent(size_unit(s)) == Some(j));
    lemma_unit_text_close(b, u, j);
    assert(size_value(s) == saturate(binary64_scaled_floor(t as int, 10, j)));
    if b % u == 0 {
        lemma_unit_text_exact(b, u, j);
    }
}

proof fn lemma_numeric_prefix_lower(t: Seq<char>)
    ensures
        numeric_prefix_len(lower(t)) == numeric_prefix_len(t),
    decreases t.len(),
{
    if t.len() > 0 {
        assert(lower(t).drop_first() =~= lower(t.drop_first()));
        lemma_numeric_prefix_lower(t.drop_first());
        let c = t[0];
        if 'A' <= c && c <= 'Z' {
            assert(crate::text::ascii_lower(c) as u32 == (c as u32) + 32);
        }
    }
}

proof fn lemma_numeric_prefix_bound(t: Seq<char>)
    ensures
        numeric_prefix_len(t) <= t.len(),
        forall|j: int| 0 <= j < numeric_prefix_len(t) ==> #[trigger] is_number_char(t[j]),
    decreases t.len(),
{
    if t.len() > 0 && is_number_char(t[0]) {
        lemma_numeric_prefix_bound(t.drop_first());
        assert forall|j: int| 0 <= j < numeric_prefix_len(t) implies #[trigger] is_number_char(t[j]) by {
            if j > 0 {
                assert(t[j] == t.drop_first()[j - 1]);
            }
        }
    }
}

/// A size string means the same whatever the ASCII case of its letters:
/// `s` and its lowercase are accepted or refused alike and stand for the
/// same bytes.
pub proof fn lemma_size_ignores_ascii_case(s: Seq<char>)
    ensures
        size_number(lower(s)) == size_number(s),
        size_unit(lower(s)) == size_unit(s),
        size_accepted(lower(s)) == size_accepted(s),
        size_value(lower(s)) == size_value(s),
{
    let t = trim(s);
    lemma_trim_lower(s);
    assert(trim(lower(s)) == lower(t));
    lemma_numeric_prefix_lower(t);
    let k = numeric_prefix_len(t);
    lemma_numeric_prefix_bound(t);
    assert(lower(t).take(k as int) =~= t.take(k as int)) by {
        assert forall|j: int| 0 <= j < k implies lower(t)[j] == t[j] by {
            assert(is_number_char(t[j]));
        }
    }
    assert(lower(t).skip(k as int) =~= lower(t.skip(k as int)));
    lemma_trim_lower(t.skip(k as int));
    lemma_lower_idempotent(trim(t.skip(k as int)));
}

} // verus!
