//! Rounding a fraction to the nearest binary64 value, stated over integers.

use vstd::prelude::*;
use vstd::arithmetic::div_mod::{
    lemma_fundamental_div_mod, lemma_fundamental_div_mod_converse, lemma_mod_pos_bound,
};

verus! {

/// `2^n`.
pub open spec fn pow2(n: nat) -> nat
    decreases n,
{
    if n == 0 {
        1
    } else {
        2 * pow2((n - 1) as nat)
    }
}

/// `base` rounded up by one when the part dropped from it is over a half, or
/// exactly a half and `base` is odd.
pub open spec fn round_up_if(base: int, over_half: bool, half: bool) -> int {
    if over_half || (half && base % 2 == 1) {
        base + 1
    } else {
        base
    }
}

/// The integer nearest to `p / q`, ties to even.
pub open spec fn round_half_even(p: int, q: int) -> int {
    round_up_if(p / q, 2 * (p % q) > q, 2 * (p % q) == q)
}

/// For `p >= q > 0`: the largest `e` with `q·2^e <= p`.
pub open spec fn halvings(p: int, q: int) -> nat
    decreases p - q,
{
    if q <= 0 || p < 2 * q {
        0
    } else {
        1 + halvings(p, 2 * q)
    }
}

/// For `0 < p < q`: the least `t` with `p·2^t >= q`.
pub open spec fn doublings(p: int, q: int) -> nat
    decreases q - p,
{
    if p <= 0 || 2 * p >= q {
        1
    } else {
        1 + doublings(2 * p, q)
    }
}

/// `floor(log2(p / q))` for `p, q > 0`.
pub open spec fn log2_floor(p: int, q: int) -> int {
    if p >= q {
        halvings(p, q) as int
    } else {
        -(doublings(p, q) as int)
    }
}

/// The exponent of `p / q` as a binary64 value `significand · 2^exponent`
/// (53-bit significands; the least exponent is that of the subnormals).
pub open spec fn binary64_exponent(p: int, q: int) -> int {
    let e = log2_floor(p, q);
    (if e < -1022 {
        -1022
    } else {
        e
    }) - 52
}

/// The significand of `p / q` rounded to binary64, ties to even.
pub open spec fn binary64_significand(p: int, q: int) -> int {
    if p == 0 {
        0
    } else {
        let x = binary64_exponent(p, q);
        if x >= 0 {
            round_half_even(p, q * pow2(x as nat))
        } else {
            round_half_even(p * pow2((-x) as nat), q)
        }
    }
}

/// `floor(m · 2^sh)`, for a shift of either sign.
pub open spec fn scale_floor(m: int, sh: int) -> int {
    if sh >= 0 {
        m * pow2(sh as nat)
    } else {
        m / (pow2((-sh) as nat) as int)
    }
}

/// `floor(v · 2^k)` where `v` is `p / q` rounded to binary64. A value too
/// large for binary64 gives a result of at least `2^64` here.
pub open spec fn binary64_scaled_floor(p: int, q: int, k: nat) -> int {
    scale_floor(binary64_significand(p, q), binary64_exponent(p, q) + k)
}

/// Powers of two are positive.
pub proof fn lemma_pow2_positive(n: nat)
    ensures
        pow2(n) >= 1,
    decreases n,
{
    if n > 0 {
        lemma_pow2_positive((n - 1) as nat);
    }
}

proof fn lemma_pow2_one()
    ensures
        pow2(0) == 1,
        pow2(1) == 2,
{
    assert(pow2(0) == 1);
}

/// `2^(a+b) = 2^a · 2^b`.
pub proof fn lemma_pow2_add(a: nat, b: nat)
    ensures
        pow2(a + b) == pow2(a) * pow2(b),
    decreases a,
{
    if a > 0 {
        let c = (a - 1) as nat;
        lemma_pow2_add(c, b);
        let pc = pow2(c);
        let pb = pow2(b);
        assert(pow2(a) == 2 * pc);
        assert(pow2(a + b) == 2 * pow2(c + b));
        assert(2 * (pc * pb) == (2 * pc) * pb) by (nonlinear_arith);
        assert(pow2(a + b) == 2 * (pc * pb));
        assert(pow2(a) * pow2(b) == (2 * pc) * pb);
    } else {
        assert(pow2(a) == 1);
        assert(a + b == b);
    }
}

/// `2^n` grows with `n`.
pub proof fn lemma_pow2_mono(a: nat, b: nat)
    requires
        a <= b,
    ensures
        pow2(a) <= pow2(b),
    decreases b,
{
    if a < b {
        lemma_pow2_mono(a, (b - 1) as nat);
    }
}

/// The bounds that make `e` the floor of `log2(p / q)`.
pub open spec fn log2_bounds(p: int, q: int, e: int) -> bool {
    if e >= 0 {
        q * pow2(e as nat) <= p < q * pow2((e + 1) as nat)
    } else {
        q <= p * pow2((-e) as nat) < 2 * q
    }
}

/// `log2_floor` meets its bounds.
pub proof fn lemma_log2_floor(p: int, q: int)
    requires
        p > 0,
        q > 0,
    ensures
        log2_bounds(p, q, log2_floor(p, q)),
{
    if p >= q {
        lemma_halvings(p, q);
    } else {
        lemma_doublings(p, q);
    }
}

proof fn lemma_halvings(p: int, q: int)
    requires
        p >= q > 0,
    ensures
        q * pow2(halvings(p, q)) <= p < q * pow2(halvings(p, q) + 1),
    decreases p - q,
{
    if p >= 2 * q {
        lemma_halvings(p, 2 * q);
        let h = halvings(p, 2 * q);
        assert(halvings(p, q) == h + 1);
        let a = pow2(h);
        let b = pow2(h + 1);
        let c = pow2(h + 2);
        assert(b == 2 * a);
        assert(c == 2 * b);
        assert(q * b == (2 * q) * a) by (nonlinear_arith)
            requires
                b == 2 * a,
        ;
        assert(q * c == (2 * q) * b) by (nonlinear_arith)
            requires
                c == 2 * b,
        ;
    } else {
        lemma_pow2_one();
        assert(halvings(p, q) == 0);
        assert(q * pow2(0) == q);
        assert(q * pow2(1) == 2 * q);
    }
}

proof fn lemma_doublings(p: int, q: int)
    requires
        0 < p < q,
    ensures
        q <= p * pow2(doublings(p, q)) < 2 * q,
    decreases q - p,
{
    if 2 * p >= q {
        lemma_pow2_one();
        assert(doublings(p, q) == 1);
        assert(p * pow2(1) == 2 * p);
    } else {
        lemma_doublings(2 * p, q);
        let t = doublings(2 * p, q);
        assert(doublings(p, q) == t + 1);
        let a = pow2(t);
        let b = pow2(t + 1);
        assert(b == 2 * a);
        assert(p * b == (2 * p) * a) by (nonlinear_arith)
            requires
                b == 2 * a,
        ;
    }
}

/// An exponent meeting the bounds is the floor of the logarithm.
pub proof fn lemma_log2_floor_unique(p: int, q: int, e: int)
    requires
        p > 0,
        q > 0,
        log2_bounds(p, q, e),
    ensures
        log2_floor(p, q) == e,
    decreases (if e >= 0 {
        e
    } else {
        -e
    }),
{
    if e >= 0 {
        lemma_pow2_positive(e as nat);
        assert(p >= q) by (nonlinear_arith)
            requires
                q * pow2(e as nat) <= p,
                pow2(e as nat) >= 1,
                q > 0,
        ;
        if e == 0 {
            lemma_pow2_one();
        } else {
            assert(pow2(e as nat) == 2 * pow2((e - 1) as nat));
            assert(pow2((e + 1) as nat) == 2 * pow2(e as nat));
            lemma_pow2_positive((e - 1) as nat);
            assert(q * pow2(e as nat) >= 2 * q) by (nonlinear_arith)
                requires
                    pow2(e as nat) == 2 * pow2((e - 1) as nat),
                    pow2((e - 1) as nat) >= 1,
                    q > 0,
            ;
            assert((2 * q) * pow2((e - 1) as nat) == q * pow2(e as nat)) by (nonlinear_arith)
                requires
                    pow2(e as nat) == 2 * pow2((e - 1) as nat),
            ;
            assert((2 * q) * pow2(e as nat) == q * pow2((e + 1) as nat)) by (nonlinear_arith)
                requires
                    pow2((e + 1) as nat) == 2 * pow2(e as nat),
            ;
            lemma_log2_floor_unique(p, 2 * q, e - 1);
            assert(log2_floor(p, 2 * q) == e - 1);
            assert(p >= 2 * q);
            assert(halvings(p, q) == 1 + halvings(p, 2 * q));
        }
    } else {
        let t = (-e) as nat;
        assert(pow2(t) == 2 * pow2((t - 1) as nat));
        lemma_pow2_positive((t - 1) as nat);
        assert(p < q) by (nonlinear_arith)
            requires
                p * pow2(t) < 2 * q,
                pow2(t) == 2 * pow2((t - 1) as nat),
                pow2((t - 1) as nat) >= 1,
                p > 0,
        ;
        if t == 1 {
            lemma_pow2_one();
            assert(2 * p >= q);
        } else {
            assert(pow2((t - 1) as nat) == 2 * pow2((t - 2) as nat));
            lemma_pow2_positive((t - 2) as nat);
            assert(2 * p < q) by (nonlinear_arith)
                requires
                    p * pow2(t) < 2 * q,
                    pow2(t) == 2 * pow2((t - 1) as nat),
                    pow2((t - 1) as nat) == 2 * pow2((t - 2) as nat),
                    pow2((t - 2) as nat) >= 1,
                    p > 0,
            ;
            assert((2 * p) * pow2((t - 1) as nat) == p * pow2(t)) by (nonlinear_arith)
                requires
                    pow2(t) == 2 * pow2((t - 1) as nat),
            ;
            lemma_log2_floor_unique(2 * p, q, e + 1);
            assert(doublings(p, q) == 1 + doublings(2 * p, q));
        }
    }
}

/// For a whole part `i` with `2^e <= i < 2^(e+1)`, `e` is the exponent of
/// `i + f/q`.
pub proof fn lemma_log2_of_whole(i: int, f: int, q: int, e: nat)
    requires
        q > 0,
        0 <= f < q,
        pow2(e) <= i < pow2(e + 1),
    ensures
        log2_bounds(i * q + f, q, e as int),
{
    let pe = pow2(e);
    let pe1 = pow2(e + 1);
    assert(q * pe <= i * q + f) by (nonlinear_arith)
        requires
            pe <= i,
            q > 0,
            f >= 0,
    ;
    assert(i * q + f < q * pe1) by (nonlinear_arith)
        requires
            i + 1 <= pe1,
            q > 0,
            f < q,
    ;
}

/// A value `i + f/q` with its exponent `e` at most 52: the significand is
/// `(i + f/q)·2^(52-e)` rounded, read from `w`, the whole part of
/// `(f/q)·2^(53-e)`, and from whether that product is whole (`ex`).
pub proof fn lemma_multiply_path(i: int, f: int, q: int, e: int, w: int, ex: bool)
    requires
        q > 0,
        0 <= f < q,
        i >= 0,
        i * q + f > 0,
        log2_bounds(i * q + f, q, e),
        -1022 <= e <= 52,
        w == (f * pow2((53 - e) as nat)) / q,
        ex == ((f * pow2((53 - e) as nat)) % q == 0),
    ensures
        binary64_exponent(i * q + f, q) == e - 52,
        0 <= i * pow2((52 - e) as nat) + w / 2 < pow2(53),
        binary64_significand(i * q + f, q) == round_up_if(
            i * pow2((52 - e) as nat) + w / 2,
            w % 2 == 1 && !ex,
            w % 2 == 1 && ex,
        ),
{
    let p = i * q + f;
    lemma_log2_floor_unique(p, q, e);
    let s = (52 - e) as nat;
    let ps = pow2(s);
    lemma_pow2_positive(s);
    assert((53 - e) as nat == s + 1);
    assert(pow2(s + 1) == 2 * ps);
    if e == 52 {
        lemma_pow2_one();
        assert(q * pow2(0) == q);
        assert(s == 0);
        assert(ps == 1);
        assert(p * ps == p) by (nonlinear_arith)
            requires
                ps == 1,
        ;
    }
    assert(binary64_significand(p, q) == round_half_even(p * ps, q));
    let fs = f * ps;
    assert(fs >= 0) by (nonlinear_arith)
        requires
            f >= 0,
            ps >= 1,
            fs == f * ps,
    ;
    let a1 = fs / q;
    let r1 = fs % q;
    lemma_fundamental_div_mod(fs, q);
    lemma_mod_pos_bound(fs, q);
    assert(p * ps == (i * ps + a1) * q + r1) by (nonlinear_arith)
        requires
            p == i * q + f,
            fs == f * ps,
            fs == q * a1 + r1,
    ;
    lemma_fundamental_div_mod_converse(p * ps, q, i * ps + a1, r1);
    let f2 = f * pow2(s + 1);
    assert(f2 == 2 * fs) by (nonlinear_arith)
        requires
            f2 == f * pow2(s + 1),
            pow2(s + 1) == 2 * ps,
            fs == f * ps,
    ;
    if 2 * r1 >= q {
        assert(f2 == (2 * a1 + 1) * q + (2 * r1 - q)) by (nonlinear_arith)
            requires
                f2 == 2 * fs,
                fs == q * a1 + r1,
        ;
        lemma_fundamental_div_mod_converse(f2, q, 2 * a1 + 1, 2 * r1 - q);
    } else {
        assert(f2 == (2 * a1) * q + 2 * r1) by (nonlinear_arith)
            requires
                f2 == 2 * fs,
                fs == q * a1 + r1,
        ;
        lemma_fundamental_div_mod_converse(f2, q, 2 * a1, 2 * r1);
    }
    assert(w / 2 == a1);
    assert(a1 >= 0) by (nonlinear_arith)
        requires
            fs == q * a1 + r1,
            fs >= 0,
            r1 < q,
            q > 0,
    ;
    assert(i * ps >= 0) by (nonlinear_arith)
        requires
            i >= 0,
            ps >= 1,
    ;
    let p53 = pow2(53);
    if e >= 0 {
        lemma_pow2_add((e + 1) as nat, s);
        assert((e + 1) as nat + s == 53);
        assert(p * ps < q * p53) by (nonlinear_arith)
            requires
                p < q * pow2((e + 1) as nat),
                ps >= 1,
                p53 == pow2((e + 1) as nat) * ps,
                q > 0,
        ;
    } else {
        let t = (-e) as nat;
        lemma_pow2_add(52, t);
        assert(52 + t == s);
        assert(p53 == 2 * pow2(52));
        lemma_pow2_positive(52);
        assert(p * ps < q * p53) by (nonlinear_arith)
            requires
                p * pow2(t) < 2 * q,
                ps == pow2(52) * pow2(t),
                p53 == 2 * pow2(52),
                pow2(52) >= 1,
        ;
    }
    assert(i * ps + a1 < p53) by (nonlinear_arith)
        requires
            p * ps == (i * ps + a1) * q + r1,
            r1 >= 0,
            p * ps < q * p53,
            q > 0,
    ;
}

/// A value `i + f/q` with its exponent `e` at least 53: the significand is
/// `i / 2^(e-52)` rounded by the bits dropped from `i` and by whether `f` is
/// zero.
pub proof fn lemma_shift_path(i: int, f: int, q: int, e: int)
    requires
        q > 0,
        0 <= f < q,
        i >= 1,
        log2_bounds(i * q + f, q, e),
        e >= 53,
    ensures
        binary64_exponent(i * q + f, q) == e - 52,
        0 <= i / (pow2((e - 52) as nat) as int) < pow2(53),
        binary64_significand(i * q + f, q) == round_up_if(
            i / (pow2((e - 52) as nat) as int),
            i % (pow2((e - 52) as nat) as int) > pow2((e - 53) as nat) || (i % (pow2((e - 52) as nat) as int)
                == pow2((e - 53) as nat) && f > 0),
            i % (pow2((e - 52) as nat) as int) == pow2((e - 53) as nat) && f == 0,
        ),
{
    let p = i * q + f;
    assert(p > 0) by (nonlinear_arith)
        requires
            i >= 1,
            q > 0,
            f >= 0,
            p == i * q + f,
    ;
    lemma_log2_floor_unique(p, q, e);
    let x = (e - 52) as nat;
    let px = pow2(x) as int;
    let h = pow2((e - 53) as nat) as int;
    assert(px == 2 * h);
    lemma_pow2_positive((e - 53) as nat);
    let d = q * px;
    assert(d > 0) by (nonlinear_arith)
        requires
            q > 0,
            px >= 2,
            d == q * px,
    ;
    assert(binary64_significand(p, q) == round_half_even(p, d));
    let m0 = i / px;
    let b = i % px;
    lemma_fundamental_div_mod(i, px);
    lemma_mod_pos_bound(i, px);
    let r = b * q + f;
    assert(p == m0 * d + r) by (nonlinear_arith)
        requires
            p == i * q + f,
            i == px * m0 + b,
            r == b * q + f,
            d == q * px,
    ;
    assert(0 <= r < d) by (nonlinear_arith)
        requires
            0 <= b < px,
            0 <= f < q,
            r == b * q + f,
            d == q * px,
    ;
    lemma_fundamental_div_mod_converse(p, d, m0, r);
    if b > h {
        assert(2 * r > d) by (nonlinear_arith)
            requires
                b >= h + 1,
                q > 0,
                f >= 0,
                r == b * q + f,
                d == q * px,
                px == 2 * h,
        ;
    } else if b == h {
        assert(2 * r - d == 2 * f) by (nonlinear_arith)
            requires
                b == h,
                r == b * q + f,
                d == q * px,
                px == 2 * h,
        ;
    } else {
        assert(2 * r < d) by (nonlinear_arith)
            requires
                b <= h - 1,
                q > 0,
                f < q,
                r == b * q + f,
                d == q * px,
                px == 2 * h,
        ;
    }
    lemma_pow2_add(53, x);
    assert(53 + x == (e + 1) as nat);
    let p53 = pow2(53);
    assert(i < p53 * px) by (nonlinear_arith)
        requires
            i * q + f < q * pow2((e + 1) as nat),
            pow2((e + 1) as nat) == p53 * px,
            f >= 0,
            q > 0,
    ;
    assert(0 <= m0 < p53) by (nonlinear_arith)
        requires
            i == px * m0 + b,
            0 <= b < px,
            i < p53 * px,
            i >= 1,
            px > 0,
    ;
}

/// Zero rounds to zero.
pub proof fn lemma_zero(q: int, k: nat)
    ensures
        binary64_scaled_floor(0, q, k) == 0,
{
    let sh = binary64_exponent(0, q) + k;
    if sh >= 0 {
        assert(0 * pow2(sh as nat) == 0);
    } else {
        lemma_pow2_positive((-sh) as nat);
        lemma_fundamental_div_mod_converse(0, pow2((-sh) as nat) as int, 0, 0);
    }
}

/// A value below `2^-(k+1)` gives zero once scaled by `2^k`.
pub proof fn lemma_tiny(p: int, q: int, k: nat)
    requires
        p > 0,
        q > 0,
        k <= 51,
        p * pow2(k + 1) < q,
    ensures
        binary64_scaled_floor(p, q, k) == 0,
{
    lemma_pow2_positive(k + 1);
    assert(p < q) by (nonlinear_arith)
        requires
            p * pow2(k + 1) < q,
            pow2(k + 1) >= 1,
            p > 0,
    ;
    assert(log2_floor(p, q) < 0);
    let x = binary64_exponent(p, q);
    assert(x <= -53);
    let u = (-x) as nat;
    let pu = pow2(u);
    assert(binary64_significand(p, q) == round_half_even(p * pu, q));
    let g = (u - k - 1) as nat;
    lemma_pow2_add(k + 1, g);
    assert(k + 1 + g == u);
    lemma_pow2_positive(g);
    let y = p * pu;
    assert(0 <= y < q * pow2(g)) by (nonlinear_arith)
        requires
            p * pow2(k + 1) < q,
            pu == pow2(k + 1) * pow2(g),
            pow2(g) >= 1,
            p > 0,
            y == p * pu,
    ;
    let a = y / q;
    let r = y % q;
    lemma_fundamental_div_mod(y, q);
    lemma_mod_pos_bound(y, q);
    assert(0 <= a < pow2(g)) by (nonlinear_arith)
        requires
            y == q * a + r,
            0 <= r < q,
            0 <= y < q * pow2(g),
            q > 0,
    ;
    let m = binary64_significand(p, q);
    assert(0 <= m <= a + 1);
    assert(pow2(g + 1) == 2 * pow2(g));
    assert((-(x + k)) as nat == g + 1);
    lemma_fundamental_div_mod_converse(m, pow2(g + 1) as int, 0, m);
}

/// A value of at least `2^64` stays at least `2^64` once rounded and scaled.
pub proof fn lemma_huge(p: int, q: int, k: nat)
    requires
        q > 0,
        p >= q * pow2(64),
    ensures
        binary64_scaled_floor(p, q, k) >= pow2(64),
{
    lemma_pow2_positive(64);
    assert(p >= q) by (nonlinear_arith)
        requires
            p >= q * pow2(64),
            pow2(64) >= 1,
            q > 0,
    ;
    lemma_log2_floor(p, q);
    let e = log2_floor(p, q);
    assert(e >= 0);
    assert(pow2(64) < pow2((e + 1) as nat)) by (nonlinear_arith)
        requires
            q * pow2(64) <= p,
            p < q * pow2((e + 1) as nat),
            q > 0,
    ;
    if e + 1 <= 64 {
        lemma_pow2_mono((e + 1) as nat, 64);
    }
    let x = (e - 52) as nat;
    assert(binary64_exponent(p, q) == e - 52);
    let px = pow2(x);
    lemma_pow2_positive(x);
    lemma_pow2_add(52, x);
    assert(52 + x == e as nat);
    let d = q * px;
    assert(d > 0) by (nonlinear_arith)
        requires
            q > 0,
            px >= 1,
            d == q * px,
    ;
    assert(binary64_significand(p, q) == round_half_even(p, d));
    let a = p / d;
    let r = p % d;
    lemma_fundamental_div_mod(p, d);
    lemma_mod_pos_bound(p, d);
    assert(d * pow2(52) <= p) by (nonlinear_arith)
        requires
            q * pow2(e as nat) <= p,
            pow2(e as nat) == pow2(52) * px,
            d == q * px,
    ;
    assert(a >= pow2(52)) by (nonlinear_arith)
        requires
            p == d * a + r,
            r < d,
            d * pow2(52) <= p,
            d > 0,
    ;
    let m = binary64_significand(p, q);
    assert(m >= a);
    let sh = (e - 52 + k) as nat;
    lemma_pow2_mono(12, sh);
    lemma_pow2_add(52, 12);
    lemma_pow2_positive(52);
    assert(m * pow2(sh) >= pow2(64)) by (nonlinear_arith)
        requires
            m >= pow2(52),
            pow2(sh) >= pow2(12),
            pow2(64) == pow2(52) * pow2(12),
            pow2(52) >= 1,
    ;
}

/// A whole number below `2^53`, written as the fraction `n·q / q`, is a
/// binary64 value as it stands.
pub proof fn lemma_whole_value(n: int, q: int, k: nat)
    requires
        1 <= n < pow2(53),
        q >= 1,
    ensures
        binary64_scaled_floor(n * q, q, k) == n * pow2(k),
{
    lemma_log2_floor(n, 1);
    let e = log2_floor(n, 1);
    assert(e >= 0);
    assert(pow2(e as nat) <= n < pow2((e + 1) as nat));
    if e >= 53 {
        lemma_pow2_mono(53, e as nat);
    }
    lemma_log2_of_whole(n, 0, q, e as nat);
    let p = n * q;
    assert(p > 0) by (nonlinear_arith)
        requires
            n >= 1,
            q >= 1,
            p == n * q,
    ;
    lemma_log2_floor_unique(p, q, e);
    let s = (52 - e) as nat;
    let ps = pow2(s);
    lemma_pow2_positive(s);
    if e == 52 {
        lemma_pow2_one();
        assert(q * pow2(0) == q);
        assert(s == 0);
        assert(ps == 1);
        assert(p * ps == p) by (nonlinear_arith)
            requires
                ps == 1,
        ;
    }
    let y = n * ps;
    assert(binary64_significand(p, q) == round_half_even(p * ps, q));
    assert(p * ps == y * q) by (nonlinear_arith)
        requires
            p == n * q,
            y == n * ps,
    ;
    lemma_fundamental_div_mod_converse(p * ps, q, y, 0);
    assert(binary64_significand(p, q) == y);
    assert(binary64_exponent(p, q) + k == k - s);
    if k >= s {
        let g = (k - s) as nat;
        lemma_pow2_add(s, g);
        assert(s + g == k);
        assert(y * pow2(g) == n * pow2(k)) by (nonlinear_arith)
            requires
                y == n * ps,
                pow2(k) == ps * pow2(g),
        ;
    } else {
        let g = (s - k) as nat;
        lemma_pow2_add(k, g);
        assert(k + g == s);
        lemma_pow2_positive(g);
        assert(y == (n * pow2(k)) * pow2(g)) by (nonlinear_arith)
            requires
                y == n * ps,
                ps == pow2(k) * pow2(g),
        ;
        lemma_fundamental_div_mod_converse(y, pow2(g) as int, n * pow2(k), 0);
    }
}

/// The powers of two that sizes use.
pub proof fn lemma_pow2_values()
    ensures
        pow2(10) == 1024,
        pow2(20) == 1048576,
        pow2(30) == 1073741824,
        pow2(40) == 1099511627776,
        pow2(52) == 0x10_0000_0000_0000,
        pow2(53) == 0x20_0000_0000_0000,
        pow2(64) == 0x1_0000_0000_0000_0000,
        pow2(100) == 0x10_0000_0000_0000_0000_0000_0000,
{
    reveal_with_fuel(pow2, 11);
    assert(pow2(10) == 1024);
    lemma_pow2_add(10, 10);
    lemma_pow2_add(20, 10);
    lemma_pow2_add(30, 10);
    lemma_pow2_add(40, 10);
    lemma_pow2_add(50, 2);
    reveal_with_fuel(pow2, 3);
    assert(pow2(2) == 4);
    assert(pow2(52) == 0x10_0000_0000_0000);
    assert(pow2(53) == 2 * pow2(52));
    lemma_pow2_add(52, 12);
    lemma_pow2_add(10, 2);
    lemma_pow2_add(64, 36);
    lemma_pow2_add(30, 6);
    reveal_with_fuel(pow2, 7);
    assert(pow2(6) == 64);
}

/// `round_half_even(p, d)` is within half of `d` of `p / d`:
/// `|round_half_even(p, d)·d - p| <= d/2`.
pub proof fn lemma_round_half_even_close(p: int, d: int)
    requires
        d > 0,
    ensures
        -d <= 2 * (round_half_even(p, d) * d - p) <= d,
{
    let a = p / d;
    let r = p % d;
    lemma_fundamental_div_mod(p, d);
    vstd::arithmetic::div_mod::lemma_mod_bound(p, d);
    let m = round_half_even(p, d);
    if m == a {
        assert(2 * r <= d);
        assert(m * d - p == -r) by (nonlinear_arith)
            requires
                m == a,
                p == d * a + r,
        ;
    } else {
        assert(m == a + 1);
        assert(2 * r >= d);
        assert(m * d - p == d - r) by (nonlinear_arith)
            requires
                m == a + 1,
                p == d * a + r,
        ;
    }
}

/// Reading a value of at least 1 as binary64 and scaling by `2^k` moves it
/// by at most a `2^-53` part, apart from the final rounding down:
/// `2^53·v·q <= (2^53 + 1)·p·2^k` and `2^53·(v + 1)·q >= (2^53 - 1)·p·2^k`
/// for `v = binary64_scaled_floor(p, q, k)`.
pub proof fn lemma_scaled_floor_close(p: int, q: int, k: nat)
    requires
        q > 0,
        p >= q,
    ensures
        0x20_0000_0000_0000 * binary64_scaled_floor(p, q, k) * q <= 0x20_0000_0000_0001 * (p
            * pow2(k)),
        0x20_0000_0000_0000 * (binary64_scaled_floor(p, q, k) + 1) * q >= 0x1f_ffff_ffff_ffff
            * (p * pow2(k)),
{
    lemma_pow2_values();
    lemma_log2_floor(p, q);
    let e = log2_floor(p, q);
    assert(e >= 0);
    let v = binary64_scaled_floor(p, q, k);
    let m = binary64_significand(p, q);
    let pk = pow2(k);
    lemma_pow2_positive(k);
    let p52 = pow2(52);
    if e >= 52 {
        let x = (e - 52) as nat;
        let px = pow2(x);
        lemma_pow2_positive(x);
        let d = q * px;
        assert(d > 0) by (nonlinear_arith)
            requires
                q > 0,
                px >= 1,
                d == q * px,
        ;
        assert(m == round_half_even(p, d));
        lemma_round_half_even_close(p, d);
        lemma_pow2_add(52, x);
        assert(52 + x == e as nat);
        assert(d * p52 <= p) by (nonlinear_arith)
            requires
                q * pow2(e as nat) <= p,
                pow2(e as nat) == p52 * px,
                d == q * px,
        ;
        lemma_pow2_add(x, k);
        assert(v == m * pow2(x + k));
        assert(v * q == (m * d) * pk) by (nonlinear_arith)
            requires
                v == m * pow2(x + k),
                pow2(x + k) == px * pk,
                d == q * px,
        ;
        assert(0x20_0000_0000_0000 * v * q <= 0x20_0000_0000_0001 * (p * pk)) by (nonlinear_arith)
            requires
                v * q == (m * d) * pk,
                2 * (m * d - p) <= d,
                d * p52 <= p,
                p52 == 0x10_0000_0000_0000,
                pk >= 1,
        ;
        assert(0x20_0000_0000_0000 * (v + 1) * q >= 0x1f_ffff_ffff_ffff * (p * pk))
            by (nonlinear_arith)
            requires
                v * q == (m * d) * pk,
                -d <= 2 * (m * d - p),
                d * p52 <= p,
                p52 == 0x10_0000_0000_0000,
                pk >= 1,
                q > 0,
        ;
    } else {
        let s = (52 - e) as nat;
        let ps = pow2(s);
        lemma_pow2_positive(s);
        assert(m == round_half_even(p * ps, q));
        lemma_round_half_even_close(p * ps, q);
        lemma_pow2_add(e as nat, s);
        assert(e as nat + s == 52);
        assert(q * p52 <= p * ps) by (nonlinear_arith)
            requires
                q * pow2(e as nat) <= p,
                p52 == pow2(e as nat) * ps,
                ps >= 1,
        ;
        // v·2^s <= m·2^k < (v + 1)·2^s
        if k >= s {
            let g = (k - s) as nat;
            lemma_pow2_add(s, g);
            assert(s + g == k);
            assert(v == m * pow2(g));
            assert(v * ps == m * pk) by (nonlinear_arith)
                requires
                    v == m * pow2(g),
                    pk == ps * pow2(g),
            ;
            assert((v + 1) * ps == v * ps + ps) by (nonlinear_arith);
        } else {
            let g = (s - k) as nat;
            lemma_pow2_add(k, g);
            assert(k + g == s);
            lemma_pow2_positive(g);
            let pg = pow2(g) as int;
            assert(v == m / pg);
            lemma_fundamental_div_mod(m, pg);
            vstd::arithmetic::div_mod::lemma_mod_bound(m, pg);
            assert(v * ps <= m * pk < (v + 1) * ps) by (nonlinear_arith)
                requires
                    m == pg * v + m % pg,
                    0 <= m % pg < pg,
                    ps == pk * pg,
                    pk >= 1,
            ;
        }
        assert(v * ps <= m * pk < (v + 1) * ps);
        let big = 0x20_0000_0000_0000 * v * q;
        assert(big * ps <= 0x20_0000_0000_0001 * (p * pk) * ps) by (nonlinear_arith)
            requires
                big == 0x20_0000_0000_0000 * v * q,
                v * ps <= m * pk,
                2 * (m * q - p * ps) <= q,
                q * p52 <= p * ps,
                p52 == 0x10_0000_0000_0000,
                pk >= 1,
                q > 0,
        ;
        assert(big <= 0x20_0000_0000_0001 * (p * pk)) by (nonlinear_arith)
            requires
                big * ps <= 0x20_0000_0000_0001 * (p * pk) * ps,
                ps >= 1,
        ;
        let big1 = 0x20_0000_0000_0000 * (v + 1) * q;
        assert(big1 * ps >= 0x1f_ffff_ffff_ffff * (p * pk) * ps) by (nonlinear_arith)
            requires
                big1 == 0x20_0000_0000_0000 * (v + 1) * q,
                m * pk < (v + 1) * ps,
                -q <= 2 * (m * q - p * ps),
                q * p52 <= p * ps,
                p52 == 0x10_0000_0000_0000,
                pk >= 1,
                q > 0,
        ;
        assert(big1 >= 0x1f_ffff_ffff_ffff * (p * pk)) by (nonlinear_arith)
            requires
                big1 * ps >= 0x1f_ffff_ffff_ffff * (p * pk) * ps,
                ps >= 1,
        ;
    }
}

} // verus!
