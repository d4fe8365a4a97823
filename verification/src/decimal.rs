//! Exact fixed-point decimal numbers.
//!
//! A [`Dec`] holds an integer mantissa `m` and a scale `s` (number of
//! fractional digits) and denotes the value `m / 10^s`. Scales run up to
//! [`S_MAX`] digits, and every value is kept within [`M_MAX`] units of
//! `10^-S_MAX`, so all arithmetic is carried out exactly in `i128` with
//! room to spare. Values are kept normalized (no trailing fractional
//! zeros), so structural equality coincides with numeric equality.

use vstd::prelude::*;

verus! {

/// Maximum number of fractional digits.
pub const S_MAX: u32 = 9;

/// `10^S_MAX`: one whole unit measured in smallest fractions.
pub const P9: i128 = 1_000_000_000;

/// Magnitude bound: every value is at most `M_MAX` fractions of `10^-9`,
/// that is four billion whole units.
pub const M_MAX: i128 = 4_000_000_000_000_000_000;

/// `10^k` as a mathematical integer.
pub open spec fn pow10(k: nat) -> int
    decreases k,
{
    if k == 0 {
        1
    } else {
        10 * pow10((k - 1) as nat)
    }
}

/// Powers of ten are positive.
pub proof fn lemma_pow10_pos(k: nat)
    ensures
        pow10(k) >= 1,
    decreases k,
{
    if k > 0 {
        lemma_pow10_pos((k - 1) as nat);
    }
}

/// `10^(a+b) == 10^a * 10^b`.
pub proof fn lemma_pow10_adds(a: nat, b: nat)
    ensures
        pow10(a + b) == pow10(a) * pow10(b),
    decreases a,
{
    if a > 0 {
        lemma_pow10_adds((a - 1) as nat, b);
        assert(pow10((a - 1) as nat + b) == pow10((a - 1) as nat) * pow10(b));
        assert(pow10(a + b) == 10 * pow10((a - 1) as nat + b));
        assert(10 * (pow10((a - 1) as nat) * pow10(b)) == (10 * pow10((a - 1) as nat)) * pow10(
            b,
        )) by (nonlinear_arith);
    }
}

/// `10^9` written out.
pub proof fn lemma_pow10_9()
    ensures
        pow10(S_MAX as nat) == 1_000_000_000int,
{
    reveal_with_fuel(pow10, 11);
}

/// Powers of ten do not decrease with the exponent.
pub proof fn lemma_pow10_le(a: nat, b: nat)
    requires
        a <= b,
    ensures
        pow10(a) <= pow10(b),
{
    lemma_pow10_adds(a, (b - a) as nat);
    lemma_pow10_pos(a);
    lemma_pow10_pos((b - a) as nat);
    assert(pow10(a) * pow10((b - a) as nat) >= pow10(a) * 1) by (nonlinear_arith)
        requires
            pow10(a) >= 1 && pow10((b - a) as nat) >= 1,
    ;
}

/// Rounding division for a non-negative dividend and positive divisor:
/// the nearest integer to `n / d`, ties away from zero.
pub open spec fn rdiv_nn(n: int, d: int) -> int {
    (2 * n + d) / (2 * d)
}

/// Rounding division, `d > 0`: the nearest integer to `n / d`, ties away
/// from zero.
pub open spec fn rdiv(n: int, d: int) -> int {
    if n >= 0 {
        rdiv_nn(n, d)
    } else {
        -rdiv_nn(-n, d)
    }
}

/// Rounding division by a divisor of either sign (`d != 0`).
pub open spec fn rdiv_s(n: int, d: int) -> int {
    if d > 0 {
        rdiv(n, d)
    } else {
        rdiv(-n, -d)
    }
}

/// An exact quotient is returned unchanged by rounding division.
pub proof fn lemma_rdiv_exact(q: int, d: int)
    requires
        d > 0,
    ensures
        rdiv(q * d, d) == q,
{
    if q >= 0 {
        assert(2 * (q * d) + d == q * (2 * d) + d) by (nonlinear_arith);
        vstd::arithmetic::div_mod::lemma_fundamental_div_mod_converse(
            2 * (q * d) + d,
            2 * d,
            q,
            d,
        );
        assert(q * d >= 0) by (nonlinear_arith)
            requires
                q >= 0 && d > 0,
        ;
    } else {
        assert(2 * (-(q * d)) + d == (-q) * (2 * d) + d) by (nonlinear_arith);
        vstd::arithmetic::div_mod::lemma_fundamental_div_mod_converse(
            2 * (-(q * d)) + d,
            2 * d,
            -q,
            d,
        );
        assert(q * d < 0) by (nonlinear_arith)
            requires
                q < 0 && d > 0,
        ;
    }
}

/// Rounding division is invariant under scaling dividend and divisor.
pub proof fn lemma_rdiv_scale(n: int, d: int, c: int)
    requires
        d > 0,
        c > 0,
    ensures
        rdiv(c * n, c * d) == rdiv(n, d),
{
    if n >= 0 {
        lemma_rdiv_scale_nn(n, d, c);
        assert(c * n >= 0) by (nonlinear_arith)
            requires
                c > 0 && n >= 0,
        ;
    } else {
        lemma_rdiv_scale_nn(-n, d, c);
        assert(c * n < 0) by (nonlinear_arith)
            requires
                c > 0 && n < 0,
        ;
        assert(-(c * n) == c * (-n)) by (nonlinear_arith);
    }
}

proof fn lemma_rdiv_scale_nn(n: int, d: int, c: int)
    requires
        d > 0,
        c > 0,
        n >= 0,
    ensures
        rdiv_nn(c * n, c * d) == rdiv_nn(n, d),
{
    let x = 2 * n + d;
    assert(2 * (c * n) + c * d == c * (2 * n + d)) by (nonlinear_arith);
    assert(2 * (c * d) == c * (2 * d)) by (nonlinear_arith);
    assert(x >= 0);
    assert(c * x >= 0) by (nonlinear_arith)
        requires
            c > 0 && x >= 0,
    ;
    vstd::arithmetic::div_mod::lemma_div_denominator(c * x, c, 2 * d);
    assert((c * x) / (c * (2 * d)) == ((c * x) / c) / (2 * d));
    vstd::arithmetic::div_mod::lemma_div_multiples_vanish(x, c);
    assert((c * x) / c == x);
}

/// Rounding division keeps a bound given as a multiple of the divisor.
pub proof fn lemma_rdiv_bound(n: int, d: int, k: int)
    requires
        d > 0,
        k >= 0,
        -(k * d) <= n <= k * d,
    ensures
        -k <= rdiv(n, d) <= k,
{
    if n >= 0 {
        lemma_rdiv_bound_nn(n, d, k);
    } else {
        lemma_rdiv_bound_nn(-n, d, k);
    }
}

proof fn lemma_rdiv_bound_nn(n: int, d: int, k: int)
    requires
        d > 0,
        k >= 0,
        0 <= n <= k * d,
    ensures
        0 <= rdiv_nn(n, d) <= k,
{
    vstd::arithmetic::div_mod::lemma_div_pos_is_pos(2 * n + d, 2 * d);
    vstd::arithmetic::div_mod::lemma_div_is_ordered(2 * n + d, 2 * (k * d) + d, 2 * d);
    assert(2 * (k * d) + d == k * (2 * d) + d) by (nonlinear_arith);
    vstd::arithmetic::div_mod::lemma_fundamental_div_mod_converse(
        k * (2 * d) + d,
        2 * d,
        k,
        d,
    );
}

/// A decimal number: `m / 10^s`.
#[derive(Clone, Copy, PartialEq, Eq, Structural, Debug)]
pub struct Dec {
    pub m: i128,
    pub s: u32,
}

impl Dec {
    /// The value denoted, measured in units of `10^-S_MAX`.
    pub open spec fn v(self) -> int {
        self.m * pow10((S_MAX - self.s) as nat)
    }

    /// Well-formed: scale in range, value in range, no trailing zeros.
    pub open spec fn wf(self) -> bool {
        &&& self.s <= S_MAX
        &&& -M_MAX <= self.v() <= M_MAX
        &&& (self.m == 0 ==> self.s == 0)
        &&& (self.s > 0 ==> self.m % 10 != 0)
    }
}

/// Dividend magnitude accepted by [`rdiv_i128`]; large enough for every
/// product formed inside this module, small enough that `2 * n + d`
/// cannot overflow an `i128`.
pub const RD_MAX: i128 = 80_000_000_000_000_000_000_000_000_000_000_000_000;

/// A factor of at least one does not shrink a bounded product.
pub proof fn lemma_abs_bound(x: int, p: int, b: int)
    requires
        p >= 1,
        b >= 0,
        -b <= x * p <= b,
    ensures
        -b <= x <= b,
{
    assert(x > b ==> x * p > b) by (nonlinear_arith)
        requires
            p >= 1 && b >= 0,
    ;
    assert(x < -b ==> x * p < -b) by (nonlinear_arith)
        requires
            p >= 1 && b >= 0,
    ;
}

/// The mantissa of a well-formed decimal is itself within `M_MAX`.
pub proof fn lemma_mantissa_bound(d: Dec)
    requires
        d.wf(),
    ensures
        -M_MAX <= d.m <= M_MAX,
{
    lemma_pow10_pos((S_MAX - d.s) as nat);
    lemma_abs_bound(d.m as int, pow10((S_MAX - d.s) as nat), M_MAX as int);
}

/// Rounding division on `i128`, to the nearest integer with ties away
/// from zero.
pub fn rdiv_i128(n: i128, d: i128) -> (r: i128)
    requires
        0 < d <= M_MAX,
        -RD_MAX <= n <= RD_MAX,
    ensures
        r == rdiv(n as int, d as int),
{
    if n >= 0 {
        (2 * n + d) / (2 * d)
    } else {
        -((2 * (-n) + d) / (2 * d))
    }
}

/// `10^k` computed executably, for the small exponents the library needs.
pub fn pow10_i128(k: u32) -> (r: i128)
    requires
        k <= S_MAX,
    ensures
        r == pow10(k as nat),
        1 <= r <= P9,
{
    proof {
        reveal_with_fuel(pow10, 11);
    }
    match k {
        0 => 1,
        1 => 10,
        2 => 100,
        3 => 1_000,
        4 => 10_000,
        5 => 100_000,
        6 => 1_000_000,
        7 => 10_000_000,
        8 => 100_000_000,
        _ => 1_000_000_000,
    }
}

/// Ten divides a number exactly when it divides its negation.
proof fn lemma_neg_mod10(a: int)
    requires
        a % 10 == 0,
    ensures
        (-a) % 10 == 0,
{
    vstd::arithmetic::div_mod::lemma_fundamental_div_mod(a, 10);
    assert(-a == (-(a / 10)) * 10) by (nonlinear_arith)
        requires
            a == 10 * (a / 10),
    ;
    vstd::arithmetic::div_mod::lemma_mod_multiples_basic(-(a / 10), 10);
}

/// Build a normalized decimal from a mantissa and scale whose value is in
/// range: trailing fractional zeros are stripped.
pub fn norm(m: i128, s: u32) -> (r: Dec)
    requires
        s <= S_MAX,
        -M_MAX <= m * pow10((S_MAX - s) as nat) <= M_MAX,
    ensures
        r.wf(),
        r.v() == m * pow10((S_MAX - s) as nat),
{
    let ghost val: int = m * pow10((S_MAX - s) as nat);
    let neg = m < 0;
    proof {
        lemma_pow10_pos((S_MAX - s) as nat);
        lemma_abs_bound(m as int, pow10((S_MAX - s) as nat), M_MAX as int);
    }
    let mut a: i128 = if neg {
        -m
    } else {
        m
    };
    let mut sc: u32 = s;
    proof {
        assert((-m) * pow10((S_MAX - s) as nat) == -val) by (nonlinear_arith)
            requires
                val == m * pow10((S_MAX - s) as nat),
        ;
    }
    while sc > 0 && a % 10 == 0
        invariant
            sc <= S_MAX,
            0 <= a <= M_MAX,
            a * pow10((S_MAX - sc) as nat) == if neg {
                -val
            } else {
                val
            },
        decreases sc,
    {
        proof {
            vstd::arithmetic::div_mod::lemma_fundamental_div_mod(a as int, 10);
            assert((a / 10) * pow10((S_MAX - (sc - 1)) as nat) == a * pow10(
                (S_MAX - sc) as nat,
            )) by (nonlinear_arith)
                requires
                    a == 10 * (a / 10) && pow10((S_MAX - (sc - 1)) as nat) == 10 * pow10(
                        (S_MAX - sc) as nat,
                    ),
            ;
            assert(pow10((S_MAX - (sc - 1)) as nat) == 10 * pow10((S_MAX - sc) as nat));
            vstd::arithmetic::div_mod::lemma_div_is_ordered(0, a as int, 10);
            vstd::arithmetic::div_mod::lemma_div_is_ordered(a as int, M_MAX as int, 10);
        }
        a = a / 10;
        sc = sc - 1;
    }
    let mm: i128 = if neg {
        -a
    } else {
        a
    };
    proof {
        lemma_pow10_pos((S_MAX - sc) as nat);
        assert((-a) * pow10((S_MAX - sc) as nat) == -(a * pow10((S_MAX - sc) as nat)))
            by (nonlinear_arith);
        if sc > 0 && (mm as int) % 10 == 0 {
            if neg {
                lemma_neg_mod10(mm as int);
                assert((a as int) % 10 == 0);
            }
            assert(false);
        }
        if mm == 0 && sc > 0 {
            assert(a == 0);
            assert(false);
        }
        lemma_abs_bound(mm as int, pow10((S_MAX - sc) as nat), M_MAX as int);
    }
    Dec { m: mm, s: sc }
}

/// The value rounded to two fractional digits, as an integer count of
/// `10^-S_MAX` units (so, a multiple of `10^7`).
pub open spec fn round2v(x: int) -> int {
    rdiv(x, 10_000_000) * 10_000_000
}

impl Dec {
    /// The decimal zero.
    pub fn zero() -> (r: Dec)
        ensures
            r.wf(),
            r.v() == 0,
    {
        proof {
            reveal_with_fuel(pow10, 11);
        }
        Dec { m: 0, s: 0 }
    }

    /// A whole number of units.
    pub fn from_int(n: i64) -> (r: Dec)
        requires
            -4_000_000_000 <= n <= 4_000_000_000,
        ensures
            r.wf(),
            r.v() == n * P9,
    {
        proof {
            reveal_with_fuel(pow10, 11);
            assert(-M_MAX <= (n as int) * pow10(S_MAX as nat) <= M_MAX) by (nonlinear_arith)
                requires
                    -4_000_000_000 <= n <= 4_000_000_000 && pow10(S_MAX as nat)
                        == 1_000_000_000int,
            ;
        }
        norm(n as i128, 0)
    }

    /// The decimal `m / 10^s`, if it lies within the supported range.
    pub fn from_parts(m: i64, s: u32) -> (r: Option<Dec>)
        ensures
            match r {
                Some(d) => {
                    &&& d.wf()
                    &&& s <= S_MAX
                    &&& d.v() == m * pow10((S_MAX - s) as nat)
                },
                None => s > S_MAX || m * pow10((S_MAX - s) as nat) < -M_MAX || m * pow10(
                    (S_MAX - s) as nat,
                ) > M_MAX,
            },
    {
        if s > S_MAX {
            return None;
        }
        let p = pow10_i128(S_MAX - s);
        proof {
            assert((m as int) * (p as int) <= 10_000_000_000_000_000_000_000_000_000int
                && (m as int) * (p as int) >= -10_000_000_000_000_000_000_000_000_000int)
                by (nonlinear_arith)
                requires
                    -10_000_000_000_000_000_000int <= m <= 10_000_000_000_000_000_000int && 1 <= p
                        <= 1_000_000_000int,
            ;
        }
        let val: i128 = (m as i128) * p;
        if val < -M_MAX || val > M_MAX {
            return None;
        }
        Some(norm(m as i128, s))
    }

    /// Exact sum; the result must stay within the supported range.
    pub fn add(self, other: Dec) -> (r: Dec)
        requires
            self.wf(),
            other.wf(),
            -M_MAX <= self.v() + other.v() <= M_MAX,
        ensures
            r.wf(),
            r.v() == self.v() + other.v(),
    {
        let sm: u32 = if self.s < other.s {
            other.s
        } else {
            self.s
        };
        proof {
            lemma_align(self, sm);
            lemma_align(other, sm);
        }
        let ma: i128 = self.m * pow10_i128(sm - self.s);
        let mb: i128 = other.m * pow10_i128(sm - other.s);
        proof {
            assert((ma + mb) * pow10((S_MAX - sm) as nat) == ma * pow10((S_MAX - sm) as nat) + mb
                * pow10((S_MAX - sm) as nat)) by (nonlinear_arith);
            lemma_pow10_pos((S_MAX - sm) as nat);
            lemma_abs_bound((ma + mb) as int, pow10((S_MAX - sm) as nat), M_MAX as int);
        }
        norm(ma + mb, sm)
    }

    /// Exact negation.
    pub fn neg(self) -> (r: Dec)
        requires
            self.wf(),
        ensures
            r.wf(),
            r.v() == -self.v(),
    {
        proof {
            lemma_mantissa_bound(self);
            assert((-self.m) * pow10((S_MAX - self.s) as nat) == -self.v()) by (nonlinear_arith)
                requires
                    self.v() == self.m * pow10((S_MAX - self.s) as nat),
            ;
            if self.s > 0 && ((-self.m) as int) % 10 == 0 {
                lemma_neg_mod10((-self.m) as int);
            }
        }
        Dec { m: -self.m, s: self.s }
    }

    /// Exact difference; the result must stay within the supported range.
    pub fn sub(self, other: Dec) -> (r: Dec)
        requires
            self.wf(),
            other.wf(),
            -M_MAX <= self.v() - other.v() <= M_MAX,
        ensures
            r.wf(),
            r.v() == self.v() - other.v(),
    {
        self.add(other.neg())
    }

    /// Product, rounded to the nearest representable value (`S_MAX`
    /// fractional digits, ties away from zero); exact whenever the scales
    /// of the factors together stay within `S_MAX`.
    pub fn mul(self, other: Dec) -> (r: Dec)
        requires
            self.wf(),
            other.wf(),
            -M_MAX <= rdiv(self.v() * other.v(), P9 as int) <= M_MAX,
        ensures
            r.wf(),
            r.v() == rdiv(self.v() * other.v(), P9 as int),
    {
        proof {
            lemma_mantissa_bound(self);
            lemma_mantissa_bound(other);
            assert(-RD_MAX <= (self.m as int) * (other.m as int) <= RD_MAX) by (nonlinear_arith)
                requires
                    -M_MAX <= self.m <= M_MAX && -M_MAX <= other.m <= M_MAX && M_MAX
                        == 4_000_000_000_000_000_000i128 && RD_MAX
                        == 80_000_000_000_000_000_000_000_000_000_000_000_000i128,
            ;
        }
        let p: i128 = self.m * other.m;
        let t: u32 = self.s + other.s;
        proof {
            lemma_mul_values(self, other);
        }
        if t <= S_MAX {
            proof {
                lemma_pow10_adds((S_MAX - t) as nat, S_MAX as nat);
                assert((p * pow10((S_MAX - t) as nat)) * pow10(S_MAX as nat) == p * pow10(
                    ((S_MAX - t) + S_MAX) as nat,
                )) by (nonlinear_arith)
                    requires
                        pow10(((S_MAX - t) + S_MAX) as nat) == pow10((S_MAX - t) as nat) * pow10(
                            S_MAX as nat,
                        ),
                ;
                reveal_with_fuel(pow10, 11);
                lemma_rdiv_exact(p * pow10((S_MAX - t) as nat), P9 as int);
                lemma_pow10_pos((S_MAX - t) as nat);
                lemma_abs_bound(p as int, pow10((S_MAX - t) as nat), M_MAX as int);
            }
            norm(p, t)
        } else {
            let d = pow10_i128(t - S_MAX);
            proof {
                let a = (t - S_MAX) as nat;
                let b = (2 * S_MAX - t) as nat;
                lemma_pow10_adds(a, b);
                assert(a + b == S_MAX as nat);
                reveal_with_fuel(pow10, 11);
                assert(pow10(S_MAX as nat) == P9 as int);
                assert(pow10(a) * pow10(b) == P9 as int);
                lemma_pow10_pos(a);
                lemma_pow10_pos(b);
                lemma_rdiv_scale(p as int, pow10(a), pow10(b));
                assert(pow10(b) * pow10(a) == pow10(a) * pow10(b)) by (nonlinear_arith);
                assert(pow10(b) * (p as int) == (p as int) * pow10(b)) by (nonlinear_arith);
                assert(rdiv(self.v() * other.v(), P9 as int) == rdiv(p as int, pow10(a)));
            }
            let mq = rdiv_i128(p, d);
            proof {
                reveal_with_fuel(pow10, 2);
                assert(pow10(0nat) == 1int);
                assert(mq * pow10(0nat) == mq) by (nonlinear_arith)
                    requires
                        pow10(0nat) == 1int,
                ;
            }
            norm(mq, S_MAX)
        }
    }

    /// The value rounded to two fractional digits (ties away from zero).
    pub fn round_dp2(self) -> (r: Dec)
        requires
            self.wf(),
        ensures
            r.wf(),
            r.v() == round2v(self.v()),
    {
        proof {
            lemma_mantissa_bound(self);
        }
        if self.s <= 2 {
            proof {
                lemma_pow10_adds((2 - self.s) as nat, 7nat);
                reveal_with_fuel(pow10, 11);
                assert((self.m * pow10((2 - self.s) as nat)) * 10_000_000 == self.m * pow10(
                    (S_MAX - self.s) as nat,
                )) by (nonlinear_arith)
                    requires
                        pow10((S_MAX - self.s) as nat) == pow10((2 - self.s) as nat) * 10_000_000,
                ;
                lemma_rdiv_exact(self.m * pow10((2 - self.s) as nat), 10_000_000int);
            }
            self
        } else {
            let d = pow10_i128(self.s - 2);
            proof {
                lemma_pow10_adds((self.s - 2) as nat, (S_MAX - self.s) as nat);
                reveal_with_fuel(pow10, 11);
                lemma_rdiv_scale(self.m as int, pow10((self.s - 2) as nat), pow10(
                    (S_MAX - self.s) as nat,
                ));
                assert(pow10((S_MAX - self.s) as nat) * (self.m as int) == self.v())
                    by (nonlinear_arith)
                    requires
                        self.v() == self.m * pow10((S_MAX - self.s) as nat),
                ;
                assert((self.s - 2) as nat + (S_MAX - self.s) as nat == 7nat);
                assert(pow10(7nat) == 10_000_000int);
                assert(pow10((S_MAX - self.s) as nat) * pow10((self.s - 2) as nat) == pow10(
                    (self.s - 2) as nat,
                ) * pow10((S_MAX - self.s) as nat)) by (nonlinear_arith);
                assert(pow10((S_MAX - self.s) as nat) * pow10((self.s - 2) as nat) == 10_000_000int);
                lemma_pow10_pos((self.s - 2) as nat);
                lemma_rdiv_bound(self.v(), 10_000_000int, 400_000_000_000int);
            }
            let mq = rdiv_i128(self.m, d);
            proof {
                lemma_pow10_adds(7nat, 0nat);
                reveal_with_fuel(pow10, 11);
                assert(-M_MAX <= mq * pow10((S_MAX - 2) as nat) <= M_MAX) by (nonlinear_arith)
                    requires
                        -400_000_000_000int <= mq <= 400_000_000_000int && pow10(
                            (S_MAX - 2) as nat,
                        ) == 10_000_000int,
            ;
            }
            norm(mq, 2)
        }
    }

    /// Decide well-formedness of an arbitrary mantissa-and-scale pair.
    pub fn is_wf(&self) -> (r: bool)
        ensures
            r == self.wf(),
    {
        if self.s > S_MAX {
            return false;
        }
        if self.m > M_MAX || self.m < -M_MAX {
            proof {
                lemma_pow10_pos((S_MAX - self.s) as nat);
                if self.wf() {
                    lemma_mantissa_bound(*self);
                }
            }
            return false;
        }
        let p = pow10_i128(S_MAX - self.s);
        proof {
            assert(-4_000_000_000_000_000_000_000_000_000int <= (self.m as int) * (p as int)
                <= 4_000_000_000_000_000_000_000_000_000int) by (nonlinear_arith)
                requires
                    -M_MAX <= self.m <= M_MAX && 1 <= p <= P9 && M_MAX
                        == 4_000_000_000_000_000_000i128 && P9 == 1_000_000_000i128,
            ;
        }
        let v: i128 = self.m * p;
        if v > M_MAX || v < -M_MAX {
            return false;
        }
        if self.m == 0 && self.s != 0 {
            return false;
        }
        if self.s > 0 {
            let a: i128 = if self.m < 0 {
                -self.m
            } else {
                self.m
            };
            proof {
                if self.m < 0 {
                    if (a as int) % 10 == 0 {
                        lemma_neg_mod10(a as int);
                    }
                    if (self.m as int) % 10 == 0 {
                        lemma_neg_mod10(self.m as int);
                    }
                }
            }
            if a % 10 == 0 {
                return false;
            }
        }
        true
    }

    /// The value, in `10^-S_MAX` units, as an executable integer.
    pub fn units(self) -> (r: i128)
        requires
            self.wf(),
        ensures
            r == self.v(),
    {
        proof {
            lemma_mantissa_bound(self);
            lemma_pow10_pos((S_MAX - self.s) as nat);
        }
        self.m * pow10_i128(S_MAX - self.s)
    }

    /// Quotient, rounded to the nearest representable value (ties away
    /// from zero).
    pub fn div(self, other: Dec) -> (r: Dec)
        requires
            self.wf(),
            other.wf(),
            other.v() != 0,
            -M_MAX <= rdiv_s(self.v() * P9, other.v()) <= M_MAX,
        ensures
            r.wf(),
            r.v() == rdiv_s(self.v() * P9, other.v()),
    {
        let va = self.units();
        let vb = other.units();
        let n: i128 = va * P9;
        let mq: i128 = if vb > 0 {
            rdiv_i128(n, vb)
        } else {
            rdiv_i128(-n, -vb)
        };
        proof {
            reveal_with_fuel(pow10, 2);
            assert(mq * pow10(0nat) == mq) by (nonlinear_arith)
                requires
                    pow10(0nat) == 1int,
            ;
        }
        norm(mq, S_MAX)
    }

    /// Strictly-less comparison of the denoted values.
    pub fn lt(self, other: Dec) -> (r: bool)
        requires
            self.wf(),
            other.wf(),
        ensures
            r == (self.v() < other.v()),
    {
        let sm: u32 = if self.s < other.s {
            other.s
        } else {
            self.s
        };
        proof {
            lemma_align(self, sm);
            lemma_align(other, sm);
        }
        let ma: i128 = self.m * pow10_i128(sm - self.s);
        let mb: i128 = other.m * pow10_i128(sm - other.s);
        proof {
            lemma_pow10_pos((S_MAX - sm) as nat);
            assert((ma < mb) == (ma * pow10((S_MAX - sm) as nat) < mb * pow10(
                (S_MAX - sm) as nat,
            ))) by (nonlinear_arith)
                requires
                    pow10((S_MAX - sm) as nat) >= 1,
            ;
        }
        ma < mb
    }

    /// Whether the value is strictly positive.
    pub fn is_positive(self) -> (r: bool)
        requires
            self.wf(),
        ensures
            r == (self.v() > 0),
    {
        proof {
            lemma_pow10_pos((S_MAX - self.s) as nat);
            assert((self.m > 0) == (self.m * pow10((S_MAX - self.s) as nat) > 0))
                by (nonlinear_arith)
                requires
                    pow10((S_MAX - self.s) as nat) >= 1,
            ;
        }
        self.m > 0
    }

    /// Whether the value is zero.
    pub fn is_zero(self) -> (r: bool)
        requires
            self.wf(),
        ensures
            r == (self.v() == 0),
    {
        proof {
            lemma_pow10_pos((S_MAX - self.s) as nat);
            assert((self.m == 0) == (self.m * pow10((S_MAX - self.s) as nat) == 0))
                by (nonlinear_arith)
                requires
                    pow10((S_MAX - self.s) as nat) >= 1,
            ;
        }
        self.m == 0
    }
}

/// Well-formed decimals denote equal values exactly when they are equal
/// component-wise: normalization makes the representation canonical.
pub proof fn lemma_value_eq(a: Dec, b: Dec)
    requires
        a.wf(),
        b.wf(),
    ensures
        (a.v() == b.v()) <==> (a == b),
{
    if a.v() == b.v() {
        if a.s == b.s {
            lemma_pow10_pos((S_MAX - a.s) as nat);
            assert(a.m == b.m) by (nonlinear_arith)
                requires
                    a.m * pow10((S_MAX - a.s) as nat) == b.m * pow10((S_MAX - a.s) as nat) && pow10(
                        (S_MAX - a.s) as nat,
                    ) >= 1,
            ;
        } else if a.s < b.s {
            lemma_value_eq_ordered(a, b);
        } else {
            lemma_value_eq_ordered(b, a);
        }
    }
}

/// A coarser-scaled decimal can match the value of a finer-scaled one only
/// if the finer mantissa has a trailing zero, which well-formedness rules
/// out; the conclusion lets the caller dismiss this case.
proof fn lemma_value_eq_ordered(a: Dec, b: Dec)
    requires
        a.wf(),
        b.wf(),
        a.s < b.s,
        a.v() == b.v(),
    ensures
        b.m % 10 == 0,
        b.s > 0,
{
    let k = (b.s - a.s) as nat;
    lemma_pow10_adds(k, (S_MAX - b.s) as nat);
    lemma_pow10_pos((S_MAX - b.s) as nat);
    lemma_pow10_pos((k - 1) as nat);
    assert(a.m * (pow10(k) * pow10((S_MAX - b.s) as nat)) == (a.m * pow10(k)) * pow10(
        (S_MAX - b.s) as nat,
    )) by (nonlinear_arith);
    assert(a.m * pow10(k) == b.m) by (nonlinear_arith)
        requires
            (a.m * pow10(k)) * pow10((S_MAX - b.s) as nat) == b.m * pow10((S_MAX - b.s) as nat)
                && pow10((S_MAX - b.s) as nat) >= 1,
    ;
    assert(pow10(k) == 10 * pow10((k - 1) as nat));
    assert(b.m == (a.m * pow10((k - 1) as nat)) * 10) by (nonlinear_arith)
        requires
            b.m == a.m * (10 * pow10((k - 1) as nat)),
    ;
    vstd::arithmetic::div_mod::lemma_mod_multiples_basic(a.m * pow10((k - 1) as nat), 10);
}

/// Aligning a mantissa to a coarser scale keeps the value and the bound.
proof fn lemma_align(d: Dec, sm: u32)
    requires
        d.wf(),
        d.s <= sm <= S_MAX,
    ensures
        -M_MAX <= d.m * pow10((sm - d.s) as nat) <= M_MAX,
        (d.m * pow10((sm - d.s) as nat)) * pow10((S_MAX - sm) as nat) == d.v(),
{
    lemma_pow10_adds((sm - d.s) as nat, (S_MAX - sm) as nat);
    assert((d.m * pow10((sm - d.s) as nat)) * pow10((S_MAX - sm) as nat) == d.m * (pow10(
        (sm - d.s) as nat,
    ) * pow10((S_MAX - sm) as nat))) by (nonlinear_arith);
    lemma_pow10_pos((S_MAX - sm) as nat);
    lemma_abs_bound(d.m * pow10((sm - d.s) as nat), pow10((S_MAX - sm) as nat), M_MAX as int);
}

/// The product of the mantissas, at the summed scale, denotes the product
/// of the values scaled by `10^S_MAX`.
proof fn lemma_mul_values(a: Dec, b: Dec)
    requires
        a.wf(),
        b.wf(),
    ensures
        a.v() * b.v() == (a.m * b.m) * pow10((2 * S_MAX - a.s - b.s) as nat),
{
    lemma_pow10_adds((S_MAX - a.s) as nat, (S_MAX - b.s) as nat);
    assert((a.m * pow10((S_MAX - a.s) as nat)) * (b.m * pow10((S_MAX - b.s) as nat)) == (a.m * b.m)
        * (pow10((S_MAX - a.s) as nat) * pow10((S_MAX - b.s) as nat))) by (nonlinear_arith);
}

/// The character for one decimal digit.
pub open spec fn digit_char(d: int) -> char {
    if d == 0 {
        '0'
    } else if d == 1 {
        '1'
    } else if d == 2 {
        '2'
    } else if d == 3 {
        '3'
    } else if d == 4 {
        '4'
    } else if d == 5 {
        '5'
    } else if d == 6 {
        '6'
    } else if d == 7 {
        '7'
    } else if d == 8 {
        '8'
    } else {
        '9'
    }
}

/// The usual decimal numeral of a non-negative integer: no leading zeros,
/// except that zero itself is written "0".
pub open spec fn uint_text(n: int) -> Seq<char>
    decreases n,
{
    if n < 10 {
        seq![digit_char(n)]
    } else {
        uint_text(n / 10).push(digit_char(n % 10))
    }
}

/// The low `w` decimal digits of a non-negative integer, zero-padded to
/// exactly `w` characters.
pub open spec fn fixed_text(n: int, w: nat) -> Seq<char>
    decreases w,
{
    if w == 0 {
        Seq::empty()
    } else {
        fixed_text(n / 10, (w - 1) as nat).push(digit_char(n % 10))
    }
}

/// The canonical text of a decimal: optional minus sign, integer part
/// without leading zeros, and, for a positive scale, a point followed by
/// exactly `s` fraction digits.
pub open spec fn dec_text(d: Dec) -> Seq<char> {
    let a = if d.m < 0 {
        -d.m as int
    } else {
        d.m as int
    };
    let sign: Seq<char> = if d.m < 0 {
        seq!['-']
    } else {
        Seq::empty()
    };
    if d.s == 0 {
        sign + uint_text(a)
    } else {
        sign + uint_text(a / pow10(d.s as nat)) + seq!['.'] + fixed_text(
            a % pow10(d.s as nat),
            d.s as nat,
        )
    }
}

/// Whether a character is a decimal digit.
pub open spec fn is_digit_char(c: char) -> bool {
    48 <= c as u32 <= 57
}

/// The numeric value of a digit character (zero for any other character).
pub open spec fn digit_val(c: char) -> int {
    if is_digit_char(c) {
        c as u32 - 48
    } else {
        0
    }
}

/// The number denoted by a sequence of digit characters.
pub open spec fn digits_val(t: Seq<char>) -> int
    decreases t.len(),
{
    if t.len() == 0 {
        0
    } else {
        digits_val(t.drop_last()) * 10 + digit_val(t.last())
    }
}

/// Digit characters carry their digit.
pub proof fn lemma_digit_char_val(d: int)
    requires
        0 <= d < 10,
    ensures
        is_digit_char(digit_char(d)),
        digit_val(digit_char(d)) == d,
{
}

/// Every character of a numeral is a digit.
pub proof fn lemma_uint_text_digits(v: int)
    requires
        v >= 0,
    ensures
        forall|k: int| 0 <= k < uint_text(v).len() ==> is_digit_char(#[trigger] uint_text(v)[k]),
        uint_text(v).len() >= 1,
    decreases v,
{
    vstd::arithmetic::div_mod::lemma_mod_division_less_than_divisor(v, 10);
    vstd::arithmetic::div_mod::lemma_div_pos_is_pos(v, 10);
    if v < 10 {
        lemma_digit_char_val(v);
    } else {
        lemma_uint_text_digits(v / 10);
        lemma_digit_char_val(v % 10);
        assert(forall|k: int|
            0 <= k < uint_text(v).len() - 1 ==> #[trigger] uint_text(v)[k] == uint_text(v / 10)[k]);
        assert(uint_text(v).last() == digit_char(v % 10));
    }
}

/// Every character of a fixed-width numeral is a digit, and its width is
/// as requested.
pub proof fn lemma_fixed_text_digits(n: int, w: nat)
    requires
        n >= 0,
    ensures
        fixed_text(n, w).len() == w,
        forall|k: int| 0 <= k < w ==> is_digit_char(#[trigger] fixed_text(n, w)[k]),
    decreases w,
{
    if w > 0 {
        vstd::arithmetic::div_mod::lemma_mod_division_less_than_divisor(n, 10);
        vstd::arithmetic::div_mod::lemma_div_pos_is_pos(n, 10);
        lemma_fixed_text_digits(n / 10, (w - 1) as nat);
        lemma_digit_char_val(n % 10);
        assert(forall|k: int|
            0 <= k < w - 1 ==> #[trigger] fixed_text(n, w)[k]
                == fixed_text(n / 10, (w - 1) as nat)[k]);
        assert(fixed_text(n, w).last() == digit_char(n % 10));
    }
}

/// Reading a numeral back yields the number.
pub proof fn lemma_digits_val_uint(v: int)
    requires
        v >= 0,
    ensures
        digits_val(uint_text(v)) == v,
    decreases v,
{
    vstd::arithmetic::div_mod::lemma_mod_division_less_than_divisor(v, 10);
    vstd::arithmetic::div_mod::lemma_div_pos_is_pos(v, 10);
    vstd::arithmetic::div_mod::lemma_fundamental_div_mod(v, 10);
    if v < 10 {
        lemma_digit_char_val(v);
        assert(uint_text(v).drop_last() =~= Seq::<char>::empty());
        assert(uint_text(v).last() == digit_char(v));
        assert(digits_val(uint_text(v)) == digits_val(Seq::<char>::empty()) * 10 + digit_val(
            digit_char(v),
        ));
    } else {
        lemma_digits_val_uint(v / 10);
        lemma_digit_char_val(v % 10);
        assert(uint_text(v).drop_last() =~= uint_text(v / 10));
        assert(uint_text(v).last() == digit_char(v % 10));
        assert(digits_val(uint_text(v)) == digits_val(uint_text(v / 10)) * 10 + digit_val(
            digit_char(v % 10),
        ));
    }
}

/// Reading a fixed-width numeral back yields the number, provided it fits
/// the width.
pub proof fn lemma_digits_val_fixed(n: int, w: nat)
    requires
        0 <= n < pow10(w),
    ensures
        digits_val(fixed_text(n, w)) == n,
    decreases w,
{
    if w == 0 {
        assert(pow10(0nat) == 1) by {
            reveal_with_fuel(pow10, 2);
        }
    } else {
        vstd::arithmetic::div_mod::lemma_mod_division_less_than_divisor(n, 10);
        vstd::arithmetic::div_mod::lemma_div_pos_is_pos(n, 10);
        vstd::arithmetic::div_mod::lemma_fundamental_div_mod(n, 10);
        assert(pow10(w) == 10 * pow10((w - 1) as nat));
        assert(n / 10 < pow10((w - 1) as nat)) by {
            vstd::arithmetic::div_mod::lemma_multiply_divide_lt(n, 10, pow10((w - 1) as nat));
        }
        lemma_digits_val_fixed(n / 10, (w - 1) as nat);
        lemma_digit_char_val(n % 10);
        assert(fixed_text(n, w).drop_last() =~= fixed_text(n / 10, (w - 1) as nat));
        assert(fixed_text(n, w).last() == digit_char(n % 10));
    }
}

/// A numeral is no longer than the power of ten bounding its number.
pub proof fn lemma_uint_text_len_bound(v: int, k: nat)
    requires
        0 <= v < pow10(k),
    ensures
        uint_text(v).len() <= if k == 0 {
            1int
        } else {
            k as int
        },
    decreases v,
{
    if v >= 10 {
        vstd::arithmetic::div_mod::lemma_div_pos_is_pos(v, 10);
        assert(k >= 2) by {
            reveal_with_fuel(pow10, 3);
            if k < 2 {
                lemma_pow10_pos(k);
                assert(pow10(k) <= 10) by {
                    reveal_with_fuel(pow10, 3);
                }
            }
        }
        assert(pow10(k) == 10 * pow10((k - 1) as nat));
        assert(v / 10 < pow10((k - 1) as nat)) by {
            vstd::arithmetic::div_mod::lemma_multiply_divide_lt(v, 10, pow10((k - 1) as nat));
        }
        lemma_uint_text_len_bound(v / 10, (k - 1) as nat);
    }
}

/// The value of a fraction-digit run, in `10^-S_MAX` units: the first
/// nine digits carry weight, further digits lie below the resolution.
pub open spec fn frac_value(b: Seq<char>) -> int {
    if b.len() <= 9 {
        digits_val(b) * pow10((9 - b.len()) as nat)
    } else {
        digits_val(b.take(9))
    }
}

/// The string for one digit.
pub fn digit_str(d: u64) -> (r: &'static str)
    requires
        d < 10,
    ensures
        r@ =~= seq![digit_char(d as int)],
        r.is_ascii(),
{
    proof {
        reveal_strlit("0");
        reveal_strlit("1");
        reveal_strlit("2");
        reveal_strlit("3");
        reveal_strlit("4");
        reveal_strlit("5");
        reveal_strlit("6");
        reveal_strlit("7");
        reveal_strlit("8");
        reveal_strlit("9");
    }
    match d {
        0 => "0",
        1 => "1",
        2 => "2",
        3 => "3",
        4 => "4",
        5 => "5",
        6 => "6",
        7 => "7",
        8 => "8",
        _ => "9",
    }
}

/// Append the decimal numeral of `n`.
pub fn push_uint(out: &mut String, n: u64)
    ensures
        final(out)@ == old(out)@ + uint_text(n as int),
    decreases n,
{
    if n >= 10 {
        push_uint(out, n / 10);
        out.append(digit_str(n % 10));
        proof {
            assert(final(out)@ =~= old(out)@ + uint_text(n as int));
        }
    } else {
        out.append(digit_str(n));
        proof {
            assert(final(out)@ =~= old(out)@ + uint_text(n as int));
        }
    }
}

/// Append exactly `w` digits of `n`, zero-padded.
pub fn push_fixed(out: &mut String, n: u64, w: u32)
    ensures
        final(out)@ == old(out)@ + fixed_text(n as int, w as nat),
    decreases w,
{
    if w > 0 {
        push_fixed(out, n / 10, w - 1);
        out.append(digit_str(n % 10));
        proof {
            assert(final(out)@ =~= old(out)@ + fixed_text(n as int, w as nat));
        }
    } else {
        proof {
            assert(out@ =~= out@ + fixed_text(n as int, 0nat));
        }
    }
}

impl Dec {
    /// The canonical text of this decimal.
    pub fn to_text(self) -> (r: String)
        requires
            self.wf(),
        ensures
            r@ == dec_text(self),
    {
        proof {
            lemma_mantissa_bound(self);
            reveal_strlit("-");
            reveal_strlit(".");
        }
        let mut out = String::new();
        if self.m < 0 {
            out.append("-");
        }
        let a: i128 = if self.m < 0 {
            -self.m
        } else {
            self.m
        };
        if self.s == 0 {
            push_uint(&mut out, a as u64);
            proof {
                assert(out@ =~= dec_text(self));
            }
        } else {
            let p = pow10_i128(self.s);
            proof {
                vstd::arithmetic::div_mod::lemma_div_pos_is_pos(a as int, p as int);
                vstd::arithmetic::div_mod::lemma_div_is_ordered(a as int, M_MAX as int, p as int);
                vstd::arithmetic::div_mod::lemma_mod_division_less_than_divisor(a as int, p as int);
            }
            push_uint(&mut out, (a / p) as u64);
            out.append(".");
            push_fixed(&mut out, (a % p) as u64, self.s);
            proof {
                assert(out@ =~= dec_text(self));
            }
        }
        out
    }
}

} // verus!
