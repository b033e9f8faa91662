//! Latency measurements and the margin a faster region has to clear.
//!
//! A latency is a number of milliseconds in IEEE 754 binary64 format, kept as
//! its bit pattern. The comparison that decides whether one latency is *enough*
//! below another is carried out on integers and gives, bit for bit, the verdict
//! of binary64 arithmetic with rounding to nearest, ties to even.

use vstd::arithmetic::div_mod::lemma_fundamental_div_mod;
use vstd::arithmetic::div_mod::lemma_fundamental_div_mod_converse;
use vstd::arithmetic::power2::lemma_pow2_adds;
use vstd::arithmetic::power2::lemma_pow2_pos;
use vstd::arithmetic::power2::lemma_pow2_strictly_increases;
use vstd::arithmetic::power2::lemma_pow2_unfold;
use vstd::arithmetic::power2::pow2;
use vstd::prelude::*;

verus! {

/// A latency in milliseconds, as the bit pattern of a binary64 number.
#[derive(Clone, Copy, Debug, PartialEq, Eq, Structural)]
pub struct Latency {
    pub bits: u64,
}

/// What a bit pattern stands for. A finite value is counted in grains: there are
/// `2^1129` grains to the millisecond, which makes every finite binary64 number,
/// and a fifth of it as binary64 writes a fifth, a whole number of grains.
pub enum Reading {
    NotANumber,
    PlusInfinity,
    MinusInfinity,
    Finite(int),
}

/// The bits of a pattern after the sign.
pub open spec fn unsigned_bits(bits: u64) -> int {
    bits as int % 0x8000_0000_0000_0000
}

/// The exponent field of a pattern.
pub open spec fn exponent_field(bits: u64) -> int {
    unsigned_bits(bits) / 0x10_0000_0000_0000
}

/// The fraction field of a pattern.
pub open spec fn fraction_field(bits: u64) -> int {
    unsigned_bits(bits) % 0x10_0000_0000_0000
}

/// The significand as a whole number: the fraction, with the leading bit that a
/// normal number leaves out.
pub open spec fn significand(bits: u64) -> int {
    if exponent_field(bits) == 0 {
        fraction_field(bits)
    } else {
        fraction_field(bits) + 0x10_0000_0000_0000
    }
}

/// The power of two, in grains, that the significand counts.
pub open spec fn scale(bits: u64) -> nat {
    if exponent_field(bits) == 0 {
        55
    } else {
        (exponent_field(bits) + 54) as nat
    }
}

/// The absolute value of a finite pattern, in grains.
pub open spec fn magnitude(bits: u64) -> int {
    significand(bits) * pow2(scale(bits))
}

/// The value that a bit pattern stands for.
pub open spec fn reading_of(bits: u64) -> Reading {
    let negative = bits >= 0x8000_0000_0000_0000;
    if exponent_field(bits) == 2047 {
        if fraction_field(bits) != 0 {
            Reading::NotANumber
        } else if negative {
            Reading::MinusInfinity
        } else {
            Reading::PlusInfinity
        }
    } else if negative {
        Reading::Finite(-magnitude(bits))
    } else {
        Reading::Finite(magnitude(bits))
    }
}

/// The number of binary digits of `n`.
pub open spec fn bit_length(n: nat) -> nat
    decreases n,
{
    if n == 0 {
        0
    } else {
        1 + bit_length(n / 2)
    }
}

/// Binary64 keeps 53 digits and nothing below `2^55` grains: the exponent of the
/// place to which a magnitude of `n` grains is rounded.
pub open spec fn last_place(n: nat) -> nat {
    if bit_length(n) <= 108 {
        55
    } else {
        (bit_length(n) - 53) as nat
    }
}

/// The multiple of `q` nearest to `n`; of two equally near, the even multiple.
pub open spec fn nearest_multiple(n: nat, q: nat) -> nat {
    let below = n / q;
    let rest = n % q;
    if 2 * rest < q || (2 * rest == q && below % 2 == 0) {
        below * q
    } else {
        (below + 1) * q
    }
}

/// The binary64 number nearest to a number of grains, with no bound on its exponent.
pub open spec fn rounded(x: int) -> int {
    if x < 0 {
        -(nearest_multiple((-x) as nat, pow2(last_place((-x) as nat))) as int)
    } else {
        nearest_multiple(x as nat, pow2(last_place(x as nat))) as int
    }
}

/// The result of a binary64 operation whose exact result is `x` grains.
pub open spec fn delivered(x: int) -> Reading {
    if rounded(x) >= pow2(2153) {
        Reading::PlusInfinity
    } else if rounded(x) <= -pow2(2153) {
        Reading::MinusInfinity
    } else {
        Reading::Finite(rounded(x))
    }
}

/// `a - b`.
pub open spec fn difference(a: Reading, b: Reading) -> Reading {
    match (a, b) {
        (Reading::NotANumber, _) => Reading::NotANumber,
        (_, Reading::NotANumber) => Reading::NotANumber,
        (Reading::PlusInfinity, Reading::PlusInfinity) => Reading::NotANumber,
        (Reading::MinusInfinity, Reading::MinusInfinity) => Reading::NotANumber,
        (Reading::PlusInfinity, _) => Reading::PlusInfinity,
        (Reading::MinusInfinity, _) => Reading::MinusInfinity,
        (Reading::Finite(x), Reading::PlusInfinity) => Reading::MinusInfinity,
        (Reading::Finite(x), Reading::MinusInfinity) => Reading::PlusInfinity,
        (Reading::Finite(x), Reading::Finite(y)) => delivered(x - y),
    }
}

/// The significand of the binary64 number nearest to one fifth, which is
/// `FIFTH / 2^55`.
pub const FIFTH: u64 = 0x19_9999_9999_999A;

/// A fifth of `a` (20 %).
pub open spec fn fifth(a: Reading) -> Reading {
    match a {
        Reading::Finite(x) => delivered(x * FIFTH / pow2(55) as int),
        _ => a,
    }
}

/// Fifteen milliseconds.
pub open spec fn fifteen_ms() -> int {
    15 * (pow2(1129) as int)
}

/// The margin a faster region has to clear against the latency `prev` of the
/// current one: `max(15 ms, 20 %)`.
pub open spec fn margin(prev: Reading) -> Reading {
    match fifth(prev) {
        Reading::PlusInfinity => Reading::PlusInfinity,
        Reading::Finite(x) if x > fifteen_ms() => Reading::Finite(x),
        _ => Reading::Finite(fifteen_ms()),
    }
}

/// `a >= b`.
pub open spec fn at_least(a: Reading, b: Reading) -> bool {
    match (a, b) {
        (Reading::NotANumber, _) => false,
        (_, Reading::NotANumber) => false,
        (Reading::PlusInfinity, _) => true,
        (_, Reading::MinusInfinity) => true,
        (Reading::Finite(x), Reading::Finite(y)) => x >= y,
        _ => false,
    }
}

/// `a < b`.
pub open spec fn reads_below(a: Reading, b: Reading) -> bool {
    match (a, b) {
        (Reading::NotANumber, _) => false,
        (_, Reading::NotANumber) => false,
        (Reading::PlusInfinity, _) => false,
        (_, Reading::MinusInfinity) => false,
        (Reading::Finite(x), Reading::Finite(y)) => x < y,
        _ => true,
    }
}

/// A region measured at `new` is enough faster than one measured at `prev`:
/// `prev - new >= max(15 ms, 20 % of prev)`.
pub open spec fn clears(prev: Reading, new: Reading) -> bool {
    at_least(difference(prev, new), margin(prev))
}

impl Latency {
    /// The value of this latency.
    pub open spec fn reading(self) -> Reading {
        reading_of(self.bits)
    }
}

proof fn bit_length_bounds(n: nat)
    requires
        n > 0,
    ensures
        bit_length(n) >= 1,
        pow2((bit_length(n) - 1) as nat) <= n < pow2(bit_length(n)),
    decreases n,
{
    vstd::arithmetic::power2::lemma2_to64();
    if n >= 2 {
        bit_length_bounds(n / 2);
        lemma_pow2_unfold(bit_length(n));
        lemma_pow2_unfold((bit_length(n) - 1) as nat);
    } else {
        assert(bit_length(0) == 0);
    }
}

proof fn bit_length_unique(n: nat, k: nat)
    requires
        k >= 1,
        pow2((k - 1) as nat) <= n < pow2(k),
    ensures
        bit_length(n) == k,
{
    lemma_pow2_pos((k - 1) as nat);
    bit_length_bounds(n);
    let b = bit_length(n);
    if b < k {
        if b < k - 1 {
            lemma_pow2_strictly_increases(b, (k - 1) as nat);
        }
    } else if k < b {
        if k < b - 1 {
            lemma_pow2_strictly_increases(k, (b - 1) as nat);
        }
    }
}

proof fn bit_length_scaled(m: nat, e: nat)
    requires
        m > 0,
    ensures
        m * pow2(e) > 0,
        bit_length(m * pow2(e)) == bit_length(m) + e,
{
    bit_length_bounds(m);
    let b = bit_length(m);
    let (lo, hi, p) = (pow2((b - 1) as nat), pow2(b), pow2(e));
    lemma_pow2_pos(e);
    lemma_pow2_adds((b - 1) as nat, e);
    lemma_pow2_adds(b, e);
    assert(lo * p <= m * p && m * p < hi * p && m * p > 0) by (nonlinear_arith)
        requires
            lo <= m < hi,
            p > 0,
            m > 0,
    ;
    bit_length_unique(m * p, b + e);
}

/// A number close to a multiple rounds to that multiple.
proof fn nearest_multiple_close(n: nat, q: nat, f: nat, x: int)
    requires
        n == f * q + x,
        -(q as int) < 2 * x < q,
    ensures
        nearest_multiple(n, q) == f * q,
{
    if x >= 0 {
        lemma_fundamental_div_mod_converse(n as int, q as int, f as int, x);
    } else {
        assert(n == (f - 1) * q + (q + x)) by (nonlinear_arith)
            requires
                n == f * q + x,
        ;
        lemma_fundamental_div_mod_converse(n as int, q as int, f - 1, q + x);
        assert(f >= 1) by (nonlinear_arith)
            requires
                n == f * q + x,
                n >= 0,
                x < 0,
                f >= 0,
        ;
        assert((n / q + 1) as nat == f);
    }
}

/// A number of significant digits and the power of two, in grains, that it counts.
struct Scaled {
    sig: u128,
    exp: u32,
}

impl Scaled {
    spec fn grains(self) -> int {
        self.sig * (pow2(self.exp as nat) as int)
    }
}

proof fn pow2_120()
    ensures
        pow2(120) == 0x100_0000_0000_0000_0000_0000_0000_0000,
{
    lemma_pow2_adds(60, 60);
    vstd::arithmetic::power2::lemma2_to64_rest();
}

/// `2^d`.
fn power(d: u32) -> (r: u128)
    requires
        d <= 120,
    ensures
        r == pow2(d as nat),
{
    let mut r: u128 = 1;
    let mut i: u32 = 0;
    proof {
        vstd::arithmetic::power2::lemma2_to64();
    }
    while i < d
        invariant
            i <= d <= 120,
            r == pow2(i as nat),
        decreases d - i,
    {
        proof {
            lemma_pow2_unfold((i + 1) as nat);
            if i < 120 {
                lemma_pow2_strictly_increases(i as nat, 120);
            }
            pow2_120();
        }
        r = r * 2;
        i = i + 1;
    }
    r
}

/// The number of binary digits of `m`.
fn digits(m: u128) -> (r: u32)
    requires
        m < 0x100_0000_0000_0000_0000_0000_0000_0000,
    ensures
        r == bit_length(m as nat),
        r <= 120,
{
    let mut rest: u128 = m;
    let mut r: u32 = 0;
    proof {
        pow2_120();
        if m > 0 {
            bit_length_bounds(m as nat);
            let b = (bit_length(m as nat) - 1) as nat;
            if b > 120 {
                lemma_pow2_strictly_increases(120, b);
            }
        }
    }
    while rest > 0
        invariant
            bit_length(m as nat) == r + bit_length(rest as nat),
            bit_length(m as nat) <= 120,
        decreases rest,
    {
        r = r + 1;
        rest = rest / 2;
    }
    r
}

proof fn keeps_53_digits(m: nat, drop: nat)
    requires
        m > 0,
        bit_length(m) <= 53 + drop,
    ensures
        m / pow2(drop) < 0x20_0000_0000_0000,
        drop == 0 ==> m < 0x20_0000_0000_0000,
{
    bit_length_bounds(m);
    if bit_length(m) < 53 + drop {
        lemma_pow2_strictly_increases(bit_length(m), 53 + drop);
    }
    lemma_pow2_adds(53, drop);
    lemma_pow2_pos(drop);
    vstd::arithmetic::power2::lemma2_to64();
    vstd::arithmetic::power2::lemma2_to64_rest();
    vstd::arithmetic::div_mod::lemma_multiply_divide_lt(
        m as int,
        pow2(drop) as int,
        pow2(53) as int,
    );
}

/// Rounds `m * 2^e` grains to binary64.
fn round_scaled(m: u128, e: u32) -> (r: Scaled)
    requires
        m < 0x100_0000_0000_0000_0000_0000_0000_0000,
        e <= 4000,
    ensures
        r.grains() == rounded(m * (pow2(e as nat) as int)),
        r.sig <= 0x20_0000_0000_0000,
        r.exp <= 5000,
{
    let len: u32 = digits(m);
    let place: u32 = if len + e <= 108 { 55 } else { len + e - 53 };
    let ghost n = (m * pow2(e as nat)) as nat;
    let ghost q = pow2(place as nat);
    proof {
        lemma_pow2_pos(e as nat);
        lemma_pow2_pos(place as nat);
        assert(n >= 0 && (m == 0 ==> n == 0)) by (nonlinear_arith)
            requires
                n == m * pow2(e as nat),
                m >= 0,
        ;
        if m > 0 {
            bit_length_scaled(m as nat, e as nat);
        }
    }
    if m == 0 {
        proof {
            lemma_pow2_pos(55);
            vstd::arithmetic::mul::lemma_mul_basics(pow2(55) as int);
            nearest_multiple_close(0, pow2(55), 0, 0);
        }
        return Scaled { sig: 0, exp: 55 };
    }
    if place <= e {
        proof {
            let f = m * pow2((e - place) as nat);
            lemma_pow2_adds((e - place) as nat, place as nat);
            assert(n == f * q) by (nonlinear_arith)
                requires
                    n == m * pow2(e as nat),
                    pow2((e - place) as nat) * q == pow2(e as nat),
                    f == m * pow2((e - place) as nat),
            ;
            nearest_multiple_close(n, q, f as nat, 0);
            keeps_53_digits(m as nat, 0);
        }
        return Scaled { sig: m, exp: e };
    }
    let drop: u32 = place - e;
    let unit: u128 = power(drop);
    proof {
        lemma_pow2_pos(drop as nat);
    }
    let below: u128 = m / unit;
    let rest: u128 = m % unit;
    proof {
        let p = pow2(e as nat);
        keeps_53_digits(m as nat, drop as nat);
        lemma_pow2_adds(drop as nat, e as nat);
        lemma_fundamental_div_mod(m as int, unit as int);
        assert(unit * p == q);
        assert(n == below * q + rest * p) by (nonlinear_arith)
            requires
                n == m * p,
                m == unit * below + rest,
                unit * p == q,
        ;
        assert(0 <= rest * p < q) by (nonlinear_arith)
            requires
                0 <= rest < unit,
                unit * p == q,
                p > 0,
        ;
        lemma_fundamental_div_mod_converse(n as int, q as int, below as int, rest * p);
        assert((2 * (rest * p) < q) == (2 * rest < unit) && (2 * (rest * p) == q) == (2 * rest
            == unit)) by (nonlinear_arith)
            requires
                unit * p == q,
                p > 0,
        ;
        pow2_120();
        if drop < 120 {
            lemma_pow2_strictly_increases(drop as nat, 120);
        }
    }
    if 2 * rest < unit || (2 * rest == unit && below % 2 == 0) {
        Scaled { sig: below, exp: place }
    } else {
        Scaled { sig: below + 1, exp: place }
    }
}

/// Adding to or taking from a number one that is more than `2^64` times smaller
/// in its last place does not change it.
proof fn small_part_is_lost(hi: nat, eh: nat, lo: nat, el: nat)
    requires
        0x10_0000_0000_0000 <= hi < 0x20_0000_0000_0000,
        lo < 0x20_0000_0000_0000,
        55 <= el,
        el + 65 <= eh,
    ensures
        hi * pow2(eh) > lo * pow2(el),
        rounded((hi * pow2(eh) + lo * pow2(el)) as int) == hi * pow2(eh),
        rounded(hi * pow2(eh) - lo * pow2(el)) == hi * pow2(eh),
{
    vstd::arithmetic::power2::lemma2_to64();
    vstd::arithmetic::power2::lemma2_to64_rest();
    let q = pow2(eh);
    let h = pow2((eh - 1) as nat);
    let x = lo * pow2(el);
    let a = hi * q;
    lemma_pow2_unfold(eh);
    lemma_pow2_unfold((eh - 1) as nat);
    let quarter = pow2((eh - 2) as nat);
    lemma_pow2_pos((eh - 2) as nat);
    // x < 2^(el + 53) < 2^(eh - 2)
    assert(0 <= x < quarter) by {
        lemma_pow2_pos(el);
        lemma_pow2_adds(53, el);
        assert(0 <= x < 0x20_0000_0000_0000 * pow2(el)) by (nonlinear_arith)
            requires
                x == lo * pow2(el),
                0 <= lo < 0x20_0000_0000_0000,
                pow2(el) > 0,
        ;
        lemma_pow2_strictly_increases(53 + el, (eh - 2) as nat);
    }
    lemma_pow2_adds(52, eh);
    lemma_pow2_adds(53, eh);
    lemma_pow2_adds(52, (eh - 1) as nat);
    lemma_pow2_adds(53, (eh - 1) as nat);
    assert(0x10_0000_0000_0000 * q <= a <= 0x20_0000_0000_0000 * q - q) by (nonlinear_arith)
        requires
            a == hi * q,
            0x10_0000_0000_0000 <= hi <= 0x20_0000_0000_0000 - 1,
            q >= 0,
    ;
    bit_length_unique((a + x) as nat, eh + 53);
    nearest_multiple_close((a + x) as nat, q, hi, x as int);
    if a - x >= pow2(52 + eh) {
        bit_length_unique((a - x) as nat, eh + 53);
        nearest_multiple_close((a - x) as nat, q, hi, -(x as int));
    } else {
        bit_length_unique((a - x) as nat, (eh + 52) as nat);
        assert(a == (2 * hi) * h) by (nonlinear_arith)
            requires
                a == hi * q,
                q == 2 * h,
        ;
        nearest_multiple_close((a - x) as nat, h, 2 * hi, -(x as int));
    }
}

impl Scaled {
    /// A magnitude as it stands in a finite latency.
    spec fn is_significand(self) -> bool {
        &&& self.sig < 0x20_0000_0000_0000
        &&& 55 <= self.exp <= 2100
        &&& self.exp > 55 ==> self.sig >= 0x10_0000_0000_0000
    }
}

/// The sum of two magnitudes, rounded.
fn total(a: &Scaled, b: &Scaled) -> (r: Scaled)
    requires
        a.is_significand(),
        b.is_significand(),
    ensures
        r.grains() == rounded(a.grains() + b.grains()),
        r.sig <= 0x20_0000_0000_0000,
        r.exp <= 5000,
{
    if a.exp < b.exp {
        return total_ordered(b, a);
    }
    total_ordered(a, b)
}

fn total_ordered(hi: &Scaled, lo: &Scaled) -> (r: Scaled)
    requires
        hi.is_significand(),
        lo.is_significand(),
        hi.exp >= lo.exp,
    ensures
        r.grains() == rounded(hi.grains() + lo.grains()),
        r.sig <= 0x20_0000_0000_0000,
        r.exp <= 5000,
{
    let d: u32 = hi.exp - lo.exp;
    if d > 64 {
        proof {
            small_part_is_lost(hi.sig as nat, hi.exp as nat, lo.sig as nat, lo.exp as nat);
        }
        return Scaled { sig: hi.sig, exp: hi.exp };
    }
    let unit: u128 = power(d);
    proof {
        aligned(*hi, *lo);
    }
    round_scaled(hi.sig * unit + lo.sig, lo.exp)
}

/// Two magnitudes counted in the smaller of their units.
proof fn aligned(hi: Scaled, lo: Scaled)
    requires
        hi.is_significand(),
        lo.is_significand(),
        lo.exp <= hi.exp <= lo.exp + 64,
    ensures
        0 < pow2((hi.exp - lo.exp) as nat) <= 0x1_0000_0000_0000_0000,
        0 <= hi.sig * pow2((hi.exp - lo.exp) as nat) < 0x20_0000_0000_0000_0000_0000_0000_0000,
        hi.grains() == hi.sig * pow2((hi.exp - lo.exp) as nat) * pow2(lo.exp as nat),
        hi.grains() + lo.grains() == (hi.sig * pow2((hi.exp - lo.exp) as nat) + lo.sig) * pow2(
            lo.exp as nat,
        ),
        hi.grains() - lo.grains() == (hi.sig * pow2((hi.exp - lo.exp) as nat) - lo.sig) * pow2(
            lo.exp as nat,
        ),
{
    let d = (hi.exp - lo.exp) as nat;
    let u = pow2(d);
    let p = pow2(lo.exp as nat);
    vstd::arithmetic::power2::lemma2_to64();
    vstd::arithmetic::power2::lemma2_to64_rest();
    lemma_pow2_pos(d);
    if d < 64 {
        lemma_pow2_strictly_increases(d, 64);
    }
    lemma_pow2_adds(d, lo.exp as nat);
    let s = hi.sig as int;
    let t = lo.sig as int;
    assert(0 <= s * u < 0x20_0000_0000_0000 * 0x1_0000_0000_0000_0000) by (nonlinear_arith)
        requires
            0 <= s < 0x20_0000_0000_0000,
            0 < u <= 0x1_0000_0000_0000_0000,
    ;
    assert(s * (u * p) == s * u * p) by (nonlinear_arith);
    assert(s * u * p + t * p == (s * u + t) * p) by (nonlinear_arith);
    assert(s * u * p - t * p == (s * u - t) * p) by (nonlinear_arith);
}

/// The difference of two magnitudes, rounded, where it is above zero.
fn excess(a: &Scaled, b: &Scaled) -> (r: Option<Scaled>)
    requires
        a.is_significand(),
        b.is_significand(),
    ensures
        match r {
            Some(d) => {
                &&& a.grains() > b.grains()
                &&& d.grains() == rounded(a.grains() - b.grains())
                &&& d.sig <= 0x20_0000_0000_0000
                &&& d.exp <= 5000
            },
            None => a.grains() <= b.grains(),
        },
{
    if a.exp >= b.exp {
        let d: u32 = a.exp - b.exp;
        if d > 64 {
            proof {
                small_part_is_lost(a.sig as nat, a.exp as nat, b.sig as nat, b.exp as nat);
            }
            return Some(Scaled { sig: a.sig, exp: a.exp });
        }
        let unit: u128 = power(d);
        proof {
            aligned(*a, *b);
            lemma_pow2_pos(b.exp as nat);
        }
        let top: u128 = a.sig * unit;
        proof {
            product_sign(top - b.sig, pow2(b.exp as nat) as int);
        }
        if top > b.sig {
            Some(round_scaled(top - b.sig, b.exp))
        } else {
            None
        }
    } else {
        let d: u32 = b.exp - a.exp;
        if d > 64 {
            proof {
                small_part_is_lost(b.sig as nat, b.exp as nat, a.sig as nat, a.exp as nat);
            }
            return None;
        }
        let unit: u128 = power(d);
        proof {
            aligned(*b, *a);
            lemma_pow2_pos(a.exp as nat);
        }
        let top: u128 = b.sig * unit;
        proof {
            product_sign(top - a.sig, pow2(a.exp as nat) as int);
            assert((a.sig - top) * pow2(a.exp as nat) == -((top - a.sig) * pow2(a.exp as nat)))
                by (nonlinear_arith);
        }
        if a.sig > top {
            Some(round_scaled(a.sig - top, a.exp))
        } else {
            None
        }
    }
}

proof fn product_sign(x: int, p: int)
    requires
        p > 0,
    ensures
        x > 0 <==> x * p > 0,
        x == 0 <==> x * p == 0,
{
    assert(x > 0 ==> x * p > 0) by (nonlinear_arith)
        requires
            p > 0,
    ;
    assert(x < 0 ==> x * p < 0) by (nonlinear_arith)
        requires
            p > 0,
    ;
}

/// `s * 2^(e + d)` stands to `t * 2^e` as `s * 2^d` to `t`.
proof fn common_unit(s: int, d: nat, t: int, e: nat)
    requires
        0 <= s <= 0x20_0000_0000_0000,
        0 <= t <= 0x20_0000_0000_0000,
    ensures
        s * pow2(e + d) > t * pow2(e) <==> s * pow2(d) > t,
        s * pow2(e + d) == t * pow2(e) <==> s * pow2(d) == t,
        d >= 54 && s > 0 ==> s * pow2(d) > t,
        d < 54 ==> 0 <= s * pow2(d) <= 0x20_0000_0000_0000 * 0x40_0000_0000_0000,
        d < 54 ==> 0 < pow2(d),
{
    vstd::arithmetic::power2::lemma2_to64();
    vstd::arithmetic::power2::lemma2_to64_rest();
    lemma_pow2_adds(e, d);
    lemma_pow2_pos(e);
    lemma_pow2_pos(d);
    let (u, p) = (pow2(d) as int, pow2(e) as int);
    assert(s * (p * u) - t * p == (s * u - t) * p) by (nonlinear_arith);
    product_sign(s * u - t, p);
    if d >= 54 && s > 0 {
        if d > 54 {
            lemma_pow2_strictly_increases(54, d);
        }
        assert(s * u >= u) by (nonlinear_arith)
            requires
                s >= 1,
                u >= 0,
        ;
    }
    if d < 54 {
        lemma_pow2_strictly_increases(d, 54);
        assert(0 <= s * u <= 0x20_0000_0000_0000 * 0x40_0000_0000_0000) by (nonlinear_arith)
            requires
                0 <= s <= 0x20_0000_0000_0000,
                0 <= u <= 0x40_0000_0000_0000,
        ;
    }
}

/// A magnitude is zero exactly if its digits are.
proof fn grains_sign(a: Scaled)
    ensures
        a.grains() >= 0,
        a.sig > 0 <==> a.grains() > 0,
{
    lemma_pow2_pos(a.exp as nat);
    product_sign(a.sig as int, pow2(a.exp as nat) as int);
}

/// Whether one magnitude is at least another.
fn reaches(a: &Scaled, b: &Scaled) -> (r: bool)
    requires
        a.sig <= 0x20_0000_0000_0000,
        b.sig <= 0x20_0000_0000_0000,
    ensures
        r == (a.grains() >= b.grains()),
{
    proof {
        grains_sign(*a);
        grains_sign(*b);
    }
    if a.exp >= b.exp {
        let d: u32 = a.exp - b.exp;
        proof {
            common_unit(a.sig as int, d as nat, b.sig as int, b.exp as nat);
        }
        if d >= 54 {
            a.sig > 0 || b.sig == 0
        } else {
            a.sig * power(d) >= b.sig
        }
    } else {
        let d: u32 = b.exp - a.exp;
        proof {
            common_unit(b.sig as int, d as nat, a.sig as int, a.exp as nat);
        }
        if d >= 54 {
            b.sig == 0
        } else {
            b.sig * power(d) <= a.sig
        }
    }
}

/// A bit pattern taken apart.
enum Parts {
    NotANumber,
    PlusInfinity,
    MinusInfinity,
    Finite { negative: bool, size: Scaled },
}

fn take_apart(bits: u64) -> (r: Parts)
    ensures
        match r {
            Parts::NotANumber => reading_of(bits) == Reading::NotANumber,
            Parts::PlusInfinity => reading_of(bits) == Reading::PlusInfinity,
            Parts::MinusInfinity => reading_of(bits) == Reading::MinusInfinity,
            Parts::Finite { negative, size } => {
                &&& size.is_significand()
                &&& size.grains() >= 0
                &&& reading_of(bits) == Reading::Finite(
                    if negative {
                        -size.grains()
                    } else {
                        size.grains()
                    },
                )
            },
        },
{
    let negative: bool = bits >= 0x8000_0000_0000_0000;
    let rest: u64 = bits % 0x8000_0000_0000_0000;
    let field: u64 = rest / 0x10_0000_0000_0000;
    let fraction: u64 = rest % 0x10_0000_0000_0000;
    if field == 2047 {
        if fraction != 0 {
            return Parts::NotANumber;
        }
        if negative {
            return Parts::MinusInfinity;
        }
        return Parts::PlusInfinity;
    }
    let size: Scaled = if field == 0 {
        Scaled { sig: fraction as u128, exp: 55 }
    } else {
        Scaled { sig: (fraction + 0x10_0000_0000_0000) as u128, exp: (field + 54) as u32 }
    };
    proof {
        assert(size.grains() >= 0) by (nonlinear_arith)
            requires
                size.grains() == size.sig * (pow2(size.exp as nat) as int),
        ;
    }
    Parts::Finite { negative, size }
}

/// Rounding does not carry a number past a power of two above it.
proof fn rounded_bound(n: nat, k: nat)
    requires
        n < pow2(k),
        55 <= k,
    ensures
        0 <= rounded(n as int) <= pow2(k),
{
    let place = last_place(n);
    let q = pow2(place);
    if n > 0 {
        bit_length_bounds(n);
        if bit_length(n) > k {
            if k < bit_length(n) - 1 {
                lemma_pow2_strictly_increases(k, (bit_length(n) - 1) as nat);
            }
        }
    } else {
        assert(bit_length(0) == 0);
    }
    assert(place <= k);
    let c = pow2((k - place) as nat);
    lemma_pow2_adds((k - place) as nat, place);
    lemma_pow2_pos(place);
    lemma_fundamental_div_mod(n as int, q as int);
    let below = n / q;
    assert(below < c) by (nonlinear_arith)
        requires
            n == q * below + n % q,
            n % q >= 0,
            n < c * q,
            q > 0,
    ;
    assert(below * q <= c * q && (below + 1) * q <= c * q && below * q >= 0) by (nonlinear_arith)
        requires
            0 <= below < c,
            q > 0,
    ;
}

/// The margin against the latency `p` grains, where that is not below zero.
proof fn margin_of_size(p: Scaled)
    requires
        p.is_significand(),
    ensures
        p.sig * FIFTH < 0x100_0000_0000_0000_0000_0000_0000_0000,
        ({
            let share = rounded(p.sig * FIFTH * (pow2((p.exp - 55) as nat) as int));
            &&& 0 <= share < pow2(2153)
            &&& fifth(Reading::Finite(p.grains())) == Reading::Finite(share)
        }),
{
    let e = (p.exp - 55) as nat;
    let s = p.sig as int;
    let f = FIFTH as int;
    let u = pow2(e) as int;
    let x = s * f * u;
    vstd::arithmetic::power2::lemma2_to64();
    vstd::arithmetic::power2::lemma2_to64_rest();
    lemma_pow2_pos(e);
    lemma_pow2_adds(53, 53);
    lemma_pow2_adds(106, e);
    assert(0 <= s * f < 0x20_0000_0000_0000 * 0x20_0000_0000_0000) by (nonlinear_arith)
        requires
            0 <= s < 0x20_0000_0000_0000,
            0 <= f < 0x20_0000_0000_0000,
    ;
    assert(0 <= x < pow2(106) * u) by (nonlinear_arith)
        requires
            x == s * f * u,
            0 <= s * f < pow2(106),
            u > 0,
    ;
    rounded_bound(x as nat, 106 + e);
    lemma_pow2_strictly_increases(106 + e, 2153);
    // The product by FIFTH is a whole number of grains.
    lemma_pow2_adds(e, 55);
    let h = pow2(55) as int;
    assert(p.grains() * f == x * h) by (nonlinear_arith)
        requires
            p.grains() == s * (u * h),
            x == s * f * u,
    ;
    lemma_pow2_pos(55);
    vstd::arithmetic::div_mod::lemma_div_multiples_vanish(x, h);
    vstd::arithmetic::mul::lemma_mul_is_commutative(x, h);
}

/// Every margin is at least fifteen milliseconds.
pub proof fn margin_is_at_least_fifteen_ms(prev: Reading)
    ensures
        fifteen_ms() > 0,
        at_least(margin(prev), Reading::Finite(fifteen_ms())),
{
    lemma_pow2_pos(1129);
}

/// A number that is not above zero does not round to one that is.
proof fn rounded_sign(x: int)
    requires
        x <= 0,
    ensures
        rounded(x) <= 0,
{
    if x == 0 {
        lemma_pow2_pos(55);
        assert(bit_length(0) == 0);
        nearest_multiple_close(0, pow2(55), 0, 0);
    }
}

/// A latency below zero has the smallest margin.
proof fn margin_of_negative(p: int)
    requires
        p <= 0,
    ensures
        margin(Reading::Finite(p)) == Reading::Finite(fifteen_ms()),
{
    let h = pow2(55) as int;
    lemma_pow2_pos(55);
    lemma_pow2_pos(1129);
    lemma_pow2_pos(2153);
    assert(p * FIFTH <= 0) by (nonlinear_arith)
        requires
            p <= 0,
    ;
    lemma_fundamental_div_mod(p * FIFTH, h);
    assert(p * FIFTH / h <= 0) by (nonlinear_arith)
        requires
            p * FIFTH == h * (p * FIFTH / h) + (p * FIFTH) % h,
            (p * FIFTH) % h >= 0,
            p * FIFTH <= 0,
            h > 0,
    ;
    rounded_sign(p * FIFTH / h);
}

/// What `clears` comes to on finite latencies.
proof fn clears_finite(p: int, n: int, m: int)
    requires
        margin(Reading::Finite(p)) == Reading::Finite(m),
        m < pow2(2153),
    ensures
        clears(Reading::Finite(p), Reading::Finite(n)) == (rounded(p - n) >= m),
        p <= n ==> rounded(p - n) < m,
{
    margin_is_at_least_fifteen_ms(Reading::Finite(p));
    lemma_pow2_pos(2153);
    if p <= n {
        rounded_sign(p - n);
    }
}

/// Whether a region measured at `new` is enough faster than the current region,
/// measured at `prev`: whether `prev - new >= max(15 ms, 20 % of prev)`.
pub fn clears_margin(prev: Latency, new: Latency) -> (r: bool)
    ensures
        r == clears(prev.reading(), new.reading()),
{
    let prev_parts: Parts = take_apart(prev.bits);
    let new_parts: Parts = take_apart(new.bits);
    proof {
        lemma_pow2_pos(1129);
        lemma_pow2_pos(2153);
    }
    match prev_parts {
        Parts::NotANumber | Parts::MinusInfinity => false,
        Parts::PlusInfinity => match new_parts {
            Parts::NotANumber | Parts::PlusInfinity => false,
            _ => true,
        },
        Parts::Finite { negative: prev_negative, size: p } => match new_parts {
            Parts::NotANumber | Parts::PlusInfinity => false,
            Parts::MinusInfinity => {
                proof {
                    if prev_negative {
                        margin_of_negative(-p.grains());
                    } else {
                        margin_of_size(p);
                    }
                }
                true
            },
            Parts::Finite { negative: new_negative, size: n } => finite_clears(
                prev_negative,
                &p,
                new_negative,
                &n,
            ),
        },
    }
}

fn finite_clears(prev_negative: bool, p: &Scaled, new_negative: bool, n: &Scaled) -> (r: bool)
    requires
        p.is_significand(),
        n.is_significand(),
        p.grains() >= 0,
        n.grains() >= 0,
    ensures
        r == clears(
            Reading::Finite(
                if prev_negative {
                    -p.grains()
                } else {
                    p.grains()
                },
            ),
            Reading::Finite(
                if new_negative {
                    -n.grains()
                } else {
                    n.grains()
                },
            ),
        ),
{
    let fifteen: Scaled = Scaled { sig: 15, exp: 1129 };
    proof {
        lemma_pow2_pos(1129);
        vstd::arithmetic::power2::lemma2_to64();
        lemma_pow2_adds(4, 1129);
        lemma_pow2_strictly_increases(1133, 2153);
    }
    let ghost x = if prev_negative { -p.grains() } else { p.grains() };
    let ghost y = if new_negative { -n.grains() } else { n.grains() };
    let gap: Scaled = match (prev_negative, new_negative) {
        (false, true) => total(p, n),
        (false, false) => match excess(p, n) {
            Some(d) => d,
            None => {
                proof {
                    margin_of_size(*p);
                    let share = fifth(Reading::Finite(x))->Finite_0;
                    let m = if share > fifteen_ms() { share } else { fifteen_ms() };
                    clears_finite(x, y, m);
                }
                return false;
            },
        },
        (true, true) => match excess(n, p) {
            Some(d) => d,
            None => {
                proof {
                    margin_of_negative(x);
                    clears_finite(x, y, fifteen_ms());
                }
                return false;
            },
        },
        (true, false) => {
            proof {
                margin_of_negative(x);
                clears_finite(x, y, fifteen_ms());
            }
            return false;
        },
    };
    assert(gap.grains() == rounded(x - y));
    if prev_negative {
        proof {
            margin_of_negative(x);
            clears_finite(x, y, fifteen_ms());
        }
        return reaches(&gap, &fifteen);
    }
    proof {
        margin_of_size(*p);
    }
    let share: Scaled = round_scaled(p.sig * FIFTH as u128, p.exp - 55);
    proof {
        let m = if share.grains() > fifteen_ms() { share.grains() } else { fifteen_ms() };
        clears_finite(x, y, m);
    }
    reaches(&gap, &fifteen) && reaches(&gap, &share)
}

/// Whether a latency is a number.
pub fn is_number(a: Latency) -> (r: bool)
    ensures
        r == (a.reading() !is NotANumber),
{
    match take_apart(a.bits) {
        Parts::NotANumber => false,
        _ => true,
    }
}

/// Whether one latency is below another: whether `a < b`.
pub fn below(a: Latency, b: Latency) -> (r: bool)
    ensures
        r == reads_below(a.reading(), b.reading()),
{
    match (take_apart(a.bits), take_apart(b.bits)) {
        (Parts::NotANumber, _) => false,
        (_, Parts::NotANumber) => false,
        (Parts::PlusInfinity, _) => false,
        (_, Parts::MinusInfinity) => false,
        (
            Parts::Finite { negative: a_negative, size: x },
            Parts::Finite { negative: b_negative, size: y },
        ) => {
            proof {
                grains_sign(x);
                grains_sign(y);
            }
            match (a_negative, b_negative) {
                (false, false) => !reaches(&x, &y),
                (true, true) => !reaches(&y, &x),
                (false, true) => false,
                (true, false) => x.sig > 0 || y.sig > 0,
            }
        },
        _ => true,
    }
}

proof fn nearest_multiple_monotone(n: nat, m: nat, q: nat)
    requires
        n <= m,
        q > 0,
    ensures
        nearest_multiple(n, q) <= nearest_multiple(m, q),
{
    vstd::arithmetic::div_mod::lemma_div_is_ordered(n as int, m as int, q as int);
    lemma_fundamental_div_mod(n as int, q as int);
    lemma_fundamental_div_mod(m as int, q as int);
    let (b, c) = (n / q, m / q);
    assert(b == c || (b + 1) * q <= c * q) by (nonlinear_arith)
        requires
            b <= c,
            q > 0,
    ;
    assert(b * q <= (b + 1) * q && c * q <= (c + 1) * q) by (nonlinear_arith)
        requires
            q > 0,
    ;
}

/// Rounding keeps the order of numbers.
pub proof fn rounding_is_monotone(x: int, y: int)
    requires
        x <= y,
    ensures
        rounded(x) <= rounded(y),
{
    if x >= 0 {
        size_rounding_is_monotone(x as nat, y as nat);
    } else if y < 0 {
        size_rounding_is_monotone((-y) as nat, (-x) as nat);
    } else {
        rounded_sign(x);
    }
}

proof fn size_rounding_is_monotone(n: nat, m: nat)
    requires
        n <= m,
    ensures
        rounded(n as int) <= rounded(m as int),
{
    let (i, j) = (last_place(n), last_place(m));
    lemma_pow2_pos(i);
    lemma_pow2_pos(j);
    assert(bit_length(0) == 0);
    if n > 0 {
        bit_length_bounds(n);
    }
    if m > 0 {
        bit_length_bounds(m);
    }
    if i == j {
        nearest_multiple_monotone(n, m, pow2(j));
    } else {
        if bit_length(m) < bit_length(n) {
            if bit_length(m) < bit_length(n) - 1 {
                lemma_pow2_strictly_increases(bit_length(m), (bit_length(n) - 1) as nat);
            }
            assert(false);
        }
        let k = (bit_length(m) - 1) as nat;
        if bit_length(n) < k {
            lemma_pow2_strictly_increases(bit_length(n), k);
        }
        lemma_pow2_pos(k);
        assert(n < pow2(k));
        rounded_bound(n, k);
        let q = pow2(j);
        lemma_pow2_adds(52, j);
        nearest_multiple_monotone(pow2(k), m, q);
        nearest_multiple_close(pow2(k), q, pow2(52), 0);
    }
}

/// Rounding moves a number by at most half of its last place.
proof fn rounding_error(n: nat)
    ensures
        2 * (rounded(n as int) - n) <= pow2(last_place(n)),
        2 * (n - rounded(n as int)) <= pow2(last_place(n)),
        n > 0 && last_place(n) > 55 ==> 0x10_0000_0000_0000 * pow2(last_place(n)) <= n,
{
    let q = pow2(last_place(n));
    lemma_pow2_pos(last_place(n));
    lemma_fundamental_div_mod(n as int, q as int);
    let b = n / q;
    assert((b + 1) * q == b * q + q && b * q == q * b) by (nonlinear_arith);
    if n > 0 && last_place(n) > 55 {
        bit_length_bounds(n);
        lemma_pow2_adds(52, last_place(n));
        vstd::arithmetic::power2::lemma2_to64_rest();
    }
}

/// A region that clears the margin has a strictly lower latency.
pub proof fn accepted_region_is_faster(prev: Reading, new: Reading)
    requires
        clears(prev, new),
    ensures
        at_least(prev, new),
        !at_least(new, prev),
{
    margin_is_at_least_fifteen_ms(prev);
    lemma_pow2_pos(2153);
    match (prev, new) {
        (Reading::Finite(p), Reading::Finite(n)) => {
            if p <= n {
                rounded_sign(p - n);
            }
        },
        _ => {},
    }
}

/// Of two regions at most one clears the margin against the other: on the same
/// measurements an accepted change is not taken back.
pub proof fn accepted_change_is_not_taken_back(prev: Reading, new: Reading)
    requires
        clears(prev, new),
    ensures
        !clears(new, prev),
{
    accepted_region_is_faster(prev, new);
    if clears(new, prev) {
        accepted_region_is_faster(new, prev);
    }
}

/// A region that is faster still clears the margin as well.
pub proof fn faster_still_is_accepted(prev: Reading, new: Reading, faster: Reading)
    requires
        clears(prev, new),
        at_least(new, faster),
    ensures
        clears(prev, faster),
{
    match (prev, new, faster) {
        (Reading::Finite(p), Reading::Finite(n), Reading::Finite(f)) => {
            rounding_is_monotone(p - n, p - f);
        },
        _ => {},
    }
}

/// The grains of a finite latency come in multiples of `2^55`.
proof fn finite_latency(l: Latency) -> (size: Scaled)
    requires
        l.reading() is Finite,
    ensures
        size.is_significand(),
        size.grains() >= 0,
        l.reading() == Reading::Finite(size.grains()) || l.reading() == Reading::Finite(
            -size.grains(),
        ),
{
    let size = Scaled { sig: significand(l.bits) as u128, exp: scale(l.bits) as u32 };
    assert(size.grains() >= 0) by (nonlinear_arith)
        requires
            size.grains() == size.sig * (pow2(size.exp as nat) as int),
    ;
    size
}

/// The exact product of which `fifth` is the rounding.
proof fn exact_fifth(p: Scaled) -> (y: int)
    requires
        p.is_significand(),
    ensures
        0 <= y,
        fifth(Reading::Finite(p.grains())) == Reading::Finite(rounded(y)),
        0 <= rounded(y) < pow2(2153),
        0x140_0000_0000_0000 * y == 0x40_0000_0000_0001 * p.grains(),
{
    margin_of_size(p);
    let s = p.sig as int;
    let u = pow2((p.exp - 55) as nat) as int;
    let y = s * FIFTH * u;
    vstd::arithmetic::power2::lemma2_to64_rest();
    lemma_pow2_adds((p.exp - 55) as nat, 55);
    assert(y >= 0) by (nonlinear_arith)
        requires
            y == s * FIFTH * u,
            s >= 0,
            u >= 0,
    ;
    assert(0x140_0000_0000_0000 * y == 0x40_0000_0000_0001 * (s * (u * 0x80_0000_0000_0000)))
        by (nonlinear_arith)
        requires
            y == s * 0x19_9999_9999_999A * u,
    ;
    y
}

/// A number that rounds to fifteen milliseconds or more is not tiny.
proof fn not_tiny(x: int)
    requires
        rounded(x) >= fifteen_ms(),
    ensures
        x >= pow2(1129),
        last_place(x as nat) > 55,
{
    lemma_pow2_pos(1129);
    if x <= 0 {
        rounded_sign(x);
    } else {
        if x < pow2(1129) {
            rounded_bound(x as nat, 1129);
        }
        bit_length_bounds(x as nat);
        if bit_length(x as nat) <= 108 {
            lemma_pow2_strictly_increases(bit_length(x as nat), 1129);
        }
    }
}

/// What clears the margin is faster by fifteen milliseconds and by a fifth, to
/// within the rounding of binary64 (one part in `2^53` on either side).
pub proof fn accepted_change_meets_the_margin(prev: Latency, new: Latency)
    requires
        prev.reading() is Finite,
        new.reading() is Finite,
        clears(prev.reading(), new.reading()),
    ensures
        ({
            let p = prev.reading()->Finite_0;
            let n = new.reading()->Finite_0;
            &&& 0x20_0000_0000_0001 * (p - n) >= 0x20_0000_0000_0000 * fifteen_ms()
            &&& 0x20_0000_0000_0001 * (5 * (p - n)) >= 0x1F_FFFF_FFFF_FFFF * p
        }),
{
    let p = prev.reading()->Finite_0;
    let n = new.reading()->Finite_0;
    let x = p - n;
    let r = rounded(x);
    margin_is_at_least_fifteen_ms(prev.reading());
    lemma_pow2_pos(2153);
    vstd::arithmetic::power2::lemma2_to64();
    lemma_pow2_adds(4, 1129);
    lemma_pow2_strictly_increases(1133, 2153);
    assert(r >= fifteen_ms());
    not_tiny(x);
    rounding_error(x as nat);
    let size = finite_latency(prev);
    assert(0x20_0000_0000_0000 * r <= 0x20_0000_0000_0001 * x);
    if p > 0 {
        assert(p == size.grains());
        let y = exact_fifth(size);
        assert(r >= rounded(y));
        rounding_error(y as nat);
        assert(5 * y >= p);
        if last_place(y as nat) == 55 {
            // a fifth this small is nothing against x
            assert(y < pow2(1070)) by {
                if y > 0 {
                    bit_length_bounds(y as nat);
                    lemma_pow2_strictly_increases(bit_length(y as nat), 1070);
                } else {
                    lemma_pow2_pos(1070);
                }
            }
            lemma_pow2_adds(59, 1070);
            vstd::arithmetic::power2::lemma2_to64_rest();
        }
    }
}

/// What is faster by fifteen milliseconds and by a fifth (as binary64 writes a
/// fifth, one part in `2^54` above it) clears the margin.
pub proof fn change_that_meets_the_margin_is_accepted(prev: Latency, new: Latency)
    requires
        prev.reading() is Finite,
        new.reading() is Finite,
        prev.reading()->Finite_0 - new.reading()->Finite_0 >= fifteen_ms(),
        0x40_0000_0000_0000 * (5 * (prev.reading()->Finite_0 - new.reading()->Finite_0))
            >= 0x40_0000_0000_0001 * prev.reading()->Finite_0,
    ensures
        clears(prev.reading(), new.reading()),
{
    let p = prev.reading()->Finite_0;
    let n = new.reading()->Finite_0;
    let x = p - n;
    fifteen_is_exact();
    rounding_is_monotone(fifteen_ms(), x);
    let size = finite_latency(prev);
    if p > 0 {
        assert(p == size.grains());
        let y = exact_fifth(size);
        assert(y <= x);
        rounding_is_monotone(y, x);
    } else {
        margin_of_negative(p);
    }
    lemma_pow2_pos(2153);
}

proof fn fifteen_is_exact()
    ensures
        rounded(fifteen_ms()) == fifteen_ms(),
        fifteen_ms() < pow2(2153),
{
    whole_ms_is_exact(15);
    vstd::arithmetic::power2::lemma2_to64();
    lemma_pow2_adds(4, 1129);
    lemma_pow2_strictly_increases(1133, 2153);
}

/// A whole number of milliseconds, up to `2^53`, is a multiple of its last place.
proof fn whole_ms_is_exact(a: nat)
    requires
        0 < a < 0x20_0000_0000_0000,
    ensures
        rounded((a * pow2(1129)) as int) == a * pow2(1129),
{
    bit_length_scaled(a, 1129);
    bit_length_bounds(a);
    let n = a * pow2(1129);
    let place = last_place(n);
    vstd::arithmetic::power2::lemma2_to64_rest();
    if bit_length(a) > 53 {
        if bit_length(a) - 1 > 53 {
            lemma_pow2_strictly_increases(53, (bit_length(a) - 1) as nat);
        }
    }
    assert(place <= 1129);
    let c = pow2((1129 - place) as nat);
    lemma_pow2_adds((1129 - place) as nat, place);
    lemma_pow2_pos(place);
    assert(n == (a * c) * pow2(place)) by (nonlinear_arith)
        requires
            n == a * pow2(1129),
            pow2(1129) == c * pow2(place),
    ;
    nearest_multiple_close(n, pow2(place), a * c, 0);
}

/// A fifth of a whole number of milliseconds that five divides is exact.
proof fn whole_fifth_is_exact(c: nat, y: int)
    requires
        0 < c < 0x4_0000_0000_0000,
        0x40_0000_0000_0000 * y == 0x40_0000_0000_0001 * (c * pow2(1129)),
    ensures
        rounded(y) == c * pow2(1129),
{
    let x = c * pow2(1129);
    bit_length_scaled(c, 1129);
    let place = last_place(y as nat);
    let q = pow2(place);
    lemma_pow2_pos(1129);
    assert(x >= pow2(1129)) by (nonlinear_arith)
        requires
            x == c * pow2(1129),
            c >= 1,
    ;
    assert(x >= 0x40_0000_0000_0000) by {
        vstd::arithmetic::power2::lemma2_to64_rest();
        lemma_pow2_strictly_increases(54, 1129);
    }
    assert(x < y < 2 * x);
    // y has at most one binary digit more than x, hence the last place of y is
    // at most a millisecond and at least 2^-53 of y
    bit_length_bounds(y as nat);
    bit_length_bounds(x);
    bit_length_bounds(c);
    vstd::arithmetic::power2::lemma2_to64();
    vstd::arithmetic::power2::lemma2_to64_rest();
    let b = bit_length(x);
    if bit_length(c) > 50 {
        if bit_length(c) > 51 {
            lemma_pow2_strictly_increases(50, (bit_length(c) - 1) as nat);
        }
    }
    assert(b <= 1179);
    lemma_pow2_unfold(b + 1);
    if bit_length(y as nat) > b + 1 {
        if bit_length(y as nat) > b + 2 {
            lemma_pow2_strictly_increases(b + 1, (bit_length(y as nat) - 1) as nat);
        }
    }
    if bit_length(y as nat) <= 108 {
        lemma_pow2_strictly_increases(bit_length(y as nat), 1129);
    }
    assert(place <= 1127);
    lemma_pow2_adds(53, place);
    assert(y < 0x20_0000_0000_0000 * q);
    let d = pow2((1129 - place) as nat);
    lemma_pow2_adds((1129 - place) as nat, place);
    assert(x == (c * d) * q) by (nonlinear_arith)
        requires
            x == c * pow2(1129),
            pow2(1129) == d * q,
    ;
    nearest_multiple_close(y as nat, q, c * d, y - x);
}

/// On whole milliseconds the rule is exact: a region at `b` ms replaces one at
/// `a` ms if and only if it is at least 15 ms and at least 20 % faster.
pub proof fn whole_milliseconds_are_decided_exactly(prev: Latency, new: Latency, a: int, b: int)
    requires
        prev.reading() == Reading::Finite(a * pow2(1129)),
        new.reading() == Reading::Finite(b * pow2(1129)),
        a < 0x8_0000_0000_0000,
    ensures
        clears(prev.reading(), new.reading()) <==> a - b >= 15 && 5 * (a - b) >= a,
{
    let ms = pow2(1129) as int;
    let (p, n) = (a * ms, b * ms);
    lemma_pow2_pos(1129);
    assert(p - n == (a - b) * ms) by (nonlinear_arith)
        requires
            p == a * ms,
            n == b * ms,
    ;
    if clears(prev.reading(), new.reading()) {
        accepted_change_meets_the_margin(prev, new);
        assert(a - b >= 15) by (nonlinear_arith)
            requires
                0x20_0000_0000_0001 * (p - n) >= 0x20_0000_0000_0000 * (15 * ms),
                p - n == (a - b) * ms,
                ms > 0,
        ;
        assert(0x20_0000_0000_0001 * (5 * (a - b)) >= 0x1F_FFFF_FFFF_FFFF * a) by (nonlinear_arith)
            requires
                0x20_0000_0000_0001 * (5 * (p - n)) >= 0x1F_FFFF_FFFF_FFFF * p,
                p - n == (a - b) * ms,
                p == a * ms,
                ms > 0,
        ;
    }
    if a - b >= 15 && 5 * (a - b) >= a {
        let c = a - b;
        assert(p - n >= fifteen_ms()) by (nonlinear_arith)
            requires
                p - n == c * ms,
                c >= 15,
                fifteen_ms() == 15 * ms,
                ms > 0,
        ;
        if 5 * c == a {
            let size = finite_latency(prev);
            assert(p > 0) by (nonlinear_arith)
                requires
                    p == a * ms,
                    a > 0,
                    ms > 0,
            ;
            let y = exact_fifth(size);
            assert(p == 5 * (c * ms)) by (nonlinear_arith)
                requires
                    p == a * ms,
                    5 * c == a,
            ;
            whole_fifth_is_exact(c as nat, y);
            whole_ms_is_exact(c as nat);
            fifteen_is_exact();
            lemma_pow2_pos(2153);
        } else {
            assert(0x40_0000_0000_0000 * (5 * (p - n)) >= 0x40_0000_0000_0001 * p)
                by (nonlinear_arith)
                requires
                    p - n == c * ms,
                    p == a * ms,
                    5 * c >= a + 1,
                    a < 0x8_0000_0000_0000,
                    ms > 0,
            ;
            change_that_meets_the_margin_is_accepted(prev, new);
        }
    }
}

/// A pattern reads as binary64 says: with sign, exponent `e` and fraction `f`, it
/// is `f * 2^-1074` ms where `e` is 0, `(2^52 + f) * 2^(e - 1075)` ms where `e` is
/// between, and infinite or no number where `e` is 2047. A millisecond has `2^1129`
/// grains.
pub proof fn patterns_read_as_binary64(l: Latency, negative: bool, e: int, f: int)
    requires
        0 <= e <= 2047,
        0 <= f < 0x10_0000_0000_0000,
        l.bits == (if negative {
            0x8000_0000_0000_0000int
        } else {
            0
        }) + e * 0x10_0000_0000_0000 + f,
    ensures
        e == 2047 && f != 0 ==> l.reading() == Reading::NotANumber,
        e == 2047 && f == 0 && negative ==> l.reading() == Reading::MinusInfinity,
        e == 2047 && f == 0 && !negative ==> l.reading() == Reading::PlusInfinity,
        e == 0 && negative ==> l.reading() == Reading::Finite(-(f * pow2(55))),
        e == 0 && !negative ==> l.reading() == Reading::Finite(f * pow2(55)),
        0 < e < 2047 && negative ==> l.reading() == Reading::Finite(
            -((0x10_0000_0000_0000 + f) * pow2((e + 54) as nat)),
        ),
        0 < e < 2047 && !negative ==> l.reading() == Reading::Finite(
            (0x10_0000_0000_0000 + f) * pow2((e + 54) as nat),
        ),
{
    let rest = e * 0x10_0000_0000_0000 + f;
    assert(0 <= rest < 0x8000_0000_0000_0000);
    assert(unsigned_bits(l.bits) == rest);
    assert(exponent_field(l.bits) == e);
    assert(fraction_field(l.bits) == f);
}

/// One latency is below another as the numbers are; a latency that is no number is
/// neither below nor above any.
pub proof fn latencies_are_ordered_as_numbers(a: Reading, b: Reading)
    ensures
        a is NotANumber || b is NotANumber ==> !reads_below(a, b),
        a is Finite && b is Finite ==> (reads_below(a, b) <==> a->Finite_0 < b->Finite_0),
        a is MinusInfinity && b !is NotANumber ==> (reads_below(a, b) <==> b !is MinusInfinity),
        b is PlusInfinity && a !is NotANumber ==> (reads_below(a, b) <==> a !is PlusInfinity),
        a is PlusInfinity ==> !reads_below(a, b),
        b is MinusInfinity ==> !reads_below(a, b),
{
}

/// The margin on what is no finite number: a region that no number is known for
/// never wins, a finite one wins against an infinite one, and an infinitely fast
/// one wins against every other.
pub proof fn margins_of_what_is_not_finite(prev: Latency, new: Latency)
    ensures
        prev.reading() is NotANumber || new.reading() is NotANumber ==> !clears(
            prev.reading(),
            new.reading(),
        ),
        prev.reading() is MinusInfinity || new.reading() is PlusInfinity ==> !clears(
            prev.reading(),
            new.reading(),
        ),
        prev.reading() is PlusInfinity && (new.reading() is Finite || new.reading() is MinusInfinity)
            ==> clears(prev.reading(), new.reading()),
        prev.reading() is Finite && new.reading() is MinusInfinity ==> clears(
            prev.reading(),
            new.reading(),
        ),
{
    lemma_pow2_pos(1129);
    lemma_pow2_pos(2153);
    if prev.reading() is Finite {
        finite_margin(prev);
    }
}

/// The margin of a finite latency is finite, and the larger of fifteen milliseconds
/// and a rounded fifth.
proof fn finite_margin(prev: Latency) -> (m: int)
    requires
        prev.reading() is Finite,
    ensures
        margin(prev.reading()) == Reading::Finite(m),
        m < pow2(2153),
        ({
            let share = rounded(prev.reading()->Finite_0 * FIFTH / pow2(55) as int);
            m == if share > fifteen_ms() {
                share
            } else {
                fifteen_ms()
            }
        }),
{
    let p = prev.reading()->Finite_0;
    let h = pow2(55) as int;
    lemma_pow2_pos(55);
    lemma_pow2_pos(1129);
    lemma_pow2_pos(2153);
    vstd::arithmetic::power2::lemma2_to64();
    lemma_pow2_adds(4, 1129);
    lemma_pow2_strictly_increases(1133, 2153);
    let size = finite_latency(prev);
    if p > 0 {
        margin_of_size(size);
    } else {
        margin_of_negative(p);
        assert(p * FIFTH <= 0) by (nonlinear_arith)
            requires
                p <= 0,
        ;
        lemma_fundamental_div_mod(p * FIFTH, h);
        assert(p * FIFTH / h <= 0) by (nonlinear_arith)
            requires
                p * FIFTH == h * (p * FIFTH / h) + (p * FIFTH) % h,
                (p * FIFTH) % h >= 0,
                p * FIFTH <= 0,
                h > 0,
        ;
        rounded_sign(p * FIFTH / h);
    }
    margin(prev.reading())->Finite_0
}

/// The rule on finite latencies, in grains: the rounded difference is at least
/// fifteen milliseconds, and at least the rounded product with the binary64 number
/// for 0.20, which is `0x19_9999_9999_999A / 2^55`.
pub proof fn finite_latencies_are_decided_by_the_rule(prev: Latency, new: Latency, p: int, n: int)
    requires
        prev.reading() == Reading::Finite(p),
        new.reading() == Reading::Finite(n),
    ensures
        clears(prev.reading(), new.reading()) <==> {
            &&& rounded(p - n) >= 15 * pow2(1129)
            &&& rounded(p - n) >= rounded(p * 0x19_9999_9999_999A / (pow2(55) as int))
        },
{
    let m = finite_margin(prev);
    clears_finite(p, n, m);
}

/// Of the multiples of `q`, none is nearer to `n` than `nearest_multiple`, and of
/// two that are equally near it is the even one.
proof fn no_multiple_is_nearer(n: nat, q: nat, f: int)
    requires
        q > 0,
    ensures
        ({
            let y = nearest_multiple(n, q) as int;
            let r = f * q;
            let (near, far) = (
                if y < n {
                    n - y
                } else {
                    y - n
                },
                if r < n {
                    n - r
                } else {
                    r - n
                },
            );
            &&& near <= far
            &&& near == far && r != y ==> (r - y == q || y - r == q) && y % (2 * q as int) == 0
        }),
{
    let (b, t) = ((n / q) as int, (n % q) as int);
    let w = q as int;
    lemma_fundamental_div_mod(n as int, w);
    assert((b + 1) * w == b * w + w && b * w == w * b) by (nonlinear_arith);
    assert(f <= b - 1 ==> f * w <= b * w - w) by (nonlinear_arith)
        requires
            w > 0,
    ;
    assert(f >= b + 2 ==> f * w >= b * w + 2 * w) by (nonlinear_arith)
        requires
            w > 0,
    ;
    assert(f == b ==> f * w == b * w);
    assert(f == b + 1 ==> f * w == (b + 1) * w);
    let c = if 2 * t < w || (2 * t == w && b % 2 == 0) {
        b
    } else {
        b + 1
    };
    assert(nearest_multiple(n, q) == c * w);
    if c % 2 == 0 {
        assert(c * w == (c / 2) * (2 * w)) by (nonlinear_arith)
            requires
                c == 2 * (c / 2),
        ;
        vstd::arithmetic::div_mod::lemma_mod_multiples_basic(c / 2, 2 * w);
    }
}

/// No binary64 number (and none with a larger exponent) is nearer to a number of
/// grains than the one that it is rounded to; of two that are equally near, it is
/// the one with the even last digit.
pub proof fn rounding_goes_to_the_nearest(x: int, m: int, k: nat)
    requires
        -0x20_0000_0000_0000 <= m <= 0x20_0000_0000_0000,
        k >= 55,
    ensures
        ({
            let y = rounded(x);
            let r = m * pow2(k);
            let (near, far) = (
                if y < x {
                    x - y
                } else {
                    y - x
                },
                if r < x {
                    x - r
                } else {
                    r - x
                },
            );
            let gap = if r < y {
                y - r
            } else {
                r - y
            };
            &&& near <= far
            &&& near == far && r != y ==> y % (2 * gap) == 0
        }),
{
    if x < 0 {
        size_goes_to_the_nearest((-x) as nat, -m, k);
        let p = pow2(k) as int;
        assert((-m) * p == -(m * p)) by (nonlinear_arith);
        let y = rounded(x);
        let r = m * p;
        let gap = if r < y {
            y - r
        } else {
            r - y
        };
        if gap > 0 && (-y) % (2 * gap) == 0 {
            lemma_fundamental_div_mod(-y, 2 * gap);
            let c = (-y) / (2 * gap);
            assert(y == (-c) * (2 * gap)) by (nonlinear_arith)
                requires
                    -y == (2 * gap) * c,
            ;
            vstd::arithmetic::div_mod::lemma_mod_multiples_basic(-c, 2 * gap);
        }
    } else {
        size_goes_to_the_nearest(x as nat, m, k);
    }
}

proof fn size_goes_to_the_nearest(n: nat, m: int, k: nat)
    requires
        -0x20_0000_0000_0000 <= m <= 0x20_0000_0000_0000,
        k >= 55,
    ensures
        ({
            let y = nearest_multiple(n, pow2(last_place(n))) as int;
            let r = m * pow2(k);
            let (near, far) = (
                if y < n {
                    n - y
                } else {
                    y - n
                },
                if r < n {
                    n - r
                } else {
                    r - n
                },
            );
            let gap = if r < y {
                y - r
            } else {
                r - y
            };
            &&& near <= far
            &&& near == far && r != y ==> y % (2 * gap) == 0
        }),
{
    let place = last_place(n);
    let q = pow2(place);
    lemma_pow2_pos(place);
    if k >= place {
        let u = pow2((k - place) as nat) as int;
        lemma_pow2_adds((k - place) as nat, place);
        assert(m * (u * q) == (m * u) * q) by (nonlinear_arith);
        no_multiple_is_nearer(n, q, m * u);
    } else {
        assert(bit_length(0) == 0);
        rounding_error(n);
        vstd::arithmetic::power2::lemma2_to64_rest();
        lemma_pow2_adds(53, k);
        lemma_pow2_adds(52, place);
        if k + 1 < place {
            lemma_pow2_strictly_increases(53 + k, 52 + place);
        }
        let p = pow2(k) as int;
        assert(m * p <= 0x20_0000_0000_0000 * p) by (nonlinear_arith)
            requires
                m <= 0x20_0000_0000_0000,
                p >= 0,
        ;
        no_multiple_is_nearer(n, q, 0x10_0000_0000_0000);
    }
}

/// What a number of grains is rounded to has at most 53 binary digits, of which
/// none stands below `2^55` grains.
pub proof fn rounding_gives_53_digits(x: int)
    ensures
        exists|m: int, k: nat|
            -0x20_0000_0000_0000 <= m <= 0x20_0000_0000_0000 && k >= 55 && rounded(x)
                == #[trigger] (m * pow2(k)),
{
    let n: nat = if x < 0 {
        (-x) as nat
    } else {
        x as nat
    };
    let place = last_place(n);
    let q = pow2(place) as int;
    let y = nearest_multiple(n, pow2(place)) as int;
    lemma_pow2_pos(place);
    lemma_pow2_adds(53, place);
    vstd::arithmetic::power2::lemma2_to64_rest();
    assert(bit_length(0) == 0);
    if n > 0 {
        bit_length_bounds(n);
        if bit_length(n) < place + 53 {
            lemma_pow2_strictly_increases(bit_length(n), place + 53);
        }
    } else {
        lemma_pow2_pos(place + 53);
    }
    rounded_bound(n, place + 53);
    let b = (n / pow2(place)) as int;
    let c = if 2 * (n % pow2(place)) < q || (2 * (n % pow2(place)) == q && b % 2 == 0) {
        b
    } else {
        b + 1
    };
    assert(y == c * q);
    assert(c <= 0x20_0000_0000_0000) by (nonlinear_arith)
        requires
            c * q <= 0x20_0000_0000_0000 * q,
            q > 0,
    ;
    assert(b >= 0);
    if x < 0 {
        assert((-c) * q == -(c * q)) by (nonlinear_arith);
        assert(rounded(x) == (-c) * pow2(place));
    } else {
        assert(rounded(x) == c * pow2(place));
    }
}

} // verus!
