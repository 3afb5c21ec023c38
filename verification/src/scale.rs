//! Scale factors. A factor is held as the bits of an IEEE 754 double, the form
//! in which it stands in a profile and on the wire, and everything computed
//! from it is computed on whole numbers.

use vstd::arithmetic::power2::*;
use vstd::prelude::*;

verus! {

/// A scale factor: the bits of a double.
#[derive(Clone, Copy, Debug, PartialEq, Eq, Structural)]
pub struct Scale {
    pub bits: u64,
}

/// The bits of the factor one.
pub const ONE: u64 = 0x3ff0_0000_0000_0000;

/// The bits of the infinite factor, above those of every finite one.
pub const INFINITE: u64 = 0x7ff0_0000_0000_0000;

/// The sign bit.
pub const SIGN: u64 = 0x8000_0000_0000_0000;

/// The first mantissa of 53 bits, and the weight of the exponent bits.
pub const UNIT: u64 = 0x10_0000_0000_0000;

/// The compositor's scale step is one 120th.
pub const STEPS: u64 = 120;

/// The bits of the factor `0x80_0000`, which the fixed point numbers of the protocol
/// stay below.
pub const UNCARRIED: u64 = 0x4160_0000_0000_0000;

/// `a / b` rounded to the nearest whole number; halves go to the even one.
pub open spec fn nearest_even(a: nat, b: nat) -> nat {
    let q = a / b;
    let r = a % b;
    if 2 * r > b || (2 * r == b && q % 2 == 1) {
        q + 1
    } else {
        q
    }
}

/// `a / b` rounded to the nearest whole number; halves go up.
pub open spec fn nearest_up(a: nat, b: nat) -> nat {
    (2 * a + b) / (2 * b)
}

/// By how many bits a number is longer than 53 bits.
pub open spec fn excess(p: nat) -> nat
    decreases p,
{
    if p < 2 * UNIT {
        0
    } else {
        1 + excess(p / 2)
    }
}

/// The double nearest to `k` times the double `m * 2^e`, rounded to a whole
/// number.
pub open spec fn product_rounded(m: nat, e: int, k: nat) -> nat {
    let p = m * k;
    let j = excess(p);
    let r = nearest_even(p, pow2(j));
    let x = e + j;
    if x >= 0 {
        r * pow2(x as nat)
    } else {
        nearest_up(r, pow2((-x) as nat))
    }
}

/// How often `n` has to be doubled until `n / d` fills 53 bits.
pub open spec fn doublings(n: nat, d: nat) -> nat
    decreases
        (if n < d * 0x10_0000_0000_0000 {
            d * 0x10_0000_0000_0000 - n
        } else {
            0
        }),
{
    if n == 0 || n >= d * 0x10_0000_0000_0000 {
        0
    } else {
        1 + doublings(2 * n, d)
    }
}

/// How often `n` has to be halved until `n / d` fits in 53 bits.
pub open spec fn halvings(n: nat, d: nat) -> nat
    decreases
        (if n < d {
            0
        } else {
            n - d + 1
        }),
{
    if d == 0 || n < d * 0x20_0000_0000_0000 {
        0
    } else {
        1 + halvings(n, 2 * d)
    }
}

/// The bits of the double nearest to `n / d`, as if there were no largest double.
pub open spec fn quotient_bits(n: nat, d: nat) -> int {
    let u = doublings(n, d);
    let w = halvings(n, d);
    (1074 + w - u) * 0x10_0000_0000_0000 + nearest_even(n * pow2(u), d * pow2(w))
}

/// The double nearest to `n / d`; nought stays nought, and what is above every
/// double is infinite.
pub open spec fn quotient(n: nat, d: nat) -> u64 {
    if n == 0 {
        0
    } else if quotient_bits(n, d) >= INFINITE {
        INFINITE
    } else {
        quotient_bits(n, d) as u64
    }
}

/// `k` times the double nearest to `n / d`, rounded to the nearest double and then
/// to the nearest whole number; as if there were no smallest double and no
/// largest.
pub open spec fn ratio_times(n: nat, d: nat, k: nat) -> nat {
    let u = doublings(n, d);
    let w = halvings(n, d);
    product_rounded(nearest_even(n * pow2(u), d * pow2(w)), w - u, k)
}

impl Scale {
    /// Whether the factor has a minus sign.
    pub open spec fn is_negative(self) -> bool {
        self.bits >= SIGN
    }

    /// The bits without the sign.
    pub open spec fn size(self) -> u64 {
        self.bits % SIGN
    }

    /// Whether the factor is a number: neither infinite nor no number at all.
    pub open spec fn is_finite(self) -> bool {
        self.size() < INFINITE
    }

    /// Whether the factor is above nought.
    pub open spec fn is_positive(self) -> bool {
        0 < self.bits <= INFINITE
    }

    /// Whether the factor is not above nought, and so makes one, or is one that the
    /// protocol carries. The bits of factors above nought are in the order of the
    /// factors.
    pub open spec fn is_carried(self) -> bool {
        !self.is_positive() || self.bits < UNCARRIED
    }

    /// The whole number `m` in the size `m * 2^e` of a finite factor.
    pub open spec fn mantissa(self) -> nat {
        if self.size() < UNIT {
            self.size() as nat
        } else {
            (self.size() % UNIT + UNIT) as nat
        }
    }

    /// The power `e` in the size `m * 2^e` of a finite factor.
    pub open spec fn power(self) -> int {
        if self.size() < UNIT {
            -1074
        } else {
            self.size() / UNIT - 1075
        }
    }

    /// The number of 120ths that the compositor makes of the factor: the nearest,
    /// but at least one; of a factor that is not above nought, the number that
    /// makes one. Of an infinite factor there is none.
    pub open spec fn steps(self) -> Option<nat> {
        if !self.is_positive() {
            Some(STEPS as nat)
        } else if self.bits == INFINITE || product_rounded(self.mantissa(), self.power(), STEPS as nat)
            >= pow2(1024) {
            None
        } else if product_rounded(self.mantissa(), self.power(), STEPS as nat) == 0 {
            Some(1nat)
        } else {
            Some(product_rounded(self.mantissa(), self.power(), STEPS as nat))
        }
    }

    /// The factor that so many 120ths make.
    pub open spec fn of_steps(steps: Option<nat>) -> Scale {
        match steps {
            Some(n) => Scale { bits: quotient(n, STEPS as nat) },
            None => Scale { bits: INFINITE },
        }
    }

    /// The factor rounded to thousandths; its sign stays.
    pub open spec fn thousandths(self) -> Scale {
        if !self.is_finite() {
            self
        } else {
            let n = product_rounded(self.mantissa(), self.power(), 1000);
            let size = if n >= pow2(1024) {
                INFINITE
            } else {
                quotient(n, 1000)
            };
            Scale { bits: (size + (if self.is_negative() { SIGN } else { 0 })) as u64 }
        }
    }
}

proof fn lemma_excess(p: nat)
    ensures
        p < 0x20_0000_0000_0000 * pow2(excess(p)),
        excess(p) > 0 ==> p >= 0x10_0000_0000_0000 * pow2(excess(p)),
    decreases p,
{
    lemma2_to64();
    if p >= 2 * UNIT {
        lemma_excess(p / 2);
        lemma_pow2_unfold(excess(p));
        let j = excess(p / 2);
        if j == 0 {
            assert(p / 2 >= UNIT);
        }
    }
}


proof fn lemma_nearest_even_scaled(a: nat, b: nat)
    requires
        b > 0,
    ensures
        nearest_even(2 * a, 2 * b) == nearest_even(a, b),
{
    let q = a / b;
    let r = a % b;
    vstd::arithmetic::div_mod::lemma_fundamental_div_mod(a as int, b as int);
    assert(2 * a == q * (2 * b) + 2 * r) by (nonlinear_arith)
        requires
            a == b * q + r,
    ;
    vstd::arithmetic::div_mod::lemma_fundamental_div_mod_converse(
        2 * a as int,
        2 * b as int,
        q as int,
        2 * r as int,
    );
}

proof fn lemma_halvings_scaled(n: nat, d: nat)
    requires
        d > 0,
    ensures
        halvings(2 * n, 2 * d) == halvings(n, d),
    decreases
        (if n < d {
            0
        } else {
            n - d + 1
        }),
{
    if n >= d * 0x20_0000_0000_0000 {
        lemma_halvings_scaled(n, 2 * d);
    }
}

proof fn lemma_quotient_bits_doubled(n: nat, d: nat)
    requires
        n > 0,
        d > 0,
    ensures
        quotient_bits(2 * n, d) == quotient_bits(n, d) + UNIT,
{
    if n < d * 0x10_0000_0000_0000 {
        let u = doublings(2 * n, d);
        lemma_pow2_unfold(u + 1);
        assert(n * pow2(u + 1) == (2 * n) * pow2(u)) by (nonlinear_arith)
            requires
                pow2(u + 1) == 2 * pow2(u),
        ;
        assert(halvings(n, d) == 0);
        assert(halvings(2 * n, d) == 0);
    } else {
        let w = halvings(n, d);
        lemma_halvings_scaled(n, d);
        assert(halvings(2 * n, d) == w + 1);
        lemma_pow2_unfold(w + 1);
        lemma_pow2_pos(w);
        lemma2_to64();
        assert(n * pow2(0) == n) by (nonlinear_arith)
            requires
                pow2(0) == 1,
        ;
        assert((2 * n) * pow2(0) == 2 * n) by (nonlinear_arith)
            requires
                pow2(0) == 1,
        ;
        assert(d * pow2(w + 1) == 2 * (d * pow2(w))) by (nonlinear_arith)
            requires
                pow2(w + 1) == 2 * pow2(w),
        ;
        assert(d * pow2(w) > 0) by (nonlinear_arith)
            requires
                d > 0,
                pow2(w) > 0,
        ;
        lemma_nearest_even_scaled(n, d * pow2(w));
    }
}

proof fn lemma_quotient_bits_shifted(n: nat, x: nat, d: nat)
    requires
        n > 0,
        d > 0,
    ensures
        n * pow2(x) > 0,
        quotient_bits(n * pow2(x), d) == quotient_bits(n, d) + x * 0x10_0000_0000_0000,
    decreases x,
{
    lemma2_to64();
    lemma_pow2_pos(x);
    assert(n * pow2(x) > 0) by (nonlinear_arith)
        requires
            n > 0,
            pow2(x) > 0,
    ;
    if x == 0 {
        assert(n * pow2(0) == n) by (nonlinear_arith)
            requires
                pow2(0) == 1,
        ;
    } else {
        lemma_quotient_bits_shifted(n, (x - 1) as nat, d);
        lemma_pow2_unfold(x);
        let a = n * pow2((x - 1) as nat);
        assert(n * pow2(x) == 2 * a) by (nonlinear_arith)
            requires
                pow2(x) == 2 * pow2((x - 1) as nat),
                a == n * pow2((x - 1) as nat),
        ;
        lemma_quotient_bits_doubled(a, d);
    }
}

/// A quotient is rounded by half at most.
proof fn lemma_nearest_even(a: nat, b: nat)
    requires
        b > 0,
    ensures
        -(b as int) <= 2 * (nearest_even(a, b) * b) - 2 * a <= b,
{
    let q = a / b;
    vstd::arithmetic::div_mod::lemma_fundamental_div_mod(a as int, b as int);
    vstd::arithmetic::div_mod::lemma_mod_bound(a as int, b as int);
    assert((q + 1) * b == b * q + b) by (nonlinear_arith);
    assert(q * b == b * q) by (nonlinear_arith);
}

/// A quotient does not round past a whole number.
proof fn lemma_nearest_even_within(a: nat, b: nat, c: nat)
    requires
        b > 0,
    ensures
        a <= c * b ==> nearest_even(a, b) <= c,
        a >= c * b ==> nearest_even(a, b) >= c,
{
    let r = nearest_even(a, b);
    lemma_nearest_even(a, b);
    if r > c {
        assert(r * b >= c * b + b) by (nonlinear_arith)
            requires
                r >= c + 1,
        ;
    }
    if r < c {
        assert(r * b + b <= c * b) by (nonlinear_arith)
            requires
                r + 1 <= c,
        ;
    }
}

/// `a / b` rounded to the nearest whole number; halves go to the even one.
fn divide_even(a: u128, b: u128) -> (r: u128)
    requires
        0 < b,
        a < 0x4000_0000_0000_0000_0000_0000_0000_0000,
    ensures
        r == nearest_even(a as nat, b as nat),
{
    let q = a / b;
    let rest = a % b;
    if rest > b - rest || (rest == b - rest && q % 2 == 1) {
        q + 1
    } else {
        q
    }
}

/// A whole number `n * 2^x`.
struct Shifted {
    n: u64,
    x: u32,
}

impl Shifted {
    spec fn value(self) -> nat {
        self.n as nat * pow2(self.x as nat)
    }
}

/// Multiplies a double by `k` and rounds to a whole number.
fn multiply(m: u64, e: i32, k: u64) -> (r: Shifted)
    requires
        m < 2 * UNIT,
        -1074 <= e <= 971,
        m >= UNIT || e == -1074,
        0 < k <= 1000,
    ensures
        r.value() == product_rounded(m as nat, e as int, k as nat),
        r.n <= 2 * UNIT,
        r.x <= 1000,
        r.x > 0 ==> r.n >= UNIT,
{
    assert(m * k <= (2 * UNIT - 1) * 1000) by (nonlinear_arith)
        requires
            m < 2 * UNIT,
            0 < k <= 1000,
    ;
    let p: u64 = m * k;
    let mut j: u32 = 0;
    let mut t: u64 = p;
    let mut unit: u64 = 1;
    proof {
        lemma2_to64();
    }
    while t >= 2 * UNIT
        invariant
            p < 0x8000_0000_0000_0000,
            unit == pow2(j as nat),
            excess(p as nat) == j + excess(t as nat),
            t as nat * unit <= p,
            j <= 10,
            unit <= 1024,
        decreases t,
    {
        proof {
            lemma_pow2_unfold((j + 1) as nat);
            assert((t / 2) * (2 * unit) <= t * unit) by (nonlinear_arith)
                requires
                    unit >= 0,
            ;
            assert(unit < 1024) by (nonlinear_arith)
                requires
                    t * unit <= p,
                    t >= 2 * UNIT,
                    p < 0x8000_0000_0000_0000,
            ;
            lemma2_to64();
        }
        t = t / 2;
        unit = 2 * unit;
        j = j + 1;
    }
    proof {
        lemma_excess(p as nat);
        lemma_pow2_pos(j as nat);
        lemma_nearest_even(p as nat, unit as nat);
        lemma_nearest_even_within(p as nat, unit as nat, 0x20_0000_0000_0000);
        lemma_nearest_even_within(p as nat, unit as nat, 0x10_0000_0000_0000);
        lemma2_to64();
    }
    let r = divide_even(p as u128, unit as u128) as u64;
    let x: i32 = e + j as i32;
    if x >= 0 {
        assert(p >= m) by (nonlinear_arith)
            requires
                p == m * k,
                k >= 1,
        ;
        assert(p >= 0x10_0000_0000_0000 * unit);
        Shifted { n: r, x: x as u32 }
    } else {
        let s: u32 = (-x) as u32;
        assert(pow2(0) == 1) by {
            lemma2_to64();
        }
        if s >= 64 {
            proof {
                lemma2_to64();
                if s > 64 {
                    lemma_pow2_strictly_increases(64, s as nat);
                }
                let b = pow2(s as nat);
                vstd::arithmetic::div_mod::lemma_fundamental_div_mod_converse(
                    2 * r + b,
                    2 * b as int,
                    0,
                    2 * r + b,
                );
            }
            assert(0 * pow2(0) == 0);
            Shifted { n: 0, x: 0 }
        } else {
            proof {
                lemma2_to64_rest();
                lemma2_to64();
                if s < 63 {
                    lemma_pow2_strictly_increases(s as nat, 63);
                }
                vstd::bits::lemma_u64_shl_is_mul(1, s as u64);
                lemma_pow2_unfold(s as nat);
                lemma_pow2_pos((s - 1) as nat);
            }
            let b: u64 = 1u64 << s;
            let n = (2 * r as u128 + b as u128) / (2 * b as u128);
            proof {
                assert((2 * r + b) / (2 * b) <= r) by (nonlinear_arith)
                    requires
                        b >= 2,
                        r >= 0,
                ;
            }
            assert(n as nat * pow2(0) == n) by (nonlinear_arith)
                requires
                    pow2(0) == 1,
            ;
            Shifted { n: n as u64, x: 0 }
        }
    }
}


proof fn lemma_huge(n: nat, x: nat)
    requires
        n <= 0x20_0000_0000_0000,
        x > 0 ==> n >= 0x10_0000_0000_0000,
    ensures
        n * pow2(x) >= pow2(1024) <==> (x >= 972 || (x == 971 && n == 0x20_0000_0000_0000)),
{
    let p = pow2(x);
    lemma2_to64_rest();
    lemma2_to64();
    lemma_pow2_pos(x);
    lemma_pow2_adds(53, x);
    lemma_pow2_adds(52, x);
    if x >= 972 {
        assert(n * p >= 0x10_0000_0000_0000 * p) by (nonlinear_arith)
            requires
                n >= 0x10_0000_0000_0000,
        ;
        if x > 972 {
            lemma_pow2_strictly_increases(1024, 52 + x);
        }
    } else {
        assert(n * p <= 0x20_0000_0000_0000 * p) by (nonlinear_arith)
            requires
                n <= 0x20_0000_0000_0000,
        ;
        if x < 971 {
            lemma_pow2_strictly_increases(53 + x, 1024);
        } else if n < 0x20_0000_0000_0000 {
            assert(n * p < 0x20_0000_0000_0000 * p) by (nonlinear_arith)
                requires
                    n < 0x20_0000_0000_0000,
                    p > 0,
            ;
        }
    }
}

impl Shifted {
    spec fn wf(self) -> bool {
        &&& self.n <= 0x20_0000_0000_0000
        &&& self.x <= 1000
        &&& self.x > 0 ==> self.n >= 0x10_0000_0000_0000
    }

    /// Whether the number is above every double.
    fn is_huge(&self) -> (r: bool)
        requires
            self.wf(),
        ensures
            r == (self.value() >= pow2(1024)),
    {
        proof {
            lemma_huge(self.n as nat, self.x as nat);
        }
        self.x >= 972 || (self.x == 971 && self.n == 0x20_0000_0000_0000)
    }

    /// The double nearest to the number divided by `d`.
    fn divide(&self, d: u64) -> (r: u64)
        requires
            self.wf(),
            2 <= d <= 1000,
        ensures
            r == quotient(self.value(), d as nat),
            r <= INFINITE,
    {
        if self.n == 0 {
            assert(0 * pow2(self.x as nat) == 0);
            return 0;
        }
        let mut a: u128 = self.n as u128;
        let mut u: u32 = 0;
        proof {
            lemma2_to64();
            assert(self.n as nat * pow2(0) == self.n) by (nonlinear_arith)
                requires
                    pow2(0) == 1,
            ;
        }
        let limit: u128 = d as u128 * 0x10_0000_0000_0000;
        while a < limit
            invariant
                0 < a < 2 * limit,
                limit == d * 0x10_0000_0000_0000,
                2 <= d <= 1000,
                a == self.n as nat * pow2(u as nat),
                doublings(self.n as nat, d as nat) == u + doublings(a as nat, d as nat),
                0 < self.n,
                u <= 64,
            decreases 2 * limit - a,
        {
            proof {
                lemma_pow2_unfold((u + 1) as nat);
                let q = pow2(u as nat);
                let n = self.n as nat;
                assert(n * (2 * q) == 2 * (n * q)) by (nonlinear_arith);
                assert(q <= n * q) by (nonlinear_arith)
                    requires
                        n >= 1,
                        q >= 0,
                ;
                lemma2_to64();
                if u >= 64 {
                    assert(pow2(64) == 0x1_0000_0000_0000_0000);
                }
            }
            a = 2 * a;
            u = u + 1;
        }
        proof {
            assert(halvings(self.n as nat, d as nat) == 0);
            assert(d as nat * pow2(0) == d) by (nonlinear_arith)
                requires
                    pow2(0) == 1,
            ;
            lemma2_to64();
            lemma_nearest_even_within(a as nat, d as nat, 0x20_0000_0000_0000);
            lemma_quotient_bits_shifted(self.n as nat, self.x as nat, d as nat);
        }
        let m = divide_even(a, d as u128);
        let bits: u128 = (1074 + self.x as u128 - u as u128) * 0x10_0000_0000_0000 + m;
        if bits >= INFINITE as u128 {
            INFINITE
        } else {
            bits as u64
        }
    }
}

impl Scale {
    /// The whole number in the size of a finite factor.
    fn mantissa_bits(&self) -> (r: u64)
        ensures
            r == self.mantissa(),
            r < 0x20_0000_0000_0000,
    {
        let size = self.bits % SIGN;
        if size < UNIT {
            size
        } else {
            size % UNIT + UNIT
        }
    }

    /// The power in the size of a finite factor.
    fn power_bits(&self) -> (r: i32)
        requires
            self.is_finite(),
        ensures
            r == self.power(),
            -1074 <= r <= 971,
            self.mantissa() >= UNIT || r == -1074,
    {
        let size = self.bits % SIGN;
        if size < UNIT {
            -1074
        } else {
            (size / UNIT) as i32 - 1075
        }
    }

    /// The number of 120ths that the compositor makes of the factor.
    fn count_steps(&self) -> (r: Option<Shifted>)
        ensures
            match r {
                Some(n) => n.wf() && self.steps() == Some(n.value()),
                None => self.steps() is None,
            },
    {
        proof {
            lemma2_to64();
            assert(120nat * pow2(0) == 120);
            assert(1nat * pow2(0) == 1);
        }
        if self.bits == 0 || self.bits > INFINITE {
            return Some(Shifted { n: STEPS, x: 0 });
        }
        if self.bits == INFINITE {
            return None;
        }
        let n = multiply(self.mantissa_bits(), self.power_bits(), STEPS);
        if n.is_huge() {
            None
        } else if n.n == 0 {
            assert(0 * pow2(n.x as nat) == 0);
            Some(Shifted { n: 1, x: 0 })
        } else {
            proof {
                lemma_pow2_pos(n.x as nat);
                assert(n.n as nat * pow2(n.x as nat) > 0) by (nonlinear_arith)
                    requires
                        n.n > 0,
                        pow2(n.x as nat) > 0,
                ;
            }
            Some(n)
        }
    }

    /// The number of 120ths that the compositor makes of the factor, where it is
    /// below `0x20_0000_0000_0000`.
    pub fn step_count(&self) -> (r: u64)
        ensures
            r == (match self.steps() {
                Some(n) => if n < 0x20_0000_0000_0000 {
                    n
                } else {
                    0x20_0000_0000_0000
                },
                None => 0x20_0000_0000_0000,
            }),
    {
        match self.count_steps() {
            Some(n) => {
                proof {
                    lemma2_to64();
                    let p = pow2(n.x as nat);
                    if n.x == 0 {
                        assert(n.n as nat * p == n.n) by (nonlinear_arith)
                            requires
                                p == 1,
                        ;
                    } else {
                        lemma_pow2_unfold(n.x as nat);
                        lemma_pow2_pos((n.x - 1) as nat);
                        assert(n.n as nat * p >= 0x20_0000_0000_0000) by (nonlinear_arith)
                            requires
                                p >= 2,
                                n.n >= 0x10_0000_0000_0000,
                        ;
                    }
                }
                if n.x == 0 {
                    n.n
                } else {
                    0x20_0000_0000_0000
                }
            },
            None => 0x20_0000_0000_0000,
        }
    }

    /// The factor that the compositor really uses.
    pub fn quantized(&self) -> (r: Scale)
        ensures
            r == Scale::of_steps(self.steps()),
    {
        match self.count_steps() {
            Some(n) => Scale { bits: n.divide(STEPS) },
            None => Scale { bits: INFINITE },
        }
    }

    /// The factor rounded to thousandths.
    pub fn to_thousandths(&self) -> (r: Scale)
        ensures
            r == self.thousandths(),
    {
        let size = self.bits % SIGN;
        if size >= INFINITE {
            return *self;
        }
        let n = multiply(self.mantissa_bits(), self.power_bits(), 1000);
        let size = if n.is_huge() {
            INFINITE
        } else {
            n.divide(1000)
        };
        if self.bits >= SIGN {
            Scale { bits: size + SIGN }
        } else {
            Scale { bits: size }
        }
    }
}


proof fn lemma_doublings(n: nat, d: nat)
    requires
        0 < n < d * 0x20_0000_0000_0000,
    ensures
        n * pow2(doublings(n, d)) >= d * 0x10_0000_0000_0000,
        n * pow2(doublings(n, d)) < d * 0x20_0000_0000_0000,
    decreases
        (if n < d * 0x10_0000_0000_0000 {
            d * 0x10_0000_0000_0000 - n
        } else {
            0
        }),
{
    lemma2_to64();
    if n < d * 0x10_0000_0000_0000 {
        lemma_doublings(2 * n, d);
        let u = doublings(2 * n, d);
        lemma_pow2_unfold(u + 1);
        assert(n * pow2(u + 1) == (2 * n) * pow2(u)) by (nonlinear_arith)
            requires
                pow2(u + 1) == 2 * pow2(u),
        ;
    } else {
        assert(n * pow2(0) == n) by (nonlinear_arith)
            requires
                pow2(0) == 1,
        ;
    }
}

/// What the bits of a quotient stand for.
proof fn lemma_quotient_parts(n: nat, d: nat)
    requires
        0 < n < 0x4_0000_0000,
        2 <= d <= 1000,
    ensures
        ({
            let s = Scale { bits: quotient(n, d) };
            let u = doublings(n, d);
            let m = nearest_even(n * pow2(u), d);
            &&& s.is_positive() && s.is_finite() && !s.is_negative()
            &&& 19 <= u <= 63
            &&& 0x10_0000_0000_0000 <= m <= 0x20_0000_0000_0000
            &&& 0x10_0000_0000_0000 <= s.mantissa() < 0x20_0000_0000_0000
            &&& (s.mantissa() == m && s.power() == -u) || (2 * s.mantissa() == m && s.power() == 1
                - u)
        }),
{
    let u = doublings(n, d);
    let a = n * pow2(u);
    let m = nearest_even(a, d);
    lemma_doublings(n, d);
    lemma2_to64();
    assert(halvings(n, d) == 0);
    assert(d * pow2(0) == d) by (nonlinear_arith)
        requires
            pow2(0) == 1,
    ;
    lemma_nearest_even_within(a, d, 0x20_0000_0000_0000);
    lemma_nearest_even_within(a, d, 0x10_0000_0000_0000);
    assert(a <= 0x20_0000_0000_0000 * d && a >= 0x10_0000_0000_0000 * d);
    let p = pow2(u);
    assert(p <= a) by (nonlinear_arith)
        requires
            a == n * p,
            n >= 1,
            p >= 0,
    ;
    if u > 63 {
        lemma2_to64_rest();
        lemma_pow2_strictly_increases(63, u);
    }
    if u < 19 {
        if u < 18 {
            lemma_pow2_strictly_increases(u, 18);
        }
        assert(a < 0x4_0000_0000 * 0x4_0000) by (nonlinear_arith)
            requires
                a == n * p,
                n < 0x4_0000_0000,
                0 <= p <= 0x4_0000,
        ;
    }
    let bits = quotient_bits(n, d);
    assert(bits == (1074 - u) * 0x10_0000_0000_0000 + m);
    let s = Scale { bits: quotient(n, d) };
    assert(s.bits == bits);
    assert(s.size() == s.bits);
    if m < 0x20_0000_0000_0000 {
        vstd::arithmetic::div_mod::lemma_fundamental_div_mod_converse(
            bits,
            0x10_0000_0000_0000,
            1075 - u,
            m - 0x10_0000_0000_0000,
        );
    } else {
        vstd::arithmetic::div_mod::lemma_fundamental_div_mod_converse(
            bits,
            0x10_0000_0000_0000,
            1076 - u,
            0,
        );
    }
}

/// Multiplying the double nearest to `n / d` by `k` and rounding gives the whole
/// number nearest to `n * k / d`.
proof fn lemma_product_of_quotient(n: nat, d: nat, k: nat)
    requires
        0 < n < 0x4_0000_0000,
        2 <= d <= 1000,
        1 <= k <= 1000,
    ensures
        ({
            let s = Scale { bits: quotient(n, d) };
            let t = product_rounded(s.mantissa(), s.power(), k);
            -(d as int) <= 2 * (t * d - n * k) <= d
        }),
{
    let s = Scale { bits: quotient(n, d) };
    let u = doublings(n, d);
    let pu = pow2(u) as int;
    let a = n * pow2(u);
    let m = nearest_even(a, d) as int;
    lemma_quotient_parts(n, d);
    lemma_doublings(n, d);
    lemma_nearest_even(a, d);
    let mm = s.mantissa() as int;
    let v = -s.power();
    let p = (mm * k) as nat;
    assert(0 < p <= 0x20_0000_0000_0000 * 1000) by (nonlinear_arith)
        requires
            p == mm * k,
            0 < mm < 0x20_0000_0000_0000,
            1 <= k <= 1000,
    ;
    let j = excess(p);
    let pj = pow2(j) as int;
    lemma_excess(p);
    lemma2_to64();
    lemma_pow2_pos(j);
    if j > 11 {
        lemma_pow2_strictly_increases(11, j);
    }
    assert(pj <= 2048) by {
        if j < 11 {
            lemma_pow2_strictly_increases(j, 11);
        }
    }
    let r = nearest_even(p, pow2(j)) as int;
    lemma_nearest_even(p, pow2(j));
    let w = (v - j) as nat;
    let b = pow2(w) as int;
    lemma_pow2_pos(w);
    let t = nearest_up(r as nat, pow2(w)) as int;
    assert(t == product_rounded(s.mantissa(), s.power(), k));
    // t is the nearest whole number to r / b
    vstd::arithmetic::div_mod::lemma_fundamental_div_mod(2 * r + b, 2 * b);
    vstd::arithmetic::div_mod::lemma_mod_bound(2 * r + b, 2 * b);
    let tb = t * b;
    assert(2 * b * t == 2 * tb) by (nonlinear_arith)
        requires
            tb == t * b,
    ;
    assert(-b <= 2 * tb - 2 * r <= b);
    // the same in units of 2^-v
    let pv = pow2(v as nat) as int;
    lemma_pow2_adds(w, j);
    let tv = t * pv;
    let rj = r * pj;
    assert(-pv <= 2 * tv - 2 * rj <= pv) by (nonlinear_arith)
        requires
            pv == b * pj,
            tb == t * b,
            tv == t * pv,
            rj == r * pj,
            -b <= 2 * tb - 2 * r <= b,
            pj > 0,
    {
        assert(tv == tb * pj) by (nonlinear_arith)
            requires
                tv == t * (b * pj),
                tb == t * b,
        ;
        assert(pj * (2 * tb - 2 * r) <= pj * b) by (nonlinear_arith)
            requires
                2 * tb - 2 * r <= b,
                pj > 0,
        ;
        assert(pj * (2 * tb - 2 * r) >= pj * (-b)) by (nonlinear_arith)
            requires
                2 * tb - 2 * r >= -b,
                pj > 0,
        ;
    }
    assert(-pj <= 2 * rj - 2 * p <= pj);
    // in units of 2^-u
    let tu = t * pu;
    let mk = m * k;
    assert(-(pu + 2 * pj) <= 2 * tu - 2 * mk <= pu + 2 * pj) by {
        if s.power() == -u {
            assert(tu == tv);
            assert(mk == p);
        } else {
            lemma_pow2_unfold(u);
            assert(pu == 2 * pv);
            assert(tu == 2 * tv) by (nonlinear_arith)
                requires
                    tu == t * pu,
                    tv == t * pv,
                    pu == 2 * pv,
            ;
            assert(mk == 2 * p) by (nonlinear_arith)
                requires
                    mk == m * k,
                    p == mm * k,
                    m == 2 * mm,
            ;
        }
    }
    // against n * k / d
    let x = t * d - n * k;
    let md = m * d;
    assert(-(d as int) <= 2 * md - 2 * a <= d);
    assert(d * (2 * tu - 2 * mk) + k * (2 * md - 2 * a) == pu * (2 * x)) by (nonlinear_arith)
        requires
            tu == t * pu,
            mk == m * k,
            md == m * d,
            a == n * pu,
            x == t * d - n * k,
    ;
    assert(pu >= d * 0x4_0000) by (nonlinear_arith)
        requires
            n * pu >= d * 0x10_0000_0000_0000,
            n < 0x4_0000_0000,
            pu >= 0,
            d >= 0,
    ;
    let y = 2 * x;
    let e1 = d * (2 * tu - 2 * mk);
    let e2 = k * (2 * md - 2 * a);
    assert(-(d * (pu + 4096)) <= e1 <= d * (pu + 4096)) by (nonlinear_arith)
        requires
            e1 == d * (2 * tu - 2 * mk),
            -(pu + 2 * pj) <= 2 * tu - 2 * mk <= pu + 2 * pj,
            pj <= 2048,
            d >= 0,
    ;
    assert(-(k * d) <= e2 <= k * d) by (nonlinear_arith)
        requires
            e2 == k * (2 * md - 2 * a),
            -(d as int) <= 2 * md - 2 * a <= d,
            k >= 0,
    ;
    assert(k * d <= 1000 * d) by (nonlinear_arith)
        requires
            k <= 1000,
            d >= 0,
    ;
    let dp = d * pu;
    assert(d * (pu + 4096) == dp + 4096 * d) by (nonlinear_arith)
        requires
            dp == d * pu,
    ;
    assert(-(dp + 5096 * d) <= pu * y <= dp + 5096 * d);
    assert(5096 * d < pu);
    assert(-(d as int) <= y <= d) by (nonlinear_arith)
        requires
            dp == d * pu,
            -(dp + 5096 * d) <= pu * y <= dp + 5096 * d,
            5096 * d < pu,
            pu > 0,
    {
        if y > d {
            assert(pu * y >= pu * (d + 1)) by (nonlinear_arith)
                requires
                    y >= d + 1,
                    pu > 0,
            ;
        }
        if y < -d {
            assert(pu * y <= pu * (-(d as int) - 1)) by (nonlinear_arith)
                requires
                    y <= -d - 1,
                    pu > 0,
            ;
        }
    }
}


proof fn lemma_below_1024(n: nat)
    requires
        n < 0x1_0000_0000_0000_0000,
    ensures
        n < pow2(1024),
{
    lemma2_to64();
    lemma_pow2_strictly_increases(64, 1024);
}

/// No factor that the protocol carries is too large to be counted in 120ths.
proof fn lemma_carried(s: Scale)
    requires
        s.is_carried(),
    ensures
        s.steps() is Some,
        1 <= s.steps()->0 < 0x4000_0000,
{
    if s.is_positive() {
        let (m, e) = (s.mantissa(), s.power());
        assert(s.size() == s.bits);
        assert(m < 0x20_0000_0000_0000);
        assert(e <= -30) by {
            assert(s.bits / UNIT <= 1045);
        }
        let p = m * 120;
        let j = excess(p);
        lemma_excess(p);
        lemma2_to64();
        lemma2_to64_rest();
        if j > 7 {
            if j > 8 {
                lemma_pow2_strictly_increases(8, j);
            }
            assert(pow2(j) >= 256);
        }
        if j < 7 {
            lemma_pow2_strictly_increases(j, 7);
        }
        let big = pow2(j);
        assert(0 < big <= 128) by {
            lemma_pow2_pos(j);
        }
        let q = nearest_even(p, big);
        lemma_nearest_even(p, big);
        let x = e + j;
        assert(x < 0);
        let d = pow2((-x) as nat);
        lemma_pow2_pos((-x) as nat);
        lemma_pow2_adds(j, (-x) as nat);
        assert(big * d == pow2((-e) as nat));
        if -e > 30 {
            lemma_pow2_strictly_increases(30, (-e) as nat);
        }
        assert(big * d >= 0x4000_0000);
        assert(q * big <= p + big) by (nonlinear_arith)
            requires
                2 * (q * big - p) <= big,
                big > 0,
        ;
        assert(2 * q + d < 0x4000_0000 * (2 * d)) by (nonlinear_arith)
            requires
                q * big <= p + big,
                p <= 0x20_0000_0000_0000 * 120,
                0 < big <= 128,
                d > 0,
                big * d >= 0x4000_0000,
        ;
        let n = nearest_up(q, d);
        assert(n < 0x4000_0000) by (nonlinear_arith)
            requires
                n == (2 * q + d) / (2 * d),
                2 * q + d < 0x4000_0000 * (2 * d),
                d > 0,
        ;
        assert(product_rounded(m, e, 120) == n);
        lemma_below_1024(n);
    }
}

/// So many 120ths as there are in one make one.
proof fn lemma_one()
    ensures
        quotient(120, 120) == ONE,
{
    let u = doublings(120, 120);
    lemma_doublings(120, 120);
    lemma2_to64();
    lemma2_to64_rest();
    if u < 52 {
        lemma_pow2_strictly_increases(u, 52);
    }
    if u > 52 {
        if u > 53 {
            lemma_pow2_strictly_increases(53, u);
        }
    }
    assert(u == 52);
    assert(halvings(120, 120) == 0);
    let a: nat = 120 * 0x10_0000_0000_0000;
    assert(a / 120 == 0x10_0000_0000_0000 && a % 120 == 0);
    assert(nearest_even(a, 120) == 0x10_0000_0000_0000);
}

/// Snapping a factor gives a whole number of 120ths, at least one. What is not above
/// nought, or no number at all, gives one. Snapping again changes nothing.
pub proof fn law_quantized_scale_is_stable(s: Scale)
    requires
        s.is_carried(),
    ensures
        ({
            let q = Scale::of_steps(s.steps());
            &&& s.steps() matches Some(n) && n >= 1 && q.bits == quotient(n, 120)
            &&& q.is_positive() && q.is_finite()
            &&& !s.is_positive() ==> q.bits == ONE
            &&& q.steps() == s.steps()
            &&& Scale::of_steps(q.steps()) == q
        }),
{
    lemma_carried(s);
    lemma_one();
    let n = s.steps()->0;
    let q = Scale::of_steps(s.steps());
    lemma_quotient_parts(n, 120);
    lemma_product_of_quotient(n, 120, 120);
    let t = product_rounded(q.mantissa(), q.power(), 120);
    assert(t == n);
    lemma_below_1024(t);
}

/// A factor snapped to 120ths and then written in thousandths, as a profile has
/// it, has at most three decimals and makes the compositor use the very same factor
/// again.
pub proof fn law_saved_scale_reapplies(s: Scale)
    requires
        s.is_carried(),
    ensures
        ({
            let q = Scale::of_steps(s.steps());
            let saved = q.thousandths();
            &&& exists|t: nat| t > 0 && saved.bits == #[trigger] quotient(t, 1000)
            &&& saved.steps() == s.steps()
            &&& Scale::of_steps(saved.steps()) == q
        }),
{
    lemma_carried(s);
    let n = s.steps()->0;
    let q = Scale::of_steps(s.steps());
    lemma_quotient_parts(n, 120);
    lemma_product_of_quotient(n, 120, 1000);
    let t = product_rounded(q.mantissa(), q.power(), 1000);
    assert(0 < t < 0x4_0000_0000);
    lemma_below_1024(t);
    lemma_quotient_parts(t, 1000);
    lemma_product_of_quotient(t, 1000, 120);
    let saved = q.thousandths();
    assert(saved.bits == quotient(t, 1000));
    let back = product_rounded(saved.mantissa(), saved.power(), 120);
    assert(back == n);
    lemma_below_1024(back);
}

/// Doubling the mantissa is adding one to the power.
proof fn lemma_product_doubled(m: nat, e: int, k: nat)
    requires
        m * k >= 0x10_0000_0000_0000,
    ensures
        product_rounded(2 * m, e, k) == product_rounded(m, e + 1, k),
{
    let p = m * k;
    assert((2 * m) * k == 2 * p) by (nonlinear_arith)
        requires
            p == m * k,
    ;
    let j = excess(p);
    assert(excess(2 * p) == j + 1);
    lemma_pow2_unfold(j + 1);
    lemma_pow2_pos(j);
    lemma_nearest_even_scaled(p, pow2(j));
}

/// A thousand times the double `m * 2^e`, rounded to a whole number, or `limit`
/// where it is above that.
pub fn thousand_times(m: u64, e: i32, limit: u64) -> (r: u64)
    requires
        UNIT <= m <= 2 * UNIT,
        -1000 <= e <= 0,
        limit < UNIT,
    ensures
        r == (if product_rounded(m as nat, e as int, 1000) > limit {
            limit as nat
        } else {
            product_rounded(m as nat, e as int, 1000)
        }),
{
    proof {
        lemma_product_doubled(0x10_0000_0000_0000, e as int, 1000);
        lemma2_to64();
    }
    let t = if m == 2 * UNIT {
        multiply(UNIT, e + 1, 1000)
    } else {
        multiply(m, e, 1000)
    };
    if t.x > 0 {
        proof {
            let b = pow2(t.x as nat);
            lemma_pow2_pos(t.x as nat);
            assert(t.n * b >= t.n) by (nonlinear_arith)
                requires
                    b >= 1,
                    t.n >= 0,
            ;
        }
        limit
    } else {
        assert(t.n as nat * pow2(0) == t.n) by (nonlinear_arith)
            requires
                pow2(0) == 1,
        ;
        if t.n > limit {
            limit
        } else {
            t.n
        }
    }
}

/// What fills 53 bits once it is halved or doubled.
proof fn lemma_halvings(n: nat, d: nat)
    requires
        d > 0,
        n >= d * 0x10_0000_0000_0000,
    ensures
        n >= (d * pow2(halvings(n, d))) * 0x10_0000_0000_0000,
        n < (d * pow2(halvings(n, d))) * 0x20_0000_0000_0000,
    decreases
        (if n < d {
            0
        } else {
            n - d + 1
        }),
{
    lemma2_to64();
    if n >= d * 0x20_0000_0000_0000 {
        lemma_halvings(n, 2 * d);
        let w = halvings(n, 2 * d);
        lemma_pow2_unfold(w + 1);
        assert(d * pow2(w + 1) == (2 * d) * pow2(w)) by (nonlinear_arith)
            requires
                pow2(w + 1) == 2 * pow2(w),
        ;
    } else {
        assert(d * pow2(0) == d) by (nonlinear_arith)
            requires
                pow2(0) == 1,
        ;
    }
}

/// A thousand times what is below a hundred thousandth rounds to nought.
pub proof fn lemma_ratio_small(n: nat, d: nat)
    requires
        n * 100_000 < d,
    ensures
        ratio_times(n, d, 1000) == 0,
{
    let u = doublings(n, d);
    lemma2_to64();
    lemma2_to64_rest();
    assert(halvings(n, d) == 0);
    assert(d * pow2(0) == d) by (nonlinear_arith)
        requires
            pow2(0) == 1,
    ;
    if n == 0 {
        assert(u == 0);
        assert(n * pow2(0) == 0) by (nonlinear_arith)
            requires
                n == 0,
        ;
        assert(0nat / d == 0) by {
            vstd::arithmetic::div_mod::lemma_fundamental_div_mod_converse(0, d as int, 0, 0);
        }
        assert(0nat % d == 0) by {
            vstd::arithmetic::div_mod::lemma_fundamental_div_mod_converse(0, d as int, 0, 0);
        }
        assert(nearest_even(0, d) == 0);
        assert(excess(0) == 0);
        assert(nearest_even(0, 1) == 0);
    } else {
        lemma_doublings(n, d);
        lemma_pow2_pos(u);
        let t = pow2(u) as int;
        let a = n * pow2(u);
        let m = nearest_even(a, d);
        // t is above 2^52 * 10^5
        assert(a * 100_000 < d * t) by (nonlinear_arith)
            requires
                a == n * t,
                n * 100_000 < d,
                t > 0,
        ;
        assert(0x10_0000_0000_0000 * 100_000 < t) by (nonlinear_arith)
            requires
                a * 100_000 < d * t,
                a >= d * 0x10_0000_0000_0000,
                d > 0,
        ;
        if u < 69 {
            if u < 68 {
                lemma_pow2_strictly_increases(u, 68);
            }
            lemma_pow2_adds(60, 8);
            assert(pow2(68) == pow2(60) * pow2(8));
        }
        lemma_nearest_even(a, d);
        lemma_nearest_even_within(a, d, 0x20_0000_0000_0000);
        assert(m <= 0x20_0000_0000_0000);
        // m <= t / 10^5 + 1
        assert(m * 100_000 <= t + 100_000) by (nonlinear_arith)
            requires
                2 * (m * d) - 2 * a <= d,
                a * 100_000 < d * t,
                d > 0,
        ;
        let p = m * 1000;
        let j = excess(p);
        let b = pow2(j);
        lemma_excess(p);
        lemma_pow2_pos(j);
        if j > 11 {
            lemma_pow2_strictly_increases(11, j);
        }
        let r = nearest_even(p, b);
        lemma_nearest_even(p, b);
        let w = (u - j) as nat;
        let c = pow2(w);
        lemma_pow2_adds(w, j);
        lemma_pow2_pos(w);
        assert(c * b == t);
        assert(2 * r < c) by (nonlinear_arith)
            requires
                2 * (r * b) - 2 * p <= b,
                p == m * 1000,
                m * 100_000 <= t + 100_000,
                c * b == t,
                0 < b <= 2048,
                t > 0x10_0000_0000_0000 * 100_000,
        ;
        vstd::arithmetic::div_mod::lemma_fundamental_div_mod_converse(
            (2 * r + c) as int,
            (2 * c) as int,
            0,
            (2 * r + c) as int,
        );
        assert(nearest_up(r, c) == 0);
    }
}

/// A thousand times what no `u32` holds is not held by one either.
pub proof fn lemma_ratio_large(n: nat, d: nat)
    requires
        d > 0,
        n >= d * 0xffff_ffff,
    ensures
        ratio_times(n, d, 1000) > 0xffff_ffff,
{
    let u = doublings(n, d);
    let w = halvings(n, d);
    lemma2_to64();
    lemma2_to64_rest();
    lemma_pow2_pos(u);
    lemma_pow2_pos(w);
    let a = n * pow2(u);
    let b = d * pow2(w);
    assert(b > 0) by (nonlinear_arith)
        requires
            b == d * pow2(w),
            d > 0,
            pow2(w) > 0,
    ;
    let m = nearest_even(a, b);
    if n < d * 0x10_0000_0000_0000 {
        assert(w == 0);
        assert(d * pow2(0) == d) by (nonlinear_arith)
            requires
                pow2(0) == 1,
        ;
        lemma_doublings(n, d);
        let t = pow2(u);
        assert(a >= (0xffff_ffff * t) * b) by (nonlinear_arith)
            requires
                a == n * t,
                n >= d * 0xffff_ffff,
                b == d,
                t > 0,
        ;
        lemma_nearest_even_within(a, b, 0xffff_ffff * t);
        lemma_nearest_even_within(a, b, 0x10_0000_0000_0000);
        lemma_product_large(m, u);
    } else {
        assert(u == 0);
        assert(n * pow2(0) == n) by (nonlinear_arith)
            requires
                pow2(0) == 1,
        ;
        lemma_halvings(n, d);
        lemma_nearest_even_within(a, b, 0x10_0000_0000_0000);
        let p = m * 1000;
        let j = excess(p);
        lemma_excess(p);
        lemma_pow2_pos(j);
        let c = pow2(j);
        let r = nearest_even(p, c);
        lemma_nearest_even_within(p, c, 0x10_0000_0000_0000);
        let e = pow2(w + j);
        lemma_pow2_pos(w + j);
        assert(r * e >= r) by (nonlinear_arith)
            requires
                e >= 1,
                r >= 0,
        ;
    }
}

/// A thousand times a large double is large.
proof fn lemma_product_large(m: nat, u: nat)
    requires
        m >= 0xffff_ffff * pow2(u),
        m >= 0x10_0000_0000_0000,
    ensures
        product_rounded(m, -u, 1000) > 0xffff_ffff,
{
    lemma2_to64();
    let t = pow2(u);
    let p = m * 1000;
    let j = excess(p);
    let b = pow2(j);
    lemma_excess(p);
    lemma_pow2_pos(j);
    lemma_pow2_pos(u);
    let r = nearest_even(p, b);
    lemma_nearest_even(p, b);
    lemma_nearest_even_within(p, b, 0x10_0000_0000_0000);
    assert(j > 0);
    let x = j - u;
    if x >= 0 {
        let e = pow2(x as nat);
        lemma_pow2_pos(x as nat);
        assert(r * e >= r) by (nonlinear_arith)
            requires
                e >= 1,
                r >= 0,
        ;
    } else {
        let c = pow2((-x) as nat);
        lemma_pow2_pos((-x) as nat);
        lemma_pow2_adds(j, (-x) as nat);
        assert(b * c == t);
        // r is at least a thousand million times c
        assert(r >= 0x1_0000_0000 * c) by (nonlinear_arith)
            requires
                -(b as int) <= 2 * (r * b) - 2 * p,
                p == m * 1000,
                m >= 0xffff_ffff * t,
                b * c == t,
                b > 0,
                c > 0,
        ;
        vstd::arithmetic::div_mod::lemma_fundamental_div_mod((2 * r + c) as int, (2 * c) as int);
        vstd::arithmetic::div_mod::lemma_mod_bound((2 * r + c) as int, (2 * c) as int);
        let q = nearest_up(r, c);
        assert(q >= 0x1_0000_0000) by (nonlinear_arith)
            requires
                2 * r + c == (2 * c) * q + (2 * r + c) % (2 * c),
                (2 * r + c) % (2 * c) < 2 * c,
                r >= 0x1_0000_0000 * c,
                c > 0,
        ;
    }
}

/// A number of thousandths, read as a double, is that many thousandths.
pub proof fn lemma_ratio_thousandths(n: nat)
    requires
        n < 0x1_0000_0000,
    ensures
        ratio_times(n, 1000, 1000) == n,
{
    lemma2_to64();
    if n == 0 {
        lemma_ratio_small(0, 1000);
    } else {
        let s = Scale { bits: quotient(n, 1000) };
        let u = doublings(n, 1000);
        let m = nearest_even(n * pow2(u), 1000);
        lemma_quotient_parts(n, 1000);
        lemma_product_of_quotient(n, 1000, 1000);
        assert(halvings(n, 1000) == 0);
        assert(1000 * pow2(0) == 1000) by (nonlinear_arith)
            requires
                pow2(0) == 1,
        ;
        if 2 * s.mantissa() == m && s.power() == 1 - u {
            lemma_product_doubled(s.mantissa(), -u, 1000);
        }
        let t = product_rounded(s.mantissa(), s.power(), 1000);
        assert(t == ratio_times(n, 1000, 1000));
        assert(t == n);
    }
}

/// Doubling both makes no difference.
proof fn lemma_doublings_scaled(n: nat, d: nat)
    requires
        d > 0,
    ensures
        doublings(2 * n, 2 * d) == doublings(n, d),
    decreases
        (if n < d * 0x10_0000_0000_0000 {
            d * 0x10_0000_0000_0000 - n
        } else {
            0
        }),
{
    if n != 0 && n < d * 0x10_0000_0000_0000 {
        lemma_doublings_scaled(2 * n, d);
    }
}

proof fn lemma_ratio_scaled(n: nat, d: nat, k: nat)
    requires
        d > 0,
    ensures
        ratio_times(2 * n, 2 * d, k) == ratio_times(n, d, k),
{
    lemma_doublings_scaled(n, d);
    lemma_halvings_scaled(n, d);
    let u = doublings(n, d);
    let w = halvings(n, d);
    lemma_pow2_pos(w);
    assert((2 * n) * pow2(u) == 2 * (n * pow2(u))) by (nonlinear_arith);
    assert((2 * d) * pow2(w) == 2 * (d * pow2(w))) by (nonlinear_arith);
    assert(d * pow2(w) > 0) by (nonlinear_arith)
        requires
            d > 0,
            pow2(w) > 0,
    ;
    lemma_nearest_even_scaled(n * pow2(u), d * pow2(w));
}

/// A thousand times a number with up to three decimals, read as a double, is exact.
pub proof fn lemma_ratio_exact(n: nat, d: nat, c: nat)
    requires
        n < 0x1_0000_0000,
        1 <= d <= 1000,
        d * c == 1000,
    ensures
        ratio_times(n, d, 1000) == n * c,
{
    lemma2_to64();
    if n == 0 {
        lemma_ratio_small(0, d);
        assert(ratio_times(0, d, 1000) == 0);
        assert(0 * c == 0) by (nonlinear_arith);
    } else if d == 1 {
        lemma_ratio_scaled(n, 1, 1000);
        lemma_ratio_two_up(2 * n, 2, 500);
        assert((2 * n) * 500 == n * c) by (nonlinear_arith)
            requires
                c == 1000,
        ;
    } else {
        lemma_ratio_two_up(n, d, c);
    }
}

proof fn lemma_ratio_two_up(n: nat, d: nat, c: nat)
    requires
        0 < n < 0x2_0000_0000,
        2 <= d <= 1000,
        d * c == 1000,
    ensures
        ratio_times(n, d, 1000) == n * c,
{
    lemma2_to64();
    let s = Scale { bits: quotient(n, d) };
    let u = doublings(n, d);
    let m = nearest_even(n * pow2(u), d);
    lemma_quotient_parts(n, d);
    lemma_product_of_quotient(n, d, 1000);
    assert(halvings(n, d) == 0);
    assert(d * pow2(0) == d) by (nonlinear_arith)
        requires
            pow2(0) == 1,
    ;
    if 2 * s.mantissa() == m && s.power() == 1 - u {
        assert(s.mantissa() * 1000 >= 0x10_0000_0000_0000);
        lemma_product_doubled(s.mantissa(), -u, 1000);
    }
    let t = product_rounded(s.mantissa(), s.power(), 1000);
    assert(t == ratio_times(n, d, 1000));
    assert(t == n * c) by (nonlinear_arith)
        requires
            -(d as int) <= 2 * (t * d - n * 1000) <= d,
            d * c == 1000,
            d >= 2,
    ;
}

/// How the bits of a factor stand for a number: whole numbers up to 53 bits, times powers
/// of two, those that are larger having larger bits.
pub proof fn law_the_bits_of_a_factor(s: Scale)
    requires
        s.is_positive(),
        s.is_finite(),
    ensures
        0 < s.mantissa() < 0x20_0000_0000_0000,
        s.bits < 0x10_0000_0000_0000 ==> s.mantissa() == s.bits && s.power() == -1074,
        s.bits >= 0x10_0000_0000_0000 ==> s.mantissa() >= 0x10_0000_0000_0000 && s.bits == (
        s.power() + 1074) * 0x10_0000_0000_0000 + s.mantissa(),
{
    assert(s.size() == s.bits);
    if s.bits >= UNIT {
        vstd::arithmetic::div_mod::lemma_fundamental_div_mod(s.bits as int, UNIT as int);
    }
}

/// A factor `m * 2^-k` times `f`, rounded, is the nearest whole number to the exact
/// product, but for what rounding the product to a double may add.
proof fn lemma_product_nearest(m: nat, k: nat, f: nat)
    requires
        m < 0x20_0000_0000_0000,
        k >= 30,
        1 <= f <= 1024,
    ensures
        ({
            let t = product_rounded(m, -(k as int), f);
            -(pow2(k) + 1024) <= 2 * (t * pow2(k) - m * f) <= pow2(k) + 1024
        }),
{
    let e = -(k as int);
    let p = m * f;
    let j = excess(p);
    lemma_excess(p);
    lemma2_to64();
    lemma2_to64_rest();
    assert(p <= 0x20_0000_0000_0000 * 1024) by (nonlinear_arith)
        requires
            p == m * f,
            m < 0x20_0000_0000_0000,
            1 <= f <= 1024,
    ;
    if j > 11 {
        lemma_pow2_strictly_increases(11, j);
    }
    assert(j <= 11) by {
        if j > 11 {
            assert(p >= 0x10_0000_0000_0000 * pow2(j));
        }
    }
    let big = pow2(j);
    lemma_pow2_pos(j);
    assert(big <= 1024) by {
        if j == 11 {
            assert(p >= 0x10_0000_0000_0000 * 2048);
            assert(m * f < 0x20_0000_0000_0000 * 1024) by (nonlinear_arith)
                requires
                    m < 0x20_0000_0000_0000,
                    1 <= f <= 1024,
            ;
        } else if j < 10 {
            lemma_pow2_strictly_increases(j, 10);
        }
    }
    let q = nearest_even(p, big);
    lemma_nearest_even(p, big);
    let x = e + j;
    let d = pow2((-x) as nat);
    lemma_pow2_pos((-x) as nat);
    lemma_pow2_adds(j, (-x) as nat);
    assert(big * d == pow2(k));
    let t = nearest_up(q, d);
    assert(product_rounded(m, e, f) == t);
    let w = 2 * q + d;
    vstd::arithmetic::div_mod::lemma_fundamental_div_mod(w as int, (2 * d) as int);
    vstd::arithmetic::div_mod::lemma_mod_bound(w as int, (2 * d) as int);
    assert(-(d as int) <= 2 * (t * d - q) <= d) by (nonlinear_arith)
        requires
            w == (2 * d) * t + w % (2 * d),
            0 <= w % (2 * d),
            w % (2 * d) < 2 * d,
            w == 2 * q + d,
    ;
    assert(-(big * d) <= 2 * (t * (big * d) - q * big) <= big * d) by (nonlinear_arith)
        requires
            -(d as int) <= 2 * (t * d - q) <= d,
            big > 0,
    ;
}

/// The number of 120ths of a factor is the nearest, but at least one: for the factor
/// `m / 2^k` it differs from 120 times that by a half at most, and no more besides than
/// rounding the product to a double adds.
pub proof fn law_the_steps_are_the_nearest(s: Scale, k: nat)
    requires
        s.is_positive(),
        s.bits < 0x4160_0000_0000_0000,
        k == -s.power(),
    ensures
        s.steps() matches Some(n) && n >= 1 && (n > 1 ==> -(pow2(k) + 1024) <= 2 * (n * pow2(k)
            - s.mantissa() * 120) <= pow2(k) + 1024) && (n == 1 ==> 2 * (s.mantissa() * 120)
            <= 3 * pow2(k) + 1024),
{
    assert(s.size() == s.bits);
    assert(s.bits / UNIT <= 1045);
    lemma_carried(s);
    law_the_bits_of_a_factor(s);
    lemma_product_nearest(s.mantissa(), k, 120);
    let t = product_rounded(s.mantissa(), -(k as int), 120);
    lemma_pow2_pos(k);
    assert(s.power() == -(k as int));
    if t == 0 {
        assert(t * pow2(k) == 0) by (nonlinear_arith)
            requires
                t == 0,
        ;
    } else if t == 1 {
        assert(t * pow2(k) == pow2(k)) by (nonlinear_arith)
            requires
                t == 1,
        ;
    }
}

/// A factor in thousandths is the nearest of them: for the factor `m / 2^k` their number
/// differs from a thousand times that by a half at most, and no more besides than
/// rounding the product to a double adds.
pub proof fn law_the_thousandths_are_the_nearest(s: Scale, k: nat)
    requires
        s.is_positive(),
        s.bits < 0x4160_0000_0000_0000,
        k == -s.power(),
    ensures
        exists|t: nat|
            s.thousandths().bits == #[trigger] quotient(t, 1000) && -(pow2(k) + 1024) <= 2 * (t
                * pow2(k) - s.mantissa() * 1000) <= pow2(k) + 1024,
{
    assert(s.size() == s.bits);
    assert(s.bits / UNIT <= 1045);
    law_the_bits_of_a_factor(s);
    lemma_product_nearest(s.mantissa(), k, 1000);
    let t = product_rounded(s.mantissa(), -(k as int), 1000);
    assert(s.power() == -(k as int));
    lemma2_to64();
    if k > 30 {
        lemma_pow2_strictly_increases(30, k);
    }
    assert(pow2(k) >= 0x4000_0000);
    let m = s.mantissa() as int;
    let b = pow2(k) as int;
    assert(t < 0x1_0000_0000_0000_0000) by (nonlinear_arith)
        requires
            2 * (t * b - m * 1000) <= b + 1024,
            b >= 0x4000_0000,
            m < 0x20_0000_0000_0000,
    ;
    lemma_below_1024(t);
    assert(s.thousandths().bits == quotient(t, 1000)) by {
        assert(!s.is_negative());
    }
}

/// The factor that so many 120ths or thousandths make is the double nearest to their
/// quotient: `m / 2^k` differs from it by half of the last bit at most.
pub proof fn law_a_quotient_is_the_nearest_double(n: nat, d: nat, k: nat)
    requires
        0 < n < 0x4_0000_0000,
        2 <= d <= 1000,
        k == -(Scale { bits: quotient(n, d) }).power(),
    ensures
        ({
            let s = Scale { bits: quotient(n, d) };
            &&& s.is_positive() && s.is_finite()
            &&& s.mantissa() >= 0x10_0000_0000_0000
            &&& -(d as int) <= 2 * (s.mantissa() * d - n * pow2(k)) <= d
        }),
{
    let s = Scale { bits: quotient(n, d) };
    let u = doublings(n, d);
    lemma_quotient_parts(n, d);
    lemma_nearest_even(n * pow2(u), d);
    let m = nearest_even(n * pow2(u), d);
    if s.mantissa() == m && s.power() == -u {
        assert(k == u);
    } else {
        assert(k + 1 == u);
        lemma_pow2_unfold(u);
        assert(n * pow2(u) == 2 * (n * pow2(k))) by (nonlinear_arith)
            requires
                pow2(u) == 2 * pow2(k),
        ;
        assert(m * d == 2 * (s.mantissa() * d)) by (nonlinear_arith)
            requires
                m == 2 * s.mantissa(),
        ;
    }
}

}
