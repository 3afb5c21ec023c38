//! Numbers as text: whole numbers in decimal, and decimal fractions, read as the
//! nearest double and rounded to thousandths.

use vstd::arithmetic::power::*;
use vstd::arithmetic::power2::*;
use vstd::prelude::*;

use crate::scale;
use crate::text;

verus! {

/// Whether a character is one of `0` to `9`.
pub open spec fn is_digit(c: char) -> bool {
    '0' <= c <= '9'
}

/// Whether a text is digits throughout.
pub open spec fn all_digits(s: Seq<char>) -> bool {
    forall|i: int| 0 <= i < s.len() ==> is_digit(#[trigger] s[i])
}

/// What a digit counts.
pub open spec fn digit_value(c: char) -> nat {
    (c as u32 - '0' as u32) as nat
}

/// The number that a row of digits writes; an empty row writes nought.
pub open spec fn digits_value(s: Seq<char>) -> nat
    decreases s.len(),
{
    if s.len() == 0 {
        0
    } else {
        10 * digits_value(s.drop_last()) + digit_value(s.last())
    }
}

/// The number that a text writes: an optional sign, then one digit or more.
pub open spec fn parse_int(s: Seq<char>) -> Option<int> {
    let signed = s.len() > 0 && (s[0] == '-' || s[0] == '+');
    let digits = if signed {
        s.drop_first()
    } else {
        s
    };
    if digits.len() == 0 || !all_digits(digits) {
        None
    } else if s[0] == '-' {
        Some(-(digits_value(digits) as int))
    } else {
        Some(digits_value(digits) as int)
    }
}

/// The number that a text writes, if it is one that an `i32` holds.
pub open spec fn parse_i32_spec(s: Seq<char>) -> Option<i32> {
    match parse_int(s) {
        Some(n) => if i32::MIN <= n <= i32::MAX {
            Some(n as i32)
        } else {
            None
        },
        None => None,
    }
}

proof fn lemma_digits_value_push(s: Seq<char>, c: char)
    ensures
        digits_value(s.push(c)) == 10 * digits_value(s) + digit_value(c),
{
    assert(s.push(c).drop_last() == s);
}

/// Whether the characters from `from` on are digits.
fn digits_from(v: &Vec<char>, from: usize) -> (r: bool)
    requires
        from <= v@.len(),
    ensures
        r == all_digits(v@.skip(from as int)),
{
    for i in from..v.len()
        invariant
            from <= v@.len(),
            forall|j: int| from <= j < i ==> is_digit(#[trigger] v@[j]),
    {
        if !('0' <= v[i] && v[i] <= '9') {
            assert(!is_digit(v@.skip(from as int)[i - from]));
            return false;
        }
    }
    true
}

/// The value of the digits from `from` on, or `limit` where it is above that.
fn value_from(v: &Vec<char>, from: usize, limit: u128) -> (r: u128)
    requires
        from <= v@.len(),
        all_digits(v@.skip(from as int)),
        limit < 0x1_0000_0000_0000_0000_0000_0000_0000,
    ensures
        r == (if digits_value(v@.skip(from as int)) > limit {
            limit as nat
        } else {
            digits_value(v@.skip(from as int))
        }),
{
    let mut acc: u128 = 0;
    let mut over: bool = false;
    let ghost all = v@.skip(from as int);
    for i in from..v.len()
        invariant
            from <= v@.len(),
            all == v@.skip(from as int),
            all_digits(all),
            limit < 0x1_0000_0000_0000_0000_0000_0000_0000,
            over == (digits_value(all.take(i - from)) > limit),
            !over ==> acc == digits_value(all.take(i - from)),
    {
        let c = v[i];
        assert(c == all[i - from]);
        assert(is_digit(all[i - from]));
        proof {
            assert(all.take(i - from + 1) == all.take(i - from).push(c));
            lemma_digits_value_push(all.take(i - from), c);
        }
        if !over {
            acc = 10 * acc + (c as u32 - '0' as u32) as u128;
            over = acc > limit;
        }
    }
    assert(all.take(v@.len() - from) == all);
    if over {
        limit
    } else {
        acc
    }
}

/// Reads a whole number that fits in an `i32`.
pub fn parse_i32(v: &Vec<char>) -> (r: Option<i32>)
    ensures
        r == parse_i32_spec(v@),
{
    let signed = v.len() > 0 && (v[0] == '-' || v[0] == '+');
    let from: usize = if signed {
        1
    } else {
        0
    };
    assert(v@.skip(0) == v@);
    assert(signed ==> v@.skip(1) == v@.drop_first());
    if from >= v.len() || !digits_from(v, from) {
        return None;
    }
    let n = value_from(v, from, 0x1_0000_0000);
    if v[0] == '-' {
        if n <= 0x8000_0000 {
            Some((-(n as i64)) as i32)
        } else {
            None
        }
    } else if n <= 0x7fff_ffff {
        Some(n as i32)
    } else {
        None
    }
}

/// The digit that counts `n`.
pub open spec fn digit(n: nat) -> char {
    ('0' as u32 + n) as u32 as char
}

/// A number in decimal.
pub open spec fn show_nat(n: nat) -> Seq<char>
    decreases n,
{
    if n < 10 {
        seq![digit(n)]
    } else {
        show_nat(n / 10).push(digit(n % 10))
    }
}

/// A number in decimal, with a minus sign where it is below nought.
pub open spec fn show_int(n: int) -> Seq<char> {
    if n < 0 {
        seq!['-'] + show_nat((-n) as nat)
    } else {
        show_nat(n as nat)
    }
}

/// A number below a thousand in three digits.
pub open spec fn show_three(n: nat) -> Seq<char> {
    seq![digit(n / 100), digit(n / 10 % 10), digit(n % 10)]
}

fn push_digit(v: &mut Vec<char>, n: u64)
    requires
        n < 10,
    ensures
        final(v)@ == old(v)@.push(digit(n as nat)),
{
    v.push(('0' as u8 + n as u8) as char);
}

/// Appends a number in decimal.
pub fn push_nat(v: &mut Vec<char>, n: u64)
    ensures
        final(v)@ == old(v)@ + show_nat(n as nat),
    decreases n,
{
    if n < 10 {
        push_digit(v, n);
        assert(old(v)@ + seq![digit(n as nat)] == old(v)@.push(digit(n as nat)));
    } else {
        push_nat(v, n / 10);
        push_digit(v, n % 10);
        assert((old(v)@ + show_nat((n / 10) as nat)).push(digit((n % 10) as nat)) == old(v)@
            + show_nat(n as nat));
    }
}

/// Appends a number in decimal, with its sign where it is below nought.
pub fn push_int(v: &mut Vec<char>, n: i64)
    requires
        n > i64::MIN,
    ensures
        final(v)@ == old(v)@ + show_int(n as int),
{
    if n < 0 {
        v.push('-');
        push_nat(v, (-n) as u64);
        assert(old(v)@.push('-') + show_nat((-n) as nat) == old(v)@ + show_int(n as int));
    } else {
        push_nat(v, n as u64);
    }
}

/// A number in decimal.
pub fn int_text(n: i64) -> (r: String)
    requires
        n > i64::MIN,
    ensures
        r@ == show_int(n as int),
{
    let mut v: Vec<char> = Vec::new();
    push_int(&mut v, n);
    assert(v@ == show_int(n as int));
    text::from_chars(&v)
}

/// Appends a number below a thousand in three digits.
pub fn push_three(v: &mut Vec<char>, n: u64)
    requires
        n < 1000,
    ensures
        final(v)@ == old(v)@ + show_three(n as nat),
{
    push_digit(v, n / 100);
    push_digit(v, n / 10 % 10);
    push_digit(v, n % 10);
    assert(v@ == old(v)@ + show_three(n as nat));
}

/// Reading back what `show_nat` writes.
pub proof fn lemma_show_nat(n: nat)
    ensures
        show_nat(n).len() > 0,
        all_digits(show_nat(n)),
        digits_value(show_nat(n)) == n,
    decreases n,
{
    if n >= 10 {
        lemma_show_nat(n / 10);
        lemma_digits_value_push(show_nat(n / 10), digit(n % 10));
    } else {
        lemma_digits_value_push(Seq::empty(), digit(n));
        assert(Seq::<char>::empty().push(digit(n)) == seq![digit(n)]);
    }
}

/// A number that an `i32` holds reads back from its own text.
pub proof fn law_int_text_round_trips(n: i32)
    ensures
        parse_i32_spec(show_int(n as int)) == Some(n),
{
    if n < 0 {
        lemma_show_nat((-n) as nat);
        assert(show_int(n as int).drop_first() == show_nat((-n) as nat));
    } else {
        lemma_show_nat(n as nat);
        let s = show_int(n as int);
        assert(is_digit(s[0]));
    }
}


/// A thousand times the double nearest to `d` times ten to the power `p`, rounded
/// to the nearest double and then to the nearest whole number.
pub open spec fn decimal_times(d: nat, p: int) -> nat {
    if p >= 0 {
        scale::ratio_times(d * pow(10, p as nat) as nat, 1, 1000)
    } else {
        scale::ratio_times(d, pow(10, (-p) as nat) as nat, 1000)
    }
}

/// A thousand times the double nearest to what an unsigned decimal fraction
/// writes, rounded to the nearest whole number. The fraction is digits with at
/// most one point among them, at least one digit, and an optional power of ten
/// behind an `e`.
pub open spec fn decimal_thousandths(s: Seq<char>) -> Option<nat> {
    let (mantissa, exponent) = match text::first_at(text::lower(s), 'e') {
        Some(i) => (s.take(i), parse_int(s.skip(i + 1))),
        None => (s, Some(0int)),
    };
    let (whole, fraction) = match text::first_at(mantissa, '.') {
        Some(i) => (mantissa.take(i), mantissa.skip(i + 1)),
        None => (mantissa, Seq::empty()),
    };
    let digits = whole + fraction;
    if exponent is None || digits.len() == 0 || !all_digits(digits) {
        None
    } else {
        Some(decimal_times(digits_value(digits), exponent->0 - fraction.len()))
    }
}

/// The nearest value that an `i32` holds.
pub open spec fn clamp_i32(n: int) -> i32 {
    if n < i32::MIN {
        i32::MIN
    } else if n > i32::MAX {
        i32::MAX
    } else {
        n as i32
    }
}

/// A thousand times the double nearest to the number that a text writes, rounded
/// to the nearest whole number that an `i32` holds; halves go away from nought. The words for
/// infinity and for no number are numbers here: the first is beyond every
/// `i32`, the second counts nought.
pub open spec fn thousandths_spec(s: Seq<char>) -> Option<i32> {
    let signed = s.len() > 0 && (s[0] == '-' || s[0] == '+');
    let sign: int = if s.len() > 0 && s[0] == '-' {
        -1
    } else {
        1
    };
    let body = if signed {
        s.drop_first()
    } else {
        s
    };
    let word = text::lower(body);
    if word == "inf"@ || word == "infinity"@ {
        Some(if sign < 0 {
            i32::MIN
        } else {
            i32::MAX
        })
    } else if word == "nan"@ {
        Some(0)
    } else {
        match decimal_thousandths(body) {
            Some(n) => Some(clamp_i32(sign * n)),
            None => None,
        }
    }
}

proof fn lemma_digits_value_bound(s: Seq<char>)
    requires
        all_digits(s),
    ensures
        digits_value(s) < pow(10, s.len()),
    decreases s.len(),
{
    lemma_pow0(10);
    if s.len() > 0 {
        assert(is_digit(s.last()));
        assert forall|i: int| 0 <= i < s.drop_last().len() implies is_digit(
            #[trigger] s.drop_last()[i],
        ) by {
            assert(is_digit(s[i]));
        }
        lemma_digits_value_bound(s.drop_last());
        lemma_pow_adds(10, (s.len() - 1) as nat, 1);
        lemma_pow1(10);
    }
}

/// A row of digits cut in two.
proof fn lemma_digits_value_split(s: Seq<char>, k: int)
    requires
        0 <= k <= s.len(),
    ensures
        digits_value(s) == digits_value(s.take(k)) * pow(10, (s.len() - k) as nat) + digits_value(
            s.skip(k),
        ),
    decreases s.len() - k,
{
    lemma_pow0(10);
    if k == s.len() {
        assert(s.take(k) == s);
        assert(s.skip(k).len() == 0);
    } else {
        let t = s.drop_last();
        lemma_digits_value_split(t, k);
        assert(t.take(k) == s.take(k));
        assert(s.skip(k).drop_last() == t.skip(k));
        let a = digits_value(s.take(k)) as int;
        let p = pow(10, (t.len() - k) as nat);
        lemma_pow_adds(10, (t.len() - k) as nat, 1);
        lemma_pow1(10);
        assert(a * (p * 10) == 10 * (a * p)) by (nonlinear_arith);
    }
}

/// A row of digits without the last few.
proof fn lemma_digits_part(s: Seq<char>, k: int)
    requires
        all_digits(s),
        0 <= k <= s.len(),
    ensures
        all_digits(s.take(k)),
        all_digits(s.skip(k)),
{
    assert forall|i: int| 0 <= i < s.take(k).len() implies is_digit(#[trigger] s.take(k)[i]) by {
        assert(is_digit(s[i]));
    }
    assert forall|i: int| 0 <= i < s.skip(k).len() implies is_digit(#[trigger] s.skip(k)[i]) by {
        assert(is_digit(s[k + i]));
    }
}

/// One more digit in front of a row.
proof fn lemma_digits_value_front(s: Seq<char>, k: int)
    requires
        0 <= k < s.len(),
    ensures
        digits_value(s.skip(k)) == digit_value(s[k]) * pow(10, (s.len() - k - 1) as nat)
            + digits_value(s.skip(k + 1)),
{
    let t = s.skip(k);
    lemma_digits_value_split(t, 1);
    assert(t.skip(1) == s.skip(k + 1));
    assert(t.take(1).drop_last() == Seq::<char>::empty());
    assert(t.take(1).last() == s[k]);
    assert(digits_value(t.take(1)) == digit_value(s[k])) by {
        reveal_with_fuel(digits_value, 2);
    }
}

/// Doubles the number that a row of digits writes, and says whether it outgrew the
/// row.
fn double_digits(v: &mut Vec<char>) -> (carry: bool)
    requires
        all_digits(old(v)@),
    ensures
        final(v)@.len() == old(v)@.len(),
        all_digits(final(v)@),
        digits_value(final(v)@) + (if carry {
            pow(10, old(v)@.len())
        } else {
            0
        }) == 2 * digits_value(old(v)@),
{
    let ghost start = v@;
    let n = v.len();
    let mut i: usize = n;
    let mut carry = false;
    assert(v@.skip(n as int).len() == 0);
    proof {
        lemma_pow0(10);
    }
    while i > 0
        invariant
            n == start.len(),
            v@.len() == n,
            i <= n,
            all_digits(start),
            all_digits(v@),
            forall|k: int| 0 <= k < i ==> v@[k] == start[k],
            digits_value(v@.skip(i as int)) + (if carry {
                pow(10, (n - i) as nat)
            } else {
                0
            }) == 2 * digits_value(start.skip(i as int)),
        decreases i,
    {
        let ghost before = v@;
        let ghost c: int = if carry {
            1
        } else {
            0
        };
        i = i - 1;
        assert(is_digit(v@[i as int]));
        let d: u32 = 2 * (v[i] as u32 - '0' as u32) + (if carry {
            1
        } else {
            0
        });
        let low: u32 = if d >= 10 {
            d - 10
        } else {
            d
        };
        let ch = ('0' as u8 + low as u8) as char;
        v.set(i, ch);
        carry = d >= 10;
        proof {
            assert(digit_value(ch) == low);
            lemma_digits_value_front(start, i as int);
            lemma_digits_value_front(v@, i as int);
            assert(v@.skip(i + 1) == before.skip(i + 1));
            let q = pow(10, (n - i - 1) as nat);
            lemma_pow_adds(10, (n - i - 1) as nat, 1);
            lemma_pow1(10);
            let x = digit_value(start[i as int]) as int;
            assert(2 * (x * q) + c * q == d * q) by (nonlinear_arith)
                requires
                    d == 2 * x + c,
            ;
            if carry {
                assert(low * q + q * 10 == d * q) by (nonlinear_arith)
                    requires
                        d == low + 10,
                ;
            }
            assert(c * q == (if c == 1 {
                q
            } else {
                0
            })) by (nonlinear_arith)
                requires
                    c == 0 || c == 1,
            ;
            assert(all_digits(v@));
        }
    }
    assert(v@.skip(0) == v@);
    assert(start.skip(0) == start);
    carry
}

/// Whether a row of digits writes nought.
fn is_nought(v: &Vec<char>) -> (r: bool)
    requires
        all_digits(v@),
    ensures
        r == (digits_value(v@) == 0),
{
    let n = v.len();
    let mut i: usize = n;
    assert(v@.skip(n as int).len() == 0);
    while i > 0
        invariant
            n == v@.len(),
            i <= n,
            all_digits(v@),
            digits_value(v@.skip(i as int)) == 0,
        decreases i,
    {
        i = i - 1;
        proof {
            lemma_digits_value_front(v@, i as int);
            lemma_pow_positive(10, (n - i - 1) as nat);
            assert(is_digit(v@[i as int]));
        }
        if v[i] != '0' {
            proof {
                let x = digit_value(v@[i as int]) as int;
                let q = pow(10, (n - i - 1) as nat);
                assert(x * q > 0) by (nonlinear_arith)
                    requires
                        x > 0,
                        q > 0,
                ;
                lemma_digits_value_split(v@, i as int);
                let a = digits_value(v@.take(i as int)) as int;
                let b = pow(10, (n - i) as nat);
                lemma_pow_positive(10, (n - i) as nat);
                assert(a * b >= 0) by (nonlinear_arith)
                    requires
                        a >= 0,
                        b > 0,
                ;
            }
            return false;
        }
        proof {
            let q = pow(10, (n - i - 1) as nat);
            assert(0 * q == 0);
        }
    }
    assert(v@.skip(0) == v@);
    true
}

/// A thousand times the double nearest to a number that is neither tiny nor huge,
/// given by its whole part and the digits behind the point.
fn near_times(whole: u64, fraction: Vec<char>) -> (r: u64)
    requires
        all_digits(fraction@),
        whole < 0xffff_ffff,
        (whole * pow(10, fraction@.len()) + digits_value(fraction@)) * 100_000 >= pow(
            10,
            fraction@.len(),
        ),
    ensures
        ({
            let d = pow(10, fraction@.len()) as nat;
            let n = (whole * pow(10, fraction@.len()) + digits_value(fraction@)) as nat;
            let t = scale::ratio_times(n, d, 1000);
            r == (if t > 0xffff_ffff {
                0xffff_ffff
            } else {
                t
            })
        }),
{
    let mut f = fraction;
    let mut q: u64 = whole;
    let mut k: i32 = 0;
    let ghost len = fraction@.len();
    let ghost d = pow(10, len) as nat;
    let ghost n = (whole * pow(10, len) + digits_value(fraction@)) as nat;
    proof {
        lemma_pow_positive(10, len);
        lemma_digits_value_bound(fraction@);
        lemma2_to64();
        assert(n > 0);
        assert(n * pow2(0) == n) by (nonlinear_arith)
            requires
                pow2(0) == 1,
        ;
        assert(n < 0xffff_ffff * d) by (nonlinear_arith)
            requires
                n == whole * d + digits_value(fraction@),
                digits_value(fraction@) < d,
                whole + 1 <= 0xffff_ffff,
        ;
        assert(q * d == whole * d);
    }
    while q < 0x10_0000_0000_0000
        invariant
            d == pow(10, len),
            d > 0,
            n > 0,
            n * 100_000 >= d,
            n < 0xffff_ffff * d,
            f@.len() == len,
            all_digits(f@),
            0 <= k <= 69,
            q < 0x20_0000_0000_0000,
            n * pow2(k as nat) == q * d + digits_value(f@),
            digits_value(f@) < d,
            scale::doublings(n, d) == k + scale::doublings(n * pow2(k as nat), d),
        decreases 70 - k,
    {
        proof {
            let a = (n * pow2(k as nat)) as int;
            assert(a < d * 0x10_0000_0000_0000) by (nonlinear_arith)
                requires
                    a == q * d + digits_value(f@),
                    digits_value(f@) < d,
                    q + 1 <= 0x10_0000_0000_0000,
            ;
            lemma_few_doublings(n, d, k as nat);
            lemma_pow2_pos(k as nat);
            lemma_pow2_unfold((k + 1) as nat);
            assert(n * pow2((k + 1) as nat) == 2 * a) by (nonlinear_arith)
                requires
                    a == n * pow2(k as nat),
                    pow2((k + 1) as nat) == 2 * pow2(k as nat),
            ;
            assert(a > 0) by (nonlinear_arith)
                requires
                    a == n * pow2(k as nat),
                    n > 0,
                    pow2(k as nat) > 0,
            ;
        }
        let ghost before = digits_value(f@) as int;
        let ghost q0 = q as int;
        let carry = double_digits(&mut f);
        q = 2 * q + (if carry {
            1
        } else {
            0
        });
        k = k + 1;
        proof {
            assert(q * d + digits_value(f@) == 2 * (q0 * d + before)) by (nonlinear_arith)
                requires
                    digits_value(f@) + (if carry {
                        d as int
                    } else {
                        0
                    }) == 2 * before,
                    q == 2 * q0 + (if carry {
                        1int
                    } else {
                        0
                    }),
            ;
            lemma_digits_value_bound(f@);
        }
    }
    proof {
        let a = n * pow2(k as nat);
        assert(a >= d * 0x10_0000_0000_0000) by (nonlinear_arith)
            requires
                a == q * d + digits_value(f@),
                q >= 0x10_0000_0000_0000,
                digits_value(f@) >= 0,
        ;
        assert(scale::doublings(n, d) == k);
        assert(scale::halvings(n, d) == 0);
        assert(d * pow2(0) == d) by (nonlinear_arith)
            requires
                pow2(0) == 1,
        ;
        vstd::arithmetic::div_mod::lemma_fundamental_div_mod_converse(
            a as int,
            d as int,
            q as int,
            digits_value(f@) as int,
        );
    }
    let ghost rest = digits_value(f@) as int;
    let carry = double_digits(&mut f);
    let m: u64 = if carry && (!is_nought(&f) || q % 2 == 1) {
        q + 1
    } else {
        q
    };
    proof {
        lemma_digits_value_bound(f@);
        assert(m == scale::nearest_even(n * pow2(k as nat), d));
    }
    scale::thousand_times(m, -k, 0xffff_ffff)
}

/// What is not tiny fills 53 bits after a few doublings.
proof fn lemma_few_doublings(n: nat, d: nat, k: nat)
    requires
        d > 0,
        n * 100_000 >= d,
        n * pow2(k) < d * 0x10_0000_0000_0000,
    ensures
        k < 69,
{
    if k >= 69 {
        lemma2_to64();
        lemma2_to64_rest();
        lemma_pow2_adds(60, 9);
        assert(pow2(69) == pow2(60) * pow2(9));
        if k > 69 {
            lemma_pow2_strictly_increases(69, k);
        }
        let t = pow2(k) as int;
        assert(n * t >= d * 0x10_0000_0000_0000) by (nonlinear_arith)
            requires
                n * 100_000 >= d,
                t >= 0x10_0000_0000_0000 * 100_000,
                d > 0,
                n >= 0,
        ;
    }
}

/// `decimal_times` of the digits, or `0xffff_ffff` where it is above that.
fn decimal_times_capped(v: &Vec<char>, p: i128) -> (r: u64)
    requires
        all_digits(v@),
        -0x1000_0000_0000_0000_0000_0000 < p < 0x1000_0000_0000_0000_0000_0000,
    ensures
        ({
            let t = decimal_times(digits_value(v@), p as int);
            r == (if t > 0xffff_ffff {
                0xffff_ffff
            } else {
                t
            })
        }),
{
    let n = v.len();
    let ghost d = digits_value(v@);
    assert(v@.skip(0) == v@);
    if is_nought(v) {
        proof {
            lemma_decimal_nought(p as int);
        }
        return 0;
    }
    if p >= 0 {
        let mut acc: u128 = value_from(v, 0, 0xffff_ffff);
        let mut done: i128 = 0;
        proof {
            lemma_pow0(10);
            assert(d * 1 == d);
        }
        while done < p && acc < 0xffff_ffff
            invariant
                0 <= done <= p,
                d > 0,
                acc <= 0xffff_ffff,
                acc == (if d * pow(10, done as nat) > 0xffff_ffff {
                    0xffff_ffff
                } else {
                    d * pow(10, done as nat)
                }),
            decreases p - done,
        {
            proof {
                lemma_pow_adds(10, done as nat, 1);
                lemma_pow1(10);
                let a = pow(10, done as nat);
                assert(d * (a * 10) == 10 * (d * a)) by (nonlinear_arith);
            }
            acc = 10 * acc;
            if acc > 0xffff_ffff {
                acc = 0xffff_ffff;
            }
            done = done + 1;
        }
        let ghost all = (d * pow(10, p as nat)) as nat;
        if acc == 0xffff_ffff {
            proof {
                let a = pow(10, done as nat);
                let b = pow(10, p as nat);
                lemma_pow_positive(10, p as nat);
                lemma_pow_increases(10, done as nat, p as nat);
                assert(d * a <= d * b) by (nonlinear_arith)
                    requires
                        0 <= d,
                        a <= b,
                ;
                scale::lemma_ratio_large(all, 1);
            }
            return 0xffff_ffff;
        }
        proof {
            let b = pow(10, p as nat);
            lemma_pow_positive(10, p as nat);
            assert(d * b > 0) by (nonlinear_arith)
                requires
                    d > 0,
                    b > 0,
            ;
            assert(Seq::<char>::empty().len() == 0);
            assert(acc * pow(10, 0) == acc) by (nonlinear_arith)
                requires
                    pow(10, 0) == 1,
            ;
        }
        return near_times(acc as u64, Vec::new());
    }
    let ghost unit = pow(10, (-p) as nat);
    proof {
        lemma_pow_positive(10, (-p) as nat);
    }
    if p < -(n as i128) - 5 {
        proof {
            lemma_digits_value_bound(v@);
            lemma_tiny(d, n as nat, p as int);
        }
        return 0;
    }
    let mut fraction: Vec<char> = Vec::new();
    let mut whole: u128 = 0;
    if p < -(n as i128) {
        let zeros: usize = (-(n as i128) - p) as usize;
        let mut i: usize = 0;
        while i < zeros
            invariant
                i <= zeros,
                fraction@.len() == i,
                forall|j: int| 0 <= j < i ==> #[trigger] fraction@[j] == '0',
            decreases zeros - i,
        {
            fraction.push('0');
            i = i + 1;
        }
        let ghost front = fraction@;
        let mut rest = text::part(v, 0, n);
        assert(rest@ == v@);
        fraction.append(&mut rest);
        proof {
            lemma_zeros(front);
            lemma_digits_value_split(fraction@, zeros as int);
            assert(fraction@.take(zeros as int) == front);
            assert(fraction@.skip(zeros as int) == v@);
            let b = pow(10, n as nat);
            let z = digits_value(front) as int;
            assert(z * b == 0) by (nonlinear_arith)
                requires
                    z == 0,
            ;
            assert forall|j: int| 0 <= j < fraction@.len() implies is_digit(
                #[trigger] fraction@[j],
            ) by {
                if j >= zeros {
                    assert(is_digit(v@[j - zeros]));
                }
            }
            assert(0 * unit == 0);
        }
    } else {
        let k: usize = (n as i128 + p) as usize;
        let head = text::part(v, 0, k);
        fraction = text::part(v, k, n);
        proof {
            lemma_digits_value_split(v@, k as int);
            lemma_digits_part(v@, k as int);
            assert(head@ == v@.take(k as int));
            assert(fraction@ == v@.skip(k as int));
            assert(head@.skip(0) == head@);
        }
        whole = value_from(&head, 0, 0xffff_ffff);
        if whole == 0xffff_ffff {
            proof {
                let w = digits_value(head@) as int;
                assert(d >= unit * 0xffff_ffff) by (nonlinear_arith)
                    requires
                        d == w * unit + digits_value(fraction@),
                        w >= 0xffff_ffff,
                        unit > 0,
                        digits_value(fraction@) >= 0,
                ;
                scale::lemma_ratio_large(d, unit as nat);
            }
            return 0xffff_ffff;
        }
    }
    assert(fraction@.len() == -p);
    assert(d == whole * unit + digits_value(fraction@));
    if whole == 0 && starts_with_zeros(&fraction) {
        proof {
            lemma_leading_zeros(fraction@);
            assert(0 * unit == 0);
            scale::lemma_ratio_small(d, unit as nat);
        }
        return 0;
    }
    proof {
        if whole == 0 {
            lemma_no_leading_zeros(fraction@);
            assert(0 * unit == 0);
        } else {
            assert((whole * unit + digits_value(fraction@)) * 100_000 >= unit)
                by (nonlinear_arith)
                requires
                    whole >= 1,
                    unit > 0,
                    digits_value(fraction@) >= 0,
            ;
        }
    }
    near_times(whole as u64, fraction)
}

/// Nought times a power of ten is nought.
proof fn lemma_decimal_nought(p: int)
    ensures
        decimal_times(0, p) == 0,
{
    if p >= 0 {
        let b = pow(10, p as nat);
        assert(0 * b == 0);
        scale::lemma_ratio_small(0, 1);
    } else {
        lemma_pow_positive(10, (-p) as nat);
        scale::lemma_ratio_small(0, pow(10, (-p) as nat) as nat);
    }
}

/// What starts more than five places behind the point is tiny.
proof fn lemma_tiny(d: nat, n: nat, p: int)
    requires
        d < pow(10, n),
        p < -(n as int) - 5,
    ensures
        decimal_times(d, p) == 0,
{
    let m = (-p) as nat;
    lemma_pow_increases(10, n + 5, m);
    lemma_pow_adds(10, n, 5);
    assert(pow(10, 5) == 100_000) by {
        reveal(pow);
        reveal_with_fuel(pow, 6);
    }
    let a = pow(10, n);
    assert(d * 100_000 < a * 100_000);
    scale::lemma_ratio_small(d, pow(10, m) as nat);
}

/// A row of noughts writes nought.
proof fn lemma_zeros(s: Seq<char>)
    requires
        forall|j: int| 0 <= j < s.len() ==> #[trigger] s[j] == '0',
    ensures
        digits_value(s) == 0,
    decreases s.len(),
{
    if s.len() > 0 {
        let t = s.drop_last();
        assert forall|j: int| 0 <= j < t.len() implies #[trigger] t[j] == '0' by {
            assert(s[j] == '0');
        }
        lemma_zeros(t);
        assert(s[s.len() - 1] == '0');
    }
}

/// Whether a row of digits starts with five noughts, as far as it goes.
pub open spec fn leads_with_zeros(s: Seq<char>) -> bool {
    forall|j: int| 0 <= j < s.len() && j < 5 ==> #[trigger] s[j] == '0'
}

fn starts_with_zeros(v: &Vec<char>) -> (r: bool)
    ensures
        r == leads_with_zeros(v@),
{
    let n: usize = if v.len() < 5 {
        v.len()
    } else {
        5
    };
    for i in 0..n
        invariant
            n <= v@.len(),
            n == v@.len() || n == 5,
            n <= 5,
            forall|j: int| 0 <= j < i ==> #[trigger] v@[j] == '0',
    {
        if v[i] != '0' {
            return false;
        }
    }
    true
}

/// Behind five noughts a fraction is tiny.
proof fn lemma_leading_zeros(s: Seq<char>)
    requires
        all_digits(s),
        leads_with_zeros(s),
    ensures
        digits_value(s) * 100_000 < pow(10, s.len()),
{
    let k: int = if s.len() < 5 {
        s.len() as int
    } else {
        5
    };
    let front = s.take(k);
    assert forall|j: int| 0 <= j < front.len() implies #[trigger] front[j] == '0' by {
        assert(s[j] == '0');
    }
    lemma_zeros(front);
    lemma_digits_value_split(s, k);
    lemma_digits_part(s, k);
    lemma_digits_value_bound(s.skip(k));
    let b = pow(10, (s.len() - k) as nat);
    assert(0 * b == 0);
    lemma_pow_adds(10, (s.len() - k) as nat, k as nat);
    lemma_pow_positive(10, s.len());
    if k == 5 {
        assert(pow(10, 5) == 100_000) by {
            reveal(pow);
            reveal_with_fuel(pow, 6);
        }
    } else {
        assert(s.skip(k).len() == 0);
    }
}

/// With another digit among the first five a fraction is not tiny.
proof fn lemma_no_leading_zeros(s: Seq<char>)
    requires
        all_digits(s),
        !leads_with_zeros(s),
    ensures
        digits_value(s) * 100_000 >= pow(10, s.len()),
{
    let j = choose|j: int| 0 <= j < s.len() && j < 5 && #[trigger] s[j] != '0';
    assert(is_digit(s[j]));
    lemma_digits_value_split(s, j);
    lemma_digits_value_front(s, j);
    let q = pow(10, (s.len() - j - 1) as nat);
    let a = digits_value(s.take(j)) as int;
    let b = pow(10, (s.len() - j) as nat);
    lemma_pow_positive(10, (s.len() - j) as nat);
    lemma_pow_positive(10, (s.len() - j - 1) as nat);
    assert(a * b >= 0) by (nonlinear_arith)
        requires
            a >= 0,
            b > 0,
    ;
    let x = digit_value(s[j]) as int;
    assert(x * q >= q) by (nonlinear_arith)
        requires
            x >= 1,
            q > 0,
    ;
    lemma_pow_adds(10, (s.len() - j - 1) as nat, (j + 1) as nat);
    lemma_pow_increases(10, (j + 1) as nat, 5);
    assert(pow(10, 5) == 100_000) by {
        reveal(pow);
        reveal_with_fuel(pow, 6);
    }
    let c = pow(10, (j + 1) as nat);
    assert(q * 100_000 >= q * c) by (nonlinear_arith)
        requires
            c <= 100_000,
            q > 0,
    ;
}

/// The largest power of ten that is told apart from larger ones.
const POWER_LIMIT: u128 = 0x100_0000_0000_0000_0000;

/// Beyond the limit one power of ten is as good as another.
proof fn lemma_power_limit(s: Seq<char>, e: int, c: int, f: nat)
    requires
        all_digits(s),
        f <= s.len() <= usize::MAX,
        c == (if e > POWER_LIMIT {
            POWER_LIMIT as int
        } else if e < -POWER_LIMIT {
            -POWER_LIMIT
        } else {
            e
        }),
    ensures
        e == c || {
            let x = decimal_times(digits_value(s), e - f);
            let y = decimal_times(digits_value(s), c - f);
            x == y || (x > 0xffff_ffff && y > 0xffff_ffff)
        },
{
    let d = digits_value(s);
    lemma_digits_value_bound(s);
    if e < -POWER_LIMIT {
        lemma_tiny(d, s.len(), e - f);
        lemma_tiny(d, s.len(), c - f);
    } else if e > POWER_LIMIT {
        if d > 0 {
            lemma_vast(d, e - f);
            lemma_vast(d, c - f);
        } else {
            lemma_decimal_nought(e - f);
            lemma_decimal_nought(c - f);
        }
    }
}

/// What has more than ten places before the point is huge.
proof fn lemma_vast(d: nat, p: int)
    requires
        d > 0,
        p >= 10,
    ensures
        decimal_times(d, p) > 0xffff_ffff,
{
    let a = pow(10, p as nat);
    lemma_pow_increases(10, 10, p as nat);
    assert(pow(10, 10) == 10_000_000_000) by {
        reveal(pow);
        reveal_with_fuel(pow, 11);
    }
    assert(d * a >= a) by (nonlinear_arith)
        requires
            d >= 1,
            a >= 0,
    ;
    scale::lemma_ratio_large((d * a) as nat, 1);
}

/// Reads a power of ten, held within the limit.
fn parse_power(v: &Vec<char>) -> (r: Option<i128>)
    ensures
        match parse_int(v@) {
            Some(e) => r is Some && r->0 == (if e > POWER_LIMIT {
                POWER_LIMIT as int
            } else if e < -POWER_LIMIT {
                -POWER_LIMIT
            } else {
                e
            }),
            None => r is None,
        },
{
    let signed = v.len() > 0 && (v[0] == '-' || v[0] == '+');
    let from: usize = if signed {
        1
    } else {
        0
    };
    assert(v@.skip(0) == v@);
    assert(signed ==> v@.skip(1) == v@.drop_first());
    if from >= v.len() || !digits_from(v, from) {
        return None;
    }
    let n = value_from(v, from, POWER_LIMIT);
    if v[0] == '-' {
        Some(-(n as i128))
    } else {
        Some(n as i128)
    }
}

/// `decimal_thousandths`, or `0xffff_ffff` where it is above that.
fn decimal_capped(v: &Vec<char>) -> (r: Option<u64>)
    ensures
        match decimal_thousandths(v@) {
            Some(n) => r is Some && r->0 == (if n > 0xffff_ffff {
                0xffff_ffff
            } else {
                n
            }),
            None => r is None,
        },
{
    let low = text::lowered(v);
    let n = v.len();
    assert(low@.len() == n);
    let (mantissa, power): (Vec<char>, Option<i128>) = match text::find_char(&low, 'e') {
        Some(i) => {
            let head = text::part(v, 0, i);
            let tail = text::part(v, i + 1, n);
            assert(head@ == v@.take(i as int));
            assert(tail@ == v@.skip(i + 1));
            (head, parse_power(&tail))
        },
        None => {
            let head = text::part(v, 0, v.len());
            assert(head@ == v@);
            (head, Some(0))
        },
    };
    let m = mantissa.len();
    let (mut digits, fraction): (Vec<char>, Vec<char>) = match text::find_char(&mantissa, '.') {
        Some(i) => {
            let head = text::part(&mantissa, 0, i);
            let tail = text::part(&mantissa, i + 1, m);
            assert(head@ == mantissa@.take(i as int));
            assert(tail@ == mantissa@.skip(i + 1));
            (head, tail)
        },
        None => {
            let head = text::part(&mantissa, 0, mantissa.len());
            assert(head@ == mantissa@);
            (head, Vec::new())
        },
    };
    let ghost whole = digits@;
    let count = fraction.len();
    let mut rest = fraction;
    digits.append(&mut rest);
    assert(digits@.skip(0) == digits@);
    match power {
        Some(e) => {
            if digits.len() == 0 || !digits_from(&digits, 0) {
                None
            } else {
                proof {
                    let e0 = match text::first_at(text::lower(v@), 'e') {
                        Some(i) => parse_int(v@.skip(i + 1))->0,
                        None => 0int,
                    };
                    lemma_power_limit(digits@, e0, e as int, count as nat);
                }
                Some(decimal_times_capped(&digits, e - count as i128))
            }
        },
        None => None,
    }
}

/// Reads a decimal fraction and rounds it to thousandths.
pub fn thousandths(v: &Vec<char>) -> (r: Option<i32>)
    ensures
        r == thousandths_spec(v@),
{
    let signed = v.len() > 0 && (v[0] == '-' || v[0] == '+');
    let negative = v.len() > 0 && v[0] == '-';
    let from: usize = if signed {
        1
    } else {
        0
    };
    let body = text::part(v, from, v.len());
    assert(!signed ==> body@ == v@);
    assert(signed ==> body@ == v@.drop_first());
    let word = text::from_chars(&text::lowered(&body));
    if text::same_text(word.as_str(), "inf") || text::same_text(word.as_str(), "infinity") {
        return Some(
            if negative {
                i32::MIN
            } else {
                i32::MAX
            },
        );
    }
    if text::same_text(word.as_str(), "nan") {
        return Some(0);
    }
    match decimal_capped(&body) {
        Some(n) => {
            if negative {
                if n > 0x8000_0000 {
                    Some(i32::MIN)
                } else {
                    Some((-(n as i64)) as i32)
                }
            } else if n > 0x7fff_ffff {
                Some(i32::MAX)
            } else {
                Some(n as i32)
            }
        },
        None => None,
    }
}

/// A number of thousandths in decimal, with three digits behind the point.
pub open spec fn show_thousandths(n: int) -> Seq<char> {
    let size = if n < 0 {
        (-n) as nat
    } else {
        n as nat
    };
    let sign = if n < 0 {
        seq!['-']
    } else {
        Seq::<char>::empty()
    };
    sign + show_nat(size / 1000) + seq!['.'] + show_three(size % 1000)
}

/// Appends a number of thousandths in decimal.
pub fn push_thousandths(v: &mut Vec<char>, n: i32)
    ensures
        final(v)@ == old(v)@ + show_thousandths(n as int),
{
    let size: u64 = if n < 0 {
        v.push('-');
        (-(n as i64)) as u64
    } else {
        n as u64
    };
    push_nat(v, size / 1000);
    v.push('.');
    push_three(v, size % 1000);
    assert(v@ == old(v)@ + show_thousandths(n as int));
}


proof fn lemma_show_three(n: nat)
    requires
        n < 1000,
    ensures
        all_digits(show_three(n)),
        digits_value(show_three(n)) == n,
{
    let s = show_three(n);
    assert(s.drop_last().drop_last().drop_last().len() == 0);
    assert(s.drop_last().last() == s[1]);
    assert(s.drop_last().drop_last().last() == s[0]);
    reveal_with_fuel(digits_value, 4);
    assert(digits_value(s) == 100 * digit_value(s[0]) + 10 * digit_value(s[1]) + digit_value(s[2]));
}

/// A number of thousandths that an `i32` holds reads back from its own text.
pub proof fn law_thousandths_text_round_trips(n: i32)
    ensures
        thousandths_spec(show_thousandths(n as int)) == Some(n),
{
    let size = if n < 0 {
        (-n) as nat
    } else {
        n as nat
    };
    let whole = show_nat(size / 1000);
    let three = show_three(size % 1000);
    let body = whole + seq!['.'] + three;
    let s = show_thousandths(n as int);
    lemma_show_nat(size / 1000);
    lemma_show_three(size % 1000);
    assert(is_digit(whole[0]));
    assert(body[0] == whole[0]);
    if n < 0 {
        assert(s[0] == '-');
        assert(s.drop_first() == body);
    } else {
        assert(s == body);
    }
    assert forall|i: int| 0 <= i < body.len() implies is_digit(#[trigger] body[i]) || body[i]
        == '.' by {
        if i < whole.len() {
            assert(is_digit(whole[i]));
        } else if i > whole.len() {
            assert(is_digit(three[i - whole.len() - 1]));
        }
    }
    assert(text::lower(body) =~= body);
    reveal_strlit("inf");
    reveal_strlit("infinity");
    reveal_strlit("nan");
    assert("inf"@[0] == 'i');
    assert("infinity"@[0] == 'i');
    assert("nan"@[0] == 'n');
    text::lemma_first_at(body, 'e');
    assert forall|j: int| 0 <= j < whole.len() implies body[j] != '.' by {
        assert(is_digit(whole[j]));
    }
    text::lemma_first_at_is(body, '.', whole.len() as int);
    assert(body.take(whole.len() as int) == whole);
    assert(body.skip(whole.len() + 1int) == three);
    let digits = whole + three;
    assert forall|i: int| 0 <= i < digits.len() implies is_digit(#[trigger] digits[i]) by {
        if i < whole.len() {
            assert(is_digit(whole[i]));
        } else {
            assert(is_digit(three[i - whole.len()]));
        }
    }
    lemma_digits_value_split(digits, whole.len() as int);
    assert(digits.take(whole.len() as int) == whole);
    assert(digits.skip(whole.len() as int) == three);
    assert(pow(10, 3) == 1000) by {
        reveal(pow);
        reveal_with_fuel(pow, 4);
    }
    assert(digits.len() - whole.len() == 3);
    assert(digits_value(digits) == (size / 1000) * 1000 + size % 1000);
    scale::lemma_ratio_thousandths(size);
}

/// A rate in plain digits, with up to three behind the point or none, is read exactly: it
/// counts a thousand for each one before the point, and a hundred, ten and one for each
/// in the places behind it. A minus sign in front makes it negative.
pub proof fn law_a_plain_rate_is_read_exactly(whole: Seq<char>, fraction: Seq<char>, c: nat)
    requires
        all_digits(whole),
        all_digits(fraction),
        whole.len() > 0,
        fraction.len() == 0 && c == 1000 || fraction.len() == 1 && c == 100 || fraction.len() == 2
            && c == 10 || fraction.len() == 3 && c == 1,
        digits_value(whole) * 1000 + digits_value(fraction) * c <= i32::MAX,
    ensures
        thousandths_spec(whole + seq!['.'] + fraction) == Some(
            (digits_value(whole) * 1000 + digits_value(fraction) * c) as i32,
        ),
        fraction.len() == 0 ==> thousandths_spec(whole) == Some(
            (digits_value(whole) * 1000) as i32,
        ),
        thousandths_spec(seq!['-'] + whole + seq!['.'] + fraction) == Some(
            (-(digits_value(whole) * 1000 + digits_value(fraction) * c)) as i32,
        ),
{
    let body = whole + seq!['.'] + fraction;
    let digits = whole + fraction;
    let f = fraction.len();
    lemma_plain(body);
    assert forall|i: int| 0 <= i < digits.len() implies is_digit(#[trigger] digits[i]) by {
        if i < whole.len() {
            assert(is_digit(whole[i]));
        } else {
            assert(is_digit(fraction[i - whole.len()]));
        }
    }
    lemma_digits_value_split(digits, whole.len() as int);
    assert(digits.take(whole.len() as int) == whole);
    assert(digits.skip(whole.len() as int) == fraction);
    let d = pow(10, f);
    assert(pow(10, 0) == 1 && pow(10, 1) == 10 && pow(10, 2) == 100 && pow(10, 3) == 1000) by {
        reveal(pow);
        reveal_with_fuel(pow, 4);
    }
    let (a, b) = (digits_value(whole), digits_value(fraction));
    let n = digits_value(digits);
    assert(n == a * d + b);
    assert(d * c == 1000);
    assert(n * c == a * 1000 + b * c) by (nonlinear_arith)
        requires
            n == a * d + b,
            d * c == 1000,
    ;
    assert(n <= n * c) by (nonlinear_arith)
        requires
            c >= 1,
            n >= 0,
    ;
    scale::lemma_ratio_exact(n, d as nat, c);
    assert(body[0] == whole[0] && is_digit(whole[0]));
    assert forall|i: int| 0 <= i < body.len() implies is_digit(#[trigger] body[i]) || body[i]
        == '.' by {
        if i < whole.len() {
            assert(is_digit(whole[i]));
        } else if i > whole.len() {
            assert(is_digit(fraction[i - whole.len() - 1]));
        }
    }
    lemma_plain(body);
    text::lemma_first_at(text::lower(body), 'e');
    assert forall|j: int| 0 <= j < whole.len() implies body[j] != '.' by {
        assert(is_digit(whole[j]));
    }
    text::lemma_first_at_is(body, '.', whole.len() as int);
    assert(body.take(whole.len() as int) == whole);
    assert(body.skip(whole.len() + 1int) == fraction);
    assert(decimal_thousandths(body) == Some(n * c)) by {
        if f == 0 {
            assert(n * 1 == n);
            assert(decimal_times(n, 0) == scale::ratio_times((n * pow(10, 0)) as nat, 1, 1000));
        }
    }
    let minus = seq!['-'] + whole + seq!['.'] + fraction;
    assert(minus.drop_first() =~= body);
    assert(minus.len() > 0 && minus[0] == '-');
    assert(text::lower(minus.drop_first()) == body);
    let v = n * c;
    assert(-1 * v == -v);
    assert(thousandths_spec(minus) == Some(clamp_i32(-v)));
    if f == 0 {
        assert forall|i: int| 0 <= i < whole.len() implies is_digit(#[trigger] whole[i])
            || whole[i] == '.' by {}
        lemma_plain(whole);
        text::lemma_first_at(text::lower(whole), 'e');
        text::lemma_first_at(whole, '.');
        assert(whole + Seq::<char>::empty() =~= whole);
        assert(digits =~= whole);
        assert(decimal_thousandths(whole) == Some(n * c)) by {
            assert(decimal_times(n, 0) == scale::ratio_times((n * pow(10, 0)) as nat, 1, 1000));
            assert(n * 1 == n);
        }
    }
}

/// Digits and points are no words, and small already.
proof fn lemma_plain(s: Seq<char>)
    requires
        s.len() > 0,
    ensures
        (forall|i: int| 0 <= i < s.len() ==> is_digit(#[trigger] s[i]) || s[i] == '.') ==> {
            &&& text::lower(s) == s
            &&& s != "inf"@
            &&& s != "infinity"@
            &&& s != "nan"@
            &&& s[0] != '-'
            &&& s[0] != '+'
        },
{
    reveal_strlit("inf");
    reveal_strlit("infinity");
    reveal_strlit("nan");
    assert("inf"@[0] == 'i');
    assert("infinity"@[0] == 'i');
    assert("nan"@[0] == 'n');
    if forall|i: int| 0 <= i < s.len() ==> is_digit(#[trigger] s[i]) || s[i] == '.' {
        assert(text::lower(s) =~= s);
        assert(is_digit(s[0]) || s[0] == '.');
    }
}

/// A number in digits counts its last digit and ten times what the others count, and is
/// read with or without a sign in front; nothing else but digits is read.
pub proof fn law_whole_numbers_are_read_in_decimal(s: Seq<char>, c: char)
    ensures
        parse_int(seq!['0']) == Some(0int),
        is_digit(c) && s.len() > 0 && all_digits(s) ==> parse_int(s.push(c)) == Some(
            10 * parse_int(s)->0 + (c as u32 - '0' as u32),
        ),
        s.len() > 0 && all_digits(s) ==> parse_int(s) is Some && parse_int(seq!['+'] + s)
            == parse_int(s) && parse_int(seq!['-'] + s) == Some(-parse_int(s)->0),
        is_digit(c) ==> parse_int(seq![c]) == Some(c as u32 - '0' as u32),
        parse_int(s) is Some ==> s.len() > 0 && forall|i: int|
            0 < i < s.len() ==> is_digit(#[trigger] s[i]),
        parse_i32_spec(s) matches Some(n) ==> parse_int(s) == Some(n as int),
        parse_int(s) matches Some(n) ==> (parse_i32_spec(s) is Some <==> i32::MIN <= n
            <= i32::MAX),
{
    reveal_with_fuel(digits_value, 3);
    assert(seq!['0'].drop_last() =~= Seq::<char>::empty());
    assert(seq![c].drop_last() =~= Seq::<char>::empty());
    assert((seq!['+'] + s).drop_first() =~= s);
    assert((seq!['-'] + s).drop_first() =~= s);
    assert(s.push(c).drop_last() =~= s);
    if s.len() > 0 && all_digits(s) {
        assert(is_digit(s[0]));
        if is_digit(c) {
            let t = s.push(c);
            assert(t[0] == s[0]);
            assert forall|i: int| 0 <= i < t.len() implies is_digit(#[trigger] t[i]) by {
                if i < s.len() {
                    assert(is_digit(s[i]));
                }
            }
        }
    }
    if parse_int(s) is Some {
        let signed = s[0] == '-' || s[0] == '+';
        assert forall|i: int| 0 < i < s.len() implies is_digit(#[trigger] s[i]) by {
            if signed {
                assert(is_digit(s.drop_first()[i - 1]));
            }
        }
    }
}

}
