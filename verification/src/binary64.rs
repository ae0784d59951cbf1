use crate::number::{
    are_digits, decimal_of_text, has_minus, law_order_opposite, law_order_transitive, le_value,
    lemma_le_push, lemma_order_at, pow10, unsigned_part, within, Decimal, Number, Order,
};
use crate::text::{is_word, same_but_case};
use vstd::slice::slice_subrange;
use vstd::arithmetic::power::{
    lemma_pow0, lemma_pow_adds, lemma_pow_distributes, lemma_pow_increases, lemma_pow_positive,
    pow,
};
use vstd::prelude::*;

verus! {

/// Two to the power `n`.
pub open spec fn pow2(n: nat) -> int {
    pow(2, n)
}

/// Five to the power `n`.
pub open spec fn pow5(n: nat) -> int {
    pow(5, n)
}

/// The digits, least significant first, of `k` times the number that the
/// digits `le` spell.
fn times(le: &Vec<u8>, k: u64) -> (r: Vec<u8>)
    requires
        are_digits(le@),
        k <= 0x100_0000_0000_0000,
    ensures
        are_digits(r@),
        le_value(r@) == le_value(le@) * k,
{
    let mut out: Vec<u8> = Vec::new();
    let mut carry: u64 = 0;
    let mut i: usize = 0;
    proof {
        lemma_pow0(10);
        assert(le@.subrange(0, 0) =~= Seq::<u8>::empty());
        assert(le_value(Seq::<u8>::empty()) == 0);
        assert(0 * k == 0) by (nonlinear_arith);
    }
    while i < le.len()
        invariant
            i <= le@.len(),
            are_digits(le@),
            are_digits(out@),
            out@.len() == i,
            carry <= k,
            k <= 0x100_0000_0000_0000,
            le_value(out@) + carry * pow10(i as nat) == le_value(le@.subrange(0, i as int)) * k,
        decreases le@.len() - i,
    {
        let d: u64 = le[i] as u64;
        assert(d * k <= 9 * k) by (nonlinear_arith)
            requires
                d <= 9,
        ;
        let t: u64 = d * k + carry;
        proof {
            let ov = le_value(out@) as int;
            let lv = le_value(le@.subrange(0, i as int)) as int;
            let p = pow10(i as nat);
            lemma_le_push(out@, (t % 10) as u8);
            lemma_le_push(le@.subrange(0, i as int), le@[i as int]);
            assert(le@.subrange(0, i + 1) =~= le@.subrange(0, i as int).push(le@[i as int]));
            assert(pow10((i + 1) as nat) == 10 * p) by {
                reveal(pow);
            }
            let q = (t / 10) as int;
            let r = (t % 10) as int;
            assert(ov + r * p + q * (10 * p) == (lv + d * p) * k) by (nonlinear_arith)
                requires
                    ov + carry * p == lv * k,
                    t == d * k + carry,
                    t == 10 * q + r,
            ;
        }
        out.push((t % 10) as u8);
        carry = t / 10;
        i += 1;
    }
    assert(le@.subrange(0, i as int) =~= le@);
    while carry > 0
        invariant
            are_digits(out@),
            le_value(out@) + carry * pow10(out@.len()) == le_value(le@) * k,
        decreases carry,
    {
        proof {
            let ov = le_value(out@) as int;
            let p = pow10(out@.len());
            lemma_le_push(out@, (carry % 10) as u8);
            assert(pow10((out@.len() + 1) as nat) == 10 * p) by {
                reveal(pow);
            }
            let q = (carry / 10) as int;
            let r = (carry % 10) as int;
            assert(ov + r * p + q * (10 * p) == ov + carry * p) by (nonlinear_arith)
                requires
                    carry == 10 * q + r,
            ;
        }
        out.push((carry % 10) as u8);
        carry = carry / 10;
    }
    assert(0 * pow10(out@.len()) == 0) by (nonlinear_arith);
    out
}

/// The digits, least significant first, of `base` to the power `n`.  The
/// power is built up `step` factors at a time, `chunk` being `base` to the
/// power `step`.
fn power_digits(base: u64, n: u32, step: u32, chunk: u64) -> (r: Vec<u8>)
    requires
        base <= 10,
        step >= 1,
        chunk <= 0x100_0000_0000_0000,
        chunk == pow(base as int, step as nat),
    ensures
        are_digits(r@),
        le_value(r@) == pow(base as int, n as nat),
{
    let mut digits: Vec<u8> = Vec::new();
    digits.push(1);
    proof {
        lemma_le_push(Seq::<u8>::empty(), 1);
        assert(digits@ =~= Seq::<u8>::empty().push(1));
        assert(le_value(Seq::<u8>::empty()) == 0);
        lemma_pow0(10);
        lemma_pow0(base as int);
    }
    let mut i: u32 = 0;
    while i < n
        invariant
            i <= n,
            base <= 10,
            step >= 1,
            chunk <= 0x100_0000_0000_0000,
            chunk == pow(base as int, step as nat),
            are_digits(digits@),
            le_value(digits@) == pow(base as int, i as nat),
        decreases n - i,
    {
        if n - i >= step {
            proof {
                lemma_pow_adds(base as int, i as nat, step as nat);
            }
            digits = times(&digits, chunk);
            i += step;
        } else {
            proof {
                assert(pow(base as int, (i + 1) as nat) == base * pow(base as int, i as nat)) by {
                    reveal(pow);
                }
                let p = pow(base as int, i as nat);
                assert(p * base == base * p) by (nonlinear_arith);
            }
            digits = times(&digits, base);
            i += 1;
        }
    }
    digits
}

/// Two to the power 50.
const TWO_TO_50: u64 = 0x4_0000_0000_0000;

/// Five to the power 20.
const FIVE_TO_20: u64 = 95_367_431_640_625;

/// The two constants are the powers that their names say.
proof fn lemma_chunks()
    ensures
        pow(2, 50) == TWO_TO_50,
        pow(5, 20) == FIVE_TO_20,
{
    let a = pow(2, 10);
    let b = pow(2, 20);
    let c = pow(2, 40);
    let d = pow(2, 50);
    assert(a == 1024) by {
        reveal_with_fuel(pow, 11);
    }
    lemma_pow_adds(2, 10, 10);
    lemma_pow_adds(2, 20, 20);
    lemma_pow_adds(2, 40, 10);
    assert(b == 1048576) by (nonlinear_arith)
        requires
            b == a * a,
            a == 1024,
    ;
    assert(c == 1099511627776) by (nonlinear_arith)
        requires
            c == b * b,
            b == 1048576,
    ;
    assert(d == 1125899906842624) by (nonlinear_arith)
        requires
            d == c * a,
            c == 1099511627776,
            a == 1024,
    ;
    let f = pow(5, 5);
    let g = pow(5, 10);
    let h = pow(5, 20);
    assert(f == 3125) by {
        reveal_with_fuel(pow, 6);
    }
    lemma_pow_adds(5, 5, 5);
    lemma_pow_adds(5, 10, 10);
    assert(g == 9765625) by (nonlinear_arith)
        requires
            g == f * f,
            f == 3125,
    ;
    assert(h == 95367431640625) by (nonlinear_arith)
        requires
            h == g * g,
            g == 9765625,
    ;
}

/// The smallest exponent of a binary64 number: its numbers are the multiples
/// of two to this power.
pub const MIN_EXPONENT: i32 = -1074;

/// The largest exponent of a binary64 number in normal form.
pub const MAX_EXPONENT: i32 = 971;

/// Two to the power 52: the smallest mantissa of a number in normal form.
pub const HIDDEN_BIT: u64 = 0x10_0000_0000_0000;

/// Two to the power 53: the mantissas of binary64 numbers lie below it.
pub const MANTISSA_LIMIT: u64 = 0x20_0000_0000_0000;

/// The number `m` times two to the power `e`, written as a decimal.
pub open spec fn grid(m: int, e: int) -> Decimal {
    if e >= 0 {
        Decimal { mantissa: m * pow2(e as nat), exponent: 0 }
    } else {
        Decimal { mantissa: m * pow5((-e) as nat), exponent: e }
    }
}

/// The number `m` times two to the power `e`, counted in units of two to the
/// power -1075.
pub open spec fn units(m: int, e: int) -> int {
    m * pow2((e + 1075) as nat)
}

/// As a multiple of ten to the power -1075, the number `m` times two to the
/// power `e` is its units times five to the power 1075.
pub proof fn lemma_grid_scaled(m: int, e: int)
    requires
        -1075 <= e,
    ensures
        grid(m, e).scaled(-1075) == units(m, e) * pow5(1075),
{
    let c = pow5(1075);
    let b = pow2(1075);
    lemma_pow_distributes(2, 5, 1075);
    assert(pow10(1075) == b * c);
    if e >= 0 {
        let p = pow2(e as nat);
        lemma_pow_adds(2, e as nat, 1075);
        assert(pow2((e + 1075) as nat) == p * b);
        assert((m * p) * (b * c) == (m * (p * b)) * c) by (nonlinear_arith);
    } else {
        let k = (e + 1075) as nat;
        let p = pow5((-e) as nat);
        lemma_pow_distributes(2, 5, k);
        assert(pow10(k) == pow2(k) * pow5(k));
        lemma_pow_adds(5, (-e) as nat, k);
        assert(c == p * pow5(k));
        assert((m * p) * (pow2(k) * pow5(k)) == (m * pow2(k)) * (p * pow5(k)))
            by (nonlinear_arith);
    }
}

/// Two multiples of powers of two stand to each other as their units do.
pub proof fn lemma_grid_order(m: int, e: int, n: int, f: int)
    requires
        -1075 <= e,
        -1075 <= f,
    ensures
        grid(m, e).order(grid(n, f)) == Order::Less <==> units(m, e) < units(n, f),
        grid(m, e).order(grid(n, f)) == Order::Equal <==> units(m, e) == units(n, f),
        grid(m, e).order(grid(n, f)) == Order::Greater <==> units(m, e) > units(n, f),
{
    let c = pow5(1075);
    lemma_pow_positive(5, 1075);
    lemma_grid_scaled(m, e);
    lemma_grid_scaled(n, f);
    lemma_order_at(grid(m, e), grid(n, f), -1075);
    let x = units(m, e);
    let y = units(n, f);
    assert(x < y <==> x * c < y * c) by (nonlinear_arith)
        requires
            c > 0,
    ;
    assert(x == y <==> x * c == y * c) by (nonlinear_arith)
        requires
            c > 0,
    ;
}

/// At one exponent, the multiples stand to each other as their mantissas do.
pub proof fn lemma_grid_by_mantissa(m: int, n: int, e: int)
    requires
        -1075 <= e,
    ensures
        m < n <==> grid(m, e).order(grid(n, e)) == Order::Less,
        m == n <==> grid(m, e).order(grid(n, e)) == Order::Equal,
{
    let p = pow2((e + 1075) as nat);
    lemma_pow_positive(2, (e + 1075) as nat);
    lemma_grid_order(m, e, n, e);
    assert(m < n <==> m * p < n * p) by (nonlinear_arith)
        requires
            p > 0,
    ;
    assert(m == n <==> m * p == n * p) by (nonlinear_arith)
        requires
            p > 0,
    ;
}

/// Twice the mantissa at one exponent is the mantissa at the next exponent.
pub proof fn lemma_grid_double(m: int, e: int)
    requires
        -1075 <= e,
    ensures
        grid(2 * m, e).order(grid(m, e + 1)) == Order::Equal,
        units(2 * m, e) == units(m, e + 1),
{
    let p = pow2((e + 1075) as nat);
    assert(pow2((e + 1076) as nat) == 2 * p) by {
        reveal(pow);
    }
    assert((2 * m) * p == m * (2 * p)) by (nonlinear_arith);
    lemma_grid_order(2 * m, e, m, e + 1);
}

/// Whether `m` times two to the power `e` is a binary64 magnitude in normal
/// form: the mantissa is below two to the 53, and it is at least two to the
/// 52 unless the exponent is the smallest.
pub open spec fn is_point(m: int, e: int) -> bool {
    &&& MIN_EXPONENT <= e <= MAX_EXPONENT
    &&& 0 <= m < MANTISSA_LIMIT
    &&& (m >= HIDDEN_BIT || e == MIN_EXPONENT)
}

/// Whether `v` lies between the binary64 magnitude `m` times two to the power
/// `e` and the next multiple of that power: at the first or above it, and
/// below the second.
pub open spec fn brackets(v: Decimal, m: int, e: int) -> bool {
    &&& is_point(m, e)
    &&& grid(m, e).order(v) != Order::Greater
    &&& v.order(grid(m + 1, e)) == Order::Less
}

/// Only one binary64 magnitude brackets a number.
pub proof fn lemma_brackets_unique(v: Decimal, m: int, e: int, n: int, f: int)
    requires
        brackets(v, m, e),
        brackets(v, n, f),
    ensures
        m == n,
        e == f,
{
    law_order_transitive(grid(m, e), v, grid(n + 1, f));
    law_order_transitive(grid(n, f), v, grid(m + 1, e));
    lemma_grid_order(m, e, n + 1, f);
    lemma_grid_order(n, f, m + 1, e);
    // units(m, e) < units(n + 1, f) and units(n, f) < units(m + 1, e)
    if e < f {
        lemma_units_step(m, e, n, f);
    } else if f < e {
        lemma_units_step(n, f, m, e);
    } else {
        lemma_grid_by_mantissa(m, n + 1, e);
        lemma_grid_by_mantissa(n, m + 1, e);
    }
}

/// A magnitude in normal form at a higher exponent is not below the end of
/// any bracket at a lower exponent.
proof fn lemma_units_step(m: int, e: int, n: int, f: int)
    requires
        is_point(m, e),
        is_point(n, f),
        e < f,
    ensures
        units(m + 1, e) <= units(n, f),
{
    let a = (e + 1075) as nat;
    let b = (f + 1075) as nat;
    let pa = pow2(a);
    let pb = pow2(b);
    lemma_pow_positive(2, a);
    lemma_pow_increases(2, a + 1, b);
    assert(pow2(a + 1) == 2 * pa) by {
        reveal(pow);
    }
    assert(n >= HIDDEN_BIT);
    assert((m + 1) * pa <= n * pb) by (nonlinear_arith)
        requires
            m + 1 <= 0x20_0000_0000_0000,
            n >= 0x10_0000_0000_0000,
            pb >= 2 * pa,
            pa > 0,
    ;
}

/// The digits of the power that `grid` multiplies by at the exponent `e`.
fn grid_power(e: i32) -> (r: Vec<u8>)
    requires
        -1075 <= e <= MAX_EXPONENT,
    ensures
        are_digits(r@),
        le_value(r@) == if e >= 0 {
            pow2(e as nat)
        } else {
            pow5((-e) as nat)
        },
{
    proof {
        lemma_chunks();
    }
    if e >= 0 {
        power_digits(2, e as u32, 50, TWO_TO_50)
    } else {
        power_digits(5, (-e) as u32, 20, FIVE_TO_20)
    }
}

/// The number `m` times two to the power `e`, given the digits of the power
/// that belongs to `e`.
fn grid_with(power: &Vec<u8>, m: u64, e: i32) -> (r: Number)
    requires
        -1075 <= e <= MAX_EXPONENT,
        m <= 0x40_0000_0000_0000,
        are_digits(power@),
        le_value(power@) == if e >= 0 {
            pow2(e as nat)
        } else {
            pow5((-e) as nat)
        },
    ensures
        r@ == grid(m as int, e as int),
{
    let product = times(power, m);
    proof {
        let p = le_value(power@) as int;
        assert(p * m == m * p) by (nonlinear_arith);
    }
    Number::from_le_digits(
        &product,
        if e >= 0 {
            0
        } else {
            e
        },
    )
}

/// The number `m` times two to the power `e`.
fn grid_at(m: u64, e: i32) -> (r: Number)
    requires
        -1075 <= e <= MAX_EXPONENT,
        m <= 0x40_0000_0000_0000,
    ensures
        r@ == grid(m as int, e as int),
{
    let power = grid_power(e);
    grid_with(&power, m, e)
}


/// The binary64 magnitude that brackets `v`.
pub open spec fn bracket_of(v: Decimal) -> (int, int) {
    choose|m: int, e: int| brackets(v, m, e)
}

/// The magnitude that brackets `v` is the one that `bracket_of` names.
pub proof fn lemma_bracket_of(v: Decimal, m: int, e: int)
    requires
        brackets(v, m, e),
    ensures
        bracket_of(v) == (m, e),
{
    let (n, f) = bracket_of(v);
    assert(brackets(v, n, f));
    lemma_brackets_unique(v, m, e, n, f);
}

/// The binary64 magnitude that is nearest to the number `v`, which is not
/// below zero; of two that are equally near, the one with the even mantissa.
/// There is none where `v` is two to the power 1024 or more, or nearer to it
/// than to the largest binary64 magnitude: such a number is beyond all of
/// them.
pub open spec fn rounded_magnitude(v: Decimal) -> Option<Decimal> {
    if v.order(grid(MANTISSA_LIMIT as int, MAX_EXPONENT as int)) != Order::Less {
        None
    } else {
        let (m, e) = bracket_of(v);
        let up = match v.order(grid(2 * m + 1, e - 1)) {
            Order::Less => false,
            Order::Equal => m % 2 == 1,
            Order::Greater => true,
        };
        if !up {
            Some(grid(m, e))
        } else if m + 1 == MANTISSA_LIMIT && e == MAX_EXPONENT {
            None
        } else {
            Some(grid(m + 1, e))
        }
    }
}

/// A binary64 magnitude is its own nearest binary64 magnitude.
pub proof fn law_rounding_keeps_binary64(m: int, e: int)
    requires
        is_point(m, e),
    ensures
        rounded_magnitude(grid(m, e)) == Some(grid(m, e)),
{
    let v = grid(m, e);
    lemma_grid_by_mantissa(m, m, e);
    lemma_grid_by_mantissa(m, m + 1, e);
    lemma_bracket_of(v, m, e);
    let low = pow2((e + 1074) as nat);
    let high = pow2((e + 1075) as nat);
    let top = pow2((MAX_EXPONENT + 1075) as nat);
    lemma_pow_positive(2, (e + 1074) as nat);
    assert(high == 2 * low) by {
        reveal(pow);
    }
    lemma_grid_order(m, e, 2 * m + 1, e - 1);
    assert(m * high < (2 * m + 1) * low) by (nonlinear_arith)
        requires
            high == 2 * low,
            low > 0,
    ;
    lemma_pow_increases(2, (e + 1075) as nat, (MAX_EXPONENT + 1075) as nat);
    lemma_grid_order(m, e, MANTISSA_LIMIT as int, MAX_EXPONENT as int);
    assert(m * high < MANTISSA_LIMIT * top) by (nonlinear_arith)
        requires
            0 <= m < MANTISSA_LIMIT,
            0 < high <= top,
    ;
}

/// Zero is not above a number that is not below zero.
proof fn lemma_zero_least(v: Decimal, e: int)
    requires
        v.mantissa >= 0,
    ensures
        grid(0, e).order(v) != Order::Greater,
{
    let zero = grid(0, e);
    let base = zero.common_base(v);
    let p = pow10((zero.exponent - base) as nat);
    let q = pow10((v.exponent - base) as nat);
    lemma_pow_positive(10, (v.exponent - base) as nat);
    assert(zero.mantissa == 0) by (nonlinear_arith)
        requires
            zero.mantissa == 0 * pow2(e as nat) || zero.mantissa == 0 * pow5((-e) as nat),
    ;
    assert(zero.mantissa * p == 0) by (nonlinear_arith)
        requires
            zero.mantissa == 0,
    ;
    assert(v.mantissa * q >= 0) by (nonlinear_arith)
        requires
            v.mantissa >= 0,
            q > 0,
    ;
}

/// The exponent from which the search for the bracket of a number starts,
/// given where the decimal point of the number stands: a number with `places`
/// digits before its decimal point is at least ten to the power `places - 1`,
/// which is about two to the power 3.322 times `places - 1`, and the mantissa
/// of a binary64 number in normal form takes 52 of these powers of two.  The
/// guess is kept within the exponents of the binary64 numbers.
pub open spec fn guessed_exponent(places: int) -> int {
    within(
        if places >= 1 {
            ((places - 1) * 3322) / 1000 - 52
        } else {
            -(((1 - places) * 3322) / 1000) - 53
        },
        MIN_EXPONENT as int,
        MAX_EXPONENT as int,
    )
}

/// A first guess at the exponent of the binary64 magnitude that brackets a
/// number with `places` digits before its decimal point.
fn guess_exponent(places: i32) -> (e: i32)
    requires
        -1000 <= places <= 1000,
    ensures
        e == guessed_exponent(places as int),
        MIN_EXPONENT <= e <= MAX_EXPONENT,
{
    let guess: i32 = if places >= 1 {
        ((places - 1) * 3322) / 1000 - 52
    } else {
        -(((1 - places) * 3322) / 1000) - 53
    };
    if guess < MIN_EXPONENT {
        MIN_EXPONENT
    } else if guess > MAX_EXPONENT {
        MAX_EXPONENT
    } else {
        guess
    }
}

/// Rounds the number `v`, which is not below zero, to the nearest binary64
/// magnitude.  The exponent and the mantissa of the magnitude that brackets
/// `v` are found by comparing `v` with multiples of powers of two, which are
/// written out as decimals; the middle of the bracket then decides between its
/// two ends.
#[verifier::loop_isolation(false)]
fn round_magnitude(v: &Number) -> (r: Option<Number>)
    requires
        v@.mantissa >= 0,
    ensures
        match r {
            Some(n) => rounded_magnitude(v@) == Some(n@),
            None => rounded_magnitude(v@) is None,
        },
{
    let ghost limit = grid(MANTISSA_LIMIT as int, MAX_EXPONENT as int);
    // The exponent: down from the guess while `v` is below the numbers in
    // normal form at `e`, then up while it is above them.
    let mut e: i32 = guess_exponent(v.places());
    let mut bottom = grid_at(HIDDEN_BIT, e);
    while e > MIN_EXPONENT && bottom.compare(v) == Order::Greater
        invariant
            MIN_EXPONENT <= e <= MAX_EXPONENT,
            bottom@ == grid(HIDDEN_BIT as int, e as int),
        decreases e - MIN_EXPONENT,
    {
        e -= 1;
        bottom = grid_at(HIDDEN_BIT, e);
    }
    let mut top = grid_at(MANTISSA_LIMIT, e);
    while e < MAX_EXPONENT && top.compare(v) != Order::Greater
        invariant
            MIN_EXPONENT <= e <= MAX_EXPONENT,
            top@ == grid(MANTISSA_LIMIT as int, e as int),
            e == MIN_EXPONENT || grid(HIDDEN_BIT as int, e as int).order(v@) != Order::Greater,
        decreases MAX_EXPONENT - e,
    {
        proof {
            let next = grid(HIDDEN_BIT as int, e + 1);
            lemma_grid_double(HIDDEN_BIT as int, e as int);
            law_order_opposite(top@, next);
            law_order_transitive(next, top@, v@);
        }
        e += 1;
        top = grid_at(MANTISSA_LIMIT, e);
    }
    proof {
        law_order_opposite(top@, v@);
    }
    if top.compare(v) != Order::Greater {
        return None;
    }
    proof {
        // The number is below the end of the last bracket.
        lemma_grid_order(MANTISSA_LIMIT as int, e as int, MANTISSA_LIMIT as int, MAX_EXPONENT as int);
        lemma_pow_increases(2, (e + 1075) as nat, (MAX_EXPONENT + 1075) as nat);
        let pa = pow2((e + 1075) as nat);
        let pb = pow2((MAX_EXPONENT + 1075) as nat);
        assert(MANTISSA_LIMIT * pa <= MANTISSA_LIMIT * pb) by (nonlinear_arith)
            requires
                pa <= pb,
        ;
        law_order_transitive(v@, top@, limit);
    }
    // The mantissa: by bisection, among the mantissas in normal form, or
    // among those below them where `v` is below the numbers in normal form.
    let power = grid_power(e);
    let bottom = grid_with(&power, HIDDEN_BIT, e);
    let mut lo: u64 = 0;
    let mut hi: u64 = HIDDEN_BIT;
    if bottom.compare(v) != Order::Greater {
        lo = HIDDEN_BIT;
        hi = MANTISSA_LIMIT;
    } else {
        proof {
            lemma_zero_least(v@, e as int);
            law_order_opposite(bottom@, v@);
        }
    }
    while hi - lo > 1
        invariant
            lo < hi <= MANTISSA_LIMIT,
            lo >= HIDDEN_BIT || e == MIN_EXPONENT,
            grid(lo as int, e as int).order(v@) != Order::Greater,
            v@.order(grid(hi as int, e as int)) == Order::Less,
        decreases hi - lo,
    {
        let mid: u64 = lo + (hi - lo) / 2;
        let c = grid_with(&power, mid, e);
        proof {
            law_order_opposite(c@, v@);
        }
        if c.compare(v) != Order::Greater {
            lo = mid;
        } else {
            hi = mid;
        }
    }
    proof {
        assert(brackets(v@, lo as int, e as int));
        lemma_bracket_of(v@, lo as int, e as int);
    }
    // The end of the bracket that is nearer to `v`.
    let half = grid_at(2 * lo + 1, e - 1);
    let up = match v.compare(&half) {
        Order::Less => false,
        Order::Equal => lo % 2 == 1,
        Order::Greater => true,
    };
    if !up {
        Some(grid_with(&power, lo, e))
    } else if lo + 1 == MANTISSA_LIMIT && e == MAX_EXPONENT {
        None
    } else {
        Some(grid_with(&power, lo + 1, e))
    }
}

/// A binary64 value: a number, an infinity with its sign, or the value that
/// is no number.  A number is written as a decimal.
pub enum Binary64Value {
    Finite(Decimal),
    Infinite { negative: bool },
    NotANumber,
}

impl Binary64Value {
    /// How the value stands to `other`.  The value that is no number stands in
    /// no order to any value, itself included; an infinity is equal to itself,
    /// and beyond every number on its side.
    pub open spec fn order(self, other: Binary64Value) -> Option<Order> {
        match (self, other) {
            (Binary64Value::NotANumber, _) => None,
            (_, Binary64Value::NotANumber) => None,
            (Binary64Value::Finite(a), Binary64Value::Finite(b)) => Some(a.order(b)),
            (Binary64Value::Infinite { negative }, Binary64Value::Finite(_)) => Some(
                if negative {
                    Order::Less
                } else {
                    Order::Greater
                },
            ),
            (Binary64Value::Finite(_), Binary64Value::Infinite { negative }) => Some(
                if negative {
                    Order::Greater
                } else {
                    Order::Less
                },
            ),
            (
                Binary64Value::Infinite { negative: first },
                Binary64Value::Infinite { negative: second },
            ) => Some(
                if first == second {
                    Order::Equal
                } else if first {
                    Order::Less
                } else {
                    Order::Greater
                },
            ),
        }
    }
}

/// The number `v` without its sign.
pub open spec fn magnitude_of(v: Decimal) -> Decimal {
    Decimal {
        mantissa: if v.mantissa < 0 {
            -v.mantissa
        } else {
            v.mantissa
        },
        exponent: v.exponent,
    }
}

/// The binary64 value of the number `v`: the binary64 number that is nearest
/// to it, and of two that are equally near the one with the even mantissa; an
/// infinity where `v` is beyond the binary64 numbers.
pub open spec fn binary64_of(v: Decimal) -> Binary64Value {
    match rounded_magnitude(magnitude_of(v)) {
        Some(d) => Binary64Value::Finite(
            if v.mantissa < 0 {
                Decimal { mantissa: -d.mantissa, exponent: d.exponent }
            } else {
                d
            },
        ),
        None => Binary64Value::Infinite { negative: v.mantissa < 0 },
    }
}

/// The binary64 value that the text `s` spells, if it spells one: after an
/// optional sign, the words `inf` and `infinity` for an infinity and `nan` for
/// the value that is no number, in letters of either case; or else a decimal,
/// which stands for its binary64 value.
pub open spec fn binary64_of_text(s: Seq<char>) -> Option<Binary64Value> {
    let word = unsigned_part(s);
    if same_but_case(word, "inf"@) || same_but_case(word, "infinity"@) {
        Some(Binary64Value::Infinite { negative: has_minus(s) })
    } else if same_but_case(word, "nan"@) {
        Some(Binary64Value::NotANumber)
    } else {
        match decimal_of_text(s) {
            Some(d) => Some(binary64_of(d)),
            None => None,
        }
    }
}

/// A binary64 value.  A number is held as a decimal.
#[derive(Debug)]
pub enum Binary64 {
    Finite(Number),
    Infinite { negative: bool },
    NotANumber,
}

impl View for Binary64 {
    type V = Binary64Value;

    open spec fn view(&self) -> Binary64Value {
        match self {
            Binary64::Finite(n) => Binary64Value::Finite(n@),
            Binary64::Infinite { negative } => Binary64Value::Infinite { negative: *negative },
            Binary64::NotANumber => Binary64Value::NotANumber,
        }
    }
}

impl Binary64 {
    /// The binary64 value of the number `v`.
    pub fn of_number(v: &Number) -> (r: Binary64)
        ensures
            r@ == binary64_of(v@),
    {
        let negative = v.is_negative();
        let magnitude = v.magnitude();
        match round_magnitude(&magnitude) {
            Some(d) => if negative {
                Binary64::Finite(d.negated())
            } else {
                Binary64::Finite(d)
            },
            None => Binary64::Infinite { negative },
        }
    }

    /// Reads a binary64 value from the characters `s`.
    pub fn parse_chars(s: &[char]) -> (r: Option<Binary64>)
        ensures
            match r {
                Some(x) => binary64_of_text(s@) == Some(x@),
                None => binary64_of_text(s@) is None,
            },
    {
        let signed = s.len() > 0 && (s[0] == '+' || s[0] == '-');
        let negative = s.len() > 0 && s[0] == '-';
        let word = if signed {
            slice_subrange(s, 1, s.len())
        } else {
            s
        };
        if is_word(word, "inf") || is_word(word, "infinity") {
            Some(Binary64::Infinite { negative })
        } else if is_word(word, "nan") {
            Some(Binary64::NotANumber)
        } else {
            match Number::parse_chars(s) {
                Some(d) => Some(Binary64::of_number(&d)),
                None => None,
            }
        }
    }

    /// How the value stands to `other`.
    pub fn compare(&self, other: &Binary64) -> (r: Option<Order>)
        ensures
            r == self@.order(other@),
    {
        match (self, other) {
            (Binary64::NotANumber, _) => None,
            (_, Binary64::NotANumber) => None,
            (Binary64::Finite(a), Binary64::Finite(b)) => Some(a.compare(b)),
            (Binary64::Infinite { negative }, Binary64::Finite(_)) => Some(
                if *negative {
                    Order::Less
                } else {
                    Order::Greater
                },
            ),
            (Binary64::Finite(_), Binary64::Infinite { negative }) => Some(
                if *negative {
                    Order::Greater
                } else {
                    Order::Less
                },
            ),
            (Binary64::Infinite { negative: first }, Binary64::Infinite { negative: second }) => {
                Some(
                    if *first == *second {
                        Order::Equal
                    } else if *first {
                        Order::Less
                    } else {
                        Order::Greater
                    },
                )
            },
        }
    }
}

} // verus!
