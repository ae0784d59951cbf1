use vstd::arithmetic::power::{lemma_pow0, lemma_pow_adds, lemma_pow_increases, lemma_pow_positive, pow};
use vstd::prelude::*;
use vstd::slice::slice_subrange;
use crate::text::{find_char, first_index_of, lemma_first_index_of, str_to_chars};

verus! {

/// Ten to the power `n`.
pub open spec fn pow10(n: nat) -> int {
    pow(10, n)
}

/// How one number stands to another.
#[derive(Clone, Copy, Debug, PartialEq, Eq, Structural)]
pub enum Order {
    Less,
    Equal,
    Greater,
}

/// A decimal number: `mantissa` times ten to the power `exponent`.  Two
/// decimals with different fields may denote the same number; `order` compares
/// what they denote.
pub struct Decimal {
    pub mantissa: int,
    pub exponent: int,
}

impl Decimal {
    /// The number as a multiple of ten to the power `base`, for a `base` that is
    /// not above the exponent.
    pub open spec fn scaled(self, base: int) -> int {
        self.mantissa * pow10((self.exponent - base) as nat)
    }

    /// The smaller of the two exponents.
    pub open spec fn common_base(self, other: Decimal) -> int {
        if self.exponent <= other.exponent {
            self.exponent
        } else {
            other.exponent
        }
    }

    /// How the number that `self` denotes stands to the one that `other`
    /// denotes.
    pub open spec fn order(self, other: Decimal) -> Order {
        let base = self.common_base(other);
        if self.scaled(base) < other.scaled(base) {
            Order::Less
        } else if self.scaled(base) == other.scaled(base) {
            Order::Equal
        } else {
            Order::Greater
        }
    }

    /// Whether the number is zero.
    pub open spec fn is_zero(self) -> bool {
        self.mantissa == 0
    }
}

/// A number as a multiple of a lower power of ten is that many times larger.
pub proof fn lemma_scaled_lower(d: Decimal, base: int, lower: int)
    requires
        lower <= base <= d.exponent,
    ensures
        d.scaled(lower) == d.scaled(base) * pow10((base - lower) as nat),
{
    let x = (d.exponent - base) as nat;
    let y = (base - lower) as nat;
    lemma_pow_adds(10, x, y);
    assert(d.mantissa * (pow10(x) * pow10(y)) == (d.mantissa * pow10(x)) * pow10(y))
        by (nonlinear_arith);
}

/// Two numbers stand to each other as their multiples of any power of ten
/// that is not above their exponents.
pub proof fn lemma_order_at(a: Decimal, b: Decimal, lower: int)
    requires
        lower <= a.exponent,
        lower <= b.exponent,
    ensures
        a.order(b) == Order::Less <==> a.scaled(lower) < b.scaled(lower),
        a.order(b) == Order::Equal <==> a.scaled(lower) == b.scaled(lower),
        a.order(b) == Order::Greater <==> a.scaled(lower) > b.scaled(lower),
{
    let base = a.common_base(b);
    let p = pow10((base - lower) as nat);
    lemma_scaled_lower(a, base, lower);
    lemma_scaled_lower(b, base, lower);
    lemma_pow_positive(10, (base - lower) as nat);
    let x = a.scaled(base);
    let y = b.scaled(base);
    assert(x < y <==> x * p < y * p) by (nonlinear_arith)
        requires
            p > 0,
    ;
    assert(x == y <==> x * p == y * p) by (nonlinear_arith)
        requires
            p > 0,
    ;
}

/// Each number stands to the other as the other does not stand to it.
pub proof fn law_order_opposite(a: Decimal, b: Decimal)
    ensures
        a.order(b) == Order::Less <==> b.order(a) == Order::Greater,
        a.order(b) == Order::Equal <==> b.order(a) == Order::Equal,
        a.order(a) == Order::Equal,
{
}

/// The order of decimals is transitive, and equal decimals stand alike to
/// every other.
pub proof fn law_order_transitive(a: Decimal, b: Decimal, c: Decimal)
    ensures
        a.order(b) != Order::Greater && b.order(c) != Order::Greater ==> a.order(c)
            != Order::Greater,
        a.order(b) == Order::Less && b.order(c) != Order::Greater ==> a.order(c) == Order::Less,
        a.order(b) != Order::Greater && b.order(c) == Order::Less ==> a.order(c) == Order::Less,
        a.order(b) == Order::Equal ==> a.order(c) == b.order(c),
{
    let low = a.common_base(b);
    let lower = if low <= c.exponent {
        low
    } else {
        c.exponent
    };
    lemma_order_at(a, b, lower);
    lemma_order_at(b, c, lower);
    lemma_order_at(a, c, lower);
}

/// A decimal written with more zeros at its end is the same number: it stands
/// to every other as before.
pub proof fn law_order_of_spelling(a: Decimal, zeros: nat, b: Decimal)
    ensures
        (Decimal { mantissa: a.mantissa * pow10(zeros), exponent: a.exponent - zeros }).order(b)
            == a.order(b),
{
    let longer = Decimal { mantissa: a.mantissa * pow10(zeros), exponent: a.exponent - zeros };
    let low = longer.common_base(b);
    lemma_order_at(a, b, low);
    lemma_order_at(longer, b, low);
    lemma_scaled_lower(a, a.exponent - zeros, low);
    lemma_pow0(10);
    assert(a.scaled(a.exponent) == a.mantissa) by (nonlinear_arith)
        requires
            a.scaled(a.exponent) == a.mantissa * pow10(0),
            pow10(0) == 1,
    ;
    lemma_scaled_lower(a, a.exponent, a.exponent - zeros);
    assert(longer.scaled(low) == a.scaled(low));
}

/// The digit of `ds` at index `i`, and zero beyond its end.
pub open spec fn digit_at(ds: Seq<u8>, i: int) -> nat {
    if 0 <= i < ds.len() {
        ds[i] as nat
    } else {
        0
    }
}

/// The number that the first `n` digits of `ds` spell, most significant
/// first, with zeros after the end of `ds`.
pub open spec fn padded_value(ds: Seq<u8>, n: nat) -> nat
    decreases n,
{
    if n == 0 {
        0
    } else {
        10 * padded_value(ds, (n - 1) as nat) + digit_at(ds, n - 1)
    }
}

/// The number that the digits `ds` spell, most significant first.
pub open spec fn digits_value(ds: Seq<u8>) -> nat {
    padded_value(ds, ds.len())
}

/// Whether every element of `ds` is a decimal digit.
pub open spec fn are_digits(ds: Seq<u8>) -> bool {
    forall|i: int| 0 <= i < ds.len() ==> ds[i] < 10
}

/// Digit sequences that agree on their first `n` places spell the same number
/// there.
pub proof fn lemma_padded_agree(a: Seq<u8>, b: Seq<u8>, n: nat)
    requires
        forall|i: int| 0 <= i < n ==> digit_at(a, i) == digit_at(b, i),
    ensures
        padded_value(a, n) == padded_value(b, n),
    decreases n,
{
    if n > 0 {
        lemma_padded_agree(a, b, (n - 1) as nat);
    }
}

/// Of two digit sequences, the one with the smaller digit at the first place
/// where they differ spells the smaller number.
pub proof fn lemma_padded_less(a: Seq<u8>, b: Seq<u8>, k: nat, n: nat)
    requires
        are_digits(a),
        are_digits(b),
        k < n,
        forall|i: int| 0 <= i < k ==> digit_at(a, i) == digit_at(b, i),
        digit_at(a, k as int) < digit_at(b, k as int),
    ensures
        padded_value(a, n) < padded_value(b, n),
    decreases n,
{
    if n == k + 1 {
        lemma_padded_agree(a, b, k);
    } else {
        lemma_padded_less(a, b, k, (n - 1) as nat);
    }
}

/// Appending a digit multiplies by ten and adds the digit.
pub proof fn lemma_digits_push(ds: Seq<u8>, d: u8)
    ensures
        digits_value(ds.push(d)) == 10 * digits_value(ds) + d,
{
    lemma_padded_agree(ds.push(d), ds, ds.len());
}

/// Padding with zeros multiplies by a power of ten.
pub proof fn lemma_padded_beyond(ds: Seq<u8>, n: nat)
    requires
        n >= ds.len(),
    ensures
        padded_value(ds, n) == digits_value(ds) * pow10((n - ds.len()) as nat),
    decreases n,
{
    if n == ds.len() {
        lemma_pow0(10);
    } else {
        lemma_padded_beyond(ds, (n - 1) as nat);
        let v = digits_value(ds) as int;
        let k = (n - 1 - ds.len()) as nat;
        assert(pow10((n - ds.len()) as nat) == 10 * pow10(k)) by {
            reveal(pow);
        }
        assert(10 * (v * pow10(k)) == v * (10 * pow10(k))) by (nonlinear_arith);
    }
}

/// The first `n` digits spell a number below ten to the `n`, and one of at
/// least ten to the `n - 1` when the first digit is not zero.
pub proof fn lemma_padded_bounds(ds: Seq<u8>, n: nat)
    requires
        are_digits(ds),
    ensures
        padded_value(ds, n) < pow10(n),
        n > 0 && digit_at(ds, 0) != 0 ==> padded_value(ds, n) >= pow10((n - 1) as nat),
    decreases n,
{
    if n == 0 {
        lemma_pow0(10);
    } else {
        lemma_padded_bounds(ds, (n - 1) as nat);
        assert(pow10(n) == 10 * pow10((n - 1) as nat)) by {
            reveal(pow);
        }
        if n == 1 {
            lemma_pow0(10);
        } else {
            assert(pow10((n - 1) as nat) == 10 * pow10((n - 2) as nat)) by {
                reveal(pow);
            }
        }
    }
}

/// A number with fewer places before its decimal point is the smaller one:
/// `va` has `la` digits and `vb` has `lb`, and `ea + la < eb + lb`.
pub proof fn lemma_shorter_is_less(va: int, la: nat, ea: int, vb: int, lb: nat, eb: int)
    requires
        0 <= va < pow10(la),
        lb > 0,
        pow10((lb - 1) as nat) <= vb,
        ea + la < eb + lb,
    ensures
        (Decimal { mantissa: va, exponent: ea }).order(Decimal { mantissa: vb, exponent: eb })
            == Order::Less,
        (Decimal { mantissa: vb, exponent: eb }).order(Decimal { mantissa: va, exponent: ea })
            == Order::Greater,
{
    let base = if ea <= eb {
        ea
    } else {
        eb
    };
    let x = (ea - base) as nat;
    let y = (eb - base) as nat;
    let px = pow10(x);
    let py = pow10(y);
    lemma_pow_positive(10, x);
    lemma_pow_positive(10, y);
    lemma_pow_adds(10, la, x);
    lemma_pow_adds(10, (lb - 1) as nat, y);
    lemma_pow_increases(10, la + x, (lb - 1 + y) as nat);
    let top = pow10(la);
    let low = pow10((lb - 1) as nat);
    assert(va * px < top * px) by (nonlinear_arith)
        requires
            va < top,
            px > 0,
    ;
    assert(low * py <= vb * py) by (nonlinear_arith)
        requires
            low <= vb,
            py > 0,
    ;
    assert(va * px < vb * py);
}

/// A decimal number held exactly: a sign, the digits of its magnitude and a
/// power of ten.  The numbers of the variable context are such numbers.  Where
/// the condition language compares numbers, it compares the binary64 values
/// that they round to; `compare` itself compares the numbers as they are.
#[derive(Debug)]
pub struct Number {
    negative: bool,
    digits: Vec<u8>,
    exponent: i128,
}

/// The exponents that a `Number` holds lie within this bound on either side of
/// zero.
pub const EXPONENT_BOUND: i128 = 0x10_0000_0000_0000_0000;

impl View for Number {
    type V = Decimal;

    closed spec fn view(&self) -> Decimal {
        Decimal {
            mantissa: if self.negative {
                -(digits_value(self.digits@) as int)
            } else {
                digits_value(self.digits@) as int
            },
            exponent: self.exponent as int,
        }
    }
}

/// How the magnitudes `da` times ten to the `ea` and `db` times ten to the
/// `eb` stand to each other.
#[verifier::loop_isolation(false)]
fn magnitude_order(da: &Vec<u8>, ea: i128, db: &Vec<u8>, eb: i128) -> (r: Order)
    requires
        are_digits(da@),
        are_digits(db@),
        da@.len() > 0 ==> da@[0] != 0,
        db@.len() > 0 ==> db@[0] != 0,
        -EXPONENT_BOUND <= ea <= EXPONENT_BOUND,
        -EXPONENT_BOUND <= eb <= EXPONENT_BOUND,
    ensures
        r == (Decimal { mantissa: digits_value(da@) as int, exponent: ea as int }).order(
            Decimal { mantissa: digits_value(db@) as int, exponent: eb as int },
        ),
{
    let la = da.len();
    let lb = db.len();
    let ghost a = Decimal { mantissa: digits_value(da@) as int, exponent: ea as int };
    let ghost b = Decimal { mantissa: digits_value(db@) as int, exponent: eb as int };
    let ghost base = a.common_base(b);
    let ghost px = pow10((ea - base) as nat);
    let ghost py = pow10((eb - base) as nat);
    let ghost va = a.mantissa;
    let ghost vb = b.mantissa;
    proof {
        lemma_padded_bounds(da@, la as nat);
        lemma_padded_bounds(db@, lb as nat);
        lemma_pow_positive(10, (ea - base) as nat);
        lemma_pow_positive(10, (eb - base) as nat);
        if lb > 0 {
            lemma_pow_positive(10, (lb - 1) as nat);
        }
        if la > 0 {
            lemma_pow_positive(10, (la - 1) as nat);
        }
        assert(va == 0 ==> va * px == 0) by (nonlinear_arith);
        assert(vb == 0 ==> vb * py == 0) by (nonlinear_arith);
        assert(va > 0 && px > 0 ==> va * px > 0) by (nonlinear_arith);
        assert(vb > 0 && py > 0 ==> vb * py > 0) by (nonlinear_arith);
        assert(a.scaled(base) == va * px);
        assert(b.scaled(base) == vb * py);
    }
    if la == 0 {
        assert(va == 0);
        if lb == 0 {
            assert(vb == 0);
            return Order::Equal;
        }
        assert(vb > 0);
        return Order::Less;
    }
    if lb == 0 {
        assert(vb == 0);
        assert(va > 0);
        return Order::Greater;
    }
    let oa: i128 = ea + la as i128;
    let ob: i128 = eb + lb as i128;
    if oa < ob {
        proof {
            lemma_shorter_is_less(a.mantissa, la as nat, ea as int, b.mantissa, lb as nat, eb as int);
        }
        return Order::Less;
    }
    if oa > ob {
        proof {
            lemma_shorter_is_less(b.mantissa, lb as nat, eb as int, a.mantissa, la as nat, ea as int);
        }
        return Order::Greater;
    }
    let n: usize = if la > lb {
        la
    } else {
        lb
    };
    proof {
        lemma_padded_beyond(da@, n as nat);
        lemma_padded_beyond(db@, n as nat);
        assert(ea - base == n - la);
        assert(eb - base == n - lb);
        assert(a.scaled(base) == padded_value(da@, n as nat));
        assert(b.scaled(base) == padded_value(db@, n as nat));
    }
    let mut i: usize = 0;
    while i < n
        invariant
            i <= n,
            forall|j: int| 0 <= j < i ==> digit_at(da@, j) == digit_at(db@, j),
        decreases n - i,
    {
        let x: u8 = if i < la {
            da[i]
        } else {
            0
        };
        let y: u8 = if i < lb {
            db[i]
        } else {
            0
        };
        if x < y {
            proof {
                lemma_padded_less(da@, db@, i as nat, n as nat);
            }
            return Order::Less;
        }
        if x > y {
            proof {
                lemma_padded_less(db@, da@, i as nat, n as nat);
            }
            return Order::Greater;
        }
        i += 1;
    }
    proof {
        lemma_padded_agree(da@, db@, n as nat);
    }
    Order::Equal
}

impl Clone for Number {
    fn clone(&self) -> (r: Number)
        ensures
            r@ == self@,
    {
        proof {
            use_type_invariant(self);
        }
        Number { negative: self.negative, digits: self.digits.clone(), exponent: self.exponent }
    }
}

impl Number {
    #[verifier::type_invariant]
    spec fn well_formed(self) -> bool {
        &&& are_digits(self.digits@)
        &&& self.digits@.len() > 0 ==> self.digits@[0] != 0
        &&& self.digits@.len() == 0 ==> !self.negative
        &&& -EXPONENT_BOUND <= self.exponent <= EXPONENT_BOUND
    }

    /// Whether the number is not zero.
    pub fn is_nonzero(&self) -> (r: bool)
        ensures
            r == !self@.is_zero(),
    {
        proof {
            use_type_invariant(self);
            lemma_padded_bounds(self.digits@, self.digits@.len());
            if self.digits@.len() > 0 {
                lemma_pow_positive(10, (self.digits@.len() - 1) as nat);
            }
        }
        self.digits.len() > 0
    }

    /// How this number stands to `other`.
    pub fn compare(&self, other: &Number) -> (r: Order)
        ensures
            r == self@.order(other@),
    {
        proof {
            use_type_invariant(self);
            use_type_invariant(other);
            lemma_padded_bounds(self.digits@, self.digits@.len());
            lemma_padded_bounds(other.digits@, other.digits@.len());
        }
        let ghost base = self@.common_base(other@);
        let ghost px = pow10((self.exponent - base) as nat);
        let ghost py = pow10((other.exponent - base) as nat);
        let ghost va = digits_value(self.digits@) as int;
        let ghost vb = digits_value(other.digits@) as int;
        proof {
            lemma_pow_positive(10, (self.exponent - base) as nat);
            lemma_pow_positive(10, (other.exponent - base) as nat);
            if self.digits@.len() > 0 {
                lemma_pow_positive(10, (self.digits@.len() - 1) as nat);
            }
            if other.digits@.len() > 0 {
                lemma_pow_positive(10, (other.digits@.len() - 1) as nat);
            }
            assert((-va) * px == -(va * px)) by (nonlinear_arith);
            assert((-vb) * py == -(vb * py)) by (nonlinear_arith);
            assert(va >= 0 && px > 0 ==> va * px >= 0) by (nonlinear_arith);
            assert(vb >= 0 && py > 0 ==> vb * py >= 0) by (nonlinear_arith);
            assert(va > 0 && px > 0 ==> va * px > 0) by (nonlinear_arith);
            assert(vb > 0 && py > 0 ==> vb * py > 0) by (nonlinear_arith);
        }
        if self.negative {
            if other.negative {
                match magnitude_order(&self.digits, self.exponent, &other.digits, other.exponent) {
                    Order::Less => Order::Greater,
                    Order::Equal => Order::Equal,
                    Order::Greater => Order::Less,
                }
            } else {
                Order::Less
            }
        } else if other.negative {
            Order::Greater
        } else {
            magnitude_order(&self.digits, self.exponent, &other.digits, other.exponent)
        }
    }
}


/// Whether `c` is one of the ten decimal digits.
pub open spec fn is_digit(c: char) -> bool {
    '0' <= c <= '9'
}

/// The number that the digit `c` stands for.
pub open spec fn digit_of(c: char) -> nat {
    (c as u32 - '0' as u32) as nat
}

/// Whether `s` holds decimal digits only.
pub open spec fn all_digits(s: Seq<char>) -> bool {
    forall|i: int| 0 <= i < s.len() ==> is_digit(s[i])
}

/// The number that the digits of `s` spell when they are written after a
/// number `acc`.
pub open spec fn append_value(acc: nat, s: Seq<char>) -> nat
    decreases s.len(),
{
    if s.len() == 0 {
        acc
    } else {
        10 * append_value(acc, s.drop_last()) + digit_of(s.last())
    }
}

/// The number that the digits of `s` spell.
pub open spec fn text_value(s: Seq<char>) -> nat {
    append_value(0, s)
}

/// Writing `a` and then `b` after a number is writing `a + b` after it.
pub proof fn lemma_append_concat(acc: nat, a: Seq<char>, b: Seq<char>)
    ensures
        append_value(acc, a + b) == append_value(append_value(acc, a), b),
    decreases b.len(),
{
    if b.len() == 0 {
        assert(a + b =~= a);
    } else {
        lemma_append_concat(acc, a, b.drop_last());
        assert((a + b).drop_last() =~= a + b.drop_last());
    }
}

/// `s` without a sign at its front.
pub open spec fn unsigned_part(s: Seq<char>) -> Seq<char> {
    if s.len() > 0 && (s[0] == '+' || s[0] == '-') {
        s.subrange(1, s.len() as int)
    } else {
        s
    }
}

/// Whether `s` begins with a minus sign.
pub open spec fn has_minus(s: Seq<char>) -> bool {
    s.len() > 0 && s[0] == '-'
}

/// The largest magnitude that the exponent of a decimal text counts with.
pub const EXPONENT_LIMIT: u128 = 100_000_000_000_000_000_000;

/// The exponent that `s` spells: an optional sign and at least one digit.  A
/// magnitude beyond `EXPONENT_LIMIT` counts as `EXPONENT_LIMIT`.
pub open spec fn exponent_of_text(s: Seq<char>) -> Option<int> {
    let body = unsigned_part(s);
    if body.len() > 0 && all_digits(body) {
        let magnitude = if text_value(body) <= EXPONENT_LIMIT {
            text_value(body) as int
        } else {
            EXPONENT_LIMIT as int
        };
        Some(
            if has_minus(s) {
                -magnitude
            } else {
                magnitude
            },
        )
    } else {
        None
    }
}

/// The first index at or after `i` that holds the exponent mark `e` or `E`, or
/// the length of `s` when there is none.
pub open spec fn mark_from(s: Seq<char>, i: int) -> int
    decreases s.len() - i,
{
    if 0 <= i < s.len() && s[i] != 'e' && s[i] != 'E' {
        mark_from(s, i + 1)
    } else {
        i
    }
}

/// The digits of `s` before its decimal point.
pub open spec fn whole_part(number: Seq<char>) -> Seq<char> {
    match first_index_of(number, seq!['.']) {
        Some(d) => number.subrange(0, d),
        None => number,
    }
}

/// The digits of `s` after its decimal point.
pub open spec fn fraction_part(number: Seq<char>) -> Seq<char> {
    match first_index_of(number, seq!['.']) {
        Some(d) => number.subrange(d + 1, number.len() as int),
        None => Seq::empty(),
    }
}

/// The decimal number that the text `s` spells, if it spells one: an optional
/// sign; digits with at most one decimal point among them, before or after
/// which the digits may be missing, but not both; and optionally `e` or `E`
/// with an exponent.  The digits are taken as they stand: nothing is rounded.
pub open spec fn decimal_of_text(s: Seq<char>) -> Option<Decimal> {
    let body = unsigned_part(s);
    let m = mark_from(body, 0);
    let number = body.subrange(0, m);
    let whole = whole_part(number);
    let fraction = fraction_part(number);
    let exponent = if m < body.len() {
        exponent_of_text(body.subrange(m + 1, body.len() as int))
    } else {
        Some(0int)
    };
    if all_digits(whole) && all_digits(fraction) && whole.len() + fraction.len() > 0
        && exponent is Some {
        let magnitude = text_value(whole + fraction) as int;
        Some(
            Decimal {
                mantissa: if has_minus(s) {
                    -magnitude
                } else {
                    magnitude
                },
                exponent: exponent->0 - fraction.len(),
            },
        )
    } else {
        None
    }
}

/// Writes the digits of `s` after those in `out`, leaving out zeros at the
/// front; gives up at the first character that is no digit.
fn push_digits(out: &mut Vec<u8>, s: &[char]) -> (ok: bool)
    requires
        are_digits(old(out)@),
        old(out)@.len() > 0 ==> old(out)@[0] != 0,
    ensures
        ok == all_digits(s@),
        ok ==> are_digits(final(out)@),
        ok ==> (final(out)@.len() > 0 ==> final(out)@[0] != 0),
        ok ==> digits_value(final(out)@) == append_value(digits_value(old(out)@), s@),
{
    let mut i: usize = 0;
    while i < s.len()
        invariant
            i <= s.len(),
            are_digits(out@),
            out@.len() > 0 ==> out@[0] != 0,
            all_digits(s@.subrange(0, i as int)),
            digits_value(out@) == append_value(digits_value(old(out)@), s@.subrange(0, i as int)),
        decreases s.len() - i,
    {
        let c = s[i];
        if !('0' <= c && c <= '9') {
            return false;
        }
        let d: u8 = (c as u32 - '0' as u32) as u8;
        proof {
            assert(s@.subrange(0, i + 1).drop_last() =~= s@.subrange(0, i as int));
            assert(s@.subrange(0, i + 1).last() == c);
            lemma_digits_push(out@, d);
        }
        if out.len() > 0 || d != 0 {
            out.push(d);
        }
        i += 1;
    }
    assert(s@.subrange(0, i as int) =~= s@);
    true
}

/// Reads an exponent.
#[verifier::loop_isolation(false)]
fn parse_exponent(s: &[char]) -> (r: Option<i128>)
    ensures
        match r {
            Some(e) => exponent_of_text(s@) == Some(e as int),
            None => exponent_of_text(s@) is None,
        },
        r is Some ==> -EXPONENT_LIMIT <= r->0 <= EXPONENT_LIMIT,
{
    let signed = s.len() > 0 && (s[0] == '+' || s[0] == '-');
    let negative = s.len() > 0 && s[0] == '-';
    let body = if signed {
        slice_subrange(s, 1, s.len())
    } else {
        s
    };
    if body.len() == 0 {
        return None;
    }
    let mut acc: u128 = 0;
    let mut i: usize = 0;
    while i < body.len()
        invariant
            i <= body.len(),
            acc <= EXPONENT_LIMIT,
            all_digits(body@.subrange(0, i as int)),
            acc == if text_value(body@.subrange(0, i as int)) <= EXPONENT_LIMIT {
                text_value(body@.subrange(0, i as int))
            } else {
                EXPONENT_LIMIT as nat
            },
        decreases body.len() - i,
    {
        let c = body[i];
        if !('0' <= c && c <= '9') {
            return None;
        }
        let d: u128 = (c as u32 - '0' as u32) as u128;
        proof {
            assert(body@.subrange(0, i + 1).drop_last() =~= body@.subrange(0, i as int));
            assert(body@.subrange(0, i + 1).last() == c);
        }
        let next: u128 = acc * 10 + d;
        acc = if next > EXPONENT_LIMIT {
            EXPONENT_LIMIT
        } else {
            next
        };
        i += 1;
    }
    assert(body@.subrange(0, i as int) =~= body@);
    if negative {
        Some(-(acc as i128))
    } else {
        Some(acc as i128)
    }
}

/// The number of decimal digits of `n`, of which zero has none.
pub open spec fn decimal_digits(n: nat) -> nat
    decreases n,
{
    if n == 0 {
        0
    } else {
        1 + decimal_digits(n / 10)
    }
}

/// `x`, or the nearer of the two limits where `x` is not between them.
pub open spec fn within(x: int, low: int, high: int) -> int {
    if x < low {
        low
    } else if x > high {
        high
    } else {
        x
    }
}

impl Decimal {
    /// Where the decimal point stands in the decimal: the number of digits of
    /// its mantissa plus its exponent.  For a number that is not zero this is
    /// the number of digits before the decimal point, and below one by the
    /// number of zeros after the point where there are no digits before it.
    pub open spec fn places(self) -> int {
        decimal_digits(
            if self.mantissa < 0 {
                (-self.mantissa) as nat
            } else {
                self.mantissa as nat
            },
        ) + self.exponent
    }
}

/// Digits without a zero at the front spell a number of as many digits.
pub proof fn lemma_digits_count(ds: Seq<u8>, n: nat)
    requires
        are_digits(ds),
        ds.len() > 0 ==> ds[0] != 0,
        n <= ds.len(),
    ensures
        decimal_digits(padded_value(ds, n)) == n,
    decreases n,
{
    if n > 0 {
        lemma_digits_count(ds, (n - 1) as nat);
        let before = padded_value(ds, (n - 1) as nat);
        let d = digit_at(ds, n - 1);
        assert(d <= 9);
        assert(padded_value(ds, n) == 10 * before + d);
        if n == 1 {
            assert(before == 0);
            assert(d == ds[0]);
        } else {
            assert(before != 0);
        }
        assert((10 * before + d) / 10 == before);
    }
}

/// The number that the digits `s` spell, least significant first.
pub open spec fn le_value(s: Seq<u8>) -> nat
    decreases s.len(),
{
    if s.len() == 0 {
        0
    } else {
        s[0] as nat + 10 * le_value(s.subrange(1, s.len() as int))
    }
}

/// A digit written after the most significant one counts by its place.
pub proof fn lemma_le_push(s: Seq<u8>, d: u8)
    ensures
        le_value(s.push(d)) == le_value(s) + d * pow10(s.len()),
    decreases s.len(),
{
    if s.len() == 0 {
        lemma_pow0(10);
        assert(s.push(d).subrange(1, 1) =~= Seq::<u8>::empty());
        assert(le_value(Seq::<u8>::empty()) == 0);
        assert(le_value(s.push(d)) == d);
        assert(d * pow10(0) == d) by (nonlinear_arith)
            requires
                pow10(0) == 1,
        ;
    } else {
        let rest = s.subrange(1, s.len() as int);
        lemma_le_push(rest, d);
        assert(s.push(d).subrange(1, s.len() as int + 1) =~= rest.push(d));
        assert(s.push(d)[0] == s[0]);
        assert(pow10(s.len()) == 10 * pow10(rest.len())) by {
            reveal(pow);
        }
        let p = pow10(rest.len());
        assert(10 * (d * p) == d * (10 * p)) by (nonlinear_arith);
        assert(le_value(s.push(d)) == s[0] + 10 * le_value(rest.push(d)));
    }
}

/// The digits of `v`, most significant first and without zeros at the front.
fn digits_of(v: u64) -> (digits: Vec<u8>)
    ensures
        are_digits(digits@),
        digits@.len() > 0 ==> digits@[0] != 0,
        digits_value(digits@) == v,
{
    let mut digits: Vec<u8> = Vec::new();
    let mut rest: u64 = v;
    let mut unit: u64 = 10_000_000_000_000_000_000;
    let ghost mut places: nat = 19;
    proof {
        assert(pow10(19) == 10_000_000_000_000_000_000int) by {
            reveal_with_fuel(pow, 20);
        }
    }
    while unit > 0
        invariant
            are_digits(digits@),
            digits@.len() > 0 ==> digits@[0] != 0,
            unit > 0 ==> unit == pow10(places) && rest < 10 * unit && v == digits_value(digits@)
                * (10 * unit) + rest,
            unit == 0 ==> v == digits_value(digits@),
        decreases unit,
    {
        let d: u64 = rest / unit;
        let next: u64 = rest % unit;
        proof {
            let value = digits_value(digits@) as int;
            let u = unit as int;
            let r = rest as int;
            assert(r == u * (r / u) + r % u) by (nonlinear_arith)
                requires
                    u > 0,
            ;
            assert(r / u < 10) by (nonlinear_arith)
                requires
                    u > 0,
                    0 <= r < 10 * u,
            ;
            assert(value * (10 * u) + u * (r / u) == (10 * value + r / u) * u)
                by (nonlinear_arith);
            lemma_digits_push(digits@, d as u8);
            if places > 0 {
                assert(pow10(places) == 10 * pow10((places - 1) as nat)) by {
                    reveal(pow);
                }
            } else {
                lemma_pow0(10);
            }
        }
        if digits.len() > 0 || d != 0 {
            digits.push(d as u8);
        }
        rest = next;
        unit = unit / 10;
        proof {
            if places > 0 {
                places = (places - 1) as nat;
            }
        }
    }
    digits
}

impl Number {
    /// The number zero.
    pub fn zero() -> (r: Number)
        ensures
            r@ == (Decimal { mantissa: 0, exponent: 0 }),
    {
        Number { negative: false, digits: Vec::new(), exponent: 0 }
    }

    /// The number one.
    pub fn one() -> (r: Number)
        ensures
            r@ == (Decimal { mantissa: 1, exponent: 0 }),
    {
        let mut digits: Vec<u8> = Vec::new();
        digits.push(1);
        proof {
            lemma_digits_push(Seq::<u8>::empty(), 1);
            assert(digits@ =~= Seq::<u8>::empty().push(1));
        }
        Number { negative: false, digits, exponent: 0 }
    }

    /// The number `le` times ten to the `exponent`, for digits `le` that are
    /// written least significant first.
    pub(crate) fn from_le_digits(le: &Vec<u8>, exponent: i32) -> (r: Number)
        requires
            are_digits(le@),
        ensures
            r@ == (Decimal { mantissa: le_value(le@) as int, exponent: exponent as int }),
    {
        let mut digits: Vec<u8> = Vec::new();
        let mut i: usize = le.len();
        assert(le@.subrange(i as int, le@.len() as int) =~= Seq::<u8>::empty());
        while i > 0
            invariant
                i <= le@.len(),
                are_digits(le@),
                are_digits(digits@),
                digits@.len() > 0 ==> digits@[0] != 0,
                digits_value(digits@) == le_value(le@.subrange(i as int, le@.len() as int)),
            decreases i,
        {
            i -= 1;
            let d = le[i];
            proof {
                let upper = le@.subrange(i as int, le@.len() as int);
                assert(upper.subrange(1, upper.len() as int) =~= le@.subrange(
                    i + 1,
                    le@.len() as int,
                ));
                lemma_digits_push(digits@, d);
            }
            if digits.len() > 0 || d != 0 {
                digits.push(d);
            }
        }
        assert(le@.subrange(0, le@.len() as int) =~= le@);
        Number { negative: false, digits, exponent: exponent as i128 }
    }

    /// Whether the number is below zero.
    pub fn is_negative(&self) -> (r: bool)
        ensures
            r == (self@.mantissa < 0),
    {
        proof {
            use_type_invariant(self);
            lemma_padded_bounds(self.digits@, self.digits@.len());
            if self.digits@.len() > 0 {
                lemma_pow_positive(10, (self.digits@.len() - 1) as nat);
            }
        }
        self.negative
    }

    /// The number without its sign.
    pub fn magnitude(&self) -> (r: Number)
        ensures
            r@ == (Decimal {
                mantissa: if self@.mantissa < 0 {
                    -self@.mantissa
                } else {
                    self@.mantissa
                },
                exponent: self@.exponent,
            }),
    {
        proof {
            use_type_invariant(self);
        }
        Number { negative: false, digits: self.digits.clone(), exponent: self.exponent }
    }

    /// The number with the other sign.
    pub fn negated(&self) -> (r: Number)
        ensures
            r@ == (Decimal { mantissa: -self@.mantissa, exponent: self@.exponent }),
    {
        proof {
            use_type_invariant(self);
        }
        Number {
            negative: !self.negative && self.digits.len() > 0,
            digits: self.digits.clone(),
            exponent: self.exponent,
        }
    }

    /// Where the decimal point stands in the number, kept within a thousand
    /// either way: the number of its digits plus its exponent.  It serves as a
    /// first guess at the size of the number.
    pub(crate) fn places(&self) -> (r: i32)
        ensures
            r == within(self@.places(), -1000, 1000),
    {
        proof {
            use_type_invariant(self);
            lemma_digits_count(self.digits@, self.digits@.len());
        }
        let places: i128 = self.exponent + self.digits.len() as i128;
        if places > 1000 {
            1000
        } else if places < -1000 {
            -1000
        } else {
            places as i32
        }
    }

    /// The whole number `v`.
    pub fn from_u64(v: u64) -> (r: Number)
        ensures
            r@ == (Decimal { mantissa: v as int, exponent: 0 }),
    {
        Number { negative: false, digits: digits_of(v), exponent: 0 }
    }

    /// The whole number `v`.
    pub fn from_i64(v: i64) -> (r: Number)
        ensures
            r@ == (Decimal { mantissa: v as int, exponent: 0 }),
    {
        if v >= 0 {
            Number { negative: false, digits: digits_of(v as u64), exponent: 0 }
        } else {
            let magnitude: u64 = (-(v + 1)) as u64 + 1;
            let digits = digits_of(magnitude);
            proof {
                lemma_padded_bounds(digits@, digits@.len());
            }
            Number { negative: true, digits, exponent: 0 }
        }
    }

    /// Reads a decimal number from the characters `s`.
    pub fn parse_chars(s: &[char]) -> (r: Option<Number>)
        ensures
            match r {
                Some(n) => decimal_of_text(s@) == Some(n@),
                None => decimal_of_text(s@) is None,
            },
    {
        let signed = s.len() > 0 && (s[0] == '+' || s[0] == '-');
        let minus = s.len() > 0 && s[0] == '-';
        let body = if signed {
            slice_subrange(s, 1, s.len())
        } else {
            s
        };
        let mut m: usize = 0;
        while m < body.len() && body[m] != 'e' && body[m] != 'E'
            invariant
                m <= body.len(),
                mark_from(body@, 0) == mark_from(body@, m as int),
            decreases body.len() - m,
        {
            m += 1;
        }
        let number = slice_subrange(body, 0, m);
        proof {
            lemma_first_index_of(number@, seq!['.']);
        }
        let whole: &[char];
        let fraction: &[char];
        match find_char(number, '.') {
            Some(d) => {
                whole = slice_subrange(number, 0, d);
                fraction = slice_subrange(number, d + 1, number.len());
            },
            None => {
                whole = number;
                fraction = slice_subrange(number, 0, 0);
                assert(fraction@ =~= Seq::<char>::empty());
            },
        }
        if whole.len() == 0 && fraction.len() == 0 {
            return None;
        }
        let mut digits: Vec<u8> = Vec::new();
        if !push_digits(&mut digits, whole) {
            return None;
        }
        let ghost first = digits@;
        if !push_digits(&mut digits, fraction) {
            return None;
        }
        proof {
            lemma_append_concat(0, whole@, fraction@);
        }
        let exponent: i128 = if m < body.len() {
            match parse_exponent(slice_subrange(body, m + 1, body.len())) {
                Some(e) => e,
                None => {
                    return None;
                },
            }
        } else {
            0
        };
        let negative = minus && digits.len() > 0;
        Some(Number { negative, digits, exponent: exponent - fraction.len() as i128 })
    }

    /// Reads a decimal number from `text`.
    pub fn parse(text: &str) -> (r: Option<Number>)
        ensures
            match r {
                Some(n) => decimal_of_text(text@) == Some(n@),
                None => decimal_of_text(text@) is None,
            },
    {
        let chars = str_to_chars(text);
        Number::parse_chars(chars.as_slice())
    }
}

} // verus!
