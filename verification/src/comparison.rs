use crate::functions::{
    coalesce_choice, coalesce_mark, evaluate_coalesce_to_value, Choice, Operand,
};
use crate::binary64::{binary64_of_text, Binary64, Binary64Value};
use crate::number::{Decimal, Number, Order};
use crate::text::{
    contains_text, find_char, find_pair, first_index_of, has_text, is_text, lemma_first_index_of,
    occurs_at, str_to_chars, strip, stripped, trim, trimmed, CharClass,
};
use crate::value::{compare_values_smart, numeric, numeric_of, resolve, resolve_chars, smart_equal, Scalar, Value};
use vstd::prelude::*;
use vstd::slice::slice_subrange;

verus! {

/// The six comparison operators.
#[derive(Clone, Copy, Debug, PartialEq, Eq, Structural)]
pub enum Operator {
    /// `>=`
    GreaterOrEqual,
    /// `<=`
    LessOrEqual,
    /// `==`
    Equal,
    /// `!=`
    NotEqual,
    /// `>`
    Greater,
    /// `<`
    Less,
}

impl Operator {
    /// What a comparison gives when its left-hand side is undefined: an
    /// undefined value equals nothing and is less than everything.
    pub open spec fn of_undefined(self) -> bool {
        match self {
            Operator::Equal => false,
            Operator::NotEqual => true,
            Operator::Greater => false,
            Operator::Less => true,
            Operator::GreaterOrEqual => false,
            Operator::LessOrEqual => true,
        }
    }

    /// Whether the operator holds of two numbers that stand to each other as
    /// `order` says.
    pub open spec fn holds(self, order: Order) -> bool {
        match self {
            Operator::Equal => order == Order::Equal,
            Operator::NotEqual => order != Order::Equal,
            Operator::Greater => order == Order::Greater,
            Operator::Less => order == Order::Less,
            Operator::GreaterOrEqual => order != Order::Less,
            Operator::LessOrEqual => order != Order::Greater,
        }
    }

    /// The result of a comparison whose left-hand side is undefined.
    pub fn for_undefined(self) -> (r: bool)
        ensures
            r == self.of_undefined(),
    {
        match self {
            Operator::Equal => false,
            Operator::NotEqual => true,
            Operator::Greater => false,
            Operator::Less => true,
            Operator::GreaterOrEqual => false,
            Operator::LessOrEqual => true,
        }
    }

    /// Whether the operator holds of two binary64 values that stand to each
    /// other as `order` says.  None of the operators holds of two values that
    /// stand in no order.
    pub open spec fn holds_of(self, order: Option<Order>) -> bool {
        match order {
            Some(order) => self.holds(order),
            None => false,
        }
    }

    /// Tests whether the operator holds of two numbers that stand to each
    /// other as `order` says.
    pub fn test(self, order: Order) -> (r: bool)
        ensures
            r == self.holds(order),
    {
        match self {
            Operator::Equal => order == Order::Equal,
            Operator::NotEqual => order != Order::Equal,
            Operator::Greater => order == Order::Greater,
            Operator::Less => order == Order::Less,
            Operator::GreaterOrEqual => order != Order::Less,
            Operator::LessOrEqual => order != Order::Greater,
        }
    }
}

/// A text cut at a comparison operator: what stands on either side of it,
/// without white space at the ends.
pub struct Comparison {
    pub left: Seq<char>,
    pub operator: Operator,
    pub right: Seq<char>,
}

/// The text `t` cut at the operator of `width` characters at index `at`.
pub open spec fn cut(t: Seq<char>, at: int, width: int, operator: Operator) -> Comparison {
    Comparison {
        left: trimmed(t.subrange(0, at)),
        operator,
        right: trimmed(t.subrange(at + width, t.len() as int)),
    }
}

/// The text `t` cut at its comparison operator.  The operators are looked for
/// in the order `>=`, `<=`, `==`, `!=`, `>`, `<`; the first of them that stands
/// anywhere in `t` is taken, at the first place where it stands.
pub open spec fn split_comparison(t: Seq<char>) -> Option<Comparison> {
    match first_index_of(t, seq!['>', '=']) {
        Some(i) => Some(cut(t, i, 2, Operator::GreaterOrEqual)),
        None => match first_index_of(t, seq!['<', '=']) {
            Some(i) => Some(cut(t, i, 2, Operator::LessOrEqual)),
            None => match first_index_of(t, seq!['=', '=']) {
                Some(i) => Some(cut(t, i, 2, Operator::Equal)),
                None => match first_index_of(t, seq!['!', '=']) {
                    Some(i) => Some(cut(t, i, 2, Operator::NotEqual)),
                    None => match first_index_of(t, seq!['>']) {
                        Some(i) => Some(cut(t, i, 1, Operator::Greater)),
                        None => match first_index_of(t, seq!['<']) {
                            Some(i) => Some(cut(t, i, 1, Operator::Less)),
                            None => None,
                        },
                    },
                },
            },
        },
    }
}

/// Cuts `expr` at the operator of `width` characters at index `at`.
fn cut_at<'a>(expr: &'a [char], at: usize, width: usize, operator: Operator) -> (r: (
    &'a [char],
    Operator,
    &'a [char],
))
    requires
        at + width <= expr@.len(),
    ensures
        r.0@ == cut(expr@, at as int, width as int, operator).left,
        r.1 == operator,
        r.2@ == cut(expr@, at as int, width as int, operator).right,
{
    let length = expr.len();
    (trim(slice_subrange(expr, 0, at)), operator, trim(slice_subrange(expr, at + width, length)))
}

/// Cuts `expr` at its comparison operator.
pub fn split_at_operator<'a>(expr: &'a [char]) -> (r: Option<(&'a [char], Operator, &'a [char])>)
    ensures
        match r {
            Some(parts) => split_comparison(expr@) == Some(
                Comparison { left: parts.0@, operator: parts.1, right: parts.2@ },
            ),
            None => split_comparison(expr@) is None,
        },
{
    proof {
        lemma_first_index_of(expr@, seq!['>', '=']);
        lemma_first_index_of(expr@, seq!['<', '=']);
        lemma_first_index_of(expr@, seq!['=', '=']);
        lemma_first_index_of(expr@, seq!['!', '=']);
        lemma_first_index_of(expr@, seq!['>']);
        lemma_first_index_of(expr@, seq!['<']);
    }
    if let Some(i) = find_pair(expr, '>', '=') {
        assert(occurs_at(expr@, seq!['>', '='], i as int));
        Some(cut_at(expr, i, 2, Operator::GreaterOrEqual))
    } else if let Some(i) = find_pair(expr, '<', '=') {
        assert(occurs_at(expr@, seq!['<', '='], i as int));
        Some(cut_at(expr, i, 2, Operator::LessOrEqual))
    } else if let Some(i) = find_pair(expr, '=', '=') {
        assert(occurs_at(expr@, seq!['=', '='], i as int));
        Some(cut_at(expr, i, 2, Operator::Equal))
    } else if let Some(i) = find_pair(expr, '!', '=') {
        assert(occurs_at(expr@, seq!['!', '='], i as int));
        Some(cut_at(expr, i, 2, Operator::NotEqual))
    } else if let Some(i) = find_char(expr, '>') {
        assert(occurs_at(expr@, seq!['>'], i as int));
        Some(cut_at(expr, i, 1, Operator::Greater))
    } else if let Some(i) = find_char(expr, '<') {
        assert(occurs_at(expr@, seq!['<'], i as int));
        Some(cut_at(expr, i, 1, Operator::Less))
    } else {
        None
    }
}

/// Whether `t` begins and ends with the character `quote`.
pub open spec fn quoted(t: Seq<char>, quote: char) -> bool {
    t.len() > 0 && t[0] == quote && t.last() == quote
}

/// Whether `lhs` equals the right-hand side `rhs` as it stands in the
/// expression: the words `true` and `false` ask for that boolean; a text in
/// single or in double quotes is compared without them, and any other text as
/// it is, both by `smart_equal`.
pub open spec fn equals_operand(lhs: Scalar, rhs: Seq<char>) -> bool {
    if rhs == "true"@ {
        lhs == Scalar::Bool(true)
    } else if rhs == "false"@ {
        lhs == Scalar::Bool(false)
    } else if quoted(rhs, '\'') {
        smart_equal(lhs, stripped(rhs, CharClass::SingleQuote))
    } else if quoted(rhs, '"') {
        smart_equal(lhs, stripped(rhs, CharClass::DoubleQuote))
    } else {
        smart_equal(lhs, rhs)
    }
}

/// The binary64 value that the right-hand side `rhs` stands for: one for
/// `true`, zero for `false` and `null`, and else the value that the text
/// spells, without its quotes if it has any.
pub open spec fn number_of_operand(rhs: Seq<char>) -> Option<Binary64Value> {
    if rhs == "true"@ {
        Some(Binary64Value::Finite(Decimal { mantissa: 1, exponent: 0 }))
    } else if rhs == "false"@ || rhs == "null"@ {
        Some(Binary64Value::Finite(Decimal { mantissa: 0, exponent: 0 }))
    } else if quoted(rhs, '\'') {
        binary64_of_text(stripped(rhs, CharClass::SingleQuote))
    } else if quoted(rhs, '"') {
        binary64_of_text(stripped(rhs, CharClass::DoubleQuote))
    } else {
        binary64_of_text(rhs)
    }
}

/// What the left-hand side `left` evaluates to: where it holds a `coalesce`
/// call, what that call settles on, and else the value that it resolves to as
/// a path.
pub open spec fn left_operand(left: Seq<char>, variables: Value) -> Option<Choice> {
    if contains_text(left, coalesce_mark()) {
        coalesce_choice(left, variables)
    } else {
        match resolve(left, variables) {
            Some(v) => Some(Choice::Variable(v)),
            None => None,
        }
    }
}

/// What the comparison of `lhs` with the right-hand side `rhs` gives.  The
/// operators `==` and `!=` always give a result; the other four give one only
/// where both sides stand for binary64 values.
pub open spec fn compared(lhs: Scalar, operator: Operator, rhs: Seq<char>) -> Option<bool> {
    match operator {
        Operator::Equal => Some(equals_operand(lhs, rhs)),
        Operator::NotEqual => Some(!equals_operand(lhs, rhs)),
        _ => match (numeric(lhs), number_of_operand(rhs)) {
            (Some(l), Some(r)) => Some(operator.holds_of(l.order(r))),
            _ => None,
        },
    }
}

/// What the text `t` gives when it is read as a comparison: nothing where it
/// holds no operator; the fixed result of the operator where the left-hand
/// side is undefined; and else what `compared` gives.
pub open spec fn comparison_form(t: Seq<char>, variables: Value) -> Option<bool> {
    match split_comparison(t) {
        None => None,
        Some(c) => match left_operand(c.left, variables) {
            None => Some(c.operator.of_undefined()),
            Some(choice) => compared(choice.scalar(), c.operator, c.right),
        },
    }
}

/// Tests whether `t` begins and ends with the character `quote`.
fn is_quoted(t: &[char], quote: char) -> (r: bool)
    ensures
        r == quoted(t@, quote),
{
    t.len() > 0 && t[0] == quote && t[t.len() - 1] == quote
}

/// Tests whether `lhs` equals the right-hand side `rhs`.
fn operand_equals(lhs: &Value, rhs: &[char]) -> (r: bool)
    ensures
        r == equals_operand(lhs.scalar(), rhs@),
{
    if is_text(rhs, "true") {
        match lhs {
            Value::Bool(b) => *b,
            _ => false,
        }
    } else if is_text(rhs, "false") {
        match lhs {
            Value::Bool(b) => !*b,
            _ => false,
        }
    } else if is_quoted(rhs, '\'') {
        compare_values_smart(lhs, strip(rhs, CharClass::SingleQuote))
    } else if is_quoted(rhs, '"') {
        compare_values_smart(lhs, strip(rhs, CharClass::DoubleQuote))
    } else {
        compare_values_smart(lhs, rhs)
    }
}

/// The binary64 value that the right-hand side `rhs` stands for.
fn operand_number(rhs: &[char]) -> (r: Option<Binary64>)
    ensures
        match r {
            Some(x) => number_of_operand(rhs@) == Some(x@),
            None => number_of_operand(rhs@) is None,
        },
{
    if is_text(rhs, "true") {
        Some(Binary64::Finite(Number::one()))
    } else if is_text(rhs, "false") || is_text(rhs, "null") {
        Some(Binary64::Finite(Number::zero()))
    } else if is_quoted(rhs, '\'') {
        Binary64::parse_chars(strip(rhs, CharClass::SingleQuote))
    } else if is_quoted(rhs, '"') {
        Binary64::parse_chars(strip(rhs, CharClass::DoubleQuote))
    } else {
        Binary64::parse_chars(rhs)
    }
}

/// Compares the value `lhs` with the right-hand side `rhs`.
pub fn compare_operand(lhs: &Value, operator: Operator, rhs: &[char]) -> (r: Option<bool>)
    ensures
        r == compared(lhs.scalar(), operator, rhs@),
{
    match operator {
        Operator::Equal => Some(operand_equals(lhs, rhs)),
        Operator::NotEqual => Some(!operand_equals(lhs, rhs)),
        _ => {
            let left = numeric_of(lhs);
            let right = operand_number(rhs);
            match (left, right) {
                (Some(l), Some(r)) => match l.compare(&r) {
                    Some(order) => Some(operator.test(order)),
                    None => Some(false),
                },
                _ => None,
            }
        },
    }
}

/// Reads `expr` as a comparison and evaluates it.
pub fn parse_and_evaluate_binary_expression(expr: &[char], variables: &Value) -> (r: Option<bool>)
    ensures
        r == comparison_form(expr@, *variables),
{
    let (left, operator, right) = match split_at_operator(expr) {
        Some(parts) => parts,
        None => {
            return None;
        },
    };
    let mark = str_to_chars("coalesce(");
    let operand = if has_text(left, mark.as_slice()) {
        evaluate_coalesce_to_value(left, variables)
    } else {
        match resolve_chars(left, variables) {
            Some(v) => Some(Operand::Variable(v)),
            None => None,
        }
    };
    match operand {
        None => Some(operator.for_undefined()),
        Some(operand) => compare_operand(operand.value(), operator, right),
    }
}

} // verus!
