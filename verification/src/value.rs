use crate::binary64::{binary64_of, binary64_of_text, Binary64, Binary64Value};
use crate::number::{Decimal, Number, Order};
use crate::text::{find_char, first_index_of, is_text, lemma_first_index_of, occurs_at, str_to_chars};
use vstd::prelude::*;
use vstd::slice::slice_subrange;

verus! {

/// A value of the variable context: a tree of the six kinds below.  An object
/// is written as its entries in order; where two entries have the same key,
/// the later one counts.
#[derive(Debug)]
pub enum Value {
    Null,
    Bool(bool),
    Number(Number),
    String(String),
    Array(Vec<Value>),
    Object(Vec<(String, Value)>),
}

/// The value that the last of the first `n` entries with the key `key` holds.
pub open spec fn entry_before(entries: Seq<(String, Value)>, key: Seq<char>, n: int) -> Option<
    Value,
>
    decreases n,
{
    if n <= 0 || n > entries.len() {
        None
    } else if entries[n - 1].0@ == key {
        Some(entries[n - 1].1)
    } else {
        entry_before(entries, key, n - 1)
    }
}

impl Value {
    /// The value that an object holds under `key`; nothing for a value of
    /// another kind.
    pub open spec fn member(self, key: Seq<char>) -> Option<Value> {
        match self {
            Value::Object(entries) => entry_before(entries@, key, entries@.len() as int),
            _ => None,
        }
    }

    /// Whether the value counts as true: a boolean by itself, a string unless
    /// it is empty, `false` or `0`, a number unless it is zero, whole or not,
    /// an array or an object unless it is empty, and null never.
    pub open spec fn truthy(self) -> bool {
        match self {
            Value::Null => false,
            Value::Bool(b) => b,
            Value::Number(n) => !n@.is_zero(),
            Value::String(s) => s@.len() > 0 && s@ != "false"@ && s@ != "0"@,
            Value::Array(items) => items@.len() > 0,
            Value::Object(entries) => entries@.len() > 0,
        }
    }

    /// Whether the value is the string `text`.
    pub open spec fn is_string(self, text: Seq<char>) -> bool {
        match self {
            Value::String(s) => s@ == text,
            _ => false,
        }
    }

    /// Looks `key` up in an object.
    #[verifier::loop_isolation(false)]
    pub fn get<'a>(&'a self, key: &[char]) -> (r: Option<&'a Value>)
        ensures
            match r {
                Some(v) => self.member(key@) == Some(*v),
                None => self.member(key@) is None,
            },
    {
        match self {
            Value::Object(entries) => {
                let mut n: usize = entries.len();
                while n > 0
                    invariant
                        n <= entries@.len(),
                        entry_before(entries@, key@, entries@.len() as int) == entry_before(
                            entries@,
                            key@,
                            n as int,
                        ),
                    decreases n,
                {
                    if is_text(key, entries[n - 1].0.as_str()) {
                        return Some(&entries[n - 1].1);
                    }
                    n -= 1;
                }
                None
            },
            _ => None,
        }
    }
}

/// The value at the end of the dot-separated `path` from `root`: each segment
/// is looked up in the object that the segments before it led to.  There is
/// none as soon as a segment is missing or is looked up in a value that is no
/// object.
pub open spec fn resolve(path: Seq<char>, root: Value) -> Option<Value>
    decreases path.len(),
    via resolve_decreases
{
    match first_index_of(path, seq!['.']) {
        None => root.member(path),
        Some(i) => match root.member(path.subrange(0, i)) {
            None => None,
            Some(inner) => resolve(path.subrange(i + 1, path.len() as int), inner),
        },
    }
}

#[via_fn]
proof fn resolve_decreases(path: Seq<char>, root: Value) {
    lemma_first_index_of(path, seq!['.']);
}

/// Resolves the characters of a path against `root`.
pub fn resolve_chars<'a>(path: &[char], root: &'a Value) -> (r: Option<&'a Value>)
    ensures
        match r {
            Some(v) => resolve(path@, *root) == Some(*v),
            None => resolve(path@, *root) is None,
        },
    decreases path@.len(),
{
    proof {
        lemma_first_index_of(path@, seq!['.']);
    }
    match find_char(path, '.') {
        None => root.get(path),
        Some(i) => {
            assert(occurs_at(path@, seq!['.'], i as int));
            let end = path.len();
            let rest = slice_subrange(path, i + 1, end);
            match root.get(slice_subrange(path, 0, i)) {
                None => None,
                Some(inner) => resolve_chars(rest, inner),
            }
        },
    }
}

/// Resolves the dot-separated `path` against `variables`.
pub fn get_value<'a>(path: &str, variables: &'a Value) -> (r: Option<&'a Value>)
    ensures
        match r {
            Some(v) => resolve(path@, *variables) == Some(*v),
            None => resolve(path@, *variables) is None,
        },
{
    let chars = str_to_chars(path);
    resolve_chars(chars.as_slice(), variables)
}


/// What a comparison sees of a value: its kind and, unless it is an array or
/// an object, what it holds.
pub enum Scalar {
    Null,
    Bool(bool),
    Number(Decimal),
    Text(Seq<char>),
    Composite,
}

impl Value {
    /// What a comparison sees of the value.
    pub open spec fn scalar(self) -> Scalar {
        match self {
            Value::Null => Scalar::Null,
            Value::Bool(b) => Scalar::Bool(b),
            Value::Number(n) => Scalar::Number(n@),
            Value::String(s) => Scalar::Text(s@),
            Value::Array(_) => Scalar::Composite,
            Value::Object(_) => Scalar::Composite,
        }
    }
}

/// Whether `lhs` equals what the text `rhs` stands for: a string equals the
/// same text, `true` equals `true` and `1`, `false` equals `false` and `0`, a
/// number equals a text that spells the same binary64 value, and nothing else
/// equals anything.
pub open spec fn smart_equal(lhs: Scalar, rhs: Seq<char>) -> bool {
    match lhs {
        Scalar::Text(s) => s == rhs,
        Scalar::Bool(b) => if b {
            rhs == "true"@ || rhs == "1"@
        } else {
            rhs == "false"@ || rhs == "0"@
        },
        Scalar::Number(n) => match binary64_of_text(rhs) {
            Some(x) => x.order(binary64_of(n)) == Some(Order::Equal),
            None => false,
        },
        _ => false,
    }
}

/// The binary64 value that `lhs` counts as in a comparison: a number is
/// rounded to its binary64 value, a string is the value it spells if it
/// spells one, `true` is one, `false` and null are zero, and an array or an
/// object is no number.
pub open spec fn numeric(lhs: Scalar) -> Option<Binary64Value> {
    match lhs {
        Scalar::Number(n) => Some(binary64_of(n)),
        Scalar::Text(s) => binary64_of_text(s),
        Scalar::Bool(b) => Some(
            Binary64Value::Finite(
                Decimal {
                    mantissa: if b {
                        1
                    } else {
                        0
                    },
                    exponent: 0,
                },
            ),
        ),
        Scalar::Null => Some(Binary64Value::Finite(Decimal { mantissa: 0, exponent: 0 })),
        Scalar::Composite => None,
    }
}

/// Tests whether `value` counts as true.
pub fn is_truthy(value: &Value) -> (r: bool)
    ensures
        r == value.truthy(),
{
    match value {
        Value::Null => false,
        Value::Bool(b) => *b,
        Value::Number(n) => n.is_nonzero(),
        Value::String(s) => {
            let chars = str_to_chars(s.as_str());
            chars.len() > 0 && !is_text(chars.as_slice(), "false") && !is_text(
                chars.as_slice(),
                "0",
            )
        },
        Value::Array(items) => items.len() > 0,
        Value::Object(entries) => entries.len() > 0,
    }
}

/// Tests whether `lhs` equals what the text `rhs` stands for.
pub fn compare_values_smart(lhs: &Value, rhs: &[char]) -> (r: bool)
    ensures
        r == smart_equal(lhs.scalar(), rhs@),
{
    match lhs {
        Value::String(s) => is_text(rhs, s.as_str()),
        Value::Bool(b) => {
            if *b {
                is_text(rhs, "true") || is_text(rhs, "1")
            } else {
                is_text(rhs, "false") || is_text(rhs, "0")
            }
        },
        Value::Number(n) => match Binary64::parse_chars(rhs) {
            Some(x) => match x.compare(&Binary64::of_number(n)) {
                Some(order) => order == Order::Equal,
                None => false,
            },
            None => false,
        },
        _ => false,
    }
}

/// The binary64 value that `value` counts as in a comparison.
pub fn numeric_of(value: &Value) -> (r: Option<Binary64>)
    ensures
        match r {
            Some(x) => numeric(value.scalar()) == Some(x@),
            None => numeric(value.scalar()) is None,
        },
{
    match value {
        Value::Number(n) => Some(Binary64::of_number(n)),
        Value::String(s) => {
            let chars = str_to_chars(s.as_str());
            Binary64::parse_chars(chars.as_slice())
        },
        Value::Bool(b) => if *b {
            Some(Binary64::Finite(Number::one()))
        } else {
            Some(Binary64::Finite(Number::zero()))
        },
        Value::Null => Some(Binary64::Finite(Number::zero())),
        _ => None,
    }
}

} // verus!
