use crate::binary64::{binary64_of, Binary64};
use crate::number::{decimal_of_text, Decimal, Number};
use crate::text::{
    chars_to_string, contains_text, ends_with, find, find_char, first_index_of, has_prefix,
    has_suffix, has_text, is_text, lemma_first_index_of, occurs_at, split, split_at_char,
    starts_with, str_to_chars, strip, stripped, trim, trimmed, CharClass,
};
use crate::value::{is_truthy, resolve, resolve_chars, Scalar, Value};
use vstd::prelude::*;
use vstd::slice::slice_subrange;

verus! {

/// Whether `collection` contains `item`: an array does when one of its
/// elements is the string `item`, a string does when `item` stands somewhere
/// in it, and a value of another kind never does.
pub open spec fn contains_item(collection: Value, item: Seq<char>) -> bool {
    match collection {
        Value::Array(items) => exists|i: int|
            0 <= i < items@.len() && (#[trigger] items@[i]).is_string(item),
        Value::String(s) => contains_text(s@, item),
        _ => false,
    }
}

/// Tests whether `collection` contains `item`.
#[verifier::loop_isolation(false)]
pub fn evaluate_contains(collection: &Value, item: &[char]) -> (r: bool)
    ensures
        r == contains_item(*collection, item@),
{
    match collection {
        Value::Array(items) => {
            let mut i: usize = 0;
            while i < items.len()
                invariant
                    i <= items@.len(),
                    forall|k: int| 0 <= k < i ==> !(#[trigger] items@[k]).is_string(item@),
                decreases items.len() - i,
            {
                match &items[i] {
                    Value::String(s) => {
                        if is_text(item, s.as_str()) {
                            return true;
                        }
                    },
                    _ => {},
                }
                i += 1;
            }
            false
        },
        Value::String(s) => {
            let chars = str_to_chars(s.as_str());
            has_text(chars.as_slice(), item)
        },
        _ => false,
    }
}

/// What a call `name(first, second)` gives: the first argument is a path
/// that has to resolve; the second is taken without white space and without
/// quotes at its ends.  `contains` tests the resolved value for the item;
/// `startsWith` and `endsWith` ask for a string and test how it begins or
/// ends.  There is no result where the arguments are not two, the path does
/// not resolve, the value is of the wrong kind or the name is another.
pub open spec fn binary_call(name: Seq<char>, arguments: Seq<char>, variables: Value) -> Option<
    bool,
> {
    let parts = split(arguments, ',');
    if parts.len() != 2 {
        None
    } else {
        match resolve(trimmed(parts[0]), variables) {
            None => None,
            Some(subject) => {
                let item = stripped(trimmed(parts[1]), CharClass::Quote);
                if name == "contains"@ {
                    Some(contains_item(subject, item))
                } else if name == "startsWith"@ {
                    match subject {
                        Value::String(s) => Some(starts_with(s@, item)),
                        _ => None,
                    }
                } else if name == "endsWith"@ {
                    match subject {
                        Value::String(s) => Some(ends_with(s@, item)),
                        _ => None,
                    }
                } else {
                    None
                }
            },
        }
    }
}

/// The name and the arguments of the call `name(arguments)` that the text `t`
/// is: the name is what stands before the first opening bracket, without
/// white space at its ends, and the arguments are what stands between that
/// bracket and the closing bracket that ends the text.  A text without an
/// opening bracket, or one that does not end with a closing bracket, is no
/// call.
pub open spec fn call_parts(t: Seq<char>) -> Option<(Seq<char>, Seq<char>)> {
    match first_index_of(t, seq!['(']) {
        None => None,
        Some(open) => {
            let tail = t.subrange(open + 1, t.len() as int);
            if tail.len() > 0 && tail.last() == ')' {
                Some((trimmed(t.subrange(0, open)), tail.subrange(0, tail.len() - 1)))
            } else {
                None
            }
        },
    }
}

/// What the text `t` gives when it is read as a function call.  `always`
/// takes no argument and gives true; the other functions are those of
/// `binary_call`.
pub open spec fn function_form(t: Seq<char>, variables: Value) -> Option<bool> {
    match call_parts(t) {
        None => None,
        Some((name, arguments)) => if name == "always"@ {
            if trimmed(arguments).len() == 0 {
                Some(true)
            } else {
                None
            }
        } else {
            binary_call(name, arguments, variables)
        },
    }
}

/// Reads `expr` as a function call and evaluates it.
pub fn parse_and_evaluate_function(expr: &[char], variables: &Value) -> (r: Option<bool>)
    ensures
        r == function_form(expr@, *variables),
{
    proof {
        lemma_first_index_of(expr@, seq!['(']);
    }
    let length = expr.len();
    let open = match find_char(expr, '(') {
        Some(open) => open,
        None => {
            return None;
        },
    };
    assert(occurs_at(expr@, seq!['('], open as int));
    let name = trim(slice_subrange(expr, 0, open));
    let tail = slice_subrange(expr, open + 1, length);
    if tail.len() == 0 || tail[tail.len() - 1] != ')' {
        return None;
    }
    let arguments = slice_subrange(tail, 0, tail.len() - 1);
    if is_text(name, "always") {
        return if trim(arguments).len() == 0 {
            Some(true)
        } else {
            None
        };
    }
    let parts = split_at_char(arguments, ',');
    if parts.len() != 2 {
        return None;
    }
    let subject = match resolve_chars(trim(parts[0]), variables) {
        Some(subject) => subject,
        None => {
            return None;
        },
    };
    let item = strip(trim(parts[1]), CharClass::Quote);
    if is_text(name, "contains") {
        Some(evaluate_contains(subject, item))
    } else if is_text(name, "startsWith") {
        match subject {
            Value::String(s) => {
                let chars = str_to_chars(s.as_str());
                Some(has_prefix(chars.as_slice(), item))
            },
            _ => None,
        }
    } else if is_text(name, "endsWith") {
        match subject {
            Value::String(s) => {
                let chars = str_to_chars(s.as_str());
                Some(has_suffix(chars.as_slice(), item))
            },
            _ => None,
        }
    } else {
        None
    }
}

/// The number that a bare text stands for as a literal: the decimal that it
/// spells, if it spells one that is not beyond the binary64 numbers.
pub open spec fn number_literal(text: Seq<char>) -> Option<Decimal> {
    match decimal_of_text(text) {
        Some(d) => if binary64_of(d) is Finite {
            Some(d)
        } else {
            None
        },
        None => None,
    }
}

/// What a bare text stands for as a literal: the number it spells if it
/// spells one; else the boolean or the null that it names; else itself, as a
/// string.
pub open spec fn literal_scalar(text: Seq<char>) -> Scalar {
    match number_literal(text) {
        Some(d) => Scalar::Number(d),
        None => if text == "true"@ {
            Scalar::Bool(true)
        } else if text == "false"@ {
            Scalar::Bool(false)
        } else if text == "null"@ {
            Scalar::Null
        } else {
            Scalar::Text(text)
        },
    }
}

/// Reads a bare text as a number.
fn parse_number_literal(literal: &[char]) -> (r: Option<Number>)
    ensures
        match r {
            Some(n) => number_literal(literal@) == Some(n@),
            None => number_literal(literal@) is None,
        },
{
    match Number::parse_chars(literal) {
        Some(n) => match Binary64::of_number(&n) {
            Binary64::Finite(_) => Some(n),
            _ => None,
        },
        None => None,
    }
}

/// Reads a bare text as a literal value.
pub fn parse_literal_value(literal: &[char]) -> (r: Value)
    ensures
        r.scalar() == literal_scalar(literal@),
{
    match parse_number_literal(literal) {
        Some(n) => Value::Number(n),
        None => {
            if is_text(literal, "true") {
                Value::Bool(true)
            } else if is_text(literal, "false") {
                Value::Bool(false)
            } else if is_text(literal, "null") {
                Value::Null
            } else {
                Value::String(chars_to_string(literal))
            }
        },
    }
}

/// What a `coalesce` call settles on: a value of the variable context, or a
/// text that is to be read as a literal.
pub enum Choice {
    Variable(Value),
    Literal(Seq<char>),
}

impl Choice {
    /// What a comparison sees of the choice.
    pub open spec fn scalar(self) -> Scalar {
        match self {
            Choice::Variable(v) => v.scalar(),
            Choice::Literal(text) => literal_scalar(text),
        }
    }
}

/// The left-hand side of a comparison, once it is evaluated: a value of the
/// variable context, or a literal that was read from the expression.
pub enum Operand<'a> {
    Variable(&'a Value),
    Literal(Value),
}

impl<'a> Operand<'a> {
    /// Whether the operand is what `choice` describes.
    pub open spec fn realizes(self, choice: Choice) -> bool {
        match self {
            Operand::Variable(v) => choice == Choice::Variable(*v),
            Operand::Literal(v) => match choice {
                Choice::Literal(text) => v.scalar() == literal_scalar(text),
                _ => false,
            },
        }
    }

    /// What a comparison sees of the operand.
    pub open spec fn scalar(self) -> Scalar {
        match self {
            Operand::Variable(v) => v.scalar(),
            Operand::Literal(v) => v.scalar(),
        }
    }

    /// The value of the operand.
    pub fn value(&self) -> (r: &Value)
        ensures
            r.scalar() == self.scalar(),
            match *self {
                Operand::Variable(v) => *r == *v,
                Operand::Literal(v) => *r == v,
            },
    {
        match self {
            Operand::Variable(v) => v,
            Operand::Literal(v) => v,
        }
    }
}

/// The text that opens a `coalesce` call.
pub open spec fn coalesce_mark() -> Seq<char> {
    "coalesce("@
}

/// The arguments of the first `coalesce` call in `expr`, as they stand between
/// its opening bracket and the next closing bracket, split at the commas.
/// There are none where `expr` holds no such call, the bracket is not closed,
/// or the arguments are fewer than two.
pub open spec fn coalesce_arguments(expr: Seq<char>) -> Option<Seq<Seq<char>>> {
    match first_index_of(expr, coalesce_mark()) {
        None => None,
        Some(start) => {
            let rest = expr.subrange(start + coalesce_mark().len(), expr.len() as int);
            match first_index_of(rest, seq![')']) {
                None => None,
                Some(end) => {
                    let parts = split(rest.subrange(0, end), ',');
                    if parts.len() >= 2 {
                        Some(parts)
                    } else {
                        None
                    }
                },
            }
        },
    }
}

/// The value of the first argument from index `i` on that resolves as a path
/// and counts as true.
pub open spec fn first_truthy(arguments: Seq<Seq<char>>, variables: Value, i: int) -> Option<
    Value,
>
    decreases arguments.len() - i,
{
    if i < 0 || i >= arguments.len() {
        None
    } else {
        match resolve(trimmed(arguments[i]), variables) {
            Some(v) => if v.truthy() {
                Some(v)
            } else {
                first_truthy(arguments, variables, i + 1)
            },
            None => first_truthy(arguments, variables, i + 1),
        }
    }
}

/// The last argument as a default: without white space and quotes at its
/// ends.
pub open spec fn default_text(arguments: Seq<Seq<char>>) -> Seq<char> {
    stripped(trimmed(arguments.last()), CharClass::Quote)
}

/// What the `coalesce` call in `expr` settles on: the first argument, the
/// last one included, that resolves and counts as true; where there is none,
/// the last argument without its quotes, as the value it resolves to, whatever
/// that is, or else as a literal.
pub open spec fn coalesce_choice(expr: Seq<char>, variables: Value) -> Option<Choice> {
    match coalesce_arguments(expr) {
        None => None,
        Some(arguments) => match first_truthy(arguments, variables, 0) {
            Some(v) => Some(Choice::Variable(v)),
            None => match resolve(default_text(arguments), variables) {
                Some(v) => Some(Choice::Variable(v)),
                None => Some(Choice::Literal(default_text(arguments))),
            },
        },
    }
}

/// Evaluates the `coalesce` call in `expr` to the operand it settles on.
#[verifier::loop_isolation(false)]
pub fn evaluate_coalesce_to_value<'a>(expr: &[char], variables: &'a Value) -> (r: Option<
    Operand<'a>,
>)
    ensures
        match r {
            Some(operand) => coalesce_choice(expr@, *variables) is Some && operand.realizes(
                coalesce_choice(expr@, *variables)->0,
            ),
            None => coalesce_choice(expr@, *variables) is None,
        },
{
    let mark = str_to_chars("coalesce(");
    proof {
        lemma_first_index_of(expr@, coalesce_mark());
    }
    let length = expr.len();
    let start = match find(expr, mark.as_slice()) {
        Some(start) => start,
        None => {
            return None;
        },
    };
    assert(occurs_at(expr@, coalesce_mark(), start as int));
    let rest = slice_subrange(expr, start + mark.len(), length);
    proof {
        lemma_first_index_of(rest@, seq![')']);
    }
    let end = match find_char(rest, ')') {
        Some(end) => end,
        None => {
            return None;
        },
    };
    assert(occurs_at(rest@, seq![')'], end as int));
    let arguments = split_at_char(slice_subrange(rest, 0, end), ',');
    if arguments.len() < 2 {
        return None;
    }
    let ghost parts = split(rest@.subrange(0, end as int), ',');
    let mut i: usize = 0;
    while i < arguments.len()
        invariant
            i <= arguments.len(),
            arguments.len() == parts.len(),
            forall|k: int| 0 <= k < arguments.len() ==> (#[trigger] arguments[k])@ == parts[k],
            first_truthy(parts, *variables, 0) == first_truthy(parts, *variables, i as int),
        decreases arguments.len() - i,
    {
        match resolve_chars(trim(arguments[i]), variables) {
            Some(v) => {
                if is_truthy(v) {
                    return Some(Operand::Variable(v));
                }
            },
            None => {},
        }
        i += 1;
    }
    let default = strip(trim(arguments[arguments.len() - 1]), CharClass::Quote);
    match resolve_chars(default, variables) {
        Some(v) => Some(Operand::Variable(v)),
        None => Some(Operand::Literal(parse_literal_value(default))),
    }
}

} // verus!
