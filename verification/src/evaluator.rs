use crate::comparison::{comparison_form, parse_and_evaluate_binary_expression};
use crate::functions::{function_form, parse_and_evaluate_function};
use crate::normalize::{normalize_chars, normalized};
use crate::text::{
    find_pair, first_index_of, is_text, lemma_first_index_of, lemma_stripped, occurs_at,
    str_to_chars, trim, trimmed, CharClass,
};
use crate::value::{is_truthy, resolve, resolve_chars, Value};
use vstd::prelude::*;
use vstd::slice::slice_subrange;

verus! {

/// The outcome of an evaluation: the boolean it gives, and whether every part
/// of the expression that had to be looked at was understood.  A part that is
/// not understood counts as false.
#[derive(Clone, Copy, Debug, PartialEq, Eq, Structural)]
pub struct Verdict {
    pub value: bool,
    pub understood: bool,
}

impl Verdict {
    /// The verdict of `!e`, given that of `e`.
    pub open spec fn negated(self) -> Verdict {
        Verdict { value: !self.value, understood: self.understood }
    }

    /// The verdict of `l && r`, given those of `l` and `r`: the right-hand side
    /// is looked at only where the left-hand side is true.
    pub open spec fn and_then(self, right: Verdict) -> Verdict {
        if !self.value {
            self
        } else {
            Verdict { value: right.value, understood: self.understood && right.understood }
        }
    }

    /// The verdict of `l || r`, given those of `l` and `r`: the right-hand side
    /// is looked at only where the left-hand side is false.
    pub open spec fn or_else(self, right: Verdict) -> Verdict {
        if self.value {
            self
        } else {
            Verdict { value: right.value, understood: self.understood && right.understood }
        }
    }
}

/// The verdict on a text without negation, `&&` and `||`.  The forms are tried
/// in turn, and the first that gives a result decides: a function call, a
/// comparison, the words `true` and `false`, and a path, which stands for
/// whether its value counts as true.  A text of none of these forms is not
/// understood.
pub open spec fn atom(t: Seq<char>, variables: Value) -> Verdict {
    match function_form(t, variables) {
        Some(b) => Verdict { value: b, understood: true },
        None => match comparison_form(t, variables) {
            Some(b) => Verdict { value: b, understood: true },
            None => if t == "true"@ {
                Verdict { value: true, understood: true }
            } else if t == "false"@ {
                Verdict { value: false, understood: true }
            } else {
                match resolve(t, variables) {
                    Some(v) => Verdict { value: v.truthy(), understood: true },
                    None => Verdict { value: false, understood: false },
                }
            },
        },
    }
}

/// The verdict on the text `s`, white space at its ends aside.  A text that
/// begins with `!` negates what follows.  Else a text that holds `&&` anywhere
/// is the conjunction of what stands before and after the first `&&`; else one
/// that holds `||` is the disjunction of what stands before and after the first
/// `||`; else the text is an `atom`.
pub open spec fn verdict(s: Seq<char>, variables: Value) -> Verdict
    decreases s.len(),
    via verdict_decreases
{
    let t = trimmed(s);
    if t.len() > 0 && t[0] == '!' {
        verdict(t.subrange(1, t.len() as int), variables).negated()
    } else {
        match first_index_of(t, seq!['&', '&']) {
            Some(i) => verdict(t.subrange(0, i), variables).and_then(
                verdict(t.subrange(i + 2, t.len() as int), variables),
            ),
            None => match first_index_of(t, seq!['|', '|']) {
                Some(i) => verdict(t.subrange(0, i), variables).or_else(
                    verdict(t.subrange(i + 2, t.len() as int), variables),
                ),
                None => atom(t, variables),
            },
        }
    }
}

#[via_fn]
proof fn verdict_decreases(s: Seq<char>, variables: Value) {
    let t = trimmed(s);
    lemma_stripped(s, CharClass::Space);
    lemma_first_index_of(t, seq!['&', '&']);
    lemma_first_index_of(t, seq!['|', '|']);
}

/// What the expression `expression` evaluates to against `variables`: the
/// value of the verdict on its normal form.
pub open spec fn evaluation(expression: Seq<char>, variables: Value) -> bool {
    verdict(normalized(expression), variables).value
}

/// Evaluates a text without negation, `&&` and `||`.
pub fn evaluate_atom(expr: &[char], variables: &Value) -> (r: Verdict)
    ensures
        r == atom(expr@, *variables),
{
    if let Some(value) = parse_and_evaluate_function(expr, variables) {
        return Verdict { value, understood: true };
    }
    if let Some(value) = parse_and_evaluate_binary_expression(expr, variables) {
        return Verdict { value, understood: true };
    }
    if is_text(expr, "true") {
        return Verdict { value: true, understood: true };
    }
    if is_text(expr, "false") {
        return Verdict { value: false, understood: true };
    }
    match resolve_chars(expr, variables) {
        Some(v) => Verdict { value: is_truthy(v), understood: true },
        None => Verdict { value: false, understood: false },
    }
}

/// Evaluates a normalized expression.
pub fn evaluate_internal(expression: &[char], variables: &Value) -> (r: Verdict)
    ensures
        r == verdict(expression@, *variables),
    decreases expression@.len(),
{
    let expr = trim(expression);
    let length = expr.len();
    proof {
        lemma_stripped(expression@, CharClass::Space);
        lemma_first_index_of(expr@, seq!['&', '&']);
        lemma_first_index_of(expr@, seq!['|', '|']);
    }
    if length > 0 && expr[0] == '!' {
        let inner = evaluate_internal(slice_subrange(expr, 1, length), variables);
        return Verdict { value: !inner.value, understood: inner.understood };
    }
    if let Some(i) = find_pair(expr, '&', '&') {
        assert(occurs_at(expr@, seq!['&', '&'], i as int));
        let left = evaluate_internal(slice_subrange(expr, 0, i), variables);
        if !left.value {
            return left;
        }
        let right = evaluate_internal(slice_subrange(expr, i + 2, length), variables);
        return Verdict { value: right.value, understood: left.understood && right.understood };
    }
    if let Some(i) = find_pair(expr, '|', '|') {
        assert(occurs_at(expr@, seq!['|', '|'], i as int));
        let left = evaluate_internal(slice_subrange(expr, 0, i), variables);
        if left.value {
            return left;
        }
        let right = evaluate_internal(slice_subrange(expr, i + 2, length), variables);
        return Verdict { value: right.value, understood: left.understood && right.understood };
    }
    evaluate_atom(expr, variables)
}

/// Evaluates `expression` against `variables`, and says whether all of it was
/// understood.
pub fn evaluate_verdict(expression: &str, variables: &Value) -> (r: Verdict)
    ensures
        r == verdict(normalized(expression@), *variables),
{
    let chars = str_to_chars(expression);
    let plain = normalize_chars(chars.as_slice());
    evaluate_internal(plain.as_slice(), variables)
}

/// Evaluates `expression` against `variables`.  An expression that is not
/// understood is false.
pub fn evaluate(expression: &str, variables: &Value) -> (r: bool)
    ensures
        r == evaluation(expression@, *variables),
{
    evaluate_verdict(expression, variables).value
}

} // verus!
