use crate::comparison::{comparison_form, left_operand, split_comparison, Operator};
use crate::evaluator::{atom, evaluation, verdict};
use crate::functions::{binary_call, call_parts, contains_item, first_truthy, function_form};
use crate::normalize::{folded, folded_text, normalized};
use crate::text::{
    back_class, first_index_of, lemma_absent, lemma_first_index_of, lemma_back_class, lemma_skip_class,
    lemma_stripped, lemma_stripped_fixed, lemma_stripped_is, lemma_stripped_twice,
    lemma_stripped_within, skip_class, split, stripped,
    trimmed, CharClass,
};
use crate::value::{resolve, Value};
use vstd::prelude::*;

verus! {

/// The verdict on a text is the verdict on the text without white space at
/// its ends.
pub proof fn lemma_verdict_trimmed(s: Seq<char>, variables: Value)
    ensures
        verdict(s, variables) == verdict(trimmed(s), variables),
{
    lemma_stripped_twice(s, CharClass::Space);
}

/// The verdict on a text that begins with `!` and does not end with white
/// space is the negated verdict on what follows the `!`.
pub proof fn lemma_verdict_negation(rest: Seq<char>, variables: Value)
    requires
        rest.len() > 0 ==> !CharClass::Space.holds(rest.last()),
    ensures
        verdict(seq!['!'] + rest, variables) == verdict(rest, variables).negated(),
{
    let s = seq!['!'] + rest;
    assert(s[0] == '!');
    assert(s.last() == if rest.len() > 0 {
        rest.last()
    } else {
        '!'
    });
    lemma_stripped_fixed(s, CharClass::Space);
    assert(s.subrange(1, s.len() as int) =~= rest);
}

/// Double negation cancels: an expression with `!!` before it evaluates to
/// what the expression evaluates to.
pub proof fn law_double_negation(expression: Seq<char>, variables: Value)
    ensures
        evaluation(seq!['!', '!'] + expression, variables) == evaluation(expression, variables),
{
    let space = CharClass::Space;
    let plain = folded_text(expression);
    let a = skip_class(plain, space, 0);
    let b = back_class(plain, space, a, plain.len() as int);
    lemma_skip_class(plain, space, 0);
    lemma_back_class(plain, space, a, plain.len() as int);
    let t = normalized(expression);
    assert(t == plain.subrange(a, b));
    // The end of what is left of `plain` when white space is taken from its end.
    let end = if a == plain.len() {
        0
    } else {
        b
    };
    let kept = plain.subrange(0, end);
    if a < plain.len() {
        assert(a < b);
        lemma_stripped_is(kept, space, a, b);
        assert(kept.subrange(a, b) =~= t);
    } else {
        assert(kept =~= t);
    }
    assert(trimmed(kept) == trimmed(t)) by {
        lemma_stripped_twice(plain, space);
    }
    lemma_verdict_trimmed(kept, variables);
    lemma_verdict_trimmed(t, variables);
    assert(verdict(kept, variables) == verdict(t, variables));
    // The normal form of the negated expression.
    let marked = folded_text(seq!['!', '!'] + expression);
    assert(marked =~= seq!['!', '!'] + plain);
    lemma_stripped_is(marked, space, 0, 2 + end);
    let once = seq!['!'] + kept;
    assert(marked.subrange(0, 2 + end) =~= seq!['!'] + once);
    lemma_verdict_negation(once, variables);
    lemma_verdict_negation(kept, variables);
}

/// The words `true` and `false` evaluate to themselves, whatever the
/// variables hold.
pub proof fn law_literal_booleans(variables: Value)
    ensures
        evaluation("true"@, variables) == true,
        evaluation("false"@, variables) == false,
{
    reveal_strlit("true");
    reveal_strlit("false");
    lemma_word_is_atom("true"@, variables);
    lemma_word_is_atom("false"@, variables);
}

/// A text of letters only is its own normal form, and is evaluated as an atom
/// that is neither a call nor a comparison.
proof fn lemma_word_is_atom(word: Seq<char>, variables: Value)
    requires
        word.len() > 0,
        forall|i: int| 0 <= i < word.len() ==> 'a' <= #[trigger] word[i] <= 'z',
    ensures
        normalized(word) == word,
        verdict(word, variables) == atom(word, variables),
        function_form(word, variables) is None,
        comparison_form(word, variables) is None,
{
    assert(folded_text(word) =~= word);
    lemma_stripped_fixed(word, CharClass::Space);
    lemma_absent(word, seq!['&', '&']);
    lemma_absent(word, seq!['|', '|']);
    lemma_absent(word, seq!['(']);
    lemma_absent(word, seq!['>', '=']);
    lemma_absent(word, seq!['<', '=']);
    lemma_absent(word, seq!['=', '=']);
    lemma_absent(word, seq!['!', '=']);
    lemma_absent(word, seq!['>']);
    lemma_absent(word, seq!['<']);
}

/// A text that, white space at its ends aside, neither begins with `!` nor
/// holds `&&` or `||` is evaluated as an atom.
pub proof fn lemma_verdict_of_atom(s: Seq<char>, variables: Value)
    requires
        trimmed(s).len() > 0 ==> trimmed(s)[0] != '!',
        first_index_of(trimmed(s), seq!['&', '&']) is None,
        first_index_of(trimmed(s), seq!['|', '|']) is None,
    ensures
        verdict(s, variables) == atom(trimmed(s), variables),
{
}

/// A call of `contains` with two arguments evaluates to true exactly when its
/// first argument resolves to an array that holds the item as a string, or to
/// a string that holds the item as a part; it evaluates to false for a value
/// of another kind.  Where the first argument does not resolve, the call
/// evaluates to false, unless its text can be read in another way: as a
/// comparison, because it holds a comparison operator, or as the name of a
/// variable.  This is stated of a call that holds neither `&&` nor `||`: one
/// that does is cut there before it is read as a call.
pub proof fn law_contains(
    expression: Seq<char>,
    name: Seq<char>,
    arguments: Seq<char>,
    variables: Value,
)
    requires
        call_parts(normalized(expression)) == Some((name, arguments)),
        name == "contains"@,
        split(arguments, ',').len() == 2,
        first_index_of(normalized(expression), seq!['&', '&']) is None,
        first_index_of(normalized(expression), seq!['|', '|']) is None,
    ensures
        ({
            let parts = split(arguments, ',');
            let item = stripped(trimmed(parts[1]), CharClass::Quote);
            match resolve(trimmed(parts[0]), variables) {
                Some(subject) => evaluation(expression, variables) == contains_item(subject, item),
                None => split_comparison(normalized(expression)) is None && resolve(
                    normalized(expression),
                    variables,
                ) is None ==> !evaluation(expression, variables),
            }
        }),
{
    let t = normalized(expression);
    reveal_strlit("contains");
    reveal_strlit("always");
    reveal_strlit("true");
    reveal_strlit("false");
    assert("contains"@.len() == 8 && "always"@.len() == 6);
    assert("true"@.len() == 4 && "false"@.len() == 5);
    lemma_first_index_of(t, seq!['(']);
    let open = first_index_of(t, seq!['('])->0;
    assert(t.subrange(open, open + 1)[0] == '(');
    assert(t[open] == '(');
    // The text begins with the first letter of the name.
    let head = t.subrange(0, open);
    lemma_stripped(folded_text(expression), CharClass::Space);
    lemma_stripped(head, CharClass::Space);
    assert(head.len() > 0);
    assert(head[0] == t[0]);
    assert(skip_class(head, CharClass::Space, 0) == 0);
    lemma_back_class(head, CharClass::Space, 0, head.len() as int);
    assert(name == head.subrange(0, back_class(head, CharClass::Space, 0, head.len() as int)));
    assert(name[0] == head[0]);
    assert(t[0] == 'c');
    lemma_stripped_twice(folded_text(expression), CharClass::Space);
    lemma_verdict_of_atom(t, variables);
    assert(function_form(t, variables) == binary_call(name, arguments, variables));
}

/// The result of a comparison whose left-hand side is undefined depends on
/// the operator alone: `==` false, `!=` true, `>` false, `<` true, `>=` false,
/// `<=` true.
pub proof fn law_undefined_comparison(t: Seq<char>, variables: Value)
    requires
        split_comparison(t) is Some,
        left_operand(split_comparison(t)->0.left, variables) is None,
    ensures
        comparison_form(t, variables) == Some(
            match split_comparison(t)->0.operator {
                Operator::Equal => false,
                Operator::NotEqual => true,
                Operator::Greater => false,
                Operator::Less => true,
                Operator::GreaterOrEqual => false,
                Operator::LessOrEqual => true,
            },
        ),
{
}

/// An expression that is a comparison with an undefined left-hand side
/// evaluates to the fixed result of its operator.  This is stated of an
/// expression that is read as a comparison: one whose normal form does not
/// begin with `!`, holds neither `&&` nor `||`, and is no function call that
/// gives a result.
pub proof fn law_undefined_evaluation(expression: Seq<char>, variables: Value)
    requires
        normalized(expression).len() > 0 ==> normalized(expression)[0] != '!',
        first_index_of(normalized(expression), seq!['&', '&']) is None,
        first_index_of(normalized(expression), seq!['|', '|']) is None,
        function_form(normalized(expression), variables) is None,
        split_comparison(normalized(expression)) is Some,
        left_operand(split_comparison(normalized(expression))->0.left, variables) is None,
    ensures
        evaluation(expression, variables) == split_comparison(
            normalized(expression),
        )->0.operator.of_undefined(),
{
    lemma_stripped_twice(folded_text(expression), CharClass::Space);
    lemma_verdict_of_atom(normalized(expression), variables);
}

/// What `first_truthy` gives from index `i` on is the value of the first
/// argument that resolves and counts as true, and nothing exactly when no
/// argument does both.
pub proof fn law_first_truthy(arguments: Seq<Seq<char>>, variables: Value, i: int)
    requires
        0 <= i,
    ensures
        match first_truthy(arguments, variables, i) {
            Some(v) => exists|k: int|
                i <= k < arguments.len() && resolve(trimmed(#[trigger] arguments[k]), variables)
                    == Some(v) && v.truthy() && forall|j: int|
                    i <= j < k ==> !chosen(#[trigger] arguments[j], variables),
            None => forall|j: int|
                i <= j < arguments.len() ==> !chosen(#[trigger] arguments[j], variables),
        },
    decreases arguments.len() - i,
{
    if i < arguments.len() {
        law_first_truthy(arguments, variables, i + 1);
        if chosen(arguments[i], variables) {
            let v = resolve(trimmed(arguments[i]), variables)->0;
            assert(i <= i < arguments.len() && resolve(trimmed(arguments[i]), variables) == Some(v)
                && v.truthy() && forall|j: int|
                i <= j < i ==> !chosen(#[trigger] arguments[j], variables));
        } else {
            match first_truthy(arguments, variables, i + 1) {
                Some(v) => {
                    let k = choose|k: int|
                        i + 1 <= k < arguments.len() && resolve(
                            trimmed(#[trigger] arguments[k]),
                            variables,
                        ) == Some(v) && v.truthy() && forall|j: int|
                            i + 1 <= j < k ==> !chosen(#[trigger] arguments[j], variables);
                    assert(i <= k < arguments.len() && resolve(trimmed(arguments[k]), variables)
                        == Some(v) && v.truthy() && forall|j: int|
                        i <= j < k ==> !chosen(#[trigger] arguments[j], variables));
                },
                None => {},
            }
        }
    }
}

/// Whether the argument `argument` of a `coalesce` call resolves to a value
/// that counts as true.
pub open spec fn chosen(argument: Seq<char>, variables: Value) -> bool {
    match resolve(trimmed(argument), variables) {
        Some(v) => v.truthy(),
        None => false,
    }
}

/// Normalizing is idempotent: a normal form is its own normal form.
pub proof fn law_normalize_idempotent(s: Seq<char>)
    ensures
        normalized(normalized(s)) == normalized(s),
{
    let plain = folded_text(s);
    let t = normalized(s);
    lemma_stripped(plain, CharClass::Space);
    lemma_stripped_within(plain, CharClass::Space);
    assert(folded_text(t) =~= t);
    lemma_stripped_fixed(t, CharClass::Space);
}

/// Two expressions that differ only in how their quotes and spaces are
/// written, so that their characters fold to the same plain characters,
/// evaluate to the same.
pub proof fn law_normalization_equivalence(first: Seq<char>, second: Seq<char>, variables: Value)
    requires
        first.len() == second.len(),
        forall|i: int| 0 <= i < first.len() ==> folded(first[i]) == folded(second[i]),
    ensures
        evaluation(first, variables) == evaluation(second, variables),
{
    assert(folded_text(first) =~= folded_text(second));
}

} // verus!
