use vstd::prelude::*;
use vstd::slice::slice_subrange;
use vstd::std_specs::iter::IteratorSpec;

verus! {

/// White space as `str::trim` understands it: the characters that carry the
/// Unicode property `White_Space`.
pub open spec fn is_space(c: char) -> bool {
    let u = c as u32;
    (0x09 <= u <= 0x0D) || u == 0x20 || u == 0x85 || u == 0xA0 || u == 0x1680 || (0x2000 <= u
        <= 0x200A) || u == 0x2028 || u == 0x2029 || u == 0x202F || u == 0x205F || u == 0x3000
}

/// The sets of characters that are stripped from the ends of a text.
#[derive(Clone, Copy, Debug)]
pub enum CharClass {
    /// White space.
    Space,
    /// The straight single quote.
    SingleQuote,
    /// The straight double quote.
    DoubleQuote,
    /// Either straight quote.
    Quote,
}

impl CharClass {
    /// Whether `c` belongs to the class.
    pub open spec fn holds(self, c: char) -> bool {
        match self {
            CharClass::Space => is_space(c),
            CharClass::SingleQuote => c == '\'',
            CharClass::DoubleQuote => c == '"',
            CharClass::Quote => c == '\'' || c == '"',
        }
    }

    /// Tests whether `c` belongs to the class.
    pub fn test(&self, c: char) -> (b: bool)
        ensures
            b == self.holds(c),
    {
        match self {
            CharClass::Space => {
                let u: u32 = c as u32;
                (0x09 <= u && u <= 0x0D) || u == 0x20 || u == 0x85 || u == 0xA0 || u == 0x1680 || (
                0x2000 <= u && u <= 0x200A) || u == 0x2028 || u == 0x2029 || u == 0x202F || u
                    == 0x205F || u == 0x3000
            },
            CharClass::SingleQuote => c == '\'',
            CharClass::DoubleQuote => c == '"',
            CharClass::Quote => c == '\'' || c == '"',
        }
    }
}

/// The first index at or after `i` whose character is outside `class`, or the
/// length of `s` when there is none.
pub open spec fn skip_class(s: Seq<char>, class: CharClass, i: int) -> int
    decreases s.len() - i,
{
    if 0 <= i < s.len() && class.holds(s[i]) {
        skip_class(s, class, i + 1)
    } else {
        i
    }
}

/// The end of the text that is left of `s[..j]` once the characters of `class`
/// are taken from its end, never going below `lo`.
pub open spec fn back_class(s: Seq<char>, class: CharClass, lo: int, j: int) -> int
    decreases j - lo,
{
    if lo < j <= s.len() && class.holds(s[j - 1]) {
        back_class(s, class, lo, j - 1)
    } else {
        j
    }
}

/// `s` without the characters of `class` at its two ends.
pub open spec fn stripped(s: Seq<char>, class: CharClass) -> Seq<char> {
    let a = skip_class(s, class, 0);
    let b = back_class(s, class, a, s.len() as int);
    s.subrange(a, b)
}

/// `s` without white space at its two ends.
pub open spec fn trimmed(s: Seq<char>) -> Seq<char> {
    stripped(s, CharClass::Space)
}

/// What `skip_class` returns lies between `i` and the end, everything it
/// passed is in the class, and it stops at a character outside the class.
pub proof fn lemma_skip_class(s: Seq<char>, class: CharClass, i: int)
    requires
        0 <= i <= s.len(),
    ensures
        i <= skip_class(s, class, i) <= s.len(),
        forall|k: int| i <= k < skip_class(s, class, i) ==> class.holds(#[trigger] s[k]),
        skip_class(s, class, i) < s.len() ==> !class.holds(s[skip_class(s, class, i)]),
    decreases s.len() - i,
{
    if i < s.len() && class.holds(s[i]) {
        lemma_skip_class(s, class, i + 1);
    }
}

/// The counterpart of `lemma_skip_class` for the end of the text.
pub proof fn lemma_back_class(s: Seq<char>, class: CharClass, lo: int, j: int)
    requires
        0 <= lo <= j <= s.len(),
    ensures
        lo <= back_class(s, class, lo, j) <= j,
        forall|k: int| back_class(s, class, lo, j) <= k < j ==> class.holds(#[trigger] s[k]),
        lo < back_class(s, class, lo, j) ==> !class.holds(s[back_class(s, class, lo, j) - 1]),
    decreases j - lo,
{
    if lo < j && class.holds(s[j - 1]) {
        lemma_back_class(s, class, lo, j - 1);
    }
}

/// A stripped text is a part of the text it was taken from, and neither
/// begins nor ends with a character of the class.
pub proof fn lemma_stripped(s: Seq<char>, class: CharClass)
    ensures
        stripped(s, class).len() <= s.len(),
        stripped(s, class).len() > 0 ==> !class.holds(stripped(s, class)[0]) && !class.holds(
            stripped(s, class).last(),
        ),
{
    lemma_skip_class(s, class, 0);
    lemma_back_class(s, class, skip_class(s, class, 0), s.len() as int);
}

/// Every character of a stripped text is a character of the text it was
/// taken from.
pub proof fn lemma_stripped_within(s: Seq<char>, class: CharClass)
    ensures
        forall|i: int|
            0 <= i < stripped(s, class).len() ==> exists|j: int|
                0 <= j < s.len() && s[j] == #[trigger] stripped(s, class)[i],
{
    lemma_skip_class(s, class, 0);
    lemma_back_class(s, class, skip_class(s, class, 0), s.len() as int);
    let a = skip_class(s, class, 0);
    assert forall|i: int| 0 <= i < stripped(s, class).len() implies exists|j: int|
        0 <= j < s.len() && s[j] == #[trigger] stripped(s, class)[i] by {
        assert(s[a + i] == stripped(s, class)[i]);
    }
}

/// `skip_class` returns `a` where the characters from `i` up to `a` are in the
/// class and the text ends at `a` or goes on with a character outside it.
pub proof fn lemma_skip_class_is(s: Seq<char>, class: CharClass, i: int, a: int)
    requires
        0 <= i <= a <= s.len(),
        forall|k: int| i <= k < a ==> class.holds(#[trigger] s[k]),
        a == s.len() || !class.holds(s[a]),
    ensures
        skip_class(s, class, i) == a,
    decreases a - i,
{
    if i < a {
        lemma_skip_class_is(s, class, i + 1, a);
    }
}

/// `back_class` returns `b` where the characters from `b` up to `j` are in the
/// class and `b` is the lower limit or follows a character outside the class.
pub proof fn lemma_back_class_is(s: Seq<char>, class: CharClass, lo: int, j: int, b: int)
    requires
        0 <= lo <= b <= j <= s.len(),
        forall|k: int| b <= k < j ==> class.holds(#[trigger] s[k]),
        b == lo || !class.holds(s[b - 1]),
    ensures
        back_class(s, class, lo, j) == b,
    decreases j - b,
{
    if b < j {
        lemma_back_class_is(s, class, lo, j - 1, b);
    }
}

/// The stripped text is `s[a..b]` where everything before `a` and from `b` on
/// is in the class and `s[a..b]` neither begins nor ends with a character of
/// the class.  A text wholly in the class is covered with `a` and `b` at its
/// end.
pub proof fn lemma_stripped_is(s: Seq<char>, class: CharClass, a: int, b: int)
    requires
        0 <= a <= b <= s.len(),
        forall|k: int| 0 <= k < a ==> class.holds(#[trigger] s[k]),
        forall|k: int| b <= k < s.len() ==> class.holds(#[trigger] s[k]),
        a < b ==> !class.holds(s[a]) && !class.holds(s[b - 1]),
        a == b ==> a == s.len(),
    ensures
        stripped(s, class) == s.subrange(a, b),
{
    lemma_skip_class_is(s, class, 0, a);
    if a < b {
        lemma_back_class_is(s, class, a, s.len() as int, b);
    }
}

/// A text that neither begins nor ends with a character of the class is
/// left as it is.
pub proof fn lemma_stripped_fixed(s: Seq<char>, class: CharClass)
    requires
        s.len() > 0 ==> !class.holds(s[0]) && !class.holds(s.last()),
    ensures
        stripped(s, class) == s,
{
    assert(stripped(s, class) =~= s);
}

/// Stripping twice is stripping once.
pub proof fn lemma_stripped_twice(s: Seq<char>, class: CharClass)
    ensures
        stripped(stripped(s, class), class) == stripped(s, class),
{
    lemma_stripped(s, class);
    lemma_stripped_fixed(stripped(s, class), class);
}

/// Strips the characters of `class` from both ends of `s`.
pub fn strip<'a>(s: &'a [char], class: CharClass) -> (r: &'a [char])
    ensures
        r@ == stripped(s@, class),
{
    let mut a: usize = 0;
    while a < s.len() && class.test(s[a])
        invariant
            a <= s.len(),
            skip_class(s@, class, 0) == skip_class(s@, class, a as int),
        decreases s.len() - a,
    {
        a += 1;
    }
    let mut b: usize = s.len();
    while b > a && class.test(s[b - 1])
        invariant
            a <= b <= s.len(),
            back_class(s@, class, a as int, s.len() as int) == back_class(
                s@,
                class,
                a as int,
                b as int,
            ),
        decreases b - a,
    {
        b -= 1;
    }
    slice_subrange(s, a, b)
}

/// Strips white space from both ends of `s`.
pub fn trim<'a>(s: &'a [char]) -> (r: &'a [char])
    ensures
        r@ == trimmed(s@),
{
    strip(s, CharClass::Space)
}

/// The characters of a string slice.
pub fn str_to_chars(s: &str) -> (v: Vec<char>)
    ensures
        v@ == s@,
{
    let mut v: Vec<char> = Vec::new();
    let mut it = s.chars();
    loop
        invariant
            v@ + it.remaining() == s@,
            it.decrease() is Some,
        decreases it.decrease()->0,
    {
        match it.next() {
            Some(c) => {
                v.push(c);
                assert(v@ + it.remaining() =~= s@);
            },
            None => {
                assert(v@ =~= s@);
                return v;
            },
        }
    }
}


/// `String::push` of std: the string afterwards is the string before with
/// `c` appended.
pub assume_specification[ std::string::String::push ](s: &mut std::string::String, c: char)
    ensures
        final(s)@ == old(s)@.push(c),
;

/// The string that holds the characters of `s`.
pub fn chars_to_string(s: &[char]) -> (r: String)
    ensures
        r@ == s@,
{
    let mut r = String::new();
    let mut i: usize = 0;
    while i < s.len()
        invariant
            i <= s.len(),
            r@ == s@.subrange(0, i as int),
        decreases s.len() - i,
    {
        r.push(s[i]);
        i += 1;
        assert(r@ =~= s@.subrange(0, i as int));
    }
    assert(r@ =~= s@);
    r
}

/// Whether `pat` stands in `s` at index `i`.
pub open spec fn occurs_at(s: Seq<char>, pat: Seq<char>, i: int) -> bool {
    0 <= i && i + pat.len() <= s.len() && s.subrange(i, i + pat.len()) == pat
}

/// The first index at or after `i` at which `pat` stands in `s`.
pub open spec fn first_index_from(s: Seq<char>, pat: Seq<char>, i: int) -> Option<int>
    decreases s.len() - i + 1,
{
    if i < 0 || i + pat.len() > s.len() {
        None
    } else if occurs_at(s, pat, i) {
        Some(i)
    } else {
        first_index_from(s, pat, i + 1)
    }
}

/// The first index at which `pat` stands in `s`, as `str::find` gives it,
/// counted in characters.
pub open spec fn first_index_of(s: Seq<char>, pat: Seq<char>) -> Option<int> {
    first_index_from(s, pat, 0)
}

/// Whether `pat` stands somewhere in `s`.
pub open spec fn contains_text(s: Seq<char>, pat: Seq<char>) -> bool {
    exists|i: int| occurs_at(s, pat, i)
}

/// Whether `s` begins with `pat`.
pub open spec fn starts_with(s: Seq<char>, pat: Seq<char>) -> bool {
    occurs_at(s, pat, 0)
}

/// Whether `s` ends with `pat`.
pub open spec fn ends_with(s: Seq<char>, pat: Seq<char>) -> bool {
    occurs_at(s, pat, s.len() - pat.len())
}

/// `first_index_from` returns the least index from `i` on at which `pat`
/// stands, and `None` exactly when there is none.
pub proof fn lemma_first_index_from(s: Seq<char>, pat: Seq<char>, i: int)
    requires
        0 <= i,
    ensures
        match first_index_from(s, pat, i) {
            Some(k) => i <= k && occurs_at(s, pat, k) && forall|j: int|
                i <= j < k ==> !occurs_at(s, pat, j),
            None => forall|j: int| i <= j ==> !occurs_at(s, pat, j),
        },
    decreases s.len() - i + 1,
{
    if i + pat.len() <= s.len() && !occurs_at(s, pat, i) {
        lemma_first_index_from(s, pat, i + 1);
    }
}

/// `first_index_of` returns the least index at which `pat` stands in `s`.
pub proof fn lemma_first_index_of(s: Seq<char>, pat: Seq<char>)
    ensures
        match first_index_of(s, pat) {
            Some(k) => occurs_at(s, pat, k) && forall|j: int| j < k ==> !occurs_at(s, pat, j),
            None => !contains_text(s, pat),
        },
{
    lemma_first_index_from(s, pat, 0);
}

/// A pattern whose first character stands nowhere in `s` stands nowhere in
/// `s`.
pub proof fn lemma_absent(s: Seq<char>, pat: Seq<char>)
    requires
        pat.len() > 0,
        forall|i: int| 0 <= i < s.len() ==> s[i] != pat[0],
    ensures
        first_index_of(s, pat) is None,
{
    lemma_first_index_of(s, pat);
    if first_index_of(s, pat) is Some {
        let k = first_index_of(s, pat)->0;
        assert(s.subrange(k, k + pat.len())[0] == pat[0]);
    }
}

/// Tests whether `pat` stands in `s` at index `i`.
pub fn matches_at(s: &[char], pat: &[char], i: usize) -> (b: bool)
    ensures
        b == occurs_at(s@, pat@, i as int),
{
    if pat.len() > s.len() || i > s.len() - pat.len() {
        return false;
    }
    let mut k: usize = 0;
    while k < pat.len()
        invariant
            k <= pat.len(),
            i + pat.len() <= s.len(),
            forall|j: int| 0 <= j < k ==> s@[i + j] == pat@[j],
        decreases pat.len() - k,
    {
        if s[i + k] != pat[k] {
            assert(s@.subrange(i as int, i + pat.len())[k as int] != pat@[k as int]);
            return false;
        }
        k += 1;
    }
    assert(s@.subrange(i as int, i + pat.len()) =~= pat@);
    true
}

/// The first index at which `pat` stands in `s`.
pub fn find(s: &[char], pat: &[char]) -> (r: Option<usize>)
    ensures
        match r {
            Some(i) => first_index_of(s@, pat@) == Some(i as int),
            None => first_index_of(s@, pat@) is None,
        },
{
    if pat.len() > s.len() {
        return None;
    }
    let last: usize = s.len() - pat.len();
    let mut i: usize = 0;
    while i < last
        invariant
            last == s.len() - pat.len(),
            i <= last,
            first_index_of(s@, pat@) == first_index_from(s@, pat@, i as int),
        decreases last - i,
    {
        if matches_at(s, pat, i) {
            return Some(i);
        }
        i += 1;
    }
    if matches_at(s, pat, last) {
        Some(last)
    } else {
        assert(first_index_from(s@, pat@, last + 1) is None);
        None
    }
}

/// The first index at which the character `c` stands in `s`.
pub fn find_char(s: &[char], c: char) -> (r: Option<usize>)
    ensures
        match r {
            Some(i) => first_index_of(s@, seq![c]) == Some(i as int),
            None => first_index_of(s@, seq![c]) is None,
        },
{
    let mut i: usize = 0;
    while i < s.len()
        invariant
            i <= s.len(),
            first_index_of(s@, seq![c]) == first_index_from(s@, seq![c], i as int),
        decreases s.len() - i,
    {
        if s[i] == c {
            assert(s@.subrange(i as int, i + 1) =~= seq![c]);
            return Some(i);
        }
        assert(s@.subrange(i as int, i + 1)[0] != seq![c][0]);
        i += 1;
    }
    None
}

/// The first index at which the characters `a` and `b` stand in `s`, one
/// after the other.
pub fn find_pair(s: &[char], a: char, b: char) -> (r: Option<usize>)
    ensures
        match r {
            Some(i) => first_index_of(s@, seq![a, b]) == Some(i as int),
            None => first_index_of(s@, seq![a, b]) is None,
        },
{
    let mut pat: Vec<char> = Vec::new();
    pat.push(a);
    pat.push(b);
    assert(pat@ =~= seq![a, b]);
    find(s, pat.as_slice())
}

/// Tests whether two texts hold the same characters.
pub fn same_text(a: &[char], b: &[char]) -> (r: bool)
    ensures
        r == (a@ == b@),
{
    if a.len() != b.len() {
        return false;
    }
    let r = matches_at(a, b, 0);
    assert(a@.subrange(0, b@.len() as int) =~= a@);
    r
}

/// Tests whether the text `a` is the string `b`.
pub fn is_text(a: &[char], b: &str) -> (r: bool)
    ensures
        r == (a@ == b@),
{
    let chars = str_to_chars(b);
    same_text(a, chars.as_slice())
}

/// The lower-case letter for an upper-case letter of the alphabet of 26, and
/// any other character as it is.
pub open spec fn lowered(c: char) -> char {
    if 'A' <= c <= 'Z' {
        ((c as u32 + 32) as u8) as char
    } else {
        c
    }
}

/// Whether two texts are the same but for the case of their letters.
pub open spec fn same_but_case(a: Seq<char>, b: Seq<char>) -> bool {
    a.len() == b.len() && forall|i: int| 0 <= i < a.len() ==> lowered(a[i]) == lowered(b[i])
}

/// The lower-case letter for an upper-case letter.
pub fn lower(c: char) -> (r: char)
    ensures
        r == lowered(c),
{
    if 'A' <= c && c <= 'Z' {
        ((c as u32 + 32) as u8) as char
    } else {
        c
    }
}

/// Tests whether the text `a` is the word `word` but for the case of its
/// letters.
#[verifier::loop_isolation(false)]
pub fn is_word(a: &[char], word: &str) -> (r: bool)
    ensures
        r == same_but_case(a@, word@),
{
    let b = str_to_chars(word);
    if a.len() != b.len() {
        return false;
    }
    let mut i: usize = 0;
    while i < a.len()
        invariant
            i <= a@.len(),
            a@.len() == b@.len(),
            forall|k: int| 0 <= k < i ==> lowered(a@[k]) == lowered(b@[k]),
        decreases a@.len() - i,
    {
        if lower(a[i]) != lower(b[i]) {
            return false;
        }
        i += 1;
    }
    true
}

/// Tests whether `s` begins with `pat`.
pub fn has_prefix(s: &[char], pat: &[char]) -> (r: bool)
    ensures
        r == starts_with(s@, pat@),
{
    matches_at(s, pat, 0)
}

/// Tests whether `s` ends with `pat`.
pub fn has_suffix(s: &[char], pat: &[char]) -> (r: bool)
    ensures
        r == ends_with(s@, pat@),
{
    if pat.len() > s.len() {
        return false;
    }
    matches_at(s, pat, s.len() - pat.len())
}

/// Tests whether `pat` stands somewhere in `s`.
pub fn has_text(s: &[char], pat: &[char]) -> (r: bool)
    ensures
        r == contains_text(s@, pat@),
{
    proof {
        lemma_first_index_of(s@, pat@);
    }
    find(s, pat).is_some()
}

/// The parts of `s[start..]` that the separators from index `i` on delimit.
pub open spec fn split_from(s: Seq<char>, sep: char, start: int, i: int) -> Seq<Seq<char>>
    decreases s.len() - i,
{
    if i >= s.len() {
        seq![s.subrange(start, s.len() as int)]
    } else if s[i] == sep {
        seq![s.subrange(start, i)] + split_from(s, sep, i + 1, i + 1)
    } else {
        split_from(s, sep, start, i + 1)
    }
}

/// The parts of `s` between the occurrences of `sep`, as `str::split` gives
/// them: one more part than there are separators.
pub open spec fn split(s: Seq<char>, sep: char) -> Seq<Seq<char>> {
    split_from(s, sep, 0, 0)
}

/// Splits `s` at every occurrence of `sep`.
pub fn split_at_char<'a>(s: &'a [char], sep: char) -> (parts: Vec<&'a [char]>)
    ensures
        parts.len() == split(s@, sep).len(),
        forall|k: int| 0 <= k < parts.len() ==> (#[trigger] parts[k])@ == split(s@, sep)[k],
{
    let mut parts: Vec<&'a [char]> = Vec::new();
    let mut start: usize = 0;
    let mut i: usize = 0;
    let ghost mut done: Seq<Seq<char>> = Seq::empty();
    while i < s.len()
        invariant
            start <= i <= s.len(),
            done.len() == parts.len(),
            forall|k: int| 0 <= k < parts.len() ==> (#[trigger] parts[k])@ == done[k],
            done + split_from(s@, sep, start as int, i as int) == split(s@, sep),
        decreases s.len() - i,
    {
        if s[i] == sep {
            let part = slice_subrange(s, start, i);
            proof {
                let rest = split_from(s@, sep, i + 1, i + 1);
                assert(done.push(part@) + rest =~= done + (seq![part@] + rest));
                done = done.push(part@);
            }
            parts.push(part);
            start = i + 1;
        }
        i += 1;
    }
    let part = slice_subrange(s, start, s.len());
    proof {
        assert(done.push(part@) =~= done + seq![part@]);
        done = done.push(part@);
    }
    parts.push(part);
    parts
}

} // verus!
