use vstd::prelude::*;

verus! {

// ---------------------------------------------------------------------------
// Character classes
// ---------------------------------------------------------------------------

/// The Unicode `White_Space` property, which is what `char::is_whitespace`
/// tests: U+0009..=U+000D, U+0020, U+0085, U+00A0, U+1680, U+2000..=U+200A,
/// U+2028, U+2029, U+202F, U+205F and U+3000.
pub open spec fn is_white_space(c: char) -> bool {
    let u = c as u32;
    ||| 0x09 <= u <= 0x0d
    ||| u == 0x20
    ||| u == 0x85
    ||| u == 0xa0
    ||| u == 0x1680
    ||| 0x2000 <= u <= 0x200a
    ||| u == 0x2028
    ||| u == 0x2029
    ||| u == 0x202f
    ||| u == 0x205f
    ||| u == 0x3000
}

/// `'0'..='9'`, what `char::is_ascii_digit` tests.
pub open spec fn is_ascii_digit(c: char) -> bool {
    '0' <= c <= '9'
}

/// The characters that count as mathematical symbols: arithmetic and
/// comparison operators, brackets, `^`, roots, and
/// U+2211 (n-ary sum), U+220F (n-ary product), U+222B (integral),
/// U+2202 (partial differential), U+221E (infinity), U+03C0 (pi),
/// U+0394 (capital delta).
pub open spec fn is_math_symbol_spec(c: char) -> bool {
    let u = c as u32;
    ||| is_math_operator_spec(c)
    ||| c == '(' || c == ')' || c == '[' || c == ']' || c == '{' || c == '}'
    ||| c == '^'
    ||| u == 0x221a || u == 0x221b || u == 0x221c
    ||| u == 0x2211 || u == 0x220f || u == 0x222b || u == 0x2202 || u == 0x221e
    ||| u == 0x03c0 || u == 0x0394
}

/// The arithmetic and comparison operators: `+ - * / =`, U+00B1 (plus-minus),
/// U+00D7 (times), U+00F7 (division sign), `< >`, U+2264 (at most),
/// U+2265 (at least) and U+2260 (not equal).
pub open spec fn is_math_operator_spec(c: char) -> bool {
    let u = c as u32;
    ||| c == '+' || c == '-' || c == '*' || c == '/' || c == '='
    ||| u == 0xb1 || u == 0xd7 || u == 0xf7
    ||| c == '<' || c == '>'
    ||| u == 0x2264 || u == 0x2265 || u == 0x2260
}

/// Every character that marks text as mathematical, listed one by one:
/// `+ - * / =`, plus-minus, times, division sign, `< >`, at most, at least,
/// not equal, `( ) [ ] { }`, `^`, square, cube and fourth root, n-ary sum,
/// n-ary product, integral, partial differential, infinity, pi, capital delta.
pub open spec fn math_characters() -> Set<char> {
    set![
        '+', '-', '*', '/', '=', '\u{b1}', '\u{d7}', '\u{f7}',
        '<', '>', '\u{2264}', '\u{2265}', '\u{2260}',
        '(', ')', '[', ']', '{', '}',
        '^', '\u{221a}', '\u{221b}', '\u{221c}',
        '\u{2211}', '\u{220f}', '\u{222b}', '\u{2202}', '\u{221e}', '\u{3c0}', '\u{394}',
    ]
}

/// A character counts as a mathematical symbol or operator exactly when it is
/// one of `math_characters()`.
pub proof fn lemma_math_symbol_characters(c: char)
    ensures
        (is_math_symbol_spec(c) || is_math_operator_spec(c)) == math_characters().contains(c),
{
    let u = c as u32;
    assert(('\u{b1}' as u32) == 0xb1 && ('\u{d7}' as u32) == 0xd7 && ('\u{f7}' as u32) == 0xf7);
    assert(('\u{2264}' as u32) == 0x2264 && ('\u{2265}' as u32) == 0x2265 && ('\u{2260}' as u32)
        == 0x2260);
    assert(('\u{221a}' as u32) == 0x221a && ('\u{221b}' as u32) == 0x221b && ('\u{221c}' as u32)
        == 0x221c);
    assert(('\u{2211}' as u32) == 0x2211 && ('\u{220f}' as u32) == 0x220f && ('\u{222b}' as u32)
        == 0x222b);
    assert(('\u{2202}' as u32) == 0x2202 && ('\u{221e}' as u32) == 0x221e && ('\u{3c0}' as u32)
        == 0x3c0 && ('\u{394}' as u32) == 0x394);
}

/// Text holds a mathematical symbol exactly when one of its characters is one
/// of `math_characters()`.
pub proof fn lemma_has_math_symbol_iff(s: Seq<char>)
    ensures
        has_math_symbol(s) <==> exists|i: int| 0 <= i < s.len() && math_characters().contains(#[trigger] s[i]),
{
    assert forall|i: int| 0 <= i < s.len() implies (is_math_symbol_spec(#[trigger] s[i])
        || is_math_operator_spec(s[i])) == math_characters().contains(s[i]) by {
        lemma_math_symbol_characters(s[i]);
    }
}

pub(crate) fn is_whitespace(c: char) -> (r: bool)
    ensures
        r == is_white_space(c),
{
    let u = c as u32;
    (0x09 <= u && u <= 0x0d) || u == 0x20 || u == 0x85 || u == 0xa0 || u == 0x1680 || (0x2000
        <= u && u <= 0x200a) || u == 0x2028 || u == 0x2029 || u == 0x202f || u == 0x205f || u
        == 0x3000
}

pub(crate) fn is_digit(c: char) -> (r: bool)
    ensures
        r == is_ascii_digit(c),
{
    '0' <= c && c <= '9'
}

pub(crate) fn is_math_symbol(c: char) -> (r: bool)
    ensures
        r == is_math_symbol_spec(c),
{
    let u = c as u32;
    is_math_operator(c) || c == '(' || c == ')' || c == '[' || c == ']' || c == '{' || c == '}'
        || c == '^' || u == 0x221a || u == 0x221b || u == 0x221c || u == 0x2211 || u == 0x220f
        || u == 0x222b || u == 0x2202 || u == 0x221e || u == 0x03c0 || u == 0x0394
}

pub(crate) fn is_math_operator(c: char) -> (r: bool)
    ensures
        r == is_math_operator_spec(c),
{
    let u = c as u32;
    c == '+' || c == '-' || c == '*' || c == '/' || c == '=' || u == 0xb1 || u == 0xd7 || u
        == 0xf7 || c == '<' || c == '>' || u == 0x2264 || u == 0x2265 || u == 0x2260
}

// ---------------------------------------------------------------------------
// Strings as character sequences
// ---------------------------------------------------------------------------

proof fn lemma_utf8_at_least_chars(s: Seq<char>)
    ensures
        vstd::utf8::encode_utf8(s).len() >= s.len(),
    decreases s.len(),
{
    if s.len() > 0 {
        lemma_utf8_at_least_chars(s.drop_first());
    }
}

/// A string has no more characters than bytes, so its character count is a
/// `usize`.
fn char_count_fits(s: &str)
    ensures
        s@.len() <= usize::MAX,
{
    let bytes = s.as_bytes();
    proof {
        lemma_utf8_at_least_chars(s@);
        assert(vstd::slice::spec_slice_len(bytes) == bytes@.len());
    }
}

/// The characters of `s`, one per element.
pub(crate) fn chars_of(s: &str) -> (v: Vec<char>)
    ensures
        v@ == s@,
{
    let mut v: Vec<char> = Vec::new();
    for c in it: s.chars()
        invariant
            it.seq() == s@,
            v@ == s@.take(it.index()),
    {
        v.push(c);
    }
    v
}

/// Number of characters of `s` (`s.chars().count()`).
pub(crate) fn char_count(s: &str) -> (n: usize)
    ensures
        n == s@.len(),
{
    char_count_fits(s);
    let mut n: usize = 0;
    for _c in it: s.chars()
        invariant
            it.seq() == s@,
            n == it.index(),
            s@.len() <= usize::MAX,
    {
        n = n + 1;
    }
    n
}

/// `s` with its leading white space removed.
pub open spec fn trim_start(s: Seq<char>) -> Seq<char>
    decreases s.len(),
{
    if s.len() > 0 && is_white_space(s[0]) {
        trim_start(s.drop_first())
    } else {
        s
    }
}

/// `s` with its trailing white space removed.
pub open spec fn trim_end(s: Seq<char>) -> Seq<char>
    decreases s.len(),
{
    if s.len() > 0 && is_white_space(s.last()) {
        trim_end(s.drop_last())
    } else {
        s
    }
}

/// `str::trim`: `s` without leading and trailing white space.
pub open spec fn trim(s: Seq<char>) -> Seq<char> {
    trim_end(trim_start(s))
}

/// Number of ASCII digits in `s`.
pub open spec fn digit_count(s: Seq<char>) -> nat
    decreases s.len(),
{
    if s.len() == 0 {
        0
    } else {
        digit_count(s.drop_last()) + if is_ascii_digit(s.last()) {
            1nat
        } else {
            0nat
        }
    }
}

/// Number of characters of `s` that are not white space.
pub open spec fn non_space_count(s: Seq<char>) -> nat
    decreases s.len(),
{
    if s.len() == 0 {
        0
    } else {
        non_space_count(s.drop_last()) + if is_white_space(s.last()) {
            0nat
        } else {
            1nat
        }
    }
}

/// Whether more than half of the non-blank characters of the trimmed text are
/// ASCII digits (text that is blank after trimming is not).
pub open spec fn mostly_numeric(s: Seq<char>) -> bool {
    let t = trim(s);
    t.len() > 0 && 2 * digit_count(t) > non_space_count(t)
}

proof fn lemma_trim_start_at(s: Seq<char>, k: int)
    requires
        0 <= k <= s.len(),
        forall|i: int| 0 <= i < k ==> is_white_space(#[trigger] s[i]),
        k < s.len() ==> !is_white_space(s[k]),
    ensures
        trim_start(s) == s.subrange(k, s.len() as int),
    decreases k,
{
    if k == 0 {
        assert(s.subrange(0, s.len() as int) =~= s);
    } else {
        let t = s.drop_first();
        assert forall|i: int| 0 <= i < k - 1 implies is_white_space(#[trigger] t[i]) by {
            assert(t[i] == s[i + 1]);
        }
        lemma_trim_start_at(t, k - 1);
        assert(t.subrange(k - 1, t.len() as int) =~= s.subrange(k, s.len() as int));
    }
}

proof fn lemma_trim_end_at(s: Seq<char>, k: int)
    requires
        0 <= k <= s.len(),
        forall|i: int| k <= i < s.len() ==> is_white_space(#[trigger] s[i]),
        k > 0 ==> !is_white_space(s[k - 1]),
    ensures
        trim_end(s) == s.subrange(0, k),
    decreases s.len() - k,
{
    if k == s.len() {
        assert(s.subrange(0, k) =~= s);
    } else {
        let t = s.drop_last();
        assert forall|i: int| k <= i < t.len() implies is_white_space(#[trigger] t[i]) by {
            assert(t[i] == s[i]);
        }
        lemma_trim_end_at(t, k);
        assert(t.subrange(0, k) =~= s.subrange(0, k));
    }
}

proof fn lemma_counts_push(s: Seq<char>, c: char)
    ensures
        digit_count(s.push(c)) == digit_count(s) + if is_ascii_digit(c) {
            1nat
        } else {
            0nat
        },
        non_space_count(s.push(c)) == non_space_count(s) + if is_white_space(c) {
            0nat
        } else {
            1nat
        },
{
    assert(s.push(c).drop_last() =~= s);
}

proof fn lemma_counts_bounded(s: Seq<char>)
    ensures
        digit_count(s) <= non_space_count(s),
        non_space_count(s) <= s.len(),
    decreases s.len(),
{
    if s.len() > 0 {
        lemma_counts_bounded(s.drop_last());
    }
}

/// Whether more than half of the non-blank characters of `s` (trimmed) are
/// ASCII digits.
pub(crate) fn is_mostly_numeric(s: String) -> (r: bool)
    ensures
        r == mostly_numeric(s@),
{
    let v = chars_of(s.as_str());
    let n = v.len();
    let mut start: usize = 0;
    while start < n && is_whitespace(v[start])
        invariant
            n == v@.len(),
            start <= n,
            forall|i: int| 0 <= i < start ==> is_white_space(#[trigger] v@[i]),
        decreases n - start,
    {
        start = start + 1;
    }
    let mut end: usize = n;
    while end > start && is_whitespace(v[end - 1])
        invariant
            n == v@.len(),
            start <= end <= n,
            forall|i: int| end <= i < n ==> is_white_space(#[trigger] v@[i]),
        decreases end - start,
    {
        end = end - 1;
    }
    let ghost front = v@.subrange(start as int, n as int);
    proof {
        lemma_trim_start_at(v@, start as int);
        if start < n {
            assert forall|i: int| end - start <= i < front.len() implies is_white_space(
                #[trigger] front[i],
            ) by {
                assert(front[i] == v@[start + i]);
            }
            lemma_trim_end_at(front, end - start);
        } else {
            lemma_trim_end_at(front, 0);
        }
        assert(front.subrange(0, end - start) =~= v@.subrange(start as int, end as int));
    }
    if start == end {
        return false;
    }
    let mut digits: usize = 0;
    let mut total: usize = 0;
    let mut i: usize = start;
    while i < end
        invariant
            n == v@.len(),
            start <= i <= end <= n,
            digits == digit_count(v@.subrange(start as int, i as int)),
            total == non_space_count(v@.subrange(start as int, i as int)),
        decreases end - i,
    {
        proof {
            assert(v@.subrange(start as int, i + 1) =~= v@.subrange(start as int, i as int).push(
                v@[i as int],
            ));
            lemma_counts_push(v@.subrange(start as int, i as int), v@[i as int]);
            lemma_counts_bounded(v@.subrange(start as int, i as int));
        }
        if is_digit(v[i]) {
            digits = digits + 1;
        }
        if !is_whitespace(v[i]) {
            total = total + 1;
        }
        i = i + 1;
    }
    proof {
        lemma_counts_bounded(v@.subrange(start as int, end as int));
    }
    digits > total - digits
}

/// Whether some character of `s` is a mathematical symbol or operator.
pub open spec fn has_math_symbol(s: Seq<char>) -> bool {
    exists|i: int| 0 <= i < s.len() && (is_math_symbol_spec(s[i]) || is_math_operator_spec(s[i]))
}

pub(crate) fn contains_math_symbols(s: String) -> (r: bool)
    ensures
        r == has_math_symbol(s@),
{
    let v = chars_of(s.as_str());
    let mut i: usize = 0;
    while i < v.len()
        invariant
            v@ == s@,
            i <= v@.len(),
            forall|j: int|
                0 <= j < i ==> !(is_math_symbol_spec(#[trigger] v@[j]) || is_math_operator_spec(
                    v@[j],
                )),
        decreases v@.len() - i,
    {
        if is_math_symbol(v[i]) || is_math_operator(v[i]) {
            return true;
        }
        i = i + 1;
    }
    false
}

} // verus!
