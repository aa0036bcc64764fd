use vstd::prelude::*;

use crate::format::{line_views, paragraph_views, Line, LineView, Paragraph, ParagraphView};
use crate::text::{
    char_count, chars_of, contains_math_symbols, has_math_symbol, is_mostly_numeric,
    lemma_has_math_symbol_iff, math_characters, mostly_numeric,
};

verus! {

/// Heuristics that drop recognition noise before layout (`front_filter`) and
/// cut trailing formula material after it (`back_filter`).
pub struct Filter {}

// ---------------------------------------------------------------------------
// Per-line measures
// ---------------------------------------------------------------------------

/// Fewer than three characters.
pub open spec fn is_short_spec(s: Seq<char>) -> bool {
    s.len() < 3
}

/// Non-empty and without a space character.
pub open spec fn is_single_word_spec(s: Seq<char>) -> bool {
    s.len() > 0 && !s.contains(' ')
}

/// `char_width` divides by the character count taken `as u32`; that divisor is
/// zero only for the empty text or a count that is a multiple of 2^32.
pub open spec fn char_width_defined(s: Seq<char>) -> bool {
    s.len() == 0 || (s.len() as u32) != 0
}

/// Width per character: `total_width / (count as u32)`, and 0 for no characters.
pub open spec fn char_width_spec(s: Seq<char>, total_width: u32) -> u32 {
    if s.len() == 0 {
        0
    } else {
        total_width / (s.len() as u32)
    }
}

pub open spec fn line_char_width(l: LineView) -> u32 {
    char_width_spec(l.text, l.bbox.width)
}

/// Sum of the per-character widths of the lines.
pub open spec fn width_sum(lines: Seq<LineView>) -> nat
    decreases lines.len(),
{
    if lines.len() == 0 {
        0
    } else {
        width_sum(lines.drop_last()) + line_char_width(lines.last()) as nat
    }
}

/// No panic in `avg_char_width`: the lines are not empty (nor a multiple of
/// 2^32 many), each width is defined, and the running `u32` sum does not
/// overflow.
pub open spec fn avg_char_width_defined(lines: Seq<LineView>) -> bool {
    &&& (lines.len() as u32) != 0
    &&& forall|i: int| 0 <= i < lines.len() ==> char_width_defined(#[trigger] lines[i].text)
    &&& width_sum(lines) <= u32::MAX
}

/// The mean per-character width, in integer division.
pub open spec fn avg_char_width_spec(lines: Seq<LineView>) -> u32 {
    (width_sum(lines) as u32) / (lines.len() as u32)
}

/// A line survives `front_filter` against the average width `avg`: it is not
/// short, not mostly digits, and its characters are not more than two units
/// narrower than the average.
pub open spec fn keeps_line(l: LineView, avg: u32) -> bool {
    &&& !is_short_spec(l.text)
    &&& !mostly_numeric(l.text)
    &&& line_char_width(l) + 2 >= avg
}

/// The lines that survive, in input order.
pub open spec fn kept_lines(lines: Seq<LineView>, avg: u32) -> Seq<LineView> {
    lines.filter(|l: LineView| keeps_line(l, avg))
}

proof fn lemma_kept_lines_step(s: Seq<LineView>, avg: u32)
    requires
        s.len() > 0,
    ensures
        kept_lines(s, avg) == if keeps_line(s.last(), avg) {
            kept_lines(s.drop_last(), avg).push(s.last())
        } else {
            kept_lines(s.drop_last(), avg)
        },
{
    let f = |l: LineView| keeps_line(l, avg);
    reveal_with_fuel(Seq::<LineView>::filter, 1);
    assert(s.filter(f) == if f(s.last()) {
        s.drop_last().filter(f).push(s.last())
    } else {
        s.drop_last().filter(f)
    });
}

/// What `front_filter` returns.
pub open spec fn front_filter_spec(lines: Seq<LineView>) -> Seq<LineView> {
    kept_lines(lines, avg_char_width_spec(lines))
}

/// No panic in `front_filter`: the average is defined, and `width + 2` does not
/// overflow for a line that reaches that comparison.
pub open spec fn front_filter_defined(lines: Seq<LineView>) -> bool {
    &&& avg_char_width_defined(lines)
    &&& forall|i: int|
        0 <= i < lines.len() && !is_short_spec(#[trigger] lines[i].text) && !mostly_numeric(
            lines[i].text,
        ) ==> line_char_width(lines[i]) + 2 <= u32::MAX
}

// ---------------------------------------------------------------------------
// Trailing formula material
// ---------------------------------------------------------------------------

/// A paragraph of one line holding a mathematical symbol.
pub open spec fn is_formula_line(p: ParagraphView) -> bool {
    p.lines.len() == 1 && has_math_symbol(p.text)
}

/// The number of paragraphs before the first formula line.
pub open spec fn body_len(ps: Seq<ParagraphView>) -> nat
    decreases ps.len(),
{
    if ps.len() == 0 {
        0
    } else if is_formula_line(ps[0]) {
        0
    } else {
        1 + body_len(ps.drop_first())
    }
}

/// The paragraphs before the first formula line: what `back_filter` returns.
pub open spec fn body_prefix(ps: Seq<ParagraphView>) -> Seq<ParagraphView> {
    ps.take(body_len(ps) as int)
}

proof fn lemma_body_len_at(ps: Seq<ParagraphView>, k: int)
    requires
        0 <= k <= ps.len(),
        forall|j: int| 0 <= j < k ==> !is_formula_line(#[trigger] ps[j]),
        k < ps.len() ==> is_formula_line(ps[k]),
    ensures
        body_len(ps) == k,
    decreases k,
{
    if k > 0 {
        let t = ps.drop_first();
        assert forall|j: int| 0 <= j < k - 1 implies !is_formula_line(#[trigger] t[j]) by {
            assert(t[j] == ps[j + 1]);
        }
        lemma_body_len_at(t, k - 1);
    }
}

proof fn lemma_body_len_bound(ps: Seq<ParagraphView>)
    ensures
        body_len(ps) <= ps.len(),
    decreases ps.len(),
{
    if ps.len() > 0 {
        lemma_body_len_bound(ps.drop_first());
    }
}

/// `back_filter` keeps a prefix: no kept paragraph is a formula line, and the
/// first paragraph dropped, if any, is one.
pub proof fn lemma_body_prefix_shape(ps: Seq<ParagraphView>)
    ensures
        body_prefix(ps).is_prefix_of(ps),
        body_prefix(ps).len() == body_len(ps),
        forall|j: int| 0 <= j < body_len(ps) ==> !is_formula_line(#[trigger] ps[j]),
        body_len(ps) < ps.len() ==> is_formula_line(ps[body_len(ps) as int]),
    decreases ps.len(),
{
    lemma_body_len_bound(ps);
    if ps.len() > 0 && !is_formula_line(ps[0]) {
        let t = ps.drop_first();
        lemma_body_prefix_shape(t);
        assert forall|j: int| 0 <= j < body_len(ps) implies !is_formula_line(#[trigger] ps[j]) by {
            if j > 0 {
                assert(ps[j] == t[j - 1]);
            }
        }
        if body_len(ps) < ps.len() {
            assert(ps[body_len(ps) as int] == t[body_len(t) as int]);
        }
    }
}

/// `back_filter`'s cut in terms of characters: the paragraphs it keeps are
/// those before the first paragraph of exactly one line holding one of
/// `math_characters()`; such a paragraph at position `k` means at most `k` are
/// kept.
pub proof fn lemma_body_prefix_math_characters(ps: Seq<ParagraphView>)
    ensures
        forall|k: int, i: int|
            0 <= k < ps.len() && ps[k].lines.len() == 1 && 0 <= i < ps[k].text.len()
                && math_characters().contains(#[trigger] ps[k].text[i]) ==> body_prefix(ps).len()
                <= k,
        forall|j: int|
            0 <= j < body_prefix(ps).len() ==> (#[trigger] ps[j]).lines.len() != 1 || forall|i: int|
                0 <= i < ps[j].text.len() ==> !math_characters().contains(ps[j].text[i]),
        body_prefix(ps).len() < ps.len() ==> {
            let p = ps[body_prefix(ps).len() as int];
            p.lines.len() == 1 && exists|i: int| 0 <= i < p.text.len() && math_characters().contains(p.text[i])
        },
{
    lemma_body_prefix_shape(ps);
    assert forall|k: int, i: int|
        0 <= k < ps.len() && ps[k].lines.len() == 1 && 0 <= i < ps[k].text.len()
            && math_characters().contains(#[trigger] ps[k].text[i]) implies body_prefix(ps).len()
            <= k by {
        lemma_has_math_symbol_iff(ps[k].text);
        assert(is_formula_line(ps[k]));
    }
    assert forall|j: int| 0 <= j < body_prefix(ps).len() implies (#[trigger] ps[j]).lines.len() != 1
        || forall|i: int|
        0 <= i < ps[j].text.len() ==> !math_characters().contains(ps[j].text[i]) by {
        lemma_has_math_symbol_iff(ps[j].text);
        assert(!is_formula_line(ps[j]));
    }
    if body_prefix(ps).len() < ps.len() {
        lemma_has_math_symbol_iff(ps[body_prefix(ps).len() as int].text);
    }
}

/// Cutting trailing formula material twice is the same as cutting it once.
pub proof fn lemma_body_prefix_idempotent(ps: Seq<ParagraphView>)
    ensures
        body_prefix(body_prefix(ps)) == body_prefix(ps),
{
    lemma_body_prefix_shape(ps);
    let t = body_prefix(ps);
    assert(t.len() == body_len(ps));
    assert forall|j: int| 0 <= j < t.len() implies !is_formula_line(#[trigger] t[j]) by {
        assert(t[j] == ps[j]);
    }
    lemma_body_len_at(t, t.len() as int);
    assert(t.take(t.len() as int) =~= t);
}

/// Every line `front_filter` keeps passes the test against the average and
/// comes from the input; at most all of them are kept.
pub proof fn lemma_kept_lines_sound(lines: Seq<LineView>, avg: u32)
    ensures
        kept_lines(lines, avg).len() <= lines.len(),
        forall|j: int|
            0 <= j < kept_lines(lines, avg).len() ==> keeps_line(
                #[trigger] kept_lines(lines, avg)[j],
                avg,
            ) && lines.contains(kept_lines(lines, avg)[j]),
    decreases lines.len(),
{
    if lines.len() > 0 {
        let init = lines.drop_last();
        lemma_kept_lines_sound(init, avg);
        lemma_kept_lines_step(lines, avg);
        let k = kept_lines(lines, avg);
        assert forall|j: int| 0 <= j < k.len() implies keeps_line(#[trigger] k[j], avg)
            && lines.contains(k[j]) by {
            if j < kept_lines(init, avg).len() {
                let w = choose|w: int| 0 <= w < init.len() && init[w] == k[j];
                assert(lines[w] == k[j]);
            } else {
                assert(lines[lines.len() - 1] == k[j]);
            }
        }
    }
}

proof fn lemma_width_sum_remove(s: Seq<LineView>, i: int)
    requires
        0 <= i < s.len(),
    ensures
        width_sum(s) == width_sum(s.remove(i)) + line_char_width(s[i]),
    decreases s.len(),
{
    if i == s.len() - 1 {
        assert(s.remove(i) =~= s.drop_last());
    } else {
        lemma_width_sum_remove(s.drop_last(), i);
        assert(s.remove(i).drop_last() =~= s.drop_last().remove(i));
        assert(s.remove(i).last() == s.last());
    }
}

/// The sum of per-character widths does not depend on the order of the lines.
proof fn lemma_width_sum_permutation(s: Seq<LineView>, t: Seq<LineView>)
    requires
        s.to_multiset() == t.to_multiset(),
    ensures
        width_sum(s) == width_sum(t),
    decreases s.len(),
{
    broadcast use vstd::seq_lib::group_seq_properties, vstd::multiset::group_multiset_axioms;

    s.to_multiset_ensures();
    t.to_multiset_ensures();
    if s.len() > 0 {
        let x = s.last();
        let init = s.drop_last();
        assert(init.push(x) =~= s);
        init.to_multiset_ensures();
        assert(t.to_multiset().count(x) > 0);
        assert(t.contains(x));
        let i = choose|i: int| 0 <= i < t.len() && t[i] == x;
        let u = t.remove(i);
        assert(u.to_multiset() =~= init.to_multiset());
        lemma_width_sum_permutation(init, u);
        lemma_width_sum_remove(t, i);
    }
}

/// The keep/drop decision of `front_filter` on a line does not depend on the
/// order of the lines: for any reordering `t` of `s`, the average width is the
/// same, each line is kept or dropped alike, `front_filter` on `t` is `t`
/// with the lines that `s` drops removed, and it is defined on `t` exactly
/// when it is on `s`.
pub proof fn lemma_front_filter_order_independent(s: Seq<LineView>, t: Seq<LineView>)
    requires
        s.to_multiset() == t.to_multiset(),
    ensures
        avg_char_width_spec(t) == avg_char_width_spec(s),
        forall|l: LineView|
            keeps_line(l, avg_char_width_spec(t)) == keeps_line(l, avg_char_width_spec(s)),
        front_filter_spec(t) == kept_lines(t, avg_char_width_spec(s)),
        front_filter_defined(t) == front_filter_defined(s),
{
    broadcast use vstd::seq_lib::group_seq_properties, vstd::multiset::group_multiset_axioms;

    s.to_multiset_ensures();
    t.to_multiset_ensures();
    lemma_width_sum_permutation(s, t);
    assert(s.len() == t.len());
    assert forall|i: int| 0 <= i < s.len() implies t.contains(#[trigger] s[i]) by {
        assert(s.contains(s[i]));
        assert(s.to_multiset().count(s[i]) > 0);
    }
    assert forall|i: int| 0 <= i < t.len() implies s.contains(#[trigger] t[i]) by {
        assert(t.contains(t[i]));
        assert(t.to_multiset().count(t[i]) > 0);
    }
    if front_filter_defined(s) {
        assert forall|i: int| 0 <= i < t.len() implies char_width_defined(#[trigger] t[i].text) by {
            let j = choose|j: int| 0 <= j < s.len() && s[j] == t[i];
            assert(char_width_defined(s[j].text));
        }
        assert forall|i: int|
            0 <= i < t.len() && !is_short_spec(#[trigger] t[i].text) && !mostly_numeric(
                t[i].text,
            ) implies line_char_width(t[i]) + 2 <= u32::MAX by {
            let j = choose|j: int| 0 <= j < s.len() && s[j] == t[i];
            assert(!is_short_spec(s[j].text));
        }
    }
    if front_filter_defined(t) {
        assert forall|i: int| 0 <= i < s.len() implies char_width_defined(#[trigger] s[i].text) by {
            let j = choose|j: int| 0 <= j < t.len() && t[j] == s[i];
            assert(char_width_defined(t[j].text));
        }
        assert forall|i: int|
            0 <= i < s.len() && !is_short_spec(#[trigger] s[i].text) && !mostly_numeric(
                s[i].text,
            ) implies line_char_width(s[i]) + 2 <= u32::MAX by {
            let j = choose|j: int| 0 <= j < t.len() && t[j] == s[i];
            assert(!is_short_spec(t[j].text));
        }
    }
}

proof fn lemma_width_sum_prefix(lines: Seq<LineView>, i: int)
    requires
        0 <= i <= lines.len(),
    ensures
        width_sum(lines.take(i)) <= width_sum(lines),
    decreases lines.len() - i,
{
    if i < lines.len() {
        lemma_width_sum_prefix(lines, i + 1);
        assert(lines.take(i + 1).drop_last() =~= lines.take(i));
    } else {
        assert(lines.take(i) =~= lines);
    }
}

// ---------------------------------------------------------------------------
// Executable filters
// ---------------------------------------------------------------------------

impl Filter {
    /// Drops the lines that are short, mostly digits, or whose characters are
    /// more than two units narrower than the average over `results`.
    pub fn front_filter(&self, results: &Vec<Line>) -> (r: Vec<Line>)
        requires
            front_filter_defined(line_views(results@)),
        ensures
            line_views(r@) == front_filter_spec(line_views(results@)),
    {
        let ghost views = line_views(results@);
        let width = avg_char_width(results);
        let mut kept: Vec<Line> = Vec::new();
        let mut i: usize = 0;
        while i < results.len()
            invariant
                views == line_views(results@),
                front_filter_defined(views),
                width == avg_char_width_spec(views),
                i <= results.len(),
                line_views(kept@) == kept_lines(views.take(i as int), width),
            decreases results.len() - i,
        {
            let line = &results[i];
            proof {
                assert(views[i as int] == line@);
                assert(views.take(i + 1).drop_last() =~= views.take(i as int));
                assert(views.take(i + 1).last() == line@);
                assert(char_width_defined(views[i as int].text));
                lemma_kept_lines_step(views.take(i + 1), width);
            }
            if is_short(line.text.clone()) {
                i = i + 1;
                continue;
            }
            if is_mostly_numeric(line.text.clone()) {
                i = i + 1;
                continue;
            }
            proof {
                assert(!is_short_spec(views[i as int].text));
                assert(line_char_width(views[i as int]) + 2 <= u32::MAX);
            }
            if char_width(line.text.clone(), line.bbox.width) + 2 < width {
                i = i + 1;
                continue;
            }
            let ghost before = kept@;
            kept.push(Line { index: line.index, bbox: line.bbox, text: line.text.clone() });
            proof {
                assert(line_views(kept@) =~= line_views(before).push(line@));
            }
            i = i + 1;
        }
        proof {
            assert(views.take(i as int) =~= views);
        }
        kept
    }

    /// Keeps the paragraphs before the first one-line paragraph that holds a
    /// mathematical symbol.
    pub fn back_filter(&self, paragraphs: Vec<Paragraph>) -> (r: Vec<Paragraph>)
        ensures
            paragraph_views(r@) == body_prefix(paragraph_views(paragraphs@)),
    {
        let ghost views = paragraph_views(paragraphs@);
        let k = body_length(&paragraphs);
        proof {
            lemma_body_len_bound(views);
        }
        let mut kept = paragraphs;
        kept.truncate(k);
        proof {
            assert(paragraph_views(kept@) =~= views.take(k as int));
        }
        kept
    }
}

/// The index of the first formula line, or the count if there is none.
fn body_length(paragraphs: &Vec<Paragraph>) -> (k: usize)
    ensures
        k == body_len(paragraph_views(paragraphs@)),
{
    let ghost views = paragraph_views(paragraphs@);
    let mut k: usize = 0;
    while k < paragraphs.len()
        invariant
            views == paragraph_views(paragraphs@),
            k <= paragraphs.len(),
            forall|j: int| 0 <= j < k ==> !is_formula_line(#[trigger] views[j]),
        decreases paragraphs.len() - k,
    {
        let paragraph = &paragraphs[k];
        proof {
            assert(views[k as int] == paragraph@);
        }
        if is_single_line(paragraph) && contains_math_symbols(paragraph.text.clone()) {
            proof {
                lemma_body_len_at(views, k as int);
            }
            return k;
        }
        k = k + 1;
    }
    proof {
        lemma_body_len_at(views, k as int);
    }
    k
}

/// Whether `front_filter` runs on `lines` without a panic.
pub(crate) fn front_filter_ok(lines: &Vec<Line>) -> (b: bool)
    ensures
        b == front_filter_defined(line_views(lines@)),
{
    let ghost views = line_views(lines@);
    if lines.len() as u32 == 0 {
        return false;
    }
    let mut sum: u64 = 0;
    let mut i: usize = 0;
    while i < lines.len()
        invariant
            views == line_views(lines@),
            (lines@.len() as u32) != 0,
            i <= lines@.len(),
            sum == width_sum(views.take(i as int)),
            sum <= u32::MAX,
            forall|j: int| 0 <= j < i ==> char_width_defined(#[trigger] views[j].text),
            forall|j: int|
                0 <= j < i && !is_short_spec(#[trigger] views[j].text) && !mostly_numeric(
                    views[j].text,
                ) ==> line_char_width(views[j]) + 2 <= u32::MAX,
        decreases lines@.len() - i,
    {
        let line = &lines[i];
        proof {
            assert(views[i as int] == line@);
            assert(views.take(i + 1).drop_last() =~= views.take(i as int));
            lemma_width_sum_prefix(views, i + 1);
        }
        let n = char_count(line.text.as_str());
        if n != 0 && n as u32 == 0 {
            return false;
        }
        let width = char_width(line.text.clone(), line.bbox.width);
        if !is_short(line.text.clone()) && !is_mostly_numeric(line.text.clone()) && width > u32::MAX
            - 2 {
            return false;
        }
        let total = sum + width as u64;
        if total > u32::MAX as u64 {
            return false;
        }
        sum = total;
        i = i + 1;
    }
    proof {
        assert(views.take(i as int) =~= views);
    }
    true
}

/// Whether the paragraph consists of exactly one line.
pub fn is_single_line(paragraph: &Paragraph) -> (r: bool)
    ensures
        r == (paragraph.lines@.len() == 1),
{
    paragraph.lines.len() == 1
}

pub(crate) fn is_single_word(s: String) -> (r: bool)
    ensures
        r == is_single_word_spec(s@),
{
    let v = chars_of(s.as_str());
    if v.len() == 0 {
        return false;
    }
    let mut i: usize = 0;
    while i < v.len()
        invariant
            v@ == s@,
            i <= v@.len(),
            forall|j: int| 0 <= j < i ==> v@[j] != ' ',
        decreases v@.len() - i,
    {
        if v[i] == ' ' {
            proof {
                assert(s@.contains(' ') == (s@[i as int] == ' ') || s@.contains(' '));
            }
            return false;
        }
        i = i + 1;
    }
    true
}

pub(crate) fn is_short(s: String) -> (r: bool)
    ensures
        r == is_short_spec(s@),
{
    char_count(s.as_str()) < 3
}

pub(crate) fn char_width(s: String, total_width: u32) -> (r: u32)
    requires
        char_width_defined(s@),
    ensures
        r == char_width_spec(s@, total_width),
{
    let len = char_count(s.as_str());
    if len == 0 {
        return 0;
    }
    total_width / (len as u32)
}

pub(crate) fn avg_char_width(lines: &Vec<Line>) -> (r: u32)
    requires
        avg_char_width_defined(line_views(lines@)),
    ensures
        r == avg_char_width_spec(line_views(lines@)),
{
    let ghost views = line_views(lines@);
    let mut width: u32 = 0;
    let mut i: usize = 0;
    while i < lines.len()
        invariant
            views == line_views(lines@),
            avg_char_width_defined(views),
            i <= lines.len(),
            width == width_sum(views.take(i as int)),
        decreases lines.len() - i,
    {
        let line = &lines[i];
        proof {
            assert(views[i as int] == line@);
            assert(views.take(i + 1).drop_last() =~= views.take(i as int));
            lemma_width_sum_prefix(views, i + 1);
            assert(char_width_defined(views[i as int].text));
        }
        width = width + char_width(line.text.clone(), line.bbox.width);
        i = i + 1;
    }
    proof {
        assert(views.take(i as int) =~= views);
    }
    width / (lines.len() as u32)
}

} // verus!
