use vstd::prelude::*;
use vstd::relations::{sorted_by, total_ordering};

use crate::format::{line_views, Line, LineView};
use crate::rect::min_int;

verus! {

broadcast use vstd::seq_lib::group_seq_properties, vstd::multiset::group_multiset_axioms;

/// The order `<=` on `u32`.
pub open spec fn u32_le() -> spec_fn(u32, u32) -> bool {
    |a: u32, b: u32| a <= b
}

/// `hs` in ascending order.
pub open spec fn sorted_heights(hs: Seq<u32>) -> Seq<u32> {
    hs.sort_by(u32_le())
}

/// The heights of the lines' boxes, in order.
pub open spec fn heights_of(lines: Seq<LineView>) -> Seq<u32> {
    lines.map_values(|l: LineView| l.bbox.height)
}

/// The median of an ascending sequence: its middle element, or the mean of
/// its two middle elements rounded down.
pub open spec fn median_spec(t: Seq<u32>) -> int {
    let n = t.len() as int;
    if n % 2 == 1 {
        t[n / 2] as int
    } else {
        (t[n / 2 - 1] + t[n / 2]) / 2
    }
}

pub open spec fn clamp_spec(x: int, lo: int, hi: int) -> int {
    if x < lo {
        lo
    } else if x > hi {
        hi
    } else {
        x
    }
}

/// The font size that `estimate_font_size` gives: the median line height
/// clamped to `8..=200`, and 16 when there is no line.
pub open spec fn font_size_spec(lines: Seq<LineView>) -> u32 {
    if lines.len() == 0 {
        16
    } else {
        clamp_spec(median_spec(sorted_heights(heights_of(lines))), 8, 200) as u32
    }
}

/// No panic in `estimate_font_size`: for an even number of lines, the sum of
/// the two middle heights fits a `u32`.
pub open spec fn font_size_defined(lines: Seq<LineView>) -> bool {
    let t = sorted_heights(heights_of(lines));
    let n = t.len() as int;
    n > 0 && n % 2 == 0 ==> t[n / 2 - 1] + t[n / 2] <= u32::MAX
}

/// The heights of every fourth line, starting with the first.
pub open spec fn sampled_heights(lines: Seq<LineView>) -> Seq<u32> {
    Seq::new(((lines.len() + 3) / 4) as nat, |j: int| lines[4 * j].bbox.height)
}

/// The reference line height of a page, as an `i32`: the median of the
/// sampled heights, capped at `i32::MAX`, and 0 for no line.
pub open spec fn median_height_spec(lines: Seq<LineView>) -> i32 {
    let s = sampled_heights(lines);
    if s.len() == 0 {
        0
    } else {
        min_int(median_spec(sorted_heights(s)), i32::MAX as int) as i32
    }
}

proof fn lemma_u32_le_total()
    ensures
        total_ordering(u32_le()),
{
}

proof fn lemma_insert_multiset<A>(s: Seq<A>, p: int, x: A)
    requires
        0 <= p <= s.len(),
    ensures
        s.insert(p, x).to_multiset() =~= s.to_multiset().insert(x),
{
    let a = s.subrange(0, p);
    let b = s.subrange(p, s.len() as int);
    vstd::seq_lib::lemma_multiset_commutative(a.push(x), b);
    vstd::seq_lib::lemma_multiset_commutative(a, b);
    a.to_multiset_ensures();
    assert(s =~= a + b);
}

// ---------------------------------------------------------------------------
// Medians as order statistics
// ---------------------------------------------------------------------------

/// How many of the values are below `v`.
pub open spec fn count_below(s: Seq<u32>, v: int) -> nat
    decreases s.len(),
{
    if s.len() == 0 {
        0
    } else {
        count_below(s.drop_last(), v) + if (s.last() as int) < v {
            1nat
        } else {
            0nat
        }
    }
}

/// How many of the values are at most `v`.
pub open spec fn count_at_most(s: Seq<u32>, v: int) -> nat
    decreases s.len(),
{
    if s.len() == 0 {
        0
    } else {
        count_at_most(s.drop_last(), v) + if (s.last() as int) <= v {
            1nat
        } else {
            0nat
        }
    }
}

/// `v` is the `k`-th smallest of the values (counting from 0): at most `k`
/// values lie below it, and more than `k` lie at or below it.
pub open spec fn is_kth_smallest(s: Seq<u32>, v: int, k: int) -> bool {
    count_below(s, v) <= k < count_at_most(s, v)
}

proof fn lemma_counts_remove(s: Seq<u32>, i: int, v: int)
    requires
        0 <= i < s.len(),
    ensures
        count_below(s, v) == count_below(s.remove(i), v) + if (s[i] as int) < v {
            1nat
        } else {
            0nat
        },
        count_at_most(s, v) == count_at_most(s.remove(i), v) + if (s[i] as int) <= v {
            1nat
        } else {
            0nat
        },
    decreases s.len(),
{
    if i == s.len() - 1 {
        assert(s.remove(i) =~= s.drop_last());
    } else {
        lemma_counts_remove(s.drop_last(), i, v);
        assert(s.remove(i).drop_last() =~= s.drop_last().remove(i));
        assert(s.remove(i).last() == s.last());
    }
}

proof fn lemma_counts_permutation(s: Seq<u32>, t: Seq<u32>, v: int)
    requires
        s.to_multiset() == t.to_multiset(),
    ensures
        count_below(s, v) == count_below(t, v),
        count_at_most(s, v) == count_at_most(t, v),
    decreases s.len(),
{
    s.to_multiset_ensures();
    t.to_multiset_ensures();
    if s.len() > 0 {
        let x = s.last();
        let init = s.drop_last();
        assert(init.push(x) =~= s);
        init.to_multiset_ensures();
        assert(t.to_multiset().count(x) > 0);
        let i = choose|i: int| 0 <= i < t.len() && t[i] == x;
        let u = t.remove(i);
        assert(u.to_multiset() =~= init.to_multiset());
        lemma_counts_permutation(init, u, v);
        lemma_counts_remove(t, i, v);
    }
}

proof fn lemma_count_below_at_most_k(s: Seq<u32>, v: int, k: int)
    requires
        0 <= k <= s.len(),
        forall|j: int| k <= j < s.len() ==> (#[trigger] s[j] as int) >= v,
    ensures
        count_below(s, v) <= k,
    decreases s.len(),
{
    if s.len() > 0 {
        if k < s.len() {
            lemma_count_below_at_most_k(s.drop_last(), v, k);
        } else {
            lemma_count_below_at_most_k(s.drop_last(), v, k - 1);
        }
    }
}

proof fn lemma_count_at_most_above_k(s: Seq<u32>, v: int, k: int)
    requires
        0 <= k < s.len(),
        forall|j: int| 0 <= j <= k ==> (#[trigger] s[j] as int) <= v,
    ensures
        count_at_most(s, v) >= k + 1,
    decreases s.len(),
{
    if k < s.len() - 1 {
        lemma_count_at_most_above_k(s.drop_last(), v, k);
    } else if k > 0 {
        lemma_count_at_most_above_k(s.drop_last(), v, k - 1);
    }
}

/// The median of a non-empty sequence of heights is the mean, rounded down,
/// of its `(n - 1) / 2`-th and `n / 2`-th smallest values: for an odd count
/// the middle value, for an even count the mean of the two middle ones. It
/// depends only on how the values rank, not on their order.
pub proof fn lemma_median_order_statistics(hs: Seq<u32>)
    requires
        hs.len() > 0,
    ensures
        exists|lo: int, hi: int|
            #![trigger count_below(hs, lo), count_below(hs, hi)]
            is_kth_smallest(hs, lo, (hs.len() - 1) / 2) && is_kth_smallest(hs, hi, (hs.len() / 2) as int)
                && median_spec(sorted_heights(hs)) == (lo + hi) / 2,
{
    lemma_u32_le_total();
    hs.lemma_sort_by_ensures(u32_le());
    hs_len_preserved(hs);
    let t = sorted_heights(hs);
    let n = hs.len() as int;
    let a = (n - 1) / 2;
    let b = n / 2;
    let lo = t[a] as int;
    let hi = t[b] as int;
    assert forall|j: int| a <= j < n implies (#[trigger] t[j] as int) >= lo by {
        if a < j {
            assert((u32_le())(t[a], t[j]));
        }
    }
    assert forall|j: int| 0 <= j <= a implies (#[trigger] t[j] as int) <= lo by {
        if j < a {
            assert((u32_le())(t[j], t[a]));
        }
    }
    assert forall|j: int| b <= j < n implies (#[trigger] t[j] as int) >= hi by {
        if b < j {
            assert((u32_le())(t[b], t[j]));
        }
    }
    assert forall|j: int| 0 <= j <= b implies (#[trigger] t[j] as int) <= hi by {
        if j < b {
            assert((u32_le())(t[j], t[b]));
        }
    }
    lemma_count_below_at_most_k(t, lo, a);
    lemma_count_at_most_above_k(t, lo, a);
    lemma_count_below_at_most_k(t, hi, b);
    lemma_count_at_most_above_k(t, hi, b);
    lemma_counts_permutation(hs, t, lo);
    lemma_counts_permutation(hs, t, hi);
    assert(is_kth_smallest(hs, lo, a) && is_kth_smallest(hs, hi, b) && median_spec(t) == (lo + hi)
        / 2);
}

/// The font size of lines is their median height clamped to `8..=200`: the
/// rounded-down mean of the `(n - 1) / 2`-th and `n / 2`-th smallest heights,
/// so it lies between the two middle heights and does not depend on the order
/// of the lines nor on the smallest and largest of four or more heights.
pub proof fn lemma_font_size_is_median(lines: Seq<LineView>)
    requires
        lines.len() > 0,
    ensures
        heights_of(lines).len() == lines.len(),
        forall|i: int| 0 <= i < lines.len() ==> heights_of(lines)[i] == lines[i].bbox.height,
        exists|lo: int, hi: int|
            #![trigger count_below(heights_of(lines), lo), count_below(heights_of(lines), hi)]
            is_kth_smallest(heights_of(lines), lo, (lines.len() - 1) / 2) && is_kth_smallest(
                heights_of(lines),
                hi,
                (lines.len() / 2) as int,
            ) && font_size_spec(lines) as int == {
                let m = (lo + hi) / 2;
                if m < 8 {
                    8
                } else if m > 200 {
                    200
                } else {
                    m
                }
            },
{
    let hs = heights_of(lines);
    lemma_median_order_statistics(hs);
    let (lo, hi) = choose|lo: int, hi: int|
        #![trigger count_below(hs, lo), count_below(hs, hi)]
        is_kth_smallest(hs, lo, (hs.len() - 1) / 2) && is_kth_smallest(hs, hi, (hs.len() / 2) as int)
            && median_spec(sorted_heights(hs)) == (lo + hi) / 2;
    assert(is_kth_smallest(hs, lo, (lines.len() - 1) / 2) && is_kth_smallest(hs, hi, (lines.len() / 2) as int));
}

/// The reference height of a page is the median of the heights of every
/// fourth line, in ascending order: the rounded-down mean of their
/// `(n - 1) / 2`-th and `n / 2`-th smallest values, capped at `i32::MAX`, so
/// it does not depend on the order of the sampled heights.
pub proof fn lemma_median_height_is_median(lines: Seq<LineView>)
    requires
        lines.len() > 0,
    ensures
        sampled_heights(lines).len() == (lines.len() + 3) / 4,
        forall|j: int|
            0 <= j < sampled_heights(lines).len() ==> sampled_heights(lines)[j]
                == lines[4 * j].bbox.height,
        exists|lo: int, hi: int|
            #![trigger count_below(sampled_heights(lines), lo), count_below(sampled_heights(lines), hi)]
            is_kth_smallest(sampled_heights(lines), lo, (sampled_heights(lines).len() - 1) / 2)
                && is_kth_smallest(sampled_heights(lines), hi, (sampled_heights(lines).len() / 2) as int)
                && median_height_spec(lines) as int == if (lo + hi) / 2 > i32::MAX {
                i32::MAX as int
            } else {
                (lo + hi) / 2
            },
{
    let s = sampled_heights(lines);
    lemma_median_order_statistics(s);
}

/// Inserts `x` into the ascending `v`, keeping it ascending.
fn insert_ascending(v: &mut Vec<u32>, x: u32)
    requires
        sorted_by(old(v)@, u32_le()),
    ensures
        sorted_by(final(v)@, u32_le()),
        final(v)@.to_multiset() =~= old(v)@.to_multiset().insert(x),
{
    let mut p: usize = v.len();
    while p > 0 && v[p - 1] > x
        invariant
            p <= v@.len(),
            forall|j: int| p <= j < v@.len() ==> v@[j] > x,
        decreases p,
    {
        p = p - 1;
    }
    let ghost before = v@;
    v.insert(p, x);
    proof {
        lemma_insert_multiset(before, p as int, x);
        let after = v@;
        assert forall|i: int, j: int| 0 <= i < j < after.len() implies #[trigger] (u32_le())(
            after[i],
            after[j],
        ) by {
            assert((u32_le())(before[i], before[j - 1]) || !(0 <= i < j - 1 < before.len()));
            if i < p && j > p && p > 0 {
                assert((u32_le())(before[i], before[p - 1]) || i == p - 1);
            }
        }
    }
}

/// `hs` in ascending order (`slice::sort_unstable` on `u32`).
fn sort_ascending(hs: &Vec<u32>) -> (r: Vec<u32>)
    ensures
        r@ == sorted_heights(hs@),
{
    let mut r: Vec<u32> = Vec::new();
    let mut i: usize = 0;
    while i < hs.len()
        invariant
            i <= hs@.len(),
            sorted_by(r@, u32_le()),
            r@.to_multiset() =~= hs@.take(i as int).to_multiset(),
        decreases hs@.len() - i,
    {
        insert_ascending(&mut r, hs[i]);
        proof {
            assert(hs@.take(i + 1) =~= hs@.take(i as int).push(hs@[i as int]));
            hs@.take(i as int).to_multiset_ensures();
        }
        i = i + 1;
    }
    proof {
        assert(hs@.take(i as int) =~= hs@);
        lemma_u32_le_total();
        hs@.lemma_sort_by_ensures(u32_le());
        vstd::seq_lib::lemma_sorted_unique(r@, hs@.sort_by(u32_le()), u32_le());
    }
    r
}

/// The median of an ascending, non-empty `t`, as a `u64`.
fn median_u64(t: &Vec<u32>) -> (m: u64)
    requires
        t@.len() > 0,
    ensures
        m == median_spec(t@),
{
    let n = t.len();
    if n % 2 == 1 {
        t[n / 2] as u64
    } else {
        (t[n / 2 - 1] as u64 + t[n / 2] as u64) / 2
    }
}

/// The reference line height used to group lines: the median height of every
/// fourth line, as the `i32` that the grouping compares against (the median is
/// capped at `i32::MAX`; it is 0 when there is no line).
pub(crate) fn median_height(lines: &[Line]) -> (h: i32)
    ensures
        h == median_height_spec(line_views(lines@)),
        h >= 0,
{
    let ghost views = line_views(lines@);
    let n = lines.len();
    let count = n / 4 + if n % 4 == 0 {
        0
    } else {
        1
    };
    let mut heights: Vec<u32> = Vec::new();
    let mut j: usize = 0;
    while j < count
        invariant
            n == lines@.len(),
            views == line_views(lines@),
            count == (n + 3) / 4,
            j <= count,
            heights@ =~= sampled_heights(views).take(j as int),
        decreases count - j,
    {
        proof {
            assert(4 * j < n);
            assert(views[4 * j] == lines@[4 * j]@);
        }
        heights.push(lines[4 * j].bbox.height);
        j = j + 1;
    }
    proof {
        assert(heights@ =~= sampled_heights(views));
    }
    if heights.len() == 0 {
        return 0;
    }
    let sorted = sort_ascending(&heights);
    proof {
        hs_len_preserved(heights@);
    }
    let m = median_u64(&sorted);
    if m > i32::MAX as u64 {
        i32::MAX
    } else {
        m as i32
    }
}

proof fn hs_len_preserved(hs: Seq<u32>)
    ensures
        sorted_heights(hs).len() == hs.len(),
{
    lemma_u32_le_total();
    hs.lemma_sort_by_ensures(u32_le());
    hs.to_multiset_ensures();
    sorted_heights(hs).to_multiset_ensures();
}

/// Whether `estimate_font_size` runs on `lines` without a panic.
pub(crate) fn font_size_ok(lines: &[Line]) -> (b: bool)
    ensures
        b == font_size_defined(line_views(lines@)),
{
    let ghost views = line_views(lines@);
    let mut heights: Vec<u32> = Vec::new();
    let mut i: usize = 0;
    while i < lines.len()
        invariant
            views == line_views(lines@),
            i <= lines@.len(),
            heights@ =~= heights_of(views).take(i as int),
        decreases lines@.len() - i,
    {
        proof {
            assert(views[i as int] == lines@[i as int]@);
        }
        heights.push(lines[i].bbox.height);
        i = i + 1;
    }
    proof {
        assert(heights@ =~= heights_of(views));
    }
    let sorted = sort_ascending(&heights);
    proof {
        hs_len_preserved(heights@);
    }
    let n = sorted.len();
    if n > 0 && n % 2 == 0 {
        sorted[n / 2 - 1] as u64 + sorted[n / 2] as u64 <= u32::MAX as u64
    } else {
        true
    }
}

/// Estimates a font size from line heights: the median height clamped to
/// `8..=200`, or 16 when there is no line.
pub(crate) fn estimate_font_size(lines: &[Line]) -> (size: u32)
    requires
        font_size_defined(line_views(lines@)),
    ensures
        size == font_size_spec(line_views(lines@)),
        size == 16 || 8 <= size <= 200,
{
    let ghost views = line_views(lines@);
    if lines.len() == 0 {
        return 16;
    }
    let mut heights: Vec<u32> = Vec::new();
    let mut i: usize = 0;
    while i < lines.len()
        invariant
            views == line_views(lines@),
            i <= lines@.len(),
            heights@ =~= heights_of(views).take(i as int),
        decreases lines@.len() - i,
    {
        proof {
            assert(views[i as int] == lines@[i as int]@);
        }
        heights.push(lines[i].bbox.height);
        i = i + 1;
    }
    proof {
        assert(heights@ =~= heights_of(views));
    }
    let sorted = sort_ascending(&heights);
    proof {
        hs_len_preserved(heights@);
    }
    let n = sorted.len();
    let median = if n % 2 == 1 {
        sorted[n / 2]
    } else {
        (sorted[n / 2 - 1] + sorted[n / 2]) / 2
    };
    if median < 8 {
        8
    } else if median > 200 {
        200
    } else {
        median
    }
}

} // verus!
