use vstd::prelude::*;

use crate::format::{line_views, Line, LineView};

verus! {

broadcast use vstd::seq_lib::group_seq_properties, vstd::multiset::group_multiset_axioms;

/// Inserts `x` into `s` after every line whose top edge is at or above `x`'s
/// (so among equal tops, earlier lines stay first).
pub open spec fn insert_by_top(s: Seq<LineView>, x: LineView) -> Seq<LineView>
    decreases s.len(),
{
    if s.len() == 0 {
        seq![x]
    } else if s.last().bbox.top <= x.bbox.top {
        s.push(x)
    } else {
        insert_by_top(s.drop_last(), x).push(s.last())
    }
}

/// `s` stably sorted by the top edge of the lines, as `sort_by_key` with the
/// key `bbox.top` orders them.
pub open spec fn sort_by_top(s: Seq<LineView>) -> Seq<LineView>
    decreases s.len(),
{
    if s.len() == 0 {
        Seq::empty()
    } else {
        insert_by_top(sort_by_top(s.drop_last()), s.last())
    }
}

/// The lines are ordered by their top edge.
pub open spec fn ordered_by_top(s: Seq<LineView>) -> bool {
    forall|i: int, j: int| 0 <= i < j < s.len() ==> #[trigger] s[i].bbox.top <= #[trigger] s[j].bbox.top
}

proof fn lemma_insert_by_top_at(s: Seq<LineView>, x: LineView, p: int)
    requires
        0 <= p <= s.len(),
        forall|j: int| p <= j < s.len() ==> #[trigger] s[j].bbox.top > x.bbox.top,
        p > 0 ==> s[p - 1].bbox.top <= x.bbox.top,
    ensures
        insert_by_top(s, x) == s.insert(p, x),
    decreases s.len(),
{
    if s.len() == 0 {
        assert(s.insert(p, x) =~= seq![x]);
    } else if s.last().bbox.top <= x.bbox.top {
        assert(s.insert(p, x) =~= s.push(x));
    } else {
        let t = s.drop_last();
        lemma_insert_by_top_at(t, x, p);
        assert(s.insert(p, x) =~= t.insert(p, x).push(s.last()));
    }
}

proof fn lemma_insert_by_top_facts(s: Seq<LineView>, x: LineView)
    ensures
        insert_by_top(s, x).to_multiset() =~= s.to_multiset().insert(x),
        ordered_by_top(s) ==> ordered_by_top(insert_by_top(s, x)),
    decreases s.len(),
{
    if s.len() == 0 {
        Seq::<LineView>::empty().to_multiset_ensures();
        assert(seq![x] =~= Seq::<LineView>::empty().push(x));
    } else if s.last().bbox.top <= x.bbox.top {
        s.to_multiset_ensures();
    } else {
        let t = s.drop_last();
        lemma_insert_by_top_facts(t, x);
        insert_by_top(t, x).to_multiset_ensures();
        t.to_multiset_ensures();
        assert(t.push(s.last()) =~= s);
        if ordered_by_top(s) {
            let r = insert_by_top(t, x);
            let u = r.push(s.last());
            assert(r.to_multiset().count(x) > 0);
            assert forall|i: int, j: int| 0 <= i < j < u.len() implies #[trigger] u[i].bbox.top
                <= #[trigger] u[j].bbox.top by {
                if j == u.len() - 1 && i < r.len() {
                    // every element of r is x or an element of t
                    assert(r.to_multiset().count(r[i]) > 0);
                    if r[i] != x {
                        assert(t.to_multiset().count(r[i]) > 0);
                        let k = choose|k: int| 0 <= k < t.len() && t[k] == r[i];
                        assert(s[k] == t[k]);
                    }
                }
            }
        }
    }
}

/// Stable sorting by top edge yields lines ordered by their top edge that are
/// a permutation of the input.
pub proof fn lemma_sort_by_top_ordered_permutation(s: Seq<LineView>)
    ensures
        ordered_by_top(sort_by_top(s)),
        sort_by_top(s).to_multiset() =~= s.to_multiset(),
        sort_by_top(s).len() == s.len(),
    decreases s.len(),
{
    if s.len() == 0 {
        Seq::<LineView>::empty().to_multiset_ensures();
    } else {
        let t = s.drop_last();
        lemma_sort_by_top_ordered_permutation(t);
        lemma_insert_by_top_facts(sort_by_top(t), s.last());
        t.to_multiset_ensures();
        assert(t.push(s.last()) =~= s);
        sort_by_top(s).to_multiset_ensures();
    }
}

/// Sorting lines that are already ordered by their top edge changes nothing;
/// in particular lines with equal tops keep their order.
pub proof fn lemma_sort_by_top_keeps_ordered(s: Seq<LineView>)
    requires
        ordered_by_top(s),
    ensures
        sort_by_top(s) == s,
    decreases s.len(),
{
    if s.len() > 0 {
        let t = s.drop_last();
        assert(ordered_by_top(t)) by {
            assert forall|i: int, j: int| 0 <= i < j < t.len() implies #[trigger] t[i].bbox.top
                <= #[trigger] t[j].bbox.top by {
                assert(t[i] == s[i] && t[j] == s[j]);
            }
        }
        lemma_sort_by_top_keeps_ordered(t);
        if t.len() > 0 {
            assert(t.last() == s[s.len() - 2]);
        }
        assert(t.push(s.last()) =~= s);
    }
}

/// The lines whose top edge is `top`, in their order.
pub open spec fn lines_at_top(s: Seq<LineView>, top: i32) -> Seq<LineView> {
    s.filter(|l: LineView| l.bbox.top == top)
}

proof fn lemma_lines_at_top_push(s: Seq<LineView>, x: LineView, top: i32)
    ensures
        lines_at_top(s.push(x), top) == if x.bbox.top == top {
            lines_at_top(s, top).push(x)
        } else {
            lines_at_top(s, top)
        },
{
    let f = |l: LineView| l.bbox.top == top;
    reveal_with_fuel(Seq::<LineView>::filter, 1);
    assert(s.push(x).drop_last() =~= s);
    assert(s.push(x).filter(f) == if f(x) {
        s.filter(f).push(x)
    } else {
        s.filter(f)
    });
}

proof fn lemma_insert_by_top_stable(u: Seq<LineView>, x: LineView, top: i32)
    ensures
        lines_at_top(insert_by_top(u, x), top) == if x.bbox.top == top {
            lines_at_top(u, top).push(x)
        } else {
            lines_at_top(u, top)
        },
    decreases u.len(),
{
    if u.len() == 0 {
        lemma_lines_at_top_push(u, x, top);
        assert(seq![x] =~= u.push(x));
    } else if u.last().bbox.top <= x.bbox.top {
        lemma_lines_at_top_push(u, x, top);
    } else {
        let t = u.drop_last();
        lemma_insert_by_top_stable(t, x, top);
        lemma_lines_at_top_push(insert_by_top(t, x), u.last(), top);
        lemma_lines_at_top_push(t, u.last(), top);
        assert(t.push(u.last()) =~= u);
    }
}

/// Sorting by top edge is stable: for every top edge, the lines at that top
/// come out in the order they went in.
pub proof fn lemma_sort_by_top_stable(s: Seq<LineView>, top: i32)
    ensures
        lines_at_top(sort_by_top(s), top) == lines_at_top(s, top),
    decreases s.len(),
{
    if s.len() > 0 {
        let t = s.drop_last();
        lemma_sort_by_top_stable(t, top);
        lemma_insert_by_top_stable(sort_by_top(t), s.last(), top);
        lemma_lines_at_top_push(t, s.last(), top);
        assert(t.push(s.last()) =~= s);
    } else {
        reveal_with_fuel(Seq::<LineView>::filter, 1);
    }
}

/// Inserts `x` after every line of `v` whose top is at or above `x`'s.
pub(crate) fn insert_line_by_top(v: &mut Vec<Line>, x: Line)
    ensures
        line_views(final(v)@) == insert_by_top(line_views(old(v)@), x@),
{
    let ghost before = line_views(v@);
    let mut p: usize = v.len();
    while p > 0 && v[p - 1].bbox.top > x.bbox.top
        invariant
            before == line_views(v@),
            p <= v@.len(),
            forall|j: int| p <= j < before.len() ==> #[trigger] before[j].bbox.top > x.bbox.top,
        decreases p,
    {
        proof {
            assert(before[p - 1] == v@[p - 1]@);
        }
        p = p - 1;
    }
    proof {
        if p > 0 {
            assert(before[p - 1] == v@[p - 1]@);
        }
        lemma_insert_by_top_at(before, x@, p as int);
    }
    let ghost old_v = v@;
    v.insert(p, x);
    proof {
        assert(line_views(v@) =~= before.insert(p as int, x@));
    }
}

} // verus!
