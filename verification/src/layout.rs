use vstd::multiset::Multiset;
use vstd::prelude::*;

use crate::filter::{
    avg_char_width_spec, front_filter_defined, front_filter_spec, lemma_kept_lines_sound,
};
use crate::font::{font_size_defined, font_size_spec, median_height_spec};
use crate::format::{LineView, ParagraphView};
use crate::order::{lemma_sort_by_top_ordered_permutation, sort_by_top};
use crate::rect::{lemma_union_encloses, Rect};

verus! {

broadcast use vstd::seq_lib::group_seq_properties, vstd::multiset::group_multiset_axioms;

/// A paragraph while lines are being grouped: its box and the indices of the
/// lines given to it, in the order they came.
pub struct Cluster {
    pub bbox: Rect,
    pub lines: Seq<usize>,
}

/// A line with box `r` joins a paragraph with box `p` when they share a column
/// and are within `h` of each other vertically, or when they overlap.
pub open spec fn joins(p: Rect, r: Rect, h: i32) -> bool {
    (p.same_column_spec(r) && p.same_section_spec(r, h)) || p.overlaps_spec(r)
}

/// No `i32` overflow while testing `joins`, which evaluates the column test,
/// the section test only if the column test holds, and the overlap test only
/// if not both hold.
pub open spec fn joins_defined(p: Rect, r: Rect, h: i32) -> bool {
    &&& p.same_column_defined(r)
    &&& p.same_column_spec(r) ==> p.same_section_defined(r, h)
    &&& !(p.same_column_spec(r) && p.same_section_spec(r, h)) ==> p.edges_fit() && r.edges_fit()
}

/// The index of the first paragraph that a line with box `r` joins, or the
/// number of paragraphs if it joins none.
pub open spec fn first_join(cs: Seq<Cluster>, r: Rect, h: i32) -> nat
    decreases cs.len(),
{
    if cs.len() == 0 {
        0
    } else if joins(cs[0].bbox, r, h) {
        0
    } else {
        1 + first_join(cs.drop_first(), r, h)
    }
}

/// Every test made while looking for the first paragraph to join is defined.
pub open spec fn scan_defined(cs: Seq<Cluster>, r: Rect, h: i32) -> bool {
    forall|k: int|
        0 <= k < cs.len() && k <= first_join(cs, r, h) ==> joins_defined(#[trigger] cs[k].bbox, r, h)
}

/// The line goes to the first paragraph it joins, whose box grows to hold it;
/// otherwise it starts a new paragraph.
pub open spec fn add_line(cs: Seq<Cluster>, l: LineView, h: i32) -> Seq<Cluster> {
    let k = first_join(cs, l.bbox, h) as int;
    if k < cs.len() {
        cs.update(k, Cluster { bbox: cs[k].bbox.union_spec(l.bbox), lines: cs[k].lines.push(l.index) })
    } else {
        cs.push(Cluster { bbox: l.bbox, lines: seq![l.index] })
    }
}

pub open spec fn add_line_defined(cs: Seq<Cluster>, l: LineView, h: i32) -> bool {
    let k = first_join(cs, l.bbox, h) as int;
    &&& scan_defined(cs, l.bbox, h)
    &&& k < cs.len() ==> cs[k].bbox.union_defined(l.bbox)
}

/// The paragraphs formed by adding the lines one by one.
pub open spec fn clusters(s: Seq<LineView>, h: i32) -> Seq<Cluster>
    decreases s.len(),
{
    if s.len() == 0 {
        Seq::empty()
    } else {
        add_line(clusters(s.drop_last(), h), s.last(), h)
    }
}

/// No `i32` overflow while grouping the lines.
pub open spec fn clusters_defined(s: Seq<LineView>, h: i32) -> bool
    decreases s.len(),
{
    s.len() == 0 || (clusters_defined(s.drop_last(), h) && add_line_defined(
        clusters(s.drop_last(), h),
        s.last(),
        h,
    ))
}

/// The lines named by `idxs` that exist in `lines`, in the order of `idxs`.
pub open spec fn members_of(idxs: Seq<usize>, lines: Seq<LineView>) -> Seq<LineView>
    decreases idxs.len(),
{
    if idxs.len() == 0 {
        Seq::empty()
    } else {
        let rest = members_of(idxs.drop_last(), lines);
        let i = idxs.last();
        if i < lines.len() {
            rest.push(lines[i as int])
        } else {
            rest
        }
    }
}

/// The texts of the lines joined by `'\n'`.
pub open spec fn join_texts(ls: Seq<LineView>) -> Seq<char>
    decreases ls.len(),
{
    if ls.len() == 0 {
        Seq::empty()
    } else if ls.len() == 1 {
        ls[0].text
    } else {
        join_texts(ls.drop_last()) + seq!['\n'] + ls.last().text
    }
}

/// The lines of a paragraph from top to bottom.
pub open spec fn paragraph_lines(c: Cluster, lines: Seq<LineView>) -> Seq<LineView> {
    sort_by_top(members_of(c.lines, lines))
}

/// A finished paragraph: its lines' texts from top to bottom and the font size
/// estimated from their heights.
pub open spec fn paragraph_of(c: Cluster, lines: Seq<LineView>) -> ParagraphView {
    let ls = paragraph_lines(c, lines);
    ParagraphView { bbox: c.bbox, text: join_texts(ls), lines: c.lines, font_size: font_size_spec(ls) }
}

/// The grouping of a page's lines: those that survive `front_filter`, grouped
/// against the page's median line height.
pub open spec fn layout_clusters(lines: Seq<LineView>) -> Seq<Cluster> {
    clusters(front_filter_spec(lines), median_height_spec(lines))
}

/// What `to_paragraphs` returns.
pub open spec fn paragraphs_spec(lines: Seq<LineView>) -> Seq<ParagraphView> {
    layout_clusters(lines).map_values(|c: Cluster| paragraph_of(c, lines))
}

/// No panic in `to_paragraphs`.
pub open spec fn to_paragraphs_defined(lines: Seq<LineView>) -> bool {
    &&& front_filter_defined(lines)
    &&& clusters_defined(front_filter_spec(lines), median_height_spec(lines))
    &&& forall|k: int|
        0 <= k < layout_clusters(lines).len() ==> font_size_defined(
            paragraph_lines(#[trigger] layout_clusters(lines)[k], lines),
        )
}

// ---------------------------------------------------------------------------
// Facts used by the implementation
// ---------------------------------------------------------------------------

pub proof fn lemma_first_join_at(cs: Seq<Cluster>, r: Rect, h: i32, k: int)
    requires
        0 <= k <= cs.len(),
        forall|j: int| 0 <= j < k ==> !joins(#[trigger] cs[j].bbox, r, h),
        k < cs.len() ==> joins(cs[k].bbox, r, h),
    ensures
        first_join(cs, r, h) == k,
    decreases k,
{
    if k > 0 {
        let t = cs.drop_first();
        assert forall|j: int| 0 <= j < k - 1 implies !joins(#[trigger] t[j].bbox, r, h) by {
            assert(t[j] == cs[j + 1]);
        }
        lemma_first_join_at(t, r, h, k - 1);
    }
}

pub proof fn lemma_first_join_bound(cs: Seq<Cluster>, r: Rect, h: i32)
    ensures
        first_join(cs, r, h) <= cs.len(),
        first_join(cs, r, h) < cs.len() ==> joins(cs[first_join(cs, r, h) as int].bbox, r, h),
        forall|j: int| 0 <= j < first_join(cs, r, h) ==> !joins(#[trigger] cs[j].bbox, r, h),
    decreases cs.len(),
{
    if cs.len() > 0 && !joins(cs[0].bbox, r, h) {
        let t = cs.drop_first();
        lemma_first_join_bound(t, r, h);
        assert forall|j: int| 0 <= j < first_join(cs, r, h) implies !joins(
            #[trigger] cs[j].bbox,
            r,
            h,
        ) by {
            if j > 0 {
                assert(cs[j] == t[j - 1]);
            }
        }
        if first_join(cs, r, h) < cs.len() {
            assert(cs[first_join(cs, r, h) as int] == t[first_join(t, r, h) as int]);
        }
    }
}

pub proof fn lemma_clusters_defined_prefix(s: Seq<LineView>, h: i32, i: int)
    requires
        clusters_defined(s, h),
        0 <= i <= s.len(),
    ensures
        clusters_defined(s.take(i), h),
    decreases s.len() - i,
{
    if i < s.len() {
        lemma_clusters_defined_prefix(s.drop_last(), h, i);
        assert(s.drop_last().take(i) =~= s.take(i));
    } else {
        assert(s.take(i) =~= s);
    }
}

// ---------------------------------------------------------------------------
// Laws of the grouping
// ---------------------------------------------------------------------------

/// All line indices held by the paragraphs, with multiplicity.
pub open spec fn held_indices(cs: Seq<Cluster>) -> Multiset<usize>
    decreases cs.len(),
{
    if cs.len() == 0 {
        Multiset::empty()
    } else {
        held_indices(cs.drop_last()).add(cs.last().lines.to_multiset())
    }
}

/// The indices of the lines, with multiplicity.
pub open spec fn line_indices(s: Seq<LineView>) -> Multiset<usize> {
    s.map_values(|l: LineView| l.index).to_multiset()
}

proof fn lemma_held_indices_update(cs: Seq<Cluster>, k: int, c: Cluster)
    requires
        0 <= k < cs.len(),
    ensures
        held_indices(cs.update(k, c)).add(cs[k].lines.to_multiset()) =~= held_indices(cs).add(
            c.lines.to_multiset(),
        ),
    decreases cs.len(),
{
    let u = cs.update(k, c);
    assert(held_indices(u) == held_indices(u.drop_last()).add(u.last().lines.to_multiset()));
    assert(held_indices(cs) == held_indices(cs.drop_last()).add(cs.last().lines.to_multiset()));
    if k == cs.len() - 1 {
        assert(u.drop_last() =~= cs.drop_last());
        assert(u.last() == c);
    } else {
        lemma_held_indices_update(cs.drop_last(), k, c);
        assert(u.drop_last() =~= cs.drop_last().update(k, c));
        assert(u.last() == cs.last());
        assert(cs.drop_last()[k] == cs[k]);
    }
    assert forall|v: usize|
        #[trigger] held_indices(u).add(cs[k].lines.to_multiset()).count(v) == held_indices(cs).add(
            c.lines.to_multiset(),
        ).count(v) by {
        if k < cs.len() - 1 {
            assert(held_indices(u.drop_last()).add(cs[k].lines.to_multiset()).count(v)
                == held_indices(cs.drop_last()).add(c.lines.to_multiset()).count(v));
        }
    }
}

/// Grouping places every line in exactly one paragraph: the paragraphs hold
/// exactly the indices of the grouped lines, each as often as it occurs.
pub proof fn lemma_clusters_partition(s: Seq<LineView>, h: i32)
    ensures
        held_indices(clusters(s, h)) =~= line_indices(s),
    decreases s.len(),
{
    if s.len() > 0 {
        let t = s.drop_last();
        let l = s.last();
        lemma_clusters_partition(t, h);
        let cs = clusters(t, h);
        let k = first_join(cs, l.bbox, h) as int;
        lemma_first_join_bound(cs, l.bbox, h);
        let ti = t.map_values(|x: LineView| x.index);
        assert(s.map_values(|x: LineView| x.index) =~= ti.push(l.index));
        ti.to_multiset_ensures();
        assert(line_indices(s) =~= line_indices(t).insert(l.index));
        if k < cs.len() {
            let c = Cluster { bbox: cs[k].bbox.union_spec(l.bbox), lines: cs[k].lines.push(l.index) };
            lemma_held_indices_update(cs, k, c);
            cs[k].lines.to_multiset_ensures();
            assert(clusters(s, h) == cs.update(k, c));
            assert(c.lines.to_multiset() =~= cs[k].lines.to_multiset().insert(l.index));
            assert forall|v: usize|
                #[trigger] held_indices(clusters(s, h)).count(v) == line_indices(s).count(v) by {
                assert(held_indices(cs.update(k, c)).add(cs[k].lines.to_multiset()).count(v)
                    == held_indices(cs).add(c.lines.to_multiset()).count(v));
            }
        } else {
            let c = Cluster { bbox: l.bbox, lines: seq![l.index] };
            assert(clusters(s, h) == cs.push(c));
            assert(cs.push(c).drop_last() =~= cs);
            Seq::<usize>::empty().to_multiset_ensures();
            assert(seq![l.index] =~= Seq::<usize>::empty().push(l.index));
            assert(c.lines.to_multiset() =~= Multiset::empty().insert(l.index));
            assert(held_indices(cs.push(c)) == held_indices(cs).add(c.lines.to_multiset()));
            assert forall|v: usize|
                #[trigger] held_indices(clusters(s, h)).count(v) == line_indices(s).count(v) by {
                assert(held_indices(cs).count(v) == line_indices(t).count(v));
            }
        }
    }
}

/// When the lines' boxes are not inverted and grouping is defined, every
/// paragraph holds at least one line and has a box that is not inverted, and
/// every line lies in a paragraph that holds its index and whose box
/// encloses it.
pub proof fn lemma_clusters_enclose(s: Seq<LineView>, h: i32)
    requires
        clusters_defined(s, h),
        forall|j: int| 0 <= j < s.len() ==> (#[trigger] s[j]).bbox.extents_fit(),
    ensures
        forall|k: int|
            0 <= k < clusters(s, h).len() ==> (#[trigger] clusters(s, h)[k]).bbox.extents_fit()
                && clusters(s, h)[k].lines.len() > 0,
        forall|j: int|
            0 <= j < s.len() ==> exists|k: int|
                0 <= k < clusters(s, h).len() && (#[trigger] clusters(s, h)[k]).lines.contains(
                    (#[trigger] s[j]).index,
                ) && clusters(s, h)[k].bbox.encloses(s[j].bbox),
    decreases s.len(),
{
    if s.len() > 0 {
        let t = s.drop_last();
        let l = s.last();
        assert forall|j: int| 0 <= j < t.len() implies (#[trigger] t[j]).bbox.extents_fit() by {
            assert(t[j] == s[j]);
        }
        lemma_clusters_enclose(t, h);
        let cs = clusters(t, h);
        let k = first_join(cs, l.bbox, h) as int;
        lemma_first_join_bound(cs, l.bbox, h);
        let cs2 = clusters(s, h);
        assert(l == s[s.len() - 1]);
        if k < cs.len() {
            let ub = cs[k].bbox.union_spec(l.bbox);
            lemma_union_encloses(cs[k].bbox, l.bbox);
            assert(cs2[k].lines.contains(l.index)) by {
                assert(cs2[k].lines[cs2[k].lines.len() - 1] == l.index);
            }
            assert forall|j: int| 0 <= j < s.len() implies exists|m: int|
                0 <= m < cs2.len() && (#[trigger] cs2[m]).lines.contains((#[trigger] s[j]).index)
                    && cs2[m].bbox.encloses(s[j].bbox) by {
                if j < t.len() {
                    assert(s[j] == t[j]);
                    let m = choose|m: int|
                        0 <= m < cs.len() && (#[trigger] cs[m]).lines.contains(t[j].index)
                            && cs[m].bbox.encloses(t[j].bbox);
                    if m == k {
                        let w = choose|w: int|
                            0 <= w < cs[k].lines.len() && cs[k].lines[w] == t[j].index;
                        assert(cs2[k].lines[w] == t[j].index);
                    } else {
                        assert(cs2[m] == cs[m]);
                    }
                } else {
                    assert(s[j] == l);
                }
            }
        } else {
            assert(cs2[cs.len() as int].lines.contains(l.index)) by {
                assert(cs2[cs.len() as int].lines[0] == l.index);
            }
            assert forall|j: int| 0 <= j < s.len() implies exists|m: int|
                0 <= m < cs2.len() && (#[trigger] cs2[m]).lines.contains((#[trigger] s[j]).index)
                    && cs2[m].bbox.encloses(s[j].bbox) by {
                if j < t.len() {
                    assert(s[j] == t[j]);
                    let m = choose|m: int|
                        0 <= m < cs.len() && (#[trigger] cs[m]).lines.contains(t[j].index)
                            && cs[m].bbox.encloses(t[j].bbox);
                    assert(cs2[m] == cs[m]);
                } else {
                    assert(s[j] == l);
                }
            }
        }
    }
}

/// A page without lines has no paragraphs.
pub proof fn lemma_no_lines_no_paragraphs(lines: Seq<LineView>)
    requires
        lines.len() == 0,
    ensures
        paragraphs_spec(lines).len() == 0,
{
    reveal_with_fuel(Seq::<LineView>::filter, 1);
    assert(front_filter_spec(lines).len() == 0);
}

/// Every paragraph holds at least one line index.
pub proof fn lemma_clusters_nonempty(s: Seq<LineView>, h: i32)
    ensures
        forall|k: int|
            0 <= k < clusters(s, h).len() ==> (#[trigger] clusters(s, h)[k]).lines.len() > 0,
    decreases s.len(),
{
    if s.len() > 0 {
        lemma_clusters_nonempty(s.drop_last(), h);
        let cs = clusters(s.drop_last(), h);
        lemma_first_join_bound(cs, s.last().bbox, h);
    }
}

proof fn lemma_held_includes(cs: Seq<Cluster>, k: int, v: usize)
    requires
        0 <= k < cs.len(),
    ensures
        held_indices(cs).count(v) >= cs[k].lines.to_multiset().count(v),
    decreases cs.len(),
{
    if k < cs.len() - 1 {
        lemma_held_includes(cs.drop_last(), k, v);
        assert(cs.drop_last()[k] == cs[k]);
    }
}

proof fn lemma_members_all_present(idxs: Seq<usize>, lines: Seq<LineView>)
    requires
        forall|i: int| 0 <= i < idxs.len() ==> #[trigger] idxs[i] < lines.len(),
    ensures
        members_of(idxs, lines).len() == idxs.len(),
    decreases idxs.len(),
{
    if idxs.len() > 0 {
        let t = idxs.drop_last();
        assert forall|i: int| 0 <= i < t.len() implies #[trigger] t[i] < lines.len() by {
            assert(t[i] == idxs[i]);
        }
        lemma_members_all_present(t, lines);
        assert(idxs[idxs.len() - 1] < lines.len());
    }
}

/// For lines numbered by their position, as `to_lines` numbers them, every
/// paragraph finds each of its line indices among the lines, holds at least
/// one, and so gets a font size within `8..=200`.
pub proof fn lemma_numbered_lines_paragraphs(lines: Seq<LineView>)
    requires
        forall|i: int| 0 <= i < lines.len() ==> (#[trigger] lines[i]).index == i,
    ensures
        forall|k: int|
            0 <= k < layout_clusters(lines).len() ==> paragraph_lines(
                #[trigger] layout_clusters(lines)[k],
                lines,
            ).len() == layout_clusters(lines)[k].lines.len() > 0,
        forall|k: int|
            0 <= k < paragraphs_spec(lines).len() ==> 8 <= (
            #[trigger] paragraphs_spec(lines)[k]).font_size <= 200,
{
    let kept = front_filter_spec(lines);
    let h = median_height_spec(lines);
    let cs = layout_clusters(lines);
    lemma_clusters_partition(kept, h);
    lemma_clusters_nonempty(kept, h);
    lemma_kept_lines_sound(lines, avg_char_width_spec(lines));
    let ki = kept.map_values(|x: LineView| x.index);
    ki.to_multiset_ensures();
    assert forall|k: int| 0 <= k < cs.len() implies paragraph_lines(#[trigger] cs[k], lines).len()
        == cs[k].lines.len() > 0 by {
        let c = cs[k];
        c.lines.to_multiset_ensures();
        assert forall|i: int| 0 <= i < c.lines.len() implies #[trigger] c.lines[i] < lines.len() by {
            let v = c.lines[i];
            assert(c.lines.contains(v));
            lemma_held_includes(cs, k, v);
            assert(line_indices(kept).count(v) > 0);
            assert(ki.contains(v));
            let j = choose|j: int| 0 <= j < ki.len() && ki[j] == v;
            assert(kept[j].index == v);
            assert(lines.contains(kept[j]));
            let w = choose|w: int| 0 <= w < lines.len() && lines[w] == kept[j];
            assert(lines[w].index == w);
        }
        lemma_members_all_present(c.lines, lines);
        lemma_sort_by_top_ordered_permutation(members_of(c.lines, lines));
    }
    assert forall|k: int| 0 <= k < paragraphs_spec(lines).len() implies 8 <= (
    #[trigger] paragraphs_spec(lines)[k]).font_size <= 200 by {
        assert(paragraph_lines(cs[k], lines).len() > 0);
    }
}

/// Every paragraph of a page gets font size 16 (none of its lines exists) or a
/// size within `8..=200`.
pub proof fn lemma_paragraph_font_range(lines: Seq<LineView>)
    ensures
        forall|k: int|
            0 <= k < paragraphs_spec(lines).len() ==> (#[trigger] paragraphs_spec(lines)[k]).font_size
                == 16 || 8 <= paragraphs_spec(lines)[k].font_size <= 200,
{
}

} // verus!
