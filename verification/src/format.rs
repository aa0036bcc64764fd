use vstd::prelude::*;

use crate::filter::{front_filter_ok, Filter};
use crate::font::{estimate_font_size, font_size_defined, font_size_ok, median_height};
use crate::layout::{
    clusters, clusters_defined, first_join, join_texts, joins, joins_defined, layout_clusters,
    lemma_clusters_defined_prefix, lemma_first_join_at, lemma_first_join_bound,
    lemma_no_lines_no_paragraphs, members_of, paragraph_lines, paragraph_of, paragraphs_spec, scan_defined, to_paragraphs_defined, Cluster,
};
use crate::order::{insert_line_by_top, sort_by_top};
use crate::rect::{fits_i32, Rect};

verus! {

/// One recognized text line: its position in the recognition output, its
/// bounding box and its text.
#[derive(Debug, Clone)]
pub struct Line {
    pub index: usize,
    pub bbox: Rect,
    pub text: String,
}

/// The mathematical value of a [`Line`].
pub struct LineView {
    pub index: usize,
    pub bbox: Rect,
    pub text: Seq<char>,
}

impl View for Line {
    type V = LineView;

    open spec fn view(&self) -> LineView {
        LineView { index: self.index, bbox: self.bbox, text: self.text@ }
    }
}

/// The values of a sequence of lines.
pub open spec fn line_views(lines: Seq<Line>) -> Seq<LineView> {
    lines.map_values(|l: Line| l@)
}

impl Line {
    /// A copy of this line (its text cloned).
    pub(crate) fn duplicate(&self) -> (r: Line)
        ensures
            r@ == self@,
    {
        Line { index: self.index, bbox: self.bbox, text: self.text.clone() }
    }
}

/// A block of text lines laid out together: its bounding box, the text of its
/// lines joined by `'\n'`, the indices of its lines and an estimated font size.
#[derive(Debug)]
pub struct Paragraph {
    pub bbox: Rect,
    pub text: String,
    pub lines: Vec<usize>,
    pub font_size: u32,
}

/// The mathematical value of a [`Paragraph`].
pub struct ParagraphView {
    pub bbox: Rect,
    pub text: Seq<char>,
    pub lines: Seq<usize>,
    pub font_size: u32,
}

impl View for Paragraph {
    type V = ParagraphView;

    open spec fn view(&self) -> ParagraphView {
        ParagraphView {
            bbox: self.bbox,
            text: self.text@,
            lines: self.lines@,
            font_size: self.font_size,
        }
    }
}

/// The values of a sequence of paragraphs.
pub open spec fn paragraph_views(ps: Seq<Paragraph>) -> Seq<ParagraphView> {
    ps.map_values(|p: Paragraph| p@)
}

/// A region of recognized text: its text and its bounding box in the image.
#[derive(Debug, Clone)]
pub struct TextRegion {
    pub text: String,
    pub rect: Rect,
}

/// Turns recognition results into lines and lines into paragraphs.
pub struct Format {
    pub results: Vec<TextRegion>,
}

/// The boxes and line indices of paragraphs under construction.
pub open spec fn cluster_views(ps: Seq<Paragraph>) -> Seq<Cluster> {
    ps.map_values(|p: Paragraph| Cluster { bbox: p.bbox, lines: p.lines@ })
}

/// Whether a line with box `r` joins a paragraph with box `p`.
fn joins_line(p: &Rect, r: &Rect, h: i32) -> (b: bool)
    requires
        joins_defined(*p, *r, h),
    ensures
        b == joins(*p, *r, h),
{
    p.is_same_column(r) && p.is_same_section(r, h) || p.overlaps(r)
}

/// The index of the first paragraph that a line with box `r` joins, or the
/// number of paragraphs.
fn first_joining(ps: &Vec<Paragraph>, r: &Rect, h: i32) -> (k: usize)
    requires
        scan_defined(cluster_views(ps@), *r, h),
    ensures
        k == first_join(cluster_views(ps@), *r, h),
{
    let ghost cs = cluster_views(ps@);
    proof {
        lemma_first_join_bound(cs, *r, h);
    }
    let mut k: usize = 0;
    while k < ps.len()
        invariant
            cs == cluster_views(ps@),
            scan_defined(cs, *r, h),
            first_join(cs, *r, h) <= cs.len(),
            first_join(cs, *r, h) < cs.len() ==> joins(cs[first_join(cs, *r, h) as int].bbox, *r, h),
            k <= ps.len(),
            forall|j: int| 0 <= j < k ==> !joins(#[trigger] cs[j].bbox, *r, h),
        decreases ps.len() - k,
    {
        proof {
            assert(cs[k as int].bbox == ps@[k as int].bbox);
            assert(k <= first_join(cs, *r, h));
        }
        if joins_line(&ps[k].bbox, r, h) {
            proof {
                lemma_first_join_at(cs, *r, h, k as int);
            }
            return k;
        }
        k = k + 1;
    }
    proof {
        lemma_first_join_at(cs, *r, h, k as int);
    }
    k
}

/// The lines named by `idxs` that exist in `lines`, stably sorted by top edge.
fn sorted_members(idxs: &Vec<usize>, lines: &Vec<Line>) -> (r: Vec<Line>)
    ensures
        line_views(r@) == sort_by_top(members_of(idxs@, line_views(lines@))),
{
    let ghost views = line_views(lines@);
    let mut r: Vec<Line> = Vec::new();
    let mut j: usize = 0;
    while j < idxs.len()
        invariant
            views == line_views(lines@),
            j <= idxs@.len(),
            line_views(r@) == sort_by_top(members_of(idxs@.take(j as int), views)),
        decreases idxs@.len() - j,
    {
        let index = idxs[j];
        let ghost m = members_of(idxs@.take(j as int), views);
        proof {
            assert(idxs@.take(j + 1).drop_last() =~= idxs@.take(j as int));
        }
        if index < lines.len() {
            proof {
                assert(m.push(views[index as int]).drop_last() =~= m);
                assert(views[index as int] == lines@[index as int]@);
            }
            insert_line_by_top(&mut r, lines[index].duplicate());
        }
        j = j + 1;
    }
    proof {
        assert(idxs@.take(j as int) =~= idxs@);
    }
    r
}

/// The texts of the lines joined by `'\n'`.
fn join_line_texts(ls: &Vec<Line>) -> (s: String)
    ensures
        s@ == join_texts(line_views(ls@)),
{
    let ghost views = line_views(ls@);
    let mut s = String::new();
    let mut j: usize = 0;
    while j < ls.len()
        invariant
            views == line_views(ls@),
            j <= ls@.len(),
            s@ == join_texts(views.take(j as int)),
        decreases ls@.len() - j,
    {
        proof {
            reveal_strlit("\n");
            assert(views.take(j + 1).drop_last() =~= views.take(j as int));
            assert(views[j as int] == ls@[j as int]@);
        }
        if j > 0 {
            s.append("\n");
        }
        s.append(ls[j].text.as_str());
        proof {
            if j == 0 {
                assert(s@ =~= views.take(1)[0].text);
            } else {
                assert(s@ =~= join_texts(views.take(j as int)) + seq!['\n'] + views[j as int].text);
            }
        }
        j = j + 1;
    }
    proof {
        assert(views.take(j as int) =~= views);
    }
    s
}

/// A paragraph with a zero box, no text, no lines and font size 0.
fn empty_paragraph() -> (p: Paragraph)
    ensures
        p.bbox == (Rect { top: 0, left: 0, width: 0, height: 0 }),
        p.text@ == Seq::<char>::empty(),
        p.lines@ == Seq::<usize>::empty(),
        p.font_size == 0,
{
    Paragraph {
        bbox: Rect { top: 0, left: 0, width: 0, height: 0 },
        text: String::new(),
        lines: Vec::new(),
        font_size: 0,
    }
}

/// Groups the lines into paragraphs, one line at a time: a line joins the
/// first paragraph it `joins` (whose box grows to hold it), or starts a new
/// one. Text and font size are not yet filled in.
fn group_lines(kept: &Vec<Line>, height: i32) -> (paragraphs: Vec<Paragraph>)
    requires
        clusters_defined(line_views(kept@), height),
    ensures
        cluster_views(paragraphs@) == clusters(line_views(kept@), height),
{
    let ghost kv = line_views(kept@);
    let mut paragraphs: Vec<Paragraph> = Vec::new();
    let mut i: usize = 0;
    while i < kept.len()
        invariant
            kv == line_views(kept@),
            clusters_defined(kv, height),
            i <= kept@.len(),
            cluster_views(paragraphs@) == clusters(kv.take(i as int), height),
        decreases kept@.len() - i,
    {
        let line = &kept[i];
        let ghost before = cluster_views(paragraphs@);
        proof {
            assert(kv[i as int] == line@);
            assert(kv.take(i + 1).drop_last() =~= kv.take(i as int));
            lemma_clusters_defined_prefix(kv, height, i + 1);
            lemma_first_join_bound(before, line.bbox, height);
        }
        let k = first_joining(&paragraphs, &line.bbox, height);
        if k < paragraphs.len() {
            let mut p = empty_paragraph();
            paragraphs.set_and_swap(k, &mut p);
            proof {
                assert(p.bbox == before[k as int].bbox);
            }
            p.bbox = p.bbox.union_rect(&line.bbox);
            p.lines.push(line.index);
            paragraphs.set_and_swap(k, &mut p);
            proof {
                assert(cluster_views(paragraphs@) =~= clusters(kv.take(i + 1), height));
            }
        } else {
            let mut indices: Vec<usize> = Vec::new();
            indices.push(line.index);
            paragraphs.push(
                Paragraph { bbox: line.bbox, text: String::new(), lines: indices, font_size: 7 },
            );
            proof {
                assert(indices@ =~= seq![line.index]);
                assert(cluster_views(paragraphs@) =~= clusters(kv.take(i + 1), height));
            }
        }
        i = i + 1;
    }
    proof {
        assert(kv.take(i as int) =~= kv);
    }
    paragraphs
}

fn fits(x: i64) -> (b: bool)
    ensures
        b == fits_i32(x as int),
{
    i32::MIN as i64 <= x && x <= i32::MAX as i64
}

fn right_wide(r: &Rect) -> (x: i64)
    ensures
        x == r.right_spec(),
{
    r.left as i64 + (r.width as i32) as i64
}

fn bottom_wide(r: &Rect) -> (x: i64)
    ensures
        x == r.bottom_spec(),
{
    r.top as i64 + (r.height as i32) as i64
}

/// Whether testing if a line with box `r` joins a paragraph with box `p`
/// stays within `i32`.
fn joins_is_defined(p: &Rect, r: &Rect, h: i32) -> (b: bool)
    ensures
        b == joins_defined(*p, *r, h),
{
    let p_right = right_wide(p);
    let r_right = right_wide(r);
    let p_bottom = bottom_wide(p);
    let r_bottom = bottom_wide(r);
    let column_ok = fits(r_right) && (!((p.left as i64) < r_right) || fits(p_right));
    let column = (p.left as i64) < r_right && (r.left as i64) < p_right;
    let lower_first = p.top > r.top;
    let gap = if lower_first {
        p_bottom - r.top as i64
    } else {
        p.top as i64 - r_bottom
    };
    let edge_ok = if lower_first {
        fits(p_bottom)
    } else {
        fits(r_bottom)
    };
    let section_ok = h != i32::MIN && edge_ok && fits(gap);
    let section = -(h as i64) <= gap && gap < h as i64;
    let overlap_ok = fits(p_right) && fits(p_bottom) && fits(r_right) && fits(r_bottom);
    column_ok && (!column || section_ok) && (column && section || overlap_ok)
}

/// Whether the union of the two boxes stays within `i32`.
fn union_is_defined(p: &Rect, r: &Rect) -> (b: bool)
    ensures
        b == p.union_defined(*r),
{
    let p_right = right_wide(p);
    let r_right = right_wide(r);
    let p_bottom = bottom_wide(p);
    let r_bottom = bottom_wide(r);
    let right = if p_right >= r_right {
        p_right
    } else {
        r_right
    };
    let bottom = if p_bottom >= r_bottom {
        p_bottom
    } else {
        r_bottom
    };
    let left = if p.left <= r.left {
        p.left
    } else {
        r.left
    };
    let top = if p.top <= r.top {
        p.top
    } else {
        r.top
    };
    fits(p_right) && fits(p_bottom) && fits(r_right) && fits(r_bottom) && fits(right - left as i64)
        && fits(bottom - top as i64)
}

/// The boxes of paragraphs under construction.
pub open spec fn cluster_boxes(cs: Seq<Cluster>) -> Seq<Rect> {
    cs.map_values(|c: Cluster| c.bbox)
}

/// Looks for the first paragraph box that `r` joins, checking that every test
/// on the way is defined: `None` when one is not.
fn first_joining_checked(boxes: &Vec<Rect>, r: &Rect, h: i32, Ghost(cs): Ghost<Seq<Cluster>>) -> (res:
    Option<usize>)
    requires
        boxes@ == cluster_boxes(cs),
    ensures
        match res {
            None => !scan_defined(cs, *r, h),
            Some(k) => scan_defined(cs, *r, h) && k == first_join(cs, *r, h),
        },
{
    proof {
        lemma_first_join_bound(cs, *r, h);
    }
    let mut k: usize = 0;
    while k < boxes.len()
        invariant
            boxes@ == cluster_boxes(cs),
            first_join(cs, *r, h) <= cs.len(),
            first_join(cs, *r, h) < cs.len() ==> joins(cs[first_join(cs, *r, h) as int].bbox, *r, h),
            k <= boxes@.len(),
            forall|j: int| 0 <= j < k ==> !joins(#[trigger] cs[j].bbox, *r, h),
            forall|j: int| 0 <= j < k ==> joins_defined(#[trigger] cs[j].bbox, *r, h),
        decreases boxes@.len() - k,
    {
        proof {
            assert(cs[k as int].bbox == boxes@[k as int]);
            assert(k <= first_join(cs, *r, h));
        }
        if !joins_is_defined(&boxes[k], r, h) {
            return None;
        }
        if joins_line(&boxes[k], r, h) {
            proof {
                lemma_first_join_at(cs, *r, h, k as int);
            }
            return Some(k);
        }
        k = k + 1;
    }
    proof {
        lemma_first_join_at(cs, *r, h, k as int);
    }
    Some(k)
}

/// Whether grouping the lines against `height` stays within `i32`.
fn grouping_ok(kept: &Vec<Line>, height: i32) -> (b: bool)
    ensures
        b == clusters_defined(line_views(kept@), height),
{
    let ghost kv = line_views(kept@);
    let mut boxes: Vec<Rect> = Vec::new();
    let mut i: usize = 0;
    while i < kept.len()
        invariant
            kv == line_views(kept@),
            i <= kept@.len(),
            clusters_defined(kv.take(i as int), height),
            boxes@ == cluster_boxes(clusters(kv.take(i as int), height)),
        decreases kept@.len() - i,
    {
        let r = kept[i].bbox;
        let ghost cs = clusters(kv.take(i as int), height);
        let ghost next = kv.take(i + 1);
        proof {
            assert(kv[i as int] == kept@[i as int]@);
            assert(next.drop_last() =~= kv.take(i as int));
            assert(next.last() == kv[i as int]);
            lemma_first_join_bound(cs, r, height);
        }
        match first_joining_checked(&boxes, &r, height, Ghost(cs)) {
            None => {
                proof {
                    if clusters_defined(kv, height) {
                        lemma_clusters_defined_prefix(kv, height, i + 1);
                    }
                }
                return false;
            },
            Some(k) => {
                if k < boxes.len() {
                    proof {
                        assert(cs[k as int].bbox == boxes@[k as int]);
                    }
                    if !union_is_defined(&boxes[k], &r) {
                        proof {
                            if clusters_defined(kv, height) {
                                lemma_clusters_defined_prefix(kv, height, i + 1);
                            }
                        }
                        return false;
                    }
                    let u = boxes[k].union_rect(&r);
                    boxes.set(k, u);
                } else {
                    boxes.push(r);
                }
                proof {
                    assert(boxes@ =~= cluster_boxes(clusters(next, height)));
                }
            },
        }
        i = i + 1;
    }
    proof {
        assert(kv.take(i as int) =~= kv);
    }
    true
}

/// Whether `to_paragraphs` runs on `lines` without a panic (an arithmetic
/// overflow or a division by zero); it always does on no lines.
pub fn can_form_paragraphs(lines: &Vec<Line>) -> (b: bool)
    ensures
        b == (lines@.len() == 0 || to_paragraphs_defined(line_views(lines@))),
{
    let ghost views = line_views(lines@);
    if lines.len() == 0 {
        return true;
    }
    if !front_filter_ok(lines) {
        return false;
    }
    let height = median_height(lines.as_slice());
    let kept = Filter {}.front_filter(lines);
    if !grouping_ok(&kept, height) {
        return false;
    }
    let groups = group_lines(&kept, height);
    let ghost cs = layout_clusters(views);
    proof {
        assert(cluster_views(groups@) == cs);
    }
    let mut k: usize = 0;
    while k < groups.len()
        invariant
            views == line_views(lines@),
            cluster_views(groups@) == cs,
            cs == layout_clusters(views),
            k <= groups@.len(),
            forall|j: int| 0 <= j < k ==> font_size_defined(paragraph_lines(#[trigger] cs[j], views)),
        decreases groups@.len() - k,
    {
        let members = sorted_members(&groups[k].lines, lines);
        proof {
            assert(cs[k as int].lines == groups@[k as int].lines@);
        }
        if !font_size_ok(members.as_slice()) {
            return false;
        }
        k = k + 1;
    }
    true
}

/// The indices in `idxs` that name no line among `n` lines, in order.
pub open spec fn absent_indices(idxs: Seq<usize>, n: nat) -> Seq<usize>
    decreases idxs.len(),
{
    if idxs.len() == 0 {
        Seq::empty()
    } else {
        let rest = absent_indices(idxs.drop_last(), n);
        if idxs.last() >= n {
            rest.push(idxs.last())
        } else {
            rest
        }
    }
}

/// The line indices of the paragraphs that name no line among `n` lines:
/// paragraph by paragraph, each in the order of its lines.
pub open spec fn absent_in_paragraphs(ps: Seq<ParagraphView>, n: nat) -> Seq<usize>
    decreases ps.len(),
{
    if ps.len() == 0 {
        Seq::empty()
    } else {
        absent_in_paragraphs(ps.drop_last(), n) + absent_indices(ps.last().lines, n)
    }
}

/// The line indices that the paragraphs name but `lines` lacks, in the order
/// `to_paragraphs` meets them; `to_paragraphs` leaves such an index out of a
/// paragraph's text and font size.
pub fn missing_line_indices(paragraphs: &Vec<Paragraph>, lines: &Vec<Line>) -> (r: Vec<usize>)
    ensures
        r@ == absent_in_paragraphs(paragraph_views(paragraphs@), lines@.len()),
{
    let ghost ps = paragraph_views(paragraphs@);
    let n = lines.len();
    let mut r: Vec<usize> = Vec::new();
    let mut k: usize = 0;
    while k < paragraphs.len()
        invariant
            ps == paragraph_views(paragraphs@),
            n == lines@.len(),
            k <= paragraphs@.len(),
            r@ == absent_in_paragraphs(ps.take(k as int), n as nat),
        decreases paragraphs@.len() - k,
    {
        let idxs = &paragraphs[k].lines;
        let ghost base = r@;
        proof {
            assert(ps[k as int] == paragraphs@[k as int]@);
            assert(ps.take(k + 1).drop_last() =~= ps.take(k as int));
        }
        let mut j: usize = 0;
        while j < idxs.len()
            invariant
                n == lines@.len(),
                j <= idxs@.len(),
                r@ == base + absent_indices(idxs@.take(j as int), n as nat),
            decreases idxs@.len() - j,
        {
            proof {
                assert(idxs@.take(j + 1).drop_last() =~= idxs@.take(j as int));
            }
            if idxs[j] >= n {
                r.push(idxs[j]);
            }
            proof {
                assert(r@ =~= base + absent_indices(idxs@.take(j + 1), n as nat));
            }
            j = j + 1;
        }
        proof {
            assert(idxs@.take(j as int) =~= idxs@);
            assert(ps.take(k + 1).last() == ps[k as int]);
        }
        k = k + 1;
    }
    proof {
        assert(ps.take(k as int) =~= ps);
    }
    r
}

impl Format {
    /// One line per recognition result, numbered by position.
    pub fn to_lines(&mut self) -> (lines: Vec<Line>)
        ensures
            *final(self) == *old(self),
            lines@.len() == old(self).results@.len(),
            forall|i: int|
                0 <= i < lines@.len() ==> (#[trigger] lines@[i])@ == (LineView {
                    index: i as usize,
                    bbox: old(self).results@[i].rect,
                    text: old(self).results@[i].text@,
                }),
    {
        let mut lines: Vec<Line> = Vec::new();
        let mut i: usize = 0;
        while i < self.results.len()
            invariant
                *self == *old(self),
                i <= self.results@.len(),
                lines@.len() == i,
                forall|j: int|
                    0 <= j < i ==> (#[trigger] lines@[j])@ == (LineView {
                        index: j as usize,
                        bbox: self.results@[j].rect,
                        text: self.results@[j].text@,
                    }),
            decreases self.results@.len() - i,
        {
            let result = &self.results[i];
            lines.push(Line { bbox: result.rect, text: result.text.clone(), index: i });
            i = i + 1;
        }
        lines
    }

    /// Groups the lines that survive `front_filter` into paragraphs: a line
    /// joins the first paragraph that shares its column within the median
    /// line height, or that it overlaps, and starts a new paragraph
    /// otherwise. Each paragraph's text is its lines from top to bottom,
    /// joined by `'\n'`, and its font size is estimated from their heights.
    /// A page without lines has no paragraphs.
    pub fn to_paragraphs(&mut self, lines: &Vec<Line>) -> (paragraphs: Vec<Paragraph>)
        requires
            lines@.len() == 0 || to_paragraphs_defined(line_views(lines@)),
        ensures
            *final(self) == *old(self),
            paragraph_views(paragraphs@) == paragraphs_spec(line_views(lines@)),
            lines@.len() == 0 ==> paragraphs@.len() == 0,
    {
        let ghost views = line_views(lines@);
        if lines.len() == 0 {
            proof {
                lemma_no_lines_no_paragraphs(views);
                assert(paragraph_views(Seq::<Paragraph>::empty()) =~= paragraphs_spec(views));
            }
            return Vec::new();
        }
        let height = median_height(lines.as_slice());
        let filter = Filter {};
        let kept = filter.front_filter(lines);
        let ghost kv = line_views(kept@);
        let ghost cs = layout_clusters(views);

        let mut paragraphs = group_lines(&kept, height);
        proof {
            assert(cluster_views(paragraphs@) == cs);
        }

        let mut k: usize = 0;
        while k < paragraphs.len()
            invariant
                views == line_views(lines@),
                to_paragraphs_defined(views),
                cs == layout_clusters(views),
                paragraphs@.len() == cs.len(),
                k <= paragraphs@.len(),
                forall|j: int| 0 <= j < k ==> (#[trigger] paragraphs@[j])@ == paragraph_of(cs[j], views),
                forall|j: int|
                    k <= j < cs.len() ==> (#[trigger] paragraphs@[j]).bbox == cs[j].bbox
                        && paragraphs@[j].lines@ == cs[j].lines,
            decreases paragraphs@.len() - k,
        {
            let mut p = empty_paragraph();
            paragraphs.set_and_swap(k, &mut p);
            let members = sorted_members(&p.lines, lines);
            proof {
                assert(line_views(members@) == paragraph_lines(cs[k as int], views));
            }
            let font_size = estimate_font_size(members.as_slice());
            p.text = join_line_texts(&members);
            p.font_size = font_size;
            paragraphs.set_and_swap(k, &mut p);
            k = k + 1;
        }
        proof {
            assert(paragraph_views(paragraphs@) =~= paragraphs_spec(views));
        }
        paragraphs
    }
}

} // verus!
