use ocr_backend::Rect;

fn rect(left: i32, top: i32, width: u32, height: u32) -> Rect {
    Rect { top, left, width, height }
}

#[test]
fn default_rect_is_zero() {
    let r = Rect::default();
    assert_eq!((r.top, r.left, r.width, r.height), (0, 0, 0, 0));
}

#[test]
fn overlapping_boxes_overlap_both_ways() {
    let a = rect(0, 0, 10, 10);
    let b = rect(5, 5, 10, 10);
    assert!(a.overlaps(&b));
    assert!(b.overlaps(&a));
}

#[test]
fn touching_edges_count_as_overlap() {
    let a = rect(0, 0, 10, 10);
    let right_neighbour = rect(10, 0, 10, 10);
    let lower_neighbour = rect(0, 10, 10, 10);
    let corner = rect(10, 10, 5, 5);
    assert!(a.overlaps(&right_neighbour));
    assert!(right_neighbour.overlaps(&a));
    assert!(a.overlaps(&lower_neighbour));
    assert!(a.overlaps(&corner));
}

#[test]
fn separated_boxes_do_not_overlap() {
    let a = rect(0, 0, 10, 10);
    assert!(!a.overlaps(&rect(11, 0, 10, 10)));
    assert!(!a.overlaps(&rect(0, 11, 10, 10)));
    assert!(!a.overlaps(&rect(-20, 0, 10, 10)));
    assert!(!rect(-20, 0, 10, 10).overlaps(&a));
}

#[test]
fn box_overlaps_itself() {
    let a = rect(-7, 3, 4, 9);
    assert!(a.overlaps(&a));
    let point = rect(5, 5, 0, 0);
    assert!(point.overlaps(&point));
}

#[test]
fn horizontal_overlap_alone_is_not_enough() {
    let a = rect(0, 0, 100, 10);
    let below = rect(50, 30, 100, 10);
    assert!(!a.overlaps(&below));
}
