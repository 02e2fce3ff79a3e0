use dzr::geom::{intersect, Coord, Point, SegmentSection, UNIT};

// One tenth of the segment, in units of 1 / UNIT.
const TENTH: i64 = 107_374_182;

#[test]
fn geom_merge_segments() {
    let sec1 = SegmentSection::new(TENTH, 4 * TENTH);
    let sec2 = SegmentSection::new(3 * TENTH, 6 * TENTH);
    assert_eq!(SegmentSection::new(TENTH, 6 * TENTH), sec1.merge(&sec2));
    assert_eq!(sec2.merge(&sec1), sec1.merge(&sec2));
}

#[test]
fn mod_merge_segments() {
    let sec1 = SegmentSection::new(TENTH, 4 * TENTH);
    let sec2 = SegmentSection::new(3 * TENTH, 6 * TENTH);
    assert_eq!(SegmentSection::new(TENTH, 6 * TENTH), sec1.merge(&sec2));
    assert_eq!(sec2.merge(&sec1), sec1.merge(&sec2));
}

#[test]
fn new_orders_and_clamps_its_ends() {
    let s = SegmentSection::new(800, 200);
    assert_eq!(200, s.start_point());
    assert_eq!(800, s.end_point());
    let t = SegmentSection::new(-5, UNIT as i64 + 7);
    assert_eq!(0, t.start_point());
    assert_eq!(UNIT, t.end_point());
    let below = SegmentSection::new(-9, -3);
    assert_eq!(0, below.start_point());
    assert_eq!(0, below.end_point());
    assert!(below.is_empty());
    let above = SegmentSection::new(UNIT as i64 + 1, i64::MAX);
    assert_eq!(UNIT, above.start_point());
    assert_eq!(UNIT, above.end_point());
    assert!(above.is_empty());
}

#[test]
fn empty_section_is_empty_and_not_full() {
    let e = SegmentSection::empty();
    assert!(e.is_empty());
    assert!(!e.is_full());
    assert_eq!(0, e.length());
}

#[test]
fn whole_segment_is_full() {
    let s = SegmentSection::new(0, UNIT as i64);
    assert!(s.is_full());
    assert!(!s.is_empty());
    assert_eq!(UNIT, s.length());
    let nearly = SegmentSection::new(1, UNIT as i64);
    assert!(!nearly.is_full());
    assert_eq!(UNIT - 1, nearly.length());
}

#[test]
fn length_is_end_minus_start() {
    let s = SegmentSection::new(250, 1000);
    assert_eq!(750, s.length());
}

#[test]
fn sections_that_touch_overlap() {
    let a = SegmentSection::new(100, 300);
    let b = SegmentSection::new(300, 500);
    let c = SegmentSection::new(301, 500);
    assert!(a.is_overlapping(&b));
    assert!(b.is_overlapping(&a));
    assert!(!a.is_overlapping(&c));
    assert!(!c.is_overlapping(&a));
    let inner = SegmentSection::new(150, 200);
    assert!(a.is_overlapping(&inner));
    assert!(inner.is_overlapping(&a));
}

#[test]
fn merge_encloses_both_and_is_no_shorter() {
    let a = SegmentSection::new(100, 300);
    let b = SegmentSection::new(700, 900);
    let m = a.merge(&b);
    assert_eq!(100, m.start_point());
    assert_eq!(900, m.end_point());
    assert_eq!(m, b.merge(&a));
    assert!(m.length() >= a.length());
    assert!(m.length() >= b.length());
}

#[test]
fn a_pair_is_a_coordinate() {
    let p: (i64, i64) = (487_000_000, 91_000_000);
    assert_eq!(487_000_000, p.lat());
    assert_eq!(91_000_000, p.lon());
}

#[test]
fn geom_empty_circle_segment_intersection() {
    let result = intersect(&(1, 1), &(2, 2), &(5, 5), 1);
    assert_eq!(true, result.is_empty());
}

#[test]
fn geom_circle_touches_segment_intersection() {
    let result = intersect(&(1, 1), &(2, 2), &(3, 2), 1);
    assert_eq!(true, result.is_empty());
}

#[test]
fn geom_circle_intersects_in_middle_of_segment() {
    let result = intersect(&(1, 1), &(5, 1), &(3, 1), 1);
    assert_eq!(SegmentSection::new(UNIT as i64 / 4, 3 * (UNIT as i64 / 4)), result);
    assert_eq!(false, result.is_empty());
}

#[test]
fn geom_circle_includes_segment() {
    let result = intersect(&(1, 1), &(2, 2), &(3, 2), 10);
    assert_eq!(SegmentSection::new(0, UNIT as i64), result);
    assert_eq!(false, result.is_empty());
}

// The radius of one half: all lengths are doubled.
#[test]
fn geom_circle_includes_one_endpoint() {
    let result = intersect(&(2, 2), &(4, 2), &(2, 2), 1);
    assert_eq!(SegmentSection::new(0, UNIT as i64 / 2), result);
    assert_eq!(false, result.is_empty());
}

// The radius of one half: all lengths are doubled.
#[test]
fn segment_goes_upward() {
    let result = intersect(&(2, 2), &(2, 4), &(2, 2), 1);
    assert_eq!(SegmentSection::new(0, UNIT as i64 / 2), result);
    assert_eq!(false, result.is_empty());
}

#[test]
fn mod_empty_circle_segment_intersection() {
    let result = intersect(&(1, 1), &(2, 2), &(5, 5), 1);
    assert_eq!(true, result.is_empty());
}

#[test]
fn mod_circle_touches_segment_intersection() {
    let result = intersect(&(1, 1), &(2, 2), &(3, 2), 1);
    assert_eq!(true, result.is_empty());
}

#[test]
fn mod_circle_intersects_in_middle_of_segment() {
    let result = intersect(&(1, 1), &(5, 1), &(3, 1), 1);
    assert_eq!(SegmentSection::new(UNIT as i64 / 4, 3 * (UNIT as i64 / 4)), result);
    assert_eq!(false, result.is_empty());
}

#[test]
fn mod_circle_includes_segment() {
    let result = intersect(&(1, 1), &(2, 2), &(3, 2), 10);
    assert_eq!(SegmentSection::new(0, UNIT as i64), result);
    assert_eq!(false, result.is_empty());
}

// The radius of one half: all lengths are doubled.
#[test]
fn mod_circle_includes_one_endpoint() {
    let result = intersect(&(2, 2), &(4, 2), &(2, 2), 1);
    assert_eq!(SegmentSection::new(0, UNIT as i64 / 2), result);
    assert_eq!(false, result.is_empty());
}

#[test]
fn intersection_ends_on_the_points_inside() {
    // a chord: the points from one tenth to nine tenths, each rounded inwards
    let chord = intersect(&(0, 0), &(1000, 0), &(500, 300), 500);
    assert_eq!(107_374_183, chord.start_point());
    assert_eq!(966_367_641, chord.end_point());
    // the far end of a slanted segment
    let end = intersect(&(0, 0), &(1000, 5000), &(1000, 5000), 3000);
    assert_eq!(442_007_535, end.start_point());
    assert_eq!(UNIT, end.end_point());
    assert_eq!(631_734_289, end.length());
}

#[test]
fn a_line_that_misses_or_touches_gives_the_empty_section() {
    // the line passes at distance 5
    let miss = intersect(&(0, 0), &(10, 0), &(5, 5), 4);
    assert_eq!(SegmentSection::empty(), miss);
    // the line touches the circle
    let touch = intersect(&(0, 0), &(10, 0), &(5, 5), 5);
    assert_eq!(SegmentSection::empty(), touch);
    // a segment without length
    let point = intersect(&(3, 3), &(3, 3), &(3, 3), 5);
    assert_eq!(SegmentSection::empty(), point);
    // a disk without radius
    let dot = intersect(&(0, 0), &(10, 0), &(5, 0), 0);
    assert_eq!(SegmentSection::empty(), dot);
    // the line crosses the circle, the segment ends before it
    let short = intersect(&(0, 0), &(10, 0), &(100, 0), 5);
    assert_eq!(SegmentSection::empty(), short);
}

#[test]
fn no_segment_and_no_disk_is_too_large() {
    let far: i64 = 1 << 30;
    let big = intersect(&(0, 0), &(far - 1, far - 1), &(far - 1, 0), far as u64 - 1);
    assert_eq!(SegmentSection::new(0, UNIT as i64), big);
    // a disk of radius 2,000,000,000 around the start of a short segment
    let wide = intersect(&(0, 0), &(0, 1000), &(0, 0), 2_000_000_000);
    assert_eq!(SegmentSection::new(0, UNIT as i64), wide);
    // a small disk far away
    let away = intersect(&(0, 0), &(1000, 0), &(far, 0), 5);
    assert_eq!(SegmentSection::empty(), away);
    // from one end of the plane to the other, through a disk around the middle
    let (least, most) = (i64::MIN, i64::MAX);
    let through = intersect(&(least, least), &(most, most), &(0, 0), 1 << 63);
    assert_eq!(157_245_850, through.start_point());
    assert_eq!(916_495_974, through.end_point());
    let all = intersect(&(least, 0), &(most, 0), &(0, 0), u64::MAX);
    assert_eq!(SegmentSection::new(0, UNIT as i64), all);
    let corner = intersect(&(least, least), &(most, most), &(most, least), u64::MAX);
    assert_eq!(SegmentSection::new(0, UNIT as i64), corner);
    // the line touches the circle between two points of the segment
    let touch = intersect(&(least, 0), &(most, 0), &(0, most), most as u64);
    assert_eq!(SegmentSection::empty(), touch);
    // a little more, and one point of the segment lies in the disk
    let one = intersect(&(least, 0), &(most, 0), &(0, most), most as u64 + 1);
    assert_eq!(UNIT / 2, one.start_point());
    assert_eq!(UNIT / 2, one.end_point());
    assert!(one.is_empty());
    let whole = intersect(
        &(0, 0),
        &(4_000_000_000, 0),
        &(1_000_000_000, 3_000_000_000),
        5_000_000_000,
    );
    assert_eq!(SegmentSection::new(0, UNIT as i64), whole);
}

#[test]
fn a_pair_is_a_point() {
    let p: (i64, i64) = (-3, 8);
    assert_eq!(-3, p.x());
    assert_eq!(8, p.y());
}
