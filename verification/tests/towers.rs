use dzr::geom::{SegmentSection, UNIT};
use dzr::graph::NodeInfo;
use dzr::towers::{accumulate_sections, edge_coverage, Coverage, Provider, Tower, TowerType};

fn tower(net: Provider, lat: i64, lon: i64, range: u64) -> Tower {
    Tower { radio: TowerType::GSM, net, lat, lon, range }
}

// The plane in which a degree is a millimetre.
fn plain(point: (i64, i64), _lat0: i64) -> (i64, i64) {
    point
}

#[test]
fn no_sections_cover_nothing() {
    assert_eq!(0, accumulate_sections(Vec::new()));
}

#[test]
fn sections_apart_add_up() {
    let sections = vec![SegmentSection::new(700, 900), SegmentSection::new(100, 300)];
    assert_eq!(400, accumulate_sections(sections));
}

#[test]
fn sections_that_overlap_count_once() {
    let sections = vec![
        SegmentSection::new(300, 600),
        SegmentSection::new(100, 400),
        SegmentSection::new(350, 450),
        SegmentSection::new(600, 650),
        SegmentSection::new(900, 1000),
    ];
    assert_eq!(650, accumulate_sections(sections));
}

#[test]
fn union_length_never_exceeds_the_segment() {
    let sections = vec![
        SegmentSection::new(0, UNIT as i64),
        SegmentSection::new(0, UNIT as i64),
        SegmentSection::new(10, 20),
        SegmentSection::new(UNIT as i64 / 2, UNIT as i64),
    ];
    assert_eq!(UNIT, accumulate_sections(sections));
    let halves = vec![
        SegmentSection::new(0, UNIT as i64 / 2),
        SegmentSection::new(UNIT as i64 / 2, UNIT as i64),
    ];
    assert_eq!(UNIT, accumulate_sections(halves));
}

#[test]
fn empty_sections_add_nothing() {
    let sections = vec![
        SegmentSection::empty(),
        SegmentSection::new(5, 5),
        SegmentSection::new(10, 30),
        SegmentSection::new(40, 40),
    ];
    assert_eq!(20, accumulate_sections(sections));
}

#[test]
fn edge_coverage_is_counted_by_provider() {
    let s = NodeInfo::new(1, 0, 0, 0);
    let t = NodeInfo::new(2, 1000, 0, 0);
    let first = vec![
        tower(Provider::Telekom, 100, 0, 100),
        tower(Provider::O2, 500, 300, 500),
    ];
    let second = vec![
        tower(Provider::Telekom, 250, 0, 100),
        tower(Provider::Telekom, 750, 0, 250),
        tower(Provider::Telekom, 5000, 0, 100),
    ];
    let none: Vec<Tower> = Vec::new();
    let parts: Vec<&[Tower]> = vec![&first, &none, &second];
    let (tele, voda, o2) = edge_coverage(&s, &t, parts, &plain);
    // the first two sections join to 0..0.35, and 0.5..1 stands alone
    assert_eq!(375_809_638 + UNIT / 2, tele);
    assert_eq!(0, voda);
    assert_eq!(966_367_641 - 107_374_183, o2);
}

#[test]
fn edge_coverage_without_towers_is_zero() {
    let s = NodeInfo::new(1, 0, 0, 0);
    let t = NodeInfo::new(2, 1, 1, 0);
    assert_eq!((0, 0, 0), edge_coverage(&s, &t, Vec::new(), &plain));
}

#[test]
fn the_latitude_of_the_tower_goes_to_the_projection() {
    let s = NodeInfo::new(1, 0, 0, 0);
    let t = NodeInfo::new(2, 1000, 0, 0);
    // the plane shrinks with the latitude: a tower at latitude 2 sees the
    // edge at half its size
    let shrink = |point: (i64, i64), lat0: i64| (point.0 / lat0, point.1 / lat0);
    let towers = vec![tower(Provider::O2, 2, 0, 250)];
    let parts: Vec<&[Tower]> = vec![&towers];
    // from 1 - 250 < 0 to 1 + 250 of 500
    assert_eq!((0, 0, 539_018_395), edge_coverage(&s, &t, parts, &shrink));
}

#[test]
fn a_tower_covers_whatever_its_range_and_its_distance() {
    let s = NodeInfo::new(1, 0, 0, 0);
    let t = NodeInfo::new(2, 1000, 0, 0);
    let towers = vec![tower(Provider::O2, 0, 0, 1 << 30), tower(Provider::Vodafone, 1 << 30, 0, 5)];
    let parts: Vec<&[Tower]> = vec![&towers];
    assert_eq!((0, 0, UNIT), edge_coverage(&s, &t, parts, &plain));
    let u = NodeInfo::new(3, 0, 1000, 0);
    let wide = vec![tower(Provider::Vodafone, 0, 0, 2_000_000_000)];
    let parts: Vec<&[Tower]> = vec![&wide];
    assert_eq!((0, UNIT, 0), edge_coverage(&s, &u, parts, &plain));
    // half of a segment across the whole plane
    let west = NodeInfo::new(4, 0, i64::MIN, 0);
    let east = NodeInfo::new(5, 0, i64::MAX, 0);
    let half = vec![tower(Provider::Telekom, 0, i64::MIN, 1 << 63)];
    let parts: Vec<&[Tower]> = vec![&half];
    assert_eq!((UNIT / 2, 0, 0), edge_coverage(&west, &east, parts, &plain));
}

#[test]
fn coverage_store_starts_at_zero_and_keeps_what_is_set() {
    let mut c = Coverage::new(3);
    assert_eq!(&vec![0, 0, 0], c.get_all(Some(Provider::Telekom)).unwrap());
    assert_eq!(&vec![0, 0, 0], c.get_all(Some(Provider::Vodafone)).unwrap());
    assert_eq!(&vec![0, 0, 0], c.get_all(Some(Provider::O2)).unwrap());
    assert!(c.get_all(None).is_none());
    c.set(&Provider::Vodafone, 1, UNIT);
    c.set(&Provider::O2, 2, 17);
    assert_eq!(&vec![0, 0, 0], c.get_all(Some(Provider::Telekom)).unwrap());
    assert_eq!(&vec![0, UNIT, 0], c.get_all(Some(Provider::Vodafone)).unwrap());
    assert_eq!(&vec![0, 0, 17], c.get_all(Some(Provider::O2)).unwrap());
}

#[test]
fn providers_are_stored_as_one_two_three() {
    assert_eq!(1, Provider::Telekom.code());
    assert_eq!(2, Provider::Vodafone.code());
    assert_eq!(3, Provider::O2.code());
    assert_eq!(Some(Provider::Telekom), Provider::from_code(1));
    assert_eq!(Some(Provider::Vodafone), Provider::from_code(2));
    assert_eq!(Some(Provider::O2), Provider::from_code(3));
    assert_eq!(None, Provider::from_code(0));
    assert_eq!(None, Provider::from_code(4));
}

#[test]
fn a_new_store_is_valid() {
    let c = Coverage::new(4);
    assert!(c.is_valid());
    assert_eq!(4, c.len());
    assert!(Coverage::new(0).is_valid());
}
