use dzr::graph::EdgeInfo;
use dzr::pbf::{
    determine_speed, is_not_for_cars, is_not_for_pedestrians, is_one_way, parse_number,
    parse_truth, same, way_edges,
};

#[test]
fn numbers_are_read_as_the_standard_library_reads_them() {
    for text in ["0", "7", "007", "+12", "130", "18446744073709551615", "99999999999999999999",
        "", "+", "-1", "1 ", " 1", "1.5", "12a", "++1", "١"]
    {
        assert_eq!(text.parse::<usize>().ok(), parse_number(text), "{}", text);
    }
    assert_eq!(Some(130), parse_number("130"));
    assert_eq!(None, parse_number("fast"));
}

#[test]
fn truth_values_are_true_and_false() {
    assert_eq!(Some(true), parse_truth("true"));
    assert_eq!(Some(false), parse_truth("false"));
    assert_eq!(None, parse_truth("yes"));
    assert_eq!(None, parse_truth("True"));
    assert_eq!(None, parse_truth(""));
}

#[test]
fn same_compares_texts() {
    assert!(same("", ""));
    assert!(same("motorway", "motorway"));
    assert!(!same("motorway", "motorwaz"));
    assert!(!same("motorway", "motor"));
    assert!(same("straße", "straße"));
}

#[test]
fn speed_comes_from_the_tag_or_from_the_kind_of_way() {
    assert_eq!(30, determine_speed(Some("30"), Some("motorway")));
    assert_eq!(130, determine_speed(Some("none"), Some("motorway")));
    assert_eq!(130, determine_speed(None, Some("motorway")));
    assert_eq!(50, determine_speed(None, Some("residential")));
    assert_eq!(100, determine_speed(None, Some("primary")));
    assert_eq!(100, determine_speed(None, None));
    assert_eq!(0, determine_speed(Some("0"), None));
}

#[test]
fn one_way_comes_from_the_tag_or_from_the_kind_of_way() {
    assert!(is_one_way(Some("true"), Some("residential")));
    assert!(!is_one_way(Some("false"), Some("motorway")));
    assert!(is_one_way(Some("yes"), Some("motorway")));
    assert!(!is_one_way(Some("yes"), Some("residential")));
    assert!(is_one_way(None, Some("motorway")));
    assert!(!is_one_way(None, None));
}

#[test]
fn ways_closed_to_cars() {
    for kind in ["footway", "bridleway", "steps", "path", "cycleway", "track", "proposed",
        "construction", "pedestrian"]
    {
        assert!(is_not_for_cars(Some(kind)), "{}", kind);
    }
    for kind in ["motorway", "residential", "primary", "trunk", ""] {
        assert!(!is_not_for_cars(Some(kind)), "{}", kind);
    }
    assert!(!is_not_for_cars(None));
}

#[test]
fn ways_closed_to_pedestrians() {
    for kind in ["motorway", "trunk", "proposed", "construction", "primary"] {
        assert!(is_not_for_pedestrians(Some(kind), None), "{}", kind);
        assert!(is_not_for_pedestrians(Some(kind), Some("no")), "{}", kind);
        assert!(!is_not_for_pedestrians(Some(kind), Some("both")), "{}", kind);
    }
    for kind in ["residential", "footway", "secondary"] {
        assert!(!is_not_for_pedestrians(Some(kind), None), "{}", kind);
    }
    assert!(!is_not_for_pedestrians(None, None));
    assert!(!is_not_for_pedestrians(None, Some("no")));
}

#[test]
fn a_way_gives_an_edge_for_every_step_and_one_back() {
    let edges = way_edges(&[10, 20, 30], 50, false, false, false);
    assert_eq!(
        vec![
            EdgeInfo::new(10, 20, 0, 50),
            EdgeInfo::new(20, 10, 0, 50),
            EdgeInfo::new(20, 30, 0, 50),
            EdgeInfo::new(30, 20, 0, 50),
        ],
        edges
    );
}

#[test]
fn a_one_way_gives_no_edges_back() {
    let edges = way_edges(&[10, 20, 30], 130, true, false, true);
    let mut first = EdgeInfo::new(10, 20, 0, 130);
    first.not_for_pedestrians();
    let mut second = EdgeInfo::new(20, 30, 0, 130);
    second.not_for_pedestrians();
    assert_eq!(vec![first, second], edges);
}

#[test]
fn a_way_closed_to_cars_is_open_to_pedestrians() {
    let edges = way_edges(&[1, 2], 100, true, true, false);
    let mut only = EdgeInfo::new(1, 2, 0, 100);
    only.not_for_cars();
    assert_eq!(vec![only], edges);
    assert!(edges[0].for_pedestrians);
}

#[test]
fn a_way_closed_to_all_or_too_short_gives_no_edges() {
    assert!(way_edges(&[1, 2, 3], 100, false, true, true).is_empty());
    assert!(way_edges(&[1], 100, false, false, false).is_empty());
    assert!(way_edges(&[], 100, false, false, false).is_empty());
}
