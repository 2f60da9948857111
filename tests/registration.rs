use beacon_scanner::beacons::BeaconSet;
use beacon_scanner::overlap::{find_overlap, points_overlap, translate_points};
use beacon_scanner::point::Point;
use beacon_scanner::registry::{max_manhattan_distance, register_scanners, Registration, RegistrationError, Scanner};
use beacon_scanner::rotation::get_rotated_points;


const ORIGIN_VIEW: [(i64, i64, i64); 20] = [
    (-237, -592, -92),
    (433, -802, -752),
    (781, 197, -708),
    (-152, 293, -782),
    (139, -461, -824),
    (-724, -12, -44),
    (-757, -408, -715),
    (228, -31, -779),
    (793, 258, -647),
    (-443, 391, 384),
    (293, -774, 281),
    (299, -88, -799),
    (-448, -805, 240),
    (858, -628, -307),
    (-42, -605, 207),
    (-659, 269, -269),
    (247, 771, 496),
    (-530, -689, 291),
    (269, 408, -516),
    (-138, -701, 221),
];

const SECOND_VIEW: [(i64, i64, i64); 20] = [
    (604, 1504, 725),
    (-427, 1637, -511),
    (-324, 472, 225),
    (756, 1158, 231),
    (-283, 441, -516),
    (264, 618, 790),
    (-250, 641, -110),
    (226, 1515, -727),
    (-539, 2017, 179),
    (-334, 557, -598),
    (473, 1654, 201),
    (-264, 545, -206),
    (-298, 474, 490),
    (436, 1613, -846),
    (-231, 1739, 48),
    (214, 1937, -93),
    (-71, 1545, -15),
    (349, 959, -228),
    (-574, 714, 658),
    (690, 845, 629),
];

const THIRD_VIEW: [(i64, i64, i64); 24] = [
    (733, -1976, 858),
    (938, -516, 1635),
    (1745, -1613, 836),
    (1008, -504, 1243),
    (974, -433, 547),
    (1708, -1572, 1883),
    (1041, -1698, 989),
    (1486, -1896, 1130),
    (1201, -1504, 1052),
    (1621, -918, 1265),
    (698, -673, 379),
    (1962, -804, 408),
    (1054, -919, 829),
    (1426, -2097, 992),
    (1540, -1224, 512),
    (1888, -454, 758),
    (1792, -1161, 957),
    (1818, -1005, 455),
    (2049, -1168, 1004),
    (564, -463, 637),
    (513, -1478, 863),
    (1487, -1980, 213),
    (1412, -1728, 1309),
    (942, -1322, 788),
];

const ELEVEN_SHARED_VIEW: [(i64, i64, i64); 12] = [
    (-371, -453, 354),
    (794, 283, 251),
    (108, 289, -829),
    (825, -458, 210),
    (648, 848, -337),
    (625, -52, 177),
    (-249, -669, -299),
    (-751, 237, 466),
    (709, -540, 261),
    (-388, 259, -546),
    (721, -148, 191),
    (-4980, 4990, 4970),
];

const SECOND_IN_GLOBAL: [(i64, i64, i64); 20] = [
    (793, 258, -647),
    (-443, 391, 384),
    (293, -774, 281),
    (299, -88, -799),
    (-448, -805, 240),
    (858, -628, -307),
    (-42, -605, 207),
    (-659, 269, -269),
    (247, 771, 496),
    (-530, -689, 291),
    (269, 408, -516),
    (-138, -701, 221),
    (558, -772, 255),
    (-778, 367, -479),
    (116, 493, 188),
    (-25, 691, -257),
    (53, 299, 28),
    (-160, -287, -392),
    (726, -532, 531),
    (697, -401, -733),
];

fn cloud(pts: &[(i64, i64, i64)]) -> Vec<Point> {
    pts.iter().map(|&(x, y, z)| Point::new(x, y, z)).collect()
}

fn scanner(num: u8, pts: &[(i64, i64, i64)]) -> Scanner {
    let mut s = Scanner::new(num);
    for p in cloud(pts) {
        s.add_point(p);
    }
    s
}

fn location(reg: &Registration, num: u8) -> Point {
    reg.scanners.iter().find(|s| s.num == num).unwrap().location.unwrap()
}

#[test]
fn overlap_finds_position_and_global_points() {
    let found = find_overlap(&cloud(&ORIGIN_VIEW), &cloud(&SECOND_VIEW)).unwrap();
    assert_eq!(found.0, Point::new(68, -1246, -43));
    assert_eq!(found.1, cloud(&SECOND_IN_GLOBAL));
}

#[test]
fn overlap_is_found_in_both_directions() {
    let ab = find_overlap(&cloud(&ORIGIN_VIEW), &cloud(&SECOND_VIEW));
    let ba = find_overlap(&cloud(&SECOND_VIEW), &cloud(&ORIGIN_VIEW));
    assert!(ab.is_some());
    assert!(ba.is_some());
    assert_eq!(ba.unwrap().0, Point::new(-43, 1246, -68));
}

#[test]
fn eleven_shared_points_are_not_an_overlap() {
    assert!(find_overlap(&cloud(&ORIGIN_VIEW), &cloud(&ELEVEN_SHARED_VIEW)).is_none());
    assert!(find_overlap(&cloud(&ELEVEN_SHARED_VIEW), &cloud(&ORIGIN_VIEW)).is_none());
}

#[test]
fn twelve_shared_points_are_an_overlap() {
    // The second and third views share exactly twelve beacons.
    assert!(find_overlap(&cloud(&SECOND_IN_GLOBAL), &cloud(&THIRD_VIEW)).is_some());
}

#[test]
fn overlap_against_empty_reference_is_none() {
    assert!(find_overlap(&Vec::new(), &cloud(&SECOND_VIEW)).is_none());
}

#[test]
fn points_overlap_on_identical_clouds_uses_zero_shift() {
    let c = cloud(&ORIGIN_VIEW);
    let found = points_overlap(&c, &c).unwrap();
    assert_eq!(found.0, Point::new(0, 0, 0));
    assert_eq!(found.1, c);
}

#[test]
fn points_overlap_needs_the_right_rotation() {
    let second = cloud(&SECOND_VIEW);
    assert!(points_overlap(&cloud(&ORIGIN_VIEW), &second).is_none());
    let turned = get_rotated_points(5, &second);
    let found = points_overlap(&cloud(&ORIGIN_VIEW), &turned).unwrap();
    assert_eq!(found.0, Point::new(68, -1246, -43));
}

#[test]
fn translate_points_shifts_each_point() {
    let moved = translate_points(&cloud(&[(1, 2, 3), (-4, 0, 9)]), &Point::new(10, -20, 30));
    assert_eq!(moved, cloud(&[(11, -18, 33), (6, -20, 39)]));
}

#[test]
fn registers_a_chain_of_three_scanners() {
    let input = vec![scanner(0, &SECOND_VIEW), scanner(1, &THIRD_VIEW), scanner(2, &ORIGIN_VIEW)];
    let reg = register_scanners(&input).unwrap();
    assert_eq!(reg.scanners.len(), 3);
    let order: Vec<u8> = reg.scanners.iter().map(|s| s.num).collect();
    assert_eq!(order, vec![2, 0, 1]);
    assert_eq!(location(&reg, 2), Point::new(0, 0, 0));
    assert_eq!(location(&reg, 0), Point::new(68, -1246, -43));
    assert_eq!(location(&reg, 1), Point::new(1105, -1205, 1229));
    assert_eq!(reg.beacons.count(), 40);
    for s in &reg.scanners {
        assert_eq!(s.global_points.as_ref().unwrap().len(), s.points.len());
    }
}

#[test]
fn registration_is_deterministic() {
    let input = vec![scanner(0, &SECOND_VIEW), scanner(1, &THIRD_VIEW), scanner(2, &ORIGIN_VIEW)];
    let a = register_scanners(&input).unwrap();
    let b = register_scanners(&input).unwrap();
    assert_eq!(a.beacons.count(), b.beacons.count());
    for s in &a.scanners {
        assert_eq!(s.location, Some(location(&b, s.num)));
    }
}

#[test]
fn disjoint_scanners_are_unsolvable() {
    let input = vec![scanner(0, &ELEVEN_SHARED_VIEW), scanner(1, &ORIGIN_VIEW)];
    match register_scanners(&input) {
        Err(e) => assert_eq!(e, RegistrationError::UnsolvableOverlapGraph { unregistered: 1 }),
        Ok(_) => panic!("expected an unsolvable overlap graph"),
    }
}

#[test]
fn unreachable_scanners_are_counted() {
    let input = vec![scanner(0, &THIRD_VIEW), scanner(1, &ELEVEN_SHARED_VIEW), scanner(2, &ORIGIN_VIEW)];
    match register_scanners(&input) {
        Err(e) => assert_eq!(e, RegistrationError::UnsolvableOverlapGraph { unregistered: 2 }),
        Ok(_) => panic!("expected an unsolvable overlap graph"),
    }
}

#[test]
fn single_scanner_is_the_origin() {
    let input = vec![scanner(4, &ORIGIN_VIEW)];
    let reg = register_scanners(&input).unwrap();
    assert_eq!(reg.scanners.len(), 1);
    assert_eq!(reg.scanners[0].location, Some(Point::new(0, 0, 0)));
    assert_eq!(reg.scanners[0].global_points, Some(cloud(&ORIGIN_VIEW)));
    assert_eq!(reg.beacons.count(), 20);
}

#[test]
fn no_scanners_register_to_nothing() {
    let reg = register_scanners(&Vec::new()).unwrap();
    assert!(reg.scanners.is_empty());
    assert_eq!(reg.beacons.count(), 0);
}

#[test]
fn manhattan_distance_of_registered_positions() {
    let positions = cloud(&[(0, 0, 0), (68, -1246, -43), (1105, -1205, 1229)]);
    assert_eq!(max_manhattan_distance(&positions), 1105 + 1205 + 1229);
    let two = cloud(&[(1105, -1205, 1229), (-92, -2380, -20)]);
    assert_eq!(max_manhattan_distance(&two), 3621);
    assert_eq!(max_manhattan_distance(&Vec::new()), 0);
    assert_eq!(max_manhattan_distance(&cloud(&[(5, 5, 5)])), 0);
}

#[test]
fn manhattan_distance_at_the_coordinate_limits() {
    let far = cloud(&[(i64::MAX, i64::MAX, i64::MAX), (-i64::MAX, -i64::MAX, -i64::MAX)]);
    assert_eq!(max_manhattan_distance(&far), 6 * (i64::MAX as u128));
}

#[test]
fn beacon_set_keeps_distinct_points() {
    let mut set = BeaconSet::new();
    assert_eq!(set.count(), 0);
    set.add_all(&cloud(&[(1, 2, 3), (1, 2, 3), (3, 2, 1)]));
    assert_eq!(set.count(), 2);
    set.add(Point::new(3, 2, 1));
    assert_eq!(set.count(), 2);
    assert!(set.contains(&Point::new(1, 2, 3)));
    assert!(!set.contains(&Point::new(2, 2, 2)));
}

#[test]
fn scanner_collects_points_in_order() {
    let mut s = Scanner::new(7);
    assert_eq!(s.num, 7);
    assert!(s.points.is_empty());
    assert!(s.location.is_none());
    s.add_point(Point::new(1, -2, 3));
    s.add_point(Point::new(-4, 5, -6));
    assert_eq!(s.points, cloud(&[(1, -2, 3), (-4, 5, -6)]));
}
