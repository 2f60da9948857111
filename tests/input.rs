use beacon_scanner::input::{parse_coord, parse_point, read_scanners, split_fields, ReadError};
use beacon_scanner::point::Point;
use beacon_scanner::registry::register_scanners;

fn lines(text: &str) -> Vec<Vec<u8>> {
    text.lines().map(|l| l.as_bytes().to_vec()).collect()
}

#[test]
fn reads_blocks_of_points() {
    let input = lines("--- scanner 0 ---\n404,-588,-901\n528,-643,409\n\n--- scanner 1 ---\n686,422,578\n");
    let scanners = read_scanners(&input).unwrap();
    assert_eq!(scanners.len(), 2);
    assert_eq!(scanners[0].num, 0);
    assert_eq!(scanners[0].points, vec![Point::new(404, -588, -901), Point::new(528, -643, 409)]);
    assert_eq!(scanners[1].num, 1);
    assert_eq!(scanners[1].points, vec![Point::new(686, 422, 578)]);
    assert!(scanners[1].location.is_none());
}

#[test]
fn reads_a_scanner_without_points() {
    let scanners = read_scanners(&lines("--- scanner 7 ---\n\n--- scanner 9 ---\n1,2,3")).unwrap();
    assert_eq!(scanners.len(), 2);
    assert!(scanners[0].points.is_empty());
    assert_eq!(scanners[1].num, 9);
}

#[test]
fn empty_input_reads_no_scanners() {
    assert!(read_scanners(&Vec::new()).unwrap().is_empty());
}

#[test]
fn header_without_id_is_malformed() {
    let r = read_scanners(&lines("--- scanner 0 ---\n1,2,3\n--- scanner x ---\n"));
    assert_eq!(r.err(), Some(ReadError::MalformedInput { line: 2 }));
    let r = read_scanners(&lines("--- scanner 256 ---\n"));
    assert_eq!(r.err(), Some(ReadError::MalformedInput { line: 0 }));
}

#[test]
fn bad_coordinate_line_is_malformed() {
    let r = read_scanners(&lines("--- scanner 0 ---\n1,2\n"));
    assert_eq!(r.err(), Some(ReadError::MalformedInput { line: 1 }));
    let r = read_scanners(&lines("--- scanner 0 ---\n1,2,3\n1,a,3\n"));
    assert_eq!(r.err(), Some(ReadError::MalformedInput { line: 2 }));
}

#[test]
fn point_before_any_header_is_malformed() {
    let r = read_scanners(&lines("1,2,3\n--- scanner 0 ---\n"));
    assert_eq!(r.err(), Some(ReadError::MalformedInput { line: 0 }));
}

#[test]
fn coordinates_cover_the_32_bit_range() {
    assert_eq!(parse_coord(&b"-2147483648".to_vec()), Some(-2147483648));
    assert_eq!(parse_coord(&b"2147483647".to_vec()), Some(2147483647));
    assert_eq!(parse_coord(&b"+17".to_vec()), Some(17));
    assert_eq!(parse_coord(&b"007".to_vec()), Some(7));
    assert_eq!(parse_coord(&b"2147483648".to_vec()), None);
    assert_eq!(parse_coord(&b"-2147483649".to_vec()), None);
    assert_eq!(parse_coord(&b"-".to_vec()), None);
    assert_eq!(parse_coord(&b"".to_vec()), None);
    assert_eq!(parse_coord(&b"1 ".to_vec()), None);
}

#[test]
fn point_lines_need_exactly_three_fields() {
    assert_eq!(parse_point(&b"-1,0,22".to_vec()), Some(Point::new(-1, 0, 22)));
    assert_eq!(parse_point(&b"1,2,3,4".to_vec()), None);
    assert_eq!(parse_point(&b"1,2,".to_vec()), None);
}

#[test]
fn fields_split_at_every_comma() {
    assert_eq!(split_fields(&b"a,,bc,".to_vec()), vec![b"a".to_vec(), vec![], b"bc".to_vec(), vec![]]);
    assert_eq!(split_fields(&Vec::new()), vec![Vec::<u8>::new()]);
}

#[test]
fn read_then_register_a_lone_scanner() {
    let scanners = read_scanners(&lines("--- scanner 3 ---\n1,2,3\n4,5,6\n1,2,3\n")).unwrap();
    let reg = register_scanners(&scanners).unwrap();
    assert_eq!(reg.scanners[0].num, 3);
    assert_eq!(reg.beacons.count(), 2);
}
