//! Coordinate key rendering and parsing tests.

use underchex::HexCoord;
use underchex::get_all_cells;
use underchex::get_cells_between;
use underchex::get_ray;
use underchex::Direction;

#[test]
fn test_to_key_format() {
    assert_eq!(HexCoord::new(0, 4).to_key(), "0,4");
    assert_eq!(HexCoord::new(-3, 12).to_key(), "-3,12");
    assert_eq!(HexCoord::new(0, 0).to_key(), "0,0");
}

#[test]
fn test_from_key_round_trip() {
    for c in get_all_cells() {
        let parsed = HexCoord::from_key(&c.to_key());
        assert_eq!(parsed, Some(c));
    }
}

#[test]
fn test_from_key_rejects_malformed() {
    assert_eq!(HexCoord::from_key(""), None);
    assert_eq!(HexCoord::from_key("1"), None);
    assert_eq!(HexCoord::from_key("1,2,3"), None);
    assert_eq!(HexCoord::from_key("a,b"), None);
    assert_eq!(HexCoord::from_key("1,"), None);
    assert_eq!(HexCoord::from_key(",1"), None);
    assert_eq!(HexCoord::from_key("99999999999,0"), None);
    assert_eq!(HexCoord::from_key("+3,-4"), Some(HexCoord::new(3, -4)));
}

#[test]
fn test_ray_walks_to_board_edge() {
    let ray = get_ray(HexCoord::new(0, 0), Direction::N);
    assert_eq!(ray.len(), 4);
    assert_eq!(ray[0], HexCoord::new(0, -1));
    assert_eq!(ray[3], HexCoord::new(0, -4));
}

#[test]
fn test_cells_between() {
    let between = get_cells_between(HexCoord::new(0, 2), HexCoord::new(0, -2));
    assert_eq!(
        between,
        Some(vec![HexCoord::new(0, 1), HexCoord::new(0, 0), HexCoord::new(0, -1)])
    );
    assert_eq!(get_cells_between(HexCoord::new(0, 0), HexCoord::new(1, 1)), None);
    assert_eq!(
        get_cells_between(HexCoord::new(0, 0), HexCoord::new(1, 0)),
        Some(vec![])
    );
}
