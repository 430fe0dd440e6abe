use gridmove::direction::Direction;
use gridmove::location::Location;

fn all_directions() -> Vec<Direction> {
    vec![
        Direction::NW,
        Direction::N,
        Direction::NE,
        Direction::W,
        Direction::E,
        Direction::SW,
        Direction::S,
        Direction::SE,
        Direction::U,
        Direction::D,
        Direction::UNW,
        Direction::UN,
        Direction::UNE,
        Direction::UW,
        Direction::UE,
        Direction::USW,
        Direction::US,
        Direction::USE,
        Direction::DNW,
        Direction::DN,
        Direction::DNE,
        Direction::DW,
        Direction::DE,
        Direction::DSW,
        Direction::DS,
        Direction::DSE,
    ]
}

#[test]
fn round_trip_every_direction() {
    let p = Location::new(10, 10, 10);
    for d in all_directions() {
        let nb = p.get_loc_from_dir(&d);
        assert_eq!(p.get_dir_from_loc(&nb), Some(d));
    }
}

#[test]
fn round_trip_at_origin() {
    let p = Location::new(1, 1, 1);
    for d in all_directions() {
        let nb = p.get_loc_from_dir(&d);
        assert_eq!(p.get_dir_from_loc(&nb), Some(d));
    }
}

#[test]
fn opposite_is_involution() {
    for d in all_directions() {
        assert_eq!(d.get_opposite().get_opposite(), d);
    }
}

#[test]
fn opposite_steps_back() {
    let p = Location::new(5, 5, 5);
    for d in all_directions() {
        let nb = p.get_loc_from_dir(&d);
        assert_eq!(nb.get_loc_from_dir(&d.get_opposite()), p);
    }
}

#[test]
fn neighbor_offsets_planar() {
    let p = Location::new(3, 0, 3);
    assert_eq!(p.get_loc_from_dir(&Direction::N), Location::new(3, 0, 2));
    assert_eq!(p.get_loc_from_dir(&Direction::S), Location::new(3, 0, 4));
    assert_eq!(p.get_loc_from_dir(&Direction::E), Location::new(4, 0, 3));
    assert_eq!(p.get_loc_from_dir(&Direction::W), Location::new(2, 0, 3));
    assert_eq!(p.get_loc_from_dir(&Direction::NW), Location::new(2, 0, 2));
    assert_eq!(p.get_loc_from_dir(&Direction::SE), Location::new(4, 0, 4));
}

#[test]
fn neighbor_offsets_vertical() {
    let p = Location::new(3, 2, 3);
    assert_eq!(p.get_loc_from_dir(&Direction::U), Location::new(3, 3, 3));
    assert_eq!(p.get_loc_from_dir(&Direction::D), Location::new(3, 1, 3));
    assert_eq!(p.get_loc_from_dir(&Direction::UNE), Location::new(4, 3, 2));
    assert_eq!(p.get_loc_from_dir(&Direction::DSW), Location::new(2, 1, 4));
}

#[test]
fn dir_from_non_adjacent_is_none() {
    let p = Location::new(0, 0, 0);
    assert_eq!(p.get_dir_from_loc(&Location::new(3, 0, 0)), None);
    assert_eq!(p.get_dir_from_loc(&Location::new(2, 2, 2)), None);
    assert_eq!(p.get_dir_from_loc(&Location::new(0, 0, 0)), None);
    assert_eq!(p.get_dir_from_loc(&Location::new(-2, 0, 1)), None);
}

#[test]
fn location_new_fields() {
    let p = Location::new(1, -2, 3);
    assert_eq!(p.x, 1);
    assert_eq!(p.y, -2);
    assert_eq!(p.z, 3);
}
