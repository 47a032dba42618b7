use pluscodes::decode::{is_valid_code, resolution};
use pluscodes::utils::place_weight;
use pluscodes::{decode, encode, Coordinate};

fn check_round_trip(c: Coordinate) {
    for length in [2usize, 4, 6, 8, 10] {
        let code = encode(&c, length).unwrap();
        assert!(is_valid_code(&code), "{}", code);
        let cell = resolution(&code);
        assert_eq!(cell, place_weight(length / 2 - 1));
        let half = cell / 2;
        let back = decode(&code).unwrap();
        assert!((back.latitude - c.latitude).abs() <= half, "{} {:?}", code, c);
        assert!((back.longitude - c.longitude).abs() <= half, "{} {:?}", code, c);
        assert!(back.latitude - half <= c.latitude && c.latitude < back.latitude + half);
        assert!(back.longitude - half <= c.longitude && c.longitude < back.longitude + half);
    }
}

#[test]
fn a_decoded_code_lies_within_half_a_cell_of_the_point() {
    check_round_trip(Coordinate { latitude: 593_324_380, longitude: 181_188_130 });
    check_round_trip(Coordinate { latitude: 0, longitude: 0 });
    check_round_trip(Coordinate { latitude: -338_688_000, longitude: 1_512_093_000 });
    check_round_trip(Coordinate { latitude: 374_223_041, longitude: -1_220_847_832 });
    check_round_trip(Coordinate { latitude: -1, longitude: -1 });
    check_round_trip(Coordinate { latitude: 1, longitude: 1 });
}

#[test]
fn the_round_trip_holds_at_the_edges_of_the_globe() {
    check_round_trip(Coordinate { latitude: 900_000_000, longitude: 1_800_000_000 });
    check_round_trip(Coordinate { latitude: -900_000_000, longitude: -1_800_000_000 });
    check_round_trip(Coordinate { latitude: 900_000_000, longitude: -1_800_000_000 });
    check_round_trip(Coordinate { latitude: -900_000_000, longitude: 1_800_000_000 });
    check_round_trip(Coordinate { latitude: 899_999_999, longitude: 1_799_999_999 });
}

#[test]
fn the_round_trip_holds_on_a_grid_of_points() {
    let mut latitude: i64 = -900_000_000;
    while latitude <= 900_000_000 {
        let mut longitude: i64 = -1_800_000_000;
        while longitude <= 1_800_000_000 {
            check_round_trip(Coordinate { latitude, longitude });
            longitude += 97_300_007;
        }
        latitude += 61_700_003;
    }
}

#[test]
fn the_round_trip_holds_on_both_sides_of_a_cell_boundary() {
    for offset in [-1250i64, -626, -625, -624, -1, 0, 1, 624, 625, 626, 1249, 1250] {
        check_round_trip(Coordinate {
            latitude: 593_325_000 + offset,
            longitude: 181_187_500 + offset,
        });
    }
}

#[test]
fn encoding_a_cell_centre_gives_the_code_back() {
    for code in ["9FFW84J9+XG", "9FFW83PH+94", "22222222+22", "6FG22222+22", "849VCWC8+W3"] {
        let centre = decode(code).unwrap();
        assert_eq!(encode(&centre, 10), Ok(code.to_string()));
    }
    for (code, length) in [("9F000000+", 2usize), ("9FFW0000+", 4), ("9FFW8400+", 6), ("9FFW84J9+", 8)] {
        let centre = decode(code).unwrap();
        assert_eq!(encode(&centre, length), Ok(code.to_string()));
    }
}
