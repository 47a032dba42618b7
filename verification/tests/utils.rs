use pluscodes::utils::{
    coordinate_tokens, max, min, parse_coordinate, place_weight, push_pieces, DIGITS, PADDING,
    SEPARATOR, UNITS_PER_DEGREE,
};
use pluscodes::{Coordinate, Error};

fn texts(items: &[&str]) -> Vec<String> {
    items.iter().map(|item| item.to_string()).collect()
}

fn units(degrees: f64) -> i64 {
    (degrees * 1e7).round() as i64
}

fn numbers(tokens: &[String]) -> Vec<Option<i64>> {
    tokens.iter().map(|token| token.parse::<f64>().ok().map(units)).collect()
}

fn parse(items: &[&str]) -> Result<Coordinate, Error> {
    let coords = texts(items);
    let values = numbers(&coordinate_tokens(&coords));
    parse_coordinate(coords, values)
}

#[test]
fn picks_the_smaller_and_the_larger() {
    assert_eq!(min(1, 2), 1);
    assert_eq!(min(2, 1), 1);
    assert_eq!(min(-3, -3), -3);
    assert_eq!(min(i64::MIN, i64::MAX), i64::MIN);
    assert_eq!(max(1, 2), 2);
    assert_eq!(max(2, 1), 2);
    assert_eq!(max(-3, -3), -3);
    assert_eq!(max(i64::MIN, i64::MAX), i64::MAX);
}

#[test]
fn the_alphabet_has_twenty_symbols_without_padding_or_separator() {
    assert_eq!(DIGITS.chars().count(), 20);
    assert!(!DIGITS.contains(PADDING));
    assert!(!DIGITS.contains(SEPARATOR));
    assert_eq!(UNITS_PER_DEGREE, 10_000_000);
}

#[test]
fn each_place_weighs_a_twentieth_of_the_one_before() {
    assert_eq!(place_weight(0), 20 * UNITS_PER_DEGREE);
    assert_eq!(place_weight(1), UNITS_PER_DEGREE);
    assert_eq!(place_weight(2), 500_000);
    assert_eq!(place_weight(3), 25_000);
    assert_eq!(place_weight(4), 1_250);
}

#[test]
fn cuts_texts_at_commas_and_drops_empty_pieces() {
    assert_eq!(coordinate_tokens(&texts(&["10.0,20.0"])), texts(&["10.0", "20.0"]));
    assert_eq!(coordinate_tokens(&texts(&["10.0", "20.0"])), texts(&["10.0", "20.0"]));
    assert_eq!(coordinate_tokens(&texts(&["10.0,", "20.0"])), texts(&["10.0", "20.0"]));
    assert_eq!(coordinate_tokens(&texts(&[",,a,,b,", "", ",", "c"])), texts(&["a", "b", "c"]));
    assert_eq!(coordinate_tokens(&texts(&[])), texts(&[]));
    assert_eq!(coordinate_tokens(&texts(&["", ",,,"])), texts(&[]));
    assert_eq!(coordinate_tokens(&texts(&["é,ü"])), texts(&["é", "ü"]));
    assert_eq!(coordinate_tokens(&texts(&[" 1 , 2 "])), texts(&[" 1 ", " 2 "]));
}

#[test]
fn adds_the_pieces_of_one_text_to_a_list() {
    let mut tokens = texts(&["x"]);
    push_pieces(&mut tokens, "a,,bc");
    assert_eq!(tokens, texts(&["x", "a", "bc"]));
    push_pieces(&mut tokens, "");
    assert_eq!(tokens, texts(&["x", "a", "bc"]));
    push_pieces(&mut tokens, "d");
    assert_eq!(tokens, texts(&["x", "a", "bc", "d"]));
}

#[test]
fn parses_one_joined_token_or_two_separate_ones() {
    let expected = Ok(Coordinate { latitude: 100_000_000, longitude: 200_000_000 });
    assert_eq!(parse(&["10.0,20.0"]), expected);
    assert_eq!(parse(&["10.0", "20.0"]), expected);
    assert_eq!(parse(&["10.0,", "20.0"]), expected);
    assert_eq!(
        parse(&["59.332438,18.118813"]),
        Ok(Coordinate { latitude: 593_324_380, longitude: 181_188_130 })
    );
    assert_eq!(
        parse(&["-33.8688", "151.2093"]),
        Ok(Coordinate { latitude: -338_688_000, longitude: 1_512_093_000 })
    );
}

#[test]
fn refuses_anything_but_two_numbers() {
    for items in [
        &[][..],
        &["10.0"][..],
        &["10.0,20.0", "20.0"][..],
        &["10.0", "20.0", "30.0"][..],
        &["north", "20.0"][..],
        &["10.0", "east"][..],
        &["10.0;20.0"][..],
        &[","][..],
    ] {
        assert_eq!(parse(items), Err(Error::InvalidCoordinates(texts(items))));
    }
}

#[test]
fn the_given_values_decide_what_is_parsed() {
    let coords = texts(&["a", "b"]);
    assert_eq!(
        parse_coordinate(coords.clone(), vec![Some(1), Some(-2)]),
        Ok(Coordinate { latitude: 1, longitude: -2 })
    );
    assert_eq!(
        parse_coordinate(coords.clone(), vec![None, Some(2)]),
        Err(Error::InvalidCoordinates(coords.clone()))
    );
    assert_eq!(
        parse_coordinate(coords.clone(), vec![Some(1), None]),
        Err(Error::InvalidCoordinates(coords.clone()))
    );
    assert_eq!(
        parse_coordinate(coords.clone(), vec![Some(1)]),
        Err(Error::InvalidCoordinates(coords.clone()))
    );
    assert_eq!(
        parse_coordinate(coords.clone(), vec![Some(1), Some(2), Some(3)]),
        Err(Error::InvalidCoordinates(coords.clone()))
    );
    assert_eq!(
        parse_coordinate(coords.clone(), vec![]),
        Err(Error::InvalidCoordinates(coords))
    );
}

#[test]
fn says_each_error_in_words() {
    assert_eq!(
        Error::InvalidLength(3).message(),
        "Invalid length 3, should be 2, 4, 6, 8 or 10"
    );
    assert_eq!(
        Error::InvalidLength(0).message(),
        "Invalid length 0, should be 2, 4, 6, 8 or 10"
    );
    assert_eq!(
        Error::InvalidLength(1234).message(),
        "Invalid length 1234, should be 2, 4, 6, 8 or 10"
    );
    assert_eq!(Error::InvalidCode("foo".to_string()).message(), "Invalid code: foo");
    assert_eq!(Error::InvalidCode(String::new()).message(), "Invalid code: ");
    assert_eq!(
        Error::InvalidCoordinates(texts(&["10.0", "east"])).message(),
        "Invalid coordinate: [\"10.0\", \"east\"]"
    );
    assert_eq!(
        Error::InvalidCoordinates(texts(&[])).message(),
        "Invalid coordinate: []"
    );
    assert_eq!(
        Error::InvalidCoordinates(texts(&["a\"b"])).message(),
        "Invalid coordinate: [\"a\\\"b\"]"
    );
}
