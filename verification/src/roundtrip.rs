use vstd::prelude::*;
use vstd::arithmetic::div_mod::{lemma_fundamental_div_mod, lemma_mod_bound};
use crate::decode::{
    axis_value, cell_size, code_digits, decoded_latitude, decoded_longitude, is_digit_pair,
    is_digit_symbol, is_whole_pair, latitude_symbols, lemma_digit_symbol, longitude_symbols,
    place_digit, separator_index, significant_pairs, valid_code,
};
use crate::encode::{
    axis_digit, axis_remainder, axis_symbols, encodable, encoded, interleaved,
    lemma_axis_remainder, lemma_padded_symbols, normalized_latitude, normalized_longitude,
    padded, valid_length,
};
use crate::utils::{
    alphabet, lemma_alphabet, lemma_place_values, place_value, Coordinate, AXIS_LIMIT,
    LATITUDE_OFFSET, LONGITUDE_OFFSET, MAX_PLACES, PADDING, SEPARATOR,
};

verus! {

/// The coordinates of the globe: latitudes from -90 to 90 degrees, longitudes
/// from -180 to 180 degrees, the ends included.
pub open spec fn in_range(c: Coordinate) -> bool {
    &&& -LATITUDE_OFFSET <= c.latitude <= LATITUDE_OFFSET
    &&& -LONGITUDE_OFFSET <= c.longitude <= LONGITUDE_OFFSET
}

/// What `encode` writes follows the grammar of a code, and without its
/// separator it is the padded run of digits.
pub proof fn lemma_encoded_is_valid(c: Coordinate, length: nat)
    requires
        valid_length(length as int),
        encodable(c),
    ensures
        valid_code(encoded(c, length)),
        encoded(c, length).len() == if length == 10 { 11int } else { 9int },
        code_digits(encoded(c, length)) == padded(
            interleaved(
                axis_symbols(normalized_latitude(c.latitude as int), length / 2),
                axis_symbols(normalized_longitude(c.longitude as int), length / 2),
            ),
        ),
{
    let lat = normalized_latitude(c.latitude as int);
    let lon = normalized_longitude(c.longitude as int);
    let count = length / 2;
    let body = padded(interleaved(axis_symbols(lat, count), axis_symbols(lon, count)));
    let code = encoded(c, length);
    lemma_padded_symbols(lat, lon, count);
    assert(code == body.insert(8, SEPARATOR));
    assert(code.len() == body.len() + 1);
    assert(code[8] == SEPARATOR);
    assert(separator_index(code.len() as int) == 8);
    assert forall|i: int| 0 <= i < 8 implies #[trigger] code[i] == body[i] by {}
    assert forall|i: int| 8 < i < code.len() implies #[trigger] code[i] == body[i - 1] by {}
    assert(code.remove(8) =~= body);
    assert(is_digit_pair(code, 0)) by {
        assert(is_digit_symbol(body[0]) && is_digit_symbol(body[1]));
    }
    assert forall|j: int| 1 <= j < 4 implies #[trigger] is_whole_pair(code, j) by {
        let first = 2 * j;
        let second = 2 * j + 1;
        assert(code[first] == body[first]);
        assert(code[second] == body[second]);
        if j < count {
            assert(is_digit_symbol(body[first]) && is_digit_symbol(body[second]));
        } else {
            assert(body[first] == PADDING);
            assert(body[second] == PADDING);
        }
    }
    if code.len() == 11 {
        assert(count == 5);
        assert(code[9] == body[8]);
        assert(code[10] == body[9]);
        assert(is_digit_symbol(body[8]) && is_digit_symbol(body[9]));
    }
}

/// The digits of a value at its first `count` places, followed by padding,
/// stand for the value less what those places leave over.
proof fn lemma_axis_value_of_digits(symbols: Seq<char>, value: int, count: nat)
    requires
        0 <= value < AXIS_LIMIT,
        count <= symbols.len() <= MAX_PLACES,
        forall|k: int|
            0 <= k < count ==> #[trigger] symbols[k] == alphabet()[axis_digit(value, k as nat)],
        forall|k: int| count <= k < symbols.len() ==> #[trigger] symbols[k] == PADDING,
    ensures
        axis_value(symbols) == value - axis_remainder(value, count),
    decreases symbols.len(),
{
    if symbols.len() == 0 {
    } else {
        let last = (symbols.len() - 1) as nat;
        let front = symbols.drop_last();
        if count <= last {
            lemma_axis_value_of_digits(front, value, count);
            assert(place_digit(symbols.last()) == 0);
            assert(0 * place_value(last) == 0);
        } else {
            assert(count == last + 1);
            lemma_axis_value_of_digits(front, value, last);
            lemma_axis_remainder(value, last);
            lemma_place_values();
            let d = axis_digit(value, last);
            let w = place_value(last);
            let left = axis_remainder(value, last);
            lemma_digit_symbol(d);
            assert(symbols.last() == alphabet()[d]);
            assert(place_digit(symbols.last()) == d);
            lemma_fundamental_div_mod(left, w);
            assert(d * w == w * (left / w)) by (nonlinear_arith)
                requires
                    d == left / w,
            ;
        }
    }
}

/// A run of pairs whose last digit stands at the end of pair `count`, with
/// nothing but padding after it, has `count` significant pairs.
proof fn lemma_significant_pairs(digits: Seq<char>, count: nat)
    requires
        1 <= count,
        digits.len() % 2 == 0,
        2 * count <= digits.len(),
        digits[2 * count - 1] != PADDING,
        forall|i: int| 2 * count <= i < digits.len() ==> #[trigger] digits[i] == PADDING,
    ensures
        significant_pairs(digits) == count,
    decreases digits.len(),
{
    if digits.len() == 2 * count {
    } else {
        let shorter = digits.take(digits.len() - 2);
        assert(digits.last() == PADDING);
        assert(shorter[2 * count - 1] == digits[2 * count - 1]);
        lemma_significant_pairs(shorter, count);
    }
}

/// Decoding what was encoded gives the centre of the cell in which the
/// coordinate lies.
///
/// For a coordinate of the globe and a length of 2, 4, 6, 8 or 10, the code
/// that `encode` writes is valid, the cell that it names is as wide as the
/// weight of the last digit written, and the coordinate that `decode` reads
/// back is, on each axis, no further than half a cell from the one encoded.
pub proof fn lemma_round_trip(c: Coordinate, length: nat)
    requires
        valid_length(length as int),
        in_range(c),
    ensures
        encodable(c),
        valid_code(encoded(c, length)),
        cell_size(encoded(c, length)) == place_value((length / 2 - 1) as nat),
        ({
            let half = cell_size(encoded(c, length)) / 2;
            let latitude = decoded_latitude(encoded(c, length));
            let longitude = decoded_longitude(encoded(c, length));
            &&& latitude - half <= c.latitude < latitude + half
            &&& longitude - half <= c.longitude < longitude + half
            &&& -half <= latitude - c.latitude <= half
            &&& -half <= longitude - c.longitude <= half
        }),
{
    let lat = normalized_latitude(c.latitude as int);
    let lon = normalized_longitude(c.longitude as int);
    let count = length / 2;
    let code = encoded(c, length);
    let digits = code_digits(code);
    assert(lat == c.latitude + LATITUDE_OFFSET);
    assert(lon == c.longitude + LONGITUDE_OFFSET);
    lemma_encoded_is_valid(c, length);
    lemma_padded_symbols(lat, lon, count);
    lemma_place_values();

    let last = (count - 1) as nat;
    lemma_axis_remainder(lat, last);
    lemma_axis_remainder(lon, last);
    let end = 2 * count - 1;
    assert(is_digit_symbol(digits[end]));
    lemma_alphabet();
    lemma_significant_pairs(digits, count);

    let lats = latitude_symbols(digits);
    let lons = longitude_symbols(digits);
    assert forall|k: int| 0 <= k < count implies #[trigger] lats[k] == alphabet()[axis_digit(
        lat,
        k as nat,
    )] by {
        let i = 2 * k;
        assert(lats[k] == digits[i]);
        assert(i % 2 == 0 && i / 2 == k);
    }
    assert forall|k: int| count <= k < lats.len() implies #[trigger] lats[k] == PADDING by {
        let i = 2 * k;
        assert(lats[k] == digits[i]);
    }
    assert forall|k: int| 0 <= k < count implies #[trigger] lons[k] == alphabet()[axis_digit(
        lon,
        k as nat,
    )] by {
        let i = 2 * k + 1;
        assert(lons[k] == digits[i]);
        assert(i % 2 == 1 && i / 2 == k);
    }
    assert forall|k: int| count <= k < lons.len() implies #[trigger] lons[k] == PADDING by {
        let i = 2 * k + 1;
        assert(lons[k] == digits[i]);
    }
    lemma_axis_value_of_digits(lats, lat, count);
    lemma_axis_value_of_digits(lons, lon, count);

    let w = place_value(last);
    assert(axis_remainder(lat, count) == lat % w);
    assert(axis_remainder(lon, count) == lon % w);
    lemma_mod_bound(lat, w);
    lemma_mod_bound(lon, w);
    assert(w % 2 == 0);
}

} // verus!
