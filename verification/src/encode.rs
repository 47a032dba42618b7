use vstd::prelude::*;
use vstd::utf8::is_ascii_chars;
use vstd::arithmetic::div_mod::{
    lemma_fundamental_div_mod, lemma_fundamental_div_mod_converse, lemma_mod_bound,
    lemma_mod_mod,
};
use crate::decode::{is_digit_symbol, lemma_digit_symbol, valid_code};
use crate::roundtrip::lemma_encoded_is_valid;
use crate::utils::{
    alphabet, lemma_alphabet, lemma_place_values, max, min, place_value, Coordinate, Error,
    AXIS_LIMIT, DIGITS, LATITUDE_OFFSET, LATITUDE_SPAN, LONGITUDE_OFFSET, LONGITUDE_SPAN,
    MAX_PLACES, PADDING, SEPARATOR,
};

verus! {

/// The lengths a code can be asked in: 2, 4, 6, 8 and 10.
pub open spec fn valid_length(length: int) -> bool {
    2 <= length <= 10 && length % 2 == 0
}

/// A latitude moved up by ninety degrees and held within 0 and 180 degrees.
pub open spec fn normalized_latitude(lat: int) -> int {
    let shifted = lat + LATITUDE_OFFSET;
    if shifted < 0 {
        0
    } else if shifted > LATITUDE_SPAN {
        LATITUDE_SPAN as int
    } else {
        shifted
    }
}

/// A longitude moved up by 180 degrees, and taken down by 180 degrees again
/// where that went past 360 degrees.
pub open spec fn normalized_longitude(lon: int) -> int {
    let shifted = lon + LONGITUDE_OFFSET;
    if shifted > LONGITUDE_SPAN {
        shifted - LONGITUDE_OFFSET
    } else {
        shifted
    }
}

/// What is left of an axis value when the places before `k` have been
/// written: the whole value at the first place, after that what the place
/// before left over.
pub open spec fn axis_remainder(value: int, k: nat) -> int {
    if k == 0 {
        value
    } else {
        value % place_value((k - 1) as nat)
    }
}

/// How often a weight goes into what is left of a value, rounded down. A
/// count below zero, which only a value below zero has, is written as zero.
pub open spec fn digit_at(left: int, weight: int) -> int {
    let times = left / weight;
    if times < 0 {
        0
    } else {
        times
    }
}

/// The digit at place `k` of an axis value.
pub open spec fn axis_digit(value: int, k: nat) -> int {
    digit_at(axis_remainder(value, k), place_value(k))
}

/// The first `count` digits of an axis value, most significant first, as symbols.
pub open spec fn axis_symbols(value: int, count: nat) -> Seq<char> {
    Seq::new(count, |k: int| alphabet()[axis_digit(value, k as nat)])
}

/// What is left at a place is less than twenty times the place's weight, so
/// the digit there is one of the alphabet's; after the first place nothing
/// left is below zero; and what the division at place `k` leaves over is what
/// is left at place `k + 1`.
pub proof fn lemma_axis_remainder(value: int, k: nat)
    requires
        value < AXIS_LIMIT,
        k < MAX_PLACES,
    ensures
        axis_remainder(value, k) < 20 * place_value(k),
        0 <= value || 0 < k ==> 0 <= axis_remainder(value, k),
        0 <= axis_digit(value, k) < 20,
        0 <= axis_remainder(value, k) ==> axis_digit(value, k) == axis_remainder(value, k)
            / place_value(k),
        axis_remainder(value, k) % place_value(k) == axis_remainder(value, k + 1),
{
    lemma_place_values();
    let w = place_value(k);
    let left = axis_remainder(value, k);
    if k > 0 {
        assert(place_value((k - 1) as nat) == 20 * w);
        lemma_mod_bound(value, 20 * w);
        lemma_mod_mod(value, w, 20);
        assert(w * 20 == 20 * w);
    }
    assert(left / w < 20) by (nonlinear_arith)
        requires
            left < 20 * w,
            0 < w,
    ;
    assert(0 <= left ==> 0 <= left / w) by (nonlinear_arith)
        requires
            0 < w,
    ;
}

/// The two sequences taken in turn, one of `xs` then one of `ys`, as far as
/// both reach.
pub open spec fn interleaved(xs: Seq<char>, ys: Seq<char>) -> Seq<char> {
    let pairs = if xs.len() < ys.len() { xs.len() } else { ys.len() };
    Seq::new(2 * pairs, |i: int| if i % 2 == 0 { xs[i / 2] } else { ys[i / 2] })
}

/// A sequence brought to eight symbols with padding at its end; a longer one
/// is left as it is.
pub open spec fn padded(symbols: Seq<char>) -> Seq<char> {
    if symbols.len() < 8 {
        symbols + Seq::new((8 - symbols.len()) as nat, |i: int| PADDING)
    } else {
        symbols
    }
}

/// The coordinates whose longitude has no digit of twenty or more, for which
/// the alphabet has no symbol. Latitudes are clamped, so they never have one.
pub open spec fn encodable(c: Coordinate) -> bool {
    normalized_longitude(c.longitude as int) < AXIS_LIMIT
}

/// The code of `length` digits for a coordinate: the digits of the two
/// normalised axes in turn, latitude first, padded to eight symbols, with the
/// separator after the eighth.
pub open spec fn encoded(c: Coordinate, length: nat) -> Seq<char> {
    padded(
        interleaved(
            axis_symbols(normalized_latitude(c.latitude as int), length / 2),
            axis_symbols(normalized_longitude(c.longitude as int), length / 2),
        ),
    ).insert(8, SEPARATOR)
}

/// A latitude as the digits are taken from it: moved up by ninety degrees and
/// clamped.
pub fn normalize_latitude(lat: i64) -> (normalized: i64)
    ensures
        normalized == normalized_latitude(lat as int),
        0 <= normalized <= LATITUDE_SPAN,
{
    if lat > LATITUDE_OFFSET {
        return LATITUDE_SPAN;
    }
    min(LATITUDE_SPAN, max(0, lat + LATITUDE_OFFSET))
}

/// A longitude as the digits are taken from it: moved up by 180 degrees, and
/// back down where that went past 360 degrees.
pub fn normalize_longitude(lon: i64) -> (normalized: i64)
    ensures
        normalized == normalized_longitude(lon as int),
{
    if lon > LONGITUDE_SPAN - LONGITUDE_OFFSET {
        return lon;
    }
    lon + LONGITUDE_OFFSET
}

/// The symbol of a digit value.
pub fn value_to_digit(x: usize) -> (symbol: char)
    requires
        x < 20,
    ensures
        symbol == alphabet()[x as int],
{
    proof {
        lemma_alphabet();
    }
    DIGITS.get_char(x)
}

/// What is left of an axis value, the weight of the next place, and the
/// symbols written so far.
pub struct Accumulator {
    pub value: i64,
    pub pos_value: i64,
    pub result: Vec<char>,
}

/// How often a weight goes into a value, rounded down, and what is left over.
pub fn divide(value: i64, weight: i64) -> (parts: (i64, i64))
    requires
        0 < weight,
    ensures
        parts.0 == value as int / weight as int,
        parts.1 == value as int % weight as int,
{
    if value >= 0 {
        (value / weight, value % weight)
    } else {
        let below: i64 = -1 - value;
        let times: i64 = below / weight;
        let over: i64 = below % weight;
        proof {
            lemma_fundamental_div_mod(below as int, weight as int);
            lemma_mod_bound(below as int, weight as int);
            assert(value == (-times - 1) * weight + (weight - 1 - over)) by (nonlinear_arith)
                requires
                    below == -1 - value,
                    below == weight * times + over,
            ;
            lemma_fundamental_div_mod_converse(
                value as int,
                weight as int,
                -times - 1,
                weight - 1 - over,
            );
        }
        (-times - 1, weight - 1 - over)
    }
}

/// Writes the next digit: how often the place's weight goes into the value.
/// What is left over goes on to the next place, which weighs a twentieth.
pub fn digit_reducer(accumulator: Accumulator, _index: usize) -> (next: Accumulator)
    requires
        0 < accumulator.pos_value,
        accumulator.value < 20 * accumulator.pos_value,
    ensures
        next.result@ == accumulator.result@.push(
            alphabet()[digit_at(accumulator.value as int, accumulator.pos_value as int)],
        ),
        next.value == accumulator.value as int % accumulator.pos_value as int,
        next.pos_value == accumulator.pos_value as int / 20,
{
    let (q, left) = divide(accumulator.value, accumulator.pos_value);
    proof {
        let v = accumulator.value as int;
        let w = accumulator.pos_value as int;
        assert(v / w < 20) by (nonlinear_arith)
            requires
                0 < w,
                v < 20 * w,
        ;
    }
    let digit: usize = if q < 0 { 0 } else { q as usize };
    let mut result = accumulator.result;
    result.push(value_to_digit(digit));
    Accumulator { value: left, pos_value: accumulator.pos_value / 20, result }
}

/// The first `length` digits of an axis value, most significant first.
pub fn encode_axis(length: usize, value: i64) -> (symbols: Vec<char>)
    requires
        length <= MAX_PLACES,
        value < AXIS_LIMIT,
    ensures
        symbols@ == axis_symbols(value as int, length as nat),
{
    let mut accumulator = Accumulator { value, pos_value: 200_000_000, result: Vec::new() };
    let mut i: usize = 0;
    proof {
        lemma_place_values();
    }
    while i < length
        invariant
            i <= length <= MAX_PLACES,
            value < AXIS_LIMIT,
            accumulator.pos_value == place_value(i as nat),
            accumulator.value == axis_remainder(value as int, i as nat),
            accumulator.result@ == axis_symbols(value as int, i as nat),
        decreases length - i,
    {
        proof {
            lemma_place_values();
            lemma_axis_remainder(value as int, i as nat);
        }
        accumulator = digit_reducer(accumulator, i);
        i = i + 1;
        assert(accumulator.result@ =~= axis_symbols(value as int, i as nat));
    }
    accumulator.result
}

/// Joins two runs of symbols into one, taking one of each in turn.
pub fn interleave(xs: Vec<char>, ys: Vec<char>) -> (joined: String)
    ensures
        joined@ == interleaved(xs@, ys@),
{
    let pairs = if xs.len() < ys.len() { xs.len() } else { ys.len() };
    let mut joined = String::new();
    let mut i: usize = 0;
    while i < pairs
        invariant
            i <= pairs,
            pairs == if xs.len() < ys.len() { xs.len() } else { ys.len() },
            joined@ == interleaved(xs@, ys@).take(2 * i),
        decreases pairs - i,
    {
        joined.push(xs[i]);
        joined.push(ys[i]);
        i = i + 1;
        assert(joined@ =~= interleaved(xs@, ys@).take(2 * i));
    }
    assert(joined@ =~= interleaved(xs@, ys@));
    joined
}

/// Adds padding at the end of a code until it has eight symbols.
pub fn pad(code: String) -> (filled: String)
    ensures
        filled@ == padded(code@),
{
    let mut filled = code;
    let mut count = filled.as_str().unicode_len();
    while count < 8
        invariant
            count == filled@.len(),
            code@.len() <= count,
            count <= 8 || count == code@.len(),
            filled@ == code@ + Seq::new((count - code@.len()) as nat, |i: int| PADDING),
        decreases 8 - count,
    {
        filled.push(PADDING);
        count = count + 1;
        assert(filled@ =~= code@ + Seq::new((count - code@.len()) as nat, |i: int| PADDING));
    }
    assert(filled@ =~= padded(code@));
    filled
}

/// Tells whether every digit of the coordinate's longitude has a symbol.
pub fn is_encodable(coordinates: &Coordinate) -> (yes: bool)
    ensures
        yes == encodable(*coordinates),
{
    normalize_longitude(coordinates.longitude) < AXIS_LIMIT
}

/// The symbols that `encoded` puts around the separator, seen one by one:
/// the digits of the two axes in turn, then padding up to the eighth.
pub proof fn lemma_padded_symbols(lat: int, lon: int, count: nat)
    requires
        lat < AXIS_LIMIT,
        lon < AXIS_LIMIT,
        1 <= count <= MAX_PLACES,
    ensures
        ({
            let body = padded(interleaved(axis_symbols(lat, count), axis_symbols(lon, count)));
            &&& body.len() == if count == 5 { 10int } else { 8int }
            &&& forall|i: int|
                0 <= i < 2 * count ==> #[trigger] body[i] == alphabet()[axis_digit(
                    if i % 2 == 0 { lat } else { lon },
                    (i / 2) as nat,
                )]
            &&& forall|i: int| 0 <= i < 2 * count ==> is_digit_symbol(#[trigger] body[i])
            &&& forall|i: int| 2 * count <= i < body.len() ==> #[trigger] body[i] == PADDING
        }),
{
    let xs = axis_symbols(lat, count);
    let ys = axis_symbols(lon, count);
    let joined = interleaved(xs, ys);
    let body = padded(joined);
    assert(joined.len() == 2 * count);
    assert forall|i: int| 0 <= i < 2 * count implies #[trigger] body[i] == alphabet()[axis_digit(
        if i % 2 == 0 { lat } else { lon },
        (i / 2) as nat,
    )] && is_digit_symbol(body[i]) by {
        assert(body[i] == joined[i]);
        lemma_axis_remainder(lat, (i / 2) as nat);
        lemma_axis_remainder(lon, (i / 2) as nat);
        lemma_digit_symbol(axis_digit(lat, (i / 2) as nat));
        lemma_digit_symbol(axis_digit(lon, (i / 2) as nat));
    }
}

/// Tells whether a code can be asked in this length.
pub fn is_valid_length(length: usize) -> (yes: bool)
    ensures
        yes == valid_length(length as int),
{
    !(length < 2 || length > 10 || length % 2 != 0)
}

/// The plus code of `length` digits for a coordinate.
///
/// The length must be 2, 4, 6, 8 or 10; any other is refused as
/// `InvalidLength`. A code shorter than eight digits is padded to eight.
/// The longitude must be one that has digits: see `is_encodable`.
pub fn encode(coordinates: &Coordinate, length: usize) -> (result: Result<String, Error>)
    requires
        valid_length(length as int) ==> encodable(*coordinates),
    ensures
        match result {
            Ok(code) => valid_length(length as int) && code@ == encoded(
                *coordinates,
                length as nat,
            ) && valid_code(code@),
            Err(e) => !valid_length(length as int) && e == Error::InvalidLength(length),
        },
{
    if !is_valid_length(length) {
        return Err(Error::InvalidLength(length));
    }
    proof {
        lemma_encoded_is_valid(*coordinates, length as nat);
    }
    let latitude = normalize_latitude(coordinates.latitude);
    let longitude = normalize_longitude(coordinates.longitude);

    let mut pluscode = interleave(
        encode_axis(length / 2, latitude),
        encode_axis(length / 2, longitude),
    );

    pluscode = pad(pluscode);
    proof {
        lemma_padded_symbols(latitude as int, longitude as int, (length / 2) as nat);
        lemma_alphabet();
        assert(is_ascii_chars(pluscode@));
    }
    pluscode.insert(8, SEPARATOR);

    Ok(pluscode)
}

} // verus!
