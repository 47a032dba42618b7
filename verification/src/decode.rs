use vstd::prelude::*;
use crate::utils::{
    alphabet, lemma_alphabet, lemma_place_values, place_value, place_weight, Coordinate, Error,
    AXIS_LIMIT, DIGITS, LATITUDE_OFFSET, LONGITUDE_OFFSET, MAX_PLACES, PADDING, SEPARATOR,
};

verus! {

/// A symbol of the alphabet.
pub open spec fn is_digit_symbol(c: char) -> bool {
    alphabet().contains(c)
}

/// The value of a digit symbol: its position in the alphabet.
pub open spec fn digit_value(c: char) -> int {
    alphabet().index_of(c)
}

/// What a symbol of a code adds at its place: a digit its value, padding nothing.
pub open spec fn place_digit(c: char) -> int {
    if c == PADDING {
        0
    } else {
        digit_value(c)
    }
}

/// Where the separator stands in a valid code of `len` symbols: after the
/// eighth symbol of a code with a trailing pair, at the end of any other.
pub open spec fn separator_index(len: int) -> int {
    if len == 11 {
        8
    } else {
        len - 1
    }
}

/// The pair at positions `2 * j` and `2 * j + 1` is two digits.
pub open spec fn is_digit_pair(code: Seq<char>, j: int) -> bool {
    is_digit_symbol(code[2 * j]) && is_digit_symbol(code[2 * j + 1])
}

/// The pair at positions `2 * j` and `2 * j + 1` is two padding symbols.
pub open spec fn is_padding_pair(code: Seq<char>, j: int) -> bool {
    code[2 * j] == PADDING && code[2 * j + 1] == PADDING
}

/// The pair at positions `2 * j` and `2 * j + 1` is of one kind: two digits
/// or two padding symbols.
pub open spec fn is_whole_pair(code: Seq<char>, j: int) -> bool {
    is_digit_pair(code, j) || is_padding_pair(code, j)
}

/// The grammar of a code. One to four pairs stand before the separator, the
/// first of them two digits, each of the others two digits or two padding
/// symbols. The separator ends the code, or, after four pairs, one more pair
/// of digits follows it.
pub open spec fn valid_code(code: Seq<char>) -> bool {
    let len = code.len() as int;
    let at = separator_index(len);
    &&& len == 3 || len == 5 || len == 7 || len == 9 || len == 11
    &&& code[at] == SEPARATOR
    &&& is_digit_pair(code, 0)
    &&& forall|j: int| 1 <= j < at / 2 ==> #[trigger] is_whole_pair(code, j)
    &&& len == 11 ==> is_digit_symbol(code[9]) && is_digit_symbol(code[10])
}

/// The symbols of a valid code without its separator.
pub open spec fn code_digits(code: Seq<char>) -> Seq<char> {
    code.remove(separator_index(code.len() as int))
}

/// Every second symbol, from the first on: the latitude's.
pub open spec fn latitude_symbols(digits: Seq<char>) -> Seq<char> {
    Seq::new(((digits.len() + 1) / 2) as nat, |k: int| digits[2 * k])
}

/// Every second symbol, from the second on: the longitude's.
pub open spec fn longitude_symbols(digits: Seq<char>) -> Seq<char> {
    Seq::new(digits.len() / 2, |k: int| digits[2 * k + 1])
}

/// The value that an axis' symbols stand for: each symbol's digit times the
/// weight of its place, summed.
pub open spec fn axis_value(symbols: Seq<char>) -> int
    decreases symbols.len(),
{
    if symbols.len() == 0 {
        0
    } else {
        axis_value(symbols.drop_last()) + place_digit(symbols.last()) * place_value(
            (symbols.len() - 1) as nat,
        )
    }
}

/// How many pairs are left when the padding at the end is taken off.
pub open spec fn significant_pairs(digits: Seq<char>) -> nat
    decreases digits.len(),
{
    if digits.len() >= 2 && digits.last() == PADDING {
        significant_pairs(digits.take(digits.len() - 2))
    } else {
        digits.len() / 2
    }
}

/// The width and height of the cell that a valid code names: the weight of
/// its last significant pair.
pub open spec fn cell_size(code: Seq<char>) -> int {
    place_value((significant_pairs(code_digits(code)) - 1) as nat)
}

/// The latitude at the centre of the cell that a valid code names.
pub open spec fn decoded_latitude(code: Seq<char>) -> int {
    axis_value(latitude_symbols(code_digits(code))) + cell_size(code) / 2 - LATITUDE_OFFSET
}

/// The longitude at the centre of the cell that a valid code names.
pub open spec fn decoded_longitude(code: Seq<char>) -> int {
    axis_value(longitude_symbols(code_digits(code))) + cell_size(code) / 2 - LONGITUDE_OFFSET
}

/// A symbol of the alphabet is a digit, stands for its own position, and is
/// neither padding nor the separator.
pub proof fn lemma_digit_symbol(d: int)
    requires
        0 <= d < 20,
    ensures
        is_digit_symbol(alphabet()[d]),
        digit_value(alphabet()[d]) == d,
        place_digit(alphabet()[d]) == d,
        alphabet()[d] != PADDING,
        alphabet()[d] != SEPARATOR,
{
    lemma_alphabet();
    let c = alphabet()[d];
    assert(alphabet().contains(c));
    let i = alphabet().index_of(c);
    assert(0 <= i < 20 && alphabet()[i] == c);
}

/// The value of a digit symbol: its position in the alphabet.
pub fn digit_to_value(x: &char) -> (value: usize)
    requires
        is_digit_symbol(*x),
    ensures
        value < 20,
        alphabet()[value as int] == *x,
        value == digit_value(*x),
{
    proof {
        lemma_alphabet();
    }
    let mut i: usize = 0;
    while i < 20
        invariant
            i <= 20,
            alphabet().len() == 20,
            alphabet().no_duplicates(),
            forall|j: int| 0 <= j < i ==> alphabet()[j] != *x,
        decreases 20 - i,
    {
        if DIGITS.get_char(i) == *x {
            return i;
        }
        i = i + 1;
    }
    i
}

/// Adds one digit, weighed by its place, to the sum so far; the next place
/// weighs a twentieth.
pub fn axis_reducer(memo: (i64, i64), value: usize) -> (next: (i64, i64))
    requires
        value < 20,
        0 <= memo.1,
        memo.1 * value <= i64::MAX,
        i64::MIN <= memo.0 + memo.1 * value <= i64::MAX,
    ensures
        next.0 == memo.0 + memo.1 * value,
        next.1 == memo.1 as int / 20,
{
    let (result, pos_value) = memo;
    let result = result + pos_value * (value as i64);
    let pos_value = pos_value / 20;
    (result, pos_value)
}

/// Puts a numbered symbol on the latitude's side where its number is even,
/// on the longitude's side where it is odd.
pub fn split_reducer(axes: (Vec<char>, Vec<char>), digit: (usize, char)) -> (next: (
    Vec<char>,
    Vec<char>,
))
    ensures
        digit.0 % 2 == 0 ==> next.0@ == axes.0@.push(digit.1) && next.1@ == axes.1@,
        digit.0 % 2 != 0 ==> next.0@ == axes.0@ && next.1@ == axes.1@.push(digit.1),
{
    let (idx, c) = digit;
    let (mut lat, mut lon) = axes;

    if idx % 2 == 0 {
        lat.push(c);
    } else {
        lon.push(c)
    }

    return (lat, lon);
}

/// Tells whether a character is a digit of the alphabet.
pub fn is_digit(c: char) -> (yes: bool)
    ensures
        yes == is_digit_symbol(c),
{
    proof {
        lemma_alphabet();
    }
    let mut i: usize = 0;
    while i < 20
        invariant
            i <= 20,
            alphabet().len() == 20,
            forall|j: int| 0 <= j < i ==> alphabet()[j] != c,
        decreases 20 - i,
    {
        if DIGITS.get_char(i) == c {
            return true;
        }
        i = i + 1;
    }
    false
}

/// Checks a text against the grammar of a code.
pub fn is_valid_code(code: &str) -> (valid: bool)
    ensures
        valid == valid_code(code@),
{
    let len = code.unicode_len();
    if len != 3 && len != 5 && len != 7 && len != 9 && len != 11 {
        return false;
    }
    let at = if len == 11 { 8 } else { len - 1 };
    if code.get_char(at) != SEPARATOR {
        return false;
    }
    if !is_digit(code.get_char(0)) || !is_digit(code.get_char(1)) {
        return false;
    }
    let mut j: usize = 1;
    while j < at / 2
        invariant
            1 <= j,
            at < code@.len(),
            at == separator_index(code@.len() as int),
            forall|k: int| 1 <= k < j ==> #[trigger] is_whole_pair(code@, k),
        decreases at / 2 - j,
    {
        let a = code.get_char(2 * j);
        let b = code.get_char(2 * j + 1);
        let digits = is_digit(a) && is_digit(b);
        let padding = a == PADDING && b == PADDING;
        if !digits && !padding {
            assert(!is_whole_pair(code@, j as int));
            return false;
        }
        j = j + 1;
    }
    if len == 11 {
        if !is_digit(code.get_char(9)) || !is_digit(code.get_char(10)) {
            return false;
        }
    }
    true
}

/// Every symbol of a valid code but the separator is a digit or padding, and
/// the separator is neither.
pub proof fn lemma_valid_code_symbols(code: Seq<char>)
    requires
        valid_code(code),
    ensures
        code_digits(code).len() == code.len() - 1,
        code_digits(code).len() % 2 == 0,
        2 <= code_digits(code).len() <= 10,
        forall|i: int|
            0 <= i < code_digits(code).len() ==> is_digit_symbol(#[trigger] code_digits(code)[i])
                || code_digits(code)[i] == PADDING,
        forall|i: int|
            0 <= i < code.len() ==> (#[trigger] code[i] == SEPARATOR <==> i == separator_index(
                code.len() as int,
            )),
        !is_digit_symbol(SEPARATOR),
        !is_digit_symbol(PADDING),
        PADDING != SEPARATOR,
{
    lemma_alphabet();
    let at = separator_index(code.len() as int);
    let digits = code_digits(code);
    assert forall|i: int| 0 <= i < code.len() && i != at implies is_digit_symbol(
        #[trigger] code[i],
    ) || code[i] == PADDING by {
        if i < at {
            let j = i / 2;
            assert(i == 2 * j || i == 2 * j + 1);
            assert(j >= 1 ==> is_whole_pair(code, j));
        }
    }
    assert forall|i: int| 0 <= i < digits.len() implies is_digit_symbol(#[trigger] digits[i])
        || digits[i] == PADDING by {
        if i < at {
            assert(digits[i] == code[i]);
        } else {
            assert(digits[i] == code[i + 1]);
        }
    }
}

/// The empty text is no code.
pub proof fn lemma_empty_is_refused(code: Seq<char>)
    requires
        code.len() == 0,
    ensures
        !valid_code(code),
{
}

/// A text without a separator is no code.
pub proof fn lemma_missing_separator_is_refused(code: Seq<char>)
    requires
        !code.contains(SEPARATOR),
    ensures
        !valid_code(code),
{
    if valid_code(code) {
        assert(code[separator_index(code.len() as int)] == SEPARATOR);
    }
}

/// A text with a separator in the wrong place is no code: the separator
/// stands after one to four pairs, and only after four pairs does anything
/// follow it.
pub proof fn lemma_misplaced_separator_is_refused(code: Seq<char>, i: int)
    requires
        0 <= i < code.len(),
        code[i] == SEPARATOR,
        !(i == 2 || i == 4 || i == 6 || i == 8) || (i != 8 && i + 1 < code.len()),
    ensures
        !valid_code(code),
{
    if valid_code(code) {
        lemma_valid_code_symbols(code);
    }
}

/// A text with a digit and a padding symbol in one pair is no code.
pub proof fn lemma_mixed_pair_is_refused(code: Seq<char>, j: int)
    requires
        0 <= j,
        2 * j + 1 < code.len(),
        (code[2 * j] == PADDING) != (code[2 * j + 1] == PADDING),
    ensures
        !valid_code(code),
{
    if valid_code(code) {
        lemma_valid_code_symbols(code);
        lemma_alphabet();
        let at = separator_index(code.len() as int);
        if 1 <= j < at / 2 {
            assert(is_whole_pair(code, j));
        }
    }
}

/// A text with more than one pair after its separator is no code.
pub proof fn lemma_long_tail_is_refused(code: Seq<char>, i: int)
    requires
        0 <= i < code.len(),
        code[i] == SEPARATOR,
        i + 3 < code.len(),
    ensures
        !valid_code(code),
{
    if valid_code(code) {
        lemma_valid_code_symbols(code);
    }
}

/// The value that an axis' symbols stand for: the sum of its digits, each
/// weighed by its place; padding adds nothing.
pub fn decode_axis(axis: Vec<char>) -> (value: i64)
    requires
        axis@.len() <= MAX_PLACES,
        forall|k: int|
            0 <= k < axis@.len() ==> is_digit_symbol(#[trigger] axis@[k]) || axis@[k] == PADDING,
    ensures
        value == axis_value(axis@),
        0 <= value < AXIS_LIMIT,
{
    let mut memo: (i64, i64) = (0, 200_000_000);
    let mut k: usize = 0;
    proof {
        lemma_place_values();
        assert(axis@.take(0) =~= Seq::<char>::empty());
    }
    while k < axis.len()
        invariant
            k <= axis@.len() <= MAX_PLACES,
            forall|k: int|
                0 <= k < axis@.len() ==> is_digit_symbol(#[trigger] axis@[k]) || axis@[k]
                    == PADDING,
            memo.0 == axis_value(axis@.take(k as int)),
            memo.1 == place_value(k as nat),
            k == 0 ==> memo.0 == 0,
            k > 0 ==> 0 <= memo.0 <= AXIS_LIMIT - place_value((k - 1) as nat),
        decreases axis@.len() - k,
    {
        let c = axis[k];
        let value = if c == PADDING { 0 } else { digit_to_value(&c) };
        proof {
            lemma_alphabet();
            lemma_place_values();
            let w = place_value(k as nat);
            assert(value == place_digit(c));
            assert(0 <= w * value <= 19 * w) by (nonlinear_arith)
                requires
                    0 <= value <= 19,
                    0 <= w,
            ;
            assert(w * value == value * w) by (nonlinear_arith);
            let next = axis@.take(k + 1);
            assert(next.drop_last() =~= axis@.take(k as int));
            assert(next.last() == c);
        }
        memo = axis_reducer(memo, value);
        k = k + 1;
    }
    assert(axis@.take(k as int) =~= axis@);
    proof {
        lemma_place_values();
    }
    memo.0
}

/// The width and height of the cell that a valid code names: the weight of
/// its last pair that is not padding.
pub fn resolution(code: &str) -> (cell: i64)
    requires
        valid_code(code@),
    ensures
        cell == cell_size(code@),
        1_250 <= cell <= 200_000_000,
{
    let len = code.unicode_len();
    let ghost digits = code_digits(code@);
    let mut pairs: usize = len / 2;
    proof {
        lemma_valid_code_symbols(code@);
        assert(digits.take(digits.len() as int) =~= digits);
    }
    if len != 11 {
        while pairs > 1 && code.get_char(2 * pairs - 1) == PADDING
            invariant
                valid_code(code@),
                len == code@.len(),
                len != 11,
                digits == code_digits(code@),
                1 <= pairs <= len / 2,
                significant_pairs(digits) == significant_pairs(digits.take(2 * pairs)),
            decreases pairs,
        {
            proof {
                let head = digits.take(2 * pairs);
                assert(head.last() == code@[2 * pairs - 1]);
                assert(head.take(head.len() - 2) =~= digits.take(2 * (pairs - 1)));
            }
            pairs = pairs - 1;
        }
    }
    proof {
        lemma_alphabet();
        lemma_place_values();
        let head = digits.take(2 * pairs);
        if len == 11 {
            assert(head.last() == code@[10]);
        } else if pairs > 1 {
            assert(head.last() == code@[2 * pairs - 1]);
        } else {
            assert(head.last() == code@[1]);
        }
        assert(head.last() != PADDING);
        assert(significant_pairs(head) == pairs);
    }
    place_weight(pairs - 1)
}

/// The coordinate at the centre of the cell that a plus code names.
///
/// A text that does not follow the grammar of a code is refused as
/// `InvalidCode`, with the text.
pub fn decode(code: &str) -> (result: Result<Coordinate, Error>)
    ensures
        match result {
            Ok(c) => valid_code(code@) && c.latitude == decoded_latitude(code@) && c.longitude
                == decoded_longitude(code@),
            Err(e) => !valid_code(code@) && (e matches Error::InvalidCode(text) && text@
                == code@),
        },
{
    if !is_valid_code(code) {
        return Err(Error::InvalidCode(String::from_str(code)));
    }
    let len = code.unicode_len();
    let ghost at = separator_index(len as int);
    let ghost digits = code_digits(code@);
    let mut axes: (Vec<char>, Vec<char>) = (Vec::new(), Vec::new());
    let mut idx: usize = 0;
    let mut i: usize = 0;
    proof {
        lemma_valid_code_symbols(code@);
    }
    while i < len
        invariant
            valid_code(code@),
            len == code@.len(),
            at == separator_index(len as int),
            digits == code_digits(code@),
            i <= len,
            idx == if i <= at { i as int } else { i - 1 },
            axes.0@ == latitude_symbols(digits.take(idx as int)),
            axes.1@ == longitude_symbols(digits.take(idx as int)),
        decreases len - i,
    {
        let c = code.get_char(i);
        proof {
            lemma_valid_code_symbols(code@);
        }
        if c != SEPARATOR {
            proof {
                let before = digits.take(idx as int);
                let after = digits.take(idx + 1);
                assert(digits[idx as int] == c);
                if idx % 2 == 0 {
                    assert(latitude_symbols(after) =~= latitude_symbols(before).push(c));
                    assert(longitude_symbols(after) =~= longitude_symbols(before));
                } else {
                    assert(latitude_symbols(after) =~= latitude_symbols(before));
                    assert(longitude_symbols(after) =~= longitude_symbols(before).push(c));
                }
            }
            axes = split_reducer(axes, (idx, c));
            idx = idx + 1;
        }
        i = i + 1;
    }
    let (lat, lon) = axes;
    proof {
        assert(digits.take(idx as int) =~= digits);
        assert forall|k: int| 0 <= k < lat@.len() implies is_digit_symbol(#[trigger] lat@[k])
            || lat@[k] == PADDING by {
            assert(lat@[k] == digits[2 * k]);
        }
        assert forall|k: int| 0 <= k < lon@.len() implies is_digit_symbol(#[trigger] lon@[k])
            || lon@[k] == PADDING by {
            assert(lon@[k] == digits[2 * k + 1]);
        }
        lemma_place_values();
    }

    let res = resolution(code);
    let lat = decode_axis(lat) + res / 2 - LATITUDE_OFFSET;
    let lon = decode_axis(lon) + res / 2 - LONGITUDE_OFFSET;

    Ok(Coordinate { latitude: lat, longitude: lon })
}

} // verus!
