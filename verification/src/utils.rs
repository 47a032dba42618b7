use vstd::prelude::*;
use crate::degrees::{decimal_text, push_decimal};

verus! {

/// A position on the globe, in fixed point: each field counts units of
/// 1e-7 degree. Any pair of values is a coordinate; encoding normalises.
#[derive(PartialEq, Eq, Debug, Clone, Copy)]
pub struct Coordinate {
    pub latitude: i64,
    pub longitude: i64,
}

/// Why a request was refused: a code length that is none of 2, 4, 6, 8 and
/// 10, a text that is no code, or texts that are no coordinate.
#[derive(PartialEq, Debug)]
pub enum Error {
    InvalidLength(usize),
    InvalidCode(String),
    InvalidCoordinates(Vec<String>),
}

/// What std's `Debug` formatting writes for a list of texts: the texts in
/// double quotes with their special characters escaped, separated by a comma
/// and a space, in square brackets.
pub uninterp spec fn debug_text(texts: Seq<Seq<char>>) -> Seq<char>;

/// `format!` of std with `{:?}` on a `Vec<String>`, taken on trust: the text
/// it returns depends on the characters of the listed texts alone, and is
/// what `debug_text` names.
#[verifier::external_body]
fn debug_listing(texts: &Vec<String>) -> (listing: String)
    ensures
        listing@ == debug_text(texts.deep_view()),
{
    format!("{:?}", texts)
}

/// An error in words.
pub open spec fn message_text(e: Error) -> Seq<char> {
    match e {
        Error::InvalidLength(length) => "Invalid length "@ + decimal_text(length as nat)
            + ", should be 2, 4, 6, 8 or 10"@,
        Error::InvalidCode(code) => "Invalid code: "@ + code@,
        Error::InvalidCoordinates(coordinate) => "Invalid coordinate: "@ + debug_text(
            coordinate.deep_view(),
        ),
    }
}

impl Error {
    /// The error in words, for a reader.
    pub fn message(&self) -> (text: String)
        ensures
            text@ == message_text(*self),
    {
        match self {
            Error::InvalidLength(length) => {
                let mut text = String::from_str("Invalid length ");
                push_decimal(&mut text, *length as u64);
                text.append(", should be 2, 4, 6, 8 or 10");
                text
            },
            Error::InvalidCode(code) => {
                let mut text = String::from_str("Invalid code: ");
                text.append(code.as_str());
                text
            },
            Error::InvalidCoordinates(coordinate) => {
                let mut text = String::from_str("Invalid coordinate: ");
                let listing = debug_listing(coordinate);
                text.append(listing.as_str());
                text
            },
        }
    }
}

/// How many units of a coordinate field make one degree.
pub const UNITS_PER_DEGREE: i64 = 10_000_000;

/// Ninety degrees: what is added to a latitude to make it non-negative.
pub const LATITUDE_OFFSET: i64 = 900_000_000;

/// The widest normalised latitude, 180 degrees.
pub const LATITUDE_SPAN: i64 = 1_800_000_000;

/// 180 degrees: what is added to a longitude to make it non-negative.
pub const LONGITUDE_OFFSET: i64 = 1_800_000_000;

/// The widest normalised longitude, 360 degrees.
pub const LONGITUDE_SPAN: i64 = 3_600_000_000;

/// Twenty times the weight of the first place. An axis value is written in
/// digits of the alphabet exactly when it is non-negative and below this.
pub const AXIS_LIMIT: i64 = 4_000_000_000;

/// No axis has more digits than this.
pub const MAX_PLACES: usize = 5;

/// The twenty digit symbols; a symbol's position is its value.
pub const DIGITS: &'static str = "23456789CFGHJMPQRVWX";

/// Fills the unused pair positions of a short code; never a digit.
pub const PADDING: char = '0';

/// Stands after the eighth position of every code.
pub const SEPARATOR: char = '+';

/// The smaller of two values.
pub fn min(a: i64, b: i64) -> (m: i64)
    ensures
        m == if a < b { a } else { b },
{
    if a < b {
        return a;
    }
    b
}

/// The larger of two values.
pub fn max(a: i64, b: i64) -> (m: i64)
    ensures
        m == if a > b { a } else { b },
{
    if a > b {
        return a;
    }
    b
}

/// The digit symbols as a sequence: `alphabet()[v]` is the symbol of value `v`.
pub open spec fn alphabet() -> Seq<char> {
    DIGITS@
}

/// The alphabet spelled out: twenty symbols, each once, none of them the
/// padding symbol or the separator.
pub proof fn lemma_alphabet()
    ensures
        alphabet() =~= seq![
            '2', '3', '4', '5', '6', '7', '8', '9', 'C', 'F',
            'G', 'H', 'J', 'M', 'P', 'Q', 'R', 'V', 'W', 'X',
        ],
        alphabet().len() == 20,
        alphabet().no_duplicates(),
        !alphabet().contains(PADDING),
        !alphabet().contains(SEPARATOR),
{
    reveal_strlit("23456789CFGHJMPQRVWX");
}

/// The weight of the digit at place `k` of an axis, in coordinate units:
/// twenty degrees at place 0, and a twentieth of the place before after that.
pub open spec fn place_value(k: nat) -> int
    decreases k,
{
    if k == 0 {
        200_000_000
    } else {
        place_value((k - 1) as nat) / 20
    }
}

/// The weights of the five places of an axis.
pub proof fn lemma_place_values()
    ensures
        place_value(0) == 200_000_000,
        place_value(1) == 10_000_000,
        place_value(2) == 500_000,
        place_value(3) == 25_000,
        place_value(4) == 1_250,
{
    reveal_with_fuel(place_value, 5);
}

/// The weight of the digit at place `k`, for the places that a code has.
pub fn place_weight(k: usize) -> (weight: i64)
    requires
        k < MAX_PLACES,
    ensures
        weight == place_value(k as nat),
{
    let mut weight: i64 = 200_000_000;
    let mut i: usize = 0;
    while i < k
        invariant
            i <= k,
            weight == place_value(i as nat),
            0 <= weight,
        decreases k - i,
    {
        weight = weight / 20;
        i = i + 1;
    }
    weight
}

/// Where the first comma of a text stands; the text's length where it has none.
pub open spec fn first_comma(text: Seq<char>) -> int
    decreases text.len(),
{
    if text.len() == 0 || text[0] == ',' {
        0
    } else {
        1 + first_comma(text.skip(1))
    }
}

/// The pieces of a text between its commas, in order, the empty ones left out.
pub open spec fn pieces(text: Seq<char>) -> Seq<Seq<char>>
    decreases text.len(),
{
    let cut = first_comma(text);
    let head = if cut > 0 { seq![text.take(cut)] } else { Seq::<Seq<char>>::empty() };
    if cut < 0 || cut >= text.len() {
        head
    } else {
        head + pieces(text.skip(cut + 1))
    }
}

/// The tokens of a list of texts: the pieces of each text, in order.
pub open spec fn tokens_of(coords: Seq<Seq<char>>) -> Seq<Seq<char>>
    decreases coords.len(),
{
    if coords.len() == 0 {
        Seq::empty()
    } else {
        tokens_of(coords.drop_last()) + pieces(coords.last())
    }
}

/// The first comma stands at `k` where no comma stands before `k` and one
/// stands at `k`, or the text ends there.
pub proof fn lemma_first_comma(text: Seq<char>, k: int)
    requires
        0 <= k <= text.len(),
        forall|j: int| 0 <= j < k ==> text[j] != ',',
        k == text.len() || text[k] == ',',
    ensures
        first_comma(text) == k,
    decreases k,
{
    if k > 0 {
        let rest = text.skip(1);
        assert forall|j: int| 0 <= j < k - 1 implies rest[j] != ',' by {
            assert(rest[j] == text[j + 1]);
        }
        lemma_first_comma(rest, k - 1);
    }
}

/// Adds the pieces of one text to a list of tokens.
pub fn push_pieces(tokens: &mut Vec<String>, text: &str)
    ensures
        final(tokens).deep_view() == old(tokens).deep_view() + pieces(text@),
{
    let len = text.unicode_len();
    let mut start: usize = 0;
    let mut i: usize = 0;
    assert(text@.skip(0) =~= text@);
    while i < len
        invariant
            len == text@.len(),
            start <= i <= len,
            forall|j: int| start <= j < i ==> text@[j] != ',',
            tokens.deep_view() + pieces(text@.skip(start as int)) == old(tokens).deep_view()
                + pieces(text@),
        decreases len - i,
    {
        if text.get_char(i) == ',' {
            let ghost rest = text@.skip(start as int);
            let ghost before = tokens.deep_view();
            proof {
                lemma_first_comma(rest, i - start);
                assert(rest.skip(i - start + 1) =~= text@.skip(i + 1));
                assert(rest.take(i - start) =~= text@.subrange(start as int, i as int));
            }
            if i > start {
                tokens.push(String::from_str(text.substring_char(start, i)));
                assert(tokens.deep_view() =~= before.push(text@.subrange(start as int, i as int)));
            }
            assert(tokens.deep_view() + pieces(text@.skip(i + 1)) =~= before + pieces(rest));
            start = i + 1;
        }
        i = i + 1;
    }
    let ghost rest = text@.skip(start as int);
    let ghost before = tokens.deep_view();
    proof {
        lemma_first_comma(rest, len - start);
        assert(rest.take(len - start) =~= text@.subrange(start as int, len as int));
    }
    if len > start {
        tokens.push(String::from_str(text.substring_char(start, len)));
        assert(tokens.deep_view() =~= before.push(text@.subrange(start as int, len as int)));
    }
    assert(tokens.deep_view() =~= before + pieces(rest));
}

/// The tokens of a coordinate given as a list of texts: each text is cut at
/// its commas, and the pieces that are not empty are kept, in order.
pub fn coordinate_tokens(coords: &Vec<String>) -> (tokens: Vec<String>)
    ensures
        tokens.deep_view() == tokens_of(coords.deep_view()),
{
    let mut tokens: Vec<String> = Vec::new();
    let mut n: usize = 0;
    assert(tokens.deep_view() =~= tokens_of(coords.deep_view().take(0)));
    while n < coords.len()
        invariant
            n <= coords.len(),
            tokens.deep_view() == tokens_of(coords.deep_view().take(n as int)),
        decreases coords.len() - n,
    {
        proof {
            let next = coords.deep_view().take(n + 1);
            assert(next.drop_last() =~= coords.deep_view().take(n as int));
            assert(next.last() == coords[n as int]@);
        }
        push_pieces(&mut tokens, coords[n].as_str());
        n = n + 1;
    }
    assert(coords.deep_view().take(n as int) =~= coords.deep_view());
    tokens
}

/// The coordinate that the tokens of `coords` stand for, given what each
/// token is worth as a number: `None` for a token that is no number.
///
/// There must be exactly two tokens, both of them numbers: the latitude, then
/// the longitude. Anything else is refused as `InvalidCoordinates`, with the
/// texts as they were given.
pub fn parse_coordinate(coords: Vec<String>, values: Vec<Option<i64>>) -> (result: Result<
    Coordinate,
    Error,
>)
    ensures
        match result {
            Ok(c) => values@ == seq![Some(c.latitude), Some(c.longitude)],
            Err(e) => !(values@.len() == 2 && values@[0] is Some && values@[1] is Some) && e
                == Error::InvalidCoordinates(coords),
        },
{
    if values.len() != 2 {
        return Err(Error::InvalidCoordinates(coords));
    }
    let latitude = match values[0] {
        Some(c) => c,
        None => return Err(Error::InvalidCoordinates(coords)),
    };

    let longitude = match values[1] {
        Some(c) => c,
        None => return Err(Error::InvalidCoordinates(coords)),
    };
    assert(values@ =~= seq![Some(latitude), Some(longitude)]);

    Ok(Coordinate { latitude, longitude })
}

} // verus!
