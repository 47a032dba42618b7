use pluscodes::decode::is_valid_code;
use pluscodes::utils::DIGITS;
use regex::Regex;

#[test]
fn accepts_codes_of_every_length() {
    for code in [
        "9F+",
        "9FFW+",
        "9FFW84+",
        "9FFW84J9+",
        "9FFW84J9+XG",
        "9F000000+",
        "9FFW0000+",
        "9FFW8400+",
        "22222222+22",
        "XXXXXXXX+XX",
        "9F00+",
        "9F0000+",
        "22002200+",
        "22000000+22",
    ] {
        assert!(is_valid_code(code), "{}", code);
    }
}

#[test]
fn rejects_the_empty_text() {
    assert!(!is_valid_code(""));
}

#[test]
fn rejects_a_text_without_a_separator() {
    assert!(!is_valid_code("foo"));
    assert!(!is_valid_code("9FFW84J9"));
    assert!(!is_valid_code("9FFW84J9XG"));
    assert!(!is_valid_code("9FFW84J9XGX"));
}

#[test]
fn rejects_a_separator_in_the_wrong_place() {
    assert!(!is_valid_code("+"));
    assert!(!is_valid_code("+9FFW84J9"));
    assert!(!is_valid_code("9+FFW84J9"));
    assert!(!is_valid_code("9FF+W84J9"));
    assert!(!is_valid_code("9FFW8+4J9"));
    assert!(!is_valid_code("9FFW84J+9XG"));
    assert!(!is_valid_code("9FFW84J9X+G"));
    assert!(!is_valid_code("9FFW84J9XG+"));
    assert!(!is_valid_code("9F+FW"));
    assert!(!is_valid_code("9FFW+84"));
    assert!(!is_valid_code("9FFW84+J9"));
    assert!(!is_valid_code("9FFW84J9++"));
    assert!(!is_valid_code("9FFW84J9+X+"));
}

#[test]
fn rejects_a_digit_and_padding_in_one_pair() {
    assert!(!is_valid_code("9FFW84J0+"));
    assert!(!is_valid_code("9FFW840J+"));
    assert!(!is_valid_code("9FF00000+"));
    assert!(!is_valid_code("9F0W+"));
    assert!(!is_valid_code("9FFW84J9+X0"));
    assert!(!is_valid_code("9FFW84J9+0G"));
}

#[test]
fn rejects_padding_in_the_first_pair_and_after_the_separator() {
    assert!(!is_valid_code("00000000+"));
    assert!(!is_valid_code("00+"));
    assert!(!is_valid_code("09FW0000+"));
    assert!(!is_valid_code("9FFW84J9+00"));
}

#[test]
fn rejects_more_than_one_pair_after_the_separator() {
    assert!(!is_valid_code("9FFW84J9+XGX"));
    assert!(!is_valid_code("9FFW84J9+XGXG"));
    assert!(!is_valid_code("9FFW84J9+XGXGXG"));
    assert!(!is_valid_code("9FFW84J9+X"));
}

#[test]
fn rejects_symbols_outside_the_alphabet() {
    assert!(!is_valid_code("9ffw84j9+xg"));
    assert!(!is_valid_code("9FFW84J9+XA"));
    assert!(!is_valid_code("1FFW84J9+XG"));
    assert!(!is_valid_code("9FFW84J9+XG "));
    assert!(!is_valid_code(" 9FFW84J9+XG"));
    assert!(!is_valid_code("９FFW84J9+XG"));
    assert!(!is_valid_code("9F\u{0}"));
}

#[test]
fn repeated_checks_of_one_text_agree() {
    for text in ["9FFW84J9+XG", "9FFW0000+", "foo", "", "9FFW84J0+"] {
        let first = is_valid_code(text);
        for _ in 0..5 {
            assert_eq!(is_valid_code(text), first);
        }
        assert_eq!(is_valid_code(&text.to_string()), first);
    }
}

fn grammar() -> Regex {
    let pair = format!("[{}]{{2}}", DIGITS);
    let pair_or_padding = format!("(?:{}|00)", pair);
    let pattern = format!(
        "^{pair}(?:{any}{{0,2}}[+]|{any}{{3}}[+](?:{pair})?)$",
        pair = pair,
        any = pair_or_padding
    );
    Regex::new(&pattern).unwrap()
}

fn all_texts(symbols: &[char], length: usize) -> Vec<String> {
    let mut texts = vec![String::new()];
    for _ in 0..length {
        let mut longer = Vec::new();
        for text in &texts {
            for symbol in symbols {
                let mut next = text.clone();
                next.push(*symbol);
                longer.push(next);
            }
        }
        texts = longer;
    }
    texts
}

#[test]
fn agrees_with_the_grammar_as_a_pattern_on_every_short_text() {
    let grammar = grammar();
    let symbols = ['2', 'X', '0', '+', 'A'];
    let mut accepted = 0;
    for length in 0..=7 {
        for text in all_texts(&symbols, length) {
            let valid = is_valid_code(&text);
            assert_eq!(valid, grammar.is_match(&text), "{}", text);
            if valid {
                accepted += 1;
            }
        }
    }
    assert_eq!(accepted, 4 + 4 * 5 + 4 * 5 * 5);
}

#[test]
fn agrees_with_the_grammar_as_a_pattern_on_long_texts() {
    let grammar = grammar();
    let pairs = ["2X", "00", "20", "0X", "A2", "+2"];
    let ends = ["+", "", "++", "+XG", "+X", "+00", "+XGXG", "+0G", "XG+", "+2+"];
    let mut accepted = 0;
    for a in pairs {
        for b in pairs {
            for c in pairs {
                for d in pairs {
                    for end in ends {
                        let text = format!("{}{}{}{}{}", a, b, c, d, end);
                        let valid = is_valid_code(&text);
                        assert_eq!(valid, grammar.is_match(&text), "{}", text);
                        if valid {
                            accepted += 1;
                        }
                    }
                }
            }
        }
    }
    assert_eq!(accepted, 2 * 2 * 2 * 2);
}
