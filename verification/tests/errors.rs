use edn_text::edn::parse;
use edn_text::error::{ErrorKind, ParseError};

fn refused(text: &str) -> ParseError {
    parse(text).expect_err("the text denotes no value")
}

fn at(kind: ErrorKind, offset: usize, line: usize, column: usize) -> ParseError {
    ParseError { kind, offset, line, column }
}

#[test]
fn empty_input_is_refused() {
    assert_eq!(refused(""), at(ErrorKind::EmptyInput, 0, 0, 0));
    assert_eq!(refused(" , "), at(ErrorKind::EmptyInput, 3, 0, 3));
    assert_eq!(refused("\n\n"), at(ErrorKind::EmptyInput, 2, 2, 0));
}

#[test]
fn unterminated_string_is_refused() {
    assert_eq!(refused("\"abc"), at(ErrorKind::UnterminatedString, 0, 0, 0));
    assert_eq!(refused("\"abc\\\""), at(ErrorKind::UnterminatedString, 0, 0, 0));
    assert_eq!(refused("[1 \"x]"), at(ErrorKind::UnterminatedString, 3, 0, 3));
}

#[test]
fn unterminated_collection_is_refused() {
    assert_eq!(refused("(1 2"), at(ErrorKind::UnterminatedCollection, 0, 0, 0));
    assert_eq!(refused("[1 (2"), at(ErrorKind::UnterminatedCollection, 3, 0, 3));
    assert_eq!(refused("#{"), at(ErrorKind::UnterminatedCollection, 0, 0, 0));
    assert_eq!(refused("{:a 1"), at(ErrorKind::UnterminatedCollection, 0, 0, 0));
    assert_eq!(refused("[1 ; ]"), at(ErrorKind::UnterminatedCollection, 0, 0, 0));
}

#[test]
fn unexpected_close_is_refused() {
    assert_eq!(refused(")"), at(ErrorKind::UnexpectedClose, 0, 0, 0));
    assert_eq!(refused("(]"), at(ErrorKind::UnexpectedClose, 1, 0, 1));
    assert_eq!(refused("[1 2}"), at(ErrorKind::UnexpectedClose, 4, 0, 4));
}

#[test]
fn unrecognized_character_is_refused() {
    assert_eq!(refused("@"), at(ErrorKind::UnrecognizedCharacter, 0, 0, 0));
    assert_eq!(refused("#"), at(ErrorKind::UnrecognizedCharacter, 0, 0, 0));
    assert_eq!(refused("#_x"), at(ErrorKind::UnrecognizedCharacter, 0, 0, 0));
    assert_eq!(refused("[1\n  ^]"), at(ErrorKind::UnrecognizedCharacter, 5, 1, 2));
    assert_eq!(refused("h\u{e9}llo"), at(ErrorKind::TrailingInput, 1, 0, 1));
}

#[test]
fn invalid_character_is_refused() {
    assert_eq!(refused("\\"), at(ErrorKind::InvalidCharacter, 0, 0, 0));
    assert_eq!(refused("\\foo"), at(ErrorKind::InvalidCharacter, 0, 0, 0));
    assert_eq!(refused("\\u12"), at(ErrorKind::InvalidCharacter, 0, 0, 0));
    assert_eq!(refused("\\u12345"), at(ErrorKind::InvalidCharacter, 0, 0, 0));
    assert_eq!(refused("\\uD800"), at(ErrorKind::InvalidCharacter, 0, 0, 0));
    assert_eq!(refused("\\uDFFF"), at(ErrorKind::InvalidCharacter, 0, 0, 0));
    assert_eq!(refused("\\newlines"), at(ErrorKind::InvalidCharacter, 0, 0, 0));
    assert_eq!(refused("(\\spaces)"), at(ErrorKind::InvalidCharacter, 1, 0, 1));
    assert!(parse("\\uD7FF").is_ok());
    assert!(parse("\\uE000").is_ok());
    assert!(parse("\\uFFFF").is_ok());
}

#[test]
fn invalid_identifier_is_refused() {
    assert_eq!(refused("a/b/c"), at(ErrorKind::InvalidIdentifier, 0, 0, 0));
    assert_eq!(refused("a/"), at(ErrorKind::InvalidIdentifier, 0, 0, 0));
    assert_eq!(refused("/a"), at(ErrorKind::InvalidIdentifier, 0, 0, 0));
    assert_eq!(refused(":"), at(ErrorKind::InvalidIdentifier, 0, 0, 0));
    assert_eq!(refused(":1a"), at(ErrorKind::InvalidIdentifier, 0, 0, 0));
    assert_eq!(refused("::a"), at(ErrorKind::InvalidIdentifier, 0, 0, 0));
    assert_eq!(refused("some_namespace/9428hello"), at(ErrorKind::InvalidIdentifier, 0, 0, 0));
    assert_eq!(refused(":some_namespace/9428hello"), at(ErrorKind::InvalidIdentifier, 0, 0, 0));
    assert_eq!(refused(":422some_namespace/hello"), at(ErrorKind::InvalidIdentifier, 0, 0, 0));
    assert_eq!(refused("[a b/1]"), at(ErrorKind::InvalidIdentifier, 3, 0, 3));
}

#[test]
fn invalid_number_is_refused() {
    assert_eq!(refused("12abc"), at(ErrorKind::InvalidNumber, 2, 0, 2));
    assert_eq!(refused("1."), at(ErrorKind::InvalidNumber, 1, 0, 1));
    assert_eq!(refused("1e"), at(ErrorKind::InvalidNumber, 1, 0, 1));
    assert_eq!(refused("1e+"), at(ErrorKind::InvalidNumber, 1, 0, 1));
    assert_eq!(refused("1NM"), at(ErrorKind::InvalidNumber, 2, 0, 2));
    assert_eq!(refused("1.5.2"), at(ErrorKind::InvalidNumber, 3, 0, 3));
    assert_eq!(refused("422some_namespace/hello"), at(ErrorKind::InvalidNumber, 3, 0, 3));
    assert_eq!(refused("-1/x"), at(ErrorKind::InvalidNumber, 2, 0, 2));
}

#[test]
fn suffix_of_integers_on_a_float_is_refused() {
    assert_eq!(refused("1.5N"), at(ErrorKind::InvalidSuffix, 3, 0, 3));
    assert_eq!(refused("1e5N"), at(ErrorKind::InvalidSuffix, 3, 0, 3));
    assert_eq!(refused("[0 -2.25e1N]"), at(ErrorKind::InvalidSuffix, 10, 0, 10));
}

#[test]
fn exponent_out_of_range_is_refused() {
    assert_eq!(
        refused("1e99999999999999999999"),
        at(ErrorKind::ExponentOutOfRange, 0, 0, 0)
    );
    assert_eq!(
        refused("1e-99999999999999999999M"),
        at(ErrorKind::ExponentOutOfRange, 0, 0, 0)
    );
    assert_eq!(
        refused("1e9223372036854775808"),
        at(ErrorKind::ExponentOutOfRange, 0, 0, 0)
    );
    assert_eq!(
        refused("1.5e-9223372036854775808"),
        at(ErrorKind::ExponentOutOfRange, 0, 0, 0)
    );
    assert_eq!(
        refused("1e999999999999999999999999999999999999999999999999999999"),
        at(ErrorKind::ExponentOutOfRange, 0, 0, 0)
    );
    assert_eq!(
        refused("10e9223372036854775807"),
        at(ErrorKind::ExponentOutOfRange, 0, 0, 0)
    );
    assert_eq!(
        refused("[1.00e9223372036854775806 100.0e9223372036854775806]"),
        at(ErrorKind::ExponentOutOfRange, 26, 0, 26)
    );
    assert!(parse("10e9223372036854775807M").is_ok());
    assert!(parse("10e9223372036854775806").is_ok());
    assert!(parse("1e9223372036854775807").is_ok());
    assert!(parse("1e-9223372036854775808").is_ok());
    assert!(parse("1.5e-9223372036854775807").is_ok());
}

#[test]
fn odd_map_is_refused() {
    assert_eq!(refused("{[]}"), at(ErrorKind::OddMapElements, 0, 0, 0));
    assert_eq!(refused("{1}"), at(ErrorKind::OddMapElements, 0, 0, 0));
    assert_eq!(refused("{1 2 3}"), at(ErrorKind::OddMapElements, 0, 0, 0));
    assert_eq!(refused("[1\n {:a 1 :b}]"), at(ErrorKind::OddMapElements, 4, 1, 1));
    assert_eq!(refused("{:a {:b}}"), at(ErrorKind::OddMapElements, 4, 0, 4));
}

#[test]
fn trailing_input_is_refused() {
    assert_eq!(refused("1 2"), at(ErrorKind::TrailingInput, 2, 0, 2));
    assert_eq!(refused("some_namespace/hello]"), at(ErrorKind::TrailingInput, 20, 0, 20));
    assert_eq!(refused("[]\n\n  )"), at(ErrorKind::TrailingInput, 6, 2, 2));
    assert_eq!(refused("nil ; c\n nil"), at(ErrorKind::TrailingInput, 9, 1, 1));
}

#[test]
fn errors_say_what_is_wrong() {
    assert_eq!(refused("\"abc").message(), "unterminated string");
    assert_eq!(refused("{1}").message(), "map with an odd number of elements");
    assert_eq!(ErrorKind::EmptyInput.describe(), "no value in the input");
    assert_eq!(ErrorKind::UnterminatedCollection.describe(), "unterminated collection");
    assert_eq!(ErrorKind::UnexpectedClose.describe(), "unexpected closing delimiter");
    assert_eq!(ErrorKind::UnrecognizedCharacter.describe(), "unrecognized character");
    assert_eq!(ErrorKind::InvalidCharacter.describe(), "invalid character literal");
    assert_eq!(ErrorKind::InvalidIdentifier.describe(), "invalid symbol or keyword");
    assert_eq!(ErrorKind::InvalidNumber.describe(), "invalid number");
    assert_eq!(
        ErrorKind::InvalidSuffix.describe(),
        "suffix N on a number that is no integer"
    );
    assert_eq!(ErrorKind::ExponentOutOfRange.describe(), "exponent out of range");
    assert_eq!(ErrorKind::TrailingInput.describe(), "input after the value");
}

#[test]
fn positions_count_characters_not_bytes() {
    // the string holds two characters of several bytes each
    assert_eq!(refused("[\"\u{e9}\u{4e16}\" @]"), at(ErrorKind::UnrecognizedCharacter, 6, 0, 6));
    let e = ParseError::locate(&"a\nbc\nd".chars().collect(), ErrorKind::TrailingInput, 5);
    assert_eq!(e, at(ErrorKind::TrailingInput, 5, 2, 0));
    let e = ParseError::locate(&"a\nbc\nd".chars().collect(), ErrorKind::TrailingInput, 4);
    assert_eq!(e, at(ErrorKind::TrailingInput, 4, 1, 2));
}
