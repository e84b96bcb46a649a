use edn_text::ast::{Expr, Float, Integer};
use edn_text::edn::parse;

fn reread(text: &str) {
    let first = parse(text).expect("the text denotes a value");
    let printed = first.to_string();
    let second = parse(&printed).expect("the printed text denotes a value");
    assert_eq!(first, second, "{} printed as {}", text, printed);
    assert_eq!(second.to_string(), printed);
}

#[test]
fn printing_and_reading_again_changes_nothing() {
    for text in [
        "nil",
        "true",
        "/",
        ":/",
        "+",
        "a/+1",
        ":+1/-2",
        "\"\"",
        "\"a \\\" b \\\\ c \\n d \\t e \\r f \\q g\"",
        "\"line\nend, tab\there\"",
        "\\a",
        "\\n",
        "\\u006E",
        "\\u0062",
        "\\u",
        "\\(",
        "\\;",
        "\\\"",
        "\\\\",
        "\\,",
        "\\uFFFF",
        "\\u0000",
        "0",
        "-0",
        "9223372036854775807",
        "-9223372036854775808",
        "9223372036854775808",
        "-9223372036854775809",
        "0N",
        "-17N",
        "0.0",
        "-0.0",
        "0.5",
        "12345.678",
        "0.000001",
        "0.0000001",
        "0.00000001",
        "123e45",
        "1.50",
        "100.0",
        "1e16",
        "1e15",
        "12345678901234567.0",
        "0.00001",
        "0.000001",
        "-42.1e-10",
        "1.2e9223372036854775808",
        "1e-9223372036854775808",
        "1e9223372036854775807",
        "1.5M",
        "0M",
        "-0M",
        "0.000M",
        "1e100M",
        "()",
        "[[[[]]]]",
        "(1 (2 (3 (4))))",
        "[\\a \\b \\space \"s\" :k s 1 1N 1.0 1M nil]",
        "#{#{#{}} #{} #{1} #{1 2}}",
        "{{} {}, {1 2} {3 4}}",
        "{:a 1 :b [true nil 9]}",
        "{:-some key 1 #{nil + -}}",
        "{\"k\" \\v, [1] (2), #{3} {4 5}}",
    ] {
        reread(text);
    }
}

#[test]
fn odd_maps_are_refused() {
    for text in ["{[]}", "{1}", "{1 2 3}", "{:a}", "[{:a}]", "{:a {:b 1 :c}}", "#{{1}}"] {
        assert!(parse(text).is_err(), "{}", text);
    }
    for text in ["{}", "{1 2}", "{1 2 3 4}", "[{:a 1}]"] {
        assert!(parse(text).is_ok(), "{}", text);
    }
}

#[test]
fn separators_are_interchangeable() {
    let plain = parse("[1 2 3]").unwrap();
    for text in [
        "[1,2,3]",
        "[1,2 3,]",
        "[,1,,2,,3,,]",
        "[ 1\n2\t3\r]",
        "  [1 2 3]  ",
        ",[1, 2, 3],",
        "[\n  1,\n  2,\n  3,\n]\n",
    ] {
        assert_eq!(parse(text).unwrap(), plain, "{:?}", text);
    }
    assert_eq!(parse("{:a,1,:b,2}").unwrap(), parse("{:a 1 :b 2}").unwrap());
    assert_eq!(parse("#{1,2}").unwrap(), parse("#{1 2}").unwrap());
    assert_eq!(parse("(a,b)").unwrap(), parse("(a b)").unwrap());
}

#[test]
fn integers_are_exact_where_they_fit() {
    assert_eq!(
        parse(&i64::MAX.to_string()).unwrap(),
        Expr::Integer(Integer::Exact(i64::MAX))
    );
    assert_eq!(
        parse(&(i64::MIN + 1).to_string()).unwrap(),
        Expr::Integer(Integer::Exact(i64::MIN + 1))
    );
    assert_eq!(
        parse(&i64::MIN.to_string()).unwrap(),
        Expr::Integer(Integer::Exact(i64::MIN))
    );
    assert_eq!(parse("+42").unwrap(), Expr::Integer(Integer::Exact(42)));
    assert_eq!(parse("-42").unwrap(), Expr::Integer(Integer::Exact(-42)));
    assert_eq!(parse("000").unwrap(), Expr::Integer(Integer::Exact(0)));
    for text in [
        "9223372036854775808",
        "-9223372036854775809",
        "340282366920938463463374607431768211456",
        "+42N",
        "-42N",
        "0N",
    ] {
        assert!(
            matches!(parse(text).unwrap(), Expr::Integer(Integer::Arbitrary(_))),
            "{}",
            text
        );
    }
    match parse("-0042N").unwrap() {
        Expr::Integer(Integer::Arbitrary(big)) => {
            assert_eq!(big.to_text(), "-42");
            assert!(big.is_negative());
        }
        other => panic!("not an integer of any size: {:?}", other),
    }
    match parse("340282366920938463463374607431768211456").unwrap() {
        Expr::Integer(Integer::Arbitrary(big)) => {
            assert_eq!(big.to_text(), "340282366920938463463374607431768211456");
        }
        other => panic!("not an integer of any size: {:?}", other),
    }
}

#[test]
fn floats_are_exact_with_the_suffix_and_double_without() {
    for text in ["+42M", "13M", "-42M", "1.5M", "1e5M", "0.1E-3M"] {
        assert!(
            matches!(parse(text).unwrap(), Expr::Float(Float::Exact(_))),
            "{}",
            text
        );
    }
    for text in ["-42.1e-10", "0.0", "1e5", "1E5", "4.25", "1e-3"] {
        assert!(
            matches!(parse(text).unwrap(), Expr::Float(Float::Double(_))),
            "{}",
            text
        );
    }
    match parse("-42.1e-10").unwrap() {
        Expr::Float(Float::Double(d)) => {
            assert!(d.is_negative());
            assert_eq!(d.digits(), "421");
            assert_eq!(d.exponent(), -11);
        }
        other => panic!("not a double: {:?}", other),
    }
    match parse("+42M").unwrap() {
        Expr::Float(Float::Exact(d)) => {
            assert!(!d.is_negative());
            assert_eq!(d.digits(), "42");
            assert_eq!(d.exponent(), 0);
        }
        other => panic!("not an exact decimal: {:?}", other),
    }
    match parse("001.2300e+2M").unwrap() {
        Expr::Float(Float::Exact(d)) => {
            assert_eq!(d.digits(), "12300");
            assert_eq!(d.exponent(), -2);
        }
        other => panic!("not an exact decimal: {:?}", other),
    }
}

#[test]
fn characters_have_names() {
    assert_eq!(parse("\\n").unwrap(), parse("\\newline").unwrap());
    assert_eq!(parse("\\newline").unwrap(), Expr::Character('\n'));
    assert_eq!(parse("\\r").unwrap(), Expr::Character('\r'));
    assert_eq!(parse("\\return").unwrap(), Expr::Character('\r'));
    assert_eq!(parse("\\t").unwrap(), Expr::Character('\t'));
    assert_eq!(parse("\\tab").unwrap(), Expr::Character('\t'));
    assert_eq!(parse("\\b").unwrap(), Expr::Character('\u{8}'));
    assert_eq!(parse("\\backspace").unwrap(), Expr::Character('\u{8}'));
    assert_eq!(parse("\\space").unwrap(), Expr::Character(' '));
    assert_eq!(parse("\\u241F").unwrap(), Expr::Character('\u{241F}'));
    assert_eq!(parse("\\u241f").unwrap(), Expr::Character('\u{241F}'));
    assert_eq!(parse("\\s").unwrap(), Expr::Character('s'));
}

#[test]
fn namespaces_and_names_do_not_begin_with_digits() {
    assert!(parse("some_namespace/hello]").is_err());
    for text in [
        "422some_namespace/hello",
        "some_namespace/9428hello",
        ":422some_namespace/hello",
        ":some_namespace/9428hello",
        "a/1",
        ":1/a",
        ":1",
        "+1/a",
    ] {
        assert!(parse(text).is_err(), "{}", text);
    }
    for text in ["a1/b2", ":a1/b2", "a/+1", ":+1/a", "-a/b"] {
        assert!(parse(text).is_ok(), "{}", text);
    }
}

#[test]
fn a_map_is_read_and_printed_and_read_again() {
    let read = parse("{:a 1 :b [true nil 9]}").unwrap();
    let a = Expr::Keyword { namespace: None, name: "a".to_string() };
    let b = Expr::Keyword { namespace: None, name: "b".to_string() };
    let expected = Expr::SortedMap(vec![
        (a, Expr::Integer(Integer::Exact(1))),
        (
            b,
            Expr::Vector(vec![
                Expr::Symbol { namespace: None, name: "true".to_string() },
                Expr::Nil,
                Expr::Integer(Integer::Exact(9)),
            ]),
        ),
    ]);
    assert_eq!(read, expected);
    match &read {
        Expr::SortedMap(entries) => assert_eq!(entries.len(), 2),
        other => panic!("not a map: {:?}", other),
    }
    let printed = read.to_string();
    assert_eq!(printed, "{:a 1, :b [true nil 9]}");
    assert_eq!(parse(&printed).unwrap(), read);
}
