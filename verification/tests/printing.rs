use edn_text::ast::{BigInteger, Decimal, Double, Expr, Float, Integer};
use edn_text::edn::{parse, ExprParser};
use edn_text::order::Order;

fn printed(text: &str) -> String {
    parse(text).expect("the text denotes a value").to_string()
}

#[test]
fn integers_print_in_decimal() {
    assert_eq!(printed("0"), "0");
    assert_eq!(printed("-0"), "0");
    assert_eq!(printed("+42"), "42");
    assert_eq!(printed("-42"), "-42");
    assert_eq!(printed("007"), "7");
    assert_eq!(printed("9223372036854775807"), "9223372036854775807");
    assert_eq!(printed("-9223372036854775808"), "-9223372036854775808");
}

#[test]
fn integers_of_any_size_print_with_their_suffix() {
    assert_eq!(printed("42N"), "42N");
    assert_eq!(printed("+0042N"), "42N");
    assert_eq!(printed("-0N"), "0N");
    assert_eq!(printed("-000123N"), "-123N");
    assert_eq!(printed("9223372036854775808"), "9223372036854775808N");
    assert_eq!(printed("-9223372036854775809"), "-9223372036854775809N");
    assert_eq!(
        printed("123456789012345678901234567890123456789012345678901234567890"),
        "123456789012345678901234567890123456789012345678901234567890N"
    );
}

#[test]
fn doubles_print_with_a_point_or_an_exponent() {
    assert_eq!(printed("13.9"), "13.9");
    assert_eq!(printed("0.0"), "0.0");
    assert_eq!(printed("-0.0"), "-0.0");
    assert_eq!(printed("+0.0"), "0.0");
    assert_eq!(printed("0.000"), "0.0");
    assert_eq!(printed("0e5"), "0.0");
    assert_eq!(printed("-0e-7"), "-0.0");
    assert_eq!(printed("100.0"), "100.0");
    assert_eq!(printed("1e2"), "100.0");
    assert_eq!(printed("001.50"), "1.5");
    assert_eq!(printed("1.0"), "1.0");
    assert_eq!(printed("1.000"), "1.0");
    assert_eq!(printed("4.2e1"), "42.0");
    assert_eq!(printed("0.3"), "0.3");
    assert_eq!(printed("0.001"), "0.001");
    assert_eq!(printed("0.00001"), "0.00001");
    assert_eq!(printed("0.000012"), "0.000012");
    assert_eq!(printed("0.000001"), "1e-6");
    assert_eq!(printed("0.0000012"), "1.2e-6");
    assert_eq!(printed("1e-10"), "1e-10");
    assert_eq!(printed("1.234e-7"), "1.234e-7");
    assert_eq!(printed("-42.1e10"), "-421000000000.0");
    assert_eq!(printed("-42.1E+10"), "-421000000000.0");
    assert_eq!(printed("-42.1e-10"), "-4.21e-9");
    assert_eq!(printed("-42.1E-10"), "-4.21e-9");
    assert_eq!(printed("1e15"), "1000000000000000.0");
    assert_eq!(printed("1e16"), "1e16");
    assert_eq!(printed("1234567890123456.0"), "1234567890123456.0");
    assert_eq!(printed("12345678901234567.0"), "1.2345678901234567e16");
    assert_eq!(printed("123456789012345.6"), "123456789012345.6");
    assert_eq!(printed("1e21"), "1e21");
    assert_eq!(printed("1.5e300"), "1.5e300");
    assert_eq!(printed("1.7976931348623157e308"), "1.7976931348623157e308");
    assert_eq!(printed("-1.7976931348623157e308"), "-1.7976931348623157e308");
    assert_eq!(printed("5e-324"), "5e-324");
}

#[test]
fn doubles_drop_the_zeros_at_their_end() {
    assert_eq!(parse("1.50").unwrap(), parse("1.5").unwrap());
    assert_eq!(parse("1.0").unwrap(), parse("1.000").unwrap());
    assert_eq!(parse("1e1").unwrap(), parse("10.0").unwrap());
    assert_eq!(parse("100e-1").unwrap(), parse("10.0").unwrap());
    assert_eq!(parse("0.0").unwrap(), parse("0e9").unwrap());
    assert!(parse("0.0").unwrap() != parse("-0.0").unwrap());
    assert!(parse("1.5").unwrap() != parse("1.5M").unwrap());
    assert!(parse("1.50M").unwrap() != parse("1.5M").unwrap());
    match parse("120.00e3").unwrap() {
        Expr::Float(Float::Double(d)) => {
            assert_eq!(d.digits(), "12");
            assert_eq!(d.exponent(), 4);
            assert!(!d.is_negative());
        }
        other => panic!("not a double: {:?}", other),
    }
    match parse("-0.000").unwrap() {
        Expr::Float(Float::Double(d)) => {
            assert_eq!(d.digits(), "0");
            assert_eq!(d.exponent(), 0);
            assert!(d.is_negative());
        }
        other => panic!("not a double: {:?}", other),
    }
}

#[test]
fn exact_decimals_print_with_their_suffix() {
    assert_eq!(printed("13M"), "13M");
    assert_eq!(printed("+42M"), "42M");
    assert_eq!(printed("-42M"), "-42M");
    assert_eq!(printed("1.50M"), "1.50M");
    assert_eq!(printed("1.0M"), "1.0M");
    assert_eq!(printed("0.001M"), "0.001M");
    assert_eq!(printed("0.00000001M"), "0.00000001M");
    assert_eq!(printed("1e-8M"), "0.00000001M");
    assert_eq!(printed("1e-28M"), "0.0000000000000000000000000001M");
    assert_eq!(printed("12.5e-20M"), "0.000000000000000000125M");
    assert_eq!(printed("1e-30M"), "1e-30M");
    assert_eq!(printed("1e3M"), "1e3M");
    assert_eq!(
        printed("0.12345678901234567890123456789012345M"),
        "0.12345678901234567890123456789012345M"
    );
    assert_eq!(
        printed("79228162514264337593543950335M"),
        "79228162514264337593543950335M"
    );
}

#[test]
fn strings_print_with_their_escapes() {
    assert_eq!(printed("\"\""), "\"\"");
    assert_eq!(printed("\"foo\""), "\"foo\"");
    assert_eq!(printed("\"a\\nb\\tc\\rd\""), "\"a\\nb\\tc\\rd\"");
    assert_eq!(printed("\"say \\\"hi\\\"\""), "\"say \\\"hi\\\"\"");
    assert_eq!(printed("\"back\\\\slash\""), "\"back\\\\slash\"");
    assert_eq!(printed("\"a \\ b\""), "\"a \\\\ b\"");
    assert_eq!(printed("\"line\nend\""), "\"line\\nend\"");
    assert_eq!(
        parse("\"a\\nb\"").unwrap(),
        Expr::String("a\nb".to_string())
    );
    assert_eq!(
        parse("\"a \\ b\"").unwrap(),
        Expr::String("a \\ b".to_string())
    );
    assert_eq!(
        parse("\"x\\qy\"").unwrap(),
        Expr::String("x\\qy".to_string())
    );
}

#[test]
fn characters_print_by_name_or_alone() {
    assert_eq!(printed("\\newline"), "\\newline");
    assert_eq!(printed("\\n"), "\\newline");
    assert_eq!(printed("\\r"), "\\return");
    assert_eq!(printed("\\t"), "\\tab");
    assert_eq!(printed("\\b"), "\\backspace");
    assert_eq!(printed("\\space"), "\\space");
    assert_eq!(printed("\\a"), "\\a");
    assert_eq!(printed("\\u"), "\\u");
    assert_eq!(printed("\\("), "\\(");
    assert_eq!(printed("\\,"), "\\,");
    assert_eq!(printed("\\u0041"), "\\A");
    assert_eq!(printed("\\u006E"), "\\u006E");
    assert_eq!(printed("\\u0072"), "\\u0072");
    assert_eq!(printed("\\u0074"), "\\u0074");
    assert_eq!(printed("\\u0062"), "\\u0062");
    assert_eq!(printed("\\u006e"), "\\u006E");
    assert_eq!(printed("\\u241F"), "\\\u{241F}");
    assert_eq!(parse("\\u006E").unwrap(), Expr::Character('n'));
    assert_eq!(parse("\\u0041").unwrap(), Expr::Character('A'));
    assert_eq!(parse("\\(").unwrap(), Expr::Character('('));
}

#[test]
fn names_print_with_their_namespace() {
    assert_eq!(printed("foo"), "foo");
    assert_eq!(printed("my-ns/foo"), "my-ns/foo");
    assert_eq!(printed(":foo"), ":foo");
    assert_eq!(printed(":my-ns/foo"), ":my-ns/foo");
    assert_eq!(printed("/"), "/");
    assert_eq!(printed(":/"), ":/");
    assert_eq!(printed("+"), "+");
    assert_eq!(printed("-"), "-");
    assert_eq!(printed(":+1"), ":+1");
    assert_eq!(printed("true"), "true");
    assert_eq!(printed("nil"), "nil");
    assert_eq!(
        parse("true").unwrap(),
        Expr::Symbol { namespace: None, name: "true".to_string() }
    );
    assert_eq!(parse("nil").unwrap(), Expr::Nil);
    assert_eq!(
        parse("nil/x").unwrap(),
        Expr::Symbol { namespace: Some("nil".to_string()), name: "x".to_string() }
    );
}

#[test]
fn collections_print_with_single_spaces() {
    assert_eq!(printed("()"), "()");
    assert_eq!(printed("( 1,2 ,, 3 )"), "(1 2 3)");
    assert_eq!(printed("[[] [],]"), "[[] []]");
    assert_eq!(printed("#{}"), "#{}");
    assert_eq!(printed("{}"), "{}");
    assert_eq!(printed("{:a 1}"), "{:a 1}");
    assert_eq!(printed("{:b 2 :a 1}"), "{:a 1, :b 2}");
    assert_eq!(printed("{:a 1 :b [true nil 9]}"), "{:a 1, :b [true nil 9]}");
}

#[test]
fn sets_keep_each_value_once_in_order() {
    assert_eq!(printed("#{3 1 2 1}"), "#{1 2 3}");
    assert_eq!(printed("#{b a c a}"), "#{a b c}");
    assert_eq!(printed("#{10 9 -1}"), "#{-1 9 10}");
    assert_eq!(printed("#{10N 9N -1N 100N}"), "#{-1N 9N 10N 100N}");
    assert_eq!(printed("#{5N 7}"), "#{7 5N}");
    assert_eq!(printed("#{b/x a/z y}"), "#{y a/z b/x}");
    assert_eq!(printed("#{\"b\" \"ab\" \"a\" \"\"}"), "#{\"\" \"a\" \"ab\" \"b\"}");
    assert_eq!(printed("#{[1 2] [1] [] [0 5]}"), "#{[] [0 5] [1] [1 2]}");
    assert_eq!(
        printed("#{{} #{} [] () nil 1.5 1 \\c :k a \"s\"}"),
        "#{\"s\" a :k \\c 1 1.5 nil () [] #{} {}}"
    );
}

#[test]
fn floats_are_kept_in_the_order_of_their_values() {
    assert_eq!(printed("#{10.0 2.25 1.5}"), "#{1.5 2.25 10.0}");
    assert_eq!(printed("#{1e2 99.0 100.5}"), "#{99.0 100.0 100.5}");
    assert_eq!(printed("#{-1.5 -2.5 0.5 -0.25}"), "#{-2.5 -1.5 -0.25 0.5}");
    assert_eq!(printed("#{1.0 1.00}"), "#{1.0}");
    assert_eq!(printed("#{1e1 10.0 100e-1}"), "#{10.0}");
    assert_eq!(printed("#{0.0 -0.0}"), "#{-0.0 0.0}");
    assert_eq!(printed("#{0.0 0.00 -0.0 1e-5 -1e-5}"), "#{-0.00001 -0.0 0.0 0.00001}");
    assert_eq!(printed("#{2M 10M 1.5M -3M}"), "#{-3M 1.5M 2M 10M}");
    assert_eq!(printed("#{1.0M 1.00M}"), "#{1.00M 1.0M}");
    assert_eq!(printed("#{1e400 9e399 1e-400 0.0}"), "#{0.0 1e-400 9e399 1e400}");
    assert_eq!(printed("#{123456.7 123456.8 123456.75}"), "#{123456.7 123456.75 123456.8}");
    assert_eq!(printed("#{5M 1.5}"), "#{1.5 5M}");
    assert_eq!(
        printed("#{1e9223372036854775807 1e-9223372036854775808 5.0}"),
        "#{1e-9223372036854775808 5.0 1e9223372036854775807}"
    );
}

#[test]
fn maps_keep_the_later_of_two_entries_with_one_key() {
    assert_eq!(printed("{:a 1 :a 2}"), "{:a 2}");
    assert_eq!(printed("{:a 1 :b 2 :a 3}"), "{:a 3, :b 2}");
    let map = parse("{1 2 1 3}").unwrap();
    match map {
        Expr::SortedMap(entries) => {
            assert_eq!(entries.len(), 1);
            assert_eq!(entries[0].1, Expr::Integer(Integer::Exact(3)));
        }
        other => panic!("not a map: {:?}", other),
    }
}

#[test]
fn built_collections_are_in_order() {
    let one = parse("1").unwrap();
    let two = parse("2").unwrap();
    let three = parse("3").unwrap();
    let forward = Expr::sorted_set(vec![one.clone(), two.clone(), three.clone()]);
    let backward = Expr::sorted_set(vec![three.clone(), two.clone(), one.clone(), three.clone()]);
    assert_eq!(forward, backward);
    assert_eq!(forward.to_string(), "#{1 2 3}");
    assert_eq!(backward.to_string(), "#{1 2 3}");

    let a = parse(":a").unwrap();
    let b = parse(":b").unwrap();
    let first = Expr::sorted_map(vec![(a.clone(), one.clone()), (b.clone(), two.clone())]);
    let second = Expr::sorted_map(vec![(b.clone(), two.clone()), (a.clone(), one.clone())]);
    assert_eq!(first, second);
    assert_eq!(first.to_string(), "{:a 1, :b 2}");
    assert_eq!(second.to_string(), "{:a 1, :b 2}");
    let twice = Expr::sorted_map(vec![(a.clone(), one.clone()), (a.clone(), three.clone())]);
    assert_eq!(twice.to_string(), "{:a 3}");
}

#[test]
fn large_collections_are_kept_in_order() {
    // 0, 7, 14, ... taken modulo 500: every number below 500 once, out of order
    let mut text = String::from("#{");
    let mut pairs = String::from("{");
    for i in 0..500u32 {
        let n = (i * 7) % 500;
        text.push_str(&format!("{} ", n));
        pairs.push_str(&format!(":k{:03} {}, ", n, n));
    }
    text.push('}');
    pairs.push('}');
    let mut expected = String::from("#{");
    let mut expected_pairs = String::from("{");
    for n in 0..500u32 {
        if n > 0 {
            expected.push(' ');
            expected_pairs.push_str(", ");
        }
        expected.push_str(&n.to_string());
        expected_pairs.push_str(&format!(":k{:03} {}", n, n));
    }
    expected.push('}');
    expected_pairs.push('}');
    assert_eq!(printed(&text), expected);
    assert_eq!(printed(&pairs), expected_pairs);
    assert!(parse(&text).unwrap().is_readable());
    assert!(parse(&pairs).unwrap().is_readable());
}

#[test]
fn same_set_or_map_prints_alike_whatever_the_order() {
    assert_eq!(printed("#{1 2 3}"), printed("#{3 1 2}"));
    assert_eq!(printed("#{:a \"b\" c [1] 2.5}"), printed("#{2.5 [1] c \"b\" :a}"));
    assert_eq!(printed("{:a 1 :b 2 :c 3}"), printed("{:c 3 :a 1 :b 2}"));
    assert_eq!(parse("#{1 2 3}").unwrap(), parse("#{3 1 2}").unwrap());
    assert_eq!(parse("{:a 1 :b 2}").unwrap(), parse("{:b 2, :a 1}").unwrap());
}

#[test]
fn a_value_with_a_comment_has_no_text() {
    assert_eq!(parse("; only a comment").unwrap().try_to_string(), None);
    assert_eq!(parse("[1 ; one\n 2]").unwrap().try_to_string(), None);
    assert_eq!(parse("{:a [; c\n]}").unwrap().try_to_string(), None);
    assert_eq!(parse("#{(;\n)}").unwrap().try_to_string(), None);
    assert_eq!(
        parse("[1 2]").unwrap().try_to_string(),
        Some("[1 2]".to_string())
    );
    assert!(parse("[1 ; one\n 2]").unwrap().has_comment());
    assert!(!parse("[1 2]").unwrap().has_comment());
}

#[test]
fn comments_in_collections_are_elements() {
    assert_eq!(
        parse("[1 ; one\n 2]").unwrap(),
        Expr::Vector(vec![
            Expr::Integer(Integer::Exact(1)),
            Expr::Comment,
            Expr::Integer(Integer::Exact(2)),
        ])
    );
    assert_eq!(
        parse("(; first\n; second\n)").unwrap(),
        Expr::List(vec![Expr::Comment, Expr::Comment])
    );
    // a comment counts among the elements of a map
    assert!(parse("{:a ; no value\n}").is_ok());
    assert!(parse("{:a 1 ; third\n}").is_err());
}

#[test]
fn comments_around_the_value_are_skipped() {
    assert_eq!(parse("; before\n42").unwrap(), Expr::Integer(Integer::Exact(42)));
    assert_eq!(parse("42 ; behind").unwrap(), Expr::Integer(Integer::Exact(42)));
    assert_eq!(
        parse(" ,; a\n ;b\n 42 ,\n; c\n, ").unwrap(),
        Expr::Integer(Integer::Exact(42))
    );
    assert_eq!(parse(" , ; a\n ; b").unwrap(), Expr::Comment);
}

#[test]
fn values_compare_in_the_canonical_order() {
    let p = ExprParser::new();
    let less = |a: &str, b: &str| {
        let x = p.parse(a).unwrap();
        let y = p.parse(b).unwrap();
        assert_eq!(x.compare(&y), Order::Less, "{} before {}", a, b);
        assert_eq!(y.compare(&x), Order::Greater, "{} behind {}", b, a);
        assert!(x.compare(&y).is_less() && !x.compare(&y).is_equal());
        assert!(y.compare(&x).is_greater() && !y.compare(&x).is_less());
        assert_eq!(x.compare(&y).reversed(), Order::Greater);
        assert!(!x.same(&y));
    };
    less("\"z\"", "a");
    less("zz", ":a");
    less(":z", "\\a");
    less("\\z", "0");
    less("9N", "0.5");
    less("9.5M", "nil");
    less("nil", "()");
    less("(9)", "[]");
    less("[9]", "#{}");
    less("#{9}", "{}");
    less("1", "2");
    less("-5", "3");
    less("99", "1N");
    less("-10N", "-9N");
    less("9N", "10N");
    less("-1N", "0N");
    less("a", "b");
    less("a", "ab");
    less("z", "a/a");
    less("a/z", "b/a");
    less("[1 2]", "[1 3]");
    less("[1]", "[1 0]");
    less("{:a 1}", "{:a 2}");
    less("{:a 9}", "{:b 0}");
    less("1.5", "1.5M");
    less("-1.5", "1.5");
    less("2.5", "10.25");
    less("9e0", "1e1");
    less("0.999", "1.0");
    less("-10.0", "-9.5");
    less("1.00M", "1.0M");
    less("-0.0", "0.0");
    less("0.0", "1e-300");
    less("-1e-300", "0.00");
    less("1.5M", "20e-1M");
    for text in ["1", "\"s\"", "[1 [2 #{3}]]", "{:a 1}", "1.50M", "-7N"] {
        let x = p.parse(text).unwrap();
        let y = p.parse(text).unwrap();
        assert_eq!(x.compare(&y), Order::Equal);
        assert!(x.same(&y));
        assert_eq!(x.clone(), x);
        assert_eq!(x.clone().compare(&x), Order::Equal);
    }
}

#[test]
fn big_integers_are_read_from_literals() {
    assert_eq!(BigInteger::parse("+0042").unwrap().to_text(), "42");
    assert_eq!(BigInteger::parse("-0042").unwrap().to_text(), "-42");
    assert_eq!(BigInteger::parse("-0").unwrap().to_text(), "0");
    assert!(BigInteger::parse("-0").unwrap().is_negative() == false);
    assert!(BigInteger::parse("-1").unwrap().is_negative());
    assert!(BigInteger::parse("").is_none());
    assert!(BigInteger::parse("+").is_none());
    assert!(BigInteger::parse("12a").is_none());
    assert!(BigInteger::parse("1_000").is_none());
    assert!(BigInteger::parse("-+1").is_none());
    let a = BigInteger::parse("100000000000000000000").unwrap();
    let b = BigInteger::parse("99999999999999999999").unwrap();
    assert_eq!(a.compare(&b), Order::Greater);
    assert_eq!(b.compare(&a), Order::Less);
    assert_eq!(a.compare(&a.clone()), Order::Equal);
}

#[test]
fn decimals_are_made_from_parts() {
    let d = Decimal::from_parts(true, "00150", -2).unwrap();
    assert!(d.is_negative());
    assert_eq!(d.digits(), "150");
    assert_eq!(d.exponent(), -2);
    assert_eq!(Expr::Float(Float::Exact(d.clone())).to_string(), "-1.50M");
    let double = Double::from_decimal(&d).unwrap();
    assert_eq!(double.digits(), "15");
    assert_eq!(double.exponent(), -1);
    assert!(double.is_negative());
    assert_eq!(double.decimal().digits(), "15");
    assert_eq!(Expr::Float(Float::Double(double.clone())).to_string(), "-1.5");
    assert_eq!(double.compare(&double.clone()), Order::Equal);
    assert!(Decimal::from_parts(false, "", 0).is_none());
    assert!(Decimal::from_parts(false, "1.5", 0).is_none());
    let zero = Decimal::from_parts(false, "000", 7).unwrap();
    assert_eq!(zero.digits(), "0");
    assert_eq!(zero.exponent(), 7);
    let double_zero = Double::from_decimal(&zero).unwrap();
    assert_eq!(double_zero.exponent(), 0);
    assert_eq!(Expr::Float(Float::Double(double_zero)).to_string(), "0.0");
    let least = Decimal::from_parts(false, "1", i64::MIN).unwrap();
    assert_eq!(
        Expr::Float(Float::Double(Double::from_decimal(&least).unwrap())).to_string(),
        "1e-9223372036854775808"
    );
    assert_eq!(printed("1e-9223372036854775808"), "1e-9223372036854775808");
    let most = Decimal::from_parts(false, "10", i64::MAX).unwrap();
    assert!(Double::from_decimal(&most).is_none());
    let fits = Decimal::from_parts(false, "10", i64::MAX - 1).unwrap();
    assert_eq!(Double::from_decimal(&fits).unwrap().exponent(), i64::MAX);
    assert_eq!(
        Expr::Float(Float::Double(Double::from_decimal(&fits).unwrap())).to_string(),
        "1e9223372036854775807"
    );
    // the exponent that is written can lie beyond 64 bits
    let long = Decimal::from_parts(false, "12", i64::MAX).unwrap();
    assert_eq!(
        Expr::Float(Float::Double(Double::from_decimal(&long).unwrap())).to_string(),
        "1.2e9223372036854775808"
    );
    assert_eq!(printed("1.2e9223372036854775808"), "1.2e9223372036854775808");
}
