use edn_text::ast::{Expr, Float, Integer};
use edn_text::edn::ExprParser;

#[test]
fn lib_strings() {
    let parser = ExprParser::new();

    assert!(parser.parse("\"\"").is_ok());
    assert!(parser.parse("\"hello\"").is_ok());
}

#[test]
fn lib_symbols() {
    let parser = ExprParser::new();

    assert!(parser.parse("hello").is_ok());

    assert!(parser.parse("some_namespace/hello").is_ok());

    assert!(parser.parse("some_namespace/hello]").is_err());

    assert!(parser.parse("422some_namespace/hello]").is_err());

    assert!(parser.parse("some_namespace/9428hello]").is_err());

    assert!(matches!(
        parser.parse("some_namespace/hello").unwrap(),
        Expr::Symbol { namespace: Some(namespace), name }
            if namespace == "some_namespace" && name == "hello"
    ))
}

#[test]
fn lib_keywords() {
    let parser = ExprParser::new();

    assert!(parser.parse(":hello").is_ok());

    assert!(parser.parse(":some_namespace/hello").is_ok());

    assert!(parser.parse(":some_namespace/hello]").is_err());

    assert!(parser.parse(":422some_namespace/hello]").is_err());

    assert!(parser.parse(":some_namespace/9428hello]").is_err());

    assert!(matches!(
        parser.parse(":some_namespace/hello").unwrap(),
        Expr::Keyword { namespace: Some(namespace), name }
            if namespace == "some_namespace" && name == "hello"
    ))
}

#[test]
fn lib_characters() {
    let parser = ExprParser::new();

    assert!(parser.parse("\\n").is_ok());
    assert!(matches!(
        parser.parse("\\n").unwrap(),
        Expr::Character('\n')
    ));
    assert!(parser.parse("\\newline").is_ok());

    assert!(parser.parse("\\r").is_ok());
    assert!(parser.parse("\\return").is_ok());

    assert!(parser.parse("\\b").is_ok());
    assert!(parser.parse("\\backspace").is_ok());

    assert!(parser.parse("\\space").is_ok());

    assert!(parser.parse("\\t").is_ok());
    assert!(parser.parse("\\tab").is_ok());

    assert!(parser.parse("\\u241F").is_ok());
}

#[test]
fn lib_integers() {
    let parser = ExprParser::new();

    assert!(parser.parse("0").is_ok());

    assert!(parser.parse("+0").is_ok());

    assert!(parser.parse("-0").is_ok());

    assert!(parser.parse("42").is_ok());

    assert!(parser.parse("+42").is_ok());

    assert!(parser.parse("-42").is_ok());

    assert!(parser.parse("+42N").is_ok());

    assert!(matches!(
        parser.parse("+42N").unwrap(),
        Expr::Integer(Integer::Arbitrary(_))
    ));

    assert!(parser.parse("-42N").is_ok());

    assert!(matches!(
        parser.parse("-42N").unwrap(),
        Expr::Integer(Integer::Arbitrary(_))
    ));

    assert!(parser.parse(&(i64::MIN + 1).to_string()).is_ok());

    assert!(parser.parse(&(i64::MAX).to_string()).is_ok());
}

#[test]
fn floats() {
    let parser = ExprParser::new();

    assert!(parser.parse("0.0").is_ok());

    assert!(parser.parse("+0.0").is_ok());

    assert!(parser.parse("-0.0").is_ok());

    assert!(parser.parse("42.1").is_ok());

    assert!(parser.parse("+42.1").is_ok());

    assert!(parser.parse("-42.1").is_ok());

    assert!(parser.parse("+42M").is_ok());

    assert!(matches!(
        parser.parse("+42M").unwrap(),
        Expr::Float(Float::Exact(_))
    ));

    assert!(parser.parse("-42M").is_ok());

    assert!(matches!(
        parser.parse("-42M").unwrap(),
        Expr::Float(Float::Exact(_))
    ));

    assert!(parser.parse("-42.1e10").is_ok());

    assert!(parser.parse("-42.1e+10").is_ok());

    assert!(parser.parse("-42.1e-10").is_ok());

    assert!(parser.parse("-42.1E10").is_ok());

    assert!(parser.parse("-42.1E+10").is_ok());

    assert!(parser.parse("-42.1E-10").is_ok());

    assert!(parser.parse(&format!("{:e}", f64::MIN)).is_ok());

    assert!(parser.parse(&format!("{:e}", f64::MAX)).is_ok());
}

#[test]
fn nil() {
    let parser = ExprParser::new();

    assert!(parser.parse("nil").is_ok())
}

#[test]
fn comment() {
    let parser = ExprParser::new();

    assert!(parser.parse(";").is_ok());
    assert!(parser.parse(";;").is_ok());
    assert!(parser.parse(";\n").is_ok());
    assert!(parser.parse(";;\n").is_ok());
    assert!(parser.parse("; ()\n").is_ok());
    assert_eq!(parser.parse("; (1 2 3)").unwrap(), Expr::Comment);
    assert_eq!(parser.parse("; (1 2 3)\n").unwrap(), Expr::Comment);
}

#[test]
fn lib_vectors() {
    let parser = ExprParser::new();

    assert!(parser.parse("[]").is_ok());
    assert!(parser.parse("[[]]").is_ok());
    assert!(parser.parse("[[] []]").is_ok());
    assert!(parser.parse("[[], []]").is_ok());
    assert!(parser.parse("[[], [],]").is_ok());
    assert!(parser.parse("[[], [],,,,,]").is_ok());
    assert!(parser.parse("[1 2 3 :foo hi \"ok\"]").is_ok());
}

#[test]
fn lib_lists() {
    let parser = ExprParser::new();

    assert!(parser.parse("()").is_ok());
    assert!(parser.parse("(())").is_ok());
    assert!(parser.parse("(() ())").is_ok());
    assert!(parser.parse("((), ())").is_ok());
    assert!(parser.parse("((), (),)").is_ok());
    assert!(parser.parse("((), (),,,,,)").is_ok());
    assert!(parser.parse("(1 2 3 :foo hi \"ok\")").is_ok());
}

#[test]
fn lib_sets() {
    let parser = ExprParser::new();

    assert!(parser.parse("#{}").is_ok());
    assert!(parser.parse("#{#{}}").is_ok());
    assert!(parser.parse("#{#{} #{}}").is_ok());
    assert!(parser.parse("#{#{}, #{}}").is_ok());
    assert!(parser.parse("#{#{}, #{},}").is_ok());
    assert!(parser.parse("#{#{}, #{},,,,,}").is_ok());
    assert!(parser.parse("#{1 2 3 :foo hi \"ok\"}").is_ok());
}

#[test]
fn lib_maps() {
    let parser = ExprParser::new();

    assert!(parser.parse("{}").is_ok());
    assert!(parser.parse("{[] []}").is_ok());
    assert!(parser.parse("{:hi :there}").is_ok());
    assert!(parser.parse("{:hi \"ok\"}").is_ok());
    assert!(parser.parse("{fine blah}").is_ok());
    assert!(parser.parse("{[], []          ,}").is_ok());
    assert!(parser.parse("{:hi, :there,,}").is_ok());
    assert!(parser.parse("{:hi,,, ,, \"ok\"}").is_ok());
    assert!(parser.parse("{fine ,,,,blah,,,,,}").is_ok());
    assert!(parser
        .parse(
            "{
                :a :b\n\n\n
                :c :d
                ,:e :x



    }"
        )
        .is_ok());

    assert!(parser.parse("{[]}").is_err());
}

fn assert_roundtrip(parser: &ExprParser, input: &str) {
    // parse the given string
    let expr = parser.parse(input).expect("could not parse input string");

    // print it
    let as_string = expr.to_string();

    // parse the printed string
    let parsed = parser
        .parse(&as_string)
        .expect("could not parse printed value");

    // (result of parsing the printed string) == (result of parsing the given string)
    assert_eq!(expr, parsed)
}

#[test]
fn roundtrip() {
    let parser = ExprParser::new();

    // nil
    assert_roundtrip(&parser, "nil");

    // strings
    for s in ["\"\"", "\"foo\"", r#""hello with a \ literal slash""#] {
        assert_roundtrip(&parser, s);
    }

    // characters
    for s in [
        "\\r",
        "\\return",
        "\\n",
        "\\newline",
        "\\b",
        "\\backspace",
        "\\space",
        "\\t",
        "\\tab",
        "\\u241F",
    ] {
        assert_roundtrip(&parser, s);
    }

    // symbols
    for s in ["foo", "my-ns/foo", "-hi", ".ok"] {
        assert_roundtrip(&parser, s);
    }

    // keywords
    for s in [":foo", ":my-ns/foo", ":-hi", ":.ok"] {
        assert_roundtrip(&parser, s);
    }

    // integers
    for s in ["0", "+0", "-0", "42", "+42", "-42", "+42N"] {
        assert_roundtrip(&parser, s);
    }

    // floats
    for s in [
        "13.9",
        "13M",
        "-42.1e10",
        "-42.1e+10",
        "-42.1e-10",
        "-42.1E10",
        "-42.1E+10",
        "-42.1E-10",
    ] {
        assert_roundtrip(&parser, s);
    }

    // lists
    for s in [
        "()",
        "(1 2 3)",
        "(1,2,3)",
        "(1,2 3,)",
        "(+ 1 2 3)",
        "(.hello 1 2 3)",
    ] {
        assert_roundtrip(&parser, s);
    }

    // vectors
    for s in ["[]", "[1 2 3]", "[1,2,3]", "[1,2 3,]", "[- 1 2 3]"] {
        assert_roundtrip(&parser, s);
    }

    // sets
    for s in ["#{}", "#{1 2 3}", "#{1,2,3}", "#{1,2 3,}", "#{.hi 1 2 3}"] {
        assert_roundtrip(&parser, s);
    }

    // maps
    for s in [
        "{}",
        "{1 2 3 4}",
        "{:a 1 :b [true nil 9]}",
        "{:-some key 1 #{nil + -}}",
    ] {
        assert_roundtrip(&parser, s);
    }
}
