use edn_text::edn::ExprParser;

#[test]
fn main_strings() {
    assert!(ExprParser::new().parse("\"\"").is_ok());
    assert!(ExprParser::new().parse("\"hello\"").is_ok());
}

#[test]
fn main_symbols() {
    assert!(ExprParser::new().parse("hello").is_ok());

    assert!(ExprParser::new().parse("some_namespace/hello").is_ok());

    assert!(ExprParser::new().parse("some_namespace/hello]").is_err());
}

#[test]
fn main_keywords() {
    assert!(ExprParser::new().parse(":hello").is_ok());

    assert!(ExprParser::new().parse(":some_namespace/hello").is_ok());

    assert!(ExprParser::new().parse(":some_namespace/hello]").is_err());
}

#[test]
fn main_characters() {
    assert!(ExprParser::new().parse("\\n").is_ok());
    assert!(ExprParser::new().parse("\\newline").is_ok());

    assert!(ExprParser::new().parse("\\r").is_ok());
    assert!(ExprParser::new().parse("\\return").is_ok());

    assert!(ExprParser::new().parse("\\b").is_ok());
    assert!(ExprParser::new().parse("\\backspace").is_ok());

    assert!(ExprParser::new().parse("\\space").is_ok());

    assert!(ExprParser::new().parse("\\t").is_ok());
    assert!(ExprParser::new().parse("\\tab").is_ok());

    assert!(ExprParser::new().parse("\\u241F").is_ok());
}

#[test]
fn main_integers() {
    assert!(ExprParser::new().parse("0").is_ok());

    assert!(ExprParser::new().parse("+0").is_ok());

    assert!(ExprParser::new().parse("-0").is_ok());

    assert!(ExprParser::new().parse("42").is_ok());

    assert!(ExprParser::new().parse("+42").is_ok());

    assert!(ExprParser::new().parse("-42").is_ok());

    assert!(ExprParser::new().parse("+42N").is_ok());

    assert!(ExprParser::new().parse("-42N").is_ok());
}

#[test]
fn main_vectors() {
    assert!(ExprParser::new().parse("[]").is_ok());
    assert!(ExprParser::new().parse("[[]]").is_ok());
    assert!(ExprParser::new().parse("[[] []]").is_ok());
    assert!(ExprParser::new().parse("[[], []]").is_ok());
    assert!(ExprParser::new().parse("[[], [],]").is_ok());
    assert!(ExprParser::new().parse("[[], [],,,,,]").is_ok());
}

#[test]
fn main_lists() {
    assert!(ExprParser::new().parse("()").is_ok());
    assert!(ExprParser::new().parse("(())").is_ok());
    assert!(ExprParser::new().parse("(() ())").is_ok());
    assert!(ExprParser::new().parse("((), ())").is_ok());
    assert!(ExprParser::new().parse("((), (),)").is_ok());
    assert!(ExprParser::new().parse("((), (),,,,,)").is_ok());
}

#[test]
fn main_sets() {
    assert!(ExprParser::new().parse("#{}").is_ok());
    assert!(ExprParser::new().parse("#{#{}}").is_ok());
    assert!(ExprParser::new().parse("#{#{} #{}}").is_ok());
    assert!(ExprParser::new().parse("#{#{}, #{}}").is_ok());
    assert!(ExprParser::new().parse("#{#{}, #{},}").is_ok());
    assert!(ExprParser::new().parse("#{#{}, #{},,,,,}").is_ok());
}

#[test]
fn main_maps() {
    assert!(ExprParser::new().parse("{}").is_ok());
    assert!(ExprParser::new().parse("{[] []}").is_ok());
    assert!(ExprParser::new().parse("{:hi :there}").is_ok());
    assert!(ExprParser::new().parse("{:hi \"ok\"}").is_ok());
    assert!(ExprParser::new().parse("{fine blah}").is_ok());
    assert!(ExprParser::new()
        .parse("{[], []          ,}")
        .is_ok());
    assert!(ExprParser::new().parse("{:hi, :there,,}").is_ok());
    assert!(ExprParser::new().parse("{:hi,,, ,, \"ok\"}").is_ok());
    assert!(ExprParser::new().parse("{fine ,,,,blah,,,,,}").is_ok());
    assert!(ExprParser::new()
        .parse(
            "{
                :a :b\n\n\n
                :c :d
                ,:e :x



    }"
        )
        .is_ok());

    assert!(ExprParser::new().parse("{[]}").is_err());
}
