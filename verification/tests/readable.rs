use edn_text::ast::{Expr, Integer};
use edn_text::edn::parse;

fn symbol(namespace: Option<&str>, name: &str) -> Expr {
    Expr::Symbol { namespace: namespace.map(|n| n.to_string()), name: name.to_string() }
}

fn keyword(namespace: Option<&str>, name: &str) -> Expr {
    Expr::Keyword { namespace: namespace.map(|n| n.to_string()), name: name.to_string() }
}

fn whole(value: i64) -> Expr {
    Expr::Integer(Integer::Exact(value))
}

#[test]
fn what_is_read_is_readable() {
    for text in [
        "nil",
        "a",
        "/",
        ":/",
        "a/b",
        ":+1",
        "\"s\"",
        "\\c",
        "1",
        "1N",
        "1.5",
        "1.5M",
        "(1 [2 #{3 4} {5 6}])",
        "#{3 1 2}",
        "{:b 1 :a 2}",
    ] {
        assert!(parse(text).unwrap().is_readable(), "{}", text);
    }
}

#[test]
fn what_holds_a_comment_is_not_readable() {
    assert!(!Expr::Comment.is_readable());
    assert!(!parse("; c").unwrap().is_readable());
    assert!(!parse("[1 ; c\n]").unwrap().is_readable());
    assert!(!parse("{:a (; c\n)}").unwrap().is_readable());
}

#[test]
fn names_that_are_no_names_are_not_readable() {
    assert!(symbol(None, "a").is_readable());
    assert!(symbol(Some("a"), "b").is_readable());
    assert!(symbol(None, "/").is_readable());
    assert!(symbol(None, "-").is_readable());
    assert!(symbol(None, "-a").is_readable());
    assert!(symbol(Some("a"), "+1").is_readable());
    assert!(!symbol(None, "").is_readable());
    assert!(!symbol(None, "nil").is_readable());
    assert!(symbol(Some("nil"), "nil").is_readable());
    assert!(!symbol(None, "1a").is_readable());
    assert!(!symbol(None, "+1").is_readable());
    assert!(!symbol(None, "-1a").is_readable());
    assert!(!symbol(Some("+1"), "a").is_readable());
    assert!(!symbol(Some("a"), "1").is_readable());
    assert!(!symbol(Some(""), "a").is_readable());
    assert!(!symbol(Some("a"), "").is_readable());
    assert!(!symbol(Some("a"), "/").is_readable());
    assert!(!symbol(None, "a/b").is_readable());
    assert!(!symbol(None, "a b").is_readable());
    assert!(!symbol(None, "a(").is_readable());
    assert!(!symbol(None, "h\u{e9}").is_readable());
    assert!(keyword(None, "a").is_readable());
    assert!(keyword(None, "/").is_readable());
    assert!(keyword(None, "+1").is_readable());
    assert!(keyword(None, "nil").is_readable());
    assert!(keyword(Some("+1"), "a").is_readable());
    assert!(!keyword(None, "1").is_readable());
    assert!(!keyword(None, "").is_readable());
    assert!(!keyword(Some("a"), "1").is_readable());
    assert!(!keyword(Some("a/b"), "c").is_readable());
    assert!(!keyword(None, ":a").is_readable());
}

#[test]
fn sets_and_maps_out_of_order_are_not_readable() {
    assert!(Expr::SortedSet(vec![whole(1), whole(2), whole(3)]).is_readable());
    assert!(!Expr::SortedSet(vec![whole(2), whole(1)]).is_readable());
    assert!(!Expr::SortedSet(vec![whole(1), whole(1)]).is_readable());
    assert!(!Expr::SortedSet(vec![whole(1), whole(3), whole(2)]).is_readable());
    assert!(Expr::SortedSet(vec![]).is_readable());
    assert!(Expr::SortedMap(vec![(whole(1), whole(9)), (whole(2), whole(8))]).is_readable());
    assert!(!Expr::SortedMap(vec![(whole(2), whole(9)), (whole(1), whole(8))]).is_readable());
    assert!(!Expr::SortedMap(vec![(whole(1), whole(9)), (whole(1), whole(8))]).is_readable());
    assert!(!Expr::Vector(vec![Expr::SortedSet(vec![whole(2), whole(1)])]).is_readable());
    assert!(!Expr::List(vec![symbol(None, "nil")]).is_readable());
    assert!(!Expr::SortedMap(vec![(whole(1), symbol(None, "1"))]).is_readable());
    assert!(Expr::sorted_set(vec![whole(2), whole(1), whole(2)]).is_readable());
    assert!(Expr::sorted_map(vec![(whole(2), whole(9)), (whole(1), whole(8))]).is_readable());
}

#[test]
fn what_is_readable_is_read_again_from_its_text() {
    let built = Expr::Vector(vec![
        symbol(Some("ns"), "name"),
        keyword(None, "k"),
        Expr::String("a \"b\" \\ c\n".to_string()),
        Expr::Character('n'),
        Expr::Character('\n'),
        Expr::Character(' '),
        Expr::Character('\u{8}'),
        Expr::sorted_set(vec![whole(3), whole(-1), whole(2)]),
        Expr::sorted_map(vec![(keyword(None, "z"), Expr::Nil), (keyword(None, "a"), whole(0))]),
        Expr::List(vec![]),
    ]);
    assert!(built.is_readable());
    let text = built.to_string();
    assert_eq!(
        text,
        "[ns/name :k \"a \\\"b\\\" \\\\ c\\n\" \\u006E \\newline \\space \\backspace \
         #{-1 2 3} {:a 0, :z nil} ()]"
    );
    assert_eq!(parse(&text).unwrap(), built);
}
