use postcss::list::{comma, space};

#[test]
fn splits_on_comma() {
    assert_eq!(comma("a, b"), vec!["a", "b"]);
    assert_eq!(comma("a,b"), vec!["a", "b"]);
    assert_eq!(comma(""), vec![""]);
    assert_eq!(comma("a,"), vec!["a", ""]);
    // A leading separator produces no empty first item, since the buffer is
    // still empty when the split happens.
    assert_eq!(comma(",a"), vec!["a"]);
    assert_eq!(comma("a, b(a, b)"), vec!["a", "b(a, b)"]);
    assert_eq!(comma(r#"a, "b,c""#), vec!["a", "\"b,c\""]);
    assert_eq!(comma(r#"a, 'b,c'"#), vec!["a", "'b,c'"]);
    assert_eq!(comma(r"a, b\,c"), vec!["a", r"b\,c"]);
}

#[test]
fn splits_on_space() {
    assert_eq!(space("a b"), vec!["a", "b"]);
    assert_eq!(space("a\nb\tc"), vec!["a", "b", "c"]);
    assert_eq!(space("a b(a b)"), vec!["a", "b(a b)"]);
    assert_eq!(space(r#"a "b c""#), vec!["a", "\"b c\""]);
    assert_eq!(space(r"a b\ c"), vec!["a", r"b\ c"]);
}

#[test]
fn ignores_unclosed_parens() {
    assert_eq!(space("border-radius: 10px / 20px"), vec!["border-radius:", "10px", "/", "20px"]);
    assert_eq!(comma("a, b)"), vec!["a", "b)"]);
}
