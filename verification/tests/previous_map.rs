use postcss::paths::relative;
use postcss::previous_map::{decode_inline, load_annotation};
use postcss::vlq::base64_encode;

#[test]
fn finds_the_last_annotation() {
    let css = "a{}\n/*# sourceMappingURL=a.css.map */";
    assert_eq!(load_annotation(css).as_deref(), Some("a.css.map"));

    let css = "a{}\n/*# sourceMappingURL=a.map */\nb{}\n/*# sourceMappingURL=b.map */";
    assert_eq!(load_annotation(css).as_deref(), Some("b.map"));

    assert_eq!(load_annotation("a{}"), None);
}

#[test]
fn accepts_whitespace_before_the_hash() {
    let css = "/*  # sourceMappingURL=a.map */";
    assert_eq!(load_annotation(css).as_deref(), Some("a.map"));
}

#[test]
fn decodes_inline_maps() {
    let json = r#"{"version":3,"sources":[],"names":[],"mappings":""}"#;
    let encoded = base64_encode(json.as_bytes());
    let uri = format!("data:application/json;base64,{}", encoded);
    assert_eq!(decode_inline(&uri).unwrap(), json);

    let uri = format!("data:application/json,{}", json.replace(',', "%2C"));
    assert_eq!(decode_inline(&uri).unwrap(), json);

    assert!(decode_inline("data:application/json;gzip,x")
        .unwrap_err()
        .contains("Unsupported source map encoding gzip"));
}

#[test]
fn computes_relative_paths() {
    assert_eq!(relative("/a/b", "/a/b/c.css", None), "c.css");
    assert_eq!(relative("/a/b", "/a/c.css", None), "../c.css");
}
