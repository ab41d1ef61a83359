//! Round trips over a set of parser cases: unusual whitespace, comments,
//! hacks, strings, escapes, custom properties and at-rules.

use postcss::json::{from_json, to_json, Json};
use postcss::{parse_with_options, InputOptions};

fn no_text(_: &Json) -> String {
    String::new()
}

/// Every case as `(name, css)`.
fn each_test() -> Vec<(String, String)> {
    let cases: [(&str, &str); 34] = [
        ("empty", ""),
        ("space", " \n\t "),
        ("comments", "/* a */\n/* b */\na { /* c */ color: /* d */ black /* e */; }\n/* f */"),
        ("atrule-empty", "@charset \"UTF-8\";\n@import url(a.css) screen;"),
        ("atrule-params", "@media (min-width: 100px) and (max-width:200px){a{b:c}}"),
        ("atrule-no-params", "@font-face {\n  font-family: A;\n}\n@page :first{margin:0}"),
        ("atrule-spaces", "@media   screen   {\n}\n@supports(display:grid){}"),
        ("atrule-no-semicolon", "@import 'a.css'"),
        ("atrule-decls", "@page {\n  margin: 1cm\n}"),
        ("nested", "a { b { c { d: e } } }"),
        ("semicolons", "a{b:c;;d:e;};"),
        ("no-semicolon", "a { color: black }"),
        ("important", "a { color: black !important; top: 0 ! important; left: 1px!IMPORTANT }"),
        ("important-comment", "a { color: black /* x */ !important }"),
        ("ie-hacks", "a { *zoom: 1; _height: 1px; color: red\\9; }"),
        ("ie-filter", "a { filter: progid:DXImageTransform.Microsoft.gradient(startColorstr='#1', endColorstr='#2'); }"),
        ("custom-properties", ":root { --x: { a: b }; --y:  1px ; --empty:; }"),
        ("strings", "a { content: \"a;b\" 'c}d' \"\\\"\"; }"),
        ("url", "a { background: url(a;b.png) url( 'c.png' ) url(\"d\") }"),
        ("escapes", ".a\\:b { c\\{d: e\\;f }"),
        ("selectors", "a,\nb > c ~ d + e, f[g=\"h\"] , i:not(.j)::before { }"),
        ("selector-comment", "a /* b */ , c { }"),
        ("raw-between", "a{b :c}\na{b: c}\na{b : c}\na{b\n:\nc}"),
        ("multiline-value", "a {\n  margin: 1px\n          2px;\n}"),
        ("tab-indent", "a {\n\tcolor: black;\n\ttop: 0;\n}\n"),
        ("crlf", "a {\r\n  color: black;\r\n}\r\n"),
        ("at-in-value", "a { b: @c; }"),
        ("colon-in-value", "a { background: url(http://x.y/z.png) }"),
        ("numbers", "a { margin: -1px +2.5em .3% 1e3px }"),
        ("brackets", "a { grid-template-areas: [a] 1fr [b-c] 2fr; b: (c) }"),
        ("function-newlines", "a { transform: translate(\n  1px,\n  2px\n) }"),
        ("unicode", "a::after { content: \"é ★\"; font-family: Ünïcode }"),
        ("empty-rules", "a{}b {}\nc\n{\n}\n"),
        ("trailing-space", "a { b: c }   \n\n"),
    ];
    cases.iter().map(|(name, css)| (format!("{}.css", name), css.to_string())).collect()
}

#[test]
fn stringifies_every_upstream_case_back_to_the_input() {
    let mut failures: Vec<String> = Vec::new();
    for (name, css) in each_test() {
        let css = css.replace("\r\n", "\n");
        let css = css.strip_prefix('\u{feff}').unwrap_or(&css).to_string();
        let opts = InputOptions { from: Some(name.clone()), ..Default::default() };
        let Ok(tree) = parse_with_options(&css, &opts) else {
            failures.push(format!("{}: failed to parse", name));
            continue;
        };
        let output = tree.to_css();
        if output != css {
            failures.push(format!("{}: round-trip mismatch\n  input:  {:?}\n  output: {:?}", name, css, output));
        }
    }
    assert!(failures.is_empty(), "{} case(s) failed:\n\n{}", failures.len(), failures.join("\n\n"));
}

#[test]
fn round_trips_through_json() {
    for (name, css) in each_test() {
        let css = css.replace("\r\n", "\n");
        let css = css.strip_prefix('\u{feff}').unwrap_or(&css).to_string();
        let opts = InputOptions { from: Some(name.clone()), ..Default::default() };
        let tree = parse_with_options(&css, &opts).unwrap();
        let value = to_json(&tree);
        let rebuilt = from_json(&value, no_text).unwrap_or_else(|e| panic!("{}: {}", name, e));
        assert_eq!(rebuilt.to_css(), css, "{}: JSON round-trip changed the CSS", name);
        assert_eq!(to_json(&rebuilt), value, "{}: JSON round-trip changed the AST", name);
    }
}
