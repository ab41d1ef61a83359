use postcss::json::{from_json, to_json, Json};

fn no_text(_: &Json) -> String {
    String::new()
}

#[test]
fn round_trips_a_tree() {
    let css = "a /* c */ {\n  color: red !important;\n}\n@media screen { b { top: 0 } }\n";
    let tree = postcss::parse(css).unwrap();
    let json = to_json(&tree);
    let rebuilt = from_json(&json, no_text).unwrap();
    assert_eq!(rebuilt.to_css(), css);
    assert_eq!(to_json(&rebuilt), json);
}

#[test]
fn keeps_block_less_at_rules_block_less() {
    let tree = postcss::parse("@charset \"utf-8\";").unwrap();
    let rebuilt = from_json(&to_json(&tree), no_text).unwrap();
    assert_eq!(rebuilt.to_css(), "@charset \"utf-8\";");
    let at_rule = rebuilt.first(rebuilt.root()).unwrap();
    assert!(rebuilt.nodes(at_rule).is_none());
}

#[test]
fn a_node_without_a_type_is_refused() {
    let value = Json::Object(vec![("nodes".to_string(), Json::Array(Vec::new()))]);
    assert_eq!(from_json(&value, no_text).err(), Some("Missing node type".to_string()));
    let value = Json::Object(vec![("type".to_string(), Json::Text("rule".to_string()))]);
    assert_eq!(
        from_json(&value, no_text).err(),
        Some("Cannot build a tree from a rule node".to_string())
    );
}

#[test]
fn writes_a_declaration_with_its_fields() {
    let tree = postcss::parse("a{b:c !important}").unwrap();
    let json = to_json(&tree);
    let Json::Object(root) = json else { panic!("an object") };
    let nodes = root.iter().find(|(k, _)| k == "nodes").map(|(_, v)| v).unwrap();
    let Json::Array(rules) = nodes else { panic!("an array") };
    let Json::Object(rule) = &rules[0] else { panic!("an object") };
    let decls = rule.iter().find(|(k, _)| k == "nodes").map(|(_, v)| v).unwrap();
    let Json::Array(decls) = decls else { panic!("an array") };
    let Json::Object(decl) = &decls[0] else { panic!("an object") };
    let keys: Vec<&str> = decl.iter().map(|(k, _)| k.as_str()).collect();
    assert_eq!(keys, ["raws", "type", "prop", "important", "value", "source"]);
    assert!(root.iter().any(|(k, _)| k == "inputs"));
}
