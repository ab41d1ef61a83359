use postcss::error::CssSyntaxError;
use postcss::map_generator::to_url;
use postcss::Raws;

#[test]
fn removing_a_value_raw_drops_a_string_stored_under_its_name() {
    for key in ["semicolon", "value", "params", "selector"] {
        let mut raws = Raws::empty();
        raws.set_str(key, "x".to_string());
        assert_eq!(raws.get_str(key), Some("x"));
        raws.remove(key);
        assert_eq!(raws.get_str(key), None);
    }
    let mut raws = Raws::empty();
    raws.set_str("before", " ".to_string());
    raws.remove("before");
    assert_eq!(raws.get_str("before"), None);
}

#[test]
fn map_urls_escape_brackets_hashes_and_spaces() {
    assert_eq!(to_url("a[1] b#?.css"), "a%5B1%5D%20b%23%3F.css");
    assert_eq!(to_url("dir/é.css"), "dir/%C3%A9.css");
    assert_eq!(to_url("a-b_c.d!~*'();/:@&=+$,"), "a-b_c.d!~*'();/:@&=+$,");
}

#[test]
fn shows_nothing_for_a_line_past_the_end() {
    let mut error = CssSyntaxError::new("x".to_string());
    error.source = Some("a\nb".to_string());
    error.line = Some(10);
    error.column = Some(1);
    assert_eq!(error.show_source_code(false), "");
}

#[test]
fn reports_an_unclosed_string_before_a_multibyte_character() {
    let error = postcss::parse("a{b:\"é}").unwrap_err();
    assert_eq!(error.reason, "Unclosed string");
}

#[test]
fn sorting_keeps_equal_children_in_order() {
    let mut tree = postcss::parse("a{b:1;c:1;d:0;e:1}").unwrap();
    let rule = tree.first(tree.root()).unwrap();
    tree.sort_children(rule, |t, x, y| {
        let vx = t.value(x).unwrap_or("").to_string();
        let vy = t.value(y).unwrap_or("").to_string();
        vx.cmp(&vy)
    });
    let props: Vec<String> = tree
        .children(rule)
        .iter()
        .map(|&c| tree.prop(c).unwrap_or("").to_string())
        .collect();
    assert_eq!(props, vec!["d", "b", "c", "e"]);
}

#[test]
fn each_hands_every_child_with_its_index_in_order() {
    let mut tree = postcss::parse("a{b:1;c:2;d:3}").unwrap();
    let rule = tree.first(tree.root()).unwrap();
    let expected: Vec<postcss::NodeId> = tree.children(rule).to_vec();
    let mut seen: Vec<(postcss::NodeId, usize)> = Vec::new();
    let done = tree.each(rule, |_, child, index| {
        seen.push((child, index));
    });
    assert!(done);
    let want: Vec<(postcss::NodeId, usize)> = expected.iter().copied().zip(0..).collect();
    assert_eq!(seen, want);
}

#[test]
fn inserting_an_existing_node_moves_it() {
    let mut tree = postcss::parse("a{} b{} c{}").unwrap();
    let root = tree.root();
    let a = tree.children(root)[0];
    let c = tree.children(root)[2];
    tree.insert_before(a, postcss::Insertable::Node(c)).unwrap();
    let order: Vec<postcss::NodeId> = tree.children(root).to_vec();
    assert_eq!(order.len(), 3);
    assert_eq!(order[0], c);
    assert_eq!(order[1], a);
    assert_eq!(tree.parent(c), Some(root));
}

#[test]
fn prepending_a_list_puts_its_items_first_in_order() {
    let mut tree = postcss::parse("a { a: 1 }").unwrap();
    let rule = tree.first(tree.root()).unwrap();
    let old = tree.children(rule).to_vec();
    tree.prepend(
        rule,
        vec![postcss::NewNode::decl("b".into(), "2".into()), postcss::NewNode::decl("c".into(), "3".into())].into(),
    )
    .unwrap();
    let kids = tree.children(rule).to_vec();
    assert_eq!(kids.len(), 3);
    assert_eq!(kids[2], old[0]);
    assert_eq!(tree.prop(kids[0]), Some("b"));
    assert_eq!(tree.prop(kids[1]), Some("c"));
}

#[test]
fn appending_a_list_keeps_the_old_children_first() {
    let mut tree = postcss::parse("a { a: 1 }").unwrap();
    let rule = tree.first(tree.root()).unwrap();
    let old = tree.children(rule).to_vec();
    tree.append(
        rule,
        vec![postcss::NewNode::decl("b".into(), "2".into()), postcss::NewNode::decl("c".into(), "3".into())].into(),
    )
    .unwrap();
    let kids = tree.children(rule).to_vec();
    assert_eq!(kids.len(), 3);
    assert_eq!(kids[0], old[0]);
    assert_eq!(tree.prop(kids[1]), Some("b"));
    assert_eq!(tree.prop(kids[2]), Some("c"));
}

#[test]
fn node_mut_gives_write_access_to_a_node() {
    let mut tree = postcss::parse("a{b:1}").unwrap();
    let rule = tree.first(tree.root()).unwrap();
    assert!(tree.source(rule).is_some());
    let node = tree.node_mut(rule);
    assert_eq!(node.type_label(), "rule");
    node.source = None;
    assert!(tree.source(rule).is_none());
    assert_eq!(postcss::stringify_tree(&tree), tree.to_css());
}

#[test]
fn a_warning_about_a_word_points_at_the_word() {
    let tree = postcss::parse("a {\n  color: red;\n}").unwrap();
    let rule = tree.first(tree.root()).unwrap();
    let decl = tree.first(rule).unwrap();
    let opts = postcss::NodeErrorOptions {
        plugin: Some("warner".to_string()),
        word: Some("red".into()),
        ..Default::default()
    };
    let warning = postcss::Warning::new(&tree, "Avoid !important".to_string(), Some(decl), &opts);
    assert_eq!(warning.text, "Avoid !important");
    assert_eq!(warning.plugin.as_deref(), Some("warner"));
    assert_eq!((warning.line, warning.column), (Some(2), Some(10)));
    assert_eq!((warning.end_line, warning.end_column), (Some(2), Some(13)));
    assert_eq!(warning.to_string(), "warner:2:10: Avoid !important");
}

#[test]
fn a_warning_without_a_node_is_its_text() {
    let tree = postcss::Tree::new();
    let opts = postcss::NodeErrorOptions::default();
    let warning = postcss::Warning::new(&tree, "careful".to_string(), None, &opts);
    assert_eq!(warning.line, None);
    assert_eq!(warning.to_string(), "careful");
}

#[test]
fn a_plugin_context_names_the_current_plugin_on_its_warnings() {
    let tree = postcss::parse("a {\n  color: red;\n}").unwrap();
    let rule = tree.first(tree.root()).unwrap();
    let decl = tree.first(rule).unwrap();
    let mut ctx = postcss::PluginContext::new(postcss::ProcessOptions::new());
    ctx.set_current_plugin(Some("warner".to_string()));
    let opts = postcss::NodeErrorOptions { word: Some("red".into()), ..Default::default() };
    let shown = ctx.warn(&tree, "Avoid !important".to_string(), Some(decl), &opts).to_string();
    assert_eq!(shown, "warner:2:10: Avoid !important");
    ctx.message(postcss::Message::Dependency { plugin: None, file: "/a.css".to_string(), parent: None });
    ctx.warn_text("plain".to_string());
    let warnings = ctx.warnings();
    assert_eq!(warnings.len(), 2);
    assert_eq!(warnings[1].to_string(), "warner: plain");
    assert_eq!(ctx.messages[1].kind(), "dependency");
    assert_eq!(ctx.messages[0].kind(), "warning");
}
