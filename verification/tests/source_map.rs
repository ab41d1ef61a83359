use postcss::source_map::{
    decode_mappings, join_path, normalize_path, relative_path, GeneratedMapping, RawSourceMap,
    SourceMapConsumer, SourceMapGenerator,
};

#[test]
fn decodes_and_encodes_mappings() {
    let mappings = "AAAA,IAAM;IAAI,OAAO";
    let decoded = decode_mappings(mappings);
    assert_eq!(decoded.len(), 4);
    assert_eq!(decoded[0].generated_line, 1);
    assert_eq!(decoded[0].generated_column, 0);
    assert_eq!(decoded[0].original_line, Some(1));
    assert_eq!(decoded[1].generated_column, 4);
    assert_eq!(decoded[1].original_column, Some(6));
    assert_eq!(decoded[2].generated_line, 2);

    let mut generator = SourceMapGenerator::new(Some("out.css".into()));
    for mapping in &decoded {
        generator.add_mapping(GeneratedMapping {
            generated_line: mapping.generated_line,
            generated_column: mapping.generated_column,
            original_line: mapping.original_line,
            original_column: mapping.original_column,
            source: Some("a.css".into()),
            name: None,
        });
    }
    assert_eq!(generator.to_raw().mappings, mappings);
}

#[test]
fn finds_original_positions() {
    let consumer = SourceMapConsumer::from_raw(RawSourceMap {
        version: Some(3),
        sources: vec!["a.css".to_string()],
        names: vec![],
        mappings: "AAAA,IAAM".to_string(),
        file: Some("b.css".to_string()),
        source_root: None,
        sources_content: None,
    });

    let found = consumer.original_position_for(1, 5);
    assert_eq!(found.source.as_deref(), Some("a.css"));
    assert_eq!(found.line, Some(1));
    assert_eq!(found.column, Some(6));

    // Nothing maps line 2.
    assert_eq!(consumer.original_position_for(2, 0).source, None);
}

#[test]
fn normalizes_paths() {
    assert_eq!(normalize_path("a/./b/../c"), "a/c");
    assert_eq!(normalize_path("../a/b"), "../a/b");
    assert_eq!(join_path("dir", "file.css"), "dir/file.css");
    assert_eq!(join_path("dir", "/abs.css"), "/abs.css");
    assert_eq!(relative_path("dir", "dir/file.css"), "file.css");
    assert_eq!(relative_path("dir", "other/file.css"), "other/file.css");
}

#[test]
fn sorts_unsorted_mappings_before_lookups() {
    let consumer = SourceMapConsumer::from_raw(RawSourceMap {
        version: Some(3),
        sources: vec!["a.css".to_string()],
        names: vec![],
        mappings: "IAAM,DAAA".to_string(),
        file: None,
        source_root: None,
        sources_content: None,
    });
    let mappings = consumer.mappings();
    // The second segment steps back one column, to 3.
    assert_eq!(mappings[0].generated_column, 3);
    assert_eq!(mappings[1].generated_column, 4);
}

// Runs of the processor that write maps.

use postcss::previous_map::MapLoad;
use postcss::{
    parse_input, Annotation, Input, MapOptions, MapSetting, PrevMap, PreviousMap, ProcessOptions,
    Processor,
};
use serde_json::Value;

fn strings(items: &[&str]) -> Value {
    Value::Array(items.iter().map(|s| Value::String(s.to_string())).collect())
}

fn object(entries: Vec<(&str, Value)>) -> Value {
    let mut object = Value::Object(Default::default());
    let fields = object.as_object_mut().unwrap();
    for (key, value) in entries {
        fields.insert(key.to_string(), value);
    }
    object
}

/// A raw map as the JSON PostCSS writes.
fn raw_value(raw: &RawSourceMap) -> Value {
    let mut entries = vec![
        ("version", Value::from(raw.version.unwrap_or(3))),
        ("sources", Value::Array(raw.sources.iter().cloned().map(Value::String).collect())),
        ("names", Value::Array(raw.names.iter().cloned().map(Value::String).collect())),
        ("mappings", Value::String(raw.mappings.clone())),
    ];
    if let Some(file) = &raw.file {
        entries.push(("file", Value::String(file.clone())));
    }
    if let Some(root) = &raw.source_root {
        entries.push(("sourceRoot", Value::String(root.clone())));
    }
    if let Some(contents) = &raw.sources_content {
        let items = contents
            .iter()
            .map(|c| c.clone().map(Value::String).unwrap_or(Value::Null))
            .collect();
        entries.push(("sourcesContent", Value::Array(items)));
    }
    object(entries)
}

fn map_text(map: &SourceMapGenerator) -> String {
    raw_value(&map.to_raw()).to_string()
}

fn run(css: &str, opts: ProcessOptions) -> (String, Option<Value>) {
    let result = Processor::new().process(css, opts, None, map_text).expect("processes");
    let map = result.map.as_ref().map(|map| raw_value(&map.to_raw()));
    (result.css, map)
}

fn external(from: &str, to: &str) -> ProcessOptions {
    ProcessOptions {
        from: Some(from.into()),
        to: Some(to.into()),
        map: Some(MapSetting::Options(MapOptions { inline: Some(false), ..Default::default() })),
        ..Default::default()
    }
}

#[test]
fn generates_an_external_map() {
    let (css, map) = run("a { color: black }\n", external("a.css", "b.css"));
    assert_eq!(css, "a { color: black }\n\n/*# sourceMappingURL=b.css.map */");
    assert_eq!(
        map.unwrap(),
        object(vec![
            ("version", Value::from(3)),
            ("sources", strings(&["a.css"])),
            ("names", strings(&[])),
            ("mappings", Value::from("AAAA,IAAI,aAAa")),
            ("file", Value::from("b.css")),
            ("sourcesContent", strings(&["a { color: black }\n"])),
        ])
    );
}

#[test]
fn maps_nested_rules() {
    let source = "@media screen {\n  a {\n    color: black;\n  }\n}\n";
    let (css, map) = run(source, external("a.css", "b.css"));
    assert_eq!(css, "@media screen {\n  a {\n    color: black;\n  }\n}\n\n/*# sourceMappingURL=b.css.map */");
    assert_eq!(map.unwrap()["mappings"], Value::from("AAAA;EACE;IACE,YAAY;EACd;AACF"));
}

#[test]
fn omits_sources_content_on_request() {
    let mut opts = external("a.css", "b.css");
    opts.map = Some(MapSetting::Options(MapOptions {
        inline: Some(false),
        sources_content: Some(false),
        ..Default::default()
    }));
    let (css, map) = run("a{color:black}", opts);
    assert_eq!(css, "a{color:black}\n/*# sourceMappingURL=b.css.map */");
    assert_eq!(
        map.unwrap(),
        object(vec![
            ("version", Value::from(3)),
            ("sources", strings(&["a.css"])),
            ("names", strings(&[])),
            ("mappings", Value::from("AAAA,EAAE,WAAW")),
            ("file", Value::from("b.css")),
        ])
    );
}

#[test]
fn resolves_paths_against_the_annotation_directory() {
    let opts = ProcessOptions {
        from: Some("a.css".into()),
        to: Some("out/b.css".into()),
        map: Some(MapSetting::Options(MapOptions {
            inline: Some(false),
            annotation: Some(Annotation::Path("maps/b.map".into())),
            ..Default::default()
        })),
        ..Default::default()
    };
    let (css, map) = run("a{color:black}", opts);
    assert_eq!(css, "a{color:black}\n/*# sourceMappingURL=maps/b.map */");
    let map = map.unwrap();
    assert_eq!(map["sources"], strings(&["../../a.css"]));
    assert_eq!(map["file"], Value::from("../b.css"));
}

#[test]
fn writes_an_inline_map_by_default() {
    let opts = ProcessOptions {
        from: Some("a.css".into()),
        to: Some("b.css".into()),
        map: Some(MapSetting::Enabled),
        ..Default::default()
    };
    let (css, map) = run("a{color:black}", opts);
    assert!(map.is_none(), "an inline map is not returned separately");
    assert!(css.contains("/*# sourceMappingURL=data:application/json;base64,"));
    let base64 = css.rsplit("base64,").next().unwrap().trim_end_matches(" */");
    let decoded = decode_base64(base64);
    let parsed: Value = serde_json::from_str(&decoded).expect("valid map JSON");
    assert_eq!(parsed["sources"], strings(&["a.css"]));
    assert_eq!(parsed["mappings"], Value::from("AAAA,EAAE,WAAW"));
}

#[test]
fn skips_the_annotation_on_request() {
    let opts = ProcessOptions {
        from: Some("a.css".into()),
        to: Some("b.css".into()),
        map: Some(MapSetting::Options(MapOptions {
            inline: Some(false),
            annotation: Some(Annotation::Disabled),
            ..Default::default()
        })),
        ..Default::default()
    };
    let (css, map) = run("a{color:black}", opts);
    assert_eq!(css, "a{color:black}");
    assert!(map.is_some());
}

#[test]
fn writes_no_map_when_disabled() {
    let opts = ProcessOptions {
        from: Some("a.css".into()),
        to: Some("b.css".into()),
        map: Some(MapSetting::Disabled),
        ..Default::default()
    };
    let (css, map) = run("a{color:black}", opts);
    assert_eq!(css, "a{color:black}");
    assert!(map.is_none());
}

#[test]
fn writes_no_map_when_not_requested() {
    let opts = ProcessOptions { from: Some("a.css".into()), to: Some("b.css".into()), ..Default::default() };
    let (css, map) = run("a{color:black}", opts);
    assert_eq!(css, "a{color:black}");
    assert!(map.is_none());
}

#[test]
fn removes_an_existing_annotation_comment() {
    let mut opts = external("a.css", "b.css");
    opts.map = Some(MapSetting::Options(MapOptions {
        inline: Some(false),
        sources_content: Some(false),
        ..Default::default()
    }));
    let (css, map) = run("a{}\n/*# sourceMappingURL=old.map */", opts);
    assert_eq!(css, "a{}\n/*# sourceMappingURL=b.css.map */");
    assert_eq!(map.unwrap()["mappings"], Value::from("AAAA,EAAE"));
}

/// A raw map read back from JSON text.
fn raw_from_value(value: &Value) -> RawSourceMap {
    let texts = |key: &str| -> Vec<String> {
        value[key].as_array().map(|a| a.iter().map(|s| s.as_str().unwrap().to_string()).collect()).unwrap_or_default()
    };
    RawSourceMap {
        version: value["version"].as_u64().map(|v| v as u32),
        sources: texts("sources"),
        names: texts("names"),
        mappings: value["mappings"].as_str().unwrap_or("").to_string(),
        file: value["file"].as_str().map(str::to_string),
        source_root: value["sourceRoot"].as_str().map(str::to_string),
        sources_content: value["sourcesContent"]
            .as_array()
            .map(|a| a.iter().map(|c| c.as_str().map(str::to_string)).collect()),
    }
}

/// The input of a run, with its previous map read as the host would.
fn input_with_map(css: &str, opts: &ProcessOptions) -> Input {
    let input_opts = opts.input_options();
    let map = PreviousMap::start(css, &input_opts).map(|mut map| {
        let text = match map.plan_load(&input_opts, None) {
            MapLoad::Text(text) => Some(text),
            _ => None,
        };
        map.finish(input_opts.from.as_deref(), text);
        if let Some(text) = map.text.clone() {
            let value: Value = serde_json::from_str(&text).unwrap();
            map.set_parsed(Ok(raw_from_value(&value)));
        }
        map
    });
    Input::new(css, &input_opts, map, None)
}

#[test]
fn chains_onto_a_previous_map() {
    let prev = object(vec![
        ("version", Value::from(3)),
        ("file", Value::from("a.css")),
        ("sources", strings(&["a.scss"])),
        ("sourcesContent", strings(&["a\n  color: black\n"])),
        ("names", strings(&[])),
        ("mappings", Value::from("AAAA;EACE")),
    ])
    .to_string();
    let opts = ProcessOptions {
        from: Some("a.css".into()),
        to: Some("b.css".into()),
        map: Some(MapSetting::Options(MapOptions {
            inline: Some(false),
            prev: Some(PrevMap::Text(prev)),
            ..Default::default()
        })),
        ..Default::default()
    };
    let css = "a {\n  color: black;\n}\n";
    let tree = parse_input(input_with_map(css, &opts)).expect("parses");
    let result = Processor::new().process_tree(tree, opts, None, map_text).expect("processes");
    let map = raw_value(&result.map.as_ref().unwrap().to_raw());
    assert_eq!(map["sources"], strings(&["a.scss", "a.css"]));
    assert_eq!(map["mappings"], Value::from("AAAA;EACE,YAAA;ACCF"));
    assert_eq!(
        map["sourcesContent"],
        strings(&["a\n  color: black\n", "a {\n  color: black;\n}\n"]),
        "the previous map's embedded source is carried over"
    );
}

#[test]
fn overrides_sources_with_map_from() {
    let opts = ProcessOptions {
        from: Some("a.css".into()),
        to: Some("b.css".into()),
        map: Some(MapSetting::Options(MapOptions {
            inline: Some(false),
            from: Some("webpack://./a.css".into()),
            ..Default::default()
        })),
        ..Default::default()
    };
    let (_, map) = run("a{color:black}", opts);
    assert_eq!(map.unwrap()["sources"], strings(&["webpack://./a.css"]));
}

#[test]
fn uses_crlf_before_the_annotation_when_the_css_does() {
    let (css, _) = run("a{\r\n  color: black\r\n}", external("a.css", "b.css"));
    assert!(css.ends_with("\r\n/*# sourceMappingURL=b.css.map */"));
}

fn decode_base64(text: &str) -> String {
    const CHARS: &[u8] = b"ABCDEFGHIJKLMNOPQRSTUVWXYZabcdefghijklmnopqrstuvwxyz0123456789+/";
    let mut buffer: u32 = 0;
    let mut bits = 0;
    let mut out = Vec::new();
    for byte in text.bytes() {
        if byte == b'=' {
            break;
        }
        let Some(value) = CHARS.iter().position(|&c| c == byte) else {
            continue;
        };
        buffer = (buffer << 6) | value as u32;
        bits += 6;
        if bits >= 8 {
            bits -= 8;
            out.push((buffer >> bits) as u8);
            buffer &= (1 << bits) - 1;
        }
    }
    String::from_utf8(out).expect("valid UTF-8")
}
