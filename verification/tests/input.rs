use postcss::input::{file_url_to_path, path_to_file_url, Input, CONTINUATION_BLOCK};

#[test]
fn maps_offsets_to_line_and_column() {
    let input = Input::from_css("a {\n  color: red;\n}\n", None);
    assert_eq!(input.from_offset(0), (1, 1));
    assert_eq!(input.from_offset(2), (1, 3));
    assert_eq!(input.from_offset(4), (2, 1));
    assert_eq!(input.from_offset(6), (2, 3));
    assert_eq!(input.from_offset(18), (3, 1));

    for offset in 0..input.css().len() {
        let (line, column) = input.from_offset(offset);
        assert_eq!(input.from_line_and_column(line, column), offset);
    }
}

#[test]
fn counts_columns_in_characters() {
    let input = Input::from_css("/* é */\na{}", None);
    // The comment is 9 bytes but 8 characters.
    assert_eq!(input.from_offset(9), (2, 1));
    assert_eq!(input.from_offset(6), (1, 6));
}

#[test]
fn strips_bom() {
    let input = Input::from_css("\u{feff}a{}", None);
    assert!(input.has_bom);
    assert_eq!(input.css(), "a{}");

    let input = Input::from_css("a{}", None);
    assert!(!input.has_bom);
}

#[test]
fn generates_an_id_without_a_file() {
    let input = Input::from_css("a{}", None);
    assert!(input.from().starts_with("<input css "));
    assert_eq!(input.from().len(), "<input css ".len() + 7);
}

#[test]
fn converts_paths_to_file_urls() {
    assert_eq!(path_to_file_url("/a/b.css"), "file:///a/b.css");
    assert_eq!(path_to_file_url("/a b.css"), "file:///a%20b.css");
    assert_eq!(
        file_url_to_path("file:///a%20b.css").as_deref(),
        Some("/a b.css")
    );
    assert_eq!(file_url_to_path("https://a/b.css"), None);
}

#[test]
fn long_lines_with_multibyte_characters_match_a_naive_scan() {
    let mut css = String::new();
    for index in 0..300 {
        css.push_str("a{content:\"");
        match index % 3 {
            0 => css.push('é'),
            1 => css.push('☃'),
            _ => css.push('𝄞'),
        }
        css.push_str("\"}");
    }
    let input = Input::from_css(&css, None);
    for (offset, _) in css.char_indices() {
        let naive = css[..offset].chars().count() + 1;
        assert_eq!(input.from_offset(offset), (1, naive));
        assert_eq!(input.from_line_and_column(1, naive), offset);
    }
    assert_eq!(input.from_offset(css.len()).1, css.chars().count() + 1);
}

#[test]
fn errors_carry_the_position_and_the_file() {
    let input = Input::from_css("a {\n  color red;\n}", None);
    let error = input.error_at_offset("Unknown word".to_string(), 6);
    assert_eq!(error.line, Some(2));
    assert_eq!(error.column, Some(3));
    assert_eq!(error.reason, "Unknown word");
    assert!(error.message.ends_with(":2:3: Unknown word"));
}

#[test]
fn matches_a_naive_scan_on_a_long_line_with_multibyte_characters() {
    let mut css = String::new();
    for index in 0..2000 {
        css.push_str("a{content:\"");
        match index % 3 {
            0 => css.push('é'),
            1 => css.push('☃'),
            _ => css.push('𝄞'),
        }
        css.push_str("\"}");
    }
    assert!(css.len() > 20 * CONTINUATION_BLOCK);

    let input = Input::from_css(&css, None);

    for (offset, _) in css.char_indices() {
        let naive = css[..offset].chars().count() + 1;
        assert_eq!(input.from_offset(offset), (1, naive), "offset {offset}");
        assert_eq!(input.from_line_and_column(1, naive), offset);
    }
    assert_eq!(input.from_offset(css.len()).1, css.chars().count() + 1);
}

#[test]
fn ascii_fast_path_matches_a_naive_scan() {
    let css = format!("{}\n{}", "a{color:red}".repeat(500), "b{top:0}".repeat(500));
    let input = Input::from_css(&css, None);

    for offset in 0..=css.len() {
        let (line, column) = input.from_offset(offset);
        let line_start = css[..offset].rfind('\n').map_or(0, |index| index + 1);
        assert_eq!(column, offset - line_start + 1, "column at {offset}");
        assert_eq!(input.from_line_and_column(line, column), offset);
    }
}

#[test]
fn file_urls_round_trip_multibyte_paths() {
    let url = path_to_file_url("/é/☃ b.css");
    assert_eq!(url, "file:///%C3%A9/%E2%98%83%20b.css");
    assert_eq!(file_url_to_path(&url).as_deref(), Some("/é/☃ b.css"));
}

#[test]
fn line_and_column_of_every_character_start_read_back() {
    let input = Input::from_css("a {\n  é: \"日本\";\n}\n", None);
    let css = input.css().to_string();
    for o in 0..=css.len() {
        if css.is_char_boundary(o) {
            let (l, c) = input.from_offset(o);
            assert_eq!(input.from_line_and_column(l, c), o);
        }
    }
}
