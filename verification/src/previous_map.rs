//! The source map of the CSS being parsed: finding its annotation, decoding
//! inline maps, and deciding where a map file may be read from.

use vstd::prelude::*;
use vstd::string::StringSliceAdditionalSpecFns;
use crate::error::opt_view;
use crate::options::{InputOptions, MapSetting, PrevMap};
use crate::source_map::{RawSourceMap, SourceMapConsumer};
use crate::text::{
    chars_of, occurs_at, push_char, push_str, slice_chars, spec_is_whitespace, spec_occurs_at, spec_strip_prefix,
    spec_trim, spec_trim_start_len, string_of, to_owned_string,
};

verus! {

/// What `from_utf8_lossy` makes of some bytes.
pub uninterp spec fn spec_utf8_lossy(bytes: Seq<u8>) -> Seq<char>;

/// Decodes bytes as UTF-8, replacing invalid sequences.
///
/// Wraps `String::from_utf8_lossy`: the result is a function of the bytes
/// alone, and valid UTF-8 decodes to its characters.
#[verifier::external_body]
fn utf8_lossy(bytes: &[u8]) -> (r: String)
    ensures
        r@ == spec_utf8_lossy(bytes@),
        vstd::utf8::valid_utf8(bytes@) ==> r@ == vstd::utf8::decode_utf8(bytes@),
{
    String::from_utf8_lossy(bytes).into_owned()
}

/// Decodes bytes as UTF-8.
///
/// Wraps `String::from_utf8`: `Some` exactly for valid UTF-8, holding its
/// characters.
#[verifier::external_body]
fn utf8_string(bytes: Vec<u8>) -> (r: Option<String>)
    ensures
        match r {
            Some(s) => vstd::utf8::valid_utf8(bytes@) && s@ == vstd::utf8::decode_utf8(bytes@),
            None => !vstd::utf8::valid_utf8(bytes@),
        },
{
    String::from_utf8(bytes).ok()
}

/// `s` without leading whitespace.
pub open spec fn spec_trim_start(s: Seq<char>) -> Seq<char> {
    s.subrange(spec_trim_start_len(s) as int, s.len() as int)
}

/// `trim_start_matches(pat)`: `s` without leading copies of `pat`.
pub open spec fn spec_trim_start_matches(s: Seq<char>, pat: Seq<char>) -> Seq<char>
    decreases s.len(),
{
    if pat.len() > 0 && pat.len() <= s.len() && s.subrange(0, pat.len() as int) == pat {
        spec_trim_start_matches(s.subrange(pat.len() as int, s.len() as int), pat)
    } else {
        s
    }
}

/// The text that starts an annotation, after `/*` and whitespace.
pub open spec fn spec_needle() -> Seq<char> {
    "# sourceMappingURL="@
}

/// A comment opens at `i` with a `sourceMappingURL` annotation.
pub open spec fn spec_opens_annotation(css: Seq<char>, i: int) -> bool {
    &&& spec_occurs_at(css, "/*"@, i)
    &&& spec_strip_prefix(spec_trim_start(css.subrange(i + 2, css.len() as int)), spec_needle()) is Some
}

/// The last annotation comment that opens before `n`.
pub open spec fn spec_last_annotation(css: Seq<char>, n: int) -> Option<int>
    decreases n,
{
    if n <= 0 {
        None
    } else if spec_opens_annotation(css, n - 1) {
        Some(n - 1)
    } else {
        spec_last_annotation(css, n - 1)
    }
}

/// The URL of the last `sourceMappingURL` annotation: the text of its
/// comment up to the first `*/`, without the `/*`, the leading whitespace
/// and `# sourceMappingURL=`, trimmed; `None` when there is no annotation or
/// its comment is not closed.
pub open spec fn spec_load_annotation(css: Seq<char>) -> Option<Seq<char>> {
    match spec_last_annotation(css, css.len() as int) {
        None => None,
        Some(start) => match crate::text::spec_find_from(css, "*/"@, start) {
            None => None,
            Some(end) => {
                let body = css.subrange(start, end);
                Some(spec_trim(spec_trim_start_matches(spec_trim_start(spec_trim_start_matches(body, "/*"@)), spec_needle())))
            },
        },
    }
}

fn trim_start_chars(s: &Vec<char>) -> (r: Vec<char>)
    ensures
        r@ == spec_trim_start(s@),
{
    let mut i: usize = 0;
    while i < s.len() && crate::text::is_whitespace(s[i])
        invariant
            i <= s@.len(),
            forall|k: int| 0 <= k < i ==> spec_is_whitespace(#[trigger] s@[k]),
        decreases s.len() - i,
    {
        i = i + 1;
    }
    proof {
        crate::text::lemma_trim_start_len_pub(s@, i as int);
    }
    slice_chars(s, i, s.len())
}

fn trim_start_matches_chars(s: &Vec<char>, pat: &Vec<char>) -> (r: Vec<char>)
    ensures
        r@ == spec_trim_start_matches(s@, pat@),
{
    let mut i: usize = 0;
    assert(s@.subrange(0, s@.len() as int) =~= s@);
    while pat.len() > 0 && pat.len() <= s.len() - i && occurs_at(s, pat, i)
        invariant
            i <= s@.len(),
            spec_trim_start_matches(s@.subrange(i as int, s@.len() as int), pat@) == spec_trim_start_matches(s@, pat@),
        decreases s.len() - i,
    {
        proof {
            let rest = s@.subrange(i as int, s@.len() as int);
            assert(rest.subrange(0, pat@.len() as int) =~= s@.subrange(i as int, i + pat@.len()));
            assert(rest.subrange(pat@.len() as int, rest.len() as int) =~= s@.subrange(i + pat@.len(), s@.len() as int));
        }
        i = i + pat.len();
    }
    proof {
        let rest = s@.subrange(i as int, s@.len() as int);
        if pat@.len() > 0 && pat@.len() <= rest.len() {
            assert(rest.subrange(0, pat@.len() as int) =~= s@.subrange(i as int, i + pat@.len()));
        }
    }
    slice_chars(s, i, s.len())
}

/// Finds the last `sourceMappingURL` annotation in the CSS.
pub fn load_annotation(css: &str) -> (r: Option<String>)
    ensures
        crate::error::opt_view(r) == spec_load_annotation(css@),
{
    let chars = chars_of(css);
    let open = chars_of("/*");
    let close = chars_of("*/");
    let needle = chars_of("# sourceMappingURL=");
    proof {
        reveal_strlit("/*");
    }
    let mut n = chars.len();
    let mut found: Option<usize> = None;
    while n > 0 && found.is_none()
        invariant
            n <= chars@.len(),
            open@ == "/*"@,
            needle@ == spec_needle(),
            found is None ==> spec_last_annotation(chars@, n as int) == spec_last_annotation(chars@, chars@.len() as int),
            found matches Some(k) ==> spec_last_annotation(chars@, chars@.len() as int) == Some(k as int) && k < chars@.len(),
        decreases n,
    {
        let i = n - 1;
        if spec_opens_annotation_exec(&chars, &open, &needle, i) {
            found = Some(i);
        }
        n = i;
    }
    let start = match found {
        Some(k) => k,
        None => {
            return None;
        },
    };
    let end = match crate::text::find(&chars, &close, start) {
        Some(e) => e,
        None => {
            return None;
        },
    };
    proof {
        crate::text::lemma_find_from_bounds(chars@, close@, start as int);
    }
    let body = slice_chars(&chars, start, end);
    let a = trim_start_matches_chars(&body, &open);
    let b = trim_start_chars(&a);
    let c = trim_start_matches_chars(&b, &needle);
    Some(crate::text::trim_to_string(&c))
}

fn spec_opens_annotation_exec(chars: &Vec<char>, open: &Vec<char>, needle: &Vec<char>, i: usize) -> (r: bool)
    requires
        open@ == "/*"@,
        needle@ == spec_needle(),
        i < chars@.len(),
    ensures
        r == spec_opens_annotation(chars@, i as int),
{
    proof {
        reveal_strlit("/*");
    }
    if 2 <= chars.len() - i && occurs_at(chars, open, i) {
        let after = slice_chars(chars, i + 2, chars.len());
        let trimmed = trim_start_chars(&after);
        let r = crate::text::starts_with_at(&trimmed, needle, 0);
        assert(trimmed@.subrange(0, trimmed@.len() as int) =~= trimmed@);
        r
    } else {
        false
    }
}


/// The value of a hex digit.
pub open spec fn spec_hex_value(c: u8) -> Option<int> {
    if 48 <= c <= 57 {
        Some(c - 48)
    } else if 97 <= c <= 102 {
        Some(c - 87)
    } else if 65 <= c <= 70 {
        Some(c - 55)
    } else {
        None
    }
}

/// `u8::from_str_radix` on two characters in base 16: two hex digits, or
/// `+` and one.
pub open spec fn spec_parse_hex_pair(a: u8, b: u8) -> Option<u8> {
    if a == 43 {
        match spec_hex_value(b) {
            Some(v) => Some(v as u8),
            None => None,
        }
    } else {
        match (spec_hex_value(a), spec_hex_value(b)) {
            (Some(x), Some(y)) => Some((16 * x + y) as u8),
            _ => None,
        }
    }
}

/// The bytes of `b[i..]` with every `%` followed by a parsable pair (and at
/// least one more byte after `%`'s successor) replaced by the byte it
/// encodes.
pub open spec fn spec_unescape_from(b: Seq<u8>, i: int) -> Seq<u8>
    decreases b.len() - i,
{
    if i < 0 || i >= b.len() {
        Seq::empty()
    } else if b[i] == 37 && i + 2 < b.len() && spec_parse_hex_pair(b[i + 1], b[i + 2]) is Some {
        seq![spec_parse_hex_pair(b[i + 1], b[i + 2])->0] + spec_unescape_from(b, i + 3)
    } else {
        seq![b[i]] + spec_unescape_from(b, i + 1)
    }
}

/// Every `%` with two bytes after it is followed by a two-byte character
/// slice: the byte three places on starts a character (or is the end).
pub open spec fn spec_uri_sliceable(b: Seq<u8>) -> bool {
    forall|i: int|
        0 <= i && i + 2 < b.len() && #[trigger] b[i] == 37 ==> (i + 3 == b.len() || !crate::input::spec_is_continuation(b[i + 3]))
}

/// `decodeURIComponent` as the map reader does it: `%XX` escapes become
/// bytes, then the bytes are read as UTF-8 with replacement.
pub open spec fn spec_decode_uri_component(text: Seq<char>) -> Seq<char> {
    spec_utf8_lossy(spec_unescape_from(vstd::utf8::encode_utf8(text), 0))
}

fn hex_value(c: u8) -> (r: Option<u8>)
    ensures
        match r {
            Some(v) => spec_hex_value(c) == Some(v as int),
            None => spec_hex_value(c) is None,
        },
{
    if 48 <= c && c <= 57 {
        Some(c - 48)
    } else if 97 <= c && c <= 102 {
        Some(c - 87)
    } else if 65 <= c && c <= 70 {
        Some(c - 55)
    } else {
        None
    }
}

/// `u8::from_str_radix(.., 16)` on two bytes.
pub fn parse_hex_pair_pub(a: u8, b: u8) -> (r: Option<u8>)
    ensures
        r == spec_parse_hex_pair(a, b),
{
    parse_hex_pair(a, b)
}

fn parse_hex_pair(a: u8, b: u8) -> (r: Option<u8>)
    ensures
        r == spec_parse_hex_pair(a, b),
{
    if a == 43 {
        hex_value(b)
    } else {
        match (hex_value(a), hex_value(b)) {
            (Some(x), Some(y)) => Some(16 * x + y),
            _ => None,
        }
    }
}

/// Decodes `%XX` escapes, then reads the bytes as UTF-8, replacing
/// invalid sequences.
pub fn decode_uri_component(text: &str) -> (r: String)
    requires
        spec_uri_sliceable(text.spec_bytes()),
    ensures
        r@ == spec_decode_uri_component(text@),
        vstd::utf8::valid_utf8(spec_unescape_from(vstd::utf8::encode_utf8(text@), 0)) ==> r@ == vstd::utf8::decode_utf8(
            spec_unescape_from(vstd::utf8::encode_utf8(text@), 0),
        ),
{
    let bytes = text.as_bytes();
    let len = bytes.len();
    let mut out: Vec<u8> = Vec::new();
    let mut i: usize = 0;
    while i < len
        invariant
            len == bytes@.len(),
            i <= len,
            out@ + spec_unescape_from(bytes@, i as int) == spec_unescape_from(bytes@, 0),
        decreases len - i,
    {
        let ghost before = out@;
        if bytes[i] == 37 && len - i > 2 {
            match parse_hex_pair(bytes[i + 1], bytes[i + 2]) {
                Some(byte) => {
                    out.push(byte);
                    assert(before + spec_unescape_from(bytes@, i as int) =~= out@ + spec_unescape_from(bytes@, i + 3));
                    i = i + 3;
                    continue;
                },
                None => {},
            }
        }
        out.push(bytes[i]);
        assert(before + spec_unescape_from(bytes@, i as int) =~= out@ + spec_unescape_from(bytes@, i + 1));
        i = i + 1;
    }
    assert(out@ + spec_unescape_from(bytes@, i as int) =~= out@);
    utf8_lossy(out.as_slice())
}

/// The prefixes of inline maps given as URI-encoded text.
pub open spec fn spec_text_prefixes() -> Seq<Seq<char>> {
    seq!["data:application/json;charset=utf8,"@, "data:application/json;charset=utf-8,"@, "data:application/json,"@]
}

/// The prefixes of inline maps given in base64.
pub open spec fn spec_base64_prefixes() -> Seq<Seq<char>> {
    seq![
        "data:application/json;charset=utf8;base64,"@,
        "data:application/json;charset=utf-8;base64,"@,
        "data:application/json;base64,"@,
    ]
}

/// The first of `prefixes` that `text` starts with, and what follows it.
pub open spec fn spec_first_prefix(text: Seq<char>, prefixes: Seq<Seq<char>>, i: int) -> Option<Seq<char>>
    decreases prefixes.len() - i,
{
    if i < 0 || i >= prefixes.len() {
        None
    } else {
        match spec_strip_prefix(text, prefixes[i]) {
            Some(rest) => Some(rest),
            None => spec_first_prefix(text, prefixes, i + 1),
        }
    }
}

/// Decodes a `data:application/json` source map URI: URI-encoded text, or
/// base64 that must hold UTF-8; any other encoding is refused by name.
pub open spec fn spec_decode_inline(text: Seq<char>) -> Result<Seq<char>, Seq<char>> {
    match spec_first_prefix(text, spec_text_prefixes(), 0) {
        Some(rest) => Ok(spec_decode_uri_component(rest)),
        None => match spec_first_prefix(text, spec_base64_prefixes(), 0) {
            Some(rest) => match crate::vlq::spec_base64_decode(vstd::utf8::encode_utf8(rest)) {
                None => Err("Invalid base64 in inline source map"@),
                Some(bytes) => if vstd::utf8::valid_utf8(bytes) {
                    Ok(vstd::utf8::decode_utf8(bytes))
                } else {
                    Err("Inline source map is not valid UTF-8"@)
                },
            },
            None => {
                let encoding = match spec_strip_prefix(text, "data:application/json;"@) {
                    Some(rest) => crate::text::spec_split_on(rest, ',')[0],
                    None => Seq::empty(),
                };
                Err("Unsupported source map encoding "@ + encoding)
            },
        },
    }
}

/// What follows the first of three prefixes `text` starts with.
fn first_prefix(text: &Vec<char>, p0: &str, p1: &str, p2: &str) -> (r: Option<Vec<char>>)
    ensures
        match r {
            Some(v) => spec_first_prefix(text@, seq![p0@, p1@, p2@], 0) == Some(v@),
            None => spec_first_prefix(text@, seq![p0@, p1@, p2@], 0) is None,
        },
{
    let ghost ps = seq![p0@, p1@, p2@];
    proof {
        reveal_with_fuel(spec_first_prefix, 4);
    }
    assert(text@.subrange(0, text@.len() as int) =~= text@);
    let c0 = chars_of(p0);
    if crate::text::starts_with_at(text, &c0, 0) {
        return Some(slice_chars(text, c0.len(), text.len()));
    }
    let c1 = chars_of(p1);
    if crate::text::starts_with_at(text, &c1, 0) {
        return Some(slice_chars(text, c1.len(), text.len()));
    }
    let c2 = chars_of(p2);
    if crate::text::starts_with_at(text, &c2, 0) {
        return Some(slice_chars(text, c2.len(), text.len()));
    }
    assert(spec_first_prefix(text@, ps, 3) is None);
    None
}

/// Decodes a `data:application/json` source map URI.
pub fn decode_inline(text: &str) -> (r: Result<String, String>)
    requires
        spec_first_prefix(text@, spec_text_prefixes(), 0) matches Some(rest) ==> spec_uri_sliceable(vstd::utf8::encode_utf8(rest)),
    ensures
        match r {
            Ok(s) => spec_decode_inline(text@) == Ok::<Seq<char>, Seq<char>>(s@),
            Err(e) => spec_decode_inline(text@) == Err::<Seq<char>, Seq<char>>(e@),
        },
{
    let chars = chars_of(text);
    match first_prefix(
        &chars,
        "data:application/json;charset=utf8,",
        "data:application/json;charset=utf-8,",
        "data:application/json,",
    ) {
        Some(rest) => {
            let rest = string_of(&rest);
            return Ok(decode_uri_component(rest.as_str()));
        },
        None => {},
    }
    match first_prefix(
        &chars,
        "data:application/json;charset=utf8;base64,",
        "data:application/json;charset=utf-8;base64,",
        "data:application/json;base64,",
    ) {
        Some(rest) => {
            let rest = string_of(&rest);
            return match crate::vlq::base64_decode(rest.as_str()) {
                None => Err(to_owned_string("Invalid base64 in inline source map")),
                Some(bytes) => match utf8_string(bytes) {
                    Some(s) => Ok(s),
                    None => Err(to_owned_string("Inline source map is not valid UTF-8")),
                },
            };
        },
        None => {},
    }
    let head = chars_of("data:application/json;");
    let mut message = to_owned_string("Unsupported source map encoding ");
    assert(chars@.subrange(0, chars@.len() as int) =~= chars@);
    if crate::text::starts_with_at(&chars, &head, 0) {
        let rest = slice_chars(&chars, head.len(), chars.len());
        let pieces = crate::paths::split_chars(&rest, ',');
        proof {
            crate::text::lemma_split_on_len(rest@, ',');
            assert(crate::source_map::spec_char_views(pieces@)[0] == pieces@[0]@);
        }
        let first = string_of(&pieces[0]);
        push_str(&mut message, first.as_str());
    } else {
        assert(message@ + Seq::<char>::empty() =~= message@);
    }
    Err(message)
}


/// What a string turns into under `str::to_lowercase`.
pub uninterp spec fn spec_lowercase(s: Seq<char>) -> Seq<char>;

/// Lowercases a string.
///
/// Wraps `str::to_lowercase`: the result is a function of the string alone.
#[verifier::external_body]
pub(crate) fn lowercase(s: &str) -> (r: String)
    ensures
        r@ == spec_lowercase(s@),
{
    s.to_lowercase()
}

/// What must be read before a previous map can be parsed.
#[derive(Debug)]
pub enum MapLoad {
    /// There is no map.
    Nothing,
    /// The map's JSON text.
    Text(String),
    /// A parsed map, to be written out as JSON.
    Raw(RawSourceMap),
    /// A map file to read; when `required`, failing to read it is an error.
    File {
        /// The file's path.
        path: String,
        /// Whether the file was asked for explicitly.
        required: bool,
    },
}

/// A source map belonging to the input CSS.
#[derive(Clone, Debug)]
pub struct PreviousMap {
    /// The `sourceMappingURL` value found in the CSS.
    pub annotation: Option<String>,
    /// True when the annotation is a `data:` URI.
    pub inline: bool,
    /// Raw map JSON.
    pub text: Option<String>,
    /// Path of the map file, when it was read from disk.
    pub map_file: Option<String>,
    /// Directory the map's `sources` are relative to.
    pub root: Option<String>,
    /// Path of the CSS file the map belongs to.
    pub file: Option<String>,
    /// Set when the map could not be loaded or parsed.
    pub parse_error: Option<String>,
    /// The parsed map.
    pub consumer: Option<SourceMapConsumer>,
}

/// Whether `s` starts with `p`.
pub open spec fn spec_starts_with(s: Seq<char>, p: Seq<char>) -> bool {
    spec_strip_prefix(s, p) is Some
}

/// Whether `s` ends with `p`.
pub open spec fn spec_ends_with(s: Seq<char>, p: Seq<char>) -> bool {
    p.len() <= s.len() && s.subrange(s.len() - p.len(), s.len() as int) == p
}

/// An annotation path that a strict resolver accepts without being asked:
/// it names a `.map` file (ignoring case) inside the directory of the CSS
/// file, which must be known.
pub open spec fn spec_map_file_allowed(path: Seq<char>, css_file: Option<Seq<char>>, cwd: Option<Seq<char>>) -> bool {
    &&& spec_ends_with(spec_lowercase(path), ".map"@)
    &&& css_file matches Some(f)
    &&& crate::paths::spec_dirname(f) matches Some(base)
    &&& {
        let rel = crate::paths::spec_relative(base, path, cwd);
        !(rel == ".."@ || spec_starts_with(rel, "../"@) || crate::paths::spec_is_absolute(rel))
    }
}

/// The path an annotation points at: next to the CSS file when that is
/// known.
pub open spec fn spec_annotation_path(annotation: Seq<char>, from: Option<Seq<char>>) -> Seq<char> {
    match from {
        Some(f) => match crate::paths::spec_dirname(f) {
            Some(dir) => crate::paths::spec_path_join(dir, annotation),
            None => annotation,
        },
        None => annotation,
    }
}

/// A map file's text: without an XSSI prefix line, trimmed.
pub open spec fn spec_map_file_text(contents: Seq<char>) -> Seq<char> {
    let body = if spec_starts_with(contents, ")]}'"@) {
        match crate::text::spec_find(contents, "\n"@) {
            Some(i) => contents.subrange(i + 1, contents.len() as int),
            None => contents,
        }
    } else {
        contents
    };
    spec_trim(body)
}

pub(crate) fn ends_with(s: &Vec<char>, p: &str) -> (r: bool)
    ensures
        r == spec_ends_with(s@, p@),
{
    let pc = chars_of(p);
    if pc.len() > s.len() {
        return false;
    }
    let start = s.len() - pc.len();
    let r = crate::text::starts_with_at(s, &pc, start);
    proof {
        let rest = s@.subrange(start as int, s@.len() as int);
        assert(rest.subrange(0, pc@.len() as int) =~= rest);
    }
    r
}

pub(crate) fn starts_with(s: &Vec<char>, p: &str) -> (r: bool)
    ensures
        r == spec_starts_with(s@, p@),
{
    let pc = chars_of(p);
    assert(s@.subrange(0, s@.len() as int) =~= s@);
    crate::text::starts_with_at(s, &pc, 0)
}

/// Whether a map file may be read without having been asked for.
pub fn map_file_allowed(path: &str, css_file: Option<&str>, cwd: Option<&str>) -> (r: bool)
    ensures
        r == spec_map_file_allowed(path@, match css_file {
            Some(f) => Some(f@),
            None => None,
        }, match cwd {
            Some(c) => Some(c@),
            None => None,
        }),
{
    let lower = lowercase(path);
    let lower_chars = chars_of(lower.as_str());
    if !ends_with(&lower_chars, ".map") {
        return false;
    }
    let css_file = match css_file {
        Some(f) => f,
        None => {
            return false;
        },
    };
    let base = match crate::paths::dirname(css_file) {
        Some(b) => b,
        None => {
            return false;
        },
    };
    let rel = crate::paths::relative(base.as_str(), path, cwd);
    let rel_chars = chars_of(rel.as_str());
    let dd = chars_of("..");
    !(crate::source_map::chars_eq(&rel_chars, &dd) || starts_with(&rel_chars, "../") || (rel_chars.len() > 0
        && rel_chars[0] == '/'))
}

/// A map file's text: without an XSSI prefix line, trimmed.
pub fn map_file_text(contents: &str) -> (r: String)
    ensures
        r@ == spec_map_file_text(contents@),
{
    let chars = chars_of(contents);
    let newline = chars_of("\n");
    proof {
        reveal_strlit("\n");
    }
    let n = chars.len();
    let body = if starts_with(&chars, ")]}'") {
        match crate::text::find(&chars, &newline, 0) {
            Some(i) => {
                proof {
                    crate::text::lemma_find_from_bounds(chars@, newline@, 0);
                }
                slice_chars(&chars, i + 1, n)
            },
            None => slice_chars(&chars, 0, n),
        }
    } else {
        slice_chars(&chars, 0, chars.len())
    };
    assert(chars@.subrange(0, chars@.len() as int) =~= chars@);
    crate::text::trim_to_string(&body)
}

impl PreviousMap {
    /// The parsed map, if one was found and is valid.
    pub open spec fn spec_consumer(&self) -> Option<SourceMapConsumer> {
        self.consumer
    }

    /// The consumer is well formed.
    pub open spec fn wf(&self) -> bool {
        self.consumer matches Some(c) ==> c.wf()
    }

    /// Looks for the map of `css`: `None` when maps are disabled, else the
    /// annotation found and whether it is inline, with nothing loaded yet.
    pub fn start(css: &str, opts: &InputOptions) -> (r: Option<Self>)
        ensures
            r is None <==> opts.map matches Some(MapSetting::Disabled),
            r matches Some(m) ==> {
                &&& m.wf()
                &&& opt_view(m.annotation) == spec_load_annotation(css@)
                &&& m.inline == (m.annotation matches Some(a) && spec_starts_with(a@, "data:"@))
                &&& m.text is None && m.map_file is None && m.root is None && m.file is None
                &&& m.parse_error is None && m.spec_consumer() is None
            },
    {
        match &opts.map {
            Some(MapSetting::Disabled) => {
                return None;
            },
            _ => {},
        }
        let annotation = load_annotation(css);
        let inline = match &annotation {
            Some(a) => {
                let ac = chars_of(a.as_str());
                starts_with(&ac, "data:")
            },
            None => false,
        };
        Some(PreviousMap {
            annotation,
            inline,
            text: None,
            map_file: None,
            root: None,
            file: None,
            parse_error: None,
            consumer: None,
        })
    }

    /// Decides how the map is loaded: from the `prev` option when one is
    /// given, else from the annotation (decoding an inline map, or pointing
    /// at a file next to the CSS that a strict resolver accepts, unless
    /// `unsafe_map`). Records the map's directory for a file, and the error
    /// for an inline map that does not decode.
    pub fn plan_load(&mut self, opts: &InputOptions, cwd: Option<&str>) -> (r: MapLoad)
        requires
            old(self).inline ==> (old(self).annotation matches Some(a) ==> (spec_first_prefix(
                a@,
                spec_text_prefixes(),
                0,
            ) matches Some(rest) ==> spec_uri_sliceable(vstd::utf8::encode_utf8(rest)))),
        ensures
            final(self).wf() == old(self).wf(),
            final(self).spec_consumer() == old(self).spec_consumer(),
            final(self).annotation == old(self).annotation,
            final(self).inline == old(self).inline,
            final(self).text == old(self).text,
            final(self).map_file == old(self).map_file,
            final(self).file == old(self).file,
            ({
                let prev = match opts.map {
                    Some(MapSetting::Options(o)) => o.prev,
                    _ => None,
                };
                let from = opt_view(opts.from);
                let cwd_v = match cwd {
                    Some(c) => Some(c@),
                    None => None,
                };
                match prev {
                    Some(PrevMap::Disabled) => r is Nothing && final(self).root == old(self).root
                        && final(self).parse_error == old(self).parse_error,
                    Some(PrevMap::Text(t)) => (r matches MapLoad::Text(x) && x@ == t@) && final(self).root
                        == old(self).root && final(self).parse_error == old(self).parse_error,
                    Some(PrevMap::Raw(raw)) => (r matches MapLoad::Raw(x) && crate::options::spec_raw_same(x, *raw))
                        && final(self).root == old(self).root && final(self).parse_error == old(self).parse_error,
                    Some(PrevMap::File(path)) => (r matches MapLoad::File { path: p, required } && p@ == path@
                        && required) && opt_view(final(self).root) == crate::paths::spec_dirname(path@)
                        && final(self).parse_error == old(self).parse_error,
                    None => if old(self).inline {
                        match old(self).annotation {
                            None => r is Nothing && final(self).root == old(self).root && final(self).parse_error
                                == old(self).parse_error,
                            Some(a) => match spec_decode_inline(a@) {
                                Ok(t) => (r matches MapLoad::Text(x) && x@ == t) && final(self).root == old(self).root
                                    && final(self).parse_error == old(self).parse_error,
                                Err(e) => r is Nothing && final(self).root == old(self).root && opt_view(
                                    final(self).parse_error,
                                ) == Some(e),
                            },
                        }
                    } else {
                        match old(self).annotation {
                            None => r is Nothing && final(self).root == old(self).root && final(self).parse_error
                                == old(self).parse_error,
                            Some(a) => {
                                let path = spec_annotation_path(a@, from);
                                if opts.unsafe_map || spec_map_file_allowed(path, from, cwd_v) {
                                    (r matches MapLoad::File { path: p, required } && p@ == path && !required)
                                        && opt_view(final(self).root) == crate::paths::spec_dirname(path)
                                        && final(self).parse_error == old(self).parse_error
                                } else {
                                    r is Nothing && final(self).root == old(self).root && final(self).parse_error
                                        == old(self).parse_error
                                }
                            },
                        }
                    },
                }
            }),
    {
        let prev = match &opts.map {
            Some(MapSetting::Options(o)) => &o.prev,
            _ => &None,
        };
        match prev {
            Some(PrevMap::Disabled) => MapLoad::Nothing,
            Some(PrevMap::Text(t)) => MapLoad::Text(t.clone()),
            Some(PrevMap::Raw(raw)) => MapLoad::Raw(crate::options::clone_raw(raw)),
            Some(PrevMap::File(path)) => {
                self.root = crate::paths::dirname(path.as_str());
                MapLoad::File { path: path.clone(), required: true }
            },
            None => {
                if self.inline {
                    match &self.annotation {
                        None => MapLoad::Nothing,
                        Some(a) => match decode_inline(a.as_str()) {
                            Ok(t) => MapLoad::Text(t),
                            Err(e) => {
                                self.parse_error = Some(e);
                                MapLoad::Nothing
                            },
                        },
                    }
                } else {
                    match &self.annotation {
                        None => MapLoad::Nothing,
                        Some(a) => {
                            let from = match &opts.from {
                                Some(f) => Some(f.as_str()),
                                None => None,
                            };
                            let dir = match from {
                                Some(f) => crate::paths::dirname(f),
                                None => None,
                            };
                            let path = match dir {
                                Some(d) => crate::paths::join(d.as_str(), a.as_str()),
                                None => a.clone(),
                            };
                            if opts.unsafe_map || map_file_allowed(path.as_str(), from, cwd) {
                                self.root = crate::paths::dirname(path.as_str());
                                MapLoad::File { path, required: false }
                            } else {
                                MapLoad::Nothing
                            }
                        },
                    }
                }
            },
        }
    }

    /// Takes in what reading a map file gave: its text when it could be
    /// read (recording where it came from), else an error when the file was
    /// asked for explicitly.
    pub fn read_loaded(&mut self, path: &str, contents: Option<String>, required: bool) -> (r: Option<String>)
        ensures
            final(self).wf() == old(self).wf(),
            final(self).spec_consumer() == old(self).spec_consumer(),
            final(self).annotation == old(self).annotation,
            final(self).inline == old(self).inline,
            final(self).text == old(self).text,
            final(self).file == old(self).file,
            final(self).root == old(self).root,
            match contents {
                Some(c) => {
                    &&& crate::error::opt_view(r) == Some(spec_map_file_text(c@))
                    &&& opt_view(final(self).map_file) == Some(path@)
                    &&& final(self).parse_error == old(self).parse_error
                },
                None => {
                    &&& r is None
                    &&& final(self).map_file == old(self).map_file
                    &&& if required {
                        opt_view(final(self).parse_error) == Some("Unable to load previous source map: "@ + path@)
                    } else {
                        final(self).parse_error == old(self).parse_error
                    }
                },
            },
    {
        match contents {
            Some(c) => {
                self.map_file = Some(to_owned_string(path));
                Some(map_file_text(c.as_str()))
            },
            None => {
                if required {
                    let mut message = to_owned_string("Unable to load previous source map: ");
                    push_str(&mut message, path);
                    self.parse_error = Some(message);
                }
                None
            },
        }
    }

    /// Records the loaded text and where the map lives: the CSS file
    /// stands in for a map file that was not read, and the map's directory
    /// is that of the map file.
    pub fn finish(&mut self, from: Option<&str>, text: Option<String>)
        ensures
            final(self).wf() == old(self).wf(),
            final(self).spec_consumer() == old(self).spec_consumer(),
            final(self).annotation == old(self).annotation,
            final(self).inline == old(self).inline,
            final(self).file == old(self).file,
            final(self).parse_error == old(self).parse_error,
            opt_view(final(self).map_file) == match old(self).map_file {
                Some(f) => Some(f@),
                None => match from {
                    Some(f) => Some(f@),
                    None => None,
                },
            },
            match final(self).map_file {
                Some(f) => opt_view(final(self).root) == crate::paths::spec_dirname(f@),
                None => final(self).root == old(self).root,
            },
            match text {
                Some(t) => opt_view(final(self).text) == Some(t@),
                None => final(self).text == old(self).text,
            },
    {
        if self.map_file.is_none() {
            match from {
                Some(f) => {
                    self.map_file = Some(to_owned_string(f));
                },
                None => {},
            }
        }
        match &self.map_file {
            Some(f) => {
                self.root = crate::paths::dirname(f.as_str());
            },
            None => {},
        }
        match text {
            Some(t) => {
                self.text = Some(t);
            },
            None => {},
        }
    }

    /// Takes in the parsed map, or the parser's error message.
    pub fn set_parsed(&mut self, parsed: Result<RawSourceMap, String>)
        requires
            old(self).wf(),
            parsed matches Ok(raw) ==> vstd::utf8::encode_utf8(raw.mappings@).len() < usize::MAX,
        ensures
            final(self).wf(),
            final(self).annotation == old(self).annotation,
            final(self).inline == old(self).inline,
            final(self).text == old(self).text,
            final(self).map_file == old(self).map_file,
            final(self).root == old(self).root,
            final(self).file == old(self).file,
            match parsed {
                Ok(raw) => final(self).spec_consumer() matches Some(c) && final(self).parse_error == old(self).parse_error
                    && c.spec_file() == opt_view(raw.file) && c.spec_root() == opt_view(raw.source_root)
                    && c.spec_raw_sources() == crate::list::spec_views(raw.sources@)
                    && c.spec_names() == crate::list::spec_views(raw.names@)
                    && c.spec_mappings() == crate::source_map::spec_sort_mappings(
                    crate::source_map::spec_decode_mappings(vstd::utf8::encode_utf8(raw.mappings@)),
                ),
                Err(e) => final(self).spec_consumer() == old(self).spec_consumer() && opt_view(final(self).parse_error)
                    == Some("Invalid source map: "@ + e@),
            },
    {
        match parsed {
            Ok(raw) => {
                self.consumer = Some(SourceMapConsumer::from_raw(raw));
            },
            Err(e) => {
                let mut message = to_owned_string("Invalid source map: ");
                push_str(&mut message, e.as_str());
                self.parse_error = Some(message);
            },
        }
    }

    /// The parsed map, if one was found and is valid.
    pub fn consumer(&self) -> (r: Option<&SourceMapConsumer>)
        requires
            self.wf(),
        ensures
            match r {
                Some(c) => self.spec_consumer() == Some(*c) && c.wf(),
                None => self.spec_consumer() is None,
            },
    {
        match &self.consumer {
            Some(c) => Some(c),
            None => None,
        }
    }

    /// True when the map embeds its sources.
    pub fn with_content(&self) -> (r: bool)
        ensures
            r == (self.spec_consumer() matches Some(c) && c.spec_contents() matches Some(v) && v.len() > 0),
    {
        match &self.consumer {
            Some(c) => c.has_contents(),
            None => false,
        }
    }

    /// Where `resolve` sends a path found inside the map.
    pub open spec fn spec_resolve(&self, file: Seq<char>, cwd: Option<Seq<char>>) -> Seq<char> {
        if crate::input::spec_is_url(file) {
            file
        } else {
            let root = match self.spec_consumer() {
                Some(c) => match c.spec_root() {
                    Some(r) => r,
                    None => match opt_view(self.root) {
                        Some(r) => r,
                        None => "."@,
                    },
                },
                None => match opt_view(self.root) {
                    Some(r) => r,
                    None => "."@,
                },
            };
            crate::paths::spec_absolute_path(crate::paths::spec_path_join(root, file), cwd)
        }
    }

    /// Resolves a path found inside the map against the map's own location:
    /// a URL stays, anything else is joined to the map's source root (or
    /// its directory, or `.`) and resolved against the working directory.
    pub fn resolve(&self, file: &str, cwd: Option<&str>) -> (r: String)
        ensures
            r@ == self.spec_resolve(file@, match cwd {
                Some(c) => Some(c@),
                None => None,
            }),
    {
        if crate::input::is_url(file) {
            return to_owned_string(file);
        }
        let consumer_root = match &self.consumer {
            Some(c) => c.source_root_str(),
            None => None,
        };
        let root = match consumer_root {
            Some(r) => r,
            None => match &self.root {
                Some(r) => r.as_str(),
                None => ".",
            },
        };
        let joined = crate::paths::join(root, file);
        crate::paths::absolute_path(joined.as_str(), cwd)
    }
}

} // verus!
