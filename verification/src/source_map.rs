//! Source map reading and writing: the `mappings` codec, position lookups,
//! and the path arithmetic of the `source-map` utilities.

use vstd::prelude::*;
use vstd::string::StringSliceAdditionalSpecFns;
use crate::text::{
    chars_of, find, push_char, spec_all_alnum, spec_find, spec_is_ascii_alnum, spec_join, spec_split_on,
    spec_strip_prefix, spec_trim_end_char, slice_chars, starts_with_at, string_of, trim_end_char_len,
};

verus! {

/// The views of a list of character vectors.
pub open spec fn spec_char_views(v: Seq<Vec<char>>) -> Seq<Seq<char>> {
    v.map_values(|s: Vec<char>| s@)
}

/// A scheme of ASCII alphanumerics before `://` (possibly empty).
pub open spec fn spec_is_absolute_url(p: Seq<char>) -> bool {
    match spec_find(p, "://"@) {
        Some(i) => spec_all_alnum(p.subrange(0, i)),
        None => false,
    }
}

/// One step of `normalize_path`: drop empty and `.` segments, let `..` undo
/// the previous segment (or stay, on a relative path with nothing to undo).
pub open spec fn spec_normalize_step(parts: Seq<Seq<char>>, part: Seq<char>, absolute: bool) -> Seq<Seq<char>> {
    if part.len() == 0 || part == "."@ {
        parts
    } else if part == ".."@ {
        if parts.len() > 0 && parts.last() != ".."@ {
            parts.drop_last()
        } else if !absolute {
            parts.push(".."@)
        } else {
            parts
        }
    } else {
        parts.push(part)
    }
}

/// The segments left after normalizing `parts` from left to right.
pub open spec fn spec_normalize_parts(parts: Seq<Seq<char>>, absolute: bool) -> Seq<Seq<char>>
    decreases parts.len(),
{
    if parts.len() == 0 {
        Seq::empty()
    } else {
        spec_normalize_step(spec_normalize_parts(parts.drop_last(), absolute), parts.last(), absolute)
    }
}

/// `normalize_path`: `.` and `..` segments collapsed, keeping a leading `/`
/// and, on a relative path, any leading `..`; `.` for an empty result.
pub open spec fn spec_normalize_path(path: Seq<char>) -> Seq<char> {
    let absolute = path.len() > 0 && path[0] == '/';
    let joined = spec_join(spec_normalize_parts(spec_split_on(path, '/'), absolute), "/"@);
    if absolute {
        "/"@ + joined
    } else if joined.len() == 0 {
        "."@
    } else {
        joined
    }
}

/// `join_path`: `path` under `root`, unless `path` is empty (giving `root`)
/// or stands on its own (a URL or an absolute path).
pub open spec fn spec_join_path(root: Seq<char>, path: Seq<char>) -> Seq<char> {
    if path.len() == 0 {
        root
    } else if root.len() == 0 || spec_is_absolute_url(path) || path[0] == '/' {
        path
    } else {
        spec_normalize_path(spec_trim_end_char(root, '/') + "/"@ + path)
    }
}

/// `relative_path`: `path` with the directory `root` (trailing slashes
/// ignored) stripped from its front, when `path` lies inside it.
pub open spec fn spec_relative_path(root: Seq<char>, path: Seq<char>) -> Seq<char> {
    let r = spec_trim_end_char(root, '/');
    if r.len() == 0 {
        path
    } else {
        match spec_strip_prefix(path, r) {
            Some(rest) => if rest.len() > 0 && rest[0] == '/' {
                rest.drop_first()
            } else if rest.len() == 0 {
                Seq::empty()
            } else {
                path
            },
            None => path,
        }
    }
}

/// The part of `path` below `root`, when `path` lies strictly inside it.
pub open spec fn spec_strip_prefix_path(path: Seq<char>, root: Seq<char>) -> Option<Seq<char>> {
    let r = spec_trim_end_char(root, '/');
    if r.len() == 0 {
        None
    } else {
        match spec_strip_prefix(path, r) {
            Some(rest) => if rest.len() > 0 && rest[0] == '/' {
                Some(rest.drop_first())
            } else {
                None
            },
            None => None,
        }
    }
}

/// `computeSourceURL`: the source under the source root, unless there is no
/// root or the source is a URL or an absolute path.
pub open spec fn spec_compute_source_url(root: Option<Seq<char>>, source: Seq<char>) -> Seq<char> {
    match root {
        Some(r) => if r.len() > 0 && !spec_is_absolute_url(source) && !(source.len() > 0 && source[0] == '/') {
            spec_join_path(r, source)
        } else {
            source
        },
        None => source,
    }
}

fn is_absolute_url(path: &Vec<char>) -> (r: bool)
    ensures
        r == spec_is_absolute_url(path@),
{
    let pat = chars_of("://");
    proof {
        crate::text::lemma_find_from_bounds(path@, pat@, 0);
    }
    match find(path, &pat, 0) {
        Some(index) => {
            let mut i: usize = 0;
            while i < index
                invariant
                    i <= index,
                    index <= path@.len(),
                    spec_find(path@, "://"@) == Some(index as int),
                    forall|k: int| 0 <= k < i ==> spec_is_ascii_alnum(#[trigger] path@[k]),
                decreases index - i,
            {
                let c = path[i];
                if !(('0' <= c && c <= '9') || ('a' <= c && c <= 'z') || ('A' <= c && c <= 'Z')) {
                    assert(path@.subrange(0, index as int)[i as int] == c);
                    assert(!spec_is_ascii_alnum(path@.subrange(0, index as int)[i as int]));
                    return false;
                }
                i = i + 1;
            }
            assert(spec_all_alnum(path@.subrange(0, index as int)));
            true
        },
        None => false,
    }
}

/// The pieces joined by one character.
pub fn join_chars_pub(parts: &Vec<Vec<char>>, sep: char) -> (r: Vec<char>)
    ensures
        r@ == spec_join(spec_char_views(parts@), seq![sep]),
{
    join_chars(parts, sep)
}

fn join_chars(parts: &Vec<Vec<char>>, sep: char) -> (r: Vec<char>)
    ensures
        r@ == spec_join(spec_char_views(parts@), seq![sep]),
{
    let mut out: Vec<char> = Vec::new();
    let mut i: usize = 0;
    while i < parts.len()
        invariant
            i <= parts@.len(),
            out@ == spec_join(spec_char_views(parts@.subrange(0, i as int)), seq![sep]),
        decreases parts.len() - i,
    {
        let ghost before = out@;
        if i > 0 {
            out.push(sep);
        }
        let part = &parts[i];
        let mut j: usize = 0;
        let ghost mid = out@;
        while j < part.len()
            invariant
                j <= part@.len(),
                out@ == mid + part@.subrange(0, j as int),
            decreases part.len() - j,
        {
            out.push(part[j]);
            assert(part@.subrange(0, j + 1) =~= part@.subrange(0, j as int).push(part@[j as int]));
            j = j + 1;
        }
        proof {
            assert(part@.subrange(0, part@.len() as int) =~= part@);
            let v = spec_char_views(parts@.subrange(0, i + 1));
            assert(v.drop_last() =~= spec_char_views(parts@.subrange(0, i as int)));
            assert(v.last() == parts@[i as int]@);
            if i == 0 {
                assert(out@ =~= v[0]);
            } else {
                assert(out@ =~= before + seq![sep] + part@);
            }
        }
        i = i + 1;
    }
    assert(parts@.subrange(0, parts@.len() as int) =~= parts@);
    out
}

fn is_dot(part: &Vec<char>) -> (r: bool)
    ensures
        r == (part@ == "."@),
{
    proof {
        reveal_strlit(".");
    }
    let r = part.len() == 1 && part[0] == '.';
    if r {
        assert(part@ =~= "."@);
    }
    r
}

fn is_dot_dot(part: &Vec<char>) -> (r: bool)
    ensures
        r == (part@ == ".."@),
{
    proof {
        reveal_strlit("..");
    }
    let r = part.len() == 2 && part[0] == '.' && part[1] == '.';
    if r {
        assert(part@ =~= ".."@);
    }
    r
}

/// Applies one normalization step to `parts`.
fn normalize_step(parts: &mut Vec<Vec<char>>, part: Vec<char>, absolute: bool)
    ensures
        spec_char_views(final(parts)@) == spec_normalize_step(spec_char_views(old(parts)@), part@, absolute),
{
    let ghost before = spec_char_views(parts@);
    if part.len() == 0 || is_dot(&part) {
        return;
    }
    if is_dot_dot(&part) {
        let n = parts.len();
        if n > 0 && !is_dot_dot(&parts[n - 1]) {
            let _ = parts.pop();
            assert(spec_char_views(parts@) =~= before.drop_last());
        } else if !absolute {
            parts.push(part);
            assert(spec_char_views(parts@) =~= before.push(".."@));
        }
    } else {
        let ghost p = part@;
        parts.push(part);
        assert(spec_char_views(parts@) =~= before.push(p));
    }
}

/// Collapses `.` and `..` segments, keeping any leading `..`.
pub fn normalize_path(path: &str) -> (r: String)
    ensures
        r@ == spec_normalize_path(path@),
{
    let chars = chars_of(path);
    normalize_chars(&chars)
}

fn normalize_chars(chars: &Vec<char>) -> (r: String)
    ensures
        r@ == spec_normalize_path(chars@),
{
    let absolute = chars.len() > 0 && chars[0] == '/';
    let mut parts: Vec<Vec<char>> = Vec::new();
    let mut current: Vec<char> = Vec::new();
    let mut i: usize = 0;
    while i < chars.len()
        invariant
            i <= chars@.len(),
            absolute == (chars@.len() > 0 && chars@[0] == '/'),
            ({
                let split = spec_split_on(chars@.subrange(0, i as int), '/');
                &&& split.len() >= 1
                &&& spec_char_views(parts@) == spec_normalize_parts(split.drop_last(), absolute)
                &&& current@ == split.last()
            }),
        decreases chars.len() - i,
    {
        let c = chars[i];
        let ghost prefix = chars@.subrange(0, i as int);
        assert(chars@.subrange(0, i + 1).drop_last() =~= prefix);
        if c == '/' {
            let part = current;
            current = Vec::new();
            normalize_step(&mut parts, part, absolute);
            proof {
                let split = spec_split_on(prefix, '/');
                assert(spec_split_on(chars@.subrange(0, i + 1), '/') =~= split.push(Seq::empty()));
                assert(split.push(Seq::<char>::empty()).drop_last() =~= split);
                assert(split =~= split.drop_last().push(split.last()));
            }
        } else {
            current.push(c);
            proof {
                let split = spec_split_on(prefix, '/');
                let next = spec_split_on(chars@.subrange(0, i + 1), '/');
                assert(next =~= split.update(split.len() - 1, split.last().push(c)));
                assert(next.drop_last() =~= split.drop_last());
            }
        }
        i = i + 1;
    }
    proof {
        let split = spec_split_on(chars@.subrange(0, i as int), '/');
        assert(chars@.subrange(0, i as int) =~= chars@);
        assert(split =~= split.drop_last().push(split.last()));
    }
    normalize_step(&mut parts, current, absolute);
    let joined = join_chars(&parts, '/');
    proof {
        reveal_strlit("/");
        reveal_strlit(".");
        let split = spec_split_on(chars@, '/');
        assert(spec_char_views(parts@) == spec_normalize_parts(split, absolute));
        assert(seq!['/'] =~= "/"@);
        assert(joined@ == spec_join(spec_normalize_parts(split, absolute), "/"@));
    }
    if absolute {
        let mut out = String::new();
        push_char(&mut out, '/');
        let rest = string_of(&joined);
        crate::text::push_str(&mut out, rest.as_str());
        assert(out@ =~= "/"@ + joined@);
        out
    } else if joined.len() == 0 {
        let mut out = String::new();
        push_char(&mut out, '.');
        assert(out@ =~= "."@);
        out
    } else {
        string_of(&joined)
    }
}

/// `util.join()`: joins with `/`, letting an absolute path win.
pub fn join_path(root: &str, path: &str) -> (r: String)
    ensures
        r@ == spec_join_path(root@, path@),
{
    let root_chars = chars_of(root);
    let path_chars = chars_of(path);
    join_path_chars(&root_chars, &path_chars)
}

fn join_path_chars(root: &Vec<char>, path: &Vec<char>) -> (r: String)
    ensures
        r@ == spec_join_path(root@, path@),
{
    if path.len() == 0 {
        return string_of(root);
    }
    if root.len() == 0 || is_absolute_url(path) || path[0] == '/' {
        return string_of(path);
    }
    let n = trim_end_char_len(root, '/');
    let mut joined = slice_chars(root, 0, n);
    joined.push('/');
    let mut i: usize = 0;
    let ghost base = joined@;
    while i < path.len()
        invariant
            i <= path@.len(),
            joined@ == base + path@.subrange(0, i as int),
        decreases path.len() - i,
    {
        joined.push(path[i]);
        assert(path@.subrange(0, i + 1) =~= path@.subrange(0, i as int).push(path@[i as int]));
        i = i + 1;
    }
    proof {
        reveal_strlit("/");
        assert(path@.subrange(0, path@.len() as int) =~= path@);
        assert(joined@ =~= spec_trim_end_char(root@, '/') + "/"@ + path@);
    }
    normalize_chars(&joined)
}

/// `util.relative()`: strips `root` from `path` when `path` sits inside it.
pub fn relative_path(root: &str, path: &str) -> (r: String)
    ensures
        r@ == spec_relative_path(root@, path@),
{
    let root_chars = chars_of(root);
    let path_chars = chars_of(path);
    let n = trim_end_char_len(&root_chars, '/');
    if n == 0 {
        return string_of(&path_chars);
    }
    let trimmed = slice_chars(&root_chars, 0, n);
    proof {
        assert(path_chars@.subrange(0, path_chars@.len() as int) =~= path_chars@);
    }
    if starts_with_at(&path_chars, &trimmed, 0) {
        let len = path_chars.len();
        if n < len && path_chars[n] == '/' {
            let rest = slice_chars(&path_chars, n + 1, len);
            assert(rest@ =~= path_chars@.subrange(n as int, len as int).drop_first());
            return string_of(&rest);
        }
        if n == len {
            return String::new();
        }
    }
    string_of(&path_chars)
}

/// The part of `path` below `root`, when `path` lies strictly inside it.
fn strip_prefix_path(path: &Vec<char>, root: &Vec<char>) -> (r: Option<Vec<char>>)
    ensures
        match r {
            Some(v) => spec_strip_prefix_path(path@, root@) == Some(v@),
            None => spec_strip_prefix_path(path@, root@) is None,
        },
{
    let n = trim_end_char_len(root, '/');
    if n == 0 {
        return None;
    }
    let trimmed = slice_chars(root, 0, n);
    assert(path@.subrange(0, path@.len() as int) =~= path@);
    if starts_with_at(path, &trimmed, 0) {
        let len = path.len();
        if n < len && path[n] == '/' {
            let rest = slice_chars(path, n + 1, len);
            assert(rest@ =~= path@.subrange(n as int, len as int).drop_first());
            return Some(rest);
        }
    }
    None
}

/// `util.computeSourceURL()` without a map URL: prefixes `sourceRoot` unless
/// the source is already absolute.
pub fn compute_source_url(source_root: Option<&str>, source: &str) -> (r: String)
    ensures
        r@ == spec_compute_source_url(
            match source_root {
                Some(s) => Some(s@),
                None => None,
            },
            source@,
        ),
{
    let source_chars = chars_of(source);
    match source_root {
        Some(root) => {
            let root_chars = chars_of(root);
            if root_chars.len() > 0 && !is_absolute_url(&source_chars) && !(source_chars.len() > 0
                && source_chars[0] == '/') {
                join_path_chars(&root_chars, &source_chars)
            } else {
                string_of(&source_chars)
            }
        },
        None => string_of(&source_chars),
    }
}


/// One decoded mapping segment.
#[derive(Clone, Copy, Debug, PartialEq, Eq)]
pub struct Mapping {
    /// 1-based line in the generated file.
    pub generated_line: usize,
    /// 0-based column in the generated file.
    pub generated_column: usize,
    /// Index into `sources`, when the segment has an original position.
    pub source: Option<usize>,
    /// 1-based line in the original file.
    pub original_line: Option<usize>,
    /// 0-based column in the original file.
    pub original_column: Option<usize>,
    /// Index into `names`.
    pub name: Option<usize>,
}

/// An original column that leaves room for one more.
pub open spec fn spec_column_small(m: Mapping) -> bool {
    m.original_column matches Some(c) ==> c < usize::MAX
}

/// A running total as an index: negative totals count as 0.
pub open spec fn spec_clamp(x: i64) -> usize {
    (if x > 0 { x } else { 0 }) as usize
}

/// The running totals of the `mappings` decoder that persist across lines:
/// source index, original line (0-based), original column and name index.
pub type Totals = (i64, i64, i64, i64);

/// Adds the deltas found after the generated column of a segment: source,
/// original line, original column and name, each present only when the ones
/// before it are.
pub open spec fn spec_decode_tail(seg: Seq<u8>, off: int, m: Mapping, t: Totals) -> (Mapping, Totals) {
    match crate::vlq::spec_decode_vlq(seg.skip(off)) {
        None => (m, t),
        Some((s, r1)) => {
            let src = t.0.wrapping_add(s as i64);
            let m1 = Mapping { source: Some(spec_clamp(src)), ..m };
            match crate::vlq::spec_decode_vlq(seg.skip(off + r1)) {
                None => (m1, (src, t.1, t.2, t.3)),
                Some((l, r2)) => {
                    let line = t.1.wrapping_add(l as i64);
                    let m2 = Mapping { original_line: Some(((if line > 0 { line } else { 0i64 }).wrapping_add(1)) as usize), ..m1 };
                    match crate::vlq::spec_decode_vlq(seg.skip(off + r1 + r2)) {
                        None => (m2, (src, line, t.2, t.3)),
                        Some((c, r3)) => {
                            let col = t.2.wrapping_add(c as i64);
                            let m3 = Mapping { original_column: Some(spec_clamp(col)), ..m2 };
                            let off4 = off + r1 + r2 + r3;
                            if off4 < seg.len() {
                                match crate::vlq::spec_decode_vlq(seg.skip(off4)) {
                                    None => (m3, (src, line, col, t.3)),
                                    Some((n, _)) => {
                                        let name = t.3.wrapping_add(n as i64);
                                        (Mapping { name: Some(spec_clamp(name)), ..m3 }, (src, line, col, name))
                                    },
                                }
                            } else {
                                (m3, (src, line, col, t.3))
                            }
                        },
                    }
                },
            }
        },
    }
}

/// Decodes one non-empty segment on generated line `line`, given the
/// running generated column and totals: `None` when its first value does not
/// decode.
pub open spec fn spec_decode_segment(seg: Seq<u8>, line: usize, gc: i64, t: Totals) -> Option<(Mapping, i64, Totals)> {
    match crate::vlq::spec_decode_vlq(seg) {
        None => None,
        Some((v, r)) => {
            let gc2 = gc.wrapping_add(v as i64);
            let m = Mapping {
                generated_line: line,
                generated_column: spec_clamp(gc2),
                source: None,
                original_line: None,
                original_column: None,
                name: None,
            };
            if r < seg.len() {
                let (m2, t2) = spec_decode_tail(seg, r as int, m, t);
                Some((m2, gc2, t2))
            } else {
                Some((m, gc2, t))
            }
        },
    }
}

/// The first index at or after `i` holding `,` or `;`, or the end.
pub open spec fn spec_segment_end(b: Seq<u8>, i: int) -> int
    decreases b.len() - i,
{
    if i >= b.len() || b[i] == 44 || b[i] == 59 {
        i
    } else {
        spec_segment_end(b, i + 1)
    }
}

/// The first index at or after `i` holding `;`, or the end.
pub open spec fn spec_line_end(b: Seq<u8>, i: int) -> int
    decreases b.len() - i,
{
    if i >= b.len() || b[i] == 59 {
        i
    } else {
        spec_line_end(b, i + 1)
    }
}

/// The mappings decoded from `b`, reading from the segment that starts at
/// `i` on generated line `line`: segments are separated by `,`, lines by
/// `;`; empty segments are skipped, and a segment whose first value does not
/// decode ends its line.
pub open spec fn spec_decode_from(b: Seq<u8>, i: int, line: usize, gc: i64, t: Totals) -> Seq<Mapping>
    decreases b.len() - i,
{
    if i < 0 || i > b.len() {
        Seq::empty()
    } else {
        proof {
            lemma_segment_end(b, i);
            lemma_line_end(b, i);
        }
        let e = spec_segment_end(b, i);
        let seg = b.subrange(i, e);
        if seg.len() > 0 && spec_decode_segment(seg, line, gc, t) is None {
            let g = spec_line_end(b, i);
            if g >= b.len() {
                Seq::empty()
            } else {
                spec_decode_from(b, g + 1, (line + 1) as usize, 0, t)
            }
        } else {
            let (ms, gc2, t2) = if seg.len() == 0 {
                (Seq::<Mapping>::empty(), gc, t)
            } else {
                let (m, gc2, t2) = spec_decode_segment(seg, line, gc, t)->0;
                (seq![m], gc2, t2)
            };
            if e >= b.len() {
                ms
            } else if b[e] == 59 {
                ms + spec_decode_from(b, e + 1, (line + 1) as usize, 0, t2)
            } else {
                ms + spec_decode_from(b, e + 1, line, gc2, t2)
            }
        }
    }
}

/// The mappings of a `mappings` field.
pub open spec fn spec_decode_mappings(b: Seq<u8>) -> Seq<Mapping> {
    spec_decode_from(b, 0, 1, 0, (0, 0, 0, 0))
}

/// Where a segment ends.
pub proof fn lemma_segment_end(b: Seq<u8>, i: int)
    requires
        0 <= i <= b.len(),
    ensures
        i <= spec_segment_end(b, i) <= b.len(),
        spec_segment_end(b, i) < b.len() ==> (b[spec_segment_end(b, i)] == 44 || b[spec_segment_end(b, i)] == 59),
        forall|k: int| i <= k < spec_segment_end(b, i) ==> b[k] != 44 && b[k] != 59,
    decreases b.len() - i,
{
    if !(i >= b.len() || b[i] == 44 || b[i] == 59) {
        lemma_segment_end(b, i + 1);
    }
}

/// Where a line of segments ends.
pub proof fn lemma_line_end(b: Seq<u8>, i: int)
    requires
        0 <= i <= b.len(),
    ensures
        i <= spec_line_end(b, i) <= b.len(),
        spec_line_end(b, i) < b.len() ==> b[spec_line_end(b, i)] == 59,
    decreases b.len() - i,
{
    if !(i >= b.len() || b[i] == 59) {
        lemma_line_end(b, i + 1);
    }
}

fn segment_end(b: &[u8], i: usize) -> (e: usize)
    requires
        i <= b@.len(),
    ensures
        e as int == spec_segment_end(b@, i as int),
{
    let mut e = i;
    while e < b.len() && b[e] != 44 && b[e] != 59
        invariant
            i <= e <= b@.len(),
            spec_segment_end(b@, e as int) == spec_segment_end(b@, i as int),
        decreases b.len() - e,
    {
        e = e + 1;
    }
    e
}

fn line_end(b: &[u8], i: usize) -> (e: usize)
    requires
        i <= b@.len(),
    ensures
        e as int == spec_line_end(b@, i as int),
{
    let mut e = i;
    while e < b.len() && b[e] != 59
        invariant
            i <= e <= b@.len(),
            spec_line_end(b@, e as int) == spec_line_end(b@, i as int),
        decreases b.len() - e,
    {
        e = e + 1;
    }
    e
}

fn clamp(x: i64) -> (r: usize)
    ensures
        r == spec_clamp(x),
{
    (if x > 0 { x } else { 0 }) as usize
}

fn decode_tail(seg: &[u8], off: usize, m: Mapping, t: Totals) -> (r: (Mapping, Totals))
    requires
        off <= seg@.len(),
    ensures
        r == spec_decode_tail(seg@, off as int, m, t),
{
    let len = seg.len();
    let (s0, s1, s2, s3) = t;
    proof {
        assert(seg@.skip(off as int) =~= seg@.subrange(off as int, len as int));
    }
    match crate::vlq::decode_vlq(vstd::slice::slice_subrange(seg, off, len)) {
        None => (m, t),
        Some((s, r1)) => {
            proof { lemma_decode_vlq_len(seg@.skip(off as int)); }
            let src = s0.wrapping_add(s);
            let m1 = Mapping { source: Some(clamp(src)), ..m };
            let o2 = off + r1;
            proof {
                assert(seg@.skip(o2 as int) =~= seg@.subrange(o2 as int, len as int));
            }
            match crate::vlq::decode_vlq(vstd::slice::slice_subrange(seg, o2, len)) {
                None => (m1, (src, s1, s2, s3)),
                Some((l, r2)) => {
                    proof { lemma_decode_vlq_len(seg@.skip(o2 as int)); }
                    let line = s1.wrapping_add(l);
                    let base = if line > 0 { line } else { 0i64 };
                    let m2 = Mapping { original_line: Some(base.wrapping_add(1) as usize), ..m1 };
                    let o3 = o2 + r2;
                    proof {
                        assert(seg@.skip(o3 as int) =~= seg@.subrange(o3 as int, len as int));
                    }
                    match crate::vlq::decode_vlq(vstd::slice::slice_subrange(seg, o3, len)) {
                        None => (m2, (src, line, s2, s3)),
                        Some((c, r3)) => {
                            proof { lemma_decode_vlq_len(seg@.skip(o3 as int)); }
                            let col = s2.wrapping_add(c);
                            let m3 = Mapping { original_column: Some(clamp(col)), ..m2 };
                            let o4 = o3 + r3;
                            if o4 < len {
                                proof {
                                    assert(seg@.skip(o4 as int) =~= seg@.subrange(o4 as int, len as int));
                                }
                                match crate::vlq::decode_vlq(vstd::slice::slice_subrange(seg, o4, len)) {
                                    None => (m3, (src, line, col, s3)),
                                    Some((n, _)) => {
                                        let name = s3.wrapping_add(n);
                                        (Mapping { name: Some(clamp(name)), ..m3 }, (src, line, col, name))
                                    },
                                }
                            } else {
                                (m3, (src, line, col, s3))
                            }
                        },
                    }
                },
            }
        },
    }
}

/// A decoded value never reads past its input.
proof fn lemma_decode_vlq_len(bytes: Seq<u8>)
    ensures
        crate::vlq::spec_decode_vlq(bytes) matches Some((v, n)) ==> 1 <= n <= bytes.len()
            && -0x1000_0000_0000_0000 < v < 0x1000_0000_0000_0000,
{
    crate::vlq::lemma_vlq_read_len(bytes);
}

fn decode_segment(seg: &[u8], line: usize, gc: i64, t: Totals) -> (r: Option<(Mapping, i64, Totals)>)
    ensures
        r == spec_decode_segment(seg@, line, gc, t),
{
    match crate::vlq::decode_vlq(seg) {
        None => None,
        Some((v, r)) => {
            proof { lemma_decode_vlq_len(seg@); }
            let gc2 = gc.wrapping_add(v);
            let m = Mapping {
                generated_line: line,
                generated_column: clamp(gc2),
                source: None,
                original_line: None,
                original_column: None,
                name: None,
            };
            if r < seg.len() {
                let (m2, t2) = decode_tail(seg, r, m, t);
                Some((m2, gc2, t2))
            } else {
                Some((m, gc2, t))
            }
        },
    }
}

/// `spec_decode_from`, one segment at a time.
proof fn lemma_decode_from_unfold(b: Seq<u8>, i: int, line: usize, gc: i64, t: Totals)
    requires
        0 <= i <= b.len(),
    ensures
        ({
            let e = spec_segment_end(b, i);
            let seg = b.subrange(i, e);
            let d = spec_decode_segment(seg, line, gc, t);
            let g = spec_line_end(b, i);
            let r = spec_decode_from(b, i, line, gc, t);
            &&& seg.len() > 0 && d is None ==> r == (if g >= b.len() {
                Seq::empty()
            } else {
                spec_decode_from(b, g + 1, (line + 1) as usize, 0, t)
            })
            &&& seg.len() == 0 ==> r == (if e >= b.len() {
                Seq::empty()
            } else if b[e] == 59 {
                spec_decode_from(b, e + 1, (line + 1) as usize, 0, t)
            } else {
                spec_decode_from(b, e + 1, line, gc, t)
            })
            &&& seg.len() > 0 ==> (d matches Some((m, gc2, t2)) ==> r == seq![m] + (if e >= b.len() {
                Seq::empty()
            } else if b[e] == 59 {
                spec_decode_from(b, e + 1, (line + 1) as usize, 0, t2)
            } else {
                spec_decode_from(b, e + 1, line, gc2, t2)
            }))
        }),
{
    let e = spec_segment_end(b, i);
    let seg = b.subrange(i, e);
    if seg.len() == 0 {
        assert(Seq::<Mapping>::empty() + spec_decode_from(b, e + 1, (line + 1) as usize, 0, t) =~= spec_decode_from(b, e + 1, (line + 1) as usize, 0, t));
        assert(Seq::<Mapping>::empty() + spec_decode_from(b, e + 1, line, gc, t) =~= spec_decode_from(b, e + 1, line, gc, t));
    }
}

/// Decodes the `mappings` field into flat segments.
#[verifier::rlimit(40)]
pub fn decode_mappings(mappings: &str) -> (r: Vec<Mapping>)
    requires
        mappings.spec_bytes().len() < usize::MAX,
    ensures
        r@ == spec_decode_mappings(mappings.spec_bytes()),
{
    let b = mappings.as_bytes();
    let len = b.len();
    let mut result: Vec<Mapping> = Vec::new();
    let mut i: usize = 0;
    let mut line: usize = 1;
    let mut gc: i64 = 0;
    let mut t: Totals = (0, 0, 0, 0);
    assert(result@ + spec_decode_mappings(b@) =~= spec_decode_mappings(b@));
    loop
        invariant
            b@ == mappings.spec_bytes(),
            len == b@.len(),
            len < usize::MAX,
            i <= len,
            1 <= line <= i + 1,
            result@ + spec_decode_from(b@, i as int, line, gc, t) == spec_decode_mappings(b@),
        decreases len - i,
    {
        let e = segment_end(b, i);
        proof {
            lemma_segment_end(b@, i as int);
            lemma_line_end(b@, i as int);
            lemma_decode_from_unfold(b@, i as int, line, gc, t);
        }
        let ghost before = result@;
        let ghost rest = spec_decode_from(b@, i as int, line, gc, t);
        let seg = vstd::slice::slice_subrange(b, i, e);
        if e > i {
            match decode_segment(seg, line, gc, t) {
                None => {
                    let g = line_end(b, i);
                    if g >= len {
                        assert(before + rest =~= before);
                        return result;
                    }
                    i = g + 1;
                    line = line + 1;
                    gc = 0;
                    continue;
                },
                Some((m, gc2, t2)) => {
                    result.push(m);
                    gc = gc2;
                    t = t2;
                    assert(result@ =~= before + seq![m]);
                },
            }
        }
        if e >= len {
            assert(result@ =~= before + rest);
            return result;
        }
        if b[e] == 59 {
            line = line + 1;
            gc = 0;
        }
        i = e + 1;
        proof {
            assert(before + rest =~= result@ + spec_decode_from(b@, i as int, line, gc, t));
        }
    }
}


// ---------------------------------------------------------------------------
// Ordering mappings by generated position.

/// A generated position with the index of the mapping it belongs to.
pub type Keyed = (usize, usize, usize);

/// Generated position `a` is not after `(line, column)`.
pub open spec fn spec_key_le(a: Keyed, line: int, column: int) -> bool {
    a.0 < line || (a.0 == line && a.1 <= column)
}

/// Sorted by generated position.
pub open spec fn spec_keys_sorted(s: Seq<Keyed>) -> bool {
    forall|i: int, j: int| #![trigger s[i], s[j]] 0 <= i < j < s.len() ==> spec_key_le(s[i], s[j].0 as int, s[j].1 as int)
}

/// Where `k` goes in `s`: after the last entry not after it.
pub open spec fn spec_insert_pos(s: Seq<Keyed>, k: Keyed) -> int
    decreases s.len(),
{
    if s.len() == 0 {
        0
    } else if spec_key_le(s.last(), k.0 as int, k.1 as int) {
        s.len() as int
    } else {
        spec_insert_pos(s.drop_last(), k)
    }
}

/// The stable sort of `s` by generated position: each entry in turn is put
/// after the entries already placed that are not after it.
pub open spec fn spec_sort_keys(s: Seq<Keyed>) -> Seq<Keyed>
    decreases s.len(),
{
    if s.len() == 0 {
        s
    } else {
        let r = spec_sort_keys(s.drop_last());
        r.insert(spec_insert_pos(r, s.last()), s.last())
    }
}

proof fn lemma_insert_pos(s: Seq<Keyed>, k: Keyed)
    requires
        spec_keys_sorted(s),
    ensures
        0 <= spec_insert_pos(s, k) <= s.len(),
        forall|i: int| 0 <= i < spec_insert_pos(s, k) ==> spec_key_le(#[trigger] s[i], k.0 as int, k.1 as int),
        forall|i: int| spec_insert_pos(s, k) <= i < s.len() ==> !spec_key_le(#[trigger] s[i], k.0 as int, k.1 as int),
    decreases s.len(),
{
    if s.len() > 0 {
        if spec_key_le(s.last(), k.0 as int, k.1 as int) {
            assert forall|i: int| 0 <= i < s.len() implies spec_key_le(#[trigger] s[i], k.0 as int, k.1 as int) by {
                if i < s.len() - 1 {
                    assert(spec_key_le(s[i], s[s.len() - 1].0 as int, s[s.len() - 1].1 as int));
                }
            }
        } else {
            let d = s.drop_last();
            assert(spec_keys_sorted(d)) by {
                assert forall|i: int, j: int| #![trigger d[i], d[j]] 0 <= i < j < d.len() implies spec_key_le(d[i], d[j].0 as int, d[j].1 as int) by {
                    assert(d[i] == s[i] && d[j] == s[j]);
                }
            }
            lemma_insert_pos(d, k);
            assert forall|i: int| 0 <= i < spec_insert_pos(s, k) implies spec_key_le(#[trigger] s[i], k.0 as int, k.1 as int) by {
                assert(s[i] == d[i]);
            }
            assert forall|i: int| spec_insert_pos(s, k) <= i < s.len() implies !spec_key_le(#[trigger] s[i], k.0 as int, k.1 as int) by {
                if i < s.len() - 1 {
                    assert(s[i] == d[i]);
                }
            }
        }
    }
}

/// The stable sort is sorted, and holds the same entries.
pub proof fn lemma_sort_keys(s: Seq<Keyed>)
    ensures
        spec_keys_sorted(spec_sort_keys(s)),
        spec_sort_keys(s).to_multiset() == s.to_multiset(),
        spec_sort_keys(s).len() == s.len(),
    decreases s.len(),
{
    if s.len() > 0 {
        let r = spec_sort_keys(s.drop_last());
        lemma_sort_keys(s.drop_last());
        let k = s.last();
        let p = spec_insert_pos(r, k);
        lemma_insert_pos(r, k);
        let t = r.insert(p, k);
        assert forall|i: int, j: int| #![trigger t[i], t[j]] 0 <= i < j < t.len() implies spec_key_le(t[i], t[j].0 as int, t[j].1 as int) by {
            if j < p {
                assert(spec_key_le(r[i], r[j].0 as int, r[j].1 as int));
            } else if j == p {
                assert(t[i] == r[i]);
            } else if i < p {
                assert(t[j] == r[j - 1]);
                assert(spec_key_le(r[i], k.0 as int, k.1 as int));
                assert(!spec_key_le(r[j - 1], k.0 as int, k.1 as int));
            } else if i == p {
                assert(t[j] == r[j - 1]);
                assert(!spec_key_le(r[j - 1], k.0 as int, k.1 as int));
            } else {
                assert(spec_key_le(r[i - 1], r[j - 1].0 as int, r[j - 1].1 as int));
            }
        }
        vstd::seq_lib::to_multiset_insert(r, p, k);
        vstd::seq_lib::to_multiset_build(s.drop_last(), k);
        assert(s =~= s.drop_last().push(k));
    }
}

/// Sorts positions stably, by insertion from the back, which takes linear
/// time on input that is already in order.
pub fn sort_keys(keys: &Vec<Keyed>) -> (r: Vec<Keyed>)
    ensures
        r@ == spec_sort_keys(keys@),
{
    let mut sorted: Vec<Keyed> = Vec::new();
    let mut i: usize = 0;
    while i < keys.len()
        invariant
            i <= keys@.len(),
            sorted@ == spec_sort_keys(keys@.take(i as int)),
        decreases keys.len() - i,
    {
        let k = keys[i];
        let mut p = sorted.len();
        assert(sorted@.take(p as int) =~= sorted@);
        while p > 0 && !(sorted[p - 1].0 < k.0 || (sorted[p - 1].0 == k.0 && sorted[p - 1].1 <= k.1))
            invariant
                p <= sorted@.len(),
                spec_insert_pos(sorted@, k) == spec_insert_pos(sorted@.take(p as int), k),
            decreases p,
        {
            assert(sorted@.take(p as int).drop_last() =~= sorted@.take(p - 1));
            p = p - 1;
        }
        assert(spec_insert_pos(sorted@.take(p as int), k) == p as int);
        assert(keys@.take(i + 1).drop_last() =~= keys@.take(i as int));
        sorted.insert(p, k);
        i = i + 1;
    }
    assert(keys@.take(keys@.len() as int) =~= keys@);
    sorted
}

/// The generated positions of decoded mappings, each with its index.
pub open spec fn spec_mapping_keys(ms: Seq<Mapping>) -> Seq<Keyed> {
    Seq::new(ms.len(), |i: int| (ms[i].generated_line, ms[i].generated_column, i as usize))
}

/// Decoded mappings in generated order, ties kept in decoding order.
pub open spec fn spec_sort_mappings(ms: Seq<Mapping>) -> Seq<Mapping> {
    spec_sort_keys(spec_mapping_keys(ms)).map_values(|k: Keyed| ms[k.2 as int])
}

fn sort_mappings(ms: Vec<Mapping>) -> (r: Vec<Mapping>)
    ensures
        r@ == spec_sort_mappings(ms@),
{
    let mut keys: Vec<Keyed> = Vec::new();
    let mut i: usize = 0;
    while i < ms.len()
        invariant
            i <= ms@.len(),
            keys@ =~= spec_mapping_keys(ms@).take(i as int),
        decreases ms.len() - i,
    {
        keys.push((ms[i].generated_line, ms[i].generated_column, i));
        i = i + 1;
    }
    assert(spec_mapping_keys(ms@).take(ms@.len() as int) =~= spec_mapping_keys(ms@));
    let sorted = sort_keys(&keys);
    proof {
        lemma_sort_keys(keys@);
        assert forall|j: int| 0 <= j < sorted@.len() implies (#[trigger] sorted@[j]).2 < ms@.len() by {
            vstd::seq_lib::to_multiset_contains(sorted@, sorted@[j]);
            vstd::seq_lib::to_multiset_contains(keys@, sorted@[j]);
            assert(sorted@.contains(sorted@[j]));
            let w = choose|w: int| 0 <= w < keys@.len() && keys@[w] == sorted@[j];
            assert(keys@[w].2 == w);
        }
    }
    let mut out: Vec<Mapping> = Vec::new();
    let mut j: usize = 0;
    while j < sorted.len()
        invariant
            j <= sorted@.len(),
            forall|k: int| 0 <= k < sorted@.len() ==> (#[trigger] sorted@[k]).2 < ms@.len(),
            out@ =~= sorted@.take(j as int).map_values(|k: Keyed| ms@[k.2 as int]),
        decreases sorted.len() - j,
    {
        out.push(ms[sorted[j].2]);
        j = j + 1;
    }
    assert(sorted@.take(sorted@.len() as int) =~= sorted@);
    out
}


/// Whether two character sequences are equal.
pub fn chars_eq(a: &Vec<char>, b: &Vec<char>) -> (r: bool)
    ensures
        r == (a@ == b@),
{
    if a.len() != b.len() {
        return false;
    }
    let mut i: usize = 0;
    while i < a.len()
        invariant
            i <= a@.len(),
            a@.len() == b@.len(),
            forall|k: int| 0 <= k < i ==> a@[k] == b@[k],
        decreases a.len() - i,
    {
        if a[i] != b[i] {
            return false;
        }
        i = i + 1;
    }
    assert(a@ =~= b@);
    true
}

/// The raw JSON shape of a v3 source map.
#[derive(Clone, Debug)]
pub struct RawSourceMap {
    /// Always 3 for maps this crate writes.
    pub version: Option<u32>,
    /// The original files, as URLs or paths.
    pub sources: Vec<String>,
    /// Identifier names, unused by CSS maps.
    pub names: Vec<String>,
    /// The base64 VLQ encoded mappings.
    pub mappings: String,
    /// The generated file this map describes.
    pub file: Option<String>,
    /// Prefix prepended to every entry of `sources`.
    pub source_root: Option<String>,
    /// The text of each source, when embedded.
    pub sources_content: Option<Vec<Option<String>>>,
}

/// A resolved original position.
#[derive(Clone, Debug)]
pub struct OriginalPosition {
    /// The original file.
    pub source: Option<String>,
    /// 1-based line in the original file.
    pub line: Option<usize>,
    /// 0-based column in the original file.
    pub column: Option<usize>,
    /// Identifier name, if the map records one.
    pub name: Option<String>,
}

/// Generated position of `a` is not after that of `b`.
pub open spec fn spec_mapping_le(a: Mapping, b: Mapping) -> bool {
    a.generated_line < b.generated_line || (a.generated_line == b.generated_line && a.generated_column <= b.generated_column)
}

/// Mappings in generated order.
pub open spec fn spec_mappings_sorted(ms: Seq<Mapping>) -> bool {
    forall|i: int, j: int| #![trigger ms[i], ms[j]] 0 <= i < j < ms.len() ==> spec_mapping_le(ms[i], ms[j])
}

/// How many mappings lie at or before `(line, column)`, counted from the
/// back; in sorted mappings they are exactly the first ones.
pub open spec fn spec_count_at_or_before(ms: Seq<Mapping>, line: int, column: int) -> int
    decreases ms.len(),
{
    if ms.len() == 0 {
        0
    } else if ms.last().generated_line < line || (ms.last().generated_line == line && ms.last().generated_column <= column) {
        ms.len() as int
    } else {
        spec_count_at_or_before(ms.drop_last(), line, column)
    }
}

/// The views of optional strings.
pub open spec fn spec_opt_views(v: Seq<Option<String>>) -> Seq<Option<Seq<char>>> {
    v.map_values(|o: Option<String>| crate::error::opt_view(o))
}

/// An optional string slice as a view.
pub open spec fn spec_opt_str(o: Option<&str>) -> Option<Seq<char>> {
    match o {
        Some(s) => Some(s@),
        None => None,
    }
}

proof fn lemma_sorted_mappings(ms: Seq<Mapping>)
    requires
        ms.len() <= usize::MAX,
    ensures
        spec_mappings_sorted(spec_sort_mappings(ms)),
        spec_sort_mappings(ms).len() == ms.len(),
{
    let keys = spec_mapping_keys(ms);
    let sorted = spec_sort_keys(keys);
    lemma_sort_keys(keys);
    let out = spec_sort_mappings(ms);
    assert forall|j: int| 0 <= j < sorted.len() implies ms[(#[trigger] sorted[j]).2 as int].generated_line == sorted[j].0
        && ms[sorted[j].2 as int].generated_column == sorted[j].1 && sorted[j].2 < ms.len() by {
        vstd::seq_lib::to_multiset_contains(sorted, sorted[j]);
        vstd::seq_lib::to_multiset_contains(keys, sorted[j]);
        assert(sorted.contains(sorted[j]));
        let w = choose|w: int| 0 <= w < keys.len() && keys[w] == sorted[j];
        assert(keys[w].2 == w);
    }
    assert forall|i: int, j: int| #![trigger out[i], out[j]] 0 <= i < j < out.len() implies spec_mapping_le(out[i], out[j]) by {
        assert(out[i] == ms[sorted[i].2 as int]);
        assert(out[j] == ms[sorted[j].2 as int]);
        assert(spec_key_le(sorted[i], sorted[j].0 as int, sorted[j].1 as int));
    }
}

proof fn lemma_count_bounds(ms: Seq<Mapping>, line: int, column: int)
    ensures
        0 <= spec_count_at_or_before(ms, line, column) <= ms.len(),
    decreases ms.len(),
{
    if ms.len() > 0 {
        lemma_count_bounds(ms.drop_last(), line, column);
    }
}

proof fn lemma_count_at_or_before(ms: Seq<Mapping>, line: int, column: int, p: int)
    requires
        spec_mappings_sorted(ms),
        0 <= p <= ms.len(),
        forall|i: int| 0 <= i < p ==> (#[trigger] ms[i]).generated_line < line || (ms[i].generated_line == line && ms[i].generated_column <= column),
        forall|i: int| p <= i < ms.len() ==> !((#[trigger] ms[i]).generated_line < line || (ms[i].generated_line == line && ms[i].generated_column <= column)),
    ensures
        spec_count_at_or_before(ms, line, column) == p,
    decreases ms.len(),
{
    if ms.len() > 0 && p < ms.len() {
        let d = ms.drop_last();
        assert(spec_mappings_sorted(d)) by {
            assert forall|i: int, j: int| #![trigger d[i], d[j]] 0 <= i < j < d.len() implies spec_mapping_le(d[i], d[j]) by {
                assert(d[i] == ms[i] && d[j] == ms[j]);
            }
        }
        assert forall|i: int| 0 <= i < p implies (#[trigger] d[i]).generated_line < line || (d[i].generated_line == line && d[i].generated_column <= column) by {
            assert(d[i] == ms[i]);
        }
        assert forall|i: int| p <= i < d.len() implies !((#[trigger] d[i]).generated_line < line || (d[i].generated_line == line && d[i].generated_column <= column)) by {
            assert(d[i] == ms[i]);
        }
        assert(ms.last() == ms[ms.len() - 1]);
        lemma_count_at_or_before(d, line, column, p);
    } else if ms.len() > 0 {
        assert(ms.last() == ms[ms.len() - 1]);
    }
}

/// Reads positions out of an existing source map.
#[derive(Clone, Debug)]
pub struct SourceMapConsumer {
    /// The generated file the map describes.
    pub file: Option<String>,
    /// Prefix prepended to every source.
    pub source_root: Option<String>,
    /// Sources as written in the map, before `sourceRoot` is applied.
    pub raw_sources: Vec<String>,
    /// Identifier names.
    pub names: Vec<String>,
    /// The text of each source, when embedded.
    pub sources_content: Option<Vec<Option<String>>>,
    mappings: Vec<Mapping>,
}

impl SourceMapConsumer {
    /// The decoded mappings, in generated order.
    pub closed spec fn spec_mappings(&self) -> Seq<Mapping> {
        self.mappings@
    }

    /// The mappings are in generated order.
    pub closed spec fn wf(&self) -> bool {
        spec_mappings_sorted(self.mappings@)
    }

    /// Every original column leaves room for one more.
    pub closed spec fn columns_fit(&self) -> bool {
        forall|k: int| 0 <= k < self.mappings@.len() ==> spec_column_small(#[trigger] self.mappings@[k])
    }

    /// A copy of this map that embeds no source contents.
    pub fn without_contents(&self) -> (r: SourceMapConsumer)
        requires
            self.wf(),
        ensures
            r.wf(),
            r.spec_mappings() == self.spec_mappings(),
            r.spec_file() == self.spec_file(),
            r.spec_root() == self.spec_root(),
            r.spec_raw_sources() == self.spec_raw_sources(),
            r.spec_names() == self.spec_names(),
            r.spec_contents() is None,
    {
        let mut mappings: Vec<Mapping> = Vec::new();
        let mut i: usize = 0;
        while i < self.mappings.len()
            invariant
                i <= self.mappings@.len(),
                mappings@ == self.mappings@.take(i as int),
            decreases self.mappings@.len() - i,
        {
            let m = &self.mappings[i];
            mappings.push(Mapping {
                generated_line: m.generated_line,
                generated_column: m.generated_column,
                source: m.source,
                original_line: m.original_line,
                original_column: m.original_column,
                name: m.name,
            });
            proof {
                assert(mappings@ =~= self.mappings@.take(i + 1));
            }
            i = i + 1;
        }
        proof {
            assert(mappings@ =~= self.mappings@);
        }
        SourceMapConsumer {
            file: crate::input::clone_opt_string(&self.file),
            source_root: crate::input::clone_opt_string(&self.source_root),
            raw_sources: clone_strings(&self.raw_sources),
            names: clone_strings(&self.names),
            sources_content: None,
            mappings,
        }
    }

    /// Whether every original column leaves room for one more.
    pub fn check_columns_fit(&self) -> (r: bool)
        ensures
            r == self.columns_fit(),
    {
        let mut i: usize = 0;
        while i < self.mappings.len()
            invariant
                i <= self.mappings@.len(),
                forall|k: int| 0 <= k < i ==> spec_column_small(#[trigger] self.mappings@[k]),
            decreases self.mappings.len() - i,
        {
            match self.mappings[i].original_column {
                Some(c) => {
                    if c == usize::MAX {
                        return false;
                    }
                },
                None => {},
            }
            i = i + 1;
        }
        true
    }

    /// A column looked up leaves room for one more.
    pub proof fn lemma_lookup_small(&self, line: usize, column: usize)
        requires
            self.columns_fit(),
        ensures
            self.spec_lookup(line, column) matches Some(m) ==> spec_column_small(m),
    {
        let ms = self.mappings@;
        let p = spec_count_at_or_before(ms, line as int, column as int);
        lemma_count_bounds(ms, line as int, column as int);
        if p > 0 {
            assert(spec_column_small(ms[p - 1]));
        }
    }

    /// The generated file as a view.
    pub closed spec fn spec_file(&self) -> Option<Seq<char>> {
        crate::error::opt_view(self.file)
    }

    /// The source root as a view.
    pub closed spec fn spec_root(&self) -> Option<Seq<char>> {
        crate::error::opt_view(self.source_root)
    }

    /// The raw sources as views.
    pub closed spec fn spec_raw_sources(&self) -> Seq<Seq<char>> {
        crate::list::spec_views(self.raw_sources@)
    }

    /// The names as views.
    pub closed spec fn spec_names(&self) -> Seq<Seq<char>> {
        crate::list::spec_views(self.names@)
    }

    /// The embedded sources as views.
    pub closed spec fn spec_contents(&self) -> Option<Seq<Option<Seq<char>>>> {
        match self.sources_content {
            Some(c) => Some(spec_opt_views(c@)),
            None => None,
        }
    }

    /// The source at an index, with the source root applied.
    pub open spec fn spec_source_at(&self, index: Option<usize>) -> Option<Seq<char>> {
        match index {
            Some(i) => if i < self.spec_raw_sources().len() {
                Some(spec_compute_source_url(self.spec_root(), self.spec_raw_sources()[i as int]))
            } else {
                None
            },
            None => None,
        }
    }

    /// The name at an index.
    pub open spec fn spec_name_at(&self, index: Option<usize>) -> Option<Seq<char>> {
        match index {
            Some(i) => if i < self.spec_names().len() {
                Some(self.spec_names()[i as int])
            } else {
                None
            },
            None => None,
        }
    }

    /// The mapping that covers a generated position: the last one at or
    /// before it, when that one lies on the same line.
    pub open spec fn spec_lookup(&self, line: usize, column: usize) -> Option<Mapping> {
        let ms = self.spec_mappings();
        let p = spec_count_at_or_before(ms, line as int, column as int);
        if p == 0 || ms[p - 1].generated_line != line {
            None
        } else {
            Some(ms[p - 1])
        }
    }

    /// Builds a consumer from an already parsed map.
    pub fn from_raw(raw: RawSourceMap) -> (c: Self)
        requires
            vstd::utf8::encode_utf8(raw.mappings@).len() < usize::MAX,
        ensures
            c.wf(),
            c.spec_file() == crate::error::opt_view(raw.file),
            c.spec_root() == crate::error::opt_view(raw.source_root),
            c.spec_raw_sources() == crate::list::spec_views(raw.sources@),
            c.spec_names() == crate::list::spec_views(raw.names@),
            c.spec_contents() == match raw.sources_content {
                Some(v) => Some(spec_opt_views(v@)),
                None => None,
            },
            c.spec_mappings() == spec_sort_mappings(spec_decode_mappings(vstd::utf8::encode_utf8(raw.mappings@))),
    {
        let decoded = decode_mappings(raw.mappings.as_str());
        let count = decoded.len();
        proof {
            lemma_sorted_mappings(decoded@);
        }
        let mappings = sort_mappings(decoded);
        SourceMapConsumer {
            file: raw.file,
            source_root: raw.source_root,
            raw_sources: raw.sources,
            names: raw.names,
            sources_content: raw.sources_content,
            mappings,
        }
    }

    /// Sources with `sourceRoot` applied, as `consumer.sources` returns them.
    pub fn sources(&self) -> (r: Vec<String>)
        ensures
            crate::list::spec_views(r@) == self.spec_raw_sources().map_values(|s: Seq<char>| spec_compute_source_url(self.spec_root(), s)),
    {
        let mut out: Vec<String> = Vec::new();
        let root = match &self.source_root {
            Some(r) => Some(r.as_str()),
            None => None,
        };
        let mut i: usize = 0;
        while i < self.raw_sources.len()
            invariant
                i <= self.raw_sources@.len(),
                out@.len() == i,
                spec_opt_str(root) == self.spec_root(),
                forall|k: int| 0 <= k < i ==> (#[trigger] out@[k])@ == spec_compute_source_url(self.spec_root(), self.raw_sources@[k]@),
            decreases self.raw_sources.len() - i,
        {
            out.push(compute_source_url(root, self.raw_sources[i].as_str()));
            i = i + 1;
        }
        assert(crate::list::spec_views(out@) =~= self.spec_raw_sources().map_values(|s: Seq<char>| spec_compute_source_url(self.spec_root(), s)));
        out
    }

    /// All decoded mappings, ordered by generated position.
    pub fn mappings(&self) -> (r: &[Mapping])
        ensures
            r@ == self.spec_mappings(),
    {
        self.mappings.as_slice()
    }

    fn source_at(&self, index: Option<usize>) -> (r: Option<String>)
        ensures
            crate::error::opt_view(r) == self.spec_source_at(index),
    {
        match index {
            Some(i) => if i < self.raw_sources.len() {
                let root = match &self.source_root {
                    Some(r) => Some(r.as_str()),
                    None => None,
                };
                Some(compute_source_url(root, self.raw_sources[i].as_str()))
            } else {
                None
            },
            None => None,
        }
    }

    fn name_at(&self, index: Option<usize>) -> (r: Option<String>)
        ensures
            crate::error::opt_view(r) == self.spec_name_at(index),
    {
        match index {
            Some(i) => if i < self.names.len() {
                Some(self.names[i].clone())
            } else {
                None
            },
            None => None,
        }
    }

    /// Original position for a generated position (1-based line, 0-based
    /// column), using a greatest-lower-bound search within the same line.
    pub fn original_position_for(&self, line: usize, column: usize) -> (r: OriginalPosition)
        requires
            self.wf(),
        ensures
            match self.spec_lookup(line, column) {
                None => r.source is None && r.line is None && r.column is None && r.name is None,
                Some(m) => {
                    &&& crate::error::opt_view(r.source) == self.spec_source_at(m.source)
                    &&& r.line == m.original_line
                    &&& r.column == m.original_column
                    &&& crate::error::opt_view(r.name) == self.spec_name_at(m.name)
                },
            },
    {
        let ghost ms = self.mappings@;
        let mut lo: usize = 0;
        let mut hi: usize = self.mappings.len();
        while lo < hi
            invariant
                ms == self.mappings@,
                spec_mappings_sorted(ms),
                lo <= hi <= ms.len(),
                forall|i: int| 0 <= i < lo ==> (#[trigger] ms[i]).generated_line < line || (ms[i].generated_line == line && ms[i].generated_column <= column),
                forall|i: int| hi <= i < ms.len() ==> !((#[trigger] ms[i]).generated_line < line || (ms[i].generated_line == line && ms[i].generated_column <= column)),
            decreases hi - lo,
        {
            let mid = lo + (hi - lo) / 2;
            let m = self.mappings[mid];
            if m.generated_line < line || (m.generated_line == line && m.generated_column <= column) {
                proof {
                    assert forall|i: int| 0 <= i <= mid implies (#[trigger] ms[i]).generated_line < line || (ms[i].generated_line == line && ms[i].generated_column <= column) by {
                        if i < mid {
                            assert(spec_mapping_le(ms[i], ms[mid as int]));
                        }
                    }
                }
                lo = mid + 1;
            } else {
                proof {
                    assert forall|i: int| mid <= i < ms.len() implies !((#[trigger] ms[i]).generated_line < line || (ms[i].generated_line == line && ms[i].generated_column <= column)) by {
                        if i > mid {
                            assert(spec_mapping_le(ms[mid as int], ms[i]));
                        }
                    }
                }
                hi = mid;
            }
        }
        proof {
            lemma_count_at_or_before(ms, line as int, column as int, lo as int);
        }
        if lo == 0 {
            return OriginalPosition { source: None, line: None, column: None, name: None };
        }
        let mapping = self.mappings[lo - 1];
        if mapping.generated_line != line {
            return OriginalPosition { source: None, line: None, column: None, name: None };
        }
        OriginalPosition {
            source: self.source_at(mapping.source),
            line: mapping.original_line,
            column: mapping.original_column,
            name: self.name_at(mapping.name),
        }
    }

    /// Whether a raw source names `source`: as written, below the source
    /// root, or with the root applied.
    pub open spec fn spec_names_source(&self, i: int, source: Seq<char>) -> bool {
        let raw = self.spec_raw_sources()[i];
        let relative = match self.spec_root() {
            Some(root) => spec_strip_prefix_path(source, root),
            None => None,
        };
        ||| raw == source
        ||| relative == Some(raw)
        ||| spec_compute_source_url(self.spec_root(), raw) == source
    }

    /// The first raw source at or after `i` that names `source`.
    pub open spec fn spec_source_index(&self, source: Seq<char>, i: int) -> Option<int>
        decreases self.spec_raw_sources().len() - i,
    {
        if i < 0 || i >= self.spec_raw_sources().len() {
            None
        } else if self.spec_names_source(i, source) {
            Some(i)
        } else {
            self.spec_source_index(source, i + 1)
        }
    }

    /// The embedded text of the first source that names `source`.
    pub open spec fn spec_source_content(&self, source: Seq<char>) -> Option<Seq<char>> {
        match self.spec_contents() {
            None => None,
            Some(contents) => match self.spec_source_index(source, 0) {
                None => None,
                Some(i) => if i < contents.len() {
                    contents[i]
                } else {
                    None
                },
            },
        }
    }

    /// Content of an original source, if the map embeds it.
    ///
    /// Accepts the source with or without `sourceRoot` applied.
    pub fn source_content_for(&self, source: &str) -> (r: Option<&str>)
        ensures
            spec_opt_str(r) == self.spec_source_content(source@),
    {
        let contents = match &self.sources_content {
            Some(c) => c,
            None => {
                return None;
            },
        };
        let source_chars = chars_of(source);
        let relative = match &self.source_root {
            Some(root) => {
                let root_chars = chars_of(root.as_str());
                strip_prefix_path(&source_chars, &root_chars)
            },
            None => None,
        };
        let root = match &self.source_root {
            Some(r) => Some(r.as_str()),
            None => None,
        };
        let mut index: usize = 0;
        while index < self.raw_sources.len()
            invariant
                index <= self.raw_sources@.len(),
                source_chars@ == source@,
                self.sources_content == Some(*contents),
                spec_opt_str(root) == self.spec_root(),
                match relative {
                    Some(v) => Some(v@),
                    None => None,
                } == match self.spec_root() {
                    Some(root) => spec_strip_prefix_path(source@, root),
                    None => None,
                },
                self.spec_source_index(source@, index as int) == self.spec_source_index(source@, 0),
            decreases self.raw_sources.len() - index,
        {
            let raw = chars_of(self.raw_sources[index].as_str());
            let by_relative = match &relative {
                Some(rel) => chars_eq(&raw, rel),
                None => false,
            };
            let computed = compute_source_url(root, self.raw_sources[index].as_str());
            let computed_chars = chars_of(computed.as_str());
            if chars_eq(&raw, &source_chars) || by_relative || chars_eq(&computed_chars, &source_chars) {
                if index < contents.len() {
                    return match &contents[index] {
                        Some(c) => Some(c.as_str()),
                        None => None,
                    };
                }
                return None;
            }
            index = index + 1;
        }
        None
    }

    /// The source root.
    pub fn source_root_str(&self) -> (r: Option<&str>)
        ensures
            spec_opt_str(r) == self.spec_root(),
    {
        match &self.source_root {
            Some(r) => Some(r.as_str()),
            None => None,
        }
    }

    /// The generated file.
    pub fn file_str(&self) -> (r: Option<&str>)
        ensures
            spec_opt_str(r) == self.spec_file(),
    {
        match &self.file {
            Some(f) => Some(f.as_str()),
            None => None,
        }
    }

    /// True when the map carries at least one embedded source.
    pub fn has_contents(&self) -> (r: bool)
        ensures
            r == (self.spec_contents() matches Some(c) && c.len() > 0),
    {
        match &self.sources_content {
            Some(contents) => contents.len() > 0,
            None => false,
        }
    }
}


// ---------------------------------------------------------------------------
// Embedded source contents: an association list with distinct keys.

/// The map an association list stands for.
pub open spec fn spec_assoc_map(v: Seq<(String, String)>) -> Map<Seq<char>, Seq<char>>
    decreases v.len(),
{
    if v.len() == 0 {
        Map::empty()
    } else {
        spec_assoc_map(v.drop_last()).insert(v.last().0@, v.last().1@)
    }
}

/// No key occurs twice.
pub open spec fn spec_assoc_unique(v: Seq<(String, String)>) -> bool {
    forall|i: int, j: int| #![trigger v[i], v[j]] 0 <= i < j < v.len() ==> v[i].0@ != v[j].0@
}

proof fn lemma_assoc_map(v: Seq<(String, String)>)
    requires
        spec_assoc_unique(v),
    ensures
        forall|k: Seq<char>| #[trigger] spec_assoc_map(v).contains_key(k) <==> exists|i: int| 0 <= i < v.len() && (#[trigger] v[i]).0@ == k,
        forall|i: int| 0 <= i < v.len() ==> spec_assoc_map(v)[(#[trigger] v[i]).0@] == v[i].1@,
    decreases v.len(),
{
    if v.len() > 0 {
        let d = v.drop_last();
        assert(spec_assoc_unique(d)) by {
            assert forall|i: int, j: int| #![trigger d[i], d[j]] 0 <= i < j < d.len() implies d[i].0@ != d[j].0@ by {
                assert(d[i] == v[i] && d[j] == v[j]);
            }
        }
        lemma_assoc_map(d);
        assert(spec_assoc_map(v) == spec_assoc_map(d).insert(v.last().0@, v.last().1@));
        assert forall|k: Seq<char>| #[trigger] spec_assoc_map(v).contains_key(k) <==> exists|i: int| 0 <= i < v.len() && (#[trigger] v[i]).0@ == k by {
            if spec_assoc_map(v).contains_key(k) {
                if k != v.last().0@ {
                    assert(spec_assoc_map(d).contains_key(k));
                    let i = choose|i: int| 0 <= i < d.len() && (#[trigger] d[i]).0@ == k;
                    assert(v[i] == d[i]);
                } else {
                    assert(v[v.len() - 1].0@ == k);
                }
            }
            if exists|i: int| 0 <= i < v.len() && (#[trigger] v[i]).0@ == k {
                let i = choose|i: int| 0 <= i < v.len() && (#[trigger] v[i]).0@ == k;
                if i < v.len() - 1 {
                    assert(d[i] == v[i]);
                    assert(spec_assoc_map(d).contains_key(k));
                }
            }
        }
        assert forall|i: int| 0 <= i < v.len() implies spec_assoc_map(v)[(#[trigger] v[i]).0@] == v[i].1@ by {
            if i < v.len() - 1 {
                assert(d[i] == v[i]);
                assert(v[i].0@ != v[v.len() - 1].0@);
            }
        }
    }
}

/// Index of the entry with key `key`.
fn assoc_find(v: &Vec<(String, String)>, key: &Vec<char>) -> (r: Option<usize>)
    ensures
        match r {
            Some(i) => i < v@.len() && v@[i as int].0@ == key@,
            None => forall|i: int| 0 <= i < v@.len() ==> (#[trigger] v@[i]).0@ != key@,
        },
{
    let mut i: usize = 0;
    while i < v.len()
        invariant
            i <= v@.len(),
            forall|k: int| 0 <= k < i ==> (#[trigger] v@[k]).0@ != key@,
        decreases v.len() - i,
    {
        let k = chars_of(v[i].0.as_str());
        if chars_eq(&k, key) {
            return Some(i);
        }
        i = i + 1;
    }
    None
}

/// Sets `key` to `value`.
fn assoc_insert(v: &mut Vec<(String, String)>, key: String, value: String)
    requires
        spec_assoc_unique(old(v)@),
    ensures
        spec_assoc_unique(final(v)@),
        spec_assoc_map(final(v)@) == spec_assoc_map(old(v)@).insert(key@, value@),
{
    let key_chars = chars_of(key.as_str());
    let ghost k = key@;
    let ghost c = value@;
    proof {
        lemma_assoc_map(v@);
    }
    let ghost before = v@;
    match assoc_find(v, &key_chars) {
        Some(i) => {
            v.set(i, (key, value));
            proof {
                assert(spec_assoc_unique(v@)) by {
                    assert forall|a: int, b: int| #![trigger v@[a], v@[b]] 0 <= a < b < v@.len() implies v@[a].0@ != v@[b].0@ by {
                        if a != i && b != i {
                            assert(v@[a] == before[a] && v@[b] == before[b]);
                        } else if a == i {
                            assert(v@[b] == before[b]);
                            assert(before[i as int].0@ == k);
                        } else {
                            assert(v@[a] == before[a]);
                            assert(before[i as int].0@ == k);
                        }
                    }
                }
                lemma_assoc_map(v@);
                assert forall|kk: Seq<char>| #[trigger] spec_assoc_map(v@).contains_key(kk) <==> spec_assoc_map(before).insert(k, c).contains_key(kk) by {
                    if spec_assoc_map(v@).contains_key(kk) {
                        let a = choose|a: int| 0 <= a < v@.len() && (#[trigger] v@[a]).0@ == kk;
                        if a != i {
                            assert(v@[a] == before[a]);
                        }
                    }
                    if spec_assoc_map(before).contains_key(kk) {
                        let a = choose|a: int| 0 <= a < before.len() && (#[trigger] before[a]).0@ == kk;
                        if a != i {
                            assert(v@[a] == before[a]);
                        } else {
                            assert(v@[i as int].0@ == kk);
                        }
                    }
                    if kk == k {
                        assert(v@[i as int].0@ == kk);
                    }
                }
                assert forall|kk: Seq<char>| spec_assoc_map(v@).contains_key(kk) implies #[trigger] spec_assoc_map(v@)[kk] == spec_assoc_map(before).insert(k, c)[kk] by {
                    let a = choose|a: int| 0 <= a < v@.len() && (#[trigger] v@[a]).0@ == kk;
                    if a != i {
                        assert(v@[a] == before[a]);
                    }
                }
                assert(spec_assoc_map(v@) =~= spec_assoc_map(before).insert(k, c));
            }
        },
        None => {
            v.push((key, value));
            proof {
                assert(v@.drop_last() =~= before);
                assert(spec_assoc_unique(v@)) by {
                    assert forall|a: int, b: int| #![trigger v@[a], v@[b]] 0 <= a < b < v@.len() implies v@[a].0@ != v@[b].0@ by {
                        assert(v@[a] == before[a]);
                        if b < before.len() {
                            assert(v@[b] == before[b]);
                        }
                    }
                }
            }
        },
    }
}

/// Removes `key`.
fn assoc_remove(v: &mut Vec<(String, String)>, key: &Vec<char>)
    requires
        spec_assoc_unique(old(v)@),
    ensures
        spec_assoc_unique(final(v)@),
        spec_assoc_map(final(v)@) == spec_assoc_map(old(v)@).remove(key@),
{
    proof {
        lemma_assoc_map(v@);
    }
    let ghost before = v@;
    match assoc_find(v, key) {
        Some(i) => {
            let _ = v.remove(i);
            proof {
                assert forall|a: int| 0 <= a < v@.len() implies #[trigger] v@[a] == before[if a < i { a } else { a + 1 }] by {}
                assert(spec_assoc_unique(v@)) by {
                    assert forall|a: int, b: int| #![trigger v@[a], v@[b]] 0 <= a < b < v@.len() implies v@[a].0@ != v@[b].0@ by {
                        assert(v@[a] == before[if a < i { a } else { a + 1 }]);
                        assert(v@[b] == before[if b < i { b } else { b + 1 }]);
                    }
                }
                lemma_assoc_map(v@);
                assert forall|kk: Seq<char>| #[trigger] spec_assoc_map(v@).contains_key(kk) <==> spec_assoc_map(before).remove(key@).contains_key(kk) by {
                    if spec_assoc_map(v@).contains_key(kk) {
                        let a = choose|a: int| 0 <= a < v@.len() && (#[trigger] v@[a]).0@ == kk;
                        assert(v@[a] == before[if a < i { a } else { a + 1 }]);
                    }
                    if spec_assoc_map(before).contains_key(kk) && kk != key@ {
                        let a = choose|a: int| 0 <= a < before.len() && (#[trigger] before[a]).0@ == kk;
                        assert(a != i);
                        let b = if a < i { a } else { a - 1 };
                        assert(v@[b] == before[a]);
                    }
                }
                assert forall|kk: Seq<char>| spec_assoc_map(v@).contains_key(kk) implies #[trigger] spec_assoc_map(v@)[kk] == spec_assoc_map(before).remove(key@)[kk] by {
                    let a = choose|a: int| 0 <= a < v@.len() && (#[trigger] v@[a]).0@ == kk;
                    assert(v@[a] == before[if a < i { a } else { a + 1 }]);
                }
                assert(spec_assoc_map(v@) =~= spec_assoc_map(before).remove(key@));
            }
        },
        None => {
            proof {
                assert(spec_assoc_map(before) =~= spec_assoc_map(before).remove(key@));
            }
        },
    }
}

/// The value stored for `key`.
fn assoc_get(v: &Vec<(String, String)>, key: &Vec<char>) -> (r: Option<String>)
    requires
        spec_assoc_unique(v@),
    ensures
        crate::error::opt_view(r) == (if spec_assoc_map(v@).contains_key(key@) {
            Some(spec_assoc_map(v@)[key@])
        } else {
            None
        }),
{
    proof {
        lemma_assoc_map(v@);
    }
    match assoc_find(v, key) {
        Some(i) => Some(v[i].1.clone()),
        None => None,
    }
}


// ---------------------------------------------------------------------------
// Writing maps.

/// A mapping as handed to [`SourceMapGenerator::add_mapping`].
#[derive(Clone, Debug)]
pub struct GeneratedMapping {
    /// 1-based line in the generated file.
    pub generated_line: usize,
    /// 0-based column in the generated file.
    pub generated_column: usize,
    /// 1-based line in the original file.
    pub original_line: Option<usize>,
    /// 0-based column in the original file.
    pub original_column: Option<usize>,
    /// The original file.
    pub source: Option<String>,
    /// Identifier name.
    pub name: Option<String>,
}

/// A generated mapping as plain values: generated line and column, original
/// line and column, source and name.
pub type MappingView = (usize, usize, Option<usize>, Option<usize>, Option<Seq<char>>, Option<Seq<char>>);

/// The view of a generated mapping.
pub open spec fn spec_gm(m: GeneratedMapping) -> MappingView {
    (
        m.generated_line,
        m.generated_column,
        m.original_line,
        m.original_column,
        crate::error::opt_view(m.source),
        crate::error::opt_view(m.name),
    )
}

/// The views of generated mappings.
pub open spec fn spec_gm_views(v: Seq<GeneratedMapping>) -> Seq<MappingView> {
    v.map_values(|m: GeneratedMapping| spec_gm(m))
}

/// No entry occurs twice.
pub open spec fn spec_no_dup(s: Seq<Seq<char>>) -> bool {
    forall|i: int, j: int| #![trigger s[i], s[j]] 0 <= i < j < s.len() ==> s[i] != s[j]
}

/// `list` with `o` appended, when it is a value the list lacks.
pub open spec fn spec_register(list: Seq<Seq<char>>, o: Option<Seq<char>>) -> Seq<Seq<char>> {
    match o {
        Some(x) => if list.contains(x) {
            list
        } else {
            list.push(x)
        },
        None => list,
    }
}

/// The key under which a source's content is stored: the source relative to
/// the source root, if there is one.
pub open spec fn spec_content_key(root: Option<Seq<char>>, source: Seq<char>) -> Seq<char> {
    match root {
        Some(r) => spec_relative_path(r, source),
        None => source,
    }
}

/// The first index at or after `i` holding `x`, or the length.
pub open spec fn spec_position_from(s: Seq<Seq<char>>, x: Seq<char>, i: int) -> int
    decreases s.len() - i,
{
    if i < 0 || i >= s.len() {
        s.len() as int
    } else if s[i] == x {
        i
    } else {
        spec_position_from(s, x, i + 1)
    }
}

proof fn lemma_position_from(s: Seq<Seq<char>>, x: Seq<char>, i: int)
    requires
        0 <= i <= s.len(),
    ensures
        i <= spec_position_from(s, x, i) <= s.len(),
        spec_position_from(s, x, i) < s.len() ==> s[spec_position_from(s, x, i)] == x,
        (exists|k: int| i <= k < s.len() && s[k] == x) ==> spec_position_from(s, x, i) < s.len(),
    decreases s.len() - i,
{
    if i < s.len() && s[i] != x {
        lemma_position_from(s, x, i + 1);
        if exists|k: int| i <= k < s.len() && s[k] == x {
            let k = choose|k: int| i <= k < s.len() && s[k] == x;
            assert(k != i);
        }
    }
}

/// `n` semicolons.
pub open spec fn spec_semicolons(n: int) -> Seq<char> {
    Seq::new(n as nat, |i: int| ';')
}

/// What the encoder carries from one mapping to the next: the text so far,
/// then the previous generated line and column, original line (0-based) and
/// column, source index and name index.
pub type EncState = (Seq<char>, int, int, int, int, int, int);

/// Encodes mapping `i` of `ms` (in generated order): a `;` per line
/// advanced, else a `,` after the first mapping of a line; then the deltas
/// of the generated column and, when there is a source, of its index,
/// original line and column, and of the name index. A mapping equal to the
/// one before it on the same line is skipped.
pub open spec fn spec_encode_one(
    st: EncState,
    m: MappingView,
    prev: Option<MappingView>,
    sources: Seq<Seq<char>>,
    names: Seq<Seq<char>>,
) -> EncState {
    let (out, line, col, ol, oc, src, nm) = st;
    if m.0 == line && prev == Some(m) {
        st
    } else {
        let out1 = if m.0 != line {
            out + spec_semicolons(m.0 - line)
        } else if prev is Some {
            out.push(',')
        } else {
            out
        };
        let col1 = if m.0 != line { 0 } else { col };
        let out2 = out1 + crate::vlq::spec_encode_vlq(m.1 - col1);
        match m.4 {
            None => (out2, m.0 as int, m.1 as int, ol, oc, src, nm),
            Some(s) => {
                let si = spec_position_from(sources, s, 0);
                let o_l = (match m.2 { Some(x) => x as int, None => 1 }) - 1;
                let o_c = match m.3 { Some(x) => x as int, None => 0 };
                let out3 = out2 + crate::vlq::spec_encode_vlq(si - src) + crate::vlq::spec_encode_vlq(o_l - ol)
                    + crate::vlq::spec_encode_vlq(o_c - oc);
                match m.5 {
                    None => (out3, m.0 as int, m.1 as int, o_l, o_c, si, nm),
                    Some(n) => {
                        let ni = spec_position_from(names, n, 0);
                        (out3 + crate::vlq::spec_encode_vlq(ni - nm), m.0 as int, m.1 as int, o_l, o_c, si, ni)
                    },
                }
            },
        }
    }
}

/// Encodes mapping `i` of `ms`, given the one before it.
pub open spec fn spec_encode_step(
    st: EncState,
    ms: Seq<MappingView>,
    i: int,
    sources: Seq<Seq<char>>,
    names: Seq<Seq<char>>,
) -> EncState {
    spec_encode_one(st, ms[i], if i > 0 { Some(ms[i - 1]) } else { None }, sources, names)
}

/// The encoder's state after the first `n` mappings.
pub open spec fn spec_encode_upto(ms: Seq<MappingView>, n: int, sources: Seq<Seq<char>>, names: Seq<Seq<char>>) -> EncState
    decreases n,
{
    if n <= 0 {
        (Seq::empty(), 1, 0, 0, 0, 0, 0)
    } else {
        spec_encode_step(spec_encode_upto(ms, n - 1, sources, names), ms, n - 1, sources, names)
    }
}

/// The `mappings` field for mappings in generated order.
pub open spec fn spec_encode_mappings(ms: Seq<MappingView>, sources: Seq<Seq<char>>, names: Seq<Seq<char>>) -> Seq<char> {
    spec_encode_upto(ms, ms.len() as int, sources, names).0
}

/// The generated positions of mappings, each with its index.
pub open spec fn spec_gm_keys(ms: Seq<MappingView>) -> Seq<Keyed> {
    Seq::new(ms.len(), |i: int| (ms[i].0, ms[i].1, i as usize))
}

/// Mappings in generated order, ties kept in insertion order.
pub open spec fn spec_sort_gm(ms: Seq<MappingView>) -> Seq<MappingView> {
    spec_sort_keys(spec_gm_keys(ms)).map_values(|k: Keyed| ms[k.2 as int])
}

/// Builds a source map from mappings added in generated order.
#[derive(Clone, Debug)]
pub struct SourceMapGenerator {
    /// The generated file this map will describe.
    pub file: Option<String>,
    /// Prefix prepended to every source.
    pub source_root: Option<String>,
    mappings: Vec<GeneratedMapping>,
    sources: Vec<String>,
    names: Vec<String>,
    contents: Vec<(String, String)>,
}

impl SourceMapGenerator {
    /// The generated file.
    pub closed spec fn spec_file(&self) -> Option<Seq<char>> {
        crate::error::opt_view(self.file)
    }

    /// The source root.
    pub closed spec fn spec_root(&self) -> Option<Seq<char>> {
        crate::error::opt_view(self.source_root)
    }

    /// The mappings added, in order.
    pub closed spec fn spec_mappings(&self) -> Seq<MappingView> {
        spec_gm_views(self.mappings@)
    }

    /// The sources, in order of first use.
    pub closed spec fn spec_sources(&self) -> Seq<Seq<char>> {
        crate::list::spec_views(self.sources@)
    }

    /// The names, in order of first use.
    pub closed spec fn spec_names(&self) -> Seq<Seq<char>> {
        crate::list::spec_views(self.names@)
    }

    /// The embedded contents, by key.
    pub closed spec fn spec_contents(&self) -> Map<Seq<char>, Seq<char>> {
        spec_assoc_map(self.contents@)
    }

    /// Sources and names are listed once each, and every mapping's source
    /// and name are listed.
    pub closed spec fn wf(&self) -> bool {
        &&& spec_no_dup(self.spec_sources())
        &&& spec_no_dup(self.spec_names())
        &&& spec_assoc_unique(self.contents@)
        &&& forall|i: int| 0 <= i < self.mappings@.len() ==> ((#[trigger] self.spec_mappings()[i]).4 matches Some(s) ==> self.spec_sources().contains(s))
        &&& forall|i: int| 0 <= i < self.mappings@.len() ==> ((#[trigger] self.spec_mappings()[i]).5 matches Some(n) ==> self.spec_names().contains(n))
    }

    /// Every number fits the encoder: lines start at 1, and positions and
    /// list lengths stay below 2^61.
    pub open spec fn encodable(&self) -> bool {
        &&& self.spec_sources().len() < 0x2000_0000_0000_0000
        &&& self.spec_names().len() < 0x2000_0000_0000_0000
        &&& forall|i: int| 0 <= i < self.spec_mappings().len() ==> {
            let m = #[trigger] self.spec_mappings()[i];
            &&& 1 <= m.0
            &&& m.1 < 0x2000_0000_0000_0000
            &&& (m.2 matches Some(x) ==> x < 0x2000_0000_0000_0000)
            &&& (m.3 matches Some(x) ==> x < 0x2000_0000_0000_0000)
        }
    }

    /// An empty map for `file`.
    pub fn new(file: Option<String>) -> (g: Self)
        ensures
            g.wf(),
            g.spec_file() == crate::error::opt_view(file),
            g.spec_root() is None,
            g.spec_mappings().len() == 0,
            g.spec_sources().len() == 0,
            g.spec_names().len() == 0,
            g.spec_contents() == Map::<Seq<char>, Seq<char>>::empty(),
    {
        let g = SourceMapGenerator {
            file,
            source_root: None,
            mappings: Vec::new(),
            sources: Vec::new(),
            names: Vec::new(),
            contents: Vec::new(),
        };
        assert(g.spec_contents() =~= Map::<Seq<char>, Seq<char>>::empty());
        g
    }

    /// Sets the source root.
    pub fn set_source_root(&mut self, root: Option<String>)
        requires
            old(self).wf(),
        ensures
            final(self).wf(),
            final(self).spec_root() == crate::error::opt_view(root),
            final(self).spec_file() == old(self).spec_file(),
            final(self).spec_mappings() == old(self).spec_mappings(),
            final(self).spec_sources() == old(self).spec_sources(),
            final(self).spec_names() == old(self).spec_names(),
            final(self).spec_contents() == old(self).spec_contents(),
    {
        self.source_root = root;
    }

    /// Records one mapping.
    pub fn add_mapping(&mut self, mapping: GeneratedMapping)
        requires
            old(self).wf(),
        ensures
            final(self).wf(),
            final(self).spec_file() == old(self).spec_file(),
            final(self).spec_root() == old(self).spec_root(),
            final(self).spec_mappings() == old(self).spec_mappings().push(spec_gm(mapping)),
            final(self).spec_sources() == spec_register(old(self).spec_sources(), spec_gm(mapping).4),
            final(self).spec_names() == spec_register(old(self).spec_names(), spec_gm(mapping).5),
            final(self).spec_contents() == old(self).spec_contents(),
    {
        let ghost old_sources = self.spec_sources();
        let ghost old_names = self.spec_names();
        let ghost old_mappings = self.spec_mappings();
        match &mapping.source {
            Some(source) => register(&mut self.sources, source),
            None => {},
        }
        match &mapping.name {
            Some(name) => register(&mut self.names, name),
            None => {},
        }
        let ghost gm = spec_gm(mapping);
        self.mappings.push(mapping);
        proof {
            assert(self.spec_mappings() =~= old_mappings.push(gm));
            assert forall|i: int| 0 <= i < self.mappings@.len() implies ((#[trigger] self.spec_mappings()[i]).4 matches Some(s) ==> self.spec_sources().contains(s)) by {
                if i < old_mappings.len() {
                    assert(self.spec_mappings()[i] == old_mappings[i]);
                    if let Some(s) = old_mappings[i].4 {
                        let k = choose|k: int| 0 <= k < old_sources.len() && old_sources[k] == s;
                        assert(self.spec_sources()[k] == s);
                    }
                } else if let Some(s) = gm.4 {
                    if old_sources.contains(s) {
                        let k = choose|k: int| 0 <= k < old_sources.len() && old_sources[k] == s;
                        assert(self.spec_sources()[k] == s);
                    } else {
                        assert(self.spec_sources()[old_sources.len() as int] == s);
                    }
                }
            }
            assert forall|i: int| 0 <= i < self.mappings@.len() implies ((#[trigger] self.spec_mappings()[i]).5 matches Some(s) ==> self.spec_names().contains(s)) by {
                if i < old_mappings.len() {
                    assert(self.spec_mappings()[i] == old_mappings[i]);
                    if let Some(s) = old_mappings[i].5 {
                        let k = choose|k: int| 0 <= k < old_names.len() && old_names[k] == s;
                        assert(self.spec_names()[k] == s);
                    }
                } else if let Some(s) = gm.5 {
                    if old_names.contains(s) {
                        let k = choose|k: int| 0 <= k < old_names.len() && old_names[k] == s;
                        assert(self.spec_names()[k] == s);
                    } else {
                        assert(self.spec_names()[old_names.len() as int] == s);
                    }
                }
            }
        }
    }

    /// Embeds (or drops) the text of one source.
    pub fn set_source_content(&mut self, source: &str, content: Option<String>)
        requires
            old(self).wf(),
        ensures
            final(self).wf(),
            final(self).spec_file() == old(self).spec_file(),
            final(self).spec_root() == old(self).spec_root(),
            final(self).spec_mappings() == old(self).spec_mappings(),
            final(self).spec_sources() == old(self).spec_sources(),
            final(self).spec_names() == old(self).spec_names(),
            final(self).spec_contents() == match content {
                Some(c) => old(self).spec_contents().insert(spec_content_key(old(self).spec_root(), source@), c@),
                None => old(self).spec_contents().remove(spec_content_key(old(self).spec_root(), source@)),
            },
    {
        let key = match &self.source_root {
            Some(root) => relative_path(root.as_str(), source),
            None => crate::text::to_owned_string(source),
        };
        match content {
            Some(content) => assoc_insert(&mut self.contents, key, content),
            None => {
                let key_chars = chars_of(key.as_str());
                assoc_remove(&mut self.contents, &key_chars);
            },
        }
    }

    /// Drops every embedded source, for `map.sourcesContent: false`.
    pub fn clear_source_contents(&mut self)
        requires
            old(self).wf(),
        ensures
            final(self).wf(),
            final(self).spec_file() == old(self).spec_file(),
            final(self).spec_root() == old(self).spec_root(),
            final(self).spec_mappings() == old(self).spec_mappings(),
            final(self).spec_sources() == old(self).spec_sources(),
            final(self).spec_names() == old(self).spec_names(),
            final(self).spec_contents() == Map::<Seq<char>, Seq<char>>::empty(),
    {
        self.contents = Vec::new();
        assert(self.spec_contents() =~= Map::<Seq<char>, Seq<char>>::empty());
    }
}

/// Appends `value` to `list` unless it is there already.
fn register(list: &mut Vec<String>, value: &String)
    requires
        spec_no_dup(crate::list::spec_views(old(list)@)),
    ensures
        spec_no_dup(crate::list::spec_views(final(list)@)),
        crate::list::spec_views(final(list)@) == spec_register(crate::list::spec_views(old(list)@), Some(value@)),
{
    let ghost before = crate::list::spec_views(list@);
    let value_chars = chars_of(value.as_str());
    let mut i: usize = 0;
    while i < list.len()
        invariant
            i <= list@.len(),
            value_chars@ == value@,
            spec_no_dup(before),
            before == crate::list::spec_views(list@),
            forall|k: int| 0 <= k < i ==> before[k] != value@,
        decreases list.len() - i,
    {
        let item = chars_of(list[i].as_str());
        if chars_eq(&item, &value_chars) {
            assert(before[i as int] == value@);
            return;
        }
        i = i + 1;
    }
    list.push(value.clone());
    proof {
        assert(!before.contains(value@));
        assert(crate::list::spec_views(list@) =~= before.push(value@));
    }
}


/// Whether two optional strings are equal.
fn opt_string_eq(a: &Option<String>, b: &Option<String>) -> (r: bool)
    ensures
        r == (crate::error::opt_view(*a) == crate::error::opt_view(*b)),
{
    match (a, b) {
        (Some(x), Some(y)) => {
            let xs = chars_of(x.as_str());
            let ys = chars_of(y.as_str());
            chars_eq(&xs, &ys)
        },
        (None, None) => true,
        _ => false,
    }
}

fn same_position(a: &GeneratedMapping, b: &GeneratedMapping) -> (r: bool)
    ensures
        r == (spec_gm(*a) == spec_gm(*b)),
{
    a.generated_line == b.generated_line && a.generated_column == b.generated_column && a.original_line
        == b.original_line && a.original_column == b.original_column && opt_string_eq(&a.source, &b.source)
        && opt_string_eq(&a.name, &b.name)
}

/// Index of `value` in `list`, or the length.
fn position(list: &Vec<String>, value: &String) -> (r: usize)
    ensures
        r as int == spec_position_from(crate::list::spec_views(list@), value@, 0),
{
    let ghost views = crate::list::spec_views(list@);
    let value_chars = chars_of(value.as_str());
    let mut i: usize = 0;
    while i < list.len()
        invariant
            i <= list@.len(),
            value_chars@ == value@,
            views == crate::list::spec_views(list@),
            spec_position_from(views, value@, i as int) == spec_position_from(views, value@, 0),
        decreases list.len() - i,
    {
        let item = chars_of(list[i].as_str());
        if chars_eq(&item, &value_chars) {
            return i;
        }
        i = i + 1;
    }
    i
}

proof fn lemma_sorted_gm(ms: Seq<MappingView>)
    requires
        ms.len() <= usize::MAX,
    ensures
        spec_sort_gm(ms).len() == ms.len(),
        forall|i: int, j: int| #![trigger spec_sort_gm(ms)[i], spec_sort_gm(ms)[j]] 0 <= i < j < ms.len() ==> spec_sort_gm(ms)[i].0 <= spec_sort_gm(ms)[j].0,
        forall|j: int| 0 <= j < ms.len() ==> (#[trigger] spec_sort_keys(spec_gm_keys(ms))[j]).2 < ms.len(),
        forall|x: MappingView| spec_sort_gm(ms).contains(x) ==> ms.contains(x),
{
    let keys = spec_gm_keys(ms);
    let sorted = spec_sort_keys(keys);
    lemma_sort_keys(keys);
    let out = spec_sort_gm(ms);
    assert forall|j: int| 0 <= j < sorted.len() implies ms[(#[trigger] sorted[j]).2 as int].0 == sorted[j].0
        && sorted[j].2 < ms.len() by {
        vstd::seq_lib::to_multiset_contains(sorted, sorted[j]);
        vstd::seq_lib::to_multiset_contains(keys, sorted[j]);
        assert(sorted.contains(sorted[j]));
        let w = choose|w: int| 0 <= w < keys.len() && keys[w] == sorted[j];
        assert(keys[w].2 == w);
    }
    assert forall|i: int, j: int| #![trigger out[i], out[j]] 0 <= i < j < out.len() implies out[i].0 <= out[j].0 by {
        assert(spec_key_le(sorted[i], sorted[j].0 as int, sorted[j].1 as int));
    }
    assert forall|x: MappingView| out.contains(x) implies ms.contains(x) by {
        let j = choose|j: int| 0 <= j < out.len() && out[j] == x;
        assert(ms[sorted[j].2 as int] == x);
    }
}

/// The encoder's running state.
struct Encoder {
    out: String,
    line: usize,
    col: i64,
    ol: i64,
    oc: i64,
    src: i64,
    name: i64,
}

impl Encoder {
    spec fn view(&self) -> EncState {
        (self.out@, self.line as int, self.col as int, self.ol as int, self.oc as int, self.src as int, self.name as int)
    }

    spec fn bounded(&self) -> bool {
        &&& 1 <= self.line
        &&& 0 <= self.col < 0x2000_0000_0000_0000
        &&& -1 <= self.ol < 0x2000_0000_0000_0000
        &&& 0 <= self.oc < 0x2000_0000_0000_0000
        &&& 0 <= self.src < 0x2000_0000_0000_0000
        &&& 0 <= self.name < 0x2000_0000_0000_0000
    }
}

/// A mapping the encoder can take: positions below 2^61, a line from 1.
pub open spec fn spec_gm_encodable(m: MappingView) -> bool {
    &&& 1 <= m.0
    &&& m.1 < 0x2000_0000_0000_0000
    &&& (m.2 matches Some(x) ==> x < 0x2000_0000_0000_0000)
    &&& (m.3 matches Some(x) ==> x < 0x2000_0000_0000_0000)
}

impl SourceMapGenerator {
    fn encode_one(&self, enc: &mut Encoder, m: &GeneratedMapping, prev: Option<&GeneratedMapping>)
        requires
            self.wf(),
            self.encodable(),
            old(enc).bounded(),
            old(enc).line <= m.generated_line,
            spec_gm_encodable(spec_gm(*m)),
            spec_gm(*m).4 matches Some(s) ==> self.spec_sources().contains(s),
            spec_gm(*m).5 matches Some(n) ==> self.spec_names().contains(n),
        ensures
            final(enc).bounded(),
            final(enc).line == m.generated_line,
            final(enc).view() == spec_encode_one(
                old(enc).view(),
                spec_gm(*m),
                match prev {
                    Some(p) => Some(spec_gm(*p)),
                    None => None,
                },
                self.spec_sources(),
                self.spec_names(),
            ),
    {
        let skip = m.generated_line == enc.line && match prev {
            Some(p) => same_position(m, p),
            None => false,
        };
        if skip {
            return;
        }
        let ghost before = enc.out@;
        if m.generated_line != enc.line {
            enc.col = 0;
            let ghost start = enc.line;
            let ghost e0 = *enc;
            while enc.line < m.generated_line
                invariant
                    start <= enc.line <= m.generated_line,
                    1 <= start,
                    enc.out@ == before + spec_semicolons(enc.line - start),
                    enc.col == e0.col && enc.ol == e0.ol && enc.oc == e0.oc && enc.src == e0.src && enc.name == e0.name,
                decreases m.generated_line - enc.line,
            {
                push_char(&mut enc.out, ';');
                assert(before + spec_semicolons(enc.line + 1 - start) =~= (before + spec_semicolons(enc.line - start)).push(';'));
                enc.line = enc.line + 1;
            }
        } else if prev.is_some() {
            push_char(&mut enc.out, ',');
        }
        let column = m.generated_column as i64;
        crate::vlq::encode_vlq(column - enc.col, &mut enc.out);
        enc.col = column;
        match &m.source {
            Some(source) => {
                let si = position(&self.sources, source);
                proof {
                    lemma_position_from(self.spec_sources(), source@, 0);
                }
                let si = si as i64;
                crate::vlq::encode_vlq(si - enc.src, &mut enc.out);
                enc.src = si;
                let ol = match m.original_line {
                    Some(x) => x as i64,
                    None => 1,
                } - 1;
                crate::vlq::encode_vlq(ol - enc.ol, &mut enc.out);
                enc.ol = ol;
                let oc = match m.original_column {
                    Some(x) => x as i64,
                    None => 0,
                };
                crate::vlq::encode_vlq(oc - enc.oc, &mut enc.out);
                enc.oc = oc;
                match &m.name {
                    Some(name) => {
                        let ni = position(&self.names, name);
                        proof {
                            lemma_position_from(self.spec_names(), name@, 0);
                        }
                        let ni = ni as i64;
                        crate::vlq::encode_vlq(ni - enc.name, &mut enc.out);
                        enc.name = ni;
                    },
                    None => {},
                }
            },
            None => {},
        }
    }

    fn encode_mappings(&self) -> (out: String)
        requires
            self.wf(),
            self.encodable(),
        ensures
            out@ == spec_encode_mappings(spec_sort_gm(self.spec_mappings()), self.spec_sources(), self.spec_names()),
    {
        let ghost all = self.spec_mappings();
        let mut keys: Vec<Keyed> = Vec::new();
        let mut i: usize = 0;
        while i < self.mappings.len()
            invariant
                i <= self.mappings@.len(),
                all == self.spec_mappings(),
                keys@ =~= spec_gm_keys(all).take(i as int),
            decreases self.mappings.len() - i,
        {
            keys.push((self.mappings[i].generated_line, self.mappings[i].generated_column, i));
            i = i + 1;
        }
        assert(spec_gm_keys(all).take(all.len() as int) =~= spec_gm_keys(all));
        let sorted = sort_keys(&keys);
        let ghost ms = spec_sort_gm(all);
        proof {
            lemma_sorted_gm(all);
        }
        let mut enc = Encoder { out: String::new(), line: 1, col: 0, ol: 0, oc: 0, src: 0, name: 0 };
        let mut index: usize = 0;
        while index < sorted.len()
            invariant
                self.wf(),
                self.encodable(),
                all == self.spec_mappings(),
                ms == spec_sort_gm(all),
                sorted@ == spec_sort_keys(spec_gm_keys(all)),
                sorted@.len() == all.len(),
                ms.len() == all.len(),
                forall|j: int| 0 <= j < sorted@.len() ==> (#[trigger] sorted@[j]).2 < all.len(),
                forall|a: int, b: int| #![trigger ms[a], ms[b]] 0 <= a < b < ms.len() ==> ms[a].0 <= ms[b].0,
                index <= sorted@.len(),
                enc.bounded(),
                index > 0 ==> enc.line == ms[index - 1].0,
                spec_encode_upto(ms, index as int, self.spec_sources(), self.spec_names()) == enc.view(),
            decreases sorted.len() - index,
        {
            let mi = sorted[index].2;
            let m = &self.mappings[mi];
            proof {
                assert(ms[index as int] == all[mi as int]);
                assert(all[mi as int] == spec_gm(self.mappings@[mi as int]));
                if index > 0 {
                    assert(ms[index - 1].0 <= ms[index as int].0);
                }
            }
            if index > 0 {
                let pi = sorted[index - 1].2;
                proof {
                    assert(ms[index - 1] == all[pi as int]);
                }
                self.encode_one(&mut enc, m, Some(&self.mappings[pi]));
            } else {
                self.encode_one(&mut enc, m, None);
            }
            index = index + 1;
        }
        enc.out
    }
}


/// A list of strings, copied.
pub fn clone_strings(v: &Vec<String>) -> (r: Vec<String>)
    ensures
        crate::list::spec_views(r@) == crate::list::spec_views(v@),
{
    let mut out: Vec<String> = Vec::new();
    let mut i: usize = 0;
    while i < v.len()
        invariant
            i <= v@.len(),
            crate::list::spec_views(out@) =~= crate::list::spec_views(v@).take(i as int),
        decreases v.len() - i,
    {
        let ghost before = out@;
        let item = v[i].clone();
        out.push(item);
        assert(out@ =~= before.push(item));
        assert(crate::list::spec_views(v@).take(i + 1) =~= crate::list::spec_views(v@).take(i as int).push(v@[i as int]@));
        i = i + 1;
    }
    assert(crate::list::spec_views(v@).take(v@.len() as int) =~= crate::list::spec_views(v@));
    out
}

/// The value stored under a key, if any.
pub open spec fn spec_lookup(m: Map<Seq<char>, Seq<char>>, k: Seq<char>) -> Option<Seq<char>> {
    if m.contains_key(k) {
        Some(m[k])
    } else {
        None
    }
}

/// `sourcesContent` for a map: `None` when nothing is embedded, else the
/// content of each source in turn, looked up under its key.
pub open spec fn spec_sources_content(
    sources: Seq<Seq<char>>,
    contents: Map<Seq<char>, Seq<char>>,
    root: Option<Seq<char>>,
) -> Option<Seq<Option<Seq<char>>>> {
    if contents == Map::<Seq<char>, Seq<char>>::empty() {
        None
    } else {
        Some(sources.map_values(|s: Seq<char>| spec_lookup(contents, spec_content_key(root, s))))
    }
}

impl SourceMapGenerator {
    /// Serializes to the v3 JSON model.
    pub fn to_raw(&self) -> (r: RawSourceMap)
        requires
            self.wf(),
            self.encodable(),
        ensures
            r.version == Some(3u32),
            crate::list::spec_views(r.sources@) == self.spec_sources(),
            crate::list::spec_views(r.names@) == self.spec_names(),
            r.mappings@ == spec_encode_mappings(spec_sort_gm(self.spec_mappings()), self.spec_sources(), self.spec_names()),
            crate::error::opt_view(r.file) == self.spec_file(),
            crate::error::opt_view(r.source_root) == self.spec_root(),
            match r.sources_content {
                Some(v) => Some(spec_opt_views(v@)),
                None => None,
            } == spec_sources_content(self.spec_sources(), self.spec_contents(), self.spec_root()),
    {
        let sources_content = if self.contents.len() == 0 {
            assert(self.spec_contents() =~= Map::<Seq<char>, Seq<char>>::empty());
            None
        } else {
            proof {
                lemma_assoc_map(self.contents@);
                assert(self.spec_contents().contains_key(self.contents@[0].0@));
            }
            let mut v: Vec<Option<String>> = Vec::new();
            let mut i: usize = 0;
            while i < self.sources.len()
                invariant
                    self.wf(),
                    i <= self.sources@.len(),
                    spec_opt_views(v@) =~= self.spec_sources().map_values(
                        |s: Seq<char>| spec_lookup(self.spec_contents(), spec_content_key(self.spec_root(), s)),
                    ).take(i as int),
                decreases self.sources.len() - i,
            {
                let key = match &self.source_root {
                    Some(root) => relative_path(root.as_str(), self.sources[i].as_str()),
                    None => self.sources[i].clone(),
                };
                let key_chars = chars_of(key.as_str());
                let ghost before = v@;
                let item = assoc_get(&self.contents, &key_chars);
                v.push(item);
                proof {
                    let f = |s: Seq<char>| spec_lookup(self.spec_contents(), spec_content_key(self.spec_root(), s));
                    assert(v@ =~= before.push(item));
                    assert(self.spec_sources().map_values(f).take(i + 1) =~= self.spec_sources().map_values(f).take(i as int).push(f(self.spec_sources()[i as int])));
                    assert(spec_opt_views(v@) =~= spec_opt_views(before).push(crate::error::opt_view(item)));
                }
                i = i + 1;
            }
            assert(self.spec_sources().map_values(
                |s: Seq<char>| spec_lookup(self.spec_contents(), spec_content_key(self.spec_root(), s)),
            ).take(self.sources@.len() as int) =~= self.spec_sources().map_values(
                |s: Seq<char>| spec_lookup(self.spec_contents(), spec_content_key(self.spec_root(), s)),
            ));
            Some(v)
        };
        RawSourceMap {
            version: Some(3),
            sources: clone_strings(&self.sources),
            names: clone_strings(&self.names),
            mappings: self.encode_mappings(),
            file: crate::input::clone_opt_string(&self.file),
            source_root: crate::input::clone_opt_string(&self.source_root),
            sources_content,
        }
    }

    /// Whether every number fits the encoder, as [`SourceMapGenerator::to_raw`]
    /// requires.
    pub fn is_encodable(&self) -> (r: bool)
        ensures
            r == self.encodable(),
    {
        if self.sources.len() as u64 >= 0x2000_0000_0000_0000u64 || self.names.len() as u64 >= 0x2000_0000_0000_0000u64 {
            return false;
        }
        let mut i: usize = 0;
        while i < self.mappings.len()
            invariant
                i <= self.mappings@.len(),
                self.spec_sources().len() < 0x2000_0000_0000_0000,
                self.spec_names().len() < 0x2000_0000_0000_0000,
                forall|k: int| 0 <= k < i ==> spec_gm_encodable(#[trigger] self.spec_mappings()[k]),
            decreases self.mappings.len() - i,
        {
            let m = &self.mappings[i];
            let ok = 1 <= m.generated_line && (m.generated_column as u64) < 0x2000_0000_0000_0000u64 && match m.original_line {
                Some(x) => (x as u64) < 0x2000_0000_0000_0000u64,
                None => true,
            } && match m.original_column {
                Some(x) => (x as u64) < 0x2000_0000_0000_0000u64,
                None => true,
            };
            assert(ok == spec_gm_encodable(self.spec_mappings()[i as int]));
            if !ok {
                return false;
            }
            i = i + 1;
        }
        true
    }
}


/// The sources of mappings, each listed once, in order of first use.
pub open spec fn spec_sources_of(ms: Seq<MappingView>) -> Seq<Seq<char>>
    decreases ms.len(),
{
    if ms.len() == 0 {
        Seq::empty()
    } else {
        spec_register(spec_sources_of(ms.drop_last()), ms.last().4)
    }
}

/// The names of mappings, each listed once, in order of first use.
pub open spec fn spec_names_of(ms: Seq<MappingView>) -> Seq<Seq<char>>
    decreases ms.len(),
{
    if ms.len() == 0 {
        Seq::empty()
    } else {
        spec_register(spec_names_of(ms.drop_last()), ms.last().5)
    }
}

proof fn lemma_register_no_dup(list: Seq<Seq<char>>, o: Option<Seq<char>>)
    requires
        spec_no_dup(list),
    ensures
        spec_no_dup(spec_register(list, o)),
        forall|x: Seq<char>| list.contains(x) ==> spec_register(list, o).contains(x),
        o matches Some(x) ==> spec_register(list, o).contains(x),
{
    if let Some(x) = o {
        if !list.contains(x) {
            let r = list.push(x);
            assert forall|i: int, j: int| #![trigger r[i], r[j]] 0 <= i < j < r.len() implies r[i] != r[j] by {
                if j == list.len() {
                    assert(r[i] == list[i]);
                } else {
                    assert(r[i] == list[i] && r[j] == list[j]);
                }
            }
            assert forall|y: Seq<char>| list.contains(y) implies r.contains(y) by {
                let k = choose|k: int| 0 <= k < list.len() && list[k] == y;
                assert(r[k] == y);
            }
            assert(r[list.len() as int] == x);
        }
    }
}

/// The lists of first uses hold every source and name, once.
pub proof fn lemma_sources_of(ms: Seq<MappingView>)
    ensures
        spec_no_dup(spec_sources_of(ms)),
        spec_no_dup(spec_names_of(ms)),
        forall|i: int| 0 <= i < ms.len() ==> ((#[trigger] ms[i]).4 matches Some(s) ==> spec_sources_of(ms).contains(s)),
        forall|i: int| 0 <= i < ms.len() ==> ((#[trigger] ms[i]).5 matches Some(n) ==> spec_names_of(ms).contains(n)),
    decreases ms.len(),
{
    if ms.len() > 0 {
        let d = ms.drop_last();
        lemma_sources_of(d);
        lemma_register_no_dup(spec_sources_of(d), ms.last().4);
        lemma_register_no_dup(spec_names_of(d), ms.last().5);
        assert forall|i: int| 0 <= i < ms.len() implies ((#[trigger] ms[i]).4 matches Some(s) ==> spec_sources_of(ms).contains(s)) by {
            if i < ms.len() - 1 {
                assert(ms[i] == d[i]);
            }
        }
        assert forall|i: int| 0 <= i < ms.len() implies ((#[trigger] ms[i]).5 matches Some(n) ==> spec_names_of(ms).contains(n)) by {
            if i < ms.len() - 1 {
                assert(ms[i] == d[i]);
            }
        }
    }
}

impl SourceMapConsumer {
    /// The generated mapping a decoded mapping turns into: its indexes
    /// resolved to the source (with the root applied) and the name.
    pub open spec fn spec_generated(&self, m: Mapping) -> MappingView {
        (m.generated_line, m.generated_column, m.original_line, m.original_column, self.spec_source_at(m.source), self.spec_name_at(m.name))
    }

    /// The embedded contents of the first `n` sources, keyed as a generator
    /// with the same root keys them.
    pub open spec fn spec_contents_upto(&self, n: int) -> Map<Seq<char>, Seq<char>>
        decreases n,
    {
        if n <= 0 {
            Map::empty()
        } else {
            let prev = self.spec_contents_upto(n - 1);
            match self.spec_contents() {
                Some(c) => if n - 1 < c.len() && n - 1 < self.spec_raw_sources().len() && c[n - 1] is Some {
                    prev.insert(
                        spec_content_key(self.spec_root(), spec_compute_source_url(self.spec_root(), self.spec_raw_sources()[n - 1])),
                        c[n - 1]->0,
                    )
                } else {
                    prev
                },
                None => prev,
            }
        }
    }

    /// The embedded contents, keyed as a generator with the same root keys
    /// them.
    pub open spec fn spec_generator_contents(&self) -> Map<Seq<char>, Seq<char>> {
        match self.spec_contents() {
            Some(c) => self.spec_contents_upto(c.len() as int),
            None => Map::empty(),
        }
    }

    /// Rebuilds a generator holding the same mappings, like
    /// `SourceMapGenerator.fromSourceMap()`.
    pub fn to_generator(&self) -> (g: SourceMapGenerator)
        ensures
            g.wf(),
            g.spec_file() == self.spec_file(),
            g.spec_root() == self.spec_root(),
            g.spec_mappings() == self.spec_mappings().map_values(|m: Mapping| self.spec_generated(m)),
            g.spec_sources() == spec_sources_of(g.spec_mappings()),
            g.spec_names() == spec_names_of(g.spec_mappings()),
            g.spec_contents() == self.spec_generator_contents(),
    {
        let mut generator = SourceMapGenerator::new(crate::input::clone_opt_string(&self.file));
        generator.set_source_root(crate::input::clone_opt_string(&self.source_root));
        let ghost target = self.spec_mappings().map_values(|m: Mapping| self.spec_generated(m));
        let mut i: usize = 0;
        while i < self.mappings.len()
            invariant
                i <= self.mappings@.len(),
                generator.wf(),
                generator.spec_file() == self.spec_file(),
                generator.spec_root() == self.spec_root(),
                target == self.spec_mappings().map_values(|m: Mapping| self.spec_generated(m)),
                generator.spec_mappings() == target.take(i as int),
                generator.spec_sources() == spec_sources_of(target.take(i as int)),
                generator.spec_names() == spec_names_of(target.take(i as int)),
                generator.spec_contents() == Map::<Seq<char>, Seq<char>>::empty(),
            decreases self.mappings.len() - i,
        {
            let m = self.mappings[i];
            let gm = GeneratedMapping {
                generated_line: m.generated_line,
                generated_column: m.generated_column,
                original_line: m.original_line,
                original_column: m.original_column,
                source: self.source_at(m.source),
                name: self.name_at(m.name),
            };
            generator.add_mapping(gm);
            proof {
                assert(target.take(i + 1) =~= target.take(i as int).push(target[i as int]));
                assert(target.take(i + 1).drop_last() =~= target.take(i as int));
            }
            i = i + 1;
        }
        assert(target.take(self.mappings@.len() as int) =~= target);
        match &self.sources_content {
            Some(contents) => {
                let root = match &self.source_root {
                    Some(r) => Some(r.as_str()),
                    None => None,
                };
                let mut index: usize = 0;
                while index < contents.len()
                    invariant
                        index <= contents@.len(),
                        self.sources_content == Some(*contents),
                        spec_opt_str(root) == self.spec_root(),
                        generator.wf(),
                        generator.spec_file() == self.spec_file(),
                        generator.spec_root() == self.spec_root(),
                        generator.spec_mappings() == target,
                        generator.spec_sources() == spec_sources_of(target),
                        generator.spec_names() == spec_names_of(target),
                        generator.spec_contents() == self.spec_contents_upto(index as int),
                    decreases contents.len() - index,
                {
                    if index < self.raw_sources.len() {
                        match &contents[index] {
                            Some(content) => {
                                let source = compute_source_url(root, self.raw_sources[index].as_str());
                                generator.set_source_content(source.as_str(), Some(content.clone()));
                            },
                            None => {},
                        }
                    }
                    index = index + 1;
                }
            },
            None => {},
        }
        generator
    }
}


/// What a mapping becomes when its original file is described by
/// `consumer`: a mapping from `source_file` with an original line is sent on
/// to the position `consumer` gives for it, when that has a source, which is
/// resolved against `source_map_path` and made relative to `root`; the name
/// is kept unless the consumer supplies one.
pub open spec fn spec_retarget(
    m: MappingView,
    consumer: SourceMapConsumer,
    source_file: Seq<char>,
    source_map_path: Option<Seq<char>>,
    root: Option<Seq<char>>,
) -> MappingView {
    if m.4 == Some(source_file) && m.2 is Some {
        match consumer.spec_lookup(m.2->0, match m.3 { Some(c) => c, None => 0 }) {
            Some(mm) => match consumer.spec_source_at(mm.source) {
                Some(src) => {
                    let joined = match source_map_path {
                        Some(p) => spec_join_path(p, src),
                        None => src,
                    };
                    let name = consumer.spec_name_at(mm.name);
                    (
                        m.0,
                        m.1,
                        mm.original_line,
                        mm.original_column,
                        Some(spec_content_key(root, joined)),
                        if name is Some { name } else { m.5 },
                    )
                },
                None => m,
            },
            None => m,
        }
    } else {
        m
    }
}

/// Where the content of a consumer's source is stored after retargeting.
pub open spec fn spec_retarget_key(source: Seq<char>, source_map_path: Option<Seq<char>>, root: Option<Seq<char>>) -> Seq<char> {
    let joined = match source_map_path {
        Some(p) => spec_join_path(p, source),
        None => source,
    };
    spec_content_key(root, spec_content_key(root, joined))
}

/// The contents after copying those of the first `n` sources of
/// `consumer` that it embeds.
pub open spec fn spec_copy_contents(
    init: Map<Seq<char>, Seq<char>>,
    consumer: SourceMapConsumer,
    source_map_path: Option<Seq<char>>,
    root: Option<Seq<char>>,
    n: int,
) -> Map<Seq<char>, Seq<char>>
    decreases n,
{
    if n <= 0 {
        init
    } else {
        let prev = spec_copy_contents(init, consumer, source_map_path, root, n - 1);
        let source = spec_compute_source_url(consumer.spec_root(), consumer.spec_raw_sources()[n - 1]);
        match consumer.spec_source_content(source) {
            Some(c) => prev.insert(spec_retarget_key(source, source_map_path, root), c),
            None => prev,
        }
    }
}

/// A copy of a mapping.
pub fn clone_gm(m: &GeneratedMapping) -> (r: GeneratedMapping)
    ensures
        spec_gm(r) == spec_gm(*m),
{
    GeneratedMapping {
        generated_line: m.generated_line,
        generated_column: m.generated_column,
        original_line: m.original_line,
        original_column: m.original_column,
        source: crate::input::clone_opt_string(&m.source),
        name: crate::input::clone_opt_string(&m.name),
    }
}

fn retarget(
    m: &GeneratedMapping,
    consumer: &SourceMapConsumer,
    source_file: &Vec<char>,
    source_map_path: Option<&str>,
    root: &Option<String>,
) -> (r: GeneratedMapping)
    requires
        consumer.wf(),
    ensures
        spec_gm(r) == spec_retarget(spec_gm(*m), *consumer, source_file@, spec_opt_str(source_map_path), crate::error::opt_view(*root)),
{
    let from_file = match &m.source {
        Some(s) => {
            let sc = chars_of(s.as_str());
            chars_eq(&sc, source_file)
        },
        None => false,
    };
    let line = match m.original_line {
        Some(l) => l,
        None => {
            return clone_gm(m);
        },
    };
    if !from_file {
        return clone_gm(m);
    }
    let column = match m.original_column {
        Some(c) => c,
        None => 0,
    };
    let original = consumer.original_position_for(line, column);
    match original.source {
        Some(src) => {
            let joined = match source_map_path {
                Some(p) => join_path(p, src.as_str()),
                None => src,
            };
            let source = match root {
                Some(r) => relative_path(r.as_str(), joined.as_str()),
                None => joined,
            };
            let name = match original.name {
                Some(n) => Some(n),
                None => crate::input::clone_opt_string(&m.name),
            };
            GeneratedMapping {
                generated_line: m.generated_line,
                generated_column: m.generated_column,
                original_line: original.line,
                original_column: original.column,
                source: Some(source),
                name,
            }
        },
        None => clone_gm(m),
    }
}

impl SourceMapGenerator {
    /// Retargets this map's mappings through `consumer`, so the result points
    /// at the sources `consumer` was built from, and copies the source
    /// contents `consumer` embeds.
    ///
    /// `source_file` names the source `consumer` describes; without it the
    /// consumer's own `file` is used, and without either nothing changes.
    pub fn apply_source_map(&mut self, consumer: &SourceMapConsumer, source_file: Option<&str>, source_map_path: Option<&str>)
        requires
            old(self).wf(),
            consumer.wf(),
        ensures
            final(self).wf(),
            final(self).spec_file() == old(self).spec_file(),
            final(self).spec_root() == old(self).spec_root(),
            ({
                let file = match source_file {
                    Some(f) => Some(f@),
                    None => consumer.spec_file(),
                };
                match file {
                    None => {
                        &&& final(self).spec_mappings() == old(self).spec_mappings()
                        &&& final(self).spec_sources() == old(self).spec_sources()
                        &&& final(self).spec_names() == old(self).spec_names()
                        &&& final(self).spec_contents() == old(self).spec_contents()
                    },
                    Some(f) => {
                        let sf = spec_content_key(old(self).spec_root(), f);
                        let smp = spec_opt_str(source_map_path);
                        let ms = old(self).spec_mappings().map_values(
                            |m: MappingView| spec_retarget(m, *consumer, sf, smp, old(self).spec_root()),
                        );
                        &&& final(self).spec_mappings() == ms
                        &&& final(self).spec_sources() == spec_sources_of(ms)
                        &&& final(self).spec_names() == spec_names_of(ms)
                        &&& final(self).spec_contents() == spec_copy_contents(
                            old(self).spec_contents(),
                            *consumer,
                            smp,
                            old(self).spec_root(),
                            consumer.spec_raw_sources().len() as int,
                        )
                    },
                }
            }),
    {
        let file = match source_file {
            Some(f) => crate::text::to_owned_string(f),
            None => match &consumer.file {
                Some(f) => f.clone(),
                None => {
                    return;
                },
            },
        };
        let sf = match &self.source_root {
            Some(root) => relative_path(root.as_str(), file.as_str()),
            None => file,
        };
        let sf_chars = chars_of(sf.as_str());
        let ghost old_self = *self;
        let ghost ms = old_self.spec_mappings().map_values(
            |m: MappingView| spec_retarget(m, *consumer, sf@, spec_opt_str(source_map_path), old_self.spec_root()),
        );
        let mut i: usize = 0;
        while i < self.mappings.len()
            invariant
                i <= self.mappings@.len(),
                consumer.wf(),
                sf_chars@ == sf@,
                self.mappings@.len() == old_self.mappings@.len(),
                self.source_root == old_self.source_root,
                self.file == old_self.file,
                self.sources == old_self.sources,
                self.names == old_self.names,
                self.contents == old_self.contents,
                ms == old_self.spec_mappings().map_values(
                    |m: MappingView| spec_retarget(m, *consumer, sf@, spec_opt_str(source_map_path), old_self.spec_root()),
                ),
                forall|k: int| 0 <= k < i ==> #[trigger] self.spec_mappings()[k] == ms[k],
                forall|k: int| i <= k < self.mappings@.len() ==> #[trigger] self.mappings@[k] == old_self.mappings@[k],
            decreases self.mappings.len() - i,
        {
            let replaced = retarget(&self.mappings[i], consumer, &sf_chars, source_map_path, &self.source_root);
            let ghost prev = self.mappings@;
            let ghost prev_views = self.spec_mappings();
            proof {
                assert(prev[i as int] == old_self.mappings@[i as int]);
                assert(old_self.spec_mappings()[i as int] == spec_gm(old_self.mappings@[i as int]));
                assert(ms[i as int] == spec_gm(replaced));
            }
            self.mappings.set(i, replaced);
            proof {
                assert forall|k: int| 0 <= k < i + 1 implies #[trigger] self.spec_mappings()[k] == ms[k] by {
                    assert(self.spec_mappings()[k] == spec_gm(self.mappings@[k]));
                    if k < i {
                        assert(self.mappings@[k] == prev[k]);
                        assert(prev_views[k] == ms[k]);
                        assert(prev_views[k] == spec_gm(prev[k]));
                    }
                }
            }
            i = i + 1;
        }
        proof {
            assert(self.spec_mappings() =~= ms);
        }
        let mut new_sources: Vec<String> = Vec::new();
        let mut new_names: Vec<String> = Vec::new();
        let mut j: usize = 0;
        while j < self.mappings.len()
            invariant
                j <= self.mappings@.len(),
                self.spec_mappings() == ms,
                spec_no_dup(crate::list::spec_views(new_sources@)),
                spec_no_dup(crate::list::spec_views(new_names@)),
                crate::list::spec_views(new_sources@) == spec_sources_of(ms.take(j as int)),
                crate::list::spec_views(new_names@) == spec_names_of(ms.take(j as int)),
            decreases self.mappings.len() - j,
        {
            proof {
                assert(ms.take(j + 1).drop_last() =~= ms.take(j as int));
                assert(ms.take(j + 1).last() == ms[j as int]);
                assert(ms[j as int] == spec_gm(self.mappings@[j as int]));
            }
            match &self.mappings[j].source {
                Some(source) => register(&mut new_sources, source),
                None => {},
            }
            match &self.mappings[j].name {
                Some(name) => register(&mut new_names, name),
                None => {},
            }
            j = j + 1;
        }
        proof {
            assert(ms.take(ms.len() as int) =~= ms);
            lemma_sources_of(ms);
        }
        self.sources = new_sources;
        self.names = new_names;
        let sources = consumer.sources();
        assert(crate::list::spec_views(sources@).len() == sources@.len());
        let mut k: usize = 0;
        while k < sources.len()
            invariant
                k <= sources@.len(),
                self.wf(),
                self.spec_file() == old_self.spec_file(),
                self.spec_root() == old_self.spec_root(),
                self.spec_mappings() == ms,
                self.spec_sources() == spec_sources_of(ms),
                self.spec_names() == spec_names_of(ms),
                crate::list::spec_views(sources@) == consumer.spec_raw_sources().map_values(
                    |s: Seq<char>| spec_compute_source_url(consumer.spec_root(), s),
                ),
                self.spec_contents() == spec_copy_contents(
                    old_self.spec_contents(),
                    *consumer,
                    spec_opt_str(source_map_path),
                    old_self.spec_root(),
                    k as int,
                ),
            decreases sources.len() - k,
        {
            proof {
                assert(crate::list::spec_views(sources@)[k as int] == sources@[k as int]@);
                assert(crate::list::spec_views(sources@).len() == sources@.len());
                assert(consumer.spec_raw_sources().map_values(
                    |s: Seq<char>| spec_compute_source_url(consumer.spec_root(), s),
                )[k as int] == spec_compute_source_url(consumer.spec_root(), consumer.spec_raw_sources()[k as int]));
                assert(sources@[k as int]@ == spec_compute_source_url(consumer.spec_root(), consumer.spec_raw_sources()[k as int]));
            }
            match consumer.source_content_for(sources[k].as_str()) {
                Some(content) => {
                    let joined = match source_map_path {
                        Some(p) => join_path(p, sources[k].as_str()),
                        None => sources[k].clone(),
                    };
                    let target = match &self.source_root {
                        Some(root) => relative_path(root.as_str(), joined.as_str()),
                        None => joined,
                    };
                    let owned = crate::text::to_owned_string(content);
                    self.set_source_content(target.as_str(), Some(owned));
                },
                None => {},
            }
            k = k + 1;
        }
        assert(sources@.len() == consumer.spec_raw_sources().len());
    }
}

} // verus!
