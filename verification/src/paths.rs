//! POSIX path arithmetic: components, parents, joining, relative paths and
//! `file:` URLs.
//!
//! Paths are `/`-separated. A path's components follow the usual rules:
//! repeated separators and `.` segments vanish, except for a `.` that starts
//! a relative path, and `..` is kept as a component.

use vstd::prelude::*;
use crate::source_map::spec_char_views;
use crate::text::{chars_of, push_char, spec_join, spec_split_on, string_of};

verus! {

/// Whether a path is absolute: it starts at the root.
pub open spec fn spec_is_absolute(p: Seq<char>) -> bool {
    p.len() > 0 && p[0] == '/'
}

/// The segments kept as components: all but the empty ones and `.`.
pub open spec fn spec_keep_segments(segs: Seq<Seq<char>>) -> Seq<Seq<char>>
    decreases segs.len(),
{
    if segs.len() == 0 {
        Seq::empty()
    } else {
        let rest = spec_keep_segments(segs.drop_last());
        let s = segs.last();
        if s.len() == 0 || s == "."@ {
            rest
        } else {
            rest.push(s)
        }
    }
}

/// The components of a path, each as its text: `/` for the root, `.` for a
/// leading current directory, `..` for a parent, else the name.
pub open spec fn spec_components(p: Seq<char>) -> Seq<Seq<char>> {
    let segs = spec_split_on(p, '/');
    let abs = spec_is_absolute(p);
    let lead_cur = !abs && segs[0] == "."@;
    (if abs { seq!["/"@] } else { Seq::empty() }) + (if lead_cur { seq!["."@] } else { Seq::empty() })
        + spec_keep_segments(if lead_cur { segs.drop_first() } else { segs })
}

/// The text of a list of components: the root, then the others joined by
/// `/`.
pub open spec fn spec_render(parts: Seq<Seq<char>>) -> Seq<char> {
    if parts.len() > 0 && parts[0] == "/"@ {
        "/"@ + spec_join(parts.drop_first(), "/"@)
    } else {
        spec_join(parts, "/"@)
    }
}

/// `PathBuf::pop`: drops the last component, unless there is none or only
/// the root is left.
pub open spec fn spec_pop(parts: Seq<Seq<char>>) -> Option<Seq<Seq<char>>> {
    if parts.len() == 0 || (parts.len() == 1 && parts[0] == "/"@) {
        None
    } else {
        Some(parts.drop_last())
    }
}

/// `PathBuf::push` of one component: the root replaces everything.
pub open spec fn spec_push(parts: Seq<Seq<char>>, c: Seq<char>) -> Seq<Seq<char>> {
    if c == "/"@ {
        seq!["/"@]
    } else {
        parts.push(c)
    }
}

/// `Path::parent` of a path: its components without the last one, `None`
/// for an empty path or the root alone.
pub open spec fn spec_parent(p: Seq<char>) -> Option<Seq<char>> {
    match spec_pop(spec_components(p)) {
        Some(rest) => Some(spec_render(rest)),
        None => None,
    }
}

/// `dirname`: the parent, `.` when it is empty.
pub open spec fn spec_dirname(p: Seq<char>) -> Option<Seq<char>> {
    match spec_parent(p) {
        Some(d) => if d.len() == 0 {
            Some("."@)
        } else {
            Some(d)
        },
        None => None,
    }
}

/// Collapses components: `.` vanishes, `..` pops (or, in `join`, stays when
/// nothing can be popped).
pub open spec fn spec_collapse(parts: Seq<Seq<char>>, keep_unpoppable: bool) -> Seq<Seq<char>>
    decreases parts.len(),
{
    if parts.len() == 0 {
        Seq::empty()
    } else {
        let acc = spec_collapse(parts.drop_last(), keep_unpoppable);
        let c = parts.last();
        if c == "."@ {
            acc
        } else if c == ".."@ {
            match spec_pop(acc) {
                Some(p) => p,
                None => if keep_unpoppable {
                    acc.push(".."@)
                } else {
                    acc
                },
            }
        } else {
            spec_push(acc, c)
        }
    }
}

/// `join`: `path` on its own when absolute, else `base` and `path` joined
/// and collapsed, `..` that cannot pop kept.
pub open spec fn spec_path_join(base: Seq<char>, path: Seq<char>) -> Seq<char> {
    if spec_is_absolute(path) {
        path
    } else {
        spec_render(spec_collapse(spec_components(base) + spec_components(path), true))
    }
}

/// `path.resolve()` against a working directory: the path collapsed, after
/// putting it under `cwd` when it is relative; as is when it is relative
/// and no working directory is known.
pub open spec fn spec_absolute_path(p: Seq<char>, cwd: Option<Seq<char>>) -> Seq<char> {
    if spec_is_absolute(p) {
        spec_render(spec_collapse(spec_components(p), false))
    } else {
        match cwd {
            Some(c) => spec_render(spec_collapse(spec_components(c) + spec_components(p), false)),
            None => spec_render(spec_collapse(spec_components(p), true)),
        }
    }
}

/// The length of the common prefix of two component lists, from `i`.
pub open spec fn spec_common_from(a: Seq<Seq<char>>, b: Seq<Seq<char>>, i: int) -> int
    decreases a.len() - i,
{
    if i < 0 || i >= a.len() || i >= b.len() || a[i] != b[i] {
        i
    } else {
        spec_common_from(a, b, i + 1)
    }
}

/// `path.relative()`: from `base` to `target`, both resolved first: a `..`
/// for each component of `base` past the common prefix, then the rest of
/// `target`.
pub open spec fn spec_relative(base: Seq<char>, target: Seq<char>, cwd: Option<Seq<char>>) -> Seq<char> {
    let b = spec_components(spec_absolute_path(base, cwd));
    let t = spec_components(spec_absolute_path(target, cwd));
    let k = spec_common_from(b, t, 0);
    spec_render(
        spec_push_all(Seq::new((b.len() - k) as nat, |i: int| ".."@), t.subrange(k, t.len() as int)),
    )
}

/// Pushes components in turn.
pub open spec fn spec_push_all(init: Seq<Seq<char>>, cs: Seq<Seq<char>>) -> Seq<Seq<char>>
    decreases cs.len(),
{
    if cs.len() == 0 {
        init
    } else {
        spec_push(spec_push_all(init, cs.drop_last()), cs.last())
    }
}

/// Splits on one character.
pub fn split_chars(chars: &Vec<char>, c: char) -> (r: Vec<Vec<char>>)
    ensures
        spec_char_views(r@) == spec_split_on(chars@, c),
{
    let mut parts: Vec<Vec<char>> = Vec::new();
    let mut current: Vec<char> = Vec::new();
    let mut i: usize = 0;
    while i < chars.len()
        invariant
            i <= chars@.len(),
            ({
                let split = spec_split_on(chars@.subrange(0, i as int), c);
                &&& split.len() >= 1
                &&& spec_char_views(parts@) == split.drop_last()
                &&& current@ == split.last()
            }),
        decreases chars.len() - i,
    {
        let x = chars[i];
        let ghost prefix = chars@.subrange(0, i as int);
        let ghost split = spec_split_on(prefix, c);
        assert(chars@.subrange(0, i + 1).drop_last() =~= prefix);
        if x == c {
            let ghost cur = current@;
            let ghost before = spec_char_views(parts@);
            let piece = current;
            current = Vec::new();
            parts.push(piece);
            proof {
                assert(spec_split_on(chars@.subrange(0, i + 1), c) =~= split.push(Seq::empty()));
                assert(spec_char_views(parts@) =~= before.push(cur));
                assert(split =~= split.drop_last().push(split.last()));
            }
        } else {
            current.push(x);
            proof {
                let next = spec_split_on(chars@.subrange(0, i + 1), c);
                assert(next =~= split.update(split.len() - 1, split.last().push(x)));
                assert(next.drop_last() =~= split.drop_last());
            }
        }
        i = i + 1;
    }
    let ghost before = spec_char_views(parts@);
    let ghost cur = current@;
    parts.push(current);
    proof {
        let split = spec_split_on(chars@.subrange(0, i as int), c);
        assert(chars@.subrange(0, i as int) =~= chars@);
        assert(spec_char_views(parts@) =~= before.push(cur));
        assert(split =~= split.drop_last().push(split.last()));
    }
    parts
}

fn is_text(v: &Vec<char>, t: &str) -> (r: bool)
    ensures
        r == (v@ == t@),
{
    let tc = chars_of(t);
    crate::source_map::chars_eq(v, &tc)
}

/// The components of a path.
pub fn components(path: &Vec<char>) -> (r: Vec<Vec<char>>)
    ensures
        spec_char_views(r@) == spec_components(path@),
{
    let segs = split_chars(path, '/');
    proof {
        crate::text::lemma_split_on_len(path@, '/');
    }
    let abs = path.len() > 0 && path[0] == '/';
    let mut out: Vec<Vec<char>> = Vec::new();
    if abs {
        out.push(chars_of("/"));
    }
    let lead_cur = !abs && is_text(&segs[0], ".");
    if lead_cur {
        out.push(chars_of("."));
    }
    let ghost head = spec_char_views(out@);
    let start: usize = if lead_cur { 1 } else { 0 };
    let ghost rest = if lead_cur { spec_char_views(segs@).drop_first() } else { spec_char_views(segs@) };
    let mut i = start;
    while i < segs.len()
        invariant
            start <= i <= segs@.len(),
            start <= 1,
            segs@.len() >= 1,
            rest == spec_char_views(segs@).subrange(start as int, segs@.len() as int),
            spec_char_views(out@) == head + spec_keep_segments(rest.take(i - start)),
        decreases segs.len() - i,
    {
        let ghost before = spec_char_views(out@);
        proof {
            assert(rest.take(i + 1 - start).drop_last() =~= rest.take(i - start));
            assert(rest.take(i + 1 - start).last() == segs@[i as int]@);
        }
        if !(segs[i].len() == 0 || is_text(&segs[i], ".")) {
            let piece = crate::text::slice_chars(&segs[i], 0, segs[i].len());
            assert(piece@ =~= segs@[i as int]@);
            out.push(piece);
            assert(spec_char_views(out@) =~= before.push(piece@));
        }
        i = i + 1;
    }
    proof {
        assert(rest.take(segs@.len() - start) =~= rest);
        assert(spec_char_views(segs@).subrange(start as int, segs@.len() as int) =~= (if lead_cur {
            spec_char_views(segs@).drop_first()
        } else {
            spec_char_views(segs@)
        }));
        reveal_strlit("/");
        reveal_strlit(".");
        assert(seq!['/'] =~= "/"@);
    }
    out
}


/// The text of a list of components.
pub fn render(parts: &Vec<Vec<char>>) -> (r: String)
    ensures
        r@ == spec_render(spec_char_views(parts@)),
{
    proof {
        reveal_strlit("/");
        assert(seq!['/'] =~= "/"@);
    }
    if parts.len() > 0 && is_text(&parts[0], "/") {
        let mut rest: Vec<Vec<char>> = Vec::new();
        let mut i: usize = 1;
        while i < parts.len()
            invariant
                1 <= i <= parts@.len(),
                spec_char_views(rest@) =~= spec_char_views(parts@).subrange(1, i as int),
            decreases parts.len() - i,
        {
            let piece = crate::text::slice_chars(&parts[i], 0, parts[i].len());
            assert(piece@ =~= parts@[i as int]@);
            let ghost before = spec_char_views(rest@);
            rest.push(piece);
            assert(spec_char_views(rest@) =~= before.push(piece@));
            i = i + 1;
        }
        assert(spec_char_views(parts@).subrange(1, parts@.len() as int) =~= spec_char_views(parts@).drop_first());
        let joined = crate::source_map::join_chars_pub(&rest, '/');
        let mut out = String::new();
        push_char(&mut out, '/');
        let tail = string_of(&joined);
        crate::text::push_str(&mut out, tail.as_str());
        assert(out@ =~= "/"@ + joined@);
        out
    } else {
        let joined = crate::source_map::join_chars_pub(parts, '/');
        string_of(&joined)
    }
}

fn pop(parts: &mut Vec<Vec<char>>) -> (r: bool)
    ensures
        r == (spec_pop(spec_char_views(old(parts)@)) is Some),
        match spec_pop(spec_char_views(old(parts)@)) {
            Some(p) => spec_char_views(final(parts)@) == p,
            None => final(parts)@ == old(parts)@,
        },
{
    if parts.len() == 0 || (parts.len() == 1 && is_text(&parts[0], "/")) {
        return false;
    }
    let ghost before = spec_char_views(parts@);
    let _ = parts.pop();
    assert(spec_char_views(parts@) =~= before.drop_last());
    true
}

fn push_part(parts: &mut Vec<Vec<char>>, c: Vec<char>)
    ensures
        spec_char_views(final(parts)@) == spec_push(spec_char_views(old(parts)@), c@),
{
    let ghost before = spec_char_views(parts@);
    if is_text(&c, "/") {
        let mut fresh: Vec<Vec<char>> = Vec::new();
        fresh.push(c);
        *parts = fresh;
        assert(spec_char_views(parts@) =~= seq!["/"@]);
    } else {
        let ghost cv = c@;
        parts.push(c);
        assert(spec_char_views(parts@) =~= before.push(cv));
    }
}

/// Collapses a list of components.
fn collapse(parts: &Vec<Vec<char>>, keep_unpoppable: bool) -> (r: Vec<Vec<char>>)
    ensures
        spec_char_views(r@) == spec_collapse(spec_char_views(parts@), keep_unpoppable),
{
    let mut acc: Vec<Vec<char>> = Vec::new();
    let mut i: usize = 0;
    while i < parts.len()
        invariant
            i <= parts@.len(),
            spec_char_views(acc@) == spec_collapse(spec_char_views(parts@).take(i as int), keep_unpoppable),
        decreases parts.len() - i,
    {
        proof {
            assert(spec_char_views(parts@).take(i + 1).drop_last() =~= spec_char_views(parts@).take(i as int));
            assert(spec_char_views(parts@).take(i + 1).last() == parts@[i as int]@);
        }
        let c = crate::text::slice_chars(&parts[i], 0, parts[i].len());
        assert(c@ =~= parts@[i as int]@);
        if is_text(&c, ".") {
        } else if is_text(&c, "..") {
            if !pop(&mut acc) && keep_unpoppable {
                let ghost before = spec_char_views(acc@);
                let dd = chars_of("..");
                acc.push(dd);
                assert(spec_char_views(acc@) =~= before.push(".."@));
            }
        } else {
            push_part(&mut acc, c);
        }
        i = i + 1;
    }
    assert(spec_char_views(parts@).take(parts@.len() as int) =~= spec_char_views(parts@));
    acc
}

/// `Path::parent` with an empty parent given as `.`.
pub fn dirname(path: &str) -> (r: Option<String>)
    ensures
        crate::error::opt_view(r) == spec_dirname(path@),
{
    let chars = chars_of(path);
    let mut parts = components(&chars);
    if !pop(&mut parts) {
        return None;
    }
    let d = render(&parts);
    if d.as_str().as_bytes().len() == 0 {
        proof {
            reveal_strlit(".");
            vstd::utf8::encode_utf8_valid_utf8(d@);
            lemma_empty_encoding(d@);
        }
        Some(crate::text::to_owned_string("."))
    } else {
        proof {
            lemma_nonempty_encoding(d@);
        }
        Some(d)
    }
}

proof fn lemma_empty_encoding(s: Seq<char>)
    requires
        vstd::utf8::encode_utf8(s).len() == 0,
    ensures
        s.len() == 0,
{
    if s.len() > 0 {
        vstd::utf8::encode_utf8_first_scalar(s);
    }
}

proof fn lemma_nonempty_encoding(s: Seq<char>)
    requires
        vstd::utf8::encode_utf8(s).len() != 0,
    ensures
        s.len() != 0,
{
    if s.len() == 0 {
        assert(vstd::utf8::encode_utf8(s) =~= Seq::<u8>::empty());
    }
}

fn concat_parts(a: &Vec<Vec<char>>, b: &Vec<Vec<char>>) -> (r: Vec<Vec<char>>)
    ensures
        spec_char_views(r@) == spec_char_views(a@) + spec_char_views(b@),
{
    let mut out: Vec<Vec<char>> = Vec::new();
    let mut i: usize = 0;
    while i < a.len()
        invariant
            i <= a@.len(),
            spec_char_views(out@) =~= spec_char_views(a@).take(i as int),
        decreases a.len() - i,
    {
        let piece = crate::text::slice_chars(&a[i], 0, a[i].len());
        assert(piece@ =~= a@[i as int]@);
        let ghost before = spec_char_views(out@);
        out.push(piece);
        assert(spec_char_views(out@) =~= before.push(piece@));
        i = i + 1;
    }
    let mut j: usize = 0;
    while j < b.len()
        invariant
            j <= b@.len(),
            i == a@.len(),
            spec_char_views(out@) =~= spec_char_views(a@).take(i as int) + spec_char_views(b@).take(j as int),
        decreases b.len() - j,
    {
        let piece = crate::text::slice_chars(&b[j], 0, b[j].len());
        assert(piece@ =~= b@[j as int]@);
        let ghost before = spec_char_views(out@);
        out.push(piece);
        assert(spec_char_views(out@) =~= before.push(piece@));
        j = j + 1;
    }
    assert(spec_char_views(a@).take(a@.len() as int) =~= spec_char_views(a@));
    assert(spec_char_views(b@).take(b@.len() as int) =~= spec_char_views(b@));
    out
}

/// Joins `path` onto `base`, collapsing `.` and `..`.
pub fn join(base: &str, path: &str) -> (r: String)
    ensures
        r@ == spec_path_join(base@, path@),
{
    let path_chars = chars_of(path);
    if path_chars.len() > 0 && path_chars[0] == '/' {
        return string_of(&path_chars);
    }
    let base_chars = chars_of(base);
    let b = components(&base_chars);
    let p = components(&path_chars);
    let all = concat_parts(&b, &p);
    let collapsed = collapse(&all, true);
    render(&collapsed)
}

/// Resolves a path against the working directory, like `path.resolve()`.
pub fn absolute_path(path: &str, cwd: Option<&str>) -> (r: String)
    ensures
        r@ == spec_absolute_path(path@, match cwd {
            Some(c) => Some(c@),
            None => None,
        }),
{
    let path_chars = chars_of(path);
    let p = components(&path_chars);
    if path_chars.len() > 0 && path_chars[0] == '/' {
        let collapsed = collapse(&p, false);
        return render(&collapsed);
    }
    match cwd {
        Some(c) => {
            let cwd_chars = chars_of(c);
            let cp = components(&cwd_chars);
            let all = concat_parts(&cp, &p);
            let collapsed = collapse(&all, false);
            render(&collapsed)
        },
        None => {
            let collapsed = collapse(&p, true);
            render(&collapsed)
        },
    }
}

/// `path.relative()`: the path from `base` to `target`.
pub fn relative(base: &str, target: &str, cwd: Option<&str>) -> (r: String)
    ensures
        r@ == spec_relative(base@, target@, match cwd {
            Some(c) => Some(c@),
            None => None,
        }),
{
    let base_abs = absolute_path(base, cwd);
    let target_abs = absolute_path(target, cwd);
    let bc = chars_of(base_abs.as_str());
    let tc = chars_of(target_abs.as_str());
    let b = components(&bc);
    let t = components(&tc);
    let ghost bv = spec_char_views(b@);
    let ghost tv = spec_char_views(t@);
    let mut k: usize = 0;
    while k < b.len() && k < t.len() && crate::source_map::chars_eq(&b[k], &t[k])
        invariant
            k <= b@.len(),
            k <= t@.len(),
            bv == spec_char_views(b@),
            tv == spec_char_views(t@),
            spec_common_from(bv, tv, k as int) == spec_common_from(bv, tv, 0),
        decreases b.len() - k,
    {
        k = k + 1;
    }
    let mut result: Vec<Vec<char>> = Vec::new();
    let mut i = k;
    while i < b.len()
        invariant
            k <= i <= b@.len(),
            spec_char_views(result@) =~= Seq::new((i - k) as nat, |j: int| ".."@),
        decreases b.len() - i,
    {
        let dd = chars_of("..");
        let ghost before = spec_char_views(result@);
        result.push(dd);
        assert(spec_char_views(result@) =~= before.push(".."@));
        i = i + 1;
    }
    let ghost init = spec_char_views(result@);
    let mut j = k;
    while j < t.len()
        invariant
            k <= j <= t@.len(),
            tv == spec_char_views(t@),
            spec_char_views(result@) == spec_push_all(init, tv.subrange(k as int, j as int)),
        decreases t.len() - j,
    {
        proof {
            assert(tv.subrange(k as int, j + 1).drop_last() =~= tv.subrange(k as int, j as int));
            assert(tv.subrange(k as int, j + 1).last() == t@[j as int]@);
        }
        let piece = crate::text::slice_chars(&t[j], 0, t[j].len());
        assert(piece@ =~= t@[j as int]@);
        push_part(&mut result, piece);
        j = j + 1;
    }
    render(&result)
}


/// Whether a path is absolute.
pub fn is_absolute_str(path: &str) -> (r: bool)
    ensures
        r == spec_is_absolute(path@),
{
    let chars = chars_of(path);
    chars.len() > 0 && chars[0] == '/'
}

} // verus!
