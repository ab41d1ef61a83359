//! Building the output CSS together with its source map: inline and external
//! maps, the `sourceMappingURL` annotation, `sourcesContent`, and chaining
//! onto the map of a previous compilation step.

use vstd::prelude::*;

use crate::input::Input;
use crate::node::{NodeId, NodeKind};
use crate::options::{Annotation, MapOptions, ProcessOptions};
use crate::text::{chars_of, push_char, push_str, to_owned_string};
use crate::source_map::{GeneratedMapping, MappingView, SourceMapConsumer, SourceMapGenerator};
use crate::stringifier::{spec_chunk, spec_chunks_text, Chunk, ChunkView, Part};
use crate::tree::{kids_of, NodeView, Tree};

verus! {

/// Bytes that `encodeURI()` leaves alone, plus those kept for paths.
pub open spec fn spec_url_safe(b: u8) -> bool {
    ||| (0x41 <= b <= 0x5a)
    ||| (0x61 <= b <= 0x7a)
    ||| (0x30 <= b <= 0x39)
    ||| b == 0x2d || b == 0x5f || b == 0x2e || b == 0x21 || b == 0x7e || b == 0x2a || b == 0x27
    ||| b == 0x28 || b == 0x29 || b == 0x3b || b == 0x2f || b == 0x3a || b == 0x40 || b == 0x26
    ||| b == 0x3d || b == 0x2b || b == 0x24 || b == 0x2c
}

/// The upper-case hexadecimal digit of `d`.
pub open spec fn spec_hex_digit(d: u8) -> char {
    if d < 10 {
        ((d + 0x30) as u8) as char
    } else {
        ((d - 10 + 0x41) as u8) as char
    }
}

/// A byte as it appears in a URL: itself when safe, `%XX` otherwise.
pub open spec fn spec_url_byte(b: u8) -> Seq<char> {
    if spec_url_safe(b) {
        seq![b as char]
    } else {
        seq!['%', spec_hex_digit(b / 16), spec_hex_digit(b % 16)]
    }
}

/// The URL form of the first `n` bytes.
pub open spec fn spec_url_prefix(bs: Seq<u8>, n: int) -> Seq<char>
    decreases n,
{
    if n <= 0 || n > bs.len() {
        Seq::empty()
    } else {
        spec_url_prefix(bs, n - 1) + spec_url_byte(bs[n - 1])
    }
}

/// `encodeURI()` with `#` and `?` escaped too: a path made safe for a map.
pub open spec fn spec_to_url(path: Seq<char>) -> Seq<char> {
    let bs = vstd::utf8::encode_utf8(path);
    spec_url_prefix(bs, bs.len() as int)
}

fn hex_digit(d: u8) -> (c: char)
    requires
        d < 16,
    ensures
        c == spec_hex_digit(d),
{
    if d < 10 {
        (d + 0x30) as char
    } else {
        (d - 10 + 0x41) as char
    }
}

fn url_safe(b: u8) -> (r: bool)
    ensures
        r == spec_url_safe(b),
{
    (0x41 <= b && b <= 0x5a) || (0x61 <= b && b <= 0x7a) || (0x30 <= b && b <= 0x39) || b == 0x2d || b == 0x5f
        || b == 0x2e || b == 0x21 || b == 0x7e || b == 0x2a || b == 0x27 || b == 0x28 || b == 0x29 || b == 0x3b
        || b == 0x2f || b == 0x3a || b == 0x40 || b == 0x26 || b == 0x3d || b == 0x2b || b == 0x24 || b == 0x2c
}

/// A path made safe to stand in a map: every byte outside the URL-safe set
/// becomes `%XX`.
pub fn to_url(path: &str) -> (r: String)
    ensures
        r@ == spec_to_url(path@),
{
    let bs = path.as_bytes();
    let mut out = String::new();
    let mut i: usize = 0;
    while i < bs.len()
        invariant
            i <= bs@.len(),
            bs@ == vstd::utf8::encode_utf8(path@),
            out@ == spec_url_prefix(bs@, i as int),
        decreases bs@.len() - i,
    {
        let b = bs[i];
        if url_safe(b) {
            push_char(&mut out, b as char);
        } else {
            push_char(&mut out, '%');
            push_char(&mut out, hex_digit(b / 16));
            push_char(&mut out, hex_digit(b % 16));
        }
        proof {
            assert(out@ =~= spec_url_prefix(bs@, i + 1));
        }
        i = i + 1;
    }
    out
}

/// A character sequence's first character is `c`.
pub open spec fn spec_starts_with_char(s: Seq<char>, c: char) -> bool {
    s.len() > 0 && s[0] == c
}

/// Where paths in the map are written relative to: the output file's
/// directory, moved to the annotation's directory when the annotation names
/// a path.
pub open spec fn spec_map_base(map_opts: MapOptions, opts: ProcessOptions) -> Seq<char> {
    let from = match opts.to {
        Some(to) => match crate::paths::spec_dirname(to@) {
            Some(d) => d,
            None => "."@,
        },
        None => "."@,
    };
    match map_opts.annotation {
        Some(Annotation::Path(a)) => match crate::paths::spec_dirname(crate::paths::spec_path_join(from, a@)) {
            Some(d) => d,
            None => "."@,
        },
        _ => from,
    }
}

/// A path as the map writes it: unchanged when absolute paths are asked for,
/// for placeholders such as `<no source>` and for URLs; otherwise relative
/// to the map's base.
pub open spec fn spec_map_path(file: Seq<char>, map_opts: MapOptions, opts: ProcessOptions, cwd: Option<Seq<char>>) -> Seq<char> {
    if map_opts.absolute || spec_starts_with_char(file, '<') || crate::input::spec_is_url(file) {
        file
    } else {
        crate::paths::spec_relative(spec_map_base(map_opts, opts), file, cwd)
    }
}

fn dirname_or_dot(p: &str) -> (r: String)
    ensures
        r@ == match crate::paths::spec_dirname(p@) {
            Some(d) => d,
            None => "."@,
        },
{
    match crate::paths::dirname(p) {
        Some(d) => d,
        None => to_owned_string("."),
    }
}

/// A path as the map writes it; `cwd` is the working directory relative
/// paths are resolved against.
pub fn map_path(file: &str, map_opts: &MapOptions, opts: &ProcessOptions, cwd: Option<&str>) -> (r: String)
    ensures
        r@ == spec_map_path(file@, *map_opts, *opts, crate::node::opt_str_view(cwd)),
{
    let fc = chars_of(file);
    if map_opts.absolute || (fc.len() > 0 && fc[0] == '<') || crate::input::is_url(file) {
        return to_owned_string(file);
    }
    let mut from = match &opts.to {
        Some(to) => dirname_or_dot(to.as_str()),
        None => to_owned_string("."),
    };
    if let Some(Annotation::Path(a)) = &map_opts.annotation {
        let resolved = crate::paths::join(from.as_str(), a.as_str());
        from = dirname_or_dot(resolved.as_str());
    }
    crate::paths::relative(from.as_str(), file, cwd)
}

/// The name of the output file as the map records it: `to`, else `from`,
/// else `to.css`.
pub open spec fn spec_output_file(map_opts: MapOptions, opts: ProcessOptions, cwd: Option<Seq<char>>) -> Seq<char> {
    match opts.to {
        Some(to) => spec_map_path(to@, map_opts, opts, cwd),
        None => match opts.from {
            Some(from) => spec_map_path(from@, map_opts, opts, cwd),
            None => "to.css"@,
        },
    }
}

/// The name of the output file as the map records it.
pub fn output_file(map_opts: &MapOptions, opts: &ProcessOptions, cwd: Option<&str>) -> (r: String)
    ensures
        r@ == spec_output_file(*map_opts, *opts, crate::node::opt_str_view(cwd)),
{
    match &opts.to {
        Some(to) => map_path(to.as_str(), map_opts, opts, cwd),
        None => match &opts.from {
            Some(from) => map_path(from.as_str(), map_opts, opts, cwd),
            None => to_owned_string("to.css"),
        },
    }
}

/// The first occurrence of each value, in order.
pub open spec fn spec_dedup(s: Seq<usize>) -> Seq<usize>
    decreases s.len(),
{
    if s.len() == 0 {
        Seq::empty()
    } else {
        let rest = spec_dedup(s.drop_last());
        if rest.contains(s.last()) {
            rest
        } else {
            rest.push(s.last())
        }
    }
}

/// The inputs that nodes `ns` come from, in order, with repeats.
pub open spec fn spec_sources_of(t: Tree, ns: Seq<NodeId>) -> Seq<usize>
    decreases ns.len(),
{
    if ns.len() == 0 {
        Seq::empty()
    } else {
        let rest = spec_sources_of(t, ns.drop_last());
        match t@[ns.last().0 as int].source {
            Some(s) => if s.input < t.spec_inputs().len() {
                rest.push(s.input)
            } else {
                rest
            },
            None => rest,
        }
    }
}

/// The root followed by every node below it, depth first.
pub open spec fn spec_all_nodes(t: Tree) -> Seq<NodeId> {
    seq![t.spec_root()] + crate::tree::spec_walk(t@, t.spec_root(), t@.len())
}

proof fn lemma_take_contains<A>(s: Seq<A>, q: int, x: A)
    requires
        0 <= q < s.len(),
    ensures
        s.take(q + 1).contains(x) == (s.take(q).contains(x) || s[q] == x),
{
    if s.take(q).contains(x) {
        let w = choose|w: int| 0 <= w < q && #[trigger] s.take(q)[w] == x;
        assert(s.take(q + 1)[w] == x);
    }
    if s.take(q + 1).contains(x) && s[q] != x {
        let w = choose|w: int| 0 <= w < q + 1 && #[trigger] s.take(q + 1)[w] == x;
        assert(s.take(q)[w] == x);
    }
    if s[q] == x {
        assert(s.take(q + 1)[q] == x);
    }
}

impl Tree {
    /// The inputs the tree's nodes come from, each once, in the order the
    /// nodes are walked from the root.
    pub fn input_indexes(&self) -> (r: Vec<usize>)
        requires
            self.wf(),
        ensures
            r@ == spec_dedup(spec_sources_of(*self, spec_all_nodes(*self))),
    {
        let root = self.root();
        let below = crate::tree::walk(self, root, self.len());
        let mut all: Vec<NodeId> = vec![root];
        let mut k: usize = 0;
        while k < below.len()
            invariant
                k <= below@.len(),
                all@ == seq![root] + below@.take(k as int),
                forall|j: int| 0 <= j < below@.len() ==> self.has(#[trigger] below@[j]),
            decreases below@.len() - k,
        {
            all.push(below[k]);
            proof {
                assert(all@ =~= seq![root] + below@.take(k + 1));
            }
            k = k + 1;
        }
        proof {
            assert(below@.take(below@.len() as int) =~= below@);
            assert(all@ == spec_all_nodes(*self));
        }
        let mut out: Vec<usize> = Vec::new();
        let mut i: usize = 0;
        while i < all.len()
            invariant
                i <= all@.len(),
                all@ == spec_all_nodes(*self),
                self.wf(),
                forall|j: int| 0 <= j < all@.len() ==> self.has(#[trigger] all@[j]),
                out@ == spec_dedup(spec_sources_of(*self, all@.take(i as int))),
            decreases all@.len() - i,
        {
            let ghost prev = spec_sources_of(*self, all@.take(i as int));
            let ghost next = spec_sources_of(*self, all@.take(i + 1));
            proof {
                assert(all@.take(i + 1).drop_last() =~= all@.take(i as int));
                assert(all@.take(i + 1).last() == all@[i as int]);
            }
            if let Some(s) = self.source(all[i]) {
                if s.input < self.input_count() {
                    let mut seen = false;
                    let mut q: usize = 0;
                    while q < out.len()
                        invariant
                            q <= out@.len(),
                            seen == out@.take(q as int).contains(s.input),
                        decreases out@.len() - q,
                    {
                        proof {
                            lemma_take_contains(out@, q as int, s.input);
                        }
                        if out[q] == s.input {
                            seen = true;
                        }
                        q = q + 1;
                    }
                    proof {
                        assert(out@.take(out@.len() as int) =~= out@);
                        assert(next == prev.push(s.input));
                        assert(next.drop_last() =~= prev);
                    }
                    if !seen {
                        out.push(s.input);
                    }
                } else {
                    proof {
                        assert(next == prev);
                    }
                }
            } else {
                proof {
                    assert(next == prev);
                }
            }
            i = i + 1;
        }
        proof {
            assert(all@.take(all@.len() as int) =~= all@);
        }
        out
    }
}

/// What an input reports as its name: the file, else the generated id, else
/// `<input css>`.
pub open spec fn spec_input_from(i: Input) -> Seq<char> {
    match i.file() {
        Some(f) => f@,
        None => match i.id() {
            Some(x) => x@,
            None => "<input css>"@,
        },
    }
}

/// How a map run names sources: the options, the working directory, and
/// whether sources are written as absolute `file:` URLs.
pub struct MapContext<'a> {
    /// The map options in force.
    pub map_opts: &'a MapOptions,
    /// The run's options.
    pub opts: &'a ProcessOptions,
    /// Write sources as absolute `file:` URLs.
    pub uses_file_urls: bool,
    /// The directory relative paths are resolved against.
    pub cwd: Option<&'a str>,
}

/// The `sources` entry for an input name.
pub open spec fn spec_source_name(ctx: MapContext, from: Seq<char>) -> Seq<char> {
    match ctx.map_opts.from {
        Some(f) => spec_to_url(f@),
        None => if ctx.uses_file_urls {
            crate::input::spec_path_to_file_url(vstd::utf8::encode_utf8(from))
        } else {
            spec_to_url(spec_map_path(from, *ctx.map_opts, *ctx.opts, crate::node::opt_str_view(ctx.cwd)))
        },
    }
}

/// The `sources` entry for node `n`.
pub open spec fn spec_source_path(t: Tree, n: NodeId, ctx: MapContext) -> Seq<char> {
    spec_source_name(ctx, spec_input_from(t.spec_inputs()[t@[n.0 as int].source->0.input as int]))
}

/// Every node's source names an input of the tree, at 1-based columns.
pub open spec fn spec_sources_ok(t: Tree) -> bool {
    forall|i: int|
        0 <= i < t@.len() ==> ((#[trigger] t@[i]).source matches Some(s) ==> {
            &&& s.input < t.spec_inputs().len()
            &&& (s.start matches Some(p) ==> p.column >= 1)
            &&& (s.end matches Some(p) ==> p.column >= 1)
        })
}

/// A mapping with no original position.
pub open spec fn spec_no_source(line: int, col: int) -> MappingView {
    (line as usize, (col - 1) as usize, Some(1), Some(0), Some("<no source>"@), None)
}

/// The mapping written where node `n` starts in the output.
pub open spec fn spec_start_mapping(t: Tree, n: NodeId, ctx: MapContext, line: int, col: int) -> MappingView {
    match t@[n.0 as int].source {
        Some(s) => match s.start {
            Some(p) => (
                line as usize,
                (col - 1) as usize,
                Some(p.line),
                Some((p.column - 1) as usize),
                Some(spec_source_path(t, n, ctx)),
                None,
            ),
            None => spec_no_source(line, col),
        },
        None => spec_no_source(line, col),
    }
}

/// The mapping written where node `n` ends in the output.
pub open spec fn spec_end_mapping(t: Tree, n: NodeId, ctx: MapContext, line: int, col: int) -> MappingView {
    match t@[n.0 as int].source {
        Some(s) => match s.end {
            Some(p) => (
                line as usize,
                (if col >= 2 { col - 2 } else { 0 }) as usize,
                Some(p.line),
                Some((p.column - 1) as usize),
                Some(spec_source_path(t, n, ctx)),
                None,
            ),
            None => spec_no_source(line, col),
        },
        None => spec_no_source(line, col),
    }
}

/// Whether node `n` gets a mapping at its end: a declaration or block-less
/// at-rule that ends its block has no character of its own after the
/// value, so it gets none unless the block keeps a trailing `;`.
pub open spec fn spec_needs_end(t: Tree, n: NodeId) -> bool {
    let d = t@[n.0 as int];
    let childless = d.kind is Decl || (d.kind is AtRule && d.nodes is None);
    let is_last = d.parent matches Some(p) && p.0 < t@.len() && kids_of(t@[p.0 as int]).len() > 0 && kids_of(
        t@[p.0 as int],
    ).last() == n;
    let parent_semicolon = d.parent matches Some(p) && p.0 < t@.len() && t@[p.0 as int].raws.semicolon == Some(true);
    !childless || !is_last || parent_semicolon
}

/// How many times `c` occurs in `s`.
pub open spec fn spec_count(s: Seq<char>, c: char) -> nat
    decreases s.len(),
{
    if s.len() == 0 {
        0
    } else {
        spec_count(s.drop_last(), c) + if s.last() == c { 1nat } else { 0nat }
    }
}

/// The line and column after writing `text` at `line`, `col`.
pub open spec fn spec_advance(text: Seq<char>, line: int, col: int) -> (int, int) {
    let nl = spec_count(text, '\n');
    if nl > 0 {
        (line + nl, crate::stringifier::spec_last_line(text).len() + 1int)
    } else {
        (line, col + text.len())
    }
}

/// The mappings written for the first `k` chunks, and the line and column
/// after them.
pub open spec fn spec_gen(t: Tree, cs: Seq<ChunkView>, ctx: MapContext, k: int) -> (Seq<MappingView>, int, int)
    decreases k,
{
    if k <= 0 || k > cs.len() {
        (Seq::empty(), 1, 1)
    } else {
        let (ms, line, col) = spec_gen(t, cs, ctx, k - 1);
        let c = cs[k - 1];
        let m1 = match c.node {
            Some(n) => if c.part != Some(Part::End) {
                ms.push(spec_start_mapping(t, n, ctx, line, col))
            } else {
                ms
            },
            None => ms,
        };
        let (line2, col2) = spec_advance(c.text, line, col);
        let m2 = match c.node {
            Some(n) => if c.part != Some(Part::Start) && spec_needs_end(t, n) {
                m1.push(spec_end_mapping(t, n, ctx, line2, col2))
            } else {
                m1
            },
            None => m1,
        };
        (m2, line2, col2)
    }
}

/// A declaration or a childless at-rule that has a following sibling
/// always gets a mapping at its end: right after the chunk that writes it,
/// the mappings end with an end mapping at the line and column reached.
/// The same holds of any node with children, and of the last child of a
/// block written with a trailing `;`.
pub proof fn lemma_end_mapping_written(t: Tree, cs: Seq<ChunkView>, ctx: MapContext, k: int, n: NodeId, p: NodeId, j: int)
    requires
        t.wf(),
        t.has(n),
        0 <= k < cs.len(),
        cs[k].node == Some(n),
        cs[k].part != Some(Part::Start),
        t@[n.0 as int].parent == Some(p),
        ({
            let ks = crate::tree::kids_of(t@[p.0 as int]);
            ||| (0 <= j < ks.len() - 1 && ks[j] == n)
            ||| !(t@[n.0 as int].kind is Decl || (t@[n.0 as int].kind is AtRule && t@[n.0 as int].nodes is None))
            ||| t@[p.0 as int].raws.semicolon == Some(true)
        }),
    ensures
        ({
            let (ms, line, col) = spec_gen(t, cs, ctx, k + 1);
            &&& ms.len() > 0
            &&& ms.last() == spec_end_mapping(t, n, ctx, line, col)
        }),
{
    let ks = crate::tree::kids_of(t@[p.0 as int]);
    assert(crate::tree::node_links_ok(t@, n.0 as int));
    assert(crate::tree::node_links_ok(t@, p.0 as int));
    if 0 <= j < ks.len() - 1 && ks[j] == n {
        assert(ks.last() == ks[ks.len() - 1]);
        assert(ks.last() != n);
    }
    assert(spec_needs_end(t, n));
}

/// The last child of a block written without a trailing `;`, when it is a
/// declaration or a childless at-rule, gets no mapping at its end: the
/// chunk that writes it adds at most its start mapping.
pub proof fn lemma_no_end_mapping_for_last(t: Tree, cs: Seq<ChunkView>, ctx: MapContext, k: int, n: NodeId, p: NodeId)
    requires
        t.wf(),
        t.has(n),
        0 <= k < cs.len(),
        cs[k].node == Some(n),
        t@[n.0 as int].parent == Some(p),
        t@[n.0 as int].kind is Decl || (t@[n.0 as int].kind is AtRule && t@[n.0 as int].nodes is None),
        crate::tree::kids_of(t@[p.0 as int]).last() == n,
        t@[p.0 as int].raws.semicolon != Some(true),
    ensures
        spec_gen(t, cs, ctx, k + 1).0.len() == spec_gen(t, cs, ctx, k).0.len() + if cs[k].part != Some(Part::End) {
            1int
        } else {
            0int
        },
{
    assert(crate::tree::node_links_ok(t@, n.0 as int));
    assert(!spec_needs_end(t, n));
}

proof fn lemma_last_line_push(s: Seq<char>, c: char)
    ensures
        crate::stringifier::spec_last_line(s.push(c)) == if c == '\n' {
            Seq::<char>::empty()
        } else {
            crate::stringifier::spec_last_line(s).push(c)
        },
        spec_count(s.push(c), '\n') == spec_count(s, '\n') + if c == '\n' { 1nat } else { 0nat },
{
    assert(s.push(c).drop_last() =~= s);
    let t = s.push(c);
    if c == '\n' {
        assert(crate::text::spec_rfind_char(t, '\n') == Some(s.len() as int));
        assert(t.subrange(s.len() + 1int, t.len() as int) =~= Seq::<char>::empty());
    } else {
        assert(crate::text::spec_rfind_char(t, '\n') == crate::text::spec_rfind_char(s, '\n'));
        match crate::text::spec_rfind_char(s, '\n') {
            Some(i) => {
                crate::text::lemma_rfind_bounds(s, '\n');
                assert(t.subrange(i + 1, t.len() as int) =~= s.subrange(i + 1, s.len() as int).push(c));
            },
            None => {},
        }
    }
}

/// The line and column after writing `text` at `line`, `col`.
fn advance(text: &str, line: usize, col: usize) -> (r: (usize, usize))
    requires
        line + text@.len() + 2 < 0x1_0000_0000,
        col + text@.len() + 2 < 0x1_0000_0000,
    ensures
        r.0 as int == spec_advance(text@, line as int, col as int).0,
        r.1 as int == spec_advance(text@, line as int, col as int).1,
        r.0 <= line + text@.len(),
        r.1 <= col + text@.len() || r.1 <= text@.len() + 1,
{
    let cs = chars_of(text);
    let mut nl: usize = 0;
    let mut after: usize = 0;
    let mut i: usize = 0;
    proof {
        assert(cs@.take(0) =~= Seq::<char>::empty());
        assert(crate::text::spec_rfind_char(Seq::<char>::empty(), '\n') is None);
    }
    while i < cs.len()
        invariant
            i <= cs@.len(),
            cs@ == text@,
            nl as nat == spec_count(cs@.take(i as int), '\n'),
            after as int == crate::stringifier::spec_last_line(cs@.take(i as int)).len(),
            nl <= i,
            after <= i,
        decreases cs@.len() - i,
    {
        proof {
            assert(cs@.take(i + 1) =~= cs@.take(i as int).push(cs@[i as int]));
            lemma_last_line_push(cs@.take(i as int), cs@[i as int]);
        }
        if cs[i] == '\n' {
            nl = nl + 1;
            after = 0;
        } else {
            after = after + 1;
        }
        i = i + 1;
    }
    proof {
        assert(cs@.take(cs@.len() as int) =~= cs@);
    }
    if nl > 0 {
        (line + nl, after + 1)
    } else {
        (line, col + cs.len())
    }
}

/// The `sources` entry for an input name.
pub fn source_name(ctx: &MapContext, from: &str) -> (r: String)
    ensures
        r@ == spec_source_name(*ctx, from@),
{
    match &ctx.map_opts.from {
        Some(f) => to_url(f.as_str()),
        None => if ctx.uses_file_urls {
            crate::input::path_to_file_url(from)
        } else {
            let p = map_path(from, ctx.map_opts, ctx.opts, ctx.cwd);
            to_url(p.as_str())
        },
    }
}

fn no_source(line: usize, col: usize) -> (m: GeneratedMapping)
    requires
        col >= 1,
    ensures
        crate::source_map::spec_gm(m) == spec_no_source(line as int, col as int),
{
    proof {
        reveal_strlit("<no source>");
    }
    GeneratedMapping {
        generated_line: line,
        generated_column: col - 1,
        original_line: Some(1),
        original_column: Some(0),
        source: Some(to_owned_string("<no source>")),
        name: None,
    }
}

impl Tree {
    /// The input node `n` comes from.
    fn input_of(&self, n: NodeId) -> (r: &Input)
        requires
            self.has(n),
            spec_sources_ok(*self),
            self@[n.0 as int].source is Some,
        ensures
            *r == self.spec_inputs()[self@[n.0 as int].source->0.input as int],
    {
        let s = *self.source(n).unwrap();
        proof {
            assert(self@[n.0 as int].source matches Some(x) && x.input < self.spec_inputs().len());
        }
        self.input(s.input).unwrap()
    }
}

fn start_mapping(t: &Tree, n: NodeId, ctx: &MapContext, line: usize, col: usize) -> (m: GeneratedMapping)
    requires
        t.has(n),
        spec_sources_ok(*t),
        col >= 1,
    ensures
        crate::source_map::spec_gm(m) == spec_start_mapping(*t, n, *ctx, line as int, col as int),
{
    match t.source(n) {
        Some(s) => match s.start {
            Some(p) => {
                proof {
                    assert(t@[n.0 as int].source == Some(*s));
                    assert(p.column >= 1);
                }
                let input = t.input_of(n);
                let name = source_name(ctx, input.from());
                GeneratedMapping {
                    generated_line: line,
                    generated_column: col - 1,
                    original_line: Some(p.line),
                    original_column: Some(p.column - 1),
                    source: Some(name),
                    name: None,
                }
            },
            None => no_source(line, col),
        },
        None => no_source(line, col),
    }
}

fn end_mapping(t: &Tree, n: NodeId, ctx: &MapContext, line: usize, col: usize) -> (m: GeneratedMapping)
    requires
        t.has(n),
        spec_sources_ok(*t),
        col >= 1,
    ensures
        crate::source_map::spec_gm(m) == spec_end_mapping(*t, n, *ctx, line as int, col as int),
{
    match t.source(n) {
        Some(s) => match s.end {
            Some(p) => {
                proof {
                    assert(t@[n.0 as int].source == Some(*s));
                    assert(p.column >= 1);
                }
                let input = t.input_of(n);
                let name = source_name(ctx, input.from());
                GeneratedMapping {
                    generated_line: line,
                    generated_column: col.saturating_sub(2),
                    original_line: Some(p.line),
                    original_column: Some(p.column - 1),
                    source: Some(name),
                    name: None,
                }
            },
            None => no_source(line, col),
        },
        None => no_source(line, col),
    }
}

fn needs_end(t: &Tree, n: NodeId) -> (b: bool)
    requires
        t.wf(),
        t.has(n),
    ensures
        b == spec_needs_end(*t, n),
{
    let childless = match t.kind(n) {
        NodeKind::Decl { .. } => true,
        NodeKind::AtRule { .. } => !t.is_container(n),
        _ => false,
    };
    proof {
        assert(crate::tree::node_links_ok(t@, n.0 as int));
    }
    let (is_last, parent_semicolon) = match t.parent(n) {
        Some(p) => {
            let last = t.last(p) == Some(n);
            let semi = match t.raws(p).semicolon {
                Some(b) => b,
                None => false,
            };
            (last, semi)
        },
        None => (false, false),
    };
    !childless || !is_last || parent_semicolon
}

proof fn lemma_text_prefix(cs: Seq<ChunkView>, k: int)
    requires
        0 <= k <= cs.len(),
    ensures
        spec_chunks_text(cs.take(k)).len() <= spec_chunks_text(cs).len(),
    decreases cs.len() - k,
{
    if k < cs.len() {
        lemma_text_prefix(cs, k + 1);
        assert(cs.take(k + 1).drop_last() =~= cs.take(k));
    } else {
        assert(cs.take(k) =~= cs);
    }
}

/// The output of the whole tree with a mapping for the start and end of
/// every node, as chunks are written.
pub fn generate_mappings(tree: &Tree, ctx: &MapContext) -> (r: (String, Vec<GeneratedMapping>))
    requires
        tree.wf(),
        spec_sources_ok(*tree),
        crate::stringifier::spec_to_css(tree@, tree.spec_root()).len() < 0x4000_0000,
    ensures
        r.0@ == crate::stringifier::spec_to_css(tree@, tree.spec_root()),
        crate::source_map::spec_gm_views(r.1@) == spec_gen(
            *tree,
            crate::stringifier::spec_node_chunks(tree@, tree.spec_root(), false, tree@.len()),
            *ctx,
            crate::stringifier::spec_node_chunks(tree@, tree.spec_root(), false, tree@.len()).len() as int,
        ).0,
{
    let root = tree.root();
    let cs = crate::stringifier::chunks(tree, root);
    let ghost views = cs@.map_values(|c: Chunk| spec_chunk(c));
    let ghost total = spec_chunks_text(views).len();
    proof {
        crate::stringifier::lemma_chunk_nodes(tree@, root, false, tree@.len());
        assert forall|j: int| 0 <= j < cs@.len() implies ((#[trigger] cs@[j]).node matches Some(n) ==> tree.has(n)) by {
            assert(views[j] == spec_chunk(cs@[j]));
        }
    }
    let mut css = String::new();
    let mut ms: Vec<GeneratedMapping> = Vec::new();
    let mut line: usize = 1;
    let mut col: usize = 1;
    let mut k: usize = 0;
    proof {
        assert(views.take(0) =~= Seq::<ChunkView>::empty());
        assert(crate::source_map::spec_gm_views(ms@) =~= Seq::<MappingView>::empty());
    }
    while k < cs.len()
        invariant
            k <= cs@.len(),
            tree.wf(),
            spec_sources_ok(*tree),
            views == cs@.map_values(|c: Chunk| spec_chunk(c)),
            total == spec_chunks_text(views).len(),
            total < 0x4000_0000,
            css@ == spec_chunks_text(views.take(k as int)),
            crate::source_map::spec_gm_views(ms@) == spec_gen(*tree, views, *ctx, k as int).0,
            line as int == spec_gen(*tree, views, *ctx, k as int).1,
            col as int == spec_gen(*tree, views, *ctx, k as int).2,
            1 <= line <= 1 + css@.len(),
            1 <= col <= 1 + css@.len(),
            forall|j: int| 0 <= j < cs@.len() ==> ((#[trigger] cs@[j]).node matches Some(n) ==> tree.has(n)),
        decreases cs@.len() - k,
    {
        proof {
            lemma_text_prefix(views, k + 1);
            assert(views.take(k + 1).drop_last() =~= views.take(k as int));
            assert(views.take(k + 1).last() == views[k as int]);
            assert(views[k as int] == spec_chunk(cs@[k as int]));
        }
        let c = &cs[k];
        let ghost ms0 = ms@;
        match c.node {
            Some(n) => {
                let is_end = match c.part {
                    Some(Part::End) => true,
                    _ => false,
                };
                if !is_end {
                    ms.push(start_mapping(tree, n, ctx, line, col));
                }
            },
            None => {},
        }
        let (line2, col2) = advance(c.text.as_str(), line, col);
        push_str(&mut css, c.text.as_str());
        match c.node {
            Some(n) => {
                let is_start = match c.part {
                    Some(Part::Start) => true,
                    _ => false,
                };
                if !is_start && needs_end(tree, n) {
                    ms.push(end_mapping(tree, n, ctx, line2, col2));
                }
            },
            None => {},
        }
        proof {
            assert(crate::source_map::spec_gm_views(ms@) =~= spec_gen(*tree, views, *ctx, k + 1).0);
        }
        line = line2;
        col = col2;
        k = k + 1;
    }
    proof {
        assert(views.take(cs@.len() as int) =~= views);
    }
    (css, ms)
}

/// The inputs among `s` that carry a source map, in order.
pub open spec fn spec_mapped(t: Tree, s: Seq<usize>) -> Seq<usize>
    decreases s.len(),
{
    if s.len() == 0 {
        Seq::empty()
    } else {
        let rest = spec_mapped(t, s.drop_last());
        if s.last() < t.spec_inputs().len() && t.spec_inputs()[s.last() as int].spec_map() is Some {
            rest.push(s.last())
        } else {
            rest
        }
    }
}

/// The inputs of the tree that carry a source map, in walk order, each
/// once.
pub open spec fn spec_previous_maps(t: Tree) -> Seq<usize> {
    spec_mapped(t, spec_dedup(spec_sources_of(t, spec_all_nodes(t))))
}

/// The map of input `i`.
pub open spec fn spec_prev(t: Tree, i: usize) -> crate::previous_map::PreviousMap {
    t.spec_inputs()[i as int].spec_map()->0
}

/// Every entry names an input of the tree that carries a map.
pub open spec fn spec_prev_ok(t: Tree, prev: Seq<usize>) -> bool {
    forall|j: int|
        0 <= j < prev.len() ==> (#[trigger] prev[j]) < t.spec_inputs().len() && t.spec_inputs()[prev[j] as int].spec_map() is Some
}

/// The inputs that carry a source map, in walk order, each once.
pub fn previous_maps(tree: &Tree) -> (r: Vec<usize>)
    requires
        tree.wf(),
    ensures
        r@ == spec_previous_maps(*tree),
        spec_prev_ok(*tree, r@),
{
    let all = tree.input_indexes();
    let mut out: Vec<usize> = Vec::new();
    let mut i: usize = 0;
    proof {
        assert(all@.take(0) =~= Seq::<usize>::empty());
    }
    while i < all.len()
        invariant
            i <= all@.len(),
            out@ == spec_mapped(*tree, all@.take(i as int)),
            spec_prev_ok(*tree, out@),
        decreases all@.len() - i,
    {
        proof {
            assert(all@.take(i + 1).drop_last() =~= all@.take(i as int));
        }
        let x = all[i];
        if x < tree.input_count() {
            let has = match tree.input(x) {
                Some(inp) => inp.previous_map().is_some(),
                None => false,
            };
            if has {
                out.push(x);
            }
        }
        i = i + 1;
    }
    proof {
        assert(all@.take(all@.len() as int) =~= all@);
    }
    out
}

/// Some previous map is inline.
pub open spec fn spec_any_inline(t: Tree, prev: Seq<usize>) -> bool {
    exists|j: int| 0 <= j < prev.len() && (#[trigger] spec_prev(t, prev[j])).inline
}

/// Some previous map came with an annotation.
pub open spec fn spec_any_annotated(t: Tree, prev: Seq<usize>) -> bool {
    exists|j: int| 0 <= j < prev.len() && (#[trigger] spec_prev(t, prev[j])).annotation is Some
}

/// A map embeds its sources.
pub open spec fn spec_has_content(m: crate::previous_map::PreviousMap) -> bool {
    m.spec_consumer() matches Some(c) && c.spec_contents() matches Some(v) && v.len() > 0
}

/// Some previous map embeds its sources.
pub open spec fn spec_any_content(t: Tree, prev: Seq<usize>) -> bool {
    exists|j: int| 0 <= j < prev.len() && spec_has_content(#[trigger] spec_prev(t, prev[j]))
}

/// Whether the map goes inline into the CSS: as asked, else never beside an
/// explicit annotation path, else like a previous map, else yes.
pub open spec fn spec_is_inline(mo: MapOptions, t: Tree, prev: Seq<usize>) -> bool {
    match mo.inline {
        Some(b) => b,
        None => match mo.annotation {
            Some(Annotation::Enabled) | None => if prev.len() > 0 {
                spec_any_inline(t, prev)
            } else {
                true
            },
            Some(_) => false,
        },
    }
}

/// Whether the CSS gets a `sourceMappingURL` comment.
pub open spec fn spec_is_annotation(mo: MapOptions, t: Tree, prev: Seq<usize>) -> bool {
    if spec_is_inline(mo, t, prev) {
        true
    } else {
        match mo.annotation {
            Some(Annotation::Disabled) => false,
            Some(_) => true,
            None => if prev.len() > 0 {
                spec_any_annotated(t, prev)
            } else {
                true
            },
        }
    }
}

/// Whether the map embeds the original sources.
pub open spec fn spec_is_sources_content(mo: MapOptions, t: Tree, prev: Seq<usize>) -> bool {
    match mo.sources_content {
        Some(b) => b,
        None => if prev.len() > 0 {
            spec_any_content(t, prev)
        } else {
            true
        },
    }
}

fn any_prev(t: &Tree, prev: &[usize], what: u8) -> (r: bool)
    requires
        spec_prev_ok(*t, prev@),
        what < 3,
    ensures
        what == 0 ==> r == spec_any_inline(*t, prev@),
        what == 1 ==> r == spec_any_annotated(*t, prev@),
        what == 2 ==> r == spec_any_content(*t, prev@),
{
    let mut j: usize = 0;
    while j < prev.len()
        invariant
            j <= prev@.len(),
            spec_prev_ok(*t, prev@),
            what == 0 ==> forall|q: int| 0 <= q < j ==> !(#[trigger] spec_prev(*t, prev@[q])).inline,
            what == 1 ==> forall|q: int| 0 <= q < j ==> (#[trigger] spec_prev(*t, prev@[q])).annotation is None,
            what == 2 ==> forall|q: int| 0 <= q < j ==> !spec_has_content(#[trigger] spec_prev(*t, prev@[q])),
        decreases prev@.len() - j,
    {
        let inp = t.input(prev[j]).unwrap();
        let m = inp.previous_map().unwrap();
        proof {
            assert(spec_prev(*t, prev@[j as int]) == *m);
        }
        let hit = if what == 0 {
            m.inline
        } else if what == 1 {
            m.annotation.is_some()
        } else {
            m.with_content()
        };
        if hit {
            return true;
        }
        j = j + 1;
    }
    false
}

/// Whether the map goes inline into the CSS.
pub fn is_inline(mo: &MapOptions, t: &Tree, prev: &[usize]) -> (r: bool)
    requires
        spec_prev_ok(*t, prev@),
    ensures
        r == spec_is_inline(*mo, *t, prev@),
{
    match mo.inline {
        Some(b) => b,
        None => match &mo.annotation {
            Some(Annotation::Enabled) | None => if prev.len() > 0 {
                any_prev(t, prev, 0)
            } else {
                true
            },
            Some(_) => false,
        },
    }
}

/// Whether the CSS gets a `sourceMappingURL` comment.
pub fn is_annotation(mo: &MapOptions, t: &Tree, prev: &[usize]) -> (r: bool)
    requires
        spec_prev_ok(*t, prev@),
    ensures
        r == spec_is_annotation(*mo, *t, prev@),
{
    if is_inline(mo, t, prev) {
        return true;
    }
    match &mo.annotation {
        Some(Annotation::Disabled) => false,
        Some(_) => true,
        None => if prev.len() > 0 {
            any_prev(t, prev, 1)
        } else {
            true
        },
    }
}

/// Whether the map embeds the original sources.
pub fn is_sources_content(mo: &MapOptions, t: &Tree, prev: &[usize]) -> (r: bool)
    requires
        spec_prev_ok(*t, prev@),
    ensures
        r == spec_is_sources_content(*mo, *t, prev@),
{
    match mo.sources_content {
        Some(b) => b,
        None => if prev.len() > 0 {
            any_prev(t, prev, 2)
        } else {
            true
        },
    }
}

/// The comment that points at the map: after a line break in the CSS's own
/// style (`\r\n` when it has one).
pub open spec fn spec_annotation_comment(css: Seq<char>, content: Seq<char>) -> Seq<char> {
    let eol = if crate::text::spec_find_from(css, "\r\n"@, 0) is Some { "\r\n"@ } else { "\n"@ };
    eol + "/*# sourceMappingURL="@ + content + " */"@
}

/// Appends the comment that points at the map.
pub fn add_annotation(css: &mut String, content: &str)
    ensures
        final(css)@ == old(css)@ + spec_annotation_comment(old(css)@, content@),
{
    let cs = chars_of(css.as_str());
    let crlf = chars_of("\r\n");
    let eol = if crate::text::find(&cs, &crlf, 0).is_some() {
        "\r\n"
    } else {
        "\n"
    };
    push_str(css, eol);
    push_str(css, "/*# sourceMappingURL=");
    push_str(css, content);
    push_str(css, " */");
}

/// The annotation content of an inline map: a base64 `data:` URI of the
/// map's JSON.
pub open spec fn spec_inline_content(json: Seq<char>) -> Seq<char> {
    "data:application/json;base64,"@ + crate::vlq::spec_base64_encode(vstd::utf8::encode_utf8(json))
}

/// The annotation content of an inline map.
pub fn inline_content(json: &str) -> (r: String)
    ensures
        r@ == spec_inline_content(json@),
{
    let mut r = to_owned_string("data:application/json;base64,");
    let enc = crate::vlq::base64_encode(json.as_bytes());
    push_str(&mut r, enc.as_str());
    r
}

/// The annotation content of an external map: the path asked for, else the
/// output file with `.map`.
pub open spec fn spec_external_content(mo: MapOptions, opts: ProcessOptions, cwd: Option<Seq<char>>) -> Seq<char> {
    match mo.annotation {
        Some(Annotation::Path(p)) => p@,
        _ => spec_output_file(mo, opts, cwd) + ".map"@,
    }
}

/// The annotation content of an external map.
pub fn external_content(mo: &MapOptions, opts: &ProcessOptions, cwd: Option<&str>) -> (r: String)
    ensures
        r@ == spec_external_content(*mo, *opts, crate::node::opt_str_view(cwd)),
{
    match &mo.annotation {
        Some(Annotation::Path(p)) => p.clone(),
        _ => {
            let mut r = output_file(mo, opts, cwd);
            push_str(&mut r, ".map");
            r
        },
    }
}

/// A comment that points at the map of an earlier step.
pub open spec fn spec_is_map_annotation(n: NodeView) -> bool {
    n.kind matches NodeKind::Comment { text } && crate::previous_map::spec_starts_with(text@, "# sourceMappingURL="@)
}

/// Children `ks` without the comments that point at an earlier map.
pub open spec fn spec_without_annotations(v: Seq<NodeView>, ks: Seq<NodeId>) -> Seq<NodeId>
    decreases ks.len(),
{
    if ks.len() == 0 {
        Seq::empty()
    } else {
        let rest = spec_without_annotations(v, ks.drop_first());
        if spec_is_map_annotation(v[ks[0].0 as int]) {
            rest
        } else {
            seq![ks[0]] + rest
        }
    }
}

/// Removes from the root the comments that point at an earlier step's map,
/// unless annotations are disabled.
pub fn clear_annotation(tree: &mut Tree, map_opts: &MapOptions)
    requires
        old(tree).wf(),
    ensures
        final(tree).wf(),
        final(tree).spec_root() == old(tree).spec_root(),
        final(tree).spec_inputs() == old(tree).spec_inputs(),
        final(tree)@.len() == old(tree)@.len(),
        forall|x: int| 0 <= x < old(tree)@.len() ==> (#[trigger] final(tree)@[x]).kind == old(tree)@[x].kind,
        forall|x: int| 0 <= x < old(tree)@.len() ==> (#[trigger] final(tree)@[x]).source == old(tree)@[x].source,
        map_opts.annotation matches Some(Annotation::Disabled) ==> final(tree)@ == old(tree)@,
        !(map_opts.annotation matches Some(Annotation::Disabled)) ==> final(tree).kids(final(tree).spec_root())
            == spec_without_annotations(old(tree)@, old(tree).kids(old(tree).spec_root())),
{
    match &map_opts.annotation {
        Some(Annotation::Disabled) => {
            return;
        },
        _ => {},
    }
    let root = tree.root();
    let ghost v0 = tree@;
    let ghost ks0 = tree.kids(root);
    let mut ks: Vec<NodeId> = Vec::new();
    let mut j: usize = 0;
    let n = tree.children(root).len();
    while j < n
        invariant
            j <= n,
            n == ks0.len(),
            tree@ == v0,
            tree.wf(),
            tree.spec_root() == root,
            ks0 == tree.kids(root),
            ks@ == ks0.take(j as int),
        decreases n - j,
    {
        let c = tree.children(root)[j];
        ks.push(c);
        proof {
            assert(ks@ =~= ks0.take(j + 1));
        }
        j = j + 1;
    }
    proof {
        assert(ks@ =~= ks0);
        assert(ks0.skip(n as int) =~= Seq::<NodeId>::empty());
        assert(ks0.take(n as int) =~= ks0);
        crate::tree::lemma_kids_indexed(*tree, root);
        assert(crate::tree::node_links_ok(v0, root.0 as int));
    }
    let mut i: usize = n;
    while i > 0
        invariant
            i <= n,
            n == ks0.len(),
            ks@ == ks0,
            ks0.no_duplicates(),
            tree.wf(),
            tree.spec_root() == root,
            root == old(tree).spec_root(),
            tree.spec_inputs() == old(tree).spec_inputs(),
            tree@.len() == v0.len(),
            v0 == old(tree)@,
            ks0 == old(tree).kids(root),
            forall|x: int| 0 <= x < v0.len() ==> (#[trigger] tree@[x]).kind == v0[x].kind,
            forall|x: int| 0 <= x < v0.len() ==> (#[trigger] tree@[x]).source == v0[x].source,
            tree.kids(root) == ks0.take(i as int) + spec_without_annotations(v0, ks0.skip(i as int)),
            forall|q: int| 0 <= q < ks0.len() ==> (#[trigger] ks0[q]).0 < v0.len(),
        decreases i,
    {
        let c = ks[i - 1];
        let ghost cur = tree.kids(root);
        proof {
            assert(ks0.skip(i - 1).drop_first() =~= ks0.skip(i as int));
            assert(ks0.skip(i - 1)[0] == c);
        }
        let is_ann = match tree.text(c) {
            Some(t) => {
                let tc = chars_of(t);
                crate::previous_map::starts_with(&tc, "# sourceMappingURL=")
            },
            None => false,
        };
        proof {
            assert(tree@[c.0 as int].kind == v0[c.0 as int].kind);
        }
        if is_ann {
            let ghost before = tree@;
            proof {
                assert(cur[i - 1] == c);
                crate::tree::lemma_kids_indexed(*tree, root);
                assert(cur.index_of(cur[i - 1]) == i - 1);
                crate::tree::lemma_remove_child_facts(before, root, c, false);
            }
            tree.remove_child(root, c);
            proof {
                assert(cur.contains(c));
                assert(root.0 < before.len());
                assert(crate::tree::node_links_ok(before, root.0 as int));
                if cur.len() > 1 {
                    assert(cur[1].0 < before.len());
                }
                let sh = crate::tree::spec_shift_before(before, root, i - 1 == 0);
                assert(kids_of(sh[root.0 as int]) == cur);
                assert(tree.kids(root) =~= cur.remove(i - 1));
                assert(tree.kids(root) =~= ks0.take(i - 1) + spec_without_annotations(v0, ks0.skip(i - 1)));
            }
        } else {
            proof {
                assert(cur =~= ks0.take(i - 1) + spec_without_annotations(v0, ks0.skip(i - 1)));
            }
        }
        i = i - 1;
    }
    proof {
        assert(ks0.take(0) =~= Seq::<NodeId>::empty());
        assert(ks0.skip(0) =~= ks0);
        assert(tree.kids(root) =~= spec_without_annotations(v0, ks0));
    }
}

/// What a map generator holds, as its contracts see it: mappings,
/// sources, names, embedded contents, source root and file.
pub open spec fn spec_gview(g: SourceMapGenerator) -> (
    Seq<MappingView>,
    Seq<Seq<char>>,
    Seq<Seq<char>>,
    Map<Seq<char>, Seq<char>>,
    Option<Seq<char>>,
    Option<Seq<char>>,
) {
    (g.spec_mappings(), g.spec_sources(), g.spec_names(), g.spec_contents(), g.spec_root(), g.spec_file())
}

/// The sources-content entries of a map: for each input among `idx`, in
/// order, the first with a given non-empty name, its `sources` URL and its
/// CSS.
pub open spec fn spec_content_entries(t: Tree, idx: Seq<usize>, ctx: MapContext) -> Seq<(Seq<char>, Seq<char>)>
    decreases idx.len(),
{
    if idx.len() == 0 {
        Seq::empty()
    } else {
        let rest = spec_content_entries(t, idx.drop_last(), ctx);
        let input = t.spec_inputs()[idx.last() as int];
        let from = spec_input_from(input);
        let earlier = idx.drop_last().map_values(|i: usize| spec_input_from(t.spec_inputs()[i as int]));
        if from.len() == 0 || earlier.contains(from) {
            rest
        } else {
            rest.push((spec_content_url(ctx, from), input.css_view()))
        }
    }
}

/// The URL under which an input's CSS is embedded.
pub open spec fn spec_content_url(ctx: MapContext, from: Seq<char>) -> Seq<char> {
    if ctx.uses_file_urls {
        crate::input::spec_path_to_file_url(vstd::utf8::encode_utf8(from))
    } else {
        spec_to_url(spec_map_path(from, *ctx.map_opts, *ctx.opts, crate::node::opt_str_view(ctx.cwd)))
    }
}

/// Contents `m` with entries `es` embedded in order, under source root
/// `root`.
pub open spec fn spec_embed_all(
    m: Map<Seq<char>, Seq<char>>,
    root: Option<Seq<char>>,
    es: Seq<(Seq<char>, Seq<char>)>,
) -> Map<Seq<char>, Seq<char>>
    decreases es.len(),
{
    if es.len() == 0 {
        m
    } else {
        spec_embed_all(m, root, es.drop_last()).insert(
            crate::source_map::spec_content_key(root, es.last().0),
            es.last().1,
        )
    }
}

/// The inputs the tree's nodes come from, each once, in walk order.
pub open spec fn spec_input_order(t: Tree) -> Seq<usize> {
    spec_dedup(spec_sources_of(t, spec_all_nodes(t)))
}

proof fn lemma_sources_in_range(t: Tree, ns: Seq<NodeId>)
    ensures
        forall|j: int| 0 <= j < spec_sources_of(t, ns).len() ==> (#[trigger] spec_sources_of(t, ns)[j]) < t.spec_inputs().len(),
    decreases ns.len(),
{
    if ns.len() > 0 {
        let rest = spec_sources_of(t, ns.drop_last());
        lemma_sources_in_range(t, ns.drop_last());
        assert forall|j: int| 0 <= j < spec_sources_of(t, ns).len() implies (#[trigger] spec_sources_of(t, ns)[j])
            < t.spec_inputs().len() by {
            if j < rest.len() {
                assert(spec_sources_of(t, ns)[j] == rest[j]);
            }
        }
    }
}

proof fn lemma_dedup_from(s: Seq<usize>)
    ensures
        forall|j: int| 0 <= j < spec_dedup(s).len() ==> s.contains(#[trigger] spec_dedup(s)[j]),
    decreases s.len(),
{
    if s.len() > 0 {
        lemma_dedup_from(s.drop_last());
        assert forall|j: int| 0 <= j < spec_dedup(s).len() implies s.contains(#[trigger] spec_dedup(s)[j]) by {
            let rest = spec_dedup(s.drop_last());
            if j < rest.len() {
                assert(s.drop_last().contains(rest[j]));
                let w = choose|w: int| 0 <= w < s.drop_last().len() && s.drop_last()[w] == rest[j];
                assert(s[w] == rest[j]);
            } else {
                assert(s[s.len() - 1] == spec_dedup(s)[j]);
            }
        }
    }
}

/// Every input in the walk order is an input of the tree.
pub proof fn lemma_input_order(t: Tree)
    ensures
        forall|j: int| 0 <= j < spec_input_order(t).len() ==> (#[trigger] spec_input_order(t)[j]) < t.spec_inputs().len(),
{
    let s = spec_sources_of(t, spec_all_nodes(t));
    lemma_sources_in_range(t, spec_all_nodes(t));
    lemma_dedup_from(s);
    assert forall|j: int| 0 <= j < spec_input_order(t).len() implies (#[trigger] spec_input_order(t)[j]) < t.spec_inputs().len() by {
        assert(s.contains(spec_input_order(t)[j]));
    }
}

/// Every input of the tree is consistent.
pub open spec fn spec_inputs_wf(t: Tree) -> bool {
    forall|i: int| 0 <= i < t.spec_inputs().len() ==> (#[trigger] t.spec_inputs()[i]).wf()
}

/// Embeds the CSS of every input the tree's nodes come from, in walk order,
/// once per input name.
pub fn set_sources_content(g: &mut SourceMapGenerator, tree: &Tree, ctx: &MapContext)
    requires
        old(g).wf(),
        tree.wf(),
    ensures
        final(g).wf(),
        spec_gview(*final(g)) == (
            old(g).spec_mappings(),
            old(g).spec_sources(),
            old(g).spec_names(),
            spec_embed_all(
                old(g).spec_contents(),
                old(g).spec_root(),
                spec_content_entries(*tree, spec_input_order(*tree), *ctx),
            ),
            old(g).spec_root(),
            old(g).spec_file(),
        ),
{
    let idx = tree.input_indexes();
    proof {
        lemma_input_order(*tree);
    }
    let ghost ix = idx@;
    let mut seen: Vec<String> = Vec::new();
    let mut k: usize = 0;
    proof {
        assert(ix.take(0) =~= Seq::<usize>::empty());
    }
    while k < idx.len()
        invariant
            k <= ix.len(),
            ix == idx@,
            ix == spec_input_order(*tree),
            forall|j: int| 0 <= j < ix.len() ==> (#[trigger] ix[j]) < tree.spec_inputs().len(),
            g.wf(),
            seen@.len() == k,
            forall|j: int| 0 <= j < k ==> (#[trigger] seen@[j])@ == spec_input_from(tree.spec_inputs()[ix[j] as int]),
            spec_gview(*g) == (
                old(g).spec_mappings(),
                old(g).spec_sources(),
                old(g).spec_names(),
                spec_embed_all(old(g).spec_contents(), old(g).spec_root(), spec_content_entries(*tree, ix.take(k as int), *ctx)),
                old(g).spec_root(),
                old(g).spec_file(),
            ),
        decreases ix.len() - k,
    {
        let input = tree.input(idx[k]).unwrap();
        let from = input.from();
        let ghost earlier = ix.take(k as int).map_values(|i: usize| spec_input_from(tree.spec_inputs()[i as int]));
        let mut dup = false;
        let mut q: usize = 0;
        while q < seen.len()
            invariant
                q <= seen@.len(),
                seen@.len() == k,
                k < ix.len(),
                forall|j: int| 0 <= j < k ==> (#[trigger] seen@[j])@ == spec_input_from(tree.spec_inputs()[ix[j] as int]),
                earlier == ix.take(k as int).map_values(|i: usize| spec_input_from(tree.spec_inputs()[i as int])),
                dup == earlier.take(q as int).contains(from@),
            decreases seen@.len() - q,
        {
            proof {
                assert(earlier[q as int] == seen@[q as int]@);
                lemma_take_contains(earlier, q as int, from@);
            }
            if crate::node::str_eq(seen[q].as_str(), from) {
                dup = true;
            }
            q = q + 1;
        }
        proof {
            assert(earlier.take(k as int) =~= earlier);
            assert(ix.take(k + 1).drop_last() =~= ix.take(k as int));
            assert(ix.take(k + 1).last() == ix[k as int]);
        }
        let from_chars = chars_of(from);
        let ghost es_old = spec_content_entries(*tree, ix.take(k as int), *ctx);
        let ghost inp = tree.spec_inputs()[ix[k as int] as int];
        proof {
            assert(*input == inp);
            assert(spec_input_from(inp) == from@);
            assert(spec_content_entries(*tree, ix.take(k + 1), *ctx) == if from@.len() == 0 || earlier.contains(from@) {
                es_old
            } else {
                es_old.push((spec_content_url(*ctx, from@), inp.css_view()))
            });
        }
        if from_chars.len() > 0 && !dup {
            let url = if ctx.uses_file_urls {
                crate::input::path_to_file_url(from)
            } else {
                let p = map_path(from, ctx.map_opts, ctx.opts, ctx.cwd);
                to_url(p.as_str())
            };
            proof {
                assert(url@ == spec_content_url(*ctx, from@));
            }
            let css = to_owned_string(input.css());
            g.set_source_content(url.as_str(), Some(css));
            proof {
                let e = (spec_content_url(*ctx, from@), inp.css_view());
                assert(es_old.push(e).drop_last() =~= es_old);
                assert(es_old.push(e).last() == e);
            }
        }
        seen.push(to_owned_string(from));
        proof {
            assert forall|j: int| 0 <= j < k + 1 implies (#[trigger] seen@[j])@ == spec_input_from(tree.spec_inputs()[ix[j] as int]) by {
            }
        }
        k = k + 1;
    }
    proof {
        assert(ix.take(ix.len() as int) =~= ix);
    }
}

/// One previous map applied to a generator's view: mappings from `f`
/// retargeted through `c`, sources and names listed again, and the
/// consumer's contents copied unless `strip`.
pub open spec fn spec_apply_step(
    gv: (Seq<MappingView>, Seq<Seq<char>>, Seq<Seq<char>>, Map<Seq<char>, Seq<char>>, Option<Seq<char>>, Option<Seq<char>>),
    c: SourceMapConsumer,
    f: Seq<char>,
    smp: Option<Seq<char>>,
    strip: bool,
) -> (Seq<MappingView>, Seq<Seq<char>>, Seq<Seq<char>>, Map<Seq<char>, Seq<char>>, Option<Seq<char>>, Option<Seq<char>>) {
    let sf = crate::source_map::spec_content_key(gv.4, f);
    let ms = gv.0.map_values(|m: MappingView| crate::source_map::spec_retarget(m, c, sf, smp, gv.4));
    (
        ms,
        crate::source_map::spec_sources_of(ms),
        crate::source_map::spec_names_of(ms),
        if strip {
            gv.3
        } else {
            crate::source_map::spec_copy_contents(gv.3, c, smp, gv.4, c.spec_raw_sources().len() as int)
        },
        gv.4,
        gv.5,
    )
}

/// The file a previous map belongs to, empty when unknown.
pub open spec fn spec_prev_file(m: crate::previous_map::PreviousMap) -> Seq<char> {
    match m.file {
        Some(f) => f@,
        None => Seq::empty(),
    }
}

/// The source a previous map describes, as the new map names it.
pub open spec fn spec_prev_from(
    m: crate::previous_map::PreviousMap,
    mo: MapOptions,
    opts: ProcessOptions,
    cwd: Option<Seq<char>>,
) -> Seq<char> {
    spec_to_url(spec_map_path(spec_prev_file(m), mo, opts, cwd))
}

/// The directory a previous map's sources are relative to, as the new map
/// names it: its root, else its file's directory, else `.`.
pub open spec fn spec_prev_root(
    m: crate::previous_map::PreviousMap,
    mo: MapOptions,
    opts: ProcessOptions,
    cwd: Option<Seq<char>>,
) -> Seq<char> {
    let root = match m.root {
        Some(r) => r@,
        None => match crate::paths::spec_dirname(spec_prev_file(m)) {
            Some(d) => d,
            None => "."@,
        },
    };
    spec_to_url(spec_map_path(root, mo, opts, cwd))
}

/// A generator's view after the first `k` previous maps of `prev` are
/// applied in order; a map that did not parse is skipped.
pub open spec fn spec_apply_prevs(
    gv: (Seq<MappingView>, Seq<Seq<char>>, Seq<Seq<char>>, Map<Seq<char>, Seq<char>>, Option<Seq<char>>, Option<Seq<char>>),
    t: Tree,
    prev: Seq<usize>,
    mo: MapOptions,
    opts: ProcessOptions,
    cwd: Option<Seq<char>>,
    k: int,
) -> (Seq<MappingView>, Seq<Seq<char>>, Seq<Seq<char>>, Map<Seq<char>, Seq<char>>, Option<Seq<char>>, Option<Seq<char>>)
    decreases k,
{
    if k <= 0 {
        gv
    } else {
        let before = spec_apply_prevs(gv, t, prev, mo, opts, cwd, k - 1);
        let m = spec_prev(t, prev[k - 1]);
        match m.spec_consumer() {
            Some(c) => spec_apply_step(
                before,
                c,
                spec_prev_from(m, mo, opts, cwd),
                Some(spec_prev_root(m, mo, opts, cwd)),
                mo.sources_content == Some(false),
            ),
            None => before,
        }
    }
}

proof fn lemma_copy_nothing(
    init: Map<Seq<char>, Seq<char>>,
    c: SourceMapConsumer,
    smp: Option<Seq<char>>,
    root: Option<Seq<char>>,
    n: int,
)
    requires
        c.spec_contents() is None,
    ensures
        crate::source_map::spec_copy_contents(init, c, smp, root, n) == init,
    decreases n,
{
    if n > 0 {
        lemma_copy_nothing(init, c, smp, root, n - 1);
    }
}

/// Retargets the map through the map of each input that has one, in
/// order, as the previous compilation steps produced them.
pub fn apply_previous_maps(
    g: &mut SourceMapGenerator,
    tree: &Tree,
    prev: &Vec<usize>,
    mo: &MapOptions,
    opts: &ProcessOptions,
    cwd: Option<&str>,
)
    requires
        old(g).wf(),
        spec_prev_ok(*tree, prev@),
        spec_inputs_wf(*tree),
    ensures
        final(g).wf(),
        spec_gview(*final(g)) == spec_apply_prevs(
            spec_gview(*old(g)),
            *tree,
            prev@,
            *mo,
            *opts,
            crate::node::opt_str_view(cwd),
            prev@.len() as int,
        ),
{
    let mut k: usize = 0;
    while k < prev.len()
        invariant
            k <= prev@.len(),
            g.wf(),
            spec_prev_ok(*tree, prev@),
            spec_inputs_wf(*tree),
            spec_gview(*g) == spec_apply_prevs(
                spec_gview(*old(g)),
                *tree,
                prev@,
                *mo,
                *opts,
                crate::node::opt_str_view(cwd),
                k as int,
            ),
        decreases prev@.len() - k,
    {
        let inp = tree.input(prev[k]).unwrap();
        proof {
            assert(prev@[k as int] < tree.spec_inputs().len());
            assert(tree.spec_inputs()[prev@[k as int] as int].wf());
            inp.lemma_map_wf();
        }
        let m = inp.previous_map().unwrap();
        let ghost gv0 = spec_gview(*g);
        proof {
            assert(*m == spec_prev(*tree, prev@[k as int]));
        }
        match m.consumer() {
            None => {},
            Some(consumer) => {
                let prev_file = match &m.file {
                    Some(f) => to_owned_string(f.as_str()),
                    None => String::new(),
                };
                let fp = map_path(prev_file.as_str(), mo, opts, cwd);
                let from = to_url(fp.as_str());
                let root = match &m.root {
                    Some(r) => to_owned_string(r.as_str()),
                    None => dirname_or_dot(prev_file.as_str()),
                };
                let rp = map_path(root.as_str(), mo, opts, cwd);
                let smp = to_url(rp.as_str());
                proof {
                    assert(prev_file@ == spec_prev_file(*m));
                    assert(from@ == spec_prev_from(*m, *mo, *opts, crate::node::opt_str_view(cwd)));
                    assert(smp@ == spec_prev_root(*m, *mo, *opts, crate::node::opt_str_view(cwd)));
                }
                let strip = match mo.sources_content {
                    Some(b) => !b,
                    None => false,
                };
                if strip {
                    let stripped = consumer.without_contents();
                    g.apply_source_map(&stripped, Some(from.as_str()), Some(smp.as_str()));
                    proof {
                        lemma_copy_nothing(
                            gv0.3,
                            stripped,
                            Some(smp@),
                            gv0.4,
                            stripped.spec_raw_sources().len() as int,
                        );
                        let sf = crate::source_map::spec_content_key(gv0.4, from@);
                        let ms1 = gv0.0.map_values(
                            |x: MappingView| crate::source_map::spec_retarget(x, stripped, sf, Some(smp@), gv0.4),
                        );
                        let ms2 = gv0.0.map_values(
                            |x: MappingView| crate::source_map::spec_retarget(x, *consumer, sf, Some(smp@), gv0.4),
                        );
                        assert(ms1 =~= ms2);
                    }
                } else {
                    g.apply_source_map(consumer, Some(from.as_str()), Some(smp.as_str()));
                }
            },
        }
        k = k + 1;
    }
}

/// The map of a run before previous maps: the mappings the stringifier's
/// chunks give, their sources and names, the embedded CSS of the inputs
/// when asked for, for output file `file`.
pub open spec fn spec_fresh_view(
    t: Tree,
    ctx: MapContext,
    file: Seq<char>,
    with_content: bool,
) -> (Seq<MappingView>, Seq<Seq<char>>, Seq<Seq<char>>, Map<Seq<char>, Seq<char>>, Option<Seq<char>>, Option<Seq<char>>) {
    let cs = crate::stringifier::spec_node_chunks(t@, t.spec_root(), false, t@.len());
    let ms = spec_gen(t, cs, ctx, cs.len() as int).0;
    (
        ms,
        crate::source_map::spec_sources_of(ms),
        crate::source_map::spec_names_of(ms),
        if with_content {
            spec_embed_all(Map::empty(), None, spec_content_entries(t, spec_input_order(t), ctx))
        } else {
            Map::empty()
        },
        None,
        Some(file),
    )
}

/// The map a run writes for tree `t`.
pub open spec fn spec_map_view(
    t: Tree,
    mo: MapOptions,
    opts: ProcessOptions,
    ctx: MapContext,
) -> (Seq<MappingView>, Seq<Seq<char>>, Seq<Seq<char>>, Map<Seq<char>, Seq<char>>, Option<Seq<char>>, Option<Seq<char>>) {
    let cwd = crate::node::opt_str_view(ctx.cwd);
    let prev = spec_previous_maps(t);
    spec_apply_prevs(
        spec_fresh_view(t, ctx, spec_output_file(mo, opts, cwd), spec_is_sources_content(mo, t, prev)),
        t,
        prev,
        mo,
        opts,
        cwd,
        prev.len() as int,
    )
}

/// Whether a run writes a map: as the options say, else when an input
/// came with one.
pub open spec fn spec_wants_map(opts: ProcessOptions, t: Tree) -> bool {
    match opts.map {
        Some(s) => !(s is Disabled),
        None => spec_previous_maps(t).len() > 0,
    }
}

/// Renders a tree to CSS with its source map. The comments pointing at an
/// earlier step's map are dropped first (unless annotations are disabled).
/// When a map is wanted, it records every node, embeds the inputs' CSS when
/// asked, and is chained through the maps the inputs came with; the CSS
/// then gets a `sourceMappingURL` comment, as asked or as the inputs had
/// one, pointing at the map file or holding the map itself, base64 encoded
/// from the JSON `map_json` writes. An inline map is not returned. An output
/// of 2^30 characters or more is returned without a map.
pub fn generate<F: Fn(&SourceMapGenerator) -> String>(
    tree: &mut Tree,
    mo: &MapOptions,
    opts: &ProcessOptions,
    cwd: Option<&str>,
    map_json: F,
) -> (r: (String, Option<SourceMapGenerator>))
    requires
        old(tree).wf(),
        spec_sources_ok(*old(tree)),
        spec_inputs_wf(*old(tree)),
        forall|g: &SourceMapGenerator| call_requires(map_json, (g,)),
    ensures
        final(tree).wf(),
        final(tree).spec_root() == old(tree).spec_root(),
        final(tree).spec_inputs() == old(tree).spec_inputs(),
        !(mo.annotation matches Some(Annotation::Disabled)) ==> final(tree).kids(final(tree).spec_root())
            == spec_without_annotations(old(tree)@, old(tree).kids(old(tree).spec_root())),
        mo.annotation matches Some(Annotation::Disabled) ==> final(tree)@ == old(tree)@,
        ({
            let t = *final(tree);
            let base = crate::stringifier::spec_to_css(t@, t.spec_root());
            let prev = spec_previous_maps(t);
            let ctx = MapContext { map_opts: mo, opts, uses_file_urls: mo.from is None && mo.absolute, cwd };
            let inline = spec_is_inline(*mo, t, prev);
            let cwd_v = crate::node::opt_str_view(cwd);
            if !spec_wants_map(*opts, t) || base.len() >= 0x4000_0000 {
                r.0@ == base && r.1 is None
            } else {
                &&& (r.1 is Some <==> !inline)
                &&& (r.1 matches Some(g) ==> spec_gview(g) == spec_map_view(t, *mo, *opts, ctx))
                &&& !spec_is_annotation(*mo, t, prev) ==> r.0@ == base
                &&& spec_is_annotation(*mo, t, prev) && !inline ==> r.0@ == base + spec_annotation_comment(
                    base,
                    spec_external_content(*mo, *opts, cwd_v),
                )
                &&& inline ==> exists|g: SourceMapGenerator, j: String|
                    spec_gview(g) == spec_map_view(t, *mo, *opts, ctx) && call_ensures(map_json, (&g,), j)
                        && r.0@ == base + spec_annotation_comment(base, spec_inline_content(j@))
            }
        }),
{
    clear_annotation(tree, mo);
    let t: &Tree = tree;
    proof {
        assert(spec_sources_ok(*t));
        assert(spec_inputs_wf(*t));
    }
    let prev = previous_maps(t);
    let wants = match &opts.map {
        Some(s) => s.is_enabled(),
        None => prev.len() > 0,
    };
    let plain = t.to_css();
    if !wants || chars_of(plain.as_str()).len() >= 0x4000_0000 {
        return (plain, None);
    }
    let ctx = MapContext { map_opts: mo, opts, uses_file_urls: mo.from.is_none() && mo.absolute, cwd };
    let file = output_file(mo, opts, cwd);
    let mut g = SourceMapGenerator::new(Some(file));
    let (css, ms) = generate_mappings(t, &ctx);
    let ghost msv = crate::source_map::spec_gm_views(ms@);
    let mut k: usize = 0;
    proof {
        assert(msv.take(0) =~= Seq::<MappingView>::empty());
    }
    while k < ms.len()
        invariant
            k <= ms@.len(),
            msv == crate::source_map::spec_gm_views(ms@),
            g.wf(),
            spec_gview(g) == (
                msv.take(k as int),
                crate::source_map::spec_sources_of(msv.take(k as int)),
                crate::source_map::spec_names_of(msv.take(k as int)),
                Map::<Seq<char>, Seq<char>>::empty(),
                None::<Seq<char>>,
                Some(spec_output_file(*mo, *opts, crate::node::opt_str_view(cwd))),
            ),
        decreases ms@.len() - k,
    {
        let m = crate::source_map::clone_gm(&ms[k]);
        g.add_mapping(m);
        proof {
            assert(msv.take(k + 1) =~= msv.take(k as int).push(msv[k as int]));
            assert(msv.take(k + 1).drop_last() =~= msv.take(k as int));
        }
        k = k + 1;
    }
    proof {
        assert(msv.take(ms@.len() as int) =~= msv);
    }
    if is_sources_content(mo, t, prev.as_slice()) {
        set_sources_content(&mut g, t, &ctx);
    }
    if prev.len() > 0 {
        apply_previous_maps(&mut g, t, &prev, mo, opts, cwd);
    } else {
        proof {
            assert(spec_apply_prevs(spec_gview(g), *t, prev@, *mo, *opts, crate::node::opt_str_view(cwd), 0) == spec_gview(g));
        }
    }
    let mut out = css;
    let inline = is_inline(mo, t, prev.as_slice());
    if is_annotation(mo, t, prev.as_slice()) {
        if inline {
            let json = map_json(&g);
            let content = inline_content(json.as_str());
            add_annotation(&mut out, content.as_str());
        } else {
            let content = external_content(mo, opts, cwd);
            add_annotation(&mut out, content.as_str());
        }
    }
    if inline {
        (out, None)
    } else {
        (out, Some(g))
    }
}

} // verus!
