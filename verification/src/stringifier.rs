//! Turning the syntax tree back into CSS.
//!
//! Output is byte-identical to the input for an unmodified tree; for modified
//! or hand-built trees, missing whitespace is inferred from the rest of the
//! document, so new nodes follow the file's existing style.

use vstd::prelude::*;

use crate::node::{NodeId, NodeKind};
use crate::text::{chars_of, push_char, push_str, rfind_char, spec_is_whitespace, spec_rfind_char};
use crate::tree::{kids_of, spec_walk, walk, NodeView, Tree};

verus! {

/// Which end of a node a chunk of output belongs to.
///
/// Source map generation needs this to map the `{` of a rule to the rule's
/// start and its `}` to the rule's end.
#[derive(Clone, Copy, Debug, PartialEq, Eq, Structural)]
pub enum Part {
    /// The chunk opens the node.
    Start,
    /// The chunk closes the node.
    End,
}

/// A character of a regular-expression word (`\w`): an ASCII letter or
/// digit, or `_`.
pub open spec fn spec_word_char(c: char) -> bool {
    ('a' <= c <= 'z') || ('A' <= c <= 'Z') || ('0' <= c <= '9') || c == '_'
}

fn word_char(c: char) -> (r: bool)
    ensures
        r == spec_word_char(c),
{
    ('a' <= c && c <= 'z') || ('A' <= c && c <= 'Z') || ('0' <= c && c <= '9') || c == '_'
}

/// ASCII lower case of a character; other characters are unchanged.
pub open spec fn spec_ascii_lower(c: char) -> char {
    if 'A' <= c <= 'Z' {
        ((c as u32) + 32) as char
    } else {
        c
    }
}

/// The five characters at `k` spell `style` in any ASCII case.
pub open spec fn spec_style_word_at(t: Seq<char>, k: int) -> bool {
    &&& 0 <= k
    &&& k + 5 <= t.len()
    &&& spec_ascii_lower(t[k]) == 's'
    &&& spec_ascii_lower(t[k + 1]) == 't'
    &&& spec_ascii_lower(t[k + 2]) == 'y'
    &&& spec_ascii_lower(t[k + 3]) == 'l'
    &&& spec_ascii_lower(t[k + 4]) == 'e'
}

/// `<` at `i` opens `<style`, `</style` (as a whole word) or `<!--`.
pub open spec fn spec_dangerous_at(t: Seq<char>, i: int) -> bool {
    let k = if i + 1 < t.len() && t[i + 1] == '/' { i + 2 } else { i + 1 };
    &&& 0 <= i < t.len()
    &&& t[i] == '<'
    &&& {
        ||| (spec_style_word_at(t, k) && !(k + 5 < t.len() && spec_word_char(t[k + 5])))
        ||| (i + 3 < t.len() && t[i + 1] == '!' && t[i + 2] == '-' && t[i + 3] == '-')
    }
}

/// The escaped form of the characters from `i` on: each dangerous `<` becomes
/// `\3c ` (a CSS escape of `<`), everything else is copied.
pub open spec fn spec_escape_from(t: Seq<char>, i: int) -> Seq<char>
    decreases t.len() - i,
{
    if i < 0 || i >= t.len() {
        Seq::empty()
    } else if spec_dangerous_at(t, i) {
        "\\3c "@ + spec_escape_from(t, i + 1)
    } else {
        seq![t[i]] + spec_escape_from(t, i + 1)
    }
}

/// `text` with every sequence that could close an HTML `<style>` element
/// escaped.
pub open spec fn spec_escape_html(t: Seq<char>) -> Seq<char> {
    spec_escape_from(t, 0)
}

proof fn lemma_escape_step(t: Seq<char>, i: int)
    requires
        0 <= i < t.len(),
    ensures
        spec_escape_from(t, i) == (if spec_dangerous_at(t, i) {
            "\\3c "@
        } else {
            seq![t[i]]
        }) + spec_escape_from(t, i + 1),
{
}

fn style_word_at(t: &Vec<char>, k: usize) -> (r: bool)
    ensures
        r == spec_style_word_at(t@, k as int),
{
    if k > t.len() || t.len() - k < 5 {
        return false;
    }
    let w = ['s', 't', 'y', 'l', 'e'];
    let mut m: usize = 0;
    while m < 5
        invariant
            k + 5 <= t.len(),
            m <= 5,
            w@ == seq!['s', 't', 'y', 'l', 'e'],
            forall|j: int| 0 <= j < m ==> spec_ascii_lower(#[trigger] t@[k + j]) == w@[j],
        decreases 5 - m,
    {
        let c = t[k + m];
        let same = c == w[m] || ('A' <= c && c <= 'Z' && (c as u32) + 32 == (w[m] as u32));
        if !same {
            return false;
        }
        m = m + 1;
    }
    proof {
        assert(spec_ascii_lower(t@[k + 0]) == 's');
        assert(spec_ascii_lower(t@[k + 1]) == 't');
        assert(spec_ascii_lower(t@[k + 2]) == 'y');
        assert(spec_ascii_lower(t@[k + 3]) == 'l');
        assert(spec_ascii_lower(t@[k + 4]) == 'e');
    }
    true
}

fn dangerous_at(t: &Vec<char>, i: usize) -> (r: bool)
    requires
        i < t.len(),
    ensures
        r == spec_dangerous_at(t@, i as int),
{
    if t[i] != '<' {
        return false;
    }
    let k: usize = if i + 1 < t.len() && t[i + 1] == '/' {
        i + 2
    } else {
        i + 1
    };
    if style_word_at(t, k) {
        let runs_on = if k + 5 < t.len() {
            word_char(t[k + 5])
        } else {
            false
        };
        if !runs_on {
            return true;
        }
    }
    t.len() - i > 3 && t[i + 1] == '!' && t[i + 2] == '-' && t[i + 3] == '-'
}

/// Escapes sequences that could break out of an HTML `<style>` context.
///
/// Uses CSS unicode escaping (`\3c ` stands for `<`), which every compliant
/// CSS consumer reads back as `<`.
pub fn escape_html_in_css(text: &str) -> (out: String)
    ensures
        out@ == spec_escape_html(text@),
{
    let t = chars_of(text);
    let mut out = String::new();
    let mut i: usize = 0;
    while i < t.len()
        invariant
            i <= t.len(),
            t@ == text@,
            out@ + spec_escape_from(t@, i as int) == spec_escape_html(t@),
        decreases t.len() - i,
    {
        proof {
            lemma_escape_step(t@, i as int);
        }
        let ghost before = out@;
        if dangerous_at(&t, i) {
            push_str(&mut out, "\\3c ");
            proof {
                assert(out@ == before + "\\3c "@);
                assert(out@ + spec_escape_from(t@, i + 1) =~= before + ("\\3c "@ + spec_escape_from(t@, i + 1)));
            }
        } else {
            push_char(&mut out, t[i]);
            proof {
                assert(out@ + spec_escape_from(t@, i + 1) =~= before + (seq![t@[i as int]] + spec_escape_from(t@, i + 1)));
            }
        }
        i = i + 1;
    }
    proof {
        assert(spec_escape_from(t@, i as int) =~= Seq::<char>::empty());
        assert(out@ =~= out@ + spec_escape_from(t@, i as int));
    }
    out
}

/// The whitespace characters of `v`, in order: `value.replace(/\S/g, '')`.
pub open spec fn spec_spaces(v: Seq<char>) -> Seq<char>
    decreases v.len(),
{
    if v.len() == 0 {
        Seq::empty()
    } else {
        spec_spaces(v.drop_last()) + if spec_is_whitespace(v.last()) { seq![v.last()] } else { Seq::empty() }
    }
}

/// The whitespace characters and colons of `v`, in order.
pub open spec fn spec_spaces_and_colons(v: Seq<char>) -> Seq<char>
    decreases v.len(),
{
    if v.len() == 0 {
        Seq::empty()
    } else {
        spec_spaces_and_colons(v.drop_last()) + if spec_is_whitespace(v.last()) || v.last() == ':' {
            seq![v.last()]
        } else {
            Seq::empty()
        }
    }
}

/// `v` up to and including its last line break: the text on the last line
/// is dropped (all of `v` when there is no line break).
pub open spec fn spec_keep_to_newline(v: Seq<char>) -> Seq<char> {
    match spec_rfind_char(v, '\n') {
        Some(i) => v.subrange(0, i + 1),
        None => v,
    }
}

/// The text after the last line break of `v` (all of `v` when there is
/// none).
pub open spec fn spec_last_line(v: Seq<char>) -> Seq<char> {
    match spec_rfind_char(v, '\n') {
        Some(i) => v.subrange(i + 1, v.len() as int),
        None => v,
    }
}

pub(crate) fn only_spaces(v: &str, colons: bool) -> (r: String)
    ensures
        r@ == if colons { spec_spaces_and_colons(v@) } else { spec_spaces(v@) },
{
    let c = chars_of(v);
    let mut out = String::new();
    let mut i: usize = 0;
    proof {
        assert(c@.take(0) =~= Seq::<char>::empty());
    }
    while i < c.len()
        invariant
            i <= c@.len(),
            c@ == v@,
            out@ == if colons { spec_spaces_and_colons(c@.take(i as int)) } else { spec_spaces(c@.take(i as int)) },
        decreases c@.len() - i,
    {
        let ch = c[i];
        if crate::text::is_whitespace(ch) || (colons && ch == ':') {
            push_char(&mut out, ch);
        }
        proof {
            assert(c@.take(i + 1).drop_last() =~= c@.take(i as int));
            assert(c@.take(i + 1).last() == ch);
        }
        i = i + 1;
    }
    proof {
        assert(c@.take(c@.len() as int) =~= c@);
    }
    out
}

fn keep_to_newline(v: &str) -> (r: String)
    ensures
        r@ == spec_keep_to_newline(v@),
{
    let c = chars_of(v);
    let _n = c.len();
    match rfind_char(&c, '\n') {
        Some(i) => crate::text::string_from_chars(&c, 0, i + 1),
        None => crate::text::string_of(&c),
    }
}

fn last_line(v: &str) -> (r: String)
    ensures
        r@ == spec_last_line(v@),
{
    let c = chars_of(v);
    let n = c.len();
    match rfind_char(&c, '\n') {
        Some(i) => crate::text::string_from_chars(&c, i + 1, n),
        None => crate::text::string_of(&c),
    }
}

/// The raw used when nothing in the tree shows the style: by detector name.
pub open spec fn spec_default_raw(detect: Seq<char>) -> Seq<char> {
    if detect == "after"@ || detect == "beforeClose"@ || detect == "beforeComment"@ || detect == "beforeDecl"@
        || detect == "beforeRule"@ {
        "\n"@
    } else if detect == "beforeOpen"@ || detect == "commentLeft"@ || detect == "commentRight"@ {
        " "@
    } else if detect == "colon"@ {
        ": "@
    } else if detect == "indent"@ {
        "    "@
    } else {
        ""@
    }
}

fn default_raw(detect: &str) -> (r: &'static str)
    ensures
        r@ == spec_default_raw(detect@),
{
    if crate::node::str_eq(detect, "after") || crate::node::str_eq(detect, "beforeClose") || crate::node::str_eq(
        detect,
        "beforeComment",
    ) || crate::node::str_eq(detect, "beforeDecl") || crate::node::str_eq(detect, "beforeRule") {
        "\n"
    } else if crate::node::str_eq(detect, "beforeOpen") || crate::node::str_eq(detect, "commentLeft")
        || crate::node::str_eq(detect, "commentRight") {
        " "
    } else if crate::node::str_eq(detect, "colon") {
        ": "
    } else if crate::node::str_eq(detect, "indent") {
        "    "
    } else {
        ""
    }
}

/// Characters that end an at-rule name: params starting with anything else
/// need a space to stay a separate token.
pub open spec fn spec_is_at_name_end(c: char) -> bool {
    c == '\t' || c == '\n' || c == '\u{c}' || c == '\r' || c == ' ' || c == '"' || c == '#' || c == '\''
        || c == '(' || c == ')' || c == '/' || c == ';' || c == '[' || c == '\\' || c == ']' || c == '{'
        || c == '}'
}

fn is_at_name_end(c: char) -> (r: bool)
    ensures
        r == spec_is_at_name_end(c),
{
    c == '\t' || c == '\n' || c == '\u{c}' || c == '\r' || c == ' ' || c == '"' || c == '#' || c == '\''
        || c == '(' || c == ')' || c == '/' || c == ';' || c == '[' || c == '\\' || c == ']' || c == '{'
        || c == '}'
}

/// What an inference looks for in the nodes below a root.
#[derive(Clone, Copy, Debug)]
pub enum Probe {
    /// A container with children and an `after`.
    BeforeClose,
    /// A comment with a `before`.
    Comment,
    /// A declaration with a `before`.
    Decl,
    /// A node other than a declaration, with a `between`.
    BeforeOpen,
    /// A container, other than the root's first child, with a `before`.
    BeforeRule,
    /// A declaration with a `between`.
    Colon,
    /// An empty container with an `after`.
    EmptyBody,
    /// A grandchild of the root with a `before`.
    Indent,
    /// A node with the raw named by the key.
    Any,
    /// A node whose last child is a declaration, with a `semicolon`.
    Semicolon,
}

/// Whether node `n` is what `which` looks for below root `r`.
pub open spec fn spec_probe(v: Seq<NodeView>, r: NodeId, n: NodeId, which: Probe, own: Seq<char>) -> bool {
    let d = v[n.0 as int];
    match which {
        Probe::BeforeClose => kids_of(d).len() > 0 && d.raws.after is Some,
        Probe::Comment => d.kind is Comment && d.raws.before is Some,
        Probe::Decl => d.kind is Decl && d.raws.before is Some,
        Probe::BeforeOpen => !(d.kind is Decl) && d.raws.between is Some,
        Probe::BeforeRule => d.nodes is Some && (d.parent != Some(r) || kids_of(v[r.0 as int]).len() == 0 || kids_of(
            v[r.0 as int],
        )[0] != n) && d.raws.before is Some,
        Probe::Colon => d.kind is Decl && d.raws.between is Some,
        Probe::EmptyBody => d.nodes is Some && kids_of(d).len() == 0 && d.raws.after is Some,
        Probe::Indent => d.parent matches Some(p) && p != r && p.0 < v.len() && v[p.0 as int].parent == Some(r) && d.raws.before is Some,
        Probe::Any => crate::node::spec_raw_str(d.raws, own) is Some,
        Probe::Semicolon => kids_of(d).len() > 0 && kids_of(d).last().0 < v.len() && v[kids_of(d).last().0 as int].kind is Decl
            && d.raws.semicolon is Some,
    }
}

/// The test `which` as a predicate on nodes.
pub open spec fn spec_probe_fn(v: Seq<NodeView>, r: NodeId, which: Probe, own: Seq<char>) -> spec_fn(NodeId) -> bool {
    |n: NodeId| spec_probe(v, r, n, which, own)
}

/// The first node below `r` that `which` looks for.
pub open spec fn spec_found(v: Seq<NodeView>, r: NodeId, which: Probe, own: Seq<char>) -> Option<NodeId> {
    spec_first(spec_scan(v, r), spec_probe_fn(v, r, which, own))
}

/// The first of `ns` that satisfies `p`.
pub open spec fn spec_first(ns: Seq<NodeId>, p: spec_fn(NodeId) -> bool) -> Option<NodeId>
    decreases ns.len(),
{
    if ns.len() == 0 {
        None
    } else if p(ns[0]) {
        Some(ns[0])
    } else {
        spec_first(ns.drop_first(), p)
    }
}

/// The nodes an inference from root `r` looks at, in order.
pub open spec fn spec_scan(v: Seq<NodeView>, r: NodeId) -> Seq<NodeId> {
    spec_walk(v, r, v.len())
}

/// Leading whitespace taken from a found raw: up to its last line break,
/// reduced to its whitespace unless empty.
pub open spec fn spec_trimmed_ws(x: Seq<char>) -> Seq<char> {
    let k = spec_keep_to_newline(x);
    if k.len() == 0 {
        k
    } else {
        spec_spaces(k)
    }
}

/// `beforeClose`: from the first container with children that has `after`.
pub open spec fn spec_infer_before_close(v: Seq<NodeView>, r: NodeId) -> Option<Seq<char>> {
    match spec_found(v, r, Probe::BeforeClose, Seq::empty()) {
        Some(n) => Some(spec_trimmed_ws(v[n.0 as int].raws.after->0@)),
        None => None,
    }
}

/// `before` of the first comment that has one, kept up to its last line
/// break.
pub open spec fn spec_probe_comment(v: Seq<NodeView>, r: NodeId) -> Option<Seq<char>> {
    match spec_found(v, r, Probe::Comment, Seq::empty()) {
        Some(n) => Some(spec_keep_to_newline(v[n.0 as int].raws.before->0@)),
        None => None,
    }
}

/// `before` of the first declaration that has one, kept up to its last line
/// break.
pub open spec fn spec_probe_decl(v: Seq<NodeView>, r: NodeId) -> Option<Seq<char>> {
    match spec_found(v, r, Probe::Decl, Seq::empty()) {
        Some(n) => Some(spec_keep_to_newline(v[n.0 as int].raws.before->0@)),
        None => None,
    }
}

/// `beforeOpen`: `between` of the first node, not a declaration, that has it.
pub open spec fn spec_infer_before_open(v: Seq<NodeView>, r: NodeId) -> Option<Seq<char>> {
    match spec_found(v, r, Probe::BeforeOpen, Seq::empty()) {
        Some(n) => Some(v[n.0 as int].raws.between->0@),
        None => None,
    }
}

/// `beforeRule`: from the first container, other than the root's first
/// child, that has `before`.
pub open spec fn spec_infer_before_rule(v: Seq<NodeView>, r: NodeId) -> Option<Seq<char>> {
    match spec_found(v, r, Probe::BeforeRule, Seq::empty()) {
        Some(n) => Some(spec_trimmed_ws(v[n.0 as int].raws.before->0@)),
        None => None,
    }
}

/// `colon`: the whitespace and colons of the first declaration's `between`.
pub open spec fn spec_infer_colon(v: Seq<NodeView>, r: NodeId) -> Option<Seq<char>> {
    match spec_found(v, r, Probe::Colon, Seq::empty()) {
        Some(n) => Some(spec_spaces_and_colons(v[n.0 as int].raws.between->0@)),
        None => None,
    }
}

/// `emptyBody`: `after` of the first empty container that has it.
pub open spec fn spec_infer_empty_body(v: Seq<NodeView>, r: NodeId) -> Option<Seq<char>> {
    match spec_found(v, r, Probe::EmptyBody, Seq::empty()) {
        Some(n) => Some(v[n.0 as int].raws.after->0@),
        None => None,
    }
}

/// `indent`: the root's own, else the whitespace of the last line of the
/// `before` of the first grandchild of the root that has one.
pub open spec fn spec_infer_indent(v: Seq<NodeView>, r: NodeId) -> Option<Seq<char>> {
    match v[r.0 as int].raws.indent {
        Some(i) => Some(i@),
        None => match spec_found(v, r, Probe::Indent, Seq::empty()) {
            Some(n) => Some(spec_spaces(spec_last_line(v[n.0 as int].raws.before->0@))),
            None => None,
        },
    }
}

/// Any other raw: the value of the first node that has `own`.
pub open spec fn spec_infer_any(v: Seq<NodeView>, r: NodeId, own: Seq<char>) -> Option<Seq<char>> {
    match spec_found(v, r, Probe::Any, own) {
        Some(n) => crate::node::spec_raw_str(v[n.0 as int].raws, own),
        None => None,
    }
}

/// The detectors that have an inference of their own.
pub open spec fn spec_known_detect(d: Seq<char>) -> bool {
    d == "beforeClose"@ || d == "beforeComment"@ || d == "beforeDecl"@ || d == "beforeOpen"@ || d == "beforeRule"@
        || d == "colon"@ || d == "emptyBody"@ || d == "indent"@
}

/// `beforeRule` at root `r`, with its default.
pub open spec fn spec_before_rule_at(v: Seq<NodeView>, r: NodeId) -> Seq<char> {
    match spec_infer_before_rule(v, r) {
        Some(x) => x,
        None => "\n"@,
    }
}

/// `beforeDecl` at root `r`: from a declaration, else as `beforeRule`.
pub open spec fn spec_before_decl_at(v: Seq<NodeView>, r: NodeId) -> Seq<char> {
    match spec_probe_decl(v, r) {
        None => spec_before_rule_at(v, r),
        Some(x) => if x.len() == 0 { x } else { spec_spaces(x) },
    }
}

/// `beforeComment` at root `r`: from a comment, else as `beforeDecl`.
pub open spec fn spec_before_comment_at(v: Seq<NodeView>, r: NodeId) -> Seq<char> {
    match spec_probe_comment(v, r) {
        None => spec_before_decl_at(v, r),
        Some(x) => if x.len() == 0 { x } else { spec_spaces(x) },
    }
}

/// The style a detector infers at root `r`, falling back to its default.
pub open spec fn spec_root_value(v: Seq<NodeView>, r: NodeId, detect: Seq<char>, own: Option<Seq<char>>) -> Seq<char> {
    let found = if detect == "beforeClose"@ {
        spec_infer_before_close(v, r)
    } else if detect == "beforeComment"@ {
        Some(spec_before_comment_at(v, r))
    } else if detect == "beforeDecl"@ {
        Some(spec_before_decl_at(v, r))
    } else if detect == "beforeOpen"@ {
        spec_infer_before_open(v, r)
    } else if detect == "beforeRule"@ {
        spec_infer_before_rule(v, r)
    } else if detect == "colon"@ {
        spec_infer_colon(v, r)
    } else if detect == "emptyBody"@ {
        spec_infer_empty_body(v, r)
    } else if detect == "indent"@ {
        spec_infer_indent(v, r)
    } else {
        match own {
            Some(o) => spec_infer_any(v, r, o),
            None => None,
        }
    };
    match found {
        Some(x) => x,
        None => spec_default_raw(detect),
    }
}

/// How many ancestors of `id` lie below the nearest root: the nesting depth
/// that indentation is repeated for.
pub open spec fn spec_depth(v: Seq<NodeView>, buf: Option<NodeId>, fuel: nat) -> nat
    decreases fuel,
{
    match buf {
        None => 0,
        Some(n) => if fuel == 0 || n.0 >= v.len() || v[n.0 as int].kind is Root {
            0
        } else {
            1 + spec_depth(v, v[n.0 as int].parent, (fuel - 1) as nat)
        },
    }
}

/// `s` repeated `n` times.
pub open spec fn spec_repeat(s: Seq<char>, n: nat) -> Seq<char>
    decreases n,
{
    if n == 0 {
        Seq::empty()
    } else {
        spec_repeat(s, (n - 1) as nat) + s
    }
}

/// `before` or `after` of a node: by its type, with the indentation repeated
/// once per level of nesting when the value breaks the line.
pub open spec fn spec_before_after(v: Seq<NodeView>, id: NodeId, detect: Seq<char>, r: NodeId) -> Seq<char> {
    let value = if v[id.0 as int].kind is Decl {
        spec_before_decl_at(v, r)
    } else if v[id.0 as int].kind is Comment {
        spec_before_comment_at(v, r)
    } else if detect == "before"@ {
        spec_before_rule_at(v, r)
    } else {
        spec_root_value(v, r, "beforeClose"@, None)
    };
    let depth = spec_depth(v, v[id.0 as int].parent, v.len());
    if value.contains('\n') {
        let indent = spec_root_value(v, r, "indent"@, None);
        value + spec_repeat(indent, depth)
    } else {
        value
    }
}

/// A raw of node `id`: its own when it has one, else inferred from the rest
/// of the tree, else a default.
pub open spec fn spec_raw(v: Seq<NodeView>, id: NodeId, own: Option<Seq<char>>, detect: Option<Seq<char>>) -> Seq<char> {
    let det = match detect {
        Some(d) => d,
        None => match own {
            Some(o) => o,
            None => Seq::empty(),
        },
    };
    let mine = match own {
        Some(o) => crate::node::spec_raw_str(v[id.0 as int].raws, o),
        None => None,
    };
    let parent = v[id.0 as int].parent;
    if mine is Some {
        mine->0
    } else if det == "before"@ && (parent is None || (parent matches Some(p) && p.0 < v.len() && ((v[p.0 as int].kind is Root
        && kids_of(v[p.0 as int]).len() > 0 && kids_of(v[p.0 as int])[0] == id) || v[p.0 as int].kind is Document))) {
        Seq::empty()
    } else if parent is None {
        spec_default_raw(det)
    } else {
        let r = crate::tree::spec_root_of(v, id, v.len());
        if det == "before"@ || det == "after"@ {
            spec_before_after(v, id, det, r)
        } else {
            spec_root_value(v, r, det, own)
        }
    }
}

/// `raws.semicolon`, inferred the same way as the string raws.
pub open spec fn spec_raw_semicolon(v: Seq<NodeView>, id: NodeId) -> bool {
    match v[id.0 as int].raws.semicolon {
        Some(b) => b,
        None => if v[id.0 as int].parent is None {
            false
        } else {
            let r = crate::tree::spec_root_of(v, id, v.len());
            match spec_found(v, r, Probe::Semicolon, Seq::empty()) {
                Some(n) => v[n.0 as int].raws.semicolon->0,
                None => false,
            }
        },
    }
}

/// One chunk of output, with the node it belongs to and which end of it.
pub struct Chunk {
    /// The text.
    pub text: String,
    /// The node the text renders, if any.
    pub node: Option<NodeId>,
    /// Whether the text opens or closes the node.
    pub part: Option<Part>,
}

/// A chunk by its characters.
pub struct ChunkView {
    /// The text.
    pub text: Seq<char>,
    /// The node the text renders, if any.
    pub node: Option<NodeId>,
    /// Whether the text opens or closes the node.
    pub part: Option<Part>,
}

/// A chunk's view.
pub open spec fn spec_chunk(c: Chunk) -> ChunkView {
    ChunkView { text: c.text@, node: c.node, part: c.part }
}

/// One stringification pass over a tree: the chunks written so far, and the
/// style inferred from each root, kept so that each inference runs once.
pub struct Stringifier<'t> {
    tree: &'t Tree,
    cache: Vec<(NodeId, String, String)>,
    semicolon_cache: Vec<(NodeId, bool)>,
    out: Vec<Chunk>,
}

impl<'t> Stringifier<'t> {
    /// The tree being written.
    pub closed spec fn spec_tree(&self) -> Tree {
        *self.tree
    }

    /// The chunks written so far.
    pub closed spec fn spec_out(&self) -> Seq<ChunkView> {
        self.out@.map_values(|c: Chunk| spec_chunk(c))
    }

    /// Every remembered inference is the one the tree gives.
    pub closed spec fn inv(&self) -> bool {
        &&& self.tree.wf()
        &&& forall|i: int|
            0 <= i < self.cache@.len() ==> {
                let (r, d, val) = #[trigger] self.cache@[i];
                &&& self.tree.has(r)
                &&& spec_known_detect(d@)
                &&& val@ == spec_root_value(self.tree@, r, d@, None)
            }
        &&& forall|i: int|
            0 <= i < self.semicolon_cache@.len() ==> {
                let (r, b) = #[trigger] self.semicolon_cache@[i];
                &&& self.tree.has(r)
                &&& b == match spec_found(self.tree@, r, Probe::Semicolon, Seq::empty()) {
                    Some(n) => self.tree@[n.0 as int].raws.semicolon->0,
                    None => false,
                }
            }
    }

    /// A pass that has written nothing yet.
    pub fn new(tree: &'t Tree) -> (s: Self)
        requires
            tree.wf(),
        ensures
            s.inv(),
            s.spec_tree() == *tree,
            s.spec_out().len() == 0,
    {
        let s = Stringifier { tree, cache: Vec::new(), semicolon_cache: Vec::new(), out: Vec::new() };
        proof {
            assert(s.spec_out() =~= Seq::<ChunkView>::empty());
        }
        s
    }

    /// Whether node `n` is what `which` looks for below root `r`.
    fn probe(&self, r: NodeId, n: NodeId, which: Probe, own: &str) -> (b: bool)
        requires
            self.tree.wf(),
            self.tree.has(r),
            self.tree.has(n),
        ensures
            b == spec_probe(self.tree@, r, n, which, own@),
    {
        let t = self.tree;
        let raws = t.raws(n);
        match which {
            Probe::BeforeClose => t.children(n).len() > 0 && raws.after.is_some(),
            Probe::Comment => match t.kind(n) {
                NodeKind::Comment { .. } => raws.before.is_some(),
                _ => false,
            },
            Probe::Decl => match t.kind(n) {
                NodeKind::Decl { .. } => raws.before.is_some(),
                _ => false,
            },
            Probe::BeforeOpen => match t.kind(n) {
                NodeKind::Decl { .. } => false,
                _ => raws.between.is_some(),
            },
            Probe::BeforeRule => {
                let nested = t.parent(n) != Some(r) || t.first(r) != Some(n);
                t.is_container(n) && nested && raws.before.is_some()
            },
            Probe::Colon => match t.kind(n) {
                NodeKind::Decl { .. } => raws.between.is_some(),
                _ => false,
            },
            Probe::EmptyBody => t.is_container(n) && t.children(n).len() == 0 && raws.after.is_some(),
            Probe::Indent => {
                proof {
                    assert(crate::tree::node_links_ok(t@, n.0 as int));
                }
                match t.parent(n) {
                    Some(p) => p != r && t.parent(p) == Some(r) && raws.before.is_some(),
                    None => false,
                }
            },
            Probe::Any => raws.get_str(own).is_some(),
            Probe::Semicolon => {
                let kids = t.children(n);
                proof {
                    assert(crate::tree::node_links_ok(t@, n.0 as int));
                }
                if kids.len() > 0 {
                    let last = kids[kids.len() - 1];
                    let is_decl = match t.kind(last) {
                        NodeKind::Decl { .. } => true,
                        _ => false,
                    };
                    is_decl && raws.semicolon.is_some()
                } else {
                    false
                }
            },
        }
    }

    /// The first node below root `r` that `which` looks for.
    fn find(&self, r: NodeId, which: Probe, own: &str) -> (res: Option<NodeId>)
        requires
            self.tree.wf(),
            self.tree.has(r),
        ensures
            res == spec_found(self.tree@, r, which, own@),
            res matches Some(n) ==> self.tree.has(n) && spec_probe(self.tree@, r, n, which, own@),
    {
        let ns = walk(self.tree, r, self.tree.len());
        let ghost p = spec_probe_fn(self.tree@, r, which, own@);
        let mut i: usize = 0;
        proof {
            assert(ns@.skip(0) =~= ns@);
        }
        while i < ns.len()
            invariant
                i <= ns@.len(),
                self.tree.wf(),
                self.tree.has(r),
                ns@ == spec_scan(self.tree@, r),
                forall|j: int| 0 <= j < ns@.len() ==> self.tree.has(#[trigger] ns@[j]),
                p == spec_probe_fn(self.tree@, r, which, own@),
                spec_first(ns@, p) == spec_first(ns@.skip(i as int), p),
            decreases ns@.len() - i,
        {
            let n = ns[i];
            proof {
                assert(ns@.skip(i as int).drop_first() =~= ns@.skip(i + 1));
                assert(ns@.skip(i as int)[0] == n);
            }
            if self.probe(r, n, which, own) {
                return Some(n);
            }
            i = i + 1;
        }
        None
    }
}

fn trimmed_ws(x: &str) -> (r: String)
    ensures
        r@ == spec_trimmed_ws(x@),
{
    let k = keep_to_newline(x);
    if k.as_str().unicode_len() == 0 {
        k
    } else {
        only_spaces(k.as_str(), false)
    }
}

proof fn lemma_empty_lit()
    ensures
        ""@ == Seq::<char>::empty(),
{
    reveal_strlit("");
    assert(""@ =~= Seq::<char>::empty());
}

impl<'t> Stringifier<'t> {
    fn before_rule_at(&self, r: NodeId) -> (v: String)
        requires
            self.tree.wf(),
            self.tree.has(r),
        ensures
            v@ == spec_before_rule_at(self.tree@, r),
    {
        proof {
            lemma_empty_lit();
        }
        match self.find(r, Probe::BeforeRule, "") {
            Some(n) => {
                let before = match &self.tree.raws(n).before {
                    Some(b) => b.as_str(),
                    None => "",
                };
                trimmed_ws(before)
            },
            None => crate::text::to_owned_string("\n"),
        }
    }

    fn before_decl_at(&self, r: NodeId) -> (v: String)
        requires
            self.tree.wf(),
            self.tree.has(r),
        ensures
            v@ == spec_before_decl_at(self.tree@, r),
    {
        proof {
            lemma_empty_lit();
        }
        match self.find(r, Probe::Decl, "") {
            Some(n) => {
                let before = match &self.tree.raws(n).before {
                    Some(b) => b.as_str(),
                    None => "",
                };
                let k = keep_to_newline(before);
                if k.as_str().unicode_len() == 0 {
                    k
                } else {
                    only_spaces(k.as_str(), false)
                }
            },
            None => self.before_rule_at(r),
        }
    }

    fn before_comment_at(&self, r: NodeId) -> (v: String)
        requires
            self.tree.wf(),
            self.tree.has(r),
        ensures
            v@ == spec_before_comment_at(self.tree@, r),
    {
        proof {
            lemma_empty_lit();
        }
        match self.find(r, Probe::Comment, "") {
            Some(n) => {
                let before = match &self.tree.raws(n).before {
                    Some(b) => b.as_str(),
                    None => "",
                };
                let k = keep_to_newline(before);
                if k.as_str().unicode_len() == 0 {
                    k
                } else {
                    only_spaces(k.as_str(), false)
                }
            },
            None => self.before_decl_at(r),
        }
    }

    /// The style a detector infers at root `r`, with its default.
    fn infer(&self, r: NodeId, detect: &str, own: Option<&str>) -> (v: String)
        requires
            self.tree.wf(),
            self.tree.has(r),
        ensures
            v@ == spec_root_value(self.tree@, r, detect@, crate::node::opt_str_view(own)),
    {
        let t = self.tree;
        proof {
            lemma_empty_lit();
        }
        let found: Option<String> = if crate::node::str_eq(detect, "beforeClose") {
            match self.find(r, Probe::BeforeClose, "") {
                Some(n) => {
                    let after = match &t.raws(n).after {
                        Some(a) => a.as_str(),
                        None => "",
                    };
                    Some(trimmed_ws(after))
                },
                None => None,
            }
        } else if crate::node::str_eq(detect, "beforeComment") {
            Some(self.before_comment_at(r))
        } else if crate::node::str_eq(detect, "beforeDecl") {
            Some(self.before_decl_at(r))
        } else if crate::node::str_eq(detect, "beforeOpen") {
            match self.find(r, Probe::BeforeOpen, "") {
                Some(n) => match &t.raws(n).between {
                    Some(b) => Some(b.clone()),
                    None => None,
                },
                None => None,
            }
        } else if crate::node::str_eq(detect, "beforeRule") {
            match self.find(r, Probe::BeforeRule, "") {
                Some(n) => {
                    let before = match &t.raws(n).before {
                        Some(b) => b.as_str(),
                        None => "",
                    };
                    Some(trimmed_ws(before))
                },
                None => None,
            }
        } else if crate::node::str_eq(detect, "colon") {
            match self.find(r, Probe::Colon, "") {
                Some(n) => {
                    let between = match &t.raws(n).between {
                        Some(b) => b.as_str(),
                        None => "",
                    };
                    Some(only_spaces(between, true))
                },
                None => None,
            }
        } else if crate::node::str_eq(detect, "emptyBody") {
            match self.find(r, Probe::EmptyBody, "") {
                Some(n) => match &t.raws(n).after {
                    Some(a) => Some(a.clone()),
                    None => None,
                },
                None => None,
            }
        } else if crate::node::str_eq(detect, "indent") {
            match &t.raws(r).indent {
                Some(i) => Some(i.clone()),
                None => match self.find(r, Probe::Indent, "") {
                    Some(n) => {
                        let before = match &t.raws(n).before {
                            Some(b) => b.as_str(),
                            None => "",
                        };
                        let line = last_line(before);
                        Some(only_spaces(line.as_str(), false))
                    },
                    None => None,
                },
            }
        } else {
            match own {
                Some(o) => match self.find(r, Probe::Any, o) {
                    Some(n) => match t.raws(n).get_str(o) {
                        Some(x) => Some(crate::text::to_owned_string(x)),
                        None => None,
                    },
                    None => None,
                },
                None => None,
            }
        };
        match found {
            Some(x) => x,
            None => crate::text::to_owned_string(default_raw(detect)),
        }
    }
}

/// The detector names, spelled out.
proof fn lemma_detect_names()
    ensures
        "beforeClose"@ == seq!['b', 'e', 'f', 'o', 'r', 'e', 'C', 'l', 'o', 's', 'e'],
        "beforeComment"@ == seq!['b', 'e', 'f', 'o', 'r', 'e', 'C', 'o', 'm', 'm', 'e', 'n', 't'],
        "beforeDecl"@ == seq!['b', 'e', 'f', 'o', 'r', 'e', 'D', 'e', 'c', 'l'],
        "beforeOpen"@ == seq!['b', 'e', 'f', 'o', 'r', 'e', 'O', 'p', 'e', 'n'],
        "beforeRule"@ == seq!['b', 'e', 'f', 'o', 'r', 'e', 'R', 'u', 'l', 'e'],
        "colon"@ == seq!['c', 'o', 'l', 'o', 'n'],
        "emptyBody"@ == seq!['e', 'm', 'p', 't', 'y', 'B', 'o', 'd', 'y'],
        "commentLeft"@ == seq!['c', 'o', 'm', 'm', 'e', 'n', 't', 'L', 'e', 'f', 't'],
        "commentRight"@ == seq!['c', 'o', 'm', 'm', 'e', 'n', 't', 'R', 'i', 'g', 'h', 't'],
        "before"@ == seq!['b', 'e', 'f', 'o', 'r', 'e'],
        "after"@ == seq!['a', 'f', 't', 'e', 'r'],
        "indent"@ == seq!['i', 'n', 'd', 'e', 'n', 't'],
        "between"@ == seq!['b', 'e', 't', 'w', 'e', 'e', 'n'],
{
    reveal_strlit("beforeClose");
    reveal_strlit("beforeComment");
    reveal_strlit("beforeDecl");
    reveal_strlit("beforeOpen");
    reveal_strlit("beforeRule");
    reveal_strlit("colon");
    reveal_strlit("emptyBody");
    reveal_strlit("commentLeft");
    reveal_strlit("commentRight");
    crate::node::lemma_raw_keys();
}

fn known_detect(d: &str) -> (b: bool)
    ensures
        b == spec_known_detect(d@),
{
    crate::node::str_eq(d, "beforeClose") || crate::node::str_eq(d, "beforeComment") || crate::node::str_eq(
        d,
        "beforeDecl",
    ) || crate::node::str_eq(d, "beforeOpen") || crate::node::str_eq(d, "beforeRule") || crate::node::str_eq(
        d,
        "colon",
    ) || crate::node::str_eq(d, "emptyBody") || crate::node::str_eq(d, "indent")
}

impl<'t> Stringifier<'t> {
    /// The style `detect` at root `r`, remembered for the rest of the pass.
    fn root_value(&mut self, r: NodeId, detect: &str, own: Option<&str>) -> (v: String)
        requires
            old(self).inv(),
            old(self).spec_tree().has(r),
        ensures
            final(self).inv(),
            final(self).spec_tree() == old(self).spec_tree(),
            final(self).spec_out() == old(self).spec_out(),
            v@ == spec_root_value(old(self).spec_tree()@, r, detect@, crate::node::opt_str_view(own)),
    {
        let known = known_detect(detect);
        if known {
            let mut i: usize = 0;
            while i < self.cache.len()
                invariant
                    self.inv(),
                    i <= self.cache@.len(),
                    spec_known_detect(detect@),
                decreases self.cache@.len() - i,
            {
                let entry = &self.cache[i];
                if entry.0 == r && crate::node::str_eq(entry.1.as_str(), detect) {
                    proof {
                        let e = self.cache@[i as int];
                        assert(e.2@ == spec_root_value(self.tree@, r, detect@, None));
                    }
                    return entry.2.clone();
                }
                i = i + 1;
            }
        }
        let v = self.infer(r, detect, own);
        if known {
            let ghost before = self.cache@;
            self.cache.push((r, crate::text::to_owned_string(detect), v.clone()));
            proof {
                assert forall|i: int| 0 <= i < self.cache@.len() implies {
                    let (r2, d, val) = #[trigger] self.cache@[i];
                    &&& self.tree.has(r2)
                    &&& spec_known_detect(d@)
                    &&& val@ == spec_root_value(self.tree@, r2, d@, None)
                } by {
                    if i < before.len() {
                        assert(self.cache@[i] == before[i]);
                    }
                }
            }
        }
        v
    }

    /// How many ancestors of `id` lie below its root.
    fn depth(&self, id: NodeId) -> (d: usize)
        requires
            self.tree.wf(),
            self.tree.has(id),
        ensures
            d as nat == spec_depth(self.tree@, self.tree@[id.0 as int].parent, self.tree@.len()),
    {
        let t = self.tree;
        let n = t.len();
        let mut buf = t.parent(id);
        let mut depth: usize = 0;
        let mut fuel: usize = n;
        proof {
            assert(crate::tree::node_links_ok(t@, id.0 as int));
        }
        while fuel > 0
            invariant
                t.wf(),
                n == t@.len(),
                t.has(id),
                t@ == self.tree@,
                fuel <= n,
                depth + fuel <= n,
                buf matches Some(b) ==> t.has(b),
                spec_depth(t@, t@[id.0 as int].parent, n as nat) == depth + spec_depth(t@, buf, fuel as nat),
            decreases fuel,
        {
            match buf {
                None => {
                    return depth;
                },
                Some(b) => {
                    if let NodeKind::Root = t.kind(b) {
                        return depth;
                    }
                    proof {
                        assert(crate::tree::node_links_ok(t@, b.0 as int));
                    }
                    buf = t.parent(b);
                    depth = depth + 1;
                    fuel = fuel - 1;
                },
            }
        }
        depth
    }

    /// `before` or `after` with the indentation of the node's depth.
    fn before_after(&mut self, id: NodeId, detect: &str, r: NodeId) -> (v: String)
        requires
            old(self).inv(),
            old(self).spec_tree().has(id),
            old(self).spec_tree().has(r),
        ensures
            final(self).inv(),
            final(self).spec_tree() == old(self).spec_tree(),
            final(self).spec_out() == old(self).spec_out(),
            v@ == spec_before_after(old(self).spec_tree()@, id, detect@, r),
    {
        let ghost t = self.tree@;
        proof {
            lemma_detect_names();
        }
        let mut value = match self.tree.kind(id) {
            NodeKind::Decl { .. } => self.root_value(r, "beforeDecl", None),
            NodeKind::Comment { .. } => self.root_value(r, "beforeComment", None),
            _ => if crate::node::str_eq(detect, "before") {
                self.root_value(r, "beforeRule", None)
            } else {
                self.root_value(r, "beforeClose", None)
            },
        };
        let depth = self.depth(id);
        let chars = chars_of(value.as_str());
        let breaks = crate::text::rfind_char(&chars, '\n').is_some();
        proof {
            crate::text::lemma_rfind_contains(value@, '\n');
        }
        if breaks {
            let indent = self.root_value(r, "indent", None);
            let ghost base = value@;
            let mut k: usize = 0;
            while k < depth
                invariant
                    k <= depth,
                    value@ == base + spec_repeat(indent@, k as nat),
                decreases depth - k,
            {
                push_str(&mut value, indent.as_str());
                k = k + 1;
            }
        }
        value
    }
}

/// The current value of a value-like property of a node kind: a
/// declaration's `value`, an at-rule's `params`, a rule's `selector`; empty
/// otherwise.
pub open spec fn spec_prop_text(k: NodeKind, prop: Seq<char>) -> Seq<char> {
    if prop == "value"@ {
        match k {
            NodeKind::Decl { value, .. } => value@,
            _ => Seq::empty(),
        }
    } else if prop == "params"@ {
        match k {
            NodeKind::AtRule { params, .. } => params@,
            _ => Seq::empty(),
        }
    } else if prop == "selector"@ {
        match k {
            NodeKind::Rule { selector } => selector@,
            _ => Seq::empty(),
        }
    } else {
        Seq::empty()
    }
}

/// The source text of a value-like property while it still matches the
/// property's current value; the value itself once they diverge.
pub open spec fn spec_raw_value(v: Seq<NodeView>, id: NodeId, prop: Seq<char>) -> Seq<char> {
    let value = spec_prop_text(v[id.0 as int].kind, prop);
    match crate::node::spec_raw_pair(v[id.0 as int].raws, prop) {
        Some(pair) => if pair.value@ == value {
            pair.raw@
        } else {
            value
        },
        None => value,
    }
}

/// The source text of a value-like property of node `id`, or the value
/// itself once the two have diverged.
pub fn raw_value(tree: &Tree, id: NodeId, prop: &str) -> (r: String)
    requires
        tree.has(id),
    ensures
        r@ == spec_raw_value(tree@, id, prop@),
{
    proof {
        crate::node::lemma_raw_keys();
    }
    let value: &str = if crate::node::str_eq(prop, "value") {
        match tree.value(id) {
            Some(x) => x,
            None => "",
        }
    } else if crate::node::str_eq(prop, "params") {
        match tree.params(id) {
            Some(x) => x,
            None => "",
        }
    } else if crate::node::str_eq(prop, "selector") {
        match tree.selector(id) {
            Some(x) => x,
            None => "",
        }
    } else {
        ""
    };
    proof {
        lemma_empty_lit();
    }
    match tree.raws(id).raw_value(prop) {
        Some(pair) => if crate::node::str_eq(pair.value.as_str(), value) {
            pair.raw.clone()
        } else {
            crate::text::to_owned_string(value)
        },
        None => crate::text::to_owned_string(value),
    }
}

impl<'t> Stringifier<'t> {
    /// A raw of node `id`: its own `own` when it has one, else inferred by
    /// `detect` (default: `own`) from the rest of the tree, else a default.
    pub fn raw(&mut self, id: NodeId, own: Option<&str>, detect: Option<&str>) -> (v: String)
        requires
            old(self).inv(),
            old(self).spec_tree().has(id),
        ensures
            final(self).inv(),
            final(self).spec_tree() == old(self).spec_tree(),
            final(self).spec_out() == old(self).spec_out(),
            v@ == spec_raw(
                old(self).spec_tree()@,
                id,
                crate::node::opt_str_view(own),
                crate::node::opt_str_view(detect),
            ),
    {
        proof {
            lemma_empty_lit();
            lemma_detect_names();
        }
        let det: &str = match detect {
            Some(d) => d,
            None => match own {
                Some(o) => o,
                None => "",
            },
        };
        if let Some(o) = own {
            if let Some(val) = self.tree.raws(id).get_str(o) {
                return crate::text::to_owned_string(val);
            }
        }
        let parent = self.tree.parent(id);
        proof {
            assert(crate::tree::node_links_ok(self.tree@, id.0 as int));
        }
        if crate::node::str_eq(det, "before") {
            match parent {
                None => {
                    return String::new();
                },
                Some(p) => {
                    let first_of_root = match self.tree.kind(p) {
                        NodeKind::Root => self.tree.first(p) == Some(id),
                        _ => false,
                    };
                    let in_document = match self.tree.kind(p) {
                        NodeKind::Document => true,
                        _ => false,
                    };
                    if first_of_root || in_document {
                        return String::new();
                    }
                },
            }
        }
        if parent.is_none() {
            return crate::text::to_owned_string(default_raw(det));
        }
        let r = self.tree.root_of(id);
        if crate::node::str_eq(det, "before") || crate::node::str_eq(det, "after") {
            return self.before_after(id, det, r);
        }
        self.root_value(r, det, own)
    }

    /// `raws.semicolon` of node `id`, inferred the same way as the string
    /// raws.
    pub fn raw_semicolon(&mut self, id: NodeId) -> (b: bool)
        requires
            old(self).inv(),
            old(self).spec_tree().has(id),
        ensures
            final(self).inv(),
            final(self).spec_tree() == old(self).spec_tree(),
            final(self).spec_out() == old(self).spec_out(),
            b == spec_raw_semicolon(old(self).spec_tree()@, id),
    {
        if let Some(b) = self.tree.raws(id).semicolon {
            return b;
        }
        if self.tree.parent(id).is_none() {
            return false;
        }
        let r = self.tree.root_of(id);
        let mut i: usize = 0;
        while i < self.semicolon_cache.len()
            invariant
                self.inv(),
                *self == *old(self),
                i <= self.semicolon_cache@.len(),
                self.tree.has(id),
                self.tree.has(r),
                self.tree@[id.0 as int].raws.semicolon is None,
                self.tree@[id.0 as int].parent is Some,
                r == crate::tree::spec_root_of(self.tree@, id, self.tree@.len()),
            decreases self.semicolon_cache@.len() - i,
        {
            let entry = self.semicolon_cache[i];
            if entry.0 == r {
                proof {
                    assert(self.semicolon_cache@[i as int] == entry);
                }
                return entry.1;
            }
            i = i + 1;
        }
        proof {
            lemma_empty_lit();
        }
        let found = match self.find(r, Probe::Semicolon, "") {
            Some(n) => match self.tree.raws(n).semicolon {
                Some(b) => b,
                None => false,
            },
            None => false,
        };
        let ghost before = self.semicolon_cache@;
        self.semicolon_cache.push((r, found));
        proof {
            assert forall|i: int| 0 <= i < self.semicolon_cache@.len() implies {
                let (r2, b2) = #[trigger] self.semicolon_cache@[i];
                &&& self.tree.has(r2)
                &&& b2 == match spec_found(self.tree@, r2, Probe::Semicolon, Seq::empty()) {
                    Some(n) => self.tree@[n.0 as int].raws.semicolon->0,
                    None => false,
                }
            } by {
                if i < before.len() {
                    assert(self.semicolon_cache@[i] == before[i]);
                }
            }
        }
        found
    }
}

/// A single chunk of output.
pub open spec fn spec_emit(text: Seq<char>, node: Option<NodeId>, part: Option<Part>) -> Seq<ChunkView> {
    seq![ChunkView { text, node, part }]
}

/// A chunk of output when its text is not empty; nothing otherwise.
pub open spec fn spec_emit_nonempty(text: Seq<char>) -> Seq<ChunkView> {
    if text.len() == 0 {
        Seq::empty()
    } else {
        spec_emit(text, None, None)
    }
}

/// The characters of an optional string, empty when absent.
pub open spec fn spec_or_empty(o: Option<String>) -> Seq<char> {
    match o {
        Some(s) => s@,
        None => Seq::empty(),
    }
}

/// `@name`, the separator after it, and the params of an at-rule.
///
/// A separator left empty by the source is replaced by a space when the
/// params would otherwise run into the name.
pub open spec fn spec_atrule_start(v: Seq<NodeView>, id: NodeId) -> Seq<char> {
    let (name, has_params) = match v[id.0 as int].kind {
        NodeKind::AtRule { name, params } => (name@, params@.len() > 0),
        _ => (Seq::empty(), false),
    };
    let params = if has_params { spec_raw_value(v, id, "params"@) } else { Seq::empty() };
    let after_name = match v[id.0 as int].raws.after_name {
        None => if params.len() == 0 { Seq::empty() } else { " "@ },
        Some(a) => if a@.len() == 0 && params.len() > 0 && !spec_is_at_name_end(params[0]) {
            " "@
        } else {
            a@
        },
    };
    "@"@ + name + after_name + params
}

/// The text of a declaration: property, separator, value, `!important`
/// when set, and `;` when asked for.
pub open spec fn spec_decl_text(v: Seq<NodeView>, id: NodeId, semicolon: bool) -> Seq<char> {
    let (prop, important) = match v[id.0 as int].kind {
        NodeKind::Decl { prop, important, .. } => (prop@, important),
        _ => (Seq::empty(), false),
    };
    let between = spec_raw(v, id, Some("between"@), Some("colon"@));
    let base = prop + between + spec_raw_value(v, id, "value"@);
    let with_important = if important {
        base + match v[id.0 as int].raws.important {
            Some(i) => i@,
            None => " !important"@,
        }
    } else {
        base
    };
    if semicolon { with_important + ";"@ } else { with_important }
}

/// The text of a comment with its delimiters and inner spacing.
pub open spec fn spec_comment_text(v: Seq<NodeView>, id: NodeId) -> Seq<char> {
    let text = match v[id.0 as int].kind {
        NodeKind::Comment { text } => text@,
        _ => Seq::empty(),
    };
    "/*"@ + spec_raw(v, id, Some("left"@), Some("commentLeft"@)) + text + spec_raw(
        v,
        id,
        Some("right"@),
        Some("commentRight"@),
    ) + "*/"@
}

/// The text of a childless at-rule: start, `between`, and `;` when asked for.
pub open spec fn spec_atrule_text(v: Seq<NodeView>, id: NodeId, semicolon: bool) -> Seq<char> {
    spec_atrule_start(v, id) + spec_or_empty(v[id.0 as int].raws.between) + if semicolon {
        ";"@
    } else {
        Seq::empty()
    }
}

/// The chunks that close a block: its `after`, when not empty, then `}`.
pub open spec fn spec_close(v: Seq<NodeView>, id: NodeId) -> Seq<ChunkView> {
    let after = if kids_of(v[id.0 as int]).len() > 0 {
        spec_raw(v, id, Some("after"@), None)
    } else {
        spec_raw(v, id, Some("after"@), Some("emptyBody"@))
    };
    spec_emit_nonempty(spec_escape_html(after)) + spec_emit("}"@, Some(id), Some(Part::End))
}

/// The chunk that opens a block: start, `between`, and `{`.
pub open spec fn spec_open(v: Seq<NodeView>, id: NodeId, start: Seq<char>) -> Seq<ChunkView> {
    let between = spec_raw(v, id, Some("between"@), Some("beforeOpen"@));
    spec_emit(spec_escape_html(start + between) + "{"@, Some(id), Some(Part::Start))
}

/// The chunk a rule's `ownSemicolon` adds after its block.
pub open spec fn spec_own_semicolon(v: Seq<NodeView>, id: NodeId) -> Seq<ChunkView> {
    match v[id.0 as int].raws.own_semicolon {
        Some(o) => spec_emit(spec_escape_html(o@), Some(id), Some(Part::End)),
        None => Seq::empty(),
    }
}

/// Among the first `k + 1` children, the index of the last one that is not a
/// comment (0 when all of them after the first are comments).
pub open spec fn spec_last_index(v: Seq<NodeView>, ks: Seq<NodeId>, k: int) -> int
    decreases k,
{
    if k > 0 && 0 <= ks[k].0 < v.len() && v[ks[k].0 as int].kind is Comment {
        spec_last_index(v, ks, k - 1)
    } else {
        k
    }
}

proof fn lemma_last_index_skips(v: Seq<NodeView>, ks: Seq<NodeId>, i: int, k: int)
    requires
        0 <= i <= k < ks.len(),
        forall|j: int| 0 <= j < ks.len() ==> 0 <= (#[trigger] ks[j]).0 < v.len(),
        !(v[ks[i].0 as int].kind is Comment),
        forall|j: int| i < j <= k ==> v[(#[trigger] ks[j]).0 as int].kind is Comment,
    ensures
        spec_last_index(v, ks, k) == i,
    decreases k,
{
    if k > i {
        lemma_last_index_skips(v, ks, i, k - 1);
    }
}

/// Trailing comments do not count as the last child of a block: in a
/// container whose raws say it has no trailing `;`, the last child that is
/// not a comment is written without `;` (unless it is a childless at-rule or
/// a custom property with comments after it, which keep theirs), and every
/// child before it with one, whatever comments follow it.
pub proof fn lemma_last_child_skips_comments(v: Seq<NodeView>, id: NodeId, i: int)
    requires
        0 <= id.0 < v.len(),
        v[id.0 as int].raws.semicolon == Some(false),
        0 <= i < kids_of(v[id.0 as int]).len(),
        forall|j: int|
            0 <= j < kids_of(v[id.0 as int]).len() ==> 0 <= (#[trigger] kids_of(v[id.0 as int])[j]).0 < v.len(),
        !(v[kids_of(v[id.0 as int])[i].0 as int].kind is Comment),
        forall|j: int|
            i < j < kids_of(v[id.0 as int]).len() ==> v[(#[trigger] kids_of(v[id.0 as int])[j]).0 as int].kind is Comment,
    ensures
        spec_child_semicolon(v, id, i) == (i < kids_of(v[id.0 as int]).len() - 1 && spec_needs_semicolon(
            v,
            kids_of(v[id.0 as int])[i],
        )),
        forall|j: int| 0 <= j < i ==> spec_child_semicolon(v, id, j),
{
    let ks = kids_of(v[id.0 as int]);
    lemma_last_index_skips(v, ks, i, ks.len() - 1);
}

/// A child that must end in `;` whenever siblings follow it: a childless
/// at-rule or a custom property.
pub open spec fn spec_needs_semicolon(v: Seq<NodeView>, c: NodeId) -> bool {
    match v[c.0 as int].kind {
        NodeKind::AtRule { .. } => v[c.0 as int].nodes is None,
        NodeKind::Decl { prop, .. } => prop@.len() >= 2 && prop@[0] == '-' && prop@[1] == '-',
        _ => false,
    }
}

/// Whether child `i` of container `id` is written with a trailing `;`.
pub open spec fn spec_child_semicolon(v: Seq<NodeView>, id: NodeId, i: int) -> bool {
    let ks = kids_of(v[id.0 as int]);
    let base = spec_last_index(v, ks, ks.len() - 1) != i || spec_raw_semicolon(v, id);
    if !base && i < ks.len() - 1 && spec_needs_semicolon(v, ks[i]) {
        true
    } else {
        base
    }
}

/// The chunk for a child's `before`, unescaped inside a document.
pub open spec fn spec_before_chunk(v: Seq<NodeView>, id: NodeId, c: NodeId) -> Seq<ChunkView> {
    let before = spec_raw(v, c, Some("before"@), None);
    if v[id.0 as int].kind is Document {
        spec_emit_nonempty(before)
    } else {
        spec_emit_nonempty(spec_escape_html(before))
    }
}

/// The chunks of the first `k` children of `id`, each after its `before`.
pub open spec fn spec_body(v: Seq<NodeView>, id: NodeId, k: int, fuel: nat) -> Seq<ChunkView>
    decreases fuel, 0int, k,
{
    if fuel == 0 || k <= 0 || k > kids_of(v[id.0 as int]).len() {
        Seq::empty()
    } else {
        let c = kids_of(v[id.0 as int])[k - 1];
        spec_body(v, id, k - 1, fuel) + spec_before_chunk(v, id, c) + spec_node_chunks(
            v,
            c,
            spec_child_semicolon(v, id, k - 1),
            (fuel - 1) as nat,
        )
    }
}

/// The chunks a root's `after` adds, unescaped inside a document.
pub open spec fn spec_root_after(v: Seq<NodeView>, id: NodeId) -> Seq<ChunkView> {
    let after = spec_or_empty(v[id.0 as int].raws.after);
    let in_document = v[id.0 as int].parent matches Some(p) && p.0 < v.len() && v[p.0 as int].kind is Document;
    if in_document {
        spec_emit_nonempty(after)
    } else {
        spec_emit_nonempty(spec_escape_html(after))
    }
}

/// The output of node `id` as chunks, `;` after it when `semicolon` is set
/// and its type takes one; `fuel` bounds the nesting written.
pub open spec fn spec_node_chunks(v: Seq<NodeView>, id: NodeId, semicolon: bool, fuel: nat) -> Seq<ChunkView>
    decreases fuel, 1int, 0int,
{
    if fuel == 0 || id.0 >= v.len() {
        Seq::empty()
    } else {
        match v[id.0 as int].kind {
            NodeKind::Root => spec_body(v, id, kids_of(v[id.0 as int]).len() as int, fuel) + spec_root_after(v, id),
            NodeKind::Document => spec_body(v, id, kids_of(v[id.0 as int]).len() as int, fuel),
            NodeKind::Rule { .. } => spec_open(v, id, spec_raw_value(v, id, "selector"@)) + spec_body(
                v,
                id,
                kids_of(v[id.0 as int]).len() as int,
                fuel,
            ) + spec_close(v, id) + spec_own_semicolon(v, id),
            NodeKind::AtRule { .. } => if v[id.0 as int].nodes is Some {
                spec_open(v, id, spec_atrule_start(v, id)) + spec_body(v, id, kids_of(v[id.0 as int]).len() as int, fuel)
                    + spec_close(v, id)
            } else {
                spec_emit(spec_escape_html(spec_atrule_text(v, id, semicolon)), Some(id), None)
            },
            NodeKind::Decl { .. } => spec_emit(spec_escape_html(spec_decl_text(v, id, semicolon)), Some(id), None),
            NodeKind::Comment { .. } => spec_emit(spec_escape_html(spec_comment_text(v, id)), Some(id), None),
        }
    }
}

/// The text of a run of chunks.
pub open spec fn spec_chunks_text(cs: Seq<ChunkView>) -> Seq<char>
    decreases cs.len(),
{
    if cs.len() == 0 {
        Seq::empty()
    } else {
        spec_chunks_text(cs.drop_last()) + cs.last().text
    }
}

/// The CSS text of node `id`.
pub open spec fn spec_to_css(v: Seq<NodeView>, id: NodeId) -> Seq<char> {
    spec_chunks_text(spec_node_chunks(v, id, false, v.len()))
}

fn concat3(a: &str, b: &str, c: &str) -> (r: String)
    ensures
        r@ == a@ + b@ + c@,
{
    let mut r = crate::text::to_owned_string(a);
    push_str(&mut r, b);
    push_str(&mut r, c);
    r
}

fn or_empty(o: &Option<String>) -> (r: &str)
    ensures
        r@ == spec_or_empty(*o),
{
    proof {
        lemma_empty_lit();
    }
    match o {
        Some(s) => s.as_str(),
        None => "",
    }
}

impl<'t> Stringifier<'t> {
    /// Appends one chunk.
    fn emit(&mut self, text: String, node: Option<NodeId>, part: Option<Part>)
        requires
            old(self).inv(),
        ensures
            final(self).inv(),
            final(self).spec_tree() == old(self).spec_tree(),
            final(self).spec_out() == old(self).spec_out() + spec_emit(text@, node, part),
    {
        let ghost t = text@;
        self.out.push(Chunk { text, node, part });
        proof {
            assert(self.spec_out() =~= old(self).spec_out() + spec_emit(t, node, part));
        }
    }

    /// Appends one chunk unless its text is empty.
    fn emit_nonempty(&mut self, text: String)
        requires
            old(self).inv(),
        ensures
            final(self).inv(),
            final(self).spec_tree() == old(self).spec_tree(),
            final(self).spec_out() == old(self).spec_out() + spec_emit_nonempty(text@),
    {
        if text.as_str().unicode_len() > 0 {
            self.emit(text, None, None);
        } else {
            proof {
                assert(self.spec_out() =~= old(self).spec_out() + spec_emit_nonempty(text@));
            }
        }
    }

    /// `@name`, its separator and the params of an at-rule.
    fn atrule_start(&self, id: NodeId) -> (r: String)
        requires
            self.tree.has(id),
        ensures
            r@ == spec_atrule_start(self.tree@, id),
    {
        proof {
            lemma_empty_lit();
            crate::node::lemma_raw_keys();
        }
        let t = self.tree;
        let name: &str = match t.name(id) {
            Some(n) => n,
            None => "",
        };
        let has_params = match t.params(id) {
            Some(p) => p.unicode_len() > 0,
            None => false,
        };
        let params = if has_params {
            raw_value(t, id, "params")
        } else {
            String::new()
        };
        let plen = params.as_str().unicode_len();
        let after_name: String = match &t.raws(id).after_name {
            None => if plen == 0 {
                String::new()
            } else {
                crate::text::to_owned_string(" ")
            },
            Some(a) => {
                let glued = a.as_str().unicode_len() == 0 && plen > 0 && !is_at_name_end(
                    params.as_str().get_char(0),
                );
                if glued {
                    crate::text::to_owned_string(" ")
                } else {
                    a.clone()
                }
            },
        };
        let mut r = crate::text::to_owned_string("@");
        push_str(&mut r, name);
        push_str(&mut r, after_name.as_str());
        push_str(&mut r, params.as_str());
        r
    }

    /// A declaration's text.
    fn decl_text(&mut self, id: NodeId, semicolon: bool) -> (r: String)
        requires
            old(self).inv(),
            old(self).spec_tree().has(id),
        ensures
            final(self).inv(),
            final(self).spec_tree() == old(self).spec_tree(),
            final(self).spec_out() == old(self).spec_out(),
            r@ == spec_decl_text(old(self).spec_tree()@, id, semicolon),
    {
        proof {
            lemma_empty_lit();
        }
        let between = self.raw(id, Some("between"), Some("colon"));
        let t = self.tree;
        let prop: &str = match t.prop(id) {
            Some(p) => p,
            None => "",
        };
        let value = raw_value(t, id, "value");
        let mut r = concat3(prop, between.as_str(), value.as_str());
        if t.important(id) {
            match &t.raws(id).important {
                Some(i) => push_str(&mut r, i.as_str()),
                None => push_str(&mut r, " !important"),
            }
        }
        if semicolon {
            push_str(&mut r, ";");
        }
        r
    }

    /// A comment's text.
    fn comment_text(&mut self, id: NodeId) -> (r: String)
        requires
            old(self).inv(),
            old(self).spec_tree().has(id),
        ensures
            final(self).inv(),
            final(self).spec_tree() == old(self).spec_tree(),
            final(self).spec_out() == old(self).spec_out(),
            r@ == spec_comment_text(old(self).spec_tree()@, id),
    {
        proof {
            lemma_empty_lit();
        }
        let left = self.raw(id, Some("left"), Some("commentLeft"));
        let right = self.raw(id, Some("right"), Some("commentRight"));
        let text: &str = match self.tree.text(id) {
            Some(x) => x,
            None => "",
        };
        let mut r = concat3("/*", left.as_str(), text);
        push_str(&mut r, right.as_str());
        push_str(&mut r, "*/");
        r
    }

    /// Writes the opening of a block.
    fn open_block(&mut self, id: NodeId, start: &str)
        requires
            old(self).inv(),
            old(self).spec_tree().has(id),
        ensures
            final(self).inv(),
            final(self).spec_tree() == old(self).spec_tree(),
            final(self).spec_out() == old(self).spec_out() + spec_open(old(self).spec_tree()@, id, start@),
    {
        let between = self.raw(id, Some("between"), Some("beforeOpen"));
        let mut joined = crate::text::to_owned_string(start);
        push_str(&mut joined, between.as_str());
        let mut text = escape_html_in_css(joined.as_str());
        push_str(&mut text, "{");
        self.emit(text, Some(id), Some(Part::Start));
    }

    /// Writes the closing of a block.
    fn close_block(&mut self, id: NodeId)
        requires
            old(self).inv(),
            old(self).spec_tree().has(id),
        ensures
            final(self).inv(),
            final(self).spec_tree() == old(self).spec_tree(),
            final(self).spec_out() == old(self).spec_out() + spec_close(old(self).spec_tree()@, id),
    {
        let after = if self.tree.children(id).len() > 0 {
            self.raw(id, Some("after"), None)
        } else {
            self.raw(id, Some("after"), Some("emptyBody"))
        };
        let ghost mid = self.spec_out();
        self.emit_nonempty(escape_html_in_css(after.as_str()));
        self.emit(crate::text::to_owned_string("}"), Some(id), Some(Part::End));
        proof {
            assert(self.spec_out() =~= old(self).spec_out() + spec_close(old(self).spec_tree()@, id));
        }
    }

    /// Writes a rule's `ownSemicolon`.
    fn own_semicolon(&mut self, id: NodeId)
        requires
            old(self).inv(),
            old(self).spec_tree().has(id),
        ensures
            final(self).inv(),
            final(self).spec_tree() == old(self).spec_tree(),
            final(self).spec_out() == old(self).spec_out() + spec_own_semicolon(old(self).spec_tree()@, id),
    {
        match &self.tree.raws(id).own_semicolon {
            Some(o) => {
                let text = escape_html_in_css(o.as_str());
                self.emit(text, Some(id), Some(Part::End));
            },
            None => {
                proof {
                    assert(self.spec_out() =~= old(self).spec_out() + spec_own_semicolon(old(self).spec_tree()@, id));
                }
            },
        }
    }
}

fn last_index(tree: &Tree, ks: &[NodeId]) -> (r: usize)
    requires
        tree.wf(),
        ks@.len() > 0,
        forall|j: int| 0 <= j < ks@.len() ==> tree.has(#[trigger] ks@[j]),
    ensures
        r as int == spec_last_index(tree@, ks@, ks@.len() - 1),
        r < ks@.len(),
{
    let mut last = ks.len() - 1;
    while last > 0
        invariant
            last < ks@.len(),
            forall|j: int| 0 <= j < ks@.len() ==> tree.has(#[trigger] ks@[j]),
            spec_last_index(tree@, ks@, ks@.len() - 1) == spec_last_index(tree@, ks@, last as int),
        decreases last,
    {
        let is_comment = match tree.kind(ks[last]) {
            NodeKind::Comment { .. } => true,
            _ => false,
        };
        if !is_comment {
            return last;
        }
        last = last - 1;
    }
    last
}

fn needs_semicolon(tree: &Tree, c: NodeId) -> (b: bool)
    requires
        tree.has(c),
    ensures
        b == spec_needs_semicolon(tree@, c),
{
    match tree.kind(c) {
        NodeKind::AtRule { .. } => !tree.is_container(c),
        NodeKind::Decl { prop, .. } => {
            let p = chars_of(prop.as_str());
            p.len() >= 2 && p[0] == '-' && p[1] == '-'
        },
        _ => false,
    }
}

impl<'t> Stringifier<'t> {
    /// Writes the children of `id`, each after its `before`.
    #[verifier::rlimit(40)]
    #[verifier::spinoff_prover]
    fn emit_body(&mut self, id: NodeId, fuel: usize)
        requires
            old(self).inv(),
            old(self).spec_tree().has(id),
        ensures
            final(self).inv(),
            final(self).spec_tree() == old(self).spec_tree(),
            final(self).spec_out() == old(self).spec_out() + spec_body(
                old(self).spec_tree()@,
                id,
                kids_of(old(self).spec_tree()@[id.0 as int]).len() as int,
                fuel as nat,
            ),
        decreases fuel, 0int, 0int,
    {
        let ghost v = self.tree@;
        let ghost out0 = self.spec_out();
        let t = self.tree;
        let ks = t.children(id);
        proof {
            assert(crate::tree::node_links_ok(v, id.0 as int));
        }
        if fuel == 0 || ks.len() == 0 {
            proof {
                assert(self.spec_out() =~= out0 + spec_body(v, id, ks@.len() as int, fuel as nat));
            }
            return;
        }
        let last = last_index(t, ks);
        let semicolon = self.raw_semicolon(id);
        let is_document = match t.kind(id) {
            NodeKind::Document => true,
            _ => false,
        };
        let n = ks.len();
        let mut k: usize = 0;
        proof {
            assert(self.spec_out() =~= out0 + spec_body(v, id, 0, fuel as nat));
        }
        while k < n
            invariant
                self.inv(),
                self.spec_tree()@ == v,
                self.tree == t,
                t.has(id),
                fuel > 0,
                n == ks@.len(),
                ks@ == kids_of(v[id.0 as int]),
                k <= n,
                forall|j: int| 0 <= j < ks@.len() ==> t.has(#[trigger] ks@[j]),
                last as int == spec_last_index(v, ks@, ks@.len() - 1),
                semicolon == spec_raw_semicolon(v, id),
                is_document == v[id.0 as int].kind is Document,
                self.spec_out() == out0 + spec_body(v, id, k as int, fuel as nat),
            decreases n - k,
        {
            let c = ks[k];
            let mut child_semicolon = last != k || semicolon;
            if !child_semicolon && k < n - 1 && needs_semicolon(t, c) {
                child_semicolon = true;
            }
            let ghost mid = self.spec_out();
            let before = self.raw(c, Some("before"), None);
            if is_document {
                self.emit_nonempty(before);
            } else {
                self.emit_nonempty(escape_html_in_css(before.as_str()));
            }
            proof {
                assert(self.spec_out() == mid + spec_before_chunk(v, id, c));
            }
            let ghost mid2 = self.spec_out();
            self.emit_node(c, child_semicolon, fuel - 1);
            proof {
                assert(child_semicolon == spec_child_semicolon(v, id, k as int));
                assert(self.spec_out() =~= out0 + spec_body(v, id, k + 1, fuel as nat));
            }
            k = k + 1;
        }
    }

    /// Writes node `id`, with `;` after it when `semicolon` is set and its
    /// type takes one.
    fn emit_node(&mut self, id: NodeId, semicolon: bool, fuel: usize)
        requires
            old(self).inv(),
            old(self).spec_tree().has(id),
        ensures
            final(self).inv(),
            final(self).spec_tree() == old(self).spec_tree(),
            final(self).spec_out() == old(self).spec_out() + spec_node_chunks(
                old(self).spec_tree()@,
                id,
                semicolon,
                fuel as nat,
            ),
        decreases fuel, 1int, 0int,
    {
        let ghost v = self.tree@;
        let ghost out0 = self.spec_out();
        if fuel == 0 {
            proof {
                assert(self.spec_out() =~= out0 + spec_node_chunks(v, id, semicolon, fuel as nat));
            }
            return;
        }
        let t = self.tree;
        match t.kind(id) {
            NodeKind::Root => {
                self.emit_body(id, fuel);
                let in_document = match t.parent(id) {
                    Some(p) => {
                        proof {
                            assert(crate::tree::node_links_ok(v, id.0 as int));
                        }
                        match t.kind(p) {
                            NodeKind::Document => true,
                            _ => false,
                        }
                    },
                    None => false,
                };
                let after = crate::text::to_owned_string(or_empty(&t.raws(id).after));
                let ghost mid = self.spec_out();
                if in_document {
                    self.emit_nonempty(after);
                } else {
                    self.emit_nonempty(escape_html_in_css(after.as_str()));
                }
                proof {
                    assert(self.spec_out() == mid + spec_root_after(v, id));
                    assert(self.spec_out() =~= out0 + spec_node_chunks(v, id, semicolon, fuel as nat));
                }
            },
            NodeKind::Document => {
                self.emit_body(id, fuel);
            },
            NodeKind::Rule { .. } => {
                let start = raw_value(t, id, "selector");
                self.open_block(id, start.as_str());
                self.emit_body(id, fuel);
                self.close_block(id);
                self.own_semicolon(id);
                proof {
                    assert(self.spec_out() =~= out0 + spec_node_chunks(v, id, semicolon, fuel as nat));
                }
            },
            NodeKind::AtRule { .. } => {
                let start = self.atrule_start(id);
                if t.is_container(id) {
                    self.open_block(id, start.as_str());
                    self.emit_body(id, fuel);
                    self.close_block(id);
                    proof {
                        assert(self.spec_out() =~= out0 + spec_node_chunks(v, id, semicolon, fuel as nat));
                    }
                } else {
                    let end: &str = if semicolon { ";" } else { "" };
                    proof {
                        lemma_empty_lit();
                    }
                    let text = concat3(start.as_str(), or_empty(&t.raws(id).between), end);
                    self.emit(escape_html_in_css(text.as_str()), Some(id), None);
                }
            },
            NodeKind::Decl { .. } => {
                let text = self.decl_text(id, semicolon);
                self.emit(escape_html_in_css(text.as_str()), Some(id), None);
            },
            NodeKind::Comment { .. } => {
                let text = self.comment_text(id);
                self.emit(escape_html_in_css(text.as_str()), Some(id), None);
            },
        }
    }
}

impl<'t> Stringifier<'t> {
    /// Writes node `id`, with `;` after it when `semicolon` is set and its
    /// type takes one.
    pub fn stringify_node(&mut self, id: NodeId, semicolon: bool)
        requires
            old(self).inv(),
            old(self).spec_tree().has(id),
        ensures
            final(self).inv(),
            final(self).spec_tree() == old(self).spec_tree(),
            final(self).spec_out() == old(self).spec_out() + spec_node_chunks(
                old(self).spec_tree()@,
                id,
                semicolon,
                old(self).spec_tree()@.len(),
            ),
    {
        let n = self.tree.len();
        self.emit_node(id, semicolon, n);
    }

    /// The source text of a value-like property of node `id`, or the value
    /// itself once the two have diverged.
    pub fn raw_value(&self, id: NodeId, prop: &str) -> (r: String)
        requires
            self.spec_tree().has(id),
        ensures
            r@ == spec_raw_value(self.spec_tree()@, id, prop@),
    {
        raw_value(self.tree, id, prop)
    }

    /// The chunks written so far.
    pub fn into_chunks(self) -> (r: Vec<Chunk>)
        ensures
            r@.map_values(|c: Chunk| spec_chunk(c)) == self.spec_out(),
    {
        self.out
    }
}

/// Receives the output chunks of a stringification pass.
pub trait Build: Sized {
    /// Builder `after` is what builder `before` becomes on receiving chunk
    /// `c`.
    spec fn spec_receives(before: Self, c: ChunkView, after: Self) -> bool;

    /// Receives one chunk of output, with the node it belongs to.
    fn push(&mut self, text: &str, node: Option<NodeId>, part: Option<Part>)
        ensures
            Self::spec_receives(*old(self), ChunkView { text: text@, node, part }, *final(self)),
    ;
}

/// The builder states `bs` follow each other on receiving the chunks
/// `cs` in order.
pub open spec fn spec_receive_steps<B: Build>(bs: Seq<B>, cs: Seq<ChunkView>) -> bool {
    &&& bs.len() == cs.len() + 1
    &&& forall|i: int| 0 <= i < cs.len() ==> #[trigger] B::spec_receives(bs[i], cs[i], bs[i + 1])
}

/// Builder `after` is what builder `before` becomes on receiving the chunks
/// `cs` in order.
pub open spec fn spec_receives_all<B: Build>(before: B, cs: Seq<ChunkView>, after: B) -> bool {
    exists|bs: Seq<B>| #[trigger] spec_receive_steps(bs, cs) && bs[0] == before && bs.last() == after
}

/// A builder that throws the output away.
#[derive(Clone, Copy, Debug)]
pub struct NoopBuilder;

impl Build for NoopBuilder {
    open spec fn spec_receives(before: Self, c: ChunkView, after: Self) -> bool {
        after == before
    }

    fn push(&mut self, text: &str, node: Option<NodeId>, part: Option<Part>) {
    }
}

/// A builder that concatenates into a `String`.
#[derive(Clone, Debug)]
pub struct StringBuilder {
    /// The output collected so far.
    pub css: String,
}

impl Default for StringBuilder {
    fn default() -> (b: StringBuilder)
        ensures
            b.css@ == Seq::<char>::empty(),
    {
        StringBuilder { css: String::new() }
    }
}

impl Build for StringBuilder {
    open spec fn spec_receives(before: Self, c: ChunkView, after: Self) -> bool {
        after.css@ == before.css@ + c.text
    }

    fn push(&mut self, text: &str, node: Option<NodeId>, part: Option<Part>)
        ensures
            final(self).css@ == old(self).css@ + text@,
    {
        push_str(&mut self.css, text);
    }
}

/// The output of node `id` as chunks.
pub fn chunks(tree: &Tree, id: NodeId) -> (r: Vec<Chunk>)
    requires
        tree.wf(),
        tree.has(id),
    ensures
        r@.map_values(|c: Chunk| spec_chunk(c)) == spec_node_chunks(tree@, id, false, tree@.len()),
{
    let mut s = Stringifier::new(tree);
    s.stringify_node(id, false);
    proof {
        assert(s.spec_out() =~= spec_node_chunks(tree@, id, false, tree@.len()));
    }
    s.into_chunks()
}

/// Renders node `id`, handing every chunk to `builder` in order.
pub fn stringify<B: Build>(tree: &Tree, id: NodeId, builder: &mut B)
    requires
        tree.wf(),
        tree.has(id),
    ensures
        spec_receives_all(*old(builder), spec_node_chunks(tree@, id, false, tree@.len()), *final(builder)),
{
    let cs = chunks(tree, id);
    let ghost views = cs@.map_values(|c: Chunk| spec_chunk(c));
    let ghost mut bs: Seq<B> = seq![*builder];
    let mut i: usize = 0;
    while i < cs.len()
        invariant
            i <= cs@.len(),
            views == cs@.map_values(|c: Chunk| spec_chunk(c)),
            spec_receive_steps(bs, views.take(i as int)),
            bs[0] == *old(builder),
            bs.last() == *builder,
        decreases cs@.len() - i,
    {
        let c = &cs[i];
        let ghost mid = *builder;
        builder.push(c.text.as_str(), c.node, c.part);
        proof {
            let cs1 = views.take(i + 1);
            let bs1 = bs.push(*builder);
            assert(cs1[i as int] == spec_chunk(*c));
            assert forall|j: int| 0 <= j < cs1.len() implies #[trigger] B::spec_receives(bs1[j], cs1[j], bs1[j + 1]) by {
                if j < i {
                    assert(cs1[j] == views.take(i as int)[j]);
                    assert(B::spec_receives(bs[j], views.take(i as int)[j], bs[j + 1]));
                }
            }
            bs = bs1;
        }
        i = i + 1;
    }
    proof {
        assert(views.take(cs@.len() as int) =~= views);
        assert(spec_receive_steps(bs, views));
    }
}

/// Renders node `id` to a string: the text of its chunks, in order.
pub fn stringify_to_string(tree: &Tree, id: NodeId) -> (r: String)
    requires
        tree.wf(),
        tree.has(id),
    ensures
        r@ == spec_to_css(tree@, id),
{
    let cs = chunks(tree, id);
    let ghost views = cs@.map_values(|c: Chunk| spec_chunk(c));
    let mut out = String::new();
    let mut i: usize = 0;
    proof {
        assert(views.take(0) =~= Seq::<ChunkView>::empty());
    }
    while i < cs.len()
        invariant
            i <= cs@.len(),
            views == cs@.map_values(|c: Chunk| spec_chunk(c)),
            out@ == spec_chunks_text(views.take(i as int)),
        decreases cs@.len() - i,
    {
        push_str(&mut out, cs[i].text.as_str());
        proof {
            assert(views.take(i + 1).drop_last() =~= views.take(i as int));
            assert(views.take(i + 1).last() == spec_chunk(cs@[i as int]));
        }
        i = i + 1;
    }
    proof {
        assert(views.take(cs@.len() as int) =~= views);
    }
    out
}

impl Tree {
    /// Renders the whole tree back to CSS.
    pub fn to_css(&self) -> (r: String)
        requires
            self.wf(),
        ensures
            r@ == spec_to_css(self@, self.spec_root()),
    {
        stringify_to_string(self, self.root())
    }

    /// Renders one node back to CSS.
    pub fn node_to_css(&self, id: NodeId) -> (r: String)
        requires
            self.wf(),
            self.has(id),
        ensures
            r@ == spec_to_css(self@, id),
    {
        stringify_to_string(self, id)
    }

    /// The source text of a value-like property (`value`, `params`,
    /// `selector`), or the plain value once the two have diverged.
    pub fn raw_value(&self, id: NodeId, prop: &str) -> (r: String)
        requires
            self.has(id),
        ensures
            r@ == spec_raw_value(self@, id, prop@),
    {
        raw_value(self, id, prop)
    }

    /// A raw of node `id`, inferred from the rest of the tree when the node
    /// does not carry it.
    pub fn raw(&self, id: NodeId, own: Option<&str>, detect: Option<&str>) -> (r: String)
        requires
            self.wf(),
            self.has(id),
        ensures
            r@ == spec_raw(self@, id, crate::node::opt_str_view(own), crate::node::opt_str_view(detect)),
    {
        let mut s = Stringifier::new(self);
        s.raw(id, own, detect)
    }
}

/// Every chunk names a node of the view, if any.
pub open spec fn spec_nodes_in(cs: Seq<ChunkView>, n: nat) -> bool {
    forall|j: int| 0 <= j < cs.len() ==> ((#[trigger] cs[j]).node matches Some(x) ==> x.0 < n)
}

proof fn lemma_nodes_in_concat(a: Seq<ChunkView>, b: Seq<ChunkView>, n: nat)
    requires
        spec_nodes_in(a, n),
        spec_nodes_in(b, n),
    ensures
        spec_nodes_in(a + b, n),
{
    assert forall|j: int| 0 <= j < (a + b).len() implies ((#[trigger] (a + b)[j]).node matches Some(x) ==> x.0 < n) by {
        if j < a.len() {
            assert((a + b)[j] == a[j]);
        } else {
            assert((a + b)[j] == b[j - a.len()]);
        }
    }
}

/// The chunks of a body name only nodes of the view.
pub proof fn lemma_body_nodes(v: Seq<NodeView>, id: NodeId, k: int, fuel: nat)
    requires
        crate::tree::spec_links_ok(v),
        id.0 < v.len(),
    ensures
        spec_nodes_in(spec_body(v, id, k, fuel), v.len()),
    decreases fuel, 0int, k,
{
    if !(fuel == 0 || k <= 0 || k > kids_of(v[id.0 as int]).len()) {
        let c = kids_of(v[id.0 as int])[k - 1];
        assert(crate::tree::node_links_ok(v, id.0 as int));
        lemma_body_nodes(v, id, k - 1, fuel);
        lemma_chunk_nodes(v, c, spec_child_semicolon(v, id, k - 1), (fuel - 1) as nat);
        let before = spec_before_chunk(v, id, c);
        assert(spec_nodes_in(before, v.len()));
        lemma_nodes_in_concat(spec_body(v, id, k - 1, fuel), before, v.len());
        lemma_nodes_in_concat(
            spec_body(v, id, k - 1, fuel) + before,
            spec_node_chunks(v, c, spec_child_semicolon(v, id, k - 1), (fuel - 1) as nat),
            v.len(),
        );
    }
}

/// The chunks of a node name only nodes of the view.
pub proof fn lemma_chunk_nodes(v: Seq<NodeView>, id: NodeId, semicolon: bool, fuel: nat)
    requires
        crate::tree::spec_links_ok(v),
    ensures
        spec_nodes_in(spec_node_chunks(v, id, semicolon, fuel), v.len()),
    decreases fuel, 1int, 0int,
{
    if !(fuel == 0 || id.0 >= v.len()) {
        let n = kids_of(v[id.0 as int]).len() as int;
        lemma_body_nodes(v, id, n, fuel);
        let body = spec_body(v, id, n, fuel);
        match v[id.0 as int].kind {
            NodeKind::Root => {
                lemma_nodes_in_concat(body, spec_root_after(v, id), v.len());
            },
            NodeKind::Document => {},
            NodeKind::Rule { .. } => {
                let o = spec_open(v, id, spec_raw_value(v, id, "selector"@));
                lemma_nodes_in_concat(o, body, v.len());
                lemma_nodes_in_concat(o + body, spec_close(v, id), v.len());
                lemma_nodes_in_concat(o + body + spec_close(v, id), spec_own_semicolon(v, id), v.len());
            },
            NodeKind::AtRule { .. } => {
                if v[id.0 as int].nodes is Some {
                    let o = spec_open(v, id, spec_atrule_start(v, id));
                    lemma_nodes_in_concat(o, body, v.len());
                    lemma_nodes_in_concat(o + body, spec_close(v, id), v.len());
                }
            },
            _ => {},
        }
    }
}

proof fn lemma_escape_head(t: Seq<char>, i: int)
    requires
        0 <= i <= t.len(),
    ensures
        i == t.len() ==> spec_escape_from(t, i).len() == 0,
        i < t.len() && t[i] != '<' ==> spec_escape_from(t, i) == seq![t[i]] + spec_escape_from(t, i + 1),
        i < t.len() && t[i] == '<' ==> spec_escape_from(t, i).len() >= 1 && (spec_escape_from(t, i)[0] == '<'
            || spec_escape_from(t, i)[0] == '\\'),
{
    reveal_strlit("\\3c ");
    if i < t.len() {
        lemma_escape_step(t, i);
    }
}

proof fn lemma_escape_window(t: Seq<char>, i: int, m: int)
    requires
        0 <= i,
        0 <= m,
        i + m <= t.len(),
        forall|q: int| i <= q < i + m ==> t[q] != '<',
    ensures
        spec_escape_from(t, i).len() >= m,
        forall|q: int| 0 <= q < m ==> spec_escape_from(t, i)[q] == t[i + q],
        spec_escape_from(t, i).skip(m) == spec_escape_from(t, i + m),
    decreases m,
{
    if m == 0 {
        assert(spec_escape_from(t, i).skip(0) =~= spec_escape_from(t, i));
    } else {
        lemma_escape_head(t, i);
        lemma_escape_window(t, i + 1, m - 1);
        let e = spec_escape_from(t, i);
        assert(e == seq![t[i]] + spec_escape_from(t, i + 1));
        assert(e.skip(m) =~= spec_escape_from(t, i + 1).skip(m - 1));
        assert forall|q: int| 0 <= q < m implies e[q] == t[i + q] by {
            if q > 0 {
                assert(e[q] == spec_escape_from(t, i + 1)[q - 1]);
            }
        }
    }
}

/// No `<` stands in `t` from `a` up to `b`, and all of it lies in `t`.
spec fn spec_clean_between(t: Seq<char>, a: int, b: int) -> bool {
    forall|x: int| #![trigger t[x]] a <= x < b ==> x < t.len() && t[x] != '<'
}

/// How far from `i + 1` the text runs without a `<`, up to 7 characters.
proof fn lemma_clean_run(t: Seq<char>, i: int, p: int) -> (n: int)
    requires
        1 <= p <= 8,
        0 <= i,
        spec_clean_between(t, i + 1, i + p),
    ensures
        p <= n <= 8,
        spec_clean_between(t, i + 1, i + n),
        n < 8 ==> i + n >= t.len() || t[i + n] == '<',
    decreases 8 - p,
{
    if p >= 8 || i + p >= t.len() || t[i + p] == '<' {
        p
    } else {
        assert(spec_clean_between(t, i + 1, i + p + 1)) by {
            assert forall|x: int| #![trigger t[x]] i + 1 <= x < i + p + 1 implies x < t.len() && t[x] != '<' by {
                if x < i + p {
                    assert(i + 1 <= x < i + p);
                }
            }
        }
        lemma_clean_run(t, i, p + 1)
    }
}

/// A `<` that is not dangerous stays so once the text after it is escaped.
proof fn lemma_safe_stays_safe(t: Seq<char>, i: int)
    requires
        0 <= i < t.len(),
        t[i] == '<',
        !spec_dangerous_at(t, i),
    ensures
        !spec_dangerous_at(seq!['<'] + spec_escape_from(t, i + 1), 0),
{
    let out = seq!['<'] + spec_escape_from(t, i + 1);
    let n = lemma_clean_run(t, i, 1);
    let r = spec_escape_from(t, i + 1);
    let n1 = if i + n <= t.len() { n - 1 } else { t.len() - i - 1 };
    lemma_escape_window(t, i + 1, n1);
    assert forall|q: int| 1 <= q < n1 + 1 implies #[trigger] out[q] == t[i + q] by {
        assert(out[q] == r[q - 1]);
    }
    if i + n1 + 1 <= t.len() {
        lemma_escape_head(t, i + n1 + 1);
    }
    assert(r.skip(n1) == spec_escape_from(t, i + n1 + 1));
    if n1 + 1 < out.len() {
        assert(out[n1 + 1] == r[n1]);
        assert(r[n1] == r.skip(n1)[0]);
    }
    assert(out.len() == 1 + n1 + spec_escape_from(t, i + n1 + 1).len());
}

/// A `<` is dangerous in escaped text nowhere.
proof fn lemma_escaped_safe(t: Seq<char>, i: int, j: int)
    requires
        0 <= i <= t.len(),
        0 <= j,
    ensures
        !spec_dangerous_at(spec_escape_from(t, i), j),
    decreases t.len() - i,
{
    reveal_strlit("\\3c ");
    if i < t.len() {
        lemma_escape_step(t, i);
        let rest = spec_escape_from(t, i + 1);
        let piece = if spec_dangerous_at(t, i) { "\\3c "@ } else { seq![t[i]] };
        let out = spec_escape_from(t, i);
        assert(out == piece + rest);
        if j >= piece.len() {
            lemma_escaped_safe(t, i + 1, j - piece.len());
            lemma_dangerous_suffix(piece, rest, j - piece.len());
        } else if spec_dangerous_at(t, i) {
            assert(out[j] == piece[j]);
        } else if t[i] == '<' {
            assert(j == 0);
            lemma_safe_stays_safe(t, i);
        }
    }
}

/// Whether `<` at a position is dangerous depends only on what follows.
proof fn lemma_dangerous_suffix(a: Seq<char>, b: Seq<char>, j: int)
    requires
        0 <= j,
    ensures
        spec_dangerous_at(a + b, a.len() + j) == spec_dangerous_at(b, j),
{
    let ab = a + b;
    assert forall|q: int| 0 <= q < b.len() implies ab[a.len() + q] == b[q] by {}
}

proof fn lemma_escape_fixed(s: Seq<char>, i: int)
    requires
        0 <= i <= s.len(),
        forall|j: int| 0 <= j < s.len() ==> !spec_dangerous_at(s, j),
    ensures
        spec_escape_from(s, i) == s.skip(i),
    decreases s.len() - i,
{
    if i < s.len() {
        lemma_escape_step(s, i);
        lemma_escape_fixed(s, i + 1);
        assert(s.skip(i) =~= seq![s[i]] + s.skip(i + 1));
    } else {
        assert(s.skip(i) =~= Seq::<char>::empty());
    }
}

/// Escaping is idempotent: escaped text has nothing left to escape.
pub proof fn lemma_escape_idempotent(t: Seq<char>)
    ensures
        spec_escape_html(spec_escape_html(t)) == spec_escape_html(t),
{
    let s = spec_escape_html(t);
    assert forall|j: int| 0 <= j < s.len() implies !spec_dangerous_at(s, j) by {
        lemma_escaped_safe(t, 0, j);
    }
    lemma_escape_fixed(s, 0);
    assert(s.skip(0) =~= s);
}

} // verus!
