//! Positions inside a node's source text, for error reports that point into
//! the node.

use vstd::prelude::*;

use crate::error::CssSyntaxError;
use crate::input::{Input, Loc};
use crate::node::{NodeId, Position};
use crate::tree::Tree;

verus! {

/// How an error or warning points into a node.
#[derive(Clone, Debug)]
pub struct NodeErrorOptions {
    /// Name of the plugin reporting the problem.
    pub plugin: Option<String>,
    /// Highlight the first occurrence of this word inside the node.
    pub word: Option<String>,
    /// Highlight the character at this index inside the node.
    pub index: Option<usize>,
    /// End of the highlighted range.
    pub end_index: Option<usize>,
    /// Explicit start position, as `(line, column)`.
    pub start: Option<(usize, usize)>,
    /// Explicit end position, as `(line, column)`.
    pub end: Option<(usize, usize)>,
}

impl Default for NodeErrorOptions {
    fn default() -> (o: NodeErrorOptions)
        ensures
            o.plugin is None && o.word is None && o.index is None && o.end_index is None && o.start is None
                && o.end is None,
    {
        NodeErrorOptions { plugin: None, word: None, index: None, end_index: None, start: None, end: None }
    }
}

/// The text an input's positions count in: the enclosing document, or the
/// CSS itself.
pub open spec fn spec_document(i: Input) -> Seq<char> {
    match i.document_view() {
        Some(d) => d,
        None => i.css_view(),
    }
}

/// Node `id` has a source with a start position, in an input of the tree.
pub open spec fn spec_has_start(t: Tree, id: NodeId) -> bool {
    &&& t.has(id)
    &&& t@[id.0 as int].source matches Some(s) && s.start is Some && s.input < t.spec_inputs().len()
}

/// The UTF-8 bytes of the text node `id` was parsed from.
pub open spec fn spec_node_bytes(t: Tree, id: NodeId) -> Seq<u8> {
    vstd::utf8::encode_utf8(spec_document(t.spec_inputs()[t@[id.0 as int].source->0.input as int]))
}

/// The start position of node `id`.
pub open spec fn spec_start(t: Tree, id: NodeId) -> Position {
    t@[id.0 as int].source->0.start->0
}

/// Positions inside node `id` can be counted: its start lies on a character
/// boundary of its text, and the counters cannot overflow.
pub open spec fn spec_countable(t: Tree, id: NodeId) -> bool {
    &&& spec_has_start(t, id)
    &&& spec_node_bytes(t, id).len() < 0x4000_0000
    &&& spec_start(t, id).offset <= spec_node_bytes(t, id).len()
    &&& vstd::utf8::is_char_boundary(spec_node_bytes(t, id), spec_start(t, id).offset as int)
    &&& spec_start(t, id).line < 0x4000_0000
    &&& spec_start(t, id).column < 0x4000_0000
}

/// The number of bytes of the character whose first byte is `b`.
pub open spec fn spec_char_width(b: u8) -> int {
    if b < 0x80 {
        1
    } else if b < 0xe0 {
        2
    } else if b < 0xf0 {
        3
    } else {
        4
    }
}

/// Line, column and byte offset after reading `n` characters of `b` from
/// byte `off`, starting at `line` and `column`; reading stops at the end.
pub open spec fn spec_advance(b: Seq<u8>, off: int, n: nat, line: int, column: int) -> (int, int, int)
    decreases n,
{
    if n == 0 || off < 0 || off >= b.len() {
        (line, column, off)
    } else if b[off] == 10 {
        spec_advance(b, off + spec_char_width(b[off]), (n - 1) as nat, line + 1, 1)
    } else {
        spec_advance(b, off + spec_char_width(b[off]), (n - 1) as nat, line, column + 1)
    }
}

/// The position `index` characters into node `id`.
pub open spec fn spec_position_inside(t: Tree, id: NodeId, index: nat) -> Position {
    let s = spec_start(t, id);
    let (l, c, o) = spec_advance(spec_node_bytes(t, id), s.offset as int, index, s.line as int, s.column as int);
    Position { line: l as usize, column: c as usize, offset: o as usize }
}

fn char_width(b: u8) -> (w: usize)
    ensures
        w as int == spec_char_width(b),
{
    if b < 0x80 {
        1
    } else if b < 0xe0 {
        2
    } else if b < 0xf0 {
        3
    } else {
        4
    }
}

impl Tree {
    /// The input node `id` was parsed from and its start position.
    fn start_of(&self, id: NodeId) -> (r: (&Input, Position))
        requires
            spec_has_start(*self, id),
        ensures
            *r.0 == self.spec_inputs()[self@[id.0 as int].source->0.input as int],
            r.1 == spec_start(*self, id),
    {
        let source = *self.source(id).unwrap();
        let start = source.start.unwrap();
        let input = self.input(source.input).unwrap();
        (input, start)
    }

    /// The position `index` characters into node `id`, counted in the text
    /// it was parsed from.
    pub fn position_inside(&self, id: NodeId, index: usize) -> (p: Position)
        requires
            spec_countable(*self, id),
        ensures
            p == spec_position_inside(*self, id, index as nat),
    {
        let (input, start) = self.start_of(id);
        let text = input.document();
        let b = text.as_bytes();
        let ghost bs = spec_node_bytes(*self, id);
        proof {
            assert(b@ == bs);
        }
        let mut line = start.line;
        let mut column = start.column;
        let mut offset = start.offset;
        let mut k: usize = 0;
        while k < index && offset < b.len()
            invariant
                b@ == bs,
                bs.len() < 0x4000_0000,
                k <= index,
                start.line < 0x4000_0000,
                start.column < 0x4000_0000,
                start.offset <= offset <= bs.len() + 3,
                k <= offset - start.offset,
                line <= start.line + k,
                column <= start.column + k,
                spec_advance(bs, start.offset as int, index as nat, start.line as int, start.column as int)
                    == spec_advance(bs, offset as int, (index - k) as nat, line as int, column as int),
            decreases index - k,
        {
            let c = b[offset];
            if c == 10 {
                line = line + 1;
                column = 1;
            } else {
                column = column + 1;
            }
            offset = offset + char_width(c);
            k = k + 1;
        }
        Position { line, column, offset }
    }
}

/// The character index of the first occurrence of `word` in node `id`'s
/// source text, when the node has a start and an end on character
/// boundaries of its text.
pub open spec fn spec_find_word(t: Tree, id: NodeId, word: Seq<char>) -> Option<int> {
    match t@[id.0 as int].source {
        Some(s) => if s.start is Some && s.end is Some && s.input < t.spec_inputs().len() {
            let bs = spec_node_bytes(t, id);
            let a = s.start->0.offset as int;
            let b = s.end->0.offset as int;
            if a <= b <= bs.len() && vstd::utf8::is_char_boundary(bs, a) && vstd::utf8::is_char_boundary(bs, b) {
                crate::text::spec_find_from(vstd::utf8::decode_utf8(bs.subrange(a, b)), word, 0)
            } else {
                None
            }
        } else {
            None
        },
        None => None,
    }
}

/// The node's position, moved to `index` or to `word` when asked.
pub open spec fn spec_position_by(t: Tree, id: NodeId, opts: NodeErrorOptions) -> Position {
    match opts.index {
        Some(i) => spec_position_inside(t, id, i as nat),
        None => match opts.word {
            Some(w) => match spec_find_word(t, id, w@) {
                Some(i) => spec_position_inside(t, id, i as nat),
                None => spec_start(t, id),
            },
            None => spec_start(t, id),
        },
    }
}

/// One column (and byte) past `p`.
pub open spec fn spec_next_column(p: Position) -> Position {
    Position {
        line: p.line,
        column: if p.column < usize::MAX { (p.column + 1) as usize } else { p.column },
        offset: if p.offset < usize::MAX { (p.offset + 1) as usize } else { p.offset },
    }
}

/// `n + 1`, kept at the top of `usize`.
pub open spec fn spec_succ(n: usize) -> usize {
    if n < usize::MAX { (n + 1) as usize } else { n }
}

/// The node's start and end, moved by the options: to a word, or to
/// explicit positions or indexes; an end not after the start becomes one
/// column past it.
pub open spec fn spec_range_by(t: Tree, id: NodeId, opts: NodeErrorOptions) -> (Position, Position) {
    let src = t@[id.0 as int].source->0;
    let input = t.spec_inputs()[src.input as int];
    let node_start = spec_start(t, id);
    let node_end = match src.end {
        Some(e) => Position { line: e.line, column: spec_succ(e.column), offset: e.offset },
        None => spec_next_column(node_start),
    };
    let (start, end) = match opts.word {
        Some(w) => match spec_find_word(t, id, w@) {
            Some(i) => (
                spec_position_inside(t, id, i as nat),
                spec_position_inside(t, id, (i + w@.len()) as nat),
            ),
            None => (node_start, node_end),
        },
        None => {
            let start = match opts.start {
                Some((l, c)) => Position {
                    line: l,
                    column: c,
                    offset: crate::input::spec_offset_of(input.bytes(), l as int, c as int) as usize,
                },
                None => match opts.index {
                    Some(i) => spec_position_inside(t, id, i as nat),
                    None => node_start,
                },
            };
            let end = match opts.end {
                Some((l, c)) => Position {
                    line: l,
                    column: c,
                    offset: crate::input::spec_offset_of(input.bytes(), l as int, c as int) as usize,
                },
                None => match opts.end_index {
                    Some(e) => spec_position_inside(t, id, e as nat),
                    None => match opts.index {
                        Some(i) => spec_position_inside(t, id, spec_succ(i) as nat),
                        None => node_end,
                    },
                },
            };
            (start, end)
        },
    };
    if end.line < start.line || (end.line == start.line && end.column <= start.column) {
        (start, spec_next_column(start))
    } else {
        (start, end)
    }
}

impl Tree {
    /// The character index of `word` inside the node's source text.
    fn find_word(&self, id: NodeId, word: &str) -> (r: Option<usize>)
        requires
            self.has(id),
        ensures
            match r {
                Some(i) => spec_find_word(*self, id, word@) == Some(i as int) && i + word@.len() <= usize::MAX,
                None => spec_find_word(*self, id, word@) is None,
            },
    {
        let source = match self.source(id) {
            Some(s) => *s,
            None => {
                return None;
            },
        };
        let (start, end) = match (source.start, source.end) {
            (Some(a), Some(b)) => (a, b),
            _ => {
                return None;
            },
        };
        let input = match self.input(source.input) {
            Some(i) => i,
            None => {
                return None;
            },
        };
        let text = input.document();
        let a = start.offset;
        let b = end.offset;
        proof {
            vstd::utf8::encode_utf8_valid_utf8(text@);
            assert(vstd::utf8::encode_utf8(text@) == spec_node_bytes(*self, id));
        }
        let tlen = text.as_bytes().len();
        if !(a <= b && b <= tlen && text.is_char_boundary(a) && text.is_char_boundary(b)) {
            return None;
        }
        let slice = crate::text::substr(text, a, b);
        proof {
            vstd::utf8::encode_utf8_decode_utf8(slice@);
            assert(vstd::utf8::decode_utf8(spec_node_bytes(*self, id).subrange(a as int, b as int)) == slice@);
        }
        let chars = crate::text::chars_of(slice);
        let pat = crate::text::chars_of(word);
        proof {
            crate::text::lemma_find_from_bounds(chars@, pat@, 0);
            let bs = spec_node_bytes(*self, id);
            assert(self@[id.0 as int].source == Some(source));
            assert(a <= b <= bs.len() && vstd::utf8::is_char_boundary(bs, a as int) && vstd::utf8::is_char_boundary(
                bs,
                b as int,
            ));
            assert(spec_find_word(*self, id, word@) == crate::text::spec_find_from(slice@, word@, 0));
        }
        let r = crate::text::find(&chars, &pat, 0);
        r
    }

    /// The node's position, moved to `index` or to the first occurrence of
    /// `word` when the options ask for it.
    pub fn position_by(&self, id: NodeId, opts: &NodeErrorOptions) -> (p: Position)
        requires
            spec_countable(*self, id),
        ensures
            p == spec_position_by(*self, id, *opts),
    {
        if let Some(index) = opts.index {
            return self.position_inside(id, index);
        }
        if let Some(word) = &opts.word {
            if let Some(index) = self.find_word(id, word.as_str()) {
                return self.position_inside(id, index);
            }
        }
        self.start_of(id).1
    }

    /// The node's start and end, moved by the options.
    pub fn range_by(&self, id: NodeId, opts: &NodeErrorOptions) -> (r: (Position, Position))
        requires
            spec_countable(*self, id),
            self.spec_inputs()[self@[id.0 as int].source->0.input as int].wf(),
        ensures
            r == spec_range_by(*self, id, *opts),
    {
        let (input, node_start) = self.start_of(id);
        let src = *self.source(id).unwrap();
        let node_end = match src.end {
            Some(e) => Position { line: e.line, column: e.column.saturating_add(1), offset: e.offset },
            None => Position {
                line: node_start.line,
                column: node_start.column.saturating_add(1),
                offset: node_start.offset.saturating_add(1),
            },
        };
        let mut start = node_start;
        let mut end = node_end;
        let mut done = false;
        if let Some(word) = &opts.word {
            done = true;
            if let Some(index) = self.find_word(id, word.as_str()) {
                let count = crate::text::chars_of(word.as_str()).len();
                start = self.position_inside(id, index);
                end = self.position_inside(id, index + count);
            }
        }
        if !done {
            start = match opts.start {
                Some((l, c)) => Position { line: l, column: c, offset: input.from_line_and_column(l, c) },
                None => match opts.index {
                    Some(i) => self.position_inside(id, i),
                    None => node_start,
                },
            };
            end = match opts.end {
                Some((l, c)) => Position { line: l, column: c, offset: input.from_line_and_column(l, c) },
                None => match opts.end_index {
                    Some(e) => self.position_inside(id, e),
                    None => match opts.index {
                        Some(i) => self.position_inside(id, i.saturating_add(1)),
                        None => node_end,
                    },
                },
            };
        }
        if end.line < start.line || (end.line == start.line && end.column <= start.column) {
            end = Position {
                line: start.line,
                column: start.column.saturating_add(1),
                offset: start.offset.saturating_add(1),
            };
        }
        (start, end)
    }
}

/// A node error can be reported for node `id`: a node without a source
/// needs nothing; one with a source needs countable positions and an input
/// whose map can follow the range back.
pub open spec fn spec_node_error_ok(t: Tree, id: NodeId, opts: NodeErrorOptions) -> bool {
    &&& t.has(id)
    &&& t@[id.0 as int].source is Some ==> {
        let input = t.spec_inputs()[t@[id.0 as int].source->0.input as int];
        let (start, end) = spec_range_by(t, id, opts);
        &&& spec_countable(t, id)
        &&& input.wf()
        &&& input.error_followable(
            Loc::LineCol { line: start.line, column: start.column },
            Some(Loc::LineCol { line: end.line, column: end.column }),
        )
    }
}

impl Tree {
    /// An error pointing at a node, for plugins to return: at the node's
    /// range as [`Tree::range_by`] gives it, or without a position when the
    /// node has no source.
    pub fn node_error(&self, id: NodeId, message: String, opts: &NodeErrorOptions) -> (e: CssSyntaxError)
        requires
            spec_node_error_ok(*self, id, *opts),
        ensures
            self@[id.0 as int].source is None ==> {
                &&& e.reason@ == message@
                &&& crate::error::opt_view(e.plugin) == crate::error::opt_view(opts.plugin)
                &&& e.file is None && e.source is None && e.line is None && e.column is None
                &&& e.message@ == e.spec_message()
            },
            self@[id.0 as int].source is Some ==> {
                let input = self.spec_inputs()[self@[id.0 as int].source->0.input as int];
                let (start, end) = spec_range_by(*self, id, *opts);
                input.is_error(
                    e,
                    message@,
                    Loc::LineCol { line: start.line, column: start.column },
                    Some(Loc::LineCol { line: end.line, column: end.column }),
                    crate::error::opt_view(opts.plugin),
                )
            },
    {
        if self.source(id).is_none() {
            let mut error = CssSyntaxError::new(message);
            if let Some(plugin) = &opts.plugin {
                error.set_plugin(plugin.as_str());
            }
            return error;
        }
        let (start, end) = self.range_by(id, opts);
        let (input, _) = self.start_of(id);
        let plugin: Option<&str> = match &opts.plugin {
            Some(p) => Some(p.as_str()),
            None => None,
        };
        proof {
            assert(crate::node::opt_str_view(plugin) == crate::error::opt_view(opts.plugin));
        }
        input.error_range(
            message,
            Loc::LineCol { line: start.line, column: start.column },
            Loc::LineCol { line: end.line, column: end.column },
            plugin,
        )
    }
}

} // verus!
