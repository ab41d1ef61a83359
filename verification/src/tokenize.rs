//! CSS tokenizer.
//!
//! The scanner walks raw bytes: every byte it branches on is ASCII, and UTF-8
//! never encodes an ASCII byte inside a multi-byte sequence.
//!
//! Positions are UTF-8 byte offsets into the input.

use vstd::prelude::*;
use vstd::string::StringSliceAdditionalSpecFns;
use crate::error::CssSyntaxError;
use crate::input::{Input, Loc, spec_is_continuation};
use crate::text::{lemma_after_ascii, lemma_boundary, substr};

verus! {

/// Token kinds produced by the tokenizer.
#[derive(Clone, Copy, Debug, PartialEq, Eq, Structural, Hash)]
pub enum TokenKind {
    /// `@media`, `@import` — an at-rule name.
    AtWord,
    /// A balanced `(…)` run kept as one token.
    Brackets,
    /// `}`
    CloseCurly,
    /// `)`
    CloseParen,
    /// `]`
    CloseSquare,
    /// `:`
    Colon,
    /// `/* … */`
    Comment,
    /// `{`
    OpenCurly,
    /// `(` that could not be balanced into `Brackets`.
    OpenParen,
    /// `[`
    OpenSquare,
    /// `;`
    Semicolon,
    /// A run of whitespace.
    Space,
    /// A quoted string.
    Str,
    /// Anything else: identifiers, numbers, escapes.
    Word,
}

impl TokenKind {
    /// The exact type string PostCSS uses for this kind.
    pub fn as_str(self) -> (s: &'static str)
        ensures
            s@ == spec_kind_name(self),
    {
        match self {
            TokenKind::AtWord => "at-word",
            TokenKind::Brackets => "brackets",
            TokenKind::CloseCurly => "}",
            TokenKind::CloseParen => ")",
            TokenKind::CloseSquare => "]",
            TokenKind::Colon => ":",
            TokenKind::Comment => "comment",
            TokenKind::OpenCurly => "{",
            TokenKind::OpenParen => "(",
            TokenKind::OpenSquare => "[",
            TokenKind::Semicolon => ";",
            TokenKind::Space => "space",
            TokenKind::Str => "string",
            TokenKind::Word => "word",
        }
    }
}

/// The type string of each kind.
pub open spec fn spec_kind_name(kind: TokenKind) -> Seq<char> {
    match kind {
        TokenKind::AtWord => "at-word"@,
        TokenKind::Brackets => "brackets"@,
        TokenKind::CloseCurly => "}"@,
        TokenKind::CloseParen => ")"@,
        TokenKind::CloseSquare => "]"@,
        TokenKind::Colon => ":"@,
        TokenKind::Comment => "comment"@,
        TokenKind::OpenCurly => "{"@,
        TokenKind::OpenParen => "("@,
        TokenKind::OpenSquare => "["@,
        TokenKind::Semicolon => ";"@,
        TokenKind::Space => "space"@,
        TokenKind::Str => "string"@,
        TokenKind::Word => "word"@,
    }
}

/// A single token: kind, source text, and the offsets of its first and last
/// byte.
///
/// `space` tokens carry no offsets and control characters carry only a start.
#[derive(Clone, Copy, Debug)]
pub struct Token<'a> {
    /// The token type.
    pub kind: TokenKind,
    /// The token's source text.
    pub content: &'a str,
    /// Byte offset of the token's first byte.
    pub start: Option<usize>,
    /// Byte offset of the token's last byte.
    pub end: Option<usize>,
}

impl<'a> Token<'a> {
    /// Start offset, or 0 when the token carries none.
    pub fn start_or_zero(&self) -> (r: usize)
        ensures
            r == match self.start { Some(s) => s, None => 0 },
    {
        match self.start {
            Some(start) => start,
            None => 0,
        }
    }

    /// `token[3] || token[2]`: the last offset of the token, falling back to
    /// its start. A zero `end` is treated as absent.
    pub fn end_or_start(&self) -> (r: Option<usize>)
        ensures
            r == match self.end {
                Some(e) => if e != 0 { Some(e) } else { self.start },
                None => self.start,
            },
    {
        match self.end {
            Some(end) => if end != 0 { Some(end) } else { self.start },
            None => self.start,
        }
    }

    /// Like [`Token::end_or_start`] but also rejects a zero result.
    pub fn truthy_position(&self) -> (r: Option<usize>)
        ensures
            r == match self.end_or_start_spec() {
                Some(p) => if p != 0 { Some(p) } else { None },
                None => None,
            },
    {
        match self.end_or_start() {
            Some(pos) => if pos != 0 { Some(pos) } else { None },
            None => None,
        }
    }

    /// The start offset, or 0 when the token carries none.
    pub open spec fn start_or_zero_spec(&self) -> usize {
        match self.start {
            Some(s) => s,
            None => 0,
        }
    }

    /// The last offset of the token, falling back to its start.
    pub open spec fn end_or_start_spec(&self) -> Option<usize> {
        match self.end {
            Some(e) => if e != 0 { Some(e) } else { self.start },
            None => self.start,
        }
    }
}

/// Options for [`Tokenizer::new`].
#[derive(Clone, Copy, Debug, Default)]
pub struct TokenizerOptions {
    /// Emit truncated tokens instead of failing on unclosed strings, comments
    /// and brackets.
    pub ignore_errors: bool,
}

// ---------------------------------------------------------------------------
// The lexical grammar, over the bytes of the input.

/// The byte at `i`, or 0 past the end (`charCodeAt` giving `NaN`).
pub open spec fn spec_at(b: Seq<u8>, i: int) -> u8 {
    if 0 <= i < b.len() { b[i] } else { 0 }
}

/// `\n`, space, tab, `\r`, form feed.
pub open spec fn spec_is_space(c: u8) -> bool {
    c == 10 || c == 32 || c == 9 || c == 13 || c == 12
}

/// Bytes that make a one-byte token.
pub open spec fn spec_is_single(c: u8) -> bool {
    c == 91 || c == 93 || c == 123 || c == 125 || c == 58 || c == 59 || c == 41
}

/// The kind of a one-byte token.
pub open spec fn spec_single_kind(c: u8) -> TokenKind {
    if c == 91 {
        TokenKind::OpenSquare
    } else if c == 93 {
        TokenKind::CloseSquare
    } else if c == 123 {
        TokenKind::OpenCurly
    } else if c == 125 {
        TokenKind::CloseCurly
    } else if c == 58 {
        TokenKind::Colon
    } else if c == 59 {
        TokenKind::Semicolon
    } else {
        TokenKind::CloseParen
    }
}

/// Bytes after `url(` that keep the argument from being read raw: quotes
/// and whitespace.
pub open spec fn spec_is_url_stop(c: u8) -> bool {
    c == 39 || c == 34 || c == 32 || c == 10 || c == 9 || c == 12 || c == 13
}

/// Bytes after a backslash that end the escape at the backslash itself.
pub open spec fn spec_is_escape_stop(c: u8) -> bool {
    c == 47 || c == 32 || c == 10 || c == 9 || c == 13 || c == 12
}

/// `[\da-f]` ignoring case.
pub open spec fn spec_is_hex(c: u8) -> bool {
    (48 <= c <= 57) || (97 <= c <= 102) || (65 <= c <= 70)
}

/// Bytes that end an at-word: `[\t\n\f\r "#'()/;[\\\]{}]`.
pub open spec fn spec_is_at_end(c: u8) -> bool {
    c == 9 || c == 10 || c == 12 || c == 13 || c == 32 || c == 34 || c == 35 || c == 39 || c == 40
        || c == 41 || c == 47 || c == 59 || c == 91 || c == 92 || c == 93 || c == 123 || c == 125
}

/// Bytes that end a word: `[\t\n\f\r !"#'():;@[\\\]{}]`.
pub open spec fn spec_is_word_end_byte(c: u8) -> bool {
    c == 9 || c == 10 || c == 12 || c == 13 || c == 32 || c == 33 || c == 34 || c == 35 || c == 39
        || c == 40 || c == 41 || c == 58 || c == 59 || c == 64 || c == 91 || c == 92 || c == 93
        || c == 123 || c == 125
}

/// Whether a word ends at `i`: at one of its end bytes, or at a `/` that
/// opens a comment.
pub open spec fn spec_word_ends_at(b: Seq<u8>, i: int) -> bool {
    spec_is_word_end_byte(b[i]) || (b[i] == 47 && spec_at(b, i + 1) == 42)
}

/// End of the run of spaces starting at `i`.
pub open spec fn spec_skip_spaces(b: Seq<u8>, i: int) -> int
    decreases b.len() - i,
{
    if 0 <= i < b.len() && spec_is_space(b[i]) {
        spec_skip_spaces(b, i + 1)
    } else {
        i
    }
}

/// First index at or after `from` holding `needle`.
pub open spec fn spec_index_of(b: Seq<u8>, needle: u8, from: int) -> Option<int>
    decreases b.len() - from,
{
    if from < 0 || from >= b.len() {
        None
    } else if b[from] == needle {
        Some(from)
    } else {
        spec_index_of(b, needle, from + 1)
    }
}

/// Where `spec_index_of` can land.
pub proof fn lemma_index_of_bounds(b: Seq<u8>, needle: u8, from: int)
    ensures
        spec_index_of(b, needle, from) matches Some(k) ==> from <= k < b.len() && b[k] == needle,
    decreases b.len() - from,
{
    if 0 <= from < b.len() && b[from] != needle {
        lemma_index_of_bounds(b, needle, from + 1);
    }
}

/// First index at or after `from` where `*/` starts.
pub open spec fn spec_comment_end(b: Seq<u8>, from: int) -> Option<int>
    decreases b.len() - from,
{
    if from < 0 || from + 1 >= b.len() {
        None
    } else if b[from] == 42 && b[from + 1] == 47 {
        Some(from)
    } else {
        spec_comment_end(b, from + 1)
    }
}

/// First index at or after `from` that ends an at-word.
pub open spec fn spec_find_at_end(b: Seq<u8>, from: int) -> Option<int>
    decreases b.len() - from,
{
    if from < 0 || from >= b.len() {
        None
    } else if spec_is_at_end(b[from]) {
        Some(from)
    } else {
        spec_find_at_end(b, from + 1)
    }
}

/// First index at or after `from` that ends a word.
pub open spec fn spec_find_word_end(b: Seq<u8>, from: int) -> Option<int>
    decreases b.len() - from,
{
    if from < 0 || from >= b.len() {
        None
    } else if spec_word_ends_at(b, from) {
        Some(from)
    } else {
        spec_find_word_end(b, from + 1)
    }
}

/// Backslashes directly before `k`.
pub open spec fn spec_backslashes_before(b: Seq<u8>, k: int) -> nat
    decreases k,
{
    if k > 0 && spec_at(b, k - 1) == 92 {
        1 + spec_backslashes_before(b, k - 1)
    } else {
        0
    }
}

/// First `needle` at or after `from` not escaped by an odd run of
/// backslashes.
pub open spec fn spec_find_unescaped(b: Seq<u8>, needle: u8, from: int) -> Option<int>
    decreases b.len() - from,
{
    if from < 0 || from >= b.len() {
        None
    } else {
        match spec_index_of(b, needle, from) {
            None => None,
            Some(k) => if spec_backslashes_before(b, k) % 2 == 0 {
                Some(k)
            } else {
                proof {
                    lemma_index_of_bounds(b, needle, from);
                }
                spec_find_unescaped(b, needle, k + 1)
            },
        }
    }
}

/// Backslashes in a row starting at `i`.
pub open spec fn spec_backslash_run(b: Seq<u8>, i: int) -> nat
    decreases b.len() - i,
{
    if 0 <= i < b.len() && b[i] == 92 {
        1 + spec_backslash_run(b, i + 1)
    } else {
        0
    }
}

/// Last index of the run of hex digits starting at `i`.
pub open spec fn spec_hex_last(b: Seq<u8>, i: int) -> int
    decreases b.len() - i,
{
    if 0 <= i && i + 1 < b.len() && spec_is_hex(b[i + 1]) {
        spec_hex_last(b, i + 1)
    } else {
        i
    }
}

/// Last byte of the escape that starts with a backslash at `pos`.
pub open spec fn spec_escape_last(b: Seq<u8>, pos: int) -> int {
    let run = spec_backslash_run(b, pos);
    let next = pos + run - 1;
    let code = spec_at(b, next + 1);
    if run % 2 == 1 && !spec_is_escape_stop(code) {
        let next = next + 1;
        if spec_is_hex(spec_at(b, next)) {
            let last = spec_hex_last(b, next);
            if spec_at(b, last + 1) == 32 {
                last + 1
            } else {
                last
            }
        } else {
            next
        }
    } else {
        next
    }
}

/// The first index after `i` that starts a character, or the end.
pub open spec fn spec_char_end(b: Seq<u8>, i: int) -> int {
    spec_next_boundary(b, i + 1)
}

/// The first index at or after `j` that starts a character, or the end.
pub open spec fn spec_next_boundary(b: Seq<u8>, j: int) -> int
    decreases b.len() - j,
{
    if j >= b.len() {
        b.len() as int
    } else if j >= 0 && spec_is_continuation(b[j]) {
        spec_next_boundary(b, j + 1)
    } else {
        j
    }
}

/// `.[\r\n"'(/\\]` somewhere in `b[from..to]`: a character that is not a line
/// break, followed by one of those bytes.
pub open spec fn spec_is_bad_bracket(b: Seq<u8>, from: int, to: int) -> bool {
    exists|i: int|
        from <= i < to - 1 && #[trigger] b[i] != 10 && b[i] != 13 && !spec_is_continuation(b[i])
            && {
            let n = b[i + 1];
            n == 13 || n == 10 || n == 34 || n == 39 || n == 40 || n == 47 || n == 92
        }
}

/// What one call of `next_token` reads, when it reads fresh input.
pub enum Step {
    /// An unclosed construct: `what` names it, at byte `offset`.
    Unclosed { what: Seq<char>, offset: int },
    /// A token spanning `b[from..to]`, leaving the scan at `pos`.
    Token {
        kind: TokenKind,
        from: int,
        to: int,
        start: Option<int>,
        end: Option<int>,
        pos: int,
        bad_paren: int,
    },
}

/// The token at `pos`, given whether unclosed constructs are tolerated,
/// whether the word most recently read (and not yet consumed by a `(`) is
/// `url`, and how far a known unbalanced `(` reaches.
pub open spec fn spec_step(b: Seq<u8>, pos: int, ignore: bool, url: bool, bad_paren: int) -> Step {
    let code = b[pos];
    let len = b.len() as int;
    if spec_is_space(code) {
        let next = spec_skip_spaces(b, pos + 1);
        Step::Token { kind: TokenKind::Space, from: pos, to: next, start: None, end: None, pos: next, bad_paren }
    } else if spec_is_single(code) {
        Step::Token {
            kind: spec_single_kind(code),
            from: pos,
            to: pos + 1,
            start: Some(pos),
            end: None,
            pos: pos + 1,
            bad_paren,
        }
    } else if code == 40 {
        if url && !spec_is_url_stop(spec_at(b, pos + 1)) {
            match spec_find_unescaped(b, 41, pos + 1) {
                Some(k) => Step::Token {
                    kind: TokenKind::Brackets,
                    from: pos,
                    to: k + 1,
                    start: Some(pos),
                    end: Some(k),
                    pos: k + 1,
                    bad_paren,
                },
                None => if ignore {
                    Step::Token {
                        kind: TokenKind::Brackets,
                        from: pos,
                        to: pos + 1,
                        start: Some(pos),
                        end: Some(pos),
                        pos: pos + 1,
                        bad_paren,
                    }
                } else {
                    Step::Unclosed { what: "bracket"@, offset: pos }
                },
            }
        } else if pos <= bad_paren {
            Step::Token { kind: TokenKind::OpenParen, from: pos, to: pos + 1, start: Some(pos), end: None, pos: pos + 1, bad_paren }
        } else {
            match spec_index_of(b, 41, pos + 1) {
                None => Step::Token {
                    kind: TokenKind::OpenParen,
                    from: pos,
                    to: pos + 1,
                    start: Some(pos),
                    end: None,
                    pos: pos + 1,
                    bad_paren: len,
                },
                Some(k) => if spec_is_bad_bracket(b, pos, k + 1) {
                    Step::Token {
                        kind: TokenKind::OpenParen,
                        from: pos,
                        to: pos + 1,
                        start: Some(pos),
                        end: None,
                        pos: pos + 1,
                        bad_paren: k,
                    }
                } else {
                    Step::Token {
                        kind: TokenKind::Brackets,
                        from: pos,
                        to: k + 1,
                        start: Some(pos),
                        end: Some(k),
                        pos: k + 1,
                        bad_paren,
                    }
                },
            }
        }
    } else if code == 39 || code == 34 {
        match spec_find_unescaped(b, code, pos + 1) {
            Some(k) => Step::Token { kind: TokenKind::Str, from: pos, to: k + 1, start: Some(pos), end: Some(k), pos: k + 1, bad_paren },
            None => if ignore {
                let to = spec_char_end(b, pos + 1);
                Step::Token {
                    kind: TokenKind::Str,
                    from: pos,
                    to: if to < len { to } else { len },
                    start: Some(pos),
                    end: Some(pos + 1),
                    pos: if to < len { to } else { len },
                    bad_paren,
                }
            } else {
                Step::Unclosed { what: "string"@, offset: pos }
            },
        }
    } else if code == 64 {
        let next = match spec_find_at_end(b, pos + 1) {
            Some(k) => k - 1,
            None => len - 1,
        };
        Step::Token { kind: TokenKind::AtWord, from: pos, to: spec_char_end(b, next), start: Some(pos), end: Some(next), pos: next + 1, bad_paren }
    } else if code == 92 {
        let next = spec_escape_last(b, pos);
        Step::Token { kind: TokenKind::Word, from: pos, to: spec_char_end(b, next), start: Some(pos), end: Some(next), pos: spec_char_end(b, next), bad_paren }
    } else if code == 47 && spec_at(b, pos + 1) == 42 {
        match spec_comment_end(b, pos + 2) {
            Some(k) => Step::Token {
                kind: TokenKind::Comment,
                from: pos,
                to: if k + 2 < len { k + 2 } else { len },
                start: Some(pos),
                end: Some(k + 1),
                pos: k + 2,
                bad_paren,
            },
            None => if ignore {
                Step::Token { kind: TokenKind::Comment, from: pos, to: len, start: Some(pos), end: Some(len), pos: len + 1, bad_paren }
            } else {
                Step::Unclosed { what: "comment"@, offset: pos }
            },
        }
    } else {
        let next = match spec_find_word_end(b, pos + 1) {
            Some(k) => k - 1,
            None => len - 1,
        };
        Step::Token { kind: TokenKind::Word, from: pos, to: spec_char_end(b, next), start: Some(pos), end: Some(next), pos: next + 1, bad_paren }
    }
}

/// Whether `b[from..to]` is the word `url`.
pub open spec fn spec_is_url_word(b: Seq<u8>, from: int, to: int) -> bool {
    to - from == 3 && b[from] == 117 && b[from + 1] == 114 && b[from + 2] == 108
}

} // verus!

verus! {

/// An optional offset as an integer.
pub open spec fn opt_int(o: Option<usize>) -> Option<int> {
    match o {
        Some(v) => Some(v as int),
        None => None,
    }
}

/// Whether the byte at `pos` starts a plain word: it opens none of the other
/// tokens.
pub open spec fn spec_starts_word(b: Seq<u8>, pos: int) -> bool {
    let code = b[pos];
    !spec_is_space(code) && !spec_is_single(code) && code != 40 && code != 39 && code != 34 && code != 64
        && code != 92 && !(code == 47 && spec_at(b, pos + 1) == 42)
}

/// The `url` flags after reading the token at `pos`: a `(` consumes the
/// latest, a plain word adds its own.
pub open spec fn spec_next_buffer(b: Seq<u8>, pos: int, buffer: Seq<bool>) -> Seq<bool> {
    if b[pos] == 40 {
        if buffer.len() > 0 {
            buffer.drop_last()
        } else {
            buffer
        }
    } else if spec_starts_word(b, pos) {
        let next = match spec_find_word_end(b, pos + 1) {
            Some(k) => k - 1,
            None => b.len() - 1,
        };
        buffer.push(spec_is_url_word(b, pos, spec_char_end(b, next)))
    } else {
        buffer
    }
}

/// `t` is the token a step describes.
pub open spec fn spec_token_matches<'a>(t: Token<'a>, b: Seq<u8>, step: Step) -> bool {
    match step {
        Step::Token { kind, from, to, start, end, .. } => {
            &&& t.kind == kind
            &&& t.content.spec_bytes() == b.subrange(from, to)
            &&& opt_int(t.start) == start
            &&& opt_int(t.end) == end
        },
        Step::Unclosed { .. } => false,
    }
}

/// Streaming CSS tokenizer.
pub struct Tokenizer<'a> {
    css: &'a str,
    bytes: &'a [u8],
    ignore: bool,
    length: usize,
    pos: usize,
    /// For every word read and not yet consumed by a `(`: whether it is `url`.
    buffer: Vec<bool>,
    returned: Vec<Token<'a>>,
    last_bad_paren: i64,
    input: &'a Input,
}

impl<'a> Tokenizer<'a> {
    /// The input being read.
    pub closed spec fn spec_input(&self) -> Input {
        *self.input
    }

    /// The bytes being read.
    pub closed spec fn spec_bytes(&self) -> Seq<u8> {
        self.bytes@
    }

    /// The scan offset.
    pub closed spec fn spec_pos(&self) -> int {
        self.pos as int
    }

    /// Whether unclosed constructs are tolerated.
    pub closed spec fn spec_ignore(&self) -> bool {
        self.ignore
    }

    /// The `url` flags of the words read and not yet consumed.
    pub closed spec fn spec_buffer(&self) -> Seq<bool> {
        self.buffer@
    }

    /// Tokens pushed back, the next one last.
    pub closed spec fn spec_returned(&self) -> Seq<Token<'a>> {
        self.returned@
    }

    /// How far a known unbalanced `(` reaches, or -1.
    pub closed spec fn spec_bad_paren(&self) -> int {
        self.last_bad_paren as int
    }

    /// The fields agree with the input.
    pub closed spec fn inv(&self) -> bool {
        &&& self.input.wf()
        &&& self.css@ == self.input.css_view()
        &&& self.css.spec_bytes() == self.input.bytes()
        &&& self.bytes@ == self.css.spec_bytes()
        &&& self.length == self.bytes@.len()
        &&& self.length < 0x8000_0000
        &&& self.pos <= self.length + 1
        &&& (self.pos >= self.length || !spec_is_continuation(self.bytes@[self.pos as int]))
        &&& -1 <= self.last_bad_paren <= self.length
    }

    /// A fresh read from a character start ends on one, or at or past the
    /// end.
    proof fn lemma_lands(&self, ignore: bool, url: bool)
        requires
            self.inv(),
            self.pos < self.length,
        ensures
            spec_step(self.bytes@, self.pos as int, ignore, url, self.last_bad_paren as int) matches Step::Token {
                pos: p,
                ..
            } ==> p >= self.length || !spec_is_continuation(self.bytes@[p]),
    {
        vstd::utf8::encode_utf8_valid_utf8(self.css@);
        lemma_step_on_boundary(self.bytes@, self.pos as int, ignore, url, self.last_bad_paren as int);
    }

    /// What the invariant says of the visible state.
    pub proof fn lemma_inv(&self)
        requires
            self.inv(),
        ensures
            0 <= self.spec_pos() <= self.spec_bytes().len() + 1,
            self.spec_bytes() == self.spec_input().bytes(),
            self.spec_input().wf(),
            self.ready(),
    {
    }

    /// Whether the word read last, and not yet consumed, is `url`.
    pub open spec fn spec_url(&self) -> bool {
        self.spec_buffer().len() > 0 && self.spec_buffer().last()
    }

    /// The next call can read: a token is pushed back, the input is
    /// exhausted, or the scan offset starts a character.
    pub open spec fn ready(&self) -> bool {
        ||| self.spec_returned().len() > 0
        ||| self.spec_pos() >= self.spec_bytes().len()
        ||| !spec_is_continuation(self.spec_bytes()[self.spec_pos()])
    }

    /// An unclosed construct at the scan offset, if that is what comes
    /// next, can be reported: the error can follow the input's source map.
    pub open spec fn can_report(&self, ignore_unclosed: bool) -> bool {
        (self.spec_returned().len() == 0 && self.spec_pos() < self.spec_bytes().len() && spec_step(
            self.spec_bytes(),
            self.spec_pos(),
            self.spec_ignore() || ignore_unclosed,
            self.spec_url(),
            self.spec_bad_paren(),
        ) is Unclosed) ==> self.spec_input().error_followable(Loc::Offset(self.spec_pos() as usize), None)
    }

    /// Source, input and mode are those of `other`.
    pub open spec fn same_source(&self, other: &Self) -> bool {
        &&& self.spec_input() == other.spec_input()
        &&& self.spec_bytes() == other.spec_bytes()
        &&& self.spec_ignore() == other.spec_ignore()
    }

    /// What one call of `next_token` does: hand back a pushed-back token,
    /// report the end, or read the next token (or fail on an unclosed
    /// construct) as [`spec_step`] describes.
    pub open spec fn next_token_spec(
        old: Self,
        new: Self,
        ignore_unclosed: bool,
        r: Result<Option<Token<'a>>, CssSyntaxError>,
    ) -> bool {
        let b = old.spec_bytes();
        let pos = old.spec_pos();
        &&& new.same_source(&old)
        &&& if old.spec_returned().len() > 0 {
            &&& r == Ok::<Option<Token<'a>>, CssSyntaxError>(Some(old.spec_returned().last()))
            &&& new.spec_returned() == old.spec_returned().drop_last()
            &&& new.spec_pos() == pos
            &&& new.spec_buffer() == old.spec_buffer()
            &&& new.spec_bad_paren() == old.spec_bad_paren()
        } else if pos >= b.len() {
            &&& r == Ok::<Option<Token<'a>>, CssSyntaxError>(None)
            &&& new.spec_returned() == old.spec_returned()
            &&& new.spec_pos() == pos
            &&& new.spec_buffer() == old.spec_buffer()
            &&& new.spec_bad_paren() == old.spec_bad_paren()
        } else {
            &&& new.spec_returned() == old.spec_returned()
            &&& new.spec_buffer() == spec_next_buffer(b, pos, old.spec_buffer())
            &&& match spec_step(b, pos, old.spec_ignore() || ignore_unclosed, old.spec_url(), old.spec_bad_paren()) {
                Step::Unclosed { what, offset } => {
                    &&& r matches Err(e) && old.spec_input().is_error(
                        e,
                        "Unclosed "@ + what,
                        Loc::Offset(offset as usize),
                        None,
                        None,
                    )
                    &&& new.spec_pos() == pos
                    &&& new.spec_bad_paren() == old.spec_bad_paren()
                },
                Step::Token { pos: p, bad_paren, .. } => {
                    &&& r matches Ok(Some(t)) && spec_token_matches(
                        t,
                        b,
                        spec_step(b, pos, old.spec_ignore() || ignore_unclosed, old.spec_url(), old.spec_bad_paren()),
                    )
                    &&& new.spec_pos() == p
                    &&& new.spec_bad_paren() == bad_paren
                },
            }
        }
    }

    /// Creates a tokenizer over `input`.
    pub fn new(input: &'a Input, options: TokenizerOptions) -> (t: Self)
        requires
            input.wf(),
        ensures
            t.inv(),
            t.spec_input() == *input,
            t.spec_bytes() == input.bytes(),
            t.spec_ignore() == options.ignore_errors,
            t.spec_pos() == 0,
            t.spec_buffer().len() == 0,
            t.spec_returned().len() == 0,
            t.spec_bad_paren() == -1,
    {
        let css = input.css();
        proof {
            input.lemma_wf_len();
            let b = css.spec_bytes();
            vstd::utf8::encode_utf8_valid_utf8(css@);
            if b.len() > 0 {
                vstd::utf8::is_char_boundary_start_end_of_seq(b);
                vstd::utf8::is_char_boundary_iff_not_is_continuation_byte(b, 0);
            }
        }
        Tokenizer {
            css,
            bytes: css.as_bytes(),
            ignore: options.ignore_errors,
            length: css.as_bytes().len(),
            pos: 0,
            buffer: Vec::new(),
            returned: Vec::new(),
            last_bad_paren: -1,
            input,
        }
    }

    /// Current scan offset.
    pub fn position(&self) -> (p: usize)
        ensures
            p as int == self.spec_pos(),
    {
        self.pos
    }

    /// True when no tokens are pending and the input is exhausted.
    pub fn end_of_file(&self) -> (r: bool)
        requires
            self.inv(),
        ensures
            r == (self.spec_returned().len() == 0 && self.spec_pos() >= self.spec_bytes().len()),
    {
        self.returned.len() == 0 && self.pos >= self.length
    }

    /// Pushes a token back onto the stream.
    pub fn back(&mut self, token: Token<'a>)
        ensures
            final(self).same_source(old(self)),
            final(self).spec_returned() == old(self).spec_returned().push(token),
            final(self).spec_pos() == old(self).spec_pos(),
            final(self).spec_buffer() == old(self).spec_buffer(),
            final(self).spec_bad_paren() == old(self).spec_bad_paren(),
            old(self).inv() ==> final(self).inv(),
    {
        self.returned.push(token);
    }


    fn at(&self, index: usize) -> (r: u8)
        requires
            self.inv(),
        ensures
            r == spec_at(self.spec_bytes(), index as int),
    {
        if index < self.length {
            self.bytes[index]
        } else {
            0
        }
    }

    /// Smallest character start after `index`, or the end.
    fn char_end(&self, index: usize) -> (r: usize)
        requires
            self.inv(),
            index <= self.length + 1,
        ensures
            r as int == spec_char_end(self.spec_bytes(), index as int),
            index < r <= self.length || (r == self.length && index >= self.length),
            r == self.length || !spec_is_continuation(self.spec_bytes()[r as int]),
    {
        let mut end = if index + 1 < self.length { index + 1 } else { self.length };
        while end < self.length && crate::input::is_continuation(self.bytes[end])
            invariant
                self.inv(),
                end <= self.length,
                index < end || (end == self.length && index >= self.length),
                spec_next_boundary(self.spec_bytes(), end as int) == spec_next_boundary(
                    self.spec_bytes(),
                    index + 1,
                ),
            decreases self.length - end,
        {
            end = end + 1;
        }
        end
    }

    fn index_of(&self, needle: u8, from: usize) -> (r: Option<usize>)
        requires
            self.inv(),
            from <= self.length + 1,
        ensures
            opt_int(r) == spec_index_of(self.spec_bytes(), needle, from as int),
            r matches Some(k) ==> from <= k < self.length,
    {
        let mut i = from;
        while i < self.length
            invariant
                self.inv(),
                from <= i,
                spec_index_of(self.spec_bytes(), needle, i as int) == spec_index_of(self.spec_bytes(), needle, from as int),
            decreases self.length - i,
        {
            if self.bytes[i] == needle {
                return Some(i);
            }
            i = i + 1;
        }
        None
    }

    /// Whether an odd run of backslashes stands right before `k`.
    fn escaped_at(&self, k: usize) -> (r: bool)
        requires
            self.inv(),
            k <= self.length,
        ensures
            r == (spec_backslashes_before(self.spec_bytes(), k as int) % 2 == 1),
    {
        let mut e = k;
        let mut escaped = false;
        while e > 0 && self.at(e - 1) == 92
            invariant
                self.inv(),
                e <= k <= self.length,
                spec_backslashes_before(self.spec_bytes(), k as int) == (k - e) + spec_backslashes_before(self.spec_bytes(), e as int),
                escaped == ((k - e) % 2 == 1),
            decreases e,
        {
            e = e - 1;
            escaped = !escaped;
        }
        escaped
    }

    /// First `needle` at or after `from` that no odd run of backslashes
    /// escapes.
    fn find_unescaped(&self, needle: u8, from: usize) -> (r: Option<usize>)
        requires
            self.inv(),
            from <= self.length + 1,
        ensures
            opt_int(r) == spec_find_unescaped(self.spec_bytes(), needle, from as int),
            r matches Some(k) ==> from <= k < self.length && self.spec_bytes()[k as int] == needle,
    {
        let mut next = from;
        while next < self.length
            invariant
                self.inv(),
                from <= next,
                spec_find_unescaped(self.spec_bytes(), needle, next as int) == spec_find_unescaped(self.spec_bytes(), needle, from as int),
            decreases self.length - next,
        {
            match self.index_of(needle, next) {
                None => {
                    return None;
                },
                Some(k) => {
                    proof {
                        lemma_index_of_bounds(self.spec_bytes(), needle, next as int);
                    }
                    if !self.escaped_at(k) {
                        return Some(k);
                    }
                    next = k + 1;
                },
            }
        }
        None
    }

    /// First `*/` at or after `from`.
    fn comment_end(&self, from: usize) -> (r: Option<usize>)
        requires
            self.inv(),
            from <= self.length + 1,
        ensures
            opt_int(r) == spec_comment_end(self.spec_bytes(), from as int),
            r matches Some(k) ==> from <= k && k + 1 < self.length && self.spec_bytes()[k + 1] == 47,
    {
        let mut i = from;
        while i + 1 < self.length
            invariant
                self.inv(),
                from <= i <= self.length + 1,
                spec_comment_end(self.spec_bytes(), i as int) == spec_comment_end(self.spec_bytes(), from as int),
            decreases self.length - i,
        {
            if self.bytes[i] == 42 && self.bytes[i + 1] == 47 {
                return Some(i);
            }
            i = i + 1;
        }
        None
    }

    /// `[\t\n\f\r "#'()/;[\\\]{}]` at or after `from`.
    fn find_at_end(&self, from: usize) -> (r: Option<usize>)
        requires
            self.inv(),
            from <= self.length + 1,
        ensures
            opt_int(r) == spec_find_at_end(self.spec_bytes(), from as int),
            r matches Some(k) ==> from <= k < self.length && self.spec_bytes()[k as int] < 0x80,
    {
        let mut i = from;
        while i < self.length
            invariant
                self.inv(),
                from <= i,
                spec_find_at_end(self.spec_bytes(), i as int) == spec_find_at_end(self.spec_bytes(), from as int),
            decreases self.length - i,
        {
            let c = self.bytes[i];
            if c == 9 || c == 10 || c == 12 || c == 13 || c == 32 || c == 34 || c == 35 || c == 39 || c == 40
                || c == 41 || c == 47 || c == 59 || c == 91 || c == 92 || c == 93 || c == 123 || c == 125 {
                return Some(i);
            }
            i = i + 1;
        }
        None
    }

    /// `[\t\n\f\r !"#'():;@[\\\]{}]|\/(?=\*)` at or after `from`.
    fn find_word_end(&self, from: usize) -> (r: Option<usize>)
        requires
            self.inv(),
            from <= self.length + 1,
        ensures
            opt_int(r) == spec_find_word_end(self.spec_bytes(), from as int),
            r matches Some(k) ==> from <= k < self.length && self.spec_bytes()[k as int] < 0x80,
    {
        let mut i = from;
        while i < self.length
            invariant
                self.inv(),
                from <= i,
                spec_find_word_end(self.spec_bytes(), i as int) == spec_find_word_end(self.spec_bytes(), from as int),
            decreases self.length - i,
        {
            let c = self.bytes[i];
            if c == 9 || c == 10 || c == 12 || c == 13 || c == 32 || c == 33 || c == 34 || c == 35 || c == 39
                || c == 40 || c == 41 || c == 58 || c == 59 || c == 64 || c == 91 || c == 92 || c == 93
                || c == 123 || c == 125 || (c == 47 && self.at(i + 1) == 42) {
                return Some(i);
            }
            i = i + 1;
        }
        None
    }

    /// Whether `css[from..to]` holds a character other than a line break
    /// followed by one of `\r \n " ' ( / \`.
    fn bad_bracket(&self, from: usize, to: usize) -> (r: bool)
        requires
            self.inv(),
            from <= to <= self.length,
        ensures
            r == spec_is_bad_bracket(self.spec_bytes(), from as int, to as int),
    {
        let mut i = from;
        while i + 1 < to
            invariant
                self.inv(),
                from <= i <= to,
                to <= self.length,
                forall|j: int|
                    from <= j < i ==> !(#[trigger] self.spec_bytes()[j] != 10 && self.spec_bytes()[j] != 13
                        && !spec_is_continuation(self.spec_bytes()[j]) && {
                        let n = self.spec_bytes()[j + 1];
                        n == 13 || n == 10 || n == 34 || n == 39 || n == 40 || n == 47 || n == 92
                    }),
            decreases to - i,
        {
            let current = self.bytes[i];
            if current != 10 && current != 13 && !crate::input::is_continuation(current) {
                let n = self.bytes[i + 1];
                if n == 13 || n == 10 || n == 34 || n == 39 || n == 40 || n == 47 || n == 92 {
                    return true;
                }
            }
            i = i + 1;
        }
        false
    }

    /// The error for an unclosed construct starting at the scan offset.
    fn unclosed(&self, what: &str) -> (e: CssSyntaxError)
        requires
            self.inv(),
            self.spec_input().error_followable(Loc::Offset(self.pos), None),
        ensures
            self.spec_input().is_error(e, "Unclosed "@ + what@, Loc::Offset(self.pos), None, None),
    {
        let mut message = crate::text::to_owned_string("Unclosed ");
        crate::text::push_str(&mut message, what);
        self.input.error_at_offset(message, self.pos)
    }
}


/// `\n`, space, tab, `\r`, form feed.
fn is_space_byte(c: u8) -> (r: bool)
    ensures
        r == spec_is_space(c),
{
    c == 10 || c == 32 || c == 9 || c == 13 || c == 12
}

/// `[\da-f]` ignoring case.
fn is_hex(c: u8) -> (r: bool)
    ensures
        r == spec_is_hex(c),
{
    (48 <= c && c <= 57) || (97 <= c && c <= 102) || (65 <= c && c <= 70)
}

impl<'a> Tokenizer<'a> {
    /// What reading one token does: the scan moves as the step says and the
    /// token is the one it describes, or the read fails on an unclosed
    /// construct and the scan stays.
    pub open spec fn spec_read_result(old: Self, new: Self, r: Result<Token<'a>, CssSyntaxError>, step: Step) -> bool {
        &&& new.same_source(&old)
        &&& new.spec_returned() == old.spec_returned()
        &&& match step {
            Step::Unclosed { what, offset } => {
                &&& r matches Err(e) && old.spec_input().is_error(
                    e,
                    "Unclosed "@ + what,
                    Loc::Offset(offset as usize),
                    None,
                    None,
                )
                &&& new.spec_pos() == old.spec_pos()
                &&& new.spec_bad_paren() == old.spec_bad_paren()
            },
            Step::Token { pos: p, bad_paren, .. } => {
                &&& r matches Ok(t) && spec_token_matches(t, old.spec_bytes(), step)
                &&& new.spec_pos() == p
                &&& new.spec_bad_paren() == bad_paren
            },
        }
    }

    /// Offsets where a slice of the CSS may start or end.
    proof fn lemma_cut(&self, k: int)
        requires
            self.inv(),
            0 <= k <= self.length,
            k == 0 || k == self.length || !spec_is_continuation(self.bytes@[k]),
        ensures
            vstd::utf8::is_char_boundary(self.css.spec_bytes(), k),
            vstd::utf8::valid_utf8(self.css.spec_bytes()),
    {
        lemma_boundary(self.css, k);
    }

    /// The offset after an ASCII byte starts a character, or is the end.
    proof fn lemma_cut_after_ascii(&self, k: int)
        requires
            self.inv(),
            0 < k <= self.length,
            self.bytes@[k - 1] < 0x80,
        ensures
            k == self.length || !spec_is_continuation(self.bytes@[k]),
            vstd::utf8::is_char_boundary(self.css.spec_bytes(), k),
    {
        lemma_boundary(self.css, 0);
        lemma_after_ascii(self.css.spec_bytes(), k);
        lemma_boundary(self.css, k);
    }

    fn read_space(&mut self, ignore: bool, url: bool) -> (r: Result<Token<'a>, CssSyntaxError>)
        requires
            old(self).inv(),
            old(self).spec_pos() < old(self).spec_bytes().len(),
            !spec_is_continuation(old(self).spec_bytes()[old(self).spec_pos()]),
            spec_is_space(old(self).spec_bytes()[old(self).spec_pos()]),
        ensures
            final(self).inv(),
            final(self).spec_buffer() == old(self).spec_buffer(),
            Self::spec_read_result(
                *old(self),
                *final(self),
                r,
                spec_step(old(self).spec_bytes(), old(self).spec_pos(), ignore, url, old(self).spec_bad_paren()),
            ),
    {
        proof {
            self.lemma_lands(ignore, url);
        }
        let start = self.pos;
        let mut next = start + 1;
        while next < self.length && is_space_byte(self.bytes[next])
            invariant
                self.inv(),
                self.pos == start,
                start < next <= self.length,
                spec_is_space(self.bytes@[next - 1]),
                spec_skip_spaces(self.bytes@, next as int) == spec_skip_spaces(self.bytes@, start + 1),
            decreases self.length - next,
        {
            next = next + 1;
        }
        proof {
            self.lemma_cut(start as int);
            self.lemma_cut_after_ascii(next as int);
        }
        let content = substr(self.css, start, next);
        self.pos = next;
        Ok(Token { kind: TokenKind::Space, content, start: None, end: None })
    }

    fn read_single(&mut self, ignore: bool, url: bool) -> (r: Result<Token<'a>, CssSyntaxError>)
        requires
            old(self).inv(),
            old(self).spec_pos() < old(self).spec_bytes().len(),
            !spec_is_continuation(old(self).spec_bytes()[old(self).spec_pos()]),
            spec_is_single(old(self).spec_bytes()[old(self).spec_pos()]),
        ensures
            final(self).inv(),
            final(self).spec_buffer() == old(self).spec_buffer(),
            Self::spec_read_result(
                *old(self),
                *final(self),
                r,
                spec_step(old(self).spec_bytes(), old(self).spec_pos(), ignore, url, old(self).spec_bad_paren()),
            ),
    {
        proof {
            self.lemma_lands(ignore, url);
        }
        let start = self.pos;
        let code = self.bytes[start];
        let kind = if code == 91 {
            TokenKind::OpenSquare
        } else if code == 93 {
            TokenKind::CloseSquare
        } else if code == 123 {
            TokenKind::OpenCurly
        } else if code == 125 {
            TokenKind::CloseCurly
        } else if code == 58 {
            TokenKind::Colon
        } else if code == 59 {
            TokenKind::Semicolon
        } else {
            TokenKind::CloseParen
        };
        proof {
            self.lemma_cut(start as int);
            self.lemma_cut_after_ascii(start + 1);
        }
        let content = substr(self.css, start, start + 1);
        self.pos = start + 1;
        Ok(Token { kind, content, start: Some(start), end: None })
    }

    fn read_paren(&mut self, ignore: bool, url: bool) -> (r: Result<Token<'a>, CssSyntaxError>)
        requires
            old(self).inv(),
            spec_step(old(self).spec_bytes(), old(self).spec_pos(), ignore, url, old(self).spec_bad_paren()) is Unclosed
                ==> old(self).spec_input().error_followable(Loc::Offset(old(self).spec_pos() as usize), None),
            old(self).spec_pos() < old(self).spec_bytes().len(),
            old(self).spec_bytes()[old(self).spec_pos()] == 40,
        ensures
            final(self).inv(),
            final(self).spec_buffer() == old(self).spec_buffer(),
            Self::spec_read_result(
                *old(self),
                *final(self),
                r,
                spec_step(old(self).spec_bytes(), old(self).spec_pos(), ignore, url, old(self).spec_bad_paren()),
            ),
    {
        proof {
            self.lemma_lands(ignore, url);
        }
        let start = self.pos;
        let n = self.at(start + 1);
        proof {
            self.lemma_cut(start as int);
            self.lemma_cut_after_ascii(start + 1);
        }
        if url && !(n == 39 || n == 34 || n == 32 || n == 10 || n == 9 || n == 12 || n == 13) {
            match self.find_unescaped(41, start + 1) {
                Some(k) => {
                    proof {
                        self.lemma_cut_after_ascii(k + 1);
                    }
                    let content = substr(self.css, start, k + 1);
                    self.pos = k + 1;
                    Ok(Token { kind: TokenKind::Brackets, content, start: Some(start), end: Some(k) })
                },
                None => {
                    if ignore {
                        let content = substr(self.css, start, start + 1);
                        self.pos = start + 1;
                        Ok(Token { kind: TokenKind::Brackets, content, start: Some(start), end: Some(start) })
                    } else {
                        Err(self.unclosed("bracket"))
                    }
                },
            }
        } else if (start as i64) <= self.last_bad_paren {
            let content = substr(self.css, start, start + 1);
            self.pos = start + 1;
            Ok(Token { kind: TokenKind::OpenParen, content, start: Some(start), end: None })
        } else {
            match self.index_of(41, start + 1) {
                None => {
                    self.last_bad_paren = self.length as i64;
                    let content = substr(self.css, start, start + 1);
                    self.pos = start + 1;
                    Ok(Token { kind: TokenKind::OpenParen, content, start: Some(start), end: None })
                },
                Some(k) => {
                    proof {
                        lemma_index_of_bounds(self.bytes@, 41, start + 1);
                    }
                    if self.bad_bracket(start, k + 1) {
                        self.last_bad_paren = k as i64;
                        let content = substr(self.css, start, start + 1);
                        self.pos = start + 1;
                        Ok(Token { kind: TokenKind::OpenParen, content, start: Some(start), end: None })
                    } else {
                        proof {
                            self.lemma_cut_after_ascii(k + 1);
                        }
                        let content = substr(self.css, start, k + 1);
                        self.pos = k + 1;
                        Ok(Token { kind: TokenKind::Brackets, content, start: Some(start), end: Some(k) })
                    }
                },
            }
        }
    }

    fn read_string(&mut self, ignore: bool, url: bool) -> (r: Result<Token<'a>, CssSyntaxError>)
        requires
            old(self).inv(),
            spec_step(old(self).spec_bytes(), old(self).spec_pos(), ignore, url, old(self).spec_bad_paren()) is Unclosed
                ==> old(self).spec_input().error_followable(Loc::Offset(old(self).spec_pos() as usize), None),
            old(self).spec_pos() < old(self).spec_bytes().len(),
            old(self).spec_bytes()[old(self).spec_pos()] == 39 || old(self).spec_bytes()[old(self).spec_pos()] == 34,
        ensures
            final(self).inv(),
            final(self).spec_buffer() == old(self).spec_buffer(),
            Self::spec_read_result(
                *old(self),
                *final(self),
                r,
                spec_step(old(self).spec_bytes(), old(self).spec_pos(), ignore, url, old(self).spec_bad_paren()),
            ),
    {
        proof {
            self.lemma_lands(ignore, url);
        }
        let start = self.pos;
        let quote = self.bytes[start];
        proof {
            self.lemma_cut(start as int);
        }
        match self.find_unescaped(quote, start + 1) {
            Some(k) => {
                proof {
                    self.lemma_cut_after_ascii(k + 1);
                }
                let content = substr(self.css, start, k + 1);
                self.pos = k + 1;
                Ok(Token { kind: TokenKind::Str, content, start: Some(start), end: Some(k) })
            },
            None => {
                if ignore {
                    let to = self.char_end(start + 1);
                    proof {
                        self.lemma_cut(to as int);
                    }
                    let content = substr(self.css, start, to);
                    self.pos = to;
                    Ok(Token { kind: TokenKind::Str, content, start: Some(start), end: Some(start + 1) })
                } else {
                    Err(self.unclosed("string"))
                }
            },
        }
    }

    fn read_at_word(&mut self, ignore: bool, url: bool) -> (r: Result<Token<'a>, CssSyntaxError>)
        requires
            old(self).inv(),
            old(self).spec_pos() < old(self).spec_bytes().len(),
            old(self).spec_bytes()[old(self).spec_pos()] == 64,
        ensures
            final(self).inv(),
            final(self).spec_buffer() == old(self).spec_buffer(),
            Self::spec_read_result(
                *old(self),
                *final(self),
                r,
                spec_step(old(self).spec_bytes(), old(self).spec_pos(), ignore, url, old(self).spec_bad_paren()),
            ),
    {
        proof {
            self.lemma_lands(ignore, url);
        }
        let start = self.pos;
        let next = match self.find_at_end(start + 1) {
            Some(k) => k - 1,
            None => self.length - 1,
        };
        let to = self.char_end(next);
        proof {
            self.lemma_cut(start as int);
            self.lemma_cut(to as int);
        }
        let content = substr(self.css, start, to);
        self.pos = next + 1;
        Ok(Token { kind: TokenKind::AtWord, content, start: Some(start), end: Some(next) })
    }

    fn read_backslash(&mut self, ignore: bool, url: bool) -> (r: Result<Token<'a>, CssSyntaxError>)
        requires
            old(self).inv(),
            old(self).spec_pos() < old(self).spec_bytes().len(),
            !spec_is_continuation(old(self).spec_bytes()[old(self).spec_pos()]),
            old(self).spec_bytes()[old(self).spec_pos()] == 92,
        ensures
            final(self).inv(),
            final(self).spec_buffer() == old(self).spec_buffer(),
            Self::spec_read_result(
                *old(self),
                *final(self),
                r,
                spec_step(old(self).spec_bytes(), old(self).spec_pos(), ignore, url, old(self).spec_bad_paren()),
            ),
    {
        proof {
            self.lemma_lands(ignore, url);
        }
        let start = self.pos;
        let ghost b = self.bytes@;
        let mut next = start;
        let mut escape = true;
        proof {
            reveal_with_fuel(spec_backslash_run, 2);
        }
        while self.at(next + 1) == 92
            invariant
                self.inv(),
                self.pos == start,
                b == self.bytes@,
                start <= next < self.length,
                (next - start + 1) + spec_backslash_run(b, next + 1) == spec_backslash_run(b, start as int),
                escape == ((next - start + 1) % 2 == 1),
            decreases self.length - next,
        {
            proof {
                reveal_with_fuel(spec_backslash_run, 2);
            }
            next = next + 1;
            escape = !escape;
        }
        assert(spec_backslash_run(b, next + 1) == 0);
        let code = self.at(next + 1);
        if escape && !(code == 47 || code == 32 || code == 10 || code == 9 || code == 13 || code == 12) {
            next = next + 1;
            if is_hex(self.at(next)) {
                let ghost first = next;
                while is_hex(self.at(next + 1))
                    invariant
                        self.inv(),
                        self.pos == start,
                        b == self.bytes@,
                        first <= next < self.length,
                        spec_hex_last(b, next as int) == spec_hex_last(b, first as int),
                    decreases self.length - next,
                {
                    next = next + 1;
                }
                if self.at(next + 1) == 32 {
                    next = next + 1;
                }
            }
        }
        let to = self.char_end(next);
        proof {
            self.lemma_cut(start as int);
            self.lemma_cut(to as int);
        }
        let content = substr(self.css, start, to);
        self.pos = to;
        Ok(Token { kind: TokenKind::Word, content, start: Some(start), end: Some(next) })
    }

    fn read_comment(&mut self, ignore: bool, url: bool) -> (r: Result<Token<'a>, CssSyntaxError>)
        requires
            old(self).inv(),
            spec_step(old(self).spec_bytes(), old(self).spec_pos(), ignore, url, old(self).spec_bad_paren()) is Unclosed
                ==> old(self).spec_input().error_followable(Loc::Offset(old(self).spec_pos() as usize), None),
            old(self).spec_pos() < old(self).spec_bytes().len(),
            !spec_is_continuation(old(self).spec_bytes()[old(self).spec_pos()]),
            old(self).spec_bytes()[old(self).spec_pos()] == 47,
            spec_at(old(self).spec_bytes(), old(self).spec_pos() + 1) == 42,
        ensures
            final(self).inv(),
            final(self).spec_buffer() == old(self).spec_buffer(),
            Self::spec_read_result(
                *old(self),
                *final(self),
                r,
                spec_step(old(self).spec_bytes(), old(self).spec_pos(), ignore, url, old(self).spec_bad_paren()),
            ),
    {
        proof {
            self.lemma_lands(ignore, url);
        }
        let start = self.pos;
        proof {
            self.lemma_cut(start as int);
        }
        match self.comment_end(start + 2) {
            Some(k) => {
                proof {
                    self.lemma_cut_after_ascii(k + 2);
                }
                let content = substr(self.css, start, k + 2);
                self.pos = k + 2;
                Ok(Token { kind: TokenKind::Comment, content, start: Some(start), end: Some(k + 1) })
            },
            None => {
                if ignore {
                    proof {
                        self.lemma_cut(self.length as int);
                    }
                    let content = substr(self.css, start, self.length);
                    self.pos = self.length + 1;
                    Ok(Token { kind: TokenKind::Comment, content, start: Some(start), end: Some(self.length) })
                } else {
                    Err(self.unclosed("comment"))
                }
            },
        }
    }

    fn read_word(&mut self, ignore: bool, url: bool) -> (r: Result<Token<'a>, CssSyntaxError>)
        requires
            old(self).inv(),
            old(self).spec_pos() < old(self).spec_bytes().len(),
            !spec_is_continuation(old(self).spec_bytes()[old(self).spec_pos()]),
            spec_starts_word(old(self).spec_bytes(), old(self).spec_pos()),
        ensures
            final(self).inv(),
            final(self).spec_buffer() == spec_next_buffer(old(self).spec_bytes(), old(self).spec_pos(), old(self).spec_buffer()),
            Self::spec_read_result(
                *old(self),
                *final(self),
                r,
                spec_step(old(self).spec_bytes(), old(self).spec_pos(), ignore, url, old(self).spec_bad_paren()),
            ),
    {
        proof {
            self.lemma_lands(ignore, url);
        }
        let start = self.pos;
        let next = match self.find_word_end(start + 1) {
            Some(k) => k - 1,
            None => self.length - 1,
        };
        let to = self.char_end(next);
        proof {
            self.lemma_cut(start as int);
            self.lemma_cut(to as int);
        }
        let content = substr(self.css, start, to);
        let is_url = to - start == 3 && self.bytes[start] == 117 && self.bytes[start + 1] == 114 && self.bytes[start + 2] == 108;
        self.buffer.push(is_url);
        self.pos = next + 1;
        Ok(Token { kind: TokenKind::Word, content, start: Some(start), end: Some(next) })
    }

    /// Reads the next token.
    ///
    /// `ignore_unclosed` suppresses unclosed-construct errors for this token
    /// only. Offsets in the result are UTF-8 byte offsets.
    pub fn next_token(&mut self, ignore_unclosed: bool) -> (r: Result<Option<Token<'a>>, CssSyntaxError>)
        requires
            old(self).inv(),
            old(self).can_report(ignore_unclosed),
        ensures
            final(self).inv(),
            Self::next_token_spec(*old(self), *final(self), ignore_unclosed, r),
    {
        if self.returned.len() > 0 {
            match self.returned.pop() {
                Some(token) => {
                    return Ok(Some(token));
                },
                None => {
                    return Ok(None);
                },
            }
        }
        if self.pos >= self.length {
            return Ok(None);
        }
        let code = self.bytes[self.pos];
        let ignore = self.ignore || ignore_unclosed;
        let url = self.buffer.len() > 0 && self.buffer[self.buffer.len() - 1];
        let result = if is_space_byte(code) {
            self.read_space(ignore, url)
        } else if code == 91 || code == 93 || code == 123 || code == 125 || code == 58 || code == 59 || code == 41 {
            self.read_single(ignore, url)
        } else if code == 40 {
            let _ = self.buffer.pop();
            self.read_paren(ignore, url)
        } else if code == 39 || code == 34 {
            self.read_string(ignore, url)
        } else if code == 64 {
            self.read_at_word(ignore, url)
        } else if code == 92 {
            self.read_backslash(ignore, url)
        } else if code == 47 && self.at(self.pos + 1) == 42 {
            self.read_comment(ignore, url)
        } else {
            self.read_word(ignore, url)
        };
        match result {
            Ok(token) => Ok(Some(token)),
            Err(e) => Err(e),
        }
    }
}


/// Tokens tile the input: each token read at `pos` starts there, and when
/// the scan goes on from a character start within the input, the token ends
/// exactly where the next one begins.
pub proof fn lemma_step_tiles(b: Seq<u8>, pos: int, ignore: bool, url: bool, bad_paren: int)
    requires
        0 <= pos < b.len(),
    ensures
        spec_step(b, pos, ignore, url, bad_paren) matches Step::Token { from, to, pos: p, .. } ==> {
            &&& from == pos
            &&& (p <= b.len() && (p == b.len() || !spec_is_continuation(b[p])) ==> to == p)
        },
{
    let code = b[pos];
    if spec_is_space(code) {
        lemma_skip_spaces_bounds(b, pos + 1);
    }
    if code == 39 || code == 34 {
        lemma_find_unescaped_bounds(b, code, pos + 1);
    }
    if code == 40 {
        lemma_find_unescaped_bounds(b, 41, pos + 1);
        lemma_index_of_bounds(b, 41, pos + 1);
    }
}

pub proof fn lemma_skip_spaces_bounds(b: Seq<u8>, i: int)
    requires
        0 <= i <= b.len(),
    ensures
        i <= spec_skip_spaces(b, i) <= b.len(),
    decreases b.len() - i,
{
    if i < b.len() && spec_is_space(b[i]) {
        lemma_skip_spaces_bounds(b, i + 1);
    }
}

proof fn lemma_find_unescaped_bounds(b: Seq<u8>, needle: u8, from: int)
    ensures
        spec_find_unescaped(b, needle, from) matches Some(k) ==> from <= k < b.len() && b[k] == needle,
    decreases b.len() - from,
{
    if 0 <= from < b.len() {
        lemma_index_of_bounds(b, needle, from);
        match spec_index_of(b, needle, from) {
            Some(k) => {
                if spec_backslashes_before(b, k) % 2 != 0 {
                    lemma_find_unescaped_bounds(b, needle, k + 1);
                }
            },
            None => {},
        }
    }
}


/// A token read by a full run: its kind and the byte range of its text.
pub type Lexed = (TokenKind, int, int);

/// The `url` flag of the word read last.
pub open spec fn spec_buffer_url(buffer: Seq<bool>) -> bool {
    buffer.len() > 0 && buffer.last()
}

/// The tokens a tokenizer that tolerates unclosed constructs reads from
/// `pos` to the end, and whether it gets there: it stops early, unable to
/// go on, when the scan lands inside a character.
pub open spec fn spec_lex(b: Seq<u8>, pos: int, buffer: Seq<bool>, bad_paren: int) -> (Seq<Lexed>, bool)
    decreases b.len() - pos,
{
    if pos < 0 || pos >= b.len() {
        (Seq::empty(), true)
    } else if spec_is_continuation(b[pos]) {
        (Seq::empty(), false)
    } else {
        match spec_step(b, pos, true, spec_buffer_url(buffer), bad_paren) {
            Step::Token { kind, from, to, pos: p, bad_paren: bp, .. } => {
                proof {
                    lemma_step_advances(b, pos, spec_buffer_url(buffer), bad_paren);
                }
                if p >= b.len() {
                    (seq![(kind, from, to)], true)
                } else {
                    let (rest, ok) = spec_lex(b, p, spec_next_buffer(b, pos, buffer), bp);
                    (seq![(kind, from, to)] + rest, ok)
                }
            },
            Step::Unclosed { .. } => (Seq::empty(), false),
        }
    }
}

/// The tokens the parser's tokenizer, which reports unclosed constructs,
/// reads from `pos` on, and whether the scan stays on character starts:
/// it stops at the end, or at an unclosed construct, which it reports.
pub open spec fn spec_lex_strict(b: Seq<u8>, pos: int, buffer: Seq<bool>, bad_paren: int) -> (Seq<Lexed>, bool)
    decreases b.len() - pos,
{
    if pos < 0 || pos >= b.len() {
        (Seq::empty(), true)
    } else if spec_is_continuation(b[pos]) {
        (Seq::empty(), false)
    } else {
        match spec_step(b, pos, false, spec_buffer_url(buffer), bad_paren) {
            Step::Token { kind, from, to, pos: p, bad_paren: bp, .. } => {
                proof {
                    lemma_step_advances(b, pos, spec_buffer_url(buffer), bad_paren);
                    lemma_strict_token(b, pos, spec_buffer_url(buffer), bad_paren);
                }
                if p >= b.len() {
                    (seq![(kind, from, to)], true)
                } else {
                    let (rest, ok) = spec_lex_strict(b, p, spec_next_buffer(b, pos, buffer), bp);
                    (seq![(kind, from, to)] + rest, ok)
                }
            },
            Step::Unclosed { .. } => (Seq::empty(), true),
        }
    }
}

/// Where the strict scan reads a token, the tolerant one reads the same.
pub proof fn lemma_strict_token(b: Seq<u8>, pos: int, url: bool, bad_paren: int)
    requires
        0 <= pos < b.len(),
    ensures
        spec_step(b, pos, false, url, bad_paren) is Token ==> spec_step(b, pos, false, url, bad_paren) == spec_step(
            b,
            pos,
            true,
            url,
            bad_paren,
        ),
{
}

/// Each token moves the scan forward.
pub proof fn lemma_step_advances(b: Seq<u8>, pos: int, url: bool, bad_paren: int)
    requires
        0 <= pos < b.len(),
    ensures
        spec_step(b, pos, true, url, bad_paren) is Token,
        spec_step(b, pos, true, url, bad_paren) matches Step::Token { pos: p, .. } ==> pos < p,
{
    let code = b[pos];
    if spec_is_space(code) {
        lemma_skip_spaces_bounds(b, pos + 1);
    }
    if code == 39 || code == 34 {
        lemma_find_unescaped_bounds(b, code, pos + 1);
        lemma_next_boundary_le(b, pos + 2);
    }
    if code == 40 {
        lemma_find_unescaped_bounds(b, 41, pos + 1);
        lemma_index_of_bounds(b, 41, pos + 1);
    }
    if code == 64 {
        lemma_find_at_end_bounds(b, pos + 1);
    }
    if spec_starts_word(b, pos) {
        lemma_find_word_end_bounds(b, pos + 1);
    }
    if code == 92 {
        lemma_backslash_run_pos(b, pos);
        lemma_escape_last_le(b, pos);
        lemma_next_boundary_le(b, spec_escape_last(b, pos) + 1);
    }
    if code == 47 && spec_at(b, pos + 1) == 42 {
        lemma_comment_end_bounds(b, pos + 2);
    }
}

proof fn lemma_find_at_end_bounds(b: Seq<u8>, from: int)
    ensures
        spec_find_at_end(b, from) matches Some(k) ==> from <= k < b.len() && spec_is_at_end(b[k]),
    decreases b.len() - from,
{
    if 0 <= from < b.len() && !spec_is_at_end(b[from]) {
        lemma_find_at_end_bounds(b, from + 1);
    }
}

proof fn lemma_find_word_end_bounds(b: Seq<u8>, from: int)
    ensures
        spec_find_word_end(b, from) matches Some(k) ==> from <= k < b.len() && spec_word_ends_at(b, k),
    decreases b.len() - from,
{
    if 0 <= from < b.len() && !spec_word_ends_at(b, from) {
        lemma_find_word_end_bounds(b, from + 1);
    }
}

proof fn lemma_comment_end_bounds(b: Seq<u8>, from: int)
    ensures
        spec_comment_end(b, from) matches Some(k) ==> from <= k && k + 1 < b.len() && b[k + 1] == 47,
    decreases b.len() - from,
{
    if 0 <= from && from + 1 < b.len() && !(b[from] == 42 && b[from + 1] == 47) {
        lemma_comment_end_bounds(b, from + 1);
    }
}

proof fn lemma_backslash_run_pos(b: Seq<u8>, pos: int)
    requires
        0 <= pos < b.len(),
        b[pos] == 92,
    ensures
        spec_backslash_run(b, pos) >= 1,
        spec_escape_last(b, pos) >= pos,
{
    lemma_hex_last_ge(b, pos + spec_backslash_run(b, pos));
}

proof fn lemma_hex_last_ge(b: Seq<u8>, i: int)
    ensures
        spec_hex_last(b, i) >= i,
    decreases b.len() - i,
{
    if 0 <= i && i + 1 < b.len() && spec_is_hex(b[i + 1]) {
        lemma_hex_last_ge(b, i + 1);
    }
}

/// The bytes the tokens of a run cover, in order.
pub open spec fn spec_lexed_text(b: Seq<u8>, toks: Seq<Lexed>) -> Seq<u8>
    decreases toks.len(),
{
    if toks.len() == 0 {
        Seq::empty()
    } else {
        b.subrange(toks[0].1, toks[0].2) + spec_lexed_text(b, toks.drop_first())
    }
}

/// A run that gets to the end reads every byte once: the tokens, one after
/// another, spell out the input from `pos` on.
pub proof fn lemma_lex_tiles(b: Seq<u8>, pos: int, buffer: Seq<bool>, bad_paren: int)
    requires
        0 <= pos <= b.len(),
        spec_lex(b, pos, buffer, bad_paren).1,
    ensures
        spec_lexed_text(b, spec_lex(b, pos, buffer, bad_paren).0) == b.subrange(pos, b.len() as int),
    decreases b.len() - pos,
{
    if pos < b.len() {
        let url = spec_buffer_url(buffer);
        lemma_step_advances(b, pos, url, bad_paren);
        lemma_step_tiles(b, pos, true, url, bad_paren);
        lemma_step_end(b, pos, url, bad_paren);
        match spec_step(b, pos, true, url, bad_paren) {
            Step::Token { kind, from, to, pos: p, bad_paren: bp, .. } => {
                let nb = spec_next_buffer(b, pos, buffer);
                let toks = spec_lex(b, pos, buffer, bad_paren).0;
                if p < b.len() {
                    lemma_lex_tiles(b, p, nb, bp);
                    assert(toks.drop_first() == spec_lex(b, p, nb, bp).0);
                    assert(b.subrange(pos, to) + b.subrange(to, b.len() as int) =~= b.subrange(pos, b.len() as int));
                } else {
                    assert(toks =~= seq![(kind, from, to)]);
                    assert(toks.drop_first() =~= Seq::<Lexed>::empty());
                    assert(spec_lexed_text(b, toks.drop_first()) =~= Seq::<u8>::empty());
                    assert(b.subrange(pos, to) + Seq::<u8>::empty() =~= b.subrange(pos, b.len() as int));
                }
            },
            Step::Unclosed { .. } => {},
        }
    } else {
        assert(b.subrange(pos, b.len() as int) =~= Seq::<u8>::empty());
    }
}

/// A run of spaces ends where it started, or just after a space.
proof fn lemma_skip_spaces_last(b: Seq<u8>, i: int)
    requires
        0 <= i <= b.len(),
    ensures
        spec_skip_spaces(b, i) == i || (i < spec_skip_spaces(b, i) && spec_is_space(b[spec_skip_spaces(b, i) - 1])),
    decreases b.len() - i,
{
    if 0 <= i < b.len() && spec_is_space(b[i]) {
        lemma_skip_spaces_last(b, i + 1);
    }
}

/// The next character start is one: the end, or a byte that does not
/// continue a character.
proof fn lemma_next_boundary_starts(b: Seq<u8>, j: int)
    requires
        0 <= j,
    ensures
        spec_next_boundary(b, j) >= b.len() || !spec_is_continuation(b[spec_next_boundary(b, j)]),
    decreases b.len() - j,
{
    if j < b.len() && j >= 0 && spec_is_continuation(b[j]) {
        lemma_next_boundary_starts(b, j + 1);
    }
}

/// Reading valid UTF-8 from the start of a character leaves the scan at the
/// start of a character, or at or past the end.
pub proof fn lemma_step_on_boundary(b: Seq<u8>, pos: int, ignore: bool, url: bool, bad_paren: int)
    requires
        vstd::utf8::valid_utf8(b),
        0 <= pos < b.len(),
        !spec_is_continuation(b[pos]),
    ensures
        spec_step(b, pos, ignore, url, bad_paren) matches Step::Token { pos: p, .. } ==> p >= b.len()
            || !spec_is_continuation(b[p]),
{
    let code = b[pos];
    let len = b.len() as int;
    match spec_step(b, pos, ignore, url, bad_paren) {
        Step::Token { pos: p, .. } => {
            if p < len {
                if spec_is_space(code) {
                    lemma_skip_spaces_bounds(b, pos + 1);
                    lemma_skip_spaces_last(b, pos + 1);
                    lemma_after_ascii(b, p);
                } else if spec_is_single(code) {
                    lemma_after_ascii(b, pos + 1);
                } else if code == 40 {
                    lemma_find_unescaped_bounds(b, 41, pos + 1);
                    lemma_index_of_bounds(b, 41, pos + 1);
                    lemma_after_ascii(b, p);
                } else if code == 39 || code == 34 {
                    lemma_find_unescaped_bounds(b, code, pos + 1);
                    lemma_next_boundary_starts(b, pos + 2);
                    if spec_find_unescaped(b, code, pos + 1) is Some {
                        lemma_after_ascii(b, p);
                    }
                } else if code == 64 {
                    lemma_find_at_end_bounds(b, pos + 1);
                } else if code == 92 {
                    lemma_backslash_run_pos(b, pos);
                    lemma_next_boundary_starts(b, spec_escape_last(b, pos) + 1);
                } else if code == 47 && spec_at(b, pos + 1) == 42 {
                    lemma_comment_end_bounds(b, pos + 2);
                    lemma_after_ascii(b, p);
                } else {
                    lemma_find_word_end_bounds(b, pos + 1);
                }
            }
        },
        Step::Unclosed { .. } => {},
    }
}

/// Valid UTF-8 read from the start of a character never leaves the scan
/// inside a character, tolerating unclosed constructs or not.
pub proof fn lemma_lex_stays_on_boundaries(b: Seq<u8>, pos: int, buffer: Seq<bool>, bad_paren: int)
    requires
        vstd::utf8::valid_utf8(b),
        0 <= pos,
        pos >= b.len() || !spec_is_continuation(b[pos]),
    ensures
        spec_lex(b, pos, buffer, bad_paren).1,
        spec_lex_strict(b, pos, buffer, bad_paren).1,
    decreases b.len() - pos,
{
    if pos < b.len() {
        let url = spec_buffer_url(buffer);
        lemma_step_advances(b, pos, url, bad_paren);
        lemma_strict_token(b, pos, url, bad_paren);
        lemma_step_on_boundary(b, pos, true, url, bad_paren);
        match spec_step(b, pos, true, url, bad_paren) {
            Step::Token { pos: p, bad_paren: bp, .. } => {
                if p < b.len() {
                    lemma_lex_stays_on_boundaries(b, p, spec_next_buffer(b, pos, buffer), bp);
                }
            },
            Step::Unclosed { .. } => {},
        }
    }
}

/// Any text, read from its start, keeps the scan on character starts, in
/// both the tolerant and the strict reading.
pub proof fn lemma_text_lexes(chars: Seq<char>)
    ensures
        spec_lex(vstd::utf8::encode_utf8(chars), 0, Seq::empty(), -1).1,
        spec_clean_from(vstd::utf8::encode_utf8(chars), 0, Seq::empty(), -1),
{
    let b = vstd::utf8::encode_utf8(chars);
    vstd::utf8::encode_utf8_valid_utf8(chars);
    if b.len() > 0 {
        vstd::utf8::is_char_boundary_start_end_of_seq(b);
        vstd::utf8::is_char_boundary_iff_not_is_continuation_byte(b, 0);
    }
    lemma_lex_stays_on_boundaries(b, 0, Seq::empty(), -1);
}

/// The bytes of tokens' contents, one after another.
pub open spec fn spec_contents<'a>(toks: Seq<Token<'a>>) -> Seq<u8>
    decreases toks.len(),
{
    if toks.len() == 0 {
        Seq::empty()
    } else {
        spec_contents(toks.drop_last()) + toks.last().content.spec_bytes()
    }
}

/// Where a scan offset stands in the input: the offset, or the end of the
/// input when the scan went past it.
pub open spec fn spec_stop(t: Tokenizer) -> int {
    if t.spec_pos() <= t.spec_bytes().len() {
        t.spec_pos()
    } else {
        t.spec_bytes().len() as int
    }
}

/// Successive reads tile the input: while no token is pushed back, the
/// tokens that successive calls of `next_token` hand out, their contents
/// put one after another, spell out the input from where the first call
/// started to where the last one stopped, no byte lost or repeated.
#[verifier::rlimit(50)]
#[verifier::spinoff_prover]
pub proof fn lemma_reads_tile<'a>(states: Seq<Tokenizer<'a>>, toks: Seq<Token<'a>>, flags: Seq<bool>)
    requires
        states.len() == toks.len() + 1,
        flags.len() == toks.len(),
        forall|i: int|
            0 <= i < toks.len() ==> #[trigger] Tokenizer::next_token_spec(
                states[i],
                states[i + 1],
                flags[i],
                Ok(Some(toks[i])),
            ),
        forall|i: int|
            0 <= i < states.len() ==> (#[trigger] states[i]).spec_returned().len() == 0 && states[i].inv(),
    ensures
        states.last().spec_bytes() == states[0].spec_bytes(),
        0 <= spec_stop(states[0]) <= spec_stop(states.last()),
        spec_contents(toks) == states[0].spec_bytes().subrange(spec_stop(states[0]), spec_stop(states.last())),
    decreases toks.len(),
{
    let s0 = states[0];
    let b = s0.spec_bytes();
    assert(s0.spec_returned().len() == 0 && s0.inv());
    s0.lemma_inv();
    if toks.len() == 0 {
        assert(spec_contents(toks) =~= Seq::<u8>::empty());
        assert(b.subrange(spec_stop(s0), spec_stop(s0)) =~= Seq::<u8>::empty());
    } else {
        let k = toks.len() - 1;
        let front = states.drop_last();
        assert forall|i: int| 0 <= i < toks.drop_last().len() implies #[trigger] Tokenizer::next_token_spec(
            front[i],
            front[i + 1],
            flags.drop_last()[i],
            Ok(Some(toks.drop_last()[i])),
        ) by {
            assert(Tokenizer::next_token_spec(states[i], states[i + 1], flags[i], Ok(Some(toks[i]))));
        }
        assert forall|i: int| 0 <= i < front.len() implies (#[trigger] front[i]).spec_returned().len() == 0
            && front[i].inv() by {
            assert(states[i].spec_returned().len() == 0 && states[i].inv());
        }
        lemma_reads_tile(front, toks.drop_last(), flags.drop_last());
        let sk = states[k];
        let sn = states[k + 1];
        assert(Tokenizer::next_token_spec(sk, sn, flags[k], Ok(Some(toks[k]))));
        assert(sk.spec_returned().len() == 0 && sk.inv());
        assert(sn.spec_returned().len() == 0 && sn.inv());
        sk.lemma_inv();
        sn.lemma_inv();
        let pos = sk.spec_pos();
        assert(front.last() == sk);
        assert(pos < b.len());
        let ig = sk.spec_ignore() || flags[k];
        let url = sk.spec_url();
        let bp = sk.spec_bad_paren();
        lemma_step_tiles(b, pos, ig, url, bp);
        lemma_step_bounds(b, pos, ig, url, bp);
        lemma_strict_token(b, pos, url, bp);
        lemma_step_end(b, pos, url, bp);
        lemma_step_advances(b, pos, url, bp);
        match spec_step(b, pos, ig, url, bp) {
            Step::Token { from, to, pos: p, .. } => {
                assert(toks[k].content.spec_bytes() == b.subrange(from, to));
                assert(from == pos);
                assert(to == spec_stop(sn));
                assert(spec_contents(toks) =~= spec_contents(toks.drop_last()) + b.subrange(pos, to));
                assert(b.subrange(spec_stop(s0), pos) + b.subrange(pos, to) =~= b.subrange(spec_stop(s0), to));
            },
            Step::Unclosed { .. } => {},
        }
    }
}

/// A token that leaves the scan past the end reaches the end itself.
proof fn lemma_step_end(b: Seq<u8>, pos: int, url: bool, bad_paren: int)
    requires
        0 <= pos < b.len(),
    ensures
        spec_step(b, pos, true, url, bad_paren) matches Step::Token { to, pos: p, .. } ==> (p > b.len() ==> to == b.len())
            && to <= b.len(),
{
    let code = b[pos];
    lemma_step_advances(b, pos, url, bad_paren);
    if spec_is_space(code) {
        lemma_skip_spaces_bounds(b, pos + 1);
    }
    if code == 39 || code == 34 {
        lemma_find_unescaped_bounds(b, code, pos + 1);
        lemma_next_boundary_le(b, pos + 2);
    }
    if code == 40 {
        lemma_find_unescaped_bounds(b, 41, pos + 1);
        lemma_index_of_bounds(b, 41, pos + 1);
    }
    if code == 64 {
        lemma_find_at_end_bounds(b, pos + 1);
        let next = match spec_find_at_end(b, pos + 1) {
            Some(k) => k - 1,
            None => b.len() - 1,
        };
        lemma_next_boundary_le(b, next + 1);
    }
    if spec_starts_word(b, pos) {
        lemma_find_word_end_bounds(b, pos + 1);
        let next = match spec_find_word_end(b, pos + 1) {
            Some(k) => k - 1,
            None => b.len() - 1,
        };
        lemma_next_boundary_le(b, next + 1);
    }
    if code == 92 {
        lemma_backslash_run_pos(b, pos);
        lemma_escape_last_le(b, pos);
        lemma_next_boundary_le(b, spec_escape_last(b, pos) + 1);
    }
    if code == 47 && spec_at(b, pos + 1) == 42 {
        lemma_comment_end_bounds(b, pos + 2);
    }
}

proof fn lemma_next_boundary_le(b: Seq<u8>, j: int)
    ensures
        spec_next_boundary(b, j) <= b.len(),
        j <= b.len() ==> j <= spec_next_boundary(b, j),
        j > b.len() ==> spec_next_boundary(b, j) == b.len(),
    decreases b.len() - j,
{
    if j < b.len() && j >= 0 && spec_is_continuation(b[j]) {
        lemma_next_boundary_le(b, j + 1);
    }
}

proof fn lemma_escape_last_le(b: Seq<u8>, pos: int)
    requires
        0 <= pos < b.len(),
        b[pos] == 92,
    ensures
        spec_escape_last(b, pos) <= b.len(),
{
    lemma_backslash_run_le(b, pos);
    let run = spec_backslash_run(b, pos);
    let next = pos + run - 1;
    lemma_hex_last_le(b, next + 1);
}

proof fn lemma_backslash_run_le(b: Seq<u8>, i: int)
    requires
        0 <= i <= b.len(),
    ensures
        i + spec_backslash_run(b, i) <= b.len(),
    decreases b.len() - i,
{
    if 0 <= i < b.len() && b[i] == 92 {
        lemma_backslash_run_le(b, i + 1);
    }
}

proof fn lemma_hex_last_le(b: Seq<u8>, i: int)
    requires
        i <= b.len(),
    ensures
        spec_hex_last(b, i) <= b.len(),
        spec_hex_last(b, i) + 1 < b.len() ==> true,
    decreases b.len() - i,
{
    if 0 <= i && i + 1 < b.len() && spec_is_hex(b[i + 1]) {
        lemma_hex_last_le(b, i + 1);
    }
}

/// The offsets a step reports stay inside the input, and its text is a
/// forward range of it.
pub proof fn lemma_step_bounds(b: Seq<u8>, pos: int, ignore: bool, url: bool, bad_paren: int)
    requires
        0 <= pos < b.len(),
    ensures
        spec_step(b, pos, ignore, url, bad_paren) matches Step::Token { from, to, start, end, .. } ==> {
            &&& 0 <= from <= to <= b.len()
            &&& (start matches Some(s) ==> 0 <= s <= b.len())
            &&& (end matches Some(e) ==> 0 <= e <= b.len())
        },
{
    let code = b[pos];
    lemma_step_end(b, pos, url, bad_paren);
    if spec_is_space(code) {
        lemma_skip_spaces_bounds(b, pos + 1);
    }
    if code == 39 || code == 34 {
        lemma_find_unescaped_bounds(b, code, pos + 1);
        lemma_next_boundary_le(b, pos + 2);
    }
    if code == 40 {
        lemma_find_unescaped_bounds(b, 41, pos + 1);
        lemma_index_of_bounds(b, 41, pos + 1);
    }
    if code == 64 {
        lemma_find_at_end_bounds(b, pos + 1);
        let next = match spec_find_at_end(b, pos + 1) {
            Some(k) => k - 1,
            None => b.len() - 1,
        };
        lemma_next_boundary_le(b, next + 1);
    }
    if spec_starts_word(b, pos) {
        lemma_find_word_end_bounds(b, pos + 1);
        let next = match spec_find_word_end(b, pos + 1) {
            Some(k) => k - 1,
            None => b.len() - 1,
        };
        lemma_next_boundary_le(b, next + 1);
    }
    if code == 92 {
        lemma_backslash_run_pos(b, pos);
        lemma_escape_last_le(b, pos);
        lemma_next_boundary_le(b, spec_escape_last(b, pos) + 1);
    }
    if code == 47 && spec_at(b, pos + 1) == 42 {
        lemma_comment_end_bounds(b, pos + 2);
    }
}

/// A token's offsets and text lie inside an input of `n` bytes.
pub open spec fn spec_token_in(t: Token, n: int) -> bool {
    &&& (t.start matches Some(s) ==> s <= n)
    &&& (t.end matches Some(e) ==> e <= n)
    &&& t.content.spec_bytes().len() <= n
}

/// What `next_token` hands out lies inside the input, given that what was
/// pushed back does.
pub proof fn lemma_next_token_in<'a>(
    old: Tokenizer<'a>,
    new: Tokenizer<'a>,
    ignore_unclosed: bool,
    r: Result<Option<Token<'a>>, CssSyntaxError>,
)
    requires
        old.inv(),
        Tokenizer::next_token_spec(old, new, ignore_unclosed, r),
        forall|i: int| 0 <= i < old.spec_returned().len() ==> spec_token_in(#[trigger] old.spec_returned()[i], old.spec_bytes().len() as int),
    ensures
        r matches Ok(Some(t)) ==> spec_token_in(t, old.spec_bytes().len() as int),
        forall|i: int| 0 <= i < new.spec_returned().len() ==> spec_token_in(#[trigger] new.spec_returned()[i], new.spec_bytes().len() as int),
{
    let b = old.spec_bytes();
    let pos = old.spec_pos();
    if old.spec_returned().len() > 0 {
        assert(old.spec_returned().last() == old.spec_returned()[old.spec_returned().len() - 1]);
        assert forall|i: int| 0 <= i < new.spec_returned().len() implies spec_token_in(#[trigger] new.spec_returned()[i], new.spec_bytes().len() as int) by {
            assert(new.spec_returned()[i] == old.spec_returned()[i]);
        }
    } else if pos < b.len() {
        lemma_step_bounds(b, pos as int, old.spec_ignore() || ignore_unclosed, old.spec_url(), old.spec_bad_paren());
    }
}

/// From here on, the scan never lands inside a character: reading goes on
/// to the end (or to an unclosed construct).
pub open spec fn spec_clean_from(b: Seq<u8>, pos: int, buffer: Seq<bool>, bad_paren: int) -> bool {
    pos >= b.len() || spec_lex_strict(b, pos, buffer, bad_paren).1
}

impl<'a> Tokenizer<'a> {
    /// The scan position is one a clean run reaches.
    pub open spec fn clean(&self) -> bool {
        spec_clean_from(self.spec_bytes(), self.spec_pos(), self.spec_buffer(), self.spec_bad_paren())
    }
}

/// A clean tokenizer can always read.
pub proof fn lemma_clean_ready(t: Tokenizer)
    requires
        t.inv(),
        t.clean(),
    ensures
        t.ready(),
{
    t.lemma_inv();
}

/// Reading from a clean position leaves a clean position.
pub proof fn lemma_clean_step<'a>(
    old: Tokenizer<'a>,
    new: Tokenizer<'a>,
    r: Result<Option<Token<'a>>, CssSyntaxError>,
)
    requires
        old.inv(),
        old.clean(),
        !old.spec_ignore(),
        Tokenizer::next_token_spec(old, new, false, r),
    ensures
        r is Ok ==> new.clean(),
{
    let b = old.spec_bytes();
    let pos = old.spec_pos();
    if old.spec_returned().len() == 0 && pos < b.len() {
        old.lemma_inv();
        assert(spec_buffer_url(old.spec_buffer()) == old.spec_url());
        lemma_step_advances(b, pos as int, old.spec_url(), old.spec_bad_paren());
        lemma_strict_token(b, pos as int, old.spec_url(), old.spec_bad_paren());
    }
}

impl<'a> Tokenizer<'a> {
    /// How many tokens are still to come: those pushed back, then those a
    /// clean run reads from the scan position.
    pub open spec fn remaining(&self) -> nat {
        self.spec_returned().len() + if self.spec_pos() < self.spec_bytes().len() {
            spec_lex_strict(self.spec_bytes(), self.spec_pos(), self.spec_buffer(), self.spec_bad_paren()).0.len()
        } else {
            0
        }
    }
}

/// Each token read from a clean position is one fewer to come; the end
/// comes when none are left.
pub proof fn lemma_remaining_step<'a>(
    old: Tokenizer<'a>,
    new: Tokenizer<'a>,
    r: Result<Option<Token<'a>>, CssSyntaxError>,
)
    requires
        old.inv(),
        old.clean(),
        !old.spec_ignore(),
        Tokenizer::next_token_spec(old, new, false, r),
    ensures
        r matches Ok(Some(_)) ==> new.remaining() + 1 == old.remaining(),
        r matches Ok(None) ==> old.remaining() == 0,
{
    let b = old.spec_bytes();
    let pos = old.spec_pos();
    if old.spec_returned().len() == 0 && pos < b.len() {
        old.lemma_inv();
        assert(spec_buffer_url(old.spec_buffer()) == old.spec_url());
        lemma_step_advances(b, pos as int, old.spec_url(), old.spec_bad_paren());
        lemma_strict_token(b, pos as int, old.spec_url(), old.spec_bad_paren());
        match spec_step(b, pos as int, false, old.spec_url(), old.spec_bad_paren()) {
            Step::Token { pos: p, bad_paren: bp, kind, from, to, .. } => {
                let nb = spec_next_buffer(b, pos as int, old.spec_buffer());
                if p < b.len() {
                    assert(spec_lex_strict(b, pos as int, old.spec_buffer(), old.spec_bad_paren()).0 == seq![(kind, from, to)]
                        + spec_lex_strict(b, p, nb, bp).0);
                } else {
                    assert(spec_lex_strict(b, pos as int, old.spec_buffer(), old.spec_bad_paren()).0 == seq![(kind, from, to)]);
                }
            },
            Step::Unclosed { .. } => {},
        }
    }
}


} // verus!
