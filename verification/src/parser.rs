//! The CSS parser.
//!
//! Every raw and every source offset is recorded, which is what lets an
//! unmodified tree print back to the exact input.

use vstd::prelude::*;
use vstd::string::StringSliceAdditionalSpecFns;

use crate::error::CssSyntaxError;
use crate::input::{Input, Loc};
use crate::node::{NewNode, NodeId, NodeKind, Position, RawValue, Source};
use crate::text::{chars_of, push_str, to_owned_string};
use crate::tokenize::{
    lemma_remaining_step, lemma_clean_ready, lemma_clean_step, lemma_next_token_in, spec_clean_from, spec_token_in, Token, TokenKind,
    Tokenizer, TokenizerOptions,
};
use crate::tree::{spec_links_ok, spec_same_links, lemma_links_frame, Tree};

verus! {

/// The text of a run of tokens, one after another.
pub open spec fn spec_text(ts: Seq<Token>) -> Seq<char>
    decreases ts.len(),
{
    if ts.len() == 0 {
        Seq::empty()
    } else {
        spec_text(ts.drop_last()) + ts.last().content@
    }
}

/// The text of two runs is the text of each, joined.
pub proof fn lemma_text_concat(a: Seq<Token>, b: Seq<Token>)
    ensures
        spec_text(a + b) == spec_text(a) + spec_text(b),
    decreases b.len(),
{
    if b.len() == 0 {
        assert(a + b =~= a);
        assert(spec_text(b) =~= Seq::<char>::empty());
        assert(spec_text(a) + spec_text(b) =~= spec_text(a));
    } else {
        lemma_text_concat(a, b.drop_last());
        assert((a + b).drop_last() =~= a + b.drop_last());
        assert((a + b).last() == b.last());
        assert(spec_text(a) + spec_text(b) =~= spec_text(a) + spec_text(b.drop_last()) + b.last().content@);
    }
}

/// The text of one token is its content.
pub proof fn lemma_text_one(t: Token)
    ensures
        spec_text(seq![t]) == t.content@,
{
    assert(seq![t].drop_last() =~= Seq::<Token>::empty());
    assert(spec_text(Seq::<Token>::empty()) =~= Seq::<char>::empty());
    assert(spec_text(seq![t]) =~= t.content@);
}

/// Spaces and comments carry no meaning between other tokens.
pub open spec fn spec_is_space_or_comment(t: Token) -> bool {
    t.kind == TokenKind::Space || t.kind == TokenKind::Comment
}

/// A comment neighbour that lets a comment be dropped from a cleaned value:
/// none at all, or a space.
pub open spec fn spec_safe_neighbor(kind: Option<TokenKind>) -> bool {
    match kind {
        None => true,
        Some(k) => k == TokenKind::Space,
    }
}

fn is_safe_comment_neighbor(kind: Option<TokenKind>) -> (r: bool)
    ensures
        r == spec_safe_neighbor(kind),
{
    match kind {
        None => true,
        Some(kind) => kind == TokenKind::Space,
    }
}

/// The position of the last token that has a non-zero position.
pub open spec fn spec_last_position(ts: Seq<Token>) -> Option<usize>
    decreases ts.len(),
{
    if ts.len() == 0 {
        None
    } else {
        match ts.last().end_or_start_spec() {
            Some(p) => if p != 0 {
                Some(p)
            } else {
                spec_last_position(ts.drop_last())
            },
            None => spec_last_position(ts.drop_last()),
        }
    }
}

fn find_last_with_position(tokens: &[Token]) -> (r: Option<usize>)
    ensures
        r == spec_last_position(tokens@),
{
    let mut i = tokens.len();
    proof {
        assert(tokens@.take(i as int) =~= tokens@);
    }
    while i > 0
        invariant
            i <= tokens@.len(),
            spec_last_position(tokens@) == spec_last_position(tokens@.take(i as int)),
        decreases i,
    {
        proof {
            assert(tokens@.take(i as int).drop_last() =~= tokens@.take(i - 1));
        }
        match tokens[i - 1].truthy_position() {
            Some(p) => {
                return Some(p);
            },
            None => {},
        }
        i = i - 1;
    }
    proof {
        assert(tokens@.take(0) =~= Seq::<Token>::empty());
    }
    None
}

/// The text of `tokens[from..to]`, `to` clamped to the length.
fn tokens_to_string(tokens: &[Token], from: usize, to: usize) -> (r: String)
    requires
        from <= to,
        from <= tokens@.len(),
    ensures
        r@ == spec_text(tokens@.subrange(from as int, if to < tokens@.len() { to as int } else { tokens@.len() as int })),
{
    let end = if to < tokens.len() {
        to
    } else {
        tokens.len()
    };
    let mut result = String::new();
    let mut i = from;
    proof {
        assert(tokens@.subrange(from as int, from as int) =~= Seq::<Token>::empty());
    }
    while i < end
        invariant
            from <= i,
            i <= end || i == from,
            end <= tokens@.len(),
            result@ == spec_text(tokens@.subrange(from as int, i as int)),
        decreases end - i,
    {
        push_str(&mut result, tokens[i].content);
        proof {
            assert(tokens@.subrange(from as int, i + 1).drop_last() =~= tokens@.subrange(from as int, i as int));
        }
        i = i + 1;
    }
    result
}

/// How many tokens at the end of `ts` are spaces or comments.
pub open spec fn spec_trailing_sc(ts: Seq<Token>) -> nat
    decreases ts.len(),
{
    if ts.len() > 0 && spec_is_space_or_comment(ts.last()) {
        1 + spec_trailing_sc(ts.drop_last())
    } else {
        0
    }
}

/// How many tokens at the end of `ts` are spaces.
pub open spec fn spec_trailing_spaces(ts: Seq<Token>) -> nat
    decreases ts.len(),
{
    if ts.len() > 0 && ts.last().kind == TokenKind::Space {
        1 + spec_trailing_spaces(ts.drop_last())
    } else {
        0
    }
}

/// How many tokens at the start of `ts` are spaces or comments.
pub open spec fn spec_leading_sc(ts: Seq<Token>) -> nat
    decreases ts.len(),
{
    if ts.len() > 0 && spec_is_space_or_comment(ts[0]) {
        1 + spec_leading_sc(ts.drop_first())
    } else {
        0
    }
}

proof fn lemma_trailing_sc_le(ts: Seq<Token>)
    ensures
        spec_trailing_sc(ts) <= ts.len(),
        spec_trailing_spaces(ts) <= ts.len(),
        spec_leading_sc(ts) <= ts.len(),
    decreases ts.len(),
{
    if ts.len() > 0 {
        lemma_trailing_sc_le(ts.drop_last());
        lemma_trailing_sc_le(ts.drop_first());
    }
}

/// Removes trailing spaces and comments, returning their text.
fn spaces_and_comments_from_end(tokens: &mut Vec<Token>) -> (r: String)
    ensures
        ({
            let k = spec_trailing_sc(old(tokens)@);
            &&& k <= old(tokens)@.len()
            &&& final(tokens)@ == old(tokens)@.take(old(tokens)@.len() - k)
            &&& r@ == spec_text(old(tokens)@.skip(old(tokens)@.len() - k))
        }),
{
    let ghost all = tokens@;
    proof {
        lemma_trailing_sc_le(all);
        assert(all.skip(all.len() as int) =~= Seq::<Token>::empty());
        assert(all.take(all.len() as int) =~= all);
    }
    let mut spaces = String::new();
    while tokens.len() > 0 && (tokens[tokens.len() - 1].kind == TokenKind::Space || tokens[tokens.len() - 1].kind
        == TokenKind::Comment)
        invariant
            tokens@.len() <= all.len(),
            tokens@ == all.take(tokens@.len() as int),
            spaces@ == spec_text(all.skip(tokens@.len() as int)),
            spec_trailing_sc(all) == spec_trailing_sc(tokens@) + (all.len() - tokens@.len()),
        decreases tokens@.len(),
    {
        let ghost before = tokens@;
        let token = tokens.pop().unwrap();
        let ghost n = tokens@.len();
        proof {
            assert(before.drop_last() =~= tokens@);
            assert(all.take(n as int) =~= before.take(n as int));
            assert(all.skip(n as int) =~= seq![token] + all.skip(n as int + 1));
            lemma_text_concat(seq![token], all.skip(n as int + 1));
            lemma_text_one(token);
        }
        let mut joined = String::new();
        push_str(&mut joined, token.content);
        push_str(&mut joined, spaces.as_str());
        spaces = joined;
    }
    spaces
}

/// Removes leading spaces and comments, returning their text.
fn spaces_and_comments_from_start(tokens: &mut Vec<Token>) -> (r: String)
    ensures
        ({
            let k = spec_leading_sc(old(tokens)@);
            &&& k <= old(tokens)@.len()
            &&& final(tokens)@ == old(tokens)@.skip(k as int)
            &&& r@ == spec_text(old(tokens)@.take(k as int))
        }),
{
    let ghost all = tokens@;
    proof {
        lemma_trailing_sc_le(all);
        assert(all.take(0) =~= Seq::<Token>::empty());
        assert(all.skip(0) =~= all);
    }
    let mut spaces = String::new();
    let mut count: usize = 0;
    let n = tokens.len();
    while count < n && (tokens[count].kind == TokenKind::Space || tokens[count].kind == TokenKind::Comment)
        invariant
            count <= n,
            n == all.len(),
            tokens@ == all,
            spaces@ == spec_text(all.take(count as int)),
            spec_leading_sc(all) == count + spec_leading_sc(all.skip(count as int)),
        decreases n - count,
    {
        push_str(&mut spaces, tokens[count].content);
        proof {
            assert(all.take(count + 1).drop_last() =~= all.take(count as int));
            assert(all.skip(count as int).drop_first() =~= all.skip(count + 1));
        }
        count = count + 1;
    }
    let mut rest: Vec<Token> = Vec::new();
    let mut i = count;
    while i < n
        invariant
            count <= i <= n,
            n == all.len(),
            tokens@ == all,
            rest@ == all.subrange(count as int, i as int),
        decreases n - i,
    {
        rest.push(tokens[i]);
        proof {
            assert(rest@ =~= all.subrange(count as int, i + 1));
        }
        i = i + 1;
    }
    proof {
        if count < n {
            assert(!spec_is_space_or_comment(all.skip(count as int)[0]));
        }
        assert(spec_leading_sc(all.skip(count as int)) == 0);
        assert(rest@ =~= all.skip(count as int));
    }
    *tokens = rest;
    spaces
}

/// Removes trailing spaces only, returning their text.
fn spaces_from_end(tokens: &mut Vec<Token>) -> (r: String)
    ensures
        ({
            let k = spec_trailing_spaces(old(tokens)@);
            &&& k <= old(tokens)@.len()
            &&& final(tokens)@ == old(tokens)@.take(old(tokens)@.len() - k)
            &&& r@ == spec_text(old(tokens)@.skip(old(tokens)@.len() - k))
        }),
{
    let ghost all = tokens@;
    proof {
        lemma_trailing_sc_le(all);
        assert(all.skip(all.len() as int) =~= Seq::<Token>::empty());
        assert(all.take(all.len() as int) =~= all);
    }
    let mut spaces = String::new();
    while tokens.len() > 0 && tokens[tokens.len() - 1].kind == TokenKind::Space
        invariant
            tokens@.len() <= all.len(),
            tokens@ == all.take(tokens@.len() as int),
            spaces@ == spec_text(all.skip(tokens@.len() as int)),
            spec_trailing_spaces(all) == spec_trailing_spaces(tokens@) + (all.len() - tokens@.len()),
        decreases tokens@.len(),
    {
        let ghost before = tokens@;
        let token = tokens.pop().unwrap();
        let ghost n = tokens@.len();
        proof {
            assert(before.drop_last() =~= tokens@);
            assert(all.take(n as int) =~= before.take(n as int));
            assert(all.skip(n as int) =~= seq![token] + all.skip(n as int + 1));
            lemma_text_concat(seq![token], all.skip(n as int + 1));
            lemma_text_one(token);
        }
        let mut joined = String::new();
        push_str(&mut joined, token.content);
        push_str(&mut joined, spaces.as_str());
        spaces = joined;
    }
    spaces
}

/// Removes `tokens[from..]`, returning their text.
fn string_from(tokens: &mut Vec<Token>, from: usize) -> (r: String)
    requires
        from <= old(tokens)@.len(),
    ensures
        final(tokens)@ == old(tokens)@.take(from as int),
        r@ == spec_text(old(tokens)@.skip(from as int)),
{
    let result = tokens_to_string(tokens.as_slice(), from, tokens.len());
    proof {
        assert(tokens@.subrange(from as int, tokens@.len() as int) =~= tokens@.skip(from as int));
    }
    tokens.truncate(from);
    result
}

/// `/\w/`: an ASCII letter or digit, or `_`.
pub open spec fn spec_is_word_char(c: char) -> bool {
    ('a' <= c <= 'z') || ('A' <= c <= 'Z') || ('0' <= c <= '9') || c == '_'
}

/// Whether any character of `s` is a word character.
fn has_word_char(s: &str) -> (r: bool)
    ensures
        r == exists|i: int| 0 <= i < s@.len() && spec_is_word_char(#[trigger] s@[i]),
{
    let c = chars_of(s);
    let mut i: usize = 0;
    while i < c.len()
        invariant
            i <= c@.len(),
            c@ == s@,
            forall|j: int| 0 <= j < i ==> !spec_is_word_char(#[trigger] c@[j]),
        decreases c.len() - i,
    {
        let ch = c[i];
        if ('a' <= ch && ch <= 'z') || ('A' <= ch && ch <= 'Z') || ('0' <= ch && ch <= '9') || ch == '_' {
            return true;
        }
        i = i + 1;
    }
    false
}

/// Every token of a run lies inside an input of `n` bytes.
pub open spec fn spec_tokens_in(ts: Seq<Token>, n: int) -> bool {
    forall|i: int| 0 <= i < ts.len() ==> spec_token_in(#[trigger] ts[i], n)
}

/// Every error position of the input can be reported.
pub open spec fn spec_all_followable(input: Input) -> bool {
    forall|s: Loc, e: Option<Loc>| #[trigger] input.error_followable(s, e)
}

/// The input can be parsed: errors anywhere in it can be reported.
pub open spec fn spec_parseable(input: Input) -> bool {
    &&& input.wf()
    &&& spec_all_followable(input)
}

/// `e` is an error the input reports, at some place, with some reason.
pub open spec fn spec_input_error(input: Input, e: CssSyntaxError) -> bool {
    exists|reason: Seq<char>, start: Loc, end: Option<Loc>| #[trigger] input.is_error(e, reason, start, end, None)
}

/// The cleaned value of a run of tokens and whether it equals the source
/// text, after the first `k` tokens: a trailing space (outside custom
/// properties) is dropped, and so is a comment with a space or the edge on
/// either side or following a comma.
pub open spec fn spec_raw_scan(ts: Seq<Token>, custom: bool, k: int) -> (Seq<char>, bool)
    decreases k,
{
    if k <= 0 {
        (Seq::empty(), true)
    } else {
        let (value, clean) = spec_raw_scan(ts, custom, k - 1);
        let i = k - 1;
        let t = ts[i];
        if t.kind == TokenKind::Space && i == ts.len() - 1 && !custom {
            (value, false)
        } else if t.kind == TokenKind::Comment {
            let prev = if i == 0 { None } else { Some(ts[i - 1].kind) };
            let next = if i + 1 < ts.len() { Some(ts[i + 1].kind) } else { None };
            if !spec_safe_neighbor(prev) && !spec_safe_neighbor(next) {
                if value.len() > 0 && value.last() == ',' {
                    (value, false)
                } else {
                    (value + t.content@, clean)
                }
            } else {
                (value, false)
            }
        } else {
            (value + t.content@, clean)
        }
    }
}

proof fn lemma_dropped_comment_run(ts: Seq<Token>, custom: bool, i: int, k: int)
    requires
        0 <= i < ts.len(),
        0 <= k <= ts.len(),
        ts[i].kind == TokenKind::Comment,
        i == 0 || ts[i - 1].kind == TokenKind::Space || i == ts.len() - 1 || ts[i + 1].kind == TokenKind::Space,
    ensures
        spec_raw_scan(ts, custom, k).0.len() + (if i < k { ts[i].content@.len() } else { 0 }) <= spec_text(
            ts.take(k),
        ).len(),
        i < k ==> !spec_raw_scan(ts, custom, k).1,
    decreases k,
{
    if k > 0 {
        lemma_dropped_comment_run(ts, custom, i, k - 1);
        assert(ts.take(k).drop_last() =~= ts.take(k - 1));
        assert(ts.take(k).last() == ts[k - 1]);
    }
}

/// A comment with a space or an edge of the run on either side never
/// reaches a cleaned value: the value leaves out at least that comment's
/// text, and the run is marked as not clean, so the raw text (with the
/// comment) is what gets kept beside it.
pub proof fn lemma_spaced_comment_dropped(ts: Seq<Token>, custom: bool, i: int)
    requires
        0 <= i < ts.len(),
        ts[i].kind == TokenKind::Comment,
        i == 0 || ts[i - 1].kind == TokenKind::Space || i == ts.len() - 1 || ts[i + 1].kind == TokenKind::Space,
    ensures
        spec_raw_scan(ts, custom, ts.len() as int).0.len() + ts[i].content@.len() <= spec_text(ts).len(),
        !spec_raw_scan(ts, custom, ts.len() as int).1,
{
    lemma_dropped_comment_run(ts, custom, i, ts.len() as int);
    assert(ts.take(ts.len() as int) =~= ts);
}

/// A run without comments keeps its text as its value, and is clean,
/// unless it ends in a space outside a custom property: that space alone
/// is dropped.
pub proof fn lemma_plain_run_value(ts: Seq<Token>, custom: bool, k: int)
    requires
        0 <= k <= ts.len(),
        forall|j: int| 0 <= j < ts.len() ==> (#[trigger] ts[j]).kind != TokenKind::Comment,
    ensures
        (k < ts.len() || custom || ts.len() == 0 || ts.last().kind != TokenKind::Space) ==> spec_raw_scan(ts, custom, k)
            == (spec_text(ts.take(k)), true),
        (k == ts.len() && !custom && ts.len() > 0 && ts.last().kind == TokenKind::Space) ==> spec_raw_scan(
            ts,
            custom,
            k,
        ) == (spec_text(ts.drop_last()), false),
    decreases k,
{
    if k > 0 {
        lemma_plain_run_value(ts, custom, k - 1);
        assert(ts.take(k).drop_last() =~= ts.take(k - 1));
        assert(ts.take(k).last() == ts[k - 1]);
        if k == ts.len() {
            assert(ts.take(k - 1) =~= ts.drop_last());
        }
    } else {
        assert(ts.take(0) =~= Seq::<Token>::empty());
    }
}

/// What scanning a declaration for its top-level `:` finds.
pub enum ColonScan {
    /// The colon at this index.
    Found(int),
    /// A colon with nothing before it, at this index.
    DoubleColon(int),
    /// No top-level colon.
    Missing,
}

/// Scans `ts` from index `i`, with `depth` open parentheses and `prev` the
/// last token kept: a top-level `:` after a token ends the scan, unless the
/// token is the word `progid` (an old IE value), which is passed over without
/// becoming the previous token.
pub open spec fn spec_colon_from(ts: Seq<Token>, i: int, depth: int, prev: Option<Token>) -> ColonScan
    decreases ts.len() - i,
{
    if i < 0 || i >= ts.len() {
        ColonScan::Missing
    } else {
        let t = ts[i];
        let d1 = if t.kind == TokenKind::OpenParen { depth + 1 } else { depth };
        let d2 = if t.kind == TokenKind::CloseParen { d1 - 1 } else { d1 };
        if d2 == 0 && t.kind == TokenKind::Colon {
            match prev {
                None => ColonScan::DoubleColon(i),
                Some(p) => if p.kind == TokenKind::Word && p.content@ == "progid"@ {
                    spec_colon_from(ts, i + 1, d2, prev)
                } else {
                    ColonScan::Found(i)
                },
            }
        } else {
            spec_colon_from(ts, i + 1, d2, Some(t))
        }
    }
}

/// The token a missing semicolon is reported at: scanning back from just
/// before the colon at `c`, the second token that is not a space, or the
/// first token when there are fewer.
pub open spec fn spec_missed_at(ts: Seq<Token>, j: int, found: int) -> Token
    decreases j,
{
    if j <= 0 {
        ts[0]
    } else {
        let t = ts[j];
        if t.kind != TokenKind::Space && found + 1 == 2 {
            t
        } else if t.kind != TokenKind::Space {
            spec_missed_at(ts, j - 1, found + 1)
        } else {
            spec_missed_at(ts, j - 1, found)
        }
    }
}

/// Turns tokens into a [`Tree`].
pub struct Parser<'a> {
    input: &'a Input,
    tree: Tree,
    root: NodeId,
    current: NodeId,
    spaces: String,
    semicolon: bool,
    tokenizer: Tokenizer<'a>,
}

impl<'a> Parser<'a> {
    /// The parser's state is consistent: the tokenizer reads this input from a
    /// clean position, every pushed-back token lies inside the input, and the
    /// node being filled is a container of a well-formed tree.
    pub closed spec fn inv(&self) -> bool {
        &&& spec_parseable(*self.input)
        &&& self.tokenizer.inv()
        &&& self.tokenizer.clean()
        &&& !self.tokenizer.spec_ignore()
        &&& self.tokenizer.spec_input() == *self.input
        &&& self.tokenizer.spec_bytes() == self.input.bytes()
        &&& spec_tokens_in(self.tokenizer.spec_returned(), self.input.bytes().len() as int)
        &&& self.tree.wf()
        &&& self.tree.spec_inputs().len() == 0
        &&& self.tree.spec_root() == self.root
        &&& self.tree.has(self.current)
        &&& self.tree@[self.current.0 as int].nodes is Some
        &&& spec_root_source(self.tree@[self.root.0 as int].source)
        &&& self.tree@[self.root.0 as int].parent is None
    }

    /// Only whitespace is left to read, into the root.
    pub closed spec fn spec_blank_ahead(&self) -> bool {
        &&& self.current == self.root
        &&& self.tokenizer.spec_returned().len() == 0
        &&& forall|j: int| self.tokenizer.spec_pos() <= j < self.tokenizer.spec_bytes().len()
            ==> crate::tokenize::spec_is_space(#[trigger] self.tokenizer.spec_bytes()[j])
    }

    /// The input being parsed.
    pub closed spec fn spec_input(&self) -> Input {
        *self.input
    }

    /// Creates a parser reading `input`.
    pub fn new(input: &'a Input) -> (p: Self)
        requires
            spec_parseable(*input),
        ensures
            p.inv(),
            p.spec_input() == *input,
            spec_blank(input.bytes()) ==> p.spec_blank_ahead(),
    {
        let mut tree = Tree::new();
        let root = tree.root();
        tree.set_source(root, Source { input: 0, start: Some(Position { line: 1, column: 1, offset: 0 }), end: None });
        let tokenizer = Tokenizer::new(input, TokenizerOptions { ignore_errors: false });
        let p = Parser { input, tree, root, current: root, spaces: String::new(), semicolon: false, tokenizer };
        proof {
            assert(p.tree@[root.0 as int].nodes is Some);
            assert(p.tokenizer.spec_buffer() =~= Seq::<bool>::empty());
            input.lemma_bytes();
            crate::tokenize::lemma_text_lexes(input.css_view());
        }
        p
    }

    /// Reads the next token.
    fn next(&mut self) -> (r: Result<Option<Token<'a>>, CssSyntaxError>)
        requires
            old(self).inv(),
        ensures
            r is Ok ==> final(self).inv(),
            final(self).spec_input() == old(self).spec_input(),
            final(self).tree == old(self).tree,
            final(self).root == old(self).root,
            final(self).current == old(self).current,
            final(self).root == old(self).root,
            final(self).spaces == old(self).spaces,
            final(self).semicolon == old(self).semicolon,
            r matches Ok(Some(t)) ==> spec_token_in(t, old(self).input.bytes().len() as int),
            r matches Ok(Some(_)) ==> final(self).tokenizer.remaining() + 1 == old(self).tokenizer.remaining(),
            r matches Ok(None) ==> old(self).tokenizer.remaining() == 0 && final(self).tokenizer.remaining() == 0,
            r matches Err(e) ==> spec_input_error(*old(self).input, e),
            r matches Err(e) ==> spec_unclosed_error(*old(self).input, e),
            old(self).spec_blank_ahead() && old(self).tokenizer.spec_pos() < old(self).tokenizer.spec_bytes().len() ==> (r matches Ok(
                Some(t),
            ) && t.kind == TokenKind::Space && final(self).spec_blank_ahead()),
            old(self).spec_blank_ahead() && old(self).tokenizer.spec_pos() >= old(self).tokenizer.spec_bytes().len() ==> r
                matches Ok(None),
    {
        proof {
            lemma_clean_ready(self.tokenizer);
            assert(self.input.error_followable(Loc::Offset(self.tokenizer.spec_pos() as usize), None));
        }
        let ghost before = self.tokenizer;
        let r = self.tokenizer.next_token(false);
        proof {
            if old(self).spec_blank_ahead() && old(self).tokenizer.spec_pos() < old(self).tokenizer.spec_bytes().len() {
                old(self).tokenizer.lemma_inv();
                let b = old(self).tokenizer.spec_bytes();
                let pos = old(self).tokenizer.spec_pos() as int;
                assert(crate::tokenize::spec_is_space(b[pos]));
                crate::tokenize::lemma_skip_spaces_bounds(b, pos + 1);
            }
        }
        proof {
            lemma_next_token_in(before, self.tokenizer, false, r);
            lemma_clean_step(before, self.tokenizer, r);
            lemma_remaining_step(before, self.tokenizer, r);
            if r is Err {
                let e = r->Err_0;
                let b = before.spec_bytes();
                let pos = before.spec_pos();
                if let crate::tokenize::Step::Unclosed { what, offset } = crate::tokenize::spec_step(b, pos as int, before.spec_ignore(), before.spec_url(), before.spec_bad_paren()) {
                    assert(self.input.is_error(e, "Unclosed "@ + what, Loc::Offset(offset as usize), None, None));
                    assert(spec_error_says(*self.input, e, "Unclosed "@ + what));
                }
            }
        }
        r
    }

    /// The line and column of a byte offset.
    fn get_position(&self, offset: usize) -> (p: Position)
        requires
            self.input.wf(),
        ensures
            p.offset == offset,
            (p.line as int, p.column as int) == crate::input::spec_line_col(self.input.bytes(), offset as int),
    {
        let (line, column) = self.input.from_offset(offset);
        Position { line, column, offset }
    }
}

impl<'a> Parser<'a> {
    // --- Errors ----------------------------------------------------------

    /// An error covering a token's text, from its start.
    fn token_error(&self, message: String, token: &Token<'a>) -> (e: CssSyntaxError)
        requires
            spec_parseable(*self.input),
            spec_token_in(*token, self.input.bytes().len() as int),
        ensures
            self.input.is_error(
                e,
                message@,
                Loc::Offset(token.start_or_zero_spec()),
                Some(Loc::Offset((token.start_or_zero_spec() + token.content.spec_bytes().len()) as usize)),
                None,
            ),
    {
        proof {
            self.input.lemma_wf_len();
        }
        let start = token.start_or_zero();
        let end = start + token.content.len();
        proof {
            assert(self.input.error_followable(Loc::Offset(start), Some(Loc::Offset(end))));
        }
        self.input.error_range(message, Loc::Offset(start), Loc::Offset(end), None)
    }

    /// An error at a one-character token.
    fn char_error(&self, message: String, token: &Token<'a>) -> (e: CssSyntaxError)
        requires
            spec_parseable(*self.input),
            spec_token_in(*token, self.input.bytes().len() as int),
        ensures
            self.input.is_error(
                e,
                message@,
                Loc::Offset(token.start_or_zero_spec()),
                Some(Loc::Offset((token.start_or_zero_spec() + 1) as usize)),
                None,
            ),
    {
        proof {
            self.input.lemma_wf_len();
        }
        let start = token.start_or_zero();
        let end = start + 1;
        proof {
            assert(self.input.error_followable(Loc::Offset(start), Some(Loc::Offset(end))));
        }
        self.input.error_range(message, Loc::Offset(start), Loc::Offset(end), None)
    }

    /// `Unknown word` at the first token of a run.
    fn unknown_word(&self, token: &Token<'a>) -> (e: CssSyntaxError)
        requires
            spec_parseable(*self.input),
            spec_token_in(*token, self.input.bytes().len() as int),
        ensures
            self.input.is_error(
                e,
                "Unknown word "@ + token.content@,
                Loc::Offset(token.start_or_zero_spec()),
                Some(Loc::Offset((token.start_or_zero_spec() + token.content.spec_bytes().len()) as usize)),
                None,
            ),
    {
        let mut message = to_owned_string("Unknown word ");
        push_str(&mut message, token.content);
        self.token_error(message, token)
    }
}

/// The value-like property a run of tokens fills.
pub enum RawProp {
    /// A declaration's value.
    Value,
    /// An at-rule's params.
    Params,
    /// A rule's selector.
    Selector,
}

/// The raw key of a value-like property.
pub open spec fn spec_raw_key(p: RawProp) -> Seq<char> {
    match p {
        RawProp::Value => "value"@,
        RawProp::Params => "params"@,
        RawProp::Selector => "selector"@,
    }
}

/// The value a node kind holds for a value-like property.
pub open spec fn spec_prop_value(k: NodeKind, p: RawProp) -> Option<Seq<char>> {
    match (k, p) {
        (NodeKind::Decl { value, .. }, RawProp::Value) => Some(value@),
        (NodeKind::AtRule { params, .. }, RawProp::Params) => Some(params@),
        (NodeKind::Rule { selector }, RawProp::Selector) => Some(selector@),
        _ => None,
    }
}

proof fn lemma_shape_wf(a: Tree, b: Tree)
    requires
        a.wf(),
        spec_same_links(a@, b@),
        b.spec_root() == a.spec_root(),
    ensures
        b.wf(),
{
    lemma_links_frame(a@, b@);
}

/// Tree `b` is `a` with one node added, as the last child of `parent`, and
/// nothing else of `a` changed but `parent`'s children and raws.
pub open spec fn spec_added_child(a: Tree, b: Tree, parent: NodeId, child: NodeId) -> bool {
    &&& child.0 == a@.len()
    &&& b@.len() > a@.len()
    &&& b.kids(parent) == a.kids(parent).push(child)
    &&& forall|x: int| 0 <= x < a@.len() && x != parent.0 ==> #[trigger] b@[x] == a@[x]
}

/// `e` is an error of `input` with reason `reason`, at some place.
pub open spec fn spec_error_says(input: Input, e: CssSyntaxError, reason: Seq<char>) -> bool {
    exists|start: Loc, end: Option<Loc>| #[trigger] input.is_error(e, reason, start, end, None)
}

/// Where the error for a block left open points: the block's first
/// character, or line 1, column 1 where the block has no recorded start.
pub open spec fn spec_block_start(source: Option<Source>) -> Loc {
    match source {
        Some(s) => match s.start {
            Some(p) => Loc::LineCol { line: p.line, column: p.column },
            None => Loc::LineCol { line: 1, column: 1 },
        },
        None => Loc::LineCol { line: 1, column: 1 },
    }
}

/// `e` reports an unclosed construct: a string, comment, bracket or the
/// like.
pub open spec fn spec_unclosed_error(input: Input, e: CssSyntaxError) -> bool {
    exists|what: Seq<char>| #[trigger] spec_error_says(input, e, "Unclosed "@ + what)
}

/// `e` reports an unknown word.
pub open spec fn spec_unknown_word_error(input: Input, e: CssSyntaxError) -> bool {
    exists|word: Seq<char>| #[trigger] spec_error_says(input, e, "Unknown word "@ + word)
}

/// The errors a declaration can raise: an unknown word, a double colon or
/// a missed semicolon.
pub open spec fn spec_decl_error(input: Input, e: CssSyntaxError) -> bool {
    ||| spec_unknown_word_error(input, e)
    ||| spec_error_says(input, e, "Double colon"@)
    ||| spec_error_says(input, e, "Missed semicolon"@)
}

/// The errors parsing can raise.
pub open spec fn spec_parse_error(input: Input, e: CssSyntaxError) -> bool {
    ||| spec_unclosed_error(input, e)
    ||| spec_decl_error(input, e)
    ||| spec_error_says(input, e, "Unexpected }"@)
    ||| spec_error_says(input, e, "At-rule without name"@)
}

/// Bytes that are all whitespace.
pub open spec fn spec_blank(b: Seq<u8>) -> bool {
    forall|j: int| 0 <= j < b.len() ==> crate::tokenize::spec_is_space(#[trigger] b[j])
}

/// The root's source: input 0, from its first character.
pub open spec fn spec_root_source(s: Option<Source>) -> bool {
    s matches Some(src) && src.input == 0 && src.start == Some(Position { line: 1, column: 1, offset: 0 })
}

/// A source that spans input 0 from its first character to a position
/// whose line and column match its offset in `bytes`.
pub open spec fn spec_whole_input(s: Option<Source>, bytes: Seq<u8>) -> bool {
    &&& spec_root_source(s)
    &&& s->0.end matches Some(p) && (p.line as int, p.column as int) == crate::input::spec_line_col(bytes, p.offset as int)
}

/// A free `;` in container `cur` goes to its last child: a rule that has
/// no semicolon of its own yet.
pub open spec fn spec_semicolon_to_rule(t: Tree, cur: NodeId) -> bool {
    let ks = t.kids(cur);
    &&& t@[cur.0 as int].nodes is Some
    &&& ks.len() > 0
    &&& t@[ks.last().0 as int].kind is Rule
    &&& !(t@[ks.last().0 as int].raws.own_semicolon matches Some(x) && x@.len() > 0)
}

/// The selector of a rule read from `tokens`, which end with its `{`:
/// the tokens before the trailing spaces and comments, cleaned.
pub open spec fn spec_rule_selector(tokens: Seq<Token>) -> Seq<char> {
    let body = tokens.drop_last();
    let kept = body.take(body.len() - spec_trailing_sc(body));
    spec_raw_scan(kept, false, kept.len() as int).0
}

/// A declaration added inside `parent`: the next node of the tree, as
/// `parent`'s new last child.
pub open spec fn spec_added_decl(a: Tree, b: Tree, parent: NodeId) -> bool {
    &&& spec_added_child(a, b, parent, NodeId(a@.len() as usize))
    &&& b@[a@.len() as int].kind is Decl
}

/// An at-rule added inside `parent`: the next node of the tree, as
/// `parent`'s new last child.
pub open spec fn spec_added_at_rule(a: Tree, b: Tree, parent: NodeId) -> bool {
    &&& spec_added_child(a, b, parent, NodeId(a@.len() as usize))
    &&& b@[a@.len() as int].kind is AtRule
}

/// Node kind `b` is `a` with at most its value-like property (a
/// declaration's value, an at-rule's params, a rule's selector) changed.
pub open spec fn spec_same_but_value(a: NodeKind, b: NodeKind) -> bool {
    match (a, b) {
        (NodeKind::Decl { prop: p1, important: i1, .. }, NodeKind::Decl { prop: p2, important: i2, .. }) => p1@ == p2@
            && i1 == i2,
        (NodeKind::AtRule { name: n1, .. }, NodeKind::AtRule { name: n2, .. }) => n1@ == n2@,
        (NodeKind::Rule { .. }, NodeKind::Rule { .. }) => true,
        _ => a == b,
    }
}

/// The tokens of a declaration without its closing `;`.
pub open spec fn spec_decl_body(tokens: Seq<Token>) -> Seq<Token> {
    if tokens.len() > 0 && tokens.last().kind == TokenKind::Semicolon {
        tokens.drop_last()
    } else {
        tokens
    }
}

/// The first token at or after `i` that is neither a space nor a comment,
/// or the length.
pub open spec fn spec_skip_blank_tokens(ts: Seq<Token>, i: int) -> int
    decreases ts.len() - i,
{
    if i < 0 || i >= ts.len() {
        ts.len() as int
    } else if ts[i].kind == TokenKind::Space || ts[i].kind == TokenKind::Comment {
        spec_skip_blank_tokens(ts, i + 1)
    } else {
        i
    }
}

/// Where a declaration's value starts in its body: just after the colon
/// that ends its property, or at the end when there is none.
pub open spec fn spec_value_from(body: Seq<Token>) -> int {
    let c = spec_first_colon(body, spec_prop_end(body, spec_first_word(body, 0)));
    if c < body.len() {
        c + 1
    } else {
        body.len() as int
    }
}

/// No token of a declaration's value reads `important` or `!important`, in
/// any case.
pub open spec fn spec_no_important(body: Seq<Token>) -> bool {
    forall|j: int|
        #![trigger body[j]]
        spec_value_from(body) <= j < body.len() ==> {
            &&& crate::previous_map::spec_lowercase(body[j].content@) != "!important"@
            &&& crate::previous_map::spec_lowercase(body[j].content@) != "important"@
        }
}

/// The tokens a declaration's value is read from: from its first token that
/// is not blank to the end, or, when all of it is blank, all of it.
pub open spec fn spec_value_tokens(body: Seq<Token>) -> Seq<Token> {
    let v = spec_value_from(body);
    let s = spec_skip_blank_tokens(body, v);
    if s < body.len() {
        body.subrange(s, body.len() as int)
    } else {
        body.subrange(v, body.len() as int)
    }
}

/// The declaration ends in `!important`: the token at `k` comes after the
/// colon that ends the property, is the last token that is neither a space
/// nor a comment, and reads `!important` in any case; no token after it reads
/// `important` or `!important`.
pub open spec fn spec_ends_important(body: Seq<Token>, k: int) -> bool {
    &&& spec_first_colon(body, spec_prop_end(body, spec_first_word(body, 0))) < k < body.len()
    &&& body[k].kind != TokenKind::Space
    &&& body[k].kind != TokenKind::Comment
    &&& crate::previous_map::spec_lowercase(body[k].content@) == "!important"@
    &&& forall|j: int| #![trigger body[j]] k < j < body.len() ==> {
        &&& (body[j].kind == TokenKind::Space || body[j].kind == TokenKind::Comment)
        &&& crate::previous_map::spec_lowercase(body[j].content@) != "!important"@
        &&& crate::previous_map::spec_lowercase(body[j].content@) != "important"@
    }
}

/// The index of the first word token at or after `i`, or the length.
pub open spec fn spec_first_word(ts: Seq<Token>, i: int) -> int
    decreases ts.len() - i,
{
    if i < 0 || i >= ts.len() {
        ts.len() as int
    } else if ts[i].kind == TokenKind::Word {
        i
    } else {
        spec_first_word(ts, i + 1)
    }
}

/// The index of the first colon, space or comment at or after `i`, or the
/// length: where a property name ends.
pub open spec fn spec_prop_end(ts: Seq<Token>, i: int) -> int
    decreases ts.len() - i,
{
    if i < 0 || i >= ts.len() {
        ts.len() as int
    } else if ts[i].kind == TokenKind::Colon || ts[i].kind == TokenKind::Space || ts[i].kind == TokenKind::Comment {
        i
    } else {
        spec_prop_end(ts, i + 1)
    }
}

/// The index of the first colon at or after `i`, or the length.
pub open spec fn spec_first_colon(ts: Seq<Token>, i: int) -> int
    decreases ts.len() - i,
{
    if i < 0 || i >= ts.len() {
        ts.len() as int
    } else if ts[i].kind == TokenKind::Colon {
        i
    } else {
        spec_first_colon(ts, i + 1)
    }
}

/// The first colon at or after `i` is not before `i`.
proof fn lemma_first_colon_ge(ts: Seq<Token>, i: int)
    requires
        0 <= i <= ts.len(),
    ensures
        i <= spec_first_colon(ts, i) <= ts.len(),
    decreases ts.len() - i,
{
    if i < ts.len() {
        lemma_first_colon_ge(ts, i + 1);
    }
}

/// Text holds a character of a word.
pub open spec fn spec_has_word_char(s: Seq<char>) -> bool {
    exists|i: int| 0 <= i < s.len() && spec_is_word_char(#[trigger] s[i])
}

/// A declaration that reads without an error: it has a word, no word of
/// letters or digits stands between the property and the colon, and no
/// second colon follows.
pub open spec fn spec_decl_parses(tokens: Seq<Token>) -> bool {
    let ts = spec_decl_body(tokens);
    let s = spec_first_word(ts, 0);
    let pe = spec_prop_end(ts, s);
    let c = spec_first_colon(ts, pe);
    &&& s < ts.len()
    &&& forall|j: int| pe <= j < c ==> !((#[trigger] ts[j]).kind == TokenKind::Word && spec_has_word_char(ts[j].content@))
    &&& forall|j: int| c < j < ts.len() ==> (#[trigger] ts[j]).kind != TokenKind::Colon
}

/// With no colon from `i` on, the scan for a missed semicolon finds none.
proof fn lemma_no_colon_missing(ts: Seq<Token>, i: int, depth: int, prev: Option<Token>)
    requires
        0 <= i,
        forall|j: int| i <= j < ts.len() ==> (#[trigger] ts[j]).kind != TokenKind::Colon,
    ensures
        spec_colon_from(ts, i, depth, prev) == ColonScan::Missing,
    decreases ts.len() - i,
{
    if i < ts.len() {
        let t = ts[i];
        let d1 = if t.kind == TokenKind::OpenParen { depth + 1 } else { depth };
        let d2 = if t.kind == TokenKind::CloseParen { d1 - 1 } else { d1 };
        lemma_no_colon_missing(ts, i + 1, d2, Some(t));
    }
}

/// The property of a declaration read from `tokens`: the text from its
/// first word to the first colon, space or comment, without the `_` or
/// `*` of an old IE hack.
pub open spec fn spec_decl_prop(tokens: Seq<Token>) -> Seq<char> {
    let ts = spec_decl_body(tokens);
    let s = spec_first_word(ts, 0);
    let p = spec_text(ts.subrange(s, spec_prop_end(ts, s)));
    if p.len() > 0 && (p[0] == '_' || p[0] == '*') {
        p.drop_first()
    } else {
        p
    }
}

/// A rule opened inside `parent`: it is a new last child of `parent`, and
/// the block being filled.
pub open spec fn spec_opened_rule(a: Tree, b: Tree, parent: NodeId, current: NodeId) -> bool {
    &&& spec_added_child(a, b, parent, current)
    &&& b@[current.0 as int].kind is Rule
}

impl<'a> Parser<'a> {
    /// Attaches a fresh node to the current container, at `offset`, giving it
    /// the whitespace read since the last node.
    fn init(&mut self, node: NodeId, offset: usize)
        requires
            old(self).inv(),
            old(self).tree.has(node),
            node != old(self).root,
            old(self).tree@[node.0 as int].parent is None,
            node != old(self).current,
        ensures
            final(self).inv(),
            final(self).spec_input() == old(self).spec_input(),
            final(self).tokenizer == old(self).tokenizer,
            final(self).current == old(self).current,
            final(self).root == old(self).root,
            final(self).tree@.len() == old(self).tree@.len(),
            final(self).tree@[node.0 as int].parent == Some(old(self).current),
            final(self).tree@[node.0 as int].kind == old(self).tree@[node.0 as int].kind,
            final(self).tree@[node.0 as int].nodes == old(self).tree@[node.0 as int].nodes,
            final(self).tree@[node.0 as int].raws.before matches Some(b) && b@ == old(self).spaces@,
            final(self).tree@[node.0 as int].source == Some(Source { input: 0, start: Some(Position { offset, ..final(self).tree@[node.0 as int].source->0.start->0 }), end: None }),
            final(self).spaces@.len() == 0,
            final(self).semicolon == if old(self).tree@[node.0 as int].kind is Comment { old(self).semicolon } else { false },
            final(self).tree.kids(old(self).current) == old(self).tree.kids(old(self).current).push(node),
            forall|x: int|
                0 <= x < old(self).tree@.len() && x != node.0 && x != old(self).current.0 ==> #[trigger] final(self).tree@[x]
                    == old(self).tree@[x],
    {
        let current = self.current;
        self.tree.push_child(current, node);
        proof {
            assert(self.tree@[current.0 as int].nodes is Some);
        }
        let start = self.get_position(offset);
        self.tree.set_source(node, Source { input: 0, start: Some(start), end: None });
        let mut spaces = String::new();
        std::mem::swap(&mut spaces, &mut self.spaces);
        let ghost t0 = self.tree;
        self.tree.raws_mut(node).before = Some(spaces);
        proof {
            lemma_shape_wf(t0, self.tree);
        }
        let is_comment = match self.tree.kind(node) {
            NodeKind::Comment { .. } => true,
            _ => false,
        };
        if !is_comment {
            self.semicolon = false;
        }
    }

    /// Sets the start of a node's source, when it has one.
    fn set_start(&mut self, node: NodeId, position: Position)
        requires
            old(self).inv(),
            old(self).tree.has(node),
            node != old(self).root,
        ensures
            final(self).inv(),
            final(self).spec_input() == old(self).spec_input(),
            final(self).tokenizer == old(self).tokenizer,
            final(self).current == old(self).current,
            final(self).root == old(self).root,
            final(self).spaces == old(self).spaces,
            final(self).semicolon == old(self).semicolon,
            final(self).tree@ == old(self).tree@.update(
                node.0 as int,
                crate::tree::NodeView {
                    source: match old(self).tree@[node.0 as int].source {
                        Some(src) => Some(Source { start: Some(position), ..src }),
                        None => None,
                    },
                    ..old(self).tree@[node.0 as int]
                },
            ),
    {
        let ghost t0 = self.tree;
        match self.tree.source_mut(node) {
            Some(source) => {
                source.start = Some(position);
            },
            None => {},
        }
        proof {
            assert(spec_same_links(t0@, self.tree@));
            lemma_shape_wf(t0, self.tree);
        }
    }

    /// Sets the end of a node's source, when it has one.
    fn set_end(&mut self, node: NodeId, position: Position)
        requires
            old(self).inv(),
            old(self).tree.has(node),
        ensures
            final(self).inv(),
            final(self).spec_input() == old(self).spec_input(),
            final(self).tokenizer == old(self).tokenizer,
            final(self).current == old(self).current,
            final(self).root == old(self).root,
            final(self).spaces == old(self).spaces,
            final(self).semicolon == old(self).semicolon,
            final(self).tree@ == old(self).tree@.update(
                node.0 as int,
                crate::tree::NodeView {
                    source: match old(self).tree@[node.0 as int].source {
                        Some(src) => Some(Source { end: Some(position), ..src }),
                        None => None,
                    },
                    ..old(self).tree@[node.0 as int]
                },
            ),
    {
        let ghost t0 = self.tree;
        match self.tree.source_mut(node) {
            Some(source) => {
                source.end = Some(position);
            },
            None => {},
        }
        proof {
            assert(spec_same_links(t0@, self.tree@));
            lemma_shape_wf(t0, self.tree);
        }
    }

    /// The end position one past the byte at `offset`.
    fn position_after(&self, offset: usize) -> (p: Position)
        requires
            spec_parseable(*self.input),
            offset <= self.input.bytes().len(),
        ensures
            p.offset == offset + 1,
    {
        proof {
            self.input.lemma_wf_len();
        }
        let mut end = self.get_position(offset);
        end.offset = end.offset + 1;
        end
    }

    /// Fills a value-like property from its tokens, keeping the source text
    /// when cleaning changed anything.
    fn raw(&mut self, node: NodeId, prop: RawProp, tokens: &[Token<'a>], custom: bool)
        requires
            old(self).inv(),
            old(self).tree.has(node),
        ensures
            final(self).inv(),
            final(self).spec_input() == old(self).spec_input(),
            final(self).tokenizer == old(self).tokenizer,
            final(self).current == old(self).current,
            final(self).root == old(self).root,
            final(self).spaces == old(self).spaces,
            final(self).semicolon == old(self).semicolon,
            final(self).tree@.len() == old(self).tree@.len(),
            spec_same_links(old(self).tree@, final(self).tree@),
            forall|i: int| 0 <= i < old(self).tree@.len() && i != node.0 ==> #[trigger] final(self).tree@[i] == old(self).tree@[i],
            ({
                let (value, clean) = spec_raw_scan(tokens@, custom, tokens@.len() as int);
                let key = spec_raw_key(prop);
                &&& (spec_prop_value(old(self).tree@[node.0 as int].kind, prop) is Some ==> spec_prop_value(
                    final(self).tree@[node.0 as int].kind,
                    prop,
                ) == Some(value))
                &&& (spec_prop_value(old(self).tree@[node.0 as int].kind, prop) is None ==> final(self).tree@[node.0 as int].kind == old(self).tree@[node.0 as int].kind)
                &&& (clean ==> crate::node::spec_raw_pair(final(self).tree@[node.0 as int].raws, key) == crate::node::spec_raw_pair(old(self).tree@[node.0 as int].raws, key))
                &&& (!clean ==> (crate::node::spec_raw_pair(final(self).tree@[node.0 as int].raws, key) matches Some(rv) && rv.raw@ == spec_text(tokens@) && rv.value@ == value))
            }),
            spec_same_but_value(old(self).tree@[node.0 as int].kind, final(self).tree@[node.0 as int].kind),
    {
        let length = tokens.len();
        let mut value = String::new();
        let mut clean = true;
        let mut i: usize = 0;
        proof {
            assert(tokens@.take(0) =~= Seq::<Token>::empty());
        }
        while i < length
            invariant
                i <= length,
                length == tokens@.len(),
                (value@, clean) == spec_raw_scan(tokens@, custom, i as int),
            decreases length - i,
        {
            let token = tokens[i];
            if token.kind == TokenKind::Space && i == length - 1 && !custom {
                clean = false;
            } else if token.kind == TokenKind::Comment {
                let prev = if i == 0 {
                    None
                } else {
                    Some(tokens[i - 1].kind)
                };
                let next = if i + 1 < length {
                    Some(tokens[i + 1].kind)
                } else {
                    None
                };
                if !is_safe_comment_neighbor(prev) && !is_safe_comment_neighbor(next) {
                    let vc = chars_of(value.as_str());
                    if vc.len() > 0 && vc[vc.len() - 1] == ',' {
                        clean = false;
                    } else {
                        push_str(&mut value, token.content);
                    }
                } else {
                    clean = false;
                }
            } else {
                push_str(&mut value, token.content);
            }
            i = i + 1;
        }
        if !clean {
            let raw = tokens_to_string(tokens, 0, length);
            proof {
                assert(tokens@.subrange(0, length as int) =~= tokens@);
            }
            let pair = RawValue { raw, value: value.clone() };
            let ghost t0 = self.tree;
            let key = match prop {
                RawProp::Value => "value",
                RawProp::Params => "params",
                RawProp::Selector => "selector",
            };
            self.tree.raws_mut(node).set_raw_value(key, pair);
            proof {
                lemma_shape_wf(t0, self.tree);
                crate::node::lemma_raw_keys_pub();
            }
        }
        let ghost t1 = self.tree;
        match prop {
            RawProp::Value => self.tree.set_value(node, value),
            RawProp::Params => self.tree.set_params(node, value),
            RawProp::Selector => self.tree.set_selector(node, value),
        }
        proof {
            crate::node::lemma_raw_keys_pub();
        }
    }
}

impl<'a> Parser<'a> {
    /// Index of the top-level `:` that separates a property from its value.
    fn colon(&self, tokens: &[Token<'a>]) -> (r: Result<Option<usize>, CssSyntaxError>)
        requires
            spec_parseable(*self.input),
            spec_tokens_in(tokens@, self.input.bytes().len() as int),
        ensures
            match spec_colon_from(tokens@, 0, 0, None) {
                ColonScan::Found(i) => r == Ok::<Option<usize>, CssSyntaxError>(Some(i as usize)),
                ColonScan::Missing => r == Ok::<Option<usize>, CssSyntaxError>(None),
                ColonScan::DoubleColon(i) => r matches Err(e) && self.input.is_error(
                    e,
                    "Double colon"@,
                    Loc::Offset(tokens@[i].start_or_zero_spec()),
                    Some(Loc::Offset((tokens@[i].start_or_zero_spec() + tokens@[i].content.spec_bytes().len()) as usize)),
                    None,
                ),
            },
    {
        let mut brackets: i128 = 0;
        let mut prev: Option<Token<'a>> = None;
        let n = tokens.len();
        let mut i: usize = 0;
        while i < n
            invariant
                i <= n,
                n == tokens@.len(),
                -(i as int) <= brackets <= i as int,
                spec_colon_from(tokens@, 0, 0, None) == spec_colon_from(tokens@, i as int, brackets as int, prev),
                spec_parseable(*self.input),
                spec_tokens_in(tokens@, self.input.bytes().len() as int),
            decreases n - i,
        {
            let token = tokens[i];
            let kind = token.kind;
            if kind == TokenKind::OpenParen {
                brackets = brackets + 1;
            }
            if kind == TokenKind::CloseParen {
                brackets = brackets - 1;
            }
            if brackets == 0 && kind == TokenKind::Colon {
                match prev {
                    None => {
                        let e = self.token_error(to_owned_string("Double colon"), &token);
                        return Err(e);
                    },
                    Some(prev_token) => {
                        let is_progid = prev_token.kind == TokenKind::Word && crate::node::str_eq(prev_token.content, "progid");
                        if !is_progid {
                            return Ok(Some(i));
                        }
                    },
                }
            } else {
                prev = Some(token);
            }
            i = i + 1;
        }
        Ok(None)
    }

    /// Fails with `Missed semicolon` when the value holds a top-level `:`,
    /// pointing after the word before it.
    fn check_missed_semicolon(&self, tokens: &[Token<'a>]) -> (r: Result<(), CssSyntaxError>)
        requires
            spec_parseable(*self.input),
            spec_tokens_in(tokens@, self.input.bytes().len() as int),
        ensures
            match spec_colon_from(tokens@, 0, 0, None) {
                ColonScan::Missing => r is Ok,
                ColonScan::DoubleColon(i) => r matches Err(e) && self.input.is_error(
                    e,
                    "Double colon"@,
                    Loc::Offset(tokens@[i].start_or_zero_spec()),
                    Some(Loc::Offset((tokens@[i].start_or_zero_spec() + tokens@[i].content.spec_bytes().len()) as usize)),
                    None,
                ),
                ColonScan::Found(c) => r matches Err(e) && {
                    let t = spec_missed_at(tokens@, c - 1, 0);
                    let offset = if t.kind == TokenKind::Word {
                        (match t.end { Some(x) => x as int, None => 0 }) + 1
                    } else {
                        t.start_or_zero_spec() as int
                    };
                    self.input.is_error(e, "Missed semicolon"@, Loc::Offset(offset as usize), None, None)
                },
            },
    {
        let count = tokens.len();
        let colon = match self.colon(tokens) {
            Err(e) => {
                return Err(e);
            },
            Ok(None) => {
                return Ok(());
            },
            Ok(Some(c)) => c,
        };
        proof {
            lemma_colon_found(tokens@, 0, 0, None);
            match spec_colon_from(tokens@, 0, 0, None) {
                ColonScan::Found(ci) => {
                    assert(ci == colon as int);
                },
                ColonScan::Missing => {
                    assert(false);
                },
                ColonScan::DoubleColon(_) => {
                    assert(false);
                },
            }
        }
        let mut found: usize = 0;
        let mut j: usize = colon - 1;
        let mut chosen: Option<Token<'a>> = None;
        while chosen.is_none()
            invariant
                j < tokens@.len(),
                found < 2,
                chosen is None ==> spec_missed_at(tokens@, colon - 1, 0) == spec_missed_at(tokens@, j as int, found as int),
                chosen matches Some(t) ==> t == spec_missed_at(tokens@, colon - 1, 0) && t == tokens@[j as int],
            decreases j + if chosen is None { 1int } else { 0int },
        {
            let t = tokens[j];
            if j == 0 {
                chosen = Some(t);
            } else if t.kind != TokenKind::Space && found + 1 == 2 {
                chosen = Some(t);
            } else {
                if t.kind != TokenKind::Space {
                    found = found + 1;
                }
                j = j - 1;
            }
        }
        let token = match chosen {
            Some(t) => t,
            None => tokens[0],
        };
        proof {
            self.input.lemma_wf_len();
            assert(spec_token_in(token, self.input.bytes().len() as int)) by {
                assert(token == tokens@[j as int]);
            }
        }
        let offset = if token.kind == TokenKind::Word {
            let end = match token.end {
                Some(e) => e,
                None => 0,
            };
            end + 1
        } else {
            token.start_or_zero()
        };
        proof {
            assert(self.input.error_followable(Loc::Offset(offset), None));
        }
        Err(self.input.error_at_offset(to_owned_string("Missed semicolon"), offset))
    }
}

proof fn lemma_colon_found(ts: Seq<Token>, i: int, depth: int, prev: Option<Token>)
    requires
        0 <= i,
        prev is Some ==> i > 0,
    ensures
        spec_colon_from(ts, i, depth, prev) matches ColonScan::Found(c) ==> (0 < c < ts.len()),
    decreases ts.len() - i,
{
    if i < ts.len() {
        let t = ts[i];
        let d1 = if t.kind == TokenKind::OpenParen { depth + 1 } else { depth };
        let d2 = if t.kind == TokenKind::CloseParen { d1 - 1 } else { d1 };
        if d2 == 0 && t.kind == TokenKind::Colon {
            if prev is Some {
                lemma_colon_found(ts, i + 1, d2, prev);
            }
        } else {
            lemma_colon_found(ts, i + 1, d2, Some(t));
        }
    }
}

/// The text between a comment's delimiters: all but the first two and last
/// two characters.
pub open spec fn spec_comment_body(c: Seq<char>) -> Seq<char> {
    if c.len() >= 4 {
        c.subrange(2, c.len() - 2)
    } else {
        Seq::empty()
    }
}

/// A comment's text and the whitespace on its left and right: blank text
/// goes wholly to the left.
pub open spec fn spec_comment_parts(body: Seq<char>) -> (Seq<char>, Seq<char>, Seq<char>) {
    let a = crate::text::spec_trim_start_len(body);
    if a == body.len() {
        (Seq::empty(), body, Seq::empty())
    } else {
        let b = body.len() - crate::text::spec_trim_end_len(body);
        (body.subrange(a as int, b), body.subrange(0, a as int), body.subrange(b, body.len() as int))
    }
}

/// Splits a comment token into its text and the whitespace around it.
fn comment_parts(content: &str) -> (r: (String, String, String))
    ensures
        (r.0@, r.1@, r.2@) == spec_comment_parts(spec_comment_body(content@)),
{
    let c = chars_of(content);
    let body: Vec<char> = if c.len() >= 4 {
        crate::text::slice_chars(&c, 2, c.len() - 2)
    } else {
        Vec::new()
    };
    proof {
        assert(body@ == spec_comment_body(content@));
    }
    let (start, end) = crate::text::trim_bounds(&body);
    let n = body.len();
    if start == n {
        let left = crate::text::string_from_chars(&body, 0, n);
        proof {
            assert(body@.subrange(0, n as int) =~= body@);
        }
        (String::new(), left, String::new())
    } else {
        let text = crate::text::string_from_chars(&body, start, end);
        let left = crate::text::string_from_chars(&body, 0, start);
        let right = crate::text::string_from_chars(&body, end, n);
        (text, left, right)
    }
}

impl<'a> Parser<'a> {
    fn comment(&mut self, token: &Token<'a>)
        requires
            old(self).inv(),
            spec_token_in(*token, old(self).input.bytes().len() as int),
        ensures
            final(self).inv(),
            final(self).spec_input() == old(self).spec_input(),
            final(self).tokenizer == old(self).tokenizer,
            final(self).current == old(self).current,
            final(self).root == old(self).root,
            final(self).semicolon == old(self).semicolon,
            final(self).spaces@.len() == 0,
            final(self).tree@.len() == old(self).tree@.len() + 1,
            ({
                let id = old(self).tree@.len() as int;
                let (text, left, right) = spec_comment_parts(spec_comment_body(token.content@));
                &&& final(self).tree@[id].kind matches NodeKind::Comment { text: t } && t@ == text
                &&& final(self).tree@[id].parent == Some(old(self).current)
                &&& final(self).tree@[id].raws.left matches Some(l) && l@ == left
                &&& final(self).tree@[id].raws.right matches Some(r) && r@ == right
                &&& final(self).tree@[id].raws.before matches Some(b) && b@ == old(self).spaces@
            }),
    {
        let node = self.tree.create(NewNode::comment(String::new()));
        self.init(node, token.start_or_zero());
        let end_at = match token.end_or_start() {
            Some(e) => e,
            None => 0,
        };
        let end = self.position_after(end_at);
        self.set_end(node, end);
        let (text, left, right) = comment_parts(token.content);
        self.tree.set_text(node, text);
        let ghost t0 = self.tree;
        self.tree.raws_mut(node).left = Some(left);
        proof {
            lemma_shape_wf(t0, self.tree);
        }
        let ghost t1 = self.tree;
        self.tree.raws_mut(node).right = Some(right);
        proof {
            lemma_shape_wf(t1, self.tree);
        }
    }
}

impl<'a> Parser<'a> {
    /// Pushes a token back onto the stream.
    fn back(&mut self, token: Token<'a>)
        requires
            old(self).inv(),
            spec_token_in(token, old(self).input.bytes().len() as int),
        ensures
            final(self).inv(),
            final(self).spec_input() == old(self).spec_input(),
            final(self).tokenizer.remaining() == old(self).tokenizer.remaining() + 1,
            final(self).tree == old(self).tree,
            final(self).current == old(self).current,
            final(self).root == old(self).root,
            final(self).spaces == old(self).spaces,
            final(self).semicolon == old(self).semicolon,
    {
        self.tokenizer.back(token);
        proof {
            assert forall|i: int| 0 <= i < self.tokenizer.spec_returned().len() implies spec_token_in(
                #[trigger] self.tokenizer.spec_returned()[i],
                self.input.bytes().len() as int,
            ) by {
                if i < old(self).tokenizer.spec_returned().len() {
                    assert(self.tokenizer.spec_returned()[i] == old(self).tokenizer.spec_returned()[i]);
                }
            }
        }
    }

    /// Appends text to a node's `before`, when it has one.
    fn append_before(&mut self, node: NodeId, extra: &str)
        requires
            old(self).inv(),
            old(self).tree.has(node),
        ensures
            final(self).inv(),
            final(self).spec_input() == old(self).spec_input(),
            final(self).tokenizer == old(self).tokenizer,
            final(self).current == old(self).current,
            final(self).root == old(self).root,
            final(self).spaces == old(self).spaces,
            final(self).semicolon == old(self).semicolon,
            final(self).tree@.len() == old(self).tree@.len(),
            forall|x: int| 0 <= x < old(self).tree@.len() && x != node.0 ==> #[trigger] final(self).tree@[x] == old(self).tree@[x],
            final(self).tree@[node.0 as int] == (crate::tree::NodeView {
                raws: crate::node::Raws { before: final(self).tree@[node.0 as int].raws.before, ..old(self).tree@[node.0 as int].raws },
                ..old(self).tree@[node.0 as int]
            }),
            match old(self).tree@[node.0 as int].raws.before {
                Some(b) => final(self).tree@[node.0 as int].raws.before matches Some(b2) && b2@ == b@ + extra@,
                None => final(self).tree@[node.0 as int].raws.before is None,
            },
    {
        let ghost t0 = self.tree;
        let current = match &self.tree.raws(node).before {
            Some(b) => {
                let mut joined = b.clone();
                push_str(&mut joined, extra);
                Some(joined)
            },
            None => None,
        };
        match current {
            Some(joined) => {
                self.tree.raws_mut(node).before = Some(joined);
            },
            None => {},
        }
        proof {
            lemma_shape_wf(t0, self.tree);
        }
    }

    /// A block that opens with no selector: `{ … }`.
    fn empty_rule(&mut self, token: &Token<'a>)
        requires
            old(self).inv(),
            spec_token_in(*token, old(self).input.bytes().len() as int),
        ensures
            final(self).inv(),
            final(self).spec_input() == old(self).spec_input(),
            final(self).tokenizer == old(self).tokenizer,
            spec_opened_rule(old(self).tree, final(self).tree, old(self).current, final(self).current),
            final(self).tree@[final(self).current.0 as int].kind matches NodeKind::Rule { selector } && selector@.len() == 0,
    {
        let empty = String::new();
        let ghost empty0 = empty;
        let node = self.tree.create(NewNode::rule(empty));
        let ghost t_new = self.tree;
        proof {
            assert(t_new@[node.0 as int].kind == (NodeKind::Rule { selector: empty0 }));
        }
        self.init(node, token.start_or_zero());
        let ghost t0 = self.tree;
        self.tree.raws_mut(node).between = Some(String::new());
        proof {
            lemma_shape_wf(t0, self.tree);
            assert(self.tree.kids(old(self).current) == t0.kids(old(self).current));
            assert forall|x: int| 0 <= x < old(self).tree@.len() && x != old(self).current.0 implies #[trigger] self.tree@[x]
                == old(self).tree@[x] by {
                assert(t_new@[x] == old(self).tree@[x]);
            }
        }
        self.current = node;
    }

    /// A rule whose selector is `tokens`, up to and including the `{`.
    fn rule(&mut self, tokens: Vec<Token<'a>>) -> (r: Result<(), CssSyntaxError>)
        requires
            old(self).inv(),
            tokens@.len() >= 2,
            spec_tokens_in(tokens@, old(self).input.bytes().len() as int),
        ensures
            r is Ok,
            final(self).inv(),
            final(self).spec_input() == old(self).spec_input(),
            final(self).tokenizer == old(self).tokenizer,
            spec_opened_rule(old(self).tree, final(self).tree, old(self).current, final(self).current),
            final(self).tree@[final(self).current.0 as int].kind matches NodeKind::Rule { selector } && selector@
                == spec_rule_selector(tokens@),
    {
        let mut tokens = tokens;
        tokens.pop();
        let empty = String::new();
        let node = self.tree.create(NewNode::rule(empty));
        let ghost t_new = self.tree;
        self.init(node, tokens[0].start_or_zero());
        let between = spaces_and_comments_from_end(&mut tokens);
        let ghost t0 = self.tree;
        self.tree.raws_mut(node).between = Some(between);
        proof {
            lemma_shape_wf(t0, self.tree);
            assert(self.tree@[node.0 as int].kind is Rule);
        }
        let ghost t1 = self.tree;
        self.raw(node, RawProp::Selector, tokens.as_slice(), false);
        proof {
            assert(self.tree@[node.0 as int].nodes is Some);
            assert(self.tree.kids(old(self).current) == t1.kids(old(self).current));
            assert(t1.kids(old(self).current) == t0.kids(old(self).current));
            assert forall|x: int| 0 <= x < old(self).tree@.len() && x != old(self).current.0 implies #[trigger] self.tree@[x]
                == old(self).tree@[x] by {
                assert(t_new@[x] == old(self).tree@[x]);
            }
        }
        self.current = node;
        Ok(())
    }

    /// The `}` closing the current block.
    fn end(&mut self, token: &Token<'a>) -> (r: Result<(), CssSyntaxError>)
        requires
            old(self).inv(),
            spec_token_in(*token, old(self).input.bytes().len() as int),
        ensures
            final(self).spec_input() == old(self).spec_input(),
            final(self).tokenizer == old(self).tokenizer,
            r is Ok ==> final(self).inv(),
            final(self).tree@.len() == old(self).tree@.len(),
            r matches Err(e) ==> spec_input_error(*old(self).input, e),
            r is Err <==> old(self).tree@[old(self).current.0 as int].parent is None,
            r matches Err(e) ==> spec_error_says(*old(self).input, e, "Unexpected }"@),
            final(self).root == old(self).root,
            final(self).tree.kids(old(self).current) == old(self).tree.kids(old(self).current),
            forall|x: int|
                0 <= x < old(self).tree@.len() && x != old(self).current.0 ==> #[trigger] final(self).tree@[x]
                    == old(self).tree@[x],
    {
        let current = self.current;
        if self.tree.children(current).len() > 0 {
            let ghost t0 = self.tree;
            let semicolon = self.semicolon;
            self.tree.raws_mut(current).semicolon = Some(semicolon);
            proof {
                lemma_shape_wf(t0, self.tree);
            }
        }
        self.semicolon = false;
        let mut spaces = String::new();
        std::mem::swap(&mut spaces, &mut self.spaces);
        let mut after = match &self.tree.raws(current).after {
            Some(a) => a.clone(),
            None => String::new(),
        };
        push_str(&mut after, spaces.as_str());
        let ghost t1 = self.tree;
        self.tree.raws_mut(current).after = Some(after);
        proof {
            lemma_shape_wf(t1, self.tree);
        }
        match self.tree.parent(current) {
            Some(parent) => {
                let end = self.position_after(token.start_or_zero());
                self.set_end(current, end);
                proof {
                    assert(crate::tree::node_links_ok(self.tree@, current.0 as int));
                }
                self.current = parent;
                Ok(())
            },
            None => {
                let e = self.char_error(to_owned_string("Unexpected }"), token);
                proof {
                    assert(spec_error_says(*self.input, e, "Unexpected }"@));
                }
                Err(e)
            },
        }
    }

    /// The end of the input: every block must be closed.
    fn end_file(&mut self) -> (r: Result<(), CssSyntaxError>)
        requires
            old(self).inv(),
        ensures
            final(self).spec_input() == old(self).spec_input(),
            r is Ok ==> final(self).inv(),
            r matches Err(e) ==> spec_input_error(*old(self).input, e),
            r is Err <==> old(self).tree@[old(self).current.0 as int].parent is Some,
            r matches Err(e) ==> spec_error_says(*old(self).input, e, "Unclosed block"@),
            r matches Err(e) ==> old(self).input.is_error(
                e,
                "Unclosed block"@,
                spec_block_start(old(self).tree@[old(self).current.0 as int].source),
                None,
                None,
            ),
            final(self).root == old(self).root,
            r is Ok ==> spec_whole_input(final(self).tree@[final(self).root.0 as int].source, old(self).input.bytes()),
    {
        let current = self.current;
        if self.tree.parent(current).is_some() {
            let position = match self.tree.source(current) {
                Some(source) => match source.start {
                    Some(p) => p,
                    None => Position { line: 1, column: 1, offset: 0 },
                },
                None => Position { line: 1, column: 1, offset: 0 },
            };
            proof {
                assert(self.input.error_followable(Loc::LineCol { line: position.line, column: position.column }, None));
            }
            let e = self.input.error_at_line_col(to_owned_string("Unclosed block"), position.line, position.column);
            proof {
                assert(spec_error_says(*self.input, e, "Unclosed block"@));
            }
            return Err(e);
        }
        if self.tree.children(current).len() > 0 {
            let ghost t0 = self.tree;
            let semicolon = self.semicolon;
            self.tree.raws_mut(current).semicolon = Some(semicolon);
            proof {
                lemma_shape_wf(t0, self.tree);
            }
        }
        let mut spaces = String::new();
        std::mem::swap(&mut spaces, &mut self.spaces);
        let mut after = match &self.tree.raws(current).after {
            Some(a) => a.clone(),
            None => String::new(),
        };
        push_str(&mut after, spaces.as_str());
        let ghost t1 = self.tree;
        self.tree.raws_mut(current).after = Some(after);
        proof {
            lemma_shape_wf(t1, self.tree);
        }
        let end = self.get_position(self.tokenizer.position());
        let root = self.root;
        self.set_end(root, end);
        Ok(())
    }

    /// A `;` with no declaration before it belongs to the preceding rule.
    fn free_semicolon(&mut self, token: &Token<'a>)
        requires
            old(self).inv(),
            spec_token_in(*token, old(self).input.bytes().len() as int),
        ensures
            final(self).inv(),
            final(self).spec_input() == old(self).spec_input(),
            final(self).tokenizer == old(self).tokenizer,
            final(self).current == old(self).current,
            final(self).root == old(self).root,
            final(self).tree@.len() == old(self).tree@.len(),
            if spec_semicolon_to_rule(old(self).tree, old(self).current) {
                let prev = old(self).tree.kids(old(self).current).last();
                &&& final(self).spaces@.len() == 0
                &&& final(self).tree@[prev.0 as int].raws.own_semicolon matches Some(x) && x@ == old(self).spaces@
                    + token.content@
                &&& forall|x: int| 0 <= x < old(self).tree@.len() && x != prev.0 ==> #[trigger] final(self).tree@[x]
                    == old(self).tree@[x]
            } else {
                &&& final(self).spaces@ == old(self).spaces@ + token.content@
                &&& final(self).tree@ == old(self).tree@
            },
    {
        push_str(&mut self.spaces, token.content);
        let current = self.current;
        if !self.tree.is_container(current) {
            return;
        }
        let prev = match self.tree.last(current) {
            Some(p) => p,
            None => {
                return;
            },
        };
        proof {
            assert(crate::tree::node_links_ok(self.tree@, current.0 as int));
            assert(self.tree.kids(current).contains(prev)) by {
                assert(self.tree.kids(current)[self.tree.kids(current).len() - 1] == prev);
            }
        }
        let has_own_semicolon = match &self.tree.raws(prev).own_semicolon {
            Some(semicolon) => !semicolon.as_str().is_empty(),
            None => false,
        };
        let is_rule = match self.tree.kind(prev) {
            NodeKind::Rule { .. } => true,
            _ => false,
        };
        if is_rule && !has_own_semicolon {
            let mut spaces = String::new();
            std::mem::swap(&mut spaces, &mut self.spaces);
            let length = spaces.as_str().len();
            let ghost t0 = self.tree;
            self.tree.raws_mut(prev).own_semicolon = Some(spaces);
            proof {
                lemma_shape_wf(t0, self.tree);
            }
            let mut end = self.get_position(token.start_or_zero());
            end.offset = end.offset.saturating_add(length);
            let ghost t1 = self.tree;
            self.set_end(prev, end);
            proof {
                assert(self.tree@[prev.0 as int].raws == t1@[prev.0 as int].raws);
            }
        }
    }
}

/// The tokens `ts[from..to]` as a new list.
fn copy_range<'a>(ts: &Vec<Token<'a>>, from: usize, to: usize) -> (r: Vec<Token<'a>>)
    requires
        from <= to <= ts@.len(),
    ensures
        r@ == ts@.subrange(from as int, to as int),
{
    let mut out: Vec<Token<'a>> = Vec::new();
    let mut i = from;
    while i < to
        invariant
            from <= i <= to,
            to <= ts@.len(),
            out@ == ts@.subrange(from as int, i as int),
        decreases to - i,
    {
        out.push(ts[i]);
        proof {
            assert(out@ =~= ts@.subrange(from as int, i + 1));
        }
        i = i + 1;
    }
    out
}

/// Whether the text, trimmed, starts with `!`.
fn trimmed_starts_with_bang(s: &str) -> (r: bool)
    ensures
        r == (crate::text::spec_trim(s@).len() > 0 && crate::text::spec_trim(s@)[0] == '!'),
{
    let c = chars_of(s);
    let t = crate::text::trim_to_string(&c);
    let tc = chars_of(t.as_str());
    tc.len() > 0 && tc[0] == '!'
}

/// A list of tokens lies inside the input after its end was cut.
proof fn lemma_tokens_in_sub(ts: Seq<Token>, a: int, b: int, n: int)
    requires
        spec_tokens_in(ts, n),
        0 <= a <= b <= ts.len(),
    ensures
        spec_tokens_in(ts.subrange(a, b), n),
{
    assert forall|i: int| 0 <= i < ts.subrange(a, b).len() implies spec_token_in(#[trigger] ts.subrange(a, b)[i], n) by {
        assert(ts.subrange(a, b)[i] == ts[a + i]);
    }
}

proof fn lemma_last_position_in(ts: Seq<Token>, n: int)
    requires
        spec_tokens_in(ts, n),
    ensures
        spec_last_position(ts) matches Some(p) ==> p <= n,
    decreases ts.len(),
{
    if ts.len() > 0 {
        assert(spec_token_in(ts.last(), n));
        assert(spec_tokens_in(ts.drop_last(), n)) by {
            assert forall|i: int| 0 <= i < ts.drop_last().len() implies spec_token_in(#[trigger] ts.drop_last()[i], n) by {
                assert(ts.drop_last()[i] == ts[i]);
            }
        }
        lemma_last_position_in(ts.drop_last(), n);
    }
}

impl<'a> Parser<'a> {
    /// A declaration: `tokens` runs from the property to the value, with a
    /// trailing `;` when there is one.
    #[verifier::rlimit(80)]
    #[verifier::spinoff_prover]
    fn decl(&mut self, given: Vec<Token<'a>>, custom_property: bool) -> (r: Result<(), CssSyntaxError>)
        requires
            old(self).inv(),
            given@.len() > 0,
            given@.last().kind == TokenKind::Semicolon ==> given@.len() > 1,
            spec_tokens_in(given@, old(self).input.bytes().len() as int),
        ensures
            final(self).spec_input() == old(self).spec_input(),
            final(self).tokenizer == old(self).tokenizer,
            r is Ok ==> final(self).inv(),
            r matches Err(e) ==> spec_input_error(*old(self).input, e),
            r is Ok ==> spec_added_decl(old(self).tree, final(self).tree, old(self).current)
                && final(self).current == old(self).current,
            r is Ok ==> (final(self).tree@[old(self).tree@.len() as int].kind matches NodeKind::Decl { prop, .. } && prop@
                == spec_decl_prop(given@)),
            spec_decl_parses(given@) ==> r is Ok,
            r matches Err(e) ==> spec_decl_error(*old(self).input, e),
            forall|k: int|
                #![trigger spec_ends_important(spec_decl_body(given@), k)]
                spec_ends_important(spec_decl_body(given@), k) && r is Ok ==> (final(self).tree@[old(
                    self,
                ).tree@.len() as int].kind matches NodeKind::Decl { important, .. } && important),
            r is Ok && spec_no_important(spec_decl_body(given@)) ==> (final(self).tree@[old(
                self,
            ).tree@.len() as int].kind matches NodeKind::Decl { value, important, .. } && !important && value@
                == spec_raw_scan(
                spec_value_tokens(spec_decl_body(given@)),
                custom_property,
                spec_value_tokens(spec_decl_body(given@)).len() as int,
            ).0),
    {
        let ghost n = self.input.bytes().len() as int;
        let ghost cur = self.current;
        let ghost t_in = given@;
        let mut tokens = given;
        let node = self.tree.create(NewNode::decl(String::new(), String::new()));
        let ghost t_new = self.tree;
        self.init(node, tokens[0].start_or_zero());
        proof {
            assert forall|x: int| 0 <= x < old(self).tree@.len() && x != cur.0 implies #[trigger] self.tree@[x]
                == old(self).tree@[x] by {
                assert(t_new@[x] == old(self).tree@[x]);
            }
            assert(spec_added_decl(old(self).tree, self.tree, cur));
        }
        let last = tokens[tokens.len() - 1];
        if last.kind == TokenKind::Semicolon {
            self.semicolon = true;
            tokens.pop();
            proof {
                lemma_tokens_in_sub(old(self).tokenizer.spec_returned(), 0, 0, n);
                assert(tokens@ =~= tokens@.subrange(0, tokens@.len() as int));
            }
        }
        proof {
            assert(spec_token_in(last, n));
        }
        assert(spec_tokens_in(tokens@, n)) by {
            assert forall|i: int| 0 <= i < tokens@.len() implies spec_token_in(#[trigger] tokens@[i], n) by {
            }
        }
        let end_offset = match last.truthy_position() {
            Some(p) => p,
            None => match find_last_with_position(tokens.as_slice()) {
                Some(p) => p,
                None => 0,
            },
        };
        proof {
            lemma_last_position_in(tokens@, n);
            self.input.lemma_wf_len();
        }
        let end = self.position_after(end_offset);
        self.set_end(node, end);
        let mut start: usize = 0;
        proof {
            assert(tokens@ == spec_decl_body(t_in));
        }
        while tokens[start].kind != TokenKind::Word
            invariant
                start < tokens@.len(),
                tokens@ == spec_decl_body(t_in),
                t_in == given@,
                spec_first_word(tokens@, 0) == spec_first_word(tokens@, start as int),
                self.tokenizer == old(self).tokenizer,
                self.inv(),
                spec_added_decl(old(self).tree, self.tree, cur),
                self.current == cur,
                node.0 == old(self).tree@.len(),
                spec_tokens_in(tokens@, n),
                n == self.input.bytes().len(),
                self.spec_input() == old(self).spec_input(),
            decreases tokens@.len() - start,
        {
            if start == tokens.len() - 1 {
                let e = self.unknown_word(&tokens[start]);
                proof {
                    assert(spec_input_error(*self.input, e));
                    assert(spec_error_says(*self.input, e, "Unknown word "@ + tokens@[start as int].content@));
                    assert(spec_first_word(tokens@, start + 1) == tokens@.len());
                    assert(spec_first_word(tokens@, start as int) == tokens@.len());
                }
                return Err(e);
            }
            start = start + 1;
        }
        let before_extra = tokens_to_string(tokens.as_slice(), 0, start);
        self.append_before(node, before_extra.as_str());
        let node_start = self.get_position(tokens[start].start_or_zero());
        self.set_start(node, node_start);
        let prop_start = start;
        proof {
            assert(spec_first_word(tokens@, start as int) == start);
        }
        while start < tokens.len()
            invariant
                prop_start <= start <= tokens@.len(),
                spec_prop_end(tokens@, prop_start as int) == spec_prop_end(tokens@, start as int),
            ensures
                prop_start <= start <= tokens@.len(),
                spec_prop_end(tokens@, prop_start as int) == start,
            decreases tokens@.len() - start,
        {
            let kind = tokens[start].kind;
            if kind == TokenKind::Colon || kind == TokenKind::Space || kind == TokenKind::Comment {
                break;
            }
            start = start + 1;
        }
        let prop = tokens_to_string(tokens.as_slice(), prop_start, start);
        proof {
            assert(prop@ == spec_text(tokens@.subrange(prop_start as int, start as int)));
        }
        self.tree.set_prop(node, prop.clone());
        let between_start = start;
        proof {
            assert(spec_prop_end(tokens@, spec_first_word(tokens@, 0)) == between_start);
        }
        while start < tokens.len()
            invariant_except_break
                spec_first_colon(tokens@, between_start as int) == spec_first_colon(tokens@, start as int),
            invariant
                between_start <= start <= tokens@.len(),
                tokens@ == spec_decl_body(t_in),
                t_in == given@,
                spec_prop_end(tokens@, spec_first_word(tokens@, 0)) == between_start,
                self.tree@[node.0 as int].kind matches NodeKind::Decl { prop: p, .. } && p@ == prop@,
                self.inv(),
                spec_added_decl(old(self).tree, self.tree, cur),
                self.current == cur,
                node.0 == old(self).tree@.len(),
                spec_tokens_in(tokens@, n),
                n == self.input.bytes().len(),
                self.spec_input() == old(self).spec_input(),
                self.tokenizer == old(self).tokenizer,
            ensures
                (start == tokens@.len() && spec_first_colon(tokens@, between_start as int) == start) || (1 <= start
                    && spec_first_colon(tokens@, between_start as int) == start - 1),
            decreases tokens@.len() - start,
        {
            let token = tokens[start];
            start = start + 1;
            if token.kind == TokenKind::Colon {
                proof {
                    assert(spec_first_colon(tokens@, (start - 1) as int) == start - 1);
                }
                break;
            }
            if token.kind == TokenKind::Word && has_word_char(token.content) {
                let e = self.unknown_word(&token);
                proof {
                    assert(spec_input_error(*self.input, e));
                    assert(spec_error_says(*self.input, e, "Unknown word "@ + token.content@));
                    assert(spec_first_colon(tokens@, (start - 1) as int) == spec_first_colon(tokens@, start as int));
                    lemma_first_colon_ge(tokens@, start as int);
                    if spec_decl_parses(t_in) {
                        let j = (start - 1) as int;
                        assert(between_start <= j < spec_first_colon(tokens@, between_start as int));
                        assert(!(tokens@[j].kind == TokenKind::Word && spec_has_word_char(tokens@[j].content@)));
                        assert(spec_is_word_char(token.content@[choose|i: int| 0 <= i < token.content@.len() && spec_is_word_char(token.content@[i])]));
                    }
                }
                return Err(e);
            }
        }
        proof {
            assert(start == tokens@.len() || spec_first_colon(tokens@, between_start as int) == start - 1);
        }
        let ghost past_colon = start;
        let ghost body = tokens@;
        let between = tokens_to_string(tokens.as_slice(), between_start, start);
        let ghost t0 = self.tree;
        self.tree.raws_mut(node).between = Some(between);
        proof {
            lemma_shape_wf(t0, self.tree);
        }
        // `_color` and `*color` are old IE hacks: the marker belongs to the
        // whitespace before the property, not to the property itself.
        let pc = chars_of(prop.as_str());
        if pc.len() > 0 && (pc[0] == '_' || pc[0] == '*') {
            let mut marker = String::new();
            crate::text::push_char(&mut marker, pc[0]);
            self.append_before(node, marker.as_str());
            let rest = crate::text::string_from_chars(&pc, 1, pc.len());
            self.tree.set_prop(node, rest);
        }
        proof {
            assert(self.tree@[node.0 as int].kind matches NodeKind::Decl { prop: p, .. } && p@ == spec_decl_prop(t_in));
        }
        let first_spaces_start = start;
        while start < tokens.len()
            invariant
                first_spaces_start <= start <= tokens@.len(),
                tokens@ == body,
                forall|j: int|
                    #![trigger body[j]]
                    first_spaces_start <= j < start ==> (body[j].kind == TokenKind::Space || body[j].kind
                        == TokenKind::Comment),
                spec_skip_blank_tokens(body, first_spaces_start as int) == spec_skip_blank_tokens(body, start as int),
            ensures
                start == tokens@.len() || (body[start as int].kind != TokenKind::Space && body[start as int].kind
                    != TokenKind::Comment),
            decreases tokens@.len() - start,
        {
            let kind = tokens[start].kind;
            if kind != TokenKind::Space && kind != TokenKind::Comment {
                break;
            }
            start = start + 1;
        }
        let mut first_spaces = copy_range(&tokens, first_spaces_start, start);
        let count = tokens.len();
        let ghost start0 = start as int;
        let ghost has_k = exists|k: int| #[trigger] spec_ends_important(body, k);
        let ghost kk = choose|k: int| #[trigger] spec_ends_important(body, k);
        let ghost no_imp = spec_no_important(body);
        proof {
            assert(body == spec_decl_body(t_in));
            assert(first_spaces_start == spec_value_from(body));
            assert(start0 == spec_skip_blank_tokens(body, start0));
            assert(start0 == spec_skip_blank_tokens(body, spec_value_from(body)));
            assert(self.tree@[node.0 as int].kind matches NodeKind::Decl { important, .. } && !important);
        }
        proof {
            if has_k {
                assert(spec_ends_important(body, kk));
                assert(body == spec_decl_body(t_in));
                if kk < start0 {
                    assert(first_spaces_start <= kk);
                    assert(body[kk].kind == TokenKind::Space || body[kk].kind == TokenKind::Comment);
                }
            }
        }
        let mut tokens = copy_range(&tokens, start, count);
        proof {
            lemma_tokens_in_sub(old(self).tokenizer.spec_returned(), 0, 0, n);
            if spec_decl_parses(t_in) {
                assert(body == spec_decl_body(t_in));
                assert forall|j: int| 0 <= j < tokens@.len() implies (#[trigger] tokens@[j]).kind != TokenKind::Colon by {
                    assert(tokens@[j] == body[start + j]);
                    assert(spec_first_colon(body, between_start as int) < start + j);
                }
            }
        }
        assert(spec_tokens_in(tokens@, n));
        assert(spec_tokens_in(first_spaces@, n));
        let mut i = tokens.len();
        while i > 0
            invariant_except_break
                i <= tokens@.len(),
                has_k ==> kk - start0 < i,
                has_k ==> tokens@ == body.subrange(start0, body.len() as int),
            invariant
                0 <= start0 <= body.len(),
                no_imp == spec_no_important(body),
                start0 >= spec_value_from(body),
                no_imp ==> tokens@ == body.subrange(start0, body.len() as int),
                no_imp ==> (self.tree@[node.0 as int].kind matches NodeKind::Decl { important, .. } && !important),
                has_k ==> spec_ends_important(body, kk) && start0 <= kk < body.len(),
                t_in == given@,
                spec_decl_parses(t_in) ==> forall|j: int| 0 <= j < tokens@.len() ==> (#[trigger] tokens@[j]).kind
                    != TokenKind::Colon,
                self.inv(),
                spec_added_decl(old(self).tree, self.tree, cur),
                self.current == cur,
                node.0 == old(self).tree@.len(),
                self.tree@[node.0 as int].kind matches NodeKind::Decl { prop: p, .. } && p@ == spec_decl_prop(t_in),
                self.tree.has(node),
                spec_tokens_in(tokens@, n),
                n == self.input.bytes().len(),
                self.spec_input() == old(self).spec_input(),
                self.tokenizer == old(self).tokenizer,
            ensures
                has_k ==> (self.tree@[node.0 as int].kind matches NodeKind::Decl { important, .. } && important),
            decreases i,
        {
            i = i - 1;
            let token = tokens[i];
            let lowered = crate::previous_map::lowercase(token.content);
            proof {
                if no_imp {
                    let q = start0 + i;
                    assert(tokens@[i as int] == body[q]);
                    assert(lowered@ != "!important"@);
                    assert(lowered@ != "important"@);
                }
                if has_k {
                    let q = start0 + i;
                    assert(tokens@[i as int] == body[q]);
                    if i > kk - start0 {
                        assert(kk < q < body.len());
                        assert(body[q].kind == TokenKind::Space || body[q].kind == TokenKind::Comment);
                        assert(lowered@ != "!important"@);
                        assert(lowered@ != "important"@);
                    } else {
                        assert(q == kk);
                        assert(lowered@ == "!important"@);
                    }
                }
            }
            if crate::node::str_eq(lowered.as_str(), "!important") {
                self.tree.set_important(node, true);
                let mut string = string_from(&mut tokens, i);
                let mut joined = spaces_from_end(&mut tokens);
                push_str(&mut joined, string.as_str());
                string = joined;
                if !crate::node::str_eq(string.as_str(), " !important") {
                    let ghost t1 = self.tree;
                    self.tree.raws_mut(node).important = Some(string);
                    proof {
                        lemma_shape_wf(t1, self.tree);
                    }
                }
                proof {
                    lemma_tokens_in_sub(old(self).tokenizer.spec_returned(), 0, 0, n);
                }
                assert(spec_tokens_in(tokens@, n));
                break;
            } else if crate::node::str_eq(lowered.as_str(), "important") {
                let mut cache = copy_range(&tokens, 0, tokens.len());
                let mut string = String::new();
                let mut j = i;
                while j > 0
                    invariant
                        j <= i,
                        i < tokens@.len(),
                        cache@.len() == tokens@.len() - (i - j),
                        cache@ == tokens@.take(cache@.len() as int),
                    decreases j,
                {
                    let kind = cache[j].kind;
                    if trimmed_starts_with_bang(string.as_str()) && kind != TokenKind::Space {
                        break;
                    }
                    let popped = cache.pop().unwrap();
                    let mut joined = String::new();
                    push_str(&mut joined, popped.content);
                    push_str(&mut joined, string.as_str());
                    string = joined;
                    proof {
                        assert(cache@ =~= tokens@.take(cache@.len() as int));
                    }
                    j = j - 1;
                }
                if trimmed_starts_with_bang(string.as_str()) {
                    self.tree.set_important(node, true);
                    let ghost t2 = self.tree;
                    self.tree.raws_mut(node).important = Some(string);
                    proof {
                        lemma_shape_wf(t2, self.tree);
                        lemma_tokens_in_sub(tokens@, 0, cache@.len() as int, n);
                        assert(cache@ =~= tokens@.subrange(0, cache@.len() as int));
                    }
                    tokens = cache;
                    if i > tokens.len() {
                        break;
                    }
                }
            }
            if token.kind != TokenKind::Space && token.kind != TokenKind::Comment {
                break;
            }
            if i > tokens.len() {
                break;
            }
        }
        let mut has_word = false;
        let mut k: usize = 0;
        while k < tokens.len()
            invariant
                k <= tokens@.len(),
                k > 0 && tokens@[0].kind != TokenKind::Space && tokens@[0].kind != TokenKind::Comment ==> has_word,
                has_word ==> k > 0,
            decreases tokens@.len() - k,
        {
            if tokens[k].kind != TokenKind::Space && tokens[k].kind != TokenKind::Comment {
                has_word = true;
            }
            k = k + 1;
        }
        if has_word {
            let extra = tokens_to_string(first_spaces.as_slice(), 0, first_spaces.len());
            let ghost t3 = self.tree;
            let joined = match &self.tree.raws(node).between {
                Some(b) => {
                    let mut j2 = b.clone();
                    push_str(&mut j2, extra.as_str());
                    Some(j2)
                },
                None => None,
            };
            match joined {
                Some(j2) => {
                    self.tree.raws_mut(node).between = Some(j2);
                },
                None => {},
            }
            proof {
                lemma_shape_wf(t3, self.tree);
            }
            first_spaces = Vec::new();
        }
        let mut value_tokens = first_spaces;
        let ghost base = value_tokens@;
        let mut m: usize = 0;
        proof {
            assert(base + tokens@.take(0) =~= base);
        }
        while m < tokens.len()
            invariant
                m <= tokens@.len(),
                value_tokens@ == base + tokens@.take(m as int),
            decreases tokens@.len() - m,
        {
            proof {
                assert(tokens@.take(m + 1) =~= tokens@.take(m as int).push(tokens@[m as int]));
            }
            value_tokens.push(tokens[m]);
            m = m + 1;
        }
        proof {
            assert(tokens@.take(tokens@.len() as int) =~= tokens@);
            if no_imp {
                if start0 < body.len() {
                    assert(tokens@[0] == body[start0]);
                    assert(has_word);
                    assert(value_tokens@ =~= body.subrange(start0, body.len() as int));
                } else {
                    assert(tokens@.len() == 0);
                    assert(value_tokens@ =~= body.subrange(first_spaces_start as int, body.len() as int));
                }
                assert(value_tokens@ == spec_value_tokens(spec_decl_body(t_in)));
            }
        }
        self.raw(node, RawProp::Value, value_tokens.as_slice(), custom_property);
        let has_colon = match self.tree.value(node) {
            Some(v) => {
                let vc = chars_of(v);
                let mut found = false;
                let mut q: usize = 0;
                while q < vc.len()
                    invariant
                        q <= vc@.len(),
                    decreases vc@.len() - q,
                {
                    if vc[q] == ':' {
                        found = true;
                    }
                    q = q + 1;
                }
                found
            },
            None => false,
        };
        if has_colon && !custom_property {
            proof {
                if spec_decl_parses(t_in) {
                    lemma_no_colon_missing(tokens@, 0, 0, None);
                }
            }
            match self.check_missed_semicolon(tokens.as_slice()) {
                Ok(()) => {},
                Err(e) => {
                    proof {
                        assert(spec_input_error(*self.input, e));
                        match spec_colon_from(tokens@, 0, 0, None) {
                            ColonScan::DoubleColon(k) => {
                                assert(spec_error_says(*self.input, e, "Double colon"@));
                            },
                            ColonScan::Found(c) => {
                                assert(spec_error_says(*self.input, e, "Missed semicolon"@));
                            },
                            ColonScan::Missing => {},
                        }
                    }
                    return Err(e);
                },
            }
        }
        Ok(())
    }
}

impl<'a> Parser<'a> {
    /// An at-rule, from its `@name` token to the `;`, `{` or end of input.
    fn atrule(&mut self, token: &Token<'a>) -> (r: Result<(), CssSyntaxError>)
        requires
            old(self).inv(),
            spec_token_in(*token, old(self).input.bytes().len() as int),
        ensures
            final(self).spec_input() == old(self).spec_input(),
            r is Ok ==> final(self).inv() && final(self).tokenizer.remaining() <= old(self).tokenizer.remaining(),
            r matches Err(e) ==> spec_input_error(*old(self).input, e),
            r is Ok ==> spec_added_at_rule(old(self).tree, final(self).tree, old(self).current),
            r matches Err(e) ==> if token.content@.len() <= 1 {
                spec_error_says(*old(self).input, e, "At-rule without name"@)
            } else {
                spec_unclosed_error(*old(self).input, e) || spec_error_says(*old(self).input, e, "Unexpected }"@)
            },
            r is Ok ==> (final(self).tree@[old(self).tree@.len() as int].kind matches NodeKind::AtRule { name, .. }
                && name@ == token.content@.drop_first()),
    {
        let ghost n = self.input.bytes().len() as int;
        let ghost cur = self.current;
        let tc = chars_of(token.content);
        if tc.len() <= 1 {
            let e = self.token_error(to_owned_string("At-rule without name"), token);
            proof {
                assert(spec_input_error(*self.input, e));
                assert(spec_error_says(*self.input, e, "At-rule without name"@));
            }
            return Err(e);
        }
        let name = crate::text::string_from_chars(&tc, 1, tc.len());
        let node = self.tree.create(NewNode::at_rule(name, String::new()));
        let ghost t_new = self.tree;
        self.init(node, token.start_or_zero());
        proof {
            assert forall|x: int| 0 <= x < old(self).tree@.len() && x != cur.0 implies #[trigger] self.tree@[x]
                == old(self).tree@[x] by {
                assert(t_new@[x] == old(self).tree@[x]);
            }
            assert(spec_added_at_rule(old(self).tree, self.tree, cur));
        }
        let mut last = false;
        let mut open = false;
        let mut params: Vec<Token<'a>> = Vec::new();
        let mut brackets: Vec<TokenKind> = Vec::new();
        while !self.tokenizer.end_of_file()
            invariant_except_break
                self.inv(),
                self.current == cur,
            invariant
                self.spec_input() == old(self).spec_input(),
                self.tree.has(node),
                spec_added_at_rule(old(self).tree, self.tree, cur),
                self.tree@[node.0 as int].kind matches NodeKind::AtRule { name: nm, .. } && nm@ == token.content@.drop_first(),
                node.0 == old(self).tree@.len(),
                cur.0 < old(self).tree@.len(),
                token.content@.len() > 1,
                self.root == old(self).root,
                n == self.input.bytes().len(),
                spec_tokens_in(params@, n),
                self.tokenizer.remaining() <= old(self).tokenizer.remaining(),
            ensures
                self.inv(),
            decreases self.tokenizer.remaining(),
        {
            let token = match self.next() {
                Ok(Some(t)) => t,
                Ok(None) => {
                    break;
                },
                Err(e) => {
                    return Err(e);
                },
            };
            let kind = token.kind;
            if kind == TokenKind::OpenParen || kind == TokenKind::OpenSquare {
                brackets.push(if kind == TokenKind::OpenParen {
                    TokenKind::CloseParen
                } else {
                    TokenKind::CloseSquare
                });
            } else if kind == TokenKind::OpenCurly && brackets.len() > 0 {
                brackets.push(TokenKind::CloseCurly);
            } else if brackets.len() > 0 && brackets[brackets.len() - 1] == kind {
                brackets.pop();
            }
            if brackets.len() == 0 {
                if kind == TokenKind::Semicolon {
                    let end = self.position_after(token.start_or_zero());
                    self.set_end(node, end);
                    self.semicolon = true;
                    break;
                } else if kind == TokenKind::OpenCurly {
                    open = true;
                    break;
                } else if kind == TokenKind::CloseCurly {
                    if params.len() > 0 {
                        let mut shift = params.len() - 1;
                        let mut prev = Some(params[shift]);
                        let mut scanning = params[shift].kind == TokenKind::Space;
                        while scanning
                            invariant
                                shift < params@.len(),
                                prev matches Some(t) ==> t == params@[shift as int],
                            decreases shift + if scanning { 1int } else { 0int },
                        {
                            if shift == 0 {
                                prev = None;
                                scanning = false;
                            } else {
                                shift = shift - 1;
                                prev = Some(params[shift]);
                                scanning = params[shift].kind == TokenKind::Space;
                            }
                        }
                        match prev {
                            Some(p) => {
                                proof {
                                    assert(spec_token_in(p, n));
                                }
                                let at = match p.end_or_start() {
                                    Some(x) => x,
                                    None => 0,
                                };
                                let end = self.position_after(at);
                                self.set_end(node, end);
                            },
                            None => {},
                        }
                    }
                    match self.end(&token) {
                        Ok(()) => {},
                        Err(e) => {
                            return Err(e);
                        },
                    }
                    break;
                } else {
                    params.push(token);
                }
            } else {
                params.push(token);
            }
            proof {
                assert(spec_tokens_in(params@, n)) by {
                    assert forall|i: int| 0 <= i < params@.len() implies spec_token_in(#[trigger] params@[i], n) by {
                    }
                }
            }
            if self.tokenizer.end_of_file() {
                last = true;
                break;
            }
        }
        let between = spaces_and_comments_from_end(&mut params);
        proof {
            lemma_tokens_in_sub(old(self).tokenizer.spec_returned(), 0, 0, n);
        }
        assert(spec_tokens_in(params@, n));
        let ghost t0 = self.tree;
        self.tree.raws_mut(node).between = Some(between.clone());
        proof {
            lemma_shape_wf(t0, self.tree);
        }
        if params.len() > 0 {
            let after_name = spaces_and_comments_from_start(&mut params);
            assert(spec_tokens_in(params@, n));
            let ghost t1 = self.tree;
            self.tree.raws_mut(node).after_name = Some(after_name);
            proof {
                lemma_shape_wf(t1, self.tree);
            }
            self.raw(node, RawProp::Params, params.as_slice(), false);
            if last && params.len() > 0 {
                let token = params[params.len() - 1];
                proof {
                    assert(spec_token_in(token, n));
                }
                let at = match token.end_or_start() {
                    Some(x) => x,
                    None => 0,
                };
                let end = self.position_after(at);
                self.set_end(node, end);
                self.spaces = between;
                let ghost t2 = self.tree;
                self.tree.raws_mut(node).between = Some(String::new());
                proof {
                    lemma_shape_wf(t2, self.tree);
                }
            }
        } else {
            let ghost t3 = self.tree;
            self.tree.raws_mut(node).after_name = Some(String::new());
            proof {
                lemma_shape_wf(t3, self.tree);
            }
            self.tree.set_params(node, String::new());
        }
        if open {
            self.tree.make_container(node);
            self.current = node;
        }
        Ok(())
    }
}

impl<'a> Parser<'a> {
    /// A rule, a declaration or an unknown construct starting at `start`.
    fn other(&mut self, start: Token<'a>) -> (r: Result<(), CssSyntaxError>)
        requires
            old(self).inv(),
            spec_token_in(start, old(self).input.bytes().len() as int),
            !spec_is_space_or_comment(start),
            start.kind != TokenKind::CloseCurly,
            start.kind != TokenKind::OpenCurly,
            start.kind != TokenKind::Semicolon,
        ensures
            final(self).spec_input() == old(self).spec_input(),
            r is Ok ==> final(self).inv() && final(self).tokenizer.remaining() <= old(self).tokenizer.remaining(),
            r matches Err(e) ==> spec_input_error(*old(self).input, e),
            r is Ok ==> spec_opened_rule(old(self).tree, final(self).tree, old(self).current, final(self).current) || (
            spec_added_decl(old(self).tree, final(self).tree, old(self).current) && final(self).current == old(
                self,
            ).current),
            r matches Err(e) ==> spec_unclosed_error(*old(self).input, e) || spec_decl_error(*old(self).input, e),
    {
        let ghost n = self.input.bytes().len() as int;
        let mut end = false;
        let mut colon = false;
        let mut bracket: Option<Token<'a>> = None;
        let mut brackets: Vec<TokenKind> = Vec::new();
        let custom_property = {
            let sc = chars_of(start.content);
            crate::previous_map::starts_with(&sc, "--")
        };
        let mut tokens: Vec<Token<'a>> = Vec::new();
        let mut token: Option<Token<'a>> = Some(start);
        while token.is_some()
            invariant
                self.inv(),
                self.spec_input() == old(self).spec_input(),
                self.tree == old(self).tree,
                self.current == old(self).current,
                n == self.input.bytes().len(),
                spec_tokens_in(tokens@, n),
                token matches Some(t) ==> spec_token_in(t, n),
                tokens@.len() == 0 ==> token == Some(start),
                tokens@.len() > 0 ==> tokens@[0] == start,
                self.tokenizer.remaining() + tokens@.len() + (if token is Some { 1int } else { 0int }) <= old(
                    self,
                ).tokenizer.remaining() + 1,
                brackets@.len() > 0 ==> bracket is Some,
                bracket matches Some(b) ==> spec_token_in(b, n),
                spec_token_in(start, n),
                !spec_is_space_or_comment(start),
                start.kind != TokenKind::CloseCurly,
                start.kind != TokenKind::OpenCurly,
                start.kind != TokenKind::Semicolon,
            ensures
                token is None,
            decreases self.tokenizer.remaining() + if token is Some { 1int } else { 0int },
        {
            let current = match token {
                Some(t) => t,
                None => start,
            };
            let kind = current.kind;
            tokens.push(current);
            proof {
                assert(tokens@[0] == start);
                assert(spec_tokens_in(tokens@, n)) by {
                    assert forall|i: int| 0 <= i < tokens@.len() implies spec_token_in(#[trigger] tokens@[i], n) by {
                    }
                }
            }
            if kind == TokenKind::OpenParen || kind == TokenKind::OpenSquare {
                if bracket.is_none() {
                    bracket = Some(current);
                }
                brackets.push(if kind == TokenKind::OpenParen {
                    TokenKind::CloseParen
                } else {
                    TokenKind::CloseSquare
                });
            } else if custom_property && colon && kind == TokenKind::OpenCurly {
                if bracket.is_none() {
                    bracket = Some(current);
                }
                brackets.push(TokenKind::CloseCurly);
            } else if brackets.len() == 0 {
                if kind == TokenKind::Semicolon {
                    if colon {
                        proof {
                            assert(tokens@.last() == current);
                            assert(tokens@.len() > 1) by {
                                if tokens@.len() == 1 {
                                    assert(tokens@[0] == start);
                                    assert(tokens@.last() == tokens@[0]);
                                }
                            }
                        }
                        return self.decl(tokens, custom_property);
                    }
                    token = None;
                    break;
                } else if kind == TokenKind::OpenCurly {
                    return self.rule(tokens);
                } else if kind == TokenKind::CloseCurly {
                    proof {
                        assert(tokens@.len() > 1) by {
                            if tokens@.len() == 1 {
                                assert(tokens@.last() == start);
                            }
                        }
                    }
                    let ghost before_pop = tokens@;
                    let popped = tokens.pop().unwrap();
                    proof {
                        assert(spec_token_in(popped, n));
                        assert(tokens@[0] == before_pop[0]);
                    }
                    assert(spec_tokens_in(tokens@, n)) by {
                        assert forall|i: int| 0 <= i < tokens@.len() implies spec_token_in(#[trigger] tokens@[i], n) by {
                            assert(tokens@[i] == before_pop[i]);
                        }
                    }
                    self.back(popped);
                    end = true;
                    token = None;
                    break;
                } else if kind == TokenKind::Colon {
                    colon = true;
                }
            } else if brackets[brackets.len() - 1] == kind {
                brackets.pop();
                if brackets.len() == 0 {
                    bracket = None;
                }
            }
            token = match self.next() {
                Ok(t) => t,
                Err(e) => {
                    return Err(e);
                },
            };
        }
        if self.tokenizer.end_of_file() {
            end = true;
        }
        if brackets.len() > 0 {
            let b = match bracket {
                Some(b) => b,
                None => start,
            };
            let e = self.char_error(to_owned_string("Unclosed bracket"), &b);
            proof {
                assert(spec_input_error(*self.input, e));
                reveal_strlit("Unclosed bracket");
                reveal_strlit("Unclosed ");
                reveal_strlit("bracket");
                assert("Unclosed bracket"@ =~= "Unclosed "@ + "bracket"@);
                assert(spec_error_says(*self.input, e, "Unclosed "@ + "bracket"@));
            }
            return Err(e);
        }
        if end && colon {
            if !custom_property {
                while tokens.len() > 0 && (tokens[tokens.len() - 1].kind == TokenKind::Space || tokens[tokens.len()
                    - 1].kind == TokenKind::Comment)
                    invariant
                        self.inv(),
                        self.spec_input() == old(self).spec_input(),
                        self.tree == old(self).tree,
                        self.current == old(self).current,
                        n == self.input.bytes().len(),
                        spec_tokens_in(tokens@, n),
                        tokens@.len() > 0,
                        tokens@[0] == start,
                        !spec_is_space_or_comment(start),
                        start.kind != TokenKind::Semicolon,
                        self.tokenizer.remaining() + tokens@.len() <= old(self).tokenizer.remaining() + 1,
                    decreases tokens@.len(),
                {
                    proof {
                        assert(tokens@.len() > 1) by {
                            if tokens@.len() == 1 {
                                assert(tokens@.last() == start);
                            }
                        }
                    }
                    let ghost before_pop = tokens@;
                    let popped = tokens.pop().unwrap();
                    proof {
                        assert(spec_token_in(popped, n));
                        assert(tokens@[0] == before_pop[0]);
                    }
                    assert(spec_tokens_in(tokens@, n)) by {
                        assert forall|i: int| 0 <= i < tokens@.len() implies spec_token_in(#[trigger] tokens@[i], n) by {
                            assert(tokens@[i] == before_pop[i]);
                        }
                    }
                    self.back(popped);
                }
            }
            self.decl(tokens, custom_property)
        } else {
            let first = tokens[0];
            let e = self.unknown_word(&first);
            proof {
                assert(spec_input_error(*self.input, e));
                assert(spec_error_says(*self.input, e, "Unknown word "@ + first.content@));
            }
            Err(e)
        }
    }

    /// Parses the whole input.
    pub fn parse(self) -> (r: Result<Tree, CssSyntaxError>)
        requires
            self.inv(),
        ensures
            r matches Ok(t) ==> t.wf() && t.spec_inputs().len() == 0,
            r matches Ok(t) ==> spec_whole_input(t@[t.spec_root().0 as int].source, self.spec_input().bytes()),
            self.spec_blank_ahead() ==> r is Ok,
            r matches Err(e) ==> spec_input_error(self.spec_input(), e),
            r matches Err(e) ==> spec_parse_error(self.spec_input(), e),
    {
        let ghost input = self.spec_input();
        proof {
            reveal_strlit("Unclosed block");
            reveal_strlit("Unclosed ");
            reveal_strlit("block");
            assert("Unclosed block"@ =~= "Unclosed "@ + "block"@);
        }
        let mut this = self;
        while !this.tokenizer.end_of_file()
            invariant_except_break
                this.inv(),
            invariant
                this.spec_input() == input,
                input == self.spec_input(),
                self.spec_blank_ahead() ==> this.spec_blank_ahead(),
                "Unclosed block"@ == "Unclosed "@ + "block"@,
            ensures
                this.inv(),
            decreases this.tokenizer.remaining(),
        {
            let token = match this.next() {
                Ok(Some(t)) => t,
                Ok(None) => {
                    break;
                },
                Err(e) => {
                    return Err(e);
                },
            };
            let ghost blank_before = this.spec_blank_ahead();
            match token.kind {
                TokenKind::Space => {
                    push_str(&mut this.spaces, token.content);
                },
                TokenKind::Semicolon => {
                    this.free_semicolon(&token);
                },
                TokenKind::CloseCurly => {
                    match this.end(&token) {
                        Ok(()) => {},
                        Err(e) => {
                            return Err(e);
                        },
                    }
                },
                TokenKind::Comment => {
                    this.comment(&token);
                },
                TokenKind::AtWord => {
                    match this.atrule(&token) {
                        Ok(()) => {},
                        Err(e) => {
                            return Err(e);
                        },
                    }
                },
                TokenKind::OpenCurly => {
                    this.empty_rule(&token);
                },
                _ => {
                    match this.other(token) {
                        Ok(()) => {},
                        Err(e) => {
                            return Err(e);
                        },
                    }
                },
            }
        }
        match this.end_file() {
            Ok(()) => {},
            Err(e) => {
                return Err(e);
            },
        }
        Ok(this.tree)
    }
}

} // verus!
