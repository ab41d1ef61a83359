//! Syntax highlighting for CSS printed in error messages, with ANSI colour
//! escapes.

use vstd::prelude::*;
use vstd::string::StringSliceAdditionalSpecFns;
use crate::input::{spec_strip_bom, Input};
use crate::text::{chars_of, push_char, push_str, spec_join, spec_split_on};
use crate::tokenize::{spec_lex, Lexed, Token, TokenKind, Tokenizer, TokenizerOptions};

verus! {

/// How a token is painted.
#[derive(Clone, Copy)]
pub enum HighlightKind {
    AtWord,
    Brackets,
    Call,
    Class,
    Comment,
    Hash,
    Paren,
    Plain,
    Punctuation,
    Str,
}

/// The token colour theme.
pub open spec fn spec_theme(kind: HighlightKind) -> Option<Seq<char>> {
    match kind {
        HighlightKind::AtWord | HighlightKind::Brackets | HighlightKind::Call => Some("\u{1b}[36m"@),
        HighlightKind::Class => Some("\u{1b}[33m"@),
        HighlightKind::Comment => Some("\u{1b}[90m"@),
        HighlightKind::Hash => Some("\u{1b}[35m"@),
        HighlightKind::Paren => Some("\u{1b}[36m"@),
        HighlightKind::Punctuation => Some("\u{1b}[33m"@),
        HighlightKind::Str => Some("\u{1b}[32m"@),
        HighlightKind::Plain => None,
    }
}

/// The colour theme.
fn theme(kind: HighlightKind) -> (r: Option<&'static str>)
    ensures
        match r {
            Some(c) => spec_theme(kind) == Some(c@),
            None => spec_theme(kind) is None,
        },
{
    match kind {
        HighlightKind::AtWord | HighlightKind::Brackets | HighlightKind::Call => Some("\u{1b}[36m"),
        HighlightKind::Class => Some("\u{1b}[33m"),
        HighlightKind::Comment => Some("\u{1b}[90m"),
        HighlightKind::Hash => Some("\u{1b}[35m"),
        HighlightKind::Paren => Some("\u{1b}[36m"),
        HighlightKind::Punctuation => Some("\u{1b}[33m"),
        HighlightKind::Str => Some("\u{1b}[32m"),
        HighlightKind::Plain => None,
    }
}

/// How a token is painted by its own kind and text.
pub open spec fn spec_base_kind(b: Seq<u8>, t: Lexed) -> HighlightKind {
    match t.0 {
        TokenKind::AtWord => HighlightKind::AtWord,
        TokenKind::Brackets => HighlightKind::Brackets,
        TokenKind::Comment => HighlightKind::Comment,
        TokenKind::Str => HighlightKind::Str,
        TokenKind::Colon | TokenKind::Semicolon => HighlightKind::Punctuation,
        TokenKind::OpenSquare | TokenKind::CloseSquare | TokenKind::OpenCurly | TokenKind::CloseCurly => HighlightKind::Punctuation,
        TokenKind::OpenParen | TokenKind::CloseParen => HighlightKind::Paren,
        TokenKind::Word => {
            let text = vstd::utf8::decode_utf8(b.subrange(t.1, t.2));
            if text.len() > 0 && text[0] == '.' {
                HighlightKind::Class
            } else if text.len() > 0 && text[0] == '#' {
                HighlightKind::Hash
            } else {
                HighlightKind::Plain
            }
        },
        TokenKind::Space => HighlightKind::Plain,
    }
}

/// How a token is painted: a word or at-word directly followed by a paren
/// is a function call.
pub open spec fn spec_paint_kind(b: Seq<u8>, t: Lexed, next: Option<Lexed>) -> HighlightKind {
    let base = spec_base_kind(b, t);
    if !(base is Class || base is Hash) && (next matches Some(n) && (n.0 is Brackets || n.0 is OpenParen)) {
        HighlightKind::Call
    } else {
        base
    }
}

/// A line without a trailing carriage return.
pub open spec fn spec_strip_cr(l: Seq<char>) -> Seq<char> {
    if l.len() > 0 && l.last() == '\r' {
        l.drop_last()
    } else {
        l
    }
}

/// Text in a colour, line by line, carriage returns dropped.
pub open spec fn spec_colored(color: Seq<char>, text: Seq<char>) -> Seq<char> {
    spec_join(spec_split_on(text, '\n').map_values(|l: Seq<char>| color + spec_strip_cr(l) + "\u{1b}[39m"@), "\n"@)
}

/// One token painted.
pub open spec fn spec_paint_token(b: Seq<u8>, t: Lexed, next: Option<Lexed>) -> Seq<char> {
    let text = vstd::utf8::decode_utf8(b.subrange(t.1, t.2));
    match spec_theme(spec_paint_kind(b, t, next)) {
        Some(c) => spec_colored(c, text),
        None => text,
    }
}

/// Tokens painted, each knowing the one after it.
pub open spec fn spec_paint_all(b: Seq<u8>, toks: Seq<Lexed>) -> Seq<char>
    decreases toks.len(),
{
    if toks.len() == 0 {
        Seq::empty()
    } else {
        spec_paint_token(b, toks[0], if toks.len() > 1 { Some(toks[1]) } else { None }) + spec_paint_all(
            b,
            toks.drop_first(),
        )
    }
}

/// The bytes highlighted: those of the CSS without its BOM.
pub open spec fn spec_highlight_bytes(css: Seq<char>) -> Seq<u8> {
    vstd::utf8::encode_utf8(spec_strip_bom(css).0)
}

/// CSS that can be highlighted: small enough for an input.
pub open spec fn spec_highlightable(css: Seq<char>) -> bool {
    crate::input::spec_fits(css)
}

/// The highlighted CSS: its tokens (read tolerating unclosed constructs)
/// painted by the theme.
pub open spec fn spec_highlight(css: Seq<char>) -> Seq<char> {
    let b = spec_highlight_bytes(css);
    spec_paint_all(b, spec_lex(b, 0, Seq::empty(), -1).0)
}

fn colored(color: &str, text: &str) -> (r: String)
    ensures
        r@ == spec_colored(color@, text@),
{
    let chars = chars_of(text);
    let parts = crate::paths::split_chars(&chars, '\n');
    proof {
        crate::text::lemma_split_on_len(text@, '\n');
        reveal_strlit("\n");
    }
    let ghost mapped = spec_split_on(text@, '\n').map_values(|l: Seq<char>| color@ + spec_strip_cr(l) + "\u{1b}[39m"@);
    let mut out = String::new();
    let mut i: usize = 0;
    while i < parts.len()
        invariant
            i <= parts@.len(),
            crate::source_map::spec_char_views(parts@) == spec_split_on(text@, '\n'),
            mapped == spec_split_on(text@, '\n').map_values(|l: Seq<char>| color@ + spec_strip_cr(l) + "\u{1b}[39m"@),
            "\n"@ == seq!['\n'],
            out@ == spec_join(mapped.take(i as int), "\n"@),
        decreases parts.len() - i,
    {
        let ghost before = out@;
        if i > 0 {
            push_char(&mut out, '\n');
        }
        push_str(&mut out, color);
        let part = &parts[i];
        let n = part.len();
        let end = if n > 0 && part[n - 1] == '\r' { n - 1 } else { n };
        let line = crate::text::string_from_chars(part, 0, end);
        push_str(&mut out, line.as_str());
        push_str(&mut out, "\u{1b}[39m");
        proof {
            assert(part@ == spec_split_on(text@, '\n')[i as int]);
            assert(line@ == spec_strip_cr(part@)) by {
                if n > 0 && part@[n - 1] == '\r' {
                    assert(part@.subrange(0, n - 1) =~= part@.drop_last());
                } else {
                    assert(part@.subrange(0, n as int) =~= part@);
                }
            }
            assert(mapped[i as int] == color@ + line@ + "\u{1b}[39m"@);
            let t = mapped.take(i + 1);
            assert(t.drop_last() =~= mapped.take(i as int));
            if i == 0 {
                assert(out@ =~= mapped[0]);
            } else {
                assert(out@ =~= before + "\n"@ + mapped[i as int]);
            }
        }
        i = i + 1;
    }
    assert(mapped.take(parts@.len() as int) =~= mapped);
    out
}

/// Wraps CSS in ANSI colour escapes for terminal output.
pub fn highlight(css: &str) -> (r: String)
    requires
        spec_highlightable(css@),
    ensures
        r@ == spec_highlight(css@),
{
    let input = Input::from_css(css, None);
    let mut tokenizer = Tokenizer::new(&input, TokenizerOptions { ignore_errors: true });
    let ghost b = tokenizer.spec_bytes();
    let ghost all = spec_lex(b, 0, Seq::empty(), -1).0;
    let mut tokens: Vec<Token> = Vec::new();
    proof {
        input.lemma_bytes();
        assert(b == spec_highlight_bytes(css@));
        crate::tokenize::lemma_text_lexes(spec_strip_bom(css@).0);
        assert(tokenizer.spec_buffer() =~= Seq::<bool>::empty());
    }
    while !tokenizer.end_of_file()
        invariant
            tokenizer.inv(),
            tokenizer.spec_bytes() == b,
            tokenizer.spec_ignore(),
            tokenizer.spec_returned().len() == 0,
            0 <= tokenizer.spec_pos() <= b.len() + 1,
            spec_lex(b, tokenizer.spec_pos(), tokenizer.spec_buffer(), tokenizer.spec_bad_paren()).1,
            tokens@.len() + spec_lex(b, tokenizer.spec_pos(), tokenizer.spec_buffer(), tokenizer.spec_bad_paren()).0.len()
                == all.len(),
            forall|k: int| 0 <= k < tokens@.len() ==> (#[trigger] tokens@[k]).kind == all[k].0
                && tokens@[k].content.spec_bytes() == b.subrange(all[k].1, all[k].2),
            forall|k: int| 0 <= k < spec_lex(b, tokenizer.spec_pos(), tokenizer.spec_buffer(), tokenizer.spec_bad_paren()).0.len()
                ==> #[trigger] spec_lex(b, tokenizer.spec_pos(), tokenizer.spec_buffer(), tokenizer.spec_bad_paren()).0[k]
                == all[tokens@.len() + k],
        decreases b.len() + 1 - tokenizer.spec_pos(),
    {
        let ghost pos = tokenizer.spec_pos();
        let ghost rest = spec_lex(b, pos, tokenizer.spec_buffer(), tokenizer.spec_bad_paren()).0;
        proof {
            crate::tokenize::lemma_step_advances(b, pos, tokenizer.spec_url(), tokenizer.spec_bad_paren());
        }
        match tokenizer.next_token(false) {
            Ok(Some(t)) => {
                let ghost next_rest = spec_lex(b, tokenizer.spec_pos(), tokenizer.spec_buffer(), tokenizer.spec_bad_paren()).0;
                proof {
                    assert(rest.len() >= 1);
                    assert(rest[0].0 == t.kind);
                    if tokenizer.spec_pos() < b.len() {
                        assert(next_rest =~= rest.drop_first());
                    } else {
                        assert(rest.len() == 1);
                    }
                }
                proof {
                    tokenizer.lemma_inv();
                }
                tokens.push(t);
            },
            _ => {
                proof {
                    assert(false);
                }
            },
        }
    }
    proof {
        assert(spec_lex(b, tokenizer.spec_pos(), tokenizer.spec_buffer(), tokenizer.spec_bad_paren()).0.len() == 0);
    }
    let mut out = String::new();
    let mut i: usize = 0;
    assert(all.skip(0) =~= all);
    while i < tokens.len()
        invariant
            i <= tokens@.len(),
            tokens@.len() == all.len(),
            forall|k: int| 0 <= k < tokens@.len() ==> (#[trigger] tokens@[k]).kind == all[k].0
                && tokens@[k].content.spec_bytes() == b.subrange(all[k].1, all[k].2),
            out@ + spec_paint_all(b, all.skip(i as int)) == spec_paint_all(b, all),
        decreases tokens.len() - i,
    {
        let t = tokens[i];
        let text = chars_of(t.content);
        proof {
            vstd::utf8::encode_utf8_decode_utf8(t.content@);
            assert(text@ == vstd::utf8::decode_utf8(b.subrange(all[i as int].1, all[i as int].2)));
        }
        let base = match t.kind {
            TokenKind::AtWord => HighlightKind::AtWord,
            TokenKind::Brackets => HighlightKind::Brackets,
            TokenKind::Comment => HighlightKind::Comment,
            TokenKind::Str => HighlightKind::Str,
            TokenKind::Colon | TokenKind::Semicolon => HighlightKind::Punctuation,
            TokenKind::OpenSquare | TokenKind::CloseSquare | TokenKind::OpenCurly | TokenKind::CloseCurly => HighlightKind::Punctuation,
            TokenKind::OpenParen | TokenKind::CloseParen => HighlightKind::Paren,
            TokenKind::Word => if text.len() > 0 && text[0] == '.' {
                HighlightKind::Class
            } else if text.len() > 0 && text[0] == '#' {
                HighlightKind::Hash
            } else {
                HighlightKind::Plain
            },
            TokenKind::Space => HighlightKind::Plain,
        };
        let is_marked = match base {
            HighlightKind::Class | HighlightKind::Hash => true,
            _ => false,
        };
        let kind = if !is_marked && i + 1 < tokens.len() && match tokens[i + 1].kind {
            TokenKind::Brackets | TokenKind::OpenParen => true,
            _ => false,
        } {
            HighlightKind::Call
        } else {
            base
        };
        let ghost before = out@;
        let ghost next = if i + 1 < all.len() { Some(all[i + 1]) } else { None };
        proof {
            assert(base == spec_base_kind(b, all[i as int]));
            assert(kind == spec_paint_kind(b, all[i as int], next));
        }
        match theme(kind) {
            Some(color) => {
                let painted = colored(color, t.content);
                push_str(&mut out, painted.as_str());
            },
            None => push_str(&mut out, t.content),
        }
        proof {
            let rest = all.skip(i as int);
            assert(rest[0] == all[i as int]);
            assert(rest.drop_first() =~= all.skip(i + 1));
            if rest.len() > 1 {
                assert(rest[1] == all[i + 1]);
            }
            assert(out@ == before + spec_paint_token(b, all[i as int], next));
        }
        i = i + 1;
    }
    proof {
        assert(all.skip(i as int) =~= Seq::<Lexed>::empty());
        assert(all.skip(0) =~= all);
    }
    out
}



} // verus!
