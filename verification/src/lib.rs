//! Parse CSS, stringify it back byte for byte, and build source maps.
//!
//! The verified core: tokenizing, position bookkeeping, value splitting,
//! the base64 VLQ codec and source map reading and writing.

pub mod text;
pub mod vlq;
pub mod list;
pub mod error;
pub mod input;
pub mod tokenize;
pub mod source_map;
pub mod paths;
pub mod previous_map;
pub mod options;
pub mod terminal_highlight;
pub mod node;
pub mod tree;
pub mod parser;
pub mod stringifier;
pub mod edit;
pub mod visit;
pub mod position;
pub mod map_generator;
pub mod result;
pub mod processor;
pub mod json;

use vstd::prelude::*;

pub use crate::edit::Insertable;
pub use crate::node::{NewNode, NodeId, NodeKind, Position, RawValue, Raws, Source};
pub use crate::options::{Annotation, MapOptions, MapSetting, PrevMap, ProcessOptions};
pub use crate::position::NodeErrorOptions;
pub use crate::previous_map::PreviousMap;
pub use crate::processor::{Plugin, Processor};
pub use crate::result::{Message, PluginContext, Result as ProcessResult, Warning};
pub use crate::stringifier::{stringify, Build, Part, Stringifier};
pub use crate::tokenize::{Token, TokenKind, Tokenizer, TokenizerOptions};
pub use crate::tree::NodeData;
pub use crate::visit::Visit;

pub use crate::error::CssSyntaxError;
pub use crate::input::Input;
pub use crate::options::InputOptions;
use crate::parser::{spec_all_followable, spec_blank, spec_input_error, spec_parse_error, spec_parseable, spec_whole_input, Parser};
use crate::previous_map::{ends_with, lowercase, spec_ends_with, spec_lowercase};
use crate::text::{chars_of, find, push_str, spec_find_from};
pub use crate::tree::Tree;

verus! {

/// Parses an input into a [`Tree`] that owns it: every node's source points
/// at input 0.
pub fn parse_input(input: Input) -> (r: Result<Tree, CssSyntaxError>)
    requires
        spec_parseable(input),
    ensures
        r matches Ok(t) ==> t.wf() && t.spec_inputs() == seq![input],
        r matches Ok(t) ==> spec_whole_input(t@[t.spec_root().0 as int].source, input.bytes()),
        r matches Err(e) ==> spec_input_error(input, e) && spec_parse_error(input, e),
        spec_blank(input.bytes()) ==> r is Ok,
{
    let result = {
        let parser = Parser::new(&input);
        parser.parse()
    };
    match result {
        Ok(tree) => {
            let mut tree = tree;
            tree.attach_input(input);
            proof {
                assert(tree.spec_inputs() =~= seq![input]);
            }
            Ok(tree)
        },
        Err(e) => Err(e),
    }
}

/// Parses CSS into a [`Tree`].
pub fn parse(css: &str) -> (r: Result<Tree, CssSyntaxError>)
    requires
        crate::input::spec_fits(css@),
    ensures
        r matches Ok(t) ==> t.wf() && t.spec_inputs().len() == 1 && t.spec_inputs()[0].css_view()
            == crate::input::spec_strip_bom(css@).0,
        r matches Ok(t) ==> spec_whole_input(t@[t.spec_root().0 as int].source, t.spec_inputs()[0].bytes()),
        r matches Err(e) ==> exists|input: Input| input.css_view() == crate::input::spec_strip_bom(css@).0
            && #[trigger] spec_input_error(input, e) && spec_parse_error(input, e),
        spec_whitespace(css@) ==> r is Ok,
{
    let input = Input::from_css(css, None);
    proof {
        input.lemma_bytes();
        lemma_no_map_followable(input);
    }
    let ghost i = input;
    proof {
        if spec_whitespace(css@) {
            lemma_whitespace_blank(css@, i);
        }
    }
    let r = parse_input(input);
    proof {
        if r is Err {
            assert(spec_input_error(i, r->Err_0));
        }
    }
    r
}

/// CSS made of spaces, tabs, line breaks and form feeds only.
pub open spec fn spec_whitespace(css: Seq<char>) -> bool {
    forall|i: int| 0 <= i < css.len() ==> {
        let c = #[trigger] css[i];
        c == ' ' || c == '\n' || c == '\t' || c == '\r' || c == '\x0c'
    }
}

/// The bytes an input reads from whitespace CSS are whitespace.
pub proof fn lemma_whitespace_blank(css: Seq<char>, input: Input)
    requires
        spec_whitespace(css),
        input.css_view() == crate::input::spec_strip_bom(css).0,
        input.bytes() == vstd::utf8::encode_utf8(input.css_view()),
    ensures
        spec_blank(input.bytes()),
{
    let v = input.css_view();
    if css.len() > 0 {
        assert(css[0] == ' ' || css[0] == '\n' || css[0] == '\t' || css[0] == '\r' || css[0] == '\x0c');
    }
    assert(v == css);
    assert(vstd::utf8::is_ascii_chars(v));
    vstd::utf8::is_ascii_chars_encode_utf8(v);
    assert forall|j: int| 0 <= j < input.bytes().len() implies crate::tokenize::spec_is_space(#[trigger] input.bytes()[j]) by {
        assert(v[j] as u8 == input.bytes()[j]);
        let c = v[j];
        assert(c == ' ' || c == '\n' || c == '\t' || c == '\r' || c == '\x0c');
    }
}

/// Every position of an input without a source map can be reported.
pub proof fn lemma_no_map_followable(input: Input)
    requires
        input.spec_map() is None,
    ensures
        spec_all_followable(input),
{
}

/// The hint added to a syntax error in a file whose extension names another
/// syntax: the wrong parser was almost certainly used.
pub open spec fn spec_parser_hint(from: Seq<char>) -> Option<Seq<char>> {
    let lowered = spec_lowercase(from);
    if spec_ends_with(lowered, ".scss"@) {
        Some("\nYou tried to parse SCSS with the standard CSS parser; try again with the postcss-scss parser"@)
    } else if spec_find_from(lowered, ".sass"@, 0) is Some {
        Some("\nYou tried to parse Sass with the standard CSS parser; try again with the postcss-sass parser"@)
    } else if spec_ends_with(lowered, ".less"@) {
        Some("\nYou tried to parse Less with the standard CSS parser; try again with the postcss-less parser"@)
    } else {
        None
    }
}

/// Adds to an error's message the hint for the file it came from.
pub fn add_parser_hint(error: &mut CssSyntaxError, from: Option<&str>)
    ensures
        final(error).message@ == match from {
            Some(f) => match spec_parser_hint(f@) {
                Some(h) => old(error).message@ + h,
                None => old(error).message@,
            },
            None => old(error).message@,
        },
        final(error).reason == old(error).reason,
        final(error).line == old(error).line,
        final(error).column == old(error).column,
        final(error).file == old(error).file,
{
    let from = match from {
        Some(f) => f,
        None => {
            return;
        },
    };
    let lowered = lowercase(from);
    let lc = chars_of(lowered.as_str());
    let sass = chars_of(".sass");
    if ends_with(&lc, ".scss") {
        push_str(&mut error.message, "\nYou tried to parse SCSS with the standard CSS parser; try again with the postcss-scss parser");
    } else if find(&lc, &sass, 0).is_some() {
        push_str(&mut error.message, "\nYou tried to parse Sass with the standard CSS parser; try again with the postcss-sass parser");
    } else if ends_with(&lc, ".less") {
        push_str(&mut error.message, "\nYou tried to parse Less with the standard CSS parser; try again with the postcss-less parser");
    }
}

/// Renders a tree to CSS.
pub fn stringify_tree(tree: &Tree) -> (r: String)
    requires
        tree.wf(),
    ensures
        r@ == crate::stringifier::spec_to_css(tree@, tree.spec_root()),
{
    tree.to_css()
}

/// Parses CSS with options, such as the file name used in error messages.
/// A syntax error in a file whose extension names another syntax gets a hint.
pub fn parse_with_options(css: &str, opts: &InputOptions) -> (r: Result<Tree, CssSyntaxError>)
    requires
        crate::input::spec_fits(css@),
    ensures
        r matches Ok(t) ==> t.wf() && t.spec_inputs().len() == 1 && t.spec_inputs()[0].css_view()
            == crate::input::spec_strip_bom(css@).0,
        r matches Ok(t) ==> spec_whole_input(t@[t.spec_root().0 as int].source, t.spec_inputs()[0].bytes()),
        r matches Ok(t) ==> crate::map_generator::spec_inputs_wf(t),
        r matches Err(e) ==> exists|input: Input, first: CssSyntaxError|
            input.css_view() == crate::input::spec_strip_bom(css@).0 && #[trigger] spec_input_error(input, first)
                && spec_parse_error(input, first) && e.reason == first.reason && e.line == first.line && e.column
                == first.column && e.message@ == match opts.from {
                Some(f) => match spec_parser_hint(f@) {
                    Some(h) => first.message@ + h,
                    None => first.message@,
                },
                None => first.message@,
            },
        spec_whitespace(css@) ==> r is Ok,
{
    let input = Input::new(css, opts, None, None);
    proof {
        input.lemma_bytes();
        lemma_no_map_followable(input);
        if spec_whitespace(css@) {
            lemma_whitespace_blank(css@, input);
        }
    }
    match parse_input(input) {
        Ok(tree) => Ok(tree),
        Err(e) => {
            let ghost first = e;
            let mut e = e;
            let from = match &opts.from {
                Some(f) => Some(f.as_str()),
                None => None,
            };
            add_parser_hint(&mut e, from);
            Err(e)
        },
    }
}

} // verus!
