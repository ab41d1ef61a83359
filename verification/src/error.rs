//! `CssSyntaxError` — the error type every fallible operation returns.

use vstd::prelude::*;
use crate::text::{chars_of, push_char, push_decimal, push_str, spec_decimal, spec_join, spec_split_on};
use crate::terminal_highlight::{highlight, spec_highlight, spec_highlightable};

verus! {

/// Where in the original input an error happened.
///
/// `offset` is a UTF-8 byte offset; `column`s count characters.
#[derive(Clone, Debug)]
pub struct ErrorInput {
    /// 1-based character column of the error start.
    pub column: usize,
    /// 1-based character column of the error end.
    pub end_column: Option<usize>,
    /// 1-based line of the error end.
    pub end_line: Option<usize>,
    /// Byte offset of the error end.
    pub end_offset: Option<usize>,
    /// Path of the file, when known.
    pub file: Option<String>,
    /// 1-based line of the error start.
    pub line: usize,
    /// Byte offset of the error start.
    pub offset: usize,
    /// The CSS the error was found in.
    pub source: String,
    /// `file:` URL of the file, when known.
    pub url: Option<String>,
}

/// The CSS parser/plugin error type.
#[derive(Clone, Debug)]
pub struct CssSyntaxError {
    /// Always `"CssSyntaxError"`.
    pub name: &'static str,
    /// Error message without position information.
    pub reason: String,
    /// Absolute path to the broken file, when known.
    pub file: Option<String>,
    /// Source code of the broken file.
    pub source: Option<String>,
    /// Name of the plugin that threw, when known.
    pub plugin: Option<String>,
    /// 1-based line of the error start.
    pub line: Option<usize>,
    /// 1-based column of the error start.
    pub column: Option<usize>,
    /// 1-based line of the error end.
    pub end_line: Option<usize>,
    /// 1-based column of the error end (exclusive).
    pub end_column: Option<usize>,
    /// Full message: `plugin: file:line:column: reason`.
    pub message: String,
    /// Position of the error inside the *original* input, before source maps.
    pub input: Option<ErrorInput>,
}

/// Start/end position pair accepted by the error constructors.
#[derive(Clone, Copy, Debug)]
pub struct Pos {
    pub line: usize,
    pub column: usize,
}

/// The view of an optional string.
pub open spec fn opt_view(o: Option<String>) -> Option<Seq<char>> {
    match o {
        Some(s) => Some(s@),
        None => None,
    }
}

/// The full message of an error: `plugin: file:line:column: reason`, where
/// the plugin part is left out when there is none, the file defaults to
/// `<css input>`, and the position is given only when both line and column
/// are known.
pub open spec fn spec_error_message(
    plugin: Option<Seq<char>>,
    file: Option<Seq<char>>,
    line: Option<usize>,
    column: Option<usize>,
    reason: Seq<char>,
) -> Seq<char> {
    let prefix = match plugin {
        Some(p) => p + ": "@,
        None => Seq::empty(),
    };
    let location = match file {
        Some(f) => f,
        None => "<css input>"@,
    };
    let position = match (line, column) {
        (Some(l), Some(c)) => ":"@ + spec_decimal(l as nat) + ":"@ + spec_decimal(c as nat),
        _ => Seq::empty(),
    };
    prefix + location + position + ": "@ + reason
}

impl CssSyntaxError {
    /// The message its fields call for.
    pub open spec fn spec_message(&self) -> Seq<char> {
        spec_error_message(opt_view(self.plugin), opt_view(self.file), self.line, self.column, self.reason@)
    }

    /// Creates an error with no position information.
    pub fn new(message: String) -> (err: Self)
        ensures
            err.name@ == "CssSyntaxError"@,
            err.reason@ == message@,
            err.file is None,
            err.source is None,
            err.plugin is None,
            err.line is None,
            err.column is None,
            err.end_line is None,
            err.end_column is None,
            err.input is None,
            err.message@ == err.spec_message(),
    {
        let mut err = CssSyntaxError {
            name: "CssSyntaxError",
            reason: message,
            file: None,
            source: None,
            plugin: None,
            line: None,
            column: None,
            end_line: None,
            end_column: None,
            message: String::new(),
            input: None,
        };
        err.set_message();
        err
    }

    /// Creates an error at a position.
    pub fn with_position(
        message: String,
        start: Option<Pos>,
        end: Option<Pos>,
        source: Option<String>,
        file: Option<String>,
        plugin: Option<String>,
    ) -> (err: Self)
        ensures
            err.name@ == "CssSyntaxError"@,
            err.reason@ == message@,
            err.file == file,
            err.source == source,
            err.plugin == plugin,
            err.line == (match start { Some(p) => Some(p.line), None => None }),
            err.column == (match start { Some(p) => Some(p.column), None => None }),
            err.end_line == (match end { Some(p) => Some(p.line), None => None }),
            err.end_column == (match end { Some(p) => Some(p.column), None => None }),
            err.input is None,
            err.message@ == err.spec_message(),
    {
        let mut err = CssSyntaxError {
            name: "CssSyntaxError",
            reason: message,
            file,
            source,
            plugin,
            line: match start { Some(p) => Some(p.line), None => None },
            column: match start { Some(p) => Some(p.column), None => None },
            end_line: match end { Some(p) => Some(p.line), None => None },
            end_column: match end { Some(p) => Some(p.column), None => None },
            message: String::new(),
            input: None,
        };
        err.set_message();
        err
    }

    /// Rebuilds [`CssSyntaxError::message`] from the current fields.
    ///
    /// Call this after changing `plugin`, `file`, `line`, `column` or `reason`.
    pub fn set_message(&mut self)
        ensures
            final(self).message@ == old(self).spec_message(),
            final(self).name == old(self).name,
            final(self).reason == old(self).reason,
            final(self).file == old(self).file,
            final(self).source == old(self).source,
            final(self).plugin == old(self).plugin,
            final(self).line == old(self).line,
            final(self).column == old(self).column,
            final(self).end_line == old(self).end_line,
            final(self).end_column == old(self).end_column,
            final(self).input == old(self).input,
    {
        let mut message = String::new();
        match &self.plugin {
            Some(plugin) => {
                push_str(&mut message, plugin.as_str());
                push_str(&mut message, ": ");
            },
            None => {},
        }
        match &self.file {
            Some(file) => push_str(&mut message, file.as_str()),
            None => push_str(&mut message, "<css input>"),
        }
        match (self.line, self.column) {
            (Some(line), Some(column)) => {
                push_str(&mut message, ":");
                push_decimal(&mut message, line);
                push_str(&mut message, ":");
                push_decimal(&mut message, column);
            },
            _ => {},
        }
        push_str(&mut message, ": ");
        push_str(&mut message, self.reason.as_str());
        proof {
            let prefix = match opt_view(self.plugin) {
                Some(p) => p + ": "@,
                None => Seq::<char>::empty(),
            };
            let location = match opt_view(self.file) {
                Some(f) => f,
                None => "<css input>"@,
            };
            let position = match (self.line, self.column) {
                (Some(l), Some(c)) => ":"@ + spec_decimal(l as nat) + ":"@ + spec_decimal(c as nat),
                _ => Seq::<char>::empty(),
            };
            assert(message@ =~= prefix + location + position + ": "@ + self.reason@);
        }
        self.message = message;
    }

    /// Sets the plugin name when none is set yet, and rebuilds the message.
    pub fn set_plugin(&mut self, plugin: &str)
        ensures
            old(self).plugin is None ==> opt_view(final(self).plugin) == Some(plugin@)
                && final(self).message@ == final(self).spec_message(),
            old(self).plugin is Some ==> *final(self) == *old(self),
            final(self).reason == old(self).reason,
            final(self).file == old(self).file,
            final(self).line == old(self).line,
            final(self).column == old(self).column,
            final(self).end_line == old(self).end_line,
            final(self).end_column == old(self).end_column,
            final(self).source == old(self).source,
            final(self).input == old(self).input,
    {
        if self.plugin.is_none() {
            self.plugin = Some(plugin.to_owned());
            self.set_message();
        }
    }
}


/// The lines of a text, split at `\n` with a `\r` before it dropped.
pub open spec fn spec_split_lines(css: Seq<char>) -> Seq<Seq<char>> {
    spec_split_on(css, '\n').map_values(|l: Seq<char>| crate::terminal_highlight::spec_strip_cr(l))
}

/// `a - b`, but not below zero.
pub open spec fn spec_sat_sub(a: int, b: int) -> int {
    if a > b { a - b } else { 0 }
}

/// The characters `from..to` of a text, clipped to it.
pub open spec fn spec_char_slice(t: Seq<char>, from: int, to: int) -> Seq<char> {
    let a = if from < t.len() { from } else { t.len() as int };
    let e = from + spec_sat_sub(to, from);
    let b = if e < t.len() { e } else { t.len() as int };
    t.subrange(a, b)
}

/// The last `n` characters of a text.
pub open spec fn spec_last_chars(t: Seq<char>, n: int) -> Seq<char> {
    t.subrange(spec_sat_sub(t.len() as int, n), t.len() as int)
}

/// A text with everything but tabs turned into spaces.
pub open spec fn spec_blank_out(t: Seq<char>) -> Seq<char> {
    t.map_values(|c: char| if c == '\t' { '\t' } else { ' ' })
}

/// A text with ASCII digits turned into spaces.
pub open spec fn spec_blank_digits(t: Seq<char>) -> Seq<char> {
    t.map_values(|c: char| if '0' <= c <= '9' { ' ' } else { c })
}

/// The error mark: bold red when colored.
pub open spec fn spec_mark(color: bool, t: Seq<char>) -> Seq<char> {
    if color {
        "\u{1b}[1m\u{1b}[31m"@ + t + "\u{1b}[39m\u{1b}[22m"@
    } else {
        t
    }
}

/// Aside text: gray when colored.
pub open spec fn spec_aside(color: bool, t: Seq<char>) -> Seq<char> {
    if color {
        "\u{1b}[90m"@ + t + "\u{1b}[39m"@
    } else {
        t
    }
}

/// CSS, highlighted when colored.
pub open spec fn spec_paint(color: bool, t: Seq<char>) -> Seq<char> {
    if color {
        spec_highlight(t)
    } else {
        t
    }
}

/// The gutter of line `n`: its number, padded to `width` by at most one
/// space, between a space and ` | `.
pub open spec fn spec_gutter(n: int, width: int) -> Seq<char> {
    " "@ + spec_last_chars(" "@ + spec_decimal(n as nat), width) + " | "@
}

/// The text of the error line after the gutter when it is long (over 160
/// characters): a window of it around the column.
pub open spec fn spec_long_window(line: Seq<char>, column: int, end_column: int) -> (Seq<char>, Seq<char>) {
    let sub_start = spec_sat_sub(column, 20);
    let sub_end = if column + 20 > end_column + 20 { column + 20 } else { end_column + 20 };
    let sub_line = spec_char_slice(line, sub_start, sub_end);
    let prefix = spec_char_slice(line, 0, if column - 1 < 19 { column - 1 } else { 19 });
    (sub_line, prefix)
}

/// One line of the excerpt: numbered, and for the error line followed by a
/// line with a caret under the column.
pub open spec fn spec_excerpt_line(
    color: bool,
    line: Seq<char>,
    number: int,
    error_line: int,
    width: int,
    column: int,
    end_column: int,
) -> Seq<char> {
    let gutter = spec_gutter(number, width);
    if number != error_line {
        " "@ + spec_aside(color, gutter) + spec_paint(color, line)
    } else {
        let blank = spec_aside(color, spec_blank_digits(gutter));
        let (shown, prefix) = if line.len() > 160 {
            spec_long_window(line, column, end_column)
        } else {
            (line, spec_char_slice(line, 0, column - 1))
        };
        spec_mark(color, ">"@) + spec_aside(color, gutter) + spec_paint(color, shown) + "\n "@ + blank + spec_blank_out(
            prefix,
        ) + spec_mark(color, "^"@)
    }
}

impl CssSyntaxError {
    /// The lines the excerpt shows, as `(first, end)`: from two before the
    /// error line to two after it, within the text.
    pub open spec fn spec_excerpt_range(&self) -> (int, int) {
        let lines = spec_split_lines(self.source->0@);
        let error_line = self.line->0 as int;
        let start = spec_sat_sub(error_line, 3);
        let end = if error_line + 2 < lines.len() { error_line + 2 } else { lines.len() as int };
        (start, end)
    }

    /// The lines of the excerpt, from `start` on.
    pub open spec fn spec_excerpt_lines(&self, color: bool, i: int) -> Seq<Seq<char>> {
        let lines = spec_split_lines(self.source->0@);
        let (start, end) = self.spec_excerpt_range();
        let width = spec_decimal(end as nat).len() as int;
        let column = match self.column {
            Some(c) => c as int,
            None => 1,
        };
        let end_column = match self.end_column {
            Some(c) => c as int,
            None => column,
        };
        if start <= end {
            Seq::new(
                (end - start) as nat,
                |k: int| spec_excerpt_line(color, lines[start + k], start + 1 + k, self.line->0 as int, width, column, end_column),
            )
        } else {
            Seq::empty()
        }
    }

    /// A few lines of CSS around the error, with the error position marked
    /// by a caret; empty without a source or a line.
    pub open spec fn spec_show_source_code(&self, color: bool) -> Seq<char> {
        if self.source is None || self.line is None {
            Seq::empty()
        } else {
            spec_join(self.spec_excerpt_lines(color, 0), "\n"@)
        }
    }

    /// The excerpt can be made: the shown range exists, the column
    /// arithmetic on the error line stays in range, and, when colored, the
    /// shown text can be highlighted.
    pub open spec fn spec_can_show(&self, color: bool) -> bool {
        self.source is Some && self.line is Some ==> {
            let lines = spec_split_lines(self.source->0@);
            let error_line = self.line->0 as int;
            let (start, end) = self.spec_excerpt_range();
            let column = match self.column {
                Some(c) => c as int,
                None => 1,
            };
            let end_column = match self.end_column {
                Some(c) => c as int,
                None => column,
            };
            &&& error_line + 2 <= usize::MAX
            &&& (start < error_line <= end ==> {
                let line = lines[error_line - 1];
                &&& column >= 1
                &&& (line.len() > 160 ==> column + 20 <= usize::MAX && end_column + 20 <= usize::MAX)
                &&& (color ==> spec_highlightable(if line.len() > 160 {
                    spec_long_window(line, column, end_column).0
                } else {
                    line
                }))
            })
            &&& (color ==> forall|n: int| start < n <= end && n != error_line ==> spec_highlightable(#[trigger] lines[n - 1]))
        }
    }
}

fn split_lines(css: &str) -> (r: Vec<Vec<char>>)
    ensures
        crate::source_map::spec_char_views(r@) == spec_split_lines(css@),
{
    let chars = chars_of(css);
    let parts = crate::paths::split_chars(&chars, '\n');
    let mut out: Vec<Vec<char>> = Vec::new();
    let mut i: usize = 0;
    while i < parts.len()
        invariant
            i <= parts@.len(),
            crate::source_map::spec_char_views(parts@) == spec_split_on(css@, '\n'),
            crate::source_map::spec_char_views(out@) =~= spec_split_lines(css@).take(i as int),
        decreases parts.len() - i,
    {
        let part = &parts[i];
        let n = part.len();
        let end = if n > 0 && part[n - 1] == '\r' { n - 1 } else { n };
        let line = crate::text::slice_chars(part, 0, end);
        proof {
            assert(part@ == spec_split_on(css@, '\n')[i as int]);
            if n > 0 && part@[n - 1] == '\r' {
                assert(part@.subrange(0, n - 1) =~= part@.drop_last());
            } else {
                assert(part@.subrange(0, n as int) =~= part@);
            }
        }
        let ghost before = crate::source_map::spec_char_views(out@);
        out.push(line);
        assert(crate::source_map::spec_char_views(out@) =~= before.push(line@));
        i = i + 1;
    }
    assert(spec_split_lines(css@).take(parts@.len() as int) =~= spec_split_lines(css@));
    out
}

fn char_slice(t: &Vec<char>, from: usize, to: usize) -> (r: String)
    ensures
        r@ == spec_char_slice(t@, from as int, to as int),
{
    let n = t.len();
    let a = if from < n { from } else { n };
    let span = if to > from { to - from } else { 0 };
    let e = if span < n - a { a + span } else { n };
    proof {
        if from < n {
            assert(a + span == from + spec_sat_sub(to as int, from as int));
        }
    }
    crate::text::string_from_chars(t, a, e)
}

fn push_blank_out(out: &mut String, t: &String)
    ensures
        final(out)@ == old(out)@ + spec_blank_out(t@),
{
    let chars = chars_of(t.as_str());
    let ghost start = old(out)@;
    let mut i: usize = 0;
    while i < chars.len()
        invariant
            i <= chars@.len(),
            chars@ == t@,
            out@ == start + spec_blank_out(t@).take(i as int),
        decreases chars.len() - i,
    {
        let c = if chars[i] == '\t' { '\t' } else { ' ' };
        push_char(out, c);
        assert(spec_blank_out(t@).take(i + 1) =~= spec_blank_out(t@).take(i as int).push(c));
        i = i + 1;
    }
    assert(spec_blank_out(t@).take(chars@.len() as int) =~= spec_blank_out(t@));
}

fn blank_digits(t: &String) -> (r: String)
    ensures
        r@ == spec_blank_digits(t@),
{
    let chars = chars_of(t.as_str());
    let mut out = String::new();
    let mut i: usize = 0;
    while i < chars.len()
        invariant
            i <= chars@.len(),
            chars@ == t@,
            out@ == spec_blank_digits(t@).take(i as int),
        decreases chars.len() - i,
    {
        let c = if '0' <= chars[i] && chars[i] <= '9' { ' ' } else { chars[i] };
        push_char(&mut out, c);
        assert(spec_blank_digits(t@).take(i + 1) =~= spec_blank_digits(t@).take(i as int).push(c));
        i = i + 1;
    }
    assert(spec_blank_digits(t@).take(chars@.len() as int) =~= spec_blank_digits(t@));
    out
}

fn push_mark(out: &mut String, color: bool, t: &str)
    ensures
        final(out)@ == old(out)@ + spec_mark(color, t@),
{
    if color {
        push_str(out, "\u{1b}[1m\u{1b}[31m");
        push_str(out, t);
        push_str(out, "\u{1b}[39m\u{1b}[22m");
    } else {
        push_str(out, t);
    }
}

fn push_aside(out: &mut String, color: bool, t: &str)
    ensures
        final(out)@ == old(out)@ + spec_aside(color, t@),
{
    if color {
        push_str(out, "\u{1b}[90m");
        push_str(out, t);
        push_str(out, "\u{1b}[39m");
    } else {
        push_str(out, t);
    }
}

fn push_paint(out: &mut String, color: bool, t: &str)
    requires
        color ==> spec_highlightable(t@),
    ensures
        final(out)@ == old(out)@ + spec_paint(color, t@),
{
    if color {
        let painted = highlight(t);
        push_str(out, painted.as_str());
    } else {
        push_str(out, t);
    }
}

fn gutter(number: usize, width: usize) -> (r: String)
    ensures
        r@ == spec_gutter(number as int, width as int),
{
    let mut padded = crate::text::to_owned_string(" ");
    push_decimal(&mut padded, number);
    let chars = chars_of(padded.as_str());
    let n = chars.len();
    let from = if n > width { n - width } else { 0 };
    let last = crate::text::string_from_chars(&chars, from, n);
    let mut g = crate::text::to_owned_string(" ");
    push_str(&mut g, last.as_str());
    push_str(&mut g, " | ");
    g
}

/// What making one excerpt line needs.
pub open spec fn spec_line_ok(color: bool, line: Seq<char>, number: int, error_line: int, column: int, end_column: int) -> bool {
    &&& number == error_line ==> {
        &&& column >= 1
        &&& (line.len() > 160 ==> column + 20 <= usize::MAX && end_column + 20 <= usize::MAX)
        &&& (color ==> spec_highlightable(if line.len() > 160 {
            spec_long_window(line, column, end_column).0
        } else {
            line
        }))
    }
    &&& number != error_line ==> (color ==> spec_highlightable(line))
}

fn excerpt_line(
    color: bool,
    line: &Vec<char>,
    number: usize,
    error_line: usize,
    width: usize,
    column: usize,
    end_column: usize,
) -> (r: String)
    requires
        spec_line_ok(color, line@, number as int, error_line as int, column as int, end_column as int),
    ensures
        r@ == spec_excerpt_line(color, line@, number as int, error_line as int, width as int, column as int, end_column as int),
{
    let g = gutter(number, width);
    let mut out = String::new();
    proof {
        reveal_strlit(" ");
    }
    if number != error_line {
        push_char(&mut out, ' ');
        push_aside(&mut out, color, g.as_str());
        let line_text = crate::text::string_of(line);
        push_paint(&mut out, color, line_text.as_str());
        assert(out@ =~= spec_excerpt_line(color, line@, number as int, error_line as int, width as int, column as int, end_column as int));
    } else {
        let blank = blank_digits(&g);
        let (shown, prefix) = if line.len() > 160 {
            let sub_start = if column > 20 { column - 20 } else { 0 };
            let sub_end = if column + 20 > end_column + 20 { column + 20 } else { end_column + 20 };
            let sub_line = char_slice(line, sub_start, sub_end);
            let prefix = char_slice(line, 0, if column - 1 < 19 { column - 1 } else { 19 });
            (sub_line, prefix)
        } else {
            let prefix = char_slice(line, 0, column - 1);
            (crate::text::string_of(line), prefix)
        };
        push_mark(&mut out, color, ">");
        push_aside(&mut out, color, g.as_str());
        push_paint(&mut out, color, shown.as_str());
        push_str(&mut out, "\n ");
        push_aside(&mut out, color, blank.as_str());
        push_blank_out(&mut out, &prefix);
        push_mark(&mut out, color, "^");
        assert(out@ =~= spec_excerpt_line(color, line@, number as int, error_line as int, width as int, column as int, end_column as int));
    }
    out
}

impl CssSyntaxError {
    /// Returns a few lines of CSS around the error, with the error position
    /// marked by a caret; `color` selects ANSI colours.
    pub fn show_source_code(&self, color: bool) -> (r: String)
        requires
            self.spec_can_show(color),
        ensures
            r@ == self.spec_show_source_code(color),
    {
        let css = match &self.source {
            Some(c) => c,
            None => {
                return String::new();
            },
        };
        let error_line = match self.line {
            Some(l) => l,
            None => {
                return String::new();
            },
        };
        let lines = split_lines(css.as_str());
        let start = if error_line > 3 { error_line - 3 } else { 0 };
        let end = if error_line + 2 < lines.len() { error_line + 2 } else { lines.len() };
        if start > end {
            proof {
                assert(spec_join(self.spec_excerpt_lines(color, 0), "\n"@) =~= Seq::<char>::empty());
            }
            return String::new();
        }
        let mut width_text = String::new();
        push_decimal(&mut width_text, end);
        let width = chars_of(width_text.as_str()).len();
        let column = match self.column {
            Some(c) => c,
            None => 1,
        };
        let end_column = match self.end_column {
            Some(c) => c,
            None => column,
        };
        let ghost entries = self.spec_excerpt_lines(color, 0);
        let ghost lines_v = spec_split_lines(css@);
        proof {
            assert forall|n: int| start < n <= end implies spec_line_ok(color, #[trigger] lines_v[n - 1], n, error_line as int, column as int, end_column as int) by {
                if color && n != error_line {
                    assert(spec_highlightable(lines_v[n - 1]));
                }
            }
            assert forall|k: int| 0 <= k < end - start implies #[trigger] entries[k] == spec_excerpt_line(color, lines_v[start + k], start + 1 + k, error_line as int, width as int, column as int, end_column as int) by {}
        }
        let mut out = String::new();
        let mut index = start;
        while index < end
            invariant
                start <= index <= end <= lines@.len(),
                error_line + 2 <= usize::MAX,
                crate::source_map::spec_char_views(lines@) == lines_v,
                entries.len() == end - start,
                forall|n: int| start < n <= end ==> spec_line_ok(color, #[trigger] lines_v[n - 1], n, error_line as int, column as int, end_column as int),
                forall|k: int| 0 <= k < end - start ==> #[trigger] entries[k] == spec_excerpt_line(color, lines_v[start + k], start + 1 + k, error_line as int, width as int, column as int, end_column as int),
                out@ == spec_join(entries.take(index - start), "\n"@),
            decreases end - index,
        {
            let number = index + 1;
            let line = &lines[index];
            let ghost before = out@;
            if index > start {
                push_char(&mut out, '\n');
            }
            proof {
                reveal_strlit("\n");
                assert(line@ == lines_v[index as int]);
                assert(spec_line_ok(color, lines_v[number - 1], number as int, error_line as int, column as int, end_column as int));
            }
            let entry = excerpt_line(color, line, number, error_line, width, column, end_column);
            push_str(&mut out, entry.as_str());
            proof {
                let k = index - start;
                assert(entries[k as int] == entry@);
                assert(entries.take(k + 1).drop_last() =~= entries.take(k as int));
                if k == 0 {
                    assert(out@ =~= entries[0]);
                } else {
                    assert(out@ =~= before + "\n"@ + entries[k as int]);
                }
            }
            index = index + 1;
        }
        assert(entries.take(end - start) =~= entries);
        out
    }
}

} // verus!
