//! `Input` — a CSS source together with everything needed to report positions
//! inside it.
//!
//! `offset` is a UTF-8 byte offset; `line`/`column` count characters
//! (1-based).

use vstd::prelude::*;
use vstd::string::StringSliceAdditionalSpecFns;
use crate::error::{CssSyntaxError, ErrorInput, Pos};
use crate::text::{push_char, push_str};
use crate::previous_map::PreviousMap;
use crate::options::InputOptions;

verus! {

/// Bytes covered by one entry of the continuation table.
pub const CONTINUATION_BLOCK: usize = 256;

/// A location inside an [`Input`], given either way round.
#[derive(Clone, Copy, Debug)]
pub enum Loc {
    /// UTF-8 byte offset.
    Offset(usize),
    /// 1-based line and character column.
    LineCol {
        /// 1-based line.
        line: usize,
        /// 1-based character column.
        column: usize,
    },
}

/// Whether a byte continues a character rather than starting one.
pub open spec fn spec_is_continuation(b: u8) -> bool {
    0x80 <= b <= 0xbf
}

/// Continuation bytes in `b[lo..hi]`.
pub open spec fn spec_cont_count(b: Seq<u8>, lo: int, hi: int) -> nat
    decreases hi - lo,
{
    if hi <= lo {
        0
    } else {
        spec_cont_count(b, lo, hi - 1) + if spec_is_continuation(b[hi - 1]) { 1nat } else { 0nat }
    }
}

/// Characters (bytes that start one) in `b[lo..hi]`.
pub open spec fn spec_char_count(b: Seq<u8>, lo: int, hi: int) -> int {
    (hi - lo) - spec_cont_count(b, lo, hi)
}

/// Newlines in `b[0..n]`.
pub open spec fn spec_newlines(b: Seq<u8>, n: int) -> nat
    decreases n,
{
    if n <= 0 {
        0
    } else {
        spec_newlines(b, n - 1) + if b[n - 1] == 10 { 1nat } else { 0nat }
    }
}

/// Start of the line that holds offset `n`.
pub open spec fn spec_line_start(b: Seq<u8>, n: int) -> int
    decreases n,
{
    if n <= 0 {
        0
    } else if b[n - 1] == 10 {
        n
    } else {
        spec_line_start(b, n - 1)
    }
}

/// Offsets of the starts of the lines begun within `b[0..n]`: 0, and one
/// past every newline.
pub open spec fn spec_line_starts(b: Seq<u8>, n: int) -> Seq<int>
    decreases n,
{
    if n <= 0 {
        seq![0]
    } else if b[n - 1] == 10 {
        spec_line_starts(b, n - 1).push(n)
    } else {
        spec_line_starts(b, n - 1)
    }
}

/// Offset of the `n`-th character starting at or after `k`, or the end.
pub open spec fn spec_nth_char(b: Seq<u8>, k: int, n: int) -> int
    decreases b.len() - k,
{
    if k >= b.len() {
        b.len() as int
    } else if !spec_is_continuation(b[k]) {
        if n <= 0 {
            k
        } else {
            spec_nth_char(b, k + 1, n - 1)
        }
    } else {
        spec_nth_char(b, k + 1, n)
    }
}

/// 1-based line and column of a byte offset, clamped to the input.
pub open spec fn spec_line_col(b: Seq<u8>, offset: int) -> (int, int) {
    let o = if offset < b.len() { offset } else { b.len() as int };
    ((spec_newlines(b, o) + 1) as int, spec_char_count(b, spec_line_start(b, o), o) + 1)
}

/// Byte offset of a 1-based line and column: the end of the input for a line
/// that does not exist, else the start of the requested character of the
/// line, or the end of the input when the text runs out first.
pub open spec fn spec_offset_of(b: Seq<u8>, line: int, column: int) -> int {
    let index = if line > 0 { line - 1 } else { 0 };
    let starts = spec_line_starts(b, b.len() as int);
    if index >= starts.len() {
        b.len() as int
    } else {
        spec_nth_char(b, starts[index], if column > 0 { column - 1 } else { 0 })
    }
}

/// A CSS file (or string) being processed.
#[derive(Clone, Debug)]
pub struct Input {
    css: String,
    /// True when a byte order mark was stripped from the input.
    pub has_bom: bool,
    /// The enclosing document for CSS embedded in another language.
    document: Option<String>,
    /// Absolute path of the file, when known.
    pub file: Option<String>,
    /// Placeholder id used when no file is known.
    pub id: Option<String>,
    /// Source map found for this input.
    map: Option<PreviousMap>,
    /// Byte offset of the start of every line.
    line_index: Vec<usize>,
    /// Running count of UTF-8 continuation bytes at every
    /// [`CONTINUATION_BLOCK`] boundary, or `None` when the CSS is all ASCII.
    continuation_index: Option<Vec<u32>>,
}

/// A table of line starts matches `b`.
pub open spec fn spec_line_index_ok(b: Seq<u8>, index: Seq<usize>) -> bool {
    let starts = spec_line_starts(b, b.len() as int);
    &&& index.len() == starts.len()
    &&& forall|i: int| 0 <= i < index.len() ==> index[i] as int == #[trigger] starts[i]
}

/// A continuation table matches `b`: `None` only when there are no
/// continuation bytes, else one running count per block boundary and one for
/// the end.
pub open spec fn spec_cont_index_ok(b: Seq<u8>, index: Option<Vec<u32>>) -> bool {
    match index {
        None => spec_cont_count(b, 0, b.len() as int) == 0,
        Some(v) => {
            &&& v@.len() == (b.len() + 255) / 256 + 1
            &&& forall|k: int| 0 <= k < v@.len() ==> #[trigger] v@[k] as int == spec_cont_count(
                b,
                0,
                if k * 256 < b.len() { k * 256 } else { b.len() as int },
            )
        },
    }
}

impl Input {
    /// The bytes of the CSS.
    pub closed spec fn bytes(&self) -> Seq<u8> {
        vstd::utf8::encode_utf8(self.css@)
    }

    /// The source map found for this input.
    pub closed spec fn spec_map(&self) -> Option<PreviousMap> {
        self.map
    }

    /// The tables agree with the CSS, which fits the 32-bit counters, and
    /// the source map, if any, can be followed back.
    pub closed spec fn wf(&self) -> bool {
        &&& self.bytes().len() < 0x8000_0000
        &&& spec_line_index_ok(self.bytes(), self.line_index@)
        &&& spec_cont_index_ok(self.bytes(), self.continuation_index)
        &&& self.map matches Some(m) ==> m.wf()
    }
}


impl Input {
    /// A consistent input's source map is consistent.
    pub proof fn lemma_map_wf(&self)
        requires
            self.wf(),
        ensures
            self.spec_map() matches Some(m) ==> m.wf(),
    {
    }

    /// The bytes are those of the CSS.
    pub proof fn lemma_bytes(&self)
        ensures
            self.bytes() == vstd::utf8::encode_utf8(self.css_view()),
    {
    }

    /// A well-formed input fits the 32-bit counters.
    pub proof fn lemma_wf_len(&self)
        requires
            self.wf(),
        ensures
            self.bytes().len() < 0x8000_0000,
    {
    }
}

proof fn lemma_line_starts(b: Seq<u8>, n: int)
    requires
        0 <= n <= b.len(),
    ensures
        spec_line_starts(b, n).len() == spec_newlines(b, n) + 1,
        spec_line_starts(b, n)[0] == 0,
        spec_line_starts(b, n).last() == spec_line_start(b, n),
        forall|i: int, j: int| 0 <= i < j < spec_line_starts(b, n).len() ==>
            #[trigger] spec_line_starts(b, n)[i] < #[trigger] spec_line_starts(b, n)[j],
        forall|i: int| 0 <= i < spec_line_starts(b, n).len() ==> 0 <= #[trigger] spec_line_starts(b, n)[i] <= n,
    decreases n,
{
    if n > 0 {
        lemma_line_starts(b, n - 1);
    }
}

proof fn lemma_line_starts_prefix(b: Seq<u8>, o: int, n: int)
    requires
        0 <= o <= n <= b.len(),
    ensures
        spec_line_starts(b, o).len() <= spec_line_starts(b, n).len(),
        forall|i: int| 0 <= i < spec_line_starts(b, o).len() ==> #[trigger] spec_line_starts(b, n)[i]
            == spec_line_starts(b, o)[i],
        forall|i: int| spec_line_starts(b, o).len() <= i < spec_line_starts(b, n).len() ==> #[trigger] spec_line_starts(b, n)[i] > o,
    decreases n - o,
{
    if o < n {
        lemma_line_starts_prefix(b, o, n - 1);
        lemma_line_starts(b, n - 1);
    }
}

proof fn lemma_cont_count_split(b: Seq<u8>, lo: int, mid: int, hi: int)
    requires
        lo <= mid <= hi,
    ensures
        spec_cont_count(b, lo, hi) == spec_cont_count(b, lo, mid) + spec_cont_count(b, mid, hi),
    decreases hi - mid,
{
    if mid < hi {
        lemma_cont_count_split(b, lo, mid, hi - 1);
    }
}

proof fn lemma_cont_count_bound(b: Seq<u8>, lo: int, hi: int)
    requires
        lo <= hi,
    ensures
        spec_cont_count(b, lo, hi) <= hi - lo,
    decreases hi - lo,
{
    if lo < hi {
        lemma_cont_count_bound(b, lo, hi - 1);
    }
}

/// Offsets of every line start.
fn build_line_index(css: &str) -> (index: Vec<usize>)
    requires
        css.spec_bytes().len() < 0x8000_0000,
    ensures
        spec_line_index_ok(css.spec_bytes(), index@),
{
    let bytes = css.as_bytes();
    let mut index: Vec<usize> = Vec::new();
    index.push(0);
    let mut offset: usize = 0;
    while offset < bytes.len()
        invariant
            offset <= bytes@.len(),
            bytes@.len() < 0x8000_0000,
            index@.len() == spec_line_starts(bytes@, offset as int).len(),
            forall|i: int| 0 <= i < index@.len() ==> index@[i] as int == #[trigger] spec_line_starts(bytes@, offset as int)[i],
        decreases bytes.len() - offset,
    {
        if bytes[offset] == 10 {
            index.push(offset + 1);
        }
        offset = offset + 1;
    }
    index
}

/// Whether a byte continues a character rather than starting one.
pub(crate) fn is_continuation(byte: u8) -> (r: bool)
    ensures
        r == spec_is_continuation(byte),
{
    let r = byte & 0xc0 == 0x80;
    assert((byte & 0xc0 == 0x80) == (0x80 <= byte && byte <= 0xbf)) by (bit_vector);
    r
}


/// The continuation table for `css`, or `None` when it is all ASCII.
fn build_continuation_index(css: &str) -> (index: Option<Vec<u32>>)
    requires
        css.spec_bytes().len() < 0x8000_0000,
    ensures
        spec_cont_index_ok(css.spec_bytes(), index),
{
    let bytes = css.as_bytes();
    let len = bytes.len();
    if css.is_ascii() {
        proof {
            vstd::utf8::is_ascii_chars_encode_utf8(css@);
            lemma_ascii_no_continuation(bytes@, len as int);
        }
        return None;
    }
    let mut index: Vec<u32> = Vec::new();
    let mut total: u32 = 0;
    let mut block_start: usize = 0;
    while block_start < len
        invariant
            len == bytes@.len(),
            len < 0x8000_0000,
            block_start % 256 == 0,
            block_start <= len + 255,
            index@.len() == block_start / 256,
            total as int == spec_cont_count(bytes@, 0, if block_start < len { block_start as int } else { len as int }),
            forall|k: int| 0 <= k < index@.len() ==> #[trigger] index@[k] as int == spec_cont_count(
                bytes@,
                0,
                if k * 256 < len { k * 256 } else { len as int },
            ),
        decreases len + 256 - block_start,
    {
        index.push(total);
        let end = if len - block_start > 256 { block_start + 256 } else { len };
        let mut i = block_start;
        let ghost before = total;
        while i < end
            invariant
                block_start <= i <= end <= len,
                len == bytes@.len(),
                len < 0x8000_0000,
                total as int == spec_cont_count(bytes@, 0, i as int),
            decreases end - i,
        {
            proof {
                lemma_cont_count_bound(bytes@, 0, i + 1);
            }
            if is_continuation(bytes[i]) {
                total = total + 1;
            }
            i = i + 1;
        }
        block_start = block_start + 256;
    }
    index.push(total);
    proof {
        assert(index@.len() == (len + 255) / 256 + 1);
    }
    Some(index)
}

proof fn lemma_ascii_no_continuation(b: Seq<u8>, n: int)
    requires
        0 <= n <= b.len(),
        forall|i: int| 0 <= i < b.len() ==> #[trigger] b[i] < 0x80,
    ensures
        spec_cont_count(b, 0, n) == 0,
    decreases n,
{
    if n > 0 {
        lemma_ascii_no_continuation(b, n - 1);
    }
}


impl Input {
    /// Rebuilds an input from its parts, without BOM detection or path
    /// resolution.
    pub fn from_json_parts(css: String, has_bom: bool, file: Option<String>, id: Option<String>) -> (input: Self)
        requires
            spec_fits(css@),
        ensures
            input.wf(),
            input.css_view() == css@,
            input.has_bom() == has_bom,
            input.file() == file,
            input.id() == id,
            input.document_view() is None,
            input.spec_map() is None,
    {
        let line_index = build_line_index(css.as_str());
        let continuation_index = build_continuation_index(css.as_str());
        Input { css, has_bom, document: None, file, id, map: None, line_index, continuation_index }
    }

    /// Whether a byte order mark was stripped.
    pub closed spec fn has_bom(&self) -> bool {
        self.has_bom
    }

    /// The file the CSS came from.
    pub closed spec fn file(&self) -> Option<String> {
        self.file
    }

    /// The placeholder id.
    pub closed spec fn id(&self) -> Option<String> {
        self.id
    }

    /// The characters of the CSS.
    pub closed spec fn css_view(&self) -> Seq<char> {
        self.css@
    }

    /// The enclosing document, if any.
    pub closed spec fn document_view(&self) -> Option<Seq<char>> {
        crate::error::opt_view(self.document)
    }

    /// The CSS being processed, without any BOM.
    pub fn css(&self) -> (r: &str)
        ensures
            r@ == self.css_view(),
            r.spec_bytes() == self.bytes(),
    {
        self.css.as_str()
    }

    /// The enclosing document, or the CSS itself when there is none.
    pub fn document(&self) -> (r: &str)
        ensures
            r@ == match self.document_view() {
                Some(d) => d,
                None => self.css_view(),
            },
    {
        match &self.document {
            Some(document) => document.as_str(),
            None => self.css.as_str(),
        }
    }

    /// Whether a byte order mark was removed from the CSS.
    pub fn bom(&self) -> (r: bool)
        ensures
            r == self.has_bom(),
    {
        self.has_bom
    }

    /// The file the CSS came from, when known.
    pub fn file_name(&self) -> (r: Option<&str>)
        ensures
            crate::node::opt_str_view(r) == crate::error::opt_view(self.file()),
    {
        match &self.file {
            Some(f) => Some(f.as_str()),
            None => None,
        }
    }

    /// The generated id of CSS that came from no file.
    pub fn id_name(&self) -> (r: Option<&str>)
        ensures
            crate::node::opt_str_view(r) == crate::error::opt_view(self.id()),
    {
        match &self.id {
            Some(i) => Some(i.as_str()),
            None => None,
        }
    }

    /// `file` when known, otherwise the generated `id`.
    pub fn from(&self) -> (r: &str)
        ensures
            r@ == match self.file() {
                Some(f) => f@,
                None => match self.id() {
                    Some(i) => i@,
                    None => "<input css>"@,
                },
            },
    {
        match &self.file {
            Some(file) => file.as_str(),
            None => match &self.id {
                Some(id) => id.as_str(),
                None => "<input css>",
            },
        }
    }

    /// The source map found for this input, if any.
    pub fn previous_map(&self) -> (r: Option<&PreviousMap>)
        ensures
            match r {
                Some(m) => self.spec_map() == Some(*m),
                None => self.spec_map() is None,
            },
    {
        match &self.map {
            Some(m) => Some(m),
            None => None,
        }
    }

    /// Number of bytes of CSS.
    pub fn css_len(&self) -> (n: usize)
        ensures
            n == self.bytes().len(),
    {
        self.css.as_str().as_bytes().len()
    }

    /// Converts a byte offset into a 1-based line and character column.
    pub fn from_offset(&self, offset: usize) -> (r: (usize, usize))
        requires
            self.wf(),
        ensures
            (r.0 as int, r.1 as int) == spec_line_col(self.bytes(), offset as int),
    {
        let len = self.css_len();
        let offset = if offset < len { offset } else { len };
        let ghost b = self.bytes();
        proof {
            lemma_line_starts(b, len as int);
            lemma_line_starts(b, offset as int);
            lemma_line_starts_prefix(b, offset as int, len as int);
        }
        let ghost starts = spec_line_starts(b, len as int);
        // Largest line start not after `offset`.
        let mut lo: usize = 0;
        let mut hi: usize = self.line_index.len();
        while lo + 1 < hi
            invariant
                self.wf(),
                b == self.bytes(),
                starts == spec_line_starts(b, len as int),
                offset <= len,
                len == b.len(),
                hi <= self.line_index@.len(),
                lo < hi,
                self.line_index@[lo as int] <= offset,
                hi < self.line_index@.len() ==> self.line_index@[hi as int] > offset,
                forall|i: int, j: int| 0 <= i < j < starts.len() ==> #[trigger] starts[i] < #[trigger] starts[j],
            decreases hi - lo,
        {
            let mid = lo + (hi - lo) / 2;
            assert(self.line_index@[mid as int] as int == starts[mid as int]);
            if self.line_index[mid] <= offset {
                lo = mid;
            } else {
                hi = mid;
            }
        }
        proof {
            let n = spec_line_starts(b, offset as int).len();
            // The starts not after `offset` are exactly those of the prefix.
            assert(self.line_index@[lo as int] as int == starts[lo as int]);
            if lo + 1 < n {
                assert(starts[lo + 1] == spec_line_starts(b, offset as int)[lo + 1]);
                assert(starts[lo + 1] <= offset);
                if hi < self.line_index@.len() {
                    assert(self.line_index@[hi as int] as int == starts[hi as int]);
                    if hi > lo + 1 {
                        assert(starts[lo + 1] < starts[hi as int]);
                    }
                }
                assert(false);
            }
            if lo + 1 > n {
                assert(starts[lo as int] > offset);
            }
            assert(lo + 1 == n);
            assert(starts[lo as int] == spec_line_start(b, offset as int));
        }
        let line_start = self.line_index[lo];
        let column = self.chars_between(line_start, offset) + 1;
        (lo + 1, column)
    }

    /// Number of characters in `css[start..end]`, in constant time.
    fn chars_between(&self, start: usize, end: usize) -> (n: usize)
        requires
            self.wf(),
            start <= end <= self.bytes().len(),
        ensures
            n as int == spec_char_count(self.bytes(), start as int, end as int),
    {
        proof {
            lemma_cont_count_split(self.bytes(), 0, start as int, end as int);
            lemma_cont_count_bound(self.bytes(), start as int, end as int);
        }
        let bytes = end - start;
        match &self.continuation_index {
            None => {
                proof {
                    lemma_cont_count_split(self.bytes(), 0, end as int, self.bytes().len() as int);
                }
                bytes
            },
            Some(index) => {
                let after = self.continuations_before(index, end);
                let before = self.continuations_before(index, start);
                bytes - (after - before)
            },
        }
    }

    /// Continuation bytes in `css[..offset]`: the tabulated count up to the
    /// enclosing block, plus a scan of at most [`CONTINUATION_BLOCK`] bytes.
    fn continuations_before(&self, index: &Vec<u32>, offset: usize) -> (n: usize)
        requires
            self.wf(),
            self.continuation_index == Some(*index),
            offset <= self.bytes().len(),
        ensures
            n as int == spec_cont_count(self.bytes(), 0, offset as int),
    {
        let block = offset / CONTINUATION_BLOCK;
        let tabulated = index[block] as usize;
        let bytes = self.css.as_str().as_bytes();
        let mut i = block * CONTINUATION_BLOCK;
        let mut count = tabulated;
        proof {
            lemma_cont_count_bound(self.bytes(), 0, offset as int);
        }
        while i < offset
            invariant
                block * 256 <= i <= offset,
                offset <= bytes@.len(),
                bytes@ == self.bytes(),
                bytes@.len() < 0x8000_0000,
                count as int == spec_cont_count(bytes@, 0, i as int),
            decreases offset - i,
        {
            proof {
                lemma_cont_count_bound(bytes@, 0, i + 1);
            }
            if is_continuation(bytes[i]) {
                count = count + 1;
            }
            i = i + 1;
        }
        count
    }

    /// Converts a 1-based line and character column into a byte offset.
    pub fn from_line_and_column(&self, line: usize, column: usize) -> (offset: usize)
        requires
            self.wf(),
        ensures
            offset as int == spec_offset_of(self.bytes(), line as int, column as int),
    {
        let len = self.css_len();
        let ghost b = self.bytes();
        proof {
            lemma_line_starts(b, len as int);
        }
        let index = if line > 0 { line - 1 } else { 0 };
        if index >= self.line_index.len() {
            return len;
        }
        let line_start = self.line_index[index];
        assert(line_start as int == spec_line_starts(b, len as int)[index as int]);
        let characters = if column > 0 { column - 1 } else { 0 };
        let bytes = self.css.as_str().as_bytes();
        let mut k = line_start;
        let mut remaining = characters;
        assert(spec_nth_char(b, k as int, remaining as int) == spec_offset_of(b, line as int, column as int));
        while k < len
            invariant
                line_start <= k <= len,
                len == bytes@.len(),
                bytes@ == b,
                b == self.bytes(),
                spec_nth_char(b, k as int, remaining as int) == spec_offset_of(b, line as int, column as int),
            decreases len - k,
        {
            if !is_continuation(bytes[k]) {
                if remaining == 0 {
                    return k;
                }
                remaining = remaining - 1;
            }
            k = k + 1;
        }
        len
    }
}


/// An optional string, copied.
pub fn clone_opt_string(o: &Option<String>) -> (r: Option<String>)
    ensures
        r == *o,
{
    match o {
        Some(s) => Some(s.clone()),
        None => None,
    }
}

/// The `(line, column, offset)` of a location: an offset is converted to its
/// line and column, a line and column to its offset.
pub open spec fn spec_resolve(b: Seq<u8>, loc: Loc) -> (int, int, int) {
    match loc {
        Loc::Offset(o) => {
            let lc = spec_line_col(b, o as int);
            (lc.0, lc.1, o as int)
        },
        Loc::LineCol { line, column } => (line as int, column as int, spec_offset_of(b, line as int, column as int)),
    }
}

/// `e` is the error an input reports for `reason` between `start` and `end`:
/// positioned where the source map, if it covers the start, sends it (with
/// the original file and text), else at the resolved start and end in this
/// CSS; either way recording the position in this CSS as its `input`.
pub open spec fn spec_is_input_error(
    b: Seq<u8>,
    css: Seq<char>,
    file: Option<Seq<char>>,
    map: Option<PreviousMap>,
    e: CssSyntaxError,
    reason: Seq<char>,
    start: Loc,
    end: Option<Loc>,
    plugin: Option<Seq<char>>,
) -> bool {
    let s = spec_resolve(b, start);
    let en = match end {
        Some(l) => Some(spec_resolve(b, l)),
        None => None,
    };
    let origin = spec_origin(map, s.0 as usize, s.1 as usize, match en {
        Some(t) => Some((t.0 as usize, t.1 as usize)),
        None => None,
    });
    &&& e.name@ == "CssSyntaxError"@
    &&& e.reason@ == reason
    &&& match origin {
        Some(o) => {
            &&& e.line == Some(o.3)
            &&& e.column == Some(o.0)
            &&& e.end_line == (match (o.2, o.1) { (Some(l), Some(_)) => Some(l), _ => None })
            &&& e.end_column == (match (o.2, o.1) { (Some(_), Some(c)) => Some(c), _ => None })
            &&& crate::error::opt_view(e.source) == o.5
            &&& crate::error::opt_view(e.file) == o.4
        },
        None => {
            &&& e.line == Some(s.0 as usize)
            &&& e.column == Some(s.1 as usize)
            &&& e.end_line == (match en { Some(t) => Some(t.0 as usize), None => None })
            &&& e.end_column == (match en { Some(t) => Some(t.1 as usize), None => None })
            &&& crate::error::opt_view(e.source) == Some(css)
            &&& crate::error::opt_view(e.file) == file
        },
    }
    &&& crate::error::opt_view(e.plugin) == plugin
    &&& e.message@ == e.spec_message()
    &&& e.input matches Some(i) && {
        &&& i.line as int == s.0
        &&& i.column as int == s.1
        &&& i.offset as int == s.2
        &&& i.end_line == (match en { Some(t) => Some(t.0 as usize), None => None })
        &&& i.end_column == (match en { Some(t) => Some(t.1 as usize), None => None })
        &&& i.end_offset == (match en { Some(t) => Some(t.2 as usize), None => None })
        &&& crate::error::opt_view(i.file) == file
        &&& i.source@ == css
        &&& crate::error::opt_view(i.url) == (match file {
            Some(f) => Some(spec_path_to_file_url(vstd::utf8::encode_utf8(f))),
            None => None,
        })
    }
}

/// A position resolved through a previous source map.
#[derive(Clone, Debug)]
pub struct Origin {
    /// 1-based character column in the original file.
    pub column: usize,
    /// 1-based character column of the range end.
    pub end_column: Option<usize>,
    /// 1-based line of the range end.
    pub end_line: Option<usize>,
    /// 1-based line in the original file.
    pub line: usize,
    /// Filesystem path, when the resolved URL is a `file:` URL.
    pub file: Option<String>,
    /// Original source text, when the map embeds it.
    pub source: Option<String>,
    /// URL of the original file, resolved against the map's location.
    pub url: String,
}

/// An origin as plain values: column, end column, end line, line, file,
/// source text and URL.
pub type OriginView = (usize, Option<usize>, Option<usize>, usize, Option<Seq<char>>, Option<Seq<char>>, Seq<char>);

/// The view of an origin.
pub open spec fn spec_origin_view(o: Origin) -> OriginView {
    (o.column, o.end_column, o.end_line, o.line, crate::error::opt_view(o.file), crate::error::opt_view(o.source), o.url@)
}

/// The URL of an original source: a `file:` URL for an absolute path, else
/// the source resolved against the map's source root, or the URL of the CSS
/// file the map belongs to.
pub open spec fn spec_origin_url(map_file: Option<Seq<char>>, root: Option<Seq<char>>, source: Seq<char>) -> Seq<char> {
    if crate::paths::spec_is_absolute(source) {
        spec_path_to_file_url(vstd::utf8::encode_utf8(source))
    } else {
        let base = match root {
            Some(r) => r,
            None => match map_file {
                Some(f) => spec_path_to_file_url(vstd::utf8::encode_utf8(f)),
                None => Seq::empty(),
            },
        };
        spec_resolve_url(base, source)
    }
}

/// A URL whose `file:` path decodes without cutting a character in half.
pub open spec fn spec_url_decodable(url: Seq<char>) -> bool {
    crate::text::spec_strip_prefix(url, "file://"@) matches Some(rest) ==> crate::previous_map::spec_uri_sliceable(
        vstd::utf8::encode_utf8(rest),
    )
}

/// Following a generated position back through the map cannot fail: when
/// the map gives an origin, its column (and that of the end, if any) leaves
/// room for one more, and its URL's `file:` path decodes without cutting a
/// character in half.
pub open spec fn spec_origin_followable(map: Option<PreviousMap>, line: usize, column: usize, end: Option<(usize, usize)>) -> bool {
    match map {
        None => true,
        Some(m) => match m.consumer {
            None => true,
            Some(c) => match c.spec_lookup(line, spec_sat_dec(column)) {
                None => true,
                Some(mm) => match (c.spec_source_at(mm.source), mm.original_line, mm.original_column) {
                    (Some(source), Some(_), Some(fc)) => {
                        &&& fc < usize::MAX
                        &&& spec_url_decodable(spec_origin_url(crate::error::opt_view(m.file), c.spec_root(), source))
                        &&& (end matches Some((el, ec)) ==> (c.spec_lookup(el, spec_sat_dec(ec)) matches Some(t) ==> (
                        c.spec_source_at(t.source) is Some ==> (t.original_column matches Some(x) ==> x < usize::MAX))))
                    },
                    _ => true,
                },
            },
        },
    }
}

/// One less, but not below zero.
pub open spec fn spec_sat_dec(x: usize) -> usize {
    if x > 0 { (x - 1) as usize } else { 0 }
}

/// Where the source map sends a generated position (1-based line and
/// column) and an optional end: nowhere without a map, a parsed map, or a
/// mapping for the start that has a source, line and column; the end
/// counts only when a mapping with a source covers it.
pub open spec fn spec_origin(map: Option<PreviousMap>, line: usize, column: usize, end: Option<(usize, usize)>) -> Option<OriginView> {
    match map {
        None => None,
        Some(m) => match m.consumer {
            None => None,
            Some(c) => match c.spec_lookup(line, spec_sat_dec(column)) {
                None => None,
                Some(mm) => match (c.spec_source_at(mm.source), mm.original_line, mm.original_column) {
                    (Some(source), Some(fl), Some(fc)) => {
                        let to = match end {
                            Some((el, ec)) => match c.spec_lookup(el, spec_sat_dec(ec)) {
                                Some(t) => if c.spec_source_at(t.source) is Some {
                                    Some(t)
                                } else {
                                    None
                                },
                                None => None,
                            },
                            None => None,
                        };
                        let url = spec_origin_url(crate::error::opt_view(m.file), c.spec_root(), source);
                        Some(
                            (
                                (fc + 1) as usize,
                                match to {
                                    Some(t) => match t.original_column {
                                        Some(x) => Some((x + 1) as usize),
                                        None => None,
                                    },
                                    None => None,
                                },
                                match to {
                                    Some(t) => t.original_line,
                                    None => None,
                                },
                                fl,
                                spec_file_url_to_path(url),
                                c.spec_source_content(source),
                                url,
                            ),
                        )
                    },
                    _ => None,
                },
            },
        },
    }
}

impl Input {
    /// The error this input reports for `reason` between `start` and `end`.
    pub open spec fn is_error(&self, e: CssSyntaxError, reason: Seq<char>, start: Loc, end: Option<Loc>, plugin: Option<Seq<char>>) -> bool {
        spec_is_input_error(self.bytes(), self.css_view(), crate::error::opt_view(self.file()), self.spec_map(), e, reason, start, end, plugin)
    }

    /// Reporting an error between `start` and `end` can follow the source
    /// map back without failing.
    pub open spec fn error_followable(&self, start: Loc, end: Option<Loc>) -> bool {
        let s = spec_resolve(self.bytes(), start);
        spec_origin_followable(self.spec_map(), s.0 as usize, s.1 as usize, match end {
            Some(l) => {
                let t = spec_resolve(self.bytes(), l);
                Some((t.0 as usize, t.1 as usize))
            },
            None => None,
        })
    }

    /// Maps a generated position back through this input's source map.
    pub fn origin(&self, line: usize, column: usize, end: Option<(usize, usize)>) -> (r: Option<Origin>)
        requires
            self.wf(),
            spec_origin_followable(self.spec_map(), line, column, end),
        ensures
            match r {
                Some(o) => spec_origin(self.spec_map(), line, column, end) == Some(spec_origin_view(o)),
                None => spec_origin(self.spec_map(), line, column, end) is None,
            },
    {
        let map = match &self.map {
            Some(m) => m,
            None => {
                return None;
            },
        };
        let consumer = match map.consumer() {
            Some(c) => c,
            None => {
                return None;
            },
        };
        let col0 = if column > 0 { column - 1 } else { 0 };
        let from = consumer.original_position_for(line, col0);
        let source = match from.source {
            Some(s) => s,
            None => {
                return None;
            },
        };
        let from_line = match from.line {
            Some(l) => l,
            None => {
                return None;
            },
        };
        let from_column = match from.column {
            Some(c) => c,
            None => {
                return None;
            },
        };
        let to = match end {
            Some((end_line, end_column)) => {
                let ec0 = if end_column > 0 { end_column - 1 } else { 0 };
                let position = consumer.original_position_for(end_line, ec0);
                if position.source.is_some() {
                    Some(position)
                } else {
                    None
                }
            },
            None => None,
        };
        let source_chars = crate::text::chars_of(source.as_str());
        let url = if source_chars.len() > 0 && source_chars[0] == '/' {
            path_to_file_url(source.as_str())
        } else {
            let base = match consumer.source_root_str() {
                Some(r) => crate::text::to_owned_string(r),
                None => match &map.file {
                    Some(f) => path_to_file_url(f.as_str()),
                    None => String::new(),
                },
            };
            resolve_url(base.as_str(), source.as_str())
        };
        let file = file_url_to_path(url.as_str());
        let content = match consumer.source_content_for(source.as_str()) {
            Some(c) => Some(crate::text::to_owned_string(c)),
            None => None,
        };
        let end_column = match &to {
            Some(t) => match t.column {
                Some(c) => Some(c + 1),
                None => None,
            },
            None => None,
        };
        let end_line = match &to {
            Some(t) => t.line,
            None => None,
        };
        Some(Origin { column: from_column + 1, end_column, end_line, line: from_line, file, source: content, url })
    }

    fn resolve_loc(&self, loc: Loc) -> (r: (usize, usize, usize))
        requires
            self.wf(),
        ensures
            (r.0 as int, r.1 as int, r.2 as int) == spec_resolve(self.bytes(), loc),
    {
        match loc {
            Loc::Offset(offset) => {
                let (line, column) = self.from_offset(offset);
                (line, column, offset)
            },
            Loc::LineCol { line, column } => (line, column, self.from_line_and_column(line, column)),
        }
    }

    fn build_error(&self, message: String, start: Loc, end: Option<Loc>, plugin: Option<String>) -> (e: CssSyntaxError)
        requires
            self.wf(),
            self.error_followable(start, end),
        ensures
            self.is_error(e, message@, start, end, crate::error::opt_view(plugin)),
    {
        let (line, column, offset) = self.resolve_loc(start);
        let end = match end {
            Some(l) => Some(self.resolve_loc(l)),
            None => None,
        };
        let origin = self.origin(line, column, match end {
            Some((l, c, _)) => Some((l, c)),
            None => None,
        });
        let mut error = match origin {
            Some(o) => CssSyntaxError::with_position(
                message,
                Some(Pos { line: o.line, column: o.column }),
                match (o.end_line, o.end_column) {
                    (Some(l), Some(c)) => Some(Pos { line: l, column: c }),
                    _ => None,
                },
                o.source,
                o.file,
                plugin,
            ),
            None => CssSyntaxError::with_position(
                message,
                Some(Pos { line, column }),
                match end {
                    Some((l, c, _)) => Some(Pos { line: l, column: c }),
                    None => None,
                },
                Some(self.css.clone()),
                clone_opt_string(&self.file),
                plugin,
            ),
        };
        let url = match &self.file {
            Some(f) => Some(path_to_file_url(f.as_str())),
            None => None,
        };
        error.input = Some(
            ErrorInput {
                column,
                end_column: match end { Some((_, c, _)) => Some(c), None => None },
                end_line: match end { Some((l, _, _)) => Some(l), None => None },
                end_offset: match end { Some((_, _, o)) => Some(o), None => None },
                file: clone_opt_string(&self.file),
                line,
                offset,
                source: self.css.clone(),
                url,
            },
        );
        error
    }

    /// Builds an error at a byte offset, without an end position.
    pub fn error_at_offset(&self, message: String, offset: usize) -> (e: CssSyntaxError)
        requires
            self.wf(),
            self.error_followable(Loc::Offset(offset), None),
        ensures
            self.is_error(e, message@, Loc::Offset(offset), None, None),
    {
        self.build_error(message, Loc::Offset(offset), None, None)
    }

    /// Builds an error at a line and column, without an end position.
    pub fn error_at_line_col(&self, message: String, line: usize, column: usize) -> (e: CssSyntaxError)
        requires
            self.wf(),
            self.error_followable(Loc::LineCol { line, column }, None),
        ensures
            self.is_error(e, message@, Loc::LineCol { line, column }, None, None),
    {
        self.build_error(message, Loc::LineCol { line, column }, None, None)
    }

    /// Builds an error covering a range.
    pub fn error_range(&self, message: String, start: Loc, end: Loc, plugin: Option<&str>) -> (e: CssSyntaxError)
        requires
            self.wf(),
            self.error_followable(start, Some(end)),
        ensures
            self.is_error(e, message@, start, Some(end), match plugin { Some(p) => Some(p@), None => None }),
    {
        let plugin = match plugin {
            Some(p) => Some(crate::text::to_owned_string(p)),
            None => None,
        };
        self.build_error(message, start, Some(end), plugin)
    }
}



/// Text whose UTF-8 bytes fit an input: fewer than 2^31 of them.
pub open spec fn spec_fits(css: Seq<char>) -> bool {
    vstd::utf8::encode_utf8(css).len() < 0x8000_0000
}

/// Each character takes at least one byte, so a text has no more
/// characters than bytes, and dropping its first character drops bytes.
pub proof fn lemma_encode_utf8_len_ge(chars: Seq<char>)
    ensures
        chars.len() <= vstd::utf8::encode_utf8(chars).len(),
        chars.len() > 0 ==> vstd::utf8::encode_utf8(chars.drop_first()).len() < vstd::utf8::encode_utf8(
            chars,
        ).len(),
    decreases chars.len(),
{
    if chars.len() > 0 {
        lemma_encode_utf8_len_ge(chars.drop_first());
        assert(vstd::utf8::encode_scalar(chars[0] as u32).len() >= 1);
    }
}

/// Text that fits an input still fits once its byte order mark is gone,
/// and has fewer than 2^31 characters.
pub proof fn lemma_fits(css: Seq<char>)
    requires
        spec_fits(css),
    ensures
        spec_fits(spec_strip_bom(css).0),
        css.len() < 0x8000_0000,
        spec_strip_bom(css).0.len() < 0x8000_0000,
{
    lemma_encode_utf8_len_ge(css);
    lemma_encode_utf8_len_ge(spec_strip_bom(css).0);
}

/// Whether a byte is kept as is in a `file:` URL.
pub open spec fn spec_url_safe(b: u8) -> bool {
    b == 47 || b == 45 || b == 95 || b == 46 || b == 126 || b == 33 || b == 36 || b == 38 || b == 39
        || b == 40 || b == 41 || b == 42 || b == 43 || b == 44 || b == 61 || b == 64 || b == 58
        || (65 <= b <= 90) || (97 <= b <= 122) || (48 <= b <= 57)
}

/// An upper-case hex digit.
pub open spec fn spec_hex_digit(v: int) -> char {
    if v < 10 {
        (48 + v) as char
    } else {
        (55 + v) as char
    }
}

/// `%XX` for a byte.
pub open spec fn spec_percent(b: u8) -> Seq<char> {
    seq!['%', spec_hex_digit((b / 16) as int), spec_hex_digit((b % 16) as int)]
}

/// Percent-encoding of the bytes of a path, keeping the bytes Node keeps.
pub open spec fn spec_percent_encode(bytes: Seq<u8>) -> Seq<char>
    decreases bytes.len(),
{
    if bytes.len() == 0 {
        Seq::empty()
    } else {
        let rest = spec_percent_encode(bytes.drop_last());
        let b = bytes.last();
        if spec_url_safe(b) {
            rest.push(b as char)
        } else {
            rest + spec_percent(b)
        }
    }
}

/// `pathToFileURL()`: `file://` and the percent-encoded path.
pub open spec fn spec_path_to_file_url(path: Seq<u8>) -> Seq<char> {
    "file://"@ + spec_percent_encode(path)
}

fn hex_digit(v: u8) -> (c: char)
    requires
        v < 16,
    ensures
        c == spec_hex_digit(v as int),
{
    if v < 10 {
        ((48 + v) as u8) as char
    } else {
        ((55 + v) as u8) as char
    }
}

/// `pathToFileURL()`: percent-encodes the characters Node encodes.
pub fn path_to_file_url(path: &str) -> (url: String)
    ensures
        url@ == spec_path_to_file_url(path.spec_bytes()),
{
    let mut url = String::new();
    push_str(&mut url, "file://");
    let bytes = path.as_bytes();
    let mut i: usize = 0;
    while i < bytes.len()
        invariant
            i <= bytes@.len(),
            url@ == "file://"@ + spec_percent_encode(bytes@.subrange(0, i as int)),
        decreases bytes.len() - i,
    {
        let byte = bytes[i];
        let ghost prefix = bytes@.subrange(0, i as int);
        assert(bytes@.subrange(0, i + 1).drop_last() =~= prefix);
        if byte == 47 || byte == 45 || byte == 95 || byte == 46 || byte == 126 || byte == 33 || byte == 36
            || byte == 38 || byte == 39 || byte == 40 || byte == 41 || byte == 42 || byte == 43 || byte
            == 44 || byte == 61 || byte == 64 || byte == 58 || (65 <= byte && byte <= 90) || (97 <= byte
            && byte <= 122) || (48 <= byte && byte <= 57) {
            push_char(&mut url, byte as char);
        } else {
            push_char(&mut url, '%');
            push_char(&mut url, hex_digit(byte / 16));
            push_char(&mut url, hex_digit(byte % 16));
        }
        i = i + 1;
    }
    assert(bytes@.subrange(0, bytes@.len() as int) =~= bytes@);
    url
}


/// A URL: a scheme of ASCII alphanumerics, at least one, before `://`.
pub open spec fn spec_is_url(path: Seq<char>) -> bool {
    match crate::text::spec_find(path, "://"@) {
        Some(i) => i > 0 && crate::text::spec_all_alnum(path.subrange(0, i)),
        None => false,
    }
}

/// Whether a path is a URL rather than a file path.
pub fn is_url(path: &str) -> (r: bool)
    ensures
        r == spec_is_url(path@),
{
    let chars = crate::text::chars_of(path);
    let pat = crate::text::chars_of("://");
    proof {
        crate::text::lemma_find_from_bounds(chars@, pat@, 0);
    }
    match crate::text::find(&chars, &pat, 0) {
        Some(index) => {
            if index == 0 {
                return false;
            }
            let mut i: usize = 0;
            while i < index
                invariant
                    i <= index,
                    index <= chars@.len(),
                    chars@ == path@,
                    crate::text::spec_find(path@, "://"@) == Some(index as int),
                    forall|k: int| 0 <= k < i ==> crate::text::spec_is_ascii_alnum(#[trigger] chars@[k]),
                decreases index - i,
            {
                let c = chars[i];
                if !(('0' <= c && c <= '9') || ('a' <= c && c <= 'z') || ('A' <= c && c <= 'Z')) {
                    assert(chars@.subrange(0, index as int)[i as int] == c);
                    assert(!crate::text::spec_is_ascii_alnum(chars@.subrange(0, index as int)[i as int]));
                    return false;
                }
                i = i + 1;
            }
            assert(crate::text::spec_all_alnum(chars@.subrange(0, index as int)));
            true
        },
        None => false,
    }
}

/// Inverse of `path_to_file_url`: the path of a `file://` URL, its `%XX`
/// escapes turned back into bytes and the bytes read as UTF-8; `None` for
/// other schemes.
pub open spec fn spec_file_url_to_path(url: Seq<char>) -> Option<Seq<char>> {
    match crate::text::spec_strip_prefix(url, "file://"@) {
        Some(rest) => Some(crate::previous_map::spec_decode_uri_component(rest)),
        None => None,
    }
}

/// Inverse of [`path_to_file_url`], returning `None` for other schemes.
pub fn file_url_to_path(url: &str) -> (r: Option<String>)
    requires
        crate::text::spec_strip_prefix(url@, "file://"@) matches Some(rest) ==> crate::previous_map::spec_uri_sliceable(
            vstd::utf8::encode_utf8(rest),
        ),
    ensures
        crate::error::opt_view(r) == spec_file_url_to_path(url@),
        crate::text::spec_strip_prefix(url@, "file://"@) matches Some(rest) ==> (vstd::utf8::valid_utf8(
            crate::previous_map::spec_unescape_from(vstd::utf8::encode_utf8(rest), 0),
        ) ==> (r matches Some(p) && p@ == vstd::utf8::decode_utf8(
            crate::previous_map::spec_unescape_from(vstd::utf8::encode_utf8(rest), 0),
        ))),
{
    let chars = crate::text::chars_of(url);
    let prefix = crate::text::chars_of("file://");
    assert(chars@.subrange(0, chars@.len() as int) =~= chars@);
    if !crate::text::starts_with_at(&chars, &prefix, 0) {
        return None;
    }
    let rest_chars = crate::text::slice_chars(&chars, prefix.len(), chars.len());
    let rest = crate::text::string_of(&rest_chars);
    Some(crate::previous_map::decode_uri_component(rest.as_str()))
}

/// Resolves `source` against `base`, which may be a URL or a path: a URL
/// source stays, an empty base leaves the source, else the source is joined
/// to the base's directory (everything before its last `/`).
pub open spec fn spec_resolve_url(base: Seq<char>, source: Seq<char>) -> Seq<char> {
    if spec_is_url(source) || base.len() == 0 {
        source
    } else {
        let dir = match crate::text::spec_rfind_char(base, '/') {
            Some(i) => base.subrange(0, i),
            None => Seq::empty(),
        };
        crate::source_map::spec_join_path(dir, source)
    }
}

/// Resolves `source` against `base`, which may be a URL or a path.
pub fn resolve_url(base: &str, source: &str) -> (r: String)
    ensures
        r@ == spec_resolve_url(base@, source@),
{
    if is_url(source) {
        return crate::text::to_owned_string(source);
    }
    let base_chars = crate::text::chars_of(base);
    if base_chars.len() == 0 {
        return crate::text::to_owned_string(source);
    }
    let dir = match crate::text::rfind_char(&base_chars, '/') {
        Some(i) => crate::text::slice_chars(&base_chars, 0, i),
        None => Vec::new(),
    };
    let dir = crate::text::string_of(&dir);
    crate::source_map::join_path(dir.as_str(), source)
}


/// The alphabet placeholder ids are drawn from.
pub open spec fn spec_id_alphabet() -> Seq<char> {
    "useandom26T198340PX75pxJACKVERYMINDBUSHWOLFGQZbfghjklqvwyzrict"@
}

/// One xorshift step.
pub open spec fn spec_xorshift(s: u64) -> u64 {
    let a = s ^ (s << 13u64);
    let b = a ^ (a >> 7u64);
    b ^ (b << 17u64)
}

/// `n` characters drawn from the alphabet by xorshift steps from `state`,
/// and the state after them.
pub open spec fn spec_random_chars(state: u64, n: nat) -> (Seq<char>, u64)
    decreases n,
{
    if n == 0 {
        (Seq::empty(), state)
    } else {
        let (prev, st) = spec_random_chars(state, (n - 1) as nat);
        let next = spec_xorshift(st);
        (prev.push(spec_id_alphabet()[(next % 62) as int]), next)
    }
}

/// The placeholder id of an input without a file: six characters drawn
/// from the alphabet, seeded by `seed`.
pub open spec fn spec_placeholder_id(seed: u64) -> Seq<char> {
    "<input css "@ + spec_random_chars(seed, 6).0 + ">"@
}

/// The system clock's reading, as std gives it.
#[verifier::external_type_specification]
#[verifier::external_body]
pub struct ExSystemTime(std::time::SystemTime);

/// A clock reading before the epoch, as std reports it.
#[verifier::external_type_specification]
#[verifier::external_body]
pub struct ExSystemTimeError(std::time::SystemTimeError);

/// Wraps `SystemTime::now`: what it returns depends on the clock, so
/// nothing is said of it.
#[verifier::external_body]
fn clock_now() -> (r: std::time::SystemTime) {
    std::time::SystemTime::now()
}

/// Wraps `SystemTime::duration_since` with `UNIX_EPOCH` as the earlier
/// time: an error when the reading lies before the epoch. Nothing is said
/// of the duration, which depends on the reading.
#[verifier::external_body]
fn since_epoch(t: &std::time::SystemTime) -> (r: Result<std::time::Duration, std::time::SystemTimeError>) {
    t.duration_since(std::time::UNIX_EPOCH)
}

/// Wraps `Duration::as_nanos`: the whole duration in nanoseconds. Nothing
/// is said of the value, since the library draws on it only as a seed.
#[verifier::external_body]
fn duration_nanos(d: &std::time::Duration) -> (r: u128) {
    d.as_nanos()
}

/// A random seed: the clock (or a fixed value without one), made odd.
fn random_seed() -> (r: u64)
    ensures
        r % 2 == 1,
{
    let now = clock_now();
    match since_epoch(&now) {
        Ok(d) => {
            let n = duration_nanos(&d);
            let t = n as u64;
            assert((t | 1) % 2 == 1) by (bit_vector);
            t | 1
        },
        Err(_) => {
            assert((0x2545_F491_4F6C_DD1Du64 | 1) % 2 == 1) by (bit_vector);
            0x2545_F491_4F6C_DD1D | 1
        },
    }
}

/// Six random characters for a placeholder id, from `seed`; also gives the
/// state after them.
pub fn random_id(seed: u64) -> (r: (String, u64))
    ensures
        r.0@ == spec_random_chars(seed, 6).0,
        r.1 == spec_random_chars(seed, 6).1,
{
    let alphabet = crate::text::chars_of("useandom26T198340PX75pxJACKVERYMINDBUSHWOLFGQZbfghjklqvwyzrict");
    proof {
        reveal_strlit("useandom26T198340PX75pxJACKVERYMINDBUSHWOLFGQZbfghjklqvwyzrict");
    }
    let mut id = String::new();
    let mut state = seed;
    let mut i: usize = 0;
    while i < 6
        invariant
            i <= 6,
            alphabet@ == spec_id_alphabet(),
            alphabet@.len() == 62,
            (id@, state) == spec_random_chars(seed, i as nat),
        decreases 6 - i,
    {
        state = state ^ (state << 13u64);
        state = state ^ (state >> 7u64);
        state = state ^ (state << 17u64);
        push_char(&mut id, alphabet[(state % 62) as usize]);
        i = i + 1;
    }
    (id, state)
}

/// The CSS without a leading byte order mark (U+FEFF, or U+FFFE left by a
/// lossy decode), and whether there was one.
pub open spec fn spec_strip_bom(css: Seq<char>) -> (Seq<char>, bool) {
    if css.len() > 0 && (css[0] == '\u{feff}' || css[0] == '\u{fffe}') {
        (css.drop_first(), true)
    } else {
        (css, false)
    }
}

/// Removes a leading byte order mark.
pub fn strip_bom(css: &str) -> (r: (String, bool))
    ensures
        (r.0@, r.1) == spec_strip_bom(css@),
{
    let chars = crate::text::chars_of(css);
    if chars.len() > 0 && (chars[0] == '\u{feff}' || chars[0] == '\u{fffe}') {
        let rest = crate::text::string_from_chars(&chars, 1, chars.len());
        assert(rest@ =~= css@.drop_first());
        (rest, true)
    } else {
        let all = crate::text::string_of(&chars);
        (all, false)
    }
}

/// The file of an input: a URL or absolute path as given, else resolved
/// against the working directory.
pub open spec fn spec_input_file(from: Seq<char>, cwd: Option<Seq<char>>) -> Seq<char> {
    if spec_is_url(from) || crate::paths::spec_is_absolute(from) {
        from
    } else {
        crate::paths::spec_absolute_path(from, cwd)
    }
}

impl Input {
    /// Creates an input from CSS and options, given the previous source map
    /// found for the CSS (without its BOM) and the working directory.
    ///
    /// A map is kept only when it has text; its generated file then names
    /// this input's file when none was given. An input without a file gets
    /// a random placeholder id.
    pub fn new(css: &str, opts: &InputOptions, map: Option<PreviousMap>, cwd: Option<&str>) -> (input: Self)
        requires
            spec_fits(css@),
            map matches Some(m) ==> m.wf(),
        ensures
            input.wf(),
            input.css_view() == spec_strip_bom(css@).0,
            input.has_bom() == spec_strip_bom(css@).1,
            input.document_view() == crate::error::opt_view(opts.document),
            ({
                let cwd_v = match cwd {
                    Some(c) => Some(c@),
                    None => None,
                };
                let kept = match map {
                    Some(m) => if m.text is Some { Some(m) } else { None },
                    None => None,
                };
                let file = match opts.from {
                    Some(f) => Some(spec_input_file(f@, cwd_v)),
                    None => match kept {
                        Some(m) => match m.consumer {
                            Some(c) => match c.spec_file() {
                                Some(f) => Some(m.spec_resolve(f, cwd_v)),
                                None => None,
                            },
                            None => None,
                        },
                        None => None,
                    },
                };
                &&& crate::error::opt_view(input.file()) == file
                &&& (file is None <==> input.id() is Some)
                &&& (input.id() matches Some(i) ==> exists|seed: u64| i@ == spec_placeholder_id(seed))
                &&& match kept {
                    None => input.spec_map() is None,
                    Some(m) => input.spec_map() matches Some(k) && {
                        &&& k.annotation == m.annotation
                        &&& k.inline == m.inline
                        &&& k.text == m.text
                        &&& k.map_file == m.map_file
                        &&& k.root == m.root
                        &&& k.parse_error == m.parse_error
                        &&& k.consumer == m.consumer
                        &&& crate::error::opt_view(k.file) == match file {
                            Some(f) => Some(f),
                            None => crate::error::opt_view(input.id()),
                        }
                    },
                }
            }),
    {
        let (stripped, has_bom) = strip_bom(css);
        proof {
            lemma_fits(css@);
        }
        let mut file = match &opts.from {
            Some(from) => if is_url(from.as_str()) || crate::paths::is_absolute_str(from.as_str()) {
                Some(from.clone())
            } else {
                Some(crate::paths::absolute_path(from.as_str(), cwd))
            },
            None => None,
        };
        let kept = match map {
            Some(m) => if m.text.is_some() {
                Some(m)
            } else {
                None
            },
            None => None,
        };
        if file.is_none() {
            match &kept {
                Some(m) => match &m.consumer {
                    Some(c) => match c.file_str() {
                        Some(f) => {
                            file = Some(m.resolve(f, cwd));
                        },
                        None => {},
                    },
                    None => {},
                },
                None => {},
            }
        }
        let id = if file.is_none() {
            let seed = random_seed();
            let (chars, _) = random_id(seed);
            let mut text = crate::text::to_owned_string("<input css ");
            push_str(&mut text, chars.as_str());
            push_str(&mut text, ">");
            assert(text@ == spec_placeholder_id(seed));
            Some(text)
        } else {
            None
        };
        let map = match kept {
            Some(mut m) => {
                m.file = match &file {
                    Some(f) => Some(f.clone()),
                    None => clone_opt_string(&id),
                };
                Some(m)
            },
            None => None,
        };
        let line_index = build_line_index(stripped.as_str());
        let continuation_index = build_continuation_index(stripped.as_str());
        Input {
            css: stripped,
            has_bom,
            document: clone_opt_string(&opts.document),
            file,
            id,
            map,
            line_index,
            continuation_index,
        }
    }

    /// Creates an input from CSS with default options, given the previous
    /// source map found for it.
    pub fn from_css(css: &str, map: Option<PreviousMap>) -> (input: Self)
        requires
            spec_fits(css@),
            map matches Some(m) ==> m.wf(),
        ensures
            input.wf(),
            input.css_view() == spec_strip_bom(css@).0,
            input.has_bom() == spec_strip_bom(css@).1,
            input.document_view() is None,
            map is None ==> input.spec_map() is None,
    {
        let opts = InputOptions::unset();
        Input::new(css, &opts, map, None)
    }
}

proof fn lemma_cont_count_front(b: Seq<u8>, lo: int, hi: int)
    requires
        0 <= lo < hi <= b.len(),
    ensures
        spec_cont_count(b, lo, hi) == spec_cont_count(b, lo + 1, hi) + if spec_is_continuation(b[lo]) {
            1nat
        } else {
            0nat
        },
        spec_cont_count(b, lo, hi) <= hi - lo,
    decreases hi - lo,
{
    assert(spec_cont_count(b, lo, hi) == spec_cont_count(b, lo, hi - 1) + if spec_is_continuation(b[hi - 1]) {
        1nat
    } else {
        0nat
    });
    if hi - 1 > lo {
        lemma_cont_count_front(b, lo, hi - 1);
        assert(spec_cont_count(b, lo + 1, hi) == spec_cont_count(b, lo + 1, hi - 1) + if spec_is_continuation(
            b[hi - 1],
        ) {
            1nat
        } else {
            0nat
        });
    } else {
        assert(spec_cont_count(b, lo, lo) == 0);
        assert(spec_cont_count(b, lo + 1, hi) == 0);
    }
}

proof fn lemma_nth_of_count(b: Seq<u8>, s: int, o: int)
    requires
        0 <= s <= o <= b.len(),
        o == b.len() || !spec_is_continuation(b[o]),
    ensures
        spec_nth_char(b, s, spec_char_count(b, s, o)) == o,
    decreases o - s,
{
    if s < o {
        lemma_cont_count_front(b, s, o);
        lemma_nth_of_count(b, s + 1, o);
        if s + 1 < o {
            lemma_cont_count_front(b, s + 1, o);
        }
    }
}

/// Reading the line and column of an offset that starts a character (or
/// ends the input) back as an offset gives the offset again.
pub proof fn lemma_offset_round_trip(b: Seq<u8>, o: int)
    requires
        0 <= o <= b.len(),
        o == b.len() || !spec_is_continuation(b[o]),
    ensures
        spec_offset_of(b, spec_line_col(b, o).0, spec_line_col(b, o).1) == o,
{
    lemma_line_starts(b, o);
    lemma_line_starts(b, b.len() as int);
    lemma_line_starts_prefix(b, o, b.len() as int);
    let index = spec_newlines(b, o) as int;
    assert(spec_line_starts(b, b.len() as int)[index] == spec_line_starts(b, o)[index]);
    let start = spec_line_start(b, o);
    assert(0 <= start <= o);
    if start < o {
        lemma_cont_count_front(b, start, o);
    } else {
        assert(spec_cont_count(b, start, o) == 0);
    }
    assert(spec_char_count(b, start, o) >= 0);
    assert(spec_line_col(b, o).0 == index + 1);
    assert(spec_line_col(b, o).1 == spec_char_count(b, start, o) + 1);
    lemma_nth_of_count(b, start, o);
}

/// The bytes of a percent-encoded path, each character one byte.
pub open spec fn spec_url_bytes(bytes: Seq<u8>) -> Seq<u8> {
    spec_percent_encode(bytes).map_values(|c: char| c as u8)
}

proof fn lemma_percent_encode_ascii(bytes: Seq<u8>)
    ensures
        vstd::utf8::is_ascii_chars(spec_percent_encode(bytes)),
        spec_url_bytes(bytes).len() == spec_percent_encode(bytes).len(),
    decreases bytes.len(),
{
    if bytes.len() > 0 {
        lemma_percent_encode_ascii(bytes.drop_last());
        let rest = spec_percent_encode(bytes.drop_last());
        let b = bytes.last();
        if spec_url_safe(b) {
            assert forall|i: int| 0 <= i < rest.push(b as char).len() implies ((#[trigger] rest.push(b as char)[i]) as u32)
                < 128 by {
                if i < rest.len() {
                    assert(rest.push(b as char)[i] == rest[i]);
                }
            }
        } else {
            let hi = (b / 16) as int;
            let lo = (b % 16) as int;
            let q = rest + spec_percent(b);
            assert forall|i: int| 0 <= i < q.len() implies ((#[trigger] q[i]) as u32) < 128 by {
                if i < rest.len() {
                    assert(q[i] == rest[i]);
                }
            }
        }
    }
}

proof fn lemma_hex_pair(b: u8)
    ensures
        spec_parse_hex_pair_of(b) == Some(b),
{
    let hi = (b / 16) as int;
    let lo = (b % 16) as int;
    assert(16 * hi + lo == b) by (nonlinear_arith)
        requires
            hi == b / 16,
            lo == b % 16,
    ;
}

/// The pair of hex digits of a byte, parsed back.
pub open spec fn spec_parse_hex_pair_of(b: u8) -> Option<u8> {
    crate::previous_map::spec_parse_hex_pair(
        spec_hex_digit((b / 16) as int) as u8,
        spec_hex_digit((b % 16) as int) as u8,
    )
}

proof fn lemma_unescape_encoded(x: Seq<u8>, i: int, a: Seq<u8>)
    requires
        0 <= i,
        i + spec_url_bytes(a).len() <= x.len(),
        x.subrange(i, i + spec_url_bytes(a).len()) == spec_url_bytes(a),
    ensures
        crate::previous_map::spec_unescape_from(x, i) == a + crate::previous_map::spec_unescape_from(
            x,
            i + spec_url_bytes(a).len(),
        ),
    decreases a.len(),
{
    lemma_percent_encode_ascii(a);
    if a.len() == 0 {
        assert(a + crate::previous_map::spec_unescape_from(x, i) =~= crate::previous_map::spec_unescape_from(x, i));
    } else {
        let a0 = a.drop_last();
        let b = a.last();
        lemma_percent_encode_ascii(a0);
        let n0 = spec_url_bytes(a0).len() as int;
        assert(x.subrange(i, i + n0) =~= spec_url_bytes(a0)) by {
            assert forall|k: int| 0 <= k < n0 implies x.subrange(i, i + n0)[k] == spec_url_bytes(a0)[k] by {
                assert(x.subrange(i, i + spec_url_bytes(a).len())[k] == spec_url_bytes(a)[k]);
                assert(spec_percent_encode(a)[k] == spec_percent_encode(a0)[k]);
            }
        }
        lemma_unescape_encoded(x, i, a0);
        let j = i + n0;
        if spec_url_safe(b) {
            assert(x.subrange(i, i + spec_url_bytes(a).len())[n0] == spec_url_bytes(a)[n0]);
            assert(x[j] == b);
            assert(crate::previous_map::spec_unescape_from(x, j) == seq![b] + crate::previous_map::spec_unescape_from(
                x,
                j + 1,
            ));
        } else {
            lemma_hex_pair(b);
            assert(x.subrange(i, i + spec_url_bytes(a).len())[n0] == spec_url_bytes(a)[n0]);
            assert(x.subrange(i, i + spec_url_bytes(a).len())[n0 + 1] == spec_url_bytes(a)[n0 + 1]);
            assert(x.subrange(i, i + spec_url_bytes(a).len())[n0 + 2] == spec_url_bytes(a)[n0 + 2]);
            assert(x[j] == 37);
            assert(crate::previous_map::spec_unescape_from(x, j) == seq![b] + crate::previous_map::spec_unescape_from(
                x,
                j + 3,
            ));
        }
        assert(a =~= a0 + seq![b]);
    }
}

/// A path made into a `file:` URL reads back as the same path: the URL is
/// `file://` and text whose unescaped bytes are the path's UTF-8 bytes, which
/// decode to the path, and which [`file_url_to_path`] can take.
pub proof fn lemma_file_url_round_trip(path: Seq<char>)
    ensures
        ({
            let rest = spec_percent_encode(vstd::utf8::encode_utf8(path));
            &&& crate::text::spec_strip_prefix(spec_path_to_file_url(vstd::utf8::encode_utf8(path)), "file://"@)
                == Some(rest)
            &&& crate::previous_map::spec_unescape_from(vstd::utf8::encode_utf8(rest), 0) == vstd::utf8::encode_utf8(
                path,
            )
            &&& vstd::utf8::valid_utf8(vstd::utf8::encode_utf8(path))
            &&& vstd::utf8::decode_utf8(vstd::utf8::encode_utf8(path)) == path
            &&& crate::previous_map::spec_uri_sliceable(vstd::utf8::encode_utf8(rest))
        }),
{
    let bytes = vstd::utf8::encode_utf8(path);
    let rest = spec_percent_encode(bytes);
    reveal_strlit("file://");
    assert(crate::text::spec_strip_prefix(spec_path_to_file_url(bytes), "file://"@) == Some(rest)) by {
        assert(spec_path_to_file_url(bytes).subrange(0, 7) =~= "file://"@);
        assert(spec_path_to_file_url(bytes).subrange(7, spec_path_to_file_url(bytes).len() as int) =~= rest);
    }
    lemma_percent_encode_ascii(bytes);
    vstd::utf8::is_ascii_chars_encode_utf8(rest);
    let x = vstd::utf8::encode_utf8(rest);
    assert(x =~= spec_url_bytes(bytes));
    assert(x.subrange(0, spec_url_bytes(bytes).len() as int) =~= spec_url_bytes(bytes));
    lemma_unescape_encoded(x, 0, bytes);
    assert(crate::previous_map::spec_unescape_from(x, x.len() as int) == Seq::<u8>::empty());
    assert(bytes + Seq::<u8>::empty() =~= bytes);
    vstd::utf8::encode_utf8_valid_utf8(path);
    vstd::utf8::encode_utf8_decode_utf8(path);
    assert forall|i: int| 0 <= i && i + 2 < x.len() && #[trigger] x[i] == 37 implies (i + 3 == x.len()
        || !spec_is_continuation(x[i + 3])) by {
        if i + 3 < x.len() {
            assert((rest[i + 3] as u32) < 128);
        }
    }
}

} // verus!
