//! Splitting comma- and space-separated CSS values without breaking strings,
//! functions or escapes.

use vstd::prelude::*;
use crate::text::{chars_of, push_char, spec_trim, trim_to_string};

verus! {

/// What the splitter knows after reading some characters: whether the next
/// one is escaped, the open quote if any, and the depth of parentheses.
pub struct SplitState {
    pub escape: bool,
    pub quote: Option<char>,
    pub func: nat,
}

/// The state after reading one more character.
pub open spec fn spec_split_step(st: SplitState, letter: char) -> SplitState {
    if st.escape {
        SplitState { escape: false, ..st }
    } else if letter == '\\' {
        SplitState { escape: true, ..st }
    } else if st.quote is Some {
        if st.quote == Some(letter) {
            SplitState { quote: None, ..st }
        } else {
            st
        }
    } else if letter == '"' || letter == '\'' {
        SplitState { quote: Some(letter), ..st }
    } else if letter == '(' {
        SplitState { func: st.func + 1, ..st }
    } else if letter == ')' {
        // An unbalanced `)` is ignored rather than going negative.
        SplitState { func: if st.func > 0 { (st.func - 1) as nat } else { 0 }, ..st }
    } else {
        st
    }
}

/// The state after reading the first `n` characters.
pub open spec fn spec_split_state(chars: Seq<char>, n: int) -> SplitState
    decreases n,
{
    if n <= 0 {
        SplitState { escape: false, quote: None, func: 0 }
    } else {
        spec_split_step(spec_split_state(chars, n - 1), chars[n - 1])
    }
}

/// Whether the character at `i` is a top-level separator: not escaped, not
/// quoted, outside parentheses, and not itself a quote, paren or backslash.
pub open spec fn spec_is_split(chars: Seq<char>, i: int, separators: Seq<char>) -> bool {
    let st = spec_split_state(chars, i);
    let letter = chars[i];
    &&& !st.escape
    &&& st.quote is None
    &&& st.func == 0
    &&& letter != '\\' && letter != '"' && letter != '\'' && letter != '(' && letter != ')'
    &&& separators.contains(letter)
}

/// The trimmed parts found in the first `n` characters, and the untrimmed
/// text read since the last separator. A separator closes the pending part
/// unless it is empty.
pub open spec fn spec_split_parts(chars: Seq<char>, separators: Seq<char>, n: int) -> (
    Seq<Seq<char>>,
    Seq<char>,
)
    decreases n,
{
    if n <= 0 {
        (Seq::empty(), Seq::empty())
    } else {
        let (parts, current) = spec_split_parts(chars, separators, n - 1);
        if spec_is_split(chars, n - 1, separators) {
            (if current.len() > 0 { parts.push(spec_trim(current)) } else { parts }, Seq::empty())
        } else {
            (parts, current.push(chars[n - 1]))
        }
    }
}

/// The result of splitting `chars`: the parts, plus the trailing one when it
/// is not empty or `last` is set.
pub open spec fn spec_split(chars: Seq<char>, separators: Seq<char>, last: bool) -> Seq<
    Seq<char>,
> {
    let (parts, current) = spec_split_parts(chars, separators, chars.len() as int);
    if last || current.len() > 0 {
        parts.push(spec_trim(current))
    } else {
        parts
    }
}

/// The characters `comma` splits on.
pub open spec fn spec_comma_separators() -> Seq<char> {
    seq![',']
}

/// The characters `space` splits on.
pub open spec fn spec_space_separators() -> Seq<char> {
    seq![' ', '\n', '\t']
}

/// The views of a list of strings.
pub open spec fn spec_views(v: Seq<String>) -> Seq<Seq<char>> {
    v.map_values(|s: String| s@)
}

fn contains_char(chars: &[char], c: char) -> (r: bool)
    ensures
        r == chars@.contains(c),
{
    let mut i: usize = 0;
    while i < chars.len()
        invariant
            i <= chars@.len(),
            forall|k: int| 0 <= k < i ==> chars@[k] != c,
        decreases chars.len() - i,
    {
        if chars[i] == c {
            return true;
        }
        i = i + 1;
    }
    false
}

/// Splits on top-level commas.
pub fn comma(string: &str) -> (r: Vec<String>)
    ensures
        spec_views(r@) == spec_split(string@, spec_comma_separators(), true),
{
    let seps = [','];
    assert(seps@ =~= spec_comma_separators());
    split(string, &seps, true)
}

/// Splits on top-level whitespace.
pub fn space(string: &str) -> (r: Vec<String>)
    ensures
        spec_views(r@) == spec_split(string@, spec_space_separators(), false),
{
    let seps = [' ', '\n', '\t'];
    assert(seps@ =~= spec_space_separators());
    split(string, &seps, false)
}

/// Splits on any of `separators`, ignoring ones inside quotes, parentheses or
/// after a backslash.
///
/// With `last`, a trailing empty part is kept, which is what makes
/// `comma("a,")` return two items.
pub fn split(string: &str, separators: &[char], last: bool) -> (r: Vec<String>)
    ensures
        spec_views(r@) == spec_split(string@, separators@, last),
{
    let chars = chars_of(string);
    let len = chars.len();
    let mut array: Vec<String> = Vec::new();
    let mut current: Vec<char> = Vec::new();

    let mut func: usize = 0;
    let mut in_quote = false;
    let mut prev_quote = '\0';
    let mut escape = false;
    let mut i: usize = 0;

    while i < len
        invariant
            len == chars@.len(),
            chars@ == string@,
            i <= len,
            func <= i,
            ({
                let st = spec_split_state(chars@, i as int);
                &&& st.escape == escape
                &&& st.func == func
                &&& (st.quote is Some <==> in_quote)
                &&& (in_quote ==> st.quote == Some(prev_quote))
            }),
            ({
                let (parts, cur) = spec_split_parts(chars@, separators@, i as int);
                &&& spec_views(array@) == parts
                &&& current@ == cur
            }),
        decreases len - i,
    {
        let letter = chars[i];
        let mut split_here = false;
        if escape {
            escape = false;
        } else if letter == '\\' {
            escape = true;
        } else if in_quote {
            if letter == prev_quote {
                in_quote = false;
            }
        } else if letter == '"' || letter == '\'' {
            in_quote = true;
            prev_quote = letter;
        } else if letter == '(' {
            func = func + 1;
        } else if letter == ')' {
            if func > 0 {
                func = func - 1;
            }
        } else if func == 0 && contains_char(separators, letter) {
            split_here = true;
        }
        proof {
            assert(split_here == spec_is_split(chars@, i as int, separators@));
        }

        if split_here {
            if current.len() > 0 {
                let piece = trim_to_string(&current);
                let ghost before = array@;
                array.push(piece);
                assert(spec_views(array@) =~= spec_views(before).push(piece@));
            }
            current = Vec::new();
        } else {
            current.push(letter);
        }
        i = i + 1;
    }

    if last || current.len() > 0 {
        let piece = trim_to_string(&current);
        let ghost before = array@;
        array.push(piece);
        assert(spec_views(array@) =~= spec_views(before).push(piece@));
    }
    array
}

/// No quote and no backslash: text in which only parentheses change how
/// the splitter reads it.
pub open spec fn spec_plain(s: Seq<char>) -> bool {
    forall|i: int| 0 <= i < s.len() ==> s[i] != '\\' && s[i] != '"' && s[i] != '\''
}

/// Opening minus closing parentheses among the first `k` characters.
pub open spec fn spec_paren_depth(s: Seq<char>, k: int) -> int
    decreases k,
{
    if k <= 0 {
        0
    } else {
        spec_paren_depth(s, k - 1) + if s[k - 1] == '(' {
            1int
        } else if s[k - 1] == ')' {
            -1int
        } else {
            0int
        }
    }
}

/// Balanced parentheses: no prefix closes more than it opened, and the
/// whole closes all it opened.
pub open spec fn spec_balanced(s: Seq<char>) -> bool {
    &&& forall|k: int| 0 <= k <= s.len() ==> spec_paren_depth(s, k) >= 0
    &&& spec_paren_depth(s, s.len() as int) == 0
}

proof fn lemma_plain_state(s: Seq<char>, n: int)
    requires
        0 <= n <= s.len(),
        forall|i: int| 0 <= i < n ==> s[i] != '\\' && s[i] != '"' && s[i] != '\'',
    ensures
        !spec_split_state(s, n).escape,
        spec_split_state(s, n).quote is None,
    decreases n,
{
    if n > 0 {
        lemma_plain_state(s, n - 1);
    }
}

/// Inside `(x)`, read from a plain prefix, the depth stays one above the
/// depth of `x` itself.
proof fn lemma_depth_inside(s: Seq<char>, a: int, x: Seq<char>, m: int)
    requires
        0 <= a,
        a + x.len() <= s.len(),
        0 <= m <= x.len(),
        forall|i: int| 0 <= i < a + x.len() ==> s[i] != '\\' && s[i] != '"' && s[i] != '\'',
        forall|i: int| 0 <= i < x.len() ==> s[a + i] == x[i],
        spec_balanced(x),
        spec_split_state(s, a).func >= 1,
    ensures
        spec_split_state(s, a + m).func == spec_split_state(s, a).func + spec_paren_depth(x, m),
    decreases m,
{
    if m > 0 {
        lemma_depth_inside(s, a, x, m - 1);
        lemma_plain_state(s, a + m - 1);
        assert(s[a + m - 1] == x[m - 1]);
        assert(spec_paren_depth(x, m - 1) >= 0);
    }
}

/// With no split point in `[a, b)`, the text read there joins the pending
/// part whole.
proof fn lemma_unsplit_run(s: Seq<char>, seps: Seq<char>, a: int, b: int)
    requires
        0 <= a <= b <= s.len(),
        forall|j: int| a <= j < b ==> !spec_is_split(s, j, seps),
    ensures
        spec_split_parts(s, seps, b).1 == spec_split_parts(s, seps, a).1 + s.subrange(a, b),
    decreases b - a,
{
    if b > a {
        lemma_unsplit_run(s, seps, a, b - 1);
        assert(s.subrange(a, b) =~= s.subrange(a, b - 1).push(s[b - 1]));
        assert(!spec_is_split(s, b - 1, seps));
    } else {
        assert(s.subrange(a, b) =~= Seq::<char>::empty());
    }
}

/// A separator inside parentheses never splits, however deeply they nest:
/// in `p(x)q`, with `x` balanced and neither `p` nor `x` holding a quote or
/// a backslash, no character of `(x)` is a split point, so the part being
/// read when the `)` closes ends with the whole of `(x)`.
pub proof fn lemma_nested_parens_unsplit(p: Seq<char>, x: Seq<char>, q: Seq<char>, seps: Seq<char>)
    requires
        spec_plain(p),
        spec_plain(x),
        spec_balanced(x),
    ensures
        ({
            let s = p + seq!['('] + x + seq![')'] + q;
            forall|j: int| p.len() <= j < p.len() + x.len() + 2 ==> !spec_is_split(s, j, seps)
        }),
        ({
            let s = p + seq!['('] + x + seq![')'] + q;
            let cur = spec_split_parts(s, seps, (p.len() + x.len() + 2) as int).1;
            let unit = seq!['('] + x + seq![')'];
            &&& cur.len() >= unit.len()
            &&& cur.subrange(cur.len() - unit.len(), cur.len() as int) == unit
        }),
{
    let s = p + seq!['('] + x + seq![')'] + q;
    let a: int = p.len() as int + 1;
    let e: int = p.len() as int + x.len() as int + 1;
    assert forall|i: int| 0 <= i <= e implies s[i] != '\\' && s[i] != '"' && s[i] != '\'' by {
        if i < p.len() {
            assert(s[i] == p[i]);
        } else if i == p.len() {
            assert(s[i] == '(');
        } else if i < e {
            assert(s[i] == x[i - a]);
        } else {
            assert(s[i] == ')');
        }
    }
    assert forall|i: int| 0 <= i < x.len() implies s[a + i] == x[i] by {}
    lemma_plain_state(s, p.len() as int);
    assert(s[p.len() as int] == '(');
    assert(spec_split_state(s, a).func >= 1);
    assert forall|j: int| p.len() <= j < p.len() + x.len() + 2 implies !spec_is_split(s, j, seps) by {
        if j == p.len() {
            assert(s[j] == '(');
        } else if j == e {
            assert(s[j] == ')');
        } else {
            lemma_depth_inside(s, a, x, j - a);
            assert(spec_paren_depth(x, j - a) >= 0);
        }
    }
    lemma_unsplit_run(s, seps, p.len() as int, e + 1);
    let unit = seq!['('] + x + seq![')'];
    assert(s.subrange(p.len() as int, e + 1) =~= unit);
    let cur = spec_split_parts(s, seps, e + 1).1;
    let pre = spec_split_parts(s, seps, p.len() as int).1;
    assert(cur.subrange(cur.len() - unit.len(), cur.len() as int) =~= unit);
}

proof fn lemma_func_is_depth(s: Seq<char>, n: int)
    requires
        0 <= n <= s.len(),
        forall|i: int| 0 <= i < n ==> s[i] != '\\' && s[i] != '"' && s[i] != '\'',
        forall|k: int| 0 <= k <= n ==> spec_paren_depth(s, k) >= 0,
    ensures
        spec_split_state(s, n).func == spec_paren_depth(s, n),
    decreases n,
{
    if n > 0 {
        lemma_func_is_depth(s, n - 1);
        lemma_plain_state(s, n - 1);
    }
}

/// In text without quotes or backslashes, whose parentheses never close
/// more than they opened, a character splits exactly when it is a
/// separator (and not itself a parenthesis) standing outside every
/// parenthesis: at depth zero.
pub proof fn lemma_split_at_depth_zero(s: Seq<char>, seps: Seq<char>, j: int)
    requires
        0 <= j < s.len(),
        forall|i: int| 0 <= i <= j ==> s[i] != '\\' && s[i] != '"' && s[i] != '\'',
        forall|k: int| 0 <= k <= j ==> spec_paren_depth(s, k) >= 0,
    ensures
        spec_is_split(s, j, seps) <==> (spec_paren_depth(s, j) == 0 && s[j] != '(' && s[j] != ')' && seps.contains(
            s[j],
        )),
{
    lemma_func_is_depth(s, j);
    lemma_plain_state(s, j);
}

} // verus!
