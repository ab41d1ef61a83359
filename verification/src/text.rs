//! String building blocks shared by the other modules.

use vstd::prelude::*;
use vstd::string::StringSliceAdditionalSpecFns;

verus! {

/// Appends one character to a string.
///
/// Wraps `String::push`: the string afterwards holds its old characters
/// followed by `c`.
#[verifier::external_body]
pub fn push_char(s: &mut String, c: char)
    ensures
        final(s)@ == old(s)@.push(c),
{
    s.push(c);
}


/// Unicode `White_Space`, the set `char::is_whitespace` tests for.
pub open spec fn spec_is_whitespace(c: char) -> bool {
    let u = c as u32;
    (9 <= u <= 13) || u == 32 || u == 0x85 || u == 0xa0 || u == 0x1680 || (0x2000 <= u <= 0x200a)
        || u == 0x2028 || u == 0x2029 || u == 0x202f || u == 0x205f || u == 0x3000
}

/// `char::is_whitespace`.
pub fn is_whitespace(c: char) -> (r: bool)
    ensures
        r == spec_is_whitespace(c),
{
    let u = c as u32;
    (9 <= u && u <= 13) || u == 32 || u == 0x85 || u == 0xa0 || u == 0x1680 || (0x2000 <= u
        && u <= 0x200a) || u == 0x2028 || u == 0x2029 || u == 0x202f || u == 0x205f || u == 0x3000
}

/// Number of leading whitespace characters.
pub open spec fn spec_trim_start_len(s: Seq<char>) -> nat
    decreases s.len(),
{
    if s.len() > 0 && spec_is_whitespace(s[0]) {
        1 + spec_trim_start_len(s.drop_first())
    } else {
        0
    }
}

/// Number of trailing whitespace characters.
pub open spec fn spec_trim_end_len(s: Seq<char>) -> nat
    decreases s.len(),
{
    if s.len() > 0 && spec_is_whitespace(s.last()) {
        1 + spec_trim_end_len(s.drop_last())
    } else {
        0
    }
}

/// `str::trim`: the text without leading and trailing whitespace.
pub open spec fn spec_trim(s: Seq<char>) -> Seq<char> {
    let a = spec_trim_start_len(s);
    if a == s.len() {
        Seq::empty()
    } else {
        s.subrange(a as int, s.len() - spec_trim_end_len(s))
    }
}

proof fn lemma_trim_start_len(s: Seq<char>, i: int)
    requires
        0 <= i <= s.len(),
        forall|k: int| 0 <= k < i ==> spec_is_whitespace(#[trigger] s[k]),
        i == s.len() || !spec_is_whitespace(s[i]),
    ensures
        spec_trim_start_len(s) == i,
    decreases s.len(),
{
    if i > 0 {
        assert forall|k: int| 0 <= k < i - 1 implies spec_is_whitespace(#[trigger] s.drop_first()[k]) by {
            assert(s.drop_first()[k] == s[k + 1]);
        }
        if i < s.len() {
            assert(s.drop_first()[i - 1] == s[i]);
        }
        lemma_trim_start_len(s.drop_first(), i - 1);
    }
}

proof fn lemma_trim_end_len(s: Seq<char>, j: int)
    requires
        0 <= j <= s.len(),
        forall|k: int| j <= k < s.len() ==> spec_is_whitespace(#[trigger] s[k]),
        j == 0 || !spec_is_whitespace(s[j - 1]),
    ensures
        spec_trim_end_len(s) == s.len() - j,
    decreases s.len(),
{
    if j < s.len() {
        assert forall|k: int| j <= k < s.len() - 1 implies spec_is_whitespace(#[trigger] s.drop_last()[k]) by {
            assert(s.drop_last()[k] == s[k]);
        }
        if j > 0 {
            assert(s.drop_last()[j - 1] == s[j - 1]);
        }
        lemma_trim_end_len(s.drop_last(), j);
    }
}

/// Where the text without surrounding whitespace starts and ends: the
/// numbers of leading whitespace characters, and the length less the number
/// of trailing ones (both the length when everything is whitespace).
pub fn trim_bounds(chars: &Vec<char>) -> (r: (usize, usize))
    ensures
        r.0 == spec_trim_start_len(chars@),
        r.0 <= r.1 <= chars@.len(),
        r.0 == chars@.len() ==> r.1 == chars@.len(),
        r.0 < chars@.len() ==> r.1 == chars@.len() - spec_trim_end_len(chars@) && r.0 < r.1,
{
    let len = chars.len();
    let mut start: usize = 0;
    while start < len && is_whitespace(chars[start])
        invariant
            start <= len,
            len == chars@.len(),
            forall|k: int| 0 <= k < start ==> spec_is_whitespace(#[trigger] chars@[k]),
        decreases len - start,
    {
        start = start + 1;
    }
    proof {
        lemma_trim_start_len(chars@, start as int);
    }
    if start == len {
        return (len, len);
    }
    let mut end: usize = len;
    while end > start && is_whitespace(chars[end - 1])
        invariant
            start <= end <= len,
            start < len,
            len == chars@.len(),
            !spec_is_whitespace(chars@[start as int]),
            forall|k: int| end <= k < len ==> spec_is_whitespace(#[trigger] chars@[k]),
        decreases end,
    {
        end = end - 1;
    }
    proof {
        lemma_trim_end_len(chars@, end as int);
    }
    (start, end)
}

/// The characters of `chars[from..to]` as a new string.
pub fn string_from_chars(chars: &Vec<char>, from: usize, to: usize) -> (s: String)
    requires
        from <= to <= chars@.len(),
    ensures
        s@ == chars@.subrange(from as int, to as int),
{
    let mut s = String::new();
    let mut i = from;
    while i < to
        invariant
            from <= i <= to,
            to <= chars@.len(),
            s@ == chars@.subrange(from as int, i as int),
        decreases to - i,
    {
        push_char(&mut s, chars[i]);
        assert(chars@.subrange(from as int, i + 1) =~= chars@.subrange(from as int, i as int).push(chars@[i as int]));
        i = i + 1;
    }
    s
}

/// `chars.trim().to_string()`.
pub fn trim_to_string(chars: &Vec<char>) -> (s: String)
    ensures
        s@ == spec_trim(chars@),
{
    let len = chars.len();
    let mut start: usize = 0;
    while start < len && is_whitespace(chars[start])
        invariant
            start <= len,
            len == chars@.len(),
            forall|k: int| 0 <= k < start ==> spec_is_whitespace(#[trigger] chars@[k]),
        decreases len - start,
    {
        start = start + 1;
    }
    proof {
        lemma_trim_start_len(chars@, start as int);
    }
    if start == len {
        return String::new();
    }
    let mut end: usize = len;
    while end > start && is_whitespace(chars[end - 1])
        invariant
            start <= end <= len,
            start < len,
            len == chars@.len(),
            !spec_is_whitespace(chars@[start as int]),
            forall|k: int| end <= k < len ==> spec_is_whitespace(#[trigger] chars@[k]),
        decreases end,
    {
        end = end - 1;
    }
    proof {
        lemma_trim_end_len(chars@, end as int);
    }
    string_from_chars(chars, start, end)
}


/// The characters of a string, in order.
pub fn chars_of(s: &str) -> (v: Vec<char>)
    ensures
        v@ == s@,
{
    let mut v: Vec<char> = Vec::new();
    for c in it: s.chars()
        invariant
            v@ == it.seq().take(it.index() as int),
    {
        v.push(c);
    }
    v
}


/// A slice of a string between two character boundaries.
///
/// Wraps `str` range indexing: the slice holds exactly the bytes
/// `start..end` of `s`.
#[verifier::external_body]
pub fn substr<'a>(s: &'a str, start: usize, end: usize) -> (r: &'a str)
    requires
        start <= end <= s.spec_bytes().len(),
        vstd::utf8::is_char_boundary(s.spec_bytes(), start as int),
        vstd::utf8::is_char_boundary(s.spec_bytes(), end as int),
    ensures
        r.spec_bytes() == s.spec_bytes().subrange(start as int, end as int),
{
    &s[start..end]
}

/// In valid UTF-8, the byte after an ASCII byte starts a character.
pub proof fn lemma_after_ascii(b: Seq<u8>, k: int)
    requires
        vstd::utf8::valid_utf8(b),
        0 < k <= b.len(),
        b[k - 1] < 0x80,
    ensures
        k == b.len() || !vstd::utf8::is_continuation_byte(b[k]),
    decreases b.len(),
{
    let l = vstd::utf8::length_of_first_scalar(b);
    let rest = vstd::utf8::pop_first_scalar(b);
    assert(rest.len() == b.len() - l);
    assert(vstd::utf8::valid_utf8(rest));
    if k - 1 < l {
        if k - 1 == 0 {
            assert(l == 1);
            if k < b.len() {
                assert(rest[0] == b[k]);
                reveal_with_fuel(vstd::utf8::valid_utf8, 2);
                assert(vstd::utf8::valid_first_scalar(rest));
            }
        } else {
            assert(vstd::utf8::is_continuation_byte(b[k - 1]));
        }
    } else {
        assert(rest[k - 1 - l] == b[k - 1]);
        lemma_after_ascii(rest, k - l);
        if k < b.len() {
            assert(rest[k - l] == b[k]);
        }
    }
}

/// Character boundaries of a string: its ends, and every byte that does not
/// continue a character.
pub proof fn lemma_boundary(s: &str, k: int)
    requires
        0 <= k <= s.spec_bytes().len(),
        k == 0 || k == s.spec_bytes().len() || !vstd::utf8::is_continuation_byte(s.spec_bytes()[k]),
    ensures
        vstd::utf8::valid_utf8(s.spec_bytes()),
        vstd::utf8::is_char_boundary(s.spec_bytes(), k),
{
    let b = s.spec_bytes();
    vstd::utf8::encode_utf8_valid_utf8(s@);
    vstd::utf8::is_char_boundary_start_end_of_seq(b);
    if 0 < k < b.len() {
        vstd::utf8::is_char_boundary_iff_not_is_continuation_byte(b, k);
    }
}


/// Decimal digits of a number, most significant first, as `to_string` writes
/// them.
pub open spec fn spec_decimal(n: nat) -> Seq<char>
    decreases n,
{
    if n < 10 {
        seq![(48 + n) as char]
    } else {
        spec_decimal(n / 10).push((48 + n % 10) as char)
    }
}

/// Appends the decimal form of `n`.
pub fn push_decimal(s: &mut String, n: usize)
    ensures
        final(s)@ == old(s)@ + spec_decimal(n as nat),
    decreases n,
{
    if n >= 10 {
        push_decimal(s, n / 10);
    }
    let digit = ((48 + n % 10) as u8) as char;
    push_char(s, digit);
    proof {
        if n < 10 {
            assert(old(s)@ + spec_decimal(n as nat) =~= old(s)@.push(digit));
        } else {
            assert(old(s)@ + spec_decimal(n as nat) =~= (old(s)@ + spec_decimal((n / 10) as nat)).push(digit));
        }
    }
}

/// Appends a string.
pub fn push_str(s: &mut String, t: &str)
    ensures
        final(s)@ == old(s)@ + t@,
{
    let chars = chars_of(t);
    let mut i: usize = 0;
    while i < chars.len()
        invariant
            i <= chars@.len(),
            chars@ == t@,
            s@ == old(s)@ + chars@.subrange(0, i as int),
        decreases chars.len() - i,
    {
        push_char(s, chars[i]);
        assert(chars@.subrange(0, i + 1) =~= chars@.subrange(0, i as int).push(chars@[i as int]));
        i = i + 1;
    }
    assert(chars@.subrange(0, chars@.len() as int) =~= chars@);
}

/// A new string holding `t`.
pub fn to_owned_string(t: &str) -> (s: String)
    ensures
        s@ == t@,
{
    let mut s = String::new();
    push_str(&mut s, t);
    s
}


/// `str::split` on one character: the pieces between its occurrences, at
/// least one.
pub open spec fn spec_split_on(s: Seq<char>, c: char) -> Seq<Seq<char>>
    decreases s.len(),
{
    if s.len() == 0 {
        seq![Seq::empty()]
    } else {
        let prev = spec_split_on(s.drop_last(), c);
        if s.last() == c {
            prev.push(Seq::empty())
        } else {
            prev.update(prev.len() - 1, prev.last().push(s.last()))
        }
    }
}

/// `split` always gives at least one piece.
pub proof fn lemma_split_on_len(s: Seq<char>, c: char)
    ensures
        spec_split_on(s, c).len() >= 1,
    decreases s.len(),
{
    if s.len() > 0 {
        lemma_split_on_len(s.drop_last(), c);
    }
}

/// `join`: the pieces with `sep` between them.
pub open spec fn spec_join(parts: Seq<Seq<char>>, sep: Seq<char>) -> Seq<char>
    decreases parts.len(),
{
    if parts.len() == 0 {
        Seq::empty()
    } else if parts.len() == 1 {
        parts[0]
    } else {
        spec_join(parts.drop_last(), sep) + sep + parts.last()
    }
}

/// Whether `pat` occurs in `s` at `i`.
pub open spec fn spec_occurs_at(s: Seq<char>, pat: Seq<char>, i: int) -> bool {
    0 <= i && i + pat.len() <= s.len() && s.subrange(i, i + pat.len()) == pat
}

/// `str::find`: the first index at or after `from` where `pat` occurs.
pub open spec fn spec_find_from(s: Seq<char>, pat: Seq<char>, from: int) -> Option<int>
    decreases s.len() + 1 - from,
{
    if from < 0 || from + pat.len() > s.len() {
        None
    } else if spec_occurs_at(s, pat, from) {
        Some(from)
    } else {
        spec_find_from(s, pat, from + 1)
    }
}

/// `str::find` from the start.
pub open spec fn spec_find(s: Seq<char>, pat: Seq<char>) -> Option<int> {
    spec_find_from(s, pat, 0)
}

/// `trim_end_matches(c)`: `s` without trailing `c`s.
pub open spec fn spec_trim_end_char(s: Seq<char>, c: char) -> Seq<char>
    decreases s.len(),
{
    if s.len() > 0 && s.last() == c {
        spec_trim_end_char(s.drop_last(), c)
    } else {
        s
    }
}

/// `strip_prefix`: the rest of `s` after `p`, when `s` starts with `p`.
pub open spec fn spec_strip_prefix(s: Seq<char>, p: Seq<char>) -> Option<Seq<char>> {
    if p.len() <= s.len() && s.subrange(0, p.len() as int) == p {
        Some(s.subrange(p.len() as int, s.len() as int))
    } else {
        None
    }
}

/// `char::is_ascii_alphanumeric`.
pub open spec fn spec_is_ascii_alnum(c: char) -> bool {
    ('0' <= c <= '9') || ('a' <= c <= 'z') || ('A' <= c <= 'Z')
}

/// Every character is ASCII alphanumeric.
pub open spec fn spec_all_alnum(s: Seq<char>) -> bool {
    forall|i: int| 0 <= i < s.len() ==> spec_is_ascii_alnum(#[trigger] s[i])
}

/// Whether `pat` occurs in `s` at `i`.
pub fn occurs_at(s: &Vec<char>, pat: &Vec<char>, i: usize) -> (r: bool)
    requires
        i + pat@.len() <= s@.len(),
    ensures
        r == spec_occurs_at(s@, pat@, i as int),
{
    let n = s.len();
    let mut j: usize = 0;
    while j < pat.len()
        invariant
            n == s@.len(),
            j <= pat@.len(),
            i + pat@.len() <= s@.len(),
            forall|k: int| 0 <= k < j ==> s@[i + k] == pat@[k],
        decreases pat.len() - j,
    {
        if s[i + j] != pat[j] {
            assert(s@.subrange(i as int, i + pat@.len())[j as int] != pat@[j as int]);
            return false;
        }
        j = j + 1;
    }
    assert(s@.subrange(i as int, i + pat@.len()) =~= pat@);
    true
}

/// `str::find`.
pub fn find(s: &Vec<char>, pat: &Vec<char>, from: usize) -> (r: Option<usize>)
    ensures
        match r {
            Some(i) => spec_find_from(s@, pat@, from as int) == Some(i as int),
            None => spec_find_from(s@, pat@, from as int) is None,
        },
{
    let mut i = from;
    if pat.len() > s.len() {
        return None;
    }
    if pat.len() == 0 {
        if from <= s.len() {
            assert(s@.subrange(from as int, from as int) =~= pat@);
            return Some(from);
        }
        return None;
    }
    while i <= s.len() - pat.len()
        invariant
            from <= i,
            1 <= pat@.len() <= s@.len(),
            spec_find_from(s@, pat@, i as int) == spec_find_from(s@, pat@, from as int),
        decreases s.len() - i,
    {
        if occurs_at(s, pat, i) {
            return Some(i);
        }
        i = i + 1;
    }
    None
}

/// Whether `s[from..]` starts with `p`.
pub fn starts_with_at(s: &Vec<char>, p: &Vec<char>, from: usize) -> (r: bool)
    requires
        from <= s@.len(),
    ensures
        r == spec_strip_prefix(s@.subrange(from as int, s@.len() as int), p@) is Some,
{
    let ghost rest = s@.subrange(from as int, s@.len() as int);
    if p.len() > s.len() - from {
        return false;
    }
    let r = occurs_at(s, p, from);
    assert(rest.subrange(0, p@.len() as int) =~= s@.subrange(from as int, from + p@.len()));
    r
}

/// The characters of `chars[from..to]` as a vector.
pub fn slice_chars(chars: &Vec<char>, from: usize, to: usize) -> (v: Vec<char>)
    requires
        from <= to <= chars@.len(),
    ensures
        v@ == chars@.subrange(from as int, to as int),
{
    let mut v: Vec<char> = Vec::new();
    let mut i = from;
    while i < to
        invariant
            from <= i <= to <= chars@.len(),
            v@ == chars@.subrange(from as int, i as int),
        decreases to - i,
    {
        v.push(chars[i]);
        assert(chars@.subrange(from as int, i + 1) =~= chars@.subrange(from as int, i as int).push(chars@[i as int]));
        i = i + 1;
    }
    v
}

/// A string holding the characters.
pub fn string_of(chars: &Vec<char>) -> (s: String)
    ensures
        s@ == chars@,
{
    let s = string_from_chars(chars, 0, chars.len());
    assert(chars@.subrange(0, chars@.len() as int) =~= chars@);
    s
}

/// `s` without trailing `c`s, as the number of characters kept.
pub fn trim_end_char_len(s: &Vec<char>, c: char) -> (n: usize)
    ensures
        n <= s@.len(),
        spec_trim_end_char(s@, c) == s@.subrange(0, n as int),
{
    let mut n = s.len();
    assert(s@.subrange(0, n as int) =~= s@);
    while n > 0 && s[n - 1] == c
        invariant
            n <= s@.len(),
            spec_trim_end_char(s@, c) == spec_trim_end_char(s@.subrange(0, n as int), c),
        decreases n,
    {
        assert(s@.subrange(0, n as int).drop_last() =~= s@.subrange(0, n - 1));
        n = n - 1;
    }
    n
}


/// Where `spec_find_from` can land.
pub proof fn lemma_find_from_bounds(s: Seq<char>, pat: Seq<char>, from: int)
    ensures
        spec_find_from(s, pat, from) matches Some(i) ==> from <= i && i + pat.len() <= s.len()
            && spec_occurs_at(s, pat, i),
    decreases s.len() + 1 - from,
{
    if !(from < 0 || from + pat.len() > s.len()) && !spec_occurs_at(s, pat, from) {
        lemma_find_from_bounds(s, pat, from + 1);
    }
}


/// The number of leading whitespace characters, from a scan that stopped at
/// `i`.
pub proof fn lemma_trim_start_len_pub(s: Seq<char>, i: int)
    requires
        0 <= i <= s.len(),
        forall|k: int| 0 <= k < i ==> spec_is_whitespace(#[trigger] s[k]),
        i == s.len() || !spec_is_whitespace(s[i]),
    ensures
        spec_trim_start_len(s) == i,
{
    lemma_trim_start_len(s, i);
}


/// The last index holding `c`.
pub open spec fn spec_rfind_char(s: Seq<char>, c: char) -> Option<int>
    decreases s.len(),
{
    if s.len() == 0 {
        None
    } else if s.last() == c {
        Some(s.len() - 1)
    } else {
        spec_rfind_char(s.drop_last(), c)
    }
}

/// The last index holding `c`.
pub fn rfind_char(s: &Vec<char>, c: char) -> (r: Option<usize>)
    ensures
        match r {
            Some(i) => spec_rfind_char(s@, c) == Some(i as int) && i < s@.len(),
            None => spec_rfind_char(s@, c) is None,
        },
{
    let mut n = s.len();
    assert(s@.subrange(0, n as int) =~= s@);
    while n > 0
        invariant
            n <= s@.len(),
            spec_rfind_char(s@.subrange(0, n as int), c) == spec_rfind_char(s@, c),
        decreases n,
    {
        if s[n - 1] == c {
            return Some(n - 1);
        }
        assert(s@.subrange(0, n as int).drop_last() =~= s@.subrange(0, n - 1));
        n = n - 1;
    }
    None
}

/// `c` has a last occurrence exactly when it occurs.
pub proof fn lemma_rfind_contains(s: Seq<char>, c: char)
    ensures
        (spec_rfind_char(s, c) is Some) == s.contains(c),
    decreases s.len(),
{
    if s.len() > 0 {
        lemma_rfind_contains(s.drop_last(), c);
        if s.last() != c {
            if s.contains(c) {
                let k = choose|k: int| 0 <= k < s.len() && s[k] == c;
                assert(s.drop_last()[k] == c);
            }
            if s.drop_last().contains(c) {
                let k = choose|k: int| 0 <= k < s.drop_last().len() && s.drop_last()[k] == c;
                assert(s[k] == c);
            }
        } else {
            assert(s[s.len() - 1] == c);
        }
    }
}

/// `str::replace` from character `i` on: each occurrence of `pat`, left to
/// right and without overlap, becomes `rep`; an empty `pat` matches before
/// every character and at the end.
pub open spec fn spec_replace_from(s: Seq<char>, pat: Seq<char>, rep: Seq<char>, i: int) -> Seq<char>
    decreases s.len() + 1 - i,
{
    if i < 0 || i > s.len() {
        Seq::empty()
    } else if pat.len() == 0 {
        if i == s.len() {
            rep
        } else {
            rep + seq![s[i]] + spec_replace_from(s, pat, rep, i + 1)
        }
    } else if i == s.len() {
        Seq::empty()
    } else if spec_occurs_at(s, pat, i) {
        rep + spec_replace_from(s, pat, rep, i + pat.len())
    } else {
        seq![s[i]] + spec_replace_from(s, pat, rep, i + 1)
    }
}

/// `str::replace`.
pub open spec fn spec_replace(s: Seq<char>, pat: Seq<char>, rep: Seq<char>) -> Seq<char> {
    spec_replace_from(s, pat, rep, 0)
}

/// `str::replace`: every occurrence of `pat` in `s`, left to right and
/// without overlap, replaced by `rep`.
pub fn replace(s: &str, pat: &str, rep: &str) -> (r: String)
    ensures
        r@ == spec_replace(s@, pat@, rep@),
{
    let c = chars_of(s);
    let p = chars_of(pat);
    let n = c.len();
    let mut out = String::new();
    let mut i: usize = 0;
    while i < n
        invariant
            i <= n,
            n == c@.len(),
            c@ == s@,
            p@ == pat@,
            out@ + spec_replace_from(c@, p@, rep@, i as int) == spec_replace(c@, p@, rep@),
        decreases n - i,
    {
        let ghost before = out@;
        if p.len() == 0 {
            push_str(&mut out, rep);
            push_char(&mut out, c[i]);
            proof {
                assert(out@ + spec_replace_from(c@, p@, rep@, i + 1) =~= before + spec_replace_from(c@, p@, rep@, i as int));
            }
            i = i + 1;
        } else if p.len() <= n - i && occurs_at(&c, &p, i) {
            push_str(&mut out, rep);
            proof {
                assert(out@ + spec_replace_from(c@, p@, rep@, i + p@.len()) =~= before + spec_replace_from(c@, p@, rep@, i as int));
            }
            i = i + p.len();
        } else {
            push_char(&mut out, c[i]);
            proof {
                assert(out@ + spec_replace_from(c@, p@, rep@, i + 1) =~= before + spec_replace_from(c@, p@, rep@, i as int));
            }
            i = i + 1;
        }
    }
    if p.len() == 0 {
        push_str(&mut out, rep);
    }
    proof {
        assert(out@ =~= spec_replace(c@, p@, rep@));
    }
    out
}

/// The last occurrence lies inside the sequence and holds `c`.
pub proof fn lemma_rfind_bounds(s: Seq<char>, c: char)
    ensures
        spec_rfind_char(s, c) matches Some(i) ==> 0 <= i < s.len() && s[i] == c,
    decreases s.len(),
{
    if s.len() > 0 && s.last() != c {
        lemma_rfind_bounds(s.drop_last(), c);
    }
}

} // verus!
