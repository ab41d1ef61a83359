//! The data of one syntax tree node.
//!
//! Behaviour that needs the whole tree (insertion, walking, cloning) lives on
//! [`crate::tree::Tree`].

use vstd::prelude::*;

use crate::error::opt_view;
use crate::input::clone_opt_string;
use crate::source_map::chars_eq;
use crate::text::{chars_of, to_owned_string};

verus! {

/// Handle to a node inside a [`crate::tree::Tree`].
///
/// Ids stay valid for the lifetime of the tree, including after the node is
/// detached, so a caller can hold one across mutations.
#[derive(Clone, Copy, Debug, PartialEq, Eq, Structural, Hash)]
pub struct NodeId(pub usize);

impl NodeId {
    /// The arena index behind this id.
    pub fn index(self) -> (r: usize)
        ensures
            r == self.0,
    {
        self.0
    }
}

/// The node types of the CSS syntax tree.
#[derive(Clone, Debug)]
pub enum NodeKind {
    /// `@media (min-width: 100px) { … }` or `@charset "utf-8";`
    AtRule {
        /// The name after the `@`.
        name: String,
        /// Everything between the name and the `{` or `;`.
        params: String,
    },
    /// `/* comment */`
    Comment {
        /// The text between the delimiters, trimmed.
        text: String,
    },
    /// `color: red !important`
    Decl {
        /// The property name.
        prop: String,
        /// The value, with comments removed.
        value: String,
        /// Whether `!important` was present.
        important: bool,
    },
    /// A container of roots, for CSS extracted from another language.
    Document,
    /// The tree root.
    Root,
    /// `a.b > c { … }`
    Rule {
        /// The selector list, with comments removed.
        selector: String,
    },
}

/// The `type` string of a node kind.
pub open spec fn spec_type_label(k: NodeKind) -> Seq<char> {
    match k {
        NodeKind::AtRule { .. } => "atrule"@,
        NodeKind::Comment { .. } => "comment"@,
        NodeKind::Decl { .. } => "decl"@,
        NodeKind::Document => "document"@,
        NodeKind::Root => "root"@,
        NodeKind::Rule { .. } => "rule"@,
    }
}

/// Kinds that are born with a child list: roots, documents and rules.
pub open spec fn spec_born_container(k: NodeKind) -> bool {
    k is Root || k is Document || k is Rule
}

impl NodeKind {
    /// The `type` string: `atrule`, `comment`, `decl`, `document`, `root` or
    /// `rule`.
    pub fn type_label(&self) -> (r: &'static str)
        ensures
            r@ == spec_type_label(*self),
    {
        match self {
            NodeKind::AtRule { .. } => "atrule",
            NodeKind::Comment { .. } => "comment",
            NodeKind::Decl { .. } => "decl",
            NodeKind::Document => "document",
            NodeKind::Root => "root",
            NodeKind::Rule { .. } => "rule",
        }
    }

    /// A copy of this kind.
    pub fn duplicate(&self) -> (r: NodeKind)
        ensures
            r == *self,
    {
        match self {
            NodeKind::AtRule { name, params } => NodeKind::AtRule { name: name.clone(), params: params.clone() },
            NodeKind::Comment { text } => NodeKind::Comment { text: text.clone() },
            NodeKind::Decl { prop, value, important } => NodeKind::Decl {
                prop: prop.clone(),
                value: value.clone(),
                important: *important,
            },
            NodeKind::Document => NodeKind::Document,
            NodeKind::Root => NodeKind::Root,
            NodeKind::Rule { selector } => NodeKind::Rule { selector: selector.clone() },
        }
    }
}

/// A `{ raw, value }` pair: the source text of a value and its cleaned form.
///
/// The stringifier prints `raw` only while `value` still matches, so writing to
/// the node's value makes the stale raw text stop being printed.
#[derive(Clone, Debug)]
pub struct RawValue {
    /// The text exactly as it appeared in the source.
    pub raw: String,
    /// The cleaned value this raw text corresponds to.
    pub value: String,
}

impl RawValue {
    /// A copy of this pair.
    pub fn duplicate(&self) -> (r: RawValue)
        ensures
            r == *self,
    {
        RawValue { raw: self.raw.clone(), value: self.value.clone() }
    }
}

/// The value of a raw that a custom syntax or plugin added.
#[derive(Clone, Debug)]
pub enum ExtraRaw {
    /// A string value.
    Text(String),
    /// Any other value, as JSON text.
    Json(String),
}

/// Whitespace, comments and other source text that carries no meaning but
/// must be kept to print the input back unchanged.
///
/// Every field is `None` when absent, which the stringifier tells apart from
/// an empty string: absent means "infer from the rest of the document", empty
/// means "there really is nothing here".
#[derive(Clone, Debug)]
pub struct Raws {
    /// Whitespace before the node.
    pub before: Option<String>,
    /// Whitespace after the last child, before the closing brace.
    pub after: Option<String>,
    /// Text between a selector or property and the `{` or `:`.
    pub between: Option<String>,
    /// Text between an at-rule's name and its params.
    pub after_name: Option<String>,
    /// Text between `/*` and a comment's text.
    pub left: Option<String>,
    /// Text between a comment's text and `*/`.
    pub right: Option<String>,
    /// The `!important` text as written, when it is not exactly ` !important`.
    pub important: Option<String>,
    /// A `;` that followed a rule's closing brace.
    pub own_semicolon: Option<String>,
    /// Whether the last child is followed by a `;`.
    pub semicolon: Option<bool>,
    /// Indentation, set on roots by custom syntaxes.
    pub indent: Option<String>,
    /// Source text of a declaration's value, when it differs from `value`.
    pub value: Option<RawValue>,
    /// Source text of an at-rule's params, when it differs from `params`.
    pub params: Option<RawValue>,
    /// Source text of a rule's selector, when it differs from `selector`.
    pub selector: Option<RawValue>,
    /// Keys a custom syntax or plugin added, each at most once.
    pub extra: Vec<(String, ExtraRaw)>,
}

/// The string value of a custom raw, the first entry under `key`.
pub open spec fn spec_extra_text(extra: Seq<(String, ExtraRaw)>, key: Seq<char>) -> Option<Seq<char>>
    decreases extra.len(),
{
    if extra.len() == 0 {
        None
    } else if extra[0].0@ == key {
        match extra[0].1 {
            ExtraRaw::Text(s) => Some(s@),
            ExtraRaw::Json(_) => None,
        }
    } else {
        spec_extra_text(extra.drop_first(), key)
    }
}

/// Position of the first custom raw under `key`.
pub open spec fn spec_extra_index(extra: Seq<(String, ExtraRaw)>, key: Seq<char>) -> Option<int>
    decreases extra.len(),
{
    if extra.len() == 0 {
        None
    } else if extra[0].0@ == key {
        Some(0)
    } else {
        match spec_extra_index(extra.drop_first(), key) {
            Some(i) => Some(i + 1),
            None => None,
        }
    }
}

/// The keys of the string raws that have a field of their own.
pub open spec fn spec_is_string_key(key: Seq<char>) -> bool {
    ||| key == "before"@
    ||| key == "after"@
    ||| key == "between"@
    ||| key == "afterName"@
    ||| key == "left"@
    ||| key == "right"@
    ||| key == "important"@
    ||| key == "ownSemicolon"@
    ||| key == "indent"@
}

/// A string-valued raw by its key name.
pub open spec fn spec_raw_str(r: Raws, key: Seq<char>) -> Option<Seq<char>> {
    if key == "before"@ {
        opt_view(r.before)
    } else if key == "after"@ {
        opt_view(r.after)
    } else if key == "between"@ {
        opt_view(r.between)
    } else if key == "afterName"@ {
        opt_view(r.after_name)
    } else if key == "left"@ {
        opt_view(r.left)
    } else if key == "right"@ {
        opt_view(r.right)
    } else if key == "important"@ {
        opt_view(r.important)
    } else if key == "ownSemicolon"@ {
        opt_view(r.own_semicolon)
    } else if key == "indent"@ {
        opt_view(r.indent)
    } else {
        spec_extra_text(r.extra@, key)
    }
}

/// The `{ raw, value }` pair of a value-like property.
pub open spec fn spec_raw_pair(r: Raws, key: Seq<char>) -> Option<RawValue> {
    if key == "value"@ {
        r.value
    } else if key == "params"@ {
        r.params
    } else if key == "selector"@ {
        r.selector
    } else {
        None
    }
}

/// An `Option<&str>` by its characters.
pub open spec fn opt_str_view(o: Option<&str>) -> Option<Seq<char>> {
    match o {
        Some(s) => Some(s@),
        None => None,
    }
}

/// Whether two strings hold the same characters.
pub fn str_eq(a: &str, b: &str) -> (r: bool)
    ensures
        r == (a@ == b@),
{
    let x = chars_of(a);
    let y = chars_of(b);
    chars_eq(&x, &y)
}

fn opt_as_str(o: &Option<String>) -> (r: Option<&str>)
    ensures
        opt_str_view(r) == opt_view(*o),
{
    match o {
        Some(s) => Some(s.as_str()),
        None => None,
    }
}

fn extra_text<'a>(extra: &'a Vec<(String, ExtraRaw)>, key: &str) -> (r: Option<&'a str>)
    ensures
        opt_str_view(r) == spec_extra_text(extra@, key@),
{
    let mut i: usize = 0;
    proof {
        assert(extra@.skip(0) =~= extra@);
    }
    while i < extra.len()
        invariant
            i <= extra.len(),
            spec_extra_text(extra@, key@) == spec_extra_text(extra@.skip(i as int), key@),
        decreases extra.len() - i,
    {
        proof {
            assert(extra@.skip(i as int).drop_first() =~= extra@.skip(i + 1));
        }
        if str_eq(extra[i].0.as_str(), key) {
            return match &extra[i].1 {
                ExtraRaw::Text(s) => Some(s.as_str()),
                ExtraRaw::Json(_) => None,
            };
        }
        i = i + 1;
    }
    None
}

fn extra_index(extra: &Vec<(String, ExtraRaw)>, key: &str) -> (r: Option<usize>)
    ensures
        match r {
            Some(i) => spec_extra_index(extra@, key@) == Some(i as int) && i < extra.len(),
            None => spec_extra_index(extra@, key@) is None,
        },
{
    let mut i: usize = 0;
    proof {
        assert(extra@.skip(0) =~= extra@);
    }
    while i < extra.len()
        invariant
            i <= extra.len(),
            spec_extra_index(extra@, key@) == match spec_extra_index(extra@.skip(i as int), key@) {
                Some(j) => Some(j + i),
                None => None,
            },
        decreases extra.len() - i,
    {
        proof {
            assert(extra@.skip(i as int).drop_first() =~= extra@.skip(i + 1));
        }
        if str_eq(extra[i].0.as_str(), key) {
            return Some(i);
        }
        i = i + 1;
    }
    None
}

/// The key names, spelled out.
pub proof fn lemma_raw_keys()
    ensures
        "before"@ == seq!['b', 'e', 'f', 'o', 'r', 'e'],
        "after"@ == seq!['a', 'f', 't', 'e', 'r'],
        "between"@ == seq!['b', 'e', 't', 'w', 'e', 'e', 'n'],
        "afterName"@ == seq!['a', 'f', 't', 'e', 'r', 'N', 'a', 'm', 'e'],
        "left"@ == seq!['l', 'e', 'f', 't'],
        "right"@ == seq!['r', 'i', 'g', 'h', 't'],
        "important"@ == seq!['i', 'm', 'p', 'o', 'r', 't', 'a', 'n', 't'],
        "ownSemicolon"@ == seq!['o', 'w', 'n', 'S', 'e', 'm', 'i', 'c', 'o', 'l', 'o', 'n'],
        "indent"@ == seq!['i', 'n', 'd', 'e', 'n', 't'],
        "semicolon"@ == seq!['s', 'e', 'm', 'i', 'c', 'o', 'l', 'o', 'n'],
        "value"@ == seq!['v', 'a', 'l', 'u', 'e'],
        "params"@ == seq!['p', 'a', 'r', 'a', 'm', 's'],
        "selector"@ == seq!['s', 'e', 'l', 'e', 'c', 't', 'o', 'r'],
{
    reveal_strlit("before");
    reveal_strlit("after");
    reveal_strlit("between");
    reveal_strlit("afterName");
    reveal_strlit("left");
    reveal_strlit("right");
    reveal_strlit("important");
    reveal_strlit("ownSemicolon");
    reveal_strlit("indent");
    reveal_strlit("semicolon");
    reveal_strlit("value");
    reveal_strlit("params");
    reveal_strlit("selector");
}

/// The key names, spelled out.
pub proof fn lemma_raw_keys_pub()
    ensures
        "value"@ == seq!['v', 'a', 'l', 'u', 'e'],
        "params"@ == seq!['p', 'a', 'r', 'a', 'm', 's'],
        "selector"@ == seq!['s', 'e', 'l', 'e', 'c', 't', 'o', 'r'],
{
    lemma_raw_keys();
}

/// Two raw sets hold the same values.
pub open spec fn spec_same_raws(a: Raws, b: Raws) -> bool {
    &&& a.before == b.before && a.after == b.after && a.between == b.between
    &&& a.after_name == b.after_name && a.left == b.left && a.right == b.right
    &&& a.important == b.important && a.own_semicolon == b.own_semicolon
    &&& a.semicolon == b.semicolon && a.indent == b.indent
    &&& a.value == b.value && a.params == b.params && a.selector == b.selector
    &&& a.extra@ == b.extra@
}

impl Raws {
    /// A raw set with every field absent.
    pub fn empty() -> (r: Raws)
        ensures
            spec_no_raws(r),
    {
        Raws {
            before: None,
            after: None,
            between: None,
            after_name: None,
            left: None,
            right: None,
            important: None,
            own_semicolon: None,
            semicolon: None,
            indent: None,
            value: None,
            params: None,
            selector: None,
            extra: Vec::new(),
        }
    }

    /// Reads a string-valued raw by its key name (`before`, `afterName`,
    /// `ownSemicolon`, or the key of a custom raw).
    pub fn get_str(&self, key: &str) -> (r: Option<&str>)
        ensures
            opt_str_view(r) == spec_raw_str(*self, key@),
    {
        proof {
            lemma_raw_keys();
        }
        if str_eq(key, "before") {
            opt_as_str(&self.before)
        } else if str_eq(key, "after") {
            opt_as_str(&self.after)
        } else if str_eq(key, "between") {
            opt_as_str(&self.between)
        } else if str_eq(key, "afterName") {
            opt_as_str(&self.after_name)
        } else if str_eq(key, "left") {
            opt_as_str(&self.left)
        } else if str_eq(key, "right") {
            opt_as_str(&self.right)
        } else if str_eq(key, "important") {
            opt_as_str(&self.important)
        } else if str_eq(key, "ownSemicolon") {
            opt_as_str(&self.own_semicolon)
        } else if str_eq(key, "indent") {
            opt_as_str(&self.indent)
        } else {
            extra_text(&self.extra, key)
        }
    }

    /// Writes a string-valued raw by its key name.
    pub fn set_str(&mut self, key: &str, value: String)
        ensures
            spec_raw_str(*final(self), key@) == Some(value@),
            forall|k: Seq<char>| k != key@ ==> spec_raw_str(*final(self), k) == spec_raw_str(*old(self), k),
            forall|k: Seq<char>| spec_raw_pair(*final(self), k) == spec_raw_pair(*old(self), k),
            final(self).semicolon == old(self).semicolon,
    {
        proof {
            lemma_raw_keys();
        }
        if str_eq(key, "before") {
            self.before = Some(value);
        } else if str_eq(key, "after") {
            self.after = Some(value);
        } else if str_eq(key, "between") {
            self.between = Some(value);
        } else if str_eq(key, "afterName") {
            self.after_name = Some(value);
        } else if str_eq(key, "left") {
            self.left = Some(value);
        } else if str_eq(key, "right") {
            self.right = Some(value);
        } else if str_eq(key, "important") {
            self.important = Some(value);
        } else if str_eq(key, "ownSemicolon") {
            self.own_semicolon = Some(value);
        } else if str_eq(key, "indent") {
            self.indent = Some(value);
        } else {
            let ghost before = self.extra@;
            match extra_index(&self.extra, key) {
                Some(i) => {
                    let name = to_owned_string(key);
                    self.extra.set(i, (name, ExtraRaw::Text(value)));
                    proof {
                        lemma_extra_update(before, key@, i as int, self.extra@);
                    }
                },
                None => {
                    let name = to_owned_string(key);
                    self.extra.push((name, ExtraRaw::Text(value)));
                    proof {
                        lemma_extra_push(before, key@, self.extra@);
                    }
                },
            }
        }
    }

    /// Removes a raw by its key name; `semicolon`, `value`, `params` and
    /// `selector` can be removed too, together with any string stored under
    /// those names.
    pub fn remove(&mut self, key: &str)
        ensures
            spec_raw_str(*final(self), key@) is None,
            forall|k: Seq<char>| k != key@ ==> spec_raw_str(*final(self), k) == spec_raw_str(*old(self), k),
            forall|k: Seq<char>| k != key@ ==> spec_raw_pair(*final(self), k) == spec_raw_pair(*old(self), k),
            spec_raw_pair(*final(self), key@) is None,
            final(self).semicolon == if key@ == "semicolon"@ { None } else { old(self).semicolon },
            spec_is_string_key(key@) ==> final(self).extra@ == old(self).extra@,
            !spec_is_string_key(key@) ==> spec_extra_index(final(self).extra@, key@) is None,
            final(self).extra@.len() <= old(self).extra@.len(),
    {
        proof {
            lemma_raw_keys();
        }
        if str_eq(key, "before") {
            self.before = None;
        } else if str_eq(key, "after") {
            self.after = None;
        } else if str_eq(key, "between") {
            self.between = None;
        } else if str_eq(key, "afterName") {
            self.after_name = None;
        } else if str_eq(key, "left") {
            self.left = None;
        } else if str_eq(key, "right") {
            self.right = None;
        } else if str_eq(key, "important") {
            self.important = None;
        } else if str_eq(key, "ownSemicolon") {
            self.own_semicolon = None;
        } else if str_eq(key, "indent") {
            self.indent = None;
        } else {
            if str_eq(key, "semicolon") {
                self.semicolon = None;
            } else if str_eq(key, "value") {
                self.value = None;
            } else if str_eq(key, "params") {
                self.params = None;
            } else if str_eq(key, "selector") {
                self.selector = None;
            }
            let mut extra: Vec<(String, ExtraRaw)> = Vec::new();
            std::mem::swap(&mut extra, &mut self.extra);
            let ghost start = extra@;
            loop
                invariant
                    forall|k: Seq<char>| k != key@ ==> spec_extra_text(extra@, k) == spec_extra_text(start, k),
                    extra@.len() <= start.len(),
                ensures
                    forall|k: Seq<char>| k != key@ ==> spec_extra_text(extra@, k) == spec_extra_text(start, k),
                    extra@.len() <= start.len(),
                    spec_extra_index(extra@, key@) is None,
                decreases extra@.len(),
            {
                let ghost before = extra@;
                match extra_index(&extra, key) {
                    Some(i) => {
                        extra.remove(i);
                        proof {
                            lemma_extra_remove(before, key@, i as int, extra@);
                        }
                    },
                    None => {
                        break;
                    },
                }
            }
            self.extra = extra;
            proof {
                lemma_extra_absent(self.extra@, key@);
            }
        }
    }

    /// The `{ raw, value }` pair of a value-like property: `value`, `params`
    /// or `selector`.
    pub fn raw_value(&self, key: &str) -> (r: Option<&RawValue>)
        ensures
            match r {
                Some(p) => spec_raw_pair(*self, key@) == Some(*p),
                None => spec_raw_pair(*self, key@) is None,
            },
    {
        proof {
            lemma_raw_keys();
        }
        if str_eq(key, "value") {
            self.value.as_ref()
        } else if str_eq(key, "params") {
            self.params.as_ref()
        } else if str_eq(key, "selector") {
            self.selector.as_ref()
        } else {
            None
        }
    }

    /// Sets the `{ raw, value }` pair of `value`, `params` or `selector`; other
    /// keys change nothing.
    pub fn set_raw_value(&mut self, key: &str, value: RawValue)
        ensures
            (key@ == "value"@ || key@ == "params"@ || key@ == "selector"@) ==> spec_raw_pair(*final(self), key@)
                == Some(value),
            forall|k: Seq<char>| k != key@ ==> spec_raw_pair(*final(self), k) == spec_raw_pair(*old(self), k),
            forall|k: Seq<char>| spec_raw_str(*final(self), k) == spec_raw_str(*old(self), k),
            final(self).semicolon == old(self).semicolon,
    {
        proof {
            lemma_raw_keys();
        }
        if str_eq(key, "value") {
            self.value = Some(value);
        } else if str_eq(key, "params") {
            self.params = Some(value);
        } else if str_eq(key, "selector") {
            self.selector = Some(value);
        }
    }

    /// A copy of these raws.
    pub fn duplicate(&self) -> (r: Raws)
        ensures
            spec_same_raws(r, *self),
    {
        let mut extra: Vec<(String, ExtraRaw)> = Vec::new();
        let mut i: usize = 0;
        while i < self.extra.len()
            invariant
                i <= self.extra.len(),
                extra@ == self.extra@.take(i as int),
            decreases self.extra.len() - i,
        {
            let entry = (self.extra[i].0.clone(), match &self.extra[i].1 {
                ExtraRaw::Text(s) => ExtraRaw::Text(s.clone()),
                ExtraRaw::Json(s) => ExtraRaw::Json(s.clone()),
            });
            proof {
                assert(entry == self.extra@[i as int]);
            }
            extra.push(entry);
            proof {
                assert(extra@ =~= self.extra@.take(i + 1));
            }
            i = i + 1;
        }
        proof {
            assert(extra@ =~= self.extra@);
        }
        Raws {
            before: clone_opt_string(&self.before),
            after: clone_opt_string(&self.after),
            between: clone_opt_string(&self.between),
            after_name: clone_opt_string(&self.after_name),
            left: clone_opt_string(&self.left),
            right: clone_opt_string(&self.right),
            important: clone_opt_string(&self.important),
            own_semicolon: clone_opt_string(&self.own_semicolon),
            semicolon: self.semicolon,
            indent: clone_opt_string(&self.indent),
            value: match &self.value {
                Some(v) => Some(v.duplicate()),
                None => None,
            },
            params: match &self.params {
                Some(v) => Some(v.duplicate()),
                None => None,
            },
            selector: match &self.selector {
                Some(v) => Some(v.duplicate()),
                None => None,
            },
            extra,
        }
    }
}

/// Every raw is absent.
pub open spec fn spec_no_raws(r: Raws) -> bool {
    &&& r.before is None && r.after is None && r.between is None && r.after_name is None
    &&& r.left is None && r.right is None && r.important is None && r.own_semicolon is None
    &&& r.semicolon is None && r.indent is None
    &&& r.value is None && r.params is None && r.selector is None
    &&& r.extra@.len() == 0
}

proof fn lemma_extra_text_at(extra: Seq<(String, ExtraRaw)>, key: Seq<char>, k: Seq<char>)
    ensures
        spec_extra_text(extra, k) == match spec_extra_index(extra, k) {
            Some(i) => match extra[i].1 {
                ExtraRaw::Text(s) => Some(s@),
                ExtraRaw::Json(_) => None,
            },
            None => None,
        },
        spec_extra_index(extra, k) matches Some(i) ==> 0 <= i < extra.len() && extra[i].0@ == k && forall|j: int|
            0 <= j < i ==> extra[j].0@ != k,
        spec_extra_index(extra, k) is None ==> forall|j: int| 0 <= j < extra.len() ==> extra[j].0@ != k,
    decreases extra.len(),
{
    if extra.len() > 0 && extra[0].0@ != k {
        lemma_extra_text_at(extra.drop_first(), key, k);
        assert forall|j: int| 0 <= j < extra.len() && (spec_extra_index(extra.drop_first(), k) is None || j
            < spec_extra_index(extra, k).unwrap()) implies extra[j].0@ != k by {
            if j > 0 {
                assert(extra[j] == extra.drop_first()[j - 1]);
            }
        }
    }
}

/// A key with no entry has no text.
proof fn lemma_extra_absent(extra: Seq<(String, ExtraRaw)>, key: Seq<char>)
    requires
        spec_extra_index(extra, key) is None,
    ensures
        spec_extra_text(extra, key) is None,
    decreases extra.len(),
{
    if extra.len() > 0 {
        lemma_extra_absent(extra.drop_first(), key);
    }
}

/// The first index of `k` after a change at `i` that keeps the key at `i`
/// (or puts `key` there) and leaves every other entry alone.
proof fn lemma_extra_index_same(a: Seq<(String, ExtraRaw)>, b: Seq<(String, ExtraRaw)>, k: Seq<char>)
    requires
        a.len() == b.len(),
        forall|j: int| 0 <= j < a.len() ==> (#[trigger] a[j]).0@ == b[j].0@,
    ensures
        spec_extra_index(a, k) == spec_extra_index(b, k),
    decreases a.len(),
{
    if a.len() > 0 {
        assert forall|j: int| 0 <= j < a.drop_first().len() implies (#[trigger] a.drop_first()[j]).0@
            == b.drop_first()[j].0@ by {
            assert(a.drop_first()[j] == a[j + 1]);
            assert(b.drop_first()[j] == b[j + 1]);
        }
        lemma_extra_index_same(a.drop_first(), b.drop_first(), k);
    }
}

proof fn lemma_extra_update(before: Seq<(String, ExtraRaw)>, key: Seq<char>, i: int, after: Seq<(String, ExtraRaw)>)
    requires
        spec_extra_index(before, key) == Some(i),
        0 <= i < before.len(),
        after.len() == before.len(),
        after[i].0@ == key,
        after[i].1 matches ExtraRaw::Text(_),
        forall|j: int| 0 <= j < before.len() && j != i ==> after[j] == before[j],
    ensures
        spec_extra_text(after, key) == Some(match after[i].1 {
            ExtraRaw::Text(s) => s@,
            ExtraRaw::Json(s) => s@,
        }),
        forall|k: Seq<char>| k != key ==> spec_extra_text(after, k) == spec_extra_text(before, k),
{
    lemma_extra_text_at(before, key, key);
    assert forall|j: int| 0 <= j < before.len() implies (#[trigger] before[j]).0@ == after[j].0@ by {
    }
    assert forall|k: Seq<char>| k != key implies spec_extra_text(after, k) == spec_extra_text(before, k) by {
        lemma_extra_index_same(before, after, k);
        lemma_extra_text_at(before, key, k);
        lemma_extra_text_at(after, key, k);
        if spec_extra_index(before, k) is Some {
            assert(spec_extra_index(before, k).unwrap() != i);
        }
    }
    lemma_extra_index_same(before, after, key);
    lemma_extra_text_at(after, key, key);
}

proof fn lemma_extra_push(before: Seq<(String, ExtraRaw)>, key: Seq<char>, after: Seq<(String, ExtraRaw)>)
    requires
        spec_extra_index(before, key) is None,
        after.len() == before.len() + 1,
        after[before.len() as int].0@ == key,
        after[before.len() as int].1 matches ExtraRaw::Text(_),
        forall|j: int| 0 <= j < before.len() ==> after[j] == before[j],
    ensures
        spec_extra_text(after, key) == Some(match after[before.len() as int].1 {
            ExtraRaw::Text(s) => s@,
            ExtraRaw::Json(s) => s@,
        }),
        forall|k: Seq<char>| k != key ==> spec_extra_text(after, k) == spec_extra_text(before, k),
    decreases before.len(),
{
    if before.len() > 0 {
        assert(spec_extra_index(before.drop_first(), key) is None);
        assert forall|j: int| 0 <= j < before.drop_first().len() implies after.drop_first()[j]
            == before.drop_first()[j] by {
            assert(after.drop_first()[j] == after[j + 1]);
        }
        assert(after.drop_first()[before.drop_first().len() as int] == after[before.len() as int]);
        lemma_extra_push(before.drop_first(), key, after.drop_first());
        assert(after[0] == before[0]);
        assert forall|k: Seq<char>| k != key implies spec_extra_text(after, k) == spec_extra_text(before, k) by {
            assert(spec_extra_text(after.drop_first(), k) == spec_extra_text(before.drop_first(), k));
        }
    } else {
        assert(after.drop_first().len() == 0);
        assert forall|k: Seq<char>| k != key implies spec_extra_text(after, k) == spec_extra_text(before, k) by {
            assert(spec_extra_text(after.drop_first(), k) is None);
        }
    }
}

proof fn lemma_extra_remove(before: Seq<(String, ExtraRaw)>, key: Seq<char>, i: int, after: Seq<(String, ExtraRaw)>)
    requires
        spec_extra_index(before, key) == Some(i),
        0 <= i < before.len(),
        after == before.remove(i),
        spec_extra_index(before.remove(i), key) is None || true,
    ensures
        forall|k: Seq<char>| k != key ==> spec_extra_text(after, k) == spec_extra_text(before, k),
    decreases before.len(),
{
    if i > 0 {
        assert(before.drop_first().remove(i - 1) =~= after.drop_first());
        lemma_extra_remove(before.drop_first(), key, i - 1, after.drop_first());
        assert(after[0] == before[0]);
        assert forall|k: Seq<char>| k != key implies spec_extra_text(after, k) == spec_extra_text(before, k) by {
            assert(spec_extra_text(after.drop_first(), k) == spec_extra_text(before.drop_first(), k));
        }
    } else {
        assert(after =~= before.drop_first());
        lemma_extra_text_at(before, key, key);
        assert forall|k: Seq<char>| k != key implies spec_extra_text(after, k) == spec_extra_text(before, k) by {
            assert(before[0].0@ == key);
        }
    }
}

/// A position in a source file.
#[derive(Clone, Copy, Debug, PartialEq, Eq, Structural)]
pub struct Position {
    /// 1-based line.
    pub line: usize,
    /// 1-based character column.
    pub column: usize,
    /// UTF-8 byte offset.
    pub offset: usize,
}

/// Where a node came from.
#[derive(Clone, Copy, Debug, PartialEq, Eq, Structural)]
pub struct Source {
    /// Index of the input this node was parsed from, among the tree's inputs.
    pub input: usize,
    /// Position of the node's first character.
    pub start: Option<Position>,
    /// Position of the node's last character, inclusive; `offset` is exclusive.
    pub end: Option<Position>,
}

/// A node to be created and inserted, as taken by
/// [`crate::tree::Tree::append`] and its siblings.
#[derive(Debug)]
pub struct NewNode {
    /// The node's type and type-specific fields.
    pub kind: NodeKind,
    /// Whitespace and other source text to use.
    pub raws: Raws,
    /// Source position to attribute the node to.
    pub source: Option<Source>,
    /// Children, for container nodes.
    pub nodes: Option<Vec<NewNode>>,
}

impl NewNode {
    fn of(kind: NodeKind) -> (n: NewNode)
        ensures
            n.kind == kind,
            spec_no_raws(n.raws),
            n.source is None,
            match n.nodes {
                Some(v) => spec_born_container(kind) && v@.len() == 0,
                None => !spec_born_container(kind),
            },
    {
        let nodes = match kind {
            NodeKind::Root | NodeKind::Document | NodeKind::Rule { .. } => Some(Vec::new()),
            _ => None,
        };
        NewNode { kind, raws: Raws::empty(), source: None, nodes }
    }

    /// `prop: value`
    pub fn decl(prop: String, value: String) -> (n: NewNode)
        ensures
            n.kind == (NodeKind::Decl { prop, value, important: false }),
            spec_no_raws(n.raws),
            n.source is None,
            n.nodes is None,
    {
        NewNode::of(NodeKind::Decl { prop, value, important: false })
    }

    /// `selector { }`
    pub fn rule(selector: String) -> (n: NewNode)
        ensures
            n.kind == (NodeKind::Rule { selector }),
            spec_no_raws(n.raws),
            n.source is None,
            n.nodes matches Some(v) && v@.len() == 0,
    {
        NewNode::of(NodeKind::Rule { selector })
    }

    /// `@name params`, without a block unless [`NewNode::child`] adds one.
    pub fn at_rule(name: String, params: String) -> (n: NewNode)
        ensures
            n.kind == (NodeKind::AtRule { name, params }),
            spec_no_raws(n.raws),
            n.source is None,
            n.nodes is None,
    {
        NewNode::of(NodeKind::AtRule { name, params })
    }

    /// `/* text */`
    pub fn comment(text: String) -> (n: NewNode)
        ensures
            n.kind == (NodeKind::Comment { text }),
            spec_no_raws(n.raws),
            n.source is None,
            n.nodes is None,
    {
        NewNode::of(NodeKind::Comment { text })
    }

    /// An empty root.
    pub fn root() -> (n: NewNode)
        ensures
            n.kind == NodeKind::Root,
            spec_no_raws(n.raws),
            n.source is None,
            n.nodes matches Some(v) && v@.len() == 0,
    {
        NewNode::of(NodeKind::Root)
    }

    /// Marks a declaration `!important`; other kinds are unchanged.
    pub fn important(self, important: bool) -> (n: NewNode)
        ensures
            n.kind == match self.kind {
                NodeKind::Decl { prop, value, .. } => NodeKind::Decl { prop, value, important },
                k => k,
            },
            n.raws == self.raws,
            n.source == self.source,
            n.nodes == self.nodes,
    {
        let NewNode { kind, raws, source, nodes } = self;
        let kind = match kind {
            NodeKind::Decl { prop, value, .. } => NodeKind::Decl { prop, value, important },
            k => k,
        };
        NewNode { kind, raws, source, nodes }
    }

    /// Adds a child, giving an at-rule a block if it had none.
    pub fn child(self, child: NewNode) -> (n: NewNode)
        ensures
            n.kind == self.kind,
            n.raws == self.raws,
            n.source == self.source,
            n.nodes matches Some(v) && v@ == match self.nodes {
                Some(old) => old@,
                None => Seq::empty(),
            }.push(child),
    {
        let NewNode { kind, raws, source, nodes } = self;
        let mut list = match nodes {
            Some(v) => v,
            None => Vec::new(),
        };
        list.push(child);
        NewNode { kind, raws, source, nodes: Some(list) }
    }

    /// Sets `raws.before`.
    pub fn before(self, before: String) -> (n: NewNode)
        ensures
            n.kind == self.kind,
            n.raws == (Raws { before: Some(before), ..self.raws }),
            n.source == self.source,
            n.nodes == self.nodes,
    {
        let NewNode { kind, mut raws, source, nodes } = self;
        raws.before = Some(before);
        NewNode { kind, raws, source, nodes }
    }

    /// Sets `raws.between`.
    pub fn between(self, between: String) -> (n: NewNode)
        ensures
            n.kind == self.kind,
            n.raws == (Raws { between: Some(between), ..self.raws }),
            n.source == self.source,
            n.nodes == self.nodes,
    {
        let NewNode { kind, mut raws, source, nodes } = self;
        raws.between = Some(between);
        NewNode { kind, raws, source, nodes }
    }

    /// Replaces the whole raw set.
    pub fn raws(self, raws: Raws) -> (n: NewNode)
        ensures
            n.kind == self.kind,
            n.raws == raws,
            n.source == self.source,
            n.nodes == self.nodes,
    {
        let NewNode { kind, raws: _, source, nodes } = self;
        NewNode { kind, raws, source, nodes }
    }
}

} // verus!
