//! A tree as JSON values and back.

use vstd::prelude::*;

use crate::input::Input;
use crate::node::{spec_type_label, ExtraRaw, NodeId, NodeKind, Position, RawValue, Raws, Source};
use crate::text::to_owned_string;
use crate::tree::{kids_of, NodeView, Tree};

verus! {

/// A JSON value.
#[derive(Debug, PartialEq, Eq)]
pub enum Json {
    /// `null`.
    Null,
    /// `true` or `false`.
    Bool(bool),
    /// A non-negative integer.
    Number(u64),
    /// A string.
    Text(String),
    /// JSON text kept as written.
    Raw(String),
    /// An array.
    Array(Vec<Json>),
    /// An object, its entries in order.
    Object(Vec<(String, Json)>),
}

/// A JSON value as the contracts see it.
pub enum JsonView {
    /// `null`.
    Null,
    /// `true` or `false`.
    Bool(bool),
    /// A non-negative integer.
    Number(u64),
    /// A string.
    Text(Seq<char>),
    /// JSON text kept as written.
    Raw(Seq<char>),
    /// An array.
    Array(Seq<JsonView>),
    /// An object, its entries in order.
    Object(Seq<(Seq<char>, JsonView)>),
}

impl Json {
    /// The value as the contracts see it.
    pub open spec fn view(&self) -> JsonView
        decreases self,
    {
        match self {
            Json::Null => JsonView::Null,
            Json::Bool(b) => JsonView::Bool(*b),
            Json::Number(n) => JsonView::Number(*n),
            Json::Text(s) => JsonView::Text(s@),
            Json::Raw(s) => JsonView::Raw(s@),
            Json::Array(v) => JsonView::Array(
                Seq::new(
                    v@.len(),
                    |i: int|
                        if 0 <= i < v@.len() {
                            proof {
                                assert(decreases_to!(v => v@));
                                assert(decreases_to!(v@ => v@[i]));
                            }
                            v@[i].view()
                        } else {
                            JsonView::Null
                        },
                ),
            ),
            Json::Object(v) => JsonView::Object(
                Seq::new(
                    v@.len(),
                    |i: int|
                        if 0 <= i < v@.len() {
                            proof {
                                assert(decreases_to!(v => v@));
                                assert(decreases_to!(v@ => v@[i]));
                                assert(decreases_to!(v@[i] => v@[i].1));
                            }
                            (v@[i].0@, v@[i].1.view())
                        } else {
                            (Seq::empty(), JsonView::Null)
                        },
                ),
            ),
        }
    }
}

/// Object entries as the contracts see them.
pub open spec fn spec_entries(v: Seq<(String, Json)>) -> Seq<(Seq<char>, JsonView)> {
    Seq::new(v.len(), |i: int| (v[i].0@, v[i].1.view()))
}

/// Array items as the contracts see them.
pub open spec fn spec_items(v: Seq<Json>) -> Seq<JsonView> {
    Seq::new(v.len(), |i: int| v[i].view())
}

proof fn lemma_object_view(v: Vec<(String, Json)>)
    ensures
        Json::Object(v).view() == JsonView::Object(spec_entries(v@)),
{
    let o = Json::Object(v).view();
    assert(o is Object);
    let s = o->Object_0;
    assert(s.len() == v@.len());
    assert forall|i: int| 0 <= i < s.len() implies s[i] == spec_entries(v@)[i] by {
    }
    assert(s =~= spec_entries(v@));
}

proof fn lemma_array_view(v: Vec<Json>)
    ensures
        Json::Array(v).view() == JsonView::Array(spec_items(v@)),
{
    let o = Json::Array(v).view();
    assert(o is Array);
    let s = o->Array_0;
    assert(s.len() == v@.len());
    assert forall|i: int| 0 <= i < s.len() implies s[i] == spec_items(v@)[i] by {
    }
    assert(s =~= spec_items(v@));
}

/// Appends an entry to an object under construction.
fn push_entry(entries: &mut Vec<(String, Json)>, key: &str, value: Json)
    ensures
        spec_entries(final(entries)@) == spec_entries(old(entries)@).push((key@, value.view())),
{
    let ghost v = value.view();
    entries.push((to_owned_string(key), value));
    assert(spec_entries(entries@) =~= spec_entries(old(entries)@).push((key@, v)));
}

/// An entry holding a string, when there is one.
pub open spec fn spec_opt_entry(key: Seq<char>, o: Option<String>) -> Seq<(Seq<char>, JsonView)> {
    match o {
        Some(s) => seq![(key, JsonView::Text(s@))],
        None => Seq::empty(),
    }
}

fn push_opt(entries: &mut Vec<(String, Json)>, key: &str, o: &Option<String>)
    ensures
        spec_entries(final(entries)@) == spec_entries(old(entries)@) + spec_opt_entry(key@, *o),
{
    match o {
        Some(s) => {
            push_entry(entries, key, Json::Text(s.clone()));
        },
        None => {
            assert(spec_entries(entries@) =~= spec_entries(old(entries)@) + spec_opt_entry(key@, *o));
        },
    }
}

/// A position: its column, line and offset.
pub open spec fn spec_position_json(p: Position) -> JsonView {
    JsonView::Object(
        seq![
            ("column"@, JsonView::Number(p.column as u64)),
            ("line"@, JsonView::Number(p.line as u64)),
            ("offset"@, JsonView::Number(p.offset as u64)),
        ],
    )
}

fn position_json(p: Position) -> (j: Json)
    ensures
        j.view() == spec_position_json(p),
{
    let mut e: Vec<(String, Json)> = Vec::new();
    push_entry(&mut e, "column", Json::Number(p.column as u64));
    push_entry(&mut e, "line", Json::Number(p.line as u64));
    push_entry(&mut e, "offset", Json::Number(p.offset as u64));
    proof {
        lemma_object_view(e);
        assert(spec_entries(e@) =~= seq![
            ("column"@, JsonView::Number(p.column as u64)),
            ("line"@, JsonView::Number(p.line as u64)),
            ("offset"@, JsonView::Number(p.offset as u64)),
        ]);
    }
    Json::Object(e)
}

/// A raw value: its source text and the value it stands for.
pub open spec fn spec_raw_value_json(r: RawValue) -> JsonView {
    JsonView::Object(seq![("raw"@, JsonView::Text(r.raw@)), ("value"@, JsonView::Text(r.value@))])
}

/// The raw value a node of this kind keeps, under its key.
pub open spec fn spec_raw_value_entry(raws: Raws, kind: NodeKind) -> Seq<(Seq<char>, JsonView)> {
    match kind {
        NodeKind::Decl { .. } => match raws.value {
            Some(r) => seq![("value"@, spec_raw_value_json(r))],
            None => Seq::empty(),
        },
        NodeKind::AtRule { .. } => match raws.params {
            Some(r) => seq![("params"@, spec_raw_value_json(r))],
            None => Seq::empty(),
        },
        NodeKind::Rule { .. } => match raws.selector {
            Some(r) => seq![("selector"@, spec_raw_value_json(r))],
            None => Seq::empty(),
        },
        _ => Seq::empty(),
    }
}

/// The custom raws, each under its key: a string, or the JSON it holds.
pub open spec fn spec_extra_json(extra: Seq<(String, ExtraRaw)>) -> Seq<(Seq<char>, JsonView)> {
    Seq::new(
        extra.len(),
        |i: int|
            (
                extra[i].0@,
                match extra[i].1 {
                    ExtraRaw::Text(s) => JsonView::Text(s@),
                    ExtraRaw::Json(s) => JsonView::Raw(s@),
                },
            ),
    )
}

/// A node's raws as JSON, in the order the keys are written.
pub open spec fn spec_raws_json(r: Raws, kind: NodeKind) -> JsonView {
    JsonView::Object(
        spec_opt_entry("before"@, r.before) + spec_opt_entry("between"@, r.between) + spec_opt_entry(
            "afterName"@,
            r.after_name,
        ) + spec_opt_entry("left"@, r.left) + spec_opt_entry("right"@, r.right) + spec_opt_entry(
            "important"@,
            r.important,
        ) + spec_opt_entry("indent"@, r.indent) + match r.semicolon {
            Some(b) => seq![("semicolon"@, JsonView::Bool(b))],
            None => Seq::empty(),
        } + spec_opt_entry("ownSemicolon"@, r.own_semicolon) + spec_opt_entry("after"@, r.after)
            + spec_raw_value_entry(r, kind) + spec_extra_json(r.extra@),
    )
}

fn raw_value_json(r: &RawValue) -> (j: Json)
    ensures
        j.view() == spec_raw_value_json(*r),
{
    let mut e: Vec<(String, Json)> = Vec::new();
    push_entry(&mut e, "raw", Json::Text(r.raw.clone()));
    push_entry(&mut e, "value", Json::Text(r.value.clone()));
    proof {
        lemma_object_view(e);
        assert(spec_entries(e@) =~= seq![("raw"@, JsonView::Text(r.raw@)), ("value"@, JsonView::Text(r.value@))]);
    }
    Json::Object(e)
}

fn raws_json(r: &Raws, kind: &NodeKind) -> (j: Json)
    ensures
        j.view() == spec_raws_json(*r, *kind),
{
    let mut e: Vec<(String, Json)> = Vec::new();
    push_opt(&mut e, "before", &r.before);
    push_opt(&mut e, "between", &r.between);
    push_opt(&mut e, "afterName", &r.after_name);
    push_opt(&mut e, "left", &r.left);
    push_opt(&mut e, "right", &r.right);
    push_opt(&mut e, "important", &r.important);
    push_opt(&mut e, "indent", &r.indent);
    let ghost e7 = spec_entries(e@);
    match r.semicolon {
        Some(b) => {
            push_entry(&mut e, "semicolon", Json::Bool(b));
        },
        None => {},
    }
    proof {
        assert(spec_entries(e@) =~= e7 + match r.semicolon {
            Some(b) => seq![("semicolon"@, JsonView::Bool(b))],
            None => Seq::<(Seq<char>, JsonView)>::empty(),
        });
    }
    push_opt(&mut e, "ownSemicolon", &r.own_semicolon);
    push_opt(&mut e, "after", &r.after);
    let ghost e10 = spec_entries(e@);
    let rv = match kind {
        NodeKind::Decl { .. } => match &r.value {
            Some(x) => Some(("value", x)),
            None => None,
        },
        NodeKind::AtRule { .. } => match &r.params {
            Some(x) => Some(("params", x)),
            None => None,
        },
        NodeKind::Rule { .. } => match &r.selector {
            Some(x) => Some(("selector", x)),
            None => None,
        },
        _ => None,
    };
    match rv {
        Some((key, x)) => {
            let j = raw_value_json(x);
            push_entry(&mut e, key, j);
        },
        None => {},
    }
    proof {
        assert(spec_entries(e@) =~= e10 + spec_raw_value_entry(*r, *kind));
    }
    let ghost e11 = spec_entries(e@);
    let mut i: usize = 0;
    while i < r.extra.len()
        invariant
            i <= r.extra@.len(),
            spec_entries(e@) == e11 + spec_extra_json(r.extra@.take(i as int)),
        decreases r.extra@.len() - i,
    {
        let (key, value) = &r.extra[i];
        let j = match value {
            ExtraRaw::Text(s) => Json::Text(s.clone()),
            ExtraRaw::Json(s) => Json::Raw(s.clone()),
        };
        push_entry(&mut e, key.as_str(), j);
        proof {
            assert(spec_extra_json(r.extra@.take(i + 1)) =~= spec_extra_json(r.extra@.take(i as int)).push(
                spec_extra_json(r.extra@)[i as int],
            ));
        }
        i = i + 1;
    }
    proof {
        assert(r.extra@.take(r.extra@.len() as int) =~= r.extra@);
        lemma_object_view(e);
        assert(spec_entries(e@) =~= spec_opt_entry("before"@, r.before) + spec_opt_entry("between"@, r.between)
            + spec_opt_entry("afterName"@, r.after_name) + spec_opt_entry("left"@, r.left) + spec_opt_entry(
            "right"@,
            r.right,
        ) + spec_opt_entry("important"@, r.important) + spec_opt_entry("indent"@, r.indent) + match r.semicolon {
            Some(b) => seq![("semicolon"@, JsonView::Bool(b))],
            None => Seq::empty(),
        } + spec_opt_entry("ownSemicolon"@, r.own_semicolon) + spec_opt_entry("after"@, r.after)
            + spec_raw_value_entry(*r, *kind) + spec_extra_json(r.extra@));
    }
    Json::Object(e)
}

/// The fields of a node's kind, in the order they are written.
pub open spec fn spec_kind_entries(k: NodeKind) -> Seq<(Seq<char>, JsonView)> {
    match k {
        NodeKind::AtRule { name, params } => seq![("name"@, JsonView::Text(name@)), ("params"@, JsonView::Text(params@))],
        NodeKind::Comment { text } => seq![("text"@, JsonView::Text(text@))],
        NodeKind::Decl { prop, value, important } => seq![("prop"@, JsonView::Text(prop@))] + (if important {
            seq![("important"@, JsonView::Bool(true))]
        } else {
            Seq::empty()
        }) + seq![("value"@, JsonView::Text(value@))],
        NodeKind::Rule { selector } => seq![("selector"@, JsonView::Text(selector@))],
        _ => Seq::empty(),
    }
}

/// A node's source, when it has one: its end, its input's index, its
/// start.
pub open spec fn spec_source_entry(src: Option<Source>) -> Seq<(Seq<char>, JsonView)> {
    match src {
        Some(s) => seq![
            (
                "source"@,
                JsonView::Object(
                    match s.end {
                        Some(p) => seq![("end"@, spec_position_json(p))],
                        None => Seq::empty(),
                    } + seq![("inputId"@, JsonView::Number(s.input as u64))] + match s.start {
                        Some(p) => seq![("start"@, spec_position_json(p))],
                        None => Seq::empty(),
                    },
                ),
            ),
        ],
        None => Seq::empty(),
    }
}

/// Children `ks` of `v` and their subtrees as JSON, down to `fuel` levels.
pub open spec fn spec_kids_json(v: Seq<NodeView>, ks: Seq<NodeId>, fuel: nat) -> Seq<JsonView>
    decreases fuel, 1int,
{
    Seq::new(ks.len(), |i: int| spec_node_json(v, ks[i], fuel))
}

/// Node `id` of `v` and its subtree as JSON, down to `fuel` levels.
pub open spec fn spec_node_json(v: Seq<NodeView>, id: NodeId, fuel: nat) -> JsonView
    decreases fuel, 0int,
{
    if fuel == 0 || id.0 >= v.len() {
        JsonView::Null
    } else {
        let n = v[id.0 as int];
        JsonView::Object(
            seq![("raws"@, spec_raws_json(n.raws, n.kind)), ("type"@, JsonView::Text(spec_type_label(n.kind)))]
                + spec_kind_entries(n.kind) + spec_source_entry(n.source) + match n.nodes {
                Some(ks) => seq![("nodes"@, JsonView::Array(spec_kids_json(v, ks, (fuel - 1) as nat)))],
                None => Seq::empty(),
            },
        )
    }
}

/// An input as JSON: whether it had a byte order mark, its CSS, its file
/// and id when known.
pub open spec fn spec_input_json(i: Input) -> JsonView {
    JsonView::Object(
        seq![("hasBOM"@, JsonView::Bool(i.has_bom())), ("css"@, JsonView::Text(i.css_view()))] + spec_opt_entry(
            "file"@,
            i.file(),
        ) + spec_opt_entry("id"@, i.id()),
    )
}

fn kind_entries(e: &mut Vec<(String, Json)>, k: &NodeKind)
    ensures
        spec_entries(final(e)@) == spec_entries(old(e)@) + spec_kind_entries(*k),
{
    match k {
        NodeKind::AtRule { name, params } => {
            push_entry(e, "name", Json::Text(name.clone()));
            push_entry(e, "params", Json::Text(params.clone()));
        },
        NodeKind::Comment { text } => {
            push_entry(e, "text", Json::Text(text.clone()));
        },
        NodeKind::Decl { prop, value, important } => {
            push_entry(e, "prop", Json::Text(prop.clone()));
            if *important {
                push_entry(e, "important", Json::Bool(true));
            }
            push_entry(e, "value", Json::Text(value.clone()));
        },
        NodeKind::Rule { selector } => {
            push_entry(e, "selector", Json::Text(selector.clone()));
        },
        _ => {},
    }
    assert(spec_entries(e@) =~= spec_entries(old(e)@) + spec_kind_entries(*k));
}

fn source_entry(e: &mut Vec<(String, Json)>, src: Option<&Source>)
    ensures
        spec_entries(final(e)@) == spec_entries(old(e)@) + spec_source_entry(
            match src {
                Some(s) => Some(*s),
                None => None,
            },
        ),
{
    match src {
        Some(s) => {
            let mut o: Vec<(String, Json)> = Vec::new();
            match s.end {
                Some(p) => {
                    push_entry(&mut o, "end", position_json(p));
                },
                None => {},
            }
            push_entry(&mut o, "inputId", Json::Number(s.input as u64));
            match s.start {
                Some(p) => {
                    push_entry(&mut o, "start", position_json(p));
                },
                None => {},
            }
            proof {
                lemma_object_view(o);
                assert(spec_entries(o@) =~= match s.end {
                    Some(p) => seq![("end"@, spec_position_json(p))],
                    None => Seq::<(Seq<char>, JsonView)>::empty(),
                } + seq![("inputId"@, JsonView::Number(s.input as u64))] + match s.start {
                    Some(p) => seq![("start"@, spec_position_json(p))],
                    None => Seq::<(Seq<char>, JsonView)>::empty(),
                });
            }
            push_entry(e, "source", Json::Object(o));
        },
        None => {},
    }
    assert(spec_entries(e@) =~= spec_entries(old(e)@) + spec_source_entry(
        match src {
            Some(s) => Some(*s),
            None => None,
        },
    ));
}

/// Node `id` and its subtree as JSON, down to `fuel` levels.
fn node_json(tree: &Tree, id: NodeId, fuel: usize) -> (j: Json)
    requires
        tree.wf(),
    ensures
        j.view() == spec_node_json(tree@, id, fuel as nat),
    decreases fuel,
{
    if fuel == 0 || id.0 >= tree.len() {
        return Json::Null;
    }
    let mut e: Vec<(String, Json)> = Vec::new();
    let kind = tree.kind(id);
    let raws = raws_json(tree.raws(id), kind);
    push_entry(&mut e, "raws", raws);
    push_entry(&mut e, "type", Json::Text(to_owned_string(kind.type_label())));
    kind_entries(&mut e, kind);
    source_entry(&mut e, tree.source(id));
    let ghost v = tree@;
    let ghost e4 = spec_entries(e@);
    match tree.nodes(id) {
        Some(ks) => {
            proof {
                assert(crate::tree::node_links_ok(v, id.0 as int));
            }
            let mut items: Vec<Json> = Vec::new();
            let mut k: usize = 0;
            while k < ks.len()
                invariant
                    k <= ks@.len(),
                    tree.wf(),
                    tree@ == v,
                    fuel > 0,
                    spec_items(items@) == Seq::new(k as nat, |i: int| spec_node_json(v, ks@[i], (fuel - 1) as nat)),
                decreases ks@.len() - k,
            {
                let j = node_json(tree, ks[k], fuel - 1);
                let ghost jv = j.view();
                let ghost old_items = items@;
                items.push(j);
                proof {
                    assert(spec_items(items@) =~= spec_items(old_items).push(jv));
                    assert(spec_items(items@) =~= Seq::new(
                        (k + 1) as nat,
                        |i: int| spec_node_json(v, ks@[i], (fuel - 1) as nat),
                    ));
                }
                k = k + 1;
            }
            proof {
                lemma_array_view(items);
                assert(spec_items(items@) =~= spec_kids_json(v, ks@, (fuel - 1) as nat));
            }
            push_entry(&mut e, "nodes", Json::Array(items));
        },
        None => {},
    }
    proof {
        lemma_object_view(e);
        let n = v[id.0 as int];
        let target = seq![("raws"@, spec_raws_json(n.raws, n.kind)), ("type"@, JsonView::Text(spec_type_label(n.kind)))]
            + spec_kind_entries(n.kind) + spec_source_entry(n.source) + match n.nodes {
            Some(ks) => seq![("nodes"@, JsonView::Array(spec_kids_json(v, ks, (fuel - 1) as nat)))],
            None => Seq::empty(),
        };
        assert(spec_node_json(v, id, fuel as nat) == JsonView::Object(target));
        assert(spec_entries(e@) =~= seq![("raws"@, spec_raws_json(n.raws, n.kind)), ("type"@, JsonView::Text(spec_type_label(n.kind)))]
            + spec_kind_entries(n.kind) + spec_source_entry(n.source) + match n.nodes {
            Some(ks) => seq![("nodes"@, JsonView::Array(spec_kids_json(v, ks, (fuel - 1) as nat)))],
            None => Seq::empty(),
        });
    }
    Json::Object(e)
}

fn input_json(i: &Input) -> (j: Json)
    ensures
        j.view() == spec_input_json(*i),
{
    let mut e: Vec<(String, Json)> = Vec::new();
    push_entry(&mut e, "hasBOM", Json::Bool(i.bom()));
    push_entry(&mut e, "css", Json::Text(to_owned_string(i.css())));
    let file = match i.file_name() {
        Some(f) => Some(to_owned_string(f)),
        None => None,
    };
    let id = match i.id_name() {
        Some(x) => Some(to_owned_string(x)),
        None => None,
    };
    proof {
        assert(crate::error::opt_view(file) == crate::error::opt_view(i.file()));
    }
    let ghost e2 = spec_entries(e@);
    push_opt(&mut e, "file", &file);
    push_opt(&mut e, "id", &id);
    proof {
        lemma_object_view(e);
        assert(spec_opt_entry("file"@, file) == spec_opt_entry("file"@, i.file()));
        assert(spec_opt_entry("id"@, id) == spec_opt_entry("id"@, i.id()));
        assert(spec_entries(e@) =~= seq![("hasBOM"@, JsonView::Bool(i.has_bom())), ("css"@, JsonView::Text(i.css_view()))]
            + spec_opt_entry("file"@, i.file()) + spec_opt_entry("id"@, i.id()));
    }
    Json::Object(e)
}

/// Node `id` of tree `t` as JSON, with the tree's inputs added when the
/// node is written as an object.
pub open spec fn spec_node_to_json(t: Tree, id: NodeId) -> JsonView {
    match spec_node_json(t@, id, t@.len()) {
        JsonView::Object(es) => JsonView::Object(
            es.push(
                ("inputs"@, JsonView::Array(Seq::new(t.spec_inputs().len(), |i: int| spec_input_json(t.spec_inputs()[i])))),
            ),
        ),
        other => other,
    }
}

/// One node and its subtree as JSON, with the tree's inputs.
pub fn node_to_json(tree: &Tree, id: NodeId) -> (j: Json)
    requires
        tree.wf(),
    ensures
        j.view() == spec_node_to_json(*tree, id),
{
    let body = node_json(tree, id, tree.len());
    let mut inputs: Vec<Json> = Vec::new();
    let n = tree.input_count();
    let mut k: usize = 0;
    while k < n
        invariant
            k <= n,
            n == tree.spec_inputs().len(),
            spec_items(inputs@) == Seq::new(k as nat, |i: int| spec_input_json(tree.spec_inputs()[i])),
        decreases n - k,
    {
        let input = tree.input(k).unwrap();
        let j = input_json(input);
        let ghost jv = j.view();
        let ghost old_inputs = inputs@;
        inputs.push(j);
        proof {
            assert(spec_items(inputs@) =~= spec_items(old_inputs).push(jv));
            assert(spec_items(inputs@) =~= Seq::new((k + 1) as nat, |i: int| spec_input_json(tree.spec_inputs()[i])));
        }
        k = k + 1;
    }
    proof {
        lemma_array_view(inputs);
    }
    match body {
        Json::Object(es) => {
            let mut es = es;
            let ghost before = es;
            proof {
                lemma_object_view(before);
            }
            push_entry(&mut es, "inputs", Json::Array(inputs));
            proof {
                lemma_object_view(es);
            }
            Json::Object(es)
        },
        other => other,
    }
}

/// The whole tree as JSON, with its inputs.
pub fn to_json(tree: &Tree) -> (j: Json)
    requires
        tree.wf(),
    ensures
        j.view() == spec_node_to_json(*tree, tree.spec_root()),
{
    node_to_json(tree, tree.root())
}

/// The value under `key` in object entries: the first entry with it.
pub open spec fn spec_get(es: Seq<(Seq<char>, JsonView)>, key: Seq<char>) -> Option<JsonView>
    decreases es.len(),
{
    if es.len() == 0 {
        None
    } else if es[0].0 == key {
        Some(es[0].1)
    } else {
        spec_get(es.drop_first(), key)
    }
}

/// The `type` of a node written as JSON.
pub open spec fn spec_json_type(j: JsonView) -> Option<Seq<char>> {
    match j {
        JsonView::Object(es) => match spec_get(es, "type"@) {
            Some(JsonView::Text(t)) => Some(t),
            _ => None,
        },
        _ => None,
    }
}

/// The value under `key`.
fn get<'a>(es: &'a Vec<(String, Json)>, key: &str) -> (r: Option<&'a Json>)
    ensures
        match r {
            Some(j) => spec_get(spec_entries(es@), key@) == Some(j.view()) && exists|k: int|
                0 <= k < es@.len() && es@[k].1 == *j,
            None => spec_get(spec_entries(es@), key@) is None,
        },
{
    let mut i: usize = 0;
    proof {
        assert(spec_entries(es@).skip(0) =~= spec_entries(es@));
    }
    while i < es.len()
        invariant
            i <= es@.len(),
            spec_get(spec_entries(es@), key@) == spec_get(spec_entries(es@).skip(i as int), key@),
        decreases es@.len() - i,
    {
        proof {
            assert(spec_entries(es@).skip(i as int).drop_first() =~= spec_entries(es@).skip(i + 1));
        }
        if crate::node::str_eq(es[i].0.as_str(), key) {
            return Some(&es[i].1);
        }
        i = i + 1;
    }
    proof {
        assert(spec_entries(es@).skip(i as int).len() == 0);
    }
    None
}

/// The text under `key`, or nothing.
fn get_text(es: &Vec<(String, Json)>, key: &str) -> (r: String)
    ensures
        r@ == match spec_get(spec_entries(es@), key@) {
            Some(JsonView::Text(t)) => t,
            _ => Seq::empty(),
        },
{
    match get(es, key) {
        Some(Json::Text(t)) => t.clone(),
        _ => String::new(),
    }
}

/// The type of a node written as JSON.
fn json_type(value: &Json) -> (r: Option<&str>)
    ensures
        crate::node::opt_str_view(r) == spec_json_type(value.view()),
{
    proof {
        if let Json::Object(es) = value {
            lemma_object_view(*es);
        }
    }
    match value {
        Json::Object(es) => match get(es, "type") {
            Some(Json::Text(t)) => Some(t.as_str()),
            _ => None,
        },
        _ => None,
    }
}

/// An input written as JSON: its CSS, byte order mark, file and id.
fn input_from_json(value: &Json) -> (r: Result<Input, String>)
    ensures
        r matches Ok(i) ==> i.wf(),
{
    let (css, bom, file, id) = match value {
        Json::Object(es) => {
            let css = get_text(es, "css");
            let bom = match get(es, "hasBOM") {
                Some(Json::Bool(b)) => *b,
                _ => false,
            };
            let file = match get(es, "file") {
                Some(Json::Text(t)) => Some(t.clone()),
                _ => None,
            };
            let id = match get(es, "id") {
                Some(Json::Text(t)) => Some(t.clone()),
                _ => None,
            };
            (css, bom, file, id)
        },
        _ => (String::new(), false, None, None),
    };
    if css.as_str().as_bytes().len() >= 0x8000_0000 {
        return Err(to_owned_string("Input CSS too long"));
    }
    Ok(Input::from_json_parts(css, bom, file, id))
}

/// A position written as JSON; the offset defaults to 0.
fn position_from_json(value: &Json) -> (r: Option<Position>) {
    match value {
        Json::Object(es) => {
            let line = match get(es, "line") {
                Some(Json::Number(n)) => *n as usize,
                _ => {
                    return None;
                },
            };
            let column = match get(es, "column") {
                Some(Json::Number(n)) => *n as usize,
                _ => {
                    return None;
                },
            };
            let offset = match get(es, "offset") {
                Some(Json::Number(n)) => *n as usize,
                _ => 0,
            };
            Some(Position { line, column, offset })
        },
        _ => None,
    }
}

/// A source written as JSON, when it names one of the `inputs` inputs.
fn source_from_json(value: &Json, inputs: usize) -> (r: Option<Source>)
    ensures
        r matches Some(s) ==> s.input < inputs,
{
    match value {
        Json::Object(es) => {
            let input = match get(es, "inputId") {
                Some(Json::Number(n)) => *n as usize,
                _ => 0,
            };
            if input >= inputs {
                return None;
            }
            let start = match get(es, "start") {
                Some(p) => position_from_json(p),
                None => None,
            };
            let end = match get(es, "end") {
                Some(p) => position_from_json(p),
                None => None,
            };
            Some(Source { input, start, end })
        },
        _ => None,
    }
}

/// A node, without children, from its JSON.
fn new_node_from_json(value: &Json) -> (r: Result<crate::node::NewNode, String>)
    ensures
        r matches Ok(n) ==> crate::tree::spec_new_kids(n).len() == 0,
{
    let es = match value {
        Json::Object(es) => es,
        _ => {
            return Err(to_owned_string("Node is not an object"));
        },
    };
    let kind = match get(es, "type") {
        Some(Json::Text(t)) => t.as_str(),
        _ => {
            return Err(to_owned_string("Missing node type"));
        },
    };
    let mut node = if crate::node::str_eq(kind, "atrule") {
        crate::node::NewNode::at_rule(get_text(es, "name"), get_text(es, "params"))
    } else if crate::node::str_eq(kind, "comment") {
        crate::node::NewNode::comment(get_text(es, "text"))
    } else if crate::node::str_eq(kind, "decl") {
        let important = match get(es, "important") {
            Some(Json::Bool(b)) => *b,
            _ => false,
        };
        crate::node::NewNode::decl(get_text(es, "prop"), get_text(es, "value")).important(important)
    } else if crate::node::str_eq(kind, "root") {
        crate::node::NewNode::root()
    } else if crate::node::str_eq(kind, "rule") {
        crate::node::NewNode::rule(get_text(es, "selector"))
    } else {
        let mut m = to_owned_string("Unknown node type ");
        crate::text::push_str(&mut m, kind);
        return Err(m);
    };
    if get(es, "nodes").is_some() && node.nodes.is_none() {
        node.nodes = Some(Vec::new());
    }
    Ok(node)
}

/// Raws from their JSON: strings and `semicolon` set as they are named, the
/// raw value under the key the node's kind uses, anything else kept as JSON
/// text that `json_text` writes.
fn raws_from_json<F: Fn(&Json) -> String>(value: &Json, kind: &NodeKind, json_text: &F) -> (r: Raws)
    requires
        forall|j: &Json| call_requires(*json_text, (j,)),
{
    let mut raws = Raws::empty();
    let es = match value {
        Json::Object(es) => es,
        _ => {
            return raws;
        },
    };
    let expected = match kind {
        NodeKind::Decl { .. } => "value",
        NodeKind::AtRule { .. } => "params",
        NodeKind::Rule { .. } => "selector",
        _ => "",
    };
    let mut i: usize = 0;
    while i < es.len()
        invariant
            i <= es@.len(),
            forall|j: &Json| call_requires(*json_text, (j,)),
        decreases es@.len() - i,
    {
        let key = es[i].0.as_str();
        match &es[i].1 {
            Json::Bool(b) => {
                if crate::node::str_eq(key, "semicolon") {
                    raws.semicolon = Some(*b);
                } else {
                    let text = json_text(&es[i].1);
                    set_extra(&mut raws, key, text);
                }
            },
            Json::Text(t) => {
                raws.set_str(key, t.clone());
            },
            Json::Object(o) => {
                if crate::node::str_eq(key, expected) && expected.len() > 0 {
                    let rv = RawValue { raw: get_text(o, "raw"), value: get_text(o, "value") };
                    raws.set_raw_value(key, rv);
                } else {
                    let text = json_text(&es[i].1);
                    set_extra(&mut raws, key, text);
                }
            },
            Json::Raw(t) => {
                set_extra(&mut raws, key, t.clone());
            },
            _ => {
                let text = json_text(&es[i].1);
                set_extra(&mut raws, key, text);
            },
        }
        i = i + 1;
    }
    raws
}

/// Stores a custom raw that is not a string, replacing one of the same key.
fn set_extra(raws: &mut Raws, key: &str, text: String) {
    let mut i: usize = 0;
    while i < raws.extra.len()
        invariant
            i <= raws.extra@.len(),
        decreases raws.extra@.len() - i,
    {
        if crate::node::str_eq(raws.extra[i].0.as_str(), key) {
            raws.extra.set(i, (to_owned_string(key), ExtraRaw::Json(text)));
            return;
        }
        i = i + 1;
    }
    raws.extra.push((to_owned_string(key), ExtraRaw::Json(text)));
}

/// Fills node `id` from its JSON: its raws and source, then creates its
/// children in order.
fn apply_json<F: Fn(&Json) -> String>(
    tree: &mut Tree,
    id: NodeId,
    value: &Json,
    inputs: usize,
    json_text: &F,
) -> (r: Result<(), String>)
    requires
        old(tree).wf(),
        old(tree).has(id),
        inputs <= old(tree).spec_inputs().len(),
        forall|j: &Json| call_requires(*json_text, (j,)),
    ensures
        final(tree).wf(),
        final(tree).spec_root() == old(tree).spec_root(),
        final(tree).spec_inputs() == old(tree).spec_inputs(),
        final(tree)@.len() >= old(tree)@.len(),
        forall|x: int| 0 <= x < old(tree)@.len() ==> (#[trigger] final(tree)@[x]).kind == old(tree)@[x].kind,
    decreases value,
{
    let es = match value {
        Json::Object(es) => es,
        _ => {
            return Err(to_owned_string("Node is not an object"));
        },
    };
    if let Some(r) = get(es, "raws") {
        let raws = raws_from_json(r, tree.kind(id), json_text);
        let ghost t0 = *tree;
        *tree.raws_mut(id) = raws;
        proof {
            crate::tree::lemma_links_frame(t0@, tree@);
        }
    }
    if let Some(sj) = get(es, "source") {
        if let Some(src) = source_from_json(sj, inputs) {
            tree.set_source(id, src);
        }
    }
    if let Some(Json::Array(children)) = get(es, "nodes") {
        let ghost k0 = choose|k: int| 0 <= k < es@.len() && es@[k].1 == Json::Array(*children);
        tree.make_container(id);
        let mut i: usize = 0;
        while i < children.len()
            invariant
                i <= children@.len(),
                tree.wf(),
                tree.has(id),
                tree.spec_root() == old(tree).spec_root(),
                tree.spec_inputs() == old(tree).spec_inputs(),
                tree@.len() >= old(tree)@.len(),
                forall|x: int| 0 <= x < old(tree)@.len() ==> (#[trigger] tree@[x]).kind == old(tree)@[x].kind,
                inputs <= tree.spec_inputs().len(),
                forall|j: &Json| call_requires(*json_text, (j,)),
                0 <= k0 < es@.len(),
                es@[k0].1 == Json::Array(*children),
                *value == Json::Object(*es),
            decreases children@.len() - i,
        {
            let child = &children[i];
            let node = match new_node_from_json(child) {
                Ok(n) => n,
                Err(e) => {
                    return Err(e);
                },
            };
            let ghost t0 = tree@;
            let cid = tree.create(node);
            proof {
                assert forall|x: int| 0 <= x < t0.len() implies (#[trigger] tree@[x]).kind == t0[x].kind by {
                    assert(tree@.take(t0.len() as int)[x] == tree@[x]);
                }
            }
            tree.push_child_public(id, cid);
            proof {
                let e0 = (*value)->Object_0;
                assert(e0 == *es);
                assert(decreases_to!(*value => (*value)->Object_0));
                assert(decreases_to!(e0 => e0@));
                assert(decreases_to!(e0@ => e0@[k0]));
                assert(decreases_to!(e0@[k0] => e0@[k0].1));
                let a = e0@[k0].1;
                assert(decreases_to!(a => a->Array_0));
                assert(a->Array_0 == *children);
                assert(decreases_to!(*children => children@));
                assert(decreases_to!(children@ => children@[i as int]));
            }
            match apply_json(tree, cid, child, inputs, json_text) {
                Ok(()) => {},
                Err(e) => {
                    return Err(e);
                },
            }
            i = i + 1;
        }
    }
    Ok(())
}

/// A tree from [`to_json`] output: a root or document node, its inputs and
/// its children. `json_text` writes custom raws that are not strings as
/// JSON text.
pub fn from_json<F: Fn(&Json) -> String>(value: &Json, json_text: F) -> (r: Result<Tree, String>)
    requires
        forall|j: &Json| call_requires(json_text, (j,)),
    ensures
        spec_json_type(value.view()) is None ==> (r matches Err(m) && m@ == "Missing node type"@),
        ({
            let t = spec_json_type(value.view())->0;
            spec_json_type(value.view()) is Some && t != "root"@ && t != "document"@ ==> (r matches Err(m) && m@
                == "Cannot build a tree from a "@ + t + " node"@)
        }),
        r matches Ok(tree) ==> tree.wf() && tree@[tree.spec_root().0 as int].kind == if spec_json_type(value.view())
            == Some("document"@) {
            NodeKind::Document
        } else {
            NodeKind::Root
        },
{
    let kind = match json_type(value) {
        Some(k) => k,
        None => {
            return Err(to_owned_string("Missing node type"));
        },
    };
    let mut tree = if crate::node::str_eq(kind, "document") {
        Tree::new_document()
    } else if crate::node::str_eq(kind, "root") {
        Tree::new()
    } else {
        let mut m = to_owned_string("Cannot build a tree from a ");
        crate::text::push_str(&mut m, kind);
        crate::text::push_str(&mut m, " node");
        return Err(m);
    };
    let ghost root_kind = tree@[tree.spec_root().0 as int].kind;
    if let Json::Object(es) = value {
        if let Some(Json::Array(items)) = get(es, "inputs") {
            let mut i: usize = 0;
            while i < items.len()
                invariant
                    i <= items@.len(),
                    tree.wf(),
                    tree@[tree.spec_root().0 as int].kind == root_kind,
                    spec_json_type(value.view()) == Some(kind@),
                    kind@ == "root"@ || kind@ == "document"@,
                    root_kind == if kind@ == "document"@ {
                        NodeKind::Document
                    } else {
                        NodeKind::Root
                    },
                decreases items@.len() - i,
            {
                let input = match input_from_json(&items[i]) {
                    Ok(x) => x,
                    Err(e) => {
                        return Err(e);
                    },
                };
                tree.attach_input(input);
                i = i + 1;
            }
        }
    }
    let root = tree.root();
    let n = tree.input_count();
    match apply_json(&mut tree, root, value, n, &json_text) {
        Ok(()) => Ok(tree),
        Err(e) => Err(e),
    }
}

} // verus!
