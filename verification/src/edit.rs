//! Editing a tree: inserting, moving, copying and removing nodes, with the
//! whitespace of inserted nodes normalized to their new place.

use vstd::prelude::*;
use vstd::std_specs::convert::FromSpecImpl;

use crate::error::CssSyntaxError;
use crate::node::{NewNode, NodeId, NodeKind, Raws};
use crate::tree::{kids_of, spec_new_kids, NodeView, Tree};

verus! {

/// Something that can be inserted into a tree: a CSS string, a node
/// description, an existing node, a whole tree, or a list of those.
pub enum Insertable {
    /// CSS to parse. The parsed nodes lose their source positions.
    Css(String),
    /// A node to create.
    New(Box<NewNode>),
    /// A node already in this tree; it is moved.
    Node(NodeId),
    /// Another tree, whose children are adopted.
    Tree(Box<Tree>),
    /// Several of the above.
    Many(Vec<Insertable>),
}

/// `n`, with its subtree, describes node `id` of view `v` and its subtree,
/// `fuel` levels deep; the sources are left out when `clear` is set.
pub open spec fn spec_copy_of(v: Seq<NodeView>, id: NodeId, n: NewNode, clear: bool, fuel: nat) -> bool
    decreases fuel,
{
    &&& id.0 < v.len()
    &&& n.kind == v[id.0 as int].kind
    &&& crate::node::spec_same_raws(n.raws, v[id.0 as int].raws)
    &&& n.source == if clear { None } else { v[id.0 as int].source }
    &&& (n.nodes is Some <==> v[id.0 as int].nodes is Some)
    &&& spec_new_kids(n).len() == if fuel == 0 { 0 } else { kids_of(v[id.0 as int]).len() }
    &&& fuel > 0 ==> forall|j: int|
        0 <= j < spec_new_kids(n).len() ==> spec_copy_of(
            v,
            #[trigger] kids_of(v[id.0 as int])[j],
            spec_new_kids(n)[j],
            clear,
            (fuel - 1) as nat,
        )
}

/// A description of node `id` of `tree` and its subtree, down to `fuel`
/// levels, without the sources when `clear` is set.
fn to_new_node(tree: &Tree, id: NodeId, clear: bool, fuel: usize) -> (n: NewNode)
    requires
        tree.wf(),
        tree.has(id),
    ensures
        spec_copy_of(tree@, id, n, clear, fuel as nat),
    decreases fuel,
{
    let kids = tree.children(id);
    proof {
        assert(crate::tree::node_links_ok(tree@, id.0 as int));
    }
    let mut list: Vec<NewNode> = Vec::new();
    if fuel > 0 {
        let mut k: usize = 0;
        while k < kids.len()
            invariant
                tree.wf(),
                tree.has(id),
                kids@ == kids_of(tree@[id.0 as int]),
                fuel > 0,
                k <= kids@.len(),
                list@.len() == k,
                forall|j: int| 0 <= j < kids@.len() ==> tree.has(#[trigger] kids@[j]),
                forall|j: int| 0 <= j < k ==> spec_copy_of(tree@, #[trigger] kids@[j], list@[j], clear, (fuel - 1) as nat),
            decreases kids@.len() - k,
        {
            let c = to_new_node(tree, kids[k], clear, fuel - 1);
            list.push(c);
            k = k + 1;
        }
    }
    let nodes = match tree.nodes(id) {
        Some(_) => Some(list),
        None => None,
    };
    let source = if clear {
        None
    } else {
        match tree.source(id) {
            Some(s) => Some(*s),
            None => None,
        }
    };
    let n = NewNode { kind: tree.kind(id).duplicate(), raws: tree.raws(id).duplicate(), source, nodes };
    proof {
        if fuel > 0 && tree@[id.0 as int].nodes is Some {
            assert(spec_new_kids(n) == list@);
        }
        if tree@[id.0 as int].nodes is None {
            assert(kids_of(tree@[id.0 as int]).len() == 0);
        }
        let v = tree@;
        assert(n.kind == v[id.0 as int].kind);
        assert(n.source == if clear { None } else { v[id.0 as int].source });
        assert(n.nodes is Some <==> v[id.0 as int].nodes is Some);
        assert(spec_new_kids(n).len() == if fuel == 0 { 0 } else { kids_of(v[id.0 as int]).len() });
    }
    n
}

impl Tree {
    /// Copies node `id` of `other`, with its subtree, into this tree as a
    /// detached node; the copies lose their sources when `clear` is set.
    pub(crate) fn adopt(&mut self, other: &Tree, id: NodeId, clear: bool) -> (r: NodeId)
        requires
            old(self).wf(),
            other.wf(),
            other.has(id),
        ensures
            final(self).wf(),
            r.0 == old(self)@.len(),
            final(self)@.len() > old(self)@.len(),
            final(self)@.take(old(self)@.len() as int) == old(self)@,
            final(self)@[r.0 as int].parent is None,
            final(self)@[r.0 as int].kind == other@[id.0 as int].kind,
            crate::node::spec_same_raws(final(self)@[r.0 as int].raws, other@[id.0 as int].raws),
            final(self)@[r.0 as int].source == if clear { None } else { other@[id.0 as int].source },
            final(self).spec_root() == old(self).spec_root(),
            final(self).spec_inputs() == old(self).spec_inputs(),
            final(self).spec_clean_flags().take(old(self)@.len() as int) == old(self).spec_clean_flags(),
            final(self).spec_cursors().take(old(self)@.len() as int) == old(self).spec_cursors(),
    {
        let n = to_new_node(other, id, clear, other.len());
        self.create(n)
    }

    /// A deep copy of node `id`, detached; the copy keeps the original's
    /// source.
    pub fn clone_node(&mut self, id: NodeId) -> (r: NodeId)
        requires
            old(self).wf(),
            old(self).has(id),
        ensures
            final(self).wf(),
            r.0 == old(self)@.len(),
            final(self)@.len() > old(self)@.len(),
            final(self)@.take(old(self)@.len() as int) == old(self)@,
            final(self)@[r.0 as int].parent is None,
            final(self)@[r.0 as int].kind == old(self)@[id.0 as int].kind,
            crate::node::spec_same_raws(final(self)@[r.0 as int].raws, old(self)@[id.0 as int].raws),
            final(self)@[r.0 as int].source == old(self)@[id.0 as int].source,
            final(self).spec_root() == old(self).spec_root(),
            final(self).spec_inputs() == old(self).spec_inputs(),
            final(self).spec_clean_flags().take(old(self)@.len() as int) == old(self).spec_clean_flags(),
            final(self).spec_cursors().take(old(self)@.len() as int) == old(self).spec_cursors(),
    {
        let n = to_new_node(self, id, false, self.len());
        self.create(n)
    }
}

/// Every part of an insertable can go into tree `t`: its nodes exist, its
/// trees are well formed and its CSS can be read.
pub open spec fn spec_insertable_ok(t: Tree, item: Insertable) -> bool
    decreases item,
{
    match item {
        Insertable::Css(c) => crate::input::spec_fits(c@),
        Insertable::New(_) => true,
        Insertable::Node(id) => t.has(id),
        Insertable::Tree(o) => o.wf(),
        Insertable::Many(items) => forall|i: int|
            0 <= i < items@.len() ==> spec_insertable_ok(t, #[trigger] items@[i]),
    }
}

/// Some part of an insertable is CSS to parse.
pub open spec fn spec_has_css(item: Insertable) -> bool
    decreases item,
{
    match item {
        Insertable::Css(_) => true,
        Insertable::Many(items) => exists|i: int| 0 <= i < items@.len() && spec_has_css(#[trigger] items@[i]),
        _ => false,
    }
}

/// `b` is `a` with nodes added at the end and nothing else changed.
pub open spec fn spec_grown(a: Tree, b: Tree) -> bool {
    &&& b.wf()
    &&& b@.len() >= a@.len()
    &&& b@.take(a@.len() as int) == a@
    &&& b.spec_root() == a.spec_root()
    &&& b.spec_inputs() == a.spec_inputs()
}

/// `b` keeps the root and inputs of `a`, is consistent, and has at least
/// its nodes.
pub open spec fn spec_kept(a: Tree, b: Tree) -> bool {
    &&& b.wf()
    &&& b@.len() >= a@.len()
    &&& b.spec_root() == a.spec_root()
    &&& b.spec_inputs() == a.spec_inputs()
}

proof fn lemma_grown_refl(a: Tree)
    requires
        a.wf(),
    ensures
        spec_grown(a, a),
{
    assert(a@.take(a@.len() as int) =~= a@);
}

proof fn lemma_grown_trans(a: Tree, b: Tree, c: Tree)
    requires
        spec_grown(a, b),
        spec_grown(b, c),
    ensures
        spec_grown(a, c),
{
    assert(c@.take(a@.len() as int) =~= b@.take(a@.len() as int));
}

proof fn lemma_insertable_grown(a: Tree, b: Tree, item: Insertable)
    requires
        spec_insertable_ok(a, item),
        b@.len() >= a@.len(),
    ensures
        spec_insertable_ok(b, item),
    decreases item,
{
    if let Insertable::Many(items) = item {
        assert forall|i: int| 0 <= i < items@.len() implies spec_insertable_ok(b, #[trigger] items@[i]) by {
            lemma_insertable_grown(a, b, items@[i]);
        }
    }
}

impl Tree {
    /// Turns an insertable into nodes of this tree, each with whether an
    /// explicit `before` on it protects it from a root's normalization, and
    /// whether the insertable was a list.
    fn materialize(&mut self, item: Insertable, parent_is_document: bool) -> (r: Result<
        (Vec<(NodeId, bool)>, bool),
        CssSyntaxError,
    >)
        requires
            old(self).wf(),
            spec_insertable_ok(*old(self), item),
        ensures
            spec_grown(*old(self), *final(self)),
            r matches Ok((ms, _)) ==> forall|i: int| 0 <= i < ms@.len() ==> final(self).has(#[trigger] ms@[i].0),
            r is Err ==> spec_has_css(item),
            !spec_has_css(item) ==> r is Ok,
            item matches Insertable::New(n) ==> r matches Ok((ms, arr)) && !arr && ms@ == seq![
                (NodeId(old(self)@.len() as usize), n.raws.before is Some),
            ] && final(self)@[old(self)@.len() as int].parent is None && final(self)@[old(self)@.len() as int].raws
                == n.raws,
            item matches Insertable::Node(x) ==> r matches Ok((ms, arr)) && !arr && ms@ == seq![
                (x, old(self)@[x.0 as int].raws.before is Some),
            ] && final(self)@ == old(self)@,
        decreases item,
    {
        proof {
            lemma_grown_refl(*self);
        }
        match item {
            Insertable::Css(css) => {
                let parsed = match crate::parse(css.as_str()) {
                    Ok(t) => t,
                    Err(e) => {
                        return Err(e);
                    },
                };
                let kids = parsed.children(parsed.root());
                proof {
                    assert(crate::tree::node_links_ok(parsed@, parsed.spec_root().0 as int));
                }
                let mut out: Vec<(NodeId, bool)> = Vec::new();
                let mut k: usize = 0;
                while k < kids.len()
                    invariant
                        parsed.wf(),
                        k <= kids@.len(),
                        forall|j: int| 0 <= j < kids@.len() ==> parsed.has(#[trigger] kids@[j]),
                        spec_grown(*old(self), *self),
                        forall|i: int| 0 <= i < out@.len() ==> self.has(#[trigger] out@[i].0),
                    decreases kids@.len() - k,
                {
                    let ghost before = *self;
                    let id = self.adopt(&parsed, kids[k], true);
                    proof {
                        lemma_grown_trans(*old(self), before, *self);
                    }
                    out.push((id, false));
                    k = k + 1;
                }
                Ok((out, true))
            },
            Insertable::New(node) => {
                let protects = node.raws.before.is_some();
                let id = self.create(*node);
                Ok((vec![(id, protects)], false))
            },
            Insertable::Node(id) => {
                let protects = self.raws(id).before.is_some();
                Ok((vec![(id, protects)], false))
            },
            Insertable::Tree(other) => {
                let other_root = other.root();
                let is_root = match other.kind(other_root) {
                    NodeKind::Root => true,
                    _ => false,
                };
                let mut out: Vec<(NodeId, bool)> = Vec::new();
                if is_root && !parent_is_document {
                    let kids = other.children(other_root);
                    proof {
                        assert(crate::tree::node_links_ok(other@, other.spec_root().0 as int));
                    }
                    let mut k: usize = 0;
                    while k < kids.len()
                        invariant
                            other.wf(),
                            k <= kids@.len(),
                            forall|j: int| 0 <= j < kids@.len() ==> other.has(#[trigger] kids@[j]),
                            spec_grown(*old(self), *self),
                            forall|i: int| 0 <= i < out@.len() ==> self.has(#[trigger] out@[i].0),
                        decreases kids@.len() - k,
                    {
                        let ghost before = *self;
                        let id = self.adopt(&other, kids[k], false);
                        proof {
                            lemma_grown_trans(*old(self), before, *self);
                        }
                        out.push((id, false));
                        k = k + 1;
                    }
                } else {
                    let id = self.adopt(&other, other_root, false);
                    out.push((id, false));
                }
                Ok((out, true))
            },
            Insertable::Many(items) => {
                let ghost all = items@;
                let mut rest = items;
                let mut out: Vec<(NodeId, bool)> = Vec::new();
                let mut k: usize = 0;
                let n = rest.len();
                proof {
                    assert(rest@ == all.skip(0));
                }
                while k < n
                    invariant
                        k <= n,
                        n == all.len(),
                        rest@ == all.skip(k as int),
                        forall|i: int| 0 <= i < all.len() ==> spec_insertable_ok(*old(self), #[trigger] all[i]),
                        forall|i: int| 0 <= i < all.len() ==> decreases_to!(item => #[trigger] all[i]),
                        item matches Insertable::Many(v) && v@ == all,
                        spec_grown(*old(self), *self),
                        forall|i: int| 0 <= i < out@.len() ==> self.has(#[trigger] out@[i].0),
                    decreases n - k,
                {
                    let next = rest.remove(0);
                    proof {
                        assert(next == all[k as int]);
                        assert(rest@ =~= all.skip(k + 1));
                        lemma_insertable_grown(*old(self), *self, next);
                    }
                    let ghost before = *self;
                    let got = self.materialize(next, parent_is_document);
                    match got {
                        Ok((ids, _)) => {
                            proof {
                                lemma_grown_trans(*old(self), before, *self);
                            }
                            let mut j: usize = 0;
                            while j < ids.len()
                                invariant
                                    j <= ids@.len(),
                                    forall|i: int| 0 <= i < ids@.len() ==> self.has(#[trigger] ids@[i].0),
                                    forall|i: int| 0 <= i < out@.len() ==> self.has(#[trigger] out@[i].0),
                                decreases ids@.len() - j,
                            {
                                out.push(ids[j]);
                                j = j + 1;
                            }
                        },
                        Err(e) => {
                            proof {
                                lemma_grown_trans(*old(self), before, *self);
                                assert(spec_has_css(all[k as int]));
                            }
                            return Err(e);
                        },
                    }
                    k = k + 1;
                }
                Ok((out, true))
            },
        }
    }
}

/// Every container of `a` is still one in `b`.
pub open spec fn spec_containers_kept(a: Seq<NodeView>, b: Seq<NodeView>) -> bool {
    &&& b.len() >= a.len()
    &&& forall|p: int| 0 <= p < a.len() && a[p].nodes is Some ==> (#[trigger] b[p]).nodes is Some
}

/// Every node of `a` keeps its children in `b`.
pub open spec fn spec_same_kids(a: Seq<NodeView>, b: Seq<NodeView>) -> bool {
    &&& b.len() >= a.len()
    &&& forall|p: int| 0 <= p < a.len() ==> kids_of(#[trigger] b[p]) == kids_of(a[p])
}

impl Tree {
    /// Sets a node's `before`.
    fn set_before(&mut self, id: NodeId, before: Option<String>)
        requires
            old(self).wf(),
            old(self).has(id),
        ensures
            final(self).wf(),
            final(self)@ == old(self)@.update(
                id.0 as int,
                NodeView { raws: Raws { before, ..old(self)@[id.0 as int].raws }, ..old(self)@[id.0 as int] },
            ),
            final(self).spec_root() == old(self).spec_root(),
            final(self).spec_inputs() == old(self).spec_inputs(),
            final(self).spec_clean_flags() == old(self).spec_clean_flags(),
    {
        let r = self.raws_mut(id);
        r.before = before;
        proof {
            crate::tree::lemma_links_frame(old(self)@, self@);
        }
    }

    /// Turns an insertable into detached nodes of this tree, ready to be
    /// put under `parent` next to `sample`, with their `before` normalized.
    ///
    /// Under a container other than a root, a node without `before` takes
    /// the whitespace of the sample's. Under a root, inserted nodes take the
    /// sample's `before` unless the sample is the first child or they bring
    /// their own; when prepending, the sample takes the second child's.
    fn normalize(&mut self, parent: NodeId, item: Insertable, sample: Option<NodeId>, prepend: bool) -> (r: Result<
        Vec<NodeId>,
        CssSyntaxError,
    >)
        requires
            old(self).wf(),
            old(self).has(parent),
            sample matches Some(x) ==> old(self).has(x),
            spec_insertable_ok(*old(self), item),
        ensures
            spec_kept(*old(self), *final(self)),
            r matches Ok(ns) ==> forall|i: int|
                0 <= i < ns@.len() ==> final(self).has(#[trigger] ns@[i]) && final(self)@[ns@[i].0 as int].parent is None,
            r is Err ==> spec_has_css(item) && spec_grown(*old(self), *final(self)),
            !spec_has_css(item) ==> r is Ok,
            spec_containers_kept(old(self)@, final(self)@),
            item is New ==> (r matches Ok(ns) && ns@ == seq![NodeId(old(self)@.len() as usize)] && spec_same_kids(
                old(self)@,
                final(self)@,
            )),
            item matches Insertable::Node(x) ==> (r matches Ok(ns) && ns@ == seq![x] && spec_detached_kids(
                old(self)@,
                final(self)@,
                x,
            )),
            item matches Insertable::New(nn) ==> ((old(self)@[parent.0 as int].kind is Root && !prepend) ==> spec_root_before(
                final(self)@[old(self)@.len() as int].raws,
                nn.raws,
                match sample {
                    Some(x) => if old(self).kids(parent).len() > 0 && old(self).kids(parent)[0] == x {
                        None
                    } else {
                        Some(old(self)@[x.0 as int].raws.before)
                    },
                    None => None,
                },
            )),
            item matches Insertable::New(nn) ==> (!(old(self)@[parent.0 as int].kind is Root) ==> spec_before_filled(
                final(self)@[old(self)@.len() as int].raws,
                nn.raws,
                match sample {
                    Some(x) => crate::error::opt_view(old(self)@[x.0 as int].raws.before),
                    None => None,
                },
            )),
            item matches Insertable::New(nn) ==> ((old(self)@[parent.0 as int].kind is Root && prepend) ==> (
            final(self)@[old(self)@.len() as int].raws == nn.raws && (sample matches Some(x) ==> final(self)@[x.0 as int].raws
                == (Raws {
                before: if old(self).kids(parent).len() > 1 {
                    old(self)@[old(self).kids(parent)[1].0 as int].raws.before
                } else {
                    None
                },
                ..old(self)@[x.0 as int].raws
            })))),
            item matches Insertable::Node(x) ==> (!(old(self)@[parent.0 as int].kind is Root) ==> spec_before_filled(
                final(self)@[x.0 as int].raws,
                old(self)@[x.0 as int].raws,
                match sample {
                    Some(s) => crate::error::opt_view(final(self)@[s.0 as int].raws.before),
                    None => None,
                },
            )),
    {
        let is_root_parent = match self.kind(parent) {
            NodeKind::Root => true,
            _ => false,
        };
        let parent_is_document = match self.kind(parent) {
            NodeKind::Document => true,
            _ => false,
        };
        let ghost is_new = item is New;
        let ghost fresh = NodeId(old(self)@.len() as usize);
        let ghost nr = item->New_0.raws;
        let ghost is_node = item is Node;
        let ghost xn = item->Node_0;
        let ghost sb = match sample {
            Some(x) => crate::error::opt_view(old(self)@[x.0 as int].raws.before),
            None => None,
        };
        let got = self.materialize(item, parent_is_document);
        proof {
            if is_new {
                assert(got is Ok);
                assert(got->Ok_0.0@ == seq![(fresh, got->Ok_0.0@[0].1)]);
            }
        }
        let (ms, from_array) = match got {
            Ok(x) => x,
            Err(e) => {
                return Err(e);
            },
        };
        let ghost mstate = *self;
        proof {
            assert(spec_same_kids(old(self)@, self@)) by {
                assert forall|p: int| 0 <= p < old(self)@.len() implies kids_of(#[trigger] self@[p]) == kids_of(
                    old(self)@[p],
                ) by {
                    assert(self@.take(old(self)@.len() as int)[p] == self@[p]);
                }
            }
        }
        proof {
            assert forall|p: int| 0 <= p < old(self)@.len() && old(self)@[p].nodes is Some implies (#[trigger] self@[p]).nodes is Some by {
                assert(self@.take(old(self)@.len() as int)[p] == self@[p]);
            }
        }
        let mut keep: Vec<NodeId> = Vec::new();
        let mut nodes: Vec<NodeId> = Vec::new();
        let mut i: usize = 0;
        while i < ms.len()
            invariant
                i <= ms@.len(),
                nodes@.len() == i,
                forall|j: int| 0 <= j < ms@.len() ==> self.has(#[trigger] ms@[j].0),
                forall|j: int| 0 <= j < i ==> nodes@[j] == (#[trigger] ms@[j]).0,
                is_new ==> ms@ == seq![(fresh, nr.before is Some)] && self@ == mstate@ && mstate@[fresh.0 as int].raws == nr
                    && mstate@[fresh.0 as int].parent is None,
                is_new ==> keep@ == (if i == 1 && is_root_parent && nr.before is Some {
                    seq![fresh]
                } else {
                    Seq::<NodeId>::empty()
                }),
                is_root_parent == (old(self)@[parent.0 as int].kind is Root),
            decreases ms@.len() - i,
        {
            let (id, protects) = ms[i];
            if is_root_parent && protects && self.parent(id).is_none() && self.raws(id).before.is_some() {
                keep.push(id);
            }
            nodes.push(id);
            i = i + 1;
        }
        proof {
            assert(nodes@.len() == ms@.len());
            assert forall|j: int| 0 <= j < nodes@.len() implies self.has(#[trigger] nodes@[j]) by {
                assert(nodes@[j] == ms@[j].0);
            }
            if is_new {
                assert(nodes@ =~= seq![fresh]);
            }
        }
        let n = nodes.len();
        if from_array {
            let mut k: usize = 0;
            while k < n
                invariant
                    k <= n,
                    n == nodes@.len(),
                    spec_kept(*old(self), *self),
                    spec_containers_kept(old(self)@, self@),
                    forall|j: int| 0 <= j < n ==> self.has(#[trigger] nodes@[j]),
                decreases n - k,
            {
                if let Some(op) = self.parent(nodes[k]) {
                    proof {
                        assert(crate::tree::node_links_ok(self@, nodes@[k as int].0 as int));
                        crate::tree::lemma_remove_child_facts(self@, op, nodes@[k as int], true);
                    }
                    self.remove_child_inner(op, nodes[k], true);
                }
                k = k + 1;
            }
        }
        let mut k: usize = 0;
        while k < n
            invariant
                k <= n,
                n == nodes@.len(),
                spec_kept(*old(self), *self),
                spec_containers_kept(old(self)@, self@),
                sample matches Some(x) ==> self.has(x),
                self.has(parent),
                forall|j: int| 0 <= j < n ==> self.has(#[trigger] nodes@[j]),
                forall|j: int| 0 <= j < k ==> self@[(#[trigger] nodes@[j]).0 as int].parent is None,
                is_new ==> nodes@ == seq![fresh] && self@[fresh.0 as int].parent is None && spec_same_kids(
                    old(self)@,
                    self@,
                ),
                is_new ==> !from_array,
                is_node ==> !from_array && nodes@ == seq![xn] && mstate@ == old(self)@,
                is_node && k == 0 ==> self@ == mstate@,
                is_node && k == 1 ==> spec_detached_kids(old(self)@, self@, xn),
                is_node && k == 1 && !is_root_parent ==> spec_before_filled(
                    self@[xn.0 as int].raws,
                    old(self)@[xn.0 as int].raws,
                    match sample {
                        Some(s) => crate::error::opt_view(self@[s.0 as int].raws.before),
                        None => None,
                    },
                ),
                is_new && k == 0 ==> self@ == mstate@,
                is_new && is_root_parent ==> self@ == mstate@,
                is_new ==> keep@ == (if is_root_parent && nr.before is Some {
                    seq![fresh]
                } else {
                    Seq::<NodeId>::empty()
                }),
                is_new ==> mstate@[fresh.0 as int].raws == nr && mstate@.take(old(self)@.len() as int) == old(self)@,
                is_new && !is_root_parent && k == 1 ==> spec_before_filled(self@[fresh.0 as int].raws, nr, sb),
                is_root_parent == (old(self)@[parent.0 as int].kind is Root),
                sample matches Some(x) ==> x.0 < old(self)@.len() && sb == crate::error::opt_view(old(self)@[x.0 as int].raws.before),
                sample is None ==> sb is None,
                fresh == NodeId(old(self)@.len() as usize),
            decreases n - k,
        {
            let node = nodes[k];
            let ghost s0 = self@;
            proof {
                if is_node {
                    lemma_detach_kids(s0, node);
                }
            }
            if let Some(op) = self.parent(node) {
                proof {
                    assert(crate::tree::node_links_ok(self@, node.0 as int));
                    crate::tree::lemma_remove_child_facts(self@, op, node, false);
                    assert(kids_of(self@[op.0 as int]).contains(node));
                }
                self.remove_child_inner(op, node, false);
                proof {
                    if is_node {
                        assert(s0 == old(self)@);
                        crate::tree::lemma_kids_indexed(*old(self), op);
                        let ks = kids_of(s0[op.0 as int]);
                        assert(crate::tree::node_links_ok(s0, op.0 as int));
                        assert(ks.contains(node));
                        let kk = ks.index_of(node);
                        assert(ks[kk] == node);
                        let sh = crate::tree::spec_shift_before(s0, op, kk == 0);
                        if kk == 0 && ks.len() > 1 {
                            assert(ks[1] != node);
                            assert(ks[1].0 != node.0);
                            assert(ks[1].0 < s0.len());
                        }
                        assert(sh[node.0 as int].raws == s0[node.0 as int].raws);
                        assert(self@[node.0 as int].raws == s0[node.0 as int].raws);
                    }
                }
            }
            proof {
                assert(self@[node.0 as int].parent is None);
                if is_node {
                    assert(self@[node.0 as int].raws == old(self)@[node.0 as int].raws);
                }
            }
            if self.is_clean(node) {
                self.mark_tree_dirty(node);
            }
            if !is_root_parent && self.raws(node).before.is_none() {
                if let Some(x) = sample {
                    if let Some(b) = &self.raws(x).before {
                        let spaced = crate::stringifier::only_spaces(b.as_str(), false);
                        self.set_before(node, Some(spaced));
                    }
                }
            }
            proof {
                assert forall|j: int| 0 <= j < k + 1 implies self@[(#[trigger] nodes@[j]).0 as int].parent is None by {
                    if j < k {
                        assert(s0[nodes@[j].0 as int].parent is None);
                    }
                }
                if is_new {
                    assert forall|p: int| 0 <= p < old(self)@.len() implies kids_of(#[trigger] self@[p]) == kids_of(
                        old(self)@[p],
                    ) by {
                        assert(kids_of(s0[p]) == kids_of(old(self)@[p]));
                    }
                }
            }
            k = k + 1;
        }
        if is_root_parent {
            if let Some(x) = sample {
                if prepend {
                    let ch = self.children(parent);
                    proof {
                        assert(crate::tree::node_links_ok(self@, parent.0 as int));
                    }
                    let b = if ch.len() > 1 {
                        crate::input::clone_opt_string(&self.raws(ch[1]).before)
                    } else {
                        None
                    };
                    proof {
                        if is_new {
                            assert(self@[parent.0 as int] == old(self)@[parent.0 as int]);
                            assert(ch@ == old(self).kids(parent));
                            if ch@.len() > 1 {
                                assert(crate::tree::node_links_ok(old(self)@, parent.0 as int));
                                assert(ch@[1].0 < old(self)@.len());
                                assert(self@[ch@[1].0 as int] == old(self)@[ch@[1].0 as int]);
                            }
                            assert(self@[x.0 as int] == old(self)@[x.0 as int]);
                        }
                    }
                    let ghost s0 = self@;
                    self.set_before(x, b);
                    proof {
                        assert forall|j: int| 0 <= j < n implies self@[(#[trigger] nodes@[j]).0 as int].parent is None by {
                            assert(s0[nodes@[j].0 as int].parent is None);
                        }
                        if is_new {
                            assert forall|p: int| 0 <= p < old(self)@.len() implies kids_of(#[trigger] self@[p])
                                == kids_of(old(self)@[p]) by {
                                assert(kids_of(s0[p]) == kids_of(old(self)@[p]));
                            }
                        }
                        if is_node {
                            assert forall|p: int| 0 <= p < old(self)@.len() implies kids_of(#[trigger] self@[p])
                                == spec_kids_without(old(self)@, p, xn) by {
                                assert(kids_of(s0[p]) == spec_kids_without(old(self)@, p, xn));
                            }
                        }
                    }
                } else if self.first(parent) != Some(x) {
                    let b = crate::input::clone_opt_string(&self.raws(x).before);
                    let ghost s_start = self@;
                    let mut k: usize = 0;
                    while k < n
                        invariant
                            is_new ==> keep@ == (if nr.before is Some {
                                seq![fresh]
                            } else {
                                Seq::<NodeId>::empty()
                            }),
                            is_new && k == 0 ==> self@ == s_start,
                            is_new && k == 1 ==> self@[fresh.0 as int].raws == (if nr.before is Some {
                                nr
                            } else {
                                Raws { before: b, ..nr }
                            }),
                            is_new ==> s_start[fresh.0 as int].raws == nr,
                            k <= n,
                            n == nodes@.len(),
                            spec_kept(*old(self), *self),
                            spec_containers_kept(old(self)@, self@),
                            forall|j: int| 0 <= j < n ==> self.has(#[trigger] nodes@[j]),
                            forall|j: int| 0 <= j < n ==> self@[(#[trigger] nodes@[j]).0 as int].parent is None,
                            is_new ==> nodes@ == seq![fresh] && spec_same_kids(old(self)@, self@),
                            is_node ==> nodes@ == seq![xn] && spec_detached_kids(old(self)@, self@, xn),
                        decreases n - k,
                    {
                        let node = nodes[k];
                        let mut kept = false;
                        let mut q: usize = 0;
                        while q < keep.len()
                            invariant
                                q <= keep@.len(),
                                kept == keep@.take(q as int).contains(node),
                            decreases keep@.len() - q,
                        {
                            proof {
                                assert(keep@.take(q + 1) =~= keep@.take(q as int).push(keep@[q as int]));
                            }
                            if keep[q] == node {
                                kept = true;
                            }
                            proof {
                                let t1 = keep@.take(q as int);
                                let t2 = keep@.take(q + 1);
                                if keep@[q as int] == node {
                                    assert(t2[q as int] == node);
                                }
                                if t1.contains(node) {
                                    let i = choose|i: int| 0 <= i < t1.len() && t1[i] == node;
                                    assert(t2[i] == node);
                                }
                                if t2.contains(node) {
                                    let i = choose|i: int| 0 <= i < t2.len() && t2[i] == node;
                                    if i < q {
                                        assert(t1[i] == node);
                                    }
                                }
                            }
                            q = q + 1;
                        }
                        proof {
                            assert(keep@.take(keep@.len() as int) =~= keep@);
                            if is_new {
                                assert(node == fresh);
                                if nr.before is Some {
                                    assert(keep@[0] == fresh);
                                }
                            }
                        }
                        if !kept {
                            let ghost s0 = self@;
                            self.set_before(node, crate::input::clone_opt_string(&b));
                            proof {
                                assert forall|j: int| 0 <= j < n implies self@[(#[trigger] nodes@[j]).0 as int].parent
                                    is None by {
                                    assert(s0[nodes@[j].0 as int].parent is None);
                                }
                                if is_new {
                                    assert forall|p: int| 0 <= p < old(self)@.len() implies kids_of(
                                        #[trigger] self@[p],
                                    ) == kids_of(old(self)@[p]) by {
                                        assert(kids_of(s0[p]) == kids_of(old(self)@[p]));
                                    }
                                }
                                if is_node {
                                    assert forall|p: int| 0 <= p < old(self)@.len() implies kids_of(
                                        #[trigger] self@[p],
                                    ) == spec_kids_without(old(self)@, p, xn) by {
                                        assert(kids_of(s0[p]) == spec_kids_without(old(self)@, p, xn));
                                    }
                                }
                            }
                        }
                        k = k + 1;
                    }
                }
            }
        }
        Ok(nodes)
    }
}

impl From<NewNode> for Insertable {
    fn from(value: NewNode) -> (r: Insertable) {
        Insertable::New(Box::new(value))
    }
}

impl FromSpecImpl<NewNode> for Insertable {
    open spec fn obeys_from_spec() -> bool {
        true
    }

    open spec fn from_spec(value: NewNode) -> Insertable {
        Insertable::New(Box::new(value))
    }
}

impl From<NodeId> for Insertable {
    fn from(value: NodeId) -> (r: Insertable) {
        Insertable::Node(value)
    }
}

impl FromSpecImpl<NodeId> for Insertable {
    open spec fn obeys_from_spec() -> bool {
        true
    }

    open spec fn from_spec(value: NodeId) -> Insertable {
        Insertable::Node(value)
    }
}

impl From<Tree> for Insertable {
    fn from(value: Tree) -> (r: Insertable) {
        Insertable::Tree(Box::new(value))
    }
}

impl FromSpecImpl<Tree> for Insertable {
    open spec fn obeys_from_spec() -> bool {
        true
    }

    open spec fn from_spec(value: Tree) -> Insertable {
        Insertable::Tree(Box::new(value))
    }
}

impl From<String> for Insertable {
    fn from(value: String) -> (r: Insertable) {
        Insertable::Css(value)
    }
}

impl FromSpecImpl<String> for Insertable {
    open spec fn obeys_from_spec() -> bool {
        true
    }

    open spec fn from_spec(value: String) -> Insertable {
        Insertable::Css(value)
    }
}

impl From<&str> for Insertable {
    fn from(value: &str) -> (r: Insertable) {
        Insertable::Css(crate::text::to_owned_string(value))
    }
}

/// What the conversion from a string slice gives is not stated: the string
/// made from the slice has no name in specifications.
impl FromSpecImpl<&str> for Insertable {
    open spec fn obeys_from_spec() -> bool {
        false
    }

    open spec fn from_spec(value: &str) -> Insertable {
        arbitrary()
    }
}

impl From<Vec<Insertable>> for Insertable {
    fn from(value: Vec<Insertable>) -> (r: Insertable) {
        Insertable::Many(value)
    }
}

impl FromSpecImpl<Vec<Insertable>> for Insertable {
    open spec fn obeys_from_spec() -> bool {
        true
    }

    open spec fn from_spec(value: Vec<Insertable>) -> Insertable {
        Insertable::Many(value)
    }
}

impl From<Vec<NewNode>> for Insertable {
    fn from(value: Vec<NewNode>) -> (r: Insertable) {
        let mut rest = value;
        let mut items: Vec<Insertable> = Vec::new();
        while rest.len() > 0
            decreases rest@.len(),
        {
            let n = rest.remove(0);
            items.push(Insertable::New(Box::new(n)));
        }
        Insertable::Many(items)
    }
}

/// What the conversion from a list of node descriptions gives is not
/// stated: the list it makes has no name in specifications.
impl FromSpecImpl<Vec<NewNode>> for Insertable {
    open spec fn obeys_from_spec() -> bool {
        false
    }

    open spec fn from_spec(value: Vec<NewNode>) -> Insertable {
        arbitrary()
    }
}

/// The items an insertable stands for, one level of list flattened.
fn split_top_level(item: Insertable) -> (r: Vec<Insertable>)
    ensures
        match item {
            Insertable::Many(items) => r@ == items@,
            other => r@ == seq![other],
        },
{
    match item {
        Insertable::Many(items) => items,
        other => vec![other],
    }
}

/// The items an insertable stands for, as `split_top_level` gives them.
pub open spec fn spec_top_items(item: Insertable) -> Seq<Insertable> {
    match item {
        Insertable::Many(items) => items@,
        other => seq![other],
    }
}

/// An insertable made of new nodes only: one, or a list of them.
pub open spec fn spec_all_new(item: Insertable) -> bool {
    forall|i: int| 0 <= i < spec_top_items(item).len() ==> #[trigger] spec_top_items(item)[i] is New
}

/// `after` is `before` followed by `n` nodes created after the arena's
/// first `len` entries, in the order they were created.
pub open spec fn spec_extended_by_new(before: Seq<NodeId>, after: Seq<NodeId>, n: int, len: int) -> bool {
    &&& after.len() == before.len() + n
    &&& after.take(before.len() as int) == before
    &&& forall|i: int, j: int|
        before.len() <= i < j < after.len() ==> len <= (#[trigger] after[i]).0 < (#[trigger] after[j]).0
    &&& forall|i: int| before.len() <= i < after.len() ==> len <= (#[trigger] after[i]).0
}

/// `after` is `n` nodes created after the arena's first `len` entries,
/// the last created first, followed by `before`.
pub open spec fn spec_prefixed_by_new(before: Seq<NodeId>, after: Seq<NodeId>, n: int, len: int) -> bool {
    &&& after.len() == before.len() + n
    &&& after.skip(n) == before
    &&& forall|i: int, j: int| 0 <= i < j < n ==> len <= (#[trigger] after[j]).0 < (#[trigger] after[i]).0
    &&& forall|i: int| 0 <= i < n ==> len <= (#[trigger] after[i]).0
}

/// A missing `before` filled from the sample's: its whitespace, when the
/// sample has one.
pub open spec fn spec_fill_before(own: Option<Seq<char>>, sample: Option<Seq<char>>) -> Option<Seq<char>> {
    match own {
        Some(b) => Some(b),
        None => match sample {
            Some(b) => Some(crate::stringifier::spec_spaces(b)),
            None => None,
        },
    }
}

/// Raws `r` are `given` with `before` filled from a sample's `before`.
pub open spec fn spec_before_filled(r: Raws, given: Raws, sample: Option<Seq<char>>) -> bool {
    &&& crate::error::opt_view(r.before) == spec_fill_before(crate::error::opt_view(given.before), sample)
    &&& r == (Raws { before: r.before, ..given })
}

/// The children of node `p` of `v` once `x` leaves them.
pub open spec fn spec_kids_without(v: Seq<NodeView>, p: int, x: NodeId) -> Seq<NodeId> {
    let ks = kids_of(v[p]);
    if ks.contains(x) {
        ks.remove(ks.index_of(x))
    } else {
        ks
    }
}

/// View `b` is `a` with node `x` taken out of its parent's children, every
/// other list of children as it was, and `x` without a parent.
pub open spec fn spec_detached_kids(a: Seq<NodeView>, b: Seq<NodeView>, x: NodeId) -> bool {
    &&& b.len() >= a.len()
    &&& b[x.0 as int].parent is None
    &&& forall|p: int| 0 <= p < a.len() ==> kids_of(#[trigger] b[p]) == spec_kids_without(a, p, x)
}

/// Detaching a node from its parent, if it has one, takes it out of that
/// parent's children only.
proof fn lemma_detach_kids(v: Seq<NodeView>, x: NodeId)
    requires
        crate::tree::spec_links_ok(v),
        x.0 < v.len(),
    ensures
        spec_detached_kids(
            v,
            match v[x.0 as int].parent {
                Some(op) => crate::tree::spec_remove_child(v, op, x, false),
                None => v,
            },
            x,
        ),
{
    assert(crate::tree::node_links_ok(v, x.0 as int));
    assert forall|p: int| 0 <= p < v.len() && kids_of(v[p]).contains(x) implies v[x.0 as int].parent == Some(
        NodeId(p as usize),
    ) by {
        assert(crate::tree::node_links_ok(v, p));
        let j = choose|j: int| 0 <= j < kids_of(v[p]).len() && kids_of(v[p])[j] == x;
        assert(kids_of(v[p])[j] == x);
    }
    match v[x.0 as int].parent {
        Some(op) => {
            crate::tree::lemma_remove_child_facts(v, op, x, false);
            let w = crate::tree::spec_remove_child(v, op, x, false);
            let ks = kids_of(v[op.0 as int]);
            assert(ks.contains(x));
            let k = ks.index_of(x);
            assert(crate::tree::node_links_ok(v, op.0 as int));
            let sb = crate::tree::spec_shift_before(v, op, k == 0);
            if k == 0 && v[op.0 as int].kind is Root && ks.len() > 1 {
                assert(ks[1].0 < v.len());
                assert(sb[op.0 as int].nodes == v[op.0 as int].nodes);
            }
            assert(kids_of(sb[op.0 as int]) == ks);
            let v1 = sb.update(x.0 as int, NodeView { parent: None, ..sb[x.0 as int] });
            assert(kids_of(v1[op.0 as int]) == ks);
            assert(kids_of(w[op.0 as int]) == ks.remove(k));
            assert(spec_kids_without(v, op.0 as int, x) == ks.remove(k));
            assert forall|p: int| 0 <= p < v.len() implies kids_of(#[trigger] w[p]) == spec_kids_without(v, p, x) by {
                if p != op.0 {
                    assert(kids_of(w[p]) == kids_of(v[p]));
                    assert(!kids_of(v[p]).contains(x));
                }
            }
        },
        None => {},
    }
}

/// A child other than `x` stays among the children once `x` leaves.
proof fn lemma_kids_without_keeps(v: Seq<NodeView>, p: int, x: NodeId, y: NodeId)
    requires
        0 <= p < v.len(),
        kids_of(v[p]).contains(y),
        y != x,
    ensures
        spec_kids_without(v, p, x).contains(y),
{
    let ks = kids_of(v[p]);
    let j = choose|j: int| 0 <= j < ks.len() && ks[j] == y;
    if ks.contains(x) {
        let k = ks.index_of(x);
        let w = ks.remove(k);
        if j < k {
            assert(w[j] == y);
        } else {
            assert(j != k);
            assert(w[j - 1] == y);
        }
    }
}

/// The `before` of the last of `ks`, if there is one.
pub open spec fn spec_last_before(v: Seq<NodeView>, ks: Seq<NodeId>) -> Option<Seq<char>> {
    if ks.len() > 0 {
        crate::error::opt_view(v[ks.last().0 as int].raws.before)
    } else {
        None
    }
}

/// Raws `r` are `given` with `before` taken, under a root, from a sample
/// that is not the first child (`sample` is `Some(its before)`), unless
/// `given` brings its own.
pub open spec fn spec_root_before(r: Raws, given: Raws, sample: Option<Option<String>>) -> bool {
    &&& r == (Raws { before: r.before, ..given })
    &&& r.before == match (given.before, sample) {
        (Some(b), _) => Some(b),
        (None, Some(b)) => b,
        (None, None) => None,
    }
}

/// Every part of a list can go into tree `t`.
pub open spec fn spec_items_ok(t: Tree, items: Seq<Insertable>) -> bool {
    forall|i: int| 0 <= i < items.len() ==> spec_insertable_ok(t, #[trigger] items[i])
}

proof fn lemma_items_grown(a: Tree, b: Tree, items: Seq<Insertable>)
    requires
        spec_items_ok(a, items),
        b@.len() >= a@.len(),
    ensures
        spec_items_ok(b, items),
{
    assert forall|i: int| 0 <= i < items.len() implies spec_insertable_ok(b, #[trigger] items[i]) by {
        lemma_insertable_grown(a, b, items[i]);
    }
}

proof fn lemma_split_ok(t: Tree, item: Insertable, items: Seq<Insertable>)
    requires
        spec_insertable_ok(t, item),
        match item {
            Insertable::Many(v) => items == v@,
            other => items == seq![other],
        },
    ensures
        spec_items_ok(t, items),
        (exists|i: int| 0 <= i < items.len() && spec_has_css(#[trigger] items[i])) ==> spec_has_css(item),
{
    if let Insertable::Many(v) = item {
        if exists|i: int| 0 <= i < items.len() && spec_has_css(#[trigger] items[i]) {
            let i = choose|i: int| 0 <= i < items.len() && spec_has_css(#[trigger] items[i]);
            assert(spec_has_css(v@[i]));
        }
    }
}

/// The nodes in reverse order.
fn reversed(nodes: &Vec<NodeId>) -> (r: Vec<NodeId>)
    ensures
        r@.len() == nodes@.len(),
        forall|q: int| 0 <= q < nodes@.len() ==> r@[q] == nodes@[nodes@.len() - 1 - q],
{
    let count = nodes.len();
    let mut ordered: Vec<NodeId> = Vec::new();
    let mut j: usize = count;
    while j > 0
        invariant
            j <= count,
            count == nodes@.len(),
            ordered@.len() == count - j,
            forall|q: int| 0 <= q < count - j ==> ordered@[q] == nodes@[count - 1 - q],
        decreases j,
    {
        ordered.push(nodes[j - 1]);
        j = j - 1;
    }
    ordered
}

/// Where an insertion goes: next to an existing child, or next to the child
/// at an index.
#[derive(Clone, Copy)]
enum Target {
    Node(NodeId),
    Index(usize),
}

impl Tree {
    /// Attaches the detached ones of `nodes` to `parent`, the first at `at`
    /// and each next one before it, so that they end up in reverse order.
    fn attach_all(&mut self, parent: NodeId, nodes: &Vec<NodeId>, at: usize)
        requires
            old(self).wf(),
            old(self).has(parent),
            forall|i: int| 0 <= i < nodes@.len() ==> old(self).has(#[trigger] nodes@[i]),
        ensures
            spec_kept(*old(self), *final(self)),
            final(self)@.len() == old(self)@.len(),
            final(self).spec_cursors() == old(self).spec_cursors(),
            spec_containers_kept(old(self)@, final(self)@),
            forall|x: int| 0 <= x < old(self)@.len() ==> (#[trigger] final(self)@[x]).raws == old(self)@[x].raws,
            forall|q: int| 0 <= q < old(self)@.len() && q != parent.0 ==> kids_of(#[trigger] final(self)@[q]) == kids_of(old(self)@[q]),
            nodes@.len() == 1 && old(self)@[nodes@[0].0 as int].parent is None && nodes@[0] != parent
                ==> final(self)@[nodes@[0].0 as int].parent == Some(parent),
            nodes@.len() == 1 && old(self)@[nodes@[0].0 as int].parent is None ==> final(self).kids(parent)
                == old(self).kids(parent).insert(
                if at <= old(self).kids(parent).len() {
                    at as int
                } else {
                    old(self).kids(parent).len() as int
                },
                nodes@[0],
            ),
    {
        let mut i: usize = 0;
        while i < nodes.len()
            invariant
                i <= nodes@.len(),
                spec_kept(*old(self), *self),
                self@.len() == old(self)@.len(),
                self.has(parent),
                self.spec_cursors() == old(self).spec_cursors(),
                spec_containers_kept(old(self)@, self@),
                forall|x: int| 0 <= x < old(self)@.len() ==> (#[trigger] self@[x]).raws == old(self)@[x].raws,
                forall|q: int| 0 <= q < old(self)@.len() && q != parent.0 ==> kids_of(#[trigger] self@[q]) == kids_of(old(self)@[q]),
                nodes@.len() == 1 && old(self)@[nodes@[0].0 as int].parent is None && nodes@[0] != parent && i == 1 ==> self@[nodes@[0].0 as int].parent == Some(parent),
                forall|j: int| 0 <= j < nodes@.len() ==> self.has(#[trigger] nodes@[j]),
                nodes@.len() == 1 && old(self)@[nodes@[0].0 as int].parent is None ==> (if i == 0 {
                    self@ == old(self)@
                } else {
                    self.kids(parent) == old(self).kids(parent).insert(
                        if at <= old(self).kids(parent).len() {
                            at as int
                        } else {
                            old(self).kids(parent).len() as int
                        },
                        nodes@[0],
                    )
                }),
            decreases nodes@.len() - i,
        {
            let node = nodes[i];
            if self.parent(node).is_none() {
                let len = self.children(parent).len();
                let pos = if at <= len {
                    at
                } else {
                    len
                };
                proof {
                    crate::tree::lemma_attach_at_nodes(self@, parent, node, pos as int);
                }
                self.insert_child_at(parent, node, pos);
            }
            i = i + 1;
        }
    }

    /// Appends children to a container, giving an at-rule a block first.
    ///
    /// Each item is normalized against the current last child: its nodes are
    /// detached from wherever they were, and their `before` follows the
    /// sample's. Fails only when CSS among the items does not parse.
    pub fn append(&mut self, parent: NodeId, children: Insertable) -> (r: Result<(), CssSyntaxError>)
        requires
            old(self).wf(),
            old(self).has(parent),
            spec_insertable_ok(*old(self), children),
        ensures
            spec_kept(*old(self), *final(self)),
            final(self)@[parent.0 as int].nodes is Some,
            r is Err ==> spec_has_css(children),
            !spec_has_css(children) ==> r is Ok,
            children is New ==> final(self).kids(parent) == old(self).kids(parent).push(
                NodeId(old(self)@.len() as usize),
            ),
            children matches Insertable::New(nn) ==> (!(old(self)@[parent.0 as int].kind is Root) ==> spec_before_filled(
                final(self)@[old(self)@.len() as int].raws,
                nn.raws,
                spec_last_before(old(self)@, old(self).kids(parent)),
            )),
            children matches Insertable::Node(x) ==> (x != parent ==> {
                &&& final(self).kids(parent) == spec_kids_without(old(self)@, parent.0 as int, x).push(x)
                &&& final(self)@[x.0 as int].parent == Some(parent)
                &&& forall|p: int|
                    0 <= p < old(self)@.len() && p != parent.0 ==> kids_of(#[trigger] final(self)@[p])
                        == spec_kids_without(old(self)@, p, x)
            }),
            spec_all_new(children) ==> spec_extended_by_new(
                old(self).kids(parent),
                final(self).kids(parent),
                spec_top_items(children).len() as int,
                old(self)@.len() as int,
            ),
            children matches Insertable::Node(x) ==> (!(old(self)@[parent.0 as int].kind is Root)
                ==> spec_before_filled(
                final(self)@[x.0 as int].raws,
                old(self)@[x.0 as int].raws,
                if old(self).kids(parent).len() > 0 {
                    crate::error::opt_view(final(self)@[old(self).kids(parent).last().0 as int].raws.before)
                } else {
                    None
                },
            )),
    {
        let ghost all_new = spec_all_new(children);
        let ghost is_new = children is New;
        let ghost is_node = children is Node;
        let ghost xn = children->Node_0;
        let ghost fresh = NodeId(old(self)@.len() as usize);
        let ghost sb = spec_last_before(old(self)@, old(self).kids(parent));
        let ghost nr = children->New_0.raws;
        let ghost not_root = !(old(self)@[parent.0 as int].kind is Root);
        proof {
            crate::tree::lemma_kids_indexed(*old(self), parent);
            assert(crate::tree::node_links_ok(old(self)@, parent.0 as int));
        }
        self.make_container(parent);
        let ghost c0 = children;
        let items = split_top_level(children);
        proof {
            lemma_split_ok(*old(self), c0, items@);
            lemma_items_grown(*old(self), *self, items@);
        }
        let ghost all = items@;
        let n = items.len();
        let mut rest = items;
        let mut k: usize = 0;
        proof {
            assert(rest@ == all.skip(0));
            assert(old(self).kids(parent).take(old(self).kids(parent).len() as int) =~= old(self).kids(parent));
            assert(self.kids(parent) == old(self).kids(parent));
        }
        while k < n
            invariant
                k <= n,
                n == all.len(),
                rest@ == all.skip(k as int),
                spec_items_ok(*self, all),
                spec_kept(*old(self), *self),
                self.has(parent),
                self@[parent.0 as int].nodes is Some,
                (exists|i: int| 0 <= i < all.len() && spec_has_css(#[trigger] all[i])) ==> spec_has_css(c0),
                is_new == (c0 is New),
                c0 == children,
                fresh == NodeId(old(self)@.len() as usize),
                is_new ==> all == seq![c0] && (if k == 0 {
                    self@.len() == old(self)@.len() && self.kids(parent) == old(self).kids(parent)
                        && forall|x: int| 0 <= x < old(self)@.len() ==> #[trigger] self@[x].raws == old(self)@[x].raws
                            && self@[x].kind == old(self)@[x].kind
                } else {
                    self.kids(parent) == old(self).kids(parent).push(fresh) && (not_root ==> spec_before_filled(
                        self@[fresh.0 as int].raws,
                        nr,
                        sb,
                    ))
                }),
                is_node ==> all == seq![c0] && (if k == 0 {
                    self@.len() == old(self)@.len() && (forall|p: int| 0 <= p < old(self)@.len() ==> kids_of(#[trigger] self@[p])
                        == kids_of(old(self)@[p])) && forall|x: int| 0 <= x < old(self)@.len() ==> #[trigger] self@[x].raws
                        == old(self)@[x].raws && self@[x].kind == old(self)@[x].kind
                } else {
                    (xn != parent ==> {
                        &&& self.kids(parent) == spec_kids_without(old(self)@, parent.0 as int, xn).push(xn)
                        &&& self@[xn.0 as int].parent == Some(parent)
                        &&& forall|p: int|
                            0 <= p < old(self)@.len() && p != parent.0 ==> kids_of(#[trigger] self@[p])
                                == spec_kids_without(old(self)@, p, xn)
                    }) && (!(old(self)@[parent.0 as int].kind is Root) ==> spec_before_filled(
                        self@[xn.0 as int].raws,
                        old(self)@[xn.0 as int].raws,
                        if old(self).kids(parent).len() > 0 {
                            crate::error::opt_view(self@[old(self).kids(parent).last().0 as int].raws.before)
                        } else {
                            None
                        },
                    ))
                }),
                is_node == (c0 is Node),
                xn == c0->Node_0,
                sb == spec_last_before(old(self)@, old(self).kids(parent)),
                nr == children->New_0.raws,
                not_root == !(old(self)@[parent.0 as int].kind is Root),
                forall|q: int| 0 <= q < old(self).kids(parent).len() ==> (#[trigger] old(self).kids(parent)[q]).0 < old(self)@.len(),
                all == spec_top_items(c0),
                all_new == spec_all_new(c0),
                all_new ==> spec_extended_by_new(old(self).kids(parent), self.kids(parent), k as int, old(self)@.len() as int),
                all_new ==> forall|i: int|
                    old(self).kids(parent).len() <= i < self.kids(parent).len() ==> (#[trigger] self.kids(parent)[i]).0 < self@.len(),
            decreases n - k,
        {
            let item = rest.remove(0);
            proof {
                assert(item == all[k as int]);
                assert(rest@ =~= all.skip(k + 1));
            }
            let last = self.last(parent);
            proof {
                assert(crate::tree::node_links_ok(self@, parent.0 as int));
            }
            let ghost before = *self;
            proof {
                if is_new {
                    assert(k == 0);
                    assert(all == seq![c0]);
                    assert(all[0] == c0);
                    assert(item == c0);
                    assert(c0 is New);
                    assert(item is New);
                }
            }
            proof {
                if is_new {
                    assert(before@[parent.0 as int].raws == old(self)@[parent.0 as int].raws);
                    assert(before@[parent.0 as int].kind == old(self)@[parent.0 as int].kind);
                    if old(self).kids(parent).len() > 0 {
                        let lk = old(self).kids(parent).last();
                        assert(last == Some(lk));
                        assert(before@[lk.0 as int].raws == old(self)@[lk.0 as int].raws);
                    }
                    assert(match last {
                        Some(x) => crate::error::opt_view(before@[x.0 as int].raws.before),
                        None => None,
                    } == sb);
                    assert(item->New_0.raws == nr);
                }
            }
            proof {
                if is_node {
                    assert(item == c0);
                    assert(item is Node);
                }
            }
            let nodes = match self.normalize(parent, item, last, false) {
                Ok(ns) => ns,
                Err(e) => {
                    proof {
                        assert(spec_has_css(all[k as int]));
                        assert(self@.take(before@.len() as int)[parent.0 as int] == self@[parent.0 as int]);
                    }
                    return Err(e);
                },
            };
            let ordered = reversed(&nodes);
            let len = self.children(parent).len();
            let ghost mid = *self;
            proof {
                assert forall|q: int| 0 <= q < ordered@.len() implies self.has(#[trigger] ordered@[q]) by {
                    assert(ordered@[q] == nodes@[nodes@.len() - 1 - q]);
                }
            }
            self.attach_all(parent, &ordered, len);
            proof {
                lemma_items_grown(before, *self, all);
                if is_node && xn != parent {
                    assert(nodes@ == seq![xn]);
                    assert(ordered@[0] == xn);
                    assert(ordered@.len() == 1);
                    assert forall|p: int| 0 <= p < old(self)@.len() implies spec_kids_without(before@, p, xn)
                        == spec_kids_without(old(self)@, p, xn) by {
                        assert(kids_of(before@[p]) == kids_of(old(self)@[p]));
                    }
                    assert(kids_of(mid@[parent.0 as int]) == spec_kids_without(old(self)@, parent.0 as int, xn));
                    assert(self.kids(parent) == spec_kids_without(old(self)@, parent.0 as int, xn).push(xn));
                    assert forall|p: int| 0 <= p < old(self)@.len() && p != parent.0 implies kids_of(#[trigger] self@[p])
                        == spec_kids_without(old(self)@, p, xn) by {
                        assert(kids_of(mid@[p]) == spec_kids_without(before@, p, xn));
                    }
                }
                if is_new {
                    assert(kids_of(mid@[parent.0 as int]) == kids_of(before@[parent.0 as int]));
                    assert(before@.len() == old(self)@.len());
                    assert(ordered@[0] == fresh);
                    assert(fresh.0 < mid@.len());
                    assert(self@[fresh.0 as int].raws == mid@[fresh.0 as int].raws);
                }
                if is_node && !(old(self)@[parent.0 as int].kind is Root) {
                    assert(before@[xn.0 as int].raws == old(self)@[xn.0 as int].raws);
                    assert(before@[parent.0 as int].kind == old(self)@[parent.0 as int].kind);
                    assert(xn.0 < before@.len());
                    assert(self@[xn.0 as int].raws == mid@[xn.0 as int].raws);
                    if old(self).kids(parent).len() > 0 {
                        let lk = old(self).kids(parent).last();
                        assert(last == Some(lk));
                        assert(lk.0 < old(self)@.len());
                        assert(self@[lk.0 as int].raws == mid@[lk.0 as int].raws);
                    } else {
                        assert(last is None);
                    }
                }
                if all_new {
                    assert(all[k as int] is New);
                    let f = NodeId(before@.len() as usize);
                    assert(nodes@ == seq![f]);
                    assert(ordered@[0] == f);
                    assert(kids_of(mid@[parent.0 as int]) == kids_of(before@[parent.0 as int]));
                    let bk = before.kids(parent);
                    let ok = old(self).kids(parent);
                    assert(self.kids(parent) == bk.push(f));
                    assert(bk.push(f).take(ok.len() as int) =~= bk.take(ok.len() as int));
                    assert(f.0 < self@.len());
                    assert forall|i: int| ok.len() <= i < self.kids(parent).len() implies (#[trigger] self.kids(
                        parent,
                    )[i]).0 < self@.len() by {
                        if i < bk.len() {
                            assert(self.kids(parent)[i] == bk[i]);
                        }
                    }
                    assert forall|i: int, j: int|
                        ok.len() <= i < j < self.kids(parent).len() implies old(self)@.len() <= (#[trigger] self.kids(
                        parent,
                    )[i]).0 < (#[trigger] self.kids(parent)[j]).0 by {
                        assert(self.kids(parent)[i] == bk[i]);
                        if j < bk.len() {
                            assert(self.kids(parent)[j] == bk[j]);
                        } else {
                            assert(self.kids(parent)[j] == f);
                        }
                    }
                    assert forall|i: int| ok.len() <= i < self.kids(parent).len() implies old(self)@.len() <= (
                    #[trigger] self.kids(parent)[i]).0 by {
                        if i < bk.len() {
                            assert(self.kids(parent)[i] == bk[i]);
                        }
                    }
                }
            }
            k = k + 1;
        }
        self.mark_dirty(parent);
        Ok(())
    }

    /// Inserts children at the start of a container, giving an at-rule a
    /// block first. Items go in so that they keep their order; live cursors
    /// of iterations over the container move along.
    pub fn prepend(&mut self, parent: NodeId, children: Insertable) -> (r: Result<(), CssSyntaxError>)
        requires
            old(self).wf(),
            old(self).has(parent),
            spec_insertable_ok(*old(self), children),
        ensures
            spec_kept(*old(self), *final(self)),
            final(self)@[parent.0 as int].nodes is Some,
            r is Err ==> spec_has_css(children),
            !spec_has_css(children) ==> r is Ok,
            children is New ==> final(self).kids(parent) == seq![NodeId(old(self)@.len() as usize)] + old(
                self,
            ).kids(parent),
            spec_all_new(children) ==> spec_prefixed_by_new(
                old(self).kids(parent),
                final(self).kids(parent),
                spec_top_items(children).len() as int,
                old(self)@.len() as int,
            ),
            children matches Insertable::Node(x) ==> (x != parent ==> {
                &&& final(self).kids(parent) == seq![x] + spec_kids_without(old(self)@, parent.0 as int, x)
                &&& final(self)@[x.0 as int].parent == Some(parent)
                &&& forall|p: int|
                    0 <= p < old(self)@.len() && p != parent.0 ==> kids_of(#[trigger] final(self)@[p])
                        == spec_kids_without(old(self)@, p, x)
            }),
    {
        let ghost all_new = spec_all_new(children);
        let ghost is_new = children is New;
        let ghost is_node = children is Node;
        let ghost xn = children->Node_0;
        let ghost fresh = NodeId(old(self)@.len() as usize);
        proof {
            crate::tree::lemma_kids_indexed(*old(self), parent);
        }
        self.make_container(parent);
        let ghost c0 = children;
        let items = split_top_level(children);
        proof {
            lemma_split_ok(*old(self), c0, items@);
            lemma_items_grown(*old(self), *self, items@);
        }
        let ghost all = items@;
        let n = items.len();
        let mut rest = items;
        let mut k: usize = n;
        proof {
            assert(old(self).kids(parent).skip(0) =~= old(self).kids(parent));
            assert(self.kids(parent) == old(self).kids(parent));
        }
        while k > 0
            invariant
                k <= n,
                n == all.len(),
                rest@ == all.take(k as int),
                spec_items_ok(*self, all),
                spec_kept(*old(self), *self),
                self.has(parent),
                self@[parent.0 as int].nodes is Some,
                (exists|i: int| 0 <= i < all.len() && spec_has_css(#[trigger] all[i])) ==> spec_has_css(c0),
                is_new == (c0 is New),
                c0 == children,
                fresh == NodeId(old(self)@.len() as usize),
                is_new ==> all == seq![c0] && (if k == n {
                    self@.len() == old(self)@.len() && self.kids(parent) == old(self).kids(parent)
                } else {
                    self.kids(parent) == seq![fresh] + old(self).kids(parent)
                }),
                is_node ==> all == seq![c0] && (if k == n {
                    self@.len() == old(self)@.len() && forall|p: int| 0 <= p < old(self)@.len() ==> kids_of(#[trigger] self@[p])
                        == kids_of(old(self)@[p])
                } else {
                    xn != parent ==> {
                        &&& self.kids(parent) == seq![xn] + spec_kids_without(old(self)@, parent.0 as int, xn)
                        &&& self@[xn.0 as int].parent == Some(parent)
                        &&& forall|p: int|
                            0 <= p < old(self)@.len() && p != parent.0 ==> kids_of(#[trigger] self@[p])
                                == spec_kids_without(old(self)@, p, xn)
                    }
                }),
                is_node == (c0 is Node),
                xn == c0->Node_0,
                all == spec_top_items(c0),
                all_new == spec_all_new(c0),
                all_new ==> spec_prefixed_by_new(
                    old(self).kids(parent),
                    self.kids(parent),
                    n - k,
                    old(self)@.len() as int,
                ),
                all_new ==> forall|i: int| 0 <= i < n - k ==> (#[trigger] self.kids(parent)[i]).0 < self@.len(),
            decreases k,
        {
            let item = match rest.pop() {
                Some(x) => x,
                None => {
                    return Ok(());
                },
            };
            proof {
                assert(item == all[k - 1]);
                assert(rest@ =~= all.take(k - 1));
            }
            let first = self.first(parent);
            proof {
                assert(crate::tree::node_links_ok(self@, parent.0 as int));
            }
            let ghost before = *self;
            proof {
                if is_new {
                    assert(k == 1);
                    assert(item is New);
                }
                if is_node {
                    assert(k == 1);
                    assert(item == c0);
                }
            }
            let nodes = match self.normalize(parent, item, first, true) {
                Ok(ns) => ns,
                Err(e) => {
                    proof {
                        assert(spec_has_css(all[k - 1]));
                        assert(self@.take(before@.len() as int)[parent.0 as int] == self@[parent.0 as int]);
                    }
                    return Err(e);
                },
            };
            let count = nodes.len();
            let mut ordered: Vec<NodeId> = Vec::new();
            let mut j: usize = count;
            while j > 0
                invariant
                    j <= count,
                    count == nodes@.len(),
                    ordered@.len() == count - j,
                    forall|q: int| 0 <= q < count - j ==> ordered@[q] == nodes@[count - 1 - q],
                decreases j,
            {
                ordered.push(nodes[j - 1]);
                j = j - 1;
            }
            let ghost mid = *self;
            proof {
                assert forall|q: int| 0 <= q < ordered@.len() implies self.has(#[trigger] ordered@[q]) by {
                    assert(ordered@[q] == nodes@[count - 1 - q]);
                }
            }
            self.attach_all(parent, &ordered, 0);
            let by: isize = if count <= 0x7fff_ffff {
                count as isize
            } else {
                0x7fff_ffff
            };
            self.shift_cursors(parent, isize::MIN, true, by);
            proof {
                lemma_items_grown(before, *self, all);
                if is_node && xn != parent {
                    assert(nodes@ == seq![xn]);
                    assert(ordered@[0] == xn);
                    assert(ordered@.len() == 1);
                    assert forall|p: int| 0 <= p < old(self)@.len() implies spec_kids_without(before@, p, xn)
                        == spec_kids_without(old(self)@, p, xn) by {
                        assert(kids_of(before@[p]) == kids_of(old(self)@[p]));
                    }
                    assert(kids_of(mid@[parent.0 as int]) == spec_kids_without(old(self)@, parent.0 as int, xn));
                    assert(self.kids(parent) =~= seq![xn] + spec_kids_without(old(self)@, parent.0 as int, xn));
                    assert forall|p: int| 0 <= p < old(self)@.len() && p != parent.0 implies kids_of(#[trigger] self@[p])
                        == spec_kids_without(old(self)@, p, xn) by {
                        assert(kids_of(mid@[p]) == spec_kids_without(before@, p, xn));
                    }
                }
                if is_new {
                    assert(kids_of(mid@[parent.0 as int]) == kids_of(before@[parent.0 as int]));
                    assert(before@.len() == old(self)@.len());
                    assert(ordered@[0] == fresh);
                    assert(old(self).kids(parent).insert(0, fresh) =~= seq![fresh] + old(self).kids(parent));
                }
                if all_new {
                    assert(all[k - 1] is New);
                    let f = NodeId(before@.len() as usize);
                    assert(nodes@ == seq![f]);
                    assert(ordered@[0] == f);
                    assert(kids_of(mid@[parent.0 as int]) == kids_of(before@[parent.0 as int]));
                    let bk = before.kids(parent);
                    let ok = old(self).kids(parent);
                    let m = n - k;
                    assert(bk.insert(0, f) =~= seq![f] + bk);
                    assert(self.kids(parent) == seq![f] + bk);
                    assert((seq![f] + bk).skip(m + 1) =~= bk.skip(m));
                    assert(f.0 < self@.len());
                    assert forall|i: int| 0 <= i < m + 1 implies (#[trigger] self.kids(parent)[i]).0 < self@.len() by {
                        if i > 0 {
                            assert(self.kids(parent)[i] == bk[i - 1]);
                        }
                    }
                    assert forall|i: int, j: int| 0 <= i < j < m + 1 implies old(self)@.len() <= (#[trigger] self.kids(
                        parent,
                    )[j]).0 < (#[trigger] self.kids(parent)[i]).0 by {
                        assert(self.kids(parent)[j] == bk[j - 1]);
                        if i > 0 {
                            assert(self.kids(parent)[i] == bk[i - 1]);
                        } else {
                            assert(self.kids(parent)[i] == f);
                        }
                    }
                    assert forall|i: int| 0 <= i < m + 1 implies old(self)@.len() <= (#[trigger] self.kids(parent)[i]).0 by {
                        if i > 0 {
                            assert(self.kids(parent)[i] == bk[i - 1]);
                        }
                    }
                }
            }
            k = k - 1;
        }
        self.mark_dirty(parent);
        Ok(())
    }
}

/// The position of an insertion's target among `parent`'s children: the
/// child's index (0 when it is not a child), or the index given.
spec fn spec_resolve(t: Tree, parent: NodeId, target: Target) -> int {
    spec_resolve_in(t.kids(parent), target)
}

/// The index a target names among children `ks`.
spec fn spec_resolve_in(ks: Seq<NodeId>, target: Target) -> int {
    match target {
        Target::Node(id) => if ks.contains(id) {
            ks.index_of(id)
        } else {
            0
        },
        Target::Index(i) => i as int,
    }
}

/// Where a single node inserted before or after a target lands.
spec fn spec_insert_pos(t: Tree, parent: NodeId, target: Target, before: bool) -> int {
    spec_insert_pos_in(t.kids(parent), target, before)
}

/// Where a single node inserted before or after a target among children
/// `ks` lands.
spec fn spec_insert_pos_in(ks: Seq<NodeId>, target: Target, before: bool) -> int {
    let at = if before {
        spec_resolve_in(ks, target)
    } else {
        spec_resolve_in(ks, target) + 1
    };
    if at <= ks.len() {
        at
    } else {
        ks.len() as int
    }
}

impl Target {
    fn resolve(self, tree: &Tree, parent: NodeId) -> (r: usize)
        requires
            tree.wf(),
            tree.has(parent),
        ensures
            r as int == spec_resolve(*tree, parent, self),
    {
        match self {
            Target::Node(id) => match tree.index(parent, id) {
                Some(i) => {
                    proof {
                        assert(crate::tree::node_links_ok(tree@, parent.0 as int));
                        crate::tree::lemma_first_index(tree.kids(parent), id, i as int);
                    }
                    i
                },
                None => 0,
            },
            Target::Index(i) => i,
        }
    }
}

impl Tree {
    /// Inserts before or after a target child, normalizing against the
    /// child at the target's position. Live cursors at or past the
    /// insertion point move along.
    fn insert(&mut self, parent: NodeId, target: Target, before: bool, add: Insertable) -> (r: Result<
        (),
        CssSyntaxError,
    >)
        requires
            old(self).wf(),
            old(self).has(parent),
            spec_insertable_ok(*old(self), add),
        ensures
            spec_kept(*old(self), *final(self)),
            r is Err ==> spec_has_css(add),
            !spec_has_css(add) ==> r is Ok,
            add is New ==> final(self).kids(parent) == old(self).kids(parent).insert(
                spec_insert_pos(*old(self), parent, target, before),
                NodeId(old(self)@.len() as usize),
            ),
            add matches Insertable::Node(x) ==> (x != parent ==> {
                let w = spec_kids_without(old(self)@, parent.0 as int, x);
                &&& final(self).kids(parent) == w.insert(spec_insert_pos_in(w, target, before), x)
                &&& final(self)@[x.0 as int].parent == Some(parent)
                &&& forall|p: int|
                    0 <= p < old(self)@.len() && p != parent.0 ==> kids_of(#[trigger] final(self)@[p])
                        == spec_kids_without(old(self)@, p, x)
            }),
    {
        let ghost is_new = add is New;
        let ghost is_node = add is Node;
        let ghost xn = add->Node_0;
        let exist_index = target.resolve(self, parent);
        let sample = {
            let c = self.children(parent);
            proof {
                assert(crate::tree::node_links_ok(self@, parent.0 as int));
            }
            if exist_index < c.len() {
                Some(c[exist_index])
            } else {
                None
            }
        };
        let prepend = before && exist_index == 0;
        let ghost t0 = *self;
        let nodes = match self.normalize(parent, add, sample, prepend) {
            Ok(ns) => ns,
            Err(e) => {
                return Err(e);
            },
        };
        let count = nodes.len();
        let mut ordered: Vec<NodeId> = Vec::new();
        let mut j: usize = count;
        while j > 0
            invariant
                j <= count,
                count == nodes@.len(),
                ordered@.len() == count - j,
                forall|q: int| 0 <= q < count - j ==> ordered@[q] == nodes@[count - 1 - q],
            decreases j,
        {
            ordered.push(nodes[j - 1]);
            j = j - 1;
        }
        proof {
            assert forall|q: int| 0 <= q < ordered@.len() implies self.has(#[trigger] ordered@[q]) by {
                assert(ordered@[q] == nodes@[count - 1 - q]);
            }
            if is_new {
                assert(ordered@[0] == NodeId(old(self)@.len() as usize));
                assert(kids_of(self@[parent.0 as int]) == kids_of(old(self)@[parent.0 as int]));
            }
        }
        let exist_index = target.resolve(self, parent);
        let at = if before {
            exist_index
        } else {
            exist_index.saturating_add(1)
        };
        proof {
            if is_new {
                assert(self.kids(parent) == old(self).kids(parent));
                assert(spec_resolve(*self, parent, target) == spec_resolve(*old(self), parent, target));
            }
        }
        let ghost mid = *self;
        self.attach_all(parent, &ordered, at);
        proof {
            if is_node && xn != parent {
                assert(nodes@ == seq![xn]);
                assert(ordered@[0] == xn);
                assert(ordered@.len() == 1);
                assert(mid.kids(parent) == spec_kids_without(old(self)@, parent.0 as int, xn));
            }
        }
        let from: isize = if exist_index <= 0x7fff_ffff {
            exist_index as isize
        } else {
            0x7fff_ffff
        };
        let by: isize = if count <= 0x7fff_ffff {
            count as isize
        } else {
            0x7fff_ffff
        };
        self.shift_cursors(parent, from, before, by);
        self.mark_dirty(parent);
        Ok(())
    }

    /// Inserts nodes before `exist`; nothing happens when it has no parent.
    pub fn insert_before(&mut self, exist: NodeId, add: Insertable) -> (r: Result<(), CssSyntaxError>)
        requires
            old(self).wf(),
            old(self).has(exist),
            spec_insertable_ok(*old(self), add),
        ensures
            spec_kept(*old(self), *final(self)),
            r is Err ==> spec_has_css(add),
            !spec_has_css(add) ==> r is Ok,
            old(self)@[exist.0 as int].parent is None ==> final(self)@ == old(self)@,
            old(self)@[exist.0 as int].parent matches Some(p) ==> (add is New ==> final(self).kids(p) == old(
                self,
            ).kids(p).insert(old(self).kids(p).index_of(exist), NodeId(old(self)@.len() as usize))),
            old(self)@[exist.0 as int].parent matches Some(p) ==> (add matches Insertable::Node(x) ==> (x != p && x
                != exist ==> {
                let w = spec_kids_without(old(self)@, p.0 as int, x);
                &&& final(self).kids(p) == w.insert(w.index_of(exist), x)
                &&& final(self)@[x.0 as int].parent == Some(p)
                &&& forall|q: int|
                    0 <= q < old(self)@.len() && q != p.0 ==> kids_of(#[trigger] final(self)@[q]) == spec_kids_without(
                        old(self)@,
                        q,
                        x,
                    )
            })),
    {
        match self.parent(exist) {
            None => Ok(()),
            Some(p) => {
                proof {
                    assert(crate::tree::node_links_ok(self@, exist.0 as int));
                }
                proof {
                    assert(crate::tree::node_links_ok(self@, exist.0 as int));
                    if let Insertable::Node(x) = add {
                        if x != p && x != exist {
                            lemma_kids_without_keeps(self@, p.0 as int, x, exist);
                            let w = spec_kids_without(self@, p.0 as int, x);
                            let j = choose|j: int| 0 <= j < w.len() && w[j] == exist;
                            assert(w.index_of(exist) < w.len()) by {
                                assert(w.contains(exist));
                            }
                        }
                    }
                }
                self.insert(p, Target::Node(exist), true, add)
            },
        }
    }

    /// Inserts nodes after `exist`; nothing happens when it has no parent.
    pub fn insert_after(&mut self, exist: NodeId, add: Insertable) -> (r: Result<(), CssSyntaxError>)
        requires
            old(self).wf(),
            old(self).has(exist),
            spec_insertable_ok(*old(self), add),
        ensures
            spec_kept(*old(self), *final(self)),
            r is Err ==> spec_has_css(add),
            !spec_has_css(add) ==> r is Ok,
            old(self)@[exist.0 as int].parent is None ==> final(self)@ == old(self)@,
            old(self)@[exist.0 as int].parent matches Some(p) ==> (add is New ==> final(self).kids(p) == old(
                self,
            ).kids(p).insert(old(self).kids(p).index_of(exist) + 1, NodeId(old(self)@.len() as usize))),
            old(self)@[exist.0 as int].parent matches Some(p) ==> (add matches Insertable::Node(x) ==> (x != p && x
                != exist ==> {
                let w = spec_kids_without(old(self)@, p.0 as int, x);
                &&& final(self).kids(p) == w.insert(w.index_of(exist) + 1, x)
                &&& final(self)@[x.0 as int].parent == Some(p)
                &&& forall|q: int|
                    0 <= q < old(self)@.len() && q != p.0 ==> kids_of(#[trigger] final(self)@[q]) == spec_kids_without(
                        old(self)@,
                        q,
                        x,
                    )
            })),
    {
        match self.parent(exist) {
            None => Ok(()),
            Some(p) => {
                proof {
                    assert(crate::tree::node_links_ok(self@, exist.0 as int));
                    assert(crate::tree::node_links_ok(self@, p.0 as int));
                    let ks = self.kids(p);
                    let j = choose|j: int| 0 <= j < ks.len() && ks[j] == exist;
                    crate::tree::lemma_first_index(ks, exist, j);
                }
                proof {
                    assert(crate::tree::node_links_ok(self@, exist.0 as int));
                    if let Insertable::Node(x) = add {
                        if x != p && x != exist {
                            lemma_kids_without_keeps(self@, p.0 as int, x, exist);
                            let w = spec_kids_without(self@, p.0 as int, x);
                            let j = choose|j: int| 0 <= j < w.len() && w[j] == exist;
                            assert(w.index_of(exist) < w.len()) by {
                                assert(w.contains(exist));
                            }
                        }
                    }
                }
                self.insert(p, Target::Node(exist), false, add)
            },
        }
    }

    /// Inserts nodes before the child at `index` (at the end when past it).
    pub fn insert_before_index(&mut self, parent: NodeId, index: usize, add: Insertable) -> (r: Result<
        (),
        CssSyntaxError,
    >)
        requires
            old(self).wf(),
            old(self).has(parent),
            spec_insertable_ok(*old(self), add),
        ensures
            spec_kept(*old(self), *final(self)),
            r is Err ==> spec_has_css(add),
            !spec_has_css(add) ==> r is Ok,
            add is New ==> final(self).kids(parent) == old(self).kids(parent).insert(
                if index <= old(self).kids(parent).len() { index as int } else { old(self).kids(parent).len() as int },
                NodeId(old(self)@.len() as usize),
            ),
    {
        self.insert(parent, Target::Index(index), true, add)
    }

    /// Inserts nodes after the child at `index` (at the end when past it).
    pub fn insert_after_index(&mut self, parent: NodeId, index: usize, add: Insertable) -> (r: Result<
        (),
        CssSyntaxError,
    >)
        requires
            old(self).wf(),
            old(self).has(parent),
            spec_insertable_ok(*old(self), add),
        ensures
            spec_kept(*old(self), *final(self)),
            r is Err ==> spec_has_css(add),
            !spec_has_css(add) ==> r is Ok,
            add is New ==> final(self).kids(parent) == old(self).kids(parent).insert(
                if index < old(self).kids(parent).len() {
                    index + 1
                } else {
                    old(self).kids(parent).len() as int
                },
                NodeId(old(self)@.len() as usize),
            ),
    {
        self.insert(parent, Target::Index(index), false, add)
    }
}

impl Tree {
    /// Replaces a node with others. The node stays, in its position among
    /// them, when it is one of them; otherwise it is removed. Nothing happens
    /// to a node without a parent.
    pub fn replace_with(&mut self, id: NodeId, replacements: Insertable) -> (r: Result<(), CssSyntaxError>)
        requires
            old(self).wf(),
            old(self).has(id),
            spec_insertable_ok(*old(self), replacements),
        ensures
            spec_kept(*old(self), *final(self)),
            r is Err ==> spec_has_css(replacements),
            !spec_has_css(replacements) ==> r is Ok,
            old(self)@[id.0 as int].parent is None ==> final(self)@ == old(self)@,
            old(self)@[id.0 as int].parent matches Some(p) ==> (replacements is New ==> {
                &&& final(self).kids(p) == old(self).kids(p).update(
                    old(self).kids(p).index_of(id),
                    NodeId(old(self)@.len() as usize),
                )
                &&& final(self)@[id.0 as int].parent is None
            }),
    {
        if self.parent(id).is_none() {
            return Ok(());
        }
        let ghost c0 = replacements;
        let ghost p = old(self)@[id.0 as int].parent->0;
        let ghost i0 = old(self).kids(p).index_of(id);
        let ghost fresh = NodeId(old(self)@.len() as usize);
        let items = split_top_level(replacements);
        proof {
            lemma_split_ok(*old(self), c0, items@);
        }
        let ghost all = items@;
        let n = items.len();
        let mut rest = items;
        let mut bookmark = id;
        let mut found_self = false;
        let mut k: usize = 0;
        proof {
            assert(rest@ == all.skip(0));
        }
        while k < n
            invariant
                k <= n,
                n == all.len(),
                rest@ == all.skip(k as int),
                spec_items_ok(*self, all),
                spec_kept(*old(self), *self),
                self.has(id),
                self.has(bookmark),
                old(self)@[id.0 as int].parent is Some,
                c0 == replacements,
                (exists|i: int| 0 <= i < all.len() && spec_has_css(#[trigger] all[i])) ==> spec_has_css(c0),
                c0 is New ==> all == seq![c0],
                c0 is New && k == 0 ==> self@ == old(self)@ && bookmark == id && !found_self,
                c0 is New && k == 1 ==> self.kids(p) == old(self).kids(p).insert(i0, fresh) && !found_self,
                old(self)@[id.0 as int].parent == Some(p),
                i0 == old(self).kids(p).index_of(id),
                fresh == NodeId(old(self)@.len() as usize),
            decreases n - k,
        {
            let item = rest.remove(0);
            proof {
                assert(item == all[k as int]);
                assert(rest@ =~= all.skip(k + 1));
            }
            let is_self = match &item {
                Insertable::Node(x) => *x == id,
                _ => false,
            };
            let ghost before = *self;
            if is_self {
                found_self = true;
            } else if found_self {
                let moved = match &item {
                    Insertable::Node(x) => Some(*x),
                    _ => None,
                };
                match self.insert_after(bookmark, item) {
                    Ok(()) => {},
                    Err(e) => {
                        proof {
                            assert(spec_has_css(all[k as int]));
                        }
                        return Err(e);
                    },
                }
                match moved {
                    Some(x) => {
                        bookmark = x;
                    },
                    None => {
                        proof {
                            assert(crate::tree::node_links_ok(self@, bookmark.0 as int));
                        }
                        if let Some(nx) = self.next(bookmark) {
                            proof {
                                let p = self@[bookmark.0 as int].parent->0;
                                assert(crate::tree::node_links_ok(self@, p.0 as int));
                                let i = self.kids(p).index_of(bookmark);
                                assert(self.kids(p)[i + 1] == nx);
                            }
                            bookmark = nx;
                        }
                    },
                }
            } else {
                let ghost item0 = item;
                match self.insert_before(bookmark, item) {
                    Ok(()) => {},
                    Err(e) => {
                        proof {
                            assert(spec_has_css(all[k as int]));
                        }
                        return Err(e);
                    },
                }
                proof {
                    if c0 is New {
                        assert(item0 is New);
                        assert(before@[bookmark.0 as int].parent == Some(p));
                        assert(self.kids(p) == before.kids(p).insert(before.kids(p).index_of(bookmark), NodeId(before@.len() as usize)));
                    }
                }
            }
            proof {
                lemma_items_grown(before, *self, all);
            }
            k = k + 1;
        }
        if !found_self {
            proof {
                if c0 is New {
                    let ks = self.kids(p);
                    assert(crate::tree::node_links_ok(old(self)@, id.0 as int));
                    assert(crate::tree::node_links_ok(old(self)@, p.0 as int));
                    assert(old(self).kids(p).contains(id));
                    assert(ks[i0 + 1] == id);
                    assert(crate::tree::node_links_ok(self@, p.0 as int));
                    assert(self@[id.0 as int].parent == Some(p));
                }
                if let Some(q) = self@[id.0 as int].parent {
                    assert(crate::tree::node_links_ok(self@, id.0 as int));
                    crate::tree::lemma_remove_child_facts(self@, q, id, false);
                }
            }
            let ghost before = *self;
            self.remove(id);
            proof {
                if c0 is New {
                    let ks = before.kids(p);
                    assert(crate::tree::node_links_ok(before@, p.0 as int));
                    crate::tree::lemma_first_index(ks, id, i0 + 1);
                    assert(self.kids(p) =~= ks.remove(i0 + 1));
                    assert(ks.remove(i0 + 1) =~= old(self).kids(p).update(i0, fresh));
                }
            }
        }
        Ok(())
    }

    /// Copies a node and inserts the copy right after it; a node without a
    /// parent stays alone, the copy detached.
    pub fn clone_after(&mut self, id: NodeId) -> (r: Result<NodeId, CssSyntaxError>)
        requires
            old(self).wf(),
            old(self).has(id),
        ensures
            r matches Ok(c) && c.0 == old(self)@.len(),
            final(self).wf(),
            final(self)@.len() > old(self)@.len(),
            final(self).spec_root() == old(self).spec_root(),
            final(self).spec_inputs() == old(self).spec_inputs(),
    {
        let c = self.clone_node(id);
        match self.insert_after(id, Insertable::Node(c)) {
            Ok(()) => {},
            Err(e) => {
                return Err(e);
            },
        }
        Ok(c)
    }

    /// Copies a node and inserts the copy right before it; a node without a
    /// parent stays alone, the copy detached.
    pub fn clone_before(&mut self, id: NodeId) -> (r: Result<NodeId, CssSyntaxError>)
        requires
            old(self).wf(),
            old(self).has(id),
        ensures
            r matches Ok(c) && c.0 == old(self)@.len(),
            final(self).wf(),
            final(self)@.len() > old(self)@.len(),
            final(self).spec_root() == old(self).spec_root(),
            final(self).spec_inputs() == old(self).spec_inputs(),
    {
        let c = self.clone_node(id);
        match self.insert_before(id, Insertable::Node(c)) {
            Ok(()) => {},
            Err(e) => {
                return Err(e);
            },
        }
        Ok(c)
    }
}

/// The separator a selector list already uses: its first comma and the
/// whitespace right after it; none when it has no comma.
pub open spec fn spec_comma_separator(sel: Seq<char>) -> Option<Seq<char>> {
    match crate::text::spec_find_from(sel, seq![','], 0) {
        Some(i) => {
            let rest = sel.subrange(i + 1, sel.len() as int);
            Some(seq![','] + rest.take(crate::text::spec_trim_start_len(rest) as int))
        },
        None => None,
    }
}

/// The separator a selector list already uses, if any.
pub fn find_comma_separator(selector: &str) -> (r: Option<String>)
    ensures
        crate::error::opt_view(r) == spec_comma_separator(selector@),
{
    let chars = crate::text::chars_of(selector);
    let comma = vec![','];
    proof {
        assert(comma@ =~= seq![',']);
    }
    match crate::text::find(&chars, &comma, 0) {
        Some(i) => {
            proof {
                crate::text::lemma_find_from_bounds(chars@, comma@, 0);
                assert(i + 1 <= chars@.len());
            }
            let n = chars.len();
            let next: usize = if i < n {
                i + 1
            } else {
                n
            };
            let rest = crate::text::slice_chars(&chars, next, n);
            let (a, _) = crate::text::trim_bounds(&rest);
            let mut out = crate::text::to_owned_string(",");
            let spaces = crate::text::string_from_chars(&rest, 0, a);
            crate::text::push_str(&mut out, spaces.as_str());
            proof {
                reveal_strlit(",");
                assert(","@ =~= seq![',']);
                assert(rest@.subrange(0, a as int) =~= rest@.take(a as int));
            }
            Some(out)
        },
        None => None,
    }
}

/// `values` joined by `sep`.
pub open spec fn spec_join(values: Seq<Seq<char>>, sep: Seq<char>) -> Seq<char>
    decreases values.len(),
{
    if values.len() == 0 {
        Seq::empty()
    } else if values.len() == 1 {
        values[0]
    } else {
        spec_join(values.drop_last(), sep) + sep + values.last()
    }
}

fn join(values: &[String], sep: &str) -> (r: String)
    ensures
        r@ == spec_join(values@.map_values(|v: String| v@), sep@),
{
    let ghost vs = values@.map_values(|v: String| v@);
    let mut out = String::new();
    let mut i: usize = 0;
    while i < values.len()
        invariant
            i <= values@.len(),
            vs == values@.map_values(|v: String| v@),
            out@ == spec_join(vs.take(i as int), sep@),
        decreases values@.len() - i,
    {
        if i > 0 {
            crate::text::push_str(&mut out, sep);
        }
        crate::text::push_str(&mut out, values[i].as_str());
        proof {
            assert(vs.take(i + 1).drop_last() =~= vs.take(i as int));
            if i == 0 {
                assert(vs.take(1).len() == 1);
            }
        }
        i = i + 1;
    }
    proof {
        assert(vs.take(values@.len() as int) =~= vs);
    }
    out
}

impl Tree {
    /// A rule's selectors, split on top-level commas; none for other nodes.
    pub fn selectors(&self, id: NodeId) -> (r: Vec<String>)
        requires
            self.has(id),
        ensures
            crate::list::spec_views(r@) == match self@[id.0 as int].kind {
                NodeKind::Rule { selector } => crate::list::spec_split(selector@, crate::list::spec_comma_separators(), true),
                _ => Seq::empty(),
            },
    {
        match self.selector(id) {
            Some(sel) => crate::list::comma(sel),
            None => {
                let r: Vec<String> = Vec::new();
                proof {
                    assert(crate::list::spec_views(r@) =~= Seq::<Seq<char>>::empty());
                }
                r
            },
        }
    }

    /// Sets a rule's selectors, joined by the separator the rule already
    /// uses: its first comma with the whitespace after it, else a comma
    /// followed by the rule's `between`. Other nodes are unchanged.
    pub fn set_selectors(&mut self, id: NodeId, values: &[String])
        requires
            old(self).wf(),
            old(self).has(id),
        ensures
            final(self).wf(),
            final(self).spec_root() == old(self).spec_root(),
            final(self).spec_inputs() == old(self).spec_inputs(),
            final(self)@.len() == old(self)@.len(),
            match old(self)@[id.0 as int].kind {
                NodeKind::Rule { selector } => final(self)@[id.0 as int].kind matches NodeKind::Rule { selector: s }
                    && s@ == spec_join(
                    values@.map_values(|v: String| v@),
                    match spec_comma_separator(selector@) {
                        Some(sep) => sep,
                        None => seq![','] + crate::stringifier::spec_raw(
                            old(self)@,
                            id,
                            Some("between"@),
                            Some("beforeOpen"@),
                        ),
                    },
                ),
                _ => final(self)@ == old(self)@,
            },
    {
        let sep = match self.selector(id) {
            Some(sel) => match find_comma_separator(sel) {
                Some(s) => s,
                None => {
                    let between = self.raw(id, Some("between"), Some("beforeOpen"));
                    let mut s = crate::text::to_owned_string(",");
                    crate::text::push_str(&mut s, between.as_str());
                    proof {
                        reveal_strlit(",");
                        assert(","@ =~= seq![',']);
                    }
                    s
                },
            },
            None => {
                return;
            },
        };
        let joined = join(values, sep.as_str());
        self.set_selector(id, joined);
    }
}

/// A comparator of type `F` can answer, for `a` against `b` in some tree,
/// that `a` goes after `b` (when `after`) or that it does not.
pub open spec fn answers_after<F: FnMut(&Tree, NodeId, NodeId) -> std::cmp::Ordering>(a: NodeId, b: NodeId, after: bool) -> bool {
    exists|g: F, t: &Tree, o: std::cmp::Ordering| #[trigger] call_ensures(g, (t, a, b), o) && (o is Greater) == after
}

/// Neighbours `a` then `b` stand in the comparator's order: it answered that
/// `a` does not go after `b`, or that `b` goes after `a`.
pub open spec fn stand_in_order<F: FnMut(&Tree, NodeId, NodeId) -> std::cmp::Ordering>(a: NodeId, b: NodeId) -> bool {
    answers_after::<F>(a, b, false) || answers_after::<F>(b, a, true)
}

/// Two nodes of `orig` stand in `cur` in the other order only where the
/// comparator answered that the one first in `orig` goes after the other:
/// children that compare equal keep their order.
pub open spec fn reordered_only_when_after<F: FnMut(&Tree, NodeId, NodeId) -> std::cmp::Ordering>(
    orig: Seq<NodeId>,
    cur: Seq<NodeId>,
) -> bool {
    forall|i: int, k: int|
        0 <= i < k < cur.len() && orig.index_of(#[trigger] cur[i]) > orig.index_of(#[trigger] cur[k])
            ==> answers_after::<F>(cur[k], cur[i], true)
}

impl Tree {
    /// Reorders the children of `parent` by `compare`, keeping children that
    /// compare equal in their order.
    pub fn sort_children<F: FnMut(&Tree, NodeId, NodeId) -> std::cmp::Ordering>(&mut self, parent: NodeId, compare: F)
        requires
            old(self).wf(),
            old(self).has(parent),
            forall|g: F, t: &Tree, a: NodeId, b: NodeId| call_requires(g, (t, a, b)),
        ensures
            final(self).wf(),
            final(self).spec_root() == old(self).spec_root(),
            final(self).spec_inputs() == old(self).spec_inputs(),
            final(self)@.len() == old(self)@.len(),
            final(self).kids(parent).len() == old(self).kids(parent).len(),
            forall|x: NodeId| final(self).kids(parent).contains(x) <==> old(self).kids(parent).contains(x),
            forall|x: int| 0 <= x < old(self)@.len() && x != parent.0 ==> #[trigger] final(self)@[x] == old(self)@[x],
            forall|i: int|
                0 <= i && i + 1 < final(self).kids(parent).len() ==> stand_in_order::<F>(
                    #[trigger] final(self).kids(parent)[i],
                    final(self).kids(parent)[i + 1],
                ),
            reordered_only_when_after::<F>(old(self).kids(parent), final(self).kids(parent)),
    {
        let mut compare = compare;
        let n = self.children(parent).len();
        let ghost orig = old(self).kids(parent);
        proof {
            crate::tree::lemma_kids_indexed(*old(self), parent);
        }
        let mut k: usize = 1;
        while k < n
            invariant
                self.wf(),
                self.has(parent),
                self.spec_root() == old(self).spec_root(),
                self.spec_inputs() == old(self).spec_inputs(),
                self@.len() == old(self)@.len(),
                n == self.kids(parent).len(),
                n == old(self).kids(parent).len(),
                forall|x: NodeId| self.kids(parent).contains(x) <==> old(self).kids(parent).contains(x),
                forall|x: int| 0 <= x < old(self)@.len() && x != parent.0 ==> #[trigger] self@[x] == old(self)@[x],
                forall|g: F, t: &Tree, a: NodeId, b: NodeId| call_requires(g, (t, a, b)),
                reordered_only_when_after::<F>(orig, self.kids(parent)),
                orig == old(self).kids(parent),
                orig.no_duplicates(),
                1 <= k || n == 0,
                forall|i: int|
                    0 <= i && i + 1 < k && i + 1 < n ==> stand_in_order::<F>(
                        #[trigger] self.kids(parent)[i],
                        self.kids(parent)[i + 1],
                    ),
            decreases n - k,
        {
            let mut j = k;
            while j > 0
                invariant_except_break
                    0 < j < k ==> stand_in_order::<F>(self.kids(parent)[j - 1], self.kids(parent)[j + 1]),
                invariant
                    self.wf(),
                    self.has(parent),
                    self.spec_root() == old(self).spec_root(),
                    self.spec_inputs() == old(self).spec_inputs(),
                    self@.len() == old(self)@.len(),
                    j <= k < n,
                    n == self.kids(parent).len(),
                    forall|x: NodeId| self.kids(parent).contains(x) <==> old(self).kids(parent).contains(x),
                    forall|x: int| 0 <= x < old(self)@.len() && x != parent.0 ==> #[trigger] self@[x] == old(self)@[x],
                    forall|g: F, t: &Tree, a: NodeId, b: NodeId| call_requires(g, (t, a, b)),
                    reordered_only_when_after::<F>(orig, self.kids(parent)),
                    orig == old(self).kids(parent),
                    orig.no_duplicates(),
                    forall|i: int|
                        0 <= i && i + 1 <= k && i + 1 != j && i != j ==> stand_in_order::<F>(
                            #[trigger] self.kids(parent)[i],
                            self.kids(parent)[i + 1],
                        ),
                    forall|i: int|
                        i == j && j < k ==> stand_in_order::<F>(#[trigger] self.kids(parent)[i], self.kids(parent)[i + 1]),
                ensures
                    forall|i: int|
                        0 <= i && i + 1 <= k ==> stand_in_order::<F>(
                            #[trigger] self.kids(parent)[i],
                            self.kids(parent)[i + 1],
                        ),
                decreases j,
            {
                let kids = self.children(parent);
                let a = kids[j - 1];
                let b = kids[j];
                let ghost g0 = compare;
                let ghost t0: &Tree = &*self;
                let o = compare(&*self, a, b);
                let greater = match o {
                    std::cmp::Ordering::Greater => true,
                    _ => false,
                };
                proof {
                    assert(call_ensures(g0, (t0, a, b), o));
                    assert(answers_after::<F>(a, b, greater));
                }
                if !greater {
                    proof {
                        assert(stand_in_order::<F>(a, b));
                        assert forall|i: int|
                            0 <= i && i + 1 <= k implies stand_in_order::<F>(
                                #[trigger] self.kids(parent)[i],
                                self.kids(parent)[i + 1],
                            ) by {
                            if i + 1 == j {
                            } else if i == j {
                            }
                        }
                    }
                    break;
                }
                let left: usize = j - 1;
                let ghost ks = self.kids(parent);
                proof {
                    crate::tree::lemma_swap_kids_contains(self@, parent, left, j);
                }
                self.swap_children(parent, left, j);
                proof {
                    let ks2 = self.kids(parent);
                    assert(ks2 == ks.update(j - 1, ks[(j - 1) + 1]).update((j - 1) + 1, ks[j - 1]));
                    assert(stand_in_order::<F>(ks2[j - 1], ks2[(j - 1) + 1]));
                    assert forall|i: int|
                        0 <= i && i + 1 <= k && i + 1 != j - 1 && i != j - 1 implies stand_in_order::<F>(
                            #[trigger] ks2[i],
                            ks2[i + 1],
                        ) by {
                        if i == j {
                            assert(ks2[i] == ks[j - 1]);
                            assert(ks2[i + 1] == ks[j + 1]);
                        } else {
                            assert(ks2[i] == ks[i]);
                            assert(ks2[i + 1] == ks[i + 1]);
                        }
                    }
                    assert forall|i: int, m: int|
                        0 <= i < m < ks2.len() && orig.index_of(#[trigger] ks2[i]) > orig.index_of(#[trigger] ks2[m])
                            implies answers_after::<F>(ks2[m], ks2[i], true) by {
                        if i == j - 1 && m == (j - 1) + 1 {
                            assert(ks2[i] == ks[(j - 1) + 1]);
                            assert(ks2[m] == ks[j - 1]);
                        } else {
                            let si = if i == j - 1 { (j - 1) + 1 } else if i == (j - 1) + 1 { j - 1 } else { i };
                            let sm = if m == j - 1 { (j - 1) + 1 } else if m == (j - 1) + 1 { j - 1 } else { m };
                            assert(ks2[i] == ks[si]);
                            assert(ks2[m] == ks[sm]);
                            assert(si < sm);
                            assert(orig.index_of(ks[si]) > orig.index_of(ks[sm]));
                        }
                    }
                    if 0 < j - 1 {
                        assert(ks2[j - 2] == ks[j - 2]);
                        assert(ks2[(j - 1) + 1] == ks[j - 1]);
                        assert(stand_in_order::<F>(ks[j - 2], ks[j - 1]));
                    }
                }
                j = j - 1;
            }
            k = k + 1;
        }
        self.mark_dirty(parent);
    }
}

} // verus!
