//! The syntax tree itself: an arena of nodes plus every operation that needs
//! to see more than one node.
//!
//! Nodes are addressed by [`NodeId`] rather than by reference, which lets a
//! caller hold a handle to a node while changing its neighbours.

use vstd::prelude::*;

use crate::input::{clone_opt_string, Input};
use crate::node::{opt_str_view, spec_born_container, spec_no_raws, spec_type_label, NewNode, NodeId, NodeKind, Raws, Source};
use crate::previous_map::{spec_starts_with, starts_with};
use crate::text::chars_of;

verus! {

/// One node in the arena.
#[derive(Debug)]
pub struct NodeData {
    /// The node's type and type-specific fields.
    pub kind: NodeKind,
    /// Source text with no meaning of its own.
    pub raws: Raws,
    /// Where the node was parsed from.
    pub source: Option<Source>,
    pub(crate) parent: Option<NodeId>,
    /// `Some` for containers, including empty ones. An at-rule without a block
    /// keeps `None`, which is what makes `@charset "utf-8";` print without
    /// braces.
    pub(crate) nodes: Option<Vec<NodeId>>,
    pub(crate) is_clean: bool,
    /// Live cursors of iterations in progress over this node's children, so
    /// that inserting and removing children shifts them. A cursor is signed:
    /// removing the child a cursor sits on moves it to -1, so the next step
    /// lands back on index 0.
    pub(crate) indexes: Vec<(u32, isize)>,
    pub(crate) last_each: u32,
}

/// What the tree's operations see of a node: everything but the bookkeeping
/// of visitors and iterations.
pub struct NodeView {
    /// The node's type and type-specific fields.
    pub kind: NodeKind,
    /// Source text with no meaning of its own.
    pub raws: Raws,
    /// Where the node was parsed from.
    pub source: Option<Source>,
    /// The containing node, if the node is attached.
    pub parent: Option<NodeId>,
    /// The children, for containers.
    pub nodes: Option<Seq<NodeId>>,
}

/// The children of a node view, empty for a non-container.
pub open spec fn kids_of(n: NodeView) -> Seq<NodeId> {
    match n.nodes {
        Some(c) => c,
        None => Seq::empty(),
    }
}

/// The links of node `i` agree with the rest: its parent lists it, each of
/// its children names it as parent, and no child is listed twice.
pub open spec fn node_links_ok(v: Seq<NodeView>, i: int) -> bool {
    &&& v[i].parent matches Some(p) ==> (p.0 < v.len() && v[p.0 as int].nodes is Some && kids_of(
        v[p.0 as int],
    ).contains(NodeId(i as usize)))
    &&& forall|j: int|
        0 <= j < kids_of(v[i]).len() ==> (#[trigger] kids_of(v[i])[j]).0 < v.len() && v[kids_of(
            v[i],
        )[j].0 as int].parent == Some(NodeId(i as usize))
    &&& kids_of(v[i]).no_duplicates()
}

/// Every node's links agree.
pub open spec fn spec_links_ok(v: Seq<NodeView>) -> bool {
    &&& v.len() <= usize::MAX
    &&& forall|i: int| 0 <= i < v.len() ==> #[trigger] node_links_ok(v, i)
}

impl NodeData {
    /// The containing node.
    pub closed spec fn spec_parent(&self) -> Option<NodeId> {
        self.parent
    }

    /// The children, for containers.
    pub closed spec fn spec_nodes(&self) -> Option<Seq<NodeId>> {
        match self.nodes {
            Some(v) => Some(v@),
            None => None,
        }
    }

    /// Whether every visitor has seen the node since it last changed.
    pub closed spec fn spec_clean(&self) -> bool {
        self.is_clean
    }

    /// The node as the tree's operations see it.
    pub closed spec fn spec_view(&self) -> NodeView {
        NodeView {
            kind: self.kind,
            raws: self.raws,
            source: self.source,
            parent: self.spec_parent(),
            nodes: self.spec_nodes(),
        }
    }

    pub(crate) fn new(kind: NodeKind) -> (d: NodeData)
        ensures
            d.kind == kind,
            spec_no_raws(d.raws),
            d.source is None,
            d.spec_parent() is None,
            d.spec_nodes() == if spec_born_container(kind) {
                Some(Seq::<NodeId>::empty())
            } else {
                None
            },
            !d.spec_clean(),
    {
        let nodes = match kind {
            NodeKind::Root | NodeKind::Document | NodeKind::Rule { .. } => Some(Vec::new()),
            _ => None,
        };
        NodeData {
            kind,
            raws: Raws::empty(),
            source: None,
            parent: None,
            nodes,
            is_clean: false,
            indexes: Vec::new(),
            last_each: 0,
        }
    }

    /// The `type` string of the node.
    pub fn type_label(&self) -> (r: &'static str)
        ensures
            r@ == spec_type_label(self.spec_view().kind),
    {
        self.kind.type_label()
    }

    /// True for nodes that can hold children: everything but declarations,
    /// comments and block-less at-rules.
    pub fn is_container(&self) -> (r: bool)
        ensures
            r == self.spec_nodes() is Some,
    {
        self.nodes.is_some()
    }
}

/// A CSS syntax tree.
#[derive(Debug)]
pub struct Tree {
    arena: Vec<NodeData>,
    root: NodeId,
    inputs: Vec<Input>,
}

impl View for Tree {
    type V = Seq<NodeView>;

    closed spec fn view(&self) -> Seq<NodeView> {
        Seq::new(self.arena@.len(), |i: int| self.arena@[i].spec_view())
    }
}

impl Tree {
    /// The root (or document) node.
    pub closed spec fn spec_root(&self) -> NodeId {
        self.root
    }

    /// The inputs that the nodes' sources point into.
    pub closed spec fn spec_inputs(&self) -> Seq<Input> {
        self.inputs@
    }

    /// The visitor bookkeeping of every node.
    pub closed spec fn spec_clean_flags(&self) -> Seq<bool> {
        Seq::new(self.arena@.len(), |i: int| self.arena@[i].is_clean)
    }

    /// The tree is consistent: the root exists and every node's links agree.
    pub open spec fn wf(&self) -> bool {
        &&& self.spec_root().0 < self@.len()
        &&& spec_links_ok(self@)
    }

    /// `id` names a node of this tree.
    pub open spec fn has(&self, id: NodeId) -> bool {
        id.0 < self@.len()
    }

    /// The children of a node, empty for a non-container.
    pub open spec fn kids(&self, id: NodeId) -> Seq<NodeId> {
        kids_of(self@[id.0 as int])
    }

    proof fn lemma_view(&self)
        ensures
            self@.len() == self.arena@.len(),
            forall|i: int| 0 <= i < self@.len() ==> #[trigger] self@[i] == self.arena@[i].spec_view(),
    {
    }

    /// A tree holding an empty root.
    pub fn new() -> (t: Tree)
        ensures
            t.wf(),
            t@.len() == 1,
            t.spec_root() == NodeId(0),
            t@[0].kind == NodeKind::Root,
            t@[0].nodes == Some(Seq::<NodeId>::empty()),
            t@[0].parent is None,
            t@[0].source is None,
            spec_no_raws(t@[0].raws),
            t.spec_inputs().len() == 0,
    {
        let mut arena: Vec<NodeData> = Vec::new();
        arena.push(NodeData::new(NodeKind::Root));
        let t = Tree { arena, root: NodeId(0), inputs: Vec::new() };
        proof {
            t.lemma_view();
            assert(node_links_ok(t@, 0));
        }
        t
    }

    /// A tree holding an empty document, for CSS extracted from another
    /// language.
    pub fn new_document() -> (t: Tree)
        ensures
            t.wf(),
            t@.len() == 1,
            t.spec_root() == NodeId(0),
            t@[0].kind == NodeKind::Document,
            t@[0].nodes == Some(Seq::<NodeId>::empty()),
            t@[0].parent is None,
            t@[0].source is None,
            spec_no_raws(t@[0].raws),
            t.spec_inputs().len() == 0,
    {
        let mut arena: Vec<NodeData> = Vec::new();
        arena.push(NodeData::new(NodeKind::Document));
        let t = Tree { arena, root: NodeId(0), inputs: Vec::new() };
        proof {
            t.lemma_view();
            assert(node_links_ok(t@, 0));
        }
        t
    }

    /// The root (or document) node.
    pub fn root(&self) -> (r: NodeId)
        ensures
            r == self.spec_root(),
    {
        self.root
    }

    /// Number of nodes ever allocated, detached ones included.
    pub fn len(&self) -> (r: usize)
        ensures
            r == self@.len(),
    {
        proof {
            self.lemma_view();
        }
        self.arena.len()
    }

    /// True when the root has no children.
    pub fn is_empty(&self) -> (r: bool)
        requires
            self.wf(),
        ensures
            r == (self.kids(self.spec_root()).len() == 0),
    {
        self.children(self.root).len() == 0
    }

    /// Read access to a node.
    pub fn node(&self, id: NodeId) -> (r: &NodeData)
        requires
            self.has(id),
        ensures
            r.spec_view() == self@[id.0 as int],
    {
        proof {
            self.lemma_view();
        }
        &self.arena[id.0]
    }

    /// The node's raws.
    pub fn raws(&self, id: NodeId) -> (r: &Raws)
        requires
            self.has(id),
        ensures
            *r == self@[id.0 as int].raws,
    {
        proof {
            self.lemma_view();
        }
        &self.arena[id.0].raws
    }

    /// Write access to a node. Changing a value through this does not mark
    /// the tree dirty; use the typed setters, or call `mark_dirty`
    /// afterwards, when a visitor must see the change.
    pub fn node_mut(&mut self, id: NodeId) -> (r: &mut NodeData)
        requires
            old(self).has(id),
        ensures
            r.spec_view() == old(self)@[id.0 as int],
            r.spec_clean() == old(self).spec_clean_flags()[id.0 as int],
            final(self)@ == old(self)@.update(id.0 as int, final(r).spec_view()),
            final(self).spec_clean_flags() == old(self).spec_clean_flags().update(id.0 as int, final(r).spec_clean()),
            final(self).spec_root() == old(self).spec_root(),
            final(self).spec_inputs() == old(self).spec_inputs(),
    {
        proof {
            self.lemma_view();
        }
        &mut self.arena[id.0]
    }

    /// Write access to the node's raws.
    pub fn raws_mut(&mut self, id: NodeId) -> (r: &mut Raws)
        requires
            old(self).has(id),
        ensures
            *r == old(self)@[id.0 as int].raws,
            final(self)@ == old(self)@.update(id.0 as int, NodeView { raws: *final(r), ..old(self)@[id.0 as int] }),
            final(self).spec_root() == old(self).spec_root(),
            final(self).spec_inputs() == old(self).spec_inputs(),
            final(self).spec_clean_flags() == old(self).spec_clean_flags(),
    {
        proof {
            self.lemma_view();
        }
        &mut self.arena[id.0].raws
    }

    /// The node's source position, if it was parsed.
    pub fn source(&self, id: NodeId) -> (r: Option<&Source>)
        requires
            self.has(id),
        ensures
            match r {
                Some(s) => self@[id.0 as int].source == Some(*s),
                None => self@[id.0 as int].source is None,
            },
    {
        proof {
            self.lemma_view();
        }
        self.arena[id.0].source.as_ref()
    }

    /// The node's type: `root`, `rule`, `atrule`, `decl`, `comment` or
    /// `document`.
    pub fn type_label(&self, id: NodeId) -> (r: &'static str)
        requires
            self.has(id),
        ensures
            r@ == spec_type_label(self@[id.0 as int].kind),
    {
        proof {
            self.lemma_view();
        }
        self.arena[id.0].type_label()
    }

    /// The node's kind, with its type-specific fields.
    pub fn kind(&self, id: NodeId) -> (r: &NodeKind)
        requires
            self.has(id),
        ensures
            *r == self@[id.0 as int].kind,
    {
        proof {
            self.lemma_view();
        }
        &self.arena[id.0].kind
    }

    /// The node's parent, or `None` for a root or a detached node.
    pub fn parent(&self, id: NodeId) -> (r: Option<NodeId>)
        requires
            self.has(id),
        ensures
            r == self@[id.0 as int].parent,
    {
        proof {
            self.lemma_view();
        }
        self.arena[id.0].parent
    }

    /// The node's children, empty for a non-container.
    pub fn children(&self, id: NodeId) -> (r: &[NodeId])
        requires
            self.has(id),
        ensures
            r@ == self.kids(id),
    {
        proof {
            self.lemma_view();
        }
        match &self.arena[id.0].nodes {
            Some(nodes) => nodes.as_slice(),
            None => &[],
        }
    }

    /// `Some` for containers, including empty ones; `None` for declarations,
    /// comments and at-rules without a block.
    pub fn nodes(&self, id: NodeId) -> (r: Option<&[NodeId]>)
        requires
            self.has(id),
        ensures
            match r {
                Some(s) => self@[id.0 as int].nodes == Some(s@),
                None => self@[id.0 as int].nodes is None,
            },
    {
        proof {
            self.lemma_view();
        }
        match &self.arena[id.0].nodes {
            Some(nodes) => Some(nodes.as_slice()),
            None => None,
        }
    }

    /// True when the node can hold children.
    pub fn is_container(&self, id: NodeId) -> (r: bool)
        requires
            self.has(id),
        ensures
            r == self@[id.0 as int].nodes is Some,
    {
        proof {
            self.lemma_view();
        }
        self.arena[id.0].nodes.is_some()
    }

    /// First child.
    pub fn first(&self, id: NodeId) -> (r: Option<NodeId>)
        requires
            self.has(id),
        ensures
            r == if self.kids(id).len() > 0 {
                Some(self.kids(id)[0])
            } else {
                None
            },
    {
        let c = self.children(id);
        if c.len() > 0 {
            Some(c[0])
        } else {
            None
        }
    }

    /// Last child.
    pub fn last(&self, id: NodeId) -> (r: Option<NodeId>)
        requires
            self.has(id),
        ensures
            r == if self.kids(id).len() > 0 {
                Some(self.kids(id).last())
            } else {
                None
            },
    {
        let c = self.children(id);
        if c.len() > 0 {
            Some(c[c.len() - 1])
        } else {
            None
        }
    }

    /// Position of a child inside its parent.
    pub fn index(&self, parent: NodeId, child: NodeId) -> (r: Option<usize>)
        requires
            self.has(parent),
        ensures
            match r {
                Some(i) => i < self.kids(parent).len() && self.kids(parent)[i as int] == child && forall|j: int|
                    0 <= j < i ==> self.kids(parent)[j] != child,
                None => !self.kids(parent).contains(child),
            },
    {
        let c = self.children(parent);
        let mut i: usize = 0;
        while i < c.len()
            invariant
                i <= c@.len(),
                c@ == self.kids(parent),
                forall|j: int| 0 <= j < i ==> c@[j] != child,
            decreases c.len() - i,
        {
            if c[i] == child {
                return Some(i);
            }
            i = i + 1;
        }
        None
    }

    /// Next sibling.
    pub fn next(&self, id: NodeId) -> (r: Option<NodeId>)
        requires
            self.wf(),
            self.has(id),
        ensures
            r == match self@[id.0 as int].parent {
                Some(p) => {
                    let i = self.kids(p).index_of(id);
                    if i + 1 < self.kids(p).len() {
                        Some(self.kids(p)[i + 1])
                    } else {
                        None
                    }
                },
                None => None,
            },
    {
        proof {
            assert(node_links_ok(self@, id.0 as int));
        }
        let parent = match self.parent(id) {
            Some(p) => p,
            None => {
                return None;
            },
        };
        let index = match self.index(parent, id) {
            Some(i) => i,
            None => {
                return None;
            },
        };
        proof {
            assert(node_links_ok(self@, parent.0 as int));
            lemma_first_index(self.kids(parent), id, index as int);
        }
        let c = self.children(parent);
        if c.len() - index > 1 {
            Some(c[index + 1])
        } else {
            None
        }
    }

    /// Previous sibling.
    pub fn prev(&self, id: NodeId) -> (r: Option<NodeId>)
        requires
            self.wf(),
            self.has(id),
        ensures
            r == match self@[id.0 as int].parent {
                Some(p) => {
                    let i = self.kids(p).index_of(id);
                    if i > 0 {
                        Some(self.kids(p)[i - 1])
                    } else {
                        None
                    }
                },
                None => None,
            },
    {
        proof {
            assert(node_links_ok(self@, id.0 as int));
        }
        let parent = match self.parent(id) {
            Some(p) => p,
            None => {
                return None;
            },
        };
        let index = match self.index(parent, id) {
            Some(i) => i,
            None => {
                return None;
            },
        };
        proof {
            assert(node_links_ok(self@, parent.0 as int));
            lemma_first_index(self.kids(parent), id, index as int);
        }
        if index == 0 {
            return None;
        }
        let c = self.children(parent);
        Some(c[index - 1])
    }
}

/// The description's children.
pub open spec fn spec_new_kids(n: NewNode) -> Seq<NewNode> {
    match n.nodes {
        Some(c) => c@,
        None => Seq::empty(),
    }
}

/// The first `k` of `ks` are built from the first `k` children of `n`.
pub open spec fn spec_kids_built(v: Seq<NodeView>, ks: Seq<NodeId>, n: NewNode, k: int, lo: int, hi: int) -> bool
    decreases n, k,
{
    if k <= 0 || k > spec_new_kids(n).len() || k > ks.len() {
        k <= 0
    } else {
        spec_kids_built(v, ks, n, k - 1, lo, hi) && spec_built_in(v, ks[k - 1], spec_new_kids(n)[k - 1], lo, hi)
    }
}

/// Node `id` of view `v`, with its subtree, is what `n` describes, and every
/// node of the subtree is among entries `lo` to `hi` of `v`.
pub open spec fn spec_built_in(v: Seq<NodeView>, id: NodeId, n: NewNode, lo: int, hi: int) -> bool
    decreases n, spec_new_kids(n).len() + 1,
{
    &&& lo <= id.0 < hi
    &&& hi <= v.len()
    &&& v[id.0 as int].kind == n.kind
    &&& v[id.0 as int].raws == n.raws
    &&& v[id.0 as int].source == n.source
    &&& (v[id.0 as int].nodes is Some <==> (n.nodes is Some || spec_born_container(n.kind)))
    &&& kids_of(v[id.0 as int]).len() == spec_new_kids(n).len()
    &&& spec_kids_built(v, kids_of(v[id.0 as int]), n, spec_new_kids(n).len() as int, lo, hi)
}

/// A built subtree stays built when nothing in its range changes but parent
/// links, and when its range is widened.
pub proof fn lemma_built_frame(
    v1: Seq<NodeView>,
    v2: Seq<NodeView>,
    id: NodeId,
    n: NewNode,
    lo: int,
    hi: int,
    lo2: int,
    hi2: int,
)
    requires
        spec_built_in(v1, id, n, lo, hi),
        lo2 <= lo,
        hi <= hi2,
        hi2 <= v2.len(),
        forall|i: int|
            lo <= i < hi ==> (#[trigger] v2[i]).kind == v1[i].kind && v2[i].raws == v1[i].raws && v2[i].source
                == v1[i].source && v2[i].nodes == v1[i].nodes,
    ensures
        spec_built_in(v2, id, n, lo2, hi2),
    decreases n, spec_new_kids(n).len() + 1,
{
    assert(v2[id.0 as int].nodes == v1[id.0 as int].nodes);
    lemma_kids_frame(v1, v2, kids_of(v1[id.0 as int]), n, spec_new_kids(n).len() as int, lo, hi, lo2, hi2);
}

proof fn lemma_kids_frame(
    v1: Seq<NodeView>,
    v2: Seq<NodeView>,
    ks: Seq<NodeId>,
    n: NewNode,
    k: int,
    lo: int,
    hi: int,
    lo2: int,
    hi2: int,
)
    requires
        spec_kids_built(v1, ks, n, k, lo, hi),
        lo2 <= lo,
        hi <= hi2,
        hi2 <= v2.len(),
        forall|i: int|
            lo <= i < hi ==> (#[trigger] v2[i]).kind == v1[i].kind && v2[i].raws == v1[i].raws && v2[i].source
                == v1[i].source && v2[i].nodes == v1[i].nodes,
    ensures
        spec_kids_built(v2, ks, n, k, lo2, hi2),
    decreases n, k,
{
    if k > 0 && k <= spec_new_kids(n).len() && k <= ks.len() {
        lemma_kids_frame(v1, v2, ks, n, k - 1, lo, hi, lo2, hi2);
        lemma_built_frame(v1, v2, ks[k - 1], spec_new_kids(n)[k - 1], lo, hi, lo2, hi2);
    }
}

/// Built children depend only on the first `k` entries of the list.
proof fn lemma_kids_built_prefix(v: Seq<NodeView>, ks: Seq<NodeId>, ks2: Seq<NodeId>, n: NewNode, k: int, lo: int, hi: int)
    requires
        spec_kids_built(v, ks, n, k, lo, hi),
        k <= ks.len(),
        k <= ks2.len(),
        forall|j: int| 0 <= j < k ==> ks[j] == ks2[j],
    ensures
        spec_kids_built(v, ks2, n, k, lo, hi),
    decreases k,
{
    if k > 0 && k <= spec_new_kids(n).len() {
        lemma_kids_built_prefix(v, ks, ks2, n, k - 1, lo, hi);
    }
}

proof fn lemma_kids_built_step(v: Seq<NodeView>, ks: Seq<NodeId>, n: NewNode, k: int, lo: int, hi: int)
    requires
        0 < k <= spec_new_kids(n).len(),
        k <= ks.len(),
        spec_kids_built(v, ks, n, k - 1, lo, hi),
        spec_built_in(v, ks[k - 1], spec_new_kids(n)[k - 1], lo, hi),
    ensures
        spec_kids_built(v, ks, n, k, lo, hi),
{
}

/// Node `x` is `id` or one of its first `fuel` ancestors.
pub open spec fn spec_in_chain(v: Seq<NodeView>, id: NodeId, x: int, fuel: nat) -> bool
    decreases fuel,
{
    if x == id.0 as int {
        true
    } else if fuel > 0 && id.0 < v.len() {
        match v[id.0 as int].parent {
            Some(p) => spec_in_chain(v, p, x, (fuel - 1) as nat),
            None => false,
        }
    } else {
        false
    }
}

/// The `n`-th ancestor of `id`, following at most `n` parent links.
pub open spec fn spec_up(v: Seq<NodeView>, id: NodeId, n: nat) -> Option<NodeId>
    decreases n,
{
    if n == 0 {
        Some(id)
    } else {
        match spec_up(v, id, (n - 1) as nat) {
            Some(a) => if a.0 < v.len() { v[a.0 as int].parent } else { None },
            None => None,
        }
    }
}

/// The clean flags after marking `id` and its ancestors dirty.
pub open spec fn spec_cleared(flags: Seq<bool>, v: Seq<NodeView>, id: NodeId) -> Seq<bool> {
    Seq::new(flags.len(), |x: int| flags[x] && !spec_in_chain(v, id, x, v.len()))
}

/// The first ancestor-or-self of `id` (within `fuel` steps) whose parent is
/// missing or a document.
pub open spec fn spec_root_of(v: Seq<NodeView>, id: NodeId, fuel: nat) -> NodeId
    decreases fuel,
{
    if fuel == 0 || id.0 >= v.len() {
        id
    } else {
        match v[id.0 as int].parent {
            None => id,
            Some(p) => if p.0 < v.len() && v[p.0 as int].kind is Document {
                id
            } else {
                spec_root_of(v, p, (fuel - 1) as nat)
            },
        }
    }
}

/// The flags after `mark_dirty(id)`.
pub open spec fn spec_after_dirty(flags: Seq<bool>, v: Seq<NodeView>, id: NodeId) -> Seq<bool> {
    if flags[id.0 as int] {
        spec_cleared(flags, v, id)
    } else {
        flags
    }
}

proof fn lemma_up_front(v: Seq<NodeView>, id: NodeId, p: NodeId, n: nat)
    requires
        id.0 < v.len(),
        v[id.0 as int].parent == Some(p),
    ensures
        spec_up(v, id, n + 1) == spec_up(v, p, n),
    decreases n,
{
    reveal_with_fuel(spec_up, 2);
    if n > 0 {
        lemma_up_front(v, id, p, (n - 1) as nat);
        assert(spec_up(v, id, n + 1) == match spec_up(v, id, n) {
            Some(a) => if a.0 < v.len() { v[a.0 as int].parent } else { None },
            None => None,
        });
        assert(spec_up(v, p, n) == match spec_up(v, p, (n - 1) as nat) {
            Some(a) => if a.0 < v.len() { v[a.0 as int].parent } else { None },
            None => None,
        });
    }
}

proof fn lemma_chain_extend(v: Seq<NodeView>, id: NodeId, x: int, n: nat)
    requires
        spec_links_ok(v),
        id.0 < v.len(),
    ensures
        spec_in_chain(v, id, x, n + 1) == (spec_in_chain(v, id, x, n) || (spec_up(v, id, n + 1) matches Some(a)
            && x == a.0 as int)),
    decreases n,
{
    assert(node_links_ok(v, id.0 as int));
    match v[id.0 as int].parent {
        Some(p) => {
            lemma_up_front(v, id, p, n);
            assert(spec_in_chain(v, id, x, n + 1) == (x == id.0 as int || spec_in_chain(v, p, x, n)));
            if n > 0 {
                lemma_chain_extend(v, p, x, (n - 1) as nat);
                assert(spec_in_chain(v, id, x, n) == (x == id.0 as int || spec_in_chain(v, p, x, (n - 1) as nat)));
            } else {
                assert(spec_in_chain(v, p, x, 0) == (x == p.0 as int));
                assert(spec_in_chain(v, id, x, 0) == (x == id.0 as int));
            }
        },
        None => {
            lemma_up_none(v, id, n + 1);
            assert(spec_in_chain(v, id, x, n + 1) == (x == id.0 as int));
            assert(spec_in_chain(v, id, x, n) == (x == id.0 as int));
        },
    }
}

proof fn lemma_up_none(v: Seq<NodeView>, id: NodeId, n: nat)
    requires
        id.0 < v.len(),
        v[id.0 as int].parent is None,
        n > 0,
    ensures
        spec_up(v, id, n) is None,
    decreases n,
{
    reveal_with_fuel(spec_up, 2);
    if n > 1 {
        lemma_up_none(v, id, (n - 1) as nat);
        assert(spec_up(v, id, n) == match spec_up(v, id, (n - 1) as nat) {
            Some(a) => if a.0 < v.len() { v[a.0 as int].parent } else { None },
            None => None,
        });
    }
}

proof fn lemma_up_valid(v: Seq<NodeView>, id: NodeId, n: nat)
    requires
        spec_links_ok(v),
        id.0 < v.len(),
    ensures
        spec_up(v, id, n) matches Some(a) ==> a.0 < v.len(),
    decreases n,
{
    if n > 0 {
        lemma_up_valid(v, id, (n - 1) as nat);
        if let Some(a) = spec_up(v, id, (n - 1) as nat) {
            assert(node_links_ok(v, a.0 as int));
        }
    }
}

proof fn lemma_chain_stops(v: Seq<NodeView>, id: NodeId, x: int, n: nat, m: nat)
    requires
        spec_links_ok(v),
        id.0 < v.len(),
        n <= m,
        spec_up(v, id, n) matches Some(a) && a.0 < v.len() && v[a.0 as int].parent is None,
    ensures
        spec_in_chain(v, id, x, m) == spec_in_chain(v, id, x, n),
    decreases m - n,
{
    if m > n {
        lemma_chain_stops(v, id, x, n, (m - 1) as nat);
        lemma_chain_extend(v, id, x, (m - 1) as nat);
        lemma_up_after_none(v, id, n, m);
    }
}

proof fn lemma_up_after_none(v: Seq<NodeView>, id: NodeId, n: nat, m: nat)
    requires
        n < m,
        spec_up(v, id, n) matches Some(a) && a.0 < v.len() && v[a.0 as int].parent is None,
    ensures
        spec_up(v, id, m) is None,
    decreases m - n,
{
    if m > n + 1 {
        lemma_up_after_none(v, id, n, (m - 1) as nat);
    }
}

/// The dirty chain depends only on the parent links.
proof fn lemma_same_parents_chain(a: Seq<NodeView>, b: Seq<NodeView>, id: NodeId)
    requires
        spec_same_links(a, b),
    ensures
        forall|x: int, f: nat| spec_in_chain(a, id, x, f) == spec_in_chain(b, id, x, f),
        forall|flags: Seq<bool>| spec_after_dirty(flags, a, id) == spec_after_dirty(flags, b, id),
{
    assert forall|x: int, f: nat| spec_in_chain(a, id, x, f) == spec_in_chain(b, id, x, f) by {
        lemma_same_parents_chain_at(a, b, id, x, f);
    }
    assert forall|flags: Seq<bool>| spec_after_dirty(flags, a, id) == spec_after_dirty(flags, b, id) by {
        assert(spec_cleared(flags, a, id) =~= spec_cleared(flags, b, id));
    }
}

proof fn lemma_same_parents_chain_at(a: Seq<NodeView>, b: Seq<NodeView>, id: NodeId, x: int, f: nat)
    requires
        spec_same_links(a, b),
    ensures
        spec_in_chain(a, id, x, f) == spec_in_chain(b, id, x, f),
    decreases f,
{
    if f > 0 && id.0 < a.len() {
        assert(a[id.0 as int].parent == b[id.0 as int].parent);
        if let Some(p) = a[id.0 as int].parent {
            lemma_same_parents_chain_at(a, b, p, x, (f - 1) as nat);
        }
    }
}

/// Cursors after moving those at or after (or strictly after) `from` by `by`;
/// a move that would overflow leaves the cursor where it is.
pub open spec fn spec_shift(cs: Seq<(u32, isize)>, from: isize, inclusive: bool, by: isize) -> Seq<(u32, isize)> {
    Seq::new(
        cs.len(),
        |i: int|
            if (inclusive && cs[i].1 >= from) || (!inclusive && cs[i].1 > from) {
                (cs[i].0, if isize::MIN <= cs[i].1 + by <= isize::MAX { (cs[i].1 + by) as isize } else { cs[i].1 })
            } else {
                cs[i]
            },
    )
}

/// The view after a root hands the `before` of its first child to the
/// second one, when `shift` is set, the parent is a root with two or more
/// children.
pub open spec fn spec_shift_before(v: Seq<NodeView>, parent: NodeId, shift: bool) -> Seq<NodeView> {
    let ks = kids_of(v[parent.0 as int]);
    if shift && v[parent.0 as int].kind is Root && ks.len() > 1 {
        v.update(
            ks[1].0 as int,
            NodeView { raws: Raws { before: v[ks[0].0 as int].raws.before, ..v[ks[1].0 as int].raws }, ..v[ks[1].0 as int] },
        )
    } else {
        v
    }
}

/// The view after removing `child` from `parent`'s children.
pub open spec fn spec_remove_child(v: Seq<NodeView>, parent: NodeId, child: NodeId, ignore: bool) -> Seq<NodeView> {
    let ks = kids_of(v[parent.0 as int]);
    if ks.contains(child) {
        let k = ks.index_of(child);
        spec_detach(spec_shift_before(v, parent, !ignore && k == 0), parent, child, k)
    } else {
        v
    }
}

impl Tree {
    /// The live cursors of every node.
    pub closed spec fn spec_cursors(&self) -> Seq<Seq<(u32, isize)>> {
        Seq::new(self.arena@.len(), |i: int| self.arena@[i].indexes@)
    }

    /// Gives an at-rule a block, so children can be appended to it.
    pub fn make_container(&mut self, id: NodeId)
        requires
            old(self).wf(),
            old(self).has(id),
        ensures
            final(self).wf(),
            final(self)@ == if old(self)@[id.0 as int].nodes is Some {
                old(self)@
            } else {
                old(self)@.update(id.0 as int, NodeView { nodes: Some(Seq::<NodeId>::empty()), ..old(self)@[id.0 as int] })
            },
            final(self).spec_root() == old(self).spec_root(),
            final(self).spec_inputs() == old(self).spec_inputs(),
            final(self).spec_clean_flags() == old(self).spec_clean_flags(),
            final(self).spec_cursors() == old(self).spec_cursors(),
    {
        proof {
            self.lemma_view();
        }
        if self.arena[id.0].nodes.is_none() {
            self.arena[id.0].nodes = Some(Vec::new());
            proof {
                let v = old(self)@;
                let w = final(self)@;
                assert(w =~= v.update(id.0 as int, NodeView { nodes: Some(Seq::<NodeId>::empty()), ..v[id.0 as int] }));
                assert(final(self).spec_clean_flags() =~= old(self).spec_clean_flags());
                assert(final(self).spec_cursors() =~= old(self).spec_cursors());
                assert forall|i: int| 0 <= i < w.len() implies #[trigger] node_links_ok(w, i) by {
                    assert(node_links_ok(v, i));
                    assert(kids_of(w[i]) == kids_of(v[i]));
                    if let Some(q) = w[i].parent {
                        assert(kids_of(w[q.0 as int]) == kids_of(v[q.0 as int]));
                    }
                    assert forall|j: int| 0 <= j < kids_of(w[i]).len() implies (#[trigger] kids_of(w[i])[j]).0 < w.len()
                        && w[kids_of(w[i])[j].0 as int].parent == Some(NodeId(i as usize)) by {
                        let k = kids_of(v[i])[j];
                        assert(v[k.0 as int].parent == Some(NodeId(i as usize)));
                    }
                }
            }
        }
    }

    /// Marks a node and its ancestors as needing another visitor pass.
    pub fn mark_dirty(&mut self, id: NodeId)
        requires
            old(self).wf(),
            old(self).has(id),
        ensures
            final(self)@ == old(self)@,
            final(self).spec_root() == old(self).spec_root(),
            final(self).spec_inputs() == old(self).spec_inputs(),
            final(self).spec_cursors() == old(self).spec_cursors(),
            final(self).spec_clean_flags() == spec_after_dirty(old(self).spec_clean_flags(), old(self)@, id),
    {
        proof {
            self.lemma_view();
        }
        let ghost v = old(self)@;
        let ghost flags = old(self).spec_clean_flags();
        if !self.arena[id.0].is_clean {
            return;
        }
        self.arena[id.0].is_clean = false;
        let n = self.arena.len();
        let mut next = self.arena[id.0].parent;
        let mut steps: usize = 0;
        let ghost mut cur = id;
        proof {
            assert(self@ =~= v);
            assert(self.spec_cursors() =~= old(self).spec_cursors());
            assert forall|x: int| 0 <= x < n implies #[trigger] self.spec_clean_flags()[x] == (flags[x] && !spec_in_chain(v, id, x, 0)) by {
            }
            assert(self.spec_clean_flags() =~= Seq::new(flags.len(), |x: int| flags[x] && !spec_in_chain(v, id, x, 0)));
        }
        while steps < n
            invariant_except_break
                steps <= n,
                n == v.len(),
                flags.len() == n,
                spec_links_ok(v),
                id.0 < n,
                self@ == v,
                self.arena@.len() == n,
                self.spec_root() == old(self).spec_root(),
                self.spec_inputs() == old(self).spec_inputs(),
                self.spec_cursors() == old(self).spec_cursors(),
                spec_up(v, id, steps as nat) == Some(cur),
                cur.0 < n,
                next == v[cur.0 as int].parent,
                self.spec_clean_flags() == Seq::new(flags.len(), |x: int| flags[x] && !spec_in_chain(v, id, x, steps as nat)),
            ensures
                self@ == v,
                self.spec_root() == old(self).spec_root(),
                self.spec_inputs() == old(self).spec_inputs(),
                self.spec_cursors() == old(self).spec_cursors(),
                self.spec_clean_flags() == spec_cleared(flags, v, id),
            decreases n - steps,
        {
            proof {
                self.lemma_view();
            }
            match next {
                Some(p) => {
                    proof {
                        assert(node_links_ok(v, cur.0 as int));
                        lemma_chain_extend(v, id, 0, steps as nat);
                    }
                    let ghost before = self.spec_clean_flags();
                    let ghost arena_before = self.arena@;
                    self.arena[p.0].is_clean = false;
                    next = self.arena[p.0].parent;
                    proof {
                        assert(self.spec_clean_flags() =~= before.update(p.0 as int, false));
                        cur = p;
                        assert(spec_up(v, id, (steps + 1) as nat) == Some(p));
                        assert forall|x: int| 0 <= x < n implies #[trigger] self.spec_clean_flags()[x] == (flags[x]
                            && !spec_in_chain(v, id, x, (steps + 1) as nat)) by {
                            lemma_chain_extend(v, id, x, steps as nat);
                        }
                        assert(self.spec_clean_flags() =~= Seq::new(flags.len(), |x: int| flags[x] && !spec_in_chain(v, id, x, (steps + 1) as nat)));
                        assert(self@ =~= v);
                        assert(self.spec_cursors() =~= old(self).spec_cursors());
                    }
                    steps = steps + 1;
                },
                None => {
                    proof {
                        assert forall|x: int| 0 <= x < n implies #[trigger] self.spec_clean_flags()[x] == spec_cleared(flags, v, id)[x] by {
                            lemma_chain_stops(v, id, x, steps as nat, n as nat);
                        }
                        assert(self.spec_clean_flags() =~= spec_cleared(flags, v, id));
                    }
                    break;
                },
            }
        }
        proof {
            if steps == n {
                assert(self.spec_clean_flags() =~= spec_cleared(flags, v, id));
            }
        }
    }

    /// The node's root, stopping at a document rather than crossing it.
    pub fn root_of(&self, id: NodeId) -> (r: NodeId)
        requires
            self.wf(),
            self.has(id),
        ensures
            r == spec_root_of(self@, id, self@.len()),
            self.has(r),
    {
        proof {
            self.lemma_view();
        }
        let n = self.arena.len();
        let mut result = id;
        let mut fuel: usize = n;
        while fuel > 0
            invariant
                fuel <= n,
                n == self@.len(),
                self.wf(),
                self.has(result),
                spec_root_of(self@, id, n as nat) == spec_root_of(self@, result, fuel as nat),
            decreases fuel,
        {
            proof {
                self.lemma_view();
                assert(node_links_ok(self@, result.0 as int));
            }
            match self.arena[result.0].parent {
                None => {
                    return result;
                },
                Some(parent) => {
                    if let NodeKind::Document = self.arena[parent.0].kind {
                        return result;
                    }
                    result = parent;
                    fuel = fuel - 1;
                },
            }
        }
        result
    }

    proof fn lemma_node_update(&self, old_tree: Tree, i: int)
        requires
            0 <= i < old_tree.arena@.len(),
            self.arena@ == old_tree.arena@.update(i, self.arena@[i]),
            self.root == old_tree.root,
            self.inputs@ == old_tree.inputs@,
        ensures
            self@ == old_tree@.update(i, self.arena@[i].spec_view()),
            self.spec_clean_flags() == old_tree.spec_clean_flags().update(i, self.arena@[i].is_clean),
            self.spec_cursors() == old_tree.spec_cursors().update(i, self.arena@[i].indexes@),
    {
        assert(self@ =~= old_tree@.update(i, self.arena@[i].spec_view()));
        assert(self.spec_clean_flags() =~= old_tree.spec_clean_flags().update(i, self.arena@[i].is_clean));
        assert(self.spec_cursors() =~= old_tree.spec_cursors().update(i, self.arena@[i].indexes@));
    }

    /// Replaces a node's kind, leaving its links alone.
    fn set_kind(&mut self, id: NodeId, kind: NodeKind)
        requires
            old(self).wf(),
            old(self).has(id),
        ensures
            final(self).wf(),
            final(self)@ == old(self)@.update(id.0 as int, NodeView { kind, ..old(self)@[id.0 as int] }),
            final(self).spec_root() == old(self).spec_root(),
            final(self).spec_inputs() == old(self).spec_inputs(),
            final(self).spec_clean_flags() == old(self).spec_clean_flags(),
            final(self).spec_cursors() == old(self).spec_cursors(),
    {
        proof {
            self.lemma_view();
        }
        let ghost before = *self;
        self.arena[id.0].kind = kind;
        proof {
            self.lemma_node_update(before, id.0 as int);
            assert(self.arena@[id.0 as int].is_clean == before.arena@[id.0 as int].is_clean);
            assert(self.spec_clean_flags() =~= before.spec_clean_flags());
            assert(self.spec_cursors() =~= before.spec_cursors());
            assert(self@ =~= before@.update(id.0 as int, NodeView { kind, ..before@[id.0 as int] }));
            lemma_links_frame(before@, self@);
        }
    }

    /// A rule's selector.
    pub fn selector(&self, id: NodeId) -> (r: Option<&str>)
        requires
            self.has(id),
        ensures
            opt_str_view(r) == match self@[id.0 as int].kind {
                NodeKind::Rule { selector, .. } => Some(selector@),
                _ => None,
            },
    {
        proof {
            self.lemma_view();
        }
        match &self.arena[id.0].kind {
            NodeKind::Rule { selector, .. } => Some(selector.as_str()),
            _ => None,
        }
    }

    /// Sets a rule's selector.
    pub fn set_selector(&mut self, id: NodeId, value: String)
        requires
            old(self).wf(),
            old(self).has(id),
        ensures
            final(self).wf(),
            final(self)@ == match old(self)@[id.0 as int].kind {
                NodeKind::Rule { .. } => old(self)@.update(
                    id.0 as int,
                    NodeView { kind: NodeKind::Rule { selector: value }, ..old(self)@[id.0 as int] },
                ),
                _ => old(self)@,
            },
            final(self).spec_clean_flags() == if old(self)@[id.0 as int].kind is Rule {
                spec_after_dirty(old(self).spec_clean_flags(), old(self)@, id)
            } else {
                old(self).spec_clean_flags()
            },
            final(self).spec_root() == old(self).spec_root(),
            final(self).spec_inputs() == old(self).spec_inputs(),
            final(self).spec_cursors() == old(self).spec_cursors(),
    {
        proof {
            self.lemma_view();
        }
        let kind = match &self.arena[id.0].kind {
            NodeKind::Rule { .. } => NodeKind::Rule { selector: value },
            _ => {
                return;
            },
        };
        let ghost mid = self@;
        self.set_kind(id, kind);
        proof {
            lemma_same_parents_chain(mid, self@, id);
        }
        self.mark_dirty(id);
    }

    /// A declaration's property.
    pub fn prop(&self, id: NodeId) -> (r: Option<&str>)
        requires
            self.has(id),
        ensures
            opt_str_view(r) == match self@[id.0 as int].kind {
                NodeKind::Decl { prop, .. } => Some(prop@),
                _ => None,
            },
    {
        proof {
            self.lemma_view();
        }
        match &self.arena[id.0].kind {
            NodeKind::Decl { prop, .. } => Some(prop.as_str()),
            _ => None,
        }
    }

    /// Sets a declaration's property.
    pub fn set_prop(&mut self, id: NodeId, value: String)
        requires
            old(self).wf(),
            old(self).has(id),
        ensures
            final(self).wf(),
            final(self)@ == match old(self)@[id.0 as int].kind {
                NodeKind::Decl { value: v0, important: i0, .. } => old(self)@.update(
                    id.0 as int,
                    NodeView { kind: NodeKind::Decl { prop: value, value: v0, important: i0 }, ..old(self)@[id.0 as int] },
                ),
                _ => old(self)@,
            },
            final(self).spec_clean_flags() == if old(self)@[id.0 as int].kind is Decl {
                spec_after_dirty(old(self).spec_clean_flags(), old(self)@, id)
            } else {
                old(self).spec_clean_flags()
            },
            final(self).spec_root() == old(self).spec_root(),
            final(self).spec_inputs() == old(self).spec_inputs(),
            final(self).spec_cursors() == old(self).spec_cursors(),
    {
        proof {
            self.lemma_view();
        }
        let kind = match &self.arena[id.0].kind {
            NodeKind::Decl { value: k_value, important: k_important, .. } => NodeKind::Decl { prop: value, value: k_value.clone(), important: *k_important },
            _ => {
                return;
            },
        };
        let ghost mid = self@;
        self.set_kind(id, kind);
        proof {
            lemma_same_parents_chain(mid, self@, id);
        }
        self.mark_dirty(id);
    }

    /// A declaration's value.
    pub fn value(&self, id: NodeId) -> (r: Option<&str>)
        requires
            self.has(id),
        ensures
            opt_str_view(r) == match self@[id.0 as int].kind {
                NodeKind::Decl { value, .. } => Some(value@),
                _ => None,
            },
    {
        proof {
            self.lemma_view();
        }
        match &self.arena[id.0].kind {
            NodeKind::Decl { value, .. } => Some(value.as_str()),
            _ => None,
        }
    }

    /// Sets a declaration's value. A stored raw value is kept but stops being
    /// printed, since it no longer matches.
    pub fn set_value(&mut self, id: NodeId, value: String)
        requires
            old(self).wf(),
            old(self).has(id),
        ensures
            final(self).wf(),
            final(self)@ == match old(self)@[id.0 as int].kind {
                NodeKind::Decl { prop, important, .. } => old(self)@.update(
                    id.0 as int,
                    NodeView { kind: NodeKind::Decl { value: value, prop: prop, important: important }, ..old(self)@[id.0 as int] },
                ),
                _ => old(self)@,
            },
            final(self).spec_clean_flags() == if old(self)@[id.0 as int].kind is Decl {
                spec_after_dirty(old(self).spec_clean_flags(), old(self)@, id)
            } else {
                old(self).spec_clean_flags()
            },
            final(self).spec_root() == old(self).spec_root(),
            final(self).spec_inputs() == old(self).spec_inputs(),
            final(self).spec_cursors() == old(self).spec_cursors(),
    {
        proof {
            self.lemma_view();
        }
        let kind = match &self.arena[id.0].kind {
            NodeKind::Decl { prop: k_prop, important: k_important, .. } => NodeKind::Decl { value: value, prop: k_prop.clone(), important: *k_important },
            _ => {
                return;
            },
        };
        let ghost mid = self@;
        self.set_kind(id, kind);
        proof {
            lemma_same_parents_chain(mid, self@, id);
        }
        self.mark_dirty(id);
    }

    /// An at-rule's name, without the `@`.
    pub fn name(&self, id: NodeId) -> (r: Option<&str>)
        requires
            self.has(id),
        ensures
            opt_str_view(r) == match self@[id.0 as int].kind {
                NodeKind::AtRule { name, .. } => Some(name@),
                _ => None,
            },
    {
        proof {
            self.lemma_view();
        }
        match &self.arena[id.0].kind {
            NodeKind::AtRule { name, .. } => Some(name.as_str()),
            _ => None,
        }
    }

    /// Sets an at-rule's name.
    pub fn set_name(&mut self, id: NodeId, value: String)
        requires
            old(self).wf(),
            old(self).has(id),
        ensures
            final(self).wf(),
            final(self)@ == match old(self)@[id.0 as int].kind {
                NodeKind::AtRule { params, .. } => old(self)@.update(
                    id.0 as int,
                    NodeView { kind: NodeKind::AtRule { name: value, params: params }, ..old(self)@[id.0 as int] },
                ),
                _ => old(self)@,
            },
            final(self).spec_clean_flags() == if old(self)@[id.0 as int].kind is AtRule {
                spec_after_dirty(old(self).spec_clean_flags(), old(self)@, id)
            } else {
                old(self).spec_clean_flags()
            },
            final(self).spec_root() == old(self).spec_root(),
            final(self).spec_inputs() == old(self).spec_inputs(),
            final(self).spec_cursors() == old(self).spec_cursors(),
    {
        proof {
            self.lemma_view();
        }
        let kind = match &self.arena[id.0].kind {
            NodeKind::AtRule { params: k_params, .. } => NodeKind::AtRule { name: value, params: k_params.clone() },
            _ => {
                return;
            },
        };
        let ghost mid = self@;
        self.set_kind(id, kind);
        proof {
            lemma_same_parents_chain(mid, self@, id);
        }
        self.mark_dirty(id);
    }

    /// An at-rule's params.
    pub fn params(&self, id: NodeId) -> (r: Option<&str>)
        requires
            self.has(id),
        ensures
            opt_str_view(r) == match self@[id.0 as int].kind {
                NodeKind::AtRule { params, .. } => Some(params@),
                _ => None,
            },
    {
        proof {
            self.lemma_view();
        }
        match &self.arena[id.0].kind {
            NodeKind::AtRule { params, .. } => Some(params.as_str()),
            _ => None,
        }
    }

    /// Sets an at-rule's params.
    pub fn set_params(&mut self, id: NodeId, value: String)
        requires
            old(self).wf(),
            old(self).has(id),
        ensures
            final(self).wf(),
            final(self)@ == match old(self)@[id.0 as int].kind {
                NodeKind::AtRule { name, .. } => old(self)@.update(
                    id.0 as int,
                    NodeView { kind: NodeKind::AtRule { params: value, name: name }, ..old(self)@[id.0 as int] },
                ),
                _ => old(self)@,
            },
            final(self).spec_clean_flags() == if old(self)@[id.0 as int].kind is AtRule {
                spec_after_dirty(old(self).spec_clean_flags(), old(self)@, id)
            } else {
                old(self).spec_clean_flags()
            },
            final(self).spec_root() == old(self).spec_root(),
            final(self).spec_inputs() == old(self).spec_inputs(),
            final(self).spec_cursors() == old(self).spec_cursors(),
    {
        proof {
            self.lemma_view();
        }
        let kind = match &self.arena[id.0].kind {
            NodeKind::AtRule { name: k_name, .. } => NodeKind::AtRule { params: value, name: k_name.clone() },
            _ => {
                return;
            },
        };
        let ghost mid = self@;
        self.set_kind(id, kind);
        proof {
            lemma_same_parents_chain(mid, self@, id);
        }
        self.mark_dirty(id);
    }

    /// A comment's text, without the delimiters.
    pub fn text(&self, id: NodeId) -> (r: Option<&str>)
        requires
            self.has(id),
        ensures
            opt_str_view(r) == match self@[id.0 as int].kind {
                NodeKind::Comment { text, .. } => Some(text@),
                _ => None,
            },
    {
        proof {
            self.lemma_view();
        }
        match &self.arena[id.0].kind {
            NodeKind::Comment { text, .. } => Some(text.as_str()),
            _ => None,
        }
    }

    /// Sets a comment's text.
    pub fn set_text(&mut self, id: NodeId, value: String)
        requires
            old(self).wf(),
            old(self).has(id),
        ensures
            final(self).wf(),
            final(self)@ == match old(self)@[id.0 as int].kind {
                NodeKind::Comment { .. } => old(self)@.update(
                    id.0 as int,
                    NodeView { kind: NodeKind::Comment { text: value }, ..old(self)@[id.0 as int] },
                ),
                _ => old(self)@,
            },
            final(self).spec_clean_flags() == if old(self)@[id.0 as int].kind is Comment {
                spec_after_dirty(old(self).spec_clean_flags(), old(self)@, id)
            } else {
                old(self).spec_clean_flags()
            },
            final(self).spec_root() == old(self).spec_root(),
            final(self).spec_inputs() == old(self).spec_inputs(),
            final(self).spec_cursors() == old(self).spec_cursors(),
    {
        proof {
            self.lemma_view();
        }
        let kind = match &self.arena[id.0].kind {
            NodeKind::Comment { .. } => NodeKind::Comment { text: value },
            _ => {
                return;
            },
        };
        let ghost mid = self@;
        self.set_kind(id, kind);
        proof {
            lemma_same_parents_chain(mid, self@, id);
        }
        self.mark_dirty(id);
    }

    /// Whether a declaration is `!important`.
    pub fn important(&self, id: NodeId) -> (r: bool)
        requires
            self.has(id),
        ensures
            r == match self@[id.0 as int].kind {
                NodeKind::Decl { important, .. } => important,
                _ => false,
            },
    {
        proof {
            self.lemma_view();
        }
        match &self.arena[id.0].kind {
            NodeKind::Decl { important, .. } => *important,
            _ => false,
        }
    }

    /// Sets the `!important` flag of a declaration.
    pub fn set_important(&mut self, id: NodeId, value: bool)
        requires
            old(self).wf(),
            old(self).has(id),
        ensures
            final(self).wf(),
            final(self)@ == match old(self)@[id.0 as int].kind {
                NodeKind::Decl { prop, value: v, .. } => old(self)@.update(
                    id.0 as int,
                    NodeView { kind: NodeKind::Decl { prop, value: v, important: value }, ..old(self)@[id.0 as int] },
                ),
                _ => old(self)@,
            },
            final(self).spec_clean_flags() == if old(self)@[id.0 as int].kind is Decl {
                spec_after_dirty(old(self).spec_clean_flags(), old(self)@, id)
            } else {
                old(self).spec_clean_flags()
            },
            final(self).spec_root() == old(self).spec_root(),
            final(self).spec_inputs() == old(self).spec_inputs(),
            final(self).spec_cursors() == old(self).spec_cursors(),
    {
        proof {
            self.lemma_view();
        }
        let kind = match &self.arena[id.0].kind {
            NodeKind::Decl { prop, value: v, .. } => NodeKind::Decl { prop: prop.clone(), value: v.clone(), important: value },
            _ => {
                return;
            },
        };
        let ghost mid = self@;
        self.set_kind(id, kind);
        proof {
            lemma_same_parents_chain(mid, self@, id);
        }
        self.mark_dirty(id);
    }

    /// True for custom properties (`--x`) and Sass-style `$variables`.
    pub fn is_variable(&self, id: NodeId) -> (r: bool)
        requires
            self.has(id),
        ensures
            r == match self@[id.0 as int].kind {
                NodeKind::Decl { prop, .. } => spec_starts_with(prop@, "--"@) || spec_starts_with(prop@, "$"@),
                _ => false,
            },
    {
        match self.prop(id) {
            Some(prop) => {
                let chars = chars_of(prop);
                starts_with(&chars, "--") || starts_with(&chars, "$")
            },
            None => false,
        }
    }

    /// Moves the cursors of `parent` that sit at or after (or strictly after)
    /// `from` by `by`.
    pub(crate) fn shift_cursors(&mut self, parent: NodeId, from: isize, inclusive: bool, by: isize)
        requires
            old(self).has(parent),
        ensures
            final(self)@ == old(self)@,
            final(self).spec_root() == old(self).spec_root(),
            final(self).spec_inputs() == old(self).spec_inputs(),
            final(self).spec_clean_flags() == old(self).spec_clean_flags(),
            final(self).spec_cursors() == old(self).spec_cursors().update(
                parent.0 as int,
                spec_shift(old(self).spec_cursors()[parent.0 as int], from, inclusive, by),
            ),
    {
        proof {
            self.lemma_view();
        }
        let ghost before = *self;
        let ghost cs = self.arena@[parent.0 as int].indexes@;
        let n = self.arena[parent.0].indexes.len();
        let mut i: usize = 0;
        while i < n
            invariant
                i <= n,
                n == cs.len(),
                parent.0 < self.arena@.len(),
                self.arena@.len() == before.arena@.len(),
                forall|j: int| 0 <= j < self.arena@.len() && j != parent.0 ==> self.arena@[j] == before.arena@[j],
                self.arena@[parent.0 as int].spec_view() == before.arena@[parent.0 as int].spec_view(),
                self.arena@[parent.0 as int].is_clean == before.arena@[parent.0 as int].is_clean,
                self.arena@[parent.0 as int].indexes@.len() == n,
                forall|j: int| 0 <= j < i ==> self.arena@[parent.0 as int].indexes@[j] == spec_shift(cs, from, inclusive, by)[j],
                forall|j: int| i <= j < n ==> self.arena@[parent.0 as int].indexes@[j] == cs[j],
                self.root == before.root,
                self.inputs@ == before.inputs@,
            decreases n - i,
        {
            let (slot, index) = self.arena[parent.0].indexes[i];
            let moves = if inclusive {
                index >= from
            } else {
                index > from
            };
            if moves {
                let moved = match index.checked_add(by) {
                    Some(m) => m,
                    None => index,
                };
                self.arena[parent.0].indexes.set(i, (slot, moved));
            }
            i = i + 1;
        }
        proof {
            assert(self.arena@[parent.0 as int].indexes@ =~= spec_shift(cs, from, inclusive, by));
            assert(self@ =~= before@);
            assert(self.spec_clean_flags() =~= before.spec_clean_flags());
            assert(self.spec_cursors() =~= before.spec_cursors().update(parent.0 as int, spec_shift(cs, from, inclusive, by)));
        }
    }

    /// Detaches `child` from `parent`. Unless `ignore` is set, removing the
    /// first child of a root hands its `before` to the next one, so the output
    /// does not gain leading whitespace.
    pub(crate) fn remove_child_inner(&mut self, parent: NodeId, child: NodeId, ignore: bool)
        requires
            old(self).wf(),
            old(self).has(parent),
        ensures
            final(self).wf(),
            final(self)@ == spec_remove_child(old(self)@, parent, child, ignore),
            final(self).spec_root() == old(self).spec_root(),
            final(self).spec_inputs() == old(self).spec_inputs(),
            old(self).kids(parent).contains(child) ==> final(self).spec_cursors() == old(self).spec_cursors().update(
                parent.0 as int,
                spec_shift(old(self).spec_cursors()[parent.0 as int], old(self).kids(parent).index_of(child) as isize, true, -1isize),
            ),
            old(self).kids(parent).contains(child) ==> final(self).spec_clean_flags() == spec_after_dirty(
                old(self).spec_clean_flags(),
                final(self)@,
                parent,
            ),
            !old(self).kids(parent).contains(child) ==> final(self).spec_cursors() == old(self).spec_cursors()
                && final(self).spec_clean_flags() == old(self).spec_clean_flags(),
    {
        proof {
            self.lemma_view();
        }
        let index = match self.index(parent, child) {
            Some(i) => i,
            None => {
                return;
            },
        };
        proof {
            assert(node_links_ok(self@, parent.0 as int));
            lemma_first_index(self.kids(parent), child, index as int);
        }
        let ghost v0 = self@;
        let is_root = match &self.arena[parent.0].kind {
            NodeKind::Root => true,
            _ => false,
        };
        let count = self.children(parent).len();
        if !ignore && is_root && index == 0 && count > 1 {
            let first = self.children(parent)[0];
            let second = self.children(parent)[1];
            let before = clone_opt_string(&self.arena[first.0].raws.before);
            let ghost t0 = *self;
            self.arena[second.0].raws.before = before;
            proof {
                self.lemma_node_update(t0, second.0 as int);
                assert(self.spec_clean_flags() =~= t0.spec_clean_flags());
                assert(self.spec_cursors() =~= t0.spec_cursors());
                lemma_links_frame(t0@, self@);
            }
        }
        let ghost v1 = self@;
        proof {
            assert(v1 == spec_shift_before(v0, parent, !ignore && index == 0));
            lemma_detach_links(v1, parent, child, index as int);
        }
        let ghost t1 = *self;
        self.arena[child.0].parent = None;
        proof {
            self.lemma_node_update(t1, child.0 as int);
        }
        let ghost t2 = *self;
        let mut list = match self.arena[parent.0].nodes.take() {
            Some(v) => v,
            None => Vec::new(),
        };
        let ghost t3 = *self;
        proof {
            assert(t3.arena@ =~= t2.arena@.update(parent.0 as int, t3.arena@[parent.0 as int]));
        }
        list.remove(index);
        self.arena[parent.0].nodes = Some(list);
        proof {
            assert(self.arena@ =~= t2.arena@.update(parent.0 as int, self.arena@[parent.0 as int]));
            self.lemma_node_update(t2, parent.0 as int);
            assert(self@ =~= spec_detach(v1, parent, child, index as int));
            assert(self.spec_clean_flags() =~= t1.spec_clean_flags());
            assert(self.spec_cursors() =~= t1.spec_cursors());
        }
        self.shift_cursors(parent, index as isize, true, -1);
        self.mark_dirty(parent);
    }

    /// Detaches a node from its parent.
    pub fn remove(&mut self, id: NodeId)
        requires
            old(self).wf(),
            old(self).has(id),
        ensures
            final(self).wf(),
            final(self)@ == match old(self)@[id.0 as int].parent {
                Some(p) => spec_remove_child(old(self)@, p, id, false),
                None => old(self)@,
            },
            final(self).spec_root() == old(self).spec_root(),
            final(self).spec_inputs() == old(self).spec_inputs(),
    {
        proof {
            self.lemma_view();
            assert(node_links_ok(self@, id.0 as int));
        }
        match self.arena[id.0].parent {
            Some(parent) => {
                self.remove_child_inner(parent, id, false);
            },
            None => {},
        }
    }

    /// Removes a child of `parent`; nothing happens when it is not a child.
    pub fn remove_child(&mut self, parent: NodeId, child: NodeId)
        requires
            old(self).wf(),
            old(self).has(parent),
        ensures
            final(self).wf(),
            final(self)@ == spec_remove_child(old(self)@, parent, child, false),
            final(self).spec_root() == old(self).spec_root(),
            final(self).spec_inputs() == old(self).spec_inputs(),
    {
        self.remove_child_inner(parent, child, false);
    }

    /// Removes the child at `index`; nothing happens past the end.
    pub fn remove_child_at(&mut self, parent: NodeId, index: usize)
        requires
            old(self).wf(),
            old(self).has(parent),
        ensures
            final(self).wf(),
            final(self)@ == if index < old(self).kids(parent).len() {
                spec_remove_child(old(self)@, parent, old(self).kids(parent)[index as int], false)
            } else {
                old(self)@
            },
            final(self).spec_root() == old(self).spec_root(),
            final(self).spec_inputs() == old(self).spec_inputs(),
    {
        let c = self.children(parent);
        if index < c.len() {
            let child = c[index];
            self.remove_child_inner(parent, child, false);
        }
    }

    /// Adds an input that nodes' sources can point into, returning its index.
    pub fn attach_input(&mut self, input: Input) -> (index: usize)
        requires
            old(self).wf(),
        ensures
            final(self).wf(),
            final(self)@ == old(self)@,
            final(self).spec_root() == old(self).spec_root(),
            final(self).spec_inputs() == old(self).spec_inputs().push(input),
            index == old(self).spec_inputs().len(),
            final(self).spec_clean_flags() == old(self).spec_clean_flags(),
            final(self).spec_cursors() == old(self).spec_cursors(),
    {
        self.inputs.push(input);
        self.inputs.len() - 1
    }

    /// How many inputs the tree holds.
    pub fn input_count(&self) -> (n: usize)
        ensures
            n == self.spec_inputs().len(),
    {
        self.inputs.len()
    }

    /// The input at `index`, if there is one.
    pub fn input(&self, index: usize) -> (r: Option<&Input>)
        ensures
            match r {
                Some(i) => index < self.spec_inputs().len() && *i == self.spec_inputs()[index as int],
                None => index >= self.spec_inputs().len(),
            },
    {
        if index < self.inputs.len() {
            Some(&self.inputs[index])
        } else {
            None
        }
    }

    /// Sets a node's source position.
    pub fn set_source(&mut self, id: NodeId, source: Source)
        requires
            old(self).wf(),
            old(self).has(id),
        ensures
            final(self).wf(),
            final(self)@ == old(self)@.update(id.0 as int, NodeView { source: Some(source), ..old(self)@[id.0 as int] }),
            final(self).spec_root() == old(self).spec_root(),
            final(self).spec_inputs() == old(self).spec_inputs(),
            final(self).spec_clean_flags() == old(self).spec_clean_flags(),
            final(self).spec_cursors() == old(self).spec_cursors(),
    {
        proof {
            self.lemma_view();
        }
        let ghost before = *self;
        self.arena[id.0].source = Some(source);
        proof {
            self.lemma_node_update(before, id.0 as int);
            assert(self.spec_clean_flags() =~= before.spec_clean_flags());
            assert(self.spec_cursors() =~= before.spec_cursors());
            assert(self@ =~= before@.update(id.0 as int, NodeView { source: Some(source), ..before@[id.0 as int] }));
            lemma_links_frame(before@, self@);
        }
    }

    /// Write access to a node's source position.
    pub fn source_mut(&mut self, id: NodeId) -> (r: Option<&mut Source>)
        requires
            old(self).has(id),
        ensures
            match r {
                Some(s) => old(self)@[id.0 as int].source == Some(*s) && final(self)@ == old(self)@.update(
                    id.0 as int,
                    NodeView { source: Some(*final(s)), ..old(self)@[id.0 as int] },
                ),
                None => old(self)@[id.0 as int].source is None && final(self)@ == old(self)@,
            },
            final(self).spec_root() == old(self).spec_root(),
            final(self).spec_inputs() == old(self).spec_inputs(),
            final(self).spec_clean_flags() == old(self).spec_clean_flags(),
            final(self).spec_cursors() == old(self).spec_cursors(),
    {
        proof {
            self.lemma_view();
        }
        self.arena[id.0].source.as_mut()
    }

    fn allocate(&mut self, data: NodeData) -> (id: NodeId)
        requires
            old(self).wf(),
            data.spec_parent() is None,
            data.spec_nodes() matches Some(c) ==> c.len() == 0,
        ensures
            final(self).wf(),
            id.0 == old(self)@.len(),
            final(self)@ == old(self)@.push(data.spec_view()),
            final(self).spec_root() == old(self).spec_root(),
            final(self).spec_inputs() == old(self).spec_inputs(),
            final(self).spec_clean_flags() == old(self).spec_clean_flags().push(data.spec_clean()),
            final(self).spec_cursors().len() == old(self).spec_cursors().len() + 1,
            final(self).spec_cursors().take(old(self)@.len() as int) == old(self).spec_cursors(),
    {
        proof {
            self.lemma_view();
        }
        let ghost before = *self;
        self.arena.push(data);
        let id = NodeId(self.arena.len() - 1);
        proof {
            let v = before@;
            let w = self@;
            assert(w =~= v.push(data.spec_view()));
            assert(self.spec_clean_flags() =~= before.spec_clean_flags().push(data.spec_clean()));
            assert(self.spec_cursors().take(v.len() as int) =~= before.spec_cursors());
            assert forall|i: int| 0 <= i < w.len() implies #[trigger] node_links_ok(w, i) by {
                if i < v.len() {
                    assert(node_links_ok(v, i));
                    assert(w[i] == v[i]);
                    if let Some(q) = w[i].parent {
                        assert(w[q.0 as int] == v[q.0 as int]);
                    }
                    assert forall|j: int| 0 <= j < kids_of(w[i]).len() implies (#[trigger] kids_of(w[i])[j]).0
                        < w.len() && w[kids_of(w[i])[j].0 as int].parent == Some(NodeId(i as usize)) by {
                        let k = kids_of(v[i])[j];
                        assert(w[k.0 as int] == v[k.0 as int]);
                    }
                } else {
                    assert(kids_of(w[i]).len() == 0);
                }
            }
        }
        id
    }

    /// Appends a child with no normalization. The child must be detached.
    pub(crate) fn push_child(&mut self, parent: NodeId, child: NodeId)
        requires
            old(self).wf(),
            old(self).has(parent),
            old(self).has(child),
            old(self)@[child.0 as int].parent is None,
        ensures
            final(self).wf(),
            final(self)@ == spec_attach(old(self)@, parent, child),
            final(self).spec_root() == old(self).spec_root(),
            final(self).spec_inputs() == old(self).spec_inputs(),
            final(self).spec_clean_flags() == old(self).spec_clean_flags(),
            final(self).spec_cursors() == old(self).spec_cursors(),
    {
        proof {
            self.lemma_view();
            lemma_attach_links(old(self)@, parent, child);
        }
        let ghost before = *self;
        self.arena[child.0].parent = Some(parent);
        let ghost mid = *self;
        proof {
            self.lemma_node_update(before, child.0 as int);
        }
        let mut list = match self.arena[parent.0].nodes.take() {
            Some(v) => v,
            None => Vec::new(),
        };
        let ghost mid2 = *self;
        proof {
            assert(mid2.arena@ =~= mid.arena@.update(parent.0 as int, mid2.arena@[parent.0 as int]));
        }
        list.push(child);
        self.arena[parent.0].nodes = Some(list);
        proof {
            assert(self.arena@ =~= mid2.arena@.update(parent.0 as int, self.arena@[parent.0 as int]));
            assert(self.arena@ =~= mid.arena@.update(parent.0 as int, self.arena@[parent.0 as int]));
            self.lemma_node_update(mid, parent.0 as int);
            assert(self.spec_clean_flags() =~= before.spec_clean_flags());
            assert(self.spec_cursors() =~= before.spec_cursors());
            assert(self@ =~= spec_attach(before@, parent, child));
        }
    }

    /// Appends a detached child with no normalization: no `before` is inferred.
    pub fn push_child_public(&mut self, parent: NodeId, child: NodeId)
        requires
            old(self).wf(),
            old(self).has(parent),
            old(self).has(child),
            old(self)@[child.0 as int].parent is None,
        ensures
            final(self).wf(),
            final(self)@ == spec_attach(old(self)@, parent, child),
            final(self).spec_root() == old(self).spec_root(),
            final(self).spec_inputs() == old(self).spec_inputs(),
            final(self).spec_clean_flags() == old(self).spec_clean_flags(),
            final(self).spec_cursors() == old(self).spec_cursors(),
    {
        self.push_child(parent, child)
    }

    /// Creates a detached node, with its subtree, in this tree.
    pub fn create(&mut self, node: NewNode) -> (id: NodeId)
        requires
            old(self).wf(),
        ensures
            final(self).wf(),
            id.0 == old(self)@.len(),
            final(self)@.len() > old(self)@.len(),
            final(self)@.take(old(self)@.len() as int) == old(self)@,
            final(self)@[id.0 as int].parent is None,
            spec_built_in(final(self)@, id, node, old(self)@.len() as int, final(self)@.len() as int),
            spec_new_kids(node).len() == 0 ==> final(self)@.len() == old(self)@.len() + 1,
            final(self).spec_root() == old(self).spec_root(),
            final(self).spec_inputs() == old(self).spec_inputs(),
            final(self).spec_clean_flags().take(old(self)@.len() as int) == old(self).spec_clean_flags(),
            final(self).spec_cursors().take(old(self)@.len() as int) == old(self).spec_cursors(),
        decreases node,
    {
        let ghost node_spec = node;
        let NewNode { kind, raws, source, nodes } = node;
        let mut data = NodeData::new(kind);
        data.raws = raws;
        data.source = source;
        if nodes.is_some() && data.nodes.is_none() {
            data.nodes = Some(Vec::new());
        }
        let ghost start = self@.len();
        let id = self.allocate(data);
        let mut rest: Vec<NewNode> = match nodes {
            Some(v) => v,
            None => Vec::new(),
        };
        let ghost all = rest@;
        let total = rest.len();
        let mut done: usize = 0;
        while done < total
            invariant
                self.wf(),
                total == all.len(),
                node_spec == node,
                all == spec_new_kids(node_spec),
                done <= total,
                rest@ == all.skip(done as int),
                id.0 == start,
                self@.len() > start,
                self@.take(start as int) == old(self)@,
                self@[id.0 as int].parent is None,
                self@[id.0 as int].kind == node_spec.kind,
                self@[id.0 as int].raws == node_spec.raws,
                self@[id.0 as int].source == node_spec.source,
                (self@[id.0 as int].nodes is Some <==> (node_spec.nodes is Some || spec_born_container(node_spec.kind))),
                done > 0 ==> self@[id.0 as int].nodes is Some,
                done == 0 ==> self@.len() == start + 1,
                kids_of(self@[id.0 as int]).len() == done,
                spec_kids_built(self@, kids_of(self@[id.0 as int]), node_spec, done as int, start as int + 1, self@.len() as int),
                self.spec_root() == old(self).spec_root(),
                self.spec_inputs() == old(self).spec_inputs(),
                self.spec_clean_flags().take(start as int) == old(self).spec_clean_flags(),
                self.spec_cursors().take(start as int) == old(self).spec_cursors(),
            decreases total - done,
        {
            let child = rest.remove(0);
            proof {
                assert(child == all[done as int]);
                assert(rest@ =~= all.skip(done + 1));
                let kids_vec = node_spec.nodes->0;
                assert(decreases_to!(node_spec => kids_vec));
                assert(decreases_to!(kids_vec => kids_vec@));
                assert(decreases_to!(kids_vec@ => kids_vec@[done as int]));
                assert(decreases_to!(node_spec => child));
            }
            let ghost v0 = self@;
            let ghost f0 = self.spec_clean_flags();
            let ghost c0 = self.spec_cursors();
            let child_id = self.create(child);
            let ghost v1 = self@;
            self.push_child(id, child_id);
            proof {
                let v2 = self@;
                assert(v1.take(v0.len() as int) == v0);
                assert forall|i: int| start <= i < v0.len() implies (#[trigger] v1[i]).kind == v0[i].kind && v1[i].raws == v0[i].raws
                    && v1[i].source == v0[i].source && v1[i].nodes == v0[i].nodes by {
                    assert(v1.take(v0.len() as int)[i] == v1[i]);
                }
                // The children built so far stay built.
                let ks0 = kids_of(v0[id.0 as int]);
                let ks2 = kids_of(v2[id.0 as int]);
                assert(ks2 == ks0.push(child_id));
                assert forall|i: int| start + 1 <= i < v0.len() implies (#[trigger] v2[i]).kind == v0[i].kind && v2[i].raws == v0[i].raws
                    && v2[i].source == v0[i].source && v2[i].nodes == v0[i].nodes by {
                    assert(v1.take(v0.len() as int)[i] == v1[i]);
                }
                lemma_kids_frame(v0, v2, ks0, node_spec, done as int, start as int + 1, v0.len() as int, start as int + 1, v2.len() as int);
                lemma_kids_built_prefix(v2, ks0, ks2, node_spec, done as int, start as int + 1, v2.len() as int);
                lemma_built_frame(v1, v2, child_id, child, v0.len() as int, v1.len() as int, start as int + 1, v2.len() as int);
                assert(spec_new_kids(node_spec)[done as int] == child);
                assert(ks2[done as int] == child_id);
                lemma_kids_built_step(v2, ks2, node_spec, done as int + 1, start as int + 1, v2.len() as int);
                assert(v2.take(start as int) =~= v0.take(start as int)) by {
                    assert forall|i: int| 0 <= i < start implies v2[i] == v0[i] by {
                        assert(v1.take(v0.len() as int)[i] == v1[i]);
                    }
                }
                assert(self.spec_clean_flags().take(start as int) =~= f0.take(start as int)) by {
                    assert(self.spec_clean_flags().take(v0.len() as int) == f0);
                }
                assert(self.spec_cursors().take(start as int) =~= c0.take(start as int)) by {
                    assert(self.spec_cursors().take(v0.len() as int) == c0);
                }
            }
            done = done + 1;
        }
        proof {
            lemma_kids_frame(self@, self@, kids_of(self@[id.0 as int]), node_spec, total as int, start as int + 1, self@.len() as int, start as int, self@.len() as int);
            assert(spec_built_in(self@, id, node_spec, start as int, self@.len() as int));
        }
        id
    }
}

/// Two views with the same links.
pub open spec fn spec_same_links(a: Seq<NodeView>, b: Seq<NodeView>) -> bool {
    &&& a.len() == b.len()
    &&& forall|i: int| 0 <= i < a.len() ==> (#[trigger] a[i]).parent == b[i].parent && a[i].nodes == b[i].nodes
}

/// Changing anything but the links keeps them consistent.
pub proof fn lemma_links_frame(a: Seq<NodeView>, b: Seq<NodeView>)
    requires
        spec_links_ok(a),
        spec_same_links(a, b),
    ensures
        spec_links_ok(b),
{
    assert forall|i: int| 0 <= i < b.len() implies #[trigger] node_links_ok(b, i) by {
        assert(node_links_ok(a, i));
        assert(a[i].parent == b[i].parent && a[i].nodes == b[i].nodes);
        assert(kids_of(a[i]) == kids_of(b[i]));
        if let Some(p) = b[i].parent {
            assert(a[p.0 as int].nodes == b[p.0 as int].nodes);
        }
        assert forall|j: int| 0 <= j < kids_of(b[i]).len() implies (#[trigger] kids_of(b[i])[j]).0 < b.len()
            && b[kids_of(b[i])[j].0 as int].parent == Some(NodeId(i as usize)) by {
            let k = kids_of(a[i])[j];
            assert(a[k.0 as int].parent == Some(NodeId(i as usize)));
            assert(a[k.0 as int].parent == b[k.0 as int].parent);
        }
    }
}

/// The view after attaching the detached node `c` as the last child of `p`.
pub open spec fn spec_attach(v: Seq<NodeView>, p: NodeId, c: NodeId) -> Seq<NodeView> {
    let v1 = v.update(c.0 as int, NodeView { parent: Some(p), ..v[c.0 as int] });
    v1.update(p.0 as int, NodeView { nodes: Some(kids_of(v1[p.0 as int]).push(c)), ..v1[p.0 as int] })
}

/// Attaching a detached node keeps the links consistent.
pub proof fn lemma_attach_links(v: Seq<NodeView>, p: NodeId, c: NodeId)
    requires
        spec_links_ok(v),
        p.0 < v.len(),
        c.0 < v.len(),
        v[c.0 as int].parent is None,
    ensures
        spec_links_ok(spec_attach(v, p, c)),
        spec_attach(v, p, c).len() == v.len(),
{
    let w = spec_attach(v, p, c);
    assert forall|x: int| 0 <= x < v.len() implies (#[trigger] w[x]).parent == (if x == c.0 as int {
        Some(p)
    } else {
        v[x].parent
    }) && kids_of(w[x]) == (if x == p.0 as int {
        kids_of(v[x]).push(c)
    } else {
        kids_of(v[x])
    }) && (w[x].nodes is Some <==> (x == p.0 as int || v[x].nodes is Some)) by {
    }
    // `c` is in no child list, since its parent link is empty.
    assert forall|i: int| 0 <= i < v.len() implies !kids_of(v[i]).contains(c) by {
        assert(node_links_ok(v, i));
        if kids_of(v[i]).contains(c) {
            let j = choose|j: int| 0 <= j < kids_of(v[i]).len() && kids_of(v[i])[j] == c;
            assert(v[kids_of(v[i])[j].0 as int].parent == Some(NodeId(i as usize)));
        }
    }
    assert forall|i: int| 0 <= i < w.len() implies #[trigger] node_links_ok(w, i) by {
        assert(node_links_ok(v, i));
        let wk = kids_of(w[i]);
        let vk = kids_of(v[i]);
        if let Some(q) = w[i].parent {
            assert(q.0 < w.len());
            if i == c.0 as int {
                assert(q == p);
                assert(kids_of(w[p.0 as int])[kids_of(v[p.0 as int]).len() as int] == c);
                assert(kids_of(w[q.0 as int]).contains(NodeId(i as usize)));
            } else {
                assert(v[i].parent == Some(q));
                let j = choose|j: int| 0 <= j < kids_of(v[q.0 as int]).len() && kids_of(v[q.0 as int])[j] == NodeId(
                    i as usize,
                );
                assert(kids_of(w[q.0 as int])[j] == NodeId(i as usize));
                assert(kids_of(w[q.0 as int]).contains(NodeId(i as usize)));
            }
        }
        assert forall|j: int| 0 <= j < wk.len() implies (#[trigger] wk[j]).0 < w.len() && w[wk[j].0 as int].parent
            == Some(NodeId(i as usize)) by {
            if i == p.0 as int && j == vk.len() {
                assert(wk[j] == c);
            } else {
                assert(wk[j] == vk[j]);
                let k = vk[j];
                assert(v[k.0 as int].parent == Some(NodeId(i as usize)));
                assert(kids_of(v[i]).contains(k));
                assert(k != c);
            }
        }
        assert(wk.no_duplicates()) by {
            if i == p.0 as int {
                assert forall|a: int, b: int| 0 <= a < wk.len() && 0 <= b < wk.len() && a != b implies wk[a]
                    != wk[b] by {
                    if a < vk.len() && b < vk.len() {
                    } else if a < vk.len() {
                        assert(vk.contains(vk[a]));
                    } else if b < vk.len() {
                        assert(vk.contains(vk[b]));
                    }
                }
            }
        }
    }
}

/// The view after detaching child `c`, at position `k` of `p`'s children.
pub open spec fn spec_detach(v: Seq<NodeView>, p: NodeId, c: NodeId, k: int) -> Seq<NodeView> {
    let v1 = v.update(c.0 as int, NodeView { parent: None, ..v[c.0 as int] });
    v1.update(p.0 as int, NodeView { nodes: Some(kids_of(v1[p.0 as int]).remove(k)), ..v1[p.0 as int] })
}

/// Detaching a child keeps the links consistent.
pub proof fn lemma_detach_links(v: Seq<NodeView>, p: NodeId, c: NodeId, k: int)
    requires
        spec_links_ok(v),
        p.0 < v.len(),
        0 <= k < kids_of(v[p.0 as int]).len(),
        kids_of(v[p.0 as int])[k] == c,
    ensures
        spec_links_ok(spec_detach(v, p, c, k)),
        spec_detach(v, p, c, k).len() == v.len(),
{
    let w = spec_detach(v, p, c, k);
    assert(node_links_ok(v, p.0 as int));
    assert(v[c.0 as int].parent == Some(p));
    let old_kids = kids_of(v[p.0 as int]);
    let new_kids = old_kids.remove(k);
    assert forall|i: int| 0 <= i < w.len() implies #[trigger] node_links_ok(w, i) by {
        assert(node_links_ok(v, i));
        if i == p.0 as int {
            assert(kids_of(w[i]) == new_kids);
            assert forall|j: int| 0 <= j < new_kids.len() implies (#[trigger] new_kids[j]).0 < w.len()
                && w[new_kids[j].0 as int].parent == Some(NodeId(i as usize)) by {
                let jj = if j < k { j } else { j + 1 };
                assert(new_kids[j] == old_kids[jj]);
                assert(old_kids[jj] != c);
            }
            assert(new_kids.no_duplicates()) by {
                assert forall|a: int, b: int| 0 <= a < new_kids.len() && 0 <= b < new_kids.len() && a != b implies new_kids[a]
                    != new_kids[b] by {
                    let aa = if a < k { a } else { a + 1 };
                    let bb = if b < k { b } else { b + 1 };
                    assert(new_kids[a] == old_kids[aa]);
                    assert(new_kids[b] == old_kids[bb]);
                }
            }
            if let Some(q) = w[i].parent {
                assert(v[i].parent == Some(q));
                let j = choose|j: int| 0 <= j < kids_of(v[q.0 as int]).len() && kids_of(v[q.0 as int])[j] == NodeId(
                    i as usize,
                );
                if q == p {
                    if NodeId(i as usize) == c {
                        assert(w[i].parent is None);
                    }
                    let jj = if j < k { j } else { j - 1 };
                    assert(new_kids[jj] == NodeId(i as usize));
                } else if q == c {
                    assert(kids_of(w[q.0 as int])[j] == NodeId(i as usize));
                } else {
                    assert(w[q.0 as int] == v[q.0 as int]);
                }
            }
        } else {
            assert(kids_of(w[i]) == kids_of(v[i]));
            assert forall|j: int| 0 <= j < kids_of(w[i]).len() implies (#[trigger] kids_of(w[i])[j]).0 < w.len()
                && w[kids_of(w[i])[j].0 as int].parent == Some(NodeId(i as usize)) by {
                let kk = kids_of(v[i])[j];
                assert(v[kk.0 as int].parent == Some(NodeId(i as usize)));
                if kk == c {
                    assert(NodeId(i as usize) == p);
                    assert(false);
                }
            }
            if let Some(q) = w[i].parent {
                assert(i != c.0 as int);
                assert(v[i].parent == Some(q));
                let j = choose|j: int| 0 <= j < kids_of(v[q.0 as int]).len() && kids_of(v[q.0 as int])[j] == NodeId(
                    i as usize,
                );
                if q == p {
                    assert(NodeId(i as usize) != c);
                    let jj = if j < k { j } else { j - 1 };
                    assert(new_kids[jj] == NodeId(i as usize));
                } else if q == c {
                    assert(kids_of(w[q.0 as int])[j] == NodeId(i as usize));
                } else {
                    assert(w[q.0 as int] == v[q.0 as int]);
                }
            }
        }
    }
}

/// In a list without repeats, `i` is the position that `index_of` names.
pub proof fn lemma_first_index(s: Seq<NodeId>, x: NodeId, i: int)
    requires
        0 <= i < s.len(),
        s[i] == x,
        s.no_duplicates(),
    ensures
        s.index_of(x) == i,
{
    assert(s.contains(x));
}

/// The children of a node of a consistent tree are distinct, each at its
/// own first index.
pub proof fn lemma_kids_indexed(t: Tree, p: NodeId)
    requires
        t.wf(),
        t.has(p),
    ensures
        t.kids(p).no_duplicates(),
        forall|i: int| 0 <= i < t.kids(p).len() ==> t.kids(p).index_of(#[trigger] t.kids(p)[i]) == i,
{
    assert(node_links_ok(t@, p.0 as int));
    assert forall|i: int| 0 <= i < t.kids(p).len() implies t.kids(p).index_of(#[trigger] t.kids(p)[i]) == i by {
        lemma_first_index(t.kids(p), t.kids(p)[i], i);
    }
}

/// The descendants of `id`, depth first and in order, down to `fuel` levels.
pub open spec fn spec_walk(v: Seq<NodeView>, id: NodeId, fuel: nat) -> Seq<NodeId>
    decreases fuel, 0int,
{
    if fuel == 0 || id.0 >= v.len() {
        Seq::empty()
    } else {
        spec_walk_kids(v, kids_of(v[id.0 as int]), kids_of(v[id.0 as int]).len() as int, (fuel - 1) as nat)
    }
}

/// The first `k` children `ks` of a node, each followed by its descendants.
pub open spec fn spec_walk_kids(v: Seq<NodeView>, ks: Seq<NodeId>, k: int, fuel: nat) -> Seq<NodeId>
    decreases fuel, k,
{
    if k <= 0 || k > ks.len() {
        Seq::empty()
    } else {
        spec_walk_kids(v, ks, k - 1, fuel) + seq![ks[k - 1]] + spec_walk(v, ks[k - 1], fuel)
    }
}

/// The descendants of `id` in a tree, depth first and in order.
pub fn walk(tree: &Tree, id: NodeId, fuel: usize) -> (r: Vec<NodeId>)
    requires
        tree.wf(),
        tree.has(id),
    ensures
        r@ == spec_walk(tree@, id, fuel as nat),
        forall|i: int| 0 <= i < r@.len() ==> tree.has(#[trigger] r@[i]),
    decreases fuel,
{
    if fuel == 0 {
        return Vec::new();
    }
    let kids = tree.children(id);
    let mut out: Vec<NodeId> = Vec::new();
    let mut k: usize = 0;
    proof {
        assert(crate::tree::node_links_ok(tree@, id.0 as int));
    }
    while k < kids.len()
        invariant
            k <= kids@.len(),
            kids@ == kids_of(tree@[id.0 as int]),
            fuel > 0,
            tree.wf(),
            tree.has(id),
            out@ == spec_walk_kids(tree@, kids@, k as int, (fuel - 1) as nat),
            forall|i: int| 0 <= i < out@.len() ==> tree.has(#[trigger] out@[i]),
            forall|j: int| 0 <= j < kids@.len() ==> tree.has(#[trigger] kids@[j]),
        decreases kids@.len() - k,
    {
        let c = kids[k];
        let sub = walk(tree, c, fuel - 1);
        let ghost before = out@;
        out.push(c);
        let mut j: usize = 0;
        while j < sub.len()
            invariant
                j <= sub@.len(),
                out@ == before.push(c) + sub@.take(j as int),
                forall|i: int| 0 <= i < out@.len() ==> tree.has(#[trigger] out@[i]),
                forall|i: int| 0 <= i < sub@.len() ==> tree.has(#[trigger] sub@[i]),
            decreases sub@.len() - j,
        {
            out.push(sub[j]);
            proof {
                assert(out@ =~= before.push(c) + sub@.take(j + 1));
            }
            j = j + 1;
        }
        proof {
            assert(sub@.take(sub@.len() as int) =~= sub@);
            assert(out@ =~= before + seq![c] + sub@);
        }
        k = k + 1;
    }
    out
}

/// The view after attaching the detached node `c` as child number `at` of
/// `p`.
pub open spec fn spec_attach_at(v: Seq<NodeView>, p: NodeId, c: NodeId, at: int) -> Seq<NodeView> {
    let v1 = v.update(c.0 as int, NodeView { parent: Some(p), ..v[c.0 as int] });
    v1.update(p.0 as int, NodeView { nodes: Some(kids_of(v1[p.0 as int]).insert(at, c)), ..v1[p.0 as int] })
}

/// Attaching a detached node at any position keeps the links consistent.
pub proof fn lemma_attach_at_links(v: Seq<NodeView>, p: NodeId, c: NodeId, at: int)
    requires
        spec_links_ok(v),
        p.0 < v.len(),
        c.0 < v.len(),
        v[c.0 as int].parent is None,
        0 <= at <= kids_of(v[p.0 as int]).len(),
    ensures
        spec_links_ok(spec_attach_at(v, p, c, at)),
        spec_attach_at(v, p, c, at).len() == v.len(),
{
    let w = spec_attach_at(v, p, c, at);
    let pk = kids_of(v[p.0 as int]);
    assert forall|x: int| 0 <= x < v.len() implies (#[trigger] w[x]).parent == (if x == c.0 as int {
        Some(p)
    } else {
        v[x].parent
    }) && kids_of(w[x]) == (if x == p.0 as int {
        kids_of(v[x]).insert(at, c)
    } else {
        kids_of(v[x])
    }) && (w[x].nodes is Some <==> (x == p.0 as int || v[x].nodes is Some)) by {
    }
    // `c` is in no child list, since its parent link is empty.
    assert forall|i: int| 0 <= i < v.len() implies !kids_of(v[i]).contains(c) by {
        assert(node_links_ok(v, i));
        if kids_of(v[i]).contains(c) {
            let j = choose|j: int| 0 <= j < kids_of(v[i]).len() && kids_of(v[i])[j] == c;
            assert(v[kids_of(v[i])[j].0 as int].parent == Some(NodeId(i as usize)));
        }
    }
    assert forall|i: int| 0 <= i < w.len() implies #[trigger] node_links_ok(w, i) by {
        assert(node_links_ok(v, i));
        let wk = kids_of(w[i]);
        let vk = kids_of(v[i]);
        if let Some(q) = w[i].parent {
            assert(q.0 < w.len());
            if i == c.0 as int {
                assert(q == p);
                assert(kids_of(w[p.0 as int])[at] == c);
                assert(kids_of(w[q.0 as int]).contains(NodeId(i as usize)));
            } else {
                assert(v[i].parent == Some(q));
                let j = choose|j: int| 0 <= j < kids_of(v[q.0 as int]).len() && kids_of(v[q.0 as int])[j] == NodeId(
                    i as usize,
                );
                if q == p {
                    let jj = if j < at { j } else { j + 1 };
                    assert(kids_of(w[q.0 as int])[jj] == NodeId(i as usize));
                } else {
                    assert(kids_of(w[q.0 as int])[j] == NodeId(i as usize));
                }
                assert(kids_of(w[q.0 as int]).contains(NodeId(i as usize)));
            }
        }
        assert forall|j: int| 0 <= j < wk.len() implies (#[trigger] wk[j]).0 < w.len() && w[wk[j].0 as int].parent
            == Some(NodeId(i as usize)) by {
            if i == p.0 as int {
                if j == at {
                    assert(wk[j] == c);
                } else {
                    let jj = if j < at { j } else { j - 1 };
                    assert(wk[j] == vk[jj]);
                    let k = vk[jj];
                    assert(v[k.0 as int].parent == Some(NodeId(i as usize)));
                    assert(kids_of(v[i]).contains(k));
                    assert(k != c);
                }
            } else {
                assert(wk[j] == vk[j]);
                let k = vk[j];
                assert(v[k.0 as int].parent == Some(NodeId(i as usize)));
                assert(kids_of(v[i]).contains(k));
                assert(k != c);
            }
        }
        assert(wk.no_duplicates()) by {
            if i == p.0 as int {
                assert forall|a: int, b: int| 0 <= a < wk.len() && 0 <= b < wk.len() && a != b implies wk[a]
                    != wk[b] by {
                    let aa = if a < at { a } else { a - 1 };
                    let bb = if b < at { b } else { b - 1 };
                    if a != at && b != at {
                        assert(wk[a] == vk[aa]);
                        assert(wk[b] == vk[bb]);
                    } else if a == at {
                        assert(wk[b] == vk[bb]);
                        assert(vk.contains(vk[bb]));
                    } else {
                        assert(wk[a] == vk[aa]);
                        assert(vk.contains(vk[aa]));
                    }
                }
            }
        }
    }
}

impl Tree {
    /// Attaches a detached node as child number `at` of `parent`, giving
    /// `parent` a child list when it has none.
    pub(crate) fn insert_child_at(&mut self, parent: NodeId, child: NodeId, at: usize)
        requires
            old(self).wf(),
            old(self).has(parent),
            old(self).has(child),
            old(self)@[child.0 as int].parent is None,
            at <= old(self).kids(parent).len(),
        ensures
            final(self).wf(),
            final(self)@ == spec_attach_at(old(self)@, parent, child, at as int),
            final(self).spec_root() == old(self).spec_root(),
            final(self).spec_inputs() == old(self).spec_inputs(),
            final(self).spec_clean_flags() == old(self).spec_clean_flags(),
            final(self).spec_cursors() == old(self).spec_cursors(),
    {
        proof {
            self.lemma_view();
            lemma_attach_at_links(old(self)@, parent, child, at as int);
        }
        let ghost before = *self;
        self.arena[child.0].parent = Some(parent);
        let ghost mid = *self;
        proof {
            self.lemma_node_update(before, child.0 as int);
        }
        let mut list = match self.arena[parent.0].nodes.take() {
            Some(v) => v,
            None => Vec::new(),
        };
        let ghost mid2 = *self;
        proof {
            assert(mid2.arena@ =~= mid.arena@.update(parent.0 as int, mid2.arena@[parent.0 as int]));
            assert(list@ == kids_of(mid@[parent.0 as int]));
        }
        list.insert(at, child);
        self.arena[parent.0].nodes = Some(list);
        proof {
            assert(self.arena@ =~= mid2.arena@.update(parent.0 as int, self.arena@[parent.0 as int]));
            assert(self.arena@ =~= mid.arena@.update(parent.0 as int, self.arena@[parent.0 as int]));
            self.lemma_node_update(mid, parent.0 as int);
            assert(self.spec_clean_flags() =~= before.spec_clean_flags());
            assert(self.spec_cursors() =~= before.spec_cursors());
            assert(self@ =~= spec_attach_at(before@, parent, child, at as int));
        }
    }
}

/// The position a live cursor of iteration `it` holds, if it has one.
pub open spec fn spec_slot(cs: Seq<(u32, isize)>, it: u32) -> Option<isize>
    decreases cs.len(),
{
    if cs.len() == 0 {
        None
    } else if cs[0].0 == it {
        Some(cs[0].1)
    } else {
        spec_slot(cs.drop_first(), it)
    }
}

/// Where a cursor moved by `by` lands: at `to` when given, else `by` further
/// on, or where it was when that would overflow.
pub open spec fn spec_moved(at: isize, by: isize, to: Option<isize>) -> isize {
    match to {
        Some(t) => t,
        None => if isize::MIN <= at + by <= isize::MAX {
            (at + by) as isize
        } else {
            at
        },
    }
}

/// The cursors after moving the first cursor of iteration `it`; when there
/// is none, a cursor at `to` is added, if `to` is given.
pub open spec fn spec_set_slot(cs: Seq<(u32, isize)>, it: u32, by: isize, to: Option<isize>) -> Seq<(u32, isize)>
    decreases cs.len(),
{
    if cs.len() == 0 {
        match to {
            Some(t) => seq![(it, t)],
            None => Seq::empty(),
        }
    } else if cs[0].0 == it {
        seq![(it, spec_moved(cs[0].1, by, to))] + cs.drop_first()
    } else {
        seq![cs[0]] + spec_set_slot(cs.drop_first(), it, by, to)
    }
}

/// Setting a cursor to a position makes it read back that position.
pub proof fn lemma_set_slot_reads(cs: Seq<(u32, isize)>, it: u32, by: isize, t: isize)
    ensures
        spec_slot(spec_set_slot(cs, it, by, Some(t)), it) == Some(t),
    decreases cs.len(),
{
    let r = spec_set_slot(cs, it, by, Some(t));
    if cs.len() > 0 && cs[0].0 != it {
        lemma_set_slot_reads(cs.drop_first(), it, by, t);
        assert(r.drop_first() =~= spec_set_slot(cs.drop_first(), it, by, Some(t)));
    }
}

/// Moving a cursor that exists moves it by `by`.
pub proof fn lemma_set_slot_moves(cs: Seq<(u32, isize)>, it: u32, by: isize, at: isize)
    requires
        spec_slot(cs, it) == Some(at),
        isize::MIN <= at + by <= isize::MAX,
    ensures
        spec_slot(spec_set_slot(cs, it, by, None), it) == Some((at + by) as isize),
    decreases cs.len(),
{
    let r = spec_set_slot(cs, it, by, None);
    if cs.len() > 0 && cs[0].0 != it {
        lemma_set_slot_moves(cs.drop_first(), it, by, at);
        assert(r.drop_first() =~= spec_set_slot(cs.drop_first(), it, by, None));
    }
}

/// The scan over the first `k` cursors found no cursor of `it`.
proof fn lemma_set_slot_absent(cs: Seq<(u32, isize)>, it: u32, by: isize, to: Option<isize>)
    requires
        forall|q: int| 0 <= q < cs.len() ==> (#[trigger] cs[q]).0 != it,
    ensures
        spec_set_slot(cs, it, by, to) == match to {
            Some(t) => cs.push((it, t)),
            None => cs,
        },
    decreases cs.len(),
{
    if cs.len() > 0 {
        assert(cs[0].0 != it);
        lemma_set_slot_absent(cs.drop_first(), it, by, to);
        match to {
            Some(t) => assert(cs.push((it, t)) =~= seq![cs[0]] + cs.drop_first().push((it, t))),
            None => assert(cs =~= seq![cs[0]] + cs.drop_first()),
        }
    }
}

/// The first cursor of `it` sits at `k`.
proof fn lemma_set_slot_at(cs: Seq<(u32, isize)>, it: u32, by: isize, to: Option<isize>, k: int)
    requires
        0 <= k < cs.len(),
        cs[k].0 == it,
        forall|q: int| 0 <= q < k ==> (#[trigger] cs[q]).0 != it,
    ensures
        spec_set_slot(cs, it, by, to) == cs.update(k, (it, spec_moved(cs[k].1, by, to))),
    decreases k,
{
    if k == 0 {
        assert(cs.update(0, (it, spec_moved(cs[0].1, by, to))) =~= seq![(it, spec_moved(cs[0].1, by, to))] + cs.drop_first());
    } else {
        assert(cs[0].0 != it);
        assert forall|q: int| 0 <= q < k - 1 implies (#[trigger] cs.drop_first()[q]).0 != it by {
            assert(cs.drop_first()[q] == cs[q + 1]);
        }
        lemma_set_slot_at(cs.drop_first(), it, by, to, k - 1);
        assert(cs.update(k, (it, spec_moved(cs[k].1, by, to))) =~= seq![cs[0]] + cs.drop_first().update(
            k - 1,
            (it, spec_moved(cs[k].1, by, to)),
        ));
    }
}

impl Tree {
    /// Sets whether a node has been seen by every visitor since it last
    /// changed.
    pub(crate) fn set_clean(&mut self, id: NodeId, clean: bool)
        requires
            old(self).has(id),
        ensures
            final(self)@ == old(self)@,
            final(self).spec_root() == old(self).spec_root(),
            final(self).spec_inputs() == old(self).spec_inputs(),
            final(self).spec_clean_flags() == old(self).spec_clean_flags().update(id.0 as int, clean),
            final(self).spec_cursors() == old(self).spec_cursors(),
    {
        proof {
            self.lemma_view();
        }
        let ghost before = *self;
        self.arena[id.0].is_clean = clean;
        proof {
            self.lemma_node_update(before, id.0 as int);
            assert(self@ =~= before@);
        }
    }

    /// Whether a node has been seen by every visitor since it last changed.
    pub(crate) fn is_clean(&self, id: NodeId) -> (b: bool)
        requires
            self.has(id),
        ensures
            b == self.spec_clean_flags()[id.0 as int],
    {
        proof {
            self.lemma_view();
        }
        self.arena[id.0].is_clean
    }

    /// Marks a node and its whole subtree as needing another visitor pass.
    pub(crate) fn mark_tree_dirty(&mut self, id: NodeId)
        requires
            old(self).wf(),
            old(self).has(id),
        ensures
            final(self)@ == old(self)@,
            final(self).spec_root() == old(self).spec_root(),
            final(self).spec_inputs() == old(self).spec_inputs(),
            final(self).spec_cursors() == old(self).spec_cursors(),
            final(self).spec_clean_flags().len() == old(self).spec_clean_flags().len(),
            !final(self).spec_clean_flags()[id.0 as int],
            forall|j: int| 0 <= j < spec_walk(old(self)@, id, old(self)@.len()).len() ==> !final(self).spec_clean_flags()[
                #[trigger] spec_walk(old(self)@, id, old(self)@.len())[j].0 as int],
    {
        proof {
            self.lemma_view();
        }
        let n = self.len();
        let ns = walk(self, id, n);
        self.set_clean(id, false);
        let mut i: usize = 0;
        while i < ns.len()
            invariant
                i <= ns@.len(),
                self@ == old(self)@,
                self.spec_root() == old(self).spec_root(),
                self.spec_inputs() == old(self).spec_inputs(),
                self.spec_cursors() == old(self).spec_cursors(),
                self.spec_clean_flags().len() == old(self).spec_clean_flags().len(),
                self.spec_clean_flags().len() == old(self)@.len(),
                old(self).has(id),
                forall|j: int| 0 <= j < ns@.len() ==> old(self).has(#[trigger] ns@[j]),
                !self.spec_clean_flags()[id.0 as int],
                forall|j: int| 0 <= j < i ==> !self.spec_clean_flags()[#[trigger] ns@[j].0 as int],
            decreases ns@.len() - i,
        {
            proof {
                self.lemma_view();
            }
            self.set_clean(ns[i], false);
            i = i + 1;
        }
    }

    /// There is a list of cursors for every node.
    pub proof fn lemma_cursors_len(&self)
        ensures
            self.spec_cursors().len() == self@.len(),
    {
        self.lemma_view();
    }

    /// There is one clean flag per node.
    pub proof fn lemma_clean_flags_len(&self)
        ensures
            self.spec_clean_flags().len() == self@.len(),
    {
        self.lemma_view();
    }

    /// The position of the cursor of iteration `it` over `id`'s children.
    pub(crate) fn index_slot(&self, id: NodeId, it: u32) -> (r: Option<isize>)
        requires
            self.has(id),
        ensures
            r == spec_slot(self.spec_cursors()[id.0 as int], it),
    {
        proof {
            self.lemma_view();
        }
        let cs = &self.arena[id.0].indexes;
        let mut i: usize = 0;
        proof {
            assert(cs@.skip(0) =~= cs@);
        }
        while i < cs.len()
            invariant
                i <= cs@.len(),
                cs@ == self.spec_cursors()[id.0 as int],
                spec_slot(cs@, it) == spec_slot(cs@.skip(i as int), it),
            decreases cs@.len() - i,
        {
            proof {
                assert(cs@.skip(i as int).drop_first() =~= cs@.skip(i + 1));
            }
            if cs[i].0 == it {
                return Some(cs[i].1);
            }
            i = i + 1;
        }
        None
    }

    /// Moves the cursor of iteration `it` over `id`'s children by `by`,
    /// leaving it where it is when that would overflow; sets it to `to`
    /// instead when `to` is given, adding it when absent. Other cursors and
    /// the nodes stay as they are.
    fn update_slot(&mut self, id: NodeId, it: u32, by: isize, to: Option<isize>)
        requires
            old(self).has(id),
        ensures
            final(self)@ == old(self)@,
            final(self).spec_root() == old(self).spec_root(),
            final(self).spec_inputs() == old(self).spec_inputs(),
            final(self).spec_clean_flags() == old(self).spec_clean_flags(),
            final(self).spec_cursors() == old(self).spec_cursors().update(
                id.0 as int,
                spec_set_slot(old(self).spec_cursors()[id.0 as int], it, by, to),
            ),
    {
        proof {
            self.lemma_view();
        }
        let ghost before = *self;
        let mut cs = Vec::new();
        std::mem::swap(&mut cs, &mut self.arena[id.0].indexes);
        proof {
            assert(self.arena@ =~= before.arena@.update(id.0 as int, self.arena@[id.0 as int]));
        }
        let ghost mid = *self;
        let ghost cs0 = cs@;
        let ghost mut k: int = 0;
        let mut i: usize = 0;
        let mut found = false;
        while i < cs.len()
            invariant
                i <= cs@.len(),
                cs@.len() == cs0.len(),
                !found ==> cs@ == cs0 && forall|q: int| 0 <= q < i ==> (#[trigger] cs0[q]).0 != it,
                found ==> 0 <= k < i && cs0[k].0 == it && (forall|q: int| 0 <= q < k ==> (#[trigger] cs0[q]).0 != it)
                    && cs@ == cs0.update(k, (it, spec_moved(cs0[k].1, by, to))),
            decreases cs@.len() - i,
        {
            let (slot, at) = cs[i];
            if slot == it && !found {
                found = true;
                proof {
                    k = i as int;
                }
                let moved = match to {
                    Some(t) => t,
                    None => match at.checked_add(by) {
                        Some(m) => m,
                        None => at,
                    },
                };
                cs.set(i, (slot, moved));
            }
            i = i + 1;
        }
        if !found {
            if let Some(t) = to {
                cs.push((it, t));
            }
        }
        proof {
            assert(*self == mid);
            if found {
                lemma_set_slot_at(cs0, it, by, to, k);
            } else {
                lemma_set_slot_absent(cs0, it, by, to);
            }
            assert(cs@ == spec_set_slot(cs0, it, by, to));
        }
        self.arena[id.0].indexes = cs;
        proof {
            assert(self.arena@ =~= before.arena@.update(id.0 as int, self.arena@[id.0 as int]));
            self.lemma_node_update(before, id.0 as int);
            assert(self@ =~= before@);
            assert(self.spec_clean_flags() =~= before.spec_clean_flags());
        }
    }

    /// Moves the cursor of iteration `it` over `id`'s children by `by`.
    pub(crate) fn bump_index_slot(&mut self, id: NodeId, it: u32, by: isize)
        requires
            old(self).has(id),
        ensures
            final(self)@ == old(self)@,
            final(self).spec_root() == old(self).spec_root(),
            final(self).spec_inputs() == old(self).spec_inputs(),
            final(self).spec_clean_flags() == old(self).spec_clean_flags(),
            final(self).spec_cursors() == old(self).spec_cursors().update(
                id.0 as int,
                spec_set_slot(old(self).spec_cursors()[id.0 as int], it, by, None),
            ),
    {
        self.update_slot(id, it, by, None);
    }

    /// Starts an iteration over `id`'s children: a fresh iteration number
    /// with its cursor at 0.
    pub(crate) fn get_iterator(&mut self, id: NodeId) -> (it: u32)
        requires
            old(self).has(id),
        ensures
            final(self)@ == old(self)@,
            final(self).spec_root() == old(self).spec_root(),
            final(self).spec_inputs() == old(self).spec_inputs(),
            final(self).spec_clean_flags() == old(self).spec_clean_flags(),
            final(self).spec_cursors() == old(self).spec_cursors().update(
                id.0 as int,
                spec_set_slot(old(self).spec_cursors()[id.0 as int], it, 0, Some(0)),
            ),
            spec_slot(final(self).spec_cursors()[id.0 as int], it) == Some(0isize),
    {
        proof {
            self.lemma_view();
        }
        let ghost before = *self;
        let it = self.arena[id.0].last_each.wrapping_add(1);
        self.arena[id.0].last_each = it;
        proof {
            self.lemma_node_update(before, id.0 as int);
            assert(self@ =~= before@);
            assert(self.spec_clean_flags() =~= before.spec_clean_flags());
            assert(self.spec_cursors() =~= before.spec_cursors());
        }
        self.update_slot(id, it, 0, Some(0));
        proof {
            lemma_set_slot_reads(before.spec_cursors()[id.0 as int], it, 0, 0);
        }
        it
    }

    /// Ends an iteration: drops its cursor.
    pub(crate) fn drop_index_slot(&mut self, id: NodeId, it: u32)
        requires
            old(self).has(id),
        ensures
            final(self)@ == old(self)@,
            final(self).spec_root() == old(self).spec_root(),
            final(self).spec_inputs() == old(self).spec_inputs(),
            final(self).spec_clean_flags() == old(self).spec_clean_flags(),
            final(self).spec_cursors() == old(self).spec_cursors().update(
                id.0 as int,
                old(self).spec_cursors()[id.0 as int].filter(|c: (u32, isize)| c.0 != it),
            ),
    {
        proof {
            self.lemma_view();
        }
        let ghost before = *self;
        let mut cs = Vec::new();
        std::mem::swap(&mut cs, &mut self.arena[id.0].indexes);
        proof {
            assert(self.arena@ =~= before.arena@.update(id.0 as int, self.arena@[id.0 as int]));
        }
        let ghost mid = *self;
        let ghost keep = |c: (u32, isize)| c.0 != it;
        let mut kept: Vec<(u32, isize)> = Vec::new();
        let mut i: usize = 0;
        proof {
            reveal(Seq::filter);
            assert(cs@.take(0).filter(keep) =~= Seq::<(u32, isize)>::empty());
        }
        while i < cs.len()
            invariant
                i <= cs@.len(),
                kept@ == cs@.take(i as int).filter(keep),
                keep == (|c: (u32, isize)| c.0 != it),
            decreases cs@.len() - i,
        {
            proof {
                reveal(Seq::filter);
                assert(cs@.take(i + 1).drop_last() =~= cs@.take(i as int));
            }
            if cs[i].0 != it {
                kept.push(cs[i]);
            }
            i = i + 1;
        }
        proof {
            assert(*self == mid);
            assert(cs@.take(cs@.len() as int) =~= cs@);
        }
        self.arena[id.0].indexes = kept;
        proof {
            assert(self.arena@ =~= before.arena@.update(id.0 as int, self.arena@[id.0 as int]));
            self.lemma_node_update(before, id.0 as int);
            assert(self@ =~= before@);
            assert(self.spec_clean_flags() =~= before.spec_clean_flags());
        }
    }
}

/// What removing a child changes: the child loses its parent, the parent
/// loses the child, and nothing else moves.
pub proof fn lemma_remove_child_facts(v: Seq<NodeView>, p: NodeId, c: NodeId, ignore: bool)
    requires
        spec_links_ok(v),
        p.0 < v.len(),
    ensures
        spec_remove_child(v, p, c, ignore).len() == v.len(),
        kids_of(v[p.0 as int]).contains(c) ==> spec_remove_child(v, p, c, ignore)[c.0 as int].parent is None,
        forall|x: int|
            0 <= x < v.len() && x != c.0 ==> (#[trigger] spec_remove_child(v, p, c, ignore)[x]).parent == v[x].parent,
        forall|x: int|
            0 <= x < v.len() && x != p.0 ==> kids_of(#[trigger] spec_remove_child(v, p, c, ignore)[x]) == kids_of(
                v[x],
            ),
        forall|x: int|
            0 <= x < v.len() ==> (#[trigger] spec_remove_child(v, p, c, ignore)[x]).kind == v[x].kind,
        forall|x: int|
            0 <= x < v.len() && v[x].nodes is Some ==> (#[trigger] spec_remove_child(v, p, c, ignore)[x]).nodes is Some,
{
    let ks = kids_of(v[p.0 as int]);
    if ks.contains(c) {
        let k = ks.index_of(c);
        assert(node_links_ok(v, p.0 as int));
        assert(ks[k] == c);
        assert(c.0 < v.len());
    }
}

/// Attaching a child keeps every container a container and makes the parent
/// one.
pub proof fn lemma_attach_at_nodes(v: Seq<NodeView>, p: NodeId, c: NodeId, at: int)
    requires
        p.0 < v.len(),
        c.0 < v.len(),
    ensures
        spec_attach_at(v, p, c, at).len() == v.len(),
        spec_attach_at(v, p, c, at)[p.0 as int].nodes is Some,
        forall|x: int|
            0 <= x < v.len() && v[x].nodes is Some ==> (#[trigger] spec_attach_at(v, p, c, at)[x]).nodes is Some,
        forall|x: int|
            0 <= x < v.len() ==> (#[trigger] spec_attach_at(v, p, c, at)[x]).kind == v[x].kind,
{
}

impl Tree {
    /// Detaches every child of a container. Live cursors are left alone.
    pub fn remove_all(&mut self, parent: NodeId)
        requires
            old(self).wf(),
            old(self).has(parent),
        ensures
            final(self).wf(),
            final(self)@.len() == old(self)@.len(),
            final(self).kids(parent).len() == 0,
            final(self)@[parent.0 as int].nodes is Some <==> old(self)@[parent.0 as int].nodes is Some,
            forall|j: int| 0 <= j < old(self).kids(parent).len() ==> final(self)@[(#[trigger] old(self).kids(parent)[j]).0 as int].parent is None,
            forall|x: int| 0 <= x < old(self)@.len() && x != parent.0 && !old(self).kids(parent).contains(NodeId(x as usize))
                ==> #[trigger] final(self)@[x] == old(self)@[x],
            final(self).spec_root() == old(self).spec_root(),
            final(self).spec_inputs() == old(self).spec_inputs(),
            final(self).spec_cursors() == old(self).spec_cursors(),
    {
        proof {
            self.lemma_view();
            assert(node_links_ok(self@, parent.0 as int));
        }
        let ghost ks0 = self.kids(parent);
        let mut n = self.children(parent).len();
        while n > 0
            invariant
                self.wf(),
                self.has(parent),
                self@.len() == old(self)@.len(),
                n == self.kids(parent).len(),
                n <= ks0.len(),
                self.kids(parent) == ks0.take(n as int),
                ks0 == old(self).kids(parent),
                ks0.no_duplicates(),
                forall|j: int| 0 <= j < ks0.len() ==> (#[trigger] ks0[j]).0 < old(self)@.len(),
                self@[parent.0 as int].nodes is Some <==> old(self)@[parent.0 as int].nodes is Some,
                forall|j: int| n <= j < ks0.len() ==> self@[(#[trigger] ks0[j]).0 as int].parent is None,
                forall|x: int| 0 <= x < old(self)@.len() && x != parent.0 && !ks0.contains(NodeId(x as usize))
                    ==> #[trigger] self@[x] == old(self)@[x],
                self.spec_root() == old(self).spec_root(),
                self.spec_inputs() == old(self).spec_inputs(),
                self.spec_cursors() == old(self).spec_cursors(),
            decreases n,
        {
            proof {
                self.lemma_view();
            }
            let ghost before = *self;
            let c = self.children(parent)[n - 1];
            proof {
                lemma_detach_links(before@, parent, c, n - 1);
                assert(c == ks0[n - 1]);
            }
            self.arena[c.0].parent = None;
            let ghost mid = *self;
            proof {
                self.lemma_node_update(before, c.0 as int);
            }
            let mut list = match self.arena[parent.0].nodes.take() {
                Some(v) => v,
                None => Vec::new(),
            };
            let ghost mid2 = *self;
            proof {
                assert(mid2.arena@ =~= mid.arena@.update(parent.0 as int, mid2.arena@[parent.0 as int]));
                assert(list@ == kids_of(mid@[parent.0 as int]));
            }
            list.pop();
            self.arena[parent.0].nodes = Some(list);
            proof {
                assert(self.arena@ =~= mid.arena@.update(parent.0 as int, self.arena@[parent.0 as int]));
                self.lemma_node_update(mid, parent.0 as int);
                assert(self.spec_cursors() =~= before.spec_cursors());
                assert(ks0.take(n as int).remove(n - 1) =~= ks0.take(n - 1));
                assert(self@ =~= spec_detach(before@, parent, c, n - 1));
                assert forall|j: int| n - 1 <= j < ks0.len() implies self@[(#[trigger] ks0[j]).0 as int].parent is None by {
                    if j > n - 1 {
                        assert(ks0[j] != c);
                    }
                }
                assert forall|x: int| 0 <= x < old(self)@.len() && x != parent.0 && !ks0.contains(NodeId(x as usize))
                    implies #[trigger] self@[x] == old(self)@[x] by {
                    assert(x != c.0) by {
                        if x == c.0 {
                            assert(ks0[n - 1] == NodeId(x as usize));
                        }
                    }
                }
            }
            n = n - 1;
        }
        self.mark_dirty(parent);
    }

    /// Clears `before` and `after`, and `between` unless `keep_between` is
    /// set, on a node and every node below it.
    pub fn clean_raws(&mut self, id: NodeId, keep_between: bool)
        requires
            old(self).wf(),
            old(self).has(id),
        ensures
            final(self).wf(),
            spec_same_links(old(self)@, final(self)@),
            forall|x: int| 0 <= x < old(self)@.len() ==> (#[trigger] final(self)@[x]).kind == old(self)@[x].kind,
            final(self)@[id.0 as int].raws.before is None,
            final(self)@[id.0 as int].raws.after is None,
            !keep_between ==> final(self)@[id.0 as int].raws.between is None,
            forall|j: int| 0 <= j < spec_walk(old(self)@, id, old(self)@.len()).len() ==> {
                let d = #[trigger] spec_walk(old(self)@, id, old(self)@.len())[j];
                &&& final(self)@[d.0 as int].raws.before is None
                &&& final(self)@[d.0 as int].raws.after is None
                &&& !keep_between ==> final(self)@[d.0 as int].raws.between is None
            },
            final(self).spec_root() == old(self).spec_root(),
            final(self).spec_inputs() == old(self).spec_inputs(),
    {
        proof {
            self.lemma_view();
        }
        let n = self.len();
        let ns = walk(self, id, n);
        let ghost v0 = self@;
        let r = self.raws_mut(id);
        r.before = None;
        r.after = None;
        if !keep_between {
            r.between = None;
        }
        proof {
            lemma_links_frame(v0, self@);
        }
        let mut i: usize = 0;
        while i < ns.len()
            invariant
                i <= ns@.len(),
                self.wf(),
                self.has(id),
                forall|j: int| 0 <= j < ns@.len() ==> self.has(#[trigger] ns@[j]),
                ns@ == spec_walk(v0, id, v0.len()),
                v0 == old(self)@,
                spec_same_links(old(self)@, self@),
                forall|x: int| 0 <= x < old(self)@.len() ==> (#[trigger] self@[x]).kind == old(self)@[x].kind,
                self@[id.0 as int].raws.before is None && self@[id.0 as int].raws.after is None && (
                !keep_between ==> self@[id.0 as int].raws.between is None),
                forall|j: int| 0 <= j < i ==> {
                    let d = #[trigger] ns@[j];
                    &&& self@[d.0 as int].raws.before is None
                    &&& self@[d.0 as int].raws.after is None
                    &&& !keep_between ==> self@[d.0 as int].raws.between is None
                },
                self.spec_root() == old(self).spec_root(),
                self.spec_inputs() == old(self).spec_inputs(),
            decreases ns@.len() - i,
        {
            let target = ns[i];
            let ghost s0 = self@;
            let r = self.raws_mut(target);
            r.before = None;
            r.after = None;
            if !keep_between {
                r.between = None;
            }
            proof {
                lemma_links_frame(s0, self@);
                assert(spec_same_links(old(self)@, self@));
            }
            i = i + 1;
        }
    }
}

/// The view after swapping children `i` and `j` of `p`.
pub open spec fn spec_swap_kids(v: Seq<NodeView>, p: NodeId, i: int, j: int) -> Seq<NodeView> {
    let ks = kids_of(v[p.0 as int]);
    v.update(p.0 as int, NodeView { nodes: Some(ks.update(i, ks[j]).update(j, ks[i])), ..v[p.0 as int] })
}

/// Swapping two children keeps the links consistent.
pub proof fn lemma_swap_links(v: Seq<NodeView>, p: NodeId, i: int, j: int)
    requires
        spec_links_ok(v),
        p.0 < v.len(),
        0 <= i < kids_of(v[p.0 as int]).len(),
        0 <= j < kids_of(v[p.0 as int]).len(),
    ensures
        spec_links_ok(spec_swap_kids(v, p, i, j)),
        spec_swap_kids(v, p, i, j).len() == v.len(),
{
    let w = spec_swap_kids(v, p, i, j);
    let ks = kids_of(v[p.0 as int]);
    let ws = ks.update(i, ks[j]).update(j, ks[i]);
    assert(node_links_ok(v, p.0 as int));
    assert forall|k: int| 0 <= k < ks.len() implies ws.contains(#[trigger] ks[k]) by {
        if k == i {
            assert(ws[j] == ks[i]);
        } else if k == j {
            assert(ws[i] == ks[j]);
        } else {
            assert(ws[k] == ks[k]);
        }
    }
    assert forall|x: int| 0 <= x < w.len() implies #[trigger] node_links_ok(w, x) by {
        assert(node_links_ok(v, x));
        if let Some(q) = w[x].parent {
            if q == p {
                let k = choose|k: int| 0 <= k < ks.len() && ks[k] == NodeId(x as usize);
                assert(ws.contains(ks[k]));
            }
        }
        if x == p.0 as int {
            assert forall|k: int| 0 <= k < ws.len() implies (#[trigger] ws[k]).0 < w.len() && w[ws[k].0 as int].parent
                == Some(NodeId(x as usize)) by {
                let kk = if k == i { j } else if k == j { i } else { k };
                assert(ws[k] == ks[kk]);
            }
            assert(ws.no_duplicates()) by {
                assert forall|a: int, b: int| 0 <= a < ws.len() && 0 <= b < ws.len() && a != b implies ws[a] != ws[b] by {
                    let aa = if a == i { j } else if a == j { i } else { a };
                    let bb = if b == i { j } else if b == j { i } else { b };
                    assert(ws[a] == ks[aa]);
                    assert(ws[b] == ks[bb]);
                }
            }
        }
    }
}

impl Tree {
    /// Swaps two children of `parent`.
    pub(crate) fn swap_children(&mut self, parent: NodeId, i: usize, j: usize)
        requires
            old(self).wf(),
            old(self).has(parent),
            i < old(self).kids(parent).len(),
            j < old(self).kids(parent).len(),
        ensures
            final(self).wf(),
            final(self)@ == spec_swap_kids(old(self)@, parent, i as int, j as int),
            final(self).spec_root() == old(self).spec_root(),
            final(self).spec_inputs() == old(self).spec_inputs(),
    {
        proof {
            self.lemma_view();
            lemma_swap_links(old(self)@, parent, i as int, j as int);
        }
        let ghost before = *self;
        let mut list = match self.arena[parent.0].nodes.take() {
            Some(v) => v,
            None => Vec::new(),
        };
        let ghost mid = *self;
        proof {
            assert(mid.arena@ =~= before.arena@.update(parent.0 as int, mid.arena@[parent.0 as int]));
            assert(list@ == kids_of(before@[parent.0 as int]));
        }
        let a = list[i];
        let b = list[j];
        list.set(i, b);
        list.set(j, a);
        self.arena[parent.0].nodes = Some(list);
        proof {
            assert(self.arena@ =~= before.arena@.update(parent.0 as int, self.arena@[parent.0 as int]));
            self.lemma_node_update(before, parent.0 as int);
            assert(self@ =~= spec_swap_kids(before@, parent, i as int, j as int));
        }
    }
}

/// Swapping two children keeps the same children.
pub proof fn lemma_swap_kids_contains(v: Seq<NodeView>, p: NodeId, i: usize, j: usize)
    requires
        p.0 < v.len(),
        i < kids_of(v[p.0 as int]).len(),
        j < kids_of(v[p.0 as int]).len(),
    ensures
        spec_swap_kids(v, p, i as int, j as int).len() == v.len(),
        kids_of(spec_swap_kids(v, p, i as int, j as int)[p.0 as int]).len() == kids_of(v[p.0 as int]).len(),
        forall|x: NodeId|
            kids_of(spec_swap_kids(v, p, i as int, j as int)[p.0 as int]).contains(x) <==> kids_of(
                v[p.0 as int],
            ).contains(x),
        forall|x: int| 0 <= x < v.len() && x != p.0 ==> #[trigger] spec_swap_kids(v, p, i as int, j as int)[x] == v[x],
{
    let ks = kids_of(v[p.0 as int]);
    let ws = kids_of(spec_swap_kids(v, p, i as int, j as int)[p.0 as int]);
    assert(ws == ks.update(i as int, ks[j as int]).update(j as int, ks[i as int]));
    assert forall|x: NodeId| ws.contains(x) <==> ks.contains(x) by {
        if ws.contains(x) {
            let q = choose|q: int| 0 <= q < ws.len() && ws[q] == x;
            let qq = if q == i { j as int } else if q == j { i as int } else { q };
            assert(ks[qq] == x);
        }
        if ks.contains(x) {
            let q = choose|q: int| 0 <= q < ks.len() && ks[q] == x;
            let qq = if q == i { j as int } else if q == j { i as int } else { q };
            assert(ws[qq] == x);
        }
    }
}

} // verus!
