//! Iterating over a tree while callbacks change it.
//!
//! Every iteration keeps a live cursor in the container it walks, which
//! insertions and removals shift, so each remaining child is still visited
//! exactly once however the callback edits the tree.

use vstd::prelude::*;

use crate::node::{NodeId, NodeKind};
use crate::tree::{kids_of, spec_slot, Tree};

verus! {

/// Whether a walk goes on or stops.
#[derive(Clone, Copy, Debug, PartialEq, Eq, Structural)]
pub enum Visit {
    /// Keep walking.
    Continue,
    /// Stop the walk.
    Break,
}

/// What a walk callback may return: `()` and `true` go on, `false` stops.
pub trait IntoVisit: Sized {
    /// The walk decision this value stands for.
    spec fn spec_visit(self) -> Visit;

    /// The walk decision this value stands for.
    fn into_visit(self) -> (v: Visit)
        ensures
            v == self.spec_visit(),
    ;
}

impl IntoVisit for () {
    open spec fn spec_visit(self) -> Visit {
        Visit::Continue
    }

    fn into_visit(self) -> (v: Visit)
        ensures
            v == Visit::Continue,
    {
        Visit::Continue
    }
}

impl IntoVisit for bool {
    open spec fn spec_visit(self) -> Visit {
        if self {
            Visit::Continue
        } else {
            Visit::Break
        }
    }

    fn into_visit(self) -> (v: Visit)
        ensures
            v == if self { Visit::Continue } else { Visit::Break },
    {
        if self {
            Visit::Continue
        } else {
            Visit::Break
        }
    }
}

impl IntoVisit for Visit {
    open spec fn spec_visit(self) -> Visit {
        self
    }

    fn into_visit(self) -> (v: Visit)
        ensures
            v == self,
    {
        self
    }
}

/// Which nodes of a walk the callback sees.
#[derive(Clone, Copy)]
pub enum Filter<'a> {
    /// Every node.
    All,
    /// Declarations.
    Decls,
    /// Declarations with this property.
    DeclsWithProp(&'a str),
    /// Rules.
    Rules,
    /// Rules with this selector.
    RulesWithSelector(&'a str),
    /// At-rules.
    AtRules,
    /// At-rules with this name.
    AtRulesWithName(&'a str),
    /// Comments.
    Comments,
}

/// Node kind `k` is one that filter `f` lets through.
pub open spec fn spec_passes(f: Filter, k: NodeKind) -> bool {
    match f {
        Filter::All => true,
        Filter::Decls => k is Decl,
        Filter::DeclsWithProp(p) => k matches NodeKind::Decl { prop, .. } && prop@ == p@,
        Filter::Rules => k is Rule,
        Filter::RulesWithSelector(s) => k matches NodeKind::Rule { selector } && selector@ == s@,
        Filter::AtRules => k is AtRule,
        Filter::AtRulesWithName(n) => k matches NodeKind::AtRule { name, .. } && name@ == n@,
        Filter::Comments => k is Comment,
    }
}

fn passes(f: Filter, k: &NodeKind) -> (b: bool)
    ensures
        b == spec_passes(f, *k),
{
    match f {
        Filter::All => true,
        Filter::Decls => match k {
            NodeKind::Decl { .. } => true,
            _ => false,
        },
        Filter::DeclsWithProp(p) => match k {
            NodeKind::Decl { prop, .. } => crate::node::str_eq(prop.as_str(), p),
            _ => false,
        },
        Filter::Rules => match k {
            NodeKind::Rule { .. } => true,
            _ => false,
        },
        Filter::RulesWithSelector(s) => match k {
            NodeKind::Rule { selector } => crate::node::str_eq(selector.as_str(), s),
            _ => false,
        },
        Filter::AtRules => match k {
            NodeKind::AtRule { .. } => true,
            _ => false,
        },
        Filter::AtRulesWithName(n) => match k {
            NodeKind::AtRule { name, .. } => crate::node::str_eq(name.as_str(), n),
            _ => false,
        },
        Filter::Comments => match k {
            NodeKind::Comment { .. } => true,
            _ => false,
        },
    }
}

/// A predicate of type `F` can answer `answer` for node `n` of `t`.
pub open spec fn spec_said<F: FnMut(&Tree, NodeId) -> bool>(t: &Tree, n: NodeId, answer: bool) -> bool {
    exists|g: F| #[trigger] call_ensures(g, (t, n), answer)
}

/// The predicate answered `answer` for the `j`-th of `ks` after answering
/// the opposite for each one before it.
pub open spec fn spec_answered<F: FnMut(&Tree, NodeId) -> bool>(t: &Tree, ks: Seq<NodeId>, j: int, answer: bool) -> bool {
    &&& spec_said::<F>(t, ks[j], answer)
    &&& forall|q: int| 0 <= q < j ==> spec_said::<F>(t, #[trigger] ks[q], !answer)
}

/// A callback of type `F` can answer `v` for node `n` of `t`.
pub open spec fn spec_visited<R: IntoVisit, F: FnMut(&Tree, NodeId) -> R>(t: &Tree, n: NodeId, v: Visit) -> bool {
    exists|g: F, x: R| #[trigger] call_ensures(g, (t, n), x) && x.spec_visit() == v
}

/// The `j`-th of `ns` lets the walk go on: it is filtered out, or the
/// callback answered to go on.
pub open spec fn spec_passed_on<R: IntoVisit, F: FnMut(&Tree, NodeId) -> R>(t: &Tree, ns: Seq<NodeId>, filter: Filter, j: int) -> bool {
    spec_passes(filter, t@[ns[j].0 as int].kind) ==> spec_visited::<R, F>(t, ns[j], Visit::Continue)
}

/// What a read-only walk over `ns` answers: `true` when every node that
/// the filter lets through was answered to go on, `false` when one was
/// answered to stop after all before it went on.
pub open spec fn spec_walk_answer<R: IntoVisit, F: FnMut(&Tree, NodeId) -> R>(t: &Tree, ns: Seq<NodeId>, filter: Filter, r: bool) -> bool {
    if r {
        forall|j: int| 0 <= j < ns.len() ==> #[trigger] spec_passed_on::<R, F>(t, ns, filter, j)
    } else {
        exists|j: int|
            0 <= j < ns.len() && spec_passes(filter, t@[ns[j].0 as int].kind) && spec_visited::<R, F>(t, ns[j], Visit::Break)
                && forall|q: int| 0 <= q < j ==> #[trigger] spec_passed_on::<R, F>(t, ns, filter, q)
    }
}

/// A callback of type `F` over children answers to stop, whatever it is
/// given.
pub open spec fn spec_each_always_stops<R: IntoVisit, F: FnMut(&mut Tree, NodeId, usize) -> R>() -> bool {
    forall|g: F, t: &mut Tree, n: NodeId, i: usize, x: R| #[trigger] call_ensures(g, (t, n, i), x) ==> x.spec_visit() == Visit::Break
}

/// A callback of type `F` over children can answer to stop.
pub open spec fn spec_each_may_stop<R: IntoVisit, F: FnMut(&mut Tree, NodeId, usize) -> R>() -> bool {
    exists|g: F, t: &mut Tree, n: NodeId, i: usize, x: R| #[trigger] call_ensures(g, (t, n, i), x) && x.spec_visit() == Visit::Break
}

/// A walk callback of type `F` answers to stop, whatever it is given.
pub open spec fn spec_walk_always_stops<R: IntoVisit, F: FnMut(&mut Tree, NodeId) -> R>() -> bool {
    forall|g: F, t: &mut Tree, n: NodeId, x: R| #[trigger] call_ensures(g, (t, n), x) ==> x.spec_visit() == Visit::Break
}

/// A walk callback of type `F` can answer to stop.
pub open spec fn spec_walk_may_stop<R: IntoVisit, F: FnMut(&mut Tree, NodeId) -> R>() -> bool {
    exists|g: F, t: &mut Tree, n: NodeId, x: R| #[trigger] call_ensures(g, (t, n), x) && x.spec_visit() == Visit::Break
}

/// A callback of type `F` over children can answer `v` for child `n` at
/// index `i`.
pub open spec fn spec_each_said<R: IntoVisit, F: FnMut(&mut Tree, NodeId, usize) -> R>(n: NodeId, i: int, v: Visit) -> bool {
    exists|g: F, t: &mut Tree, x: R| #[trigger] call_ensures(g, (t, n, i as usize), x) && x.spec_visit() == v
}

/// What an iteration over children `ks` answers: `true` when the callback
/// went on at each child, in order; `false` when it stopped at one after
/// going on at each before it.
pub open spec fn spec_each_answer<R: IntoVisit, F: FnMut(&mut Tree, NodeId, usize) -> R>(ks: Seq<NodeId>, r: bool) -> bool {
    if r {
        forall|j: int| 0 <= j < ks.len() ==> #[trigger] spec_each_said::<R, F>(ks[j], j, Visit::Continue)
    } else {
        exists|j: int|
            0 <= j < ks.len() && spec_each_said::<R, F>(ks[j], j, Visit::Break) && forall|q: int|
                0 <= q < j ==> #[trigger] spec_each_said::<R, F>(ks[q], q, Visit::Continue)
    }
}

impl Tree {
    /// Visits the children of `id` in order, handing each to `callback`
    /// with its index. Children inserted or removed by the callback shift
    /// the cursor, so every remaining child is still visited once. Returns
    /// `false` when the callback stopped the iteration.
    pub fn each<R: IntoVisit, F: FnMut(&mut Tree, NodeId, usize) -> R>(&mut self, id: NodeId, callback: F) -> (r: bool)
        requires
            old(self).has(id),
            forall|g: F, t: &mut Tree, n: NodeId, i: usize| call_requires(g, (t, n, i)),
        ensures
            old(self)@[id.0 as int].nodes is None ==> r && final(self)@ == old(self)@,
            !r ==> spec_each_may_stop::<R, F>(),
            old(self)@[id.0 as int].nodes is Some && old(self).kids(id).len() > 0 && spec_each_always_stops::<R, F>() ==> !r,
            (forall|g: F, t: &mut Tree, n: NodeId, i: usize, y: R| #[trigger] call_ensures(g, (t, n, i), y) ==> *final(t) == *t) && old(self)@[id.0 as int].nodes is Some && old(self).kids(id).len() < isize::MAX ==> spec_each_answer::<
                R,
                F,
            >(old(self).kids(id), r),
    {
        let mut callback = callback;
        if !self.is_container(id) {
            return true;
        }
        let it = self.get_iterator(id);
        let ghost first = *self;
        let mut completed = true;
        let mut fuel: usize = usize::MAX;
        let ghost mut c: int = 0;
        while fuel > 0
            invariant_except_break
                fuel < usize::MAX ==> !(old(self).kids(id).len() > 0 && spec_each_always_stops::<R, F>()),
                (forall|g: F, t: &mut Tree, n: NodeId, i: usize, y: R| #[trigger] call_ensures(g, (t, n, i), y) ==> *final(t) == *t) && old(self).kids(id).len() < isize::MAX ==> {
                    &&& self@ == old(self)@
                    &&& spec_slot(self.spec_cursors()[id.0 as int], it) == Some(c as isize)
                    &&& 0 <= c <= old(self).kids(id).len()
                    &&& c + fuel == usize::MAX
                    &&& completed
                    &&& forall|j: int| 0 <= j < c ==> #[trigger] spec_each_said::<R, F>(old(self).kids(id)[j], j, Visit::Continue)
                },
            invariant
                forall|g: F, t: &mut Tree, n: NodeId, i: usize| call_requires(g, (t, n, i)),
                !completed ==> spec_each_may_stop::<R, F>(),
                first@ == old(self)@,
                first.has(id),
                spec_slot(first.spec_cursors()[id.0 as int], it) == Some(0isize),
                fuel == usize::MAX ==> *self == first,
            ensures
                !completed ==> spec_each_may_stop::<R, F>(),
                old(self).kids(id).len() > 0 && spec_each_always_stops::<R, F>() ==> !completed,
                (forall|g: F, t: &mut Tree, n: NodeId, i: usize, y: R| #[trigger] call_ensures(g, (t, n, i), y) ==> *final(t) == *t) && old(self).kids(id).len() < isize::MAX ==> spec_each_answer::<R, F>(old(self).kids(id), completed),
            decreases fuel,
        {
            fuel = fuel - 1;
            if id.0 >= self.len() {
                break;
            }
            let index = match self.index_slot(id, it) {
                Some(i) => i,
                None => {
                    break;
                },
            };
            if index < 0 {
                self.bump_index_slot(id, it, 1);
                continue;
            }
            let at = index as usize;
            let kids = self.children(id);
            if at >= kids.len() {
                break;
            }
            let child = kids[at];
            let ghost g0 = callback;
            let ghost t0 = *self;
            let x = callback(self, child, at);
            let ghost x0 = x;
            assert((forall|g: F, t: &mut Tree, n: NodeId, i: usize, y: R| #[trigger] call_ensures(g, (t, n, i), y) ==> *final(t) == *t) ==> *self == t0);
            assert(spec_each_said::<R, F>(child, at as int, x0.spec_visit()));

            let v = x.into_visit();
            if v == Visit::Break {
                proof {
                    assert(x0.spec_visit() == Visit::Break);
                }
                completed = false;
                break;
            }
            let ghost t1 = *self;
            if id.0 < self.len() {
                self.bump_index_slot(id, it, 1);
            }
            proof {
                t1.lemma_cursors_len();
                if id.0 < t1@.len() && spec_slot(t1.spec_cursors()[id.0 as int], it) == Some(index) && index + 1 <= isize::MAX {
                    crate::tree::lemma_set_slot_moves(t1.spec_cursors()[id.0 as int], it, 1, index);
                }
                c = c + 1;
            }
        }
        if id.0 < self.len() {
            self.drop_index_slot(id, it);
        }
        completed
    }

    /// Visits the nodes below `id`, depth first and in order, handing those
    /// that `filter` lets through to `callback`. Mutation during the walk is
    /// tolerated as in [`Tree::each`]. Returns `false` when the callback
    /// stopped the walk.
    pub fn walk_filtered<R: IntoVisit, F: FnMut(&mut Tree, NodeId) -> R>(&mut self, id: NodeId, filter: Filter, callback: F) -> (r: bool)
        requires
            old(self).has(id),
            forall|g: F, t: &mut Tree, n: NodeId| call_requires(g, (t, n)),
        ensures
            old(self)@[id.0 as int].nodes is None ==> r && final(self)@ == old(self)@,
            !r ==> spec_walk_may_stop::<R, F>(),
            old(self).wf() && old(self)@[id.0 as int].nodes is Some && old(self).kids(id).len() > 0 && spec_passes(
                filter,
                old(self)@[old(self).kids(id)[0].0 as int].kind,
            ) && spec_walk_always_stops::<R, F>() ==> !r,
    {
        let mut callback = callback;
        if !self.is_container(id) {
            return true;
        }
        let first = self.get_iterator(id);
        let ghost start = *self;
        let mut stack: Vec<(NodeId, u32)> = vec![(id, first)];
        let mut fuel: usize = usize::MAX;
        while fuel > 0
            invariant_except_break
                fuel < usize::MAX ==> !(old(self).wf() && old(self).kids(id).len() > 0 && spec_passes(
                    filter,
                    old(self)@[old(self).kids(id)[0].0 as int].kind,
                ) && spec_walk_always_stops::<R, F>()),
            invariant
                forall|g: F, t: &mut Tree, n: NodeId| call_requires(g, (t, n)),
                old(self)@[id.0 as int].nodes is Some,
                start@ == old(self)@,
                start.has(id),
                spec_slot(start.spec_cursors()[id.0 as int], first) == Some(0isize),
                fuel == usize::MAX ==> *self == start && stack@ == seq![(id, first)],
            ensures
                !(old(self).wf() && old(self).kids(id).len() > 0 && spec_passes(
                    filter,
                    old(self)@[old(self).kids(id)[0].0 as int].kind,
                ) && spec_walk_always_stops::<R, F>()),
            decreases fuel,
        {
            fuel = fuel - 1;
            let top = stack.len();
            if top == 0 {
                break;
            }
            let (node, it) = stack[top - 1];
            if node.0 >= self.len() {
                stack.pop();
                continue;
            }
            let index = match self.index_slot(node, it) {
                Some(i) => i,
                None => 0,
            };
            if index < 0 {
                self.bump_index_slot(node, it, 1);
                continue;
            }
            let at = index as usize;
            let len = self.children(node).len();
            if at >= len {
                self.drop_index_slot(node, it);
                stack.pop();
                let top = stack.len();
                if top > 0 {
                    let (up, up_it) = stack[top - 1];
                    if up.0 < self.len() {
                        self.bump_index_slot(up, up_it, 1);
                    }
                }
                continue;
            }
            let child = self.children(node)[at];
            proof {
                if old(self).wf() && fuel + 1 == usize::MAX {
                    assert(crate::tree::node_links_ok(old(self)@, id.0 as int));
                    assert(kids_of(old(self)@[id.0 as int])[0].0 < old(self)@.len());
                }
            }
            if child.0 >= self.len() {
                self.bump_index_slot(node, it, 1);
                continue;
            }
            let ghost mut stopped = false;
            let seen = if passes(filter, self.kind(child)) {
                let x = callback(self, child);
                let ghost x0 = x;
                let v = x.into_visit();
                proof {
                    stopped = x0.spec_visit() == Visit::Break;
                }
                v
            } else {
                Visit::Continue
            };
            if seen == Visit::Break {
                proof {
                    assert(stopped);
                }
                let mut k: usize = 0;
                while k < stack.len()
                    decreases stack@.len() - k,
                {
                    let (opened, opened_it) = stack[k];
                    if opened.0 < self.len() {
                        self.drop_index_slot(opened, opened_it);
                    }
                    k = k + 1;
                }
                return false;
            }
            if child.0 < self.len() && self.is_container(child) {
                let child_it = self.get_iterator(child);
                stack.push((child, child_it));
            } else if node.0 < self.len() {
                self.bump_index_slot(node, it, 1);
            }
        }
        true
    }

    /// Visits the nodes below `id`, depth first; see
    /// [`Tree::walk_filtered`].
    pub fn walk<R: IntoVisit, F: FnMut(&mut Tree, NodeId) -> R>(&mut self, id: NodeId, callback: F) -> (r: bool)
        requires
            old(self).has(id),
            forall|g: F, t: &mut Tree, n: NodeId| call_requires(g, (t, n)),
        ensures
            old(self)@[id.0 as int].nodes is None ==> r && final(self)@ == old(self)@,
            !r ==> spec_walk_may_stop::<R, F>(),
            old(self).wf() && old(self).kids(id).len() > 0 && spec_walk_always_stops::<R, F>() ==> !r,
    {
        self.walk_filtered(id, Filter::All, callback)
    }
}

impl Tree {
    /// Walks the whole tree from the root; see [`Tree::walk_filtered`].
    pub fn walk_all<R: IntoVisit, F: FnMut(&mut Tree, NodeId) -> R>(&mut self, callback: F) -> (r: bool)
        requires
            old(self).wf(),
            forall|g: F, t: &mut Tree, n: NodeId| call_requires(g, (t, n)),
        ensures
            !r ==> spec_walk_may_stop::<R, F>(),
            old(self).kids(old(self).spec_root()).len() > 0 && spec_passes(
                Filter::All,
                old(self)@[old(self).kids(old(self).spec_root())[0].0 as int].kind,
            ) && spec_walk_always_stops::<R, F>() ==> !r,
    {
        let root = self.root();
        self.walk_filtered(root, Filter::All, callback)
    }

    /// Walks every declaration of the tree; see [`Tree::walk_filtered`].
    pub fn walk_decls<R: IntoVisit, F: FnMut(&mut Tree, NodeId) -> R>(&mut self, callback: F) -> (r: bool)
        requires
            old(self).wf(),
            forall|g: F, t: &mut Tree, n: NodeId| call_requires(g, (t, n)),
        ensures
            !r ==> spec_walk_may_stop::<R, F>(),
            old(self).kids(old(self).spec_root()).len() > 0 && spec_passes(
                Filter::Decls,
                old(self)@[old(self).kids(old(self).spec_root())[0].0 as int].kind,
            ) && spec_walk_always_stops::<R, F>() ==> !r,
    {
        let root = self.root();
        self.walk_filtered(root, Filter::Decls, callback)
    }

    /// Walks every rule of the tree; see [`Tree::walk_filtered`].
    pub fn walk_rules<R: IntoVisit, F: FnMut(&mut Tree, NodeId) -> R>(&mut self, callback: F) -> (r: bool)
        requires
            old(self).wf(),
            forall|g: F, t: &mut Tree, n: NodeId| call_requires(g, (t, n)),
        ensures
            !r ==> spec_walk_may_stop::<R, F>(),
            old(self).kids(old(self).spec_root()).len() > 0 && spec_passes(
                Filter::Rules,
                old(self)@[old(self).kids(old(self).spec_root())[0].0 as int].kind,
            ) && spec_walk_always_stops::<R, F>() ==> !r,
    {
        let root = self.root();
        self.walk_filtered(root, Filter::Rules, callback)
    }

    /// Walks every at-rule of the tree; see [`Tree::walk_filtered`].
    pub fn walk_at_rules<R: IntoVisit, F: FnMut(&mut Tree, NodeId) -> R>(&mut self, callback: F) -> (r: bool)
        requires
            old(self).wf(),
            forall|g: F, t: &mut Tree, n: NodeId| call_requires(g, (t, n)),
        ensures
            !r ==> spec_walk_may_stop::<R, F>(),
            old(self).kids(old(self).spec_root()).len() > 0 && spec_passes(
                Filter::AtRules,
                old(self)@[old(self).kids(old(self).spec_root())[0].0 as int].kind,
            ) && spec_walk_always_stops::<R, F>() ==> !r,
    {
        let root = self.root();
        self.walk_filtered(root, Filter::AtRules, callback)
    }

    /// Walks every comment of the tree; see [`Tree::walk_filtered`].
    pub fn walk_comments<R: IntoVisit, F: FnMut(&mut Tree, NodeId) -> R>(&mut self, callback: F) -> (r: bool)
        requires
            old(self).wf(),
            forall|g: F, t: &mut Tree, n: NodeId| call_requires(g, (t, n)),
        ensures
            !r ==> spec_walk_may_stop::<R, F>(),
            old(self).kids(old(self).spec_root()).len() > 0 && spec_passes(
                Filter::Comments,
                old(self)@[old(self).kids(old(self).spec_root())[0].0 as int].kind,
            ) && spec_walk_always_stops::<R, F>() ==> !r,
    {
        let root = self.root();
        self.walk_filtered(root, Filter::Comments, callback)
    }

    /// Walks every declaration with property `prop`; see [`Tree::walk_filtered`].
    pub fn walk_decls_with_prop<R: IntoVisit, F: FnMut(&mut Tree, NodeId) -> R>(&mut self, prop: &str, callback: F) -> (r: bool)
        requires
            old(self).wf(),
            forall|g: F, t: &mut Tree, n: NodeId| call_requires(g, (t, n)),
        ensures
            !r ==> spec_walk_may_stop::<R, F>(),
            old(self).kids(old(self).spec_root()).len() > 0 && spec_passes(
                Filter::DeclsWithProp(prop),
                old(self)@[old(self).kids(old(self).spec_root())[0].0 as int].kind,
            ) && spec_walk_always_stops::<R, F>() ==> !r,
    {
        let root = self.root();
        self.walk_filtered(root, Filter::DeclsWithProp(prop), callback)
    }

    /// Walks every rule with selector `selector`; see [`Tree::walk_filtered`].
    pub fn walk_rules_with_selector<R: IntoVisit, F: FnMut(&mut Tree, NodeId) -> R>(&mut self, selector: &str, callback: F) -> (r: bool)
        requires
            old(self).wf(),
            forall|g: F, t: &mut Tree, n: NodeId| call_requires(g, (t, n)),
        ensures
            !r ==> spec_walk_may_stop::<R, F>(),
            old(self).kids(old(self).spec_root()).len() > 0 && spec_passes(
                Filter::RulesWithSelector(selector),
                old(self)@[old(self).kids(old(self).spec_root())[0].0 as int].kind,
            ) && spec_walk_always_stops::<R, F>() ==> !r,
    {
        let root = self.root();
        self.walk_filtered(root, Filter::RulesWithSelector(selector), callback)
    }

    /// Walks every at-rule named `name`; see [`Tree::walk_filtered`].
    pub fn walk_at_rules_with_name<R: IntoVisit, F: FnMut(&mut Tree, NodeId) -> R>(&mut self, name: &str, callback: F) -> (r: bool)
        requires
            old(self).wf(),
            forall|g: F, t: &mut Tree, n: NodeId| call_requires(g, (t, n)),
        ensures
            !r ==> spec_walk_may_stop::<R, F>(),
            old(self).kids(old(self).spec_root()).len() > 0 && spec_passes(
                Filter::AtRulesWithName(name),
                old(self)@[old(self).kids(old(self).spec_root())[0].0 as int].kind,
            ) && spec_walk_always_stops::<R, F>() ==> !r,
    {
        let root = self.root();
        self.walk_filtered(root, Filter::AtRulesWithName(name), callback)
    }

    /// Whether `predicate` holds of every child of `id`, asked in order until
    /// one fails.
    pub fn every<F: FnMut(&Tree, NodeId) -> bool>(&self, id: NodeId, predicate: F) -> (r: bool)
        requires
            self.has(id),
            forall|g: F, t: &Tree, n: NodeId| call_requires(g, (t, n)),
        ensures
            kids_of(self@[id.0 as int]).len() == 0 ==> r,
            r ==> forall|j: int|
                0 <= j < kids_of(self@[id.0 as int]).len() ==> spec_said::<F>(self, #[trigger] kids_of(self@[id.0 as int])[j], true),
            !r ==> exists|j: int|
                0 <= j < kids_of(self@[id.0 as int]).len() && spec_answered::<F>(self, kids_of(self@[id.0 as int]), j, false),
    {
        let mut predicate = predicate;
        let kids = self.children(id);
        let mut i: usize = 0;
        while i < kids.len()
            invariant
                i <= kids@.len(),
                self.has(id),
                kids@ == kids_of(self@[id.0 as int]),
                forall|g: F, t: &Tree, n: NodeId| call_requires(g, (t, n)),
                forall|j: int| 0 <= j < i ==> spec_said::<F>(self, #[trigger] kids@[j], true),
            decreases kids@.len() - i,
        {
            let ghost g0 = predicate;
            let b = predicate(self, kids[i]);
            if !b {
                proof {
                    assert(call_ensures(g0, (self, kids@[i as int]), false));
                    assert(spec_said::<F>(self, kids@[i as int], false));
                    assert(spec_answered::<F>(self, kids@, i as int, false));
                }
                return false;
            }
            proof {
                assert(call_ensures(g0, (self, kids@[i as int]), true));
                    assert(spec_said::<F>(self, kids@[i as int], true));
            }
            i = i + 1;
        }
        true
    }

    /// Whether `predicate` holds of some child of `id`, asked in order until
    /// one does.
    pub fn some<F: FnMut(&Tree, NodeId) -> bool>(&self, id: NodeId, predicate: F) -> (r: bool)
        requires
            self.has(id),
            forall|g: F, t: &Tree, n: NodeId| call_requires(g, (t, n)),
        ensures
            kids_of(self@[id.0 as int]).len() == 0 ==> !r,
            !r ==> forall|j: int|
                0 <= j < kids_of(self@[id.0 as int]).len() ==> spec_said::<F>(self, #[trigger] kids_of(self@[id.0 as int])[j], false),
            r ==> exists|j: int|
                0 <= j < kids_of(self@[id.0 as int]).len() && spec_answered::<F>(self, kids_of(self@[id.0 as int]), j, true),
    {
        let mut predicate = predicate;
        let kids = self.children(id);
        let mut i: usize = 0;
        while i < kids.len()
            invariant
                i <= kids@.len(),
                self.has(id),
                kids@ == kids_of(self@[id.0 as int]),
                forall|g: F, t: &Tree, n: NodeId| call_requires(g, (t, n)),
                forall|j: int| 0 <= j < i ==> spec_said::<F>(self, #[trigger] kids@[j], false),
            decreases kids@.len() - i,
        {
            let ghost g0 = predicate;
            let b = predicate(self, kids[i]);
            if b {
                proof {
                    assert(call_ensures(g0, (self, kids@[i as int]), true));
                    assert(spec_said::<F>(self, kids@[i as int], true));
                    assert(spec_answered::<F>(self, kids@, i as int, true));
                }
                return true;
            }
            proof {
                assert(call_ensures(g0, (self, kids@[i as int]), false));
                    assert(spec_said::<F>(self, kids@[i as int], false));
            }
            i = i + 1;
        }
        false
    }

    /// Visits the nodes below `id`, depth first and in order, without
    /// changing the tree; those `filter` lets through go to `callback`.
    /// Returns `false` when the callback stopped the walk.
    pub fn walk_ref_filtered<R: IntoVisit, F: FnMut(&Tree, NodeId) -> R>(&self, id: NodeId, filter: Filter, callback: F) -> (r: bool)
        requires
            self.wf(),
            self.has(id),
            forall|g: F, t: &Tree, n: NodeId| call_requires(g, (t, n)),
        ensures
            crate::tree::spec_walk(self@, id, self@.len()).len() == 0 ==> r,
            spec_walk_answer::<R, F>(self, crate::tree::spec_walk(self@, id, self@.len()), filter, r),
    {
        let mut callback = callback;
        let ns = crate::tree::walk(self, id, self.len());
        let mut i: usize = 0;
        while i < ns.len()
            invariant
                i <= ns@.len(),
                self.wf(),
                ns@ == crate::tree::spec_walk(self@, id, self@.len()),
                forall|j: int| 0 <= j < ns@.len() ==> self.has(#[trigger] ns@[j]),
                forall|g: F, t: &Tree, n: NodeId| call_requires(g, (t, n)),
                forall|j: int| 0 <= j < i ==> #[trigger] spec_passed_on::<R, F>(self, ns@, filter, j),
            decreases ns@.len() - i,
        {
            let n = ns[i];
            if passes(filter, self.kind(n)) {
                let ghost g0 = callback;
                let x = callback(self, n);
                let ghost x0 = x;
                let v = x.into_visit();
                proof {
                    assert(call_ensures(g0, (self, n), x0));
                }
                if v == Visit::Break {
                    proof {
                        assert(spec_visited::<R, F>(self, ns@[i as int], Visit::Break));
                    }
                    return false;
                }
                proof {
                    assert(spec_visited::<R, F>(self, ns@[i as int], Visit::Continue));
                }
            }
            proof {
                assert(spec_passed_on::<R, F>(self, ns@, filter, i as int));
            }
            i = i + 1;
        }
        true
    }

    /// Visits the nodes below `id` without changing the tree; see
    /// [`Tree::walk_ref_filtered`].
    pub fn walk_ref<R: IntoVisit, F: FnMut(&Tree, NodeId) -> R>(&self, id: NodeId, callback: F) -> (r: bool)
        requires
            self.wf(),
            self.has(id),
            forall|g: F, t: &Tree, n: NodeId| call_requires(g, (t, n)),
        ensures
            spec_walk_answer::<R, F>(self, crate::tree::spec_walk(self@, id, self@.len()), Filter::All, r),
    {
        self.walk_ref_filtered(id, Filter::All, callback)
    }

    /// Visits the declarations below `id` without changing the tree.
    pub fn walk_decls_ref<R: IntoVisit, F: FnMut(&Tree, NodeId) -> R>(&self, id: NodeId, callback: F) -> (r: bool)
        requires
            self.wf(),
            self.has(id),
            forall|g: F, t: &Tree, n: NodeId| call_requires(g, (t, n)),
        ensures
            spec_walk_answer::<R, F>(self, crate::tree::spec_walk(self@, id, self@.len()), Filter::Decls, r),
    {
        self.walk_ref_filtered(id, Filter::Decls, callback)
    }

    /// Visits the comments below `id` without changing the tree.
    pub fn walk_comments_ref<R: IntoVisit, F: FnMut(&Tree, NodeId) -> R>(&self, id: NodeId, callback: F) -> (r: bool)
        requires
            self.wf(),
            self.has(id),
            forall|g: F, t: &Tree, n: NodeId| call_requires(g, (t, n)),
        ensures
            spec_walk_answer::<R, F>(self, crate::tree::spec_walk(self@, id, self@.len()), Filter::Comments, r),
    {
        self.walk_ref_filtered(id, Filter::Comments, callback)
    }
}

/// A declaration whose value `replace_values` rewrites: its property is
/// among `props` (any property when there is no list) and its value holds
/// `pattern`.
pub open spec fn spec_replaceable(k: NodeKind, pattern: Seq<char>, props: Option<Seq<Seq<char>>>) -> bool {
    &&& k matches NodeKind::Decl { prop, value, .. } && (match props {
        Some(ps) => ps.contains(prop@),
        None => true,
    }) && crate::text::spec_find_from(value@, pattern, 0) is Some
}

/// The views of a list of string slices.
pub open spec fn spec_strs(ps: Seq<&str>) -> Seq<Seq<char>> {
    ps.map_values(|p: &str| p@)
}

fn in_list(props: &[&str], prop: &str) -> (b: bool)
    ensures
        b == spec_strs(props@).contains(prop@),
{
    let mut i: usize = 0;
    while i < props.len()
        invariant
            i <= props@.len(),
            forall|j: int| 0 <= j < i ==> props@[j]@ != prop@,
        decreases props@.len() - i,
    {
        if crate::node::str_eq(props[i], prop) {
            proof {
                assert(spec_strs(props@)[i as int] == prop@);
            }
            return true;
        }
        i = i + 1;
    }
    proof {
        if spec_strs(props@).contains(prop@) {
            let j = choose|j: int| 0 <= j < spec_strs(props@).len() && spec_strs(props@)[j] == prop@;
            assert(props@[j]@ == prop@);
        }
    }
    false
}

impl Tree {
    /// In every declaration of the tree whose property is among `props` (any,
    /// when `None`) and whose value holds `pattern`, replaces each
    /// occurrence of `pattern` by `replacement`.
    pub fn replace_values(&mut self, pattern: &str, props: Option<&[&str]>, replacement: &str)
        requires
            old(self).wf(),
        ensures
            final(self).wf(),
            final(self).spec_root() == old(self).spec_root(),
            final(self).spec_inputs() == old(self).spec_inputs(),
            final(self)@.len() == old(self)@.len(),
            forall|x: int|
                0 <= x < old(self)@.len() ==> {
                    let walked = crate::tree::spec_walk(old(self)@, old(self).spec_root(), old(self)@.len()).contains(
                        NodeId(x as usize),
                    );
                    let ps = match props {
                        Some(p) => Some(spec_strs(p@)),
                        None => None,
                    };
                    if walked && spec_replaceable(old(self)@[x].kind, pattern@, ps) {
                        &&& #[trigger] final(self)@[x].kind matches NodeKind::Decl { prop: p2, value: v2, important: i2 }
                        &&& old(self)@[x].kind matches NodeKind::Decl { prop, value, important }
                        &&& p2 == prop && i2 == important
                        &&& v2@ == crate::text::spec_replace(value@, pattern@, replacement@)
                        &&& final(self)@[x].raws == old(self)@[x].raws
                        &&& final(self)@[x].parent == old(self)@[x].parent
                        &&& final(self)@[x].nodes == old(self)@[x].nodes
                    } else {
                        final(self)@[x] == old(self)@[x]
                    }
                },
    {
        let root = self.root();
        let n = self.len();
        let ns = crate::tree::walk(self, root, n);
        let ghost ps = match props {
            Some(p) => Some(spec_strs(p@)),
            None => None,
        };
        let ghost walked = ns@;
        let mut seen: Vec<bool> = Vec::new();
        let mut k: usize = 0;
        while k < n
            invariant
                k <= n,
                seen@.len() == k,
                forall|j: int| 0 <= j < k ==> !seen@[j],
            decreases n - k,
        {
            seen.push(false);
            k = k + 1;
        }
        let mut i: usize = 0;
        while i < ns.len()
            invariant
                i <= ns@.len(),
                ns@ == walked,
                walked == crate::tree::spec_walk(old(self)@, old(self).spec_root(), old(self)@.len()),
                n == old(self)@.len(),
                seen@.len() == n,
                self.wf(),
                self.spec_root() == old(self).spec_root(),
                self.spec_inputs() == old(self).spec_inputs(),
                self@.len() == n,
                ps == match props {
                    Some(p) => Some(spec_strs(p@)),
                    None => None,
                },
                forall|j: int| 0 <= j < ns@.len() ==> old(self).has(#[trigger] ns@[j]),
                forall|x: int| 0 <= x < n ==> (seen@[x] <==> ns@.take(i as int).contains(NodeId(x as usize))),
                forall|x: int|
                    0 <= x < n ==> {
                        if seen@[x] && spec_replaceable(old(self)@[x].kind, pattern@, ps) {
                            &&& #[trigger] self@[x].kind matches NodeKind::Decl { prop: p2, value: v2, important: i2 }
                            &&& old(self)@[x].kind matches NodeKind::Decl { prop, value, important }
                            &&& p2 == prop && i2 == important
                            &&& v2@ == crate::text::spec_replace(value@, pattern@, replacement@)
                            &&& self@[x].raws == old(self)@[x].raws
                            &&& self@[x].parent == old(self)@[x].parent
                            &&& self@[x].nodes == old(self)@[x].nodes
                        } else {
                            self@[x] == old(self)@[x]
                        }
                    },
            decreases ns@.len() - i,
        {
            let d = ns[i];
            let ghost s0 = self@;
            let ghost seen0 = seen@;
            proof {
                assert(ns@.take(i + 1) == ns@.take(i as int).push(d));
            }
            if !seen[d.0] {
                seen.set(d.0, true);
                let eligible = match self.kind(d) {
                    NodeKind::Decl { prop, value, .. } => {
                        let prop_ok = match props {
                            Some(p) => in_list(p, prop.as_str()),
                            None => true,
                        };
                        let chars = crate::text::chars_of(value.as_str());
                        let pat = crate::text::chars_of(pattern);
                        prop_ok && crate::text::find(&chars, &pat, 0).is_some()
                    },
                    _ => false,
                };
                proof {
                    assert(self@[d.0 as int] == old(self)@[d.0 as int]);
                    assert(eligible == spec_replaceable(old(self)@[d.0 as int].kind, pattern@, ps));
                }
                if eligible {
                    let replaced = match self.value(d) {
                        Some(v) => crate::text::replace(v, pattern, replacement),
                        None => String::new(),
                    };
                    self.set_value(d, replaced);
                }
            }
            proof {
                assert forall|x: int| 0 <= x < n implies (seen@[x] <==> ns@.take(i + 1).contains(NodeId(x as usize))) by {
                    let t1 = ns@.take(i + 1);
                    let t0 = ns@.take(i as int);
                    assert(t1[i as int] == d);
                    if x != d.0 {
                        assert(seen@[x] == seen0[x]);
                    }
                    if t1.contains(NodeId(x as usize)) && x != d.0 {
                        let q = choose|q: int| 0 <= q < t1.len() && #[trigger] t1[q] == NodeId(x as usize);
                        assert(t0[q] == NodeId(x as usize));
                    }
                    if t0.contains(NodeId(x as usize)) {
                        let q = choose|q: int| 0 <= q < t0.len() && #[trigger] t0[q] == NodeId(x as usize);
                        assert(t1[q] == NodeId(x as usize));
                    }
                }
            }
            i = i + 1;
        }
        proof {
            assert(ns@.take(ns@.len() as int) =~= ns@);
        }
    }
}

} // verus!
