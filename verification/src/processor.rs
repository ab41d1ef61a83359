//! Plugins and the runner that applies them: `once` hooks see the whole
//! tree, node hooks are driven by a loop over dirty nodes, so a node a plugin
//! changes is visited again.

use vstd::prelude::*;

use crate::error::CssSyntaxError;
use crate::map_generator::{generate, spec_inputs_wf, spec_sources_ok, spec_wants_map};
use crate::text::to_owned_string;
use crate::node::{NodeId, NodeKind};
use crate::options::{Annotation, MapOptions, MapSetting, ProcessOptions};
use crate::result::{PluginContext, Result as ProcessResult};
use crate::source_map::SourceMapGenerator;
use crate::tree::Tree;

verus! {

/// How many times the visitor loop may re-walk a tree before giving up.
pub const MAX_ROUNDS: usize = 100;

/// A CSS transform. Every hook does nothing unless the plugin gives it a
/// body. A hook receives a consistent tree whose inputs are consistent and
/// leaves it so, as every public operation of [`Tree`] does.
pub trait Plugin {
    /// The plugin's name, used in warnings and error messages.
    fn name(&self) -> &str;

    /// Runs once, before any node visitor.
    fn once(&self, tree: &mut Tree, ctx: &mut PluginContext) -> (r: Result<(), CssSyntaxError>)
        requires
            old(tree).wf(),
            spec_inputs_wf(*old(tree)),
        ensures
            final(tree).wf(),
            spec_inputs_wf(*final(tree)),
    {
        Ok(())
    }

    /// Runs once, after every node visitor has settled.
    fn once_exit(&self, tree: &mut Tree, ctx: &mut PluginContext) -> (r: Result<(), CssSyntaxError>)
        requires
            old(tree).wf(),
            spec_inputs_wf(*old(tree)),
        ensures
            final(tree).wf(),
            spec_inputs_wf(*final(tree)),
    {
        Ok(())
    }

    /// Visits the root node.
    fn root(&self, tree: &mut Tree, root: NodeId, ctx: &mut PluginContext) -> (r: Result<(), CssSyntaxError>)
        requires
            old(tree).wf(),
            spec_inputs_wf(*old(tree)),
            old(tree).has(root),
        ensures
            final(tree).wf(),
            spec_inputs_wf(*final(tree)),
    {
        Ok(())
    }

    /// Visits a rule.
    fn rule(&self, tree: &mut Tree, rule: NodeId, ctx: &mut PluginContext) -> (r: Result<(), CssSyntaxError>)
        requires
            old(tree).wf(),
            spec_inputs_wf(*old(tree)),
            old(tree).has(rule),
        ensures
            final(tree).wf(),
            spec_inputs_wf(*final(tree)),
    {
        Ok(())
    }

    /// Visits an at-rule.
    fn at_rule(&self, tree: &mut Tree, at_rule: NodeId, ctx: &mut PluginContext) -> (r: Result<(), CssSyntaxError>)
        requires
            old(tree).wf(),
            spec_inputs_wf(*old(tree)),
            old(tree).has(at_rule),
        ensures
            final(tree).wf(),
            spec_inputs_wf(*final(tree)),
    {
        Ok(())
    }

    /// Visits a declaration.
    fn decl(&self, tree: &mut Tree, decl: NodeId, ctx: &mut PluginContext) -> (r: Result<(), CssSyntaxError>)
        requires
            old(tree).wf(),
            spec_inputs_wf(*old(tree)),
            old(tree).has(decl),
        ensures
            final(tree).wf(),
            spec_inputs_wf(*final(tree)),
    {
        Ok(())
    }

    /// Visits a comment.
    fn comment(&self, tree: &mut Tree, comment: NodeId, ctx: &mut PluginContext) -> (r: Result<(), CssSyntaxError>)
        requires
            old(tree).wf(),
            spec_inputs_wf(*old(tree)),
            old(tree).has(comment),
        ensures
            final(tree).wf(),
            spec_inputs_wf(*final(tree)),
    {
        Ok(())
    }
}

/// The nodes of `ns` that are not clean, in order.
pub open spec fn spec_dirty(flags: Seq<bool>, ns: Seq<NodeId>) -> Seq<NodeId>
    decreases ns.len(),
{
    if ns.len() == 0 {
        Seq::empty()
    } else {
        let rest = spec_dirty(flags, ns.drop_last());
        if flags[ns.last().0 as int] {
            rest
        } else {
            rest.push(ns.last())
        }
    }
}

/// Nodes needing a visit, in document order, root first.
pub fn collect_dirty(tree: &Tree) -> (r: Vec<NodeId>)
    requires
        tree.wf(),
    ensures
        r@ == spec_dirty(
            tree.spec_clean_flags(),
            seq![tree.spec_root()] + crate::tree::spec_walk(tree@, tree.spec_root(), tree@.len() as nat),
        ),
        forall|i: int| 0 <= i < r@.len() ==> tree.has(#[trigger] r@[i]),
{
    let root = tree.root();
    let below = crate::tree::walk(tree, root, tree.len());
    let ghost all = seq![root] + below@;
    let mut out: Vec<NodeId> = Vec::new();
    proof {
        tree.lemma_clean_flags_len();
        assert(all.take(1).drop_last() =~= all.take(0));
        assert(all.take(0) =~= Seq::<NodeId>::empty());
    }
    if !tree.is_clean(root) {
        out.push(root);
    }
    proof {
        assert(all.take(1).last() == root);
        assert(spec_dirty(tree.spec_clean_flags(), all.take(0)) == Seq::<NodeId>::empty());
        assert(out@ =~= spec_dirty(tree.spec_clean_flags(), all.take(1)));
    }
    let mut k: usize = 0;
    while k < below.len()
        invariant
            k <= below@.len(),
            all == seq![root] + below@,
            tree.wf(),
            root == tree.spec_root(),
            tree.spec_clean_flags().len() == tree@.len(),
            forall|j: int| 0 <= j < below@.len() ==> tree.has(#[trigger] below@[j]),
            out@ == spec_dirty(tree.spec_clean_flags(), all.take(k + 1)),
            forall|i: int| 0 <= i < out@.len() ==> tree.has(#[trigger] out@[i]),
        decreases below@.len() - k,
    {
        let n = below[k];
        proof {
            assert(all[k + 1] == n);
            assert(all.take(k + 2).drop_last() =~= all.take(k + 1));
            assert(all.take(k + 2).last() == n);
        }
        if !tree.is_clean(n) {
            out.push(n);
        }
        k = k + 1;
    }
    proof {
        assert(all.take(all.len() as int) =~= all);
    }
    out
}

/// A node other than the root that has no parent.
fn is_detached(tree: &Tree, id: NodeId) -> (r: bool)
    requires
        tree.has(id),
    ensures
        r == (id != tree.spec_root() && tree@[id.0 as int].parent is None),
{
    id != tree.root() && tree.parent(id).is_none()
}

/// Which hook visits a node of this kind: root, rule, at-rule, declaration,
/// comment.
fn hook_of(kind: &NodeKind) -> (r: u8)
    ensures
        r < 5,
{
    match kind {
        NodeKind::Root | NodeKind::Document => 0,
        NodeKind::Rule { .. } => 1,
        NodeKind::AtRule { .. } => 2,
        NodeKind::Decl { .. } => 3,
        NodeKind::Comment { .. } => 4,
    }
}

/// The message of the error for a tree that never settles.
pub open spec fn spec_unstable_reason() -> Seq<char> {
    "Unstable CSS AST: plugins kept changing nodes after 100 visitor rounds"@
}

/// Runs a list of plugins over CSS.
pub struct Processor {
    plugins: Vec<Box<dyn Plugin>>,
}

impl Processor {
    /// How many plugins run.
    pub closed spec fn spec_len(&self) -> nat {
        self.plugins@.len()
    }

    /// An empty processor.
    pub fn new() -> (p: Self)
        ensures
            p.spec_len() == 0,
    {
        Processor { plugins: Vec::new() }
    }

    /// Adds a plugin, which runs after the ones already added.
    pub fn with<P: Plugin + 'static>(self, plugin: P) -> (p: Self) {
        let mut me = self;
        let b: Box<dyn Plugin> = Box::new(plugin);
        me.plugins.push(b);
        me
    }

    /// Adds a boxed plugin.
    pub fn add(&mut self, plugin: Box<dyn Plugin>) -> (r: &mut Self) {
        self.plugins.push(plugin);
        self
    }

    /// Names of the plugins, in run order.
    pub fn plugin_names(&self) -> (r: Vec<&str>)
        ensures
            r@.len() == self.spec_len(),
    {
        let mut out: Vec<&str> = Vec::new();
        let mut i: usize = 0;
        while i < self.plugins.len()
            invariant
                i <= self.plugins@.len(),
                out@.len() == i,
            decreases self.plugins@.len() - i,
        {
            out.push(self.plugins[i].name());
            i = i + 1;
        }
        out
    }
}

/// Every node's source names an input of the tree, at 1-based columns.
pub fn sources_ok(tree: &Tree) -> (r: bool)
    ensures
        r == spec_sources_ok(*tree),
{
    let n = tree.len();
    let mut i: usize = 0;
    while i < n
        invariant
            i <= n,
            n == tree@.len(),
            forall|j: int|
                0 <= j < i ==> ((#[trigger] tree@[j]).source matches Some(s) ==> {
                    &&& s.input < tree.spec_inputs().len()
                    &&& (s.start matches Some(p) ==> p.column >= 1)
                    &&& (s.end matches Some(p) ==> p.column >= 1)
                }),
        decreases n - i,
    {
        match tree.source(NodeId(i)) {
            Some(s) => {
                if s.input >= tree.input_count() {
                    return false;
                }
                match s.start {
                    Some(p) => if p.column < 1 {
                        return false;
                    },
                    None => {},
                }
                match s.end {
                    Some(p) => if p.column < 1 {
                        return false;
                    },
                    None => {},
                }
            },
            None => {},
        }
        i = i + 1;
    }
    true
}

/// An error from a plugin, named after it unless it names one already.
fn with_plugin(error: CssSyntaxError, plugin: &str) -> (e: CssSyntaxError)
    ensures
        e.plugin is Some,
        e.reason == error.reason,
{
    let mut e = error;
    e.set_plugin(plugin);
    e
}

impl Processor {
    /// Calls plugin `p`'s hook for node `id`, chosen by the node's kind.
    fn visit(&self, p: usize, tree: &mut Tree, id: NodeId, ctx: &mut PluginContext) -> (r: Result<(), CssSyntaxError>)
        requires
            p < self.spec_len(),
            old(tree).wf(),
            spec_inputs_wf(*old(tree)),
            old(tree).has(id),
        ensures
            final(tree).wf(),
            spec_inputs_wf(*final(tree)),
            r matches Err(e) ==> e.plugin is Some,
    {
        let plugin = &self.plugins[p];
        ctx.set_current_plugin(Some(to_owned_string(plugin.name())));
        let hook = hook_of(tree.kind(id));
        let outcome = if hook == 0 {
            plugin.root(tree, id, ctx)
        } else if hook == 1 {
            plugin.rule(tree, id, ctx)
        } else if hook == 2 {
            plugin.at_rule(tree, id, ctx)
        } else if hook == 3 {
            plugin.decl(tree, id, ctx)
        } else {
            plugin.comment(tree, id, ctx)
        };
        match outcome {
            Ok(()) => Ok(()),
            Err(e) => Err(with_plugin(e, plugin.name())),
        }
    }

    /// Visits every dirty node, root first and in document order, with
    /// every plugin, until no node is dirty; a node a plugin changes becomes
    /// dirty again. A tree still changing after [`MAX_ROUNDS`] rounds is an
    /// error.
    fn run_visitors(&self, tree: &mut Tree, ctx: &mut PluginContext) -> (r: Result<(), CssSyntaxError>)
        requires
            old(tree).wf(),
            spec_inputs_wf(*old(tree)),
        ensures
            final(tree).wf(),
            spec_inputs_wf(*final(tree)),
            self.spec_len() == 0 ==> r is Ok && *final(tree) == *old(tree),
            r is Ok && self.spec_len() > 0 ==> spec_dirty(
                final(tree).spec_clean_flags(),
                seq![final(tree).spec_root()] + crate::tree::spec_walk(
                    final(tree)@,
                    final(tree).spec_root(),
                    final(tree)@.len() as nat,
                ),
            ).len() == 0,
            r matches Err(e) ==> e.plugin is Some || e.reason@ == spec_unstable_reason(),
    {
        if self.plugins.len() == 0 {
            return Ok(());
        }
        let mut round: usize = 0;
        while round < MAX_ROUNDS
            invariant
                round < MAX_ROUNDS,
                tree.wf(),
                spec_inputs_wf(*tree),
                self.spec_len() > 0,
            decreases MAX_ROUNDS - round,
        {
            let dirty = collect_dirty(tree);
            if dirty.len() == 0 {
                return Ok(());
            }
            let mut d: usize = 0;
            while d < dirty.len()
                invariant
                    d <= dirty@.len(),
                    tree.wf(),
                    spec_inputs_wf(*tree),
                    self.spec_len() > 0,
                decreases dirty@.len() - d,
            {
                let id = dirty[d];
                d = d + 1;
                if id.0 < tree.len() && !tree.is_clean(id) && !is_detached(tree, id) {
                    tree.set_clean(id, true);
                    let mut p: usize = 0;
                    while p < self.plugins.len()
                        invariant
                            p <= self.spec_len(),
                            tree.wf(),
                            spec_inputs_wf(*tree),
                        decreases self.spec_len() - p,
                    {
                        if id.0 >= tree.len() {
                            break;
                        }
                        match self.visit(p, tree, id, ctx) {
                            Ok(()) => {},
                            Err(e) => {
                                return Err(e);
                            },
                        }
                        if id.0 >= tree.len() || is_detached(tree, id) {
                            break;
                        }
                        p = p + 1;
                    }
                }
            }
            if round == MAX_ROUNDS - 1 {
                let e = CssSyntaxError::new(
                    to_owned_string("Unstable CSS AST: plugins kept changing nodes after 100 visitor rounds"),
                );
                return Err(e);
            }
            round = round + 1;
        }
        Ok(())
    }

    /// Runs every plugin over a tree: each `once` hook, the node visitors,
    /// each `once_exit` hook, then renders the CSS and its map. A plugin's
    /// error comes back named after the plugin. A tree whose node sources
    /// name no input of it cannot be mapped, which is an error. `cwd` is the
    /// directory relative paths are resolved against, and `map_json` writes a
    /// map as JSON for an inline annotation.
    pub fn process_tree<F: Fn(&SourceMapGenerator) -> String>(
        &self,
        tree: Tree,
        opts: ProcessOptions,
        cwd: Option<&str>,
        map_json: F,
    ) -> (r: Result<ProcessResult, CssSyntaxError>)
        requires
            tree.wf(),
            spec_inputs_wf(tree),
            forall|g: &SourceMapGenerator| call_requires(map_json, (g,)),
        ensures
            r matches Ok(res) ==> {
                let base = crate::stringifier::spec_to_css(res.root@, res.root.spec_root());
                &&& res.root.wf()
                &&& res.css@.len() >= base.len()
                &&& res.css@.take(base.len() as int) == base
                &&& !spec_wants_map(res.opts, res.root) ==> res.css@ == base && res.map is None
                &&& res.opts == opts
            },
            r matches Err(e) ==> e.plugin is Some || e.reason@ == spec_unstable_reason() || e.reason@
                == spec_unmappable_reason(),
            self.spec_len() == 0 ==> (r is Ok <==> spec_sources_ok(tree)),
            self.spec_len() == 0 ==> (r matches Ok(res) ==> {
                &&& res.root.spec_inputs() == tree.spec_inputs()
                &&& res.root.spec_root() == tree.spec_root()
                &&& (spec_annotation_kept(opts) ==> res.root@ == tree@)
                &&& (!spec_annotation_kept(opts) ==> res.root.kids(res.root.spec_root())
                    == crate::map_generator::spec_without_annotations(tree@, tree.kids(tree.spec_root())))
            }),
    {
        let ghost tree0 = tree;
        let mut tree = tree;
        let mut ctx = PluginContext::new(opts.duplicate());
        let mut p: usize = 0;
        while p < self.plugins.len()
            invariant
                p <= self.spec_len(),
                tree.wf(),
                spec_inputs_wf(tree),
                self.spec_len() == 0 ==> tree == tree0,
            decreases self.spec_len() - p,
        {
            let plugin = &self.plugins[p];
            ctx.set_current_plugin(Some(to_owned_string(plugin.name())));
            match plugin.once(&mut tree, &mut ctx) {
                Ok(()) => {},
                Err(e) => {
                    return Err(with_plugin(e, plugin.name()));
                },
            }
            p = p + 1;
        }
        match self.run_visitors(&mut tree, &mut ctx) {
            Ok(()) => {},
            Err(e) => {
                return Err(e);
            },
        }
        let mut p: usize = 0;
        while p < self.plugins.len()
            invariant
                p <= self.spec_len(),
                tree.wf(),
                spec_inputs_wf(tree),
                self.spec_len() == 0 ==> tree == tree0,
            decreases self.spec_len() - p,
        {
            let plugin = &self.plugins[p];
            ctx.set_current_plugin(Some(to_owned_string(plugin.name())));
            match plugin.once_exit(&mut tree, &mut ctx) {
                Ok(()) => {},
                Err(e) => {
                    return Err(with_plugin(e, plugin.name()));
                },
            }
            p = p + 1;
        }
        ctx.set_current_plugin(None);
        if !sources_ok(&tree) {
            return Err(CssSyntaxError::new(to_owned_string("A node's source names no input of its tree")));
        }
        let mo = match &opts.map {
            Some(s) => s.options(),
            None => MapOptions::unset(),
        };
        let (css, map) = generate(&mut tree, &mo, &opts, cwd, map_json);
        Ok(ProcessResult { css, map, root: tree, messages: ctx.into_messages(), opts })
    }
}

/// Whether a run's map options leave existing annotation comments alone:
/// those that switch the annotation off.
pub open spec fn spec_annotation_kept(opts: ProcessOptions) -> bool {
    match opts.map {
        Some(MapSetting::Options(o)) => o.annotation matches Some(Annotation::Disabled),
        _ => false,
    }
}

/// The message of the error for a tree whose node sources name no input of
/// it.
pub open spec fn spec_unmappable_reason() -> Seq<char> {
    "A node's source names no input of its tree"@
}

impl Processor {
    /// Parses `css`, runs every plugin, and renders the result; see
    /// [`Processor::process_tree`].
    pub fn process<F: Fn(&SourceMapGenerator) -> String>(
        &self,
        css: &str,
        opts: ProcessOptions,
        cwd: Option<&str>,
        map_json: F,
    ) -> (r: Result<ProcessResult, CssSyntaxError>)
        requires
            crate::input::spec_fits(css@),
            forall|g: &SourceMapGenerator| call_requires(map_json, (g,)),
        ensures
            r matches Ok(res) ==> {
                let base = crate::stringifier::spec_to_css(res.root@, res.root.spec_root());
                &&& res.root.wf()
                &&& res.css@.take(base.len() as int) == base
                &&& !spec_wants_map(res.opts, res.root) ==> res.css@ == base && res.map is None
                &&& res.opts == opts
            },
            self.spec_len() == 0 ==> (r matches Ok(res) ==> res.root.spec_inputs().len() == 1
                && res.root.spec_inputs()[0].css_view() == crate::input::spec_strip_bom(css@).0),
    {
        let input_opts = opts.input_options();
        let tree = match crate::parse_with_options(css, &input_opts) {
            Ok(t) => t,
            Err(e) => {
                return Err(e);
            },
        };
        self.process_tree(tree, opts, cwd, map_json)
    }
}

} // verus!
