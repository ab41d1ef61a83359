//! What a processing run leaves behind: its CSS and map, and the warnings
//! and other messages plugins recorded.

use vstd::prelude::*;

use crate::node::{NodeId, Position};
use crate::options::ProcessOptions;
use crate::position::{spec_countable, spec_range_by, NodeErrorOptions};
use crate::source_map::SourceMapGenerator;
use crate::text::{push_decimal, push_str, spec_decimal};
use crate::tree::Tree;

verus! {

/// A warning a plugin attached to the result.
#[derive(Clone, Debug, PartialEq, Eq)]
pub struct Warning {
    /// Human-readable warning text.
    pub text: String,
    /// Plugin that emitted the warning.
    pub plugin: Option<String>,
    /// Node the warning is about.
    pub node: Option<NodeId>,
    /// 1-based start line.
    pub line: Option<usize>,
    /// 1-based start column.
    pub column: Option<usize>,
    /// 1-based end line.
    pub end_line: Option<usize>,
    /// 1-based end column.
    pub end_column: Option<usize>,
    /// The word the warning points at, if one was given.
    pub word: Option<String>,
    /// The index the warning points at, if one was given.
    pub index: Option<usize>,
}

/// Where a warning about `node` points: the node's range moved by the
/// options, when the node was parsed from an input.
pub open spec fn spec_warning_range(t: Tree, node: Option<NodeId>, opts: NodeErrorOptions) -> Option<(Position, Position)> {
    match node {
        Some(n) => if t@[n.0 as int].source is Some {
            Some(spec_range_by(t, n, opts))
        } else {
            None
        },
        None => None,
    }
}

/// A warning can be made about `node`: it is in the tree, and a parsed
/// node's position can be counted in its input.
pub open spec fn spec_warning_ok(t: Tree, node: Option<NodeId>) -> bool {
    node matches Some(n) ==> {
        &&& t.has(n)
        &&& t@[n.0 as int].source is Some ==> {
            let input = t@[n.0 as int].source->0.input;
            spec_countable(t, n) && t.spec_inputs()[input as int].wf()
        }
    }
}

/// A warning as text: `plugin:line:column: text`, leaving out what it lacks.
pub open spec fn spec_warning_text(w: Warning) -> Seq<char> {
    match (w.plugin, w.line, w.column) {
        (Some(p), Some(l), Some(c)) => p@ + ":"@ + spec_decimal(l as nat) + ":"@ + spec_decimal(c as nat) + ": "@
            + w.text@,
        (Some(p), _, _) => p@ + ": "@ + w.text@,
        (None, Some(l), Some(c)) => spec_decimal(l as nat) + ":"@ + spec_decimal(c as nat) + ": "@ + w.text@,
        _ => w.text@,
    }
}

impl Warning {
    /// Builds a warning about a node, resolving its position.
    pub fn new(tree: &Tree, text: String, node: Option<NodeId>, opts: &NodeErrorOptions) -> (w: Warning)
        requires
            spec_warning_ok(*tree, node),
        ensures
            w.text == text,
            w.plugin == opts.plugin,
            w.node == node,
            w.word == opts.word,
            w.index == opts.index,
            match spec_warning_range(*tree, node, *opts) {
                Some((s, e)) => w.line == Some(s.line) && w.column == Some(s.column) && w.end_line == Some(e.line)
                    && w.end_column == Some(e.column),
                None => w.line is None && w.column is None && w.end_line is None && w.end_column is None,
            },
    {
        let mut warning = Warning {
            text,
            plugin: crate::input::clone_opt_string(&opts.plugin),
            node,
            line: None,
            column: None,
            end_line: None,
            end_column: None,
            word: crate::input::clone_opt_string(&opts.word),
            index: opts.index,
        };
        if let Some(n) = node {
            if tree.source(n).is_some() {
                let (start, end) = tree.range_by(n, opts);
                warning.line = Some(start.line);
                warning.column = Some(start.column);
                warning.end_line = Some(end.line);
                warning.end_column = Some(end.column);
            }
        }
        warning
    }

    /// The warning as text, as it is shown to users.
    pub fn to_string(&self) -> (r: String)
        ensures
            r@ == spec_warning_text(*self),
    {
        let mut out = String::new();
        match (&self.plugin, self.line, self.column) {
            (Some(p), Some(l), Some(c)) => {
                push_str(&mut out, p.as_str());
                push_str(&mut out, ":");
                push_decimal(&mut out, l);
                push_str(&mut out, ":");
                push_decimal(&mut out, c);
                push_str(&mut out, ": ");
            },
            (Some(p), _, _) => {
                push_str(&mut out, p.as_str());
                push_str(&mut out, ": ");
            },
            (None, Some(l), Some(c)) => {
                push_decimal(&mut out, l);
                push_str(&mut out, ":");
                push_decimal(&mut out, c);
                push_str(&mut out, ": ");
            },
            _ => {},
        }
        push_str(&mut out, self.text.as_str());
        out
    }
}

/// A JSON value a plugin attaches to a message of its own kind.
#[verifier::external_type_specification]
#[verifier::external_body]
pub struct JsonValue(serde_json::Value);

/// `serde_json::Value::clone`, which `derive(Clone)` writes for the value
/// tree; nothing is claimed of the copy, which the library only carries.
pub assume_specification[ <serde_json::Value as std::clone::Clone>::clone ](value: &serde_json::Value) -> (r: serde_json::Value);

/// Anything a plugin can leave on the result: warnings, the files and
/// directories the output depends on, and messages of a plugin's own kind.
#[derive(Clone, Debug, PartialEq, Eq)]
pub enum Message {
    /// A warning for the user.
    Warning(Warning),
    /// A file the output depends on.
    Dependency {
        /// Plugin that reported it.
        plugin: Option<String>,
        /// Absolute path of the file depended on.
        file: String,
        /// The file that pulled it in.
        parent: Option<String>,
    },
    /// A directory glob the output depends on.
    DirDependency {
        /// Plugin that reported it.
        plugin: Option<String>,
        /// Absolute path of the directory depended on.
        dir: String,
        /// Glob restricting which files matter.
        glob: Option<String>,
        /// The file that pulled it in.
        parent: Option<String>,
    },
    /// Any other message.
    Custom {
        /// The message's `type`.
        kind: String,
        /// Plugin that reported it.
        plugin: Option<String>,
        /// Anything else the plugin attached.
        data: serde_json::Value,
    },
}

/// A message's `type`.
pub open spec fn spec_message_kind(m: Message) -> Seq<char> {
    match m {
        Message::Warning(_) => "warning"@,
        Message::Dependency { .. } => "dependency"@,
        Message::DirDependency { .. } => "dir-dependency"@,
        Message::Custom { kind, .. } => kind@,
    }
}

/// The warnings among `ms`, in order.
pub open spec fn spec_warnings(ms: Seq<Message>) -> Seq<Warning>
    decreases ms.len(),
{
    if ms.len() == 0 {
        Seq::empty()
    } else {
        let rest = spec_warnings(ms.drop_last());
        match ms.last() {
            Message::Warning(w) => rest.push(w),
            _ => rest,
        }
    }
}

impl Message {
    /// The `type` field messages carry.
    pub fn kind(&self) -> (r: &str)
        ensures
            r@ == spec_message_kind(*self),
    {
        match self {
            Message::Warning(_) => "warning",
            Message::Dependency { .. } => "dependency",
            Message::DirDependency { .. } => "dir-dependency",
            Message::Custom { kind, .. } => kind.as_str(),
        }
    }
}

/// References `r` point at the warnings `w`, one for one.
pub open spec fn spec_refers_to(r: Seq<&Warning>, w: Seq<Warning>) -> bool {
    r.len() == w.len() && forall|i: int| 0 <= i < r.len() ==> *r[i] == w[i]
}

/// The warnings among `messages`, in order.
fn collect_warnings(messages: &Vec<Message>) -> (r: Vec<&Warning>)
    ensures
        spec_refers_to(r@, spec_warnings(messages@)),
{
    let mut out: Vec<&Warning> = Vec::new();
    let mut i: usize = 0;
    while i < messages.len()
        invariant
            i <= messages@.len(),
            spec_refers_to(out@, spec_warnings(messages@.take(i as int))),
        decreases messages@.len() - i,
    {
        proof {
            assert(messages@.take(i + 1).drop_last() =~= messages@.take(i as int));
        }
        match &messages[i] {
            Message::Warning(w) => {
                out.push(w);
            },
            _ => {},
        }
        i = i + 1;
    }
    proof {
        assert(messages@.take(messages@.len() as int) =~= messages@);
    }
    out
}

/// Everything plugins can read and write during a run, besides the tree.
#[derive(Debug)]
pub struct PluginContext {
    /// Messages collected so far.
    pub messages: Vec<Message>,
    /// The run's options.
    pub opts: ProcessOptions,
    current_plugin: Option<String>,
}

impl PluginContext {
    /// The messages collected so far.
    pub closed spec fn spec_messages(&self) -> Seq<Message> {
        self.messages@
    }

    /// The run's options.
    pub closed spec fn spec_opts(&self) -> ProcessOptions {
        self.opts
    }

    /// The plugin whose visitors run now, named on its warnings.
    pub closed spec fn spec_current_plugin(&self) -> Option<String> {
        self.current_plugin
    }

    /// An empty context for a run with these options.
    pub fn new(opts: ProcessOptions) -> (c: Self)
        ensures
            c.spec_messages().len() == 0,
            c.spec_opts() == opts,
            c.spec_current_plugin() is None,
    {
        PluginContext { messages: Vec::new(), opts, current_plugin: None }
    }

    /// Names the plugin whose visitors run next.
    pub fn set_current_plugin(&mut self, plugin: Option<String>)
        ensures
            final(self).spec_messages() == old(self).spec_messages(),
            final(self).spec_opts() == old(self).spec_opts(),
            final(self).spec_current_plugin() == plugin,
    {
        self.current_plugin = plugin;
    }

    /// Records a warning about a node; the current plugin's name fills in
    /// a missing `plugin`.
    pub fn warn(&mut self, tree: &Tree, text: String, node: Option<NodeId>, opts: &NodeErrorOptions) -> (r: &Warning)
        requires
            spec_warning_ok(*tree, node),
        ensures
            final(self).spec_opts() == old(self).spec_opts(),
            final(self).spec_current_plugin() == old(self).spec_current_plugin(),
            final(self).spec_messages().len() == old(self).spec_messages().len() + 1,
            final(self).spec_messages().drop_last() == old(self).spec_messages(),
            final(self).spec_messages().last() == Message::Warning(*r),
            r.text == text,
            r.node == node,
            r.plugin == (if opts.plugin is Some { opts.plugin } else { old(self).spec_current_plugin() }),
            r.word == opts.word,
            r.index == opts.index,
            match spec_warning_range(*tree, node, *opts) {
                Some((s, e)) => r.line == Some(s.line) && r.column == Some(s.column) && r.end_line == Some(e.line)
                    && r.end_column == Some(e.column),
                None => r.line is None && r.column is None && r.end_line is None && r.end_column is None,
            },
    {
        let plugin = match &opts.plugin {
            Some(p) => Some(p.clone()),
            None => crate::input::clone_opt_string(&self.current_plugin),
        };
        let filled = NodeErrorOptions {
            plugin,
            word: crate::input::clone_opt_string(&opts.word),
            index: opts.index,
            end_index: opts.end_index,
            start: opts.start,
            end: opts.end,
        };
        proof {
            assert(spec_warning_range(*tree, node, filled) == spec_warning_range(*tree, node, *opts));
        }
        let warning = Warning::new(tree, text, node, &filled);
        self.messages.push(Message::Warning(warning));
        let n = self.messages.len();
        match &self.messages[n - 1] {
            Message::Warning(w) => w,
            _ => vstd::pervasive::unreached(),
        }
    }

    /// Records a warning with no position.
    pub fn warn_text(&mut self, text: String)
        ensures
            final(self).spec_opts() == old(self).spec_opts(),
            final(self).spec_current_plugin() == old(self).spec_current_plugin(),
            final(self).spec_messages() == old(self).spec_messages().push(
                Message::Warning(
                    Warning {
                        text,
                        plugin: old(self).spec_current_plugin(),
                        node: None,
                        line: None,
                        column: None,
                        end_line: None,
                        end_column: None,
                        word: None,
                        index: None,
                    },
                ),
            ),
    {
        let plugin = crate::input::clone_opt_string(&self.current_plugin);
        self.messages.push(
            Message::Warning(
                Warning {
                    text,
                    plugin,
                    node: None,
                    line: None,
                    column: None,
                    end_line: None,
                    end_column: None,
                    word: None,
                    index: None,
                },
            ),
        );
    }

    /// Records a message that is not a warning.
    pub fn message(&mut self, message: Message)
        ensures
            final(self).spec_opts() == old(self).spec_opts(),
            final(self).spec_current_plugin() == old(self).spec_current_plugin(),
            final(self).spec_messages() == old(self).spec_messages().push(message),
    {
        self.messages.push(message);
    }

    /// The messages collected, giving up the context.
    pub fn into_messages(self) -> (r: Vec<Message>)
        ensures
            r@ == self.spec_messages(),
    {
        self.messages
    }

    /// Only the warnings, in order.
    pub fn warnings(&self) -> (r: Vec<&Warning>)
        ensures
            spec_refers_to(r@, spec_warnings(self.spec_messages())),
    {
        collect_warnings(&self.messages)
    }
}

/// The result of a processing run.
#[derive(Debug)]
pub struct Result {
    /// The transformed CSS.
    pub css: String,
    /// The generated source map, when one was requested and not inlined.
    pub map: Option<SourceMapGenerator>,
    /// The transformed tree.
    pub root: Tree,
    /// Messages plugins recorded.
    pub messages: Vec<Message>,
    /// The options the run used.
    pub opts: ProcessOptions,
}

impl Result {
    /// The transformed CSS.
    pub fn content(&self) -> (r: &str)
        ensures
            r@ == self.css@,
    {
        self.css.as_str()
    }

    /// Only the warnings, in order.
    pub fn warnings(&self) -> (r: Vec<&Warning>)
        ensures
            spec_refers_to(r@, spec_warnings(self.messages@)),
    {
        collect_warnings(&self.messages)
    }

    /// The transformed CSS, as the result shows itself.
    pub fn to_string(&self) -> (r: String)
        ensures
            r@ == self.css@,
    {
        self.css.clone()
    }
}

} // verus!
