//! Options for reading inputs and for writing CSS with source maps.

use vstd::prelude::*;
use crate::error::opt_view;
use crate::input::clone_opt_string;
use crate::source_map::{clone_strings, spec_opt_views, RawSourceMap};

verus! {

/// Where a previous source map comes from.
///
/// The `map.prev` forms: `false`, a JSON string, a parsed map object, or a
/// path to read.
#[derive(Debug)]
pub enum PrevMap {
    /// Ignore any previous map (`prev: false`).
    Disabled,
    /// Map JSON as text.
    Text(String),
    /// Already parsed map.
    Raw(Box<RawSourceMap>),
    /// Path to a map file, read eagerly and required to exist.
    File(String),
}

/// How the `/*# sourceMappingURL=... */` comment is written.
#[derive(Debug)]
pub enum Annotation {
    /// Do not add the comment.
    Disabled,
    /// Add the comment pointing at the default `<output>.map`.
    Enabled,
    /// Add the comment pointing at this path.
    Path(String),
}

/// Source map options (`opts.map` when it is an object).
#[derive(Debug)]
pub struct MapOptions {
    /// Embed the map in the CSS as a `data:` URI.
    pub inline: Option<bool>,
    /// A map of an earlier compilation step to chain onto.
    pub prev: Option<PrevMap>,
    /// Embed the original CSS in `sourcesContent`.
    pub sources_content: Option<bool>,
    /// Whether and where to write the annotation comment.
    pub annotation: Option<Annotation>,
    /// Override the `sources` entry for every mapping.
    pub from: Option<String>,
    /// Use absolute `file:` URLs in `sources`.
    pub absolute: bool,
}

/// The tri-state `opts.map` option: `false`, `true`, or an object.
#[derive(Debug)]
pub enum MapSetting {
    /// `map: false` — never read or write maps.
    Disabled,
    /// `map: true` — write a map with default options.
    Enabled,
    /// `map: {...}`
    Options(MapOptions),
}

/// Options for building an [`crate::input::Input`].
#[derive(Debug)]
pub struct InputOptions {
    /// Path of the CSS file being parsed.
    pub from: Option<String>,
    /// The enclosing document, for CSS embedded in another language.
    pub document: Option<String>,
    /// Source map handling.
    pub map: Option<MapSetting>,
    /// Allow reading map files that a strict resolver would reject, such as
    /// maps outside the CSS file's directory.
    pub unsafe_map: bool,
}

/// Options for a whole processing run.
#[derive(Debug)]
pub struct ProcessOptions {
    /// Path of the input file.
    pub from: Option<String>,
    /// Path of the output file.
    pub to: Option<String>,
    /// The enclosing document, for CSS embedded in another language.
    pub document: Option<String>,
    /// Source map handling.
    pub map: Option<MapSetting>,
    /// See [`InputOptions::unsafe_map`].
    pub unsafe_map: bool,
}

/// Two raw maps hold the same values.
pub open spec fn spec_raw_same(a: RawSourceMap, b: RawSourceMap) -> bool {
    &&& a.version == b.version
    &&& crate::list::spec_views(a.sources@) == crate::list::spec_views(b.sources@)
    &&& crate::list::spec_views(a.names@) == crate::list::spec_views(b.names@)
    &&& a.mappings@ == b.mappings@
    &&& opt_view(a.file) == opt_view(b.file)
    &&& opt_view(a.source_root) == opt_view(b.source_root)
    &&& match (a.sources_content, b.sources_content) {
        (Some(x), Some(y)) => spec_opt_views(x@) == spec_opt_views(y@),
        (None, None) => true,
        _ => false,
    }
}

/// Two `prev` settings hold the same values.
pub open spec fn spec_prev_same(a: PrevMap, b: PrevMap) -> bool {
    match (a, b) {
        (PrevMap::Disabled, PrevMap::Disabled) => true,
        (PrevMap::Text(x), PrevMap::Text(y)) => x@ == y@,
        (PrevMap::Raw(x), PrevMap::Raw(y)) => spec_raw_same(*x, *y),
        (PrevMap::File(x), PrevMap::File(y)) => x@ == y@,
        _ => false,
    }
}

/// Two annotation settings hold the same values.
pub open spec fn spec_annotation_same(a: Annotation, b: Annotation) -> bool {
    match (a, b) {
        (Annotation::Disabled, Annotation::Disabled) => true,
        (Annotation::Enabled, Annotation::Enabled) => true,
        (Annotation::Path(x), Annotation::Path(y)) => x@ == y@,
        _ => false,
    }
}

/// Two sets of map options hold the same values.
pub open spec fn spec_map_options_same(a: MapOptions, b: MapOptions) -> bool {
    &&& a.inline == b.inline
    &&& a.sources_content == b.sources_content
    &&& a.absolute == b.absolute
    &&& opt_view(a.from) == opt_view(b.from)
    &&& match (a.prev, b.prev) {
        (Some(x), Some(y)) => spec_prev_same(x, y),
        (None, None) => true,
        _ => false,
    }
    &&& match (a.annotation, b.annotation) {
        (Some(x), Some(y)) => spec_annotation_same(x, y),
        (None, None) => true,
        _ => false,
    }
}

/// The default map options: everything unset.
pub open spec fn spec_map_options_default(o: MapOptions) -> bool {
    &&& o.inline is None
    &&& o.prev is None
    &&& o.sources_content is None
    &&& o.annotation is None
    &&& o.from is None
    &&& !o.absolute
}

/// Two map settings hold the same values.
pub open spec fn spec_map_setting_same(a: MapSetting, b: MapSetting) -> bool {
    match (a, b) {
        (MapSetting::Disabled, MapSetting::Disabled) => true,
        (MapSetting::Enabled, MapSetting::Enabled) => true,
        (MapSetting::Options(x), MapSetting::Options(y)) => spec_map_options_same(x, y),
        _ => false,
    }
}

/// A raw map, copied.
pub fn clone_raw(r: &RawSourceMap) -> (c: RawSourceMap)
    ensures
        spec_raw_same(c, *r),
{
    let sources_content = match &r.sources_content {
        Some(v) => {
            let mut out: Vec<Option<String>> = Vec::new();
            let mut i: usize = 0;
            while i < v.len()
                invariant
                    i <= v@.len(),
                    spec_opt_views(out@) =~= spec_opt_views(v@).take(i as int),
                decreases v.len() - i,
            {
                let ghost before = out@;
                let item = clone_opt_string(&v[i]);
                out.push(item);
                assert(spec_opt_views(out@) =~= spec_opt_views(before).push(opt_view(item)));
                assert(spec_opt_views(v@).take(i + 1) =~= spec_opt_views(v@).take(i as int).push(opt_view(v@[i as int])));
                i = i + 1;
            }
            assert(spec_opt_views(v@).take(v@.len() as int) =~= spec_opt_views(v@));
            Some(out)
        },
        None => None,
    };
    RawSourceMap {
        version: r.version,
        sources: clone_strings(&r.sources),
        names: clone_strings(&r.names),
        mappings: r.mappings.clone(),
        file: clone_opt_string(&r.file),
        source_root: clone_opt_string(&r.source_root),
        sources_content,
    }
}

impl PrevMap {
    /// A copy of this setting.
    pub fn duplicate(&self) -> (c: PrevMap)
        ensures
            spec_prev_same(c, *self),
    {
        match self {
            PrevMap::Disabled => PrevMap::Disabled,
            PrevMap::Text(t) => PrevMap::Text(t.clone()),
            PrevMap::Raw(r) => PrevMap::Raw(Box::new(clone_raw(r))),
            PrevMap::File(p) => PrevMap::File(p.clone()),
        }
    }
}

impl Annotation {
    /// A copy of this setting.
    pub fn duplicate(&self) -> (c: Annotation)
        ensures
            spec_annotation_same(c, *self),
    {
        match self {
            Annotation::Disabled => Annotation::Disabled,
            Annotation::Enabled => Annotation::Enabled,
            Annotation::Path(p) => Annotation::Path(p.clone()),
        }
    }
}

impl MapOptions {
    /// Everything unset.
    pub fn unset() -> (o: MapOptions)
        ensures
            spec_map_options_default(o),
    {
        MapOptions { inline: None, prev: None, sources_content: None, annotation: None, from: None, absolute: false }
    }

    /// A copy of these options.
    pub fn duplicate(&self) -> (c: MapOptions)
        ensures
            spec_map_options_same(c, *self),
    {
        MapOptions {
            inline: self.inline,
            prev: match &self.prev {
                Some(p) => Some(p.duplicate()),
                None => None,
            },
            sources_content: self.sources_content,
            annotation: match &self.annotation {
                Some(a) => Some(a.duplicate()),
                None => None,
            },
            from: clone_opt_string(&self.from),
            absolute: self.absolute,
        }
    }
}

impl MapSetting {
    /// The options, or defaults for the `true`/`false` forms.
    pub fn options(&self) -> (o: MapOptions)
        ensures
            match self {
                MapSetting::Options(options) => spec_map_options_same(o, *options),
                _ => spec_map_options_default(o),
            },
    {
        match self {
            MapSetting::Options(options) => options.duplicate(),
            _ => MapOptions::unset(),
        }
    }

    /// Whether maps are read and written at all.
    pub fn is_enabled(&self) -> (r: bool)
        ensures
            r == !(self is Disabled),
    {
        match self {
            MapSetting::Disabled => false,
            _ => true,
        }
    }

    /// A copy of this setting.
    pub fn duplicate(&self) -> (c: MapSetting)
        ensures
            spec_map_setting_same(c, *self),
    {
        match self {
            MapSetting::Disabled => MapSetting::Disabled,
            MapSetting::Enabled => MapSetting::Enabled,
            MapSetting::Options(o) => MapSetting::Options(o.duplicate()),
        }
    }

    /// `true` enables maps with default options, `false` disables them.
    pub fn from_bool(value: bool) -> (s: MapSetting)
        ensures
            s == (if value { MapSetting::Enabled } else { MapSetting::Disabled }),
    {
        if value {
            MapSetting::Enabled
        } else {
            MapSetting::Disabled
        }
    }

    /// Maps with these options.
    pub fn from_options(value: MapOptions) -> (s: MapSetting)
        ensures
            s == MapSetting::Options(value),
    {
        MapSetting::Options(value)
    }
}

impl InputOptions {
    /// Nothing set.
    pub fn unset() -> (o: InputOptions)
        ensures
            o.from is None,
            o.document is None,
            o.map is None,
            !o.unsafe_map,
    {
        InputOptions { from: None, document: None, map: None, unsafe_map: false }
    }
}

impl ProcessOptions {
    /// Options with nothing set.
    pub fn new() -> (o: Self)
        ensures
            o.from is None,
            o.to is None,
            o.document is None,
            o.map is None,
            !o.unsafe_map,
    {
        ProcessOptions { from: None, to: None, document: None, map: None, unsafe_map: false }
    }

    /// Sets the input file path.
    pub fn from(self, from: String) -> (o: Self)
        ensures
            o == (Self { from: Some(from), ..self }),
    {
        ProcessOptions { from: Some(from), ..self }
    }

    /// Sets the output file path.
    pub fn to(self, to: String) -> (o: Self)
        ensures
            o == (Self { to: Some(to), ..self }),
    {
        ProcessOptions { to: Some(to), ..self }
    }

    /// Sets source map handling.
    pub fn map(self, map: MapSetting) -> (o: Self)
        ensures
            o == (Self { map: Some(map), ..self }),
    {
        ProcessOptions { map: Some(map), ..self }
    }

    /// A copy of these options.
    pub fn duplicate(&self) -> (c: Self)
        ensures
            opt_view(c.from) == opt_view(self.from),
            opt_view(c.to) == opt_view(self.to),
            opt_view(c.document) == opt_view(self.document),
            match (c.map, self.map) {
                (Some(a), Some(b)) => spec_map_setting_same(a, b),
                (None, None) => true,
                _ => false,
            },
            c.unsafe_map == self.unsafe_map,
    {
        ProcessOptions {
            from: clone_opt_string(&self.from),
            to: clone_opt_string(&self.to),
            document: clone_opt_string(&self.document),
            map: match &self.map {
                Some(m) => Some(m.duplicate()),
                None => None,
            },
            unsafe_map: self.unsafe_map,
        }
    }

    /// The [`InputOptions`] implied by these options.
    pub fn input_options(&self) -> (o: InputOptions)
        ensures
            opt_view(o.from) == opt_view(self.from),
            opt_view(o.document) == opt_view(self.document),
            match (o.map, self.map) {
                (Some(a), Some(b)) => spec_map_setting_same(a, b),
                (None, None) => true,
                _ => false,
            },
            o.unsafe_map == self.unsafe_map,
    {
        InputOptions {
            from: clone_opt_string(&self.from),
            document: clone_opt_string(&self.document),
            map: match &self.map {
                Some(m) => Some(m.duplicate()),
                None => None,
            },
            unsafe_map: self.unsafe_map,
        }
    }
}

impl Default for MapOptions {
    fn default() -> (o: MapOptions)
        ensures
            spec_map_options_default(o),
    {
        MapOptions::unset()
    }
}

impl Default for InputOptions {
    fn default() -> (o: InputOptions)
        ensures
            o.from is None,
            o.document is None,
            o.map is None,
            !o.unsafe_map,
    {
        InputOptions::unset()
    }
}

impl Default for ProcessOptions {
    fn default() -> (o: ProcessOptions)
        ensures
            o.from is None,
            o.to is None,
            o.document is None,
            o.map is None,
            !o.unsafe_map,
    {
        ProcessOptions::new()
    }
}

} // verus!
