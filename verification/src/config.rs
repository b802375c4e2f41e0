//! Operator configuration (`snapseg.toml`): label directory, refinement
//! toggle, the model to auto-load and the onnxruntime library path, plus
//! resolution of config-relative paths.

use vstd::prelude::*;

verus! {

/// Encoder canvas the model was exported for: a square edge, or an explicit
/// `[height, width]`.
#[derive(Debug, Clone, Copy, PartialEq, Eq)]
pub enum InputSize {
    Square(u32),
    HW([u32; 2]),
}

impl InputSize {
    /// The canvas as `(height, width)`.
    pub fn as_hw(&self) -> (hw: (u32, u32))
        ensures
            match *self {
                InputSize::Square(n) => hw == (n, n),
                InputSize::HW(a) => hw == (a[0], a[1]),
            },
    {
        match self {
            InputSize::Square(n) => (*n, *n),
            InputSize::HW(a) => (a[0], a[1]),
        }
    }
}

/// One model entry of the config: a registry-like entry whose parts are
/// local file paths.
#[derive(Debug, Clone)]
pub struct ModelConfig {
    /// Display name (also the registry name in label provenance).
    pub name: String,
    /// Family slug selecting the adapter.
    pub family: String,
    pub input_size: InputSize,
    /// `(part name, on-disk path)` pairs, one per part name.
    pub parts: Vec<(String, String)>,
}

/// No part name occurs twice.
pub open spec fn parts_distinct(parts: Seq<(String, String)>) -> bool {
    forall|i: int, j: int| 0 <= i < j < parts.len() ==> parts[i].0@ != parts[j].0@
}

impl ModelConfig {
    /// A well-formed model entry names each part once.
    pub open spec fn wf(&self) -> bool {
        parts_distinct(self.parts@)
    }
}

/// The whole config file; every field is optional.
#[derive(Debug, Clone)]
pub struct AppConfig {
    pub label_dir: Option<String>,
    pub refine_edges: Option<bool>,
    pub default_model: Option<ModelConfig>,
    pub onnxruntime_path: Option<String>,
}

/// A config plus the file it was loaded from.
#[derive(Debug, Clone)]
pub struct LoadedConfig {
    pub config: AppConfig,
    pub source: String,
}

/// The path without its final component, if it has one.
pub uninterp spec fn path_parent(p: Seq<char>) -> Option<Seq<char>>;

/// Whether the path is absolute on this platform.
pub uninterp spec fn path_is_absolute(p: Seq<char>) -> bool;

/// `base` joined with `p`.
pub uninterp spec fn path_join(base: Seq<char>, p: Seq<char>) -> Seq<char>;

/// Parent of a path.
///
/// Calls `std::path::Path::parent`; the contract names its result as a
/// function of the path text.
#[verifier::external_body]
fn parent_of(p: &str) -> (r: Option<String>)
    ensures
        match r {
            Some(s) => path_parent(p@) == Some(s@),
            None => path_parent(p@) is None,
        },
{
    std::path::Path::new(p).parent().map(|q| q.to_string_lossy().into_owned())
}

/// Whether a path is absolute.
///
/// Calls `std::path::Path::is_absolute`; the contract names its result as a
/// function of the path text.
#[verifier::external_body]
fn is_absolute(p: &str) -> (b: bool)
    ensures
        b == path_is_absolute(p@),
{
    std::path::Path::new(p).is_absolute()
}

/// Join two paths.
///
/// Calls `std::path::Path::join`; the contract names its result as a
/// function of the two path texts.
#[verifier::external_body]
fn join_paths(base: &str, p: &str) -> (r: String)
    ensures
        r@ == path_join(base@, p@),
{
    std::path::Path::new(base).join(p).to_string_lossy().into_owned()
}

/// Directory of a config file: its parent, or `"."` when it has none.
pub open spec fn config_dir(source: Seq<char>) -> Seq<char> {
    match path_parent(source) {
        Some(d) => d,
        None => "."@,
    }
}

impl LoadedConfig {
    /// Directory containing the config file, the base for relative paths
    /// inside the config.
    pub fn dir(&self) -> (d: String)
        ensures
            d@ == config_dir(self.source@),
    {
        match parent_of(self.source.as_str()) {
            Some(d) => d,
            None => String::from_str("."),
        }
    }

    /// `p` itself when absolute, else `p` resolved against [`Self::dir`].
    pub fn resolve(&self, p: &str) -> (r: String)
        ensures
            path_is_absolute(p@) ==> r@ == p@,
            !path_is_absolute(p@) ==> r@ == path_join(config_dir(self.source@), p@),
    {
        if is_absolute(p) {
            String::from_str(p)
        } else {
            let d = self.dir();
            join_paths(d.as_str(), p)
        }
    }
}

/// `i` is the first of `parts` named `name`.
pub open spec fn is_first_part(parts: Seq<(String, String)>, name: Seq<char>, i: int) -> bool {
    &&& 0 <= i < parts.len()
    &&& parts[i].0@ == name
    &&& forall|j: int| 0 <= j < i ==> (#[trigger] parts[j]).0@ != name
}

/// Path of the first part named `name`, if any.
pub open spec fn first_part(parts: Seq<(String, String)>, name: Seq<char>) -> Option<Seq<char>> {
    if exists|i: int| is_first_part(parts, name, i) {
        Some(parts[choose|i: int| is_first_part(parts, name, i)].1@)
    } else {
        None
    }
}

/// When a model entry names each part once, looking a part up by its name
/// gives that part's path.
pub proof fn lemma_distinct_part_lookup(parts: Seq<(String, String)>, i: int)
    requires
        parts_distinct(parts),
        0 <= i < parts.len(),
    ensures
        first_part(parts, parts[i].0@) == Some(parts[i].1@),
{
    assert(is_first_part(parts, parts[i].0@, i));
    let k = choose|k: int| is_first_part(parts, parts[i].0@, k);
    if k < i {
        assert(parts[k].0@ != parts[i].0@);
    } else if i < k {
        assert(parts[i].0@ != parts[i].0@);
    }
}

/// Path of the part named `name`, if the model lists one.
pub fn part_path<'a>(parts: &'a Vec<(String, String)>, name: &str) -> (r: Option<&'a String>)
    ensures
        match r {
            Some(p) => exists|i: int|
                0 <= i < parts@.len() && parts@[i].0@ == name@ && parts@[i].1 == *p && forall|j: int|
                    0 <= j < i ==> parts@[j].0@ != name@,
            None => forall|i: int| 0 <= i < parts@.len() ==> parts@[i].0@ != name@,
        },
        match r {
            Some(p) => first_part(parts@, name@) == Some(p@),
            None => first_part(parts@, name@) is None,
        },
        parts_distinct(parts@) && r is Some ==> forall|i: int|
            0 <= i < parts@.len() && parts@[i].0@ == name@ ==> parts@[i].1 == *r->Some_0,
{
    let key = String::from_str(name);
    let mut i: usize = 0;
    while i < parts.len()
        invariant
            i <= parts@.len(),
            key@ == name@,
            forall|j: int| 0 <= j < i ==> parts@[j].0@ != name@,
        decreases parts@.len() - i,
    {
        if parts[i].0 == key {
            proof {
                assert(is_first_part(parts@, name@, i as int));
                let k = choose|k: int| is_first_part(parts@, name@, k);
                if k < i {
                    assert(parts@[k].0@ != name@);
                } else if i < k {
                    assert(parts@[i as int].0@ != name@);
                }
            }
            return Some(&parts[i].1);
        }
        i = i + 1;
    }
    None
}

/// File name of the config, looked up from the working directory upward.
pub const DEFAULT_CONFIG_NAME: &'static str = "snapseg.toml";

/// Where the config would be in directory `dir`.
pub fn config_candidate(dir: &str) -> (c: String)
    ensures
        c@ == path_join(dir@, DEFAULT_CONFIG_NAME@),
{
    join_paths(dir, DEFAULT_CONFIG_NAME)
}

/// Outcome of looking for the config in one directory.
#[derive(Debug, Clone, PartialEq, Eq)]
pub enum ConfigSearch {
    /// The config is this file.
    Found(String),
    /// Not here; look in this parent directory next.
    Up(String),
    /// Not here, and there is no parent left to look in.
    NotFound,
}

/// One step of the upward search from `dir`, given whether
/// [`config_candidate`] of `dir` is a file: that file is the config;
/// otherwise the search goes on in the parent of `dir`, and ends when
/// `dir` has none.
pub fn search_step(dir: &str, candidate_is_file: bool) -> (r: ConfigSearch)
    ensures
        candidate_is_file ==> match r {
            ConfigSearch::Found(c) => c@ == path_join(dir@, DEFAULT_CONFIG_NAME@),
            _ => false,
        },
        !candidate_is_file ==> match path_parent(dir@) {
            Some(p) => match r {
                ConfigSearch::Up(d) => d@ == p,
                _ => false,
            },
            None => r == ConfigSearch::NotFound,
        },
{
    if candidate_is_file {
        return ConfigSearch::Found(config_candidate(dir));
    }
    match parent_of(dir) {
        Some(p) => ConfigSearch::Up(p),
        None => ConfigSearch::NotFound,
    }
}

/// What the interactive session starts with: the label directory, the
/// initial state of edge refinement, and the model to load on the first
/// frame.
#[derive(Debug, Clone)]
pub struct StartupSettings {
    pub label_dir: String,
    pub refine_edges: bool,
    pub autoload: Option<ModelConfig>,
}

/// The startup settings under `cfg`: each field the config sets overrides
/// the built-in default (`"./labels"`, refinement off, no model).
pub fn startup_settings(cfg: AppConfig) -> (s: StartupSettings)
    ensures
        s.label_dir@ == match cfg.label_dir {
            Some(d) => d@,
            None => "./labels"@,
        },
        s.refine_edges == match cfg.refine_edges {
            Some(b) => b,
            None => false,
        },
        s.autoload == cfg.default_model,
{
    let label_dir = match cfg.label_dir {
        Some(d) => d,
        None => String::from_str("./labels"),
    };
    let refine_edges = match cfg.refine_edges {
        Some(b) => b,
        None => false,
    };
    StartupSettings { label_dir, refine_edges, autoload: cfg.default_model }
}

} // verus!
