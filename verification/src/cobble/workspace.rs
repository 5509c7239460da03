//! The workspace as the `cobble` front end reads it: its directory and the
//! projects at its root.
use vstd::prelude::*;
use crate::config::{find_entry, first_flagged, lookup, prefixed};
use crate::paths::{parent_of, path_join, path_parent, join_path, IoErrorKind, IoFailure};
use crate::text::str_eq;
use crate::toml_value::{
    TomlValue, TomlData, data_of, data_of_entries, lemma_entries_len, texts_of, toml_document,
    toml_texts_error, parse_toml_document, toml_into_texts,
};

verus! {

pub const WORKSPACE_CONFIG_FILE_NAME: &'static str = "cobble.toml";

/// The projects at the root of the workspace.
#[derive(Debug)]
pub struct WorkspaceConfig {
    pub root_projects: Vec<String>,
}

/// Why the workspace configuration could not be read.
#[derive(Debug)]
pub enum WorkspaceConfigError {
    Unknown,
    FileError { path: String, error: IoFailure },
    ParseError(String),
    ValueError(String),
}

/// What reading the configuration gives: the root projects, or the error
/// with its text.
pub enum WorkspaceConfigOutcome {
    Projects(Seq<Seq<char>>),
    Unknown,
    FileError { path: Seq<char>, kind: IoErrorKind, error: Seq<char> },
    ParseError(Seq<char>),
    ValueError(Seq<char>),
}

pub open spec fn outcome_of(r: Result<WorkspaceConfig, WorkspaceConfigError>) -> WorkspaceConfigOutcome {
    match r {
        Ok(c) => WorkspaceConfigOutcome::Projects(c.root_projects@.map_values(|s: String| s@)),
        Err(WorkspaceConfigError::Unknown) => WorkspaceConfigOutcome::Unknown,
        Err(WorkspaceConfigError::FileError { path, error }) => WorkspaceConfigOutcome::FileError {
            path: path@,
            kind: error.kind,
            error: error.message@,
        },
        Err(WorkspaceConfigError::ParseError(e)) => WorkspaceConfigOutcome::ParseError(e@),
        Err(WorkspaceConfigError::ValueError(e)) => WorkspaceConfigOutcome::ValueError(e@),
    }
}

impl WorkspaceConfigError {
    /// The message that describes the error.
    pub fn message(&self) -> (r: String)
        ensures
            r@ == match self {
                WorkspaceConfigError::Unknown => "Unknown Error"@,
                WorkspaceConfigError::FileError { path, error } => "Error reading file at "@ + path@ + ": "@
                    + error.message@,
                WorkspaceConfigError::ParseError(m) => "Error parsing config file: "@ + m@,
                WorkspaceConfigError::ValueError(m) => "Error reading config values: "@ + m@,
            },
    {
        match self {
            WorkspaceConfigError::Unknown => String::from_str("Unknown Error"),
            WorkspaceConfigError::FileError { path, error } => {
                let mut r = String::from_str("Error reading file at ");
                r.append(path.as_str());
                r.append(": ");
                r.append(error.message.as_str());
                r
            },
            WorkspaceConfigError::ParseError(m) => prefixed("Error parsing config file: ", m.as_str()),
            WorkspaceConfigError::ValueError(m) => prefixed("Error reading config values: ", m.as_str()),
        }
    }
}

/// The first key of a table other than `root_projects`.
pub open spec fn first_other_key(t: Seq<(Seq<char>, TomlData)>) -> Option<Seq<char>>
    decreases t.len(),
{
    if t.len() == 0 {
        None
    } else if t[0].0 != "root_projects"@ {
        Some(t[0].0)
    } else {
        first_other_key(t.drop_first())
    }
}

/// The root projects that a parsed configuration table gives: `.` when it
/// names none; an error when they are not a list of strings or when the
/// table holds another key.
pub open spec fn root_projects_spec(t: Seq<(Seq<char>, TomlData)>) -> WorkspaceConfigOutcome {
    match lookup(t, "root_projects"@) {
        Some(v) if texts_of(v) is None => WorkspaceConfigOutcome::ValueError(
            "at 'root_projects': "@ + toml_texts_error(v),
        ),
        found => match first_other_key(t) {
            Some(k) => WorkspaceConfigOutcome::ValueError("Unrecognized field '"@ + k + "'"@),
            None => WorkspaceConfigOutcome::Projects(
                match found {
                    Some(v) => texts_of(v)->0,
                    None => seq!["."@],
                },
            ),
        },
    }
}

proof fn lemma_other_index(t: Seq<(Seq<char>, TomlData)>, i: int)
    requires
        0 <= i <= t.len(),
        forall|j: int| 0 <= j < i ==> #[trigger] t[j].0 == "root_projects"@,
    ensures
        first_other_key(t) == first_other_key(t.subrange(i, t.len() as int)),
    decreases i,
{
    if i > 0 {
        let rest = t.drop_first();
        assert(t[0].0 == "root_projects"@);
        assert forall|j: int| 0 <= j < i - 1 implies #[trigger] rest[j].0 == "root_projects"@ by {
            assert(rest[j] == t[j + 1]);
        }
        lemma_other_index(rest, i - 1);
        assert(rest.subrange(i - 1, rest.len() as int) =~= t.subrange(i, t.len() as int));
    } else {
        assert(t.subrange(0, t.len() as int) =~= t);
    }
}

fn find_other_key(table: &Vec<(String, TomlValue)>) -> (r: Option<String>)
    ensures
        match r {
            Some(k) => first_other_key(data_of_entries(table@)) == Some(k@),
            None => first_other_key(data_of_entries(table@)) is None,
        },
{
    let ghost t = data_of_entries(table@);
    proof {
        lemma_entries_len(table@);
    }
    let mut i: usize = 0;
    while i < table.len()
        invariant
            i <= table@.len(),
            t == data_of_entries(table@),
            t.len() == table@.len(),
            forall|j: int| 0 <= j < t.len() ==> #[trigger] t[j] == (table@[j].0@, data_of(table@[j].1)),
            forall|j: int| 0 <= j < i ==> #[trigger] t[j].0 == "root_projects"@,
        decreases table@.len() - i,
    {
        if !str_eq(table[i].0.as_str(), "root_projects") {
            proof {
                lemma_other_index(t, i as int);
                assert(t.subrange(i as int, t.len() as int)[0] == t[i as int]);
            }
            return Some(table[i].0.clone());
        }
        i = i + 1;
    }
    proof {
        lemma_other_index(t, i as int);
        assert(t.subrange(i as int, t.len() as int).len() == 0);
    }
    None
}

/// The root projects that a parsed configuration table gives.
pub fn workspace_config_from_table(table: Vec<(String, TomlValue)>) -> (r: Result<
    WorkspaceConfig,
    WorkspaceConfigError,
>)
    ensures
        outcome_of(r) == root_projects_spec(data_of_entries(table@)),
{
    let root_projects = match find_entry(&table, "root_projects") {
        None => {
            let mut v: Vec<String> = Vec::new();
            v.push(String::from_str("."));
            proof {
                assert(v@.map_values(|s: String| s@) =~= seq!["."@]);
            }
            v
        },
        Some(i) => match toml_into_texts(&table[i].1) {
            Ok(x) => {
                proof {
                    assert(x@.map_values(|s: String| s@) =~= texts_of(data_of(table@[i as int].1))->0);
                }
                x
            },
            Err(e) => {
                return Err(WorkspaceConfigError::ValueError(prefixed("at 'root_projects': ", e.as_str())));
            },
        },
    };
    if let Some(k) = find_other_key(&table) {
        let mut msg = String::from_str("Unrecognized field '");
        msg.append(k.as_str());
        msg.append("'");
        return Err(WorkspaceConfigError::ValueError(msg));
    }
    Ok(WorkspaceConfig { root_projects })
}

/// Reads the root projects from the text of the configuration file.
pub fn parse_workspace_config(config_str: &str) -> (r: Result<WorkspaceConfig, WorkspaceConfigError>)
    ensures
        outcome_of(r) == match toml_document(config_str@) {
            Err(e) => WorkspaceConfigOutcome::ParseError("Error parsing config: "@ + e),
            Ok(t) => root_projects_spec(t),
        },
{
    match parse_toml_document(config_str) {
        Err(e) => Err(WorkspaceConfigError::ParseError(prefixed("Error parsing config: ", e.as_str()))),
        Ok(t) => workspace_config_from_table(t),
    }
}

/// A workspace: its directory and its configuration.
#[derive(Debug)]
pub struct Workspace {
    pub workspace_dir: String,
    pub config: WorkspaceConfig,
}

impl Workspace {
    pub fn new(dir: &str, config: WorkspaceConfig) -> (r: Workspace)
        ensures
            r.workspace_dir@ == dir@,
            r.config == config,
    {
        Workspace { workspace_dir: String::from_str(dir), config }
    }
}

/// A path and its ancestors, nearest first: the path, its parent, the
/// parent's parent, and so on up to the root.
pub open spec fn ancestors_spec(p: Seq<char>) -> Seq<Seq<char>>
    decreases p.len(),
{
    seq![p] + match path_parent(p) {
        Some(q) => if q.len() < p.len() {
            ancestors_spec(q)
        } else {
            seq![]
        },
        None => seq![],
    }
}

/// The path `path` and its ancestors, nearest first.
pub fn ancestor_dirs(path: &str) -> (r: Vec<String>)
    ensures
        r@.map_values(|s: String| s@) == ancestors_spec(path@),
    decreases path@.len(),
{
    let mut r: Vec<String> = Vec::new();
    r.push(String::from_str(path));
    let mut rest = match parent_of(path) {
        Some(q) => ancestor_dirs(q.as_str()),
        None => Vec::new(),
    };
    let ghost first = r@;
    let ghost tail = rest@;
    r.append(&mut rest);
    proof {
        let f = |s: String| s@;
        assert(r@ == first + tail);
        assert(r@.map_values(f) =~= first.map_values(f) + tail.map_values(f));
        assert(first.map_values(f) =~= seq![path@]);
        if path_parent(path@) is None {
            assert(tail.map_values(f) =~= Seq::<Seq<char>>::empty());
        }
    }
    r
}

/// The path of the workspace configuration file in the directory `dir`.
pub fn workspace_config_path(dir: &str) -> (r: String)
    ensures
        r@ == path_join(dir@, WORKSPACE_CONFIG_FILE_NAME@),
{
    join_path(dir, WORKSPACE_CONFIG_FILE_NAME)
}

/// The nearest directory, from `canonical_path` up, that holds the
/// workspace configuration file. `has_config_file` says, for each directory
/// that `ancestor_dirs` gives for `canonical_path`, in its order, whether it
/// holds the file; when none does, the error names `path` as it was given.
pub fn find_nearest_workspace_dir_from(path: &str, canonical_path: &str, has_config_file: &Vec<bool>) -> (r: Result<
    String,
    IoFailure,
>)
    ensures
        match r {
            Ok(d) => exists|i: int|
                #[trigger] first_flagged(has_config_file@, ancestors_spec(canonical_path@).len() as int, i)
                    && d@ == ancestors_spec(canonical_path@)[i],
            Err(e) => e.kind == IoErrorKind::NotFound
                && e.message@ == "Did not find 'cobble.toml' file in any ancestor directory from "@ + path@
                && forall|i: int|
                0 <= i < ancestors_spec(canonical_path@).len() && i < has_config_file@.len()
                    ==> !#[trigger] has_config_file@[i],
        },
{
    let candidates = ancestor_dirs(canonical_path);
    let ghost c = ancestors_spec(canonical_path@);
    let mut i: usize = 0;
    while i < candidates.len() && i < has_config_file.len()
        invariant
            c == candidates@.map_values(|s: String| s@),
            c == ancestors_spec(canonical_path@),
            i <= candidates@.len(),
            forall|j: int| 0 <= j < i && j < has_config_file@.len() ==> !#[trigger] has_config_file@[j],
        decreases candidates@.len() - i,
    {
        if has_config_file[i] {
            let d = candidates[i].clone();
            proof {
                assert(c[i as int] == d@);
                assert(c.len() == candidates@.len());
                assert(forall|j: int| 0 <= j < i ==> !#[trigger] has_config_file@[j]);
                assert(first_flagged(has_config_file@, c.len() as int, i as int));
            }
            return Ok(d);
        }
        i = i + 1;
    }
    proof {
        assert(c.len() == candidates@.len());
    }
    let mut msg = String::from_str("Did not find 'cobble.toml' file in any ancestor directory from ");
    msg.append(path);
    Err(IoFailure { kind: IoErrorKind::NotFound, message: msg })
}

} // verus!
