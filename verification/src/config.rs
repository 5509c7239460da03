//! The workspace configuration: the `cobble.toml` file, with the settings
//! that the command line may override.
use vstd::prelude::*;
use crate::text::str_eq;
use crate::lua::value::{text_view, type_name_of, LuaKind, LuaValue};
use crate::cobble::workspace::{ancestor_dirs, ancestors_spec};
use crate::paths::{
    IoErrorKind, IoFailure,
    path_parent, parent_of, path_has_prefix, path_join, path_normalized, path_without_prefix, join_path,
    normalized_path, path_starts_with, strip_path_prefix,
};
use crate::toml_value::{
    TomlValue, TomlData, data_of, data_of_entries, lemma_entries_len, text_of, texts_of,
    small_int_of, toml_document, toml_texts_error, toml_small_int_error, toml_text_error,
    parse_toml_document, toml_into_texts, toml_into_small_int, toml_into_text,
};

verus! {

pub const WORKSPACE_CONFIG_FILE_NAME: &'static str = "cobble.toml";

pub const PROJECT_FILE_NAME: &'static str = "project.lua";

pub const DEFAULT_NUM_THREADS: u8 = 5;

/// When the console shows the output of a task.
#[derive(PartialEq, Eq, Structural, Clone, Copy, Debug)]
pub enum TaskOutputCondition {
    Always,
    Never,
    OnFail,
}

/// A result whose error text is taken by its view.
pub open spec fn text_result<T>(r: Result<T, String>) -> Result<T, Seq<char>> {
    match r {
        Ok(x) => Ok(x),
        Err(e) => Err(e@),
    }
}

/// What `str::to_lowercase` makes of a text.
pub uninterp spec fn lowercase(s: Seq<char>) -> Seq<char>;

/// A character in lower case, as ASCII has it: `A` to `Z` become `a` to
/// `z`, any other character stays.
pub open spec fn ascii_lower_char(c: char) -> char {
    if 65 <= (c as u32) && (c as u32) <= 90 {
        ((c as u32) + 32) as char
    } else {
        c
    }
}

/// Every character of the text is ASCII.
pub open spec fn is_ascii_text(s: Seq<char>) -> bool {
    forall|i: int| 0 <= i < s.len() ==> (#[trigger] s[i] as u32) < 128
}

/// `str::to_lowercase`: the text in lower case, as named by `lowercase`. On
/// an ASCII text its documentation makes it the ASCII lower case: each
/// character's lowercase mapping, and that of `A` to `Z` is `a` to `z`.
#[verifier::external_body]
fn to_lowercase(s: &str) -> (r: String)
    ensures
        r@ == lowercase(s@),
        is_ascii_text(s@) ==> r@ == s@.map_values(|c: char| ascii_lower_char(c)),
{
    s.to_lowercase()
}

/// The output condition that a lower-case text names.
pub open spec fn output_condition_spec(lower: Seq<char>) -> Result<TaskOutputCondition, Seq<char>> {
    if lower == "always"@ {
        Ok(TaskOutputCondition::Always)
    } else if lower == "never"@ {
        Ok(TaskOutputCondition::Never)
    } else if lower == "on_fail"@ {
        Ok(TaskOutputCondition::OnFail)
    } else {
        Err(
            "Invalid value given for output condition: "@ + lower
                + ".  Expected one of [always, never, on_fail]."@,
        )
    }
}

/// Reads an output condition from a text already in lower case.
pub fn output_condition_from_lowercase(value_lower: &str) -> (r: Result<TaskOutputCondition, String>)
    ensures
        text_result(r) == output_condition_spec(value_lower@),
{
    if str_eq(value_lower, "always") {
        Ok(TaskOutputCondition::Always)
    } else if str_eq(value_lower, "never") {
        Ok(TaskOutputCondition::Never)
    } else if str_eq(value_lower, "on_fail") {
        Ok(TaskOutputCondition::OnFail)
    } else {
        let mut msg = String::from_str("Invalid value given for output condition: ");
        msg.append(value_lower);
        msg.append(".  Expected one of [always, never, on_fail].");
        Err(msg)
    }
}

/// Reads an output condition, in any case: `always`, `never` or `on_fail`.
pub fn parse_output_condition(value: &str) -> (r: Result<TaskOutputCondition, String>)
    ensures
        text_result(r) == output_condition_spec(lowercase(value@)),
        is_ascii_text(value@) ==> text_result(r) == output_condition_spec(
            value@.map_values(|c: char| ascii_lower_char(c)),
        ),
{
    let value_lower = to_lowercase(value);
    output_condition_from_lowercase(value_lower.as_str())
}

/// The output condition that a Lua value names: a string, read as
/// `parse_output_condition` reads it.
pub open spec fn output_condition_of_lua(v: LuaValue) -> Result<TaskOutputCondition, Seq<char>> {
    match v.kind {
        LuaKind::Str => match text_view(v) {
            Err(e) => Err(e),
            Ok(t) => output_condition_spec(lowercase(t)),
        },
        _ => Err("Expected a string value for output condition, but got a  "@ + type_name_of(v.kind) + "."@),
    }
}

/// Reads an output condition from a Lua value.
pub fn output_condition_from_lua(value: &LuaValue) -> (r: Result<TaskOutputCondition, String>)
    ensures
        text_result(r) == output_condition_of_lua(*value),
{
    match &value.kind {
        LuaKind::Str => match &value.text {
            Err(e) => Err(e.clone()),
            Ok(t) => parse_output_condition(t.as_str()),
        },
        _ => {
            let mut m = String::from_str("Expected a string value for output condition, but got a  ");
            m.append(value.kind_name());
            m.append(".");
            Err(m)
        },
    }
}

/// The workspace settings.
#[derive(Debug)]
pub struct WorkspaceConfig {
    pub workspace_dir: String,
    pub root_projects: Vec<String>,
    pub vars: Vec<(String, TomlValue)>,
    pub force_run_tasks: bool,
    pub num_threads: u8,
    pub show_stdout: TaskOutputCondition,
    pub show_stderr: TaskOutputCondition,
}

/// The mathematical model of the workspace settings.
pub struct WorkspaceConfigView {
    pub workspace_dir: Seq<char>,
    pub root_projects: Seq<Seq<char>>,
    pub vars: Seq<(Seq<char>, TomlData)>,
    pub force_run_tasks: bool,
    pub num_threads: u8,
    pub show_stdout: TaskOutputCondition,
    pub show_stderr: TaskOutputCondition,
}

pub open spec fn strings_view(v: Seq<String>) -> Seq<Seq<char>> {
    v.map_values(|s: String| s@)
}

impl View for WorkspaceConfig {
    type V = WorkspaceConfigView;

    open spec fn view(&self) -> WorkspaceConfigView {
        WorkspaceConfigView {
            workspace_dir: self.workspace_dir@,
            root_projects: strings_view(self.root_projects@),
            vars: data_of_entries(self.vars@),
            force_run_tasks: self.force_run_tasks,
            num_threads: self.num_threads,
            show_stdout: self.show_stdout,
            show_stderr: self.show_stderr,
        }
    }
}

/// The settings that the command line gives.
#[derive(Debug)]
pub struct WorkspaceConfigArgs {
    pub vars: Vec<String>,
    pub force_run_tasks: Option<bool>,
    pub num_threads: Option<u8>,
    pub show_stdout: Option<TaskOutputCondition>,
    pub show_stderr: Option<TaskOutputCondition>,
}

impl Default for WorkspaceConfigArgs {
    fn default() -> (r: WorkspaceConfigArgs)
        ensures
            r.vars@.len() == 0,
            r.force_run_tasks is None,
            r.num_threads is None,
            r.show_stdout is None,
            r.show_stderr is None,
    {
        WorkspaceConfigArgs {
            vars: Vec::new(),
            force_run_tasks: None,
            num_threads: None,
            show_stdout: None,
            show_stderr: None,
        }
    }
}

/// Why the settings could not be read.
#[derive(Debug)]
pub enum WorkspaceConfigError {
    IOError(IoFailure),
    FileError { path: String, error: IoFailure },
    ParseError(String),
    ValueError(String),
    SetVarError(String),
}

pub enum ConfigErrorView {
    IOError(IoErrorKind, Seq<char>),
    FileError { path: Seq<char>, kind: IoErrorKind, error: Seq<char> },
    ParseError(Seq<char>),
    ValueError(Seq<char>),
    SetVarError(Seq<char>),
}

impl View for WorkspaceConfigError {
    type V = ConfigErrorView;

    open spec fn view(&self) -> ConfigErrorView {
        match self {
            WorkspaceConfigError::IOError(e) => ConfigErrorView::IOError(e.kind, e.message@),
            WorkspaceConfigError::FileError { path, error } => ConfigErrorView::FileError {
                path: path@,
                kind: error.kind,
                error: error.message@,
            },
            WorkspaceConfigError::ParseError(e) => ConfigErrorView::ParseError(e@),
            WorkspaceConfigError::ValueError(e) => ConfigErrorView::ValueError(e@),
            WorkspaceConfigError::SetVarError(e) => ConfigErrorView::SetVarError(e@),
        }
    }
}

impl WorkspaceConfigError {
    /// The message that describes the error.
    pub fn message(&self) -> (r: String)
        ensures
            r@ == error_message(self@),
    {
        let mut r;
        match self {
            WorkspaceConfigError::IOError(e) => {
                r = String::from_str("");
                r.append(e.message.as_str());
            },
            WorkspaceConfigError::FileError { path, error } => {
                r = String::from_str("Error reading file at ");
                r.append(path.as_str());
                r.append(": ");
                r.append(error.message.as_str());
            },
            WorkspaceConfigError::ParseError(e) => {
                r = String::from_str("Error parsing config file: ");
                r.append(e.as_str());
            },
            WorkspaceConfigError::ValueError(e) => {
                r = String::from_str("Error reading config values: ");
                r.append(e.as_str());
            },
            WorkspaceConfigError::SetVarError(e) => {
                r = String::from_str("Error setting variable: ");
                r.append(e.as_str());
            },
        }
        r
    }
}

/// The message of a configuration error.
pub open spec fn error_message(e: ConfigErrorView) -> Seq<char> {
    match e {
        ConfigErrorView::IOError(_, m) => ""@ + m,
        ConfigErrorView::FileError { path, error, .. } => "Error reading file at "@ + path + ": "@ + error,
        ConfigErrorView::ParseError(m) => "Error parsing config file: "@ + m,
        ConfigErrorView::ValueError(m) => "Error reading config values: "@ + m,
        ConfigErrorView::SetVarError(m) => "Error setting variable: "@ + m,
    }
}

pub open spec fn config_result_view(r: Result<WorkspaceConfig, WorkspaceConfigError>) -> Result<
    WorkspaceConfigView,
    ConfigErrorView,
> {
    match r {
        Ok(c) => Ok(c@),
        Err(e) => Err(e@),
    }
}

/// The value of the first entry of `key` in a table.
pub open spec fn lookup(t: Seq<(Seq<char>, TomlData)>, key: Seq<char>) -> Option<TomlData>
    decreases t.len(),
{
    if t.len() == 0 {
        None
    } else if t[0].0 == key {
        Some(t[0].1)
    } else {
        lookup(t.drop_first(), key)
    }
}

/// The keys that the configuration file may hold.
pub open spec fn is_config_key(k: Seq<char>) -> bool {
    k == "root_projects"@ || k == "num_threads"@ || k == "output"@ || k == "stdout"@ || k == "stderr"@
        || k == "vars"@
}

/// The first key of a table that the configuration file may not hold.
pub open spec fn first_unknown_key(t: Seq<(Seq<char>, TomlData)>) -> Option<Seq<char>>
    decreases t.len(),
{
    if t.len() == 0 {
        None
    } else if !is_config_key(t[0].0) {
        Some(t[0].0)
    } else {
        first_unknown_key(t.drop_first())
    }
}

/// Reads the output condition under `key`, `default` when there is none; an
/// error names the key with `prefix`.
pub open spec fn condition_setting(
    t: Seq<(Seq<char>, TomlData)>,
    key: Seq<char>,
    prefix: Seq<char>,
    default: TaskOutputCondition,
) -> Result<TaskOutputCondition, Seq<char>> {
    match lookup(t, key) {
        None => Ok(default),
        Some(v) => match text_of(v) {
            None => Err(prefix + toml_text_error(v)),
            Some(s) => match output_condition_spec(lowercase(s)) {
                Ok(c) => Ok(c),
                Err(e) => Err(prefix + e),
            },
        },
    }
}

/// The settings that a parsed configuration table gives, for a configuration
/// file in the directory `parent`; the first setting that cannot be read
/// gives the error, in the order root projects, number of threads, output,
/// standard output, standard error, variables, and then the first key that
/// is not a setting.
pub open spec fn config_spec(t: Seq<(Seq<char>, TomlData)>, parent: Option<Seq<char>>) -> Result<
    WorkspaceConfigView,
    ConfigErrorView,
> {
    let root = match lookup(t, "root_projects"@) {
        None => Ok(seq!["."@]),
        Some(v) => match texts_of(v) {
            Some(x) => Ok(x),
            None => Err("at 'root_projects': "@ + toml_texts_error(v)),
        },
    };
    let threads = match lookup(t, "num_threads"@) {
        None => Ok(DEFAULT_NUM_THREADS),
        Some(v) => match small_int_of(v) {
            Some(n) => Ok(n),
            None => Err("at 'num_threads': "@ + toml_small_int_error(v)),
        },
    };
    let output = condition_setting(t, "output"@, "at 'output': "@, TaskOutputCondition::OnFail);
    let vars = match lookup(t, "vars"@) {
        None => Ok(Seq::<(Seq<char>, TomlData)>::empty()),
        Some(TomlData::Table(entries)) => Ok(entries),
        Some(_) => Err("vars config variable must be a table"@),
    };
    match (root, threads, output) {
        (Err(e), _, _) => Err(ConfigErrorView::ValueError(e)),
        (Ok(_), Err(e), _) => Err(ConfigErrorView::ValueError(e)),
        (Ok(_), Ok(_), Err(e)) => Err(ConfigErrorView::ValueError(e)),
        (Ok(root), Ok(threads), Ok(output)) => {
            let stdout = condition_setting(t, "stdout"@, "at 'stdout': "@, output);
            let stderr = condition_setting(t, "stderr"@, "at 'stderr': "@, output);
            match (stdout, stderr, vars) {
                (Err(e), _, _) => Err(ConfigErrorView::ValueError(e)),
                (Ok(_), Err(e), _) => Err(ConfigErrorView::ValueError(e)),
                (Ok(_), Ok(_), Err(e)) => Err(ConfigErrorView::ValueError(e)),
                (Ok(stdout), Ok(stderr), Ok(vars)) => match first_unknown_key(t) {
                    Some(k) => Err(ConfigErrorView::ValueError("Unrecognized field '"@ + k + "'"@)),
                    None => Ok(
                        WorkspaceConfigView {
                            workspace_dir: match parent {
                                Some(p) => p,
                                None => "."@,
                            },
                            root_projects: root,
                            vars,
                            force_run_tasks: false,
                            num_threads: threads,
                            show_stdout: stdout,
                            show_stderr: stderr,
                        },
                    ),
                },
            }
        },
    }
}

/// The standard output and standard error settings each fall back to the
/// `output` setting: a configuration without `stdout` (or `stderr`) shows
/// that stream as `output` says, and as on failure when `output` is absent
/// too; a configuration with neither stream key shows both streams alike.
pub proof fn law_stream_settings_fall_back_to_output(
    t: Seq<(Seq<char>, TomlData)>,
    parent: Option<Seq<char>>,
    c: WorkspaceConfigView,
)
    requires
        config_spec(t, parent) == Ok::<WorkspaceConfigView, ConfigErrorView>(c),
    ensures
        lookup(t, "stdout"@) is None ==> Ok::<TaskOutputCondition, Seq<char>>(c.show_stdout)
            == condition_setting(t, "output"@, "at 'output': "@, TaskOutputCondition::OnFail),
        lookup(t, "stderr"@) is None ==> Ok::<TaskOutputCondition, Seq<char>>(c.show_stderr)
            == condition_setting(t, "output"@, "at 'output': "@, TaskOutputCondition::OnFail),
        lookup(t, "stdout"@) is None && lookup(t, "output"@) is None ==> c.show_stdout
            == TaskOutputCondition::OnFail,
        lookup(t, "stderr"@) is None && lookup(t, "output"@) is None ==> c.show_stderr
            == TaskOutputCondition::OnFail,
        lookup(t, "stdout"@) is None && lookup(t, "stderr"@) is None ==> c.show_stdout == c.show_stderr,
{
}

proof fn lemma_lookup_index(t: Seq<(Seq<char>, TomlData)>, key: Seq<char>, i: int)
    requires
        0 <= i <= t.len(),
        forall|j: int| 0 <= j < i ==> #[trigger] t[j].0 != key,
    ensures
        lookup(t, key) == lookup(t.subrange(i, t.len() as int), key),
    decreases i,
{
    if i > 0 {
        assert(t[0].0 != key);
        let rest = t.drop_first();
        assert forall|j: int| 0 <= j < i - 1 implies #[trigger] rest[j].0 != key by {
            assert(rest[j] == t[j + 1]);
        }
        lemma_lookup_index(rest, key, i - 1);
        assert(rest.subrange(i - 1, rest.len() as int) =~= t.subrange(i, t.len() as int));
    } else {
        assert(t.subrange(0, t.len() as int) =~= t);
    }
}

proof fn lemma_unknown_index(t: Seq<(Seq<char>, TomlData)>, i: int)
    requires
        0 <= i <= t.len(),
        forall|j: int| 0 <= j < i ==> is_config_key(#[trigger] t[j].0),
    ensures
        first_unknown_key(t) == first_unknown_key(t.subrange(i, t.len() as int)),
    decreases i,
{
    if i > 0 {
        assert(is_config_key(t[0].0));
        let rest = t.drop_first();
        assert forall|j: int| 0 <= j < i - 1 implies is_config_key(#[trigger] rest[j].0) by {
            assert(rest[j] == t[j + 1]);
        }
        lemma_unknown_index(rest, i - 1);
        assert(rest.subrange(i - 1, rest.len() as int) =~= t.subrange(i, t.len() as int));
    } else {
        assert(t.subrange(0, t.len() as int) =~= t);
    }
}

/// The index of the first entry of `key`.
pub(crate) fn find_entry(table: &Vec<(String, TomlValue)>, key: &str) -> (r: Option<usize>)
    ensures
        match r {
            Some(i) => i < table@.len() && lookup(data_of_entries(table@), key@) == Some(data_of(table@[i as int].1))
                && table@[i as int].0@ == key@,
            None => lookup(data_of_entries(table@), key@) is None,
        },
        forall|j: int|
            0 <= j < table@.len() && (r matches Some(i) ==> j < i) ==> #[trigger] table@[j].0@ != key@,
{
    let ghost t = data_of_entries(table@);
    proof {
        lemma_entries_len(table@);
    }
    let mut i: usize = 0;
    while i < table.len()
        invariant
            i <= table@.len(),
            t == data_of_entries(table@),
            t.len() == table@.len(),
            forall|j: int| 0 <= j < t.len() ==> #[trigger] t[j] == (table@[j].0@, data_of(table@[j].1)),
            forall|j: int| 0 <= j < i ==> #[trigger] t[j].0 != key@,
            forall|j: int| 0 <= j < i ==> #[trigger] table@[j].0@ != key@,
        decreases table@.len() - i,
    {
        if str_eq(table[i].0.as_str(), key) {
            proof {
                lemma_lookup_index(t, key@, i as int);
                assert(t.subrange(i as int, t.len() as int)[0] == t[i as int]);
            }
            return Some(i);
        }
        i = i + 1;
    }
    proof {
        lemma_lookup_index(t, key@, i as int);
        assert(t.subrange(i as int, t.len() as int).len() == 0);
    }
    None
}

fn is_config_key_exec(k: &str) -> (b: bool)
    ensures
        b == is_config_key(k@),
{
    str_eq(k, "root_projects") || str_eq(k, "num_threads") || str_eq(k, "output") || str_eq(k, "stdout")
        || str_eq(k, "stderr") || str_eq(k, "vars")
}

/// The first key of the table that is not a setting.
fn find_unknown_key(table: &Vec<(String, TomlValue)>) -> (r: Option<String>)
    ensures
        match r {
            Some(k) => first_unknown_key(data_of_entries(table@)) == Some(k@),
            None => first_unknown_key(data_of_entries(table@)) is None,
        },
{
    let ghost t = data_of_entries(table@);
    proof {
        lemma_entries_len(table@);
    }
    let mut i: usize = 0;
    while i < table.len()
        invariant
            i <= table@.len(),
            t == data_of_entries(table@),
            t.len() == table@.len(),
            forall|j: int| 0 <= j < t.len() ==> #[trigger] t[j] == (table@[j].0@, data_of(table@[j].1)),
            forall|j: int| 0 <= j < i ==> is_config_key(#[trigger] t[j].0),
        decreases table@.len() - i,
    {
        if !is_config_key_exec(table[i].0.as_str()) {
            proof {
                lemma_unknown_index(t, i as int);
                assert(t.subrange(i as int, t.len() as int)[0] == t[i as int]);
            }
            return Some(table[i].0.clone());
        }
        i = i + 1;
    }
    proof {
        lemma_unknown_index(t, i as int);
        assert(t.subrange(i as int, t.len() as int).len() == 0);
    }
    None
}

pub(crate) fn prefixed(prefix: &str, text: &str) -> (r: String)
    ensures
        r@ == prefix@ + text@,
{
    let mut r = String::from_str(prefix);
    r.append(text);
    r
}

/// Reads the output condition under `key`, `default` when the table has none.
fn read_condition(
    table: &Vec<(String, TomlValue)>,
    key: &str,
    prefix: &str,
    default: TaskOutputCondition,
) -> (r: Result<TaskOutputCondition, String>)
    ensures
        text_result(r) == condition_setting(data_of_entries(table@), key@, prefix@, default),
{
    match find_entry(table, key) {
        None => Ok(default),
        Some(i) => match toml_into_text(&table[i].1) {
            Err(e) => Err(prefixed(prefix, e.as_str())),
            Ok(s) => match parse_output_condition(s.as_str()) {
                Ok(c) => Ok(c),
                Err(e) => Err(prefixed(prefix, e.as_str())),
            },
        },
    }
}

fn value_error(msg: String) -> (r: WorkspaceConfigError)
    ensures
        r@ == ConfigErrorView::ValueError(msg@),
{
    WorkspaceConfigError::ValueError(msg)
}

/// The settings that a parsed configuration table gives, for the
/// configuration file at `config_path`; the workspace directory is the
/// directory of that file.
pub fn workspace_config_from_table(table: Vec<(String, TomlValue)>, config_path: &str) -> (r: Result<
    WorkspaceConfig,
    WorkspaceConfigError,
>)
    ensures
        config_result_view(r) == config_spec(data_of_entries(table@), path_parent(config_path@)),
{
    let ghost t = data_of_entries(table@);
    let mut table = table;
    let root_projects = match find_entry(&table, "root_projects") {
        None => {
            let mut v: Vec<String> = Vec::new();
            v.push(String::from_str("."));
            proof {
                assert(strings_view(v@) =~= seq!["."@]);
            }
            v
        },
        Some(i) => match toml_into_texts(&table[i].1) {
            Ok(x) => {
                proof {
                    assert(strings_view(x@) =~= texts_of(data_of(table@[i as int].1))->0);
                }
                x
            },
            Err(e) => {
                return Err(value_error(prefixed("at 'root_projects': ", e.as_str())));
            },
        },
    };
    let num_threads = match find_entry(&table, "num_threads") {
        None => DEFAULT_NUM_THREADS,
        Some(i) => match toml_into_small_int(&table[i].1) {
            Ok(n) => n,
            Err(e) => {
                return Err(value_error(prefixed("at 'num_threads': ", e.as_str())));
            },
        },
    };
    let output = match read_condition(&table, "output", "at 'output': ", TaskOutputCondition::OnFail) {
        Ok(c) => c,
        Err(e) => {
            return Err(value_error(e));
        },
    };
    let show_stdout = match read_condition(&table, "stdout", "at 'stdout': ", output) {
        Ok(c) => c,
        Err(e) => {
            return Err(value_error(e));
        },
    };
    let show_stderr = match read_condition(&table, "stderr", "at 'stderr': ", output) {
        Ok(c) => c,
        Err(e) => {
            return Err(value_error(e));
        },
    };
    let unknown = find_unknown_key(&table);
    let vars: Vec<(String, TomlValue)> = match find_entry(&table, "vars") {
        None => Vec::new(),
        Some(i) => {
            let (_key, value) = table.remove(i);
            match value {
                TomlValue::Table(entries) => entries,
                _ => {
                    return Err(value_error(String::from_str("vars config variable must be a table")));
                },
            }
        },
    };
    if let Some(k) = unknown {
        let mut msg = String::from_str("Unrecognized field '");
        msg.append(k.as_str());
        msg.append("'");
        return Err(value_error(msg));
    }
    let workspace_dir = match parent_of(config_path) {
        Some(p) => p,
        None => String::from_str("."),
    };
    let config = WorkspaceConfig {
        workspace_dir,
        root_projects,
        vars,
        force_run_tasks: false,
        num_threads,
        show_stdout,
        show_stderr,
    };
    Ok(config)
}

/// The settings that the text of the configuration file at `path` gives.
pub open spec fn parsed_config(text: Seq<char>, path: Seq<char>) -> Result<WorkspaceConfigView, ConfigErrorView> {
    match toml_document(text) {
        Err(e) => Err(ConfigErrorView::ParseError("Error parsing config: "@ + e)),
        Ok(t) => config_spec(t, path_parent(path)),
    }
}

/// Reads the workspace settings from the text of the configuration file at
/// `config_path`.
pub fn parse_workspace_config(config_str: &str, config_path: &str) -> (r: Result<
    WorkspaceConfig,
    WorkspaceConfigError,
>)
    ensures
        config_result_view(r) == parsed_config(config_str@, config_path@),
{
    match parse_toml_document(config_str) {
        Err(e) => Err(WorkspaceConfigError::ParseError(prefixed("Error parsing config: ", e.as_str()))),
        Ok(t) => workspace_config_from_table(t, config_path),
    }
}

proof fn lemma_entries_update(s: Seq<(String, TomlValue)>, i: int, e: (String, TomlValue))
    requires
        0 <= i < s.len(),
    ensures
        data_of_entries(s.update(i, e)) == data_of_entries(s).update(i, (e.0@, data_of(e.1))),
{
    lemma_entries_len(s);
    lemma_entries_len(s.update(i, e));
    assert(data_of_entries(s.update(i, e)) =~= data_of_entries(s).update(i, (e.0@, data_of(e.1))));
}

/// Splits a text at its first `=`.
pub open spec fn eq_split(s: Seq<char>) -> Option<(Seq<char>, Seq<char>)>
    decreases s.len(),
{
    if s.len() == 0 {
        None
    } else if s[0] == '=' {
        Some((Seq::<char>::empty(), s.drop_first()))
    } else {
        match eq_split(s.drop_first()) {
            Some((a, b)) => Some((seq![s[0]] + a, b)),
            None => None,
        }
    }
}

proof fn lemma_eq_split_at(s: Seq<char>, i: int)
    requires
        0 <= i < s.len(),
        s[i] == '=',
        forall|j: int| 0 <= j < i ==> s[j] != '=',
    ensures
        eq_split(s) == Some((s.take(i), s.skip(i + 1))),
    decreases i,
{
    if i > 0 {
        let rest = s.drop_first();
        assert forall|j: int| 0 <= j < i - 1 implies rest[j] != '=' by {
            assert(rest[j] == s[j + 1]);
        }
        lemma_eq_split_at(rest, i - 1);
        assert(seq![s[0]] + rest.take(i - 1) =~= s.take(i));
        assert(rest.skip(i) =~= s.skip(i + 1));
    } else {
        assert(s.take(0) =~= Seq::<char>::empty());
        assert(s.skip(1) =~= s.drop_first());
    }
}

proof fn lemma_eq_split_none(s: Seq<char>)
    requires
        forall|j: int| 0 <= j < s.len() ==> s[j] != '=',
    ensures
        eq_split(s) is None,
    decreases s.len(),
{
    if s.len() > 0 {
        let rest = s.drop_first();
        assert forall|j: int| 0 <= j < rest.len() implies rest[j] != '=' by {
            assert(rest[j] == s[j + 1]);
        }
        lemma_eq_split_none(rest);
    }
}

/// Sets entry `name` of a table: the first entry of that key takes the
/// value, or a new entry ends the table.
pub open spec fn set_entry(t: Seq<(Seq<char>, TomlData)>, name: Seq<char>, v: TomlData) -> Seq<
    (Seq<char>, TomlData),
>
    decreases t.len(),
{
    if t.len() == 0 {
        seq![(name, v)]
    } else if t[0].0 == name {
        t.update(0, (name, v))
    } else {
        seq![t[0]] + set_entry(t.drop_first(), name, v)
    }
}

proof fn lemma_set_entry_at(t: Seq<(Seq<char>, TomlData)>, name: Seq<char>, v: TomlData, i: int)
    requires
        0 <= i <= t.len(),
        i < t.len() ==> t[i].0 == name,
        forall|j: int| 0 <= j < i ==> #[trigger] t[j].0 != name,
    ensures
        set_entry(t, name, v) == if i < t.len() {
            t.update(i, (name, v))
        } else {
            t.push((name, v))
        },
    decreases i,
{
    if i > 0 {
        let rest = t.drop_first();
        assert(t[0].0 != name);
        assert forall|j: int| 0 <= j < i - 1 implies #[trigger] rest[j].0 != name by {
            assert(rest[j] == t[j + 1]);
        }
        lemma_set_entry_at(rest, name, v, i - 1);
        if i < t.len() {
            assert(seq![t[0]] + rest.update(i - 1, (name, v)) =~= t.update(i, (name, v)));
        } else {
            assert(seq![t[0]] + rest.push((name, v)) =~= t.push((name, v)));
        }
    } else if t.len() == 0 {
        assert(seq![(name, v)] =~= t.push((name, v)));
    }
}

/// The message for a variable argument without `=`.
pub open spec fn var_arg_error(var: Seq<char>) -> Seq<char> {
    "Unable to parse variable argument '"@ + var
        + "'.  Specify variable arguments in the form '--var <the.var.name>=<value>'."@
}

/// Sets the variables given as `name=value` arguments, left to right, until
/// an argument has no `=`: the variables then, and the message for that
/// argument, if any.
pub open spec fn apply_cli_vars(vars: Seq<Seq<char>>, t: Seq<(Seq<char>, TomlData)>) -> (
    Seq<(Seq<char>, TomlData)>,
    Option<Seq<char>>,
)
    decreases vars.len(),
{
    if vars.len() == 0 {
        (t, None)
    } else {
        match eq_split(vars[0]) {
            None => (t, Some(var_arg_error(vars[0]))),
            Some((name, value)) => apply_cli_vars(vars.drop_first(), set_entry(t, name, TomlData::String(value))),
        }
    }
}

fn split_var_arg(var: &str) -> (r: Option<(String, String)>)
    ensures
        match r {
            Some((n, v)) => eq_split(var@) == Some((n@, v@)),
            None => eq_split(var@) is None,
        },
{
    let n = var.unicode_len();
    let mut i: usize = 0;
    while i < n
        invariant
            n == var@.len(),
            i <= n,
            forall|j: int| 0 <= j < i ==> var@[j] != '=',
        decreases n - i,
    {
        if var.get_char(i) == '=' {
            let name = var.substring_char(0, i);
            let value = var.substring_char(i + 1, n);
            proof {
                lemma_eq_split_at(var@, i as int);
                assert(name@ =~= var@.take(i as int));
                assert(value@ =~= var@.skip(i as int + 1));
            }
            return Some((String::from_str(name), String::from_str(value)));
        }
        i = i + 1;
    }
    proof {
        lemma_eq_split_none(var@);
    }
    None
}

/// Sets the variables that the command line gives as `name=value`
/// arguments; an argument without `=` stops at that argument with an error.
pub fn add_cli_vars_to_workspace_config(vars: &Vec<String>, config: &mut WorkspaceConfig) -> (r: Result<
    (),
    WorkspaceConfigError,
>)
    ensures
        final(config)@.vars == apply_cli_vars(strings_view(vars@), old(config)@.vars).0,
        match apply_cli_vars(strings_view(vars@), old(config)@.vars).1 {
            None => r is Ok,
            Some(m) => r matches Err(e) && e@ == ConfigErrorView::ValueError(m),
        },
        final(config).workspace_dir == old(config).workspace_dir,
        final(config).root_projects == old(config).root_projects,
        final(config).force_run_tasks == old(config).force_run_tasks,
        final(config).num_threads == old(config).num_threads,
        final(config).show_stdout == old(config).show_stdout,
        final(config).show_stderr == old(config).show_stderr,
{
    let ghost all = strings_view(vars@);
    assert(all.skip(0) =~= all);
    let mut k: usize = 0;
    while k < vars.len()
        invariant
            k <= vars@.len(),
            all == strings_view(vars@),
            apply_cli_vars(all, old(config)@.vars) == apply_cli_vars(all.skip(k as int), config@.vars),
            config.workspace_dir == old(config).workspace_dir,
            config.root_projects == old(config).root_projects,
            config.force_run_tasks == old(config).force_run_tasks,
            config.num_threads == old(config).num_threads,
            config.show_stdout == old(config).show_stdout,
            config.show_stderr == old(config).show_stderr,
        decreases vars@.len() - k,
    {
        let ghost rest = all.skip(k as int);
        assert(rest[0] == vars@[k as int]@);
        assert(rest.drop_first() =~= all.skip(k as int + 1));
        match split_var_arg(vars[k].as_str()) {
            None => {
                let mut msg = String::from_str("Unable to parse variable argument '");
                msg.append(vars[k].as_str());
                msg.append("'.  Specify variable arguments in the form '--var <the.var.name>=<value>'.");
                return Err(value_error(msg));
            },
            Some((name, value)) => {
                let ghost before = config@.vars;
                let ghost nv = name@;
                let ghost vv = value@;
                proof {
                    lemma_entries_len(config.vars@);
                }
                let ghost bt = config.vars@;
                let ghost tv = TomlData::String(vv);
                match find_entry(&config.vars, name.as_str()) {
                    Some(i) => {
                        config.vars.set(i, (name, TomlValue::String(value)));
                        proof {
                            assert forall|j: int| 0 <= j < i implies #[trigger] before[j].0 != nv by {
                                assert(before[j] == (bt[j].0@, data_of(bt[j].1)));
                            }
                            assert(before[i as int] == (bt[i as int].0@, data_of(bt[i as int].1)));
                            lemma_set_entry_at(before, nv, tv, i as int);
                            lemma_entries_update(bt, i as int, config.vars@[i as int]);
                            assert(config.vars@ == bt.update(i as int, config.vars@[i as int]));
                            assert(data_of(config.vars@[i as int].1) == tv);
                            assert(data_of_entries(config.vars@) == set_entry(before, nv, tv));
                        }
                    },
                    None => {
                        config.vars.push((name, TomlValue::String(value)));
                        proof {
                            assert forall|j: int| 0 <= j < before.len() implies #[trigger] before[j].0 != nv by {
                                assert(before[j] == (bt[j].0@, data_of(bt[j].1)));
                            }
                            lemma_set_entry_at(before, nv, tv, before.len() as int);
                            assert(config.vars@.drop_last() == bt);
                            assert(data_of(config.vars@.last().1) == tv);
                            assert(data_of_entries(config.vars@) == before.push((nv, tv)));
                            assert(data_of_entries(config.vars@) == set_entry(before, nv, tv));
                        }
                    },
                }
                proof {
                    assert(eq_split(rest[0]) == Some((nv, vv)));
                    assert(config@.vars == set_entry(before, nv, tv));
                    assert(apply_cli_vars(rest, before) == apply_cli_vars(rest.drop_first(), set_entry(before, nv, tv)));
                }
            },
        }
        k = k + 1;
    }
    proof {
        assert(all.skip(k as int).len() == 0);
    }
    Ok(())
}

/// The settings once the command line has overridden them: each setting
/// that it gives replaces the file's, and its variables are set.
pub open spec fn config_with_args(c: WorkspaceConfigView, args: WorkspaceConfigArgs) -> Result<
    WorkspaceConfigView,
    ConfigErrorView,
> {
    let (vars, err) = apply_cli_vars(strings_view(args.vars@), c.vars);
    match err {
        Some(m) => Err(ConfigErrorView::ValueError(m)),
        None => Ok(
            WorkspaceConfigView {
                workspace_dir: c.workspace_dir,
                root_projects: c.root_projects,
                vars,
                force_run_tasks: match args.force_run_tasks {
                    Some(f) => f,
                    None => c.force_run_tasks,
                },
                num_threads: match args.num_threads {
                    Some(n) => n,
                    None => c.num_threads,
                },
                show_stdout: match args.show_stdout {
                    Some(o) => o,
                    None => c.show_stdout,
                },
                show_stderr: match args.show_stderr {
                    Some(o) => o,
                    None => c.show_stderr,
                },
            },
        ),
    }
}

/// The workspace settings from the text of the configuration file at
/// `config_path`, overridden by the command line.
pub fn get_workspace_config(config_str: &str, config_path: &str, args: &WorkspaceConfigArgs) -> (r: Result<
    WorkspaceConfig,
    WorkspaceConfigError,
>)
    ensures
        config_result_view(r) == match parsed_config(config_str@, config_path@) {
            Err(e) => Err(e),
            Ok(c) => config_with_args(c, *args),
        },
{
    let mut config = match parse_workspace_config(config_str, config_path) {
        Ok(c) => c,
        Err(e) => {
            return Err(e);
        },
    };
    if let Some(force_run_tasks) = args.force_run_tasks {
        config.force_run_tasks = force_run_tasks;
    }
    if let Some(num_threads) = args.num_threads {
        config.num_threads = num_threads;
    }
    if let Some(show_stdout) = args.show_stdout {
        config.show_stdout = show_stdout;
    }
    if let Some(show_stderr) = args.show_stderr {
        config.show_stderr = show_stderr;
    }
    match add_cli_vars_to_workspace_config(&args.vars, &mut config) {
        Ok(()) => Ok(config),
        Err(e) => Err(e),
    }
}

/// The directories from `dir` up that lie in the workspace `ws`, nearest
/// first, each with its path relative to the workspace, written from `.`.
pub open spec fn project_dir_candidates_spec(dir: Seq<char>, ws: Seq<char>) -> Seq<(Seq<char>, Seq<char>)>
    decreases dir.len(),
{
    if !path_has_prefix(dir, ws) {
        seq![]
    } else {
        let rel = match path_without_prefix(dir, ws) {
            Some(r) => path_normalized(path_join("."@, r)),
            None => ""@,
        };
        let rest = match path_parent(dir) {
            Some(q) => if q.len() < dir.len() {
                project_dir_candidates_spec(q, ws)
            } else {
                seq![]
            },
            None => seq![],
        };
        seq![(dir, rel)] + rest
    }
}

/// The directories from `path` up that lie in the workspace at
/// `workspace_dir` (both canonical), nearest first, each with its project
/// path relative to the workspace.
pub fn project_dir_candidates(path: &str, workspace_dir: &str) -> (r: Vec<(String, String)>)
    ensures
        r@.map_values(|e: (String, String)| (e.0@, e.1@)) == project_dir_candidates_spec(path@, workspace_dir@),
    decreases path@.len(),
{
    if !path_starts_with(path, workspace_dir) {
        let r: Vec<(String, String)> = Vec::new();
        proof {
            assert(r@.map_values(|e: (String, String)| (e.0@, e.1@)) =~= Seq::<(Seq<char>, Seq<char>)>::empty());
        }
        return r;
    }
    let rel = match strip_path_prefix(path, workspace_dir) {
        Some(stripped) => normalized_path(join_path(".", stripped.as_str()).as_str()),
        None => String::from_str(""),
    };
    let mut rest = match parent_of(path) {
        Some(q) => project_dir_candidates(q.as_str(), workspace_dir),
        None => Vec::new(),
    };
    let mut r: Vec<(String, String)> = Vec::new();
    r.push((String::from_str(path), rel));
    let ghost first = r@;
    let ghost tail = rest@;
    r.append(&mut rest);
    proof {
        let f = |e: (String, String)| (e.0@, e.1@);
        assert(r@ == first + tail);
        assert(r@.map_values(f) =~= first.map_values(f) + tail.map_values(f));
        if path_parent(path@) is None {
            assert(tail.map_values(f) =~= Seq::<(Seq<char>, Seq<char>)>::empty());
        }
    }
    r
}

/// `i` is the first index below `n` that `flags` marks.
pub open spec fn first_flagged(flags: Seq<bool>, n: int, i: int) -> bool {
    &&& 0 <= i < n
    &&& i < flags.len()
    &&& flags[i]
    &&& forall|j: int| 0 <= j < i ==> !#[trigger] flags[j]
}

/// The project directory nearest to `path` in the workspace at
/// `workspace_dir` (both canonical), relative to the workspace:
/// `has_project_file` says, for each candidate that `project_dir_candidates`
/// gives, in its order, whether it holds a project file; the first that does
/// is the answer, and `.` when none does.
pub fn find_nearest_project_dir(path: &str, workspace_dir: &str, has_project_file: &Vec<bool>) -> (r: String)
    ensures
        (exists|i: int|
            #[trigger] first_flagged(has_project_file@, project_dir_candidates_spec(path@, workspace_dir@).len() as int, i)
                && r@ == project_dir_candidates_spec(path@, workspace_dir@)[i].1) || (r@ == "."@ && forall|i: int|
            0 <= i < project_dir_candidates_spec(path@, workspace_dir@).len() && i < has_project_file@.len()
                ==> !#[trigger] has_project_file@[i]),
{
    let candidates = project_dir_candidates(path, workspace_dir);
    let ghost c = project_dir_candidates_spec(path@, workspace_dir@);
    let mut i: usize = 0;
    while i < candidates.len() && i < has_project_file.len()
        invariant
            c == candidates@.map_values(|e: (String, String)| (e.0@, e.1@)),
            c == project_dir_candidates_spec(path@, workspace_dir@),
            i <= candidates@.len(),
            forall|j: int| 0 <= j < i && j < has_project_file@.len() ==> !#[trigger] has_project_file@[j],
        decreases candidates@.len() - i,
    {
        if has_project_file[i] {
            let r = candidates[i].1.clone();
            proof {
                assert(c[i as int].1 == r@);
                assert(c.len() == candidates@.len());
                assert(has_project_file@[i as int]);
                assert(forall|j: int| 0 <= j < i ==> !#[trigger] has_project_file@[j]);
                assert(first_flagged(has_project_file@, c.len() as int, i as int));
            }
            return r;
        }
        i = i + 1;
    }
    proof {
        assert(c.len() == candidates@.len());
    }
    String::from_str(".")
}

/// The workspace configuration file nearest to `path`: the file in the
/// first directory, from `canonical_path` (the canonical form of `path`)
/// up, that holds one. `has_config_file` says, for each directory that
/// `ancestor_dirs` gives for `canonical_path`, in its order, whether it
/// holds the file; when none does, the error names `path` as it was given.
pub fn find_nearest_workspace_config_file_from(path: &str, canonical_path: &str, has_config_file: &Vec<bool>) -> (r: Result<
    String,
    IoFailure,
>)
    ensures
        match r {
            Ok(f) => exists|i: int|
                #[trigger] first_flagged(has_config_file@, ancestors_spec(canonical_path@).len() as int, i) && f@
                    == path_join(ancestors_spec(canonical_path@)[i], WORKSPACE_CONFIG_FILE_NAME@),
            Err(e) => e.kind == IoErrorKind::NotFound
                && e.message@ == "Did not find 'cobble.toml' file in any ancestor directory from "@ + path@
                && forall|i: int|
                0 <= i < ancestors_spec(canonical_path@).len() && i < has_config_file@.len()
                    ==> !#[trigger] has_config_file@[i],
        },
{
    let candidates = ancestor_dirs(canonical_path);
    let ghost c = ancestors_spec(canonical_path@);
    let mut i: usize = 0;
    while i < candidates.len() && i < has_config_file.len()
        invariant
            c == candidates@.map_values(|s: String| s@),
            c == ancestors_spec(canonical_path@),
            i <= candidates@.len(),
            forall|j: int| 0 <= j < i && j < has_config_file@.len() ==> !#[trigger] has_config_file@[j],
        decreases candidates@.len() - i,
    {
        if has_config_file[i] {
            let f = join_path(candidates[i].as_str(), WORKSPACE_CONFIG_FILE_NAME);
            proof {
                assert(c[i as int] == candidates@[i as int]@);
                assert(c.len() == candidates@.len());
                assert(forall|j: int| 0 <= j < i ==> !#[trigger] has_config_file@[j]);
                assert(first_flagged(has_config_file@, c.len() as int, i as int));
            }
            return Ok(f);
        }
        i = i + 1;
    }
    proof {
        assert(c.len() == candidates@.len());
    }
    let mut msg = String::from_str("Did not find 'cobble.toml' file in any ancestor directory from ");
    msg.append(path);
    Err(IoFailure { kind: IoErrorKind::NotFound, message: msg })
}

} // verus!
