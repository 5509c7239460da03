//! The `path` library that project scripts use: joining paths, taking a
//! prefix off a path, and finding files by glob patterns.
use vstd::prelude::*;
use crate::lua::value::{text_view, LuaKind, LuaTable, LuaValue};
use crate::paths::{
    collect_path, component_texts, is_absolute_path, join_path, path_components, path_from_parts, path_is_absolute,
    path_join, path_without_prefix, strip_path_prefix,
};
use crate::text::{insert_sorted, str_eq, strictly_sorted, texts};

verus! {

/// What `glob::Pattern::new` says is wrong with a pattern (the text of the
/// `PatternError`); none for a pattern it accepts.
pub uninterp spec fn glob_pattern_error(pattern: Seq<char>) -> Option<Seq<char>>;

/// Whether `glob::Pattern::matches_path` matches the path against the
/// pattern.
pub uninterp spec fn glob_pattern_matches(pattern: Seq<char>, path: Seq<char>) -> bool;

/// `glob::Pattern::new`: whether the pattern compiles, with the error's
/// text when it does not, as `glob_pattern_error` names it.
#[verifier::external_body]
fn check_glob_pattern(pattern: &str) -> (r: Result<(), String>)
    ensures
        match glob_pattern_error(pattern@) {
            None => r is Ok,
            Some(e) => r matches Err(m) && m@ == e,
        },
{
    match glob::Pattern::new(pattern) {
        Ok(_) => Ok(()),
        Err(e) => Err(e.to_string()),
    }
}

/// `glob::Pattern::matches_path` for a pattern that compiles, as
/// `glob_pattern_matches` names it.
#[verifier::external_body]
fn glob_matches(pattern: &str, path: &str) -> (b: bool)
    requires
        glob_pattern_error(pattern@) is None,
    ensures
        b == glob_pattern_matches(pattern@, path@),
{
    match glob::Pattern::new(pattern) {
        Ok(p) => p.matches_path(std::path::Path::new(path)),
        Err(_) => false,
    }
}

/// The components without the `.` ones.
pub open spec fn without_cur_dirs(s: Seq<Seq<char>>) -> Seq<Seq<char>>
    decreases s.len(),
{
    if s.len() == 0 {
        seq![]
    } else if s.last() == "."@ {
        without_cur_dirs(s.drop_last())
    } else {
        without_cur_dirs(s.drop_last()).push(s.last())
    }
}

/// The path rebuilt from its components, leaving out `.` components.
pub open spec fn glob_base_spec(p: Seq<char>) -> Seq<char> {
    path_from_parts(without_cur_dirs(path_components(p)))
}

/// The path rebuilt from its components, leaving out `.` components.
pub fn normalize_path_for_glob(path: &str) -> (r: String)
    ensures
        r@ == glob_base_spec(path@),
{
    let comps = component_texts(path);
    let ghost cs = path_components(path@);
    let mut kept: Vec<String> = Vec::new();
    let mut i: usize = 0;
    proof {
        assert(kept@.map_values(|c: String| c@) =~= without_cur_dirs(cs.take(0)));
    }
    while i < comps.len()
        invariant
            cs == comps@.map_values(|c: String| c@),
            i <= comps@.len(),
            kept@.map_values(|c: String| c@) == without_cur_dirs(cs.take(i as int)),
        decreases comps@.len() - i,
    {
        proof {
            assert(cs.take(i as int + 1).drop_last() =~= cs.take(i as int));
            assert(cs.take(i as int + 1).last() == comps@[i as int]@);
        }
        if !str_eq(comps[i].as_str(), ".") {
            let ghost prev = kept@;
            kept.push(comps[i].clone());
            proof {
                assert(kept@.map_values(|c: String| c@) =~= prev.map_values(|c: String| c@).push(comps@[i as int]@));
            }
        }
        i = i + 1;
    }
    proof {
        assert(cs.take(i as int) =~= cs);
    }
    collect_path(&kept)
}

/// The path made by pushing each component in turn onto an empty path.
pub open spec fn joined_components(s: Seq<Seq<char>>) -> Seq<char>
    decreases s.len(),
{
    if s.len() == 0 {
        seq![]
    } else {
        path_join(joined_components(s.drop_last()), s.last())
    }
}

/// The path made by pushing each component in turn onto an empty path.
pub fn join_components(components: &Vec<String>) -> (r: String)
    ensures
        r@ == joined_components(components@.map_values(|c: String| c@)),
{
    let ghost cs = components@.map_values(|c: String| c@);
    let mut path = String::new();
    let mut i: usize = 0;
    proof {
        assert(cs.take(0).len() == 0);
    }
    while i < components.len()
        invariant
            cs == components@.map_values(|c: String| c@),
            i <= components@.len(),
            path@ == joined_components(cs.take(i as int)),
        decreases components@.len() - i,
    {
        proof {
            assert(cs.take(i as int + 1).drop_last() =~= cs.take(i as int));
            assert(cs.take(i as int + 1).last() == components@[i as int]@);
        }
        path = join_path(path.as_str(), components[i].as_str());
        i = i + 1;
    }
    proof {
        assert(cs.take(i as int) =~= cs);
    }
    path
}

/// What taking `prefix` off `path` gives: both are taken as relative to
/// `.`, and the error names them both when `path` does not start with
/// `prefix`.
pub open spec fn strip_prefix_spec(path: Seq<char>, prefix: Seq<char>) -> Result<Seq<char>, Seq<char>> {
    match path_without_prefix(path_join("."@, path), path_join("."@, prefix)) {
        Some(rest) => Ok(rest),
        None => Err("Cannot strip prefix. Path "@ + path + " does not start with "@ + prefix),
    }
}

/// Takes `prefix` off `path`.
pub fn strip_prefix(path: &str, prefix: &str) -> (r: Result<String, String>)
    ensures
        match strip_prefix_spec(path@, prefix@) {
            Ok(rest) => r matches Ok(x) && x@ == rest,
            Err(e) => r matches Err(m) && m@ == e,
        },
{
    let full = join_path(".", path);
    let base = join_path(".", prefix);
    match strip_path_prefix(full.as_str(), base.as_str()) {
        Some(rest) => Ok(rest),
        None => {
            let mut m = String::from_str("Cannot strip prefix. Path ");
            m.append(path);
            m.append(" does not start with ");
            m.append(prefix);
            Err(m)
        },
    }
}

/// A request for the files that match glob patterns: the base directory
/// the patterns are taken from (none for patterns used as they are), the
/// patterns to include and to exclude, and whether directories and files
/// are kept.
#[derive(Debug)]
pub struct GlobRequest {
    pub base: Option<String>,
    pub patterns: Vec<String>,
    pub excluded: Vec<String>,
    pub dirs: bool,
    pub files: bool,
}

pub struct GlobRequestView {
    pub base: Option<Seq<char>>,
    pub patterns: Seq<Seq<char>>,
    pub excluded: Seq<Seq<char>>,
    pub dirs: bool,
    pub files: bool,
}

pub open spec fn opt_text(o: Option<String>) -> Option<Seq<char>> {
    match o {
        Some(s) => Some(s@),
        None => None,
    }
}

pub open spec fn request_view(r: GlobRequest) -> GlobRequestView {
    GlobRequestView {
        base: opt_text(r.base),
        patterns: texts(r.patterns@),
        excluded: texts(r.excluded@),
        dirs: r.dirs,
        files: r.files,
    }
}

/// The texts of the values of a table, in order; the first value that does
/// not convert gives the error.
pub open spec fn value_texts(ps: Seq<(LuaValue, LuaValue)>) -> Result<Seq<Seq<char>>, Seq<char>>
    decreases ps.len(),
{
    if ps.len() == 0 {
        Ok(seq![])
    } else {
        match value_texts(ps.drop_last()) {
            Err(e) => Err(e),
            Ok(s) => match text_view(ps.last().1) {
                Err(e) => Err(e),
                Ok(t) => Ok(s.push(t)),
            },
        }
    }
}

/// The patterns that an `include` or `exclude` option gives: a string, or
/// a table of strings.
pub open spec fn pattern_option(v: LuaValue, message: Seq<char>) -> Result<Seq<Seq<char>>, Seq<char>> {
    match v.kind {
        LuaKind::Str => match text_view(v) {
            Err(e) => Err(e),
            Ok(t) => Ok(seq![t]),
        },
        LuaKind::Table(t) => value_texts(t.pairs@),
        _ => Err(message),
    }
}

pub open spec fn patterns_message() -> Seq<char> {
    "Expected string or list of strings for 'include' option"@
}

pub open spec fn excluded_message() -> Seq<char> {
    "Expected string or list of strings for 'exclued' option"@
}

/// The request after one option.
pub open spec fn option_step(st: GlobRequestView, p: (LuaValue, LuaValue)) -> Result<GlobRequestView, Seq<char>> {
    match text_view(p.0) {
        Err(e) => Err(e),
        Ok(k) => if k == "include"@ {
            match pattern_option(p.1, patterns_message()) {
                Err(e) => Err(e),
                Ok(ps) => Ok(GlobRequestView { patterns: st.patterns + ps, ..st }),
            }
        } else if k == "exclude"@ {
            match pattern_option(p.1, excluded_message()) {
                Err(e) => Err(e),
                Ok(ps) => Ok(GlobRequestView { excluded: st.excluded + ps, ..st }),
            }
        } else if k == "include_dirs"@ {
            match p.1.kind {
                LuaKind::Boolean(b) => Ok(GlobRequestView { dirs: b, ..st }),
                _ => Err("Expected boolean value for 'include_dirs' option"@),
            }
        } else if k == "include_files"@ {
            match p.1.kind {
                LuaKind::Boolean(b) => Ok(GlobRequestView { files: b, ..st }),
                _ => Err("Expected boolean value for 'include_files' option"@),
            }
        } else {
            Err("Invalid option: "@ + k)
        },
    }
}

/// The request after the options, in order.
pub open spec fn options_fold(st: GlobRequestView, ps: Seq<(LuaValue, LuaValue)>) -> Result<GlobRequestView, Seq<char>>
    decreases ps.len(),
{
    if ps.len() == 0 {
        Ok(st)
    } else {
        match options_fold(st, ps.drop_last()) {
            Err(e) => Err(e),
            Ok(s) => option_step(s, ps.last()),
        }
    }
}

/// The request that the arguments of a glob call make: a pattern; a base
/// directory and a pattern; either one followed by a table of options.
pub open spec fn glob_request_spec(first: LuaValue, second: LuaValue, third: LuaValue) -> Result<
    GlobRequestView,
    Seq<char>,
> {
    match text_view(first) {
        Err(e) => Err(e),
        Ok(a) => {
            let start = |base: Option<Seq<char>>, path: Seq<char>|
                GlobRequestView {
                    base: base,
                    patterns: seq![path],
                    excluded: seq![],
                    dirs: true,
                    files: true,
                };
            match second.kind {
                LuaKind::Nil => match third.kind {
                    LuaKind::Nil => Ok(start(None, a)),
                    _ => Err("Expected path (string) or options (table) as second argument"@),
                },
                LuaKind::Table(o) => match third.kind {
                    LuaKind::Nil => options_fold(start(None, a), o.pairs@),
                    _ => Err("Unexpected argument after path (string) and options (table)"@),
                },
                LuaKind::Str => match third.kind {
                    LuaKind::Nil => match text_view(second) {
                        Err(e) => Err(e),
                        Ok(p) => Ok(start(Some(a), p)),
                    },
                    LuaKind::Table(o) => match text_view(second) {
                        Err(e) => Err(e),
                        Ok(p) => options_fold(start(Some(a), p), o.pairs@),
                    },
                    _ => Err("Expected options (table) or nil as third argument"@),
                },
                _ => Err("Expected path (string) or options (table) as second argument"@),
            }
        },
    }
}

fn push_value_texts(t: &LuaTable, out: &mut Vec<String>) -> (r: Result<(), String>)
    ensures
        match value_texts(t.pairs@) {
            Ok(s) => r is Ok && texts(final(out)@) == texts(old(out)@) + s,
            Err(e) => r matches Err(m) && m@ == e,
        },
{
    let ghost ps = t.pairs@;
    let ghost base = texts(out@);
    let mut i: usize = 0;
    proof {
        assert(ps.take(0) =~= Seq::<(LuaValue, LuaValue)>::empty());
        assert(base + seq![] =~= base);
    }
    while i < t.pairs.len()
        invariant
            ps == t.pairs@,
            i <= ps.len(),
            base == texts(old(out)@),
            value_texts(ps.take(i as int)) matches Ok(s) && texts(out@) == base + s,
        decreases ps.len() - i,
    {
        proof {
            assert(ps.take(i as int + 1).drop_last() =~= ps.take(i as int));
            assert(ps.take(i as int + 1).last() == ps[i as int]);
        }
        match &t.pairs[i].1.text {
            Err(e) => {
                proof {
                    lemma_value_texts_prefix_err(ps, i as int + 1);
                }
                return Err(e.clone());
            },
            Ok(x) => {
                let ghost prev = out@;
                out.push(x.clone());
                proof {
                    let s = value_texts(ps.take(i as int))->Ok_0;
                    assert(texts(out@) =~= texts(prev).push(x@));
                    assert(base + s.push(x@) =~= (base + s).push(x@));
                }
            },
        }
        i = i + 1;
    }
    proof {
        assert(ps.take(i as int) =~= ps);
    }
    Ok(())
}

proof fn lemma_value_texts_prefix_err(ps: Seq<(LuaValue, LuaValue)>, k: int)
    requires
        0 <= k <= ps.len(),
        value_texts(ps.take(k)) is Err,
    ensures
        value_texts(ps) == value_texts(ps.take(k)),
    decreases ps.len() - k,
{
    if k < ps.len() {
        assert(ps.take(k + 1).drop_last() =~= ps.take(k));
        lemma_value_texts_prefix_err(ps, k + 1);
    } else {
        assert(ps.take(k) =~= ps);
    }
}

fn push_pattern_option(v: &LuaValue, message: &str, out: &mut Vec<String>) -> (r: Result<(), String>)
    ensures
        match pattern_option(*v, message@) {
            Ok(s) => r is Ok && texts(final(out)@) == texts(old(out)@) + s,
            Err(e) => r matches Err(m) && m@ == e,
        },
{
    match &v.kind {
        LuaKind::Str => match &v.text {
            Err(e) => Err(e.clone()),
            Ok(x) => {
                let ghost prev = out@;
                out.push(x.clone());
                proof {
                    assert(texts(out@) =~= texts(prev) + seq![x@]);
                }
                Ok(())
            },
        },
        LuaKind::Table(t) => push_value_texts(t, out),
        _ => Err(String::from_str(message)),
    }
}

fn apply_option(req: &mut GlobRequest, p: &(LuaValue, LuaValue)) -> (r: Result<(), String>)
    ensures
        match option_step(request_view(*old(req)), *p) {
            Ok(st) => r is Ok && request_view(*final(req)) == st,
            Err(e) => r matches Err(m) && m@ == e,
        },
{
    let k = match &p.0.text {
        Err(e) => {
            return Err(e.clone());
        },
        Ok(k) => k,
    };
    if str_eq(k.as_str(), "include") {
        push_pattern_option(&p.1, "Expected string or list of strings for 'include' option", &mut req.patterns)
    } else if str_eq(k.as_str(), "exclude") {
        push_pattern_option(&p.1, "Expected string or list of strings for 'exclued' option", &mut req.excluded)
    } else if str_eq(k.as_str(), "include_dirs") {
        match &p.1.kind {
            LuaKind::Boolean(b) => {
                req.dirs = *b;
                Ok(())
            },
            _ => Err(String::from_str("Expected boolean value for 'include_dirs' option")),
        }
    } else if str_eq(k.as_str(), "include_files") {
        match &p.1.kind {
            LuaKind::Boolean(b) => {
                req.files = *b;
                Ok(())
            },
            _ => Err(String::from_str("Expected boolean value for 'include_files' option")),
        }
    } else {
        let mut m = String::from_str("Invalid option: ");
        m.append(k.as_str());
        Err(m)
    }
}

fn apply_options(req: &mut GlobRequest, options: &LuaTable) -> (r: Result<(), String>)
    ensures
        match options_fold(request_view(*old(req)), options.pairs@) {
            Ok(st) => r is Ok && request_view(*final(req)) == st,
            Err(e) => r matches Err(m) && m@ == e,
        },
{
    let ghost ps = options.pairs@;
    let ghost st0 = request_view(*req);
    let mut i: usize = 0;
    proof {
        assert(ps.take(0) =~= Seq::<(LuaValue, LuaValue)>::empty());
    }
    while i < options.pairs.len()
        invariant
            ps == options.pairs@,
            i <= ps.len(),
            st0 == request_view(*old(req)),
            options_fold(st0, ps.take(i as int)) == Ok::<GlobRequestView, Seq<char>>(request_view(*req)),
        decreases ps.len() - i,
    {
        proof {
            assert(ps.take(i as int + 1).drop_last() =~= ps.take(i as int));
            assert(ps.take(i as int + 1).last() == ps[i as int]);
        }
        let r = apply_option(req, &options.pairs[i]);
        if r.is_err() {
            proof {
                lemma_options_fold_prefix_err(st0, ps, i as int + 1);
            }
            return r;
        }
        i = i + 1;
    }
    proof {
        assert(ps.take(i as int) =~= ps);
    }
    Ok(())
}

proof fn lemma_options_fold_prefix_err(st: GlobRequestView, ps: Seq<(LuaValue, LuaValue)>, k: int)
    requires
        0 <= k <= ps.len(),
        options_fold(st, ps.take(k)) is Err,
    ensures
        options_fold(st, ps) == options_fold(st, ps.take(k)),
    decreases ps.len() - k,
{
    if k < ps.len() {
        assert(ps.take(k + 1).drop_last() =~= ps.take(k));
        lemma_options_fold_prefix_err(st, ps, k + 1);
    } else {
        assert(ps.take(k) =~= ps);
    }
}

fn start_request(base: Option<String>, path: String) -> (r: GlobRequest)
    ensures
        request_view(r) == (GlobRequestView {
            base: opt_text(base),
            patterns: seq![path@],
            excluded: seq![],
            dirs: true,
            files: true,
        }),
{
    let mut patterns: Vec<String> = Vec::new();
    patterns.push(path);
    let excluded: Vec<String> = Vec::new();
    let r = GlobRequest { base, patterns, excluded, dirs: true, files: true };
    proof {
        assert(texts(r.patterns@) =~= seq![path@]);
        assert(texts(r.excluded@) =~= Seq::<Seq<char>>::empty());
    }
    r
}

/// The request that the arguments of a glob call make.
pub fn glob_request(first: &LuaValue, second: &LuaValue, third: &LuaValue) -> (r: Result<GlobRequest, String>)
    ensures
        match glob_request_spec(*first, *second, *third) {
            Ok(st) => r matches Ok(x) && request_view(x) == st,
            Err(e) => r matches Err(m) && m@ == e,
        },
{
    let a = match &first.text {
        Err(e) => {
            return Err(e.clone());
        },
        Ok(a) => a.clone(),
    };
    match &second.kind {
        LuaKind::Nil => match &third.kind {
            LuaKind::Nil => Ok(start_request(None, a)),
            _ => Err(String::from_str("Expected path (string) or options (table) as second argument")),
        },
        LuaKind::Table(o) => match &third.kind {
            LuaKind::Nil => {
                let mut req = start_request(None, a);
                match apply_options(&mut req, o) {
                    Ok(()) => Ok(req),
                    Err(e) => Err(e),
                }
            },
            _ => Err(String::from_str("Unexpected argument after path (string) and options (table)")),
        },
        LuaKind::Str => {
            let p = match &second.text {
                Err(e) => {
                    match &third.kind {
                        LuaKind::Nil => {
                            return Err(e.clone());
                        },
                        LuaKind::Table(_) => {
                            return Err(e.clone());
                        },
                        _ => {
                            return Err(String::from_str("Expected options (table) or nil as third argument"));
                        },
                    }
                },
                Ok(p) => p.clone(),
            };
            match &third.kind {
                LuaKind::Nil => Ok(start_request(Some(a), p)),
                LuaKind::Table(o) => {
                    let mut req = start_request(Some(a), p);
                    match apply_options(&mut req, o) {
                        Ok(()) => Ok(req),
                        Err(e) => Err(e),
                    }
                },
                _ => Err(String::from_str("Expected options (table) or nil as third argument")),
            }
        },
        _ => Err(String::from_str("Expected path (string) or options (table) as second argument")),
    }
}

/// The message for an absolute pattern under a base directory.
pub open spec fn absolute_pattern_message(base: Seq<char>, pattern: Seq<char>) -> Seq<char> {
    "If base path is provided, glob pattern must be relative. base="@ + base + ", glob="@ + pattern
}

/// A pattern taken from the base directory, when there is one.
pub open spec fn based_pattern(base: Option<Seq<char>>, pattern: Seq<char>) -> Result<Seq<char>, Seq<char>> {
    match base {
        Some(b) => if path_is_absolute(pattern) {
            Err(absolute_pattern_message(b, pattern))
        } else {
            Ok(path_join(b, pattern))
        },
        None => Ok(pattern),
    }
}

/// An exclusion pattern taken from the base directory, which must compile.
pub open spec fn excluded_pattern(base: Option<Seq<char>>, pattern: Seq<char>) -> Result<Seq<char>, Seq<char>> {
    match based_pattern(base, pattern) {
        Err(e) => Err(e),
        Ok(p) => match glob_pattern_error(p) {
            Some(e) => Err("Invalid glob pattern: "@ + e),
            None => Ok(p),
        },
    }
}

/// Each pattern through `f`, in order; the first error stops.
pub open spec fn all_patterns(s: Seq<Seq<char>>, f: spec_fn(Seq<char>) -> Result<Seq<char>, Seq<char>>) -> Result<
    Seq<Seq<char>>,
    Seq<char>,
>
    decreases s.len(),
{
    if s.len() == 0 {
        Ok(seq![])
    } else {
        match all_patterns(s.drop_last(), f) {
            Err(e) => Err(e),
            Ok(ps) => match f(s.last()) {
                Err(e) => Err(e),
                Ok(p) => Ok(ps.push(p)),
            },
        }
    }
}

proof fn lemma_all_patterns_prefix_err(
    s: Seq<Seq<char>>,
    f: spec_fn(Seq<char>) -> Result<Seq<char>, Seq<char>>,
    k: int,
)
    requires
        0 <= k <= s.len(),
        all_patterns(s.take(k), f) is Err,
    ensures
        all_patterns(s, f) == all_patterns(s.take(k), f),
    decreases s.len() - k,
{
    if k < s.len() {
        assert(s.take(k + 1).drop_last() =~= s.take(k));
        lemma_all_patterns_prefix_err(s, f, k + 1);
    } else {
        assert(s.take(k) =~= s);
    }
}

/// The patterns of a glob request, ready to search with: the base
/// directory without `.` components, the patterns to search, and the
/// exclusion patterns (all of which compile).
#[derive(Debug)]
pub struct GlobPatterns {
    base: Option<String>,
    patterns: Vec<String>,
    excluded: Vec<String>,
}

pub struct GlobPatternsView {
    pub base: Option<Seq<char>>,
    pub patterns: Seq<Seq<char>>,
    pub excluded: Seq<Seq<char>>,
}

impl GlobPatterns {
    #[verifier::type_invariant]
    spec fn excluded_compile(self) -> bool {
        forall|i: int| 0 <= i < self.excluded@.len() ==> glob_pattern_error(#[trigger] self.excluded@[i]@) is None
    }

    pub closed spec fn view_of(self) -> GlobPatternsView {
        GlobPatternsView { base: opt_text(self.base), patterns: texts(self.patterns@), excluded: texts(self.excluded@) }
    }

    /// The base directory the matches are taken relative to.
    pub fn base(&self) -> (r: &Option<String>)
        ensures
            opt_text(*r) == self.view_of().base,
    {
        &self.base
    }

    /// The patterns to search with.
    pub fn patterns(&self) -> (r: &Vec<String>)
        ensures
            texts(r@) == self.view_of().patterns,
    {
        &self.patterns
    }

    /// The exclusion patterns.
    pub fn excluded(&self) -> (r: &Vec<String>)
        ensures
            texts(r@) == self.view_of().excluded,
    {
        &self.excluded
    }
}

/// The patterns that a glob request gives: each taken from the base
/// directory when there is one (the patterns must then be relative), and
/// the exclusion patterns must compile.
pub open spec fn glob_patterns_spec(req: GlobRequestView) -> Result<GlobPatternsView, Seq<char>> {
    let base = match req.base {
        Some(b) => Some(glob_base_spec(b)),
        None => None,
    };
    match all_patterns(req.patterns, |p: Seq<char>| based_pattern(base, p)) {
        Err(e) => Err(e),
        Ok(ps) => match all_patterns(req.excluded, |p: Seq<char>| excluded_pattern(base, p)) {
            Err(e) => Err(e),
            Ok(xs) => Ok(GlobPatternsView { base: base, patterns: ps, excluded: xs }),
        },
    }
}

fn based(base: &Option<String>, pattern: &str) -> (r: Result<String, String>)
    ensures
        match based_pattern(opt_text(*base), pattern@) {
            Ok(p) => r matches Ok(x) && x@ == p,
            Err(e) => r matches Err(m) && m@ == e,
        },
{
    match base {
        Some(b) => {
            if is_absolute_path(pattern) {
                let mut m = String::from_str("If base path is provided, glob pattern must be relative. base=");
                m.append(b.as_str());
                m.append(", glob=");
                m.append(pattern);
                Err(m)
            } else {
                Ok(join_path(b.as_str(), pattern))
            }
        },
        None => Ok(String::from_str(pattern)),
    }
}

fn excluded_based(base: &Option<String>, pattern: &str) -> (r: Result<String, String>)
    ensures
        match excluded_pattern(opt_text(*base), pattern@) {
            Ok(p) => r matches Ok(x) && x@ == p,
            Err(e) => r matches Err(m) && m@ == e,
        },
{
    let p = match based(base, pattern) {
        Err(e) => {
            return Err(e);
        },
        Ok(p) => p,
    };
    match check_glob_pattern(p.as_str()) {
        Ok(()) => Ok(p),
        Err(e) => {
            let mut m = String::from_str("Invalid glob pattern: ");
            m.append(e.as_str());
            Err(m)
        },
    }
}

/// The patterns that a glob request gives.
pub fn glob_patterns(req: &GlobRequest) -> (r: Result<GlobPatterns, String>)
    ensures
        match glob_patterns_spec(request_view(*req)) {
            Ok(v) => r matches Ok(x) && x.view_of() == v,
            Err(e) => r matches Err(m) && m@ == e,
        },
{
    let base: Option<String> = match &req.base {
        Some(b) => Some(normalize_path_for_glob(b.as_str())),
        None => None,
    };
    let ghost bv = opt_text(base);
    let ghost pf = |p: Seq<char>| based_pattern(bv, p);
    let ghost xf = |p: Seq<char>| excluded_pattern(bv, p);
    let ghost ps = texts(req.patterns@);
    let ghost xs = texts(req.excluded@);
    let mut patterns: Vec<String> = Vec::new();
    let mut i: usize = 0;
    proof {
        assert(ps.take(0) =~= Seq::<Seq<char>>::empty());
        assert(texts(patterns@) =~= Seq::<Seq<char>>::empty());
    }
    while i < req.patterns.len()
        invariant
            ps == texts(req.patterns@),
            bv == opt_text(base),
            bv == match request_view(*req).base {
                Some(b) => Some(glob_base_spec(b)),
                None => None,
            },
            pf == (|p: Seq<char>| based_pattern(bv, p)),
            i <= ps.len(),
            all_patterns(ps.take(i as int), pf) == Ok::<Seq<Seq<char>>, Seq<char>>(texts(patterns@)),
        decreases ps.len() - i,
    {
        proof {
            assert(ps.take(i as int + 1).drop_last() =~= ps.take(i as int));
            assert(ps.take(i as int + 1).last() == req.patterns@[i as int]@);
        }
        match based(&base, req.patterns[i].as_str()) {
            Err(e) => {
                proof {
                    lemma_all_patterns_prefix_err(ps, pf, i as int + 1);
                }
                return Err(e);
            },
            Ok(p) => {
                let ghost prev = patterns@;
                patterns.push(p);
                proof {
                    assert(texts(patterns@) =~= texts(prev).push(p@));
                }
            },
        }
        i = i + 1;
    }
    proof {
        assert(ps.take(i as int) =~= ps);
    }
    let mut excluded: Vec<String> = Vec::new();
    let mut j: usize = 0;
    proof {
        assert(xs.take(0) =~= Seq::<Seq<char>>::empty());
        assert(texts(excluded@) =~= Seq::<Seq<char>>::empty());
    }
    while j < req.excluded.len()
        invariant
            xs == texts(req.excluded@),
            bv == opt_text(base),
            bv == match request_view(*req).base {
                Some(b) => Some(glob_base_spec(b)),
                None => None,
            },
            all_patterns(texts(req.patterns@), |p: Seq<char>| based_pattern(bv, p)) == Ok::<
                Seq<Seq<char>>,
                Seq<char>,
            >(texts(patterns@)),
            xf == (|p: Seq<char>| excluded_pattern(bv, p)),
            j <= xs.len(),
            all_patterns(xs.take(j as int), xf) == Ok::<Seq<Seq<char>>, Seq<char>>(texts(excluded@)),
            forall|k: int| 0 <= k < excluded@.len() ==> glob_pattern_error(#[trigger] excluded@[k]@) is None,
        decreases xs.len() - j,
    {
        proof {
            assert(xs.take(j as int + 1).drop_last() =~= xs.take(j as int));
            assert(xs.take(j as int + 1).last() == req.excluded@[j as int]@);
        }
        match excluded_based(&base, req.excluded[j].as_str()) {
            Err(e) => {
                proof {
                    lemma_all_patterns_prefix_err(xs, xf, j as int + 1);
                }
                return Err(e);
            },
            Ok(p) => {
                let ghost prev = excluded@;
                excluded.push(p);
                proof {
                    assert(texts(excluded@) =~= texts(prev).push(p@));
                }
            },
        }
        j = j + 1;
    }
    proof {
        assert(xs.take(j as int) =~= xs);
    }
    Ok(GlobPatterns { base, patterns, excluded })
}

/// A path that a glob search found, and whether it is a directory or a
/// file.
#[derive(Debug)]
pub struct GlobEntry {
    pub path: String,
    pub is_dir: bool,
    pub is_file: bool,
}

/// What a found path gives: nothing when an exclusion pattern matches it,
/// when it is a directory and directories are left out, when it is a file
/// and files are left out, or when it does not lie under the base
/// directory; otherwise the path relative to the base directory.
pub open spec fn kept_entry(pats: GlobPatternsView, dirs: bool, files: bool, e: GlobEntry) -> Option<Seq<char>> {
    if exists|i: int| 0 <= i < pats.excluded.len() && glob_pattern_matches(#[trigger] pats.excluded[i], e.path@) {
        None
    } else if e.is_dir && !dirs {
        None
    } else if e.is_file && !files {
        None
    } else {
        match pats.base {
            Some(b) => path_without_prefix(e.path@, b),
            None => Some(e.path@),
        }
    }
}

/// The paths that the found entries give, in order.
pub open spec fn kept_entries(pats: GlobPatternsView, dirs: bool, files: bool, es: Seq<GlobEntry>) -> Seq<Seq<char>>
    decreases es.len(),
{
    if es.len() == 0 {
        seq![]
    } else {
        let rest = kept_entries(pats, dirs, files, es.drop_last());
        match kept_entry(pats, dirs, files, es.last()) {
            Some(p) => rest.push(p),
            None => rest,
        }
    }
}

/// A found path that any one of the exclusion patterns matches, wherever
/// that pattern stands in the list, gives nothing: the paths kept from the
/// found entries are those kept when that entry was never found.
pub proof fn law_excluded_entry_is_dropped(
    pats: GlobPatternsView,
    dirs: bool,
    files: bool,
    es: Seq<GlobEntry>,
    j: int,
    i: int,
)
    requires
        0 <= j < es.len(),
        0 <= i < pats.excluded.len(),
        glob_pattern_matches(pats.excluded[i], es[j].path@),
    ensures
        kept_entry(pats, dirs, files, es[j]) is None,
        kept_entries(pats, dirs, files, es) == kept_entries(pats, dirs, files, es.remove(j)),
    decreases es.len(),
{
    assert(glob_pattern_matches(pats.excluded[i], es[j].path@));
    if j == es.len() - 1 {
        assert(es.remove(j) =~= es.drop_last());
    } else {
        law_excluded_entry_is_dropped(pats, dirs, files, es.drop_last(), j, i);
        assert(es.remove(j).drop_last() =~= es.drop_last().remove(j));
        assert(es.remove(j).last() == es.last());
    }
}

fn entry_result(pats: &GlobPatterns, dirs: bool, files: bool, e: &GlobEntry) -> (r: Option<String>)
    ensures
        opt_text(r) == kept_entry(pats.view_of(), dirs, files, *e),
{
    proof {
        use_type_invariant(pats);
    }
    let ghost xs = texts(pats.excluded@);
    let mut i: usize = 0;
    while i < pats.excluded.len()
        invariant
            xs == texts(pats.excluded@),
            xs == pats.view_of().excluded,
            i <= xs.len(),
            forall|k: int| 0 <= k < pats.excluded@.len() ==> glob_pattern_error(#[trigger] pats.excluded@[k]@) is None,
            forall|k: int| 0 <= k < i ==> !glob_pattern_matches(#[trigger] xs[k], e.path@),
        decreases xs.len() - i,
    {
        proof {
            assert(xs[i as int] == pats.excluded@[i as int]@);
        }
        if glob_matches(pats.excluded[i].as_str(), e.path.as_str()) {
            return None;
        }
        i = i + 1;
    }
    if e.is_dir && !dirs {
        return None;
    }
    if e.is_file && !files {
        return None;
    }
    match &pats.base {
        Some(b) => strip_path_prefix(e.path.as_str(), b.as_str()),
        None => Some(e.path.clone()),
    }
}

/// The paths that a glob search keeps, sorted, each once: the paths that
/// `kept_entries` gives for the found entries.
pub fn select_glob_entries(pats: &GlobPatterns, dirs: bool, files: bool, entries: &Vec<GlobEntry>) -> (r: Vec<String>)
    ensures
        strictly_sorted(texts(r@)),
        texts(r@).to_set() == kept_entries(pats.view_of(), dirs, files, entries@).to_set(),
{
    let ghost es = entries@;
    let mut out: Vec<String> = Vec::new();
    let mut i: usize = 0;
    proof {
        assert(texts(out@) =~= Seq::<Seq<char>>::empty());
        assert(kept_entries(pats.view_of(), dirs, files, es.take(0)) =~= Seq::<Seq<char>>::empty());
        assert(Seq::<Seq<char>>::empty().to_set() =~= Set::<Seq<char>>::empty());
    }
    while i < entries.len()
        invariant
            es == entries@,
            i <= es.len(),
            strictly_sorted(texts(out@)),
            texts(out@).to_set() == kept_entries(pats.view_of(), dirs, files, es.take(i as int)).to_set(),
        decreases es.len() - i,
    {
        proof {
            assert(es.take(i as int + 1).drop_last() =~= es.take(i as int));
            assert(es.take(i as int + 1).last() == es[i as int]);
        }
        let ghost before = kept_entries(pats.view_of(), dirs, files, es.take(i as int));
        match entry_result(pats, dirs, files, &entries[i]) {
            Some(p) => {
                let ghost pv = p@;
                insert_sorted(&mut out, p);
                proof {
                    before.lemma_push_to_set_commute(pv);
                }
            },
            None => {},
        }
        i = i + 1;
    }
    proof {
        assert(es.take(i as int) =~= es);
    }
    out
}

} // verus!
