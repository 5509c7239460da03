use vstd::prelude::*;
use crate::cobble::datamodel::{Artifact, Dependency, DependencyView, dependency_view};
use crate::paths::{join_path, path_join};

verus! {

/// Splits a name at `/` characters, left to right: the completed segments
/// and the segment still being read.
pub open spec fn seg_scan(s: Seq<char>) -> (Seq<Seq<char>>, Seq<char>)
    decreases s.len(),
{
    if s.len() == 0 {
        (seq![], seq![])
    } else {
        let (done, cur) = seg_scan(s.drop_last());
        if s.last() == '/' {
            if cur.len() > 0 {
                (done.push(cur), seq![])
            } else {
                (done, seq![])
            }
        } else {
            (done, cur.push(s.last()))
        }
    }
}

/// The non-empty `/`-separated segments of a name, in order.
pub open spec fn name_segments(s: Seq<char>) -> Seq<Seq<char>> {
    let (done, cur) = seg_scan(s);
    if cur.len() > 0 {
        done.push(cur)
    } else {
        done
    }
}

fn str_chars(s: &str) -> (r: Vec<char>)
    ensures
        r@ == s@,
{
    let n = s.unicode_len();
    let mut r: Vec<char> = Vec::new();
    let mut i: usize = 0;
    while i < n
        invariant
            n == s@.len(),
            i <= n,
            r@ == s@.take(i as int),
        decreases n - i,
    {
        let c = s.get_char(i);
        r.push(c);
        proof {
            assert(s@.take(i as int + 1) =~= s@.take(i as int).push(c));
        }
        i = i + 1;
    }
    proof {
        assert(s@.take(n as int) =~= s@);
    }
    r
}


/// One segment taken into the resolved name: `..` goes up one level (and
/// past the root it is ignored), `.` is dropped, and any other segment is
/// appended.
pub open spec fn resolve_step(stack: Seq<Seq<char>>, seg: Seq<char>) -> Seq<Seq<char>> {
    if seg == seq!['.', '.'] {
        if stack.len() > 0 {
            stack.drop_last()
        } else {
            stack
        }
    } else if seg == seq!['.'] {
        stack
    } else {
        stack.push(seg)
    }
}

/// The segments that remain after walking `segs` left to right from `start`.
pub open spec fn resolve_from(start: Seq<Seq<char>>, segs: Seq<Seq<char>>) -> Seq<Seq<char>>
    decreases segs.len(),
{
    if segs.len() == 0 {
        start
    } else {
        resolve_step(resolve_from(start, segs.drop_last()), segs.last())
    }
}

/// The segments that remain after walking `segs` left to right from the root.
pub open spec fn resolve_segments(segs: Seq<Seq<char>>) -> Seq<Seq<char>> {
    resolve_from(seq![], segs)
}

/// `/s1/s2/.../sn`, or the empty name when there is no segment.
pub open spec fn absolute_name(segs: Seq<Seq<char>>) -> Seq<char>
    decreases segs.len(),
{
    if segs.len() == 0 {
        seq![]
    } else {
        absolute_name(segs.drop_last()) + seq!['/'] + segs.last()
    }
}

pub open spec fn is_absolute_name(s: Seq<char>) -> bool {
    s.len() > 0 && s[0] == '/'
}

/// The full name that `name`, referenced from the project `project`, stands
/// for; `None` when a relative name is given with a project name that is not
/// absolute.
pub open spec fn resolve_name_spec(project: Seq<char>, name: Seq<char>) -> Option<Seq<char>> {
    if is_absolute_name(name) {
        Some(name)
    } else if !is_absolute_name(project) {
        None
    } else {
        Some(absolute_name(resolve_segments(name_segments(project) + name_segments(name))))
    }
}

pub open spec fn strs_view(v: Seq<&str>) -> Seq<Seq<char>> {
    v.map_values(|x: &str| x@)
}

fn split_name<'a>(s: &'a str) -> (r: Vec<&'a str>)
    ensures
        strs_view(r@) == name_segments(s@),
{
    let cs = str_chars(s);
    let n = cs.len();
    let mut segs: Vec<&'a str> = Vec::new();
    let mut start: usize = 0;
    let mut i: usize = 0;
    while i < n
        invariant
            cs@ == s@,
            n == s@.len(),
            start <= i <= n,
            strs_view(segs@) == seg_scan(s@.take(i as int)).0,
            s@.subrange(start as int, i as int) == seg_scan(s@.take(i as int)).1,
        decreases n - i,
    {
        proof {
            assert(s@.take(i as int + 1).drop_last() =~= s@.take(i as int));
            assert(s@.take(i as int + 1).last() == s@[i as int]);
        }
        if cs[i] == '/' {
            if start < i {
                let seg = s.substring_char(start, i);
                let ghost prev = segs@;
                segs.push(seg);
                proof {
                    assert(strs_view(segs@) =~= strs_view(prev).push(seg@));
                }
            }
            start = i + 1;
            proof {
                assert(s@.subrange(start as int, i as int + 1) =~= seq![]);
            }
        } else {
            proof {
                assert(s@.subrange(start as int, i as int + 1) =~= s@.subrange(start as int, i as int).push(s@[i as int]));
            }
        }
        i = i + 1;
    }
    proof {
        assert(s@.take(n as int) =~= s@);
    }
    if start < n {
        let seg = s.substring_char(start, n);
        let ghost prev = segs@;
        segs.push(seg);
        proof {
            assert(strs_view(segs@) =~= strs_view(prev).push(seg@));
        }
    }
    segs
}


/// Errors raised while turning names found in a project into full names.
#[derive(Debug)]
pub enum NameResolutionError {
    InvalidProjectName(String),
    PathToStringError(String),
    InvalidName(String),
}

fn is_dotdot(s: &str) -> (b: bool)
    ensures
        b == (s@ == seq!['.', '.']),
{
    let n = s.unicode_len();
    if n == 2 {
        let a = s.get_char(0);
        let b = s.get_char(1);
        let r = a == '.' && b == '.';
        proof {
            if r {
                assert(s@ =~= seq!['.', '.']);
            }
        }
        r
    } else {
        false
    }
}

fn is_dot(s: &str) -> (b: bool)
    ensures
        b == (s@ == seq!['.']),
{
    let n = s.unicode_len();
    if n == 1 {
        let a = s.get_char(0);
        proof {
            if a == '.' {
                assert(s@ =~= seq!['.']);
            }
        }
        a == '.'
    } else {
        false
    }
}

fn starts_with_slash(s: &str) -> (b: bool)
    ensures
        b == is_absolute_name(s@),
{
    let n = s.unicode_len();
    if n == 0 {
        false
    } else {
        s.get_char(0) == '/'
    }
}

/// Joins the segments into `/s1/.../sn`.
fn join_absolute(segs: &Vec<&str>) -> (r: String)
    ensures
        r@ == absolute_name(strs_view(segs@)),
{
    let mut r = String::new();
    let mut i: usize = 0;
    let slash = "/";
    proof {
        reveal_strlit("/");
    }
    while i < segs.len()
        invariant
            i <= segs@.len(),
            slash@ == seq!['/'],
            r@ == absolute_name(strs_view(segs@.take(i as int))),
        decreases segs@.len() - i,
    {
        proof {
            assert(strs_view(segs@.take(i as int + 1)).drop_last() =~= strs_view(segs@.take(i as int)));
        }
        r.append(slash);
        r.append(segs[i]);
        i = i + 1;
    }
    proof {
        assert(segs@.take(segs@.len() as int) =~= segs@);
    }
    r
}

/// Resolves a task, build environment or project reference `name` found in
/// the project named `project_name` into a full name.  Names that start with
/// `/` are already full names; other names are appended to the project name,
/// where each `..` goes one level up (never past the root) and each `.` is
/// dropped.
pub fn resolve_name(project_name: &str, name: &str) -> (r: Result<String, NameResolutionError>)
    ensures
        r is Ok <==> resolve_name_spec(project_name@, name@) is Some,
        r matches Ok(full) ==> full@ == resolve_name_spec(project_name@, name@)->0,
        r matches Err(e) ==> (e matches NameResolutionError::InvalidProjectName(p) && p@ == project_name@),
{
    if starts_with_slash(name) {
        return Ok(String::from_str(name));
    }
    if !starts_with_slash(project_name) {
        return Err(NameResolutionError::InvalidProjectName(String::from_str(project_name)));
    }
    let mut all = split_name(project_name);
    let mut name_segs = split_name(name);
    let ghost psegs = all@;
    let ghost nsegs = name_segs@;
    all.append(&mut name_segs);
    let ghost full: Seq<Seq<char>> = name_segments(project_name@) + name_segments(name@);
    proof {
        assert(strs_view(all@) =~= strs_view(psegs) + strs_view(nsegs));
    }
    let mut stack: Vec<&str> = Vec::new();
    let mut i: usize = 0;
    proof {
        assert(strs_view(stack@) =~= Seq::<Seq<char>>::empty());
    }
    while i < all.len()
        invariant
            i <= all@.len(),
            strs_view(all@) == full,
            strs_view(stack@) == resolve_segments(full.take(i as int)),
        decreases all@.len() - i,
    {
        proof {
            assert(full.take(i as int + 1).drop_last() =~= full.take(i as int));
            assert(full.take(i as int + 1).last() == full[i as int]);
            assert(full[i as int] == all@[i as int]@);
        }
        let seg = all[i];
        let ghost prev = stack@;
        if is_dotdot(seg) {
            if stack.len() > 0 {
                stack.pop();
                proof { assert(strs_view(stack@) =~= strs_view(prev).drop_last()); }
            }
        } else if is_dot(seg) {
        } else {
            stack.push(seg);
            proof { assert(strs_view(stack@) =~= strs_view(prev).push(seg@)); }
        }
        i = i + 1;
    }
    proof {
        assert(full.take(all@.len() as int) =~= full);
    }
    Ok(join_absolute(&stack))
}


pub open spec fn is_plain_segment(seg: Seq<char>) -> bool {
    seg != seq!['.', '.'] && seg != seq!['.']
}

pub open spec fn all_plain(segs: Seq<Seq<char>>) -> bool {
    forall|i: int| 0 <= i < segs.len() ==> #[trigger] is_plain_segment(segs[i])
}

proof fn lemma_resolve_from_append(start: Seq<Seq<char>>, a: Seq<Seq<char>>, b: Seq<Seq<char>>)
    ensures
        resolve_from(start, a + b) == resolve_from(resolve_from(start, a), b),
    decreases b.len(),
{
    if b.len() == 0 {
        assert(a + b =~= a);
    } else {
        lemma_resolve_from_append(start, a, b.drop_last());
        assert((a + b).drop_last() =~= a + b.drop_last());
        assert((a + b).last() == b.last());
    }
}

proof fn lemma_resolve_plain_segments(start: Seq<Seq<char>>, segs: Seq<Seq<char>>)
    requires
        all_plain(segs),
    ensures
        resolve_from(start, segs) == start + segs,
    decreases segs.len(),
{
    if segs.len() == 0 {
        assert(start + segs =~= start);
    } else {
        assert(all_plain(segs.drop_last()));
        lemma_resolve_plain_segments(start, segs.drop_last());
        assert(is_plain_segment(segs[segs.len() - 1]));
        assert((start + segs.drop_last()).push(segs.last()) =~= start + segs);
    }
}

/// A full name is absolute: `/` is its first character, unless it has no segment.
pub proof fn lemma_absolute_name_starts_with_slash(segs: Seq<Seq<char>>)
    requires
        segs.len() > 0,
    ensures
        is_absolute_name(absolute_name(segs)),
    decreases segs.len(),
{
    let prefix = absolute_name(segs.drop_last());
    if segs.len() > 1 {
        lemma_absolute_name_starts_with_slash(segs.drop_last());
        assert((prefix + seq!['/'] + segs.last())[0] == prefix[0]);
    } else {
        assert(prefix.len() == 0);
        assert((prefix + seq!['/'] + segs.last())[0] == '/');
    }
}

/// A name that is declared in a project, and that holds no `.` or `..`
/// segment, stands for the project's segments followed by its own: a task
/// `task_b` of the project `/projects/project_a` is
/// `/projects/project_a/task_b`.
pub proof fn law_declared_name_is_under_its_project(project: Seq<char>, name: Seq<char>)
    requires
        is_absolute_name(project),
        !is_absolute_name(name),
        all_plain(name_segments(project)),
        all_plain(name_segments(name)),
    ensures
        resolve_name_spec(project, name) == Some(
            absolute_name(name_segments(project) + name_segments(name)),
        ),
{
    let all = name_segments(project) + name_segments(name);
    assert(all_plain(all)) by {
        assert forall|i: int| 0 <= i < all.len() implies #[trigger] is_plain_segment(all[i]) by {
            if i < name_segments(project).len() {
                assert(all[i] == name_segments(project)[i]);
            } else {
                assert(all[i] == name_segments(name)[i - name_segments(project).len()]);
            }
        }
    }
    lemma_resolve_plain_segments(seq![], all);
    assert(Seq::<Seq<char>>::empty() + all =~= all);
}

/// A `..` segment moves one level up from the project: the last project
/// segment is dropped and the segments after `..` are appended.
pub proof fn law_parent_reference(project_segs: Seq<Seq<char>>, rest: Seq<Seq<char>>)
    requires
        project_segs.len() > 0,
        all_plain(project_segs),
        all_plain(rest),
    ensures
        resolve_segments(project_segs + seq![seq!['.', '.']] + rest) == project_segs.drop_last() + rest,
{
    let up = project_segs + seq![seq!['.', '.']];
    lemma_resolve_plain_segments(seq![], project_segs);
    assert(Seq::<Seq<char>>::empty() + project_segs =~= project_segs);
    assert(up.drop_last() =~= project_segs);
    assert(resolve_segments(up) == project_segs.drop_last());
    lemma_resolve_from_append(seq![], up, rest);
    lemma_resolve_plain_segments(project_segs.drop_last(), rest);
}

/// A `..` at the root is ignored: the name resolves as if it were not there.
pub proof fn law_parent_of_the_root_is_ignored(rest: Seq<Seq<char>>)
    ensures
        resolve_segments(seq![seq!['.', '.']] + rest) == resolve_segments(rest),
{
    let up: Seq<Seq<char>> = seq![seq!['.', '.']];
    assert(up.drop_last() =~= Seq::<Seq<char>>::empty());
    assert(up.last() == seq!['.', '.']);
    assert(resolve_from(seq![], up.drop_last()) == Seq::<Seq<char>>::empty());
    assert(resolve_segments(up) == Seq::<Seq<char>>::empty());
    lemma_resolve_from_append(seq![], up, rest);
}

/// A resolved name holds no `.` or `..` segment, whatever segments it was
/// resolved from.
pub proof fn law_resolved_segments_are_plain(segs: Seq<Seq<char>>)
    ensures
        all_plain(resolve_segments(segs)),
    decreases segs.len(),
{
    if segs.len() > 0 {
        law_resolved_segments_are_plain(segs.drop_last());
        let prev = resolve_segments(segs.drop_last());
        let now = resolve_segments(segs);
        assert forall|i: int| 0 <= i < now.len() implies #[trigger] is_plain_segment(now[i]) by {
            if i < prev.len() {
                assert(now[i] == prev[i]);
            }
        }
    }
}

/// Resolving a full name again gives it back unchanged.
pub proof fn law_resolution_is_idempotent(project: Seq<char>, name: Seq<char>)
    requires
        resolve_name_spec(project, name) is Some,
        resolve_name_spec(project, name)->0.len() > 0,
    ensures
        resolve_name_spec(project, resolve_name_spec(project, name)->0) == resolve_name_spec(
            project,
            name,
        ),
{
    if !is_absolute_name(name) {
        let segs = resolve_segments(name_segments(project) + name_segments(name));
        if segs.len() > 0 {
            lemma_absolute_name_starts_with_slash(segs);
        }
    }
}

/// The path of `path` taken from the project directory `project_path`.
pub fn resolve_path(project_path: &str, path: &str) -> (r: Result<String, NameResolutionError>)
    ensures
        r matches Ok(full) && full@ == path_join(project_path@, path@),
{
    Ok(join_path(project_path, path))
}

/// A dependency of the project named `project_name` at `project_path` with
/// its name made full: a file is taken from the project directory, a task
/// name is resolved from the project.
pub fn resolve_names_in_dependency(project_name: &str, project_path: &str, dep: &Dependency) -> (r: Result<
    Dependency,
    NameResolutionError,
>)
    ensures
        match dependency_view(*dep) {
            DependencyView::File(f) => r matches Ok(d) && dependency_view(d) == DependencyView::File(
                path_join(project_path@, f),
            ),
            DependencyView::Task(t) => match resolve_name_spec(project_name@, t) {
                Some(full) => r matches Ok(d) && dependency_view(d) == DependencyView::Task(full),
                None => r matches Err(NameResolutionError::InvalidProjectName(p)) && p@ == project_name@,
            },
        },
{
    match dep {
        Dependency::File(f) => Ok(Dependency::File(join_path(project_path, f.as_str()))),
        Dependency::Task(t) => match resolve_name(project_name, t.as_str()) {
            Ok(full) => Ok(Dependency::Task(full)),
            Err(e) => Err(e),
        },
    }
}

/// An artifact of the project at `project_path`, its file taken from the
/// project directory.
pub fn resolve_names_in_artifact(project_path: &str, artifact: &Artifact) -> (r: Result<
    Artifact,
    NameResolutionError,
>)
    ensures
        r matches Ok(a) && a.filename@ == path_join(project_path@, artifact.filename@),
{
    match resolve_path(project_path, artifact.filename.as_str()) {
        Ok(filename) => Ok(Artifact { filename }),
        Err(e) => Err(e),
    }
}

} // verus!
