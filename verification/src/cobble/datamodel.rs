//! What a project file defines, as the `cobble` front end reads it.
use vstd::prelude::*;

verus! {

/// Something a task or a build environment depends on.
#[derive(Debug)]
pub enum Dependency {
    File(String),
    Task(String),
}

/// A file that a task produces.
#[derive(Debug)]
pub struct Artifact {
    pub filename: String,
}

/// The dependencies of a task, in order: the files, then the tasks.
#[derive(Debug)]
pub struct DependencyList(pub Vec<Dependency>);

/// The mathematical model of a dependency.
pub enum DependencyView {
    File(Seq<char>),
    Task(Seq<char>),
}

pub open spec fn dependency_view(d: Dependency) -> DependencyView {
    match d {
        Dependency::File(f) => DependencyView::File(f@),
        Dependency::Task(t) => DependencyView::Task(t@),
    }
}

pub open spec fn names_view(v: Option<Vec<String>>) -> Seq<Seq<char>> {
    match v {
        Some(l) => l@.map_values(|s: String| s@),
        None => seq![],
    }
}

impl DependencyList {
    pub open spec fn view_seq(&self) -> Seq<DependencyView> {
        self.0@.map_values(|d: Dependency| dependency_view(d))
    }

    /// The dependency list of a definition that names `files` and `tasks`:
    /// the files, in order, then the tasks, in order; a missing list counts
    /// as empty.
    pub fn from_lists(files: Option<Vec<String>>, tasks: Option<Vec<String>>) -> (r: DependencyList)
        ensures
            r.view_seq() == names_view(files).map_values(|f: Seq<char>| DependencyView::File(f)) + names_view(
                tasks,
            ).map_values(|t: Seq<char>| DependencyView::Task(t)),
    {
        let ghost fs = names_view(files);
        let ghost ts = names_view(tasks);
        let mut deps: Vec<Dependency> = Vec::new();
        let files = match files {
            Some(f) => f,
            None => Vec::new(),
        };
        let tasks = match tasks {
            Some(t) => t,
            None => Vec::new(),
        };
        proof {
            assert(fs =~= files@.map_values(|s: String| s@));
            assert(ts =~= tasks@.map_values(|s: String| s@));
        }
        let ghost fv = fs.map_values(|f: Seq<char>| DependencyView::File(f));
        let ghost tv = ts.map_values(|t: Seq<char>| DependencyView::Task(t));
        let mut i: usize = 0;
        while i < files.len()
            invariant
                i <= files@.len(),
                fs == files@.map_values(|s: String| s@),
                fv == fs.map_values(|f: Seq<char>| DependencyView::File(f)),
                deps@.map_values(|d: Dependency| dependency_view(d)) == fv.take(i as int),
            decreases files@.len() - i,
        {
            let ghost before = deps@;
            deps.push(Dependency::File(files[i].clone()));
            proof {
                assert(deps@ == before.push(deps@.last()));
                assert(dependency_view(deps@.last()) == fv[i as int]);
                assert(deps@.map_values(|d: Dependency| dependency_view(d)) =~= before.map_values(
                    |d: Dependency| dependency_view(d),
                ).push(fv[i as int]));
                assert(fv.take(i as int + 1) =~= fv.take(i as int).push(fv[i as int]));
            }
            i = i + 1;
        }
        let mut j: usize = 0;
        while j < tasks.len()
            invariant
                j <= tasks@.len(),
                i == files@.len(),
                fv.len() == files@.len(),
                ts == tasks@.map_values(|s: String| s@),
                tv == ts.map_values(|t: Seq<char>| DependencyView::Task(t)),
                deps@.map_values(|d: Dependency| dependency_view(d)) == fv.take(i as int) + tv.take(j as int),
            decreases tasks@.len() - j,
        {
            let ghost before = deps@;
            deps.push(Dependency::Task(tasks[j].clone()));
            proof {
                assert(deps@ == before.push(deps@.last()));
                assert(dependency_view(deps@.last()) == tv[j as int]);
                assert(deps@.map_values(|d: Dependency| dependency_view(d)) =~= before.map_values(
                    |d: Dependency| dependency_view(d),
                ).push(tv[j as int]));
                assert(tv.take(j as int + 1) =~= tv.take(j as int).push(tv[j as int]));
                assert(deps@.map_values(|d: Dependency| dependency_view(d)) =~= fv.take(i as int) + tv.take(
                    j as int + 1,
                ));
            }
            j = j + 1;
        }
        proof {
            assert(fv.take(i as int) =~= fv);
            assert(tv.take(j as int) =~= tv);
        }
        DependencyList(deps)
    }
}

} // verus!
