//! The `project.assets.json` document and the graph built from it.

use vstd::prelude::*;

use crate::graph::dependency_graph::{
    add_step, empty_model, get_or_create_step, kind_conflict, lemma_sum_of_next, lemma_sum_of_prefix, opt_view, relate_step,
    sum_of, with_framework, DependencyGraph, DependencyId, DependencyView, GraphModel,
};
use crate::graph::dependency_graph::{
    dense, extends, lemma_add_step_extends, lemma_extends_keeps, lemma_extends_refl, lemma_extends_trans,
    lemma_get_or_create_step_extends, lemma_relate_step_extends, lemma_wf_model, EdgeView,
};
use crate::graph::Framework;
use crate::text::{chars_of, split_whitespace, string_of, words};

verus! {

broadcast use vstd::map_lib::lemma_submap_of_trans;

/// The root of a `project.assets.json` document, which holds the resolved
/// dependency graph of a project, transitive dependencies included.
pub struct ProjectAssets {
    /// The version of the assets file format.
    pub version: u32,
    /// For each target framework, the libraries resolved under it, by id.
    pub targets: Vec<(String, Vec<(String, TargetLibrary)>)>,
    /// All libraries (packages and projects) used in the project, by id.
    pub libraries: Vec<(String, Library)>,
    /// Direct dependencies per target framework.
    pub project_file_dependency_groups: Option<Vec<(String, Vec<String>)>>,
    /// Project-specific information.
    pub project: Option<ProjectInfo>,
}

/// The type of a library.
pub enum LibraryType {
    /// A library that comes from compiling a .NET project.
    Project,
    /// A library that comes from compiling an external project (such as an
    /// MSBuild-based project).
    ExternalProject,
    /// A library that comes from a NuGet package.
    Package,
    /// A stand-alone .NET assembly.
    Assembly,
    /// A .NET assembly in a globally-accessible location such as the GAC or
    /// the framework reference assemblies.
    Reference,
    /// A Windows metadata assembly (.winmd file).
    WinMD,
    /// A library that could not be resolved.
    Unresolved,
}

/// A library as resolved under one target framework.
pub struct TargetLibrary {
    /// Type of the library.
    pub library_type: LibraryType,
    /// Dependencies of this library: name and version.
    pub dependencies: Vec<(String, String)>,
    /// Framework for project dependencies.
    pub framework: Option<String>,
}

/// A library of the libraries section.
pub struct Library {
    /// SHA512 hash of the package (for NuGet packages).
    pub sha512: Option<String>,
    /// Type of the library.
    pub library_type: LibraryType,
    /// Path to the package or project.
    pub path: String,
    /// MSBuild project path (for project references).
    pub msbuild_project: Option<String>,
    /// Files included in the package (for NuGet packages).
    pub files: Vec<String>,
}

/// Project-specific information from the assets file.
pub struct ProjectInfo {
    /// Version of the project.
    pub version: Option<String>,
    /// Restore information.
    pub restore: Option<ProjectRestore>,
}

/// Restore information of the project.
pub struct ProjectRestore {
    /// Unique name of the project.
    pub project_unique_name: Option<String>,
    /// Display name of the project.
    pub project_name: Option<String>,
    /// File system path to the project.
    pub project_path: Option<String>,
    /// Path where packages are stored.
    pub packages_path: Option<String>,
    /// Output path for the project.
    pub output_path: Option<String>,
}

/// The position of the last `c` in `s`, or -1 when there is none.
pub open spec fn last_index_of(s: Seq<char>, c: char) -> int
    decreases s.len(),
{
    if s.len() == 0 {
        -1
    } else if s.last() == c {
        s.len() - 1
    } else {
        last_index_of(s.drop_last(), c)
    }
}

/// The name and the version of a library id "name/version", split at its
/// last '/'; without one, the whole id is the name and there is no version.
pub open spec fn library_id_parts(id: Seq<char>) -> (Seq<char>, Option<Seq<char>>) {
    let p = last_index_of(id, '/');
    if p >= 0 {
        (id.subrange(0, p), Some(id.subrange(p + 1, id.len() as int)))
    } else {
        (id, None)
    }
}

/// The name and the version of a dependency requirement: its first word,
/// and its third when it reads "name >= version".
pub open spec fn requirement_parts(s: Seq<char>) -> (Seq<char>, Option<Seq<char>>) {
    let ws = words(s);
    if ws.len() == 3 && ws[1] == seq!['>', '='] {
        (ws[0], Some(ws[2]))
    } else {
        (ws[0], None)
    }
}

/// Parses a library ID in format "name/version" into separate components.
pub fn parse_library_id(id: String) -> (r: (String, Option<String>))
    ensures
        (r.0@, opt_view(r.1)) == library_id_parts(id@),
{
    let cs = chars_of(id.as_str());
    let mut pos: Option<usize> = None;
    let n = cs.len();
    for i in 0..n
        invariant
            n == cs@.len(),
            match pos {
                Some(p) => p < i && last_index_of(cs@.take(i as int), '/') == p,
                None => last_index_of(cs@.take(i as int), '/') == -1,
            },
    {
        proof {
            assert(cs@.take(i + 1).drop_last() =~= cs@.take(i as int));
        }
        if cs[i] == '/' {
            pos = Some(i);
        }
    }
    proof {
        assert(cs@.take(n as int) =~= cs@);
    }
    match pos {
        Some(p) => (string_of(&cs, 0, p), Some(string_of(&cs, p + 1, n))),
        None => (id, None),
    }
}

/// Parses a dependency requirement such as "Serilog >= 4.0.0" into the name
/// and, for that form, the version. It needs at least one word.
pub fn parse_dep_requirement(req: String) -> (r: (String, Option<String>))
    requires
        words(req@).len() >= 1,
    ensures
        (r.0@, opt_view(r.1)) == requirement_parts(req@),
{
    let parts = split_whitespace(req.as_str());
    let ghost ws = words(req@);
    proof {
        assert(parts@.len() == ws.len());
        assert forall|k: int| 0 <= k < ws.len() implies #[trigger] parts@[k]@ == ws[k] by {
            assert(parts@.map_values(|w: Vec<char>| w@)[k] == ws[k]);
        }
    }
    let name = string_of(&parts[0], 0, parts[0].len());
    if parts.len() == 3 && parts[1].len() == 2 && parts[1][0] == '>' && parts[1][1] == '=' {
        proof {
            assert(ws[1] =~= seq!['>', '=']);
        }
        (name, Some(string_of(&parts[2], 0, parts[2].len())))
    } else {
        proof {
            assert(parts@[0]@.subrange(0, parts@[0]@.len() as int) =~= ws[0]);
        }
        (name, None)
    }
}

/// Whether the requirement has a word.
fn has_word(req: &String) -> (r: bool)
    ensures
        r == (words(req@).len() >= 1),
{
    let parts = split_whitespace(req.as_str());
    proof {
        assert(parts@.len() == parts@.map_values(|w: Vec<char>| w@).len());
    }
    parts.len() >= 1
}

/// Parses a dependency requirement when it has a word; nothing for a blank
/// one, on which `parse_dep_requirement` has nothing to work with.
pub fn try_parse_dep_requirement(req: String) -> (r: Option<(String, Option<String>)>)
    ensures
        words(req@).len() >= 1 ==> (r matches Some(p) && (p.0@, opt_view(p.1)) == requirement_parts(req@)),
        words(req@).len() == 0 ==> r is None,
{
    if has_word(&req) {
        Some(parse_dep_requirement(req))
    } else {
        None
    }
}

/// The steps `step` applied to the items `xs` one after the other, from the
/// graph `m`.
pub open spec fn fold_all<A>(m: GraphModel, xs: Seq<A>, step: spec_fn(GraphModel, A) -> GraphModel) -> GraphModel
    decreases xs.len(),
{
    if xs.len() == 0 {
        m
    } else {
        step(fold_all(m, xs.drop_last(), step), xs.last())
    }
}

/// One more item folded.
proof fn lemma_fold_all_next<A>(m: GraphModel, xs: Seq<A>, step: spec_fn(GraphModel, A) -> GraphModel, i: int)
    requires
        0 <= i < xs.len(),
    ensures
        fold_all(m, xs.take(i + 1), step) == step(fold_all(m, xs.take(i), step), xs[i]),
{
    assert(xs.take(i + 1).drop_last() =~= xs.take(i));
    assert(xs.take(i + 1).last() == xs[i]);
}

/// No item folded, and all of them.
proof fn lemma_fold_all_ends<A>(m: GraphModel, xs: Seq<A>, step: spec_fn(GraphModel, A) -> GraphModel)
    ensures
        fold_all(m, xs.take(0), step) == m,
        fold_all(m, xs.take(xs.len() as int), step) == fold_all(m, xs, step),
{
    assert(xs.take(0) =~= Seq::<A>::empty());
    assert(xs.take(xs.len() as int) =~= xs);
}

/// Adding a dependency, or leaving the graph as it is when it is refused.
pub open spec fn add_or_keep(m: GraphModel, v: DependencyView) -> GraphModel {
    match add_step(m, v) {
        Some((m1, _)) => m1,
        None => m,
    }
}

/// Adding a relation; when it is refused only its framework is remembered.
pub open spec fn relate_or_keep(m: GraphModel, from: u32, to: u32, framework: Seq<char>) -> GraphModel {
    match relate_step(m, from, to, framework) {
        Some(m1) => m1,
        None => GraphModel { nodes: m.nodes, edges: m.edges, frameworks: with_framework(m.frameworks, framework) },
    }
}

/// The dependency that a library id stands for, by the type of the library:
/// a project or a package; none for the other types.
pub open spec fn library_view(id: Seq<char>, library_type: LibraryType) -> Option<DependencyView> {
    let (name, version) = library_id_parts(id);
    match library_type {
        LibraryType::Project => Some(DependencyView { is_project: true, name, version }),
        LibraryType::Package => Some(DependencyView { is_project: false, name, version }),
        _ => None,
    }
}

/// Each entry of the libraries section in turn.
pub open spec fn library_stepper() -> spec_fn(GraphModel, (String, Library)) -> GraphModel {
    |m: GraphModel, l: (String, Library)|
        match library_view(l.0@, l.1.library_type) {
            Some(v) => add_or_keep(m, v),
            None => m,
        }
}

/// Linking `from` to the dependency named `name` at `version`, found or
/// created as `get_or_create_step` does; nothing when there is none.
pub open spec fn link_step(
    m: GraphModel,
    from: u32,
    name: Seq<char>,
    version: Option<Seq<char>>,
    framework: Seq<char>,
) -> GraphModel {
    let (m1, r) = get_or_create_step(m, name, version);
    match r {
        Some(d) => relate_or_keep(m1, from, d, framework),
        None => m1,
    }
}

/// Each dependency (name, version) of a library in turn.
pub open spec fn dep_stepper(id: u32, framework: Seq<char>) -> spec_fn(GraphModel, (String, String)) -> GraphModel {
    |m: GraphModel, d: (String, String)| link_step(m, id, d.0@, Some(d.1@), framework)
}

/// A library resolved under a framework: the library, then a link to each
/// of its dependencies; nothing when it is neither a project nor a package
/// or cannot be added.
pub open spec fn entry_stepper(framework: Seq<char>) -> spec_fn(GraphModel, (String, TargetLibrary)) -> GraphModel {
    |m: GraphModel, e: (String, TargetLibrary)|
        match library_view(e.0@, e.1.library_type) {
            Some(v) => match add_step(m, v) {
                Some((m1, id)) => fold_all(m1, e.1.dependencies@, dep_stepper(id, framework)),
                None => m,
            },
            None => m,
        }
}

/// Each target framework in turn, with the libraries resolved under it.
pub open spec fn target_stepper() -> spec_fn(GraphModel, (String, Vec<(String, TargetLibrary)>)) -> GraphModel {
    |m: GraphModel, t: (String, Vec<(String, TargetLibrary)>)| fold_all(m, t.1@, entry_stepper(t.0@))
}

/// Each direct dependency requirement of the project in turn.
pub open spec fn requirement_stepper(pid: u32, framework: Seq<char>) -> spec_fn(GraphModel, String) -> GraphModel {
    |m: GraphModel, dep: String|
        link_step(m, pid, requirement_parts(dep@).0, requirement_parts(dep@).1, framework)
}

/// Each framework of the direct dependency groups in turn.
pub open spec fn group_stepper(pid: u32) -> spec_fn(GraphModel, (String, Vec<String>)) -> GraphModel {
    |m: GraphModel, g: (String, Vec<String>)| fold_all(m, g.1@, requirement_stepper(pid, g.0@))
}

/// The path and the version of the project, when its restore information
/// gives its path.
pub open spec fn project_path_of(project: Option<ProjectInfo>) -> Option<(Seq<char>, Option<Seq<char>>)> {
    match project {
        Some(p) => match p.restore {
            Some(r) => match r.project_path {
                Some(path) => Some((path@, opt_view(p.version))),
                None => None,
            },
            None => None,
        },
        None => None,
    }
}

/// The project added to the graph, with its identifier, when its path is
/// known.
pub open spec fn project_added(m: GraphModel, project: Option<ProjectInfo>) -> (GraphModel, Option<u32>) {
    match project_path_of(project) {
        Some((path, version)) => match add_step(m, DependencyView { is_project: true, name: path, version }) {
            Some((m1, id)) => (m1, Some(id)),
            None => (m, None),
        },
        None => (m, None),
    }
}

/// The graph that an assets document describes: the project, the libraries
/// section, the libraries resolved under each target framework with their
/// dependencies, and then, when the project is known, its direct
/// dependencies under each framework.
pub open spec fn assets_graph(a: ProjectAssets) -> GraphModel {
    let (m1, pid) = project_added(empty_model(), a.project);
    let m2 = fold_all(m1, a.libraries@, library_stepper());
    let m3 = fold_all(m2, a.targets@, target_stepper());
    match (pid, a.project_file_dependency_groups) {
        (Some(p), Some(g)) => fold_all(m3, g@, group_stepper(p)),
        _ => m3,
    }
}

/// How many dependencies a resolved library names: itself and its
/// dependencies.
pub open spec fn entry_count() -> spec_fn((String, TargetLibrary)) -> nat {
    |e: (String, TargetLibrary)| 1 + e.1.dependencies@.len()
}

/// How many dependencies the libraries resolved under a framework name.
pub open spec fn target_count() -> spec_fn((String, Vec<(String, TargetLibrary)>)) -> nat {
    |t: (String, Vec<(String, TargetLibrary)>)| sum_of(t.1@, entry_count())
}

/// How many requirements a dependency group lists.
pub open spec fn group_count() -> spec_fn((String, Vec<String>)) -> nat {
    |g: (String, Vec<String>)| g.1@.len()
}

/// How many dependencies an assets document names, at most.
pub open spec fn assets_count(a: ProjectAssets) -> nat {
    1 + a.libraries@.len() + sum_of(a.targets@, target_count()) + match a.project_file_dependency_groups {
        Some(g) => sum_of(g@, group_count()),
        None => 0,
    }
}

/// Every requirement of the dependency groups has a word.
pub open spec fn requirements_named(groups: Seq<(String, Vec<String>)>) -> bool {
    forall|i: int, j: int|
        0 <= i < groups.len() && 0 <= j < groups[i].1@.len() ==> words(#[trigger] groups[i].1@[j]@).len() >= 1
}

/// Links `from` to the dependency named `name` at `version`, found or
/// created in the graph, under `framework`.
fn link(graph: &mut DependencyGraph, from: DependencyId, name: &str, version: Option<String>, framework: Framework)
    requires
        old(graph).wf(),
        old(graph).nodes().contains_key(from.ix),
        old(graph).nodes().dom().len() < u32::MAX,
    ensures
        final(graph).wf(),
        old(graph).nodes().submap_of(final(graph).nodes()),
        final(graph).nodes().dom().len() <= old(graph).nodes().dom().len() + 1,
        final(graph).model() == link_step(old(graph).model(), from.ix, name@, opt_view(version), framework@),
{
    match graph.get_or_create_if_exists(name, version) {
        Some(dep_id) => {
            let _ = graph.add_relation(from, dep_id, framework);
        },
        None => {},
    }
}

fn parse_project(graph: &mut DependencyGraph, proj: ProjectInfo) -> (r: Option<DependencyId>)
    requires
        old(graph).wf(),
        old(graph).nodes().dom().len() < u32::MAX,
    ensures
        final(graph).wf(),
        old(graph).nodes().submap_of(final(graph).nodes()),
        final(graph).nodes().dom().len() <= old(graph).nodes().dom().len() + 1,
        project_added(old(graph).model(), Some(proj)) == (final(graph).model(), crate::graph::dependency_graph::opt_ix(
            r,
        )),
{
    let path = match proj.restore {
        Some(r) => r.project_path,
        None => None,
    };
    match path {
        Some(path) => match graph.add_project(path, proj.version) {
            Ok(id) => Some(id),
            Err(_) => None,
        },
        None => None,
    }
}

fn parse_libraries(graph: &mut DependencyGraph, libraries: Vec<(String, Library)>)
    requires
        old(graph).wf(),
        old(graph).nodes().dom().len() + libraries@.len() < u32::MAX,
    ensures
        final(graph).wf(),
        old(graph).nodes().submap_of(final(graph).nodes()),
        final(graph).nodes().dom().len() <= old(graph).nodes().dom().len() + libraries@.len(),
        final(graph).model() == fold_all(old(graph).model(), libraries@, library_stepper()),
{
    let ghost m0 = graph.model();
    let ghost n0 = graph.nodes().dom().len();
    let ghost xs = libraries@;
    let ghost step = library_stepper();
    proof {
        lemma_fold_all_ends(m0, xs, step);
    }
    for l in it: libraries.into_iter()
        invariant
            it.seq() == xs,
            m0 == old(graph).model(),
            n0 == old(graph).nodes().dom().len(),
            n0 + xs.len() < u32::MAX,
            step == library_stepper(),
            graph.wf(),
            m0.nodes.submap_of(graph.nodes()),
            graph.nodes().dom().len() <= n0 + it.index(),
            fold_all(m0, xs.take(it.index() as int), step) == graph.model(),
    {
        proof {
            lemma_fold_all_next(m0, xs, step, it.index() as int);
        }
        let (key, library) = l;
        let (name, version) = parse_library_id(key);
        match library.library_type {
            LibraryType::Project => {
                let _ = graph.add_project(name, version);
            },
            LibraryType::Package => {
                let _ = graph.add_package(name, version);
            },
            _ => {},
        }
    }
}

fn parse_library_entry(graph: &mut DependencyGraph, target_framework: &Framework, library_id: String, library_info: TargetLibrary)
    requires
        old(graph).wf(),
        old(graph).nodes().dom().len() + 1 + library_info.dependencies@.len() < u32::MAX,
    ensures
        final(graph).wf(),
        old(graph).nodes().submap_of(final(graph).nodes()),
        final(graph).nodes().dom().len() <= old(graph).nodes().dom().len() + 1 + library_info.dependencies@.len(),
        final(graph).model() == entry_stepper(target_framework@)(old(graph).model(), (library_id, library_info)),
{
    let ghost lib_view = library_view(library_id@, library_info.library_type);
    let ghost deps = library_info.dependencies@;
    let (name, version) = parse_library_id(library_id);
    let added = match library_info.library_type {
        LibraryType::Package => graph.add_package(name, version),
        LibraryType::Project => graph.add_project(name, version),
        _ => return,
    };
    let id = match added {
        Ok(id) => id,
        Err(_) => return,
    };
    let ghost m0 = graph.model();
    let ghost n0 = graph.nodes().dom().len();
    let ghost step = dep_stepper(id.ix, target_framework@);
    proof {
        lemma_fold_all_ends(m0, deps, step);
    }
    for d in it: library_info.dependencies.into_iter()
        invariant
            it.seq() == deps,
            n0 + deps.len() < u32::MAX,
            step == dep_stepper(id.ix, target_framework@),
            graph.wf(),
            m0.nodes.submap_of(graph.nodes()),
            m0.nodes.contains_key(id.ix),
            graph.nodes().dom().len() <= n0 + it.index(),
            fold_all(m0, deps.take(it.index() as int), step) == graph.model(),
    {
        proof {
            lemma_fold_all_next(m0, deps, step, it.index() as int);
        }
        let (dep_name, dep_version) = d;
        link(graph, id, dep_name.as_str(), Some(dep_version), target_framework.duplicate());
    }
}

fn parse_project_file_dependency_groups(graph: &mut DependencyGraph, proj_id: &DependencyId, deps: Vec<(String, Vec<String>)>)
    requires
        old(graph).wf(),
        old(graph).nodes().contains_key(proj_id.ix),
        old(graph).nodes().dom().len() + sum_of(deps@, group_count()) < u32::MAX,
        requirements_named(deps@),
    ensures
        final(graph).wf(),
        old(graph).nodes().submap_of(final(graph).nodes()),
        final(graph).nodes().dom().len() <= old(graph).nodes().dom().len() + sum_of(deps@, group_count()),
        final(graph).model() == fold_all(old(graph).model(), deps@, group_stepper(proj_id.ix)),
{
    let ghost m0 = graph.model();
    let ghost n0 = graph.nodes().dom().len();
    let ghost xs = deps@;
    let ghost step = group_stepper(proj_id.ix);
    let ghost count = group_count();
    proof {
        lemma_fold_all_ends(m0, xs, step);
        lemma_sum_of_prefix(xs, count, 0);
    }
    for g in it: deps.into_iter()
        invariant
            it.seq() == xs,
            m0 == old(graph).model(),
            n0 == old(graph).nodes().dom().len(),
            n0 + sum_of(xs, count) < u32::MAX,
            requirements_named(xs),
            step == group_stepper(proj_id.ix),
            count == group_count(),
            graph.wf(),
            m0.nodes.submap_of(graph.nodes()),
            graph.nodes().contains_key(proj_id.ix),
            graph.nodes().dom().len() <= n0 + sum_of(xs.take(it.index() as int), count),
            fold_all(m0, xs.take(it.index() as int), step) == graph.model(),
    {
        let ghost gi = it.index() as int;
        proof {
            lemma_fold_all_next(m0, xs, step, gi);
            lemma_sum_of_next(xs, count, gi);
            lemma_sum_of_prefix(xs, count, gi + 1);
        }
        let (framework, reqs) = g;
        let ghost m1 = graph.model();
        let ghost n1 = graph.nodes().dom().len();
        let ghost rs = reqs@;
        let ghost rstep = requirement_stepper(proj_id.ix, framework@);
        proof {
            lemma_fold_all_ends(m1, rs, rstep);
        }
        for req in it2: reqs.into_iter()
            invariant
                it2.seq() == rs,
                n1 + rs.len() < u32::MAX,
                forall|j: int| 0 <= j < rs.len() ==> words(#[trigger] rs[j]@).len() >= 1,
                rstep == requirement_stepper(proj_id.ix, framework@),
                graph.wf(),
                m1.nodes.submap_of(graph.nodes()),
                graph.nodes().contains_key(proj_id.ix),
                graph.nodes().dom().len() <= n1 + it2.index(),
                fold_all(m1, rs.take(it2.index() as int), rstep) == graph.model(),
        {
            proof {
                lemma_fold_all_next(m1, rs, rstep, it2.index() as int);
            }
            let (name, version) = parse_dep_requirement(req);
            link(graph, *proj_id, name.as_str(), version, Framework::new(framework.clone()));
        }
    }
    proof {
        assert(xs.take(xs.len() as int) =~= xs);
    }
}

/// Creates a DependencyGraph from a ProjectAssets structure.
///
/// The project is added first, when its path is known; then the libraries
/// section; then, under each target framework, each resolved library with a
/// relation to each of its dependencies, found or created by name and
/// version; then the direct dependencies of the project under each
/// framework. Dependencies and relations that cannot be added are skipped.
pub fn create_dependency_graph_from_assets(assets: ProjectAssets) -> (g: DependencyGraph)
    requires
        assets_count(assets) < u32::MAX,
        project_path_of(assets.project) is Some ==> match assets.project_file_dependency_groups {
            Some(groups) => requirements_named(groups@),
            None => true,
        },
    ensures
        g.wf(),
        g.model() == assets_graph(assets),
{
    let mut graph = DependencyGraph::new();
    let ghost a = assets;
    proof {
        assert(graph.model() =~= empty_model());
    }
    let project_id = match assets.project {
        Some(p) => parse_project(&mut graph, p),
        None => None,
    };
    let ghost m1 = graph.model();
    proof {
        let (pm, pid) = project_added(empty_model(), a.project);
        assert(m1 == pm);
        assert(crate::graph::dependency_graph::opt_ix(project_id) == pid);
        if project_id is Some {
            assert(m1.nodes.contains_key(project_id->0.ix));
        }
    }
    parse_libraries(&mut graph, assets.libraries);
    let ghost m2 = graph.model();
    let ghost n2 = graph.nodes().dom().len();
    let ghost xs = a.targets@;
    let ghost step = target_stepper();
    let ghost count = target_count();
    proof {
        lemma_fold_all_ends(m2, xs, step);
        lemma_sum_of_prefix(xs, count, 0);
    }
    for t in it: assets.targets.into_iter()
        invariant
            it.seq() == xs,
            n2 + sum_of(xs, count) < u32::MAX,
            step == target_stepper(),
            count == target_count(),
            graph.wf(),
            m2.nodes.submap_of(graph.nodes()),
            graph.nodes().dom().len() <= n2 + sum_of(xs.take(it.index() as int), count),
            fold_all(m2, xs.take(it.index() as int), step) == graph.model(),
    {
        let ghost ti = it.index() as int;
        proof {
            lemma_fold_all_next(m2, xs, step, ti);
            lemma_sum_of_next(xs, count, ti);
            lemma_sum_of_prefix(xs, count, ti + 1);
        }
        let (target_framework, libraries) = t;
        let framework = Framework::new(target_framework);
        let ghost me = graph.model();
        let ghost n1 = graph.nodes().dom().len();
        let ghost es = libraries@;
        let ghost estep = entry_stepper(framework@);
        let ghost ecount = entry_count();
        proof {
            lemma_fold_all_ends(me, es, estep);
            lemma_sum_of_prefix(es, ecount, 0);
        }
        for e in it2: libraries.into_iter()
            invariant
                it2.seq() == es,
                n1 + sum_of(es, ecount) < u32::MAX,
                estep == entry_stepper(framework@),
                ecount == entry_count(),
                graph.wf(),
                me.nodes.submap_of(graph.nodes()),
                graph.nodes().dom().len() <= n1 + sum_of(es.take(it2.index() as int), ecount),
                fold_all(me, es.take(it2.index() as int), estep) == graph.model(),
        {
            let ghost ei = it2.index() as int;
            proof {
                lemma_fold_all_next(me, es, estep, ei);
                lemma_sum_of_next(es, ecount, ei);
                lemma_sum_of_prefix(es, ecount, ei + 1);
            }
            let (library_id, library_info) = e;
            parse_library_entry(&mut graph, &framework, library_id, library_info);
        }
        proof {
            assert(es.take(es.len() as int) =~= es);
        }
    }
    proof {
        assert(xs.take(xs.len() as int) =~= xs);
    }
    match (project_id, assets.project_file_dependency_groups) {
        (Some(id), Some(groups)) => parse_project_file_dependency_groups(&mut graph, &id, groups),
        _ => {},
    }
    graph
}

/// Whether every requirement of the dependency groups has a word.
fn requirements_have_words(groups: &Vec<(String, Vec<String>)>) -> (r: bool)
    ensures
        r == requirements_named(groups@),
{
    let n = groups.len();
    for i in 0..n
        invariant
            n == groups@.len(),
            forall|a: int, b: int|
                0 <= a < i && 0 <= b < groups@[a].1@.len() ==> words(#[trigger] groups@[a].1@[b]@).len() >= 1,
    {
        let m = groups[i].1.len();
        for j in 0..m
            invariant
                m == groups@[i as int].1@.len(),
                i < groups@.len(),
                forall|a: int, b: int|
                    0 <= a < i && 0 <= b < groups@[a].1@.len() ==> words(#[trigger] groups@[a].1@[b]@).len() >= 1,
                forall|b: int| 0 <= b < j ==> words(#[trigger] groups@[i as int].1@[b]@).len() >= 1,
        {
            if !has_word(&groups[i].1[j]) {
                return false;
            }
        }
    }
    true
}

/// Builds the graph of a `project.assets.json` document when every
/// requirement that `create_dependency_graph_from_assets` reads has a word:
/// those of the dependency groups, read when the project's path is known.
/// Nothing otherwise.
pub fn try_create_dependency_graph_from_assets(assets: ProjectAssets) -> (r: Option<DependencyGraph>)
    requires
        assets_count(assets) < u32::MAX,
    ensures
        ({
            let blank = project_path_of(assets.project) is Some && match assets.project_file_dependency_groups {
                Some(groups) => !requirements_named(groups@),
                None => false,
            };
            &&& blank ==> r is None
            &&& !blank ==> (r matches Some(g) && g.wf() && g.model() == assets_graph(assets))
        }),
{
    let path_known = match &assets.project {
        Some(p) => match &p.restore {
            Some(rs) => rs.project_path.is_some(),
            None => false,
        },
        None => false,
    };
    let named = match &assets.project_file_dependency_groups {
        Some(groups) => requirements_have_words(groups),
        None => true,
    };
    if path_known && !named {
        None
    } else {
        Some(create_dependency_graph_from_assets(assets))
    }
}

/// Where every step extends the graph, a fold of steps extends it too.
proof fn lemma_fold_all_whole<A>(m: GraphModel, xs: Seq<A>, step: spec_fn(GraphModel, A) -> GraphModel)
    requires
        forall|a: GraphModel, x: A| #[trigger] extends(a, step(a, x)),
    ensures
        extends(m, fold_all(m, xs, step)),
    decreases xs.len(),
{
    if xs.len() == 0 {
        lemma_extends_refl(m);
    } else {
        lemma_fold_all_whole(m, xs.drop_last(), step);
        let m1 = fold_all(m, xs.drop_last(), step);
        assert(extends(m1, step(m1, xs.last())));
        lemma_extends_trans(m, m1, fold_all(m, xs, step));
    }
}

/// Where every step extends the graph: the fold of the items before item
/// `i` extends the start, and the step on item `i` and all that follows
/// extend it to the end.
proof fn lemma_fold_all_extends<A>(m: GraphModel, xs: Seq<A>, step: spec_fn(GraphModel, A) -> GraphModel, i: int)
    requires
        forall|a: GraphModel, x: A| #[trigger] extends(a, step(a, x)),
        0 <= i < xs.len(),
    ensures
        extends(m, fold_all(m, xs.take(i), step)),
        extends(step(fold_all(m, xs.take(i), step), xs[i]), fold_all(m, xs, step)),
    decreases xs.len() - i,
{
    lemma_fold_all_whole(m, xs.take(i), step);
    lemma_fold_all_next(m, xs, step, i);
    let mi1 = fold_all(m, xs.take(i + 1), step);
    if i + 1 == xs.len() {
        assert(xs.take(i + 1) =~= xs);
        lemma_extends_refl(mi1);
    } else {
        lemma_fold_all_extends(m, xs, step, i + 1);
        lemma_fold_all_next(m, xs, step, i + 1);
        let mi2 = fold_all(m, xs.take(i + 2), step);
        assert(extends(mi1, step(mi1, xs[i + 1])));
        lemma_extends_trans(mi1, mi2, fold_all(m, xs, step));
    }
}

proof fn lemma_add_or_keep_extends(m: GraphModel, v: DependencyView)
    ensures
        extends(m, add_or_keep(m, v)),
{
    if dense(m.nodes) {
        lemma_add_step_extends(m, v);
    }
    if add_step(m, v) is None {
        lemma_extends_refl(m);
    }
}

proof fn lemma_relate_or_keep_extends(m: GraphModel, from: u32, to: u32, framework: Seq<char>)
    ensures
        extends(m, relate_or_keep(m, from, to, framework)),
{
    lemma_relate_step_extends(m, from, to, framework);
    if relate_step(m, from, to, framework) is None {
        let m1 = relate_or_keep(m, from, to, framework);
        assert forall|f: Seq<char>| m.frameworks.contains(f) implies #[trigger] m1.frameworks.contains(f) by {
            if !m.frameworks.contains(framework) {
                let k = choose|k: int| 0 <= k < m.frameworks.len() && m.frameworks[k] == f;
                assert(m1.frameworks[k] == f);
            }
        }
    }
}

proof fn lemma_link_step_extends(m: GraphModel, from: u32, name: Seq<char>, version: Option<Seq<char>>, framework: Seq<char>)
    ensures
        extends(m, link_step(m, from, name, version, framework)),
{
    if dense(m.nodes) {
        lemma_get_or_create_step_extends(m, name, version);
        let (m1, r) = get_or_create_step(m, name, version);
        match r {
            Some(d) => {
                lemma_relate_or_keep_extends(m1, from, d, framework);
                lemma_extends_trans(m, m1, relate_or_keep(m1, from, d, framework));
            },
            None => {},
        }
    }
}

proof fn lemma_dep_stepper_extends(id: u32, framework: Seq<char>)
    ensures
        forall|a: GraphModel, x: (String, String)| #[trigger] extends(a, dep_stepper(id, framework)(a, x)),
{
    assert forall|a: GraphModel, x: (String, String)| #[trigger] extends(a, dep_stepper(id, framework)(a, x)) by {
        lemma_link_step_extends(a, id, x.0@, Some(x.1@), framework);
    }
}

proof fn lemma_entry_stepper_extends(framework: Seq<char>)
    ensures
        forall|a: GraphModel, e: (String, TargetLibrary)| #[trigger] extends(a, entry_stepper(framework)(a, e)),
{
    assert forall|a: GraphModel, e: (String, TargetLibrary)| #[trigger] extends(a, entry_stepper(framework)(a, e)) by {
        match library_view(e.0@, e.1.library_type) {
            Some(v) => {
                if dense(a.nodes) {
                    lemma_add_step_extends(a, v);
                }
                match add_step(a, v) {
                    Some((a1, id)) => {
                        lemma_dep_stepper_extends(id, framework);
                        lemma_fold_all_whole(a1, e.1.dependencies@, dep_stepper(id, framework));
                        lemma_extends_trans(a, a1, entry_stepper(framework)(a, e));
                    },
                    None => lemma_extends_refl(a),
                }
            },
            None => lemma_extends_refl(a),
        }
    }
}

proof fn lemma_target_stepper_extends()
    ensures
        forall|a: GraphModel, t: (String, Vec<(String, TargetLibrary)>)| #[trigger] extends(a, target_stepper()(a, t)),
{
    assert forall|a: GraphModel, t: (String, Vec<(String, TargetLibrary)>)| #[trigger] extends(a, target_stepper()(a, t)) by {
        lemma_entry_stepper_extends(t.0@);
        lemma_fold_all_whole(a, t.1@, entry_stepper(t.0@));
    }
}

proof fn lemma_library_stepper_extends()
    ensures
        forall|a: GraphModel, l: (String, Library)| #[trigger] extends(a, library_stepper()(a, l)),
{
    assert forall|a: GraphModel, l: (String, Library)| #[trigger] extends(a, library_stepper()(a, l)) by {
        match library_view(l.0@, l.1.library_type) {
            Some(v) => lemma_add_or_keep_extends(a, v),
            None => lemma_extends_refl(a),
        }
    }
}

proof fn lemma_group_stepper_extends(pid: u32)
    ensures
        forall|a: GraphModel, g: (String, Vec<String>)| #[trigger] extends(a, group_stepper(pid)(a, g)),
{
    assert forall|a: GraphModel, g: (String, Vec<String>)| #[trigger] extends(a, group_stepper(pid)(a, g)) by {
        assert forall|b: GraphModel, d: String| #[trigger] extends(b, requirement_stepper(pid, g.0@)(b, d)) by {
            lemma_link_step_extends(b, pid, requirement_parts(d@).0, requirement_parts(d@).1, g.0@);
        }
        lemma_fold_all_whole(a, g.1@, requirement_stepper(pid, g.0@));
    }
}

/// Every dependency of a library resolved under a target framework is
/// related to it under that framework in the graph built from an assets
/// document: for a library of the project or package type whose name no
/// dependency of the other kind holds in the graph, and a dependency named
/// as a project or package of the libraries section, the graph holds a
/// relation from the library to a dependency of that name at the version
/// asked for, under the framework. The graph must hold fewer than
/// `u32::MAX` relations, the most that it can take.
#[verifier::spinoff_prover]
#[verifier::rlimit(60)]
pub proof fn lemma_assets_relates_every_dependency(
    a: ProjectAssets,
    g: &DependencyGraph,
    ti: int,
    ei: int,
    di: int,
    li: int,
)
    requires
        g.wf(),
        g.model() == assets_graph(a),
        g.edges().len() < u32::MAX,
        0 <= ti < a.targets@.len(),
        0 <= ei < a.targets@[ti].1@.len(),
        library_view(a.targets@[ti].1@[ei].0@, a.targets@[ti].1@[ei].1.library_type) is Some,
        !kind_conflict(
            g.nodes(),
            library_view(a.targets@[ti].1@[ei].0@, a.targets@[ti].1@[ei].1.library_type).unwrap(),
        ),
        0 <= di < a.targets@[ti].1@[ei].1.dependencies@.len(),
        0 <= li < a.libraries@.len(),
        library_view(a.libraries@[li].0@, a.libraries@[li].1.library_type) is Some,
        library_view(a.libraries@[li].0@, a.libraries@[li].1.library_type).unwrap().name
            == a.targets@[ti].1@[ei].1.dependencies@[di].0@,
    ensures
        ({
            let fw = a.targets@[ti].0@;
            let e = a.targets@[ti].1@[ei];
            let v = library_view(e.0@, e.1.library_type).unwrap();
            let dep = e.1.dependencies@[di];
            exists|x: u32, y: u32, k: int|
                #![trigger g.edges()[k], g.nodes()[x], g.nodes()[y]]
                0 <= k < g.edges().len() && g.nodes().contains_key(x) && g.nodes().contains_key(y) && g.nodes()[x] == v
                    && g.nodes()[y].name == dep.0@ && g.nodes()[y].version == Some(dep.1@) && g.edges()[k]
                    == (EdgeView { from: x, to: y, framework: fw })
        }),
{
    lemma_wf_model(g);
    let mf = g.model();
    let fw = a.targets@[ti].0@;
    let entries = a.targets@[ti].1@;
    let e = entries[ei];
    let v = library_view(e.0@, e.1.library_type).unwrap();
    let deps = e.1.dependencies@;
    let dep = deps[di];
    let libs = a.libraries@;
    let vl = library_view(libs[li].0@, libs[li].1.library_type).unwrap();
    // the stages of the build
    let m0 = empty_model();
    assert(dense(m0.nodes)) by {
        assert(m0.nodes.dom() =~= Set::<u32>::empty());
    }
    let (m1, pid) = project_added(m0, a.project);
    assert(extends(m0, m1)) by {
        match project_path_of(a.project) {
            Some((path, version)) => {
                lemma_add_step_extends(m0, DependencyView { is_project: true, name: path, version });
                if add_step(m0, DependencyView { is_project: true, name: path, version }) is None {
                    lemma_extends_refl(m0);
                }
            },
            None => lemma_extends_refl(m0),
        }
    }
    lemma_library_stepper_extends();
    let m2 = fold_all(m1, libs, library_stepper());
    let m3 = fold_all(m2, a.targets@, target_stepper());
    lemma_target_stepper_extends();
    lemma_fold_all_whole(m2, a.targets@, target_stepper());
    assert(extends(m3, mf)) by {
        match (pid, a.project_file_dependency_groups) {
            (Some(p), Some(gs)) => {
                lemma_group_stepper_extends(p);
                lemma_fold_all_whole(m3, gs@, group_stepper(p));
            },
            _ => lemma_extends_refl(m3),
        }
    }
    // the library of the libraries section gives a dependency of the name
    lemma_fold_all_extends(m1, libs, library_stepper(), li);
    let ml = fold_all(m1, libs.take(li), library_stepper());
    let ml1 = library_stepper()(ml, libs[li]);
    lemma_extends_trans(m0, m1, ml);
    lemma_extends_trans(ml1, m2, m3);
    lemma_extends_trans(ml1, m3, mf);
    assert(extends(ml, ml1));
    lemma_extends_trans(ml, ml1, mf);
    lemma_extends_keeps(m0, ml, mf);
    lemma_add_step_extends(ml, vl);
    let named = exists|i: u32| #[trigger] ml1.nodes.contains_key(i) && ml1.nodes[i].name == vl.name;
    assert(named) by {
        match add_step(ml, vl) {
            Some((ml2, id)) => {
                assert(ml1.nodes.contains_key(id) && ml1.nodes[id].name == vl.name);
            },
            None => {
                let i = choose|i: u32| #[trigger] ml.nodes.contains_key(i) && ml.nodes[i].name == vl.name
                    && ml.nodes[i].is_project != vl.is_project;
                assert(ml1.nodes.contains_key(i) && ml1.nodes[i].name == vl.name);
            },
        }
    }
    // the target framework and the library resolved under it
    lemma_fold_all_extends(m2, a.targets@, target_stepper(), ti);
    let mt = fold_all(m2, a.targets@.take(ti), target_stepper());
    let mt1 = target_stepper()(mt, a.targets@[ti]);
    assert(mt1 == fold_all(mt, entries, entry_stepper(fw)));
    lemma_entry_stepper_extends(fw);
    lemma_fold_all_extends(mt, entries, entry_stepper(fw), ei);
    let me = fold_all(mt, entries.take(ei), entry_stepper(fw));
    let me1 = entry_stepper(fw)(me, e);
    lemma_extends_trans(ml1, m2, mt);
    lemma_extends_trans(ml1, mt, me);
    lemma_extends_trans(me1, mt1, m3);
    lemma_extends_trans(me1, m3, mf);
    assert(extends(me, me1));
    lemma_extends_trans(me, me1, mf);
    lemma_extends_keeps(ml1, me, mf);
    lemma_add_step_extends(me, v);
    if add_step(me, v) is None {
        let i = choose|i: u32| #[trigger] me.nodes.contains_key(i) && me.nodes[i].name == v.name
            && me.nodes[i].is_project != v.is_project;
        lemma_extends_trans(me, me1, mf);
        lemma_extends_keeps(me, me1, mf);
        assert(mf.nodes.contains_key(i) && mf.nodes[i].name == v.name && mf.nodes[i].is_project != v.is_project);
        assert(kind_conflict(g.nodes(), v));
        assert(false);
    }
    let (me2, id) = add_step(me, v).unwrap();
    assert(me1 == fold_all(me2, deps, dep_stepper(id, fw)));
    // the dependency of the library
    lemma_dep_stepper_extends(id, fw);
    lemma_fold_all_extends(me2, deps, dep_stepper(id, fw), di);
    let md = fold_all(me2, deps.take(di), dep_stepper(id, fw));
    let md1 = dep_stepper(id, fw)(md, dep);
    lemma_extends_trans(md1, me1, mf);
    lemma_extends_trans(me, me2, md);
    lemma_extends_trans(ml1, me, md);
    lemma_extends_trans(md, md1, mf);
    lemma_extends_keeps(ml1, md, mf);
    lemma_extends_keeps(me2, md, mf);
    let i0 = choose|i: u32| #[trigger] ml1.nodes.contains_key(i) && ml1.nodes[i].name == vl.name;
    assert(md.nodes.contains_key(i0) && md.nodes[i0].name == dep.0@);
    lemma_get_or_create_step_extends(md, dep.0@, Some(dep.1@));
    let (mg, r) = get_or_create_step(md, dep.0@, Some(dep.1@));
    let y = r.unwrap();
    lemma_relate_or_keep_extends(mg, id, y, fw);
    lemma_relate_step_extends(mg, id, y, fw);
    assert(md1 == relate_or_keep(mg, id, y, fw));
    lemma_extends_trans(mg, md1, mf);
    lemma_extends_trans(md, mg, mf);
    lemma_extends_keeps(mg, md1, mf);
    lemma_extends_keeps(md, mg, mf);
    assert(mg.edges.len() < u32::MAX);
    let k = mg.edges.len() as int;
    assert(md1.edges[k] == (EdgeView { from: id, to: y, framework: fw }));
    assert(mf.edges[k] == md1.edges[k]);
    assert(g.edges()[k] == mf.edges[k]);
    assert(g.nodes()[id] == v);
    assert(g.nodes()[y] == mg.nodes[y]);
}

} // verus!
