//! The `nuget.dgspec.json` document and the graph built from it.

use vstd::prelude::*;

use crate::graph::dependency_graph::{
    add_related_step, add_step, empty_model, fold_steps, lemma_fold_steps_all, lemma_fold_steps_next,
    lemma_fold_steps_refused, lemma_sum_of_next, lemma_sum_of_prefix, opt_view, sum_of, DependencyGraph, DependencyGraphError, DependencyId, DependencyView,
    GraphModel,
};
use crate::graph::dependency_graph::{
    dense, extends, lemma_add_step_extends, lemma_extends_keeps, lemma_extends_refl, lemma_extends_trans,
    lemma_fold_steps_extends, lemma_fold_steps_whole, lemma_relate_step_extends, lemma_wf_model, relate_step, EdgeView,
};
use crate::graph::Framework;

verus! {

broadcast use vstd::map_lib::lemma_submap_of_trans;

/// The root of a dependency graph specification (dgSpec) document, which
/// describes the projects of a solution and what they depend on.
pub struct DependencyGraphSpec {
    /// The format version of the dgSpec.
    pub format: u32,
    /// The projects, by path, with their package specifications.
    pub projects: Vec<(String, PackageSpec)>,
}

/// The package specification of a project.
pub struct PackageSpec {
    /// The version of the project.
    pub version: Option<String>,
    /// Restore information of the project.
    pub restore: Option<ProjectRestore>,
    /// Target frameworks and what the project uses under each.
    pub frameworks: Option<Vec<(String, TargetFrameworkInformation)>>,
}

/// Restore metadata of a project.
pub struct ProjectRestore {
    /// Unique name of the project.
    pub project_unique_name: Option<String>,
    /// Display name of the project.
    pub project_name: Option<String>,
    /// File system path to the project.
    pub project_path: Option<String>,
    /// Path where packages are stored.
    pub packages_path: Option<String>,
    /// Output path for the project.
    pub output_path: Option<String>,
    /// Style of the project (e.g., "PackageReference").
    pub project_style: Option<String>,
    /// Whether the project supports cross-targeting.
    pub cross_targeting: Option<bool>,
    /// Paths to configuration files.
    pub config_file_paths: Option<Vec<String>>,
    /// Original target frameworks specified.
    pub original_target_frameworks: Option<Vec<String>>,
    /// Frameworks and the projects referenced under each.
    pub frameworks: Option<Vec<(String, RestoreFramework)>>,
    /// Properties for handling warnings.
    pub warning_properties: Option<WarningProperties>,
    /// Properties for restore auditing.
    pub restore_audit_properties: Option<RestoreAuditProperties>,
    /// SDK analysis level.
    pub sdk_analysis_level: Option<String>,
}

/// A framework in the context of restore.
pub struct RestoreFramework {
    /// Alias for the target framework.
    pub target_alias: Option<String>,
    /// References to other projects, by path.
    pub project_references: Vec<(String, ProjectReference)>,
}

/// A reference to another project.
pub struct ProjectReference {
    /// Path to the referenced project.
    pub project_path: Option<String>,
}

/// Properties for configuring warnings during restore.
pub struct WarningProperties {
    /// Warnings to treat as errors.
    pub warn_as_error: Option<Vec<String>>,
}

/// Properties for configuring restore auditing.
pub struct RestoreAuditProperties {
    /// Whether auditing is enabled.
    pub enable_audit: Option<String>,
    /// Level of auditing.
    pub audit_level: Option<String>,
    /// Mode of auditing.
    pub audit_mode: Option<String>,
}

/// What a project uses under one target framework.
pub struct TargetFrameworkInformation {
    /// Library dependencies, by name.
    pub dependencies: Option<Vec<(String, LibraryDependency)>>,
    /// Download dependencies.
    pub download_dependencies: Option<Vec<DownloadDependency>>,
    /// Framework references, by name.
    pub framework_references: Option<Vec<(String, FrameworkReference)>>,
    /// Imported frameworks.
    pub imports: Option<Vec<String>>,
    /// Alias for the target framework.
    pub target_alias: Option<String>,
    /// Path to the runtime identifier graph.
    pub runtime_identifier_graph_path: Option<String>,
    /// Whether asset target fallback is enabled.
    pub asset_target_fallback: Option<bool>,
    /// Whether to warn for this framework.
    pub warn: Option<bool>,
}

/// A dependency that needs to be downloaded.
pub struct DownloadDependency {
    /// Name of the dependency.
    pub name: Option<String>,
    /// Version of the dependency.
    pub version: Option<String>,
}

/// A reference to a framework.
pub struct FrameworkReference {
    /// Private assets for this reference.
    pub private_assets: Option<String>,
}

/// A library dependency.
pub struct LibraryDependency {
    /// Target of the dependency.
    pub target: Option<String>,
    /// Version of the dependency.
    pub version: Option<String>,
}

/// Adding the package `lib` and a relation from the project `pid` to it
/// under `framework`.
pub open spec fn lib_stepper(pid: u32, framework: Seq<char>) -> spec_fn(GraphModel, (String, LibraryDependency)) -> Option<
    GraphModel,
> {
    |m: GraphModel, lib: (String, LibraryDependency)|
        add_related_step(
            m,
            pid,
            DependencyView { is_project: false, name: lib.0@, version: opt_view(lib.1.version) },
            framework,
        )
}

/// Adding the referenced project `r`, without version, and a relation from
/// the project `pid` to it under `framework`.
pub open spec fn ref_stepper(pid: u32, framework: Seq<char>) -> spec_fn(GraphModel, (String, ProjectReference)) -> Option<
    GraphModel,
> {
    |m: GraphModel, r: (String, ProjectReference)|
        add_related_step(m, pid, DependencyView { is_project: true, name: r.0@, version: None }, framework)
}

/// Adds each package and a relation from the project to it under the framework.
pub fn add_libs(
    graph: &mut DependencyGraph,
    project_id: DependencyId,
    framework: Framework,
    libs: Vec<(String, LibraryDependency)>,
) -> (r: Result<(), DependencyGraphError>)
    requires
        old(graph).wf(),
        old(graph).nodes().contains_key(project_id.ix),
        old(graph).nodes().dom().len() + libs@.len() < u32::MAX,
    ensures
        final(graph).wf(),
        old(graph).nodes().submap_of(final(graph).nodes()),
        final(graph).nodes().dom().len() <= old(graph).nodes().dom().len() + libs@.len(),
        match fold_steps(old(graph).model(), libs@, lib_stepper(project_id.ix, framework@)) {
            Some(m) => r is Ok && final(graph).model() == m,
            None => r is Err,
        },
{
    let ghost m0 = graph.model();
    let ghost n0 = graph.nodes().dom().len();
    let ghost xs = libs@;
    let ghost step = lib_stepper(project_id.ix, framework@);
    proof {
        lemma_fold_steps_all(m0, xs, step);
    }
    for lib in it: libs.into_iter()
        invariant
            it.seq() == xs,
            m0 == old(graph).model(),
            n0 == old(graph).nodes().dom().len(),
            xs.len() + n0 < u32::MAX,
            step == lib_stepper(project_id.ix, framework@),
            graph.wf(),
            m0.nodes.submap_of(graph.nodes()),
            graph.nodes().dom().len() <= n0 + it.index(),
            graph.nodes().contains_key(project_id.ix),
            fold_steps(m0, xs.take(it.index() as int), step) == Some(graph.model()),
    {
        let ghost i = it.index() as int;
        proof {
            lemma_fold_steps_next(m0, xs, step, i);
        }
        let (dep, info) = lib;
        let dep_id = match graph.add_package(dep, info.version) {
            Ok(id) => id,
            Err(e) => {
                proof {
                    lemma_fold_steps_refused(m0, xs, step, i + 1);
                }
                return Err(e);
            },
        };
        match graph.add_relation(project_id, dep_id, framework.duplicate()) {
            Ok(()) => {},
            Err(e) => {
                proof {
                    lemma_fold_steps_refused(m0, xs, step, i + 1);
                }
                return Err(e);
            },
        }
    }
    Ok(())
}

/// Adds each referenced project and a relation from the project to it under
/// the framework.
pub fn add_projs(
    graph: &mut DependencyGraph,
    project_id: DependencyId,
    framework: Framework,
    projs: Vec<(String, ProjectReference)>,
) -> (r: Result<(), DependencyGraphError>)
    requires
        old(graph).wf(),
        old(graph).nodes().contains_key(project_id.ix),
        old(graph).nodes().dom().len() + projs@.len() < u32::MAX,
    ensures
        final(graph).wf(),
        old(graph).nodes().submap_of(final(graph).nodes()),
        final(graph).nodes().dom().len() <= old(graph).nodes().dom().len() + projs@.len(),
        match fold_steps(old(graph).model(), projs@, ref_stepper(project_id.ix, framework@)) {
            Some(m) => r is Ok && final(graph).model() == m,
            None => r is Err,
        },
{
    let ghost m0 = graph.model();
    let ghost n0 = graph.nodes().dom().len();
    let ghost xs = projs@;
    let ghost step = ref_stepper(project_id.ix, framework@);
    proof {
        lemma_fold_steps_all(m0, xs, step);
    }
    for proj in it: projs.into_iter()
        invariant
            it.seq() == xs,
            m0 == old(graph).model(),
            n0 == old(graph).nodes().dom().len(),
            xs.len() + n0 < u32::MAX,
            step == ref_stepper(project_id.ix, framework@),
            graph.wf(),
            m0.nodes.submap_of(graph.nodes()),
            graph.nodes().dom().len() <= n0 + it.index(),
            graph.nodes().contains_key(project_id.ix),
            fold_steps(m0, xs.take(it.index() as int), step) == Some(graph.model()),
    {
        let ghost i = it.index() as int;
        proof {
            lemma_fold_steps_next(m0, xs, step, i);
        }
        let (dep, _) = proj;
        let dep_id = match graph.add_project(dep, None) {
            Ok(id) => id,
            Err(e) => {
                proof {
                    lemma_fold_steps_refused(m0, xs, step, i + 1);
                }
                return Err(e);
            },
        };
        match graph.add_relation(project_id, dep_id, framework.duplicate()) {
            Ok(()) => {},
            Err(e) => {
                proof {
                    lemma_fold_steps_refused(m0, xs, step, i + 1);
                }
                return Err(e);
            },
        }
    }
    Ok(())
}

/// What a project uses under one of its frameworks: each of its packages,
/// with a relation to it.
pub open spec fn framework_stepper(pid: u32) -> spec_fn(GraphModel, (String, TargetFrameworkInformation)) -> Option<
    GraphModel,
> {
    |m: GraphModel, f: (String, TargetFrameworkInformation)|
        match f.1.dependencies {
            Some(libs) => fold_steps(m, libs@, lib_stepper(pid, f.0@)),
            None => Some(m),
        }
}

/// The projects that a project references under one framework, each with a
/// relation to it.
pub open spec fn restore_stepper(pid: u32) -> spec_fn(GraphModel, (String, RestoreFramework)) -> Option<GraphModel> {
    |m: GraphModel, f: (String, RestoreFramework)| fold_steps(m, f.1.project_references@, ref_stepper(pid, f.0@))
}

/// How many packages a framework entry lists.
pub open spec fn libs_count() -> spec_fn((String, TargetFrameworkInformation)) -> nat {
    |f: (String, TargetFrameworkInformation)|
        match f.1.dependencies {
            Some(libs) => libs@.len(),
            None => 0,
        }
}

/// How many projects a restore framework references.
pub open spec fn refs_count() -> spec_fn((String, RestoreFramework)) -> nat {
    |f: (String, RestoreFramework)| f.1.project_references@.len()
}

/// The frameworks of a package specification, none when it lists none.
pub open spec fn spec_frameworks(ps: PackageSpec) -> Seq<(String, TargetFrameworkInformation)> {
    match ps.frameworks {
        Some(f) => f@,
        None => Seq::empty(),
    }
}

/// The restore frameworks of a package specification, none when it lists
/// none.
pub open spec fn restore_frameworks(ps: PackageSpec) -> Seq<(String, RestoreFramework)> {
    match ps.restore {
        Some(r) => match r.frameworks {
            Some(f) => f@,
            None => Seq::empty(),
        },
        None => Seq::empty(),
    }
}

/// How many dependencies a project entry names: itself, its packages and the
/// projects it references.
pub open spec fn project_entries() -> spec_fn((String, PackageSpec)) -> nat {
    |p: (String, PackageSpec)|
        1 + sum_of(spec_frameworks(p.1), libs_count()) + sum_of(restore_frameworks(p.1), refs_count())
}

/// A project entry: the project, then its packages under each of its
/// frameworks, then the projects it references under each restore framework.
pub open spec fn project_step(m: GraphModel, p: (String, PackageSpec)) -> Option<GraphModel> {
    match add_step(m, DependencyView { is_project: true, name: p.0@, version: opt_view(p.1.version) }) {
        Some((m1, pid)) => match fold_steps(m1, spec_frameworks(p.1), framework_stepper(pid)) {
            Some(m2) => fold_steps(m2, restore_frameworks(p.1), restore_stepper(pid)),
            None => None,
        },
        None => None,
    }
}

/// Each project entry in turn.
pub open spec fn project_stepper() -> spec_fn(GraphModel, (String, PackageSpec)) -> Option<GraphModel> {
    |m: GraphModel, p: (String, PackageSpec)| project_step(m, p)
}

/// The graph that a dgSpec describes: its projects in order, each as
/// `project_step` adds it; none when a step is refused.
pub open spec fn spec_graph(spec: DependencyGraphSpec) -> Option<GraphModel> {
    fold_steps(empty_model(), spec.projects@, project_stepper())
}

/// Adds the packages of a project under each of its frameworks.
fn add_framework_libs(
    graph: &mut DependencyGraph,
    project_id: DependencyId,
    frameworks: Vec<(String, TargetFrameworkInformation)>,
) -> (r: Result<(), DependencyGraphError>)
    requires
        old(graph).wf(),
        old(graph).nodes().contains_key(project_id.ix),
        old(graph).nodes().dom().len() + sum_of(frameworks@, libs_count()) < u32::MAX,
    ensures
        final(graph).wf(),
        old(graph).nodes().submap_of(final(graph).nodes()),
        final(graph).nodes().dom().len() <= old(graph).nodes().dom().len() + sum_of(frameworks@, libs_count()),
        match fold_steps(old(graph).model(), frameworks@, framework_stepper(project_id.ix)) {
            Some(m) => r is Ok && final(graph).model() == m,
            None => r is Err,
        },
{
    let ghost m0 = graph.model();
    let ghost n0 = graph.nodes().dom().len();
    let ghost xs = frameworks@;
    let ghost step = framework_stepper(project_id.ix);
    let ghost count = libs_count();
    proof {
        lemma_fold_steps_all(m0, xs, step);
        lemma_sum_of_prefix(xs, count, 0);
    }
    for f in it: frameworks.into_iter()
        invariant
            it.seq() == xs,
            m0 == old(graph).model(),
            n0 == old(graph).nodes().dom().len(),
            n0 + sum_of(xs, count) < u32::MAX,
            step == framework_stepper(project_id.ix),
            count == libs_count(),
            graph.wf(),
            m0.nodes.submap_of(graph.nodes()),
            graph.nodes().dom().len() <= n0 + sum_of(xs.take(it.index() as int), count),
            graph.nodes().contains_key(project_id.ix),
            fold_steps(m0, xs.take(it.index() as int), step) == Some(graph.model()),
    {
        let ghost i = it.index() as int;
        proof {
            lemma_fold_steps_next(m0, xs, step, i);
            lemma_sum_of_next(xs, count, i);
            lemma_sum_of_prefix(xs, count, i + 1);
        }
        let (framework, entry) = f;
        let framework = Framework::new(framework);
        match entry.dependencies {
            Some(libs) => {
                match add_libs(graph, project_id, framework, libs) {
                    Ok(()) => {},
                    Err(e) => {
                        proof {
                            lemma_fold_steps_refused(m0, xs, step, i + 1);
                        }
                        return Err(e);
                    },
                }
            },
            None => {},
        }
    }
    proof {
        assert(xs.take(xs.len() as int) =~= xs);
    }
    Ok(())
}

/// Adds the projects that a project references under each restore framework.
fn add_restore_refs(
    graph: &mut DependencyGraph,
    project_id: DependencyId,
    frameworks: Vec<(String, RestoreFramework)>,
) -> (r: Result<(), DependencyGraphError>)
    requires
        old(graph).wf(),
        old(graph).nodes().contains_key(project_id.ix),
        old(graph).nodes().dom().len() + sum_of(frameworks@, refs_count()) < u32::MAX,
    ensures
        final(graph).wf(),
        old(graph).nodes().submap_of(final(graph).nodes()),
        final(graph).nodes().dom().len() <= old(graph).nodes().dom().len() + sum_of(frameworks@, refs_count()),
        match fold_steps(old(graph).model(), frameworks@, restore_stepper(project_id.ix)) {
            Some(m) => r is Ok && final(graph).model() == m,
            None => r is Err,
        },
{
    let ghost m0 = graph.model();
    let ghost n0 = graph.nodes().dom().len();
    let ghost xs = frameworks@;
    let ghost step = restore_stepper(project_id.ix);
    let ghost count = refs_count();
    proof {
        lemma_fold_steps_all(m0, xs, step);
        lemma_sum_of_prefix(xs, count, 0);
    }
    for f in it: frameworks.into_iter()
        invariant
            it.seq() == xs,
            m0 == old(graph).model(),
            n0 == old(graph).nodes().dom().len(),
            n0 + sum_of(xs, count) < u32::MAX,
            step == restore_stepper(project_id.ix),
            count == refs_count(),
            graph.wf(),
            m0.nodes.submap_of(graph.nodes()),
            graph.nodes().dom().len() <= n0 + sum_of(xs.take(it.index() as int), count),
            graph.nodes().contains_key(project_id.ix),
            fold_steps(m0, xs.take(it.index() as int), step) == Some(graph.model()),
    {
        let ghost i = it.index() as int;
        proof {
            lemma_fold_steps_next(m0, xs, step, i);
            lemma_sum_of_next(xs, count, i);
            lemma_sum_of_prefix(xs, count, i + 1);
        }
        let (framework, entry) = f;
        let framework = Framework::new(framework);
        match add_projs(graph, project_id, framework, entry.project_references) {
            Ok(()) => {},
            Err(e) => {
                proof {
                    lemma_fold_steps_refused(m0, xs, step, i + 1);
                }
                return Err(e);
            },
        }
    }
    proof {
        assert(xs.take(xs.len() as int) =~= xs);
    }
    Ok(())
}

/// Adds a project entry: the project, its packages and the projects it
/// references.
fn add_project_entry(graph: &mut DependencyGraph, project: String, spec: PackageSpec) -> (r: Result<(), DependencyGraphError>)
    requires
        old(graph).wf(),
        old(graph).nodes().dom().len() + project_entries()((project, spec)) < u32::MAX,
    ensures
        final(graph).wf(),
        old(graph).nodes().submap_of(final(graph).nodes()),
        final(graph).nodes().dom().len() <= old(graph).nodes().dom().len() + project_entries()((project, spec)),
        match project_step(old(graph).model(), (project, spec)) {
            Some(m) => r is Ok && final(graph).model() == m,
            None => r is Err,
        },
{
    let ghost fws = spec_frameworks(spec);
    let ghost rfws = restore_frameworks(spec);
    let ghost m0 = graph.model();
    let project_id = match graph.add_project(project, spec.version) {
        Ok(id) => id,
        Err(e) => return Err(e),
    };
    let ghost m1 = graph.model();
    match spec.frameworks {
        Some(frameworks) => {
            match add_framework_libs(graph, project_id, frameworks) {
                Ok(()) => {},
                Err(e) => return Err(e),
            }
        },
        None => {
            proof {
                lemma_fold_steps_all(m1, fws, framework_stepper(project_id.ix));
                assert(fws =~= Seq::<(String, TargetFrameworkInformation)>::empty());
            }
        },
    }
    let ghost m2 = graph.model();
    proof {
        assert(m1.nodes.contains_key(project_id.ix));
        assert(graph.nodes().contains_key(project_id.ix));
    }
    let restore_fws = match spec.restore {
        Some(restore) => restore.frameworks,
        None => None,
    };
    match restore_fws {
        Some(frameworks) => {
            match add_restore_refs(graph, project_id, frameworks) {
                Ok(()) => {},
                Err(e) => return Err(e),
            }
        },
        None => {
            proof {
                lemma_fold_steps_all(m2, rfws, restore_stepper(project_id.ix));
                assert(rfws =~= Seq::<(String, RestoreFramework)>::empty());
            }
        },
    }
    Ok(())
}

/// Builds the dependency graph that a dgSpec describes: each project, the
/// packages it uses under each of its frameworks, and the projects it
/// references under each restore framework, with a relation to each.
///
/// Fails with the first dependency that cannot be added, because a
/// dependency of the other kind has its name, or relation that cannot be.
pub fn create_dependency_graph(spec: DependencyGraphSpec) -> (r: Result<DependencyGraph, DependencyGraphError>)
    requires
        sum_of(spec.projects@, project_entries()) < u32::MAX,
    ensures
        match spec_graph(spec) {
            Some(m) => r matches Ok(g) && g.wf() && g.model() == m,
            None => r is Err,
        },
{
    let mut graph = DependencyGraph::new();
    let ghost m0 = graph.model();
    let ghost xs = spec.projects@;
    let ghost step = project_stepper();
    let ghost count = project_entries();
    proof {
        assert(m0 == empty_model());
        lemma_fold_steps_all(m0, xs, step);
        lemma_sum_of_prefix(xs, count, 0);
    }
    for p in it: spec.projects.into_iter()
        invariant
            it.seq() == xs,
            m0 == empty_model(),
            sum_of(xs, count) < u32::MAX,
            step == project_stepper(),
            count == project_entries(),
            graph.wf(),
            graph.nodes().dom().len() <= sum_of(xs.take(it.index() as int), count),
            fold_steps(m0, xs.take(it.index() as int), step) == Some(graph.model()),
    {
        let ghost i = it.index() as int;
        proof {
            lemma_fold_steps_next(m0, xs, step, i);
            lemma_sum_of_next(xs, count, i);
            lemma_sum_of_prefix(xs, count, i + 1);
        }
        let (project, pspec) = p;
        match add_project_entry(&mut graph, project, pspec) {
            Ok(()) => {},
            Err(e) => {
                proof {
                    lemma_fold_steps_refused(m0, xs, step, i + 1);
                }
                return Err(e);
            },
        }
    }
    Ok(graph)
}

/// Each step of a package extends the graph.
proof fn lemma_lib_stepper_extends(pid: u32, framework: Seq<char>)
    ensures
        forall|a: GraphModel, x: (String, LibraryDependency)| #[trigger] lib_stepper(pid, framework)(a, x) is Some ==> extends(a, lib_stepper(pid, framework)(a, x).unwrap()),
{
    assert forall|a: GraphModel, x: (String, LibraryDependency)| #[trigger] lib_stepper(pid, framework)(a, x) is Some implies extends(a, lib_stepper(pid, framework)(a, x).unwrap()) by {
        let b = lib_stepper(pid, framework)(a, x).unwrap();
        if dense(a.nodes) {
            let v = DependencyView { is_project: false, name: x.0@, version: opt_view(x.1.version) };
            lemma_add_step_extends(a, v);
            let (a1, id) = add_step(a, v).unwrap();
            lemma_relate_step_extends(a1, pid, id, framework);
            lemma_extends_trans(a, a1, b);
        }
    }
}

/// Each step of a referenced project extends the graph.
proof fn lemma_ref_stepper_extends(pid: u32, framework: Seq<char>)
    ensures
        forall|a: GraphModel, x: (String, ProjectReference)| #[trigger] ref_stepper(pid, framework)(a, x) is Some ==> extends(a, ref_stepper(pid, framework)(a, x).unwrap()),
{
    assert forall|a: GraphModel, x: (String, ProjectReference)| #[trigger] ref_stepper(pid, framework)(a, x) is Some implies extends(a, ref_stepper(pid, framework)(a, x).unwrap()) by {
        let b = ref_stepper(pid, framework)(a, x).unwrap();
        if dense(a.nodes) {
            let v = DependencyView { is_project: true, name: x.0@, version: None };
            lemma_add_step_extends(a, v);
            let (a1, id) = add_step(a, v).unwrap();
            lemma_relate_step_extends(a1, pid, id, framework);
            lemma_extends_trans(a, a1, b);
        }
    }
}

/// Each framework of a project extends the graph.
proof fn lemma_framework_stepper_extends(pid: u32)
    ensures
        forall|a: GraphModel, f: (String, TargetFrameworkInformation)| #[trigger] framework_stepper(pid)(a, f) is Some ==> extends(a, framework_stepper(pid)(a, f).unwrap()),
{
    assert forall|a: GraphModel, f: (String, TargetFrameworkInformation)| #[trigger] framework_stepper(pid)(a, f) is Some implies extends(a, framework_stepper(pid)(a, f).unwrap()) by {
        let b = framework_stepper(pid)(a, f).unwrap();
        match f.1.dependencies {
            Some(libs) => {
                lemma_lib_stepper_extends(pid, f.0@);
                lemma_fold_steps_whole(a, libs@, lib_stepper(pid, f.0@));
            },
            None => lemma_extends_refl(a),
        }
    }
}

/// Each restore framework of a project extends the graph.
proof fn lemma_restore_stepper_extends(pid: u32)
    ensures
        forall|a: GraphModel, f: (String, RestoreFramework)| #[trigger] restore_stepper(pid)(a, f) is Some ==> extends(a, restore_stepper(pid)(a, f).unwrap()),
{
    assert forall|a: GraphModel, f: (String, RestoreFramework)| #[trigger] restore_stepper(pid)(a, f) is Some implies extends(a, restore_stepper(pid)(a, f).unwrap()) by {
        let b = restore_stepper(pid)(a, f).unwrap();
        lemma_ref_stepper_extends(pid, f.0@);
        lemma_fold_steps_whole(a, f.1.project_references@, ref_stepper(pid, f.0@));
    }
}

/// Each project entry extends the graph.
proof fn lemma_project_stepper_extends()
    ensures
        forall|a: GraphModel, p: (String, PackageSpec)| #[trigger] project_stepper()(a, p) is Some ==> extends(a, project_stepper()(a, p).unwrap()),
{
    assert forall|a: GraphModel, p: (String, PackageSpec)| #[trigger] project_stepper()(a, p) is Some implies extends(a, project_stepper()(a, p).unwrap()) by {
        let b = project_stepper()(a, p).unwrap();
        if dense(a.nodes) {
            let v = DependencyView { is_project: true, name: p.0@, version: opt_view(p.1.version) };
            lemma_add_step_extends(a, v);
            let (a1, pid) = add_step(a, v).unwrap();
            lemma_framework_stepper_extends(pid);
            lemma_fold_steps_whole(a1, spec_frameworks(p.1), framework_stepper(pid));
            let a2 = fold_steps(a1, spec_frameworks(p.1), framework_stepper(pid)).unwrap();
            lemma_restore_stepper_extends(pid);
            lemma_fold_steps_whole(a2, restore_frameworks(p.1), restore_stepper(pid));
            lemma_extends_trans(a, a1, a2);
            lemma_extends_trans(a, a2, b);
        }
    }
}

/// Every package that a project of a dgSpec lists under one of its target
/// frameworks is in the graph built from it, with a relation from the
/// project to it under that framework, and the framework is among those of
/// the graph: for every project, every framework and every package.
#[verifier::spinoff_prover]
#[verifier::rlimit(60)]
pub proof fn lemma_dgspec_relates_every_package(spec: DependencyGraphSpec, g: &DependencyGraph, p: int, j: int, k: int)
    requires
        g.wf(),
        spec_graph(spec) == Some(g.model()),
        0 <= p < spec.projects@.len(),
        spec.projects@[p].1.frameworks is Some,
        0 <= j < spec.projects@[p].1.frameworks.unwrap()@.len(),
        spec.projects@[p].1.frameworks.unwrap()@[j].1.dependencies is Some,
        0 <= k < spec.projects@[p].1.frameworks.unwrap()@[j].1.dependencies.unwrap()@.len(),
    ensures
        ({
            let proj = spec.projects@[p];
            let f = proj.1.frameworks.unwrap()@[j];
            let lib = f.1.dependencies.unwrap()@[k];
            exists|a: u32, b: u32, e: int|
                #![trigger g.edges()[e], g.nodes()[a], g.nodes()[b]]
                0 <= e < g.edges().len() && g.nodes().contains_key(a) && g.nodes().contains_key(b) && g.nodes()[a]
                    == (DependencyView { is_project: true, name: proj.0@, version: opt_view(proj.1.version) })
                    && g.nodes()[b] == (DependencyView {
                    is_project: false,
                    name: lib.0@,
                    version: opt_view(lib.1.version),
                }) && g.edges()[e] == (EdgeView { from: a, to: b, framework: f.0@ }) && g.frameworks().contains(
                    f.0@,
                )
        }),
{
    lemma_wf_model(g);
    let mf = g.model();
    let ps = spec.projects@;
    let proj = ps[p];
    let fs = proj.1.frameworks.unwrap()@;
    let f = fs[j];
    let fw = f.0@;
    let libs = f.1.dependencies.unwrap()@;
    let lib = libs[k];
    let pv = DependencyView { is_project: true, name: proj.0@, version: opt_view(proj.1.version) };
    let lv = DependencyView { is_project: false, name: lib.0@, version: opt_view(lib.1.version) };
    // the project entry
    let mp = fold_steps(empty_model(), ps.take(p), project_stepper()).unwrap();
    let mp1 = project_step(mp, proj).unwrap();
    assert(dense(mp.nodes) && project_step(mp, proj) is Some && extends(mp1, mf)) by {
        lemma_project_stepper_extends();
        assert(dense(empty_model().nodes)) by {
            assert(empty_model().nodes.dom() =~= Set::<u32>::empty());
        }
        lemma_fold_steps_extends(empty_model(), ps, project_stepper(), p);
        lemma_fold_steps_extends(empty_model(), ps, project_stepper(), p + 1);
    }
    let (m1, pid) = add_step(mp, pv).unwrap();
    let sfs = spec_frameworks(proj.1);
    let m2 = fold_steps(m1, sfs, framework_stepper(pid)).unwrap();
    assert(dense(m1.nodes) && m1.nodes.contains_key(pid) && m1.nodes[pid] == pv && fold_steps(
        m1,
        sfs,
        framework_stepper(pid),
    ) is Some && extends(m2, mp1)) by {
        lemma_add_step_extends(mp, pv);
        lemma_restore_stepper_extends(pid);
        lemma_fold_steps_whole(m2, restore_frameworks(proj.1), restore_stepper(pid));
    }
    // the framework
    assert(sfs == fs);
    let mj = fold_steps(m1, sfs.take(j), framework_stepper(pid)).unwrap();
    let mj1 = fold_steps(mj, libs, lib_stepper(pid, fw)).unwrap();
    assert(dense(mj.nodes) && extends(m1, mj) && fold_steps(mj, libs, lib_stepper(pid, fw)) is Some && extends(
        mj1,
        m2,
    )) by {
        lemma_framework_stepper_extends(pid);
        lemma_fold_steps_extends(m1, sfs, framework_stepper(pid), j);
        lemma_fold_steps_extends(m1, sfs, framework_stepper(pid), j + 1);
        assert(framework_stepper(pid)(mj, f) == fold_steps(mj, libs, lib_stepper(pid, fw)));
    }
    // the package under it
    let mk = fold_steps(mj, libs.take(k), lib_stepper(pid, fw)).unwrap();
    let mk1 = lib_stepper(pid, fw)(mk, lib).unwrap();
    assert(dense(mk.nodes) && extends(mj, mk) && lib_stepper(pid, fw)(mk, lib) is Some && extends(mk1, mj1)) by {
        lemma_lib_stepper_extends(pid, fw);
        lemma_fold_steps_extends(mj, libs, lib_stepper(pid, fw), k);
        lemma_fold_steps_extends(mj, libs, lib_stepper(pid, fw), k + 1);
    }
    assert(lib_stepper(pid, fw)(mk, lib) == add_related_step(mk, pid, lv, fw));
    let (mk2, b) = add_step(mk, lv).unwrap();
    assert(extends(mk, mk2) && mk2.nodes.contains_key(b) && mk2.nodes[b] == lv && extends(mk2, mk1)
        && mk1.edges == mk2.edges.push(EdgeView { from: pid, to: b, framework: fw }) && mk1.frameworks.contains(
        fw,
    )) by {
        lemma_add_step_extends(mk, lv);
        lemma_relate_step_extends(mk2, pid, b, fw);
    }
    // from the package step to the end
    assert(extends(mk1, mf)) by {
        lemma_extends_trans(mk1, mj1, m2);
        lemma_extends_trans(mk1, m2, mp1);
        lemma_extends_trans(mk1, mp1, mf);
    }
    assert(m1.nodes.submap_of(mf.nodes)) by {
        lemma_extends_trans(m1, mj, mk);
        lemma_extends_trans(m1, mk, mk2);
        lemma_extends_trans(mk2, mk1, mf);
        lemma_extends_keeps(m1, mk2, mf);
    }
    assert(mk2.nodes.submap_of(mf.nodes)) by {
        lemma_extends_trans(mk, mk2, mk1);
        lemma_extends_keeps(mk2, mk1, mf);
    }
    let e = mk2.edges.len() as int;
    assert(mk1.edges[e] == (EdgeView { from: pid, to: b, framework: fw }));
    assert(0 <= e < mf.edges.len() && mf.edges[e] == mk1.edges[e] && mf.frameworks.contains(fw));
    assert(g.edges()[e] == (EdgeView { from: pid, to: b, framework: fw }));
    assert(g.nodes().contains_key(pid) && g.nodes()[pid] == pv);
    assert(g.nodes().contains_key(b) && g.nodes()[b] == lv);
    assert(g.frameworks().contains(fw));
}

} // verus!
