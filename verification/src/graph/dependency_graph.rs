use std::collections::{HashMap, HashSet};
use vstd::prelude::*;

use super::stable::{
    graph_compact, graph_edges, graph_nodes, in_weights, node_entries_match, out_weights, stable_add_node,
    stable_incoming, stable_new, stable_node_entries, stable_node_weight, stable_outgoing,
    stable_into_parts, stable_try_add_edge, DepStableGraph,
};

verus! {

/// Identifier of a dependency inside one `DependencyGraph`.
#[derive(Debug, Clone, Copy, PartialEq, Eq, Hash, Structural)]
pub struct DependencyId {
    pub ix: u32,
}

impl DependencyId {
    /// The identifier of the node with index `ix`.
    pub fn new(ix: u32) -> (r: Self)
        ensures
            r.ix == ix,
    {
        Self { ix }
    }
}

/// The abstract value of an optional string.
pub open spec fn opt_view(o: Option<String>) -> Option<Seq<char>> {
    match o {
        Some(s) => Some(s@),
        None => None,
    }
}

/// The abstract value of an optional string slice.
pub open spec fn opt_str_view(o: Option<&str>) -> Option<Seq<char>> {
    match o {
        Some(s) => Some(s@),
        None => None,
    }
}

/// A project of the solution, found by its path.
#[derive(Debug, Clone)]
pub struct ProjectInfo {
    pub path: String,
    pub version: Option<String>,
}

impl ProjectInfo {
    pub(crate) fn new(path: String, version: Option<String>) -> (r: Self)
        ensures
            r.path@ == path@,
            opt_view(r.version) == opt_view(version),
    {
        Self { path, version }
    }
}

/// A NuGet package, found by its name.
#[derive(Debug, Clone)]
pub struct PackageInfo {
    pub name: String,
    pub version: Option<String>,
}

impl PackageInfo {
    pub(crate) fn new(name: String, version: Option<String>) -> (r: Self)
        ensures
            r.name@ == name@,
            opt_view(r.version) == opt_view(version),
    {
        Self { name, version }
    }
}

/// A node of the graph: a project or a package.
#[derive(Debug, Clone)]
pub enum DependencyInfo {
    Project(ProjectInfo),
    Package(PackageInfo),
}

/// What a dependency is: its kind, its name (the path of a project) and its
/// version.
pub struct DependencyView {
    pub is_project: bool,
    pub name: Seq<char>,
    pub version: Option<Seq<char>>,
}

impl View for DependencyInfo {
    type V = DependencyView;

    open spec fn view(&self) -> DependencyView {
        match self {
            DependencyInfo::Project(p) => DependencyView {
                is_project: true,
                name: p.path@,
                version: opt_view(p.version),
            },
            DependencyInfo::Package(p) => DependencyView {
                is_project: false,
                name: p.name@,
                version: opt_view(p.version),
            },
        }
    }
}

/// Copies an optional string.
pub(crate) fn clone_opt_string(o: &Option<String>) -> (r: Option<String>)
    ensures
        opt_view(r) == opt_view(*o),
{
    match o {
        Some(s) => Some(s.clone()),
        None => None,
    }
}

/// Compares two optional strings by their contents.
pub(crate) fn opt_string_eq(a: &Option<String>, b: &Option<String>) -> (r: bool)
    ensures
        r == (opt_view(*a) == opt_view(*b)),
{
    match (a, b) {
        (Some(x), Some(y)) => *x == *y,
        (None, None) => true,
        _ => false,
    }
}

impl DependencyInfo {
    /// Get name of the dependency.
    pub fn name(&self) -> (r: &str)
        ensures
            r@ == self@.name,
    {
        match self {
            DependencyInfo::Project(info) => info.path.as_str(),
            DependencyInfo::Package(info) => info.name.as_str(),
        }
    }

    /// Get version of the dependency.
    pub fn version(&self) -> (r: Option<&str>)
        ensures
            opt_str_view(r) == self@.version,
    {
        let v = match self {
            DependencyInfo::Project(info) => &info.version,
            DependencyInfo::Package(info) => &info.version,
        };
        match v {
            Some(s) => Some(s.as_str()),
            None => None,
        }
    }

    /// The name of the dependency (the path of a project).
    pub(crate) fn name_string(&self) -> (r: &String)
        ensures
            r@ == self@.name,
    {
        match self {
            DependencyInfo::Project(info) => &info.path,
            DependencyInfo::Package(info) => &info.name,
        }
    }

    /// Whether the dependency is a project.
    pub fn is_project(&self) -> (r: bool)
        ensures
            r == self@.is_project,
    {
        match self {
            DependencyInfo::Project(_) => true,
            DependencyInfo::Package(_) => false,
        }
    }

    /// A copy of the dependency.
    pub fn duplicate(&self) -> (r: Self)
        ensures
            r@ == self@,
    {
        match self {
            DependencyInfo::Project(p) => DependencyInfo::Project(
                ProjectInfo::new(p.path.clone(), clone_opt_string(&p.version)),
            ),
            DependencyInfo::Package(p) => DependencyInfo::Package(
                PackageInfo::new(p.name.clone(), clone_opt_string(&p.version)),
            ),
        }
    }

    /// Whether two dependencies are equal: same kind, name and version.
    pub fn same_as(&self, other: &Self) -> (r: bool)
        ensures
            r == (self@ == other@),
    {
        match (self, other) {
            (DependencyInfo::Project(a), DependencyInfo::Project(b)) => a.path == b.path
                && opt_string_eq(&a.version, &b.version),
            (DependencyInfo::Package(a), DependencyInfo::Package(b)) => a.name == b.name
                && opt_string_eq(&a.version, &b.version),
            _ => false,
        }
    }
}

/// A target framework such as `net8.0`.
#[derive(Debug, Clone)]
pub struct Framework {
    pub name: String,
}

impl View for Framework {
    type V = Seq<char>;

    open spec fn view(&self) -> Seq<char> {
        self.name@
    }
}

impl Framework {
    pub fn new(name: String) -> (r: Self)
        ensures
            r@ == name@,
    {
        Self { name }
    }

    pub fn name(&self) -> (r: &str)
        ensures
            r@ == self@,
    {
        self.name.as_str()
    }

    /// A copy of the framework.
    pub fn duplicate(&self) -> (r: Self)
        ensures
            r@ == self@,
    {
        Framework { name: self.name.clone() }
    }
}

impl PartialEq for Framework {
    fn eq(&self, other: &Self) -> (r: bool) {
        self.name == other.name
    }
}

impl vstd::std_specs::cmp::PartialEqSpecImpl for Framework {
    open spec fn obeys_eq_spec() -> bool {
        true
    }

    open spec fn eq_spec(&self, other: &Self) -> bool {
        self.name@ == other.name@
    }
}

impl Eq for Framework {

}

/// An edge of the graph: `from` depends on `to` under `target_framework`.
#[derive(Debug)]
pub struct DepEdge {
    pub from: DependencyId,
    pub to: DependencyId,
    pub target_framework: Framework,
}

/// What an edge is: its two ends and its framework.
pub struct EdgeView {
    pub from: u32,
    pub to: u32,
    pub framework: Seq<char>,
}

impl View for DepEdge {
    type V = EdgeView;

    open spec fn view(&self) -> EdgeView {
        EdgeView { from: self.from.ix, to: self.to.ix, framework: self.target_framework@ }
    }
}

impl DepEdge {
    pub(crate) fn new(from: DependencyId, to: DependencyId, target_framework: Framework) -> (r: Self)
        ensures
            r.from == from,
            r.to == to,
            r.target_framework@ == target_framework@,
    {
        Self { from, to, target_framework }
    }

    pub fn from(&self) -> (r: DependencyId)
        ensures
            r == self.from,
    {
        self.from
    }

    pub fn to(&self) -> (r: DependencyId)
        ensures
            r == self.to,
    {
        self.to
    }

    pub fn framework(&self) -> (r: &Framework)
        ensures
            r@ == self.target_framework@,
    {
        &self.target_framework
    }
}

/// Why an operation on a graph failed.
#[derive(Debug)]
pub enum DependencyGraphError {
    DependencyNotFound,
    DifferentDependencyType,
    GraphOperation { message: String },
    MergeFailed { name: String, reason: String },
}

/// Where a dependency stands among the nodes of a graph.
enum Lookup {
    /// A node of the other kind has its name.
    Conflict,
    /// The node with this index is the dependency.
    Found(u32),
    /// Neither.
    Absent,
}

/// The graph of projects and packages and of the dependencies between them,
/// each under a target framework.
pub struct DependencyGraph {
    graph: DepStableGraph,
    frameworks: Vec<Framework>,
}

impl Default for DependencyGraph {
    fn default() -> (g: Self)
        ensures
            g.wf(),
            g.nodes() == Map::<u32, DependencyView>::empty(),
            g.edges().len() == 0,
            g.frameworks().len() == 0,
    {
        Self::new()
    }
}

/// No two nodes are the same dependency, and dependencies that share a name
/// share their kind.
pub open spec fn nodes_consistent(nodes: Map<u32, DependencyView>) -> bool {
    &&& forall|i: u32, j: u32|
        #![trigger nodes[i], nodes[j]]
        nodes.contains_key(i) && nodes.contains_key(j) && i != j ==> nodes[i] != nodes[j]
    &&& forall|i: u32, j: u32|
        #![trigger nodes[i], nodes[j]]
        nodes.contains_key(i) && nodes.contains_key(j) && nodes[i].name == nodes[j].name
            ==> nodes[i].is_project == nodes[j].is_project
}

/// Whether a dependency with the name of `v` but of the other kind is among
/// `nodes`.
pub open spec fn kind_conflict(nodes: Map<u32, DependencyView>, v: DependencyView) -> bool {
    exists|i: u32| #[trigger]
        nodes.contains_key(i) && nodes[i].name == v.name && nodes[i].is_project != v.is_project
}

impl DependencyGraph {
    /// The dependencies of the graph, by the index of their identifier.
    pub closed spec fn nodes(&self) -> Map<u32, DependencyView> {
        graph_nodes(self.graph).map_values(|d: DependencyInfo| d@)
    }

    /// The edges of the graph in the order in which they were added.
    pub closed spec fn edges(&self) -> Seq<EdgeView> {
        graph_edges(self.graph).map_values(|e: (u32, u32, u32, DepEdge)| e.3@)
    }

    /// The frameworks that relations were added under, each once.
    pub closed spec fn frameworks(&self) -> Seq<Seq<char>> {
        self.frameworks@.map_values(|f: Framework| f@)
    }

    /// The abstract value of the graph.
    pub open spec fn model(&self) -> GraphModel {
        GraphModel { nodes: self.nodes(), edges: self.edges(), frameworks: self.frameworks() }
    }

    /// The invariant of the graph.
    pub closed spec fn wf(&self) -> bool {
        let gn = graph_nodes(self.graph);
        let ge = graph_edges(self.graph);
        &&& graph_compact(self.graph)
        &&& gn.dom().finite()
        &&& gn.dom().len() <= u32::MAX
        &&& forall|i: u32| #[trigger] gn.contains_key(i) <==> i < gn.dom().len()
        &&& nodes_consistent(self.nodes())
        &&& forall|k: int| #![trigger ge[k]] 0 <= k < ge.len() ==> ge[k].0 == k
        &&& forall|k: int|
            #![trigger ge[k]]
            0 <= k < ge.len() ==> {
                &&& gn.contains_key(ge[k].1)
                &&& gn.contains_key(ge[k].2)
                &&& ge[k].3.from.ix == ge[k].1
                &&& ge[k].3.to.ix == ge[k].2
                &&& self.frameworks().contains(ge[k].3.target_framework@)
            }
        &&& self.frameworks().no_duplicates()
    }

    pub fn new() -> (g: Self)
        ensures
            g.wf(),
            g.nodes() == Map::<u32, DependencyView>::empty(),
            g.edges().len() == 0,
            g.frameworks().len() == 0,
    {
        let g = DependencyGraph { graph: stable_new(), frameworks: Vec::new() };
        assert(g.nodes() =~= Map::<u32, DependencyView>::empty());
        g
    }

    pub fn get(&self, id: DependencyId) -> (r: Option<&DependencyInfo>)
        ensures
            match r {
                Some(d) => self.nodes().contains_key(id.ix) && d@ == self.nodes()[id.ix],
                None => !self.nodes().contains_key(id.ix),
            },
    {
        stable_node_weight(&self.graph, id.ix)
    }

    /// The dependencies of the graph with their identifiers, by increasing
    /// identifier.
    pub fn iter(&self) -> (r: Vec<(DependencyId, &DependencyInfo)>)
        requires
            self.wf(),
        ensures
            forall|i: int|
                #![trigger r@[i]]
                0 <= i < r@.len() ==> self.nodes().contains_key(r@[i].0.ix) && self.nodes()[r@[i].0.ix]
                    == r@[i].1@,
            forall|i: int, j: int|
                #![trigger r@[i], r@[j]]
                0 <= i < j < r@.len() ==> r@[i].0.ix < r@[j].0.ix,
            forall|k: u32|
                self.nodes().contains_key(k) ==> exists|i: int|
                    0 <= i < r@.len() && #[trigger] r@[i].0.ix == k,
    {
        let entries = stable_node_entries(&self.graph);
        let mut r: Vec<(DependencyId, &DependencyInfo)> = Vec::new();
        let ghost gn = graph_nodes(self.graph);
        let n = entries.len();
        for i in 0..n
            invariant
                n == entries@.len(),
                node_entries_match(gn, entries@),
                gn == graph_nodes(self.graph),
                r@.len() == i,
                forall|k: int|
                    #![trigger r@[k]]
                    0 <= k < i ==> r@[k].0.ix == entries@[k].0 && r@[k].1 == entries@[k].1,
        {
            r.push((DependencyId::new(entries[i].0), entries[i].1));
        }
        assert forall|k: u32| self.nodes().contains_key(k) implies exists|i: int|
            0 <= i < r@.len() && #[trigger] r@[i].0.ix == k by {
            let i = choose|i: int| 0 <= i < entries@.len() && #[trigger] entries@[i].0 == k;
            assert(r@[i].0.ix == k);
        }
        r
    }

    /// Looks for a dependency among the nodes: a node of the other kind with its
    /// name, the node that is this dependency, or neither.
    fn find_dependency(&self, dependency: &DependencyInfo) -> (r: Lookup)
        requires
            self.wf(),
        ensures
            match r {
                Lookup::Conflict => kind_conflict(self.nodes(), dependency@),
                Lookup::Found(ix) => !kind_conflict(self.nodes(), dependency@) && self.nodes().contains_key(ix)
                    && self.nodes()[ix] == dependency@,
                Lookup::Absent => !kind_conflict(self.nodes(), dependency@) && forall|k: u32|
                    self.nodes().contains_key(k) ==> self.nodes()[k] != dependency@,
            },
    {
        let ghost v = dependency@;
        let ghost nodes = self.nodes();
        let entries = stable_node_entries(&self.graph);
        let ghost gn = graph_nodes(self.graph);
        let n = entries.len();
        let mut i: usize = 0;
        let mut seen_name = false;
        while i < n
            invariant
                n == entries@.len(),
                0 <= i <= n,
                node_entries_match(gn, entries@),
                gn == graph_nodes(self.graph),
                nodes == self.nodes(),
                self.wf(),
                v == dependency@,
                seen_name ==> !kind_conflict(nodes, v),
                !seen_name ==> forall|k: int|
                    #![trigger entries@[k]]
                    0 <= k < i ==> (*entries@[k].1)@.name != v.name,
                forall|k: int|
                    #![trigger entries@[k]]
                    0 <= k < i ==> (*entries@[k].1)@ != v,
            decreases n - i,
        {
            let d = entries[i].1;
            proof {
                assert(nodes.contains_key(entries@[i as int].0));
                assert(nodes[entries@[i as int].0] == d@);
            }
            if !seen_name && *d.name_string() == *dependency.name_string() {
                if d.is_project() != dependency.is_project() {
                    return Lookup::Conflict;
                }
                proof {
                    assert forall|k: u32| #[trigger] nodes.contains_key(k) && nodes[k].name == v.name
                        implies nodes[k].is_project == v.is_project by {
                        assert(nodes[entries@[i as int].0].name == nodes[k].name);
                    }
                }
                seen_name = true;
            }
            if d.same_as(dependency) {
                return Lookup::Found(entries[i].0);
            }
            i = i + 1;
        }
        proof {
            assert forall|k: u32| nodes.contains_key(k) implies nodes[k] != v by {
                let j = choose|j: int| 0 <= j < entries@.len() && #[trigger] entries@[j].0 == k;
                assert((*entries@[j].1)@ != v);
            }
            if !seen_name {
                assert forall|k: u32| nodes.contains_key(k) implies nodes[k].name != v.name by {
                    let j = choose|j: int| 0 <= j < entries@.len() && #[trigger] entries@[j].0 == k;
                    assert((*entries@[j].1)@.name != v.name);
                }
            }
        }
        Lookup::Absent
    }

    /// Ensures a dependency is in the graph. Returns id to it.
    ///
    /// Returns **Error** if there is already a dependency with same name but different type.
    fn add_dependency(&mut self, dependency: DependencyInfo) -> (r: Result<DependencyId, DependencyGraphError>)
        requires
            old(self).wf(),
            old(self).nodes().dom().len() < u32::MAX,
        ensures
            final(self).wf(),
            final(self).edges() == old(self).edges(),
            final(self).frameworks() == old(self).frameworks(),
            added_as(old(self).nodes(), final(self).nodes(), dependency@, r),
            old(self).nodes().submap_of(final(self).nodes()),
            final(self).nodes().dom().len() <= old(self).nodes().dom().len() + 1,
            match add_step(old(self).model(), dependency@) {
                Some((m, id)) => r matches Ok(i) && i.ix == id && final(self).model() == m,
                None => r matches Err(DependencyGraphError::DifferentDependencyType) && final(self).model() == old(
                    self,
                ).model(),
            },
    {
        let ghost before = self.model();
        proof {
            lemma_ids_dense(self);
        }
        let r = self.add_dependency_found(dependency);
        proof {
            lemma_added_as_step(before, self.model(), dependency@, r);
            lemma_ids_dense(self);
            if r is Ok && !before.nodes.values().contains(dependency@) && !kind_conflict(before.nodes, dependency@) {
                assert(self.nodes().dom() =~= before.nodes.dom().insert(r->Ok_0.ix));
            }
        }
        r
    }

    /// Adds a dependency unless it is there already or a dependency of the
    /// other kind has its name.
    fn add_dependency_found(&mut self, dependency: DependencyInfo) -> (r: Result<DependencyId, DependencyGraphError>)
        requires
            old(self).wf(),
            old(self).nodes().dom().len() < u32::MAX,
        ensures
            final(self).wf(),
            final(self).edges() == old(self).edges(),
            final(self).frameworks() == old(self).frameworks(),
            added_as(old(self).nodes(), final(self).nodes(), dependency@, r),
    {
        match self.find_dependency(&dependency) {
            Lookup::Conflict => Err(DependencyGraphError::DifferentDependencyType),
            Lookup::Found(ix) => {
                assert(self.nodes().values().contains(dependency@));
                Ok(DependencyId::new(ix))
            },
            Lookup::Absent => self.insert_new_dependency(dependency),
        }
    }

    /// Adds a dependency that is not in the graph and whose name no dependency
    /// of the other kind has.
    fn insert_new_dependency(&mut self, dependency: DependencyInfo) -> (r: Result<DependencyId, DependencyGraphError>)
        requires
            old(self).wf(),
            old(self).nodes().dom().len() < u32::MAX,
            !kind_conflict(old(self).nodes(), dependency@),
            forall|k: u32| old(self).nodes().contains_key(k) ==> old(self).nodes()[k] != dependency@,
        ensures
            final(self).wf(),
            final(self).edges() == old(self).edges(),
            final(self).frameworks() == old(self).frameworks(),
            added_as(old(self).nodes(), final(self).nodes(), dependency@, r),
    {
        let ghost v = dependency@;
        let ghost old_nodes = self.nodes();
        proof {
            assert(graph_nodes(self.graph).dom() =~= old_nodes.dom());
        }
        let ix = stable_add_node(&mut self.graph, dependency);
        proof {
            assert(self.nodes() =~= old_nodes.insert(ix, v));
            assert(self.edges() =~= old(self).edges());
            let nn = self.nodes();
            assert forall|a: u32, b: u32|
                nn.contains_key(a) && nn.contains_key(b) && a != b implies #[trigger] nn[a] != #[trigger] nn[b] by {
                if a != ix && b != ix {
                    assert(old_nodes[a] != old_nodes[b]);
                }
            }
            assert forall|a: u32, b: u32|
                nn.contains_key(a) && nn.contains_key(b) && #[trigger] nn[a].name == #[trigger] nn[b].name
                implies nn[a].is_project == nn[b].is_project by {
                if a != ix && b != ix {
                    assert(old_nodes[a].name == old_nodes[b].name);
                } else if a == ix && b != ix {
                    assert(old_nodes.contains_key(b));
                } else if a != ix && b == ix {
                    assert(old_nodes.contains_key(a));
                }
            }
            assert(!old_nodes.values().contains(v)) by {
                if old_nodes.values().contains(v) {
                    let k = choose|k: u32| old_nodes.contains_key(k) && old_nodes[k] == v;
                }
            }
        }
        Ok(DependencyId::new(ix))
    }

    pub fn add_project(&mut self, path: String, version: Option<String>) -> (r: Result<DependencyId, DependencyGraphError>)
        requires
            old(self).wf(),
            old(self).nodes().dom().len() < u32::MAX,
        ensures
            final(self).wf(),
            final(self).edges() == old(self).edges(),
            final(self).frameworks() == old(self).frameworks(),
            added_as(
                old(self).nodes(),
                final(self).nodes(),
                DependencyView { is_project: true, name: path@, version: opt_view(version) },
                r,
            ),
            old(self).nodes().submap_of(final(self).nodes()),
            final(self).nodes().dom().len() <= old(self).nodes().dom().len() + 1,
            match add_step(
                old(self).model(),
                (DependencyView { is_project: true, name: path@, version: opt_view(version) }),
            ) {
                Some((m, id)) => r matches Ok(i) && i.ix == id && final(self).model() == m,
                None => r matches Err(DependencyGraphError::DifferentDependencyType) && final(self).model() == old(
                    self,
                ).model(),
            },
    {
        let project = DependencyInfo::Project(ProjectInfo::new(path, version));
        self.add_dependency(project)
    }

    pub fn add_package(&mut self, name: String, version: Option<String>) -> (r: Result<DependencyId, DependencyGraphError>)
        requires
            old(self).wf(),
            old(self).nodes().dom().len() < u32::MAX,
        ensures
            final(self).wf(),
            final(self).edges() == old(self).edges(),
            final(self).frameworks() == old(self).frameworks(),
            added_as(
                old(self).nodes(),
                final(self).nodes(),
                DependencyView { is_project: false, name: name@, version: opt_view(version) },
                r,
            ),
            old(self).nodes().submap_of(final(self).nodes()),
            final(self).nodes().dom().len() <= old(self).nodes().dom().len() + 1,
            match add_step(
                old(self).model(),
                (DependencyView { is_project: false, name: name@, version: opt_view(version) }),
            ) {
                Some((m, id)) => r matches Ok(i) && i.ix == id && final(self).model() == m,
                None => r matches Err(DependencyGraphError::DifferentDependencyType) && final(self).model() == old(
                    self,
                ).model(),
            },
    {
        let lib = DependencyInfo::Package(PackageInfo::new(name, version));
        self.add_dependency(lib)
    }

    /// Remembers a framework, unless it is remembered already.
    fn insert_framework(&mut self, framework: &Framework)
        requires
            old(self).wf(),
        ensures
            final(self).wf(),
            final(self).nodes() == old(self).nodes(),
            final(self).edges() == old(self).edges(),
            graph_nodes(final(self).graph) == graph_nodes(old(self).graph),
            graph_edges(final(self).graph) == graph_edges(old(self).graph),
            final(self).frameworks() == with_framework(old(self).frameworks(), framework@),
    {
        let ghost fws = self.frameworks();
        let n = self.frameworks.len();
        let mut i: usize = 0;
        while i < n
            invariant
                n == self.frameworks@.len(),
                0 <= i <= n,
                fws == self.frameworks(),
                self.wf(),
                forall|k: int| 0 <= k < i ==> #[trigger] fws[k] != framework@,
            decreases n - i,
        {
            if self.frameworks[i].name == framework.name {
                assert(fws[i as int] == framework@);
                return;
            }
            i = i + 1;
        }
        let ghost old_self = *self;
        self.frameworks.push(framework.duplicate());
        proof {
            assert(self.frameworks() =~= fws.push(framework@));
            assert(!fws.contains(framework@));
            let ge = graph_edges(self.graph);
            assert forall|k: int| #![trigger ge[k]] 0 <= k < ge.len()
                implies self.frameworks().contains(ge[k].3.target_framework@) by {
                let j = choose|j: int| 0 <= j < fws.len() && fws[j] == ge[k].3.target_framework@;
                assert(self.frameworks()[j] == fws[j]);
            }
        }
    }

    pub fn add_relation(&mut self, from: DependencyId, to: DependencyId, framework: Framework) -> (r: Result<(), DependencyGraphError>)
        requires
            old(self).wf(),
        ensures
            final(self).wf(),
            final(self).nodes() == old(self).nodes(),
            final(self).frameworks() == with_framework(old(self).frameworks(), framework@),
            !(old(self).nodes().contains_key(from.ix) && old(self).nodes().contains_key(to.ix)) ==> {
                &&& r matches Err(DependencyGraphError::DependencyNotFound)
                &&& final(self).edges() == old(self).edges()
            },
            old(self).nodes().contains_key(from.ix) && old(self).nodes().contains_key(to.ix) && old(self).edges().len()
                < u32::MAX ==> {
                &&& r is Ok
                &&& final(self).edges() == old(self).edges().push(
                    EdgeView { from: from.ix, to: to.ix, framework: framework@ },
                )
            },
            old(self).nodes().contains_key(from.ix) && old(self).nodes().contains_key(to.ix) && old(self).edges().len()
                >= u32::MAX ==> {
                &&& r matches Err(DependencyGraphError::GraphOperation { .. })
                &&& final(self).edges() == old(self).edges()
            },
            old(self).nodes().contains_key(from.ix) && old(self).nodes().contains_key(to.ix) ==> match relate_step(
                old(self).model(),
                from.ix,
                to.ix,
                framework@,
            ) {
                Some(m) => r is Ok && final(self).model() == m,
                None => r is Err,
            },
    {
        self.insert_framework(&framework);
        let ghost mid = *self;
        if stable_node_weight(&self.graph, from.ix).is_none() || stable_node_weight(&self.graph, to.ix).is_none() {
            return Err(DependencyGraphError::DependencyNotFound);
        }
        let ghost fw = framework@;
        let edge = DepEdge::new(from, to, framework);
        let ghost ev = edge;
        match stable_try_add_edge(&mut self.graph, from.ix, to.ix, edge) {
            Ok(_) => {
                proof {
                    assert(self.nodes() =~= mid.nodes());
                    assert(self.edges() =~= mid.edges().push(EdgeView { from: from.ix, to: to.ix, framework: fw }));
                    let ge = graph_edges(self.graph);
                    let oe = graph_edges(mid.graph);
                    assert forall|k: int| #![trigger ge[k]] 0 <= k < ge.len() implies {
                        &&& graph_nodes(self.graph).contains_key(ge[k].1)
                        &&& graph_nodes(self.graph).contains_key(ge[k].2)
                        &&& ge[k].3.from.ix == ge[k].1
                        &&& ge[k].3.to.ix == ge[k].2
                        &&& self.frameworks().contains(ge[k].3.target_framework@)
                    } by {
                        if k < oe.len() {
                            assert(ge[k] == oe[k]);
                        } else {
                            assert(self.frameworks()[self.frameworks().len() - 1] == fw
                                || self.frameworks().contains(fw));
                        }
                    }
                    assert forall|k: int, l: int| #![trigger ge[k], ge[l]]
                        0 <= k < ge.len() && 0 <= l < ge.len() && k != l implies ge[k].0 != ge[l].0 by {
                        if k < oe.len() && l < oe.len() {
                            assert(oe[k].0 != oe[l].0);
                        } else if k < oe.len() {
                            assert(ge[k] == oe[k]);
                        } else {
                            assert(ge[l] == oe[l]);
                        }
                    }
                }
                Ok(())
            },
            Err(message) => {
                proof {
                    assert(self.nodes() =~= mid.nodes());
                    assert(self.edges() =~= mid.edges());
                }
                Err(DependencyGraphError::GraphOperation { message })
            },
        }
    }

    /// Gets or creates a dependency (package or project) with the specified name and version.
    /// - If a dependency with this name and version already exists - return it.
    /// - If a dependency with this name exists (but different version) - create a new one with the same type and provided version and return it.
    /// - Otherwise - return None
    pub fn get_or_create_if_exists(&mut self, name: &str, version: Option<String>) -> (r: Option<DependencyId>)
        requires
            old(self).wf(),
            old(self).nodes().dom().len() < u32::MAX,
        ensures
            final(self).wf(),
            final(self).edges() == old(self).edges(),
            final(self).frameworks() == old(self).frameworks(),
            got_or_created(old(self).nodes(), final(self).nodes(), name@, opt_view(version), r),
            old(self).nodes().submap_of(final(self).nodes()),
            final(self).nodes().dom().len() <= old(self).nodes().dom().len() + 1,
            get_or_create_step(old(self).model(), name@, opt_view(version)) == (final(self).model(), opt_ix(r)),
    {
        let ghost before = self.model();
        let ghost ver = opt_view(version);
        proof {
            lemma_ids_dense(self);
        }
        let r = self.get_or_create_found(name, version);
        proof {
            lemma_got_or_created_step(before, self.model(), name@, ver, r);
            lemma_ids_dense(self);
            if r is Some && !before.nodes.contains_key(r->0.ix) {
                assert(self.nodes().dom() =~= before.nodes.dom().insert(r->0.ix));
            }
        }
        r
    }

    /// The dependency named `name` at `version`, added first when only other
    /// versions of it are in the graph.
    fn get_or_create_found(&mut self, name: &str, version: Option<String>) -> (r: Option<DependencyId>)
        requires
            old(self).wf(),
            old(self).nodes().dom().len() < u32::MAX,
        ensures
            final(self).wf(),
            final(self).edges() == old(self).edges(),
            final(self).frameworks() == old(self).frameworks(),
            got_or_created(old(self).nodes(), final(self).nodes(), name@, opt_view(version), r),
    {
        let ghost nodes = self.nodes();
        let ghost ver = opt_view(version);
        let name_s = name.to_owned();
        let mut kind: Option<bool> = None;
        {
            let entries = stable_node_entries(&self.graph);
            let ghost gn = graph_nodes(self.graph);
            let n = entries.len();
            let mut i: usize = 0;
            while i < n
                invariant
                    n == entries@.len(),
                    0 <= i <= n,
                    node_entries_match(gn, entries@),
                    gn == graph_nodes(self.graph),
                    nodes == self.nodes(),
                    self.wf(),
                    name_s@ == name@,
                    ver == opt_view(version),
                    match kind {
                        Some(k) => forall|j: u32| #[trigger] nodes.contains_key(j) && nodes[j].name == name@
                            ==> nodes[j].is_project == k,
                        None => forall|k: int| #![trigger entries@[k]] 0 <= k < i ==> (*entries@[k].1)@.name != name@,
                    },
                    kind is Some ==> exists|j: u32| #[trigger] nodes.contains_key(j) && nodes[j].name == name@,
                    forall|k: int|
                        #![trigger entries@[k]]
                        0 <= k < i ==> !((*entries@[k].1)@.name == name@ && (*entries@[k].1)@.version == ver),
                decreases n - i,
            {
                let d = entries[i].1;
                proof {
                    assert(nodes.contains_key(entries@[i as int].0));
                    assert(nodes[entries@[i as int].0] == d@);
                }
                if *d.name_string() == name_s {
                    if kind.is_none() {
                        proof {
                            assert forall|j: u32| #[trigger] nodes.contains_key(j) && nodes[j].name == name@
                                implies nodes[j].is_project == d@.is_project by {
                                assert(nodes[entries@[i as int].0].name == nodes[j].name);
                            }
                        }
                        kind = Some(d.is_project());
                    }
                    let same_version = match (d, &version) {
                        (DependencyInfo::Project(p), v) => opt_string_eq(&p.version, v),
                        (DependencyInfo::Package(p), v) => opt_string_eq(&p.version, v),
                    };
                    if same_version {
                        return Some(DependencyId::new(entries[i].0));
                    }
                }
                i = i + 1;
            }
            proof {
                assert forall|j: u32| nodes.contains_key(j) implies !(nodes[j].name == name@ && nodes[j].version == ver) by {
                    let k = choose|k: int| 0 <= k < entries@.len() && #[trigger] entries@[k].0 == j;
                    assert(!((*entries@[k].1)@.name == name@ && (*entries@[k].1)@.version == ver));
                }
                if kind is None {
                    assert forall|j: u32| nodes.contains_key(j) implies nodes[j].name != name@ by {
                        let k = choose|k: int| 0 <= k < entries@.len() && #[trigger] entries@[k].0 == j;
                        assert((*entries@[k].1)@.name != name@);
                    }
                }
            }
        }
        match kind {
            None => None,
            Some(is_project) => {
                let ghost nv = DependencyView { is_project: is_project, name: name@, version: ver };
                proof {
                    assert(!kind_conflict(nodes, nv));
                    assert(!nodes.values().contains(nv)) by {
                        if nodes.values().contains(nv) {
                            let j = choose|j: u32| nodes.contains_key(j) && nodes[j] == nv;
                            assert(nodes.contains_key(j) && nodes[j].name == name@);
                        }
                    }
                }
                let added = if is_project {
                    self.add_project(name_s, version)
                } else {
                    self.add_package(name_s, version)
                };
                match added {
                    Ok(id) => Some(id),
                    Err(_) => None,
                }
            },
        }
    }

    /// Get direct dependencies of the dependency.
    ///
    /// Returns **Error** if dependency with the provided id was not from this graph.
    fn get_direct_dependencies(&self, id: DependencyId) -> (r: Result<Vec<&DepEdge>, DependencyGraphError>)
        requires
            self.wf(),
        ensures
            match r {
                Ok(es) => self.nodes().contains_key(id.ix) && edge_views(es@) == edges_from(self.edges(), id.ix),
                Err(e) => !self.nodes().contains_key(id.ix) && e matches DependencyGraphError::DependencyNotFound,
            },
    {
        if stable_node_weight(&self.graph, id.ix).is_none() {
            return Err(DependencyGraphError::DependencyNotFound);
        }
        let out = stable_outgoing(&self.graph, id.ix);
        proof {
            lemma_out_weights_views(graph_edges(self.graph), id.ix);
            assert(edge_views(out@) =~= out_weights(graph_edges(self.graph), id.ix).map_values(|e: DepEdge| e@));
        }
        Ok(out)
    }

    pub fn get_direct_dependencies_in_framework(&self, id: DependencyId, framework: &Framework) -> (r: Result<Vec<&DepEdge>, DependencyGraphError>)
        requires
            self.wf(),
        ensures
            match r {
                Ok(es) => self.nodes().contains_key(id.ix) && edge_views(es@) == in_framework(
                    edges_from(self.edges(), id.ix),
                    framework@,
                ),
                Err(e) => !self.nodes().contains_key(id.ix) && e matches DependencyGraphError::DependencyNotFound,
            },
    {
        let out = self.get_direct_dependencies(id)?;
        let mut r: Vec<&DepEdge> = Vec::new();
        let n = out.len();
        for i in 0..n
            invariant
                n == out@.len(),
                edge_views(r@) == in_framework(edge_views(out@).take(i as int), framework@),
        {
            proof {
                assert(edge_views(out@).take(i + 1).drop_last() =~= edge_views(out@).take(i as int));
            }
            if out[i].target_framework.name == framework.name {
                r.push(out[i]);
                proof {
                    assert(edge_views(r@) =~= edge_views(r@).drop_last().push(r@.last()@));
                }
            }
        }
        proof {
            assert(edge_views(out@).take(n as int) =~= edge_views(out@));
        }
        Ok(r)
    }

    /// Get direct reverse dependencies of the dependency.
    ///
    /// Returns **Error** if dependency with the provided id was not from this graph.
    pub fn get_direct_reverse_dependencies(&self, id: DependencyId) -> (r: Result<Vec<&DepEdge>, DependencyGraphError>)
        requires
            self.wf(),
        ensures
            match r {
                Ok(es) => self.nodes().contains_key(id.ix) && edge_views(es@) == edges_to(self.edges(), id.ix),
                Err(e) => !self.nodes().contains_key(id.ix) && e matches DependencyGraphError::DependencyNotFound,
            },
    {
        if stable_node_weight(&self.graph, id.ix).is_none() {
            return Err(DependencyGraphError::DependencyNotFound);
        }
        let inc = stable_incoming(&self.graph, id.ix);
        proof {
            lemma_in_weights_views(graph_edges(self.graph), id.ix);
            assert(edge_views(inc@) =~= in_weights(graph_edges(self.graph), id.ix).map_values(|e: DepEdge| e@));
        }
        Ok(inc)
    }

    /// The kind of the dependencies named `name`, if any is.
    fn name_kind(&self, name: &String) -> (r: Option<bool>)
        requires
            self.wf(),
        ensures
            match r {
                Some(k) => (exists|i: u32| #[trigger] self.nodes().contains_key(i) && self.nodes()[i].name == name@)
                    && forall|i: u32| #[trigger] self.nodes().contains_key(i) && self.nodes()[i].name == name@
                    ==> self.nodes()[i].is_project == k,
                None => forall|i: u32| #[trigger] self.nodes().contains_key(i) ==> self.nodes()[i].name != name@,
            },
    {
        let ghost nodes = self.nodes();
        let entries = stable_node_entries(&self.graph);
        let ghost gn = graph_nodes(self.graph);
        let n = entries.len();
        for i in 0..n
            invariant
                n == entries@.len(),
                node_entries_match(gn, entries@),
                gn == graph_nodes(self.graph),
                nodes == self.nodes(),
                self.wf(),
                forall|k: int| #![trigger entries@[k]] 0 <= k < i ==> (*entries@[k].1)@.name != name@,
        {
            let d = entries[i].1;
            proof {
                assert(nodes.contains_key(entries@[i as int].0));
                assert(nodes[entries@[i as int].0] == d@);
            }
            if *d.name_string() == *name {
                proof {
                    assert forall|j: u32| #[trigger] nodes.contains_key(j) && nodes[j].name == name@
                        implies nodes[j].is_project == d@.is_project by {
                        assert(nodes[entries@[i as int].0].name == nodes[j].name);
                    }
                }
                return Some(d.is_project());
            }
        }
        proof {
            assert forall|j: u32| nodes.contains_key(j) implies nodes[j].name != name@ by {
                let k = choose|k: int| 0 <= k < entries@.len() && #[trigger] entries@[k].0 == j;
                assert((*entries@[k].1)@.name != name@);
            }
        }
        None
    }

    /// A name that is a project in one graph and a package in the other, if
    /// any is.
    fn find_merge_conflict(&self, other: &DependencyGraph) -> (r: Option<String>)
        requires
            self.wf(),
            other.wf(),
        ensures
            match r {
                Some(name) => merge_conflict(self.nodes(), other.nodes(), name@),
                None => !graphs_conflict(self.nodes(), other.nodes()),
            },
    {
        let ghost on = other.nodes();
        let entries = stable_node_entries(&other.graph);
        let ghost gn = graph_nodes(other.graph);
        let n = entries.len();
        for i in 0..n
            invariant
                n == entries@.len(),
                node_entries_match(gn, entries@),
                gn == graph_nodes(other.graph),
                on == other.nodes(),
                self.wf(),
                other.wf(),
                forall|k: int|
                    #![trigger entries@[k]]
                    0 <= k < i ==> !merge_conflict(self.nodes(), on, (*entries@[k].1)@.name),
        {
            let d = entries[i].1;
            proof {
                assert(on.contains_key(entries@[i as int].0));
                assert(on[entries@[i as int].0] == d@);
            }
            match self.name_kind(d.name_string()) {
                Some(k) => {
                    if k != d.is_project() {
                        let ghost ii = choose|ii: u32| #[trigger] self.nodes().contains_key(ii) && self.nodes()[ii].name == d@.name;
                        assert(self.nodes().contains_key(ii) && on.contains_key(entries@[i as int].0));
                        return Some(d.name_string().clone());
                    }
                    proof {
                        assert forall|a: u32, b: u32| #[trigger] self.nodes().contains_key(a) && #[trigger] on.contains_key(b)
                            && self.nodes()[a].name == d@.name && on[b].name == d@.name
                            implies self.nodes()[a].is_project == on[b].is_project by {
                            assert(on[entries@[i as int].0].name == on[b].name);
                        }
                    }
                },
                None => {},
            }
        }
        proof {
            assert forall|name: Seq<char>| !merge_conflict(self.nodes(), on, name) by {
                if merge_conflict(self.nodes(), on, name) {
                    let (a, b) = choose|a: u32, b: u32| #[trigger] self.nodes().contains_key(a) && #[trigger] on.contains_key(b)
                        && self.nodes()[a].name == name && on[b].name == name && self.nodes()[a].is_project != on[b].is_project;
                    let k = choose|k: int| 0 <= k < entries@.len() && #[trigger] entries@[k].0 == b;
                    assert(!merge_conflict(self.nodes(), on, (*entries@[k].1)@.name));
                }
            }
        }
        None
    }

    /// Merge another graph into this one atomically.
    ///
    /// Refused, with nothing changed, when a name is a project in one graph and
    /// a package in the other. Otherwise each dependency of `graph` is added in
    /// the order of its identifier, then each of its relations in the order of
    /// their addition, between the identifiers that their ends have here.
    pub fn merge(&mut self, graph: DependencyGraph) -> (r: Result<(), DependencyGraphError>)
        requires
            old(self).wf(),
            graph.wf(),
            old(self).nodes().dom().len() + graph.nodes().dom().len() < u32::MAX,
        ensures
            final(self).wf(),
            graphs_conflict(old(self).nodes(), graph.nodes()) ==> {
                &&& r matches Err(DependencyGraphError::MergeFailed { name, reason }) && merge_conflict(
                    old(self).nodes(),
                    graph.nodes(),
                    name@,
                ) && reason@ == "type conflict"@
                &&& final(self).nodes() == old(self).nodes()
                &&& final(self).edges() == old(self).edges()
                &&& final(self).frameworks() == old(self).frameworks()
            },
            !graphs_conflict(old(self).nodes(), graph.nodes()) ==> {
                &&& final(self).nodes() == absorb(old(self).nodes(), node_seq(graph.nodes()))
                &&& old(self).nodes().submap_of(final(self).nodes())
                &&& forall|k: u32| #[trigger]
                    graph.nodes().contains_key(k) ==> final(self).nodes().values().contains(graph.nodes()[k])
                &&& old(self).edges().len() + graph.edges().len() <= u32::MAX ==> r is Ok
                &&& r is Ok ==> final(self).edges() == old(self).edges() + graph.edges().map_values(
                    |e: EdgeView| relabel(e, graph.nodes(), final(self).nodes()),
                ) && final(self).frameworks() == add_frameworks(old(self).frameworks(), graph.edges())
                &&& r is Err ==> r matches Err(DependencyGraphError::GraphOperation { .. })
            },
    {
        match self.find_merge_conflict(&graph) {
            Some(name) => {
                return Err(DependencyGraphError::MergeFailed { name, reason: "type conflict".to_owned() });
            },
            None => {},
        }
        let ghost old_nodes = self.nodes();
        let ghost old_edges = self.edges();
        let ghost old_fws = self.frameworks();
        let ghost on = graph.nodes();
        let ghost vs = node_seq(on);
        let ghost n = on.dom().len();
        proof {
            lemma_ids_dense(&graph);
            lemma_ids_dense(self);
        }
        let mut id_map: Vec<DependencyId> = Vec::new();
        let mut i: u32 = 0;
        loop
            invariant
                self.wf(),
                graph.wf(),
                on == graph.nodes(),
                vs == node_seq(on),
                n == on.dom().len(),
                old_nodes.dom().len() + n < u32::MAX,
                old_nodes.dom().finite(),
                forall|k: u32| #[trigger] on.contains_key(k) <==> k < n,
                !graphs_conflict(old_nodes, on),
                i <= n,
                id_map@.len() == i,
                self.nodes() == absorb(old_nodes, vs.take(i as int)),
                self.nodes().dom().len() <= old_nodes.dom().len() + i,
                old_nodes.submap_of(self.nodes()),
                forall|j: u32|
                    #[trigger] self.nodes().contains_key(j) && !old_nodes.contains_key(j) ==> exists|k: int|
                        0 <= k < i && vs[k] == self.nodes()[j],
                forall|k: int|
                    #![trigger id_map@[k]]
                    0 <= k < i ==> self.nodes().contains_key(id_map@[k].ix) && self.nodes()[id_map@[k].ix] == vs[k],
                self.edges() == old_edges,
                self.frameworks() == old_fws,
            ensures
                i == n,
            decreases n - i,
        {
            let d = match graph.get(DependencyId::new(i)) {
                Some(d) => d,
                None => break,
            };
            let ghost before = self.nodes();
            let ghost v = d@;
            proof {
                lemma_ids_dense(self);
                assert(vs[i as int] == v);
                assert(vs.take(i + 1).drop_last() =~= vs.take(i as int));
                assert(vs.take(i + 1).last() == v);
                assert(!kind_conflict(before, v)) by {
                    if kind_conflict(before, v) {
                        let j = choose|j: u32| #[trigger]
                            before.contains_key(j) && before[j].name == v.name && before[j].is_project != v.is_project;
                        if old_nodes.contains_key(j) {
                            assert(old_nodes[j] == before[j]);
                            assert(merge_conflict(old_nodes, on, v.name));
                        } else {
                            let k = choose|k: int| 0 <= k < i && vs[k] == before[j];
                            assert(on.contains_key(k as u32));
                            assert(on[k as u32].name == on[i].name);
                        }
                    }
                }
            }
            let added = match d {
                DependencyInfo::Project(p) => self.add_project(p.path.clone(), clone_opt_string(&p.version)),
                DependencyInfo::Package(p) => self.add_package(p.name.clone(), clone_opt_string(&p.version)),
            };
            let id = match added {
                Ok(id) => id,
                Err(e) => return Err(e),
            };
            proof {
                let after = self.nodes();
                lemma_ids_dense(self);
                if !before.values().contains(v) {
                    assert(after.dom() =~= before.dom().insert(id.ix));
                    assert(after.dom().len() == before.dom().len() + 1);
                }
                assert(after.contains_key(id.ix) && after[id.ix] == v);
                assert(before.submap_of(after));
                assert forall|j: u32| #[trigger] after.contains_key(j) && !old_nodes.contains_key(j)
                    implies exists|k: int| 0 <= k < i + 1 && vs[k] == after[j] by {
                    if before.contains_key(j) {
                        let k = choose|k: int| 0 <= k < i && vs[k] == before[j];
                        assert(vs[k] == after[j]);
                    } else {
                        assert(j == id.ix);
                        assert(vs[i as int] == after[j]);
                    }
                }
            }
            id_map.push(id);
            i = i + 1;
        }
        proof {
            assert(vs.take(n as int) =~= vs);
        }
        let ghost mid_nodes = self.nodes();
        let ghost oe = graph.edges();
        let ghost ge = graph_edges(graph.graph);
        proof {
            assert forall|k: int| 0 <= k < n implies #[trigger] vs[k] == on[k as u32] by {}
            assert forall|k: u32| #[trigger] on.contains_key(k) implies mid_nodes.values().contains(on[k]) by {
                assert(mid_nodes.contains_key(id_map@[k as int].ix) && mid_nodes[id_map@[k as int].ix] == vs[k as int]);
            }
        }
        let DependencyGraph { graph: other_graph, frameworks: _ } = graph;
        let (_, edges) = stable_into_parts(other_graph);
        let m = edges.len();
        for j in 0..m
            invariant
                m == edges@.len(),
                on == graph.nodes(),
                oe == graph.edges(),
                old_nodes == old(self).nodes(),
                old_edges == old(self).edges(),
                old_fws == old(self).frameworks(),
                !graphs_conflict(old_nodes, on),
                mid_nodes == absorb(old_nodes, vs),
                old_nodes.submap_of(mid_nodes),
                forall|k: u32| #[trigger] on.contains_key(k) ==> mid_nodes.values().contains(on[k]),
                vs == node_seq(on),
                edges@ == ge,
                oe == ge.map_values(|e: (u32, u32, u32, DepEdge)| e.3@),
                forall|k: int|
                    #![trigger ge[k]]
                    0 <= k < ge.len() ==> {
                        &&& on.contains_key(ge[k].1)
                        &&& on.contains_key(ge[k].2)
                        &&& ge[k].3.from.ix == ge[k].1
                        &&& ge[k].3.to.ix == ge[k].2
                    },
                forall|k: u32| #[trigger] on.contains_key(k) <==> k < n,
                id_map@.len() == n,
                forall|k: int|
                    #![trigger id_map@[k]]
                    0 <= k < n ==> mid_nodes.contains_key(id_map@[k].ix) && mid_nodes[id_map@[k].ix] == on[k as u32],
                nodes_consistent(mid_nodes),
                self.wf(),
                self.nodes() == mid_nodes,
                self.edges() == old_edges + oe.take(j as int).map_values(
                    |e: EdgeView| relabel(e, on, mid_nodes),
                ),
                self.frameworks() == add_frameworks(old_fws, oe.take(j as int)),
        {
            let ghost e = oe[j as int];
            let from = id_map[edges[j].3.from.ix as usize];
            let to = id_map[edges[j].3.to.ix as usize];
            let fw = edges[j].3.target_framework.duplicate();
            proof {
                assert(e == ge[j as int].3@);
                let a = on[e.from];
                let b = on[e.to];
                assert(mid_nodes.contains_key(from.ix) && mid_nodes[from.ix] == a);
                assert(mid_nodes.contains_key(to.ix) && mid_nodes[to.ix] == b);
                let ca = index_of(mid_nodes, a);
                let cb = index_of(mid_nodes, b);
                if ca != from.ix {
                    assert(mid_nodes[ca] != mid_nodes[from.ix]);
                }
                if cb != to.ix {
                    assert(mid_nodes[cb] != mid_nodes[to.ix]);
                }
                assert(relabel(e, on, mid_nodes) == EdgeView { from: from.ix, to: to.ix, framework: fw@ });
                assert(oe.take(j + 1).drop_last() =~= oe.take(j as int));
                assert(oe.take(j + 1).last() == e);
                assert(oe.take(j + 1).map_values(|e: EdgeView| relabel(e, on, mid_nodes)) =~= oe.take(
                    j as int,
                ).map_values(|e: EdgeView| relabel(e, on, mid_nodes)).push(relabel(e, on, mid_nodes)));
            }
            match self.add_relation(from, to, fw) {
                Ok(()) => {},
                Err(err) => return Err(err),
            }
        }
        proof {
            assert(oe.take(m as int) =~= oe);
        }
        Ok(())
    }

    /// The graph in serializable form, with the metadata moved to the indices
    /// of the dependencies it is attached to.
    ///
    /// Refused, with the graph and the metadata handed back, when metadata is
    /// attached to identifiers that are not in the graph; the error lists
    /// them in the order of the metadata.
    pub fn try_into_serializable<T>(self, metadata: Option<Vec<(DependencyId, T)>>) -> (r: Result<
        SerializableGraph<T>,
        SerializableGraphError<T>,
    >)
        requires
            self.wf(),
            opt_meta_keys(metadata).no_duplicates(),
        ensures
            ({
                let missing = opt_ids_absent(self.nodes(), metadata);
                &&& missing.len() > 0 ==> (r matches Err(SerializableGraphError::DependencyNotFound(ids, g, meta))
                    && ids@ == missing && *g == self && meta == metadata)
                &&& missing.len() == 0 ==> (r matches Ok(s) && serialized_as(self, metadata, s))
            }),
    {
        let mut missing: Vec<DependencyId> = Vec::new();
        match &metadata {
            Some(m) => {
                let n = m.len();
                for i in 0..n
                    invariant
                        n == m@.len(),
                        missing@ == absent_ids(self.nodes(), meta_keys(m@).take(i as int)),
                {
                    proof {
                        assert(meta_keys(m@).take(i + 1).drop_last() =~= meta_keys(m@).take(i as int));
                    }
                    if self.get(m[i].0).is_none() {
                        missing.push(m[i].0);
                    }
                }
                proof {
                    assert(meta_keys(m@).take(n as int) =~= meta_keys(m@));
                }
            },
            None => {},
        }
        if missing.len() > 0 {
            return Err(SerializableGraphError::DependencyNotFound(missing, Box::new(self), metadata));
        }
        let ghost nodes = self.nodes();
        let ghost edges = self.edges();
        let ghost gn = graph_nodes(self.graph);
        let ghost ge = graph_edges(self.graph);
        proof {
            lemma_ids_dense(&self);
            assert(nodes.dom() =~= gn.dom());
        }
        let DependencyGraph { graph, frameworks: _ } = self;
        let (node_parts, edge_parts) = stable_into_parts(graph);
        proof {
            let s = node_parts@.map_values(|p: (u32, DependencyInfo)| p.0);
            assert forall|k: u32| k < gn.dom().len() implies #[trigger] s.contains(k) by {
                assert(gn.contains_key(k));
                let i = choose|i: int| 0 <= i < node_parts@.len() && #[trigger] node_parts@[i].0 == k;
                assert(s[i] == k);
            }
            assert forall|i: int| #![trigger s[i]] 0 <= i < s.len() implies s[i] < gn.dom().len() by {
                assert(node_parts@[i].0 == s[i]);
            }
            assert forall|i: int, j: int| #![trigger s[i], s[j]] 0 <= i < j < s.len() implies s[i] < s[j] by {
                assert(node_parts@[i].0 == s[i] && node_parts@[j].0 == s[j]);
            }
            lemma_sorted_cover(s, gn.dom().len());
            assert forall|i: int| 0 <= i < node_parts@.len() implies #[trigger] node_parts@[i].0 == i by {
                assert(s[i] == node_parts@[i].0);
            }
        }
        let mut out_nodes: Vec<(usize, DependencyInfo)> = Vec::new();
        for p in it: node_parts.into_iter()
            invariant
                out_nodes@.len() == it.index(),
                it.seq() == node_parts@,
                forall|k: int|
                    #![trigger out_nodes@[k]]
                    0 <= k < it.index() ==> out_nodes@[k].0 == it.seq()[k].0 && out_nodes@[k].1 == it.seq()[k].1,
        {
            let (ix, w) = p;
            out_nodes.push((ix as usize, w));
        }
        let mut out_edges: Vec<(usize, usize, Framework)> = Vec::new();
        for e in it: edge_parts.into_iter()
            invariant
                out_edges@.len() == it.index(),
                it.seq() == edge_parts@,
                forall|k: int|
                    #![trigger out_edges@[k]]
                    0 <= k < it.index() ==> out_edges@[k].0 == it.seq()[k].1 && out_edges@[k].1 == it.seq()[k].2
                        && out_edges@[k].2 == it.seq()[k].3.target_framework,
        {
            let (_, a, b, w) = e;
            out_edges.push((a as usize, b as usize, w.target_framework));
        }
        let node_metadata = match metadata {
            Some(m) => {
                let mut v: Vec<(usize, T)> = Vec::new();
                for q in it: m.into_iter()
                    invariant
                        v@.len() == it.index(),
                        forall|k: int|
                            #![trigger v@[k]]
                            0 <= k < it.index() ==> v@[k].0 == it.seq()[k].0.ix && v@[k].1 == it.seq()[k].1,
                {
                    let (id, value) = q;
                    v.push((id.ix as usize, value));
                }
                Some(v)
            },
            None => None,
        };
        let s = SerializableGraph { nodes: out_nodes, edges: out_edges, node_metadata };
        proof {
            assert(serial_edges(s.edges@) =~= edges.map_values(|e: EdgeView| serial_edge(e)));
            assert(s.nodes@.len() == nodes.dom().len());
            assert forall|i: int| #![trigger s.nodes@[i]] 0 <= i < s.nodes@.len() implies s.nodes@[i].0 == i
                && s.nodes@[i].1@ == nodes[i as u32] by {
                assert(node_parts@[i].0 == i);
                assert(gn.contains_key(node_parts@[i].0));
            }
        }
        Ok(s)
    }

    pub fn iter_frameworks(&self) -> (r: &Vec<Framework>)
        ensures
            r@.map_values(|f: Framework| f@) == self.frameworks(),
    {
        &self.frameworks
    }
}

/// A graph in a form that can be written out: its dependencies with their
/// indices, its relations as (source index, target index, framework), and
/// optional values attached to dependencies by index.
pub struct SerializableGraph<T> {
    pub nodes: Vec<(usize, DependencyInfo)>,
    pub edges: Vec<(usize, usize, Framework)>,
    pub node_metadata: Option<Vec<(usize, T)>>,
}

/// Why a graph could not be turned into, or rebuilt from, its serializable
/// form. Each variant hands back what it was given where that is still whole.
pub enum SerializableGraphError<T> {
    /// Metadata was attached to identifiers that are not in the graph.
    DependencyNotFound(Vec<DependencyId>, Box<DependencyGraph>, Option<Vec<(DependencyId, T)>>),
    /// Metadata or relations refer to indices that no dependency has.
    InvalidIds(Vec<usize>, SerializableGraph<T>),
    /// Some dependencies could not be added, one error for each.
    CouldntAddDeps(Vec<DependencyGraphError>),
}

/// The identifiers among `ids` that `nodes` does not hold, in their order.
pub open spec fn absent_ids(nodes: Map<u32, DependencyView>, ids: Seq<DependencyId>) -> Seq<DependencyId>
    decreases ids.len(),
{
    if ids.len() == 0 {
        Seq::empty()
    } else {
        let rest = absent_ids(nodes, ids.drop_last());
        if nodes.contains_key(ids.last().ix) {
            rest
        } else {
            rest.push(ids.last())
        }
    }
}

/// The identifiers of optional metadata that `nodes` does not hold.
pub open spec fn opt_ids_absent<T>(nodes: Map<u32, DependencyView>, m: Option<Vec<(DependencyId, T)>>) -> Seq<DependencyId> {
    absent_ids(nodes, opt_meta_keys(m))
}

/// The keys of attached values.
pub open spec fn meta_keys<K, T>(m: Seq<(K, T)>) -> Seq<K> {
    m.map_values(|p: (K, T)| p.0)
}

/// The keys of optional attached values, none when there are none.
pub open spec fn opt_meta_keys<K, T>(m: Option<Vec<(K, T)>>) -> Seq<K> {
    match m {
        Some(v) => meta_keys(v@),
        None => Seq::empty(),
    }
}

/// The abstract value of the relations of a serializable graph.
pub open spec fn serial_edges(es: Seq<(usize, usize, Framework)>) -> Seq<(usize, usize, Seq<char>)> {
    es.map_values(|e: (usize, usize, Framework)| (e.0, e.1, e.2@))
}

/// The relation of a graph in serializable form.
pub open spec fn serial_edge(e: EdgeView) -> (usize, usize, Seq<char>) {
    (e.from as usize, e.to as usize, e.framework)
}

/// The indices of the dependencies of a serializable graph.
pub open spec fn serial_indices(ns: Seq<(usize, DependencyInfo)>) -> Seq<usize> {
    ns.map_values(|p: (usize, DependencyInfo)| p.0)
}

/// The dependencies of a serializable graph.
pub open spec fn serial_infos(ns: Seq<(usize, DependencyInfo)>) -> Seq<DependencyView> {
    ns.map_values(|p: (usize, DependencyInfo)| p.1@)
}

/// The position of the last entry of `idx` that is `k`, or -1 when none is.
pub open spec fn last_pos(idx: Seq<usize>, k: usize) -> int
    decreases idx.len(),
{
    if idx.len() == 0 {
        -1
    } else if idx.last() == k {
        idx.len() - 1
    } else {
        last_pos(idx.drop_last(), k)
    }
}

/// The entries of `ks` that are not among `idx`, in their order.
pub open spec fn not_among(ks: Seq<usize>, idx: Seq<usize>) -> Seq<usize>
    decreases ks.len(),
{
    if ks.len() == 0 {
        Seq::empty()
    } else {
        let rest = not_among(ks.drop_last(), idx);
        if idx.contains(ks.last()) {
            rest
        } else {
            rest.push(ks.last())
        }
    }
}

/// The indices that the metadata and then the sources and then the targets of
/// the relations of a serializable graph refer to.
pub open spec fn referenced_ids<T>(meta: Option<Vec<(usize, T)>>, es: Seq<(usize, usize, Seq<char>)>) -> Seq<usize> {
    opt_meta_keys(meta) + es.map_values(|e: (usize, usize, Seq<char>)| e.0) + es.map_values(
        |e: (usize, usize, Seq<char>)| e.1,
    )
}

/// How many of the dependencies `infos`, added one after the other to an
/// empty graph, are refused because a dependency of the other kind has
/// their name.
pub open spec fn conflict_count(infos: Seq<DependencyView>) -> nat
    decreases infos.len(),
{
    if infos.len() == 0 {
        0
    } else {
        conflict_count(infos.drop_last()) + if kind_conflict(
            absorb(Map::empty(), infos.drop_last()),
            infos.last(),
        ) {
            1nat
        } else {
            0nat
        }
    }
}

/// The identifier that the dependency listed under index `k` has in the
/// rebuilt graph whose dependencies are `nodes`.
pub open spec fn restored_id(idx: Seq<usize>, infos: Seq<DependencyView>, nodes: Map<u32, DependencyView>, k: usize) -> u32 {
    index_of(nodes, infos[last_pos(idx, k)])
}

/// A relation of a serializable graph, between the identifiers that its ends
/// have in the rebuilt graph.
pub open spec fn restored_edge(
    e: (usize, usize, Seq<char>),
    idx: Seq<usize>,
    infos: Seq<DependencyView>,
    nodes: Map<u32, DependencyView>,
) -> EdgeView {
    EdgeView { from: restored_id(idx, infos, nodes, e.0), to: restored_id(idx, infos, nodes, e.1), framework: e.2 }
}

/// `s` is `g` in serializable form with the metadata `metadata`: the
/// dependencies listed by their identifiers, in increasing order, the
/// relations in the order of their addition, and each attached value under
/// the index of its identifier.
pub open spec fn serialized_as<T>(g: DependencyGraph, metadata: Option<Vec<(DependencyId, T)>>, s: SerializableGraph<T>) -> bool {
    &&& s.nodes@.len() == g.nodes().dom().len()
    &&& forall|i: int|
        #![trigger s.nodes@[i]]
        0 <= i < s.nodes@.len() ==> s.nodes@[i].0 == i && s.nodes@[i].1@ == g.nodes()[i as u32]
    &&& serial_edges(s.edges@) == g.edges().map_values(|e: EdgeView| serial_edge(e))
    &&& match (metadata, s.node_metadata) {
        (None, None) => true,
        (Some(m), Some(v)) => v@.len() == m@.len() && forall|i: int|
            #![trigger v@[i]]
            0 <= i < v@.len() ==> v@[i].0 == m@[i].0.ix && v@[i].1 == m@[i].1,
        _ => false,
    }
}

impl<T> SerializableGraph<T> {
    /// The indices that the metadata and then the sources and then the
    /// targets of the relations refer to and that no dependency carries.
    fn invalid_references(&self) -> (invalid: Vec<usize>)
        ensures
            invalid@ == not_among(referenced_ids(self.node_metadata, serial_edges(self.edges@)), serial_indices(self.nodes@)),
    {
        let ghost idx = serial_indices(self.nodes@);
        let ghost infos = serial_infos(self.nodes@);
        let ghost es = serial_edges(self.edges@);
        let ghost from_meta = opt_meta_keys(self.node_metadata);
        let ghost froms = es.map_values(|e: (usize, usize, Seq<char>)| e.0);
        let ghost tos = es.map_values(|e: (usize, usize, Seq<char>)| e.1);
        let ghost refs_spec = referenced_ids(self.node_metadata, es);
        // The indices that the dependencies carry.
        let mut ids: HashSet<usize> = HashSet::new();
        let nn = self.nodes.len();
        for i in 0..nn
            invariant
                nn == self.nodes@.len(),
                idx == serial_indices(self.nodes@),
                forall|k: usize| #[trigger] ids@.contains(k) <==> idx.take(i as int).contains(k),
        {
            proof {
                let t1 = idx.take(i + 1);
                let t0 = idx.take(i as int);
                assert forall|k: usize| #[trigger] t1.contains(k) <==> (t0.contains(k) || k == idx[i as int]) by {
                    if t1.contains(k) {
                        let j = choose|j: int| 0 <= j < t1.len() && t1[j] == k;
                        if j < i {
                            assert(t0[j] == k);
                        }
                    }
                    if t0.contains(k) {
                        let j = choose|j: int| 0 <= j < t0.len() && t0[j] == k;
                        assert(t1[j] == k);
                    }
                    if k == idx[i as int] {
                        assert(t1[i as int] == k);
                    }
                }
            }
            ids.insert(self.nodes[i].0);
        }
        proof {
            assert(idx.take(nn as int) =~= idx);
        }
        // The indices that the metadata and the relations refer to.
        let mut refs: Vec<usize> = Vec::new();
        match &self.node_metadata {
            Some(m) => {
                let nm = m.len();
                for i in 0..nm
                    invariant
                        nm == m@.len(),
                        refs@ == meta_keys(m@).take(i as int),
                {
                    refs.push(m[i].0);
                    proof {
                        assert(meta_keys(m@).take(i + 1) =~= meta_keys(m@).take(i as int).push(m@[i as int].0));
                    }
                }
                proof {
                    assert(meta_keys(m@).take(nm as int) =~= meta_keys(m@));
                }
            },
            None => {},
        }
        let ne = self.edges.len();
        for i in 0..ne
            invariant
                ne == self.edges@.len(),
                es == serial_edges(self.edges@),
                froms == es.map_values(|e: (usize, usize, Seq<char>)| e.0),
                refs@ == from_meta + froms.take(i as int),
        {
            refs.push(self.edges[i].0);
            proof {
                assert(from_meta + froms.take(i + 1) =~= (from_meta + froms.take(i as int)).push(froms[i as int]));
            }
        }
        for i in 0..ne
            invariant
                ne == self.edges@.len(),
                es == serial_edges(self.edges@),
                froms.len() == ne,
                tos == es.map_values(|e: (usize, usize, Seq<char>)| e.1),
                refs@ == from_meta + froms + tos.take(i as int),
        {
            refs.push(self.edges[i].1);
            proof {
                assert(from_meta + froms + tos.take(i + 1) =~= (from_meta + froms + tos.take(i as int)).push(
                    tos[i as int],
                ));
            }
        }
        proof {
            assert(froms.take(ne as int) =~= froms);
            assert(tos.take(ne as int) =~= tos);
            assert(refs@ =~= refs_spec);
        }
        // Those that no dependency carries.
        let mut invalid: Vec<usize> = Vec::new();
        let nr = refs.len();
        for i in 0..nr
            invariant
                nr == refs@.len(),
                forall|k: usize| #[trigger] ids@.contains(k) <==> idx.contains(k),
                invalid@ == not_among(refs@.take(i as int), idx),
        {
            proof {
                assert(refs@.take(i + 1).drop_last() =~= refs@.take(i as int));
            }
            if !ids.contains(&refs[i]) {
                invalid.push(refs[i]);
            }
        }
        proof {
            assert(refs@.take(nr as int) =~= refs@);
        }
        invalid
    }

    /// The dependencies added one after the other to an empty graph, the
    /// identifier that each index stands for, and the errors of those that
    /// could not be added.
    fn add_serial_nodes(&self) -> (r: (DependencyGraph, HashMap<usize, DependencyId>, Vec<DependencyGraphError>))
        requires
            self.nodes@.len() < u32::MAX,
        ensures
            r.0.wf(),
            r.0.edges().len() == 0,
            r.0.frameworks().len() == 0,
            r.0.nodes() == absorb(Map::empty(), serial_infos(self.nodes@)),
            r.2@.len() == conflict_count(serial_infos(self.nodes@)),
            forall|k: int| 0 <= k < r.2@.len() ==> #[trigger] r.2@[k] is DifferentDependencyType,
            r.2@.len() == 0 ==> forall|k: usize|
                #[trigger] r.1@.contains_key(k) <==> last_pos(serial_indices(self.nodes@), k) >= 0,
            r.2@.len() == 0 ==> forall|k: usize|
                #[trigger] r.1@.contains_key(k) ==> r.0.nodes().contains_key(r.1@[k].ix) && r.0.nodes()[r.1@[k].ix]
                    == serial_infos(self.nodes@)[last_pos(serial_indices(self.nodes@), k)],
    {
        let ghost idx = serial_indices(self.nodes@);
        let ghost infos = serial_infos(self.nodes@);
        let nn = self.nodes.len();
        // The dependencies, and for each index the identifier it stands for.
        let mut graph = DependencyGraph::new();
        let mut mapping: HashMap<usize, DependencyId> = HashMap::new();
        let mut errors: Vec<DependencyGraphError> = Vec::new();
        for i in 0..nn
            invariant
                nn == self.nodes@.len(),
                nn < u32::MAX,
                idx == serial_indices(self.nodes@),
                infos == serial_infos(self.nodes@),
                graph.wf(),
                graph.edges().len() == 0,
                graph.frameworks().len() == 0,
                graph.nodes() == absorb(Map::empty(), infos.take(i as int)),
                graph.nodes().dom().len() <= i,
                errors@.len() == conflict_count(infos.take(i as int)),
                forall|k: int| 0 <= k < errors@.len() ==> #[trigger] errors@[k] is DifferentDependencyType,
                errors@.len() == 0 ==> forall|k: usize|
                    #[trigger] mapping@.contains_key(k) <==> last_pos(idx.take(i as int), k) >= 0,
                errors@.len() == 0 ==> forall|k: usize|
                    #[trigger] mapping@.contains_key(k) ==> graph.nodes().contains_key(mapping@[k].ix)
                        && graph.nodes()[mapping@[k].ix] == infos[last_pos(idx.take(i as int), k)],
        {
            let index = self.nodes[i].0;
            let info = self.nodes[i].1.duplicate();
            let ghost before = graph.nodes();
            proof {
                assert(infos.take(i + 1).drop_last() =~= infos.take(i as int));
                assert(infos.take(i + 1).last() == infos[i as int]);
                assert(idx.take(i + 1).drop_last() =~= idx.take(i as int));
                assert(idx.take(i + 1).last() == idx[i as int]);
                lemma_ids_dense(&graph);
            }
            match graph.add_dependency(info) {
                Ok(id) => {
                    proof {
                        let after = graph.nodes();
                        assert(before.submap_of(after));
                        lemma_ids_dense(&graph);
                        if !before.values().contains(infos[i as int]) {
                            assert(after.dom() =~= before.dom().insert(id.ix));
                        }
                        assert forall|k: usize| #[trigger] mapping@.insert(index, id).contains_key(k) && k != index
                            implies last_pos(idx.take(i + 1), k) == last_pos(idx.take(i as int), k) by {}
                    }
                    mapping.insert(index, id);
                },
                Err(e) => {
                    errors.push(e);
                },
            }
        }
        proof {
            assert(infos.take(nn as int) =~= infos);
            assert(idx.take(nn as int) =~= idx);
        }
        (graph, mapping, errors)
    }

    /// Recreate a `DependencyGraph` from a `SerializableGraph`.
    ///
    /// Refused, with the serializable graph handed back, when the metadata or
    /// a relation refers to an index that no dependency carries; the error
    /// lists those references, those of the metadata first, then the sources
    /// and then the targets of the relations. Refused too when dependencies
    /// cannot be added because a dependency of the other kind has their name,
    /// with one error for each. Otherwise the dependencies are added in their
    /// order, then the relations; an index that several entries carry stands
    /// for the last of them.
    pub fn from_serializable(self) -> (r: Result<
        (DependencyGraph, Option<Vec<(DependencyId, T)>>),
        SerializableGraphError<T>,
    >)
        requires
            self.nodes@.len() < u32::MAX,
            self.edges@.len() <= u32::MAX,
            opt_meta_keys(self.node_metadata).no_duplicates(),
        ensures
            ({
                let idx = serial_indices(self.nodes@);
                let infos = serial_infos(self.nodes@);
                let es = serial_edges(self.edges@);
                let bad = not_among(referenced_ids(self.node_metadata, es), idx);
                &&& bad.len() > 0 ==> (r matches Err(SerializableGraphError::InvalidIds(ids, s)) && ids@ == bad
                    && s == self)
                &&& bad.len() == 0 && conflict_count(infos) > 0 ==> (r matches Err(
                    SerializableGraphError::CouldntAddDeps(errs),
                ) && errs@.len() == conflict_count(infos) && forall|i: int|
                    0 <= i < errs@.len() ==> #[trigger] errs@[i] is DifferentDependencyType)
                &&& bad.len() == 0 && conflict_count(infos) == 0 ==> (r matches Ok((g, meta)) && rebuilt_as(
                    g,
                    meta,
                    idx,
                    infos,
                    es,
                    self.node_metadata,
                ))
            }),
    {
        let ghost idx = serial_indices(self.nodes@);
        let ghost infos = serial_infos(self.nodes@);
        let ghost es = serial_edges(self.edges@);
        let ghost from_meta = opt_meta_keys(self.node_metadata);
        let ghost froms = es.map_values(|e: (usize, usize, Seq<char>)| e.0);
        let ghost tos = es.map_values(|e: (usize, usize, Seq<char>)| e.1);
        let ghost refs_spec = referenced_ids(self.node_metadata, es);
        let invalid = self.invalid_references();
        if invalid.len() > 0 {
            return Err(SerializableGraphError::InvalidIds(invalid, self));
        }
        proof {
            lemma_not_among_empty(refs_spec, idx);
            assert forall|k: int| 0 <= k < es.len() implies idx.contains(#[trigger] es[k].0) && idx.contains(es[k].1) by {
                assert(refs_spec[from_meta.len() + k] == es[k].0);
                assert(refs_spec[from_meta.len() + es.len() + k] == es[k].1);
            }
            assert forall|k: int| 0 <= k < from_meta.len() implies idx.contains(#[trigger] from_meta[k]) by {
                assert(refs_spec[k] == from_meta[k]);
            }
        }
        let (mut graph, mapping, errors) = self.add_serial_nodes();
        let ne = self.edges.len();
        if errors.len() > 0 {
            return Err(SerializableGraphError::CouldntAddDeps(errors));
        }
        // The relations.
        let ghost final_nodes = graph.nodes();
        proof {
            assert forall|k: usize| #[trigger] mapping@.contains_key(k) implies mapping@[k].ix == restored_id(
                idx,
                infos,
                final_nodes,
                k,
            ) by {
                lemma_index_of_unique(final_nodes, mapping@[k].ix);
            }
            assert forall|k: int| #![trigger es[k]] 0 <= k < es.len() implies mapping@.contains_key(es[k].0)
                && mapping@.contains_key(es[k].1) by {
                lemma_last_pos(idx, es[k].0);
                lemma_last_pos(idx, es[k].1);
            }
        }
        for j in 0..ne
            invariant
                ne == self.edges@.len(),
                ne <= u32::MAX,
                es == serial_edges(self.edges@),
                forall|k: int|
                    #![trigger es[k]]
                    0 <= k < es.len() ==> mapping@.contains_key(es[k].0) && mapping@.contains_key(es[k].1),
                forall|k: usize|
                    #[trigger] mapping@.contains_key(k) ==> final_nodes.contains_key(mapping@[k].ix)
                        && mapping@[k].ix == restored_id(idx, infos, final_nodes, k),
                graph.wf(),
                graph.nodes() == final_nodes,
                graph.edges() == es.take(j as int).map_values(
                    |e: (usize, usize, Seq<char>)| restored_edge(e, idx, infos, final_nodes),
                ),
                graph.frameworks() == add_frameworks(Seq::empty(), graph.edges()),
        {
            let from = self.edges[j].0;
            let to = self.edges[j].1;
            let ghost e = es[j as int];
            proof {
                assert(from == es[j as int].0 && to == es[j as int].1);
                assert(es.take(j + 1).map_values(|e: (usize, usize, Seq<char>)| restored_edge(e, idx, infos, final_nodes))
                    =~= es.take(j as int).map_values(
                    |e: (usize, usize, Seq<char>)| restored_edge(e, idx, infos, final_nodes),
                ).push(restored_edge(e, idx, infos, final_nodes)));
            }
            match (mapping.get(&from), mapping.get(&to)) {
                (Some(f), Some(t)) => {
                    let fw = self.edges[j].2.duplicate();
                    let ghost before = graph.edges();
                    match graph.add_relation(*f, *t, fw) {
                        Ok(()) => {
                            proof {
                                assert(graph.edges().drop_last() =~= before);
                            }
                        },
                        Err(_) => {},
                    }
                },
                _ => {},
            }
        }
        proof {
            assert(es.take(ne as int) =~= es);
        }
        // The metadata, under the identifiers.
        let SerializableGraph { nodes: _, edges: _, node_metadata } = self;
        let meta = match node_metadata {
            Some(m) => {
                let ghost ms = m@;
                proof {
                    assert forall|k: int| 0 <= k < ms.len() implies #[trigger] mapping@.contains_key(ms[k].0) by {
                        assert(from_meta[k] == ms[k].0);
                        lemma_last_pos(idx, ms[k].0);
                    }
                }
                let mut v: Vec<(DependencyId, T)> = Vec::new();
                for q in it: m.into_iter()
                    invariant
                        it.seq() == ms,
                        forall|k: int| 0 <= k < ms.len() ==> #[trigger] mapping@.contains_key(ms[k].0),
                        forall|k: usize|
                            #[trigger] mapping@.contains_key(k) ==> mapping@[k].ix == restored_id(idx, infos, final_nodes, k),
                        v@.len() == it.index(),
                        forall|k: int|
                            #![trigger v@[k]]
                            0 <= k < it.index() ==> v@[k].0 == mapping@[it.seq()[k].0] && v@[k].1 == it.seq()[k].1,
                {
                    let (k, value) = q;
                    match mapping.get(&k) {
                        Some(id) => v.push((*id, value)),
                        None => {},
                    }
                }
                proof {
                    assert forall|i: int| #![trigger v@[i]] 0 <= i < v@.len() implies v@[i].0.ix == restored_id(
                        idx,
                        infos,
                        final_nodes,
                        ms[i].0,
                    ) by {
                        assert(mapping@.contains_key(ms[i].0));
                    }
                }
                Some(v)
            },
            None => None,
        };
        proof {
            assert(graph.nodes() == absorb(Map::empty(), infos));
            assert(graph.edges() == es.map_values(|e: (usize, usize, Seq<char>)| restored_edge(e, idx, infos, graph.nodes())));
            assert(graph.frameworks() == add_frameworks(Seq::empty(), graph.edges()));
        }
        Ok((graph, meta))
    }
}

/// `g` and `meta` are what rebuilding a graph from the indices `idx`, the
/// dependencies `infos`, the relations `es` and the metadata `node_metadata`
/// gives: the dependencies added in their order, the relations between the
/// identifiers of their ends in that order, and each attached value under the
/// identifier of the dependency that its index stands for.
pub open spec fn rebuilt_as<T>(
    g: DependencyGraph,
    meta: Option<Vec<(DependencyId, T)>>,
    idx: Seq<usize>,
    infos: Seq<DependencyView>,
    es: Seq<(usize, usize, Seq<char>)>,
    node_metadata: Option<Vec<(usize, T)>>,
) -> bool {
    &&& g.wf()
    &&& g.nodes() == absorb(Map::empty(), infos)
    &&& g.edges() == es.map_values(|e: (usize, usize, Seq<char>)| restored_edge(e, idx, infos, g.nodes()))
    &&& g.frameworks() == add_frameworks(Seq::empty(), g.edges())
    &&& match (node_metadata, meta) {
        (None, None) => true,
        (Some(m), Some(v)) => v@.len() == m@.len() && forall|i: int|
            #![trigger v@[i]]
            0 <= i < v@.len() ==> v@[i].0.ix == restored_id(idx, infos, g.nodes(), m@[i].0) && v@[i].1 == m@[i].1,
        _ => false,
    }
}

/// `last_pos` finds `k` exactly when `idx` holds it, and at a position that
/// holds it.
proof fn lemma_last_pos(idx: Seq<usize>, k: usize)
    ensures
        idx.contains(k) <==> last_pos(idx, k) >= 0,
        last_pos(idx, k) < idx.len(),
        last_pos(idx, k) >= 0 ==> idx[last_pos(idx, k)] == k,
    decreases idx.len(),
{
    if idx.len() > 0 {
        let d = idx.drop_last();
        lemma_last_pos(d, k);
        if idx.last() != k {
            if idx.contains(k) {
                let j = choose|j: int| 0 <= j < idx.len() && idx[j] == k;
                assert(d[j] == k);
            }
            if d.contains(k) {
                let j = choose|j: int| 0 <= j < d.len() && d[j] == k;
                assert(idx[j] == k);
            }
        } else {
            assert(idx[idx.len() - 1] == k);
        }
    }
}

/// When `not_among` is empty, every entry of `ks` is among `idx`.
proof fn lemma_not_among_empty(ks: Seq<usize>, idx: Seq<usize>)
    requires
        not_among(ks, idx).len() == 0,
    ensures
        forall|j: int| 0 <= j < ks.len() ==> idx.contains(#[trigger] ks[j]),
    decreases ks.len(),
{
    if ks.len() > 0 {
        let d = ks.drop_last();
        lemma_not_among_empty(d, idx);
        assert forall|j: int| 0 <= j < ks.len() implies idx.contains(#[trigger] ks[j]) by {
            if j < ks.len() - 1 {
                assert(d[j] == ks[j]);
            }
        }
    }
}

/// In a map whose values are all different, the identifier found for the
/// value under `i` is `i`.
proof fn lemma_index_of_unique(m: Map<u32, DependencyView>, i: u32)
    requires
        nodes_consistent(m),
        m.contains_key(i),
    ensures
        index_of(m, m[i]) == i,
{
    let c = index_of(m, m[i]);
    assert(m.contains_key(c) && m[c] == m[i]);
    if c != i {
        assert(m[c] != m[i]);
    }
}

/// Adding the dependencies of `nodes`, whose identifiers are `0..n` and whose
/// values are all different and agree in kind by name, one after the other in
/// the order of their identifiers to an empty graph gives each its identifier,
/// and none is refused.
proof fn lemma_absorb_in_order(nodes: Map<u32, DependencyView>, infos: Seq<DependencyView>, i: nat)
    requires
        nodes_consistent(nodes),
        forall|k: u32| #[trigger] nodes.contains_key(k) <==> k < infos.len(),
        infos.len() <= u32::MAX,
        forall|k: int| #![trigger infos[k]] 0 <= k < infos.len() ==> infos[k] == nodes[k as u32],
        i <= infos.len(),
    ensures
        absorb(Map::empty(), infos.take(i as int)).dom().finite(),
        absorb(Map::empty(), infos.take(i as int)).dom().len() == i,
        forall|k: u32| #[trigger] absorb(Map::empty(), infos.take(i as int)).contains_key(k) <==> k < i,
        forall|k: u32| k < i ==> #[trigger] absorb(Map::empty(), infos.take(i as int))[k] == nodes[k],
        conflict_count(infos.take(i as int)) == 0,
    decreases i,
{
    let r = absorb(Map::empty(), infos.take(i as int));
    if i == 0 {
        assert(infos.take(0) =~= Seq::<DependencyView>::empty());
        assert(r.dom() =~= Set::<u32>::empty());
    } else {
        let j = (i - 1) as nat;
        lemma_absorb_in_order(nodes, infos, j);
        let before = absorb(Map::empty(), infos.take(j as int));
        assert(infos.take(i as int).drop_last() =~= infos.take(j as int));
        assert(infos.take(i as int).last() == infos[j as int]);
        let v = infos[j as int];
        assert(v == nodes[j as u32]);
        assert(!before.values().contains(v)) by {
            if before.values().contains(v) {
                let k = choose|k: u32| before.contains_key(k) && before[k] == v;
                assert(nodes[k] == nodes[j as u32]);
            }
        }
        assert(!kind_conflict(before, v)) by {
            if kind_conflict(before, v) {
                let k = choose|k: u32| #[trigger]
                    before.contains_key(k) && before[k].name == v.name && before[k].is_project != v.is_project;
                assert(nodes[k].name == nodes[j as u32].name);
            }
        }
        assert(r == before.insert(j as u32, v));
        assert(r.dom() =~= before.dom().insert(j as u32));
    }
}

/// In a sequence that holds its own positions, the last position of `k` is `k`.
proof fn lemma_last_pos_identity(idx: Seq<usize>, k: usize)
    requires
        forall|i: int| #![trigger idx[i]] 0 <= i < idx.len() ==> idx[i] == i,
        k < idx.len(),
    ensures
        last_pos(idx, k) == k,
    decreases idx.len(),
{
    if idx.last() != k {
        let d = idx.drop_last();
        assert forall|i: int| #![trigger d[i]] 0 <= i < d.len() implies d[i] == i by {
            assert(d[i] == idx[i]);
        }
        assert(idx[idx.len() - 1] == idx.len() - 1);
        lemma_last_pos_identity(d, k);
    } else {
        assert(idx[idx.len() - 1] == idx.len() - 1);
    }
}

/// When every entry of `ks` is among `idx`, `not_among` is empty.
proof fn lemma_not_among_all_in(ks: Seq<usize>, idx: Seq<usize>)
    requires
        forall|j: int| 0 <= j < ks.len() ==> idx.contains(#[trigger] ks[j]),
    ensures
        not_among(ks, idx).len() == 0,
    decreases ks.len(),
{
    if ks.len() > 0 {
        let d = ks.drop_last();
        assert forall|j: int| 0 <= j < d.len() implies idx.contains(#[trigger] d[j]) by {
            assert(d[j] == ks[j]);
        }
        lemma_not_among_all_in(d, idx);
        assert(idx.contains(ks[ks.len() - 1]));
    }
}

/// When `absent_ids` is empty, every identifier of `ids` is among `nodes`.
proof fn lemma_absent_ids_empty(nodes: Map<u32, DependencyView>, ids: Seq<DependencyId>)
    requires
        absent_ids(nodes, ids).len() == 0,
    ensures
        forall|j: int| 0 <= j < ids.len() ==> nodes.contains_key(#[trigger] ids[j].ix),
    decreases ids.len(),
{
    if ids.len() > 0 {
        let d = ids.drop_last();
        lemma_absent_ids_empty(nodes, d);
        assert forall|j: int| 0 <= j < ids.len() implies nodes.contains_key(#[trigger] ids[j].ix) by {
            if j < ids.len() - 1 {
                assert(d[j] == ids[j]);
            }
        }
    }
}

/// A graph turned into its serializable form and rebuilt from it comes back
/// the same: no reference is invalid, no dependency is refused, every
/// dependency gets back its identifier, the relations come back in their
/// order, and every attached value comes back under the identifier it was
/// attached to.
pub proof fn lemma_serialization_roundtrip<T>(
    g: DependencyGraph,
    metadata: Option<Vec<(DependencyId, T)>>,
    s: SerializableGraph<T>,
)
    requires
        g.wf(),
        opt_ids_absent(g.nodes(), metadata).len() == 0,
        opt_meta_keys(metadata).no_duplicates(),
        serialized_as(g, metadata, s),
    ensures
        opt_meta_keys(s.node_metadata).no_duplicates(),
        ({
            let idx = serial_indices(s.nodes@);
            let infos = serial_infos(s.nodes@);
            let es = serial_edges(s.edges@);
            &&& not_among(referenced_ids(s.node_metadata, es), idx).len() == 0
            &&& conflict_count(infos) == 0
            &&& absorb(Map::empty(), infos) == g.nodes()
            &&& es.map_values(|e: (usize, usize, Seq<char>)| restored_edge(e, idx, infos, g.nodes())) == g.edges()
            &&& forall|i: int|
                0 <= i < opt_meta_keys(metadata).len() ==> #[trigger] restored_id(
                    idx,
                    infos,
                    g.nodes(),
                    opt_meta_keys(s.node_metadata)[i],
                ) == opt_meta_keys(metadata)[i].ix
        }),
{
    let nodes = g.nodes();
    let idx = serial_indices(s.nodes@);
    let infos = serial_infos(s.nodes@);
    let es = serial_edges(s.edges@);
    let n = infos.len();
    let ge = graph_edges(g.graph);
    match (metadata, s.node_metadata) {
        (Some(m), Some(v)) => {
            let mk = meta_keys(m@);
            let vk = meta_keys(v@);
            assert forall|a: int, b: int| 0 <= a < vk.len() && 0 <= b < vk.len() && a != b implies vk[a] != vk[b] by {
                assert(vk[a] == v@[a].0 && vk[b] == v@[b].0);
                assert(mk[a] == m@[a].0 && mk[b] == m@[b].0);
                assert(mk[a] != mk[b]);
            }
        },
        _ => {},
    }
    lemma_ids_dense(&g);
    assert forall|k: int| #![trigger idx[k]] 0 <= k < idx.len() implies idx[k] == k by {
        assert(s.nodes@[k].0 == k);
    }
    assert forall|k: int| #![trigger infos[k]] 0 <= k < infos.len() implies infos[k] == nodes[k as u32] by {
        assert(s.nodes@[k].1@ == nodes[k as u32]);
    }
    lemma_absorb_in_order(nodes, infos, n);
    assert(infos.take(n as int) =~= infos);
    let r = absorb(Map::empty(), infos);
    assert(r =~= nodes);
    assert forall|k: u32| #[trigger] nodes.contains_key(k) implies restored_id(idx, infos, nodes, k as usize) == k by {
        lemma_last_pos_identity(idx, k as usize);
        lemma_index_of_unique(nodes, k);
    }
    assert forall|k: u32| #[trigger] nodes.contains_key(k) implies idx.contains(k as usize) by {
        assert(idx[k as int] == k);
    }
    assert(es =~= g.edges().map_values(|e: EdgeView| serial_edge(e)));
    assert forall|j: int| 0 <= j < es.len() implies nodes.contains_key(#[trigger] g.edges()[j].from) && nodes.contains_key(
        g.edges()[j].to,
    ) by {
        assert(ge[j].3@ == g.edges()[j]);
    }
    assert(es.map_values(|e: (usize, usize, Seq<char>)| restored_edge(e, idx, infos, nodes)) =~= g.edges());
    let mk = opt_meta_keys(metadata);
    let smk = opt_meta_keys(s.node_metadata);
    match metadata {
        Some(m) => {
            lemma_absent_ids_empty(nodes, meta_keys(m@));
            assert forall|i: int| 0 <= i < mk.len() implies #[trigger] smk[i] == mk[i].ix && nodes.contains_key(mk[i].ix) by {
                assert(meta_keys(m@)[i] == mk[i]);
            }
        },
        None => {},
    }
    let refs = referenced_ids(s.node_metadata, es);
    assert forall|j: int| 0 <= j < refs.len() implies idx.contains(#[trigger] refs[j]) by {
        if j < smk.len() {
            assert(refs[j] == smk[j]);
            assert(nodes.contains_key(mk[j].ix));
        } else if j < smk.len() + es.len() {
            assert(refs[j] == es[j - smk.len()].0);
            assert(nodes.contains_key(g.edges()[j - smk.len()].from));
        } else {
            assert(refs[j] == es[j - smk.len() - es.len()].1);
            assert(nodes.contains_key(g.edges()[j - smk.len() - es.len()].to));
        }
    }
    lemma_not_among_all_in(refs, idx);
}

/// Adding a dependency that was just added gives back the same identifier
/// and changes nothing.
pub proof fn lemma_add_idempotent(
    before: Map<u32, DependencyView>,
    mid: Map<u32, DependencyView>,
    after: Map<u32, DependencyView>,
    v: DependencyView,
    first: Result<DependencyId, DependencyGraphError>,
    second: Result<DependencyId, DependencyGraphError>,
)
    requires
        nodes_consistent(mid),
        added_as(before, mid, v, first),
        added_as(mid, after, v, second),
        first is Ok,
    ensures
        second is Ok,
        second->Ok_0 == first->Ok_0,
        after == mid,
{
    let id = first->Ok_0;
    assert(mid.contains_key(id.ix) && mid[id.ix] == v);
    assert(mid.values().contains(v));
    assert(!kind_conflict(mid, v)) by {
        if kind_conflict(mid, v) {
            let k = choose|k: u32| #[trigger] mid.contains_key(k) && mid[k].name == v.name && mid[k].is_project != v.is_project;
            assert(mid[k].name == mid[id.ix].name);
        }
    }
    let id2 = second->Ok_0;
    if id2.ix != id.ix {
        assert(mid[id2.ix] != mid[id.ix]);
    }
}

/// A relation added to a graph is the first of the relations that leave its
/// source and the first of those that enter its target; the others are those
/// there were before.
pub proof fn lemma_added_relation_listed(edges: Seq<EdgeView>, e: EdgeView)
    ensures
        edges_from(edges.push(e), e.from) == seq![e] + edges_from(edges, e.from),
        edges_to(edges.push(e), e.to) == seq![e] + edges_to(edges, e.to),
        forall|a: u32| a != e.from ==> edges_from(#[trigger] edges.push(e), a) == edges_from(edges, a),
{
    assert(edges.push(e).drop_last() =~= edges);
    assert forall|a: u32| a != e.from implies edges_from(#[trigger] edges.push(e), a) == edges_from(edges, a) by {
        assert(edges.push(e).drop_last() =~= edges);
    }
}

/// The abstract value of a graph: its dependencies by identifier, its
/// relations in the order of their addition, and the frameworks that
/// relations were added under.
#[verifier::ext_equal]
pub struct GraphModel {
    pub nodes: Map<u32, DependencyView>,
    pub edges: Seq<EdgeView>,
    pub frameworks: Seq<Seq<char>>,
}

/// The model of a graph without dependencies.
pub open spec fn empty_model() -> GraphModel {
    GraphModel { nodes: Map::empty(), edges: Seq::empty(), frameworks: Seq::empty() }
}

/// Adding the dependency `v` to a graph: refused when a dependency of the
/// other kind has its name; the identifier it has when it is there already;
/// otherwise it is added under the next identifier.
pub open spec fn add_step(m: GraphModel, v: DependencyView) -> Option<(GraphModel, u32)> {
    if kind_conflict(m.nodes, v) {
        None
    } else if m.nodes.values().contains(v) {
        Some((m, index_of(m.nodes, v)))
    } else {
        let id = m.nodes.dom().len() as u32;
        Some((GraphModel { nodes: m.nodes.insert(id, v), edges: m.edges, frameworks: m.frameworks }, id))
    }
}

/// Adding a relation between two dependencies of a graph: refused when the
/// graph holds `u32::MAX` relations already.
pub open spec fn relate_step(m: GraphModel, from: u32, to: u32, framework: Seq<char>) -> Option<GraphModel> {
    if m.edges.len() < u32::MAX {
        Some(
            GraphModel {
                nodes: m.nodes,
                edges: m.edges.push(EdgeView { from, to, framework }),
                frameworks: with_framework(m.frameworks, framework),
            },
        )
    } else {
        None
    }
}

/// Adding the dependency `v` to a graph and then a relation from `from` to
/// it under `framework`.
pub open spec fn add_related_step(m: GraphModel, from: u32, v: DependencyView, framework: Seq<char>) -> Option<GraphModel> {
    match add_step(m, v) {
        Some((m1, id)) => relate_step(m1, from, id, framework),
        None => None,
    }
}

/// The steps `step` applied to the items `xs` one after the other, from the
/// graph `m`; none once one is refused.
pub open spec fn fold_steps<A>(m: GraphModel, xs: Seq<A>, step: spec_fn(GraphModel, A) -> Option<GraphModel>) -> Option<GraphModel>
    decreases xs.len(),
{
    if xs.len() == 0 {
        Some(m)
    } else {
        match fold_steps(m, xs.drop_last(), step) {
            Some(m1) => step(m1, xs.last()),
            None => None,
        }
    }
}

/// The identifiers of the dependencies of `nodes` are `0..n`, where `n` is
/// their number.
pub open spec fn dense(nodes: Map<u32, DependencyView>) -> bool {
    &&& nodes.dom().finite()
    &&& forall|i: u32| #[trigger] nodes.contains_key(i) <==> (i as int) < nodes.dom().len()
}

/// `b` is `a` with more added: every identifier of `a` is still there and,
/// once `b` holds fewer than 2^32 dependencies, with the same dependency;
/// the relations of `a` come first in those of `b`; every framework of `a`
/// is among those of `b`. Dense identifiers stay dense.
pub open spec fn extends(a: GraphModel, b: GraphModel) -> bool {
    dense(a.nodes) ==> {
        &&& dense(b.nodes)
        &&& a.nodes.dom().subset_of(b.nodes.dom())
        &&& b.nodes.dom().len() < 0x1_0000_0000 ==> a.nodes.submap_of(b.nodes)
        &&& a.edges.len() <= b.edges.len()
        &&& forall|k: int| 0 <= k < a.edges.len() ==> #[trigger] b.edges[k] == a.edges[k]
        &&& forall|f: Seq<char>| a.frameworks.contains(f) ==> #[trigger] b.frameworks.contains(f)
    }
}

/// Every model extends itself.
pub proof fn lemma_extends_refl(m: GraphModel)
    ensures
        extends(m, m),
{
}

/// Extending is transitive.
pub proof fn lemma_extends_trans(a: GraphModel, b: GraphModel, c: GraphModel)
    requires
        extends(a, b),
        extends(b, c),
    ensures
        extends(a, c),
{
    if dense(a.nodes) {
        if c.nodes.dom().len() < 0x1_0000_0000 {
            vstd::set_lib::lemma_len_subset(b.nodes.dom(), c.nodes.dom());
        }
    }
}

/// Of `a` extended to `b` and then to `c` with fewer than 2^32 dependencies,
/// `b` keeps what `a` holds.
pub proof fn lemma_extends_keeps(a: GraphModel, b: GraphModel, c: GraphModel)
    requires
        dense(a.nodes),
        extends(a, b),
        extends(b, c),
        c.nodes.dom().len() < 0x1_0000_0000,
    ensures
        a.nodes.submap_of(b.nodes),
        a.nodes.submap_of(c.nodes),
        dense(b.nodes),
        dense(c.nodes),
{
    vstd::set_lib::lemma_len_subset(b.nodes.dom(), c.nodes.dom());
    lemma_extends_trans(a, b, c);
}

/// A dependency inserted under the next identifier of dense identifiers.
proof fn lemma_insert_next(a: GraphModel, b: GraphModel, id: u32, v: DependencyView)
    requires
        dense(a.nodes),
        id == a.nodes.dom().len() as u32,
        b.nodes == a.nodes.insert(id, v),
        b.edges == a.edges,
        b.frameworks == a.frameworks,
    ensures
        extends(a, b),
{
    let n = a.nodes.dom().len();
    if n < 0x1_0000_0000 {
        assert(!a.nodes.contains_key(id));
        assert(b.nodes.dom() =~= a.nodes.dom().insert(id));
        assert forall|i: u32| #[trigger] b.nodes.contains_key(i) <==> (i as int) < b.nodes.dom().len() by {}
    } else {
        assert(a.nodes.contains_key(id));
        assert(b.nodes.dom() =~= a.nodes.dom());
    }
}

/// Adding a dependency extends the graph and the dependency is then under
/// the identifier it gives.
pub proof fn lemma_add_step_extends(m: GraphModel, v: DependencyView)
    requires
        dense(m.nodes),
    ensures
        add_step(m, v) is None <==> kind_conflict(m.nodes, v),
        add_step(m, v) matches Some((m1, id)) ==> extends(m, m1) && m1.nodes.contains_key(id) && m1.nodes[id] == v,
{
    if !kind_conflict(m.nodes, v) {
        if m.nodes.values().contains(v) {
            let i = choose|i: u32| m.nodes.contains_key(i) && m.nodes[i] == v;
            assert(m.nodes.contains_key(index_of(m.nodes, v)));
        } else {
            let id = m.nodes.dom().len() as u32;
            let m1 = GraphModel { nodes: m.nodes.insert(id, v), edges: m.edges, frameworks: m.frameworks };
            lemma_insert_next(m, m1, id, v);
        }
    }
}

/// Adding a relation extends the graph by that relation and its framework.
pub proof fn lemma_relate_step_extends(m: GraphModel, from: u32, to: u32, framework: Seq<char>)
    ensures
        relate_step(m, from, to, framework) is Some <==> m.edges.len() < u32::MAX,
        relate_step(m, from, to, framework) matches Some(m1) ==> extends(m, m1) && m1.edges == m.edges.push(
            EdgeView { from, to, framework },
        ) && m1.frameworks.contains(framework),
{
    if m.edges.len() < u32::MAX {
        let m1 = relate_step(m, from, to, framework).unwrap();
        if !m.frameworks.contains(framework) {
            assert(m1.frameworks[m.frameworks.len() as int] == framework);
        }
        assert forall|f: Seq<char>| m.frameworks.contains(f) implies #[trigger] m1.frameworks.contains(f) by {
            if !m.frameworks.contains(framework) {
                let k = choose|k: int| 0 <= k < m.frameworks.len() && m.frameworks[k] == f;
                assert(m1.frameworks[k] == f);
            }
        }
    }
}

/// Finding or creating a dependency by name extends the graph; when a
/// dependency has the name, the one it gives has the name and the version.
pub proof fn lemma_get_or_create_step_extends(m: GraphModel, name: Seq<char>, version: Option<Seq<char>>)
    requires
        dense(m.nodes),
    ensures
        extends(m, get_or_create_step(m, name, version).0),
        (exists|i: u32| #[trigger] m.nodes.contains_key(i) && m.nodes[i].name == name) ==> (get_or_create_step(
            m,
            name,
            version,
        ).1 matches Some(j) && get_or_create_step(m, name, version).0.nodes.contains_key(j) && get_or_create_step(
            m,
            name,
            version,
        ).0.nodes[j].name == name && get_or_create_step(m, name, version).0.nodes[j].version == version),
{
    if exists|i: u32| #[trigger] m.nodes.contains_key(i) && m.nodes[i].name == name && m.nodes[i].version == version {
    } else if exists|i: u32| #[trigger] m.nodes.contains_key(i) && m.nodes[i].name == name {
        let k = choose|i: u32| #[trigger] m.nodes.contains_key(i) && m.nodes[i].name == name;
        let id = m.nodes.dom().len() as u32;
        let v = DependencyView { is_project: m.nodes[k].is_project, name, version };
        let m1 = GraphModel { nodes: m.nodes.insert(id, v), edges: m.edges, frameworks: m.frameworks };
        lemma_insert_next(m, m1, id, v);
    }
}

/// Where every step extends the graph, a fold of steps that all succeed
/// extends it too.
pub proof fn lemma_fold_steps_whole<A>(m: GraphModel, xs: Seq<A>, step: spec_fn(GraphModel, A) -> Option<GraphModel>)
    requires
        fold_steps(m, xs, step) is Some,
        forall|a: GraphModel, x: A| #[trigger] step(a, x) is Some ==> extends(a, step(a, x).unwrap()),
    ensures
        extends(m, fold_steps(m, xs, step).unwrap()),
    decreases xs.len(),
{
    if xs.len() == 0 {
        lemma_extends_refl(m);
    } else {
        let d = xs.drop_last();
        assert(fold_steps(m, d, step) is Some);
        lemma_fold_steps_whole(m, d, step);
        let m1 = fold_steps(m, d, step).unwrap();
        assert(step(m1, xs.last()) == fold_steps(m, xs, step));
        lemma_extends_trans(m, m1, fold_steps(m, xs, step).unwrap());
    }
}

/// Where every step extends the graph and a fold of steps succeeds: before
/// item `i` the fold of the items before it succeeded and extends the start,
/// the step on item `i` gives the fold of one item more, and what follows
/// extends it to the end.
pub proof fn lemma_fold_steps_extends<A>(
    m: GraphModel,
    xs: Seq<A>,
    step: spec_fn(GraphModel, A) -> Option<GraphModel>,
    i: int,
)
    requires
        fold_steps(m, xs, step) is Some,
        forall|a: GraphModel, x: A| #[trigger] step(a, x) is Some ==> extends(a, step(a, x).unwrap()),
        0 <= i <= xs.len(),
    ensures
        fold_steps(m, xs.take(i), step) is Some,
        extends(m, fold_steps(m, xs.take(i), step).unwrap()),
        extends(fold_steps(m, xs.take(i), step).unwrap(), fold_steps(m, xs, step).unwrap()),
        i < xs.len() ==> step(fold_steps(m, xs.take(i), step).unwrap(), xs[i]) == fold_steps(m, xs.take(i + 1), step),
    decreases xs.len() - i,
{
    if i == xs.len() {
        assert(xs.take(i) =~= xs);
        lemma_extends_refl(fold_steps(m, xs, step).unwrap());
    } else {
        lemma_fold_steps_extends(m, xs, step, i + 1);
        lemma_fold_steps_next(m, xs, step, i);
        let mi = fold_steps(m, xs.take(i), step);
        if mi is None {
            assert(fold_steps(m, xs.take(i + 1), step) is None);
        }
        let mi1 = fold_steps(m, xs.take(i + 1), step).unwrap();
        lemma_extends_trans(mi.unwrap(), mi1, fold_steps(m, xs, step).unwrap());
    }
    lemma_fold_steps_whole(m, xs.take(i), step);
}

/// `g`'s dependencies have dense identifiers, fewer than 2^32, and no two of
/// them share a name with different kinds.
pub proof fn lemma_wf_model(g: &DependencyGraph)
    requires
        g.wf(),
    ensures
        dense(g.nodes()),
        g.nodes().dom().len() < 0x1_0000_0000,
        nodes_consistent(g.nodes()),
{
    lemma_ids_dense(g);
}

/// One more item folded: the step applied to the fold of those before it.
pub proof fn lemma_fold_steps_next<A>(m: GraphModel, xs: Seq<A>, step: spec_fn(GraphModel, A) -> Option<GraphModel>, i: int)
    requires
        0 <= i < xs.len(),
    ensures
        fold_steps(m, xs.take(i + 1), step) == match fold_steps(m, xs.take(i), step) {
            Some(m1) => step(m1, xs[i]),
            None => None,
        },
{
    assert(xs.take(i + 1).drop_last() =~= xs.take(i));
    assert(xs.take(i + 1).last() == xs[i]);
}

/// Once a step is refused, the whole fold is.
pub proof fn lemma_fold_steps_refused<A>(m: GraphModel, xs: Seq<A>, step: spec_fn(GraphModel, A) -> Option<GraphModel>, i: int)
    requires
        0 <= i <= xs.len(),
        fold_steps(m, xs.take(i), step) is None,
    ensures
        fold_steps(m, xs, step) is None,
    decreases xs.len() - i,
{
    if i < xs.len() {
        lemma_fold_steps_next(m, xs, step, i);
        lemma_fold_steps_refused(m, xs, step, i + 1);
    } else {
        assert(xs.take(i) =~= xs);
    }
}

/// The whole sequence folded is the fold of all its items taken.
pub proof fn lemma_fold_steps_all<A>(m: GraphModel, xs: Seq<A>, step: spec_fn(GraphModel, A) -> Option<GraphModel>)
    ensures
        fold_steps(m, xs.take(xs.len() as int), step) == fold_steps(m, xs, step),
        fold_steps(m, xs.take(0), step) == Some(m),
{
    assert(xs.take(xs.len() as int) =~= xs);
    assert(xs.take(0) =~= Seq::<A>::empty());
}

/// The sum of `f` over the items of `xs`.
pub open spec fn sum_of<A>(xs: Seq<A>, f: spec_fn(A) -> nat) -> nat
    decreases xs.len(),
{
    if xs.len() == 0 {
        0
    } else {
        sum_of(xs.drop_last(), f) + f(xs.last())
    }
}

/// One more item summed.
pub proof fn lemma_sum_of_next<A>(xs: Seq<A>, f: spec_fn(A) -> nat, i: int)
    requires
        0 <= i < xs.len(),
    ensures
        sum_of(xs.take(i + 1), f) == sum_of(xs.take(i), f) + f(xs[i]),
{
    assert(xs.take(i + 1).drop_last() =~= xs.take(i));
}

/// A prefix sums to no more than the whole.
pub proof fn lemma_sum_of_prefix<A>(xs: Seq<A>, f: spec_fn(A) -> nat, i: int)
    requires
        0 <= i <= xs.len(),
    ensures
        sum_of(xs.take(i), f) <= sum_of(xs, f),
        sum_of(xs.take(0), f) == 0,
    decreases xs.len() - i,
{
    assert(xs.take(0) =~= Seq::<A>::empty());
    if i < xs.len() {
        lemma_sum_of_next(xs, f, i);
        lemma_sum_of_prefix(xs, f, i + 1);
    } else {
        assert(xs.take(i) =~= xs);
    }
}

/// What `added_as` says of adding a dependency to a graph whose dependencies
/// are all different is what `add_step` says.
proof fn lemma_added_as_step(
    before: GraphModel,
    after: GraphModel,
    v: DependencyView,
    r: Result<DependencyId, DependencyGraphError>,
)
    requires
        nodes_consistent(before.nodes),
        added_as(before.nodes, after.nodes, v, r),
        after.edges == before.edges,
        after.frameworks == before.frameworks,
    ensures
        match add_step(before, v) {
            Some((m, id)) => r matches Ok(i) && i.ix == id && after == m,
            None => r matches Err(DependencyGraphError::DifferentDependencyType) && after == before,
        },
{
    if !kind_conflict(before.nodes, v) {
        let i = r->Ok_0;
        if before.nodes.values().contains(v) {
            lemma_index_of_unique(before.nodes, i.ix);
        }
    }
}

/// The index of an optional identifier.
pub open spec fn opt_ix(r: Option<DependencyId>) -> Option<u32> {
    match r {
        Some(id) => Some(id.ix),
        None => None,
    }
}

/// Looking up `name` at `version` in a graph: the dependency with this name
/// and version; else, when a dependency has this name, a new one of its kind
/// with this version; else nothing, and the graph stays as it is.
pub open spec fn get_or_create_step(m: GraphModel, name: Seq<char>, version: Option<Seq<char>>) -> (GraphModel, Option<u32>) {
    if exists|i: u32| #[trigger] m.nodes.contains_key(i) && m.nodes[i].name == name && m.nodes[i].version == version {
        (m, Some(choose|i: u32| #[trigger] m.nodes.contains_key(i) && m.nodes[i].name == name && m.nodes[i].version == version))
    } else if exists|i: u32| #[trigger] m.nodes.contains_key(i) && m.nodes[i].name == name {
        let k = choose|i: u32| #[trigger] m.nodes.contains_key(i) && m.nodes[i].name == name;
        let id = m.nodes.dom().len() as u32;
        (
            GraphModel {
                nodes: m.nodes.insert(id, DependencyView { is_project: m.nodes[k].is_project, name, version }),
                edges: m.edges,
                frameworks: m.frameworks,
            },
            Some(id),
        )
    } else {
        (m, None)
    }
}

/// What `got_or_created` says of a graph whose dependencies are all
/// different is what `get_or_create_step` says.
proof fn lemma_got_or_created_step(
    before: GraphModel,
    after: GraphModel,
    name: Seq<char>,
    version: Option<Seq<char>>,
    r: Option<DependencyId>,
)
    requires
        nodes_consistent(before.nodes),
        got_or_created(before.nodes, after.nodes, name, version, r),
        after.edges == before.edges,
        after.frameworks == before.frameworks,
    ensures
        get_or_create_step(before, name, version) == (after, opt_ix(r)),
{
    let m = before.nodes;
    if exists|i: u32| #[trigger] m.contains_key(i) && m[i].name == name && m[i].version == version {
        let c = choose|i: u32| #[trigger] m.contains_key(i) && m[i].name == name && m[i].version == version;
        let id = r->0.ix;
        assert(m[c].is_project == m[id].is_project);
        if c != id {
            assert(m[c] != m[id]);
        }
    } else if exists|i: u32| #[trigger] m.contains_key(i) && m[i].name == name {
        assert(after =~= get_or_create_step(before, name, version).0);
    }
}

/// What looking up `name` at `version` in a graph whose dependencies were
/// `before` does: the dependency with this name and version is found; else,
/// when a dependency has this name, one of its kind with this version is
/// added; else nothing is found and nothing changes.
pub open spec fn got_or_created(
    before: Map<u32, DependencyView>,
    after: Map<u32, DependencyView>,
    name: Seq<char>,
    version: Option<Seq<char>>,
    r: Option<DependencyId>,
) -> bool {
    if exists|i: u32| #[trigger] before.contains_key(i) && before[i].name == name && before[i].version == version {
        &&& r matches Some(id)
        &&& before.contains_key(id.ix)
        &&& before[id.ix].name == name
        &&& before[id.ix].version == version
        &&& after == before
    } else if exists|i: u32| #[trigger] before.contains_key(i) && before[i].name == name {
        let k = choose|i: u32| #[trigger] before.contains_key(i) && before[i].name == name;
        &&& r matches Some(id)
        &&& !before.contains_key(id.ix)
        &&& id.ix == before.dom().len()
        &&& after == before.insert(
            id.ix,
            DependencyView { is_project: before[k].is_project, name: name, version: version },
        )
    } else {
        &&& r is None
        &&& after == before
    }
}

/// Whether `name` is the name of a project in one of `a` and `b` and of a
/// package in the other.
pub open spec fn merge_conflict(a: Map<u32, DependencyView>, b: Map<u32, DependencyView>, name: Seq<char>) -> bool {
    exists|i: u32, j: u32|
        #[trigger] a.contains_key(i) && #[trigger] b.contains_key(j) && a[i].name == name && b[j].name == name
            && a[i].is_project != b[j].is_project
}

/// Whether some name is that of a project in one of `a` and `b` and of a
/// package in the other.
pub open spec fn graphs_conflict(a: Map<u32, DependencyView>, b: Map<u32, DependencyView>) -> bool {
    exists|name: Seq<char>| merge_conflict(a, b, name)
}

/// The dependencies of `m`, whose identifiers are `0..n`, in the order of
/// their identifiers.
pub open spec fn node_seq(m: Map<u32, DependencyView>) -> Seq<DependencyView> {
    Seq::new(m.dom().len(), |i: int| m[i as u32])
}

/// What adding the dependencies `vs` one after the other does to a graph
/// whose dependencies are `m`: each one that is not there already, and whose
/// name no dependency of the other kind has, takes the next identifier.
pub open spec fn absorb(m: Map<u32, DependencyView>, vs: Seq<DependencyView>) -> Map<u32, DependencyView>
    decreases vs.len(),
{
    if vs.len() == 0 {
        m
    } else {
        let before = absorb(m, vs.drop_last());
        let v = vs.last();
        if before.values().contains(v) || kind_conflict(before, v) {
            before
        } else {
            before.insert(before.dom().len() as u32, v)
        }
    }
}

/// The identifier under which `m` holds `v`.
pub open spec fn index_of(m: Map<u32, DependencyView>, v: DependencyView) -> u32 {
    choose|i: u32| m.contains_key(i) && m[i] == v
}

/// An edge between dependencies of `from_nodes`, moved to the identifiers that
/// the same dependencies have in `to_nodes`.
pub open spec fn relabel(e: EdgeView, from_nodes: Map<u32, DependencyView>, to_nodes: Map<u32, DependencyView>) -> EdgeView {
    EdgeView {
        from: index_of(to_nodes, from_nodes[e.from]),
        to: index_of(to_nodes, from_nodes[e.to]),
        framework: e.framework,
    }
}

/// The frameworks `fws` after relations were added under the frameworks of
/// the edges `es`, in their order.
pub open spec fn add_frameworks(fws: Seq<Seq<char>>, es: Seq<EdgeView>) -> Seq<Seq<char>>
    decreases es.len(),
{
    if es.len() == 0 {
        fws
    } else {
        with_framework(add_frameworks(fws, es.drop_last()), es.last().framework)
    }
}

/// The identifiers of the dependencies of a graph are `0..n`, where `n` is
/// their number.
pub proof fn lemma_ids_dense(g: &DependencyGraph)
    requires
        g.wf(),
    ensures
        g.nodes().dom().finite(),
        g.nodes().dom().len() <= u32::MAX,
        forall|i: u32| #[trigger] g.nodes().contains_key(i) <==> i < g.nodes().dom().len(),
{
    assert(g.nodes().dom() =~= graph_nodes(g.graph).dom());
}

/// A strictly increasing sequence of indices below `n` that holds each of
/// them is `0, 1, .., n - 1`.
proof fn lemma_sorted_cover(s: Seq<u32>, n: nat)
    requires
        forall|i: int, j: int| #![trigger s[i], s[j]] 0 <= i < j < s.len() ==> s[i] < s[j],
        forall|i: int| #![trigger s[i]] 0 <= i < s.len() ==> s[i] < n,
        forall|k: u32| k < n ==> #[trigger] s.contains(k),
        n <= 0x1_0000_0000,
    ensures
        s.len() == n,
        forall|i: int| #![trigger s[i]] 0 <= i < s.len() ==> s[i] == i,
{
    assert forall|i: int| 0 <= i < s.len() implies #[trigger] s[i] == i by {
        lemma_sorted_cover_prefix(s, n, i);
    }
    if s.len() < n {
        let k = s.len() as u32;
        assert(s.contains(k));
        let j = choose|j: int| 0 <= j < s.len() && s[j] == k;
        assert(s[j] == j);
    }
    if s.len() > n {
        assert(s[n as int] == n);
    }
}

proof fn lemma_sorted_cover_prefix(s: Seq<u32>, n: nat, i: int)
    requires
        forall|a: int, b: int| #![trigger s[a], s[b]] 0 <= a < b < s.len() ==> s[a] < s[b],
        forall|a: int| #![trigger s[a]] 0 <= a < s.len() ==> s[a] < n,
        forall|k: u32| k < n ==> #[trigger] s.contains(k),
        0 <= i < s.len(),
    ensures
        forall|j: int| #![trigger s[j]] 0 <= j <= i ==> s[j] == j,
    decreases i,
{
    if i > 0 {
        lemma_sorted_cover_prefix(s, n, i - 1);
        assert(s[i - 1] < s[i]);
    }
    if s[i] > i {
        let k = i as u32;
        assert(s.contains(k));
        let j = choose|j: int| 0 <= j < s.len() && s[j] == k;
        if j < i {
            assert(s[j] == j);
        } else if j > i {
            assert(s[i] < s[j]);
        }
    }
}

/// The abstract values of a sequence of edges.
pub open spec fn edge_views(es: Seq<&DepEdge>) -> Seq<EdgeView> {
    es.map_values(|e: &DepEdge| e@)
}

/// The edges of `edges` that leave `id`, the most recently added first.
pub open spec fn edges_from(edges: Seq<EdgeView>, id: u32) -> Seq<EdgeView>
    decreases edges.len(),
{
    if edges.len() == 0 {
        Seq::empty()
    } else {
        let rest = edges_from(edges.drop_last(), id);
        if edges.last().from == id {
            seq![edges.last()] + rest
        } else {
            rest
        }
    }
}

/// The edges of `edges` that enter `id`, the most recently added first.
pub open spec fn edges_to(edges: Seq<EdgeView>, id: u32) -> Seq<EdgeView>
    decreases edges.len(),
{
    if edges.len() == 0 {
        Seq::empty()
    } else {
        let rest = edges_to(edges.drop_last(), id);
        if edges.last().to == id {
            seq![edges.last()] + rest
        } else {
            rest
        }
    }
}

/// The edges of `es` under the framework `fw`, in their order.
pub open spec fn in_framework(es: Seq<EdgeView>, fw: Seq<char>) -> Seq<EdgeView>
    decreases es.len(),
{
    if es.len() == 0 {
        Seq::empty()
    } else {
        let rest = in_framework(es.drop_last(), fw);
        if es.last().framework == fw {
            rest.push(es.last())
        } else {
            rest
        }
    }
}

/// Under the invariant, the weights of the edges that leave a node are the
/// edges of the graph that leave it.
proof fn lemma_out_weights_views(ge: Seq<(u32, u32, u32, DepEdge)>, a: u32)
    requires
        forall|k: int| #![trigger ge[k]] 0 <= k < ge.len() ==> ge[k].3.from.ix == ge[k].1,
    ensures
        out_weights(ge, a).map_values(|e: DepEdge| e@) == edges_from(
            ge.map_values(|e: (u32, u32, u32, DepEdge)| e.3@),
            a,
        ),
    decreases ge.len(),
{
    if ge.len() > 0 {
        let gd = ge.drop_last();
        assert forall|k: int| #![trigger gd[k]] 0 <= k < gd.len() implies gd[k].3.from.ix == gd[k].1 by {
            assert(gd[k] == ge[k]);
        }
        lemma_out_weights_views(gd, a);
        assert(ge.map_values(|e: (u32, u32, u32, DepEdge)| e.3@).drop_last() =~= gd.map_values(
            |e: (u32, u32, u32, DepEdge)| e.3@,
        ));
        assert(ge.last() == ge[ge.len() - 1]);
        let rest = out_weights(gd, a);
        if ge.last().1 == a {
            assert((seq![ge.last().3] + rest).map_values(|e: DepEdge| e@) =~= seq![ge.last().3@]
                + rest.map_values(|e: DepEdge| e@));
        }
    } else {
        assert(out_weights(ge, a).map_values(|e: DepEdge| e@) =~= Seq::<EdgeView>::empty());
    }
}

/// Under the invariant, the weights of the edges that enter a node are the
/// edges of the graph that enter it.
proof fn lemma_in_weights_views(ge: Seq<(u32, u32, u32, DepEdge)>, a: u32)
    requires
        forall|k: int| #![trigger ge[k]] 0 <= k < ge.len() ==> ge[k].3.to.ix == ge[k].2,
    ensures
        in_weights(ge, a).map_values(|e: DepEdge| e@) == edges_to(
            ge.map_values(|e: (u32, u32, u32, DepEdge)| e.3@),
            a,
        ),
    decreases ge.len(),
{
    if ge.len() > 0 {
        let gd = ge.drop_last();
        assert forall|k: int| #![trigger gd[k]] 0 <= k < gd.len() implies gd[k].3.to.ix == gd[k].2 by {
            assert(gd[k] == ge[k]);
        }
        lemma_in_weights_views(gd, a);
        assert(ge.map_values(|e: (u32, u32, u32, DepEdge)| e.3@).drop_last() =~= gd.map_values(
            |e: (u32, u32, u32, DepEdge)| e.3@,
        ));
        assert(ge.last() == ge[ge.len() - 1]);
        let rest = in_weights(gd, a);
        if ge.last().2 == a {
            assert((seq![ge.last().3] + rest).map_values(|e: DepEdge| e@) =~= seq![ge.last().3@]
                + rest.map_values(|e: DepEdge| e@));
        }
    } else {
        assert(in_weights(ge, a).map_values(|e: DepEdge| e@) =~= Seq::<EdgeView>::empty());
    }
}

/// The frameworks `fws` with `fw` added at the end, unless it is among them.
pub open spec fn with_framework(fws: Seq<Seq<char>>, fw: Seq<char>) -> Seq<Seq<char>> {
    if fws.contains(fw) {
        fws
    } else {
        fws.push(fw)
    }
}

/// What adding the dependency `v` to a graph whose dependencies were `before`
/// does: it is refused when a dependency of the other kind has its name; it
/// gives back the dependency's identifier when it is there already; it is
/// added under a new identifier otherwise.
pub open spec fn added_as(
    before: Map<u32, DependencyView>,
    after: Map<u32, DependencyView>,
    v: DependencyView,
    r: Result<DependencyId, DependencyGraphError>,
) -> bool {
    if kind_conflict(before, v) {
        &&& r matches Err(DependencyGraphError::DifferentDependencyType)
        &&& after == before
    } else if before.values().contains(v) {
        &&& r matches Ok(id)
        &&& before.contains_key(id.ix)
        &&& before[id.ix] == v
        &&& after == before
    } else {
        &&& r matches Ok(id)
        &&& !before.contains_key(id.ix)
        &&& id.ix == before.dom().len()
        &&& after == before.insert(id.ix, v)
    }
}

} // verus!
