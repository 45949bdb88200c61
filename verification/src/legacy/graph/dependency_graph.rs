//! The graph keyed by what the dependencies are: a project by its path, a
//! package by its name and version. It records which dependency needs which
//! under which target framework.

use vstd::prelude::*;

use super::keyed_stable::{
    keyed_add_edge, keyed_add_node, keyed_compact, keyed_edges, keyed_incoming, keyed_new, keyed_nodes,
    keyed_outgoing, KeyedStableGraph,
};
use super::InfoView;
use crate::graph::dependency_graph::{clone_opt_string, opt_string_eq, opt_view};
use crate::graph::stable::{in_weights, out_weights};

verus! {

/// The abstract value of an identifier.
pub enum IdView {
    Project(Seq<char>),
    Package(Seq<char>, Option<Seq<char>>),
}

/// What identifies a dependency: the path of a project, or the name and
/// version of a package.
#[derive(Debug, Clone, Hash)]
pub enum DependencyId {
    ProjectId(String),
    PackageId(String, Option<String>),
}

impl View for DependencyId {
    type V = IdView;

    open spec fn view(&self) -> IdView {
        match self {
            DependencyId::ProjectId(p) => IdView::Project(p@),
            DependencyId::PackageId(n, v) => IdView::Package(n@, opt_view(*v)),
        }
    }
}

impl PartialEq for DependencyId {
    fn eq(&self, other: &Self) -> (r: bool) {
        match (self, other) {
            (DependencyId::ProjectId(a), DependencyId::ProjectId(b)) => *a == *b,
            (DependencyId::PackageId(a, x), DependencyId::PackageId(b, y)) => *a == *b && opt_string_eq(x, y),
            _ => false,
        }
    }
}

impl vstd::std_specs::cmp::PartialEqSpecImpl for DependencyId {
    open spec fn obeys_eq_spec() -> bool {
        true
    }

    open spec fn eq_spec(&self, other: &Self) -> bool {
        self@ == other@
    }
}

impl Eq for DependencyId {

}

impl DependencyId {
    /// A copy of the identifier.
    pub fn duplicate(&self) -> (r: Self)
        ensures
            r@ == self@,
    {
        match self {
            DependencyId::ProjectId(p) => DependencyId::ProjectId(p.clone()),
            DependencyId::PackageId(n, v) => DependencyId::PackageId(n.clone(), clone_opt_string(v)),
        }
    }
}

/// The identifier of a dependency: a project's path; a package's name and
/// version. The version of a project is no part of it.
pub open spec fn id_of(v: InfoView) -> IdView {
    if v.is_project {
        IdView::Project(v.name)
    } else {
        IdView::Package(v.name, v.version)
    }
}

/// Something that has an identifier.
pub trait DependencyWithId {
    fn id(&self) -> DependencyId;
}

/// A project: its path and version.
#[derive(Debug, Clone, Hash)]
pub struct ProjectInfo {
    pub path: String,
    pub version: Option<String>,
}

impl ProjectInfo {
    fn new(path: String, version: Option<String>) -> (r: Self)
        ensures
            r.path@ == path@,
            opt_view(r.version) == opt_view(version),
    {
        Self { path, version }
    }
}

/// A package: its name and version.
#[derive(Debug, Clone, Hash)]
pub struct PackageInfo {
    name: String,
    pub version: Option<String>,
}

impl View for PackageInfo {
    type V = (Seq<char>, Option<Seq<char>>);

    closed spec fn view(&self) -> (Seq<char>, Option<Seq<char>>) {
        (self.name@, opt_view(self.version))
    }
}

impl PackageInfo {
    pub fn new(name: String, version: Option<String>) -> (r: Self)
        ensures
            r@ == (name@, opt_view(version)),
    {
        Self { name, version }
    }
}

/// A dependency: a project or a package.
#[derive(Debug, Clone, Hash)]
pub enum DependencyInfo {
    Project(ProjectInfo),
    Package(PackageInfo),
}

impl View for DependencyInfo {
    type V = InfoView;

    open spec fn view(&self) -> InfoView {
        match self {
            DependencyInfo::Project(p) => InfoView { is_project: true, name: p.path@, version: opt_view(p.version) },
            DependencyInfo::Package(p) => InfoView { is_project: false, name: p@.0, version: p@.1 },
        }
    }
}

impl DependencyWithId for DependencyInfo {
    fn id(&self) -> (r: DependencyId)
        ensures
            r@ == id_of(self@),
    {
        match self {
            DependencyInfo::Project(info) => DependencyId::ProjectId(info.path.clone()),
            DependencyInfo::Package(info) => DependencyId::PackageId(info.name.clone(), clone_opt_string(&info.version)),
        }
    }
}

impl DependencyInfo {
    /// The path of a project, the name of a package.
    pub fn get_name(&self) -> (r: &str)
        ensures
            r@ == self@.name,
    {
        match self {
            DependencyInfo::Project(info) => info.path.as_str(),
            DependencyInfo::Package(info) => info.name.as_str(),
        }
    }

    /// The version of the dependency.
    pub fn get_version(&self) -> (r: Option<&String>)
        ensures
            match r {
                Some(s) => self@.version == Some(s@),
                None => self@.version is None,
            },
    {
        match self {
            DependencyInfo::Project(info) => info.version.as_ref(),
            DependencyInfo::Package(info) => info.version.as_ref(),
        }
    }

    /// The path of a project, the name of a package, as a `String`.
    fn name_string(&self) -> (r: &String)
        ensures
            r@ == self@.name,
    {
        match self {
            DependencyInfo::Project(info) => &info.path,
            DependencyInfo::Package(info) => &info.name,
        }
    }

    fn is_project(&self) -> (r: bool)
        ensures
            r == self@.is_project,
    {
        match self {
            DependencyInfo::Project(_) => true,
            DependencyInfo::Package(_) => false,
        }
    }

    fn version_is(&self, version: &Option<String>) -> (r: bool)
        ensures
            r == (self@.version == opt_view(*version)),
    {
        match self {
            DependencyInfo::Project(info) => opt_string_eq(&info.version, version),
            DependencyInfo::Package(info) => opt_string_eq(&info.version, version),
        }
    }
}

/// A target framework, by name.
#[derive(Debug, Clone, Hash)]
pub struct Framework {
    name: String,
}

impl View for Framework {
    type V = Seq<char>;

    closed spec fn view(&self) -> Seq<char> {
        self.name@
    }
}

impl PartialEq for Framework {
    fn eq(&self, other: &Self) -> (r: bool) {
        self.name == other.name
    }
}

impl vstd::std_specs::cmp::PartialEqSpecImpl for Framework {
    open spec fn obeys_eq_spec() -> bool {
        true
    }

    open spec fn eq_spec(&self, other: &Self) -> bool {
        self@ == other@
    }
}

impl Eq for Framework {

}

impl Framework {
    pub fn new(name: String) -> (r: Self)
        ensures
            r@ == name@,
    {
        Self { name }
    }

    pub fn get_name(&self) -> (r: &str)
        ensures
            r@ == self@,
    {
        self.name.as_str()
    }

    /// A copy of the framework.
    pub fn duplicate(&self) -> (r: Self)
        ensures
            r@ == self@,
    {
        Self { name: self.name.clone() }
    }
}

/// The abstract value of an edge.
pub struct EdgeView {
    pub from: IdView,
    pub to: IdView,
    pub framework: Seq<char>,
}

/// A relation: `from` needs `to` under a target framework.
#[derive(Debug, Clone)]
pub struct DepEdge {
    from: DependencyId,
    to: DependencyId,
    target_framework: Framework,
}

impl View for DepEdge {
    type V = EdgeView;

    closed spec fn view(&self) -> EdgeView {
        EdgeView { from: self.from@, to: self.to@, framework: self.target_framework@ }
    }
}

impl DepEdge {
    fn new(from: DependencyId, to: DependencyId, target_framework: Framework) -> (r: Self)
        ensures
            r@ == (EdgeView { from: from@, to: to@, framework: target_framework@ }),
    {
        Self { from, to, target_framework }
    }

    /// The dependency that is needed.
    pub fn get_id(&self) -> (r: &DependencyId)
        ensures
            r@ == self@.to,
    {
        &self.to
    }

    pub fn get_from(&self) -> (r: &DependencyId)
        ensures
            r@ == self@.from,
    {
        &self.from
    }

    pub fn get_to(&self) -> (r: &DependencyId)
        ensures
            r@ == self@.to,
    {
        &self.to
    }

    pub fn get_framework(&self) -> (r: &Framework)
        ensures
            r@ == self@.framework,
    {
        &self.target_framework
    }
}

/// The dependency asked for is not in the graph.
#[derive(Debug, Default)]
pub struct DependencyNotFound;

/// The relations of the graph form a cycle.
#[derive(Debug, Default)]
pub struct DependencyCycle;

/// Whether a dependency with the identifier `idv` is among `infos`.
pub open spec fn has_id(infos: Seq<InfoView>, idv: IdView) -> bool {
    exists|i: int| 0 <= i < infos.len() && #[trigger] id_of(infos[i]) == idv
}

/// The dependency with the identifier `idv` among `infos`.
pub open spec fn with_id(infos: Seq<InfoView>, idv: IdView) -> InfoView {
    infos[choose|i: int| 0 <= i < infos.len() && #[trigger] id_of(infos[i]) == idv]
}

/// The dependencies `infos` once `v` is ensured among them: unchanged when a
/// dependency with its identifier is there, with `v` at the end otherwise.
pub open spec fn added(infos: Seq<InfoView>, v: InfoView) -> Seq<InfoView> {
    if has_id(infos, id_of(v)) {
        infos
    } else {
        infos.push(v)
    }
}

/// No two dependencies have the same identifier.
pub open spec fn ids_distinct(infos: Seq<InfoView>) -> bool {
    forall|i: int, j: int|
        #![trigger infos[i], infos[j]]
        0 <= i < j < infos.len() ==> id_of(infos[i]) != id_of(infos[j])
}

/// Dependencies that share a name share their kind.
pub open spec fn kinds_consistent(infos: Seq<InfoView>) -> bool {
    forall|i: int, j: int|
        #![trigger infos[i], infos[j]]
        0 <= i < infos.len() && 0 <= j < infos.len() && infos[i].name == infos[j].name ==> infos[i].is_project
            == infos[j].is_project
}

/// Whether a dependency with the name of `v` but of the other kind is among
/// `infos`.
pub open spec fn kind_conflict(infos: Seq<InfoView>, v: InfoView) -> bool {
    exists|i: int| 0 <= i < infos.len() && #[trigger] infos[i].name == v.name && infos[i].is_project != v.is_project
}

/// `i` is the first dependency named `name`.
pub open spec fn is_first_named(infos: Seq<InfoView>, name: Seq<char>, i: int) -> bool {
    &&& 0 <= i < infos.len()
    &&& infos[i].name == name
    &&& forall|j: int| 0 <= j < i ==> #[trigger] infos[j].name != name
}

/// `i` is the first dependency named `name` with the version `ver`.
pub open spec fn is_first_matching(infos: Seq<InfoView>, name: Seq<char>, ver: Option<Seq<char>>, i: int) -> bool {
    &&& 0 <= i < infos.len()
    &&& infos[i].name == name
    &&& infos[i].version == ver
    &&& forall|j: int| 0 <= j < i ==> !(#[trigger] infos[j].name == name && infos[j].version == ver)
}

/// What asking for `name` at version `ver` does to dependencies `infos`: the
/// first dependency of that name and version comes back; failing that, when
/// a dependency has the name, one of the kind of the first such is added at
/// that version unless its identifier is taken, and the dependency with
/// that identifier comes back; with no dependency of that name, nothing.
pub open spec fn get_or_create_outcome(infos: Seq<InfoView>, name: Seq<char>, ver: Option<Seq<char>>) -> (
    Seq<InfoView>,
    Option<InfoView>,
) {
    if exists|i: int| is_first_matching(infos, name, ver, i) {
        (infos, Some(infos[choose|i: int| is_first_matching(infos, name, ver, i)]))
    } else if exists|i: int| is_first_named(infos, name, i) {
        let v = InfoView {
            is_project: infos[choose|i: int| is_first_named(infos, name, i)].is_project,
            name,
            version: ver,
        };
        (added(infos, v), Some(with_id(added(infos, v), id_of(v))))
    } else {
        (infos, None)
    }
}

/// The edges of `es` that leave `idv`, the most recently added first.
pub open spec fn edges_from(es: Seq<EdgeView>, idv: IdView) -> Seq<EdgeView>
    decreases es.len(),
{
    if es.len() == 0 {
        Seq::empty()
    } else {
        let rest = edges_from(es.drop_last(), idv);
        if es.last().from == idv {
            seq![es.last()] + rest
        } else {
            rest
        }
    }
}

/// The edges of `es` that enter `idv`, the most recently added first.
pub open spec fn edges_to(es: Seq<EdgeView>, idv: IdView) -> Seq<EdgeView>
    decreases es.len(),
{
    if es.len() == 0 {
        Seq::empty()
    } else {
        let rest = edges_to(es.drop_last(), idv);
        if es.last().to == idv {
            seq![es.last()] + rest
        } else {
            rest
        }
    }
}

/// The edges of `es` under the framework `fw`, in their order.
pub open spec fn in_framework(es: Seq<EdgeView>, fw: Seq<char>) -> Seq<EdgeView>
    decreases es.len(),
{
    if es.len() == 0 {
        Seq::empty()
    } else {
        let rest = in_framework(es.drop_last(), fw);
        if es.last().framework == fw {
            rest.push(es.last())
        } else {
            rest
        }
    }
}

/// The frameworks `fws` with `fw` added at the end, unless it is among them.
pub open spec fn with_framework(fws: Seq<Seq<char>>, fw: Seq<char>) -> Seq<Seq<char>> {
    if fws.contains(fw) {
        fws
    } else {
        fws.push(fw)
    }
}

/// The graph of dependencies keyed by their identifiers, with the relations
/// between them and the frameworks the relations hold under.
#[derive(Debug)]
pub struct DependencyGraph {
    graph: KeyedStableGraph,
    info: Vec<(DependencyId, DependencyInfo)>,
    frameworks: Vec<Framework>,
}

impl DependencyGraph {
    /// The dependencies, in the order in which they were added.
    pub closed spec fn infos(&self) -> Seq<InfoView> {
        self.info@.map_values(|p: (DependencyId, DependencyInfo)| p.1@)
    }

    /// The relations, in the order in which they were added.
    pub closed spec fn edges(&self) -> Seq<EdgeView> {
        keyed_edges(self.graph).map_values(|e: (u32, u32, u32, DepEdge)| e.3@)
    }

    /// The frameworks that relations were added under, each once.
    pub closed spec fn frameworks(&self) -> Seq<Seq<char>> {
        self.frameworks@.map_values(|f: Framework| f@)
    }

    /// The invariant of the graph.
    pub closed spec fn wf(&self) -> bool {
        let gn = keyed_nodes(self.graph);
        let ge = keyed_edges(self.graph);
        let n = self.info@.len();
        &&& keyed_compact(self.graph)
        &&& n <= u32::MAX
        &&& gn.dom().finite()
        &&& gn.dom().len() == n
        &&& forall|i: u32| #[trigger] gn.contains_key(i) <==> i < n
        &&& forall|i: int| #![trigger self.info@[i]] 0 <= i < n ==> self.info@[i].0@ == id_of(self.info@[i].1@)
        &&& ids_distinct(self.infos())
        &&& kinds_consistent(self.infos())
        &&& forall|k: int|
            #![trigger ge[k]]
            0 <= k < ge.len() ==> {
                &&& ge[k].1 < n
                &&& ge[k].2 < n
                &&& ge[k].3@.from == id_of(self.infos()[ge[k].1 as int])
                &&& ge[k].3@.to == id_of(self.infos()[ge[k].2 as int])
                &&& self.frameworks().contains(ge[k].3@.framework)
            }
        &&& self.frameworks().no_duplicates()
    }

    /// A graph without dependencies, relations or frameworks.
    pub fn new() -> (g: Self)
        ensures
            g.wf(),
            g.infos().len() == 0,
            g.edges().len() == 0,
            g.frameworks().len() == 0,
    {
        let g = Self { graph: keyed_new(), info: Vec::new(), frameworks: Vec::new() };
        assert(g.edges() =~= Seq::<EdgeView>::empty());
        g
    }

    /// Where the dependency with identifier `id` stands, if it is in the graph.
    fn position(&self, id: &DependencyId) -> (r: Option<usize>)
        requires
            self.wf(),
        ensures
            match r {
                Some(i) => i < self.infos().len() && id_of(self.infos()[i as int]) == id@,
                None => !has_id(self.infos(), id@),
            },
    {
        let n = self.info.len();
        let mut i: usize = 0;
        while i < n
            invariant
                n == self.info@.len(),
                self.wf(),
                i <= n,
                forall|j: int| 0 <= j < i ==> id_of(#[trigger] self.infos()[j]) != id@,
            decreases n - i,
        {
            assert(self.info@[i as int].0@ == id_of(self.infos()[i as int]));
            if self.info[i].0 == *id {
                return Some(i);
            }
            i = i + 1;
        }
        None
    }

    /// Ensures a dependency is in the graph and gives back its identifier.
    /// A dependency whose identifier is in the graph already is not added
    /// again. One whose name a dependency of the other kind has is refused by
    /// `requires`: the graph cannot hold both.
    fn add_dependency(&mut self, dependency: DependencyInfo) -> (r: DependencyId)
        requires
            old(self).wf(),
            !kind_conflict(old(self).infos(), dependency@),
            old(self).infos().len() < u32::MAX,
        ensures
            final(self).wf(),
            r@ == id_of(dependency@),
            final(self).infos() == added(old(self).infos(), dependency@),
            final(self).edges() == old(self).edges(),
            final(self).frameworks() == old(self).frameworks(),
    {
        let id = dependency.id();
        if self.position(&id).is_some() {
            return id;
        }
        let ghost infos = self.infos();
        let ghost v = dependency@;
        let ghost n = self.info@.len();
        proof {
            assert forall|i: u32| #[trigger] keyed_nodes(self.graph).contains_key(i) <==> i < n by {}
        }
        let ix = keyed_add_node(&mut self.graph, id.duplicate());
        self.info.push((id.duplicate(), dependency));
        proof {
            assert(self.infos() =~= infos.push(v));
            assert(keyed_edges(self.graph) == keyed_edges(old(self).graph));
            assert(self.edges() =~= old(self).edges());
            let ni = self.infos();
            assert forall|a: int, b: int| 0 <= a < b < ni.len() implies id_of(#[trigger] ni[a]) != id_of(
                #[trigger] ni[b],
            ) by {
                if b < n {
                    assert(infos[a] == ni[a] && infos[b] == ni[b]);
                } else {
                    assert(ni[b] == v);
                    assert(infos[a] == ni[a]);
                }
            }
            assert forall|a: int, b: int|
                0 <= a < ni.len() && 0 <= b < ni.len() && (#[trigger] ni[a]).name == (#[trigger] ni[b]).name
                implies ni[a].is_project == ni[b].is_project by {
                if a < n && b < n {
                    assert(infos[a] == ni[a] && infos[b] == ni[b]);
                } else if a < n {
                    assert(infos[a] == ni[a]);
                } else if b < n {
                    assert(infos[b] == ni[b]);
                }
            }
            assert forall|i: int| #![trigger self.info@[i]] 0 <= i < self.info@.len() implies self.info@[i].0@
                == id_of(self.info@[i].1@) by {
                if i < n {
                    assert(self.info@[i] == old(self).info@[i]);
                }
            }
            let ge = keyed_edges(self.graph);
            assert forall|k: int| #![trigger ge[k]] 0 <= k < ge.len() implies ge[k].3@.from == id_of(
                ni[ge[k].1 as int],
            ) && ge[k].3@.to == id_of(ni[ge[k].2 as int]) by {
                assert(ni[ge[k].1 as int] == infos[ge[k].1 as int]);
                assert(ni[ge[k].2 as int] == infos[ge[k].2 as int]);
            }
        }
        id
    }

    /// Ensures the project at `path` is in the graph and gives back its
    /// identifier; the version of a project that is there already stays.
    pub fn add_project(&mut self, path: String, version: Option<String>) -> (r: DependencyId)
        requires
            old(self).wf(),
            !kind_conflict(old(self).infos(), InfoView { is_project: true, name: path@, version: opt_view(version) }),
            old(self).infos().len() < u32::MAX,
        ensures
            final(self).wf(),
            r@ == IdView::Project(path@),
            final(self).infos() == added(
                old(self).infos(),
                InfoView { is_project: true, name: path@, version: opt_view(version) },
            ),
            final(self).edges() == old(self).edges(),
            final(self).frameworks() == old(self).frameworks(),
    {
        let project = DependencyInfo::Project(ProjectInfo::new(path, version));
        self.add_dependency(project)
    }

    /// Ensures the package `name` at `version` is in the graph and gives back
    /// its identifier.
    pub fn add_package(&mut self, name: String, version: Option<String>) -> (r: DependencyId)
        requires
            old(self).wf(),
            !kind_conflict(old(self).infos(), InfoView { is_project: false, name: name@, version: opt_view(version) }),
            old(self).infos().len() < u32::MAX,
        ensures
            final(self).wf(),
            r@ == IdView::Package(name@, opt_view(version)),
            final(self).infos() == added(
                old(self).infos(),
                InfoView { is_project: false, name: name@, version: opt_view(version) },
            ),
            final(self).edges() == old(self).edges(),
            final(self).frameworks() == old(self).frameworks(),
    {
        let lib = DependencyInfo::Package(PackageInfo::new(name, version));
        self.add_dependency(lib)
    }

    /// The dependencies with their identifiers, in the order in which they
    /// were added.
    pub fn iter(&self) -> (r: Vec<(&DependencyId, &DependencyInfo)>)
        requires
            self.wf(),
        ensures
            r@.len() == self.infos().len(),
            forall|i: int|
                #![trigger r@[i]]
                0 <= i < r@.len() ==> r@[i].1@ == self.infos()[i] && r@[i].0@ == id_of(self.infos()[i]),
    {
        let mut r: Vec<(&DependencyId, &DependencyInfo)> = Vec::new();
        let n = self.info.len();
        for i in 0..n
            invariant
                n == self.info@.len(),
                self.wf(),
                r@.len() == i,
                forall|k: int|
                    #![trigger r@[k]]
                    0 <= k < i ==> r@[k].1@ == self.infos()[k] && r@[k].0@ == id_of(self.infos()[k]),
        {
            assert(self.info@[i as int].0@ == id_of(self.info@[i as int].1@));
            r.push((&self.info[i].0, &self.info[i].1));
        }
        r
    }

    /// The frameworks that relations were added under, each once, in the
    /// order in which they first came.
    pub fn iter_frameworks(&self) -> (r: Vec<&Framework>)
        ensures
            r@.map_values(|f: &Framework| f@) == self.frameworks(),
    {
        let mut r: Vec<&Framework> = Vec::new();
        let n = self.frameworks.len();
        for i in 0..n
            invariant
                n == self.frameworks@.len(),
                r@.map_values(|f: &Framework| f@) == self.frameworks().take(i as int),
        {
            let ghost before = r@;
            r.push(&self.frameworks[i]);
            assert(r@ == before.push(&self.frameworks@[i as int]));
            assert(r@.map_values(|f: &Framework| f@) =~= before.map_values(|f: &Framework| f@).push(
                self.frameworks@[i as int]@,
            ));
            assert(r@.map_values(|f: &Framework| f@) =~= self.frameworks().take(i + 1));
        }
        assert(self.frameworks().take(n as int) =~= self.frameworks());
        r
    }

    /// Records that `from` needs `to` under `framework`, when both are in the
    /// graph; the framework joins the frameworks of the graph.
    pub fn add_relation(&mut self, from: DependencyId, to: DependencyId, framework: Framework) -> (r: Result<
        (),
        DependencyNotFound,
    >)
        requires
            old(self).wf(),
            has_id(old(self).infos(), from@) && has_id(old(self).infos(), to@) ==> old(self).edges().len()
                < u32::MAX,
        ensures
            final(self).wf(),
            final(self).infos() == old(self).infos(),
            if has_id(old(self).infos(), from@) && has_id(old(self).infos(), to@) {
                &&& r is Ok
                &&& final(self).edges() == old(self).edges().push(
                    EdgeView { from: from@, to: to@, framework: framework@ },
                )
                &&& final(self).frameworks() == with_framework(old(self).frameworks(), framework@)
            } else {
                &&& r is Err
                &&& final(self).edges() == old(self).edges()
                &&& final(self).frameworks() == old(self).frameworks()
            },
    {
        let source = self.position(&from);
        let target = self.position(&to);
        match (source, target) {
            (Some(a), Some(b)) => {
                let ghost fws = self.frameworks();
                self.insert_framework(&framework);
                let edge = DepEdge::new(from, to, framework);
                let ghost ev = edge@;
                let ghost ge = keyed_edges(self.graph);
                let _ = keyed_add_edge(&mut self.graph, a as u32, b as u32, edge);
                proof {
                    assert(self.edges() =~= old(self).edges().push(ev));
                    let ge2 = keyed_edges(self.graph);
                    assert forall|k: int| #![trigger ge2[k]] 0 <= k < ge2.len() implies {
                        &&& ge2[k].1 < self.info@.len()
                        &&& ge2[k].2 < self.info@.len()
                        &&& ge2[k].3@.from == id_of(self.infos()[ge2[k].1 as int])
                        &&& ge2[k].3@.to == id_of(self.infos()[ge2[k].2 as int])
                        &&& self.frameworks().contains(ge2[k].3@.framework)
                    } by {
                        if k < ge.len() {
                            assert(ge2[k] == ge[k]);
                            let x = ge[k].3@.framework;
                            if !fws.contains(framework@) {
                                let j = choose|j: int| 0 <= j < fws.len() && fws[j] == x;
                                assert(self.frameworks()[j] == x);
                            }
                        } else {
                            assert(ge2[k].3@ == ev);
                            if !fws.contains(framework@) {
                                assert(self.frameworks()[fws.len() as int] == framework@);
                            }
                        }
                    }
                }
                Ok(())
            },
            _ => Err(DependencyNotFound),
        }
    }

    /// Adds a framework to those of the graph unless it is among them.
    fn insert_framework(&mut self, framework: &Framework)
        requires
            old(self).wf(),
        ensures
            final(self).frameworks() == with_framework(old(self).frameworks(), framework@),
            final(self).graph == old(self).graph,
            final(self).info == old(self).info,
            final(self).wf(),
    {
        let ghost fws = self.frameworks();
        let n = self.frameworks.len();
        let mut i: usize = 0;
        while i < n
            invariant
                n == self.frameworks@.len(),
                fws == self.frameworks(),
                self.wf(),
                i <= n,
                forall|j: int| 0 <= j < i ==> fws[j] != framework@,
            decreases n - i,
        {
            if self.frameworks[i] == *framework {
                assert(fws[i as int] == framework@);
                return;
            }
            i = i + 1;
        }
        self.frameworks.push(framework.duplicate());
        proof {
            assert(self.frameworks() =~= fws.push(framework@));
            assert(!fws.contains(framework@));
            let ge = keyed_edges(self.graph);
            assert forall|k: int| #![trigger ge[k]] 0 <= k < ge.len() implies self.frameworks().contains(
                ge[k].3@.framework,
            ) by {
                let j = choose|j: int| 0 <= j < fws.len() && fws[j] == ge[k].3@.framework;
                assert(self.frameworks()[j] == fws[j]);
            }
        }
    }

    /// The position of a dependency that is in the graph.
    fn position_of_present(&self, id: &DependencyId) -> (i: usize)
        requires
            self.wf(),
            has_id(self.infos(), id@),
        ensures
            i < self.infos().len(),
            id_of(self.infos()[i as int]) == id@,
    {
        match self.position(id) {
            Some(i) => i,
            None => {
                assert(false);
                0
            },
        }
    }

    /// The relations that leave a dependency of the graph, the most recently
    /// added first. A dependency that is not in the graph is refused by
    /// `requires`.
    fn get_direct_dependencies(&self, id: &DependencyId) -> (r: Vec<&DepEdge>)
        requires
            self.wf(),
            has_id(self.infos(), id@),
        ensures
            r@.map_values(|e: &DepEdge| e@) == edges_from(self.edges(), id@),
    {
        let i = self.position_of_present(id);
        let out = keyed_outgoing(&self.graph, i as u32);
        proof {
            let ge = keyed_edges(self.graph);
            assert forall|k: int| 0 <= k < ge.len() implies (#[trigger] ge[k].1 == i as u32) == (ge[k].3@.from
                == id@) by {
                let a = ge[k].1 as int;
                if a < i {
                    assert(id_of(self.infos()[a]) != id_of(self.infos()[i as int]));
                } else if a > i {
                    assert(id_of(self.infos()[i as int]) != id_of(self.infos()[a]));
                }
            }
            lemma_out_views(ge, i as u32, id@);
            assert(out@.map_values(|e: &DepEdge| e@) =~= out@.map_values(|e: &DepEdge| *e).map_values(
                |e: DepEdge| e@,
            ));
        }
        out
    }

    /// The relations that leave a dependency of the graph under a framework,
    /// the most recently added first.
    pub fn get_direct_dependencies_in_framework(&self, id: &DependencyId, framework: Framework) -> (r: Vec<
        &DepEdge,
    >)
        requires
            self.wf(),
            has_id(self.infos(), id@),
        ensures
            r@.map_values(|e: &DepEdge| e@) == in_framework(edges_from(self.edges(), id@), framework@),
    {
        let all = self.get_direct_dependencies(id);
        let ghost es = edges_from(self.edges(), id@);
        let mut r: Vec<&DepEdge> = Vec::new();
        let n = all.len();
        for i in 0..n
            invariant
                n == all@.len(),
                all@.map_values(|e: &DepEdge| e@) == es,
                r@.map_values(|e: &DepEdge| e@) == in_framework(es.take(i as int), framework@),
        {
            proof {
                assert(es.take(i + 1).drop_last() =~= es.take(i as int));
                assert(all@[i as int]@ == es[i as int]);
            }
            let ghost before = r@;
            if *all[i].get_framework() == framework {
                r.push(all[i]);
                assert(r@.map_values(|e: &DepEdge| e@) =~= before.map_values(|e: &DepEdge| e@).push(
                    es[i as int],
                ));
            }
        }
        assert(es.take(n as int) =~= es);
        r
    }

    /// The relations that enter a dependency of the graph, the most recently
    /// added first. A dependency that is not in the graph is refused by
    /// `requires`.
    pub fn get_direct_reverse_dependencies(&self, id: &DependencyId) -> (r: Vec<&DepEdge>)
        requires
            self.wf(),
            has_id(self.infos(), id@),
        ensures
            r@.map_values(|e: &DepEdge| e@) == edges_to(self.edges(), id@),
    {
        let i = self.position_of_present(id);
        let inc = keyed_incoming(&self.graph, i as u32);
        proof {
            let ge = keyed_edges(self.graph);
            assert forall|k: int| 0 <= k < ge.len() implies (#[trigger] ge[k].2 == i as u32) == (ge[k].3@.to
                == id@) by {
                let a = ge[k].2 as int;
                if a < i {
                    assert(id_of(self.infos()[a]) != id_of(self.infos()[i as int]));
                } else if a > i {
                    assert(id_of(self.infos()[i as int]) != id_of(self.infos()[a]));
                }
            }
            lemma_in_views(ge, i as u32, id@);
            assert(inc@.map_values(|e: &DepEdge| e@) =~= inc@.map_values(|e: &DepEdge| *e).map_values(
                |e: DepEdge| e@,
            ));
        }
        inc
    }

    /// The dependency named `name` at `version`: the first one of that name
    /// and version; failing that, when a dependency has the name, one of the
    /// kind of the first such, added at that version unless its identifier is
    /// taken (a project's identifier is its path alone), in which case the
    /// dependency with that identifier; nothing when no dependency has the
    /// name.
    pub fn get_or_create(&mut self, name: &str, version: Option<String>) -> (r: Option<&DependencyInfo>)
        requires
            old(self).wf(),
            old(self).infos().len() < u32::MAX,
        ensures
            final(self).wf(),
            final(self).infos() == get_or_create_outcome(old(self).infos(), name@, opt_view(version)).0,
            match r {
                Some(d) => get_or_create_outcome(old(self).infos(), name@, opt_view(version)).1 == Some(d@),
                None => get_or_create_outcome(old(self).infos(), name@, opt_view(version)).1 is None,
            },
            final(self).edges() == old(self).edges(),
            final(self).frameworks() == old(self).frameworks(),
    {
        match self.get_or_create_position(name, version) {
            Some(i) => Some(&self.info[i].1),
            None => None,
        }
    }

    /// Where the dependency that `get_or_create` gives back stands.
    fn get_or_create_position(&mut self, name: &str, version: Option<String>) -> (r: Option<usize>)
        requires
            old(self).wf(),
            old(self).infos().len() < u32::MAX,
        ensures
            final(self).wf(),
            final(self).infos() == get_or_create_outcome(old(self).infos(), name@, opt_view(version)).0,
            match r {
                Some(i) => i < final(self).infos().len() && get_or_create_outcome(
                    old(self).infos(),
                    name@,
                    opt_view(version),
                ).1 == Some(final(self).infos()[i as int]),
                None => get_or_create_outcome(old(self).infos(), name@, opt_view(version)).1 is None,
            },
            final(self).edges() == old(self).edges(),
            final(self).frameworks() == old(self).frameworks(),
    {
        let ghost infos = self.infos();
        let ghost vv = opt_view(version);
        let name_s = name.to_owned();
        let n = self.info.len();
        let mut i: usize = 0;
        while i < n
            invariant
                n == self.info@.len(),
                *self == *old(self),
                old(self).wf(),
                infos == self.infos(),
                vv == opt_view(version),
                name_s@ == name@,
                i <= n,
                forall|j: int| 0 <= j < i ==> !(#[trigger] infos[j].name == name@ && infos[j].version == vv),
            decreases n - i,
        {
            if *self.info[i].1.name_string() == name_s && self.info[i].1.version_is(&version) {
                proof {
                    assert(is_first_matching(infos, name@, vv, i as int));
                    let c = choose|c: int| is_first_matching(infos, name@, vv, c);
                    if c < i {
                        assert(infos[c].name == name@ && infos[c].version == vv);
                    } else if c > i {
                        assert(!(infos[i as int].name == name@ && infos[i as int].version == vv));
                    }
                }
                return Some(i);
            }
            i = i + 1;
        }
        proof {
            assert(!exists|c: int| is_first_matching(infos, name@, vv, c)) by {
                if exists|c: int| is_first_matching(infos, name@, vv, c) {
                    let c = choose|c: int| is_first_matching(infos, name@, vv, c);
                    assert(infos[c].name == name@ && infos[c].version == vv);
                }
            }
        }
        let mut f: usize = 0;
        while f < n && !(*self.info[f].1.name_string() == name_s)
            invariant
                n == self.info@.len(),
                *self == *old(self),
                old(self).wf(),
                infos == self.infos(),
                name_s@ == name@,
                f <= n,
                forall|j: int| 0 <= j < f ==> #[trigger] infos[j].name != name@,
            decreases n - f,
        {
            f = f + 1;
        }
        if f == n {
            proof {
                assert(!exists|c: int| is_first_named(infos, name@, c)) by {
                    if exists|c: int| is_first_named(infos, name@, c) {
                        let c = choose|c: int| is_first_named(infos, name@, c);
                        assert(infos[c].name == name@);
                    }
                }
            }
            return None;
        }
        let is_project = self.info[f].1.is_project();
        let ghost v = InfoView { is_project: infos[f as int].is_project, name: name@, version: vv };
        proof {
            assert(is_first_named(infos, name@, f as int));
            let c = choose|c: int| is_first_named(infos, name@, c);
            if c < f {
                assert(infos[c].name == name@);
            } else if c > f {
                assert(infos[f as int].name != name@);
            }
            assert(!kind_conflict(infos, v)) by {
                if kind_conflict(infos, v) {
                    let k = choose|k: int| 0 <= k < infos.len() && #[trigger] infos[k].name == v.name
                        && infos[k].is_project != v.is_project;
                    assert(infos[k].name == infos[f as int].name);
                }
            }
        }
        let dep = if is_project {
            DependencyInfo::Project(ProjectInfo::new(name_s, version))
        } else {
            DependencyInfo::Package(PackageInfo::new(name_s, version))
        };
        assert(dep@ == v);
        let id = self.add_dependency(dep);
        proof {
            if !has_id(infos, id_of(v)) {
                assert(self.infos()[n as int] == v);
            }
        }
        let p = self.position_of_present(&id);
        proof {
            if has_id(infos, id_of(v)) {
                lemma_with_id(infos, p as int);
            } else {
                if p < n {
                    assert(id_of(infos[p as int]) == id_of(v));
                }
            }
        }
        Some(p)
    }

    /// The dependency with the identifier, if it is in the graph.
    pub fn get(&self, id: &DependencyId) -> (r: Option<&DependencyInfo>)
        requires
            self.wf(),
        ensures
            match r {
                Some(d) => has_id(self.infos(), id@) && d@ == with_id(self.infos(), id@),
                None => !has_id(self.infos(), id@),
            },
    {
        match self.position(id) {
            Some(i) => {
                proof {
                    lemma_with_id(self.infos(), i as int);
                }
                Some(&self.info[i].1)
            },
            None => None,
        }
    }
}

impl Default for DependencyGraph {
    fn default() -> (g: Self)
        ensures
            g.wf(),
            g.infos().len() == 0,
            g.edges().len() == 0,
            g.frameworks().len() == 0,
    {
        Self::new()
    }
}

/// The weights of the edges that leave node `a` are the edges that leave
/// `idv`, when the edges that leave `a` are those whose source is `idv`.
proof fn lemma_out_views(ge: Seq<(u32, u32, u32, DepEdge)>, a: u32, idv: IdView)
    requires
        forall|k: int| 0 <= k < ge.len() ==> (#[trigger] ge[k].1 == a) == (ge[k].3@.from == idv),
    ensures
        out_weights(ge, a).map_values(|e: DepEdge| e@) == edges_from(
            ge.map_values(|e: (u32, u32, u32, DepEdge)| e.3@),
            idv,
        ),
    decreases ge.len(),
{
    if ge.len() > 0 {
        let gd = ge.drop_last();
        assert forall|k: int| 0 <= k < gd.len() implies (#[trigger] gd[k].1 == a) == (gd[k].3@.from == idv) by {
            assert(gd[k] == ge[k]);
        }
        lemma_out_views(gd, a, idv);
        assert(ge.map_values(|e: (u32, u32, u32, DepEdge)| e.3@).drop_last() =~= gd.map_values(
            |e: (u32, u32, u32, DepEdge)| e.3@,
        ));
        assert(ge.last() == ge[ge.len() - 1]);
        let rest = out_weights(gd, a);
        if ge.last().1 == a {
            assert((seq![ge.last().3] + rest).map_values(|e: DepEdge| e@) =~= seq![ge.last().3@]
                + rest.map_values(|e: DepEdge| e@));
        }
    } else {
        assert(out_weights(ge, a).map_values(|e: DepEdge| e@) =~= Seq::<EdgeView>::empty());
    }
}

/// The weights of the edges that enter node `a` are the edges that enter
/// `idv`, when the edges that enter `a` are those whose target is `idv`.
proof fn lemma_in_views(ge: Seq<(u32, u32, u32, DepEdge)>, a: u32, idv: IdView)
    requires
        forall|k: int| 0 <= k < ge.len() ==> (#[trigger] ge[k].2 == a) == (ge[k].3@.to == idv),
    ensures
        in_weights(ge, a).map_values(|e: DepEdge| e@) == edges_to(
            ge.map_values(|e: (u32, u32, u32, DepEdge)| e.3@),
            idv,
        ),
    decreases ge.len(),
{
    if ge.len() > 0 {
        let gd = ge.drop_last();
        assert forall|k: int| 0 <= k < gd.len() implies (#[trigger] gd[k].2 == a) == (gd[k].3@.to == idv) by {
            assert(gd[k] == ge[k]);
        }
        lemma_in_views(gd, a, idv);
        assert(ge.map_values(|e: (u32, u32, u32, DepEdge)| e.3@).drop_last() =~= gd.map_values(
            |e: (u32, u32, u32, DepEdge)| e.3@,
        ));
        assert(ge.last() == ge[ge.len() - 1]);
        let rest = in_weights(gd, a);
        if ge.last().2 == a {
            assert((seq![ge.last().3] + rest).map_values(|e: DepEdge| e@) =~= seq![ge.last().3@]
                + rest.map_values(|e: DepEdge| e@));
        }
    } else {
        assert(in_weights(ge, a).map_values(|e: DepEdge| e@) =~= Seq::<EdgeView>::empty());
    }
}

/// Ensuring a dependency puts it in the graph: afterwards a dependency with
/// its identifier is there, the dependency itself when none was, and the
/// identifiers stay distinct.
pub proof fn lemma_added_present(infos: Seq<InfoView>, v: InfoView)
    requires
        ids_distinct(infos),
    ensures
        has_id(added(infos, v), id_of(v)),
        ids_distinct(added(infos, v)),
        !has_id(infos, id_of(v)) ==> with_id(added(infos, v), id_of(v)) == v,
        has_id(infos, id_of(v)) ==> with_id(added(infos, v), id_of(v)) == with_id(infos, id_of(v)),
{
    let a = added(infos, v);
    if !has_id(infos, id_of(v)) {
        let n = infos.len() as int;
        assert(a[n] == v);
        assert forall|i: int, j: int| 0 <= i < j < a.len() implies id_of(#[trigger] a[i]) != id_of(#[trigger] a[j]) by {
            if j < n {
                assert(a[i] == infos[i] && a[j] == infos[j]);
            } else {
                assert(a[i] == infos[i]);
            }
        }
        lemma_with_id(a, n);
    }
}

/// Ensuring the same dependency twice does what ensuring it once does.
pub proof fn lemma_added_idempotent(infos: Seq<InfoView>, v: InfoView)
    ensures
        added(added(infos, v), v) == added(infos, v),
{
    if !has_id(infos, id_of(v)) {
        assert(id_of(added(infos, v)[infos.len() as int]) == id_of(v));
    }
}

/// A relation just added is the first of those that leave its source and of
/// those that enter its target.
pub proof fn lemma_relation_listed_first(es: Seq<EdgeView>, e: EdgeView)
    ensures
        edges_from(es.push(e), e.from) == seq![e] + edges_from(es, e.from),
        edges_to(es.push(e), e.to) == seq![e] + edges_to(es, e.to),
{
    assert(es.push(e).drop_last() =~= es);
}

/// Asking for the same name and version a second time changes nothing more
/// and gives back what the first time gave.
pub proof fn lemma_get_or_create_idempotent(infos: Seq<InfoView>, name: Seq<char>, ver: Option<Seq<char>>)
    requires
        ids_distinct(infos),
    ensures
        get_or_create_outcome(get_or_create_outcome(infos, name, ver).0, name, ver) == get_or_create_outcome(
            infos,
            name,
            ver,
        ),
{
    if exists|i: int| is_first_matching(infos, name, ver, i) {
    } else if exists|i: int| is_first_named(infos, name, i) {
        let f = choose|i: int| is_first_named(infos, name, i);
        let v = InfoView { is_project: infos[f].is_project, name, version: ver };
        let a = added(infos, v);
        lemma_added_present(infos, v);
        if has_id(infos, id_of(v)) {
        } else {
            let n = infos.len() as int;
            assert(a[n] == v);
            assert(is_first_matching(a, name, ver, n)) by {
                assert forall|j: int| 0 <= j < n implies !(#[trigger] a[j].name == name && a[j].version == ver) by {
                    assert(a[j] == infos[j]);
                    if a[j].name == name && a[j].version == ver {
                        let j0 = j;
                        lemma_first_matching_exists(infos, name, ver, j0);
                    }
                }
            }
            let c = choose|c: int| is_first_matching(a, name, ver, c);
            if c < n {
                assert(a[c] == infos[c]);
                lemma_first_matching_exists(infos, name, ver, c);
            } else if c > n {
            }
            assert(with_id(a, id_of(v)) == v);
        }
    } else {
    }
}

/// When some dependency matches a name and version, a first one does.
proof fn lemma_first_matching_exists(infos: Seq<InfoView>, name: Seq<char>, ver: Option<Seq<char>>, j: int)
    requires
        0 <= j < infos.len(),
        infos[j].name == name,
        infos[j].version == ver,
    ensures
        exists|i: int| is_first_matching(infos, name, ver, i),
    decreases j,
{
    if exists|k: int| 0 <= k < j && #[trigger] infos[k].name == name && infos[k].version == ver {
        let k = choose|k: int| 0 <= k < j && #[trigger] infos[k].name == name && infos[k].version == ver;
        lemma_first_matching_exists(infos, name, ver, k);
    } else {
        assert(is_first_matching(infos, name, ver, j));
    }
}

/// Under distinct identifiers, the dependency with the identifier of the one
/// at `i` is that one.
proof fn lemma_with_id(infos: Seq<InfoView>, i: int)
    requires
        ids_distinct(infos),
        0 <= i < infos.len(),
    ensures
        has_id(infos, id_of(infos[i])),
        with_id(infos, id_of(infos[i])) == infos[i],
{
    let idv = id_of(infos[i]);
    assert(id_of(infos[i]) == idv);
    let c = choose|c: int| 0 <= c < infos.len() && #[trigger] id_of(infos[c]) == idv;
    if c < i {
        assert(id_of(infos[c]) != id_of(infos[i]));
    } else if c > i {
        assert(id_of(infos[i]) != id_of(infos[c]));
    }
}

} // verus!
