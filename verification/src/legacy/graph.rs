//! Package ids, kinds of dependencies, and the graph that hands out a
//! numeric identifier to each dependency it is given.

pub mod dependency_graph;
mod keyed_stable;

use vstd::prelude::*;

use crate::graph::dependency_graph::opt_string_eq;
use crate::graph::dependency_graph::opt_view;

verus! {

/// A package and its version.
#[derive(Debug, Clone, Hash)]
pub struct PackageId {
    pub name: String,
    pub version: Option<String>,
}

impl PartialEq for PackageId {
    fn eq(&self, other: &Self) -> (r: bool) {
        self.name == other.name && opt_string_eq(&self.version, &other.version)
    }
}

impl vstd::std_specs::cmp::PartialEqSpecImpl for PackageId {
    open spec fn obeys_eq_spec() -> bool {
        true
    }

    open spec fn eq_spec(&self, other: &Self) -> bool {
        self.name@ == other.name@ && opt_view(self.version) == opt_view(other.version)
    }
}

impl Eq for PackageId {

}

/// The abstract value of a dependency of the numbering graph: whether it is a
/// project, its path or name, and its version (none for a project).
pub struct InfoView {
    pub is_project: bool,
    pub name: Seq<char>,
    pub version: Option<Seq<char>>,
}

/// A dependency of the numbering graph: a project by its path, or a package.
#[derive(Debug, Clone, Hash)]
pub enum DependencyInfo {
    Project { path: String },
    Package(PackageId),
}

impl View for DependencyInfo {
    type V = InfoView;

    open spec fn view(&self) -> InfoView {
        match self {
            DependencyInfo::Project { path } => InfoView { is_project: true, name: path@, version: None },
            DependencyInfo::Package(p) => InfoView { is_project: false, name: p.name@, version: opt_view(p.version) },
        }
    }
}

impl PartialEq for DependencyInfo {
    fn eq(&self, other: &Self) -> (r: bool) {
        match (self, other) {
            (DependencyInfo::Project { path: a }, DependencyInfo::Project { path: b }) => *a == *b,
            (DependencyInfo::Package(a), DependencyInfo::Package(b)) => *a == *b,
            _ => false,
        }
    }
}

impl vstd::std_specs::cmp::PartialEqSpecImpl for DependencyInfo {
    open spec fn obeys_eq_spec() -> bool {
        true
    }

    open spec fn eq_spec(&self, other: &Self) -> bool {
        self@ == other@
    }
}

impl Eq for DependencyInfo {

}

impl DependencyInfo {
    /// A copy of the dependency.
    pub fn duplicate(&self) -> (r: Self)
        ensures
            r@ == self@,
    {
        match self {
            DependencyInfo::Project { path } => DependencyInfo::Project { path: path.clone() },
            DependencyInfo::Package(p) => DependencyInfo::Package(
                PackageId { name: p.name.clone(), version: crate::graph::dependency_graph::clone_opt_string(&p.version) },
            ),
        }
    }
}

/// How a dependency is reached.
#[derive(Debug, Clone, Copy, PartialEq, Eq, Structural)]
pub enum DependencyKind {
    Direct,
    Transitive,
    ProjectReference,
    FrameworkReference,
}

/// A dependency relation: how it is reached, the version it asks for, the
/// framework it holds under, and whether it is needed at run time.
#[derive(Debug, Clone)]
pub struct DepEdge {
    pub kind: DependencyKind,
    pub version_req: Option<String>,
    pub target_framework: Option<String>,
    pub runtime: bool,
}

/// Identifier of a dependency, handed out in order.
#[derive(Debug, Clone, Copy, PartialEq, Eq, Hash, Structural)]
pub struct DependencyId {
    pub id: usize,
}

impl DependencyId {
    pub fn new(id: usize) -> (r: Self)
        ensures
            r.id == id,
    {
        Self { id }
    }
}

/// Hands out identifiers 0, 1, 2, ... in turn.
#[derive(Debug)]
pub struct IncrementingIdFactory {
    next_id: usize,
}

impl IncrementingIdFactory {
    /// The identifier that comes next.
    pub closed spec fn next(&self) -> usize {
        self.next_id
    }

    /// A factory whose first identifier is 0.
    pub fn new() -> (r: Self)
        ensures
            r.next() == 0,
    {
        Self { next_id: 0 }
    }

    /// The next identifier; the one after it comes next.
    pub fn get_new_id(&mut self) -> (r: DependencyId)
        requires
            old(self).next() < usize::MAX,
        ensures
            r.id == old(self).next(),
            final(self).next() == old(self).next() + 1,
    {
        let id = self.next_id;
        self.next_id = self.next_id + 1;
        DependencyId::new(id)
    }
}

/// The value that the first pair with key `k` holds, if any.
pub open spec fn assoc<K, V>(s: Seq<(K, V)>, k: K) -> Option<V>
    decreases s.len(),
{
    if s.len() == 0 {
        None
    } else if s[0].0 == k {
        Some(s[0].1)
    } else {
        assoc(s.drop_first(), k)
    }
}

/// Appending a pair changes only the value of a key that had none.
proof fn lemma_assoc_push<K, V>(s: Seq<(K, V)>, k: K, v: V, q: K)
    ensures
        assoc(s.push((k, v)), q) == match assoc(s, q) {
            Some(w) => Some(w),
            None => if q == k {
                Some(v)
            } else {
                None
            },
        },
    decreases s.len(),
{
    if s.len() > 0 {
        assert(s.push((k, v)).drop_first() =~= s.drop_first().push((k, v)));
        assert(s.push((k, v))[0] == s[0]);
        lemma_assoc_push(s.drop_first(), k, v, q);
    } else {
        let t = s.push((k, v));
        assert(t.drop_first() =~= Seq::<(K, V)>::empty());
        assert(assoc(t.drop_first(), q) is None);
        assert(assoc(s, q) is None);
    }
}

/// Replacing the first pair with key `k` changes only the value of `k`.
proof fn lemma_assoc_update<K, V>(s: Seq<(K, V)>, j: int, k: K, v: V, q: K)
    requires
        0 <= j < s.len(),
        s[j].0 == k,
        forall|m: int| 0 <= m < j ==> s[m].0 != k,
    ensures
        assoc(s.update(j, (k, v)), q) == if q == k {
            Some(v)
        } else {
            assoc(s, q)
        },
    decreases s.len(),
{
    if j > 0 {
        assert(s.update(j, (k, v)).drop_first() =~= s.drop_first().update(j - 1, (k, v)));
        lemma_assoc_update(s.drop_first(), j - 1, k, v, q);
    } else {
        assert(s.update(0, (k, v)).drop_first() =~= s.drop_first());
    }
}

/// Where the first pair with key `k` stands, if any.
proof fn lemma_assoc_first<K, V>(s: Seq<(K, V)>, j: int, k: K)
    requires
        0 <= j <= s.len(),
        forall|m: int| 0 <= m < j ==> s[m].0 != k,
    ensures
        j < s.len() && s[j].0 == k ==> assoc(s, k) == Some(s[j].1),
        j == s.len() ==> assoc(s, k) is None,
    decreases j,
{
    if j > 0 {
        lemma_assoc_first(s.drop_first(), j - 1, k);
    } else if s.len() > 0 {
    }
}

/// The graph that numbers dependencies: each dependency it is given gets the
/// next identifier, and the same dependency keeps the identifier it got
/// first; each identifier may carry a list of direct dependencies.
#[derive(Debug)]
pub struct DependencyGraph {
    node_by_id: Vec<(DependencyId, DependencyInfo)>,
    index: Vec<(DependencyInfo, DependencyId)>,
    adjacency: Vec<(DependencyId, Vec<(DependencyId, DepEdge)>)>,
    id_factory: IncrementingIdFactory,
}

impl DependencyGraph {
    /// The identifier of each dependency.
    pub closed spec fn index(&self) -> Seq<(InfoView, usize)> {
        self.index@.map_values(|p: (DependencyInfo, DependencyId)| (p.0@, p.1.id))
    }

    /// The dependency under each identifier.
    pub closed spec fn nodes(&self) -> Seq<(usize, InfoView)> {
        self.node_by_id@.map_values(|p: (DependencyId, DependencyInfo)| (p.0.id, p.1@))
    }

    /// The lists of direct dependencies, each with the identifier that
    /// carries it.
    pub closed spec fn adjacency_lists(&self) -> Seq<(usize, Vec<(DependencyId, DepEdge)>)> {
        self.adjacency@.map_values(|p: (DependencyId, Vec<(DependencyId, DepEdge)>)| (p.0.id, p.1))
    }

    /// The identifier that the next new dependency gets.
    pub closed spec fn next_id(&self) -> usize {
        self.id_factory.next()
    }

    /// An empty graph whose first identifier is 0.
    pub fn new() -> (g: Self)
        ensures
            g.index().len() == 0,
            g.nodes().len() == 0,
            g.adjacency_lists().len() == 0,
            g.next_id() == 0,
    {
        let g = Self {
            index: Vec::new(),
            node_by_id: Vec::new(),
            adjacency: Vec::new(),
            id_factory: IncrementingIdFactory::new(),
        };
        assert(g.index() =~= Seq::<(InfoView, usize)>::empty());
        assert(g.nodes() =~= Seq::<(usize, InfoView)>::empty());
        assert(g.adjacency_lists() =~= Seq::<(usize, Vec<(DependencyId, DepEdge)>)>::empty());
        g
    }

    /// The direct dependencies of a dependency: the list that its identifier
    /// carries, if it has an identifier and the identifier carries one.
    pub fn get_direct_deps(&self, key: &DependencyInfo) -> (r: Option<&Vec<(DependencyId, DepEdge)>>)
        ensures
            match assoc(self.index(), key@) {
                Some(id) => match assoc(self.adjacency_lists(), id) {
                    Some(v) => r == Some(&v),
                    None => r is None,
                },
                None => r is None,
            },
    {
        let n = self.index.len();
        let mut i: usize = 0;
        assert(self.index().skip(0) =~= self.index());
        while i < n
            invariant
                n == self.index@.len(),
                i <= n,
                assoc(self.index(), key@) == assoc(self.index().skip(i as int), key@),
            decreases n - i,
        {
            assert(self.index().skip(i as int).drop_first() =~= self.index().skip(i + 1));
            if self.index[i].0 == *key {
                let id = self.index[i].1;
                return self.adjacency_of(id);
            }
            i = i + 1;
        }
        None
    }

    /// Gives a dependency its identifier: the one it has, or else the next
    /// one. The factory moves on to the following identifier either way, and
    /// the identifier is recorded to stand for the dependency.
    #[allow(dead_code)]
    fn add_dependency(&mut self, dependency: DependencyInfo) -> (r: DependencyId)
        requires
            old(self).next_id() < usize::MAX,
        ensures
            r.id == match assoc(old(self).index(), dependency@) {
                Some(id) => id,
                None => old(self).next_id(),
            },
            final(self).next_id() == old(self).next_id() + 1,
            forall|k: InfoView|
                #![trigger assoc(final(self).index(), k)]
                assoc(final(self).index(), k) == if k == dependency@ {
                    Some(r.id)
                } else {
                    assoc(old(self).index(), k)
                },
            forall|j: usize|
                #![trigger assoc(final(self).nodes(), j)]
                assoc(final(self).nodes(), j) == if j == r.id {
                    Some(dependency@)
                } else {
                    assoc(old(self).nodes(), j)
                },
            final(self).adjacency_lists() == old(self).adjacency_lists(),
    {
        let fresh = self.id_factory.get_new_id();
        let ghost idx = self.index();
        let n = self.index.len();
        let mut i: usize = 0;
        while i < n && !(self.index[i].0 == dependency)
            invariant
                n == self.index@.len(),
                idx == self.index(),
                i <= n,
                forall|m: int| 0 <= m < i ==> idx[m].0 != dependency@,
            decreases n - i,
        {
            i = i + 1;
        }
        proof {
            lemma_assoc_first(idx, i as int, dependency@);
        }
        let id = if i < n {
            self.index[i].1
        } else {
            let key = dependency.duplicate();
            self.index.push((key, fresh));
            proof {
                assert(self.index() =~= idx.push((dependency@, fresh.id)));
                assert forall|k: InfoView| #[trigger] assoc(self.index(), k) == if k == dependency@ {
                    Some(fresh.id)
                } else {
                    assoc(idx, k)
                } by {
                    lemma_assoc_push(idx, dependency@, fresh.id, k);
                }
            }
            fresh
        };
        let ghost nodes = self.nodes();
        let m = self.node_by_id.len();
        let mut j: usize = 0;
        while j < m && self.node_by_id[j].0.id != id.id
            invariant
                m == self.node_by_id@.len(),
                nodes == self.nodes(),
                j <= m,
                forall|q: int| 0 <= q < j ==> nodes[q].0 != id.id,
            decreases m - j,
        {
            j = j + 1;
        }
        proof {
            assert forall|q: usize| #[trigger] assoc(self.nodes(), q) == assoc(nodes, q) by {}
        }
        let ghost dv = dependency@;
        if j < m {
            self.node_by_id.set(j, (id, dependency));
            proof {
                assert(self.nodes() =~= nodes.update(j as int, (id.id, dv)));
                assert forall|q: usize| #[trigger] assoc(self.nodes(), q) == if q == id.id {
                    Some(dv)
                } else {
                    assoc(nodes, q)
                } by {
                    lemma_assoc_update(nodes, j as int, id.id, dv, q);
                }
            }
        } else {
            self.node_by_id.push((id, dependency));
            proof {
                lemma_assoc_first(nodes, j as int, id.id);
                assert(self.nodes() =~= nodes.push((id.id, dv)));
                assert forall|q: usize| #[trigger] assoc(self.nodes(), q) == if q == id.id {
                    Some(dv)
                } else {
                    assoc(nodes, q)
                } by {
                    lemma_assoc_push(nodes, id.id, dv, q);
                }
            }
        }
        id
    }

    /// The list of direct dependencies that an identifier carries.
    fn adjacency_of(&self, id: DependencyId) -> (r: Option<&Vec<(DependencyId, DepEdge)>>)
        ensures
            match assoc(self.adjacency_lists(), id.id) {
                Some(v) => r == Some(&v),
                None => r is None,
            },
    {
        let ghost adj = self.adjacency_lists();
        let n = self.adjacency.len();
        let mut i: usize = 0;
        assert(adj.skip(0) =~= adj);
        while i < n
            invariant
                n == self.adjacency@.len(),
                adj == self.adjacency_lists(),
                i <= n,
                assoc(adj, id.id) == assoc(adj.skip(i as int), id.id),
            decreases n - i,
        {
            assert(adj.skip(i as int).drop_first() =~= adj.skip(i + 1));
            if self.adjacency[i].0.id == id.id {
                return Some(&self.adjacency[i].1);
            }
            i = i + 1;
        }
        None
    }
}

} // verus!
