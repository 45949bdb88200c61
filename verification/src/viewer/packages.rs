//! What the packages list shows: the groups of dependencies by name whose
//! name the search pattern matches (none when the pattern does not compile),
//! the versions of each group in the order of versions.

use vstd::prelude::*;

use crate::graph::dependency_graph::{opt_str_view, DependencyView};
use crate::graph::{DependencyGraph, DependencyId};
use crate::text::{lemma_lex_total, lemma_lex_transitive, lex_less, lex_lt};
use crate::viewer::node_cache::{group_packages_by_name, groups_of};
use crate::viewer::search::Searcher;

verus! {

/// The order of versions: no version first, then versions in the order of
/// strings.
pub open spec fn version_lt(a: Option<Seq<char>>, b: Option<Seq<char>>) -> bool {
    match (a, b) {
        (None, Some(_)) => true,
        (Some(x), Some(y)) => lex_lt(x, y),
        _ => false,
    }
}

/// The version of the dependency `id`.
pub open spec fn version_of(nodes: Map<u32, DependencyView>, id: DependencyId) -> Option<Seq<char>> {
    nodes[id.ix].version
}

/// Where a dependency of version `v` goes among `r`: before the first one
/// whose version comes after `v`.
pub open spec fn first_after(nodes: Map<u32, DependencyView>, r: Seq<DependencyId>, v: Option<Seq<char>>) -> int
    decreases r.len(),
{
    if r.len() == 0 {
        0
    } else if version_lt(v, version_of(nodes, r[0])) {
        0
    } else {
        1 + first_after(nodes, r.drop_first(), v)
    }
}

/// The dependencies `ids` in the order of their versions, those of the same
/// version in the order of `ids`: each put, in turn, after those before it
/// whose version does not come after its own.
pub open spec fn by_version(nodes: Map<u32, DependencyView>, ids: Seq<DependencyId>) -> Seq<DependencyId>
    decreases ids.len(),
{
    if ids.len() == 0 {
        Seq::empty()
    } else {
        let r = by_version(nodes, ids.drop_last());
        let x = ids.last();
        r.insert(first_after(nodes, r, version_of(nodes, x)), x)
    }
}

proof fn lemma_by_version_len(nodes: Map<u32, DependencyView>, ids: Seq<DependencyId>)
    ensures
        by_version(nodes, ids).len() == ids.len(),
        forall|k: int| 0 <= k < by_version(nodes, ids).len() ==> ids.contains(#[trigger] by_version(nodes, ids)[k]),
    decreases ids.len(),
{
    if ids.len() > 0 {
        let r = by_version(nodes, ids.drop_last());
        lemma_by_version_len(nodes, ids.drop_last());
        lemma_first_after_bound(nodes, r, version_of(nodes, ids.last()));
        let p = first_after(nodes, r, version_of(nodes, ids.last()));
        let s = r.insert(p, ids.last());
        assert forall|k: int| 0 <= k < s.len() implies ids.contains(#[trigger] s[k]) by {
            if k < p {
                assert(s[k] == r[k]);
                let j = choose|j: int| 0 <= j < ids.drop_last().len() && ids.drop_last()[j] == r[k];
                assert(ids[j] == r[k]);
            } else if k == p {
                assert(ids[ids.len() - 1] == s[k]);
            } else {
                assert(s[k] == r[k - 1]);
                let j = choose|j: int| 0 <= j < ids.drop_last().len() && ids.drop_last()[j] == r[k - 1];
                assert(ids[j] == r[k - 1]);
            }
        }
    }
}

proof fn lemma_first_after_bound(nodes: Map<u32, DependencyView>, r: Seq<DependencyId>, v: Option<Seq<char>>)
    ensures
        0 <= first_after(nodes, r, v) <= r.len(),
    decreases r.len(),
{
    if r.len() > 0 {
        lemma_first_after_bound(nodes, r.drop_first(), v);
    }
}

/// Version `a` does not come after version `b`: no version comes first, and
/// versions compare as strings, character by character.
pub open spec fn version_le(a: Option<Seq<char>>, b: Option<Seq<char>>) -> bool {
    match (a, b) {
        (None, _) => true,
        (Some(_), None) => false,
        (Some(x), Some(y)) => x == y || lex_lt(x, y),
    }
}

proof fn lemma_not_after(v: Option<Seq<char>>, u: Option<Seq<char>>)
    requires
        !version_lt(v, u),
    ensures
        version_le(u, v),
{
    match (v, u) {
        (Some(x), Some(y)) => {
            lemma_lex_total(x, y);
        },
        _ => {},
    }
}

proof fn lemma_version_le_trans(a: Option<Seq<char>>, b: Option<Seq<char>>, c: Option<Seq<char>>)
    requires
        version_le(a, b),
        version_le(b, c),
    ensures
        version_le(a, c),
{
    match (a, b, c) {
        (Some(x), Some(y), Some(z)) => {
            if x != y && y != z {
                lemma_lex_transitive(x, y, z);
            }
        },
        _ => {},
    }
}

/// Where `first_after` puts a version: after every version that does not
/// come after it, before the first one that does.
proof fn lemma_first_after_place(nodes: Map<u32, DependencyView>, r: Seq<DependencyId>, v: Option<Seq<char>>)
    ensures
        0 <= first_after(nodes, r, v) <= r.len(),
        forall|i: int| 0 <= i < first_after(nodes, r, v) ==> !version_lt(v, version_of(nodes, #[trigger] r[i])),
        first_after(nodes, r, v) < r.len() ==> version_lt(v, version_of(nodes, r[first_after(nodes, r, v)])),
    decreases r.len(),
{
    if r.len() > 0 && !version_lt(v, version_of(nodes, r[0])) {
        let t = r.drop_first();
        lemma_first_after_place(nodes, t, v);
        assert forall|i: int| 0 <= i < first_after(nodes, r, v) implies !version_lt(
            v,
            version_of(nodes, #[trigger] r[i]),
        ) by {
            if i > 0 {
                assert(r[i] == t[i - 1]);
            }
        }
    }
}

/// Every two dependencies sorted by version come in the order of their
/// versions.
proof fn lemma_by_version_pairwise(nodes: Map<u32, DependencyView>, ids: Seq<DependencyId>)
    ensures
        forall|a: int, b: int|
            #![trigger by_version(nodes, ids)[a], by_version(nodes, ids)[b]]
            0 <= a < b < by_version(nodes, ids).len() ==> version_le(
                version_of(nodes, by_version(nodes, ids)[a]),
                version_of(nodes, by_version(nodes, ids)[b]),
            ),
    decreases ids.len(),
{
    if ids.len() > 0 {
        let r = by_version(nodes, ids.drop_last());
        lemma_by_version_pairwise(nodes, ids.drop_last());
        let x = ids.last();
        let v = version_of(nodes, x);
        lemma_first_after_place(nodes, r, v);
        let p = first_after(nodes, r, v);
        let s = r.insert(p, x);
        assert(s == by_version(nodes, ids));
        assert forall|a: int, b: int| #![trigger s[a], s[b]] 0 <= a < b < s.len() implies version_le(
            version_of(nodes, s[a]),
            version_of(nodes, s[b]),
        ) by {
            if b < p {
                assert(s[a] == r[a] && s[b] == r[b]);
            } else if b == p {
                assert(s[a] == r[a]);
                lemma_not_after(v, version_of(nodes, r[a]));
            } else if a < p {
                assert(s[a] == r[a] && s[b] == r[b - 1]);
            } else if a == p {
                assert(s[b] == r[b - 1]);
                if b - 1 > p {
                    assert(version_le(version_of(nodes, r[p]), version_of(nodes, r[b - 1])));
                    lemma_version_le_trans(v, version_of(nodes, r[p]), version_of(nodes, r[b - 1]));
                }
            } else {
                assert(s[a] == r[a - 1] && s[b] == r[b - 1]);
            }
        }
    }
}

/// Sorting by version orders the dependencies by version: of two neighbours,
/// the first has no version, or both have one and the first is equal to the
/// second or comes before it as a string, character by character. Sorting
/// keeps the number of dependencies, and each comes from those given.
pub proof fn lemma_sorted_by_version(nodes: Map<u32, DependencyView>, ids: Seq<DependencyId>)
    ensures
        by_version(nodes, ids).len() == ids.len(),
        forall|k: int| 0 <= k < by_version(nodes, ids).len() ==> ids.contains(#[trigger] by_version(nodes, ids)[k]),
        forall|k: int|
            0 <= k < by_version(nodes, ids).len() - 1 ==> match (
                version_of(nodes, #[trigger] by_version(nodes, ids)[k]),
                version_of(nodes, by_version(nodes, ids)[k + 1]),
            ) {
                (None, _) => true,
                (Some(_), None) => false,
                (Some(x), Some(y)) => x == y || lex_lt(x, y),
            },
{
    lemma_by_version_len(nodes, ids);
    lemma_by_version_pairwise(nodes, ids);
    let r = by_version(nodes, ids);
    assert forall|k: int| 0 <= k < r.len() - 1 implies version_le(
        version_of(nodes, #[trigger] r[k]),
        version_of(nodes, r[k + 1]),
    ) by {
        assert(r[k] == r[k] && r[k + 1] == r[k + 1]);
    }
}

/// Whether version `a` comes before version `b`.
fn version_less(a: Option<&str>, b: Option<&str>) -> (r: bool)
    ensures
        r == version_lt(opt_str_view(a), opt_str_view(b)),
{
    match (a, b) {
        (None, Some(_)) => true,
        (Some(x), Some(y)) => lex_less(x, y),
        _ => false,
    }
}

/// The version of a dependency of the graph.
fn version_in<'a>(graph: &'a DependencyGraph, id: DependencyId) -> (r: Option<&'a str>)
    requires
        graph.nodes().contains_key(id.ix),
    ensures
        opt_str_view(r) == version_of(graph.nodes(), id),
{
    match graph.get(id) {
        Some(info) => info.version(),
        None => {
            assert(false);
            None
        },
    }
}

/// The dependencies in the order of their versions, those of the same
/// version in their given order.
pub fn sort_by_version(graph: &DependencyGraph, ids: &Vec<DependencyId>) -> (r: Vec<DependencyId>)
    requires
        forall|i: int| 0 <= i < ids@.len() ==> graph.nodes().contains_key(#[trigger] ids@[i].ix),
    ensures
        r@ == by_version(graph.nodes(), ids@),
{
    let ghost nodes = graph.nodes();
    let mut r: Vec<DependencyId> = Vec::new();
    let n = ids.len();
    for i in 0..n
        invariant
            n == ids@.len(),
            nodes == graph.nodes(),
            forall|k: int| 0 <= k < ids@.len() ==> nodes.contains_key(#[trigger] ids@[k].ix),
            r@ == by_version(nodes, ids@.take(i as int)),
    {
        let x = ids[i];
        proof {
            lemma_by_version_len(nodes, ids@.take(i as int));
            assert forall|k: int| 0 <= k < r@.len() implies nodes.contains_key(#[trigger] r@[k].ix) by {
                let j = choose|j: int| 0 <= j < ids@.take(i as int).len() && ids@.take(i as int)[j] == r@[k];
                assert(ids@[j] == r@[k]);
            }
        }
        let v = version_in(graph, x);
        let ghost vv = opt_str_view(v);
        let m = r.len();
        let mut p: usize = 0;
        proof {
            assert(r@.skip(0) =~= r@);
        }
        while p < m && !version_less(v, version_in(graph, r[p]))
            invariant
                m == r@.len(),
                p <= m,
                nodes == graph.nodes(),
                vv == opt_str_view(v),
                forall|k: int| 0 <= k < r@.len() ==> nodes.contains_key(#[trigger] r@[k].ix),
                first_after(nodes, r@, vv) == p + first_after(nodes, r@.skip(p as int), vv),
            decreases m - p,
        {
            proof {
                assert(r@.skip(p as int).drop_first() =~= r@.skip(p + 1));
                assert(r@.skip(p as int)[0] == r@[p as int]);
            }
            p = p + 1;
        }
        proof {
            if p < m {
                assert(r@.skip(p as int)[0] == r@[p as int]);
            } else {
                assert(r@.skip(p as int).len() == 0);
            }
            assert(ids@.take(i + 1).drop_last() =~= ids@.take(i as int));
            assert(ids@.take(i + 1).last() == x);
        }
        r.insert(p, x);
    }
    proof {
        assert(ids@.take(n as int) =~= ids@);
    }
    r
}

/// The groups the packages list shows, from the groups by name: those whose
/// name the searcher shows, each with its versions in order.
pub open spec fn packages_shown(
    groups: Seq<(String, Vec<DependencyId>)>,
    searcher: Searcher,
    nodes: Map<u32, DependencyView>,
) -> Seq<(Seq<char>, Seq<DependencyId>)>
    decreases groups.len(),
{
    if groups.len() == 0 {
        Seq::empty()
    } else {
        let rest = packages_shown(groups.drop_last(), searcher, nodes);
        let g = groups.last();
        if searcher.shows(g.0@) {
            rest.push((g.0@, by_version(nodes, g.1@)))
        } else {
            rest
        }
    }
}

/// The packages list: the dependencies of the graph grouped by name, in the
/// order of names, the groups whose name the searcher shows, the versions of
/// each in order. With a pattern that does not compile nothing is listed.
pub fn packages_to_show(graph: &DependencyGraph, searcher: &Searcher) -> (r: Vec<(String, Vec<DependencyId>)>)
    requires
        graph.wf(),
    ensures
        exists|groups: Seq<(String, Vec<DependencyId>)>|
            groups_of(groups, graph.nodes()) && r@.map_values(|p: (String, Vec<DependencyId>)| (p.0@, p.1@))
                == #[trigger] packages_shown(groups, *searcher, graph.nodes()),
{
    let groups = group_packages_by_name(graph);
    let ghost nodes = graph.nodes();
    let mut r: Vec<(String, Vec<DependencyId>)> = Vec::new();
    let n = groups.len();
    for i in 0..n
        invariant
            n == groups@.len(),
            nodes == graph.nodes(),
            groups_of(groups@, nodes),
            r@.map_values(|p: (String, Vec<DependencyId>)| (p.0@, p.1@)) == packages_shown(
                groups@.take(i as int),
                *searcher,
                nodes,
            ),
    {
        proof {
            assert(groups@.take(i + 1).drop_last() =~= groups@.take(i as int));
            assert(groups@.take(i + 1).last() == groups@[i as int]);
        }
        let name = &groups[i].0;
        if searcher.is_shown(name.as_str()) {
            assert forall|k: int| 0 <= k < groups@[i as int].1@.len() implies nodes.contains_key(
                #[trigger] groups@[i as int].1@[k].ix,
            ) by {
                assert(groups@[i as int].1@[k] == groups@[i as int].1@[k]);
            }
            let sorted = sort_by_version(graph, &groups[i].1);
            let ghost before = r@;
            r.push((name.clone(), sorted));
            proof {
                assert(r@.map_values(|p: (String, Vec<DependencyId>)| (p.0@, p.1@)) =~= before.map_values(
                    |p: (String, Vec<DependencyId>)| (p.0@, p.1@),
                ).push((groups@[i as int].0@, by_version(nodes, groups@[i as int].1@))));
            }
        }
    }
    proof {
        assert(groups@.take(n as int) =~= groups@);
    }
    r
}

} // verus!
