//! The dependencies of a graph grouped by name, the groups in the order of
//! their names, as the packages panel lists them.

use vstd::prelude::*;

use crate::graph::dependency_graph::DependencyView;
use crate::graph::{DependencyGraph, DependencyId};
use crate::text::{lemma_lex_total, lemma_lex_transitive, lex_less, lex_lt};

verus! {

/// The names of the groups come in increasing order, each once.
pub open spec fn names_sorted(groups: Seq<(String, Vec<DependencyId>)>) -> bool {
    forall|i: int, j: int|
        #![trigger groups[i], groups[j]]
        0 <= i < j < groups.len() ==> lex_lt(groups[i].0@, groups[j].0@)
}

/// The identifiers of a group are not empty and come in increasing order.
pub open spec fn ids_increasing(ids: Seq<DependencyId>) -> bool {
    &&& ids.len() > 0
    &&& forall|a: int, b: int| #![trigger ids[a], ids[b]] 0 <= a < b < ids.len() ==> ids[a].ix < ids[b].ix
}

/// Whether the dependency `k` is in the group at `i`.
pub open spec fn in_group(groups: Seq<(String, Vec<DependencyId>)>, i: int, k: u32) -> bool {
    exists|a: int| 0 <= a < groups[i].1@.len() && #[trigger] groups[i].1@[a].ix == k
}

/// `groups` gathers the dependencies of `nodes` by name: one group for each
/// name, in the order of names, holding the identifiers of the dependencies
/// of that name in increasing order.
pub open spec fn groups_of(groups: Seq<(String, Vec<DependencyId>)>, nodes: Map<u32, DependencyView>) -> bool {
    &&& names_sorted(groups)
    &&& forall|i: int| #![trigger groups[i]] 0 <= i < groups.len() ==> ids_increasing(groups[i].1@)
    &&& forall|i: int, a: int|
        #![trigger groups[i].1@[a]]
        0 <= i < groups.len() && 0 <= a < groups[i].1@.len() ==> nodes.contains_key(groups[i].1@[a].ix)
            && nodes[groups[i].1@[a].ix].name == groups[i].0@
    &&& forall|k: u32|
        #[trigger] nodes.contains_key(k) ==> exists|i: int|
            0 <= i < groups.len() && groups[i].0@ == nodes[k].name && #[trigger] in_group(groups, i, k)
}

/// Whether the group named `nm` holds the dependency `k`.
pub open spec fn member(groups: Seq<(String, Vec<DependencyId>)>, k: u32, nm: Seq<char>) -> bool {
    exists|i: int, a: int|
        0 <= i < groups.len() && 0 <= a < groups[i].1@.len() && groups[i].0@ == nm && #[trigger] groups[i].1@[a].ix
            == k
}

/// Puts the dependency `id`, named `name`, into the group of that name, or
/// into a new group in its place in the order of names. Every dependency of
/// the groups comes before `id`.
fn add_to_groups(groups: &mut Vec<(String, Vec<DependencyId>)>, id: DependencyId, name: String)
    requires
        names_sorted(old(groups)@),
        forall|i: int| #![trigger old(groups)@[i]] 0 <= i < old(groups)@.len() ==> ids_increasing(old(groups)@[i].1@),
        forall|i: int, a: int|
            #![trigger old(groups)@[i].1@[a]]
            0 <= i < old(groups)@.len() && 0 <= a < old(groups)@[i].1@.len() ==> old(groups)@[i].1@[a].ix < id.ix,
    ensures
        names_sorted(final(groups)@),
        forall|i: int| #![trigger final(groups)@[i]] 0 <= i < final(groups)@.len() ==> ids_increasing(final(groups)@[i].1@),
        forall|k: u32, nm: Seq<char>|
            #[trigger] member(final(groups)@, k, nm) <==> (member(old(groups)@, k, nm) || (k == id.ix && nm == name@)),
{
    let ghost g0 = groups@;
    let ghost nm = name@;
    let len = groups.len();
    let mut p: usize = 0;
    while p < len && lex_less(groups[p].0.as_str(), name.as_str())
        invariant
            len == groups@.len(),
            groups@ == g0,
            nm == name@,
            p <= len,
            forall|q: int| 0 <= q < p ==> lex_lt(#[trigger] g0[q].0@, nm),
        decreases len - p,
    {
        p = p + 1;
    }
    if p < len && groups[p].0 == name {
        let mut group = groups.remove(p);
        let ghost ids0 = group.1@;
        group.1.push(id);
        groups.insert(p, group);
        proof {
            let gi = groups@;
            assert(gi =~= g0.update(p as int, (g0[p as int].0, gi[p as int].1)));
            assert(gi[p as int].1@ == ids0.push(id));
            assert(ids0 == g0[p as int].1@);
            assert forall|a: int, b: int|
                #![trigger gi[p as int].1@[a], gi[p as int].1@[b]]
                0 <= a < b < gi[p as int].1@.len() implies gi[p as int].1@[a].ix < gi[p as int].1@[b].ix by {
                if b < ids0.len() {
                    assert(g0[p as int].1@[a] == gi[p as int].1@[a]);
                    assert(g0[p as int].1@[b] == gi[p as int].1@[b]);
                } else {
                    assert(g0[p as int].1@[a] == gi[p as int].1@[a]);
                }
            }
            assert forall|i: int| #![trigger gi[i]] 0 <= i < gi.len() implies ids_increasing(gi[i].1@) by {
                if i != p {
                    assert(gi[i] == g0[i]);
                }
            }
            assert forall|i: int, j: int| #![trigger gi[i], gi[j]] 0 <= i < j < gi.len() implies lex_lt(
                gi[i].0@,
                gi[j].0@,
            ) by {
                assert(g0[i] == g0[i] && g0[j] == g0[j]);
            }
            assert forall|k: u32, x: Seq<char>| #[trigger] member(gi, k, x) <==> (member(g0, k, x) || (k == id.ix
                && x == nm)) by {
                if member(gi, k, x) {
                    let (i, a) = choose|i: int, a: int|
                        0 <= i < gi.len() && 0 <= a < gi[i].1@.len() && gi[i].0@ == x && #[trigger] gi[i].1@[a].ix
                            == k;
                    if !(i == p && a == ids0.len()) {
                        assert(g0[i].1@[a] == gi[i].1@[a]);
                    }
                }
                if member(g0, k, x) {
                    let (i, a) = choose|i: int, a: int|
                        0 <= i < g0.len() && 0 <= a < g0[i].1@.len() && g0[i].0@ == x && #[trigger] g0[i].1@[a].ix
                            == k;
                    assert(gi[i].1@[a] == g0[i].1@[a]);
                }
                if k == id.ix && x == nm {
                    assert(gi[p as int].1@[ids0.len() as int].ix == k);
                }
            }
        }
    } else {
        let ids = vec![id];
        groups.insert(p, (name, ids));
        proof {
            let gi = groups@;
            assert(gi =~= g0.insert(p as int, (gi[p as int].0, gi[p as int].1)));
            assert(gi[p as int].0@ == nm);
            assert(gi[p as int].1@ =~= seq![id]);
            assert forall|q: int| p <= q < len implies lex_lt(nm, #[trigger] g0[q].0@) by {
                lemma_lex_total(g0[p as int].0@, nm);
                if q > p {
                    assert(lex_lt(g0[p as int].0@, g0[q].0@));
                    lemma_lex_transitive(nm, g0[p as int].0@, g0[q].0@);
                }
            }
            assert forall|i: int, j: int| #![trigger gi[i], gi[j]] 0 <= i < j < gi.len() implies lex_lt(
                gi[i].0@,
                gi[j].0@,
            ) by {
                if j < p {
                    assert(gi[i] == g0[i] && gi[j] == g0[j]);
                } else if j == p {
                    assert(gi[i] == g0[i]);
                } else if i < p {
                    assert(gi[i] == g0[i] && gi[j] == g0[j - 1]);
                    lemma_lex_transitive(g0[i].0@, nm, g0[j - 1].0@);
                } else if i == p {
                    assert(gi[j] == g0[j - 1]);
                } else {
                    assert(gi[i] == g0[i - 1] && gi[j] == g0[j - 1]);
                }
            }
            assert forall|i: int| #![trigger gi[i]] 0 <= i < gi.len() implies ids_increasing(gi[i].1@) by {
                if i < p {
                    assert(gi[i] == g0[i]);
                } else if i > p {
                    assert(gi[i] == g0[i - 1]);
                }
            }
            assert forall|k: u32, x: Seq<char>| #[trigger] member(gi, k, x) <==> (member(g0, k, x) || (k == id.ix
                && x == nm)) by {
                if member(gi, k, x) {
                    let (i, a) = choose|i: int, a: int|
                        0 <= i < gi.len() && 0 <= a < gi[i].1@.len() && gi[i].0@ == x && #[trigger] gi[i].1@[a].ix
                            == k;
                    if i < p {
                        assert(gi[i] == g0[i]);
                        assert(g0[i].1@[a].ix == k);
                    } else if i > p {
                        assert(gi[i] == g0[i - 1]);
                        assert(g0[i - 1].1@[a].ix == k);
                    }
                }
                if member(g0, k, x) {
                    let (i, a) = choose|i: int, a: int|
                        0 <= i < g0.len() && 0 <= a < g0[i].1@.len() && g0[i].0@ == x && #[trigger] g0[i].1@[a].ix
                            == k;
                    let i1 = if i < p {
                        i
                    } else {
                        i + 1
                    };
                    assert(gi[i1] == g0[i]);
                    assert(gi[i1].1@[a].ix == k);
                }
                if k == id.ix && x == nm {
                    assert(gi[p as int].1@[0].ix == k);
                }
            }
        }
    }
}

/// The dependencies of the graph grouped by name: the groups in the order of
/// their names, the identifiers of each in increasing order.
pub fn group_packages_by_name(graph: &DependencyGraph) -> (r: Vec<(String, Vec<DependencyId>)>)
    requires
        graph.wf(),
    ensures
        groups_of(r@, graph.nodes()),
{
    let entries = graph.iter();
    let ghost nodes = graph.nodes();
    let ghost e = entries@;
    let mut groups: Vec<(String, Vec<DependencyId>)> = Vec::new();
    let n = entries.len();
    for m in 0..n
        invariant
            n == e.len(),
            e == entries@,
            nodes == graph.nodes(),
            forall|i: int|
                #![trigger e[i]]
                0 <= i < e.len() ==> nodes.contains_key(e[i].0.ix) && nodes[e[i].0.ix] == e[i].1@,
            forall|i: int, j: int| #![trigger e[i], e[j]] 0 <= i < j < e.len() ==> e[i].0.ix < e[j].0.ix,
            names_sorted(groups@),
            forall|i: int| #![trigger groups@[i]] 0 <= i < groups@.len() ==> ids_increasing(groups@[i].1@),
            forall|k: u32, x: Seq<char>|
                #[trigger] member(groups@, k, x) <==> exists|j: int|
                    0 <= j < m && #[trigger] e[j].0.ix == k && e[j].1@.name == x,
    {
        let id = entries[m].0;
        let name = entries[m].1.name().to_owned();
        let ghost g0 = groups@;
        proof {
            assert forall|i: int, a: int|
                #![trigger g0[i].1@[a]]
                0 <= i < g0.len() && 0 <= a < g0[i].1@.len() implies g0[i].1@[a].ix < id.ix by {
                let k = g0[i].1@[a].ix;
                assert(member(g0, k, g0[i].0@));
                let j = choose|j: int| 0 <= j < m && #[trigger] e[j].0.ix == k && e[j].1@.name == g0[i].0@;
                assert(e[j].0.ix < e[m as int].0.ix);
            }
        }
        add_to_groups(&mut groups, id, name);
        proof {
            assert forall|k: u32, x: Seq<char>| #[trigger] member(groups@, k, x) <==> exists|j: int|
                0 <= j < m + 1 && #[trigger] e[j].0.ix == k && e[j].1@.name == x by {
                if member(groups@, k, x) && !member(g0, k, x) {
                    assert(e[m as int].0.ix == k);
                }
                if exists|j: int| 0 <= j < m + 1 && #[trigger] e[j].0.ix == k && e[j].1@.name == x {
                    let j = choose|j: int| 0 <= j < m + 1 && #[trigger] e[j].0.ix == k && e[j].1@.name == x;
                    if j < m {
                        assert(member(g0, k, x));
                    }
                }
            }
        }
    }
    proof {
        let gr = groups@;
        assert forall|i: int, a: int|
            #![trigger gr[i].1@[a]]
            0 <= i < gr.len() && 0 <= a < gr[i].1@.len() implies nodes.contains_key(gr[i].1@[a].ix)
            && nodes[gr[i].1@[a].ix].name == gr[i].0@ by {
            assert(member(gr, gr[i].1@[a].ix, gr[i].0@));
            let j = choose|j: int| 0 <= j < n && #[trigger] e[j].0.ix == gr[i].1@[a].ix && e[j].1@.name == gr[i].0@;
        }
        assert forall|k: u32| #[trigger] nodes.contains_key(k) implies exists|i: int|
            0 <= i < gr.len() && gr[i].0@ == nodes[k].name && #[trigger] in_group(gr, i, k) by {
            let j = choose|j: int| 0 <= j < e.len() && #[trigger] e[j].0.ix == k;
            assert(member(gr, k, nodes[k].name));
            let (i, a) = choose|i: int, a: int|
                0 <= i < gr.len() && 0 <= a < gr[i].1@.len() && gr[i].0@ == nodes[k].name && #[trigger] gr[i].1@[a].ix
                    == k;
            assert(in_group(gr, i, k));
        }
    }
    groups
}

} // verus!
