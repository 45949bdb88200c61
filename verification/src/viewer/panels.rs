//! What the packages and dependency panels decide: which groups of
//! dependencies to list, what the selection buttons do to the visible
//! dependencies, and what the dependency panel asks for.

use vstd::prelude::*;

use crate::graph::{DependencyId, Framework};
use crate::viewer::search::Searcher;

verus! {

/// What the selection buttons ask for.
#[derive(Debug, Clone, Copy, PartialEq, Eq, Structural)]
pub enum Action {
    /// Hide the dependencies listed.
    DeselectAll,
    /// Show the dependencies listed.
    SelectAll,
}

/// Applies the action of the selection buttons to one listed dependency:
/// select all makes it visible, deselect all hides it.
pub fn handle_action(visible_nodes: &mut Vec<DependencyId>, id: DependencyId, action: Option<Action>)
    requires
        old(visible_nodes)@.no_duplicates(),
    ensures
        final(visible_nodes)@.no_duplicates(),
        forall|x: DependencyId|
            final(visible_nodes)@.contains(x) == match action {
                Some(Action::SelectAll) => old(visible_nodes)@.contains(x) || x == id,
                Some(Action::DeselectAll) => old(visible_nodes)@.contains(x) && x != id,
                None => old(visible_nodes)@.contains(x),
            },
{
    match action {
        Some(Action::SelectAll) => {
            let n = visible_nodes.len();
            for i in 0..n
                invariant
                    n == visible_nodes@.len(),
                    *visible_nodes == *old(visible_nodes),
                    old(visible_nodes)@.no_duplicates(),
                    action == Some(Action::SelectAll),
                    forall|k: int| 0 <= k < i ==> visible_nodes@[k] != id,
            {
                if visible_nodes[i] == id {
                    proof {
                        assert forall|x: DependencyId| visible_nodes@.contains(x) == (old(visible_nodes)@.contains(x)
                            || x == id) by {
                            if x == id {
                                assert(visible_nodes@[i as int] == x);
                            }
                        }
                    }
                    return;
                }
            }
            visible_nodes.push(id);
            proof {
                assert forall|a: int, b: int| 0 <= a < b < visible_nodes@.len() implies visible_nodes@[a]
                    != visible_nodes@[b] by {
                    if b < n {
                        assert(old(visible_nodes)@[a] != old(visible_nodes)@[b]);
                    }
                }
                assert forall|x: DependencyId| visible_nodes@.contains(x) == (old(visible_nodes)@.contains(x) || x
                    == id) by {
                    if old(visible_nodes)@.contains(x) {
                        let k = choose|k: int| 0 <= k < n && old(visible_nodes)@[k] == x;
                        assert(visible_nodes@[k] == x);
                    }
                    if x == id {
                        assert(visible_nodes@[n as int] == x);
                    }
                    if visible_nodes@.contains(x) {
                        let k = choose|k: int| 0 <= k < n + 1 && visible_nodes@[k] == x;
                        if k < n {
                            assert(old(visible_nodes)@[k] == x);
                        }
                    }
                }
            }
        },
        Some(Action::DeselectAll) => {
            let ghost before = visible_nodes@;
            let mut kept: Vec<DependencyId> = Vec::new();
            let n = visible_nodes.len();
            let mut i: usize = 0;
            while i < n
                invariant
                    0 <= i <= n,
                    n == visible_nodes@.len(),
                    visible_nodes@ == before,
                    before.no_duplicates(),
                    kept@.no_duplicates(),
                    forall|x: DependencyId| kept@.contains(x) == (before.take(i as int).contains(x) && x != id),
                decreases n - i,
            {
                proof {
                    let t1 = before.take(i + 1);
                    let t0 = before.take(i as int);
                    assert forall|x: DependencyId| t1.contains(x) == (t0.contains(x) || x == before[i as int]) by {
                        if t1.contains(x) {
                            let k = choose|k: int| 0 <= k < t1.len() && t1[k] == x;
                            if k < i {
                                assert(t0[k] == x);
                            }
                        }
                        if t0.contains(x) {
                            let k = choose|k: int| 0 <= k < t0.len() && t0[k] == x;
                            assert(t1[k] == x);
                        }
                        if x == before[i as int] {
                            assert(t1[i as int] == x);
                        }
                    }
                }
                let x = visible_nodes[i];
                let ghost kept_before = kept@;
                if x != id {
                    proof {
                        let t0 = before.take(i as int);
                        assert(!t0.contains(x)) by {
                            if t0.contains(x) {
                                let k = choose|k: int| 0 <= k < t0.len() && t0[k] == x;
                                assert(before[k] == before[i as int]);
                            }
                        }
                    }
                    let ghost k0 = kept@;
                    kept.push(x);
                    assert(k0 == kept_before);
                    proof {
                        assert forall|a: int, b: int| 0 <= a < b < kept@.len() implies kept@[a] != kept@[b] by {
                            if b == k0.len() {
                                assert(k0.contains(kept@[a]));
                            }
                        }
                        assert forall|y: DependencyId| kept@.contains(y) == (k0.contains(y) || y == x) by {
                            if kept@.contains(y) {
                                let k = choose|k: int| 0 <= k < kept@.len() && kept@[k] == y;
                                if k < k0.len() {
                                    assert(k0[k] == y);
                                }
                            }
                            if k0.contains(y) {
                                let k = choose|k: int| 0 <= k < k0.len() && k0[k] == y;
                                assert(kept@[k] == y);
                            }
                            if y == x {
                                assert(kept@[k0.len() as int] == y);
                            }
                        }
                    }
                }
                proof {
                    let t0 = before.take(i as int);
                    let t1 = before.take(i + 1);
                    assert forall|y: DependencyId| kept@.contains(y) == (t1.contains(y) && y != id) by {
                        assert(t1.contains(y) == (t0.contains(y) || y == before[i as int]));
                        assert(kept_before.contains(y) == (t0.contains(y) && y != id));
                        if x != id {
                            assert(kept@.contains(y) == (kept_before.contains(y) || y == x));
                        } else {
                            assert(kept@ == kept_before);
                        }
                    }
                }
                i = i + 1;
            }
            proof {
                assert(before.take(n as int) =~= before);
            }
            *visible_nodes = kept;
        },
        None => {},
    }
}

/// Whether `x` is one of the dependencies of the groups.
pub open spec fn listed_in(groups: Seq<&(String, Vec<DependencyId>)>, x: DependencyId) -> bool {
    exists|i: int, a: int| 0 <= i < groups.len() && 0 <= a < groups[i].1@.len() && #[trigger] groups[i].1@[a] == x
}

/// Applies the action of the selection buttons to every dependency of the
/// listed groups: select all makes them visible, deselect all hides them;
/// other dependencies keep their visibility.
pub fn apply_action_to_groups(
    visible_nodes: &mut Vec<DependencyId>,
    groups: &Vec<&(String, Vec<DependencyId>)>,
    action: Option<Action>,
)
    requires
        old(visible_nodes)@.no_duplicates(),
    ensures
        final(visible_nodes)@.no_duplicates(),
        forall|x: DependencyId|
            #![trigger final(visible_nodes)@.contains(x)]
            final(visible_nodes)@.contains(x) == match action {
                Some(Action::SelectAll) => old(visible_nodes)@.contains(x) || listed_in(groups@, x),
                Some(Action::DeselectAll) => old(visible_nodes)@.contains(x) && !listed_in(groups@, x),
                None => old(visible_nodes)@.contains(x),
            },
{
    let ghost v0 = visible_nodes@;
    let n = groups.len();
    let mut i: usize = 0;
    while i < n
        invariant
            n == groups@.len(),
            i <= n,
            visible_nodes@.no_duplicates(),
            forall|x: DependencyId|
                #![trigger visible_nodes@.contains(x)]
                visible_nodes@.contains(x) == match action {
                    Some(Action::SelectAll) => v0.contains(x) || listed_in(groups@.take(i as int), x),
                    Some(Action::DeselectAll) => v0.contains(x) && !listed_in(groups@.take(i as int), x),
                    None => v0.contains(x),
                },
        decreases n - i,
    {
        let ids = &groups[i].1;
        let m = ids.len();
        let mut j: usize = 0;
        assert(ids@.take(0) =~= Seq::<DependencyId>::empty());
        while j < m
            invariant
                n == groups@.len(),
                j <= m,
                i < n,
                *ids == groups@[i as int].1,
                m == ids@.len(),
                visible_nodes@.no_duplicates(),
                forall|x: DependencyId|
                #![trigger visible_nodes@.contains(x)]
                    visible_nodes@.contains(x) == match action {
                        Some(Action::SelectAll) => v0.contains(x) || listed_in(groups@.take(i as int), x)
                            || ids@.take(j as int).contains(x),
                        Some(Action::DeselectAll) => v0.contains(x) && !listed_in(groups@.take(i as int), x)
                            && !ids@.take(j as int).contains(x),
                        None => v0.contains(x),
                    },
            decreases m - j,
        {
            proof {
                assert forall|x: DependencyId| ids@.take(j + 1).contains(x) == (ids@.take(j as int).contains(x)
                    || x == ids@[j as int]) by {
                    if ids@.take(j + 1).contains(x) {
                        let k = choose|k: int| 0 <= k < j + 1 && #[trigger] ids@.take(j + 1)[k] == x;
                        if k < j {
                            assert(ids@.take(j as int)[k] == x);
                        }
                    }
                    if ids@.take(j as int).contains(x) {
                        let k = choose|k: int| 0 <= k < j && #[trigger] ids@.take(j as int)[k] == x;
                        assert(ids@.take(j + 1)[k] == x);
                    }
                    if x == ids@[j as int] {
                        assert(ids@.take(j + 1)[j as int] == x);
                    }
                }
            }
            let ghost before = visible_nodes@;
            let id = ids[j];
            handle_action(visible_nodes, id, action);
            proof {
                let g = groups@.take(i as int);
                assert forall|x: DependencyId|
                #![trigger visible_nodes@.contains(x)]
                    visible_nodes@.contains(x) == match action {
                        Some(Action::SelectAll) => v0.contains(x) || listed_in(g, x) || ids@.take(j + 1).contains(x),
                        Some(Action::DeselectAll) => v0.contains(x) && !listed_in(g, x) && !ids@.take(j + 1).contains(
                            x,
                        ),
                        None => v0.contains(x),
                    } by {
                    assert(before.contains(x) == match action {
                        Some(Action::SelectAll) => v0.contains(x) || listed_in(g, x) || ids@.take(j as int).contains(x),
                        Some(Action::DeselectAll) => v0.contains(x) && !listed_in(g, x) && !ids@.take(
                            j as int,
                        ).contains(x),
                        None => v0.contains(x),
                    });
                    assert(ids@.take(j + 1).contains(x) == (ids@.take(j as int).contains(x) || x == id));
                }
            }
            j = j + 1;
        }
        proof {
            assert(ids@.take(m as int) =~= ids@);
            let g = groups@;
            let gi = g.take(i as int);
            assert forall|x: DependencyId| listed_in(g.take(i + 1), x) == (listed_in(g.take(i as int), x)
                || ids@.contains(x)) by {
                if listed_in(g.take(i + 1), x) {
                    let (k, a) = choose|k: int, a: int|
                        0 <= k < g.take(i + 1).len() && 0 <= a < g.take(i + 1)[k].1@.len() && #[trigger] g.take(
                            i + 1,
                        )[k].1@[a] == x;
                    if k < i {
                        assert(g.take(i as int)[k].1@[a] == x);
                    } else {
                        assert(ids@[a] == x);
                    }
                }
                if listed_in(g.take(i as int), x) {
                    let (k, a) = choose|k: int, a: int|
                        0 <= k < g.take(i as int).len() && 0 <= a < g.take(i as int)[k].1@.len()
                            && #[trigger] g.take(i as int)[k].1@[a] == x;
                    assert(g.take(i + 1)[k].1@[a] == x);
                }
                if ids@.contains(x) {
                    let a = choose|a: int| 0 <= a < ids@.len() && #[trigger] ids@[a] == x;
                    assert(g.take(i + 1)[i as int].1@[a] == x);
                }
            }
            assert forall|x: DependencyId|
                #![trigger visible_nodes@.contains(x)]
                visible_nodes@.contains(x) == match action {
                    Some(Action::SelectAll) => v0.contains(x) || listed_in(g.take(i + 1), x),
                    Some(Action::DeselectAll) => v0.contains(x) && !listed_in(g.take(i + 1), x),
                    None => v0.contains(x),
                } by {
                assert(listed_in(g.take(i + 1), x) == (listed_in(gi, x) || ids@.contains(x)));
                assert(ids@.take(j as int) =~= ids@);
                assert(visible_nodes@.contains(x) == match action {
                    Some(Action::SelectAll) => v0.contains(x) || listed_in(gi, x) || ids@.take(j as int).contains(x),
                    Some(Action::DeselectAll) => v0.contains(x) && !listed_in(gi, x) && !ids@.take(j as int).contains(
                        x,
                    ),
                    None => v0.contains(x),
                });
            }
        }
        i = i + 1;
    }
    proof {
        assert(groups@.take(n as int) =~= groups@);
        assert forall|x: DependencyId|
                #![trigger visible_nodes@.contains(x)]
            visible_nodes@.contains(x) == match action {
                Some(Action::SelectAll) => v0.contains(x) || listed_in(groups@, x),
                Some(Action::DeselectAll) => v0.contains(x) && !listed_in(groups@, x),
                None => v0.contains(x),
            } by {
            assert(groups@.take(i as int) =~= groups@);
            assert(visible_nodes@.contains(x) == match action {
                Some(Action::SelectAll) => v0.contains(x) || listed_in(groups@.take(i as int), x),
                Some(Action::DeselectAll) => v0.contains(x) && !listed_in(groups@.take(i as int), x),
                None => v0.contains(x),
            });
        }
    }
}

/// The groups of dependencies whose name the searcher accepts, in order.
pub open spec fn groups_shown(groups: Seq<(String, Vec<DependencyId>)>, searcher: Searcher) -> Seq<
    (String, Vec<DependencyId>),
>
    decreases groups.len(),
{
    if groups.len() == 0 {
        Seq::empty()
    } else {
        let rest = groups_shown(groups.drop_last(), searcher);
        if searcher.accepts(groups.last().0@) {
            rest.push(groups.last())
        } else {
            rest
        }
    }
}

/// The groups of dependencies to list: those whose name the searcher accepts.
pub fn compute_dependencies_to_show_from_groups<'g>(
    groups: &'g Vec<(String, Vec<DependencyId>)>,
    searcher: &Searcher,
) -> (r: Vec<&'g (String, Vec<DependencyId>)>)
    ensures
        r@.map_values(|g: &(String, Vec<DependencyId>)| *g) == groups_shown(groups@, *searcher),
{
    let mut r: Vec<&'g (String, Vec<DependencyId>)> = Vec::new();
    let n = groups.len();
    for i in 0..n
        invariant
            n == groups@.len(),
            r@.map_values(|g: &(String, Vec<DependencyId>)| *g) == groups_shown(groups@.take(i as int), *searcher),
    {
        proof {
            assert(groups@.take(i + 1).drop_last() =~= groups@.take(i as int));
        }
        let ghost before = r@.map_values(|g: &(String, Vec<DependencyId>)| *g);
        if searcher.is_match(groups[i].0.as_str()) {
            r.push(&groups[i]);
            proof {
                assert(r@.map_values(|g: &(String, Vec<DependencyId>)| *g) =~= before.push(groups@[i as int]));
            }
        }
    }
    proof {
        assert(groups@.take(n as int) =~= groups@);
    }
    r
}

/// What the dependency panel asks for while a dependency or a framework is
/// not selected; nothing when both are.
pub fn dependency_panel_prompt(selected: Option<DependencyId>, framework: Option<&Framework>) -> (r: Option<
    &'static str,
>)
    ensures
        match (selected, framework) {
            (Some(_), Some(_)) => r is None,
            (Some(_), None) => r matches Some(m) && m@ == "Select framework"@,
            (None, Some(_)) => r matches Some(m) && m@ == "Select dependency"@,
            (None, None) => r matches Some(m) && m@ == "Select framework and dependency"@,
        },
{
    match (selected, framework) {
        (Some(_), Some(_)) => None,
        (Some(_), None) => Some("Select framework"),
        (None, Some(_)) => Some("Select dependency"),
        (None, None) => Some("Select framework and dependency"),
    }
}

} // verus!
