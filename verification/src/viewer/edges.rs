//! Which edges the graph view draws: those under the selected framework
//! between two visible dependencies, highlighted when they touch the
//! highlighted dependency.

use vstd::prelude::*;

use crate::graph::dependency_graph::{edge_views, edges_from, in_framework, EdgeView};
use crate::graph::{DependencyGraph, DependencyId, Framework};

verus! {

/// Whether an edge between `a` and `b` touches the highlighted dependency.
pub open spec fn touches(hl: Option<DependencyId>, a: u32, b: u32) -> bool {
    match hl {
        Some(h) => h.ix == a || h.ix == b,
        None => false,
    }
}

/// Whether `ix` is among the visible dependencies.
pub open spec fn is_visible(visible: Seq<DependencyId>, ix: u32) -> bool {
    visible.contains(DependencyId { ix })
}

/// The edges of `es`, which leave `src`, that end at a visible dependency,
/// in their order, as (source, target, highlighted).
pub open spec fn drawn_from(es: Seq<EdgeView>, src: u32, visible: Seq<DependencyId>, hl: Option<DependencyId>) -> Seq<
    (u32, u32, bool),
>
    decreases es.len(),
{
    if es.len() == 0 {
        Seq::empty()
    } else {
        let rest = drawn_from(es.drop_last(), src, visible, hl);
        let e = es.last();
        if is_visible(visible, e.to) {
            rest.push((src, e.to, touches(hl, src, e.to)))
        } else {
            rest
        }
    }
}

/// The edges drawn for the dependencies `order`, one after the other: for
/// each, the edges under `fw` that leave it, the most recently added first,
/// that end at a visible dependency.
pub open spec fn edges_drawn(
    edges: Seq<EdgeView>,
    order: Seq<DependencyId>,
    visible: Seq<DependencyId>,
    fw: Seq<char>,
    hl: Option<DependencyId>,
) -> Seq<(u32, u32, bool)>
    decreases order.len(),
{
    if order.len() == 0 {
        Seq::empty()
    } else {
        let src = order.last().ix;
        edges_drawn(edges, order.drop_last(), visible, fw, hl) + drawn_from(
            in_framework(edges_from(edges, src), fw),
            src,
            visible,
            hl,
        )
    }
}

/// The plain value of an edge to draw.
pub open spec fn drawn_view(t: (DependencyId, DependencyId, bool)) -> (u32, u32, bool) {
    (t.0.ix, t.1.ix, t.2)
}

/// Whether `id` is among `ids`.
fn contains_id(ids: &Vec<DependencyId>, id: DependencyId) -> (r: bool)
    ensures
        r == ids@.contains(id),
{
    let n = ids.len();
    for i in 0..n
        invariant
            n == ids@.len(),
            forall|k: int| 0 <= k < i ==> ids@[k] != id,
    {
        if ids[i] == id {
            assert(ids@[i as int] == id);
            return true;
        }
    }
    false
}

/// The edges to draw under `framework` between the visible dependencies, as
/// (source, target, highlighted), the sources in the order of `visible`.
/// Every visible dependency must be in the graph.
pub fn edges_to_draw(
    graph: &DependencyGraph,
    visible: &Vec<DependencyId>,
    framework: &Framework,
    highlighted: Option<DependencyId>,
) -> (r: Vec<(DependencyId, DependencyId, bool)>)
    requires
        graph.wf(),
        forall|i: int| 0 <= i < visible@.len() ==> graph.nodes().contains_key(#[trigger] visible@[i].ix),
    ensures
        r@.map_values(|t: (DependencyId, DependencyId, bool)| drawn_view(t)) == edges_drawn(
            graph.edges(),
            visible@,
            visible@,
            framework@,
            highlighted,
        ),
{
    let mut r: Vec<(DependencyId, DependencyId, bool)> = Vec::new();
    let n = visible.len();
    for i in 0..n
        invariant
            n == visible@.len(),
            graph.wf(),
            forall|k: int| 0 <= k < visible@.len() ==> graph.nodes().contains_key(#[trigger] visible@[k].ix),
            r@.map_values(|t: (DependencyId, DependencyId, bool)| drawn_view(t)) == edges_drawn(
                graph.edges(),
                visible@.take(i as int),
                visible@,
                framework@,
                highlighted,
            ),
    {
        let src = visible[i];
        assert(graph.nodes().contains_key(visible@[i as int].ix));
        let deps = match graph.get_direct_dependencies_in_framework(src, framework) {
            Ok(d) => d,
            Err(_) => {
                assert(false);
                Vec::new()
            },
        };
        let ghost es = edge_views(deps@);
        let ghost base = r@.map_values(|t: (DependencyId, DependencyId, bool)| drawn_view(t));
        let m = deps.len();
        for j in 0..m
            invariant
                m == deps@.len(),
                es == edge_views(deps@),
                r@.map_values(|t: (DependencyId, DependencyId, bool)| drawn_view(t)) == base + drawn_from(
                    es.take(j as int),
                    src.ix,
                    visible@,
                    highlighted,
                ),
        {
            let dst = deps[j].to();
            proof {
                assert(es.take(j + 1).drop_last() =~= es.take(j as int));
                assert(es[j as int] == deps@[j as int]@);
            }
            if contains_id(visible, dst) {
                let hl = match highlighted {
                    Some(h) => h.ix == src.ix || h.ix == dst.ix,
                    None => false,
                };
                let ghost before = r@;
                r.push((src, dst, hl));
                proof {
                    assert(dst == DependencyId { ix: dst.ix });
                    assert(r@.map_values(|t: (DependencyId, DependencyId, bool)| drawn_view(t)) =~= before.map_values(
                        |t: (DependencyId, DependencyId, bool)| drawn_view(t),
                    ).push((src.ix, dst.ix, hl)));
                }
            } else {
                assert(dst == DependencyId { ix: dst.ix });
            }
        }
        proof {
            assert(es.take(m as int) =~= es);
            assert(visible@.take(i + 1).drop_last() =~= visible@.take(i as int));
        }
    }
    proof {
        assert(visible@.take(n as int) =~= visible@);
    }
    r
}

} // verus!
