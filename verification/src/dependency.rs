//! A named dependency with the names of what it depends on, and what the
//! small dependency editor decides: which new names it takes, what a rename
//! turns a name into, and which edges join the dependencies.

use vstd::prelude::*;

use crate::text::{trim, trim_ws};

verus! {

/// A dependency: its name and the names of its dependencies.
pub struct Dependency {
    pub name: String,
    pub deps: Vec<String>,
}

impl Dependency {
    /// A dependency without dependencies.
    pub fn new(name: String) -> (r: Dependency)
        ensures
            r.name@ == name@,
            r.deps@.len() == 0,
    {
        Dependency { name, deps: Vec::new() }
    }
}

/// Whether one of `names` is `name`.
pub open spec fn has_name(names: Seq<String>, name: Seq<char>) -> bool {
    exists|i: int| 0 <= i < names.len() && #[trigger] names[i]@ == name
}

/// No two dependencies share a name.
pub open spec fn distinct_names(deps: Seq<Dependency>) -> bool {
    forall|i: int, j: int|
        #![trigger deps[i], deps[j]]
        0 <= i < j < deps.len() ==> deps[i].name@ != deps[j].name@
}

/// Every name that a dependency depends on is the name of a dependency.
pub open spec fn targets_known(deps: Seq<Dependency>) -> bool {
    forall|i: int, k: int|
        #![trigger deps[i].deps@[k]]
        0 <= i < deps.len() && 0 <= k < deps[i].deps@.len() ==> exists|j: int|
            0 <= j < deps.len() && #[trigger] deps[j].name@ == deps[i].deps@[k]@
}

/// The position of the dependency named `name`.
pub open spec fn index_named(deps: Seq<Dependency>, name: Seq<char>) -> int {
    choose|j: int| 0 <= j < deps.len() && deps[j].name@ == name
}

/// The edges that leave the dependency at `i`, as pairs of positions, in the
/// order of its list of dependencies.
pub open spec fn edges_from(deps: Seq<Dependency>, i: int) -> Seq<(usize, usize)> {
    Seq::new(
        deps[i].deps@.len(),
        |k: int| (i as usize, index_named(deps, deps[i].deps@[k]@) as usize),
    )
}

/// The edges that leave the first `n` dependencies, dependency by dependency.
pub open spec fn edges_upto(deps: Seq<Dependency>, n: int) -> Seq<(usize, usize)>
    decreases n,
{
    if n <= 0 {
        Seq::empty()
    } else {
        edges_upto(deps, n - 1) + edges_from(deps, n - 1)
    }
}

/// Whether the editor adds a dependency under `new_name`: the name is not
/// blank and no dependency has it yet.
pub fn accepts_new_name(names: &Vec<String>, new_name: &String) -> (r: bool)
    ensures
        r == (trim_ws(new_name@).len() > 0 && !has_name(names@, new_name@)),
{
    let t = trim(new_name.as_str());
    if t.as_str().is_empty() {
        return false;
    }
    let n = names.len();
    for i in 0..n
        invariant
            n == names@.len(),
            forall|k: int| 0 <= k < i ==> names@[k]@ != new_name@,
    {
        if names[i] == *new_name {
            return false;
        }
    }
    true
}

/// What a confirmed rename of `target` to the text `buffer` gives: the
/// trimmed text, when it is not blank, differs from `target`, names no
/// dependency yet and `target` names one; otherwise nothing is renamed.
pub fn renamed_to(names: &Vec<String>, target: &String, buffer: &String) -> (r: Option<String>)
    ensures
        ({
            let t = trim_ws(buffer@);
            if t.len() > 0 && t != target@ && !has_name(names@, t) && has_name(names@, target@) {
                r matches Some(s) && s@ == t
            } else {
                r is None
            }
        }),
{
    let t = trim(buffer.as_str());
    if t.as_str().is_empty() || t == *target {
        return None;
    }
    let n = names.len();
    let mut found = false;
    for i in 0..n
        invariant
            n == names@.len(),
            t@ == trim_ws(buffer@),
            t@ != target@,
            forall|k: int| 0 <= k < i ==> names@[k]@ != t@,
            found == exists|k: int| 0 <= k < i && #[trigger] names@[k]@ == target@,
    {
        if names[i] == t {
            return None;
        }
        if names[i] == *target {
            found = true;
        }
    }
    if found {
        Some(t)
    } else {
        None
    }
}

/// The position of the dependency named `name`.
fn position_named(deps: &Vec<Dependency>, name: &String) -> (j: usize)
    requires
        distinct_names(deps@),
        exists|j: int| 0 <= j < deps@.len() && deps@[j].name@ == name@,
    ensures
        j == index_named(deps@, name@),
        j < deps@.len(),
{
    let n = deps.len();
    let mut j: usize = 0;
    while j < n
        invariant
            n == deps@.len(),
            j <= n,
            distinct_names(deps@),
            forall|k: int| 0 <= k < j ==> deps@[k].name@ != name@,
            exists|k: int| 0 <= k < deps@.len() && deps@[k].name@ == name@,
        decreases n - j,
    {
        if deps[j].name == *name {
            let ghost c = index_named(deps@, name@);
            assert(deps@[c as int].name@ == name@);
            assert(c == j) by {
                if c < j {
                } else if c > j {
                    assert(deps@[j as int].name@ != deps@[c].name@);
                }
            }
            return j;
        }
        j = j + 1;
    }
    assert(false);
    0
}

/// The edges that leave the dependency at `i`, as pairs of positions: one for
/// each name in its list, to the dependency of that name.
pub fn edges_for(deps: &Vec<Dependency>, i: usize) -> (r: Vec<(usize, usize)>)
    requires
        i < deps@.len(),
        distinct_names(deps@),
        targets_known(deps@),
    ensures
        r@ == edges_from(deps@, i as int),
{
    let mut r: Vec<(usize, usize)> = Vec::new();
    let dep = &deps[i];
    let m = dep.deps.len();
    for k in 0..m
        invariant
            i < deps@.len(),
            *dep == deps@[i as int],
            m == dep.deps@.len(),
            distinct_names(deps@),
            targets_known(deps@),
            r@ == edges_from(deps@, i as int).take(k as int),
    {
        assert(deps@[i as int].deps@[k as int] == dep.deps@[k as int]);
        let j = position_named(deps, &dep.deps[k]);
        r.push((i, j));
        assert(r@ =~= edges_from(deps@, i as int).take(k + 1));
    }
    assert(r@ =~= edges_from(deps@, i as int));
    r
}

/// Every edge of the dependencies, as pairs of positions: those of the first
/// dependency, then those of the second, and so on.
pub fn dependency_edges(deps: &Vec<Dependency>) -> (r: Vec<(usize, usize)>)
    requires
        distinct_names(deps@),
        targets_known(deps@),
    ensures
        r@ == edges_upto(deps@, deps@.len() as int),
{
    let mut r: Vec<(usize, usize)> = Vec::new();
    let n = deps.len();
    for i in 0..n
        invariant
            n == deps@.len(),
            distinct_names(deps@),
            targets_known(deps@),
            r@ == edges_upto(deps@, i as int),
    {
        let mut e = edges_for(deps, i);
        r.append(&mut e);
    }
    r
}

} // verus!
