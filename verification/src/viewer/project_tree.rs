//! A tree of projects linked under target frameworks.

use vstd::prelude::*;

verus! {

/// Identifier of a project: its name.
#[derive(Debug)]
pub struct Id {
    name: String,
}

impl View for Id {
    type V = Seq<char>;

    closed spec fn view(&self) -> Seq<char> {
        self.name@
    }
}

impl Id {
    pub fn new(name: String) -> (r: Self)
        ensures
            r@ == name@,
    {
        Self { name }
    }

    /// A copy of the identifier.
    pub fn duplicate(&self) -> (r: Self)
        ensures
            r@ == self@,
    {
        Id { name: self.name.clone() }
    }

    /// Whether two identifiers are the same.
    pub fn same(&self, other: &Id) -> (r: bool)
        ensures
            r == (self@ == other@),
    {
        self.name == other.name
    }
}

/// A target framework of the tree.
#[derive(Debug)]
pub struct Framework {
    pub id: String,
}

impl View for Framework {
    type V = Seq<char>;

    open spec fn view(&self) -> Seq<char> {
        self.id@
    }
}

impl Framework {
    pub fn new(id: String) -> (r: Self)
        ensures
            r@ == id@,
    {
        Self { id }
    }

    /// A copy of the framework.
    pub fn duplicate(&self) -> (r: Self)
        ensures
            r@ == self@,
    {
        Framework { id: self.id.clone() }
    }
}

/// What a project depends on under one framework, each once.
#[derive(Debug)]
pub struct FrameworkEntry {
    pub dependencies: Vec<Id>,
}

impl FrameworkEntry {
    pub fn new() -> (r: Self)
        ensures
            r.dependencies@.len() == 0,
    {
        Self { dependencies: Vec::new() }
    }
}

/// A project: its dependencies under each framework, and the projects that
/// depend on it, each with the framework.
#[derive(Debug)]
pub struct Project {
    pub id: Id,
    pub name: String,
    pub frameworks: Vec<(Framework, FrameworkEntry)>,
    pub reverse_dependencies: Vec<(Framework, Id)>,
}

/// Whether `p` depends on `d` under the framework `fw`.
pub open spec fn project_depends(p: Project, fw: Seq<char>, d: Seq<char>) -> bool {
    exists|j: int, k: int|
        0 <= j < p.frameworks@.len() && 0 <= k < p.frameworks@[j].1.dependencies@.len()
            && #[trigger] p.frameworks@[j].0@ == fw && #[trigger] p.frameworks@[j].1.dependencies@[k]@ == d
}

/// Whether `p` is depended on by `q` under the framework `fw`.
pub open spec fn project_depended_by(p: Project, fw: Seq<char>, q: Seq<char>) -> bool {
    exists|j: int|
        0 <= j < p.reverse_dependencies@.len() && #[trigger] p.reverse_dependencies@[j].0@ == fw
            && p.reverse_dependencies@[j].1@ == q
}

/// Nothing is listed twice in a project, the project's name is its
/// identifier, and each framework it lists holds at least one dependency.
pub open spec fn project_wf(p: Project) -> bool {
    &&& p.name@ == p.id@
    &&& forall|j: int| 0 <= j < p.frameworks@.len() ==> (#[trigger] p.frameworks@[j]).1.dependencies@.len() > 0
    &&& forall|a: int, b: int|
        #![trigger p.frameworks@[a], p.frameworks@[b]]
        0 <= a < b < p.frameworks@.len() ==> p.frameworks@[a].0@ != p.frameworks@[b].0@
    &&& forall|j: int, a: int, b: int|
        #![trigger p.frameworks@[j].1.dependencies@[a], p.frameworks@[j].1.dependencies@[b]]
        0 <= j < p.frameworks@.len() && 0 <= a < b < p.frameworks@[j].1.dependencies@.len()
            ==> p.frameworks@[j].1.dependencies@[a]@ != p.frameworks@[j].1.dependencies@[b]@
    &&& forall|a: int, b: int|
        #![trigger p.reverse_dependencies@[a], p.reverse_dependencies@[b]]
        0 <= a < b < p.reverse_dependencies@.len() ==> (p.reverse_dependencies@[a].0@,
        p.reverse_dependencies@[a].1@) != (p.reverse_dependencies@[b].0@, p.reverse_dependencies@[b].1@)
}

impl Project {
    pub fn new(name: String) -> (r: Self)
        ensures
            r.id@ == name@,
            r.name@ == name@,
            r.frameworks@.len() == 0,
            r.reverse_dependencies@.len() == 0,
            project_wf(r),
    {
        Self { id: Id::new(name.clone()), name, frameworks: Vec::new(), reverse_dependencies: Vec::new() }
    }

    /// Records that the project depends on `dependency` under `framework`.
    fn add_dependency(&mut self, framework: &Framework, dependency: &Id)
        requires
            project_wf(*old(self)),
        ensures
            project_wf(*final(self)),
            final(self).id@ == old(self).id@,
            final(self).reverse_dependencies@ == old(self).reverse_dependencies@,
            forall|fw: Seq<char>, d: Seq<char>|
                project_depends(*final(self), fw, d) == (project_depends(*old(self), fw, d) || (fw == framework@
                    && d == dependency@)),
    {
        let ghost p0 = *self;
        let n = self.frameworks.len();
        let mut j: usize = 0;
        while j < n
            invariant
                *self == p0,
                p0 == *old(self),
                n == self.frameworks@.len(),
                0 <= j <= n,
                project_wf(*self),
                forall|a: int| 0 <= a < j ==> #[trigger] self.frameworks@[a].0@ != framework@,
            decreases n - j,
        {
            if self.frameworks[j].0.id == framework.id {
                let ghost e0 = self.frameworks@[j as int].1.dependencies@;
                let m = self.frameworks[j].1.dependencies.len();
                let mut k: usize = 0;
                while k < m
                    invariant
                        *self == p0,
                        p0 == *old(self),
                        project_wf(*self),
                        n == self.frameworks@.len(),
                        self.frameworks@[j as int].0@ == framework@,
                        j < n,
                        m == self.frameworks@[j as int].1.dependencies@.len(),
                        0 <= k <= m,
                        forall|b: int| 0 <= b < k ==> #[trigger] self.frameworks@[j as int].1.dependencies@[b]@ != dependency@,
                    decreases m - k,
                {
                    if self.frameworks[j].1.dependencies[k].same(dependency) {
                        proof {
                            assert(self.frameworks@[j as int].0@ == framework@
                                && self.frameworks@[j as int].1.dependencies@[k as int]@ == dependency@);
                        }
                        return;
                    }
                    k = k + 1;
                }
                self.frameworks[j].1.dependencies.push(dependency.duplicate());
                proof {
                    let p = *self;
                    assert(p.frameworks@.len() == p0.frameworks@.len());
                    assert forall|a: int| 0 <= a < p.frameworks@.len() && a != j implies #[trigger] p.frameworks@[a]
                        == p0.frameworks@[a] by {}
                    assert forall|fw: Seq<char>, d: Seq<char>|
                        project_depends(p, fw, d) == (project_depends(p0, fw, d) || (fw == framework@ && d
                            == dependency@)) by {
                        if project_depends(p0, fw, d) {
                            let (a, b) = choose|a: int, b: int|
                                0 <= a < p0.frameworks@.len() && 0 <= b < p0.frameworks@[a].1.dependencies@.len()
                                    && #[trigger] p0.frameworks@[a].0@ == fw && #[trigger] p0.frameworks@[a].1.dependencies@[b]@ == d;
                            assert(p.frameworks@[a].0@ == fw && p.frameworks@[a].1.dependencies@[b]@ == d);
                        }
                        if fw == framework@ && d == dependency@ {
                            assert(p.frameworks@[j as int].0@ == fw && p.frameworks@[j as int].1.dependencies@[m as int]@ == d);
                        }
                        if project_depends(p, fw, d) {
                            let (a, b) = choose|a: int, b: int|
                                0 <= a < p.frameworks@.len() && 0 <= b < p.frameworks@[a].1.dependencies@.len()
                                    && #[trigger] p.frameworks@[a].0@ == fw && #[trigger] p.frameworks@[a].1.dependencies@[b]@ == d;
                            if a != j || b < m {
                                assert(p0.frameworks@[a].0@ == fw && p0.frameworks@[a].1.dependencies@[b]@ == d);
                            }
                        }
                    }
                }
                return;
            }
            j = j + 1;
        }
        let mut entry = FrameworkEntry::new();
        entry.dependencies.push(dependency.duplicate());
        self.frameworks.push((framework.duplicate(), entry));
        proof {
            let p = *self;
            assert forall|a: int| 0 <= a < n implies #[trigger] p.frameworks@[a] == p0.frameworks@[a] by {}
            assert forall|fw: Seq<char>, d: Seq<char>|
                project_depends(p, fw, d) == (project_depends(p0, fw, d) || (fw == framework@ && d
                    == dependency@)) by {
                if project_depends(p0, fw, d) {
                    let (a, b) = choose|a: int, b: int|
                        0 <= a < p0.frameworks@.len() && 0 <= b < p0.frameworks@[a].1.dependencies@.len()
                            && #[trigger] p0.frameworks@[a].0@ == fw && #[trigger] p0.frameworks@[a].1.dependencies@[b]@ == d;
                    assert(p.frameworks@[a].0@ == fw && p.frameworks@[a].1.dependencies@[b]@ == d);
                }
                if fw == framework@ && d == dependency@ {
                    assert(p.frameworks@[n as int].0@ == fw && p.frameworks@[n as int].1.dependencies@[0]@ == d);
                }
                if project_depends(p, fw, d) {
                    let (a, b) = choose|a: int, b: int|
                        0 <= a < p.frameworks@.len() && 0 <= b < p.frameworks@[a].1.dependencies@.len()
                            && #[trigger] p.frameworks@[a].0@ == fw && #[trigger] p.frameworks@[a].1.dependencies@[b]@ == d;
                    if a < n {
                        assert(p0.frameworks@[a].0@ == fw && p0.frameworks@[a].1.dependencies@[b]@ == d);
                    }
                }
            }
        }
    }

    /// Records that `project` depends on this project under `framework`.
    fn add_reverse(&mut self, framework: &Framework, project: &Id)
        requires
            project_wf(*old(self)),
        ensures
            project_wf(*final(self)),
            final(self).id@ == old(self).id@,
            final(self).frameworks@ == old(self).frameworks@,
            forall|fw: Seq<char>, q: Seq<char>|
                project_depended_by(*final(self), fw, q) == (project_depended_by(*old(self), fw, q) || (fw
                    == framework@ && q == project@)),
    {
        let ghost p0 = *self;
        let n = self.reverse_dependencies.len();
        let mut j: usize = 0;
        while j < n
            invariant
                *self == p0,
                p0 == *old(self),
                project_wf(*self),
                n == self.reverse_dependencies@.len(),
                0 <= j <= n,
                forall|a: int|
                    0 <= a < j ==> !(#[trigger] self.reverse_dependencies@[a].0@ == framework@
                        && self.reverse_dependencies@[a].1@ == project@),
            decreases n - j,
        {
            if self.reverse_dependencies[j].0.id == framework.id && self.reverse_dependencies[j].1.same(project) {
                proof {
                    assert(self.reverse_dependencies@[j as int].0@ == framework@);
                }
                return;
            }
            j = j + 1;
        }
        self.reverse_dependencies.push((framework.duplicate(), project.duplicate()));
        proof {
            let p = *self;
            assert forall|a: int| 0 <= a < n implies #[trigger] p.reverse_dependencies@[a] == p0.reverse_dependencies@[a] by {}
            assert forall|fw: Seq<char>, q: Seq<char>|
                project_depended_by(p, fw, q) == (project_depended_by(p0, fw, q) || (fw == framework@ && q
                    == project@)) by {
                if project_depended_by(p0, fw, q) {
                    let a = choose|a: int|
                        0 <= a < p0.reverse_dependencies@.len() && #[trigger] p0.reverse_dependencies@[a].0@ == fw
                            && p0.reverse_dependencies@[a].1@ == q;
                    assert(p.reverse_dependencies@[a].0@ == fw);
                }
                if fw == framework@ && q == project@ {
                    assert(p.reverse_dependencies@[n as int].0@ == fw);
                }
            }
        }
    }
}

/// The projects of a solution, each once, linked under target frameworks.
#[derive(Debug)]
pub struct ProjectTree {
    projects: Vec<Project>,
    frameworks: Vec<Framework>,
}

impl ProjectTree {
    /// No project and no framework is listed twice.
    pub closed spec fn wf(&self) -> bool {
        &&& forall|a: int, b: int|
            #![trigger self.projects@[a], self.projects@[b]]
            0 <= a < b < self.projects@.len() ==> self.projects@[a].id@ != self.projects@[b].id@
        &&& forall|a: int| 0 <= a < self.projects@.len() ==> project_wf(#[trigger] self.projects@[a])
        &&& forall|a: int, b: int|
            #![trigger self.frameworks@[a], self.frameworks@[b]]
            0 <= a < b < self.frameworks@.len() ==> self.frameworks@[a]@ != self.frameworks@[b]@
    }

    /// Whether a project with this name is in the tree.
    pub closed spec fn has_project(&self, name: Seq<char>) -> bool {
        exists|i: int| 0 <= i < self.projects@.len() && #[trigger] self.projects@[i].id@ == name
    }

    /// Whether the project `p` depends on `d` under `fw`.
    pub closed spec fn depends_on(&self, p: Seq<char>, fw: Seq<char>, d: Seq<char>) -> bool {
        exists|i: int|
            0 <= i < self.projects@.len() && #[trigger] self.projects@[i].id@ == p && project_depends(
                self.projects@[i],
                fw,
                d,
            )
    }

    /// Whether the project `d` is depended on by `p` under `fw`.
    pub closed spec fn depended_by(&self, d: Seq<char>, fw: Seq<char>, p: Seq<char>) -> bool {
        exists|i: int|
            0 <= i < self.projects@.len() && #[trigger] self.projects@[i].id@ == d && project_depended_by(
                self.projects@[i],
                fw,
                p,
            )
    }

    /// Whether a link was made under the framework `fw`.
    pub closed spec fn has_framework(&self, fw: Seq<char>) -> bool {
        exists|i: int| 0 <= i < self.frameworks@.len() && #[trigger] self.frameworks@[i]@ == fw
    }

    /// The links agree both ways: a project depends on another under a
    /// framework exactly when that one lists it among those that depend on it
    /// under that framework; and the frameworks of the tree are exactly those
    /// some link was made under.
    pub open spec fn links_match(&self) -> bool {
        &&& forall|p: Seq<char>, fw: Seq<char>, d: Seq<char>|
            #[trigger] self.depends_on(p, fw, d) == #[trigger] self.depended_by(d, fw, p)
        &&& forall|fw: Seq<char>|
            #[trigger] self.has_framework(fw) == exists|p: Seq<char>, d: Seq<char>| #[trigger] self.depends_on(p, fw, d)
    }

    pub fn new() -> (r: Self)
        ensures
            r.wf(),
            forall|n: Seq<char>| !r.has_project(n),
            forall|f: Seq<char>| !r.has_framework(f),
            r.links_match(),
    {
        Self { projects: Vec::new(), frameworks: Vec::new() }
    }

    /// The position of the project with the identifier `id`, if any.
    fn position(&self, id: &Id) -> (r: Option<usize>)
        ensures
            match r {
                Some(i) => i < self.projects@.len() && self.projects@[i as int].id@ == id@,
                None => !self.has_project(id@),
            },
    {
        let n = self.projects.len();
        for i in 0..n
            invariant
                n == self.projects@.len(),
                forall|a: int| 0 <= a < i ==> #[trigger] self.projects@[a].id@ != id@,
        {
            if self.projects[i].id.same(id) {
                return Some(i);
            }
        }
        None
    }

    /// Links `project` to `dependency` under `framework`: the dependency is
    /// recorded among those of the project under the framework, the project
    /// among those that depend on the dependency, and the framework among
    /// those of the tree. Both projects must be in the tree.
    pub fn link_projects(&mut self, project: &Id, dependency: &Id, framework: &Framework)
        requires
            old(self).wf(),
            old(self).has_project(project@),
            old(self).has_project(dependency@),
        ensures
            final(self).wf(),
            forall|n: Seq<char>| final(self).has_project(n) == old(self).has_project(n),
            forall|p: Seq<char>, fw: Seq<char>, d: Seq<char>|
                final(self).depends_on(p, fw, d) == (old(self).depends_on(p, fw, d) || (p == project@ && fw
                    == framework@ && d == dependency@)),
            forall|d: Seq<char>, fw: Seq<char>, p: Seq<char>|
                final(self).depended_by(d, fw, p) == (old(self).depended_by(d, fw, p) || (d == dependency@ && fw
                    == framework@ && p == project@)),
            forall|fw: Seq<char>| final(self).has_framework(fw) == (old(self).has_framework(fw) || fw == framework@),
            old(self).links_match() ==> final(self).links_match(),
    {
        let ghost t0 = *self;
        self.link_both(project, dependency, framework);
        proof {
            if t0.links_match() {
                lemma_link_keeps_links_match(t0, *self, project@, dependency@, framework@);
            }
        }
    }

    /// Records the link both ways and the framework.
    fn link_both(&mut self, project: &Id, dependency: &Id, framework: &Framework)
        requires
            old(self).wf(),
            old(self).has_project(project@),
            old(self).has_project(dependency@),
        ensures
            final(self).wf(),
            forall|n: Seq<char>| final(self).has_project(n) == old(self).has_project(n),
            forall|p: Seq<char>, fw: Seq<char>, d: Seq<char>|
                final(self).depends_on(p, fw, d) == (old(self).depends_on(p, fw, d) || (p == project@ && fw
                    == framework@ && d == dependency@)),
            forall|d: Seq<char>, fw: Seq<char>, p: Seq<char>|
                final(self).depended_by(d, fw, p) == (old(self).depended_by(d, fw, p) || (d == dependency@ && fw
                    == framework@ && p == project@)),
            forall|fw: Seq<char>| final(self).has_framework(fw) == (old(self).has_framework(fw) || fw == framework@),
    {
        let ghost t0 = *self;
        let pi = match self.position(project) {
            Some(i) => i,
            None => return,
        };
        self.projects[pi].add_dependency(framework, dependency);
        let ghost t1 = *self;
        proof {
            assert forall|a: int| 0 <= a < t1.projects@.len() && a != pi implies #[trigger] t1.projects@[a]
                == t0.projects@[a] by {}
            assert(t1.wf());
            assert forall|n: Seq<char>| t1.has_project(n) == t0.has_project(n) by {
                if t0.has_project(n) {
                    let i = choose|i: int| 0 <= i < t0.projects@.len() && #[trigger] t0.projects@[i].id@ == n;
                    assert(t1.projects@[i].id@ == n);
                }
                if t1.has_project(n) {
                    let i = choose|i: int| 0 <= i < t1.projects@.len() && #[trigger] t1.projects@[i].id@ == n;
                    assert(t0.projects@[i].id@ == n);
                }
            }
            assert forall|p: Seq<char>, fw: Seq<char>, d: Seq<char>|
                t1.depends_on(p, fw, d) == (t0.depends_on(p, fw, d) || (p == project@ && fw == framework@ && d
                    == dependency@)) by {
                if t0.depends_on(p, fw, d) {
                    let i = choose|i: int|
                        0 <= i < t0.projects@.len() && #[trigger] t0.projects@[i].id@ == p && project_depends(
                            t0.projects@[i],
                            fw,
                            d,
                        );
                    assert(t1.projects@[i].id@ == p);
                }
                if p == project@ && fw == framework@ && d == dependency@ {
                    assert(t1.projects@[pi as int].id@ == p);
                }
                if t1.depends_on(p, fw, d) {
                    let i = choose|i: int|
                        0 <= i < t1.projects@.len() && #[trigger] t1.projects@[i].id@ == p && project_depends(
                            t1.projects@[i],
                            fw,
                            d,
                        );
                    assert(t0.projects@[i].id@ == p);
                }
            }
            assert forall|d: Seq<char>, fw: Seq<char>, p: Seq<char>| t1.depended_by(d, fw, p) == t0.depended_by(d, fw, p) by {
                if t0.depended_by(d, fw, p) {
                    let i = choose|i: int|
                        0 <= i < t0.projects@.len() && #[trigger] t0.projects@[i].id@ == d && project_depended_by(
                            t0.projects@[i],
                            fw,
                            p,
                        );
                    assert(t1.projects@[i].id@ == d);
                }
                if t1.depended_by(d, fw, p) {
                    let i = choose|i: int|
                        0 <= i < t1.projects@.len() && #[trigger] t1.projects@[i].id@ == d && project_depended_by(
                            t1.projects@[i],
                            fw,
                            p,
                        );
                    assert(t0.projects@[i].id@ == d);
                }
            }
        }
        let di = match self.position(dependency) {
            Some(i) => i,
            None => return,
        };
        self.projects[di].add_reverse(framework, project);
        let ghost t2 = *self;
        proof {
            assert forall|a: int| 0 <= a < t2.projects@.len() && a != di implies #[trigger] t2.projects@[a]
                == t1.projects@[a] by {}
            assert(t2.wf());
            assert forall|n: Seq<char>| t2.has_project(n) == t1.has_project(n) by {
                if t1.has_project(n) {
                    let i = choose|i: int| 0 <= i < t1.projects@.len() && #[trigger] t1.projects@[i].id@ == n;
                    assert(t2.projects@[i].id@ == n);
                }
                if t2.has_project(n) {
                    let i = choose|i: int| 0 <= i < t2.projects@.len() && #[trigger] t2.projects@[i].id@ == n;
                    assert(t1.projects@[i].id@ == n);
                }
            }
            assert forall|p: Seq<char>, fw: Seq<char>, d: Seq<char>| t2.depends_on(p, fw, d) == t1.depends_on(p, fw, d) by {
                if t1.depends_on(p, fw, d) {
                    let i = choose|i: int|
                        0 <= i < t1.projects@.len() && #[trigger] t1.projects@[i].id@ == p && project_depends(
                            t1.projects@[i],
                            fw,
                            d,
                        );
                    assert(t2.projects@[i].id@ == p);
                }
                if t2.depends_on(p, fw, d) {
                    let i = choose|i: int|
                        0 <= i < t2.projects@.len() && #[trigger] t2.projects@[i].id@ == p && project_depends(
                            t2.projects@[i],
                            fw,
                            d,
                        );
                    assert(t1.projects@[i].id@ == p);
                }
            }
            assert forall|d: Seq<char>, fw: Seq<char>, p: Seq<char>|
                t2.depended_by(d, fw, p) == (t1.depended_by(d, fw, p) || (d == dependency@ && fw == framework@ && p
                    == project@)) by {
                if t1.depended_by(d, fw, p) {
                    let i = choose|i: int|
                        0 <= i < t1.projects@.len() && #[trigger] t1.projects@[i].id@ == d && project_depended_by(
                            t1.projects@[i],
                            fw,
                            p,
                        );
                    assert(t2.projects@[i].id@ == d);
                }
                if d == dependency@ && fw == framework@ && p == project@ {
                    assert(t2.projects@[di as int].id@ == d);
                }
                if t2.depended_by(d, fw, p) {
                    let i = choose|i: int|
                        0 <= i < t2.projects@.len() && #[trigger] t2.projects@[i].id@ == d && project_depended_by(
                            t2.projects@[i],
                            fw,
                            p,
                        );
                    assert(t1.projects@[i].id@ == d);
                }
            }
        }
        if self.has_framework_exec(framework) {
            return;
        }
        let n = self.frameworks.len();
        self.frameworks.push(framework.duplicate());
        proof {
            let t3 = *self;
            assert forall|a: int| 0 <= a < n implies #[trigger] t3.frameworks@[a] == t2.frameworks@[a] by {}
            assert forall|fw: Seq<char>| t3.has_framework(fw) == (t2.has_framework(fw) || fw == framework@) by {
                if t2.has_framework(fw) {
                    let i = choose|i: int| 0 <= i < t2.frameworks@.len() && #[trigger] t2.frameworks@[i]@ == fw;
                    assert(t3.frameworks@[i]@ == fw);
                }
                if fw == framework@ {
                    assert(t3.frameworks@[n as int]@ == fw);
                }
            }
            assert(t3.projects@ == t2.projects@);
        }
    }

    /// Whether a link was made under the framework.
    fn has_framework_exec(&self, framework: &Framework) -> (r: bool)
        ensures
            r == self.has_framework(framework@),
    {
        let n = self.frameworks.len();
        for k in 0..n
            invariant
                n == self.frameworks@.len(),
                forall|a: int| 0 <= a < k ==> #[trigger] self.frameworks@[a]@ != framework@,
        {
            if self.frameworks[k].id == framework.id {
                proof {
                    assert(self.frameworks@[k as int]@ == framework@);
                }
                return true;
            }
        }
        false
    }

    /// The project with the identifier `project`, if it is in the tree.
    pub fn get(&self, project: &Id) -> (r: Option<&Project>)
        requires
            self.wf(),
        ensures
            match r {
                Some(p) => {
                    &&& self.has_project(project@)
                    &&& p.id@ == project@
                    &&& p.name@ == project@
                    &&& project_wf(*p)
                    &&& (p.frameworks@.len() == 0 <==> forall|fw: Seq<char>, d: Seq<char>|
                        !self.depends_on(project@, fw, d))
                    &&& (p.reverse_dependencies@.len() == 0 <==> forall|fw: Seq<char>, q: Seq<char>|
                        !self.depended_by(project@, fw, q))
                    &&& forall|fw: Seq<char>, d: Seq<char>|
                        project_depends(*p, fw, d) == self.depends_on(project@, fw, d)
                    &&& forall|fw: Seq<char>, q: Seq<char>|
                        project_depended_by(*p, fw, q) == self.depended_by(project@, fw, q)
                },
                None => !self.has_project(project@),
            },
    {
        match self.position(project) {
            Some(i) => {
                let p = &self.projects[i];
                proof {
                    assert forall|fw: Seq<char>, d: Seq<char>|
                        project_depends(*p, fw, d) == self.depends_on(project@, fw, d) by {
                        if self.depends_on(project@, fw, d) {
                            let j = choose|j: int|
                                0 <= j < self.projects@.len() && #[trigger] self.projects@[j].id@ == project@
                                    && project_depends(self.projects@[j], fw, d);
                            if j != i {
                                assert(self.projects@[j].id@ != self.projects@[i as int].id@);
                            }
                        }
                    }
                    assert forall|fw: Seq<char>, q: Seq<char>|
                        project_depended_by(*p, fw, q) == self.depended_by(project@, fw, q) by {
                        if self.depended_by(project@, fw, q) {
                            let j = choose|j: int|
                                0 <= j < self.projects@.len() && #[trigger] self.projects@[j].id@ == project@
                                    && project_depended_by(self.projects@[j], fw, q);
                            if j != i {
                                assert(self.projects@[j].id@ != self.projects@[i as int].id@);
                            }
                        }
                    }
                    assert(project_wf(*p));
                    if p.frameworks@.len() > 0 {
                        let e = p.frameworks@[0];
                        assert(e.1.dependencies@.len() > 0);
                        assert(project_depends(*p, e.0@, e.1.dependencies@[0]@));
                        assert(self.depends_on(project@, e.0@, e.1.dependencies@[0]@));
                    }
                    if p.reverse_dependencies@.len() > 0 {
                        let e = p.reverse_dependencies@[0];
                        assert(project_depended_by(*p, e.0@, e.1@));
                        assert(self.depended_by(project@, e.0@, e.1@));
                    }
                }
                Some(p)
            },
            None => None,
        }
    }

    /// Adds a project with this name unless the tree has one; its identifier.
    pub fn insert(&mut self, name: String) -> (r: Id)
        requires
            old(self).wf(),
        ensures
            final(self).wf(),
            r@ == name@,
            forall|n: Seq<char>| final(self).has_project(n) == (old(self).has_project(n) || n == name@),
            forall|p: Seq<char>, fw: Seq<char>, d: Seq<char>|
                final(self).depends_on(p, fw, d) == old(self).depends_on(p, fw, d),
            forall|d: Seq<char>, fw: Seq<char>, p: Seq<char>|
                final(self).depended_by(d, fw, p) == old(self).depended_by(d, fw, p),
            forall|fw: Seq<char>| final(self).has_framework(fw) == old(self).has_framework(fw),
            old(self).links_match() ==> final(self).links_match(),
            old(self).has_project(name@) ==> *final(self) == *old(self),
    {
        let ghost t_in = *self;
        let new_project = Project::new(name);
        let id = new_project.id.duplicate();
        match self.position(&id) {
            Some(_) => {},
            None => {
                let ghost t0 = *self;
                let ghost np = new_project;
                self.projects.push(new_project);
                proof {
                    let t1 = *self;
                    let n = t0.projects@.len();
                    assert(t1.frameworks@ == t0.frameworks@);
                    assert forall|fw: Seq<char>| t1.has_framework(fw) == t0.has_framework(fw) by {}
                    assert forall|a: int| 0 <= a < n implies #[trigger] t1.projects@[a] == t0.projects@[a] by {}
                    assert forall|nm: Seq<char>| t1.has_project(nm) == (t0.has_project(nm) || nm == id@) by {
                        if t0.has_project(nm) {
                            let i = choose|i: int| 0 <= i < t0.projects@.len() && #[trigger] t0.projects@[i].id@ == nm;
                            assert(t1.projects@[i].id@ == nm);
                        }
                        if nm == id@ {
                            assert(t1.projects@[n as int].id@ == nm);
                        }
                    }
                    assert forall|p: Seq<char>, fw: Seq<char>, d: Seq<char>|
                        t1.depends_on(p, fw, d) == t0.depends_on(p, fw, d) by {
                        if t0.depends_on(p, fw, d) {
                            let i = choose|i: int|
                                0 <= i < t0.projects@.len() && #[trigger] t0.projects@[i].id@ == p && project_depends(
                                    t0.projects@[i],
                                    fw,
                                    d,
                                );
                            assert(t1.projects@[i].id@ == p);
                        }
                        if t1.depends_on(p, fw, d) {
                            let i = choose|i: int|
                                0 <= i < t1.projects@.len() && #[trigger] t1.projects@[i].id@ == p && project_depends(
                                    t1.projects@[i],
                                    fw,
                                    d,
                                );
                            if i == n {
                                assert(!project_depends(np, fw, d));
                            }
                        }
                    }
                    assert forall|d: Seq<char>, fw: Seq<char>, p: Seq<char>|
                        t1.depended_by(d, fw, p) == t0.depended_by(d, fw, p) by {
                        if t0.depended_by(d, fw, p) {
                            let i = choose|i: int|
                                0 <= i < t0.projects@.len() && #[trigger] t0.projects@[i].id@ == d && project_depended_by(
                                    t0.projects@[i],
                                    fw,
                                    p,
                                );
                            assert(t1.projects@[i].id@ == d);
                        }
                        if t1.depended_by(d, fw, p) {
                            let i = choose|i: int|
                                0 <= i < t1.projects@.len() && #[trigger] t1.projects@[i].id@ == d && project_depended_by(
                                    t1.projects@[i],
                                    fw,
                                    p,
                                );
                            if i == n {
                                assert(!project_depended_by(np, fw, p));
                            }
                        }
                    }
                }
            },
        }
        proof {
            if t_in.links_match() {
                lemma_insert_keeps_links_match(t_in, *self);
            }
        }
        id
    }

    /// The projects of the tree with their identifiers, each once.
    pub fn iter(&self) -> (r: Vec<(&Id, &Project)>)
        ensures
            forall|i: int| #![trigger r@[i]] 0 <= i < r@.len() ==> r@[i].0 == &r@[i].1.id,
            forall|n: Seq<char>| self.has_project(n) == exists|i: int| 0 <= i < r@.len() && #[trigger] r@[i].0@ == n,
    {
        let mut r: Vec<(&Id, &Project)> = Vec::new();
        let n = self.projects.len();
        for i in 0..n
            invariant
                n == self.projects@.len(),
                r@.len() == i,
                forall|k: int| #![trigger r@[k]] 0 <= k < i ==> r@[k].1 == &self.projects@[k] && r@[k].0 == &r@[k].1.id,
        {
            r.push((&self.projects[i].id, &self.projects[i]));
        }
        proof {
            assert forall|nm: Seq<char>| self.has_project(nm) == exists|i: int| 0 <= i < r@.len() && #[trigger] r@[i].0@ == nm by {
                if self.has_project(nm) {
                    let i = choose|i: int| 0 <= i < self.projects@.len() && #[trigger] self.projects@[i].id@ == nm;
                    assert(r@[i].0@ == nm);
                }
                if exists|i: int| 0 <= i < r@.len() && #[trigger] r@[i].0@ == nm {
                    let i = choose|i: int| 0 <= i < r@.len() && #[trigger] r@[i].0@ == nm;
                    assert(self.projects@[i].id@ == nm);
                }
            }
        }
        r
    }

    /// The frameworks that links were made under, each once.
    pub fn frameworks_iter(&self) -> (r: Vec<&Framework>)
        requires
            self.wf(),
        ensures
            forall|f: Seq<char>| self.has_framework(f) == exists|i: int| 0 <= i < r@.len() && #[trigger] r@[i]@ == f,
            forall|a: int, b: int| #![trigger r@[a], r@[b]] 0 <= a < b < r@.len() ==> r@[a]@ != r@[b]@,
    {
        let mut r: Vec<&Framework> = Vec::new();
        let n = self.frameworks.len();
        for i in 0..n
            invariant
                n == self.frameworks@.len(),
                r@.len() == i,
                forall|k: int| #![trigger r@[k]] 0 <= k < i ==> r@[k] == &self.frameworks@[k],
        {
            r.push(&self.frameworks[i]);
        }
        proof {
            assert forall|f: Seq<char>| self.has_framework(f) == exists|i: int| 0 <= i < r@.len() && #[trigger] r@[i]@ == f by {
                if self.has_framework(f) {
                    let i = choose|i: int| 0 <= i < self.frameworks@.len() && #[trigger] self.frameworks@[i]@ == f;
                    assert(r@[i]@ == f);
                }
                if exists|i: int| 0 <= i < r@.len() && #[trigger] r@[i]@ == f {
                    let i = choose|i: int| 0 <= i < r@.len() && #[trigger] r@[i]@ == f;
                    assert(self.frameworks@[i]@ == f);
                }
            }
        }
        r
    }
}

/// Linking keeps the links in agreement both ways, and the frameworks of the
/// tree those some link was made under.
pub proof fn lemma_link_keeps_links_match(
    before: ProjectTree,
    after: ProjectTree,
    project: Seq<char>,
    dependency: Seq<char>,
    framework: Seq<char>,
)
    requires
        before.links_match(),
        forall|p: Seq<char>, fw: Seq<char>, d: Seq<char>|
            after.depends_on(p, fw, d) == (before.depends_on(p, fw, d) || (p == project && fw == framework && d
                == dependency)),
        forall|d: Seq<char>, fw: Seq<char>, p: Seq<char>|
            after.depended_by(d, fw, p) == (before.depended_by(d, fw, p) || (d == dependency && fw == framework
                && p == project)),
        forall|fw: Seq<char>| after.has_framework(fw) == (before.has_framework(fw) || fw == framework),
    ensures
        after.links_match(),
{
    assert forall|p: Seq<char>, fw: Seq<char>, d: Seq<char>| #[trigger] after.depends_on(p, fw, d)
        == #[trigger] after.depended_by(d, fw, p) by {
        assert(before.depends_on(p, fw, d) == before.depended_by(d, fw, p));
    }
    assert forall|fw: Seq<char>| #[trigger] after.has_framework(fw) == exists|p: Seq<char>, d: Seq<char>|
        #[trigger] after.depends_on(p, fw, d) by {
        if after.has_framework(fw) {
            if fw == framework {
                assert(after.depends_on(project, fw, dependency));
            } else {
                assert(before.has_framework(fw));
                let (p, d) = choose|p: Seq<char>, d: Seq<char>| #[trigger] before.depends_on(p, fw, d);
                assert(after.depends_on(p, fw, d));
            }
        }
        if exists|p: Seq<char>, d: Seq<char>| #[trigger] after.depends_on(p, fw, d) {
            let (p, d) = choose|p: Seq<char>, d: Seq<char>| #[trigger] after.depends_on(p, fw, d);
            if !(p == project && fw == framework && d == dependency) {
                assert(before.depends_on(p, fw, d));
            }
        }
    }
}

/// Adding a project keeps the links in agreement.
pub proof fn lemma_insert_keeps_links_match(before: ProjectTree, after: ProjectTree)
    requires
        before.links_match(),
        forall|p: Seq<char>, fw: Seq<char>, d: Seq<char>| after.depends_on(p, fw, d) == before.depends_on(p, fw, d),
        forall|d: Seq<char>, fw: Seq<char>, p: Seq<char>| after.depended_by(d, fw, p) == before.depended_by(d, fw, p),
        forall|fw: Seq<char>| after.has_framework(fw) == before.has_framework(fw),
    ensures
        after.links_match(),
{
    assert forall|p: Seq<char>, fw: Seq<char>, d: Seq<char>| #[trigger] after.depends_on(p, fw, d)
        == #[trigger] after.depended_by(d, fw, p) by {
        assert(before.depends_on(p, fw, d) == before.depended_by(d, fw, p));
    }
    assert forall|fw: Seq<char>| #[trigger] after.has_framework(fw) == exists|p: Seq<char>, d: Seq<char>|
        #[trigger] after.depends_on(p, fw, d) by {
        assert(before.has_framework(fw) == exists|p: Seq<char>, d: Seq<char>| #[trigger] before.depends_on(p, fw, d));
        if before.has_framework(fw) {
            let (p, d) = choose|p: Seq<char>, d: Seq<char>| #[trigger] before.depends_on(p, fw, d);
            assert(after.depends_on(p, fw, d));
        }
        if exists|p: Seq<char>, d: Seq<char>| #[trigger] after.depends_on(p, fw, d) {
            let (p, d) = choose|p: Seq<char>, d: Seq<char>| #[trigger] after.depends_on(p, fw, d);
            assert(before.depends_on(p, fw, d));
        }
    }
}

} // verus!
