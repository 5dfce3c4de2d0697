//! The task registry, the selection of the tasks that a requested task needs,
//! and their ordering so that every dependency comes before its dependents.
use vstd::prelude::*;
use vstd::set_lib::{lemma_int_range, lemma_len_subset, set_int_range};

use crate::name::{ascending, lemma_ascending_unique, lemma_name_lt_irreflexive, lemma_name_lt_total, lemma_name_lt_transitive, name_less, name_lt};
use crate::task::{views, Task};

verus! {

/// Why a plan could not be made.
#[derive(Debug)]
pub enum WorkflowError {
    /// A requested task is not in the registry.
    TaskNotFound(String),
    /// These tasks depend on each other in a cycle (each of them depends on
    /// another one of them), so no order can satisfy them.
    CyclicDependency(Vec<String>),
}

/// The registry: tasks by unique name, kept in ascending order of name.
#[derive(Debug)]
pub struct Workflow {
    version: String,
    tasks: Vec<(String, Task)>,
}

impl Workflow {
    pub closed spec fn spec_version(&self) -> Seq<char> {
        self.version@
    }

    /// The registered names, in registry order.
    pub closed spec fn names(&self) -> Seq<Seq<char>> {
        Seq::new(self.tasks@.len(), |i: int| self.tasks@[i].0@)
    }

    /// The task registered at position `i`.
    pub closed spec fn task_at(&self, i: int) -> Task {
        self.tasks@[i].1
    }

    /// Names are unique and ascending.
    pub open spec fn wf(&self) -> bool {
        &&& self.names().no_duplicates()
        &&& forall|i: int, j: int| 0 <= i < j < self.len() ==> name_lt(#[trigger] self.names()[i], #[trigger] self.names()[j])
    }

    /// The task registered under `n`.
    pub open spec fn task_named(&self, n: Seq<char>) -> Task {
        self.task_at(self.names().index_of(n))
    }

    pub open spec fn len(&self) -> nat {
        self.names().len()
    }

    pub open spec fn has_task(&self, n: Seq<char>) -> bool {
        self.names().contains(n)
    }

    /// The dependency names of the task at position `i`.
    pub open spec fn deps_at(&self, i: int) -> Seq<Seq<char>> {
        self.task_at(i).spec_deps()
    }

    /// The task at position `i` depends on the registered task at position `j`.
    pub open spec fn edge(&self, i: int, j: int) -> bool {
        &&& 0 <= i < self.len()
        &&& 0 <= j < self.len()
        &&& self.deps_at(i).contains(self.names()[j])
    }

    /// `p` is a walk along dependency edges between registered tasks.
    pub open spec fn is_path(&self, p: Seq<int>) -> bool {
        &&& p.len() >= 1
        &&& forall|k: int| 0 <= k < p.len() ==> 0 <= #[trigger] p[k] < self.len()
        &&& forall|k: int| 0 <= k < p.len() - 1 ==> self.edge(#[trigger] p[k], p[k + 1])
    }

    /// The registered task `b` is `a` itself or one of its transitive
    /// dependencies (dependency names missing from the registry are ignored).
    pub open spec fn reaches(&self, a: Seq<char>, b: Seq<char>) -> bool {
        exists|p: Seq<int>|
            #![trigger self.is_path(p)]
            self.is_path(p) && self.names()[p[0]] == a && self.names()[p.last()] == b
    }

    /// Index-level form of `reaches`.
    pub open spec fn reaches_at(&self, a: int, b: int) -> bool {
        exists|p: Seq<int>| #![trigger self.is_path(p)] self.is_path(p) && p[0] == a && p.last() == b
    }

    /// The registered task named `a` lists `b` among its dependencies.
    pub open spec fn depends_on(&self, a: Seq<char>, b: Seq<char>) -> bool {
        exists|i: int| 0 <= i < self.len() && self.names()[i] == a && #[trigger] self.deps_at(i).contains(b)
    }

    /// `s` lists each name of `sel` once, and every dependency of a listed
    /// task that is listed too comes strictly before it.
    pub open spec fn is_order_of(&self, sel: Set<Seq<char>>, s: Seq<Seq<char>>) -> bool {
        &&& s.no_duplicates()
        &&& s.to_set() == sel
        &&& forall|i: int, j: int|
            0 <= i < s.len() && 0 <= j < s.len() && #[trigger] self.depends_on(s[j], s[i]) ==> i < j
    }

    /// `l[q]` is the layer of `o[q]`: one more than the highest layer among
    /// its dependencies listed in `o`, or 0 when it has none there; `o` lists
    /// the layers in increasing order, each one by ascending name.
    pub open spec fn is_layered(&self, o: Seq<Seq<char>>, l: Seq<int>) -> bool {
        &&& l.len() == o.len()
        &&& forall|q: int| 0 <= q < o.len() ==> #[trigger] l[q] >= 0
        &&& forall|p: int, q: int|
            0 <= p < o.len() && 0 <= q < o.len() && #[trigger] self.depends_on(o[q], o[p]) ==> l[p] < l[q]
        &&& forall|q: int| 0 <= q < o.len() && #[trigger] l[q] > 0 ==> exists|p: int|
            0 <= p < o.len() && #[trigger] self.depends_on(o[q], o[p]) && l[p] == l[q] - 1
        &&& forall|p: int, q: int|
            0 <= p < q < o.len() ==> #[trigger] l[p] < #[trigger] l[q] || (l[p] == l[q] && name_lt(o[p], o[q]))
    }

    /// `stuck` is a non-empty part of `sel` each member of which depends on
    /// another member: a cycle among the tasks of `sel`.
    #[verifier::opaque]
    pub open spec fn is_stuck(&self, sel: Set<Seq<char>>, stuck: Set<Seq<char>>) -> bool {
        &&& stuck.subset_of(sel)
        &&& exists|m: Seq<char>| stuck.contains(m)
        &&& forall|m: Seq<char>| #[trigger] stuck.contains(m) ==> exists|m2: Seq<char>|
                stuck.contains(m2) && #[trigger] self.depends_on(m, m2)
    }

    /// The set of tasks that the task named `n` needs, itself included.
    pub open spec fn closure(&self, n: Seq<char>) -> Set<Seq<char>> {
        Set::new(|m: Seq<char>| self.reaches(n, m))
    }

    /// An empty registry.
    pub fn new(version: String) -> (r: Workflow)
        ensures
            r.wf(),
            r.len() == 0,
            r.spec_version() == version@,
    {
        let r = Workflow { version, tasks: Vec::new() };
        assert(r.names() =~= Seq::<Seq<char>>::empty());
        r
    }

    pub fn version(&self) -> (r: &String)
        ensures
            r@ == self.spec_version(),
    {
        &self.version
    }

    /// Position of the task named `n`, if it is registered.
    pub fn find(&self, n: &String) -> (r: Option<usize>)
        requires
            self.wf(),
        ensures
            match r {
                Some(i) => i < self.len() && self.names()[i as int] == n@,
                None => !self.has_task(n@),
            },
    {
        let mut i: usize = 0;
        while i < self.tasks.len()
            invariant
                i <= self.len(),
                forall|k: int| 0 <= k < i ==> self.names()[k] != n@,
            decreases self.tasks@.len() - i,
        {
            if self.tasks[i].0 == *n {
                return Some(i);
            }
            i = i + 1;
        }
        None
    }

    /// Registers `task` under `name`, replacing a task of the same name.
    pub fn add_task(&mut self, name: String, task: Task)
        requires
            old(self).wf(),
        ensures
            final(self).wf(),
            final(self).spec_version() == old(self).spec_version(),
            final(self).len() == old(self).len() + (if old(self).has_task(name@) { 0int } else { 1int }),
            forall|n: Seq<char>| #[trigger] final(self).has_task(n) <==> old(self).has_task(n) || n == name@,
            final(self).task_named(name@) == task,
            forall|n: Seq<char>| final(self).has_task(n) && n != name@ ==> #[trigger] final(self).task_named(n) == old(self).task_named(n),
    {
        let ghost old_self = *self;
        let ghost old_names = self.names();
        let ghost nm = name@;
        let mut i: usize = 0;
        while i < self.tasks.len() && name_less(&self.tasks[i].0, &name)
            invariant
                self.wf(),
                *self == old_self,
                nm == name@,
                i <= self.len(),
                forall|k: int| 0 <= k < i ==> name_lt(#[trigger] self.names()[k], nm),
            decreases self.tasks@.len() - i,
        {
            i = i + 1;
        }
        proof {
            if i < old_names.len() && old_names[i as int] != nm {
                lemma_name_lt_total(old_names[i as int], nm);
            }
            assert forall|k: int| 0 <= k < old_names.len() && old_names[k] == nm implies k == i by {
                if k < i {
                    lemma_name_lt_irreflexive(nm);
                } else if k > i {
                    lemma_name_lt_transitive(nm, old_names[i as int], old_names[k]);
                    lemma_name_lt_irreflexive(nm);
                }
            }
        }
        if i < self.tasks.len() && self.tasks[i].0 == name {
            self.tasks.set(i, (name, task));
            proof {
                assert(self.names() =~= old_names);
                assert(self.names().index_of(nm) == i) by {
                    assert(self.names()[i as int] == nm);
                }
                assert forall|n: Seq<char>| self.has_task(n) && n != nm implies #[trigger] self.task_named(n) == old_self.task_named(n) by {
                    let k = self.names().index_of(n);
                    assert(self.names().contains(n));
                    assert(self.names()[k] == n);
                    assert(k != i);
                }
            }
        } else {
            self.tasks.insert(i, (name, task));
            proof {
                let new_names = old_names.insert(i as int, nm);
                assert(self.names() =~= new_names);
                assert forall|a: int, b: int| 0 <= a < b < self.len() implies name_lt(#[trigger] self.names()[a], #[trigger] self.names()[b]) by {
                    if b < i {
                    } else if a < i && b == i {
                    } else if a < i {
                        assert(name_lt(old_names[a], old_names[b - 1]));
                    } else if a == i {
                        if b - 1 > i {
                            lemma_name_lt_transitive(nm, old_names[i as int], old_names[b - 1]);
                        }
                    } else {
                    }
                }
                assert forall|a: int, b: int| 0 <= a < b < self.len() implies self.names()[a] != self.names()[b] by {
                    if self.names()[a] == self.names()[b] {
                        lemma_name_lt_irreflexive(self.names()[a]);
                    }
                }
                assert(self.names()[i as int] == nm);
                assert(self.names().index_of(nm) == i);
                assert forall|n: Seq<char>| #[trigger] self.has_task(n) <==> old_self.has_task(n) || n == nm by {
                    if self.has_task(n) {
                        let k = choose|k: int| 0 <= k < self.len() && self.names()[k] == n;
                        if k < i {
                            assert(old_names[k] == n);
                        } else if k > i {
                            assert(old_names[k - 1] == n);
                        }
                    }
                    if old_self.has_task(n) {
                        let k = choose|k: int| 0 <= k < old_names.len() && old_names[k] == n;
                        if k < i {
                            assert(self.names()[k] == n);
                        } else {
                            assert(self.names()[k + 1] == n);
                        }
                    }
                }
                assert forall|n: Seq<char>| self.has_task(n) && n != nm implies #[trigger] self.task_named(n) == old_self.task_named(n) by {
                    let k = self.names().index_of(n);
                    assert(self.names().contains(n));
                    assert(self.names()[k] == n);
                    assert(old_self.has_task(n));
                    let ok = old_names.index_of(n);
                    assert(old_names.contains(n));
                    assert(old_names[ok] == n);
                    if k < i {
                        assert(old_names[k] == n);
                        assert(ok == k);
                    } else {
                        assert(k != i);
                        assert(old_names[k - 1] == n);
                        assert(ok == k - 1);
                    }
                }
            }
        }
    }

    /// The task registered under `n`.
    pub fn task(&self, n: &String) -> (r: Option<&Task>)
        requires
            self.wf(),
        ensures
            match r {
                Some(t) => self.has_task(n@) && *t == self.task_named(n@),
                None => !self.has_task(n@),
            },
    {
        match self.find(n) {
            Some(i) => {
                let t = &self.tasks[i].1;
                assert(self.task_at(i as int) == *t);
                assert(self.names().index_of(n@) == i) by {
                    assert(self.names()[i as int] == n@);
                }
                Some(t)
            },
            None => None,
        }
    }
}

impl Workflow {
    proof fn lemma_path_extend(&self, p: Seq<int>, j: int)
        requires
            self.is_path(p),
            self.edge(p.last(), j),
        ensures
            self.is_path(p.push(j)),
            p.push(j)[0] == p[0],
            p.push(j).last() == j,
    {
        let q = p.push(j);
        assert forall|k: int| 0 <= k < q.len() - 1 implies self.edge(#[trigger] q[k], q[k + 1]) by {
            if k < p.len() - 1 {
                assert(q[k] == p[k] && q[k + 1] == p[k + 1]);
            }
        }
    }

    /// A set of positions closed under dependency edges holds every position
    /// that a path from one of its members reaches.
    proof fn lemma_closed_path(&self, visited: Seq<bool>, p: Seq<int>)
        requires
            visited.len() == self.len(),
            self.is_path(p),
            visited[p[0]],
            forall|i: int, j: int| 0 <= i < self.len() && visited[i] && #[trigger] self.edge(i, j) ==> visited[j],
        ensures
            visited[p.last()],
        decreases p.len(),
    {
        if p.len() > 1 {
            let q = p.drop_last();
            assert(self.is_path(q)) by {
                assert forall|k: int| 0 <= k < q.len() - 1 implies self.edge(#[trigger] q[k], q[k + 1]) by {
                    assert(q[k] == p[k] && q[k + 1] == p[k + 1]);
                }
            }
            self.lemma_closed_path(visited, q);
            assert(self.edge(p[p.len() - 2], p[p.len() - 1]));
        }
    }

    /// The names of the requested task and of every task it transitively
    /// depends on, each once, in ascending order. A dependency name that is not
    /// registered is ignored; a requested name that is not registered is an
    /// error.
    pub fn select(&self, name: &String) -> (r: Result<Vec<String>, WorkflowError>)
        requires
            self.wf(),
        ensures
            r is Err <==> !self.has_task(name@),
            r matches Err(e) ==> (e matches WorkflowError::TaskNotFound(m) && m@ == name@),
            r matches Ok(sel) ==> views(sel@).no_duplicates() && views(sel@).to_set() == self.closure(name@),
            r matches Ok(sel) ==> ascending(views(sel@)),
    {
        let s = match self.find(name) {
            Some(s) => s,
            None => {
                return Err(WorkflowError::TaskNotFound(name.clone()));
            },
        };
        let n = self.tasks.len();
        let mut visited: Vec<bool> = Vec::new();
        let mut k: usize = 0;
        while k < n
            invariant
                n == self.len(),
                k <= n,
                visited@.len() == k,
                forall|i: int| 0 <= i < k ==> !visited@[i],
            decreases n - k,
        {
            visited.push(false);
            k = k + 1;
        }
        visited.set(s, true);
        let mut stack: Vec<usize> = vec![s];
        let ghost mut seen: Set<int> = set![s as int];
        proof {
            lemma_int_range(0, n as int);
            let p = seq![s as int];
            assert(self.is_path(p));
        }
        while stack.len() > 0
            invariant
                self.wf(),
                n == self.len(),
                s < n,
                visited@.len() == n,
                visited@[s as int],
                set_int_range(0, n as int).finite(),
                set_int_range(0, n as int).len() == n,
                seen.subset_of(set_int_range(0, n as int)),
                forall|i: int| 0 <= i < n ==> (visited@[i] <==> #[trigger] seen.contains(i)),
                forall|q: int| 0 <= q < stack@.len() ==> #[trigger] stack@[q] < n && visited@[stack@[q] as int],
                forall|i: int| 0 <= i < n && #[trigger] visited@[i] ==> self.reaches_at(s as int, i),
                forall|i: int, j: int|
                    0 <= i < n && visited@[i] && !stack@.contains(i as usize) && #[trigger] self.edge(i, j)
                        ==> visited@[j],
            decreases n - seen.len(), stack@.len(),
        {
            proof {
                lemma_len_subset(seen, set_int_range(0, n as int));
            }
            let ghost pre = stack@;
            let x = stack.pop().unwrap();
            let ghost seen0 = seen;
            let ghost stack0 = stack@;
            proof {
                assert(pre == stack0.push(x));
                assert forall|i: int, j: int|
                    0 <= i < n && i != x && visited@[i] && !stack@.contains(i as usize) && #[trigger] self.edge(i, j)
                        implies visited@[j] by {
                    if pre.contains(i as usize) {
                        let q = choose|q: int| 0 <= q < pre.len() && pre[q] == i as usize;
                        assert(q < stack0.len());
                        assert(stack@[q] == i as usize);
                    }
                }
            }
            let deps = self.tasks[x].1.deps();
            let mut k: usize = 0;
            while k < deps.len()
                invariant
                    self.wf(),
                    n == self.len(),
                    x < n,
                    visited@.len() == n,
                    visited@[x as int],
                    visited@[s as int],
                    seen.finite(),
                    views(deps@) == self.deps_at(x as int),
                    k <= deps@.len(),
                    set_int_range(0, n as int).finite(),
                    seen.subset_of(set_int_range(0, n as int)),
                    seen0.subset_of(seen),
                    seen.len() >= seen0.len() + (stack@.len() - stack0.len()),
                    stack@.len() >= stack0.len(),
                    forall|q: int| 0 <= q < stack0.len() ==> stack@[q] == stack0[q],
                    forall|i: int| 0 <= i < n ==> (visited@[i] <==> #[trigger] seen.contains(i)),
                    forall|q: int| 0 <= q < stack@.len() ==> #[trigger] stack@[q] < n && visited@[stack@[q] as int],
                    forall|i: int| 0 <= i < n && #[trigger] visited@[i] ==> self.reaches_at(s as int, i),
                    forall|i: int, j: int|
                        0 <= i < n && i != x && visited@[i] && !stack@.contains(i as usize) && #[trigger] self.edge(i, j)
                            ==> visited@[j],
                    forall|kk: int, j: int|
                        #![trigger views(deps@)[kk], self.names()[j]]
                        0 <= kk < k && 0 <= j < n && self.names()[j] == views(deps@)[kk] ==> visited@[j],
                decreases deps@.len() - k,
            {
                match self.find(&deps[k]) {
                    Some(j) => {
                        if !visited[j] {
                            proof {
                                assert(self.edge(x as int, j as int)) by {
                                    assert(views(deps@)[k as int] == deps@[k as int]@);
                                }
                                let p = choose|p: Seq<int>| #![trigger self.is_path(p)]
                                    self.is_path(p) && p[0] == s as int && p.last() == x as int;
                                self.lemma_path_extend(p, j as int);
                            }
                            let ghost st = stack@;
                            visited.set(j, true);
                            stack.push(j);
                            proof {
                                seen = seen.insert(j as int);
                                assert(stack@[stack@.len() - 1] == j);
                                assert forall|u: usize| #[trigger] st.contains(u) implies stack@.contains(u) by {
                                    let q = choose|q: int| 0 <= q < st.len() && st[q] == u;
                                    assert(stack@[q] == u);
                                }
                            }
                        }
                    },
                    None => {},
                }
                proof {
                    assert(views(deps@)[k as int] == deps@[k as int]@);
                }
                k = k + 1;
            }
            proof {
                lemma_len_subset(seen, set_int_range(0, n as int));
                assert forall|i: int, j: int|
                    0 <= i < n && visited@[i] && !stack@.contains(i as usize) && #[trigger] self.edge(i, j)
                        implies visited@[j] by {
                    if i == x {
                        let kk = choose|kk: int| 0 <= kk < deps@.len() && views(deps@)[kk] == self.names()[j];
                    }
                }
            }
        }
        let mut out: Vec<String> = Vec::new();
        let ghost mut idx: Seq<int> = Seq::empty();
        let mut i: usize = 0;
        while i < n
            invariant
                self.wf(),
                n == self.len(),
                i <= n,
                visited@.len() == n,
                views(out@).no_duplicates(),
                idx.len() == out@.len(),
                forall|q: int| 0 <= q < out@.len() ==> 0 <= #[trigger] idx[q] < i && visited@[idx[q]]
                    && self.names()[idx[q]] == views(out@)[q],
                forall|q1: int, q2: int| 0 <= q1 < q2 < out@.len() ==> #[trigger] idx[q1] < #[trigger] idx[q2],
                forall|ii: int| 0 <= ii < i && visited@[ii] ==> views(out@).contains(#[trigger] self.names()[ii]),
            decreases n - i,
        {
            if visited[i] {
                let ghost before = views(out@);
                let nm = self.tasks[i].0.clone();
                out.push(nm);
                proof {
                    idx = idx.push(i as int);
                    assert(views(out@) =~= before.push(self.names()[i as int]));
                    assert forall|q: int| 0 <= q < before.len() implies before[q] != self.names()[i as int] by {
                        assert(idx[q] < i);
                        assert(self.names()[idx[q]] == before[q]);
                    }
                    assert forall|ii: int| 0 <= ii < i + 1 && visited@[ii] implies views(out@).contains(#[trigger] self.names()[ii]) by {
                        if ii < i {
                            let q = choose|q: int| 0 <= q < before.len() && before[q] == self.names()[ii];
                            assert(views(out@)[q] == before[q]);
                        } else {
                            assert(views(out@)[before.len() as int] == self.names()[i as int]);
                        }
                    }
                }
            }
            i = i + 1;
        }
        proof {
            assert forall|a: int, b: int| 0 <= a < b < out@.len() implies name_lt(#[trigger] views(out@)[a], #[trigger] views(out@)[b]) by {
                assert(idx[a] < idx[b]);
                assert(name_lt(self.names()[idx[a]], self.names()[idx[b]]));
            }
            assert forall|m: Seq<char>| #[trigger] views(out@).contains(m) <==> self.reaches(name@, m) by {
                if views(out@).contains(m) {
                    let q = choose|q: int| 0 <= q < out@.len() && views(out@)[q] == m;
                    let ii = idx[q];
                    let p = choose|p: Seq<int>| #![trigger self.is_path(p)]
                        self.is_path(p) && p[0] == s as int && p.last() == ii;
                    assert(self.is_path(p) && self.names()[p[0]] == name@ && self.names()[p.last()] == m);
                }
                if self.reaches(name@, m) {
                    let p = choose|p: Seq<int>| #![trigger self.is_path(p)]
                        self.is_path(p) && self.names()[p[0]] == name@ && self.names()[p.last()] == m;
                    assert(p[0] == s as int);
                    self.lemma_closed_path(visited@, p);
                    assert(views(out@).contains(self.names()[p.last()]));
                }
            }
            assert(views(out@).to_set() =~= self.closure(name@));
        }
        Ok(out)
    }
}

/// Names of the positions `ix` of a registry whose names are `names`.
pub open spec fn names_at(names: Seq<Seq<char>>, ix: Seq<usize>) -> Seq<Seq<char>> {
    Seq::new(ix.len(), |q: int| names[ix[q] as int])
}

impl Workflow {
    /// Every registered dependency of the task at `i` that is selected is
    /// already placed.
    #[verifier::opaque]
    pub open spec fn ready(&self, i: int, in_sel: Seq<bool>, placed: Seq<bool>) -> bool {
        forall|j: int| #[trigger] self.edge(i, j) && in_sel[j] ==> placed[j]
    }

    fn is_ready(&self, i: usize, in_sel: &Vec<bool>, placed: &Vec<bool>) -> (r: bool)
        requires
            self.wf(),
            i < self.len(),
            in_sel@.len() == self.len(),
            placed@.len() == self.len(),
        ensures
            r == self.ready(i as int, in_sel@, placed@),
    {
        reveal(Workflow::ready);
        let deps = self.tasks[i].1.deps();
        let mut k: usize = 0;
        while k < deps.len()
            invariant
                self.wf(),
                i < self.len(),
                in_sel@.len() == self.len(),
                placed@.len() == self.len(),
                views(deps@) == self.deps_at(i as int),
                k <= deps@.len(),
                forall|kk: int, j: int|
                    #![trigger views(deps@)[kk], self.names()[j]]
                    0 <= kk < k && 0 <= j < self.len() && self.names()[j] == views(deps@)[kk] && in_sel@[j]
                        ==> placed@[j],
            decreases deps@.len() - k,
        {
            proof {
                assert(views(deps@)[k as int] == deps@[k as int]@);
            }
            match self.find(&deps[k]) {
                Some(j) => {
                    if in_sel[j] && !placed[j] {
                        proof {
                            reveal(Workflow::ready);
                        }
                        assert(self.edge(i as int, j as int));
                        return false;
                    }
                    proof {
                        assert forall|jj: int| 0 <= jj < self.len() && self.names()[jj] == views(deps@)[k as int] implies jj == j by {
                            assert(self.names()[jj] == self.names()[j as int]);
                        }
                    }
                },
                None => {},
            }
            k = k + 1;
        }
        proof {
            assert forall|j: int| #[trigger] self.edge(i as int, j) && in_sel@[j] implies placed@[j] by {
                let kk = choose|kk: int| 0 <= kk < deps@.len() && views(deps@)[kk] == self.names()[j];
            }
        }
        true
    }

    fn names_of(&self, ix: &Vec<usize>) -> (r: Vec<String>)
        requires
            forall|q: int| 0 <= q < ix@.len() ==> #[trigger] ix@[q] < self.len(),
        ensures
            views(r@) == names_at(self.names(), ix@),
    {
        let mut r: Vec<String> = Vec::new();
        let mut q: usize = 0;
        while q < ix.len()
            invariant
                q <= ix@.len(),
                r@.len() == q,
                forall|q: int| 0 <= q < ix@.len() ==> #[trigger] ix@[q] < self.len(),
                views(r@) == names_at(self.names(), ix@).subrange(0, q as int),
            decreases ix@.len() - q,
        {
            let ghost before = r@;
            r.push(self.tasks[ix[q]].0.clone());
            proof {
                assert(r@ == before.push(r@[q as int]));
                assert(views(r@) =~= names_at(self.names(), ix@).subrange(0, q + 1));
            }
            q = q + 1;
        }
        proof {
            assert(views(r@) =~= names_at(self.names(), ix@));
        }
        r
    }

    /// If every member of the non-empty part `stuck` of `sel` depends on
    /// another member of `stuck`, no order of `sel` exists.
    pub proof fn lemma_stuck_has_no_order(&self, sel: Set<Seq<char>>, stuck: Set<Seq<char>>, s: Seq<Seq<char>>)
        requires
            self.is_stuck(sel, stuck),
        ensures
            !self.is_order_of(sel, s),
    {
        reveal(Workflow::is_stuck);
        if self.is_order_of(sel, s) {
            self.lemma_no_stuck_before(sel, stuck, s, s.len() as int);
            let m = choose|m: Seq<char>| stuck.contains(m);
            assert(s.to_set().contains(m));
            let p = choose|p: int| 0 <= p < s.len() && s[p] == m;
        }
    }

    proof fn lemma_no_stuck_before(&self, sel: Set<Seq<char>>, stuck: Set<Seq<char>>, s: Seq<Seq<char>>, k: int)
        requires
            self.is_order_of(sel, s),
            stuck.subset_of(sel),
            0 <= k <= s.len(),
            forall|m: Seq<char>| #[trigger] stuck.contains(m) ==> exists|m2: Seq<char>|
                stuck.contains(m2) && #[trigger] self.depends_on(m, m2),
        ensures
            forall|p: int| 0 <= p < k ==> !stuck.contains(#[trigger] s[p]),
        decreases k,
    {
        if k > 0 {
            self.lemma_no_stuck_before(sel, stuck, s, k - 1);
            if stuck.contains(s[k - 1]) {
                let m2 = choose|m2: Seq<char>| stuck.contains(m2) && #[trigger] self.depends_on(s[k - 1], m2);
                assert(s.to_set().contains(m2));
                let p = choose|p: int| 0 <= p < s.len() && s[p] == m2;
                assert(self.depends_on(s[k - 1], s[p]));
            }
        }
    }
}

impl Workflow {
    fn falses(n: usize) -> (r: Vec<bool>)
        ensures
            r@.len() == n,
            forall|i: int| 0 <= i < n ==> !#[trigger] r@[i],
    {
        let mut r: Vec<bool> = Vec::new();
        let mut k: usize = 0;
        while k < n
            invariant
                k <= n,
                r@.len() == k,
                forall|i: int| 0 <= i < k ==> !#[trigger] r@[i],
            decreases n - k,
        {
            r.push(false);
            k = k + 1;
        }
        r
    }

    /// Marks the registered positions of the names in `selection`, or gives
    /// the first name that is not registered.
    fn mark(&self, selection: &Vec<String>) -> (r: Result<Vec<bool>, usize>)
        requires
            self.wf(),
        ensures
            match r {
                Ok(in_sel) => in_sel@.len() == self.len()
                    && (forall|k: int| 0 <= k < selection@.len() ==> self.has_task(#[trigger] views(selection@)[k]))
                    && forall|j: int| 0 <= j < self.len() ==> (in_sel@[j] <==> views(selection@).contains(#[trigger] self.names()[j])),
                Err(k) => k < selection@.len() && !self.has_task(views(selection@)[k as int]),
            },
    {
        let n = self.tasks.len();
        let mut in_sel = Self::falses(n);
        let ghost sv = views(selection@);
        let mut k: usize = 0;
        while k < selection.len()
            invariant
                self.wf(),
                n == self.len(),
                sv == views(selection@),
                in_sel@.len() == n,
                k <= selection@.len(),
                forall|kk: int| 0 <= kk < k ==> self.has_task(#[trigger] sv[kk]),
                forall|j: int| 0 <= j < n ==> (in_sel@[j] <==> sv.subrange(0, k as int).contains(#[trigger] self.names()[j])),
            decreases selection@.len() - k,
        {
            assert(sv[k as int] == selection@[k as int]@);
            match self.find(&selection[k]) {
                Some(j) => {
                    in_sel.set(j, true);
                    proof {
                        assert(sv.subrange(0, k + 1) =~= sv.subrange(0, k as int).push(sv[k as int]));
                        assert forall|jj: int| 0 <= jj < n implies (in_sel@[jj] <==> sv.subrange(0, k + 1).contains(#[trigger] self.names()[jj])) by {
                            let sub = sv.subrange(0, k as int);
                            if jj == j {
                                assert(sv.subrange(0, k + 1)[k as int] == self.names()[jj]);
                            } else {
                                assert(self.names()[jj] != self.names()[j as int]);
                                let sub1 = sv.subrange(0, k + 1);
                                if sub1.contains(self.names()[jj]) {
                                    let q = choose|q: int| 0 <= q < k + 1 && #[trigger] sub1[q] == self.names()[jj];
                                    assert(q < k);
                                    assert(sub[q] == self.names()[jj]);
                                }
                                if sub.contains(self.names()[jj]) {
                                    let q = choose|q: int| 0 <= q < k && #[trigger] sub[q] == self.names()[jj];
                                    assert(sv.subrange(0, k + 1)[q] == self.names()[jj]);
                                }
                            }
                        }
                    }
                },
                None => {
                    return Err(k);
                },
            }
            k = k + 1;
        }
        assert(sv.subrange(0, k as int) =~= sv);
        Ok(in_sel)
    }
}

impl Workflow {
    /// Places the selected tasks in layers: each pass takes, in registry
    /// order, every selected task not yet placed whose selected dependencies
    /// were placed by earlier passes. A pass that places nothing while tasks
    /// remain means those tasks form a cycle.
    #[verifier::rlimit(50)]
    pub fn order(&self, selection: &Vec<String>) -> (r: Result<Vec<String>, WorkflowError>)
        requires
            self.wf(),
        ensures
            (r matches Err(WorkflowError::TaskNotFound(_))) <==> exists|k: int|
                0 <= k < selection@.len() && !self.has_task(#[trigger] views(selection@)[k]),
            r matches Err(WorkflowError::TaskNotFound(m)) ==> views(selection@).contains(m@) && !self.has_task(m@),
            !(r matches Err(WorkflowError::TaskNotFound(_))) ==> (r is Ok <==> exists|s: Seq<Seq<char>>|
                self.is_order_of(views(selection@).to_set(), s)),
            r matches Ok(o) ==> self.is_order_of(views(selection@).to_set(), views(o@)),
            r matches Ok(o) ==> exists|l: Seq<int>| self.is_layered(views(o@), l),
            r matches Err(WorkflowError::CyclicDependency(c)) ==> self.is_stuck(views(selection@).to_set(), views(c@).to_set()),
    {
        let ghost sv = views(selection@);
        let ghost sel = sv.to_set();
        let in_sel = match self.mark(selection) {
            Ok(in_sel) => in_sel,
            Err(k) => {
                assert(sv.contains(sv[k as int]));
                return Err(WorkflowError::TaskNotFound(selection[k].clone()));
            },
        };
        let n = self.tasks.len();
        let mut placed = Self::falses(n);
        let mut out: Vec<usize> = Vec::new();
        let ghost mut done: Set<int> = Set::empty();
        let ghost mut lay: Seq<int> = Seq::new(n as nat, |j: int| 0int);
        let ghost mut pass: int = 0;
        proof {
            lemma_int_range(0, n as int);
            reveal(Workflow::layering);
        }
        loop
            invariant
                self.wf(),
                n == self.len(),
                in_sel@.len() == n,
                placed@.len() == n,
                sel == views(selection@).to_set(),
                sv == views(selection@),
                forall|m: Seq<char>| #[trigger] sel.contains(m) ==> self.has_task(m),
                forall|j: int| 0 <= j < n ==> (in_sel@[j] <==> sel.contains(#[trigger] self.names()[j])),
                set_int_range(0, n as int).finite(),
                set_int_range(0, n as int).len() == n,
                done.subset_of(set_int_range(0, n as int)),
                forall|j: int| 0 <= j < n ==> (placed@[j] <==> #[trigger] done.contains(j)),
                forall|j: int| 0 <= j < n && #[trigger] placed@[j] ==> in_sel@[j],
                out@.no_duplicates(),
                forall|q: int| 0 <= q < out@.len() ==> #[trigger] out@[q] < n && placed@[out@[q] as int],
                forall|j: int| 0 <= j < n && #[trigger] placed@[j] ==> out@.contains(j as usize),
                forall|p: int, q: int|
                    0 <= p < out@.len() && 0 <= q < out@.len() && #[trigger] self.edge(out@[q] as int, out@[p] as int)
                        ==> p < q,
                forall|q: int, j: int|
                    0 <= q < out@.len() && #[trigger] self.edge(out@[q] as int, j) && in_sel@[j] ==> placed@[j],
                self.layering(in_sel@, placed@, lay, out@, pass),
                pass >= 0,
            decreases n - done.len(),
        {
            proof {
                lemma_len_subset(done, set_int_range(0, n as int));
            }
            let mut layer: Vec<usize> = Vec::new();
            let mut rest: Vec<usize> = Vec::new();
            let mut i: usize = 0;
            while i < n
                invariant
                    self.wf(),
                    n == self.len(),
                    i <= n,
                    in_sel@.len() == n,
                    placed@.len() == n,
                    forall|a: int| 0 <= a < layer@.len() ==> #[trigger] layer@[a] < i && in_sel@[layer@[a] as int]
                        && !placed@[layer@[a] as int] && self.ready(layer@[a] as int, in_sel@, placed@),
                    forall|a: int, b: int| 0 <= a < b < layer@.len() ==> #[trigger] layer@[a] < #[trigger] layer@[b],
                    forall|a: int| 0 <= a < rest@.len() ==> #[trigger] rest@[a] < n && in_sel@[rest@[a] as int]
                        && !placed@[rest@[a] as int] && !self.ready(rest@[a] as int, in_sel@, placed@),
                    forall|ii: int| 0 <= ii < i && #[trigger] in_sel@[ii] && !placed@[ii]
                        ==> layer@.contains(ii as usize) || rest@.contains(ii as usize),
                decreases n - i,
            {
                if in_sel[i] && !placed[i] {
                    if self.is_ready(i, &in_sel, &placed) {
                        let ghost before = layer@;
                        layer.push(i);
                        proof {
                            assert forall|ii: int| 0 <= ii < i && #[trigger] in_sel@[ii] && !placed@[ii]
                                implies layer@.contains(ii as usize) || rest@.contains(ii as usize) by {
                                if before.contains(ii as usize) {
                                    let a = choose|a: int| 0 <= a < before.len() && before[a] == ii as usize;
                                    assert(layer@[a] == ii as usize);
                                }
                            }
                            assert(layer@[layer@.len() - 1] == i);
                        }
                    } else {
                        let ghost before = rest@;
                        rest.push(i);
                        proof {
                            assert forall|ii: int| 0 <= ii < i && #[trigger] in_sel@[ii] && !placed@[ii]
                                implies layer@.contains(ii as usize) || rest@.contains(ii as usize) by {
                                if before.contains(ii as usize) {
                                    let a = choose|a: int| 0 <= a < before.len() && before[a] == ii as usize;
                                    assert(rest@[a] == ii as usize);
                                }
                            }
                            assert(rest@[rest@.len() - 1] == i);
                        }
                    }
                }
                i = i + 1;
            }
            if layer.len() == 0 {
                if rest.len() == 0 {
                    let o = self.names_of(&out);
                    proof {
                        assert forall|j: int| 0 <= j < n && #[trigger] in_sel@[j] implies placed@[j] by {
                            if !placed@[j] {
                                assert(layer@.contains(j as usize) || rest@.contains(j as usize));
                            }
                        }
                        self.lemma_order_found(sel, in_sel@, placed@, out@, views(o@));
                        self.lemma_layered_found(in_sel@, placed@, lay, out@, pass, views(o@));
                        assert forall|k: int| 0 <= k < selection@.len() implies self.has_task(#[trigger] views(selection@)[k]) by {
                            assert(sel.contains(sv[k]));
                        }
                    }
                    return Ok(o);
                }
                let c = self.names_of(&rest);
                proof {
                    self.lemma_cycle_found(sel, in_sel@, placed@, layer@, rest@, views(c@));
                    assert forall|k: int| 0 <= k < selection@.len() implies self.has_task(#[trigger] views(selection@)[k]) by {
                        assert(sel.contains(sv[k]));
                    }
                }
                return Err(WorkflowError::CyclicDependency(c));
            }
            let ghost placed0 = placed@;
            let ghost out0 = out@;
            let ghost done0 = done;
            let mut t: usize = 0;
            while t < layer.len()
                invariant
                    self.wf(),
                    n == self.len(),
                    in_sel@.len() == n,
                    placed@.len() == n,
                    placed0.len() == n,
                    t <= layer@.len(),
                    forall|a: int| 0 <= a < layer@.len() ==> #[trigger] layer@[a] < n && in_sel@[layer@[a] as int]
                        && !placed0[layer@[a] as int] && self.ready(layer@[a] as int, in_sel@, placed0),
                    forall|a: int, b: int| 0 <= a < b < layer@.len() ==> #[trigger] layer@[a] < #[trigger] layer@[b],
                    out@ == out0 + layer@.subrange(0, t as int),
                    forall|j: int| 0 <= j < n ==> (#[trigger] placed@[j] <==> placed0[j] || layer@.subrange(0, t as int).contains(j as usize)),
                    set_int_range(0, n as int).finite(),
                    done.subset_of(set_int_range(0, n as int)),
                    done.finite(),
                    done.len() == done0.len() + t,
                    forall|j: int| 0 <= j < n ==> (placed@[j] <==> #[trigger] done.contains(j)),
                    forall|j: int| 0 <= j < n && #[trigger] placed0[j] ==> in_sel@[j],
                    out0.no_duplicates(),
                    forall|q: int| 0 <= q < out0.len() ==> #[trigger] out0[q] < n && placed0[out0[q] as int],
                    forall|j: int| 0 <= j < n && #[trigger] placed0[j] ==> out0.contains(j as usize),
                    forall|p: int, q: int|
                        0 <= p < out0.len() && 0 <= q < out0.len() && #[trigger] self.edge(out0[q] as int, out0[p] as int)
                            ==> p < q,
                    forall|q: int, j: int|
                        0 <= q < out0.len() && #[trigger] self.edge(out0[q] as int, j) && in_sel@[j] ==> placed0[j],
                decreases layer@.len() - t,
            {
                let l = layer[t];
                let ghost pl = placed@;
                placed.set(l, true);
                out.push(l);
                proof {
                    assert(!done.contains(l as int)) by {
                        assert(!pl[l as int]) by {
                            if layer@.subrange(0, t as int).contains(l) {
                                let a = choose|a: int| 0 <= a < t && layer@.subrange(0, t as int)[a] == l;
                                assert(layer@[a] < layer@[t as int]);
                            }
                        }
                    }
                    done = done.insert(l as int);
                    assert(layer@.subrange(0, t + 1) =~= layer@.subrange(0, t as int).push(l));
                    assert(out@ =~= out0 + layer@.subrange(0, t + 1));
                    assert forall|j: int| 0 <= j < n implies (#[trigger] placed@[j] <==> placed0[j] || layer@.subrange(0, t + 1).contains(j as usize)) by {
                        let s0 = layer@.subrange(0, t as int);
                        let s1 = layer@.subrange(0, t + 1);
                        if j == l {
                            assert(s1[t as int] == l);
                        } else {
                            if s1.contains(j as usize) {
                                let a = choose|a: int| 0 <= a < t + 1 && #[trigger] s1[a] == j as usize;
                                assert(s0[a] == j as usize);
                            }
                            if s0.contains(j as usize) {
                                let a = choose|a: int| 0 <= a < t && #[trigger] s0[a] == j as usize;
                                assert(s1[a] == j as usize);
                            }
                        }
                    }
                }
                t = t + 1;
            }
            proof {
                assert(layer@.subrange(0, t as int) =~= layer@);
                assert forall|j: int| 0 <= j < n implies (#[trigger] placed@[j] <==> placed0[j] || layer@.contains(j as usize)) by {
                    assert(layer@.subrange(0, t as int) == layer@);
                }
                self.lemma_layer_appended(in_sel@, placed0, placed@, out0, layer@, out@);
                lemma_len_subset(done, set_int_range(0, n as int));
                assert forall|x: int| 0 <= x < n && #[trigger] in_sel@[x] && !placed0[x] && !layer@.contains(x as usize)
                    implies !self.ready(x, in_sel@, placed0) by {
                    assert(rest@.contains(x as usize));
                    let a = choose|a: int| 0 <= a < rest@.len() && rest@[a] == x as usize;
                }
                let lay1 = Seq::new(n as nat, |j: int| if layer@.contains(j as usize) { pass } else { lay[j] });
                self.lemma_layering_step(in_sel@, placed0, placed@, lay, lay1, out0, layer@, out@, pass);
                lay = lay1;
                pass = pass + 1;
            }
        }
    }
}

impl Workflow {
    proof fn lemma_layer_appended(
        &self,
        in_sel: Seq<bool>,
        placed0: Seq<bool>,
        placed: Seq<bool>,
        out0: Seq<usize>,
        layer: Seq<usize>,
        out: Seq<usize>,
    )
        requires
            self.len() <= usize::MAX,
            in_sel.len() == self.len(),
            placed0.len() == self.len(),
            placed.len() == self.len(),
            forall|a: int| 0 <= a < layer.len() ==> #[trigger] layer[a] < self.len() && in_sel[layer[a] as int]
                && !placed0[layer[a] as int] && self.ready(layer[a] as int, in_sel, placed0),
            forall|a: int, b: int| 0 <= a < b < layer.len() ==> #[trigger] layer[a] < #[trigger] layer[b],
            out == out0 + layer,
            forall|j: int| 0 <= j < self.len() ==> (#[trigger] placed[j] <==> placed0[j] || layer.contains(j as usize)),
            forall|j: int| 0 <= j < self.len() && #[trigger] placed0[j] ==> in_sel[j],
            out0.no_duplicates(),
            forall|q: int| 0 <= q < out0.len() ==> #[trigger] out0[q] < self.len() && placed0[out0[q] as int],
            forall|j: int| 0 <= j < self.len() && #[trigger] placed0[j] ==> out0.contains(j as usize),
            forall|p: int, q: int|
                0 <= p < out0.len() && 0 <= q < out0.len() && #[trigger] self.edge(out0[q] as int, out0[p] as int)
                    ==> p < q,
            forall|q: int, j: int|
                0 <= q < out0.len() && #[trigger] self.edge(out0[q] as int, j) && in_sel[j] ==> placed0[j],
        ensures
            forall|j: int| 0 <= j < self.len() && #[trigger] placed[j] ==> in_sel[j],
            out.no_duplicates(),
            forall|q: int| 0 <= q < out.len() ==> #[trigger] out[q] < self.len() && placed[out[q] as int],
            forall|j: int| 0 <= j < self.len() && #[trigger] placed[j] ==> out.contains(j as usize),
            forall|p: int, q: int|
                0 <= p < out.len() && 0 <= q < out.len() && #[trigger] self.edge(out[q] as int, out[p] as int)
                    ==> p < q,
            forall|q: int, j: int|
                0 <= q < out.len() && #[trigger] self.edge(out[q] as int, j) && in_sel[j] ==> placed[j],
    {
        reveal(Workflow::ready);
        let n0 = out0.len();
        assert forall|j: int| 0 <= j < self.len() && #[trigger] placed[j] implies in_sel[j] by {
            if !placed0[j] {
                let a = choose|a: int| 0 <= a < layer.len() && layer[a] == j as usize;
                assert(layer[a] as int == j);
            }
        }
        assert forall|q: int| 0 <= q < out.len() implies #[trigger] out[q] < self.len() && placed[out[q] as int] by {
            if q >= n0 {
                assert(out[q] == layer[q - n0]);
                assert(layer.contains(out[q]));
            } else {
                assert(out[q] == out0[q]);
            }
        }
        assert forall|p: int, q: int| 0 <= p < q < out.len() implies out[p] != out[q] by {
            if q < n0 {
                assert(out[p] == out0[p] && out[q] == out0[q]);
            } else if p < n0 {
                assert(out[p] == out0[p]);
                assert(out[q] == layer[q - n0]);
            } else {
                assert(out[p] == layer[p - n0] && out[q] == layer[q - n0]);
            }
        }
        assert forall|j: int| 0 <= j < self.len() && #[trigger] placed[j] implies out.contains(j as usize) by {
            if placed0[j] {
                let q = choose|q: int| 0 <= q < n0 && out0[q] == j as usize;
                assert(out[q] == j as usize);
            } else {
                let a = choose|a: int| 0 <= a < layer.len() && layer[a] == j as usize;
                assert(out[n0 + a] == j as usize);
            }
        }
        assert forall|q: int, j: int|
            0 <= q < out.len() && #[trigger] self.edge(out[q] as int, j) && in_sel[j] implies placed[j] by {
            if q < n0 {
                assert(out[q] == out0[q]);
            } else {
                assert(out[q] == layer[q - n0]);
                assert(self.ready(layer[q - n0] as int, in_sel, placed0));
            }
        }
        assert forall|p: int, q: int|
            0 <= p < out.len() && 0 <= q < out.len() && #[trigger] self.edge(out[q] as int, out[p] as int)
                implies p < q by {
            let x = out[q] as int;
            let y = out[p] as int;
            if q < n0 {
                assert(out[q] == out0[q]);
                if p >= n0 {
                    assert(out[p] == layer[p - n0]);
                    assert(in_sel[y]);
                    assert(self.edge(out0[q] as int, y));
                } else {
                    assert(out[p] == out0[p]);
                }
            } else {
                assert(out[q] == layer[q - n0]);
                if p >= n0 {
                    assert(out[p] == layer[p - n0]);
                    assert(self.ready(x, in_sel, placed0));
                    assert(in_sel[y]);
                    assert(placed0[y]);
                }
            }
        }
    }

    proof fn lemma_order_found(
        &self,
        sel: Set<Seq<char>>,
        in_sel: Seq<bool>,
        placed: Seq<bool>,
        out: Seq<usize>,
        o: Seq<Seq<char>>,
    )
        requires
            self.len() <= usize::MAX,
            self.wf(),
            in_sel.len() == self.len(),
            placed.len() == self.len(),
            forall|m: Seq<char>| #[trigger] sel.contains(m) ==> self.has_task(m),
            forall|j: int| 0 <= j < self.len() ==> (in_sel[j] <==> sel.contains(#[trigger] self.names()[j])),
            forall|j: int| 0 <= j < self.len() && #[trigger] placed[j] ==> in_sel[j],
            forall|j: int| 0 <= j < self.len() && #[trigger] in_sel[j] ==> placed[j],
            out.no_duplicates(),
            forall|q: int| 0 <= q < out.len() ==> #[trigger] out[q] < self.len() && placed[out[q] as int],
            forall|j: int| 0 <= j < self.len() && #[trigger] placed[j] ==> out.contains(j as usize),
            forall|p: int, q: int|
                0 <= p < out.len() && 0 <= q < out.len() && #[trigger] self.edge(out[q] as int, out[p] as int)
                    ==> p < q,
            o == names_at(self.names(), out),
        ensures
            self.is_order_of(sel, o),
    {
        assert forall|p: int, q: int| 0 <= p < q < o.len() implies o[p] != o[q] by {
            assert(out[p] != out[q]);
        }
        assert forall|m: Seq<char>| #[trigger] o.to_set().contains(m) <==> sel.contains(m) by {
            if o.to_set().contains(m) {
                let q = choose|q: int| 0 <= q < o.len() && o[q] == m;
                assert(in_sel[out[q] as int]);
            }
            if sel.contains(m) {
                let j = choose|j: int| 0 <= j < self.len() && self.names()[j] == m;
                assert(placed[j]);
                let q = choose|q: int| 0 <= q < out.len() && out[q] == j as usize;
                assert(o[q] == self.names()[out[q] as int]);
                assert(o[q] == m);
            }
        }
        assert(o.to_set() =~= sel);
        assert forall|i: int, j: int|
            0 <= i < o.len() && 0 <= j < o.len() && #[trigger] self.depends_on(o[j], o[i]) implies i < j by {
            let t = choose|t: int| 0 <= t < self.len() && self.names()[t] == o[j] && #[trigger] self.deps_at(t).contains(o[i]);
            assert(t == out[j] as int);
            assert(self.edge(out[j] as int, out[i] as int));
        }
    }
}

impl Workflow {
    #[verifier::rlimit(30)]
    proof fn lemma_cycle_found(
        &self,
        sel: Set<Seq<char>>,
        in_sel: Seq<bool>,
        placed: Seq<bool>,
        layer: Seq<usize>,
        rest: Seq<usize>,
        c: Seq<Seq<char>>,
    )
        requires
            self.len() <= usize::MAX,
            in_sel.len() == self.len(),
            placed.len() == self.len(),
            forall|j: int| 0 <= j < self.len() ==> (in_sel[j] <==> sel.contains(#[trigger] self.names()[j])),
            layer.len() == 0,
            rest.len() > 0,
            forall|a: int| 0 <= a < rest.len() ==> #[trigger] rest[a] < self.len() && in_sel[rest[a] as int]
                && !placed[rest[a] as int] && !self.ready(rest[a] as int, in_sel, placed),
            forall|ii: int| 0 <= ii < self.len() && #[trigger] in_sel[ii] && !placed[ii]
                ==> layer.contains(ii as usize) || rest.contains(ii as usize),
            c == names_at(self.names(), rest),
        ensures
            self.is_stuck(sel, c.to_set()),
            forall|s: Seq<Seq<char>>| !self.is_order_of(sel, s),
    {
        let stuck = c.to_set();
        assert(stuck.contains(c[0]));
        assert(stuck.subset_of(sel)) by {
            assert forall|m: Seq<char>| #[trigger] stuck.contains(m) implies sel.contains(m) by {
                let a = choose|a: int| 0 <= a < c.len() && c[a] == m;
                assert(in_sel[rest[a] as int]);
            }
        }
        assert forall|m: Seq<char>| #[trigger] stuck.contains(m) implies exists|m2: Seq<char>|
            stuck.contains(m2) && #[trigger] self.depends_on(m, m2) by {
            let a = choose|a: int| 0 <= a < c.len() && c[a] == m;
            let m2 = self.lemma_rest_member(in_sel, placed, layer, rest, c, a);
            assert(stuck.contains(m2));
        }
        assert(self.is_stuck(sel, stuck)) by {
            reveal(Workflow::is_stuck);
        }
        self.lemma_stuck_has_no_order_at_all(sel, stuck);
    }

    proof fn lemma_stuck_has_no_order_at_all(&self, sel: Set<Seq<char>>, stuck: Set<Seq<char>>)
        requires
            self.is_stuck(sel, stuck),
        ensures
            forall|s: Seq<Seq<char>>| !self.is_order_of(sel, s),
    {
        assert forall|s: Seq<Seq<char>>| !self.is_order_of(sel, s) by {
            self.lemma_stuck_has_no_order(sel, stuck, s);
        }
    }

    proof fn lemma_rest_member(
        &self,
        in_sel: Seq<bool>,
        placed: Seq<bool>,
        layer: Seq<usize>,
        rest: Seq<usize>,
        c: Seq<Seq<char>>,
        a: int,
    ) -> (m2: Seq<char>)
        requires
            self.len() <= usize::MAX,
            in_sel.len() == self.len(),
            placed.len() == self.len(),
            layer.len() == 0,
            0 <= a < rest.len(),
            forall|a: int| 0 <= a < rest.len() ==> #[trigger] rest[a] < self.len() && in_sel[rest[a] as int]
                && !placed[rest[a] as int] && !self.ready(rest[a] as int, in_sel, placed),
            forall|ii: int| 0 <= ii < self.len() && #[trigger] in_sel[ii] && !placed[ii]
                ==> layer.contains(ii as usize) || rest.contains(ii as usize),
            c == names_at(self.names(), rest),
        ensures
            c.contains(m2),
            self.depends_on(c[a], m2),
    {
        reveal(Workflow::ready);
        let x = rest[a] as int;
        assert(!self.ready(x, in_sel, placed));
        let j = choose|j: int| #[trigger] self.edge(x, j) && in_sel[j] && !placed[j];
        assert(!layer.contains(j as usize));
        assert(rest.contains(j as usize));
        let b = choose|b: int| 0 <= b < rest.len() && rest[b] == j as usize;
        assert(c[b] == self.names()[j]);
        assert(c[a] == self.names()[x]);
        assert(self.deps_at(x).contains(self.names()[j]));
        self.names()[j]
    }
}

impl Workflow {
    /// The execution plan for the task named `name`: its closure, ordered so
    /// that every dependency runs before its dependents.
    pub fn plan(&self, name: &String) -> (r: Result<Vec<String>, WorkflowError>)
        requires
            self.wf(),
        ensures
            !self.has_task(name@) <==> (r matches Err(WorkflowError::TaskNotFound(_))),
            r matches Err(WorkflowError::TaskNotFound(m)) ==> m@ == name@,
            self.has_task(name@) ==> (r is Ok <==> exists|s: Seq<Seq<char>>|
                self.is_order_of(self.closure(name@), s)),
            r matches Ok(o) ==> self.is_order_of(self.closure(name@), views(o@)),
            r matches Ok(o) ==> exists|l: Seq<int>| self.is_layered(views(o@), l),
            r matches Err(WorkflowError::CyclicDependency(c)) ==> self.is_stuck(self.closure(name@), views(c@).to_set()),
    {
        let sel = self.select(name)?;
        proof {
            assert forall|k: int| 0 <= k < sel@.len() implies self.has_task(#[trigger] views(sel@)[k]) by {
                let m = views(sel@)[k];
                assert(views(sel@).to_set().contains(m));
                let p = choose|p: Seq<int>| #![trigger self.is_path(p)]
                    self.is_path(p) && self.names()[p[0]] == name@ && self.names()[p.last()] == m;
                assert(self.names().contains(self.names()[p.last()]));
            }
        }
        self.order(&sel)
    }
}

/// Selecting twice for the same name gives the same list: the closure in
/// ascending order, each name once.
pub proof fn lemma_selection_idempotent(w: Workflow, name: Seq<char>, a: Seq<Seq<char>>, b: Seq<Seq<char>>)
    requires
        a.no_duplicates() && a.to_set() == w.closure(name) && ascending(a),
        b.no_duplicates() && b.to_set() == w.closure(name) && ascending(b),
    ensures
        a == b,
{
    lemma_ascending_unique(a, b);
}

/// Two tasks that depend on each other admit no order of any selection that
/// holds both, so ordering such a selection reports a cycle.
pub proof fn lemma_mutual_dependency_has_no_order(
    w: Workflow,
    sel: Set<Seq<char>>,
    a: Seq<char>,
    b: Seq<char>,
)
    requires
        sel.contains(a),
        sel.contains(b),
        w.depends_on(a, b),
        w.depends_on(b, a),
    ensures
        forall|s: Seq<Seq<char>>| !w.is_order_of(sel, s),
{
    assert forall|s: Seq<Seq<char>>| !w.is_order_of(sel, s) by {
        if w.is_order_of(sel, s) {
            assert(s.to_set().contains(a) && s.to_set().contains(b));
            let i = choose|i: int| 0 <= i < s.len() && s[i] == a;
            let j = choose|j: int| 0 <= j < s.len() && s[j] == b;
            assert(w.depends_on(s[i], s[j]));
            assert(w.depends_on(s[j], s[i]));
        }
    }
}

impl Workflow {
    /// Index-level layering of the placed positions after `k` passes.
    #[verifier::opaque]
    spec fn layering(&self, in_sel: Seq<bool>, placed: Seq<bool>, lay: Seq<int>, out: Seq<usize>, k: int) -> bool {
        &&& lay.len() == self.len()
        &&& forall|j: int| 0 <= j < self.len() && #[trigger] placed[j] ==> 0 <= lay[j] < k
        &&& forall|j: int, d: int|
            0 <= j < self.len() && placed[j] && #[trigger] self.edge(j, d) && in_sel[d] ==> lay[d] < lay[j]
        &&& forall|j: int| 0 <= j < self.len() && #[trigger] placed[j] && lay[j] > 0 ==> exists|d: int|
            #[trigger] self.edge(j, d) && in_sel[d] && lay[d] == lay[j] - 1
        &&& forall|x: int| 0 <= x < self.len() && #[trigger] in_sel[x] && !placed[x] && k > 0 ==> exists|d: int|
            #[trigger] self.edge(x, d) && in_sel[d] && (!placed[d] || lay[d] == k - 1)
        &&& forall|p: int, q: int|
            0 <= p < q < out.len() ==> lay[#[trigger] out[p] as int] < lay[#[trigger] out[q] as int] || (lay[out[p] as int]
                == lay[out[q] as int] && out[p] < out[q])
    }

    proof fn lemma_layering_step(
        &self,
        in_sel: Seq<bool>,
        placed0: Seq<bool>,
        placed: Seq<bool>,
        lay0: Seq<int>,
        lay: Seq<int>,
        out0: Seq<usize>,
        layer: Seq<usize>,
        out: Seq<usize>,
        k: int,
    )
        requires
            self.len() <= usize::MAX,
            k >= 0,
            in_sel.len() == self.len(),
            placed0.len() == self.len(),
            placed.len() == self.len(),
            self.layering(in_sel, placed0, lay0, out0, k),
            forall|a: int| 0 <= a < layer.len() ==> #[trigger] layer[a] < self.len() && in_sel[layer[a] as int]
                && !placed0[layer[a] as int] && self.ready(layer[a] as int, in_sel, placed0),
            forall|a: int, b: int| 0 <= a < b < layer.len() ==> #[trigger] layer[a] < #[trigger] layer[b],
            forall|x: int| 0 <= x < self.len() && #[trigger] in_sel[x] && !placed0[x] && !layer.contains(x as usize)
                ==> !self.ready(x, in_sel, placed0),
            out == out0 + layer,
            forall|j: int| 0 <= j < self.len() ==> (#[trigger] placed[j] <==> placed0[j] || layer.contains(j as usize)),
            lay == Seq::new(self.len(), |j: int| if layer.contains(j as usize) { k } else { lay0[j] }),
            forall|q: int| 0 <= q < out0.len() ==> #[trigger] out0[q] < self.len() && placed0[out0[q] as int],
            forall|j: int| 0 <= j < self.len() && #[trigger] placed0[j] ==> out0.contains(j as usize),
            forall|q: int, j: int|
                0 <= q < out0.len() && #[trigger] self.edge(out0[q] as int, j) && in_sel[j] ==> placed0[j],
        ensures
            self.layering(in_sel, placed, lay, out, k + 1),
    {
        reveal(Workflow::layering);
        reveal(Workflow::ready);
        let n0 = out0.len();
        assert forall|j: int| 0 <= j < self.len() && #[trigger] placed0[j] implies !layer.contains(j as usize) && lay[j] == lay0[j] by {
            if layer.contains(j as usize) {
                let a = choose|a: int| 0 <= a < layer.len() && layer[a] == j as usize;
                assert(layer[a] as int == j);
            }
        }
        assert forall|a: int| 0 <= a < layer.len() implies lay[#[trigger] layer[a] as int] == k by {
            assert(layer.contains(layer[a]));
        }
        assert forall|j: int, d: int|
            0 <= j < self.len() && placed0[j] && #[trigger] self.edge(j, d) && in_sel[d] implies placed0[d] by {
            let q = choose|q: int| 0 <= q < n0 && out0[q] == j as usize;
            assert(self.edge(out0[q] as int, d));
        }
        assert forall|j: int| 0 <= j < self.len() && #[trigger] placed[j] implies 0 <= lay[j] < k + 1 by {
            if !placed0[j] {
                let a = choose|a: int| 0 <= a < layer.len() && layer[a] == j as usize;
                assert(lay[layer[a] as int] == k);
            }
        }
        assert forall|j: int, d: int|
            0 <= j < self.len() && placed[j] && #[trigger] self.edge(j, d) && in_sel[d] implies lay[d] < lay[j] by {
            if placed0[j] {
                assert(placed0[d]);
            } else {
                let a = choose|a: int| 0 <= a < layer.len() && layer[a] == j as usize;
                assert(lay[layer[a] as int] == k);
                assert(self.ready(layer[a] as int, in_sel, placed0));
                assert(placed0[d]);
            }
        }
        assert forall|j: int| 0 <= j < self.len() && #[trigger] placed[j] && lay[j] > 0 implies exists|d: int|
            #[trigger] self.edge(j, d) && in_sel[d] && lay[d] == lay[j] - 1 by {
            if placed0[j] {
                let d = choose|d: int| #[trigger] self.edge(j, d) && in_sel[d] && lay0[d] == lay0[j] - 1;
                assert(placed0[d]);
            } else {
                let a = choose|a: int| 0 <= a < layer.len() && layer[a] == j as usize;
                assert(lay[layer[a] as int] == k);
                assert(in_sel[j] && !placed0[j] && k > 0);
                let d = choose|d: int| #[trigger] self.edge(j, d) && in_sel[d] && (!placed0[d] || lay0[d] == k - 1);
                assert(self.ready(layer[a] as int, in_sel, placed0));
                assert(placed0[d]);
            }
        }
        assert forall|x: int| 0 <= x < self.len() && #[trigger] in_sel[x] && !placed[x] && k + 1 > 0 implies exists|d: int|
            #[trigger] self.edge(x, d) && in_sel[d] && (!placed[d] || lay[d] == k) by {
            assert(!layer.contains(x as usize));
            assert(!self.ready(x, in_sel, placed0));
            let d = choose|d: int| #[trigger] self.edge(x, d) && in_sel[d] && !placed0[d];
            if placed[d] {
                assert(layer.contains(d as usize));
            }
        }
        assert forall|p: int, q: int|
            0 <= p < q < out.len() implies lay[#[trigger] out[p] as int] < lay[#[trigger] out[q] as int] || (lay[out[p] as int]
                == lay[out[q] as int] && out[p] < out[q]) by {
            if q < n0 {
                assert(out[p] == out0[p] && out[q] == out0[q]);
            } else if p < n0 {
                assert(out[p] == out0[p]);
                assert(out[q] == layer[q - n0]);
                assert(placed0[out0[p] as int]);
            } else {
                assert(out[p] == layer[p - n0] && out[q] == layer[q - n0]);
            }
        }
    }

    proof fn lemma_layered_found(
        &self,
        in_sel: Seq<bool>,
        placed: Seq<bool>,
        lay: Seq<int>,
        out: Seq<usize>,
        k: int,
        o: Seq<Seq<char>>,
    )
        requires
            self.wf(),
            self.len() <= usize::MAX,
            in_sel.len() == self.len(),
            placed.len() == self.len(),
            self.layering(in_sel, placed, lay, out, k),
            forall|j: int| 0 <= j < self.len() && #[trigger] placed[j] ==> in_sel[j],
            forall|j: int| 0 <= j < self.len() && #[trigger] in_sel[j] ==> placed[j],
            forall|q: int| 0 <= q < out.len() ==> #[trigger] out[q] < self.len() && placed[out[q] as int],
            forall|j: int| 0 <= j < self.len() && #[trigger] placed[j] ==> out.contains(j as usize),
            o == names_at(self.names(), out),
        ensures
            exists|l: Seq<int>| self.is_layered(o, l),
    {
        reveal(Workflow::layering);
        let l = Seq::new(out.len(), |q: int| lay[out[q] as int]);
        assert forall|q: int| 0 <= q < o.len() implies #[trigger] l[q] >= 0 by {
            assert(placed[out[q] as int]);
        }
        assert forall|p: int, q: int|
            0 <= p < o.len() && 0 <= q < o.len() && #[trigger] self.depends_on(o[q], o[p]) implies l[p] < l[q] by {
            let t = choose|t: int| 0 <= t < self.len() && self.names()[t] == o[q] && #[trigger] self.deps_at(t).contains(o[p]);
            assert(t == out[q] as int);
            assert(self.edge(out[q] as int, out[p] as int));
            assert(placed[out[q] as int] && in_sel[out[p] as int]);
        }
        assert forall|q: int| 0 <= q < o.len() && #[trigger] l[q] > 0 implies exists|p: int|
            0 <= p < o.len() && #[trigger] self.depends_on(o[q], o[p]) && l[p] == l[q] - 1 by {
            let j = out[q] as int;
            assert(placed[j]);
            let d = choose|d: int| #[trigger] self.edge(j, d) && in_sel[d] && lay[d] == lay[j] - 1;
            assert(placed[d]);
            assert(out.contains(d as usize));
            let p = choose|p: int| 0 <= p < out.len() && out[p] == d as usize;
            assert(o[p] == self.names()[d]);
            assert(self.depends_on(o[q], o[p]));
            assert(l[p] == l[q] - 1);
        }
        assert forall|p: int, q: int|
            0 <= p < q < o.len() implies #[trigger] l[p] < #[trigger] l[q] || (l[p] == l[q] && name_lt(o[p], o[q])) by {
            assert(lay[out[p] as int] < lay[out[q] as int] || (lay[out[p] as int] == lay[out[q] as int] && out[p] < out[q]));
            if l[p] == l[q] {
                assert(name_lt(self.names()[out[p] as int], self.names()[out[q] as int]));
            }
        }
        assert(self.is_layered(o, l));
    }
}

} // verus!
