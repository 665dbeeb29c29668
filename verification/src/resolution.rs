use std::collections::HashMap;
use std::collections::HashSet;
use vstd::prelude::*;
use vstd::std_specs::iter::IteratorSpec;

use crate::component::{ComponentError, ComponentInfo};
use crate::wake::{WakeLog, wake};
use crate::graph::{
    Graph, acyclic, add_edge, closed_under, depends_on, finite_graph,
    lemma_add_edge_preserves_acyclic, lemma_closed_contains_reach, lemma_reaches_refl,
    lemma_reaches_step, reaches, transitive_dependencies,
};

verus! {

broadcast use vstd::std_specs::hash::group_hash_axioms;

/// Which component depends on which: a key depends on each member of its value.
pub struct ComponentDAG {
    dependencies: HashMap<u64, HashSet<u64>>,
}

impl View for ComponentDAG {
    type V = Graph;

    closed spec fn view(&self) -> Graph {
        self.dependencies@.map_values(|s: HashSet<u64>| s@)
    }
}

/// `r` is the error that reports that `source` may not depend on `dependency`.
pub open spec fn is_cycle_error(
    r: Result<(), ComponentError>,
    source: ComponentInfo,
    dependency: ComponentInfo,
) -> bool {
    r matches Err(ComponentError::DependencyCycle(a, b)) && a@ == source.name@ && b@
        == dependency.name@
}

impl ComponentDAG {
    /// The graph has no cycle and each component has finitely many direct dependencies.
    pub open spec fn wf(&self) -> bool {
        &&& acyclic(self@)
        &&& finite_graph(self@)
    }

    /// The graph without any dependency.
    pub fn new() -> (dag: Self)
        ensures
            dag@ == Map::<u64, Set<u64>>::empty(),
            dag.wf(),
    {
        let dag = ComponentDAG { dependencies: HashMap::new() };
        assert(dag@ =~= Map::<u64, Set<u64>>::empty());
        assert(dag@.dom() =~= Set::<u64>::empty());
        dag
    }

    /// Sets dependency of `source_info` on `dependency_info`.
    /// Returns error if dependency cycle appears as a result of operation.
    pub fn add_dependency(
        &mut self,
        source_info: &ComponentInfo,
        dependency_info: &ComponentInfo,
    ) -> (r: Result<(), ComponentError>)
        ensures
            ({
                let g = old(self)@;
                let s = source_info.type_id;
                let d = dependency_info.type_id;
                if depends_on(g, s, d) {
                    r is Ok && final(self)@ == g
                } else if reaches(g, d, s) {
                    is_cycle_error(r, *source_info, *dependency_info) && final(self)@ == g
                } else {
                    r is Ok && final(self)@ == add_edge(g, s, d)
                }
            }),
            old(self).wf() ==> final(self).wf(),
    {
        let ghost g = self@;
        let s = source_info.type_id;
        let d = dependency_info.type_id;
        if let Some(deps) = self.dependencies.get(&s) {
            if deps.contains(&d) {
                return Ok(());
            }
        }
        if self.get_transitive_dependencies(&d).contains(&s) {
            return Err(
                ComponentError::DependencyCycle(
                    source_info.name.to_owned(),
                    dependency_info.name.to_owned(),
                ),
            );
        }
        let mut deps = match self.dependencies.remove(&s) {
            Some(deps) => deps,
            None => HashSet::new(),
        };
        deps.insert(d);
        self.dependencies.insert(s, deps);
        proof {
            assert(self@ =~= add_edge(g, s, d));
            if old(self).wf() {
                lemma_add_edge_preserves_acyclic(g, s, d);
                assert(self@.dom() =~= self.dependencies@.dom());
                assert forall|k: u64| #[trigger] self@.contains_key(k) implies self@[k].finite() by {
                    if k != s {
                        assert(g.contains_key(k));
                    } else if g.contains_key(s) {
                        assert(g[s].finite());
                    }
                }
            }
        }
        Ok(())
    }

    /// Returns set of transitive dependencies plus self
    pub fn get_transitive_dependencies(&self, type_id: &u64) -> (deps: HashSet<u64>)
        ensures
            deps@ == transitive_dependencies(self@, *type_id),
    {
        let ghost g = self@;
        let x = *type_id;
        let mut seen: HashSet<u64> = HashSet::new();
        let mut order: Vec<u64> = Vec::new();
        seen.insert(x);
        order.push(x);
        proof {
            lemma_reaches_refl(g, x);
        }
        let mut i: usize = 0;
        while i < order.len()
            invariant
                g == self@,
                0 <= i <= order@.len(),
                order@.len() > 0,
                order@[0] == x,
                forall|y: u64| seen@.contains(y) <==> order@.contains(y),
                forall|y: u64| seen@.contains(y) ==> reaches(g, x, y),
                forall|j: int, v: u64|
                    0 <= j < i && #[trigger] depends_on(g, order@[j], v) ==> seen@.contains(v),
            decreases usize::MAX - i,
        {
            let u = order[i];
            match self.dependencies.get(&u) {
                Some(deps) => {
                    assert(deps.iter().remaining().unref().to_set() == deps@);
                    for v in it: deps.iter()
                        invariant
                            g == self@,
                            0 <= i < order@.len(),
                            order@[i as int] == u,
                            g.contains_key(u),
                            g[u] == deps@,
                            order@[0] == x,
                            it.seq().unref().to_set() == deps@,
                            forall|y: u64| seen@.contains(y) <==> order@.contains(y),
                            forall|y: u64| seen@.contains(y) ==> reaches(g, x, y),
                            forall|j: int, v: u64|
                                0 <= j < i && #[trigger] depends_on(g, order@[j], v)
                                    ==> seen@.contains(v),
                            forall|k: int|
                                0 <= k < it.index() ==> seen@.contains(*#[trigger] it.seq()[k]),
                    {
                        if !seen.contains(v) {
                            proof {
                                lemma_reaches_step(g, x, u, *v);
                            }
                            seen.insert(*v);
                            let ghost before = order@;
                            order.push(*v);
                            assert forall|y: u64| order@.contains(y) <==> (before.contains(y) || y == *v) by {
                                if before.contains(y) {
                                    let k = before.index_of(y);
                                    assert(order@[k] == y);
                                }
                                if order@.contains(y) && y != *v {
                                    let k = order@.index_of(y);
                                    assert(before[k] == y);
                                }
                                assert(order@[before.len() as int] == *v);
                            }
                        }
                    }
                    assert forall|w: u64| depends_on(g, u, w) implies seen@.contains(w) by {
                        assert(deps@.contains(w));
                    }
                },
                None => {
                    assert(!g.contains_key(u));
                },
            }
            i += 1;
        }
        proof {
            assert(closed_under(g, seen@)) by {
                assert forall|a: u64, b: u64|
                    seen@.contains(a) && #[trigger] depends_on(g, a, b) implies seen@.contains(b) by {
                    let j = order@.index_of(a);
                    assert(depends_on(g, order@[j], b));
                }
            }
            assert forall|b: u64| reaches(g, x, b) implies seen@.contains(b) by {
                lemma_closed_contains_reach(g, seen@, x, b);
            }
            assert(seen@ =~= transitive_dependencies(g, x));
        }
        seen
    }
}

impl Clone for ComponentDAG {
    fn clone(&self) -> (dag: Self)
        ensures
            dag@ == self@,
            self.wf() ==> dag.wf(),
    {
        ComponentDAG { dependencies: self.dependencies.clone() }
    }
}

impl Default for ComponentDAG {
    fn default() -> (dag: Self)
        ensures
            dag@ == Map::<u64, Set<u64>>::empty(),
            dag.wf(),
    {
        ComponentDAG::new()
    }
}

/// The state shared by the components that are being created: the wakers of the tasks
/// that wait for a component, the components created so far, and the dependencies
/// recorded so far.
pub struct Inner<T> {
    wakers: HashMap<u64, Vec<std::task::Waker>>,
    components: HashMap<u64, T>,
    dag: ComponentDAG,
    wakes: WakeLog,
}

impl<T> Inner<T> {
    /// The wakers woken so far, in the order of the `wake_by_ref` calls on them (the log
    /// that only `wake` extends).
    pub closed spec fn woken(&self) -> Seq<std::task::Waker> {
        self.wakes.woken()
    }

    /// The wakers recorded per awaited type key.
    pub closed spec fn waiting(&self) -> Map<u64, Seq<std::task::Waker>> {
        self.wakers@.map_values(|v: Vec<std::task::Waker>| v@)
    }

    /// The components created so far, by type key.
    pub closed spec fn created(&self) -> Map<u64, T> {
        self.components@
    }

    /// The dependencies recorded so far.
    pub closed spec fn graph(&self) -> Graph {
        self.dag@
    }

    /// No lost wake-up: every waker that waits for a component that exists has been woken.
    pub open spec fn waiters_of_created_woken(&self) -> bool {
        forall|d: u64, k: int|
            self.created().contains_key(d) && 0 <= k < waiting_for(self.waiting(), d).len()
                ==> self.woken().contains(#[trigger] waiting_for(self.waiting(), d)[k])
    }

    /// The graph is acyclic and finite, and no wake-up is lost.
    pub open spec fn wf(&self) -> bool {
        &&& self.graph_wf()
        &&& self.waiters_of_created_woken()
    }

    pub closed spec fn graph_wf(&self) -> bool {
        self.dag.wf()
    }

    /// Nothing waits, nothing is created, nothing depends on anything.
    pub fn new() -> (inner: Self)
        ensures
            inner.waiting() == Map::<u64, Seq<std::task::Waker>>::empty(),
            inner.created() == Map::<u64, T>::empty(),
            inner.graph() == Map::<u64, Set<u64>>::empty(),
            inner.woken() == Seq::<std::task::Waker>::empty(),
            inner.wf(),
    {
        let inner = Inner {
            wakers: HashMap::new(),
            components: HashMap::new(),
            dag: ComponentDAG::new(),
            wakes: WakeLog::new(),
        };
        assert(inner.waiting() =~= Map::<u64, Seq<std::task::Waker>>::empty());
        inner
    }

    /// Records that `source_info` depends on `dependency_info`, as
    /// `ComponentDAG::add_dependency` does.
    pub fn add_dependency(
        &mut self,
        source_info: &ComponentInfo,
        dependency_info: &ComponentInfo,
    ) -> (r: Result<(), ComponentError>)
        ensures
            ({
                let g = old(self).graph();
                let s = source_info.type_id;
                let d = dependency_info.type_id;
                if depends_on(g, s, d) {
                    r is Ok && final(self).graph() == g
                } else if reaches(g, d, s) {
                    is_cycle_error(r, *source_info, *dependency_info) && final(self).graph() == g
                } else {
                    r is Ok && final(self).graph() == add_edge(g, s, d)
                }
            }),
            final(self).waiting() == old(self).waiting(),
            final(self).created() == old(self).created(),
            final(self).woken() == old(self).woken(),
            old(self).wf() ==> final(self).wf(),
    {
        let r = self.dag.add_dependency(source_info, dependency_info);
        assert(self.waiting() == old(self).waiting());
        assert(self.created() == old(self).created());
        r
    }

    /// Records that `source_info` waits for `dependency_info`: the dependency is added as
    /// `add_dependency` does, and on success `waker` joins the wakers of the dependency
    /// (it is woken at once exactly when the dependency already exists).
    pub fn add_waker(
        &mut self,
        waker: std::task::Waker,
        source_info: &ComponentInfo,
        dependency_info: &ComponentInfo,
    ) -> (r: Result<(), ComponentError>)
        ensures
            added_waker(*old(self), *final(self), waker, *source_info, *dependency_info, r),
            old(self).wf() ==> final(self).wf(),
    {
        match self.add_dependency(source_info, dependency_info) {
            Err(err) => return Err(err),
            Ok(()) => {},
        }
        let d = dependency_info.type_id;
        if self.components.contains_key(&d) {
            wake(&mut self.wakes, &waker);
        }
        let ghost before = self.waiting();
        let mut list = match self.wakers.remove(&d) {
            Some(list) => list,
            None => Vec::new(),
        };
        assert(list@ == waiting_for(before, d));
        list.push(waker);
        self.wakers.insert(d, list);
        assert(self.waiting() =~= before.insert(d, waiting_for(before, d).push(waker)));
        proof {
            if old(self).wf() {
                assert forall|e: u64, k: int|
                    self.created().contains_key(e) && 0 <= k < waiting_for(self.waiting(), e).len()
                        implies self.woken().contains(
                        #[trigger] waiting_for(self.waiting(), e)[k],
                    ) by {
                    let w = waiting_for(self.waiting(), e)[k];
                    if e != d {
                        assert(waiting_for(self.waiting(), e) == waiting_for(before, e));
                        assert(old(self).woken().contains(w));
                        let j = old(self).woken().index_of(w);
                        assert(self.woken()[j] == w);
                    } else if k < waiting_for(before, d).len() {
                        assert(w == waiting_for(before, d)[k]);
                        assert(old(self).woken().contains(w));
                        let j = old(self).woken().index_of(w);
                        assert(self.woken()[j] == w);
                    } else {
                        assert(w == waker);
                        assert(self.woken().last() == waker);
                    }
                }
            }
        }
        Ok(())
    }

    /// Stores `component` under its type key and wakes every task that waits for it, in
    /// the order in which they began to wait.
    pub fn add_component(&mut self, component_info: &ComponentInfo, component: T)
        ensures
            added_component(*old(self), *final(self), *component_info, component),
            old(self).wf() ==> final(self).wf(),
    {
        if let Some(list) = self.wakers.get(&component_info.type_id) {
            assert(list@ == waiting_for(old(self).waiting(), component_info.type_id));
            let mut i: usize = 0;
            while i < list.len()
                invariant
                    i <= list@.len(),
                    self.wakes.woken() == old(self).woken() + list@.take(i as int),
                    self.wakers == old(self).wakers,
                    self.components == old(self).components,
                    self.dag == old(self).dag,
                decreases list@.len() - i,
            {
                wake(&mut self.wakes, &list[i]);
                assert(list@.take(i + 1) =~= list@.take(i as int).push(list@[i as int]));
                i += 1;
            }
            assert(list@.take(list@.len() as int) =~= list@);
        } else {
            assert(waiting_for(old(self).waiting(), component_info.type_id) =~= Seq::empty());
            assert(self.woken() =~= old(self).woken() + Seq::empty());
        }
        self.components.insert(component_info.type_id, component);
        proof {
            let id = component_info.type_id;
            let wl = waiting_for(old(self).waiting(), id);
            assert(self.waiting() == old(self).waiting());
            if old(self).wf() {
                assert forall|e: u64, k: int|
                    self.created().contains_key(e) && 0 <= k < waiting_for(self.waiting(), e).len()
                        implies self.woken().contains(
                        #[trigger] waiting_for(self.waiting(), e)[k],
                    ) by {
                    let w = waiting_for(self.waiting(), e)[k];
                    if e == id {
                        assert(self.woken()[old(self).woken().len() + k] == w);
                    } else {
                        assert(old(self).created().contains_key(e));
                        assert(w == waiting_for(old(self).waiting(), e)[k]);
                        assert(old(self).woken().contains(w));
                        let j = old(self).woken().index_of(w);
                        assert(self.woken()[j] == w);
                    }
                }
            }
        }
    }

    /// A clone of the component stored under `component_id`, if there is one.
    pub fn try_get_component(&self, component_id: &u64) -> (r: Option<T>) where T: Clone
        ensures
            r is Some <==> self.created().contains_key(*component_id),
            r matches Some(c) ==> cloned(self.created()[*component_id], c),
    {
        self.components.get(component_id).cloned()
    }

    /// A copy of the components created so far.
    pub fn components(&self) -> (r: HashMap<u64, T>) where T: Clone
        ensures
            r@ == self.created(),
    {
        self.components.clone()
    }

    /// A copy of the dependencies recorded so far.
    pub fn dag(&self) -> (r: ComponentDAG)
        ensures
            r@ == self.graph(),
            self.wf() ==> r.wf(),
    {
        self.dag.clone()
    }
}

impl<T> Default for Inner<T> {
    fn default() -> (inner: Self)
        ensures
            inner.waiting() == Map::<u64, Seq<std::task::Waker>>::empty(),
            inner.created() == Map::<u64, T>::empty(),
            inner.graph() == Map::<u64, Set<u64>>::empty(),
            inner.woken() == Seq::<std::task::Waker>::empty(),
            inner.wf(),
    {
        Inner::new()
    }
}

/// `after` is `before` after `Inner::add_waker(waker, source, dependency)` with result
/// `r`: the dependency is recorded as `ComponentDAG::add_dependency` records it; on
/// success `waker` joins the wakers of the dependency and is woken at once exactly when
/// the dependency exists; on failure nothing else changes.
pub open spec fn added_waker<T>(
    before: Inner<T>,
    after: Inner<T>,
    waker: std::task::Waker,
    source: ComponentInfo,
    dependency: ComponentInfo,
    r: Result<(), ComponentError>,
) -> bool {
    let g = before.graph();
    let s = source.type_id;
    let d = dependency.type_id;
    &&& if depends_on(g, s, d) {
        r is Ok && after.graph() == g
    } else if reaches(g, d, s) {
        is_cycle_error(r, source, dependency) && after.graph() == g
    } else {
        r is Ok && after.graph() == add_edge(g, s, d)
    }
    &&& after.created() == before.created()
    &&& r is Err ==> after.waiting() == before.waiting() && after.woken() == before.woken()
    &&& r is Ok ==> after.waiting() == before.waiting().insert(
        d,
        waiting_for(before.waiting(), d).push(waker),
    )
    &&& r is Ok ==> after.woken() == if before.created().contains_key(d) {
        before.woken().push(waker)
    } else {
        before.woken()
    }
}

/// `after` is `before` after `Inner::add_component(info, component)`: the component is
/// stored under its type key and every waker that waits for it is woken, in the order in
/// which they began to wait.
pub open spec fn added_component<T>(
    before: Inner<T>,
    after: Inner<T>,
    info: ComponentInfo,
    component: T,
) -> bool {
    &&& after.created() == before.created().insert(info.type_id, component)
    &&& after.waiting() == before.waiting()
    &&& after.graph() == before.graph()
    &&& after.woken() == before.woken() + waiting_for(before.waiting(), info.type_id)
}

/// `after` is `before` after one poll, with `waker`, of the request of `source` for
/// `dependency`, and `r` is its result: the waker is added as `Inner::add_waker` adds it;
/// the request fails with the cycle error when the dependency would close a cycle, is
/// ready with a clone of the dependency when it exists, and is pending (`None`)
/// otherwise.
pub open spec fn polled<T: Clone>(
    before: Inner<T>,
    after: Inner<T>,
    waker: std::task::Waker,
    source: ComponentInfo,
    dependency: ComponentInfo,
    r: Option<Result<T, ComponentError>>,
) -> bool {
    let d = dependency.type_id;
    exists|added: Result<(), ComponentError>|
        {
            &&& #[trigger] added_waker(before, after, waker, source, dependency, added)
            &&& match added {
                Err(e) => r == Some(Err::<T, ComponentError>(e)),
                Ok(()) => {
                    &&& r is Some <==> before.created().contains_key(d)
                    &&& r matches Some(x) ==> (x matches Ok(c) && cloned(before.created()[d], c))
                },
            }
        }
}

/// The wakers recorded for `id` in `w`, none if there is no entry.
pub open spec fn waiting_for(w: Map<u64, Seq<std::task::Waker>>, id: u64) -> Seq<std::task::Waker> {
    if w.contains_key(id) {
        w[id]
    } else {
        Seq::empty()
    }
}

/// The resolution state of a build: the wakers of the tasks that wait for a component,
/// the components created so far and the dependencies recorded so far. The tasks that
/// create the components share it behind a lock of the caller's.
pub struct ResolutionContext<T> {
    inner: Inner<T>,
}

impl<T> ResolutionContext<T> {
    /// The state that the context holds.
    pub closed spec fn state(&self) -> Inner<T> {
        self.inner
    }

    /// A context in which nothing waits, nothing is created, nothing depends on anything.
    pub fn new() -> (context: Self)
        ensures
            context.state().waiting() == Map::<u64, Seq<std::task::Waker>>::empty(),
            context.state().created() == Map::<u64, T>::empty(),
            context.state().graph() == Map::<u64, Set<u64>>::empty(),
            context.state().woken() == Seq::<std::task::Waker>::empty(),
            context.state().wf(),
    {
        ResolutionContext { inner: Inner::new() }
    }

    /// Records that `source_info` waits for `dependency_info`, as `Inner::add_waker` does.
    pub fn add_waker(
        &mut self,
        waker: std::task::Waker,
        source_info: &ComponentInfo,
        dependency_info: &ComponentInfo,
    ) -> (r: Result<(), ComponentError>)
        ensures
            added_waker(
                old(self).state(),
                final(self).state(),
                waker,
                *source_info,
                *dependency_info,
                r,
            ),
            old(self).state().wf() ==> final(self).state().wf(),
    {
        self.inner.add_waker(waker, source_info, dependency_info)
    }

    /// Stores `component`, as `Inner::add_component` does.
    pub fn add_component(&mut self, component_info: &ComponentInfo, component: T)
        ensures
            added_component(old(self).state(), final(self).state(), *component_info, component),
            old(self).state().wf() ==> final(self).state().wf(),
    {
        self.inner.add_component(component_info, component);
    }

    /// A clone of the component stored under `component_id`, if there is one.
    pub fn try_get_component(&self, component_id: &u64) -> (r: Option<T>) where T: Clone
        ensures
            r is Some <==> self.state().created().contains_key(*component_id),
            r matches Some(c) ==> cloned(self.state().created()[*component_id], c),
    {
        self.inner.try_get_component(component_id)
    }

    /// Copies of the components and of the dependency graph.
    pub fn finalize(&self) -> (r: (HashMap<u64, T>, ComponentDAG)) where T: Clone
        ensures
            r.0@ == self.state().created(),
            r.1@ == self.state().graph(),
            self.state().wf() ==> r.1.wf(),
    {
        (self.inner.components(), self.inner.dag())
    }
}

impl<T> Default for ResolutionContext<T> {
    fn default() -> (context: Self)
        ensures
            context.state().waiting() == Map::<u64, Seq<std::task::Waker>>::empty(),
            context.state().created() == Map::<u64, T>::empty(),
            context.state().graph() == Map::<u64, Set<u64>>::empty(),
            context.state().woken() == Seq::<std::task::Waker>::empty(),
            context.state().wf(),
    {
        ResolutionContext::new()
    }
}

/// What a component holds to ask for its dependencies while it is being created.
pub struct ComponentResolver {
    source_info: ComponentInfo,
}

impl ComponentResolver {
    /// The component that asks.
    pub closed spec fn source(&self) -> ComponentInfo {
        self.source_info
    }

    pub fn new(source_info: ComponentInfo) -> (resolver: ComponentResolver)
        ensures
            resolver.source() == source_info,
    {
        ComponentResolver { source_info }
    }

    /// A request, on behalf of this resolver's component, for the component `dependency_info`.
    pub fn resolve(&self, dependency_info: ComponentInfo) -> (request: ResolveFuture)
        ensures
            request.source() == self.source(),
            request.dependency() == dependency_info,
    {
        ResolveFuture { source_info: self.source_info, dependency_info }
    }
}

/// A pending request of one component for another.
pub struct ResolveFuture {
    source_info: ComponentInfo,
    dependency_info: ComponentInfo,
}

impl ResolveFuture {
    /// The component that asks.
    pub closed spec fn source(&self) -> ComponentInfo {
        self.source_info
    }

    /// The component asked for.
    pub closed spec fn dependency(&self) -> ComponentInfo {
        self.dependency_info
    }

    /// One poll of the request in `context`: records the dependency and `waker`; the
    /// request fails when the dependency would close a cycle, is ready when the component
    /// exists, and is pending (`None`) otherwise.
    pub fn poll_with<T: Clone>(
        &self,
        context: &mut ResolutionContext<T>,
        waker: std::task::Waker,
    ) -> (r: Option<Result<T, ComponentError>>)
        ensures
            polled(
                old(context).state(),
                final(context).state(),
                waker,
                self.source(),
                self.dependency(),
                r,
            ),
            old(context).state().wf() ==> final(context).state().wf(),
    {
        let added = context.add_waker(waker, &self.source_info, &self.dependency_info);
        let r = match added {
            Err(err) => Some(Err(err)),
            Ok(()) => match context.try_get_component(&self.dependency_info.type_id) {
                Some(component) => Some(Ok(component)),
                None => None,
            },
        };
        assert(added_waker(
            old(context).state(),
            context.state(),
            waker,
            self.source(),
            self.dependency(),
            added,
        ));
        r
    }
}

/// Storing a component wakes every waker that waits for it exactly once per time it began
/// to wait, and no other waker: counted per waker, the wake-ups that `add_component`
/// makes are the registrations for the component.
pub proof fn lemma_add_component_wakes_each_waiter_once<T>(
    before: Inner<T>,
    after: Inner<T>,
    info: ComponentInfo,
    component: T,
)
    requires
        added_component(before, after, info, component),
    ensures
        forall|w: std::task::Waker|
            #[trigger] after.woken().to_multiset().count(w) == before.woken().to_multiset().count(w)
                + waiting_for(before.waiting(), info.type_id).to_multiset().count(w),
        after.woken().len() == before.woken().len() + waiting_for(
            before.waiting(),
            info.type_id,
        ).len(),
{
    let wl = waiting_for(before.waiting(), info.type_id);
    vstd::seq_lib::lemma_multiset_commutative(before.woken(), wl);
}

/// Registering a waker wakes it exactly once when the component it waits for exists and
/// not at all otherwise, and wakes no other waker; a refused registration wakes nothing.
pub proof fn lemma_add_waker_wakes_only_for_existing<T>(
    before: Inner<T>,
    after: Inner<T>,
    waker: std::task::Waker,
    source: ComponentInfo,
    dependency: ComponentInfo,
    r: Result<(), ComponentError>,
)
    requires
        added_waker(before, after, waker, source, dependency, r),
    ensures
        forall|w: std::task::Waker|
            #[trigger] after.woken().to_multiset().count(w) == before.woken().to_multiset().count(w)
                + if r is Ok && w == waker && before.created().contains_key(dependency.type_id) {
                1nat
            } else {
                0nat
            },
{
    broadcast use vstd::seq_lib::group_to_multiset_ensures;

    if r is Ok && before.created().contains_key(dependency.type_id) {
        assert(after.woken().to_multiset() =~= before.woken().to_multiset().insert(waker));
    }
}

/// No lost wake-up: a waker that `Inner::add_waker` accepted for `dependency` is woken,
/// at once if the component existed, else by the `Inner::add_component` of it that
/// follows.
pub proof fn lemma_no_lost_wakeup<T>(
    start: Inner<T>,
    waiting: Inner<T>,
    done: Inner<T>,
    waker: std::task::Waker,
    source: ComponentInfo,
    dependency: ComponentInfo,
    component: T,
)
    requires
        added_waker(start, waiting, waker, source, dependency, Ok(())),
        added_component(waiting, done, dependency, component),
    ensures
        done.woken().contains(waker),
{
    let wl = waiting_for(waiting.waiting(), dependency.type_id);
    assert(wl[wl.len() - 1] == waker);
    assert(done.woken()[waiting.woken().len() + wl.len() - 1] == waker);
}

} // verus!
