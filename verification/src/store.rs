use std::collections::HashMap;
use vstd::prelude::*;

use crate::component::{ComponentError, ComponentInfo};
use crate::graph::{Graph, acyclic, destruction_rank, finite_graph, lemma_rank_decreases, reaches};
use crate::resolution::{
    ComponentDAG, ComponentResolver, Inner, ResolutionContext, ResolveFuture, added_component,
    polled,
};

verus! {

broadcast use vstd::std_specs::hash::group_hash_axioms;

/// `output` is `input` reordered by `perm` (`output[k] == input[perm[k]]`): by
/// non-increasing destruction rank in `g`, and in input order among equal ranks.
pub open spec fn sorts_by_rank<D>(
    input: Seq<(ComponentInfo, D)>,
    output: Seq<(ComponentInfo, D)>,
    perm: Seq<int>,
    g: Graph,
) -> bool {
    &&& perm.len() == input.len()
    &&& output.len() == input.len()
    &&& forall|k: int|
        0 <= k < perm.len() ==> 0 <= #[trigger] perm[k] < input.len() && output[k] == input[perm[k]]
    &&& forall|k: int, l: int| 0 <= k < l < perm.len() ==> #[trigger] perm[k] != #[trigger] perm[l]
    &&& forall|k: int, l: int|
        0 <= k < l < output.len() ==> destruction_rank(g, #[trigger] output[k].0.type_id)
            >= destruction_rank(g, #[trigger] output[l].0.type_id)
    &&& forall|k: int, l: int|
        0 <= k < l < output.len() && destruction_rank(g, #[trigger] output[k].0.type_id)
            == destruction_rank(g, #[trigger] output[l].0.type_id) ==> perm[k] < perm[l]
}

/// `output` is the stable reordering of `input` by non-increasing destruction rank in `g`.
pub open spec fn is_destruction_order<D>(
    input: Seq<(ComponentInfo, D)>,
    output: Seq<(ComponentInfo, D)>,
    g: Graph,
) -> bool {
    exists|perm: Seq<int>| #[trigger] sorts_by_rank(input, output, perm, g)
}

#[verifier::spinoff_prover]
proof fn lemma_insert_sorted<D>(
    input: Seq<(ComponentInfo, D)>,
    out: Seq<(ComponentInfo, D)>,
    perm: Seq<int>,
    g: Graph,
    done: int,
    pos: int,
)
    requires
        0 <= done < input.len(),
        sorts_by_rank(input.take(done), out, perm, g),
        0 <= pos <= out.len(),
        forall|k: int|
            0 <= k < pos ==> destruction_rank(g, #[trigger] out[k].0.type_id) >= destruction_rank(
                g,
                input[done].0.type_id,
            ),
        forall|k: int|
            pos <= k < out.len() ==> destruction_rank(g, #[trigger] out[k].0.type_id)
                < destruction_rank(g, input[done].0.type_id),
    ensures
        sorts_by_rank(input.take(done + 1), out.insert(pos, input[done]), perm.insert(pos, done), g),
{
    let inp = input.take(done + 1);
    let o = out.insert(pos, input[done]);
    let p = perm.insert(pos, done);
    let old_inp = input.take(done);
    assert forall|k: int| 0 <= k < p.len() implies 0 <= #[trigger] p[k] < inp.len() && o[k]
        == inp[p[k]] by {
        if k < pos {
            assert(p[k] == perm[k] && o[k] == out[k]);
            assert(out[k] == old_inp[perm[k]]);
        } else if k > pos {
            assert(p[k] == perm[k - 1] && o[k] == out[k - 1]);
            assert(out[k - 1] == old_inp[perm[k - 1]]);
        }
    }
    assert forall|k: int, l: int| 0 <= k < l < p.len() implies #[trigger] p[k] != #[trigger] p[l] by {
        if k < pos && l < pos {
            assert(perm[k] != perm[l]);
        } else if k < pos && l == pos {
            assert(0 <= perm[k] < done);
        } else if k < pos && l > pos {
            assert(perm[k] != perm[l - 1]);
        } else if k == pos {
            assert(0 <= perm[l - 1] < done);
        } else {
            assert(perm[k - 1] != perm[l - 1]);
        }
    }
    let r = destruction_rank(g, input[done].0.type_id);
    assert forall|k: int, l: int| 0 <= k < l < o.len() implies destruction_rank(
        g,
        #[trigger] o[k].0.type_id,
    ) >= destruction_rank(g, #[trigger] o[l].0.type_id) && (destruction_rank(g, o[k].0.type_id)
        == destruction_rank(g, o[l].0.type_id) ==> p[k] < p[l]) by {
        if k < pos && l < pos {
            assert(o[k] == out[k] && o[l] == out[l]);
        } else if k < pos && l == pos {
            assert(o[k] == out[k]);
            assert(0 <= perm[k] < done);
        } else if k < pos && l > pos {
            assert(o[k] == out[k] && o[l] == out[l - 1]);
        } else if k == pos {
            assert(o[l] == out[l - 1]);
        } else {
            assert(o[k] == out[k - 1] && o[l] == out[l - 1]);
        }
    }
}

proof fn lemma_ranks_after_insert<E>(
    ranks: Seq<usize>,
    out: Seq<(ComponentInfo, E)>,
    pos: int,
    rank: usize,
    entry: (ComponentInfo, E),
    g: Graph,
)
    requires
        ranks.len() == out.len(),
        0 <= pos <= out.len(),
        rank == destruction_rank(g, entry.0.type_id),
        forall|k: int|
            0 <= k < ranks.len() ==> ranks[k] == destruction_rank(g, #[trigger] out[k].0.type_id),
    ensures
        forall|k: int|
            0 <= k < ranks.len() + 1 ==> ranks.insert(pos, rank)[k] == destruction_rank(
                g,
                #[trigger] out.insert(pos, entry)[k].0.type_id,
            ),
{
    assert forall|k: int| 0 <= k < ranks.len() + 1 implies ranks.insert(pos, rank)[k]
        == destruction_rank(g, #[trigger] out.insert(pos, entry)[k].0.type_id) by {
        if k > pos {
            assert(ranks.insert(pos, rank)[k] == ranks[k - 1]);
            assert(out.insert(pos, entry)[k] == out[k - 1]);
        } else if k < pos {
            assert(ranks.insert(pos, rank)[k] == ranks[k]);
            assert(out.insert(pos, entry)[k] == out[k]);
        }
    }
}

proof fn lemma_rank_order_respects_dependencies<D>(
    input: Seq<(ComponentInfo, D)>,
    output: Seq<(ComponentInfo, D)>,
    perm: Seq<int>,
    g: Graph,
)
    requires
        acyclic(g),
        finite_graph(g),
        sorts_by_rank(input, output, perm, g),
    ensures
        dependents_first(output, g),
{
    assert forall|k: int, l: int|
        0 <= k < output.len() && 0 <= l < output.len() && reaches(
            g,
            #[trigger] output[k].0.type_id,
            #[trigger] output[l].0.type_id,
        ) && output[k].0.type_id != output[l].0.type_id implies k < l by {
        lemma_rank_decreases(g, output[k].0.type_id, output[l].0.type_id);
        if l < k {
            assert(destruction_rank(g, output[l].0.type_id) >= destruction_rank(
                g,
                output[k].0.type_id,
            ));
        }
    }
}

/// The destructors of the created components, in the order in which they are run.
pub struct DAGDestructor<D> {
    destructors: Vec<(ComponentInfo, D)>,
}

impl<D> DAGDestructor<D> {
    /// The destructors in the order in which they are run.
    pub closed spec fn order(&self) -> Seq<(ComponentInfo, D)> {
        self.destructors@
    }

    /// Orders `destructors` for destruction: a component with more transitive
    /// dependencies in `dag` goes first, ties keep their order; so, in an acyclic graph,
    /// every component is destroyed before the components it depends on.
    #[verifier::spinoff_prover]
    pub fn new(destructors: Vec<(ComponentInfo, D)>, dag: ComponentDAG) -> (r: Self)
        ensures
            is_destruction_order(destructors@, r.order(), dag@),
            dag.wf() ==> dependents_first(r.order(), dag@),
    {
        let ghost input = destructors@;
        let ghost g = dag@;
        let mut rest = destructors;
        let mut out: Vec<(ComponentInfo, D)> = Vec::new();
        let mut ranks: Vec<usize> = Vec::new();
        let ghost mut perm: Seq<int> = Seq::empty();
        let ghost mut done: int = 0;
        assert(input.take(0) =~= Seq::<(ComponentInfo, D)>::empty());
        while rest.len() > 0
            invariant
                g == dag@,
                0 <= done <= input.len(),
                rest@ == input.skip(done),
                out@.len() == ranks@.len(),
                forall|k: int|
                    0 <= k < ranks@.len() ==> ranks@[k] == destruction_rank(
                        g,
                        #[trigger] out@[k].0.type_id,
                    ),
                sorts_by_rank(input.take(done), out@, perm, g),
            decreases rest@.len(),
        {
            let entry = rest.remove(0);
            let rank = dag.get_transitive_dependencies(&entry.0.type_id).len();
            let mut pos: usize = 0;
            while pos < ranks.len() && ranks[pos] >= rank
                invariant
                    pos <= ranks@.len(),
                    forall|k: int| 0 <= k < pos ==> ranks@[k] >= rank,
                decreases ranks@.len() - pos,
            {
                pos += 1;
            }
            proof {
                if pos < ranks@.len() {
                    assert forall|k: int| pos <= k < out@.len() implies destruction_rank(
                        g,
                        #[trigger] out@[k].0.type_id,
                    ) < rank by {
                        if k > pos {
                            assert(destruction_rank(g, out@[pos as int].0.type_id) >= destruction_rank(
                                g,
                                out@[k].0.type_id,
                            ));
                        }
                    }
                }
                assert forall|k: int| 0 <= k < pos implies destruction_rank(
                    g,
                    #[trigger] out@[k].0.type_id,
                ) >= rank by {
                    assert(ranks@[k] >= rank);
                }
                lemma_insert_sorted(input, out@, perm, g, done, pos as int);
            }
            proof {
                lemma_ranks_after_insert(ranks@, out@, pos as int, rank, entry, g);
            }
            out.insert(pos, entry);
            ranks.insert(pos, rank);
            proof {
                perm = perm.insert(pos as int, done);
                done = done + 1;
                assert(rest@ =~= input.skip(done));
            }
        }
        assert(input.take(done) =~= input);
        let r = DAGDestructor { destructors: out };
        proof {
            if dag.wf() {
                lemma_rank_order_respects_dependencies(input, r.order(), perm, g);
            }
        }
        r
    }

    /// The destructors in the order in which they are run.
    pub fn destructors(&self) -> (list: &Vec<(ComponentInfo, D)>)
        ensures
            list@ == self.order(),
    {
        &self.destructors
    }
}

/// In `output` every component comes before the components it (transitively) depends on
/// in `g`.
pub open spec fn dependents_first<D>(output: Seq<(ComponentInfo, D)>, g: Graph) -> bool {
    forall|k: int, l: int|
        0 <= k < output.len() && 0 <= l < output.len() && reaches(
            g,
            #[trigger] output[k].0.type_id,
            #[trigger] output[l].0.type_id,
        ) && output[k].0.type_id != output[l].0.type_id ==> k < l
}

/// The created components, by type key, and their destructors in destruction order.
pub struct ComponentStore<T, D> {
    components: HashMap<u64, T>,
    destructor: DAGDestructor<D>,
}

/// The factories of the registered components, in registration order.
pub struct ComponentStoreBuilder<F> {
    factories: Vec<F>,
}

impl<F> ComponentStoreBuilder<F> {
    /// The registered factories, in registration order.
    pub closed spec fn registered(&self) -> Seq<F> {
        self.factories@
    }

    /// Registers a new component type in component store
    pub fn register(self, factory: F) -> (builder: Self)
        ensures
            builder.registered() == self.registered().push(factory),
    {
        let mut builder = self;
        builder.factories.push(factory);
        builder
    }

    /// The registered factories, in registration order.
    pub fn into_factories(self) -> (factories: Vec<F>)
        ensures
            factories@ == self.registered(),
    {
        self.factories
    }
}

impl<T, D> ComponentStore<T, D> {
    /// Creates component store builder
    pub fn builder<F>() -> (builder: ComponentStoreBuilder<F>)
        ensures
            builder.registered() == Seq::<F>::empty(),
    {
        ComponentStoreBuilder { factories: Vec::new() }
    }

    /// The created components, by type key.
    pub closed spec fn created(&self) -> Map<u64, T> {
        self.components@
    }

    /// The destructors in the order in which they are run.
    pub closed spec fn destruction_order(&self) -> Seq<(ComponentInfo, D)> {
        self.destructor.order()
    }

    /// Tries to resolve component in component store
    pub fn resolve(&self, type_id: &u64) -> (r: Option<T>) where T: Clone
        ensures
            r is Some <==> self.created().contains_key(*type_id),
            r matches Some(c) ==> cloned(self.created()[*type_id], c),
    {
        self.components.get(type_id).cloned()
    }

    /// The destructors of the components, in the order in which they are run.
    pub fn destructor(&self) -> (destructor: &DAGDestructor<D>)
        ensures
            destructor.order() == self.destruction_order(),
    {
        &self.destructor
    }
}

/// The state of a store under construction: the resolution context and the destructors
/// of the components created so far, in creation order. The tasks that create the
/// components share it behind a lock of the caller's.
pub struct StoreBuild<T, D> {
    context: ResolutionContext<T>,
    destructors: Vec<(ComponentInfo, D)>,
}

impl<T, D> StoreBuild<T, D> {
    /// The destructors collected so far, in creation order.
    pub closed spec fn collected(&self) -> Seq<(ComponentInfo, D)> {
        self.destructors@
    }

    /// The resolution state.
    pub closed spec fn state(&self) -> Inner<T> {
        self.context.state()
    }

    /// The components accepted so far, by type key.
    pub open spec fn accepted(&self) -> Map<u64, T> {
        self.state().created()
    }

    /// The dependencies recorded so far.
    pub open spec fn graph(&self) -> Graph {
        self.state().graph()
    }

    /// A fresh context and no component.
    pub fn new() -> (build: Self)
        ensures
            build.collected() == Seq::<(ComponentInfo, D)>::empty(),
            build.state().waiting() == Map::<u64, Seq<std::task::Waker>>::empty(),
            build.state().created() == Map::<u64, T>::empty(),
            build.state().graph() == Map::<u64, Set<u64>>::empty(),
            build.state().woken() == Seq::<std::task::Waker>::empty(),
            build.state().wf(),
    {
        StoreBuild { context: ResolutionContext::new(), destructors: Vec::new() }
    }

    /// The resolver through which the component `source_info` asks for its dependencies.
    pub fn resolver(&self, source_info: ComponentInfo) -> (resolver: ComponentResolver)
        ensures
            resolver.source() == source_info,
    {
        ComponentResolver::new(source_info)
    }

    /// One poll of `request` with `waker` in this build's context, as
    /// `ResolveFuture::poll_with` does.
    pub fn poll(&mut self, request: &ResolveFuture, waker: std::task::Waker) -> (r: Option<
        Result<T, ComponentError>,
    >) where T: Clone
        ensures
            polled(old(self).state(), final(self).state(), waker, request.source(), request.dependency(), r),
            final(self).collected() == old(self).collected(),
            old(self).state().wf() ==> final(self).state().wf(),
    {
        request.poll_with(&mut self.context, waker)
    }

    /// Takes the outcome of one component's creation. A created component joins the
    /// context, which wakes the tasks waiting for it, and its destructor the collected
    /// ones, and the build goes on (`None`). A failure ends the build: the destructors
    /// collected so far, in destruction order for the recorded dependencies, come back with
    /// the error, and none is left.
    pub fn accept(&mut self, outcome: Result<(T, D, ComponentInfo), ComponentError>) -> (failure:
        Option<(DAGDestructor<D>, ComponentError)>) where T: Clone
        ensures
            match outcome {
                Ok((component, dtor, info)) => {
                    &&& failure is None
                    &&& final(self).collected() == old(self).collected().push((info, dtor))
                    &&& added_component(old(self).state(), final(self).state(), info, component)
                },
                Err(err) => {
                    &&& failure matches Some((destructor, e)) && e == err && is_destruction_order(
                        old(self).collected(),
                        destructor.order(),
                        old(self).graph(),
                    ) && (old(self).state().wf() ==> dependents_first(
                        destructor.order(),
                        old(self).graph(),
                    ))
                    &&& final(self).collected() == Seq::<(ComponentInfo, D)>::empty()
                    &&& final(self).state() == old(self).state()
                },
            },
            old(self).state().wf() ==> final(self).state().wf(),
    {
        match outcome {
            Ok((component, dtor, info)) => {
                self.context.add_component(&info, component);
                self.destructors.push((info, dtor));
                None
            },
            Err(err) => {
                let (_, dag) = self.context.finalize();
                let mut destructors = Vec::new();
                std::mem::swap(&mut destructors, &mut self.destructors);
                let destructor = DAGDestructor::new(destructors, dag);
                Some((destructor, err))
            },
        }
    }

    /// Ends a build in which every component was created: the store holds the accepted
    /// components and the collected destructors in destruction order for the recorded
    /// dependencies.
    pub fn finish(self) -> (store: ComponentStore<T, D>) where T: Clone
        ensures
            store.created() == self.accepted(),
            is_destruction_order(self.collected(), store.destruction_order(), self.graph()),
            self.state().wf() ==> dependents_first(store.destruction_order(), self.graph()),
    {
        let (components, dag) = self.context.finalize();
        let destructor = DAGDestructor::new(self.destructors, dag);
        ComponentStore { components, destructor }
    }
}

} // verus!
