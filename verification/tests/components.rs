use std::collections::HashSet;
use std::sync::atomic::{AtomicUsize, Ordering};
use std::sync::Arc;
use std::task::{Wake, Waker};

use rust_components::{
    ComponentDAG, ComponentError, ComponentInfo, ComponentName, ComponentStore, DAGDestructor,
    Inner, ResolutionContext, StoreBuild,
};

const A: ComponentInfo = ComponentInfo { name: "TestComponentA", type_id: 1 };
const B: ComponentInfo = ComponentInfo { name: "TestComponentB", type_id: 2 };
const C: ComponentInfo = ComponentInfo { name: "TestComponentC", type_id: 3 };
const D: ComponentInfo = ComponentInfo { name: "TestComponentD", type_id: 4 };

struct WakeCounter(AtomicUsize);

impl Wake for WakeCounter {
    fn wake(self: Arc<Self>) {
        self.0.fetch_add(1, Ordering::SeqCst);
    }

    fn wake_by_ref(self: &Arc<Self>) {
        self.0.fetch_add(1, Ordering::SeqCst);
    }
}

fn counting_waker() -> (Arc<WakeCounter>, Waker) {
    let counter = Arc::new(WakeCounter(AtomicUsize::new(0)));
    (counter.clone(), Waker::from(counter))
}

fn noop() -> Waker {
    Waker::noop().clone()
}

fn set(items: &[u64]) -> HashSet<u64> {
    items.iter().copied().collect()
}

/// The dependencies of the original test: B on A, C on A and B, D on B and C.
fn sample_dag() -> ComponentDAG {
    let mut dag = ComponentDAG::new();
    dag.add_dependency(&B, &A).unwrap();
    dag.add_dependency(&C, &A).unwrap();
    dag.add_dependency(&C, &B).unwrap();
    dag.add_dependency(&D, &B).unwrap();
    dag.add_dependency(&D, &C).unwrap();
    dag
}

struct Named;

impl ComponentName for Named {
    fn component_name() -> &'static str {
        "named"
    }
}

#[test]
fn test_basic() {
    // The scenario of the original test, driven step by step: A has no dependency,
    // B needs A, C needs A and B, D needs B and C.
    let mut build: StoreBuild<String, &'static str> = StoreBuild::new();
    let resolver_b = build.resolver(B);
    let resolver_c = build.resolver(C);
    let resolver_d = build.resolver(D);

    let b_wants_a = resolver_b.resolve(A);
    assert!(build.poll(&b_wants_a, noop()).is_none());
    assert!(build.accept(Ok(("a".to_string(), "dtor a", A))).is_none());
    assert_eq!(build.poll(&b_wants_a, noop()).unwrap().unwrap(), "a");
    assert!(build.accept(Ok(("b".to_string(), "dtor b", B))).is_none());

    assert_eq!(build.poll(&resolver_c.resolve(A), noop()).unwrap().unwrap(), "a");
    assert_eq!(build.poll(&resolver_c.resolve(B), noop()).unwrap().unwrap(), "b");
    let d_wants_c = resolver_d.resolve(C);
    assert_eq!(build.poll(&resolver_d.resolve(B), noop()).unwrap().unwrap(), "b");
    assert!(build.poll(&d_wants_c, noop()).is_none());
    assert!(build.accept(Ok(("c".to_string(), "dtor c", C))).is_none());
    assert_eq!(build.poll(&d_wants_c, noop()).unwrap().unwrap(), "c");
    assert!(build.accept(Ok(("d".to_string(), "dtor d", D))).is_none());

    let store = build.finish();
    assert!(store.resolve(&A.type_id).is_some());
    assert!(store.resolve(&B.type_id).is_some());
    assert!(store.resolve(&C.type_id).is_some());
    assert!(store.resolve(&D.type_id).is_some());

    let dtor_order: Vec<u64> =
        store.destructor().destructors().iter().map(|(info, _)| info.type_id).collect();
    assert_eq!(vec![D.type_id, C.type_id, B.type_id, A.type_id], dtor_order);
}

#[test]
fn transitive_dependencies_include_self_and_all_reachable() {
    let dag = sample_dag();
    assert_eq!(dag.get_transitive_dependencies(&A.type_id), set(&[1]));
    assert_eq!(dag.get_transitive_dependencies(&B.type_id), set(&[1, 2]));
    assert_eq!(dag.get_transitive_dependencies(&C.type_id), set(&[1, 2, 3]));
    assert_eq!(dag.get_transitive_dependencies(&D.type_id), set(&[1, 2, 3, 4]));
    assert_eq!(dag.get_transitive_dependencies(&99), set(&[99]));
}

#[test]
fn transitive_dependencies_follow_long_chains() {
    let mut dag = ComponentDAG::new();
    let infos: Vec<ComponentInfo> =
        (0..20u64).map(|i| ComponentInfo { name: "chain", type_id: i }).collect();
    // Added from the far end so that no single pass over the map in key order finds them.
    for i in (0..19).rev() {
        dag.add_dependency(&infos[i], &infos[i + 1]).unwrap();
    }
    let all: HashSet<u64> = (0..20u64).collect();
    assert_eq!(dag.get_transitive_dependencies(&0), all);
    let tail: HashSet<u64> = (10..20u64).collect();
    assert_eq!(dag.get_transitive_dependencies(&10), tail);
}

#[test]
fn add_dependency_refuses_cycles() {
    let mut dag = sample_dag();
    match dag.add_dependency(&A, &D) {
        Err(ComponentError::DependencyCycle(a, b)) => {
            assert_eq!(a, "TestComponentA");
            assert_eq!(b, "TestComponentD");
        }
        _ => panic!("expected a dependency cycle"),
    }
    // The refused dependency was not recorded.
    assert_eq!(dag.get_transitive_dependencies(&A.type_id), set(&[1]));
    // A direct back edge is refused too.
    assert!(matches!(dag.add_dependency(&A, &B), Err(ComponentError::DependencyCycle(_, _))));
}

#[test]
fn add_dependency_refuses_self_dependency() {
    let mut dag = ComponentDAG::new();
    match dag.add_dependency(&A, &A) {
        Err(ComponentError::DependencyCycle(a, b)) => {
            assert_eq!(a, "TestComponentA");
            assert_eq!(b, "TestComponentA");
        }
        _ => panic!("expected a dependency cycle"),
    }
}

#[test]
fn add_dependency_twice_is_accepted() {
    let mut dag = sample_dag();
    assert!(dag.add_dependency(&D, &C).is_ok());
    assert!(dag.add_dependency(&D, &A).is_ok());
    assert_eq!(dag.get_transitive_dependencies(&D.type_id), set(&[1, 2, 3, 4]));
}

#[test]
fn dag_clone_and_default() {
    let dag = sample_dag();
    let copy = dag.clone();
    assert_eq!(copy.get_transitive_dependencies(&D.type_id), set(&[1, 2, 3, 4]));
    let empty = ComponentDAG::default();
    assert_eq!(empty.get_transitive_dependencies(&D.type_id), set(&[4]));
}

#[test]
fn error_messages() {
    let err = ComponentError::DependencyCycle("a".to_string(), "b".to_string());
    assert_eq!(err.message(), "Component `a` requires `b`, but `a` is a dependency of `b`");
    assert_eq!(ComponentError::InitializationFailed.message(), "Failed to initialize component");
}

#[test]
fn component_info_equality_is_by_type_key() {
    let x = ComponentInfo { name: "x", type_id: 7 };
    let y = ComponentInfo { name: "y", type_id: 7 };
    let z = ComponentInfo { name: "x", type_id: 8 };
    assert!(x == y);
    assert!(x != z);
    let named = ComponentInfo::new::<Named>(5);
    assert_eq!(named.name, "named");
    assert_eq!(named.type_id, 5);
}

#[test]
fn destruction_order_puts_dependents_first() {
    let dag = sample_dag();
    let destructors = vec![(A, 'a'), (C, 'c'), (B, 'b'), (D, 'd')];
    let destructor = DAGDestructor::new(destructors, dag);
    let order: Vec<char> = destructor.destructors().iter().map(|(_, d)| *d).collect();
    assert_eq!(order, vec!['d', 'c', 'b', 'a']);
}

#[test]
fn destruction_order_keeps_ties_in_input_order() {
    let mut dag = ComponentDAG::new();
    dag.add_dependency(&C, &A).unwrap();
    // A, B and D have one transitive dependency each (themselves), C has two.
    let destructors = vec![(D, 1), (A, 2), (C, 3), (B, 4)];
    let destructor = DAGDestructor::new(destructors, dag);
    let order: Vec<i32> = destructor.destructors().iter().map(|(_, d)| *d).collect();
    assert_eq!(order, vec![3, 1, 2, 4]);
    let empty: DAGDestructor<u8> = DAGDestructor::new(Vec::new(), ComponentDAG::new());
    assert!(empty.destructors().is_empty());
}

#[test]
fn inner_wakes_waiters_when_component_arrives() {
    let mut inner: Inner<u32> = Inner::new();
    let (counter, waker) = counting_waker();
    assert!(inner.add_waker(waker, &B, &A).is_ok());
    assert_eq!(counter.0.load(Ordering::SeqCst), 0);
    assert!(inner.try_get_component(&A.type_id).is_none());
    inner.add_component(&A, 10);
    assert_eq!(counter.0.load(Ordering::SeqCst), 1);
    assert_eq!(inner.try_get_component(&A.type_id), Some(10));

    // A waker registered for a component that exists is woken at once.
    let (counter2, waker2) = counting_waker();
    assert!(inner.add_waker(waker2, &C, &A).is_ok());
    assert_eq!(counter2.0.load(Ordering::SeqCst), 1);

    assert_eq!(inner.components().get(&A.type_id), Some(&10));
    assert_eq!(inner.dag().get_transitive_dependencies(&C.type_id), set(&[1, 3]));
}

#[test]
fn inner_refuses_cycle_and_keeps_waker_out() {
    let mut inner: Inner<u32> = Inner::new();
    assert!(inner.add_dependency(&B, &A).is_ok());
    let (counter, waker) = counting_waker();
    assert!(matches!(inner.add_waker(waker, &A, &B), Err(ComponentError::DependencyCycle(_, _))));
    inner.add_component(&B, 2);
    assert_eq!(counter.0.load(Ordering::SeqCst), 0);
}

#[test]
fn context_poll_reports_cycle() {
    let mut build: StoreBuild<u32, ()> = StoreBuild::new();
    let resolver_a = build.resolver(A);
    let resolver_b = build.resolver(B);
    assert!(build.poll(&resolver_a.resolve(B), noop()).is_none());
    match build.poll(&resolver_b.resolve(A), noop()) {
        Some(Err(ComponentError::DependencyCycle(a, b))) => {
            assert_eq!(a, "TestComponentB");
            assert_eq!(b, "TestComponentA");
        }
        _ => panic!("expected a dependency cycle"),
    }
    match build.accept(Err(ComponentError::InitializationFailed)) {
        Some((destructor, ComponentError::InitializationFailed)) => {
            assert!(destructor.destructors().is_empty());
        }
        _ => panic!("expected the failure back"),
    }
}

#[test]
fn failed_build_returns_collected_destructors_in_order() {
    let mut build: StoreBuild<u32, &'static str> = StoreBuild::new();
    let resolver_b = build.resolver(B);
    assert!(build.accept(Ok((1, "a", A))).is_none());
    assert_eq!(build.poll(&resolver_b.resolve(A), noop()).unwrap().unwrap(), 1);
    assert!(build.accept(Ok((2, "b", B))).is_none());
    match build.accept(Err(ComponentError::InitializationFailed)) {
        Some((destructor, ComponentError::InitializationFailed)) => {
            let order: Vec<&str> = destructor.destructors().iter().map(|(_, d)| *d).collect();
            assert_eq!(order, vec!["b", "a"]);
        }
        _ => panic!("expected the failure back"),
    }
}

#[test]
fn resolution_context_finalize() {
    let mut context: ResolutionContext<u32> = ResolutionContext::default();
    assert!(context.add_waker(noop(), &C, &A).is_ok());
    context.add_component(&A, 5);
    assert_eq!(context.try_get_component(&A.type_id), Some(5));
    assert!(context.try_get_component(&B.type_id).is_none());
    let (components, dag) = context.finalize();
    assert_eq!(components.len(), 1);
    assert_eq!(dag.get_transitive_dependencies(&C.type_id), set(&[1, 3]));
}

#[test]
fn builder_keeps_registration_order() {
    let builder = ComponentStore::<u32, ()>::builder::<&str>().register("a").register("b");
    assert_eq!(builder.into_factories(), vec!["a", "b"]);
}

#[test]
fn store_resolve_misses_unknown_component() {
    let build: StoreBuild<u32, ()> = StoreBuild::new();
    let store = build.finish();
    assert!(store.resolve(&A.type_id).is_none());
    assert!(store.destructor().destructors().is_empty());
}

#[test]
fn component_asking_for_itself_gets_cycle_error() {
    let mut build: StoreBuild<u32, ()> = StoreBuild::new();
    let resolver = build.resolver(A);
    match build.poll(&resolver.resolve(A), noop()) {
        Some(Err(ComponentError::DependencyCycle(a, b))) => {
            assert_eq!(a, "TestComponentA");
            assert_eq!(b, "TestComponentA");
        }
        _ => panic!("expected a dependency cycle"),
    }
    let mut context: ResolutionContext<u32> = ResolutionContext::new();
    assert!(matches!(context.add_waker(noop(), &B, &B), Err(ComponentError::DependencyCycle(_, _))));
}

#[test]
fn pending_request_is_woken_when_dependency_arrives() {
    let mut context: ResolutionContext<u32> = ResolutionContext::new();
    let request = rust_components::ComponentResolver::new(B).resolve(A);
    let (counter, waker) = counting_waker();
    assert!(request.poll_with(&mut context, waker).is_none());
    assert_eq!(counter.0.load(Ordering::SeqCst), 0);
    context.add_component(&A, 7);
    assert_eq!(counter.0.load(Ordering::SeqCst), 1);
    let (counter2, waker2) = counting_waker();
    match request.poll_with(&mut context, waker2) {
        Some(Ok(component)) => assert_eq!(component, 7),
        _ => panic!("expected the component"),
    }
    // The component exists, so the second waker is woken at once.
    assert_eq!(counter2.0.load(Ordering::SeqCst), 1);
}
