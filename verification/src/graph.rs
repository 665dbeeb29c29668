use vstd::prelude::*;

verus! {

/// `g` maps a component's type key to the keys it depends on directly.
pub type Graph = Map<u64, Set<u64>>;

/// `a` depends directly on `b`.
pub open spec fn depends_on(g: Graph, a: u64, b: u64) -> bool {
    g.contains_key(a) && g[a].contains(b)
}

/// `p` is a non-empty chain of direct dependencies.
pub open spec fn is_path(g: Graph, p: Seq<u64>) -> bool {
    &&& p.len() > 0
    &&& forall|i: int| 0 <= i < p.len() - 1 ==> #[trigger] depends_on(g, p[i], p[i + 1])
}

/// `b` is `a` itself or one of its transitive dependencies.
pub open spec fn reaches(g: Graph, a: u64, b: u64) -> bool {
    exists|p: Seq<u64>| #[trigger] is_path(g, p) && p[0] == a && p.last() == b
}

/// The transitive dependencies of `a`, `a` included.
pub open spec fn transitive_dependencies(g: Graph, a: u64) -> Set<u64> {
    Set::new(|b: u64| reaches(g, a, b))
}

/// No component depends, directly or not, on itself.
pub open spec fn acyclic(g: Graph) -> bool {
    forall|a: u64, b: u64| #[trigger] depends_on(g, a, b) ==> !reaches(g, b, a)
}

/// `g` with the direct dependency of `a` on `b` added.
pub open spec fn add_edge(g: Graph, a: u64, b: u64) -> Graph {
    if g.contains_key(a) {
        g.insert(a, g[a].insert(b))
    } else {
        g.insert(a, set![b])
    }
}

/// Every direct dependency of a member of `s` is in `s`.
pub open spec fn closed_under(g: Graph, s: Set<u64>) -> bool {
    forall|u: u64, v: u64| s.contains(u) && #[trigger] depends_on(g, u, v) ==> s.contains(v)
}

pub proof fn lemma_reaches_refl(g: Graph, a: u64)
    ensures
        reaches(g, a, a),
{
    let p = seq![a];
    assert(is_path(g, p));
}

pub proof fn lemma_reaches_step(g: Graph, a: u64, b: u64, c: u64)
    requires
        reaches(g, a, b),
        depends_on(g, b, c),
    ensures
        reaches(g, a, c),
{
    let p = choose|p: Seq<u64>| #[trigger] is_path(g, p) && p[0] == a && p.last() == b;
    let q = p.push(c);
    assert forall|i: int| 0 <= i < q.len() - 1 implies #[trigger] depends_on(g, q[i], q[i + 1]) by {
        if i < p.len() - 1 {
            assert(q[i] == p[i] && q[i + 1] == p[i + 1]);
            assert(depends_on(g, p[i], p[i + 1]));
        }
    }
    assert(is_path(g, q));
}

pub proof fn lemma_closed_contains_path(g: Graph, s: Set<u64>, p: Seq<u64>)
    requires
        is_path(g, p),
        s.contains(p[0]),
        closed_under(g, s),
    ensures
        s.contains(p.last()),
    decreases p.len(),
{
    if p.len() > 1 {
        let q = p.drop_last();
        assert forall|i: int| 0 <= i < q.len() - 1 implies #[trigger] depends_on(g, q[i], q[i + 1]) by {
            assert(depends_on(g, p[i], p[i + 1]));
        }
        lemma_closed_contains_path(g, s, q);
        let i = p.len() - 2;
        assert(depends_on(g, p[i], p[i + 1]));
    }
}

/// A set that holds `a` and is closed under direct dependencies holds every transitive
/// dependency of `a`.
pub proof fn lemma_closed_contains_reach(g: Graph, s: Set<u64>, a: u64, b: u64)
    requires
        s.contains(a),
        closed_under(g, s),
        reaches(g, a, b),
    ensures
        s.contains(b),
{
    let p = choose|p: Seq<u64>| #[trigger] is_path(g, p) && p[0] == a && p.last() == b;
    lemma_closed_contains_path(g, s, p);
}

} // verus!

verus! {

pub proof fn lemma_reaches_trans(g: Graph, a: u64, b: u64, c: u64)
    requires
        reaches(g, a, b),
        reaches(g, b, c),
    ensures
        reaches(g, a, c),
{
    let p = choose|p: Seq<u64>| #[trigger] is_path(g, p) && p[0] == a && p.last() == b;
    let q = choose|q: Seq<u64>| #[trigger] is_path(g, q) && q[0] == b && q.last() == c;
    let r = p + q.skip(1);
    assert forall|i: int| 0 <= i < r.len() - 1 implies #[trigger] depends_on(g, r[i], r[i + 1]) by {
        if i < p.len() - 1 {
            assert(r[i] == p[i] && r[i + 1] == p[i + 1]);
            assert(depends_on(g, p[i], p[i + 1]));
        } else if i == p.len() - 1 {
            assert(r[i] == q[0] && r[i + 1] == q[1]);
            let z: int = 0;
            assert(depends_on(g, q[z], q[z + 1]));
        } else {
            let k = i - p.len() + 1;
            assert(r[i] == q[k] && r[i + 1] == q[k + 1]);
            assert(depends_on(g, q[k], q[k + 1]));
        }
    }
    if q.len() == 1 {
        assert(r =~= p);
    }
    assert(is_path(g, r));
}

proof fn lemma_path_with_added_edge(g: Graph, s: u64, d: u64, p: Seq<u64>)
    requires
        is_path(add_edge(g, s, d), p),
    ensures
        reaches(g, p[0], p.last()) || (reaches(g, p[0], s) && reaches(g, d, p.last())),
    decreases p.len(),
{
    let g2 = add_edge(g, s, d);
    if p.len() == 1 {
        lemma_reaches_refl(g, p[0]);
    } else {
        let q = p.drop_last();
        assert forall|i: int| 0 <= i < q.len() - 1 implies #[trigger] depends_on(g2, q[i], q[i + 1]) by {
            assert(depends_on(g2, p[i], p[i + 1]));
        }
        lemma_path_with_added_edge(g, s, d, q);
        let i = p.len() - 2;
        assert(depends_on(g2, p[i], p[i + 1]));
        let z = p[i];
        let y = p.last();
        assert(q.last() == z);
        if depends_on(g, z, y) {
            if reaches(g, p[0], z) {
                lemma_reaches_step(g, p[0], z, y);
            } else {
                lemma_reaches_step(g, d, z, y);
            }
        } else {
            assert(z == s && y == d);
            lemma_reaches_refl(g, d);
        }
    }
}

/// Adding the dependency of `s` on `d` to an acyclic graph in which `d` does not
/// (transitively) depend on `s` leaves it acyclic.
pub proof fn lemma_add_edge_preserves_acyclic(g: Graph, s: u64, d: u64)
    requires
        acyclic(g),
        !reaches(g, d, s),
    ensures
        acyclic(add_edge(g, s, d)),
{
    let g2 = add_edge(g, s, d);
    assert forall|a: u64, b: u64| #[trigger] depends_on(g2, a, b) implies !reaches(g2, b, a) by {
        if reaches(g2, b, a) {
            let p = choose|p: Seq<u64>| #[trigger] is_path(g2, p) && p[0] == b && p.last() == a;
            lemma_path_with_added_edge(g, s, d, p);
            if depends_on(g, a, b) {
                if reaches(g, b, a) {
                    assert(!reaches(g, b, a));
                } else {
                    lemma_reaches_step(g, d, a, b);
                    lemma_reaches_trans(g, d, b, s);
                }
            } else {
                assert(a == s && b == d);
            }
        }
    }
}

} // verus!

verus! {

/// Every key that some key of `g` depends on directly.
pub open spec fn all_dependencies(g: Graph) -> Set<u64> {
    Set::new(|v: u64| exists|k: u64| #[trigger] depends_on(g, k, v))
}

/// `g` has finitely many keys, each with finitely many direct dependencies.
pub open spec fn finite_graph(g: Graph) -> bool {
    &&& g.dom().finite()
    &&& forall|k: u64| #[trigger] g.contains_key(k) ==> g[k].finite()
}

/// How many components are destroyed no earlier than `a`: `a` and its transitive
/// dependencies.
pub open spec fn destruction_rank(g: Graph, a: u64) -> nat {
    transitive_dependencies(g, a).len()
}

proof fn lemma_all_dependencies_finite(g: Graph)
    requires
        finite_graph(g),
    ensures
        all_dependencies(g).finite(),
    decreases g.dom().len(),
{
    if g.dom().len() == 0 {
        assert(all_dependencies(g) =~= Set::empty()) by {
            assert forall|v: u64| !all_dependencies(g).contains(v) by {
                if all_dependencies(g).contains(v) {
                    let k = choose|k: u64| #[trigger] depends_on(g, k, v);
                    assert(g.dom().contains(k));
                }
            }
        }
    } else {
        let k = g.dom().choose();
        let h = g.remove(k);
        assert(h.dom() =~= g.dom().remove(k));
        assert forall|j: u64| #[trigger] h.contains_key(j) implies h[j].finite() by {
            assert(g.contains_key(j));
        }
        lemma_all_dependencies_finite(h);
        assert(all_dependencies(g) =~= all_dependencies(h).union(g[k])) by {
            assert forall|v: u64| all_dependencies(g).contains(v) implies all_dependencies(
                h,
            ).union(g[k]).contains(v) by {
                let j = choose|j: u64| #[trigger] depends_on(g, j, v);
                if j != k {
                    assert(depends_on(h, j, v));
                }
            }
            assert forall|v: u64| all_dependencies(h).union(g[k]).contains(v) implies all_dependencies(
                g,
            ).contains(v) by {
                if all_dependencies(h).contains(v) {
                    let j = choose|j: u64| #[trigger] depends_on(h, j, v);
                    assert(depends_on(g, j, v));
                } else {
                    assert(depends_on(g, k, v));
                }
            }
        }
    }
}

/// In a finite graph every component has finitely many transitive dependencies.
pub proof fn lemma_transitive_dependencies_finite(g: Graph, a: u64)
    requires
        finite_graph(g),
    ensures
        transitive_dependencies(g, a).finite(),
{
    lemma_all_dependencies_finite(g);
    let bound = all_dependencies(g).insert(a);
    assert forall|b: u64| transitive_dependencies(g, a).contains(b) implies bound.contains(b) by {
        let p = choose|p: Seq<u64>| #[trigger] is_path(g, p) && p[0] == a && p.last() == b;
        if p.len() > 1 {
            let i = p.len() - 2;
            assert(depends_on(g, p[i], p[i + 1]));
        }
    }
    vstd::set_lib::lemma_len_subset(transitive_dependencies(g, a), bound);
}

/// A component that reaches another one depends directly on a component that reaches it.
proof fn lemma_first_step(g: Graph, a: u64, b: u64) -> (c: u64)
    requires
        reaches(g, a, b),
        a != b,
    ensures
        depends_on(g, a, c),
        reaches(g, c, b),
{
    let p = choose|p: Seq<u64>| #[trigger] is_path(g, p) && p[0] == a && p.last() == b;
    let z: int = 0;
    assert(depends_on(g, p[z], p[z + 1]));
    let q = p.skip(1);
    assert forall|i: int| 0 <= i < q.len() - 1 implies #[trigger] depends_on(g, q[i], q[i + 1]) by {
        assert(depends_on(g, p[i + 1], p[i + 1 + 1]));
    }
    assert(is_path(g, q));
    p[1]
}

/// In an acyclic finite graph a component has more transitive dependencies than any of
/// its transitive dependencies other than itself.
pub proof fn lemma_rank_decreases(g: Graph, a: u64, b: u64)
    requires
        acyclic(g),
        finite_graph(g),
        reaches(g, a, b),
        a != b,
    ensures
        destruction_rank(g, b) < destruction_rank(g, a),
{
    let ta = transitive_dependencies(g, a);
    let tb = transitive_dependencies(g, b);
    lemma_transitive_dependencies_finite(g, a);
    lemma_reaches_refl(g, a);
    assert forall|x: u64| tb.contains(x) implies ta.remove(a).contains(x) by {
        lemma_reaches_trans(g, a, b, x);
        if x == a {
            let c = lemma_first_step(g, a, b);
            lemma_reaches_trans(g, c, b, a);
        }
    }
    vstd::set_lib::lemma_len_subset(tb, ta.remove(a));
}

} // verus!

verus! {

/// Every component is among its own transitive dependencies.
pub proof fn lemma_transitive_dependencies_contain_self(g: Graph, a: u64)
    ensures
        transitive_dependencies(g, a).contains(a),
{
    lemma_reaches_refl(g, a);
}

/// The transitive dependencies of a transitive dependency of `a` are transitive
/// dependencies of `a`.
pub proof fn lemma_transitive_dependencies_closed(g: Graph, a: u64, b: u64)
    requires
        transitive_dependencies(g, a).contains(b),
    ensures
        transitive_dependencies(g, b).subset_of(transitive_dependencies(g, a)),
{
    assert forall|c: u64| transitive_dependencies(g, b).contains(c) implies transitive_dependencies(
        g,
        a,
    ).contains(c) by {
        lemma_reaches_trans(g, a, b, c);
    }
}

/// Adding the dependency of `s` on `d` records it, keeps every other dependency and adds
/// no other.
pub proof fn lemma_add_edge_records(g: Graph, s: u64, d: u64)
    ensures
        depends_on(add_edge(g, s, d), s, d),
        forall|a: u64, b: u64| depends_on(g, a, b) ==> #[trigger] depends_on(add_edge(g, s, d), a, b),
        forall|a: u64, b: u64|
            #[trigger] depends_on(add_edge(g, s, d), a, b) ==> depends_on(g, a, b) || (a == s && b
                == d),
{
}

/// In an acyclic graph no component depends on itself, and asking for it closes a cycle.
pub proof fn lemma_self_dependency_is_cycle(g: Graph, s: u64)
    requires
        acyclic(g),
    ensures
        !depends_on(g, s, s),
        reaches(g, s, s),
{
    lemma_reaches_refl(g, s);
}

} // verus!
