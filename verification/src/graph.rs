//! Connectivity over a set of carved edges. An edge is a pair of cell
//! indices normalized so that the smaller index comes first; two cells are
//! connected when some walk over the edge set joins them.

use vstd::prelude::*;

verus! {

/// The pair `{a, b}` with the smaller index first.
pub open spec fn norm_pair(a: int, b: int) -> (int, int) {
    if a <= b {
        (a, b)
    } else {
        (b, a)
    }
}

/// `p` walks from `a` to `b`, every consecutive pair joined by an edge.
pub open spec fn is_path(edges: Set<(int, int)>, p: Seq<int>, a: int, b: int) -> bool {
    &&& p.len() >= 1
    &&& p[0] == a
    &&& p[p.len() - 1] == b
    &&& forall|k: int| 0 <= k < p.len() - 1 ==> edges.contains(#[trigger] norm_pair(p[k], p[k + 1]))
}

/// Some walk over `edges` joins `a` and `b`.
pub open spec fn connected(edges: Set<(int, int)>, a: int, b: int) -> bool {
    exists|p: Seq<int>| is_path(edges, p, a, b)
}

pub proof fn lemma_connected_refl(edges: Set<(int, int)>, a: int)
    ensures
        connected(edges, a, a),
{
    let p = seq![a];
    assert(is_path(edges, p, a, a));
}

/// Extending a walk by one edge keeps its endpoints connected.
pub proof fn lemma_connected_step(edges: Set<(int, int)>, a: int, b: int, c: int)
    requires
        connected(edges, a, b),
        edges.contains(norm_pair(b, c)),
    ensures
        connected(edges, a, c),
{
    let p = choose|p: Seq<int>| is_path(edges, p, a, b);
    let q = p.push(c);
    assert(q[q.len() - 1] == c);
    assert forall|k: int| 0 <= k < q.len() - 1 implies edges.contains(
        #[trigger] norm_pair(q[k], q[k + 1]),
    ) by {
        if k < p.len() - 1 {
            assert(q[k] == p[k] && q[k + 1] == p[k + 1]);
        } else {
            assert(q[k] == b && q[k + 1] == c);
        }
    }
    assert(is_path(edges, q, a, c));
}

/// A walk read backwards is a walk: connectivity is symmetric.
pub proof fn lemma_connected_sym(edges: Set<(int, int)>, a: int, b: int)
    requires
        connected(edges, a, b),
    ensures
        connected(edges, b, a),
{
    let p = choose|p: Seq<int>| is_path(edges, p, a, b);
    let q = p.reverse();
    let n = p.len() as int;
    assert forall|k: int| 0 <= k < q.len() - 1 implies edges.contains(
        #[trigger] norm_pair(q[k], q[k + 1]),
    ) by {
        assert(q[k] == p[n - 1 - k] && q[k + 1] == p[n - 2 - k]);
        assert(edges.contains(norm_pair(p[n - 2 - k], p[n - 2 - k + 1])));
        assert(norm_pair(p[n - 2 - k], p[n - 1 - k]) == norm_pair(p[n - 1 - k], p[n - 2 - k]));
    }
    assert(is_path(edges, q, b, a));
}

/// Adding edges never disconnects anything.
pub proof fn lemma_connected_mono(e1: Set<(int, int)>, e2: Set<(int, int)>, a: int, b: int)
    requires
        e1.subset_of(e2),
        connected(e1, a, b),
    ensures
        connected(e2, a, b),
{
    let p = choose|p: Seq<int>| is_path(e1, p, a, b);
    assert(is_path(e2, p, a, b));
}

} // verus!
