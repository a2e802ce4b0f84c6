//! Walks through alive nodes: reachability, its laws, and the counting and
//! closure facts behind the connectivity search.
use vstd::prelude::*;
use crate::graph::{adjacency, list_in_range, nbrs};
use crate::topology::{well_formed};

verus! {

/// `p` is a walk of at least one node, through nodes below `alive.len()` that
/// are alive, each step going from a node to one in its list.
pub open spec fn is_walk(adj: Map<usize, Seq<usize>>, alive: Seq<bool>, p: Seq<usize>) -> bool {
    &&& p.len() > 0
    &&& forall|i: int| 0 <= i < p.len() ==> #[trigger] p[i] < alive.len() && alive[p[i] as int]
    &&& forall|i: int|
        0 <= i < p.len() - 1 ==> #[trigger] nbrs(adj, p[i]).contains(p[i + 1])
}

/// `t` can be reached from `s` along a walk through alive nodes.
pub open spec fn reaches(adj: Map<usize, Seq<usize>>, alive: Seq<bool>, s: usize, t: usize) -> bool {
    exists|p: Seq<usize>| #[trigger] is_walk(adj, alive, p) && p[0] == s && p.last() == t
}

/// `s` is the lowest alive node.
pub open spec fn is_first_alive(alive: Seq<bool>, s: int) -> bool {
    &&& 0 <= s < alive.len()
    &&& alive[s]
    &&& forall|j: int| 0 <= j < s ==> !alive[j]
}

/// Every alive node can be reached from `s`.
pub open spec fn reaches_all_alive(adj: Map<usize, Seq<usize>>, alive: Seq<bool>, s: usize) -> bool {
    forall|t: usize| t < alive.len() && alive[t as int] ==> #[trigger] reaches(adj, alive, s, t)
}

/// The number of `true` entries.
pub open spec fn count_true(s: Seq<bool>) -> nat
    decreases s.len(),
{
    if s.len() == 0 {
        0
    } else {
        count_true(s.drop_last()) + if s.last() {
            1nat
        } else {
            0nat
        }
    }
}

pub proof fn lemma_count_true_bound(s: Seq<bool>)
    ensures
        count_true(s) <= s.len(),
        (exists|i: int| 0 <= i < s.len() && !s[i]) ==> count_true(s) < s.len(),
    decreases s.len(),
{
    if s.len() > 0 {
        lemma_count_true_bound(s.drop_last());
        if exists|i: int| 0 <= i < s.len() && !s[i] {
            let i = choose|i: int| 0 <= i < s.len() && !s[i];
            if i < s.len() - 1 {
                assert(!s.drop_last()[i]);
            }
        }
    }
}

pub(crate) proof fn lemma_count_true_zero(s: Seq<bool>)
    requires
        forall|i: int| 0 <= i < s.len() ==> !s[i],
    ensures
        count_true(s) == 0,
    decreases s.len(),
{
    if s.len() > 0 {
        lemma_count_true_zero(s.drop_last());
    }
}

pub(crate) proof fn lemma_count_true_set(s: Seq<bool>, i: int)
    requires
        0 <= i < s.len(),
        !s[i],
    ensures
        count_true(s.update(i, true)) == count_true(s) + 1,
    decreases s.len(),
{
    let t = s.update(i, true);
    if i == s.len() - 1 {
        assert(t.drop_last() =~= s.drop_last());
    } else {
        lemma_count_true_set(s.drop_last(), i);
        assert(t.drop_last() =~= s.drop_last().update(i, true));
    }
}

/// Where `a` is pointwise below `b`, the counts agree exactly when `b` is
/// pointwise below `a`.
pub(crate) proof fn lemma_count_true_sub(a: Seq<bool>, b: Seq<bool>)
    requires
        a.len() == b.len(),
        forall|i: int| 0 <= i < a.len() && a[i] ==> b[i],
    ensures
        count_true(a) <= count_true(b),
        count_true(a) == count_true(b) <==> (forall|i: int| 0 <= i < a.len() && b[i] ==> a[i]),
    decreases a.len(),
{
    if a.len() > 0 {
        let a0 = a.drop_last();
        let b0 = b.drop_last();
        lemma_count_true_sub(a0, b0);
        if count_true(a) == count_true(b) {
            assert forall|i: int| 0 <= i < a.len() && b[i] implies a[i] by {
                if i < a.len() - 1 {
                    assert(b0[i]);
                }
            }
        }
        if forall|i: int| 0 <= i < a.len() && b[i] ==> a[i] {
            assert forall|i: int| 0 <= i < a0.len() && b0[i] implies a0[i] by {
                assert(b[i]);
            }
        }
    }
}

pub(crate) proof fn lemma_reaches_self(adj: Map<usize, Seq<usize>>, alive: Seq<bool>, s: usize)
    requires
        s < alive.len(),
        alive[s as int],
    ensures
        reaches(adj, alive, s, s),
{
    let p = seq![s];
    assert(is_walk(adj, alive, p));
}

pub(crate) proof fn lemma_reaches_step(adj: Map<usize, Seq<usize>>, alive: Seq<bool>, s: usize, u: usize, v: usize)
    requires
        reaches(adj, alive, s, u),
        nbrs(adj, u).contains(v),
        v < alive.len(),
        alive[v as int],
    ensures
        reaches(adj, alive, s, v),
{
    let p = choose|p: Seq<usize>| #[trigger] is_walk(adj, alive, p) && p[0] == s && p.last() == u;
    let q = p.push(v);
    assert forall|i: int| 0 <= i < q.len() - 1 implies #[trigger] nbrs(adj, q[i]).contains(q[i + 1]) by {
        if i < p.len() - 1 {
            assert(nbrs(adj, p[i]).contains(p[i + 1]));
        }
    }
    assert forall|i: int| 0 <= i < q.len() implies #[trigger] q[i] < alive.len() && alive[q[i] as int] by {
        if i < p.len() {
            assert(p[i] < alive.len());
        }
    }
    assert(is_walk(adj, alive, q));
}

/// Every alive neighbor of `i` is marked.
pub open spec fn closed_at(adj: Map<usize, Seq<usize>>, alive: Seq<bool>, visited: Seq<bool>, i: usize) -> bool {
    forall|j: int|
        0 <= j < nbrs(adj, i).len() && alive[nbrs(adj, i)[j] as int] ==> #[trigger] visited[nbrs(
            adj,
            i,
        )[j] as int]
}

pub(crate) proof fn lemma_closed_mono(
    adj: Map<usize, Seq<usize>>,
    alive: Seq<bool>,
    v1: Seq<bool>,
    v2: Seq<bool>,
    i: usize,
)
    requires
        closed_at(adj, alive, v1, i),
        list_in_range(adj, i, v1.len()),
        v1.len() == v2.len(),
        forall|x: int| 0 <= x < v1.len() && v1[x] ==> v2[x],
    ensures
        closed_at(adj, alive, v2, i),
{
    assert forall|j: int|
        0 <= j < nbrs(adj, i).len() && alive[nbrs(adj, i)[j] as int] implies #[trigger] v2[nbrs(
            adj,
            i,
        )[j] as int] by {
        assert(v1[nbrs(adj, i)[j] as int]);
    }
}

/// A marked set closed under alive neighbors holds every walk from a marked node.
pub(crate) proof fn lemma_walk_marked(adj: Map<usize, Seq<usize>>, alive: Seq<bool>, visited: Seq<bool>, p: Seq<usize>)
    requires
        is_walk(adj, alive, p),
        visited.len() == alive.len(),
        visited[p[0] as int],
        forall|i: usize| i < visited.len() && visited[i as int] ==> closed_at(adj, alive, visited, i),
    ensures
        visited[p.last() as int],
    decreases p.len(),
{
    if p.len() > 1 {
        let q = p.drop_last();
        assert forall|i: int| 0 <= i < q.len() - 1 implies #[trigger] nbrs(adj, q[i]).contains(q[i + 1]) by {
            assert(nbrs(adj, p[i]).contains(p[i + 1]));
        }
        assert forall|i: int| 0 <= i < q.len() implies #[trigger] q[i] < alive.len() && alive[q[i] as int] by {
            assert(p[i] < alive.len());
        }
        lemma_walk_marked(adj, alive, visited, q);
        let u = q.last();
        let k = p.len() - 2;
        assert(p[k] == u);
        assert(nbrs(adj, p[k]).contains(p[k + 1]));
        assert(p[k + 1] < alive.len() && alive[p[k + 1] as int]);
        assert(closed_at(adj, alive, visited, u));
        let j = choose|j: int| 0 <= j < nbrs(adj, u).len() && nbrs(adj, u)[j] == p[k + 1];
        assert(visited[nbrs(adj, u)[j] as int]);
    }
}

/// In a well-formed adjacency a walk can be walked backwards.
pub proof fn lemma_reaches_symmetric(adj: Map<usize, Seq<usize>>, alive: Seq<bool>, s: usize, t: usize)
    requires
        well_formed(adj, alive.len()),
        reaches(adj, alive, s, t),
    ensures
        reaches(adj, alive, t, s),
{
    let p = choose|p: Seq<usize>| #[trigger] is_walk(adj, alive, p) && p[0] == s && p.last() == t;
    let q = p.reverse();
    assert forall|i: int| 0 <= i < q.len() - 1 implies #[trigger] nbrs(adj, q[i]).contains(q[i + 1]) by {
        let k = p.len() - 2 - i;
        assert(q[i] == p[k + 1] && q[i + 1] == p[k]);
        assert(nbrs(adj, p[k]).contains(p[k + 1]));
        let j = choose|j: int| 0 <= j < nbrs(adj, p[k]).len() && nbrs(adj, p[k])[j] == p[k + 1];
        assert(adj.contains_key(p[k]));
        assert(adj[p[k]][j] == p[k + 1]);
    }
    assert forall|i: int| 0 <= i < q.len() implies #[trigger] q[i] < alive.len() && alive[q[i] as int] by {
        assert(q[i] == p[p.len() - 1 - i]);
    }
    assert(is_walk(adj, alive, q));
}

/// Walks join end to end.
pub proof fn lemma_reaches_transitive(
    adj: Map<usize, Seq<usize>>,
    alive: Seq<bool>,
    s: usize,
    u: usize,
    t: usize,
)
    requires
        reaches(adj, alive, s, u),
        reaches(adj, alive, u, t),
    ensures
        reaches(adj, alive, s, t),
{
    let p = choose|p: Seq<usize>| #[trigger] is_walk(adj, alive, p) && p[0] == s && p.last() == u;
    let q = choose|q: Seq<usize>| #[trigger] is_walk(adj, alive, q) && q[0] == u && q.last() == t;
    let w = p + q.drop_first();
    assert forall|i: int| 0 <= i < w.len() - 1 implies #[trigger] nbrs(adj, w[i]).contains(w[i + 1]) by {
        if i < p.len() - 1 {
            assert(nbrs(adj, p[i]).contains(p[i + 1]));
        } else {
            let k = i - p.len() + 1;
            assert(w[i] == q[k] && w[i + 1] == q[k + 1]);
            assert(nbrs(adj, q[k]).contains(q[k + 1]));
        }
    }
    assert forall|i: int| 0 <= i < w.len() implies #[trigger] w[i] < alive.len() && alive[w[i] as int] by {
        if i < p.len() {
            assert(p[i] < alive.len());
        } else {
            assert(w[i] == q[i - p.len() + 1]);
        }
    }
    assert(is_walk(adj, alive, w));
}

/// In a well-formed adjacency, when every alive node can be reached from the
/// lowest alive one, every alive node can be reached from every other.
pub proof fn lemma_connected_all_pairs(adj: Map<usize, Seq<usize>>, alive: Seq<bool>, f: int)
    requires
        well_formed(adj, alive.len()),
        is_first_alive(alive, f),
        reaches_all_alive(adj, alive, f as usize),
    ensures
        forall|s: usize, t: usize|
            s < alive.len() && alive[s as int] && t < alive.len() && alive[t as int] ==> #[trigger] reaches(
                adj,
                alive,
                s,
                t,
            ),
{
    assert forall|s: usize, t: usize|
        s < alive.len() && alive[s as int] && t < alive.len() && alive[t as int] implies #[trigger] reaches(
            adj,
            alive,
            s,
            t,
        ) by {
        assert(reaches(adj, alive, f as usize, s));
        assert(reaches(adj, alive, f as usize, t));
        lemma_reaches_symmetric(adj, alive, f as usize, s);
        lemma_reaches_transitive(adj, alive, s, f as usize, t);
    }
}

} // verus!
