//! Well-formed graphs: what adding and removing edges keeps and undoes, the
//! ring lattice and its rewiring into a small world, and cutting a node loose.
use vstd::prelude::*;
use crate::rng::xorshift;
use crate::graph::{adjacency, connect, differs_from, disconnect, keys_below, link, nbrs, unlink, without};

verus! {

/// `n` nodes, each with an empty list.
pub open spec fn empty_lists(n: nat) -> Map<usize, Seq<usize>> {
    Map::new(|k: usize| k < n, |k: usize| Seq::<usize>::empty())
}

/// The ring lattice after its first `i` nodes have been joined to the two
/// nodes on each side (left then right, nearest first).
pub open spec fn ring_lattice_upto(n: usize, i: nat) -> Map<usize, Seq<usize>>
    decreases i,
{
    if i == 0 {
        empty_lists(n as nat)
    } else {
        let v = (i - 1) as usize;
        let m = ring_lattice_upto(n, (i - 1) as nat);
        let l1 = ((v + n - 1) % (n as int)) as usize;
        let r1 = ((v + 1) % (n as int)) as usize;
        let l2 = ((v + n - 2) % (n as int)) as usize;
        let r2 = ((v + 2) % (n as int)) as usize;
        connect(connect(connect(connect(m, v, l1), v, r1), v, l2), v, r2)
    }
}

/// The ring lattice of `n` nodes, each joined to the two nearest on each side.
pub open spec fn ring_lattice(n: usize) -> Map<usize, Seq<usize>> {
    ring_lattice_upto(n, n as nat)
}

/// Rewiring the edges from `i` to the nodes of `list`, in order, starting
/// with the generator in state `s`: for each, one draw decides (below `t`)
/// whether to rewire; a rewired edge takes a second draw, reduced modulo `n`,
/// as its new far end, and is left alone when that end is `i` itself.
/// The result is the adjacency and the generator's state.
pub open spec fn rewire_list(
    adj: Map<usize, Seq<usize>>,
    s: u64,
    i: usize,
    list: Seq<usize>,
    n: usize,
    t: u64,
) -> (Map<usize, Seq<usize>>, u64)
    decreases list.len(),
{
    if list.len() == 0 {
        (adj, s)
    } else {
        let s1 = xorshift(s);
        if s1 < t {
            let s2 = xorshift(s1);
            let target = ((s2 as usize) % n) as usize;
            let adj1 = if target != i {
                connect(disconnect(adj, i, list[0]), i, target)
            } else {
                adj
            };
            rewire_list(adj1, s2, i, list.drop_first(), n, t)
        } else {
            rewire_list(adj, s1, i, list.drop_first(), n, t)
        }
    }
}

/// The rewiring pass over the first `i` nodes, each node's edges taken from
/// its list as it stands when its turn comes.
pub open spec fn rewire_upto(adj: Map<usize, Seq<usize>>, s: u64, n: usize, t: u64, i: nat) -> (
    Map<usize, Seq<usize>>,
    u64,
)
    decreases i,
{
    if i == 0 {
        (adj, s)
    } else {
        let prev = rewire_upto(adj, s, n, t, (i - 1) as nat);
        let v = (i - 1) as usize;
        rewire_list(prev.0, prev.1, v, nbrs(prev.0, v), n, t)
    }
}

/// The small-world graph of `n` nodes built from generator state `s` with
/// rewiring threshold `t`, and the generator's state afterwards.
pub open spec fn small_world(n: usize, t: u64, s: u64) -> (Map<usize, Seq<usize>>, u64) {
    rewire_upto(ring_lattice(n), s, n, t, n as nat)
}

/// Well-formed adjacency of nodes below `n`: every node with a list is below
/// `n`; every listed neighbor is below `n`, is not the node itself, and lists
/// the node back; no list repeats a neighbor.
pub open spec fn well_formed(adj: Map<usize, Seq<usize>>, n: nat) -> bool {
    &&& keys_below(adj, n)
    &&& forall|k: usize, j: int|
        adj.contains_key(k) && 0 <= j < adj[k].len() ==> #[trigger] adj[k][j] < n && adj[k][j] != k
            && nbrs(adj, adj[k][j]).contains(k)
    &&& forall|k: usize| #[trigger] adj.contains_key(k) ==> adj[k].no_duplicates()
}

/// `b` and `a` list each other.
pub open spec fn adjacent(adj: Map<usize, Seq<usize>>, a: usize, b: usize) -> bool {
    nbrs(adj, a).contains(b) && nbrs(adj, b).contains(a)
}

/// What `connect` does to each list and to the set of nodes with a list.
pub(crate) proof fn lemma_connect_lists(adj: Map<usize, Seq<usize>>, a: usize, b: usize)
    requires
        a != b,
    ensures
        forall|k: usize| #[trigger]
            connect(adj, a, b).contains_key(k) <==> (adj.contains_key(k) || k == a || k == b),
        forall|k: usize|
            #[trigger] nbrs(connect(adj, a, b), k) == if k == a && !nbrs(adj, a).contains(b) {
                nbrs(adj, a).push(b)
            } else if k == b && !nbrs(adj, b).contains(a) {
                nbrs(adj, b).push(a)
            } else {
                nbrs(adj, k)
            },
{
    let m1 = link(adj, a, b);
    assert(forall|k: usize| k != a ==> #[trigger] nbrs(m1, k) == nbrs(adj, k));
    assert(nbrs(m1, b) == nbrs(adj, b));
}

/// Adding an edge between two nodes below `n` keeps the adjacency well
/// formed, and afterwards the two list each other.
pub proof fn lemma_connect_well_formed(adj: Map<usize, Seq<usize>>, n: nat, a: usize, b: usize)
    requires
        well_formed(adj, n),
        a < n,
        b < n,
    ensures
        well_formed(connect(adj, a, b), n),
        a != b ==> adjacent(connect(adj, a, b), a, b),
{
    if a != b {
        let c = connect(adj, a, b);
        lemma_connect_lists(adj, a, b);
        // Under symmetry the two lists either both hold the edge or neither does.
        if nbrs(adj, a).contains(b) {
            let j = choose|j: int| 0 <= j < nbrs(adj, a).len() && nbrs(adj, a)[j] == b;
            assert(adj[a][j] == b);
        }
        if nbrs(adj, b).contains(a) {
            let j = choose|j: int| 0 <= j < nbrs(adj, b).len() && nbrs(adj, b)[j] == a;
            assert(adj[b][j] == a);
        }
        assert(nbrs(c, a).contains(b)) by {
            if !nbrs(adj, a).contains(b) {
                assert(nbrs(c, a)[nbrs(adj, a).len() as int] == b);
            }
        }
        assert(nbrs(c, b).contains(a)) by {
            if !nbrs(adj, b).contains(a) {
                assert(nbrs(c, b)[nbrs(adj, b).len() as int] == a);
            }
        }
        assert forall|k: usize| #[trigger] c.contains_key(k) implies k < n by {}
        assert forall|k: usize, j: int| c.contains_key(k) && 0 <= j < c[k].len() implies #[trigger] c[k][j] < n
            && c[k][j] != k && nbrs(c, c[k][j]).contains(k) by {
            assert(c[k] == nbrs(c, k));
            let x = c[k][j];
            if j < nbrs(adj, k).len() {
                assert(adj.contains_key(k));
                assert(adj[k][j] == x);
                assert(nbrs(adj, x).contains(k));
                let i = choose|i: int| 0 <= i < nbrs(adj, x).len() && nbrs(adj, x)[i] == k;
                assert(nbrs(c, x)[i] == k);
            } else {
                assert(k == a || k == b);
            }
        }
        assert forall|k: usize| #[trigger] c.contains_key(k) implies c[k].no_duplicates() by {
            assert(c[k] == nbrs(c, k));
            if adj.contains_key(k) {
                assert(adj[k].no_duplicates());
            }
        }
    }
}

/// What `disconnect` does to each list and to the set of nodes with a list.
pub(crate) proof fn lemma_disconnect_lists(adj: Map<usize, Seq<usize>>, a: usize, b: usize)
    ensures
        forall|k: usize| #[trigger] disconnect(adj, a, b).contains_key(k) <==> adj.contains_key(k),
        forall|k: usize|
            #[trigger] nbrs(disconnect(adj, a, b), k) == if k == a && k == b {
                without(without(nbrs(adj, k), b), a)
            } else if k == a {
                without(nbrs(adj, k), b)
            } else if k == b {
                without(nbrs(adj, k), a)
            } else {
                nbrs(adj, k)
            },
{
    let m1 = unlink(adj, a, b);
    assert forall|k: usize| #[trigger] nbrs(m1, k) == if k == a { without(nbrs(adj, k), b) } else { nbrs(adj, k) } by {
        if k == a && !adj.contains_key(a) {
            assert(without(Seq::<usize>::empty(), b) =~= Seq::<usize>::empty());
        }
    }
    assert forall|k: usize| #[trigger] nbrs(unlink(m1, b, a), k) == if k == b { without(nbrs(m1, k), a) } else { nbrs(m1, k) } by {
        if k == b && !m1.contains_key(b) {
            assert(without(Seq::<usize>::empty(), a) =~= Seq::<usize>::empty());
        }
    }
}

pub(crate) proof fn lemma_without(s: Seq<usize>, b: usize)
    ensures
        forall|x: usize| #[trigger] without(s, b).contains(x) <==> (s.contains(x) && x != b),
        s.no_duplicates() ==> without(s, b).no_duplicates(),
        !s.contains(b) ==> without(s, b) == s,
    decreases s.len(),
{
    assert forall|x: usize| #[trigger] without(s, b).contains(x) <==> (s.contains(x) && x != b) by {
        if without(s, b).contains(x) {
            s.lemma_filter_contains_rev(differs_from(b), x);
        }
        if s.contains(x) && x != b {
            let i = choose|i: int| 0 <= i < s.len() && s[i] == x;
            s.lemma_filter_contains(differs_from(b), i);
        }
    }
    if s.len() > 0 {
        lemma_without(s.drop_last(), b);
        reveal_with_fuel(Seq::<_>::filter, 1);
        assert(s.drop_last().push(s.last()) =~= s);
        if s.no_duplicates() {
            assert(s.drop_last().no_duplicates());
            let w = without(s.drop_last(), b);
            if s.last() != b {
                assert(!s.drop_last().contains(s.last()));
                assert(!w.contains(s.last()));
                assert(without(s, b) == w.push(s.last()));
                assert forall|i: int, j: int| 0 <= i < j < without(s, b).len() implies without(s, b)[i] != without(s, b)[j] by {
                    if j == w.len() {
                        assert(w[i] != s.last());
                    }
                }
            }
        }
        if !s.contains(b) {
            assert(!s.drop_last().contains(b));
            assert(s.last() != b);
        }
    } else {
        assert(without(s, b) =~= s);
    }
}

/// Removing an edge keeps the adjacency well formed, and afterwards neither
/// node lists the other.
pub proof fn lemma_disconnect_well_formed(adj: Map<usize, Seq<usize>>, n: nat, a: usize, b: usize)
    requires
        well_formed(adj, n),
    ensures
        well_formed(disconnect(adj, a, b), n),
        !nbrs(disconnect(adj, a, b), a).contains(b),
        !nbrs(disconnect(adj, a, b), b).contains(a),
{
    let d = disconnect(adj, a, b);
    lemma_disconnect_lists(adj, a, b);
    lemma_without(nbrs(adj, a), b);
    lemma_without(nbrs(adj, b), a);
    lemma_without(without(nbrs(adj, a), b), a);
    assert(!nbrs(d, a).contains(b));
    assert(!nbrs(d, b).contains(a));
    assert forall|k: usize| #[trigger] d.contains_key(k) implies k < n by {}
    assert forall|k: usize, j: int| d.contains_key(k) && 0 <= j < d[k].len() implies #[trigger] d[k][j] < n
        && d[k][j] != k && nbrs(d, d[k][j]).contains(k) by {
        assert(d[k] == nbrs(d, k));
        let x = d[k][j];
        lemma_without(nbrs(adj, k), b);
        lemma_without(nbrs(adj, k), a);
        lemma_without(without(nbrs(adj, k), b), a);
        assert(nbrs(d, k).contains(x));
        assert(nbrs(adj, k).contains(x));
        let i = choose|i: int| 0 <= i < nbrs(adj, k).len() && nbrs(adj, k)[i] == x;
        assert(adj[k][i] == x);
        assert(nbrs(adj, x).contains(k));
        // x keeps k: x is a or b only when k is the other end, which was removed.
        lemma_without(nbrs(adj, x), b);
        lemma_without(nbrs(adj, x), a);
        lemma_without(without(nbrs(adj, x), b), a);
    }
    assert forall|k: usize| #[trigger] d.contains_key(k) implies d[k].no_duplicates() by {
        assert(d[k] == nbrs(d, k));
        assert(adj[k].no_duplicates());
        lemma_without(nbrs(adj, k), b);
        lemma_without(nbrs(adj, k), a);
        lemma_without(without(nbrs(adj, k), b), a);
    }
}

/// Every node below `n` has a list.
pub open spec fn has_all_nodes(adj: Map<usize, Seq<usize>>, n: nat) -> bool {
    forall|k: usize| k < n ==> #[trigger] adj.contains_key(k)
}

/// The lists of a well-formed graph of `n` nodes, every one of which has a list.
pub open spec fn is_graph(adj: Map<usize, Seq<usize>>, n: nat) -> bool {
    well_formed(adj, n) && has_all_nodes(adj, n)
}

/// Adding an edge between nodes below `n`, or removing any edge, keeps a
/// graph of `n` nodes.
pub proof fn lemma_edits_keep_graph(adj: Map<usize, Seq<usize>>, n: nat, a: usize, b: usize)
    requires
        is_graph(adj, n),
    ensures
        a < n && b < n ==> is_graph(connect(adj, a, b), n),
        is_graph(disconnect(adj, a, b), n),
{
    if a < n && b < n {
        lemma_connect_well_formed(adj, n, a, b);
    }
    lemma_disconnect_well_formed(adj, n, a, b);
    lemma_disconnect_lists(adj, a, b);
    if a != b {
        lemma_connect_lists(adj, a, b);
    }
}

pub(crate) proof fn lemma_ring_lattice_upto_graph(n: usize, i: nat)
    requires
        n != 1,
        i <= n,
    ensures
        is_graph(ring_lattice_upto(n, i), n as nat),
    decreases i,
{
    if i == 0 {
        assert(is_graph(empty_lists(n as nat), n as nat));
    } else {
        lemma_ring_lattice_upto_graph(n, (i - 1) as nat);
        let v = (i - 1) as usize;
        let m = ring_lattice_upto(n, (i - 1) as nat);
        let l1 = ((v + n - 1) % (n as int)) as usize;
        let r1 = ((v + 1) % (n as int)) as usize;
        let l2 = ((v + n - 2) % (n as int)) as usize;
        let r2 = ((v + 2) % (n as int)) as usize;
        let m1 = connect(m, v, l1);
        let m2 = connect(m1, v, r1);
        let m3 = connect(m2, v, l2);
        lemma_edits_keep_graph(m, n as nat, v, l1);
        lemma_edits_keep_graph(m1, n as nat, v, r1);
        lemma_edits_keep_graph(m2, n as nat, v, l2);
        lemma_edits_keep_graph(m3, n as nat, v, r2);
    }
}

/// The ring lattice of `n` nodes is a graph of `n` nodes.
pub proof fn lemma_ring_lattice_graph(n: usize)
    requires
        n != 1,
    ensures
        is_graph(ring_lattice(n), n as nat),
{
    lemma_ring_lattice_upto_graph(n, n as nat);
}

pub(crate) proof fn lemma_rewire_list_graph(
    adj: Map<usize, Seq<usize>>,
    s: u64,
    i: usize,
    list: Seq<usize>,
    n: usize,
    t: u64,
)
    requires
        is_graph(adj, n as nat),
        i < n,
    ensures
        is_graph(rewire_list(adj, s, i, list, n, t).0, n as nat),
    decreases list.len(),
{
    if list.len() > 0 {
        let s1 = xorshift(s);
        if s1 < t {
            let s2 = xorshift(s1);
            let target = ((s2 as usize) % n) as usize;
            if target != i {
                lemma_edits_keep_graph(adj, n as nat, i, list[0]);
                lemma_edits_keep_graph(disconnect(adj, i, list[0]), n as nat, i, target);
                lemma_rewire_list_graph(
                    connect(disconnect(adj, i, list[0]), i, target),
                    s2,
                    i,
                    list.drop_first(),
                    n,
                    t,
                );
            } else {
                lemma_rewire_list_graph(adj, s2, i, list.drop_first(), n, t);
            }
        } else {
            lemma_rewire_list_graph(adj, s1, i, list.drop_first(), n, t);
        }
    }
}

pub(crate) proof fn lemma_rewire_upto_graph(adj: Map<usize, Seq<usize>>, s: u64, n: usize, t: u64, i: nat)
    requires
        is_graph(adj, n as nat),
        i <= n,
    ensures
        is_graph(rewire_upto(adj, s, n, t, i).0, n as nat),
    decreases i,
{
    if i > 0 {
        lemma_rewire_upto_graph(adj, s, n, t, (i - 1) as nat);
        let prev = rewire_upto(adj, s, n, t, (i - 1) as nat);
        let v = (i - 1) as usize;
        lemma_rewire_list_graph(prev.0, prev.1, v, nbrs(prev.0, v), n, t);
    }
}

/// Every small-world graph of `n` nodes is a graph of `n` nodes: its lists
/// are symmetric, free of self-loops and repeats, and name nodes below `n`.
pub proof fn lemma_small_world_graph(n: usize, t: u64, s: u64)
    requires
        n != 1,
    ensures
        is_graph(small_world(n, t, s).0, n as nat),
{
    lemma_ring_lattice_graph(n);
    lemma_rewire_upto_graph(ring_lattice(n), s, n, t, n as nat);
}

/// The total length of the lists of the nodes below `n`: twice the number of
/// undirected edges of a well-formed graph of `n` nodes.
pub open spec fn degree_sum(adj: Map<usize, Seq<usize>>, n: nat) -> nat
    decreases n,
{
    if n == 0 {
        0
    } else {
        degree_sum(adj, (n - 1) as nat) + nbrs(adj, (n - 1) as usize).len()
    }
}

/// Where only the lists of `a` and `b` differ, the totals differ by their
/// changes in length.
proof fn lemma_degree_sum_change(
    adj1: Map<usize, Seq<usize>>,
    adj2: Map<usize, Seq<usize>>,
    n: nat,
    a: usize,
    b: usize,
)
    requires
        a != b,
        n <= usize::MAX + 1,
        forall|k: usize| k != a && k != b ==> #[trigger] nbrs(adj2, k).len() == nbrs(adj1, k).len(),
    ensures
        degree_sum(adj2, n) - degree_sum(adj1, n) == (if a < n {
            nbrs(adj2, a).len() - nbrs(adj1, a).len()
        } else {
            0
        }) + (if b < n {
            nbrs(adj2, b).len() - nbrs(adj1, b).len()
        } else {
            0
        }),
    decreases n,
{
    if n > 0 {
        lemma_degree_sum_change(adj1, adj2, (n - 1) as nat, a, b);
        let k = (n - 1) as usize;
        assert(nbrs(adj2, k).len() == nbrs(adj1, k).len() || k == a || k == b);
    }
}

proof fn lemma_without_len(s: Seq<usize>, b: usize)
    requires
        s.no_duplicates(),
    ensures
        s.contains(b) ==> without(s, b).len() + 1 == s.len(),
        !s.contains(b) ==> without(s, b).len() == s.len(),
    decreases s.len(),
{
    lemma_without(s, b);
    if s.len() > 0 {
        let r = s.drop_last();
        assert(r.no_duplicates());
        lemma_without_len(r, b);
        reveal_with_fuel(Seq::<_>::filter, 1);
        assert(s.drop_last().push(s.last()) =~= s);
        if s.last() == b {
            assert(!r.contains(b));
        } else if s.contains(b) {
            let j = choose|j: int| 0 <= j < s.len() && s[j] == b;
            assert(r[j] == b);
        }
    }
}

/// Adding an edge adds at most one entry to each of two lists.
proof fn lemma_degree_sum_connect(adj: Map<usize, Seq<usize>>, n: nat, a: usize, b: usize)
    requires
        n <= usize::MAX + 1,
    ensures
        degree_sum(connect(adj, a, b), n) <= degree_sum(adj, n) + 2,
{
    if a != b {
        lemma_connect_lists(adj, a, b);
        lemma_degree_sum_change(adj, connect(adj, a, b), n, a, b);
    }
}

/// Removing an edge of a well-formed graph takes one entry out of each of
/// its two ends' lists.
proof fn lemma_degree_sum_disconnect(adj: Map<usize, Seq<usize>>, n: nat, a: usize, b: usize)
    requires
        n <= usize::MAX + 1,
        well_formed(adj, n),
        a < n,
        nbrs(adj, a).contains(b),
    ensures
        degree_sum(disconnect(adj, a, b), n) + 2 == degree_sum(adj, n),
{
    let j = choose|j: int| 0 <= j < nbrs(adj, a).len() && nbrs(adj, a)[j] == b;
    assert(adj[a][j] == b);
    assert(b < n && b != a && nbrs(adj, b).contains(a));
    lemma_disconnect_lists(adj, a, b);
    assert(adj[a].no_duplicates());
    assert(adj.contains_key(b));
    assert(adj[b].no_duplicates());
    lemma_without_len(nbrs(adj, a), b);
    lemma_without_len(nbrs(adj, b), a);
    lemma_degree_sum_change(adj, disconnect(adj, a, b), n, a, b);
}

/// Rewiring the edges from `i` to a part of its list, each still there,
/// never adds an edge: each rewired edge is removed before its replacement
/// is added.
proof fn lemma_rewire_list_degree(
    adj: Map<usize, Seq<usize>>,
    s: u64,
    i: usize,
    list: Seq<usize>,
    n: usize,
    t: u64,
)
    requires
        is_graph(adj, n as nat),
        i < n,
        list.no_duplicates(),
        forall|j: int| 0 <= j < list.len() ==> nbrs(adj, i).contains(#[trigger] list[j]),
    ensures
        degree_sum(rewire_list(adj, s, i, list, n, t).0, n as nat) <= degree_sum(adj, n as nat),
    decreases list.len(),
{
    if list.len() > 0 {
        let rest = list.drop_first();
        assert(rest.no_duplicates());
        let s1 = xorshift(s);
        if s1 < t {
            let s2 = xorshift(s1);
            let target = ((s2 as usize) % n) as usize;
            if target != i {
                let d = disconnect(adj, i, list[0]);
                let c = connect(d, i, target);
                assert(nbrs(adj, i).contains(list[0]));
                lemma_degree_sum_disconnect(adj, n as nat, i, list[0]);
                lemma_degree_sum_connect(d, n as nat, i, target);
                lemma_edits_keep_graph(adj, n as nat, i, list[0]);
                lemma_edits_keep_graph(d, n as nat, i, target);
                lemma_disconnect_lists(adj, i, list[0]);
                lemma_without(nbrs(adj, i), list[0]);
                lemma_without(nbrs(adj, i), i);
                lemma_without(without(nbrs(adj, i), list[0]), i);
                lemma_connect_lists(d, i, target);
                assert forall|j: int| 0 <= j < rest.len() implies nbrs(c, i).contains(#[trigger] rest[j]) by {
                    assert(rest[j] == list[j + 1]);
                    assert(nbrs(adj, i).contains(list[j + 1]));
                    assert(list[j + 1] != list[0]);
                    assert(nbrs(d, i).contains(rest[j]));
                    let q = choose|q: int| 0 <= q < nbrs(d, i).len() && nbrs(d, i)[q] == rest[j];
                    assert(nbrs(c, i)[q] == rest[j]);
                }
                lemma_rewire_list_degree(c, s2, i, rest, n, t);
            } else {
                assert forall|j: int| 0 <= j < rest.len() implies nbrs(adj, i).contains(#[trigger] rest[j]) by {
                    assert(rest[j] == list[j + 1]);
                }
                lemma_rewire_list_degree(adj, s2, i, rest, n, t);
            }
        } else {
            assert forall|j: int| 0 <= j < rest.len() implies nbrs(adj, i).contains(#[trigger] rest[j]) by {
                assert(rest[j] == list[j + 1]);
            }
            lemma_rewire_list_degree(adj, s1, i, rest, n, t);
        }
    }
}

proof fn lemma_rewire_upto_degree(adj: Map<usize, Seq<usize>>, s: u64, n: usize, t: u64, i: nat)
    requires
        is_graph(adj, n as nat),
        i <= n,
    ensures
        degree_sum(rewire_upto(adj, s, n, t, i).0, n as nat) <= degree_sum(adj, n as nat),
    decreases i,
{
    if i > 0 {
        lemma_rewire_upto_degree(adj, s, n, t, (i - 1) as nat);
        lemma_rewire_upto_graph(adj, s, n, t, (i - 1) as nat);
        let prev = rewire_upto(adj, s, n, t, (i - 1) as nat);
        let v = (i - 1) as usize;
        let list = nbrs(prev.0, v);
        if prev.0.contains_key(v) {
            assert(prev.0[v].no_duplicates());
        }
        assert forall|j: int| 0 <= j < list.len() implies nbrs(prev.0, v).contains(#[trigger] list[j]) by {}
        lemma_rewire_list_degree(prev.0, prev.1, v, list, n, t);
    }
}

/// Rewiring never adds edges: a small-world graph has no more edges than the
/// ring lattice it starts from.
pub proof fn lemma_small_world_edges(n: usize, t: u64, s: u64)
    requires
        n != 1,
    ensures
        degree_sum(small_world(n, t, s).0, n as nat) <= degree_sum(ring_lattice(n), n as nat),
{
    lemma_ring_lattice_graph(n);
    lemma_rewire_upto_degree(ring_lattice(n), s, n, t, n as nat);
}

/// How far `y` lies from `k` going forward round a ring of `n` nodes.
pub open spec fn ring_gap(n: nat, k: usize, y: usize) -> int {
    if y >= k {
        y - k
    } else {
        y + n - k
    }
}

/// `y` is one or two steps from `k` either way round a ring of `n` nodes.
pub open spec fn ring_close(n: nat, k: usize, y: usize) -> bool {
    let g = ring_gap(n, k, y);
    g == 1 || g == 2 || g == n - 1 || g == n - 2
}

proof fn lemma_mod_once(x: int, n: int)
    requires
        0 < n,
        0 <= x < 2 * n,
    ensures
        x % n == if x < n {
            x
        } else {
            x - n
        },
{
    if x < n {
        vstd::arithmetic::div_mod::lemma_small_mod(x as nat, n as nat);
    } else {
        vstd::arithmetic::div_mod::lemma_small_mod((x - n) as nat, n as nat);
        vstd::arithmetic::div_mod::lemma_mod_add_multiples_vanish(x - n, n);
    }
}

/// Every list of the ring lattice names nodes one or two steps round the ring.
spec fn lists_ring_close(adj: Map<usize, Seq<usize>>, n: nat) -> bool {
    forall|k: usize, y: usize| #[trigger] nbrs(adj, k).contains(y) ==> k < n && y < n && ring_close(n, k, y)
}

proof fn lemma_connect_ring_close(adj: Map<usize, Seq<usize>>, n: nat, a: usize, b: usize)
    requires
        lists_ring_close(adj, n),
        a < n,
        b < n,
        a != b ==> ring_close(n, a, b),
    ensures
        lists_ring_close(connect(adj, a, b), n),
{
    if a != b {
        lemma_connect_lists(adj, a, b);
        let c = connect(adj, a, b);
        assert forall|k: usize, y: usize| #[trigger] nbrs(c, k).contains(y) implies k < n && y < n && ring_close(
            n,
            k,
            y,
        ) by {
            let j = choose|j: int| 0 <= j < nbrs(c, k).len() && nbrs(c, k)[j] == y;
            if j < nbrs(adj, k).len() {
                assert(nbrs(adj, k)[j] == y);
                assert(nbrs(adj, k).contains(y));
            }
        }
    }
}

proof fn lemma_ring_lattice_upto_close(n: usize, i: nat)
    requires
        n != 1,
        i <= n,
    ensures
        lists_ring_close(ring_lattice_upto(n, i), n as nat),
    decreases i,
{
    if i > 0 {
        lemma_ring_lattice_upto_close(n, (i - 1) as nat);
        let v = (i - 1) as usize;
        let m = ring_lattice_upto(n, (i - 1) as nat);
        let l1 = ((v + n - 1) % (n as int)) as usize;
        let r1 = ((v + 1) % (n as int)) as usize;
        let l2 = ((v + n - 2) % (n as int)) as usize;
        let r2 = ((v + 2) % (n as int)) as usize;
        lemma_mod_once(v + n - 1, n as int);
        lemma_mod_once(v + 1, n as int);
        lemma_mod_once(v + n - 2, n as int);
        lemma_mod_once(v + 2, n as int);
        let m1 = connect(m, v, l1);
        let m2 = connect(m1, v, r1);
        let m3 = connect(m2, v, l2);
        lemma_connect_ring_close(m, n as nat, v, l1);
        lemma_connect_ring_close(m1, n as nat, v, r1);
        lemma_connect_ring_close(m2, n as nat, v, l2);
        lemma_connect_ring_close(m3, n as nat, v, r2);
    }
}

/// A repeat-free list of nodes one or two steps from `k` round the ring has
/// at most four entries.
proof fn lemma_ring_close_list_len(n: nat, k: usize, list: Seq<usize>)
    requires
        2 <= n <= usize::MAX + 1,
        k < n,
        list.no_duplicates(),
        forall|y: usize| #[trigger] list.contains(y) ==> y < n && ring_close(n, k, y),
    ensures
        list.len() <= 4,
{
    broadcast use vstd::set::group_set_axioms;

    lemma_mod_once(k + 1, n as int);
    lemma_mod_once(k + 2, n as int);
    lemma_mod_once(k + n - 1, n as int);
    lemma_mod_once(k + n - 2, n as int);
    let c1 = ((k + 1) % (n as int)) as usize;
    let c2 = ((k + 2) % (n as int)) as usize;
    let c3 = ((k + n - 1) % (n as int)) as usize;
    let c4 = ((k + n - 2) % (n as int)) as usize;
    let cands = Set::<usize>::empty().insert(c1).insert(c2).insert(c3).insert(c4);
    assert(cands.len() <= 4);
    assert forall|y: usize| #[trigger] list.to_set().contains(y) implies cands.contains(y) by {
        assert(list.contains(y));
    }
    list.unique_seq_to_set();
    vstd::set_lib::lemma_len_subset(list.to_set(), cands);
}

/// The ring lattice of `n` nodes has at most `2n` edges: each node lists at
/// most four neighbors.
pub proof fn lemma_ring_lattice_edges(n: usize)
    requires
        n != 1,
        n <= usize::MAX / 2 + 1,
    ensures
        degree_sum(ring_lattice(n), n as nat) <= 4 * n,
{
    lemma_ring_lattice_graph(n);
    lemma_ring_lattice_upto_close(n, n as nat);
    lemma_ring_degree_prefix(n, n as nat);
}

proof fn lemma_ring_degree_prefix(n: usize, i: nat)
    requires
        n != 1,
        n <= usize::MAX / 2 + 1,
        i <= n,
        is_graph(ring_lattice(n), n as nat),
        lists_ring_close(ring_lattice(n), n as nat),
    ensures
        degree_sum(ring_lattice(n), i) <= 4 * i,
    decreases i,
{
    if i > 0 {
        lemma_ring_degree_prefix(n, (i - 1) as nat);
        let r = ring_lattice(n);
        let k = (i - 1) as usize;
        assert(r.contains_key(k));
        assert(r[k].no_duplicates());
        lemma_ring_close_list_len(n as nat, k, nbrs(r, k));
    }
}

/// A small-world graph of `n` nodes has at most `2n` edges.
pub proof fn lemma_small_world_at_most_2n_edges(n: usize, t: u64, s: u64)
    requires
        n != 1,
        n <= usize::MAX / 2 + 1,
    ensures
        degree_sum(small_world(n, t, s).0, n as nat) <= 4 * n,
{
    lemma_small_world_edges(n, t, s);
    lemma_ring_lattice_edges(n);
}

/// Adding an edge that is already there changes nothing: `connect` is idempotent.
pub proof fn lemma_connect_idempotent(adj: Map<usize, Seq<usize>>, a: usize, b: usize)
    ensures
        connect(connect(adj, a, b), a, b) == connect(adj, a, b),
{
    if a != b {
        let c = connect(adj, a, b);
        lemma_connect_lists(adj, a, b);
        assert(nbrs(c, a).contains(b)) by {
            if !nbrs(adj, a).contains(b) {
                assert(nbrs(c, a)[nbrs(adj, a).len() as int] == b);
            }
        }
        assert(nbrs(c, b).contains(a)) by {
            if !nbrs(adj, b).contains(a) {
                assert(nbrs(c, b)[nbrs(adj, b).len() as int] == a);
            }
        }
    }
}

pub(crate) proof fn lemma_without_push(s: Seq<usize>, b: usize)
    requires
        !s.contains(b),
    ensures
        without(s.push(b), b) == s,
{
    lemma_without(s, b);
    reveal_with_fuel(Seq::<_>::filter, 1);
    assert(s.push(b).drop_last() =~= s);
}

/// Removing an edge that was just added between two listed nodes that did
/// not list each other gives back the adjacency as it was.
pub proof fn lemma_disconnect_undoes_connect(adj: Map<usize, Seq<usize>>, n: nat, a: usize, b: usize)
    requires
        well_formed(adj, n),
        a != b,
        adj.contains_key(a),
        adj.contains_key(b),
        !nbrs(adj, a).contains(b),
    ensures
        disconnect(connect(adj, a, b), a, b) == adj,
{
    let c = connect(adj, a, b);
    lemma_connect_lists(adj, a, b);
    assert(!nbrs(adj, b).contains(a)) by {
        if nbrs(adj, b).contains(a) {
            let j = choose|j: int| 0 <= j < nbrs(adj, b).len() && nbrs(adj, b)[j] == a;
            assert(adj[b][j] == a);
        }
    }
    let d = disconnect(c, a, b);
    lemma_disconnect_lists(c, a, b);
    lemma_without_push(nbrs(adj, a), b);
    lemma_without_push(nbrs(adj, b), a);
    assert forall|k: usize| #[trigger] d.contains_key(k) implies d[k] == adj[k] by {
        assert(d[k] == nbrs(d, k));
        assert(adj[k] == nbrs(adj, k));
    }
    assert(d =~= adj);
}

/// The edges from `h` to the nodes of `list` removed one after another.
pub open spec fn detach(adj: Map<usize, Seq<usize>>, h: usize, list: Seq<usize>) -> Map<usize, Seq<usize>>
    decreases list.len(),
{
    if list.len() == 0 {
        adj
    } else {
        detach(disconnect(adj, h, list[0]), h, list.drop_first())
    }
}

pub(crate) proof fn lemma_detach_graph(adj: Map<usize, Seq<usize>>, n: nat, h: usize, list: Seq<usize>)
    requires
        is_graph(adj, n),
        forall|x: usize| #[trigger] nbrs(adj, h).contains(x) ==> list.contains(x),
    ensures
        is_graph(detach(adj, h, list), n),
        nbrs(detach(adj, h, list), h).len() == 0,
    decreases list.len(),
{
    if list.len() == 0 {
        if nbrs(adj, h).len() > 0 {
            assert(nbrs(adj, h).contains(nbrs(adj, h)[0]));
        }
    } else {
        let d = disconnect(adj, h, list[0]);
        lemma_edits_keep_graph(adj, n, h, list[0]);
        lemma_disconnect_lists(adj, h, list[0]);
        lemma_without(nbrs(adj, h), list[0]);
        lemma_without(nbrs(adj, h), h);
        lemma_without(without(nbrs(adj, h), list[0]), h);
        assert forall|x: usize| #[trigger] nbrs(d, h).contains(x) implies list.drop_first().contains(x) by {
            assert(nbrs(adj, h).contains(x));
            assert(x != list[0]);
            let i = choose|i: int| 0 <= i < list.len() && list[i] == x;
            assert(list.drop_first()[i - 1] == x);
        }
        lemma_detach_graph(d, n, h, list.drop_first());
    }
}

/// Cutting every edge of a node of a graph leaves a graph in which the node
/// has no neighbor and no node lists it.
pub proof fn lemma_detach_isolates(adj: Map<usize, Seq<usize>>, n: nat, h: usize)
    requires
        is_graph(adj, n),
    ensures
        is_graph(detach(adj, h, nbrs(adj, h)), n),
        nbrs(detach(adj, h, nbrs(adj, h)), h).len() == 0,
        forall|k: usize| !(#[trigger] nbrs(detach(adj, h, nbrs(adj, h)), k)).contains(h),
{
    let d = detach(adj, h, nbrs(adj, h));
    lemma_detach_graph(adj, n, h, nbrs(adj, h));
    assert forall|k: usize| !(#[trigger] nbrs(d, k)).contains(h) by {
        if nbrs(d, k).contains(h) {
            let j = choose|j: int| 0 <= j < nbrs(d, k).len() && nbrs(d, k)[j] == h;
            assert(d.contains_key(k));
            assert(d[k][j] == h);
            assert(nbrs(d, h).contains(k));
        }
    }
}

} // verus!
