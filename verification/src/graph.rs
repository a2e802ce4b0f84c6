//! The fleet's topology: an adjacency map from node ids to neighbor lists.
use std::collections::HashMap;
use vstd::prelude::*;
use crate::rng::Rng;
use crate::reach::{closed_at, count_true, is_first_alive, is_walk, lemma_closed_mono, lemma_count_true_bound, lemma_count_true_set, lemma_count_true_sub, lemma_count_true_zero, lemma_reaches_self, lemma_reaches_step, lemma_walk_marked, reaches, reaches_all_alive};
use crate::topology::{degree_sum, detach, empty_lists, is_graph, lemma_small_world_at_most_2n_edges, lemma_small_world_graph, rewire_list, rewire_upto, ring_lattice, ring_lattice_upto, small_world};

verus! {

broadcast use vstd::std_specs::hash::group_hash_axioms;

/// The adjacency lists as sequences.
pub open spec fn adjacency(m: Map<usize, Vec<usize>>) -> Map<usize, Seq<usize>> {
    m.map_values(|v: Vec<usize>| v@)
}

/// The neighbor list of `a`; empty when `a` has no entry.
pub open spec fn nbrs(adj: Map<usize, Seq<usize>>, a: usize) -> Seq<usize> {
    if adj.contains_key(a) {
        adj[a]
    } else {
        Seq::empty()
    }
}

/// `b` appended to the list of `a`, unless it is there already.
pub open spec fn link(adj: Map<usize, Seq<usize>>, a: usize, b: usize) -> Map<usize, Seq<usize>> {
    if nbrs(adj, a).contains(b) {
        adj
    } else {
        adj.insert(a, nbrs(adj, a).push(b))
    }
}

/// The undirected edge between two distinct nodes, added in both lists;
/// a self-loop is no edge.
pub open spec fn connect(adj: Map<usize, Seq<usize>>, a: usize, b: usize) -> Map<usize, Seq<usize>> {
    if a == b {
        adj
    } else {
        link(link(adj, a, b), b, a)
    }
}

/// Every occurrence of `b` taken out of the list of `a`, where `a` has one.
pub open spec fn unlink(adj: Map<usize, Seq<usize>>, a: usize, b: usize) -> Map<usize, Seq<usize>> {
    if adj.contains_key(a) {
        adj.insert(a, without(adj[a], b))
    } else {
        adj
    }
}

/// `s` without the occurrences of `b`, in order.
pub open spec fn without(s: Seq<usize>, b: usize) -> Seq<usize> {
    s.filter(differs_from(b))
}

/// The test "is not `b`".
pub open spec fn differs_from(b: usize) -> spec_fn(usize) -> bool {
    |x: usize| x != b
}

/// The edge between `a` and `b` taken out of both lists.
pub open spec fn disconnect(adj: Map<usize, Seq<usize>>, a: usize, b: usize) -> Map<usize, Seq<usize>> {
    unlink(unlink(adj, a, b), b, a)
}

/// The list of `k` names only nodes below `n`.
pub open spec fn list_in_range(adj: Map<usize, Seq<usize>>, k: usize, n: nat) -> bool {
    forall|j: int| 0 <= j < nbrs(adj, k).len() ==> #[trigger] nbrs(adj, k)[j] < n
}

/// The lists of the nodes that can be reached from `s` name only nodes
/// below `alive.len()`.
pub open spec fn reached_lists_in_range(adj: Map<usize, Seq<usize>>, alive: Seq<bool>, s: usize) -> bool {
    forall|k: usize| #[trigger] reaches(adj, alive, s, k) ==> list_in_range(adj, k, alive.len())
}

/// The lists of the nodes below `n` name only nodes below `n`.
pub open spec fn lists_in_range(adj: Map<usize, Seq<usize>>, n: nat) -> bool {
    forall|k: usize, j: int|
        k < n && adj.contains_key(k) && 0 <= j < adj[k].len() ==> #[trigger] adj[k][j] < n
}

/// Every node with a list is below `n`.
pub open spec fn keys_below(adj: Map<usize, Seq<usize>>, n: nat) -> bool {
    forall|k: usize| #[trigger] adj.contains_key(k) ==> k < n
}

/// Some alive node with a list has a neighbor.
pub open spec fn has_alive_neighbor(adj: Map<usize, Seq<usize>>, alive: Seq<bool>) -> bool {
    exists|k: usize| #[trigger] adj.contains_key(k) && alive[k as int] && adj[k].len() > 0
}

/// `h` is alive, has a list, and no alive node has a longer one.
pub open spec fn is_alive_hub(adj: Map<usize, Seq<usize>>, alive: Seq<bool>, h: usize) -> bool {
    &&& adj.contains_key(h)
    &&& alive[h as int]
    &&& forall|k: usize| #[trigger] adj.contains_key(k) && alive[k as int] ==> adj[k].len() <= adj[h].len()
}

/// The lowest alive index, if any.
fn first_alive(alive: &[bool]) -> (r: Option<usize>)
    ensures
        match r {
            Some(s) => is_first_alive(alive@, s as int),
            None => forall|i: int| 0 <= i < alive@.len() ==> !alive@[i],
        },
{
    let mut i: usize = 0;
    while i < alive.len()
        invariant
            i <= alive@.len(),
            forall|j: int| 0 <= j < i ==> !alive@[j],
        decreases alive@.len() - i,
    {
        if alive[i] {
            return Some(i);
        }
        i = i + 1;
    }
    None
}

/// The number of alive entries.
fn count_alive(alive: &[bool]) -> (c: usize)
    ensures
        c == count_true(alive@),
{
    let mut c: usize = 0;
    let mut i: usize = 0;
    while i < alive.len()
        invariant
            i <= alive@.len(),
            c == count_true(alive@.take(i as int)),
        decreases alive@.len() - i,
    {
        proof {
            assert(alive@.take(i + 1).drop_last() =~= alive@.take(i as int));
            lemma_count_true_bound(alive@.take(i as int));
        }
        if alive[i] {
            c = c + 1;
        }
        i = i + 1;
    }
    proof {
        assert(alive@.take(alive@.len() as int) =~= alive@);
    }
    c
}

/// Whether `x` occurs in `v`.
fn list_contains(v: &Vec<usize>, x: usize) -> (r: bool)
    ensures
        r == v@.contains(x),
{
    let mut i: usize = 0;
    while i < v.len()
        invariant
            i <= v.len(),
            forall|j: int| 0 <= j < i ==> v@[j] != x,
        decreases v.len() - i,
    {
        if v[i] == x {
            return true;
        }
        i = i + 1;
    }
    false
}

/// `v` without the occurrences of `x`, in order.
fn list_without(v: &Vec<usize>, x: usize) -> (r: Vec<usize>)
    ensures
        r@ == without(v@, x),
{
    let mut r: Vec<usize> = Vec::new();
    let mut i: usize = 0;
    while i < v.len()
        invariant
            i <= v.len(),
            r@ == without(v@.take(i as int), x),
        decreases v.len() - i,
    {
        proof {
            assert(v@.take(i + 1).drop_last() =~= v@.take(i as int));
            reveal_with_fuel(Seq::<_>::filter, 1);
        }
        if v[i] != x {
            r.push(v[i]);
        }
        i = i + 1;
    }
    proof {
        assert(v@.take(v.len() as int) =~= v@);
    }
    r
}

/// Appends `b` to the list of `a` unless it is already there.
fn link_half(edges: &mut HashMap<usize, Vec<usize>>, a: usize, b: usize)
    ensures
        adjacency(final(edges)@) == link(adjacency(old(edges)@), a, b),
{
    let present = match edges.get(&a) {
        Some(v) => list_contains(v, b),
        None => false,
    };
    if !present {
        let mut v = match edges.remove(&a) {
            Some(v) => v,
            None => Vec::new(),
        };
        v.push(b);
        edges.insert(a, v);
        proof {
            assert(adjacency(edges@) =~= adjacency(old(edges)@).insert(
                a,
                nbrs(adjacency(old(edges)@), a).push(b),
            ));
        }
    }
}

/// Removes every `b` from the list of `a`, where `a` has a list.
fn unlink_half(edges: &mut HashMap<usize, Vec<usize>>, a: usize, b: usize)
    ensures
        adjacency(final(edges)@) == unlink(adjacency(old(edges)@), a, b),
{
    match edges.remove(&a) {
        Some(v) => {
            let w = list_without(&v, b);
            edges.insert(a, w);
            proof {
                assert(adjacency(old(edges)@)[a] == v@);
                assert(adjacency(edges@) =~= unlink(adjacency(old(edges)@), a, b));
            }
        },
        None => {
            proof {
                assert(edges@ =~= old(edges)@);
            }
        },
    }
}

/// A graph of `node_count` nodes with undirected edges kept as adjacency lists.
pub struct CellGraph {
    pub edges: HashMap<usize, Vec<usize>>,
    pub node_count: usize,
}

impl CellGraph {
    /// A small-world graph of `n` nodes: a ring lattice joining each node to
    /// the two nearest on each side, whose edges are then rewired node by node,
    /// each with a draw of `rng` below `rewire_threshold`, to a uniformly drawn
    /// far end.
    pub fn new_small_world(n: usize, rewire_threshold: u64, rng: &mut Rng) -> (g: Self)
        requires
            n != 1,
            n <= usize::MAX / 2 + 1,
        ensures
            g.node_count == n,
            adjacency(g.edges@) == small_world(n, rewire_threshold, old(rng)@).0,
            final(rng)@ == small_world(n, rewire_threshold, old(rng)@).1,
            is_graph(adjacency(g.edges@), n as nat),
            degree_sum(adjacency(g.edges@), n as nat) <= 4 * n,
    {
        proof {
            lemma_small_world_graph(n, rewire_threshold, old(rng)@);
            lemma_small_world_at_most_2n_edges(n, rewire_threshold, old(rng)@);
        }
        let mut edges: HashMap<usize, Vec<usize>> = HashMap::new();
        let mut i: usize = 0;
        while i < n
            invariant
                i <= n,
                adjacency(edges@) == empty_lists(i as nat),
            decreases n - i,
        {
            let ghost before = edges@;
            let fresh: Vec<usize> = Vec::new();
            edges.insert(i, fresh);
            proof {
                assert(fresh@ =~= Seq::<usize>::empty());
                assert(edges@ == before.insert(i, fresh));
                assert(adjacency(edges@) =~= adjacency(before).insert(i, fresh@));
                assert(empty_lists(i as nat).insert(i, Seq::<usize>::empty()) =~= empty_lists((i + 1) as nat));
            }
            i = i + 1;
        }
        i = 0;
        while i < n
            invariant
                i <= n,
                n != 1,
                n <= usize::MAX / 2 + 1,
                adjacency(edges@) == ring_lattice_upto(n, i as nat),
            decreases n - i,
        {
            let l1 = (i + n - 1) % n;
            let r1 = (i + 1) % n;
            Self::add_edge(&mut edges, i, l1);
            Self::add_edge(&mut edges, i, r1);
            let l2 = (i + n - 2) % n;
            let r2 = (i + 2) % n;
            Self::add_edge(&mut edges, i, l2);
            Self::add_edge(&mut edges, i, r2);
            i = i + 1;
        }
        let ghost ring = adjacency(edges@);
        let ghost s0 = rng@;
        i = 0;
        while i < n
            invariant
                i <= n,
                ring == ring_lattice(n),
                (adjacency(edges@), rng@) == rewire_upto(ring, s0, n, rewire_threshold, i as nat),
            decreases n - i,
        {
            let list = match edges.get(&i) {
                Some(v) => v.clone(),
                None => Vec::new(),
            };
            let ghost start = (adjacency(edges@), rng@);
            assert(list@ == nbrs(start.0, i));
            assert(list@.skip(0) =~= list@);
            let mut j: usize = 0;
            while j < list.len()
                invariant
                    i < n,
                    j <= list@.len(),
                    rewire_list(adjacency(edges@), rng@, i, list@.skip(j as int), n, rewire_threshold)
                        == rewire_list(start.0, start.1, i, list@, n, rewire_threshold),
                decreases list@.len() - j,
            {
                let far = list[j];
                proof {
                    assert(list@.skip(j as int).drop_first() =~= list@.skip(j + 1));
                    assert(list@.skip(j as int)[0] == far);
                }
                if rng.next_bool(rewire_threshold) {
                    let target = rng.next_usize(n);
                    if target != i {
                        Self::remove_edge(&mut edges, i, far);
                        Self::add_edge(&mut edges, i, target);
                    }
                }
                j = j + 1;
            }
            proof {
                assert(list@.skip(list@.len() as int) =~= Seq::<usize>::empty());
            }
            i = i + 1;
        }
        CellGraph { edges, node_count: n }
    }

    /// Adds the undirected edge between `a` and `b`: each is appended to the
    /// other's list unless it is there already. A self-loop changes nothing.
    pub fn add_edge(edges: &mut HashMap<usize, Vec<usize>>, a: usize, b: usize)
        ensures
            adjacency(final(edges)@) == connect(adjacency(old(edges)@), a, b),
    {
        if a == b {
            return;
        }
        link_half(edges, a, b);
        link_half(edges, b, a);
    }

    /// Removes the undirected edge between `a` and `b`: every occurrence of
    /// each is taken out of the other's list.
    pub fn remove_edge(edges: &mut HashMap<usize, Vec<usize>>, a: usize, b: usize)
        ensures
            adjacency(final(edges)@) == disconnect(adjacency(old(edges)@), a, b),
    {
        unlink_half(edges, a, b);
        unlink_half(edges, b, a);
    }

    /// Whether every alive node can be reached from the lowest alive node
    /// along neighbor lists, through alive nodes only; true when none is alive.
    pub fn is_connected(&self, alive: &[bool]) -> (r: bool)
        requires
            forall|s: int|
                is_first_alive(alive@, s) ==> reached_lists_in_range(
                    adjacency(self.edges@),
                    alive@,
                    s as usize,
                ),
        ensures
            (forall|i: int| 0 <= i < alive@.len() ==> !alive@[i]) ==> r,
            forall|s: int|
                is_first_alive(alive@, s) ==> (r == reaches_all_alive(
                    adjacency(self.edges@),
                    alive@,
                    s as usize,
                )),
    {
        let ghost adj = adjacency(self.edges@);
        let start = match first_alive(alive) {
            Some(s) => s,
            None => return true,
        };
        let n = alive.len();
        let mut visited: Vec<bool> = Vec::new();
        while visited.len() < n
            invariant
                visited@.len() <= n,
                forall|i: int| 0 <= i < visited@.len() ==> !visited@[i],
            decreases n - visited@.len(),
        {
            visited.push(false);
        }
        proof {
            lemma_count_true_sub(visited@, alive@);
            assert(count_true(visited@) == 0) by {
                lemma_count_true_zero(visited@);
            }
            lemma_count_true_set(visited@, start as int);
            lemma_reaches_self(adj, alive@, start);
        }
        visited.set(start, true);
        let mut stack: Vec<usize> = Vec::new();
        stack.push(start);
        let mut count: usize = 1;
        assert(stack@[0] == start);
        loop
            invariant
                n == alive@.len(),
                visited@.len() == n,
                reached_lists_in_range(adj, alive@, start),
                adj == adjacency(self.edges@),
                is_first_alive(alive@, start as int),
                visited@[start as int],
                count == count_true(visited@),
                count <= n,
                forall|k: int| 0 <= k < stack@.len() ==> #[trigger] stack@[k] < n && visited@[stack@[k] as int],
                forall|i: int| 0 <= i < n && #[trigger] visited@[i] ==> alive@[i] && reaches(adj, alive@, start, i as usize),
                forall|i: usize|
                    i < n && visited@[i as int] && !stack@.contains(i) ==> closed_at(adj, alive@, visited@, i),
            ensures
                stack@.len() == 0,
                n == alive@.len(),
                visited@.len() == n,
                count == count_true(visited@),
                forall|i: int| 0 <= i < n && #[trigger] visited@[i] ==> alive@[i] && reaches(adj, alive@, start, i as usize),
                forall|i: usize|
                    i < n && visited@[i as int] && !stack@.contains(i) ==> closed_at(adj, alive@, visited@, i),
            decreases 2 * (n - count) + stack@.len(),
        {
            proof {
                lemma_count_true_bound(visited@);
            }
            let ghost measure = 2 * (n - count) + stack@.len();
            let ghost whole = stack@;
            let node = match stack.pop() {
                Some(x) => x,
                None => break,
            };
            let ghost rest = stack@;
            proof {
                assert(whole == rest.push(node));
                assert forall|i: usize|
                    i < n && visited@[i as int] && !stack@.contains(i) && i != node implies closed_at(
                        adj,
                        alive@,
                        visited@,
                        i,
                    ) by {
                    if whole.contains(i) {
                        let k = choose|k: int| 0 <= k < whole.len() && whole[k] == i;
                        if k < rest.len() {
                            assert(rest[k] == i);
                        }
                    }
                }
            }
            match self.edges.get(&node) {
                Some(list) => {
                    let mut j: usize = 0;
                    while j < list.len()
                        invariant
                            n == alive@.len(),
                            visited@.len() == n,
                            reached_lists_in_range(adj, alive@, start),
                            list_in_range(adj, node, n as nat),
                            adj == adjacency(self.edges@),
                            is_first_alive(alive@, start as int),
                            visited@[start as int],
                            node < n,
                            visited@[node as int],
                            reaches(adj, alive@, start, node),
                            adj.contains_key(node),
                            list@ == adj[node],
                            j <= list@.len(),
                            count == count_true(visited@),
                            count <= n,
                            2 * (n - count) + stack@.len() < measure,
                            stack@.len() >= rest.len(),
                            forall|k: int| 0 <= k < rest.len() ==> stack@[k] == rest[k],
                            forall|k: int| 0 <= k < stack@.len() ==> #[trigger] stack@[k] < n && visited@[stack@[k] as int],
                            forall|i: int| 0 <= i < n && #[trigger] visited@[i] ==> alive@[i] && reaches(adj, alive@, start, i as usize),
                            forall|i: usize|
                                i < n && visited@[i as int] && !stack@.contains(i) && i != node ==> closed_at(adj, alive@, visited@, i),
                            forall|jj: int| 0 <= jj < j && alive@[list@[jj] as int] ==> #[trigger] visited@[list@[jj] as int],
                        decreases list@.len() - j,
                    {
                        let nbr = list[j];
                        assert(nbr < n);
                        if !visited[nbr] && alive[nbr] {
                            proof {
                                lemma_count_true_set(visited@, nbr as int);
                                lemma_count_true_bound(visited@);
                                assert(nbrs(adj, node).contains(nbr));
                                lemma_reaches_step(adj, alive@, start, node, nbr);
                            }
                            let ghost st0 = stack@;
                            let ghost vis0 = visited@;
                            visited.set(nbr, true);
                            stack.push(nbr);
                            count = count + 1;
                            proof {
                                assert(stack@[stack@.len() - 1] == nbr);
                                assert(stack@.contains(nbr));
                                assert forall|i: usize|
                                    i < n && visited@[i as int] && !stack@.contains(i) && i != node implies closed_at(
                                        adj,
                                        alive@,
                                        visited@,
                                        i,
                                    ) by {
                                    if st0.contains(i) {
                                        let k = choose|k: int| 0 <= k < st0.len() && st0[k] == i;
                                        assert(stack@[k] == i);
                                    }
                                    lemma_closed_mono(adj, alive@, vis0, visited@, i);
                                }
                                assert(stack@[stack@.len() - 1] == nbr);
                            }
                        }
                        j = j + 1;
                    }
                },
                None => {},
            }
        }
        proof {
            assert forall|i: usize| i < n && visited@[i as int] implies closed_at(adj, alive@, visited@, i) by {
                assert(!stack@.contains(i));
            }
        }
        let alive_count = count_alive(alive);
        proof {
            lemma_count_true_sub(visited@, alive@);
            assert forall|t: usize| t < alive@.len() && alive@[t as int] && #[trigger] reaches(adj, alive@, start, t) implies visited@[t as int] by {
                let p = choose|p: Seq<usize>| #[trigger] is_walk(adj, alive@, p) && p[0] == start && p.last() == t;
                lemma_walk_marked(adj, alive@, visited@, p);
            }
            assert((forall|i: int| 0 <= i < n && alive@[i] ==> visited@[i]) <==> reaches_all_alive(adj, alive@, start)) by {
                if forall|i: int| 0 <= i < n && alive@[i] ==> visited@[i] {
                    assert forall|t: usize| t < alive@.len() && alive@[t as int] implies #[trigger] reaches(adj, alive@, start, t) by {
                        assert(visited@[t as int]);
                    }
                }
                if reaches_all_alive(adj, alive@, start) {
                    assert forall|i: int| 0 <= i < n && alive@[i] implies visited@[i] by {
                        assert(reaches(adj, alive@, start, i as usize));
                    }
                }
            }
            assert forall|s: int| is_first_alive(alive@, s) implies s == start by {
                if s < start {
                    assert(!alive@[s]);
                } else if s > start {
                    assert(!alive@[start as int]);
                }
            }
        }
        count == alive_count
    }

    /// An alive node with the longest neighbor list among the alive nodes
    /// that have a list, found by walking the map in its own order and keeping
    /// the first strictly longer list; zero when no alive node has a neighbor.
    pub fn most_connected(&self, alive: &[bool]) -> (r: usize)
        requires
            keys_below(adjacency(self.edges@), alive@.len()),
        ensures
            has_alive_neighbor(adjacency(self.edges@), alive@) ==> is_alive_hub(
                adjacency(self.edges@),
                alive@,
                r,
            ),
            !has_alive_neighbor(adjacency(self.edges@), alive@) ==> r == 0,
    {
        let ghost adj = adjacency(self.edges@);
        let mut best: usize = 0;
        let mut best_count: usize = 0;
        let ghost all = vstd::std_specs::iter::IteratorSpec::remaining(
            &vstd::std_specs::hash::spec_hash_map_iter(&self.edges),
        );
        let ghost mut seen: int = 0;
        for item in it: self.edges.iter()
            invariant
                adj == adjacency(self.edges@),
                it.seq() == all,
                seen == it.index(),
                forall|i: int|
                    0 <= i < seen ==> ({
                        let k = *#[trigger] all[i].0;
                        alive@[k as int] ==> adj[k].len() <= best_count
                    }),
                keys_below(adj, alive@.len()),
                best_count == 0 ==> best == 0,
                best_count > 0 ==> adj.contains_key(best) && alive@[best as int] && adj[best].len() == best_count,
        {
            let (id, neighbors) = item;
            proof {
                assert(self.edges@.contains_key(*id));
                assert(adj.contains_key(*id));
                assert(adj[*id] == neighbors@);
            }
            if alive[*id] && neighbors.len() > best_count {
                best_count = neighbors.len();
                best = *id;
            }
            proof {
                seen = seen + 1;
            }
        }
        proof {
            assert(seen == all.len());
            assert forall|k: usize| #[trigger] adj.contains_key(k) && alive@[k as int] implies adj[k].len() <= best_count by {
                assert(self.edges@.contains_key(k));
                assert(all.contains((&k, &self.edges@[k])));
                let i = choose|i: int| 0 <= i < all.len() && all[i] == (&k, &self.edges@[k]);
                assert(*all[i].0 == k);
            }
        }
        best
    }

    /// Cuts every edge of `hub`, one neighbor after another in the order of
    /// its list.
    pub fn isolate(&mut self, hub: usize)
        ensures
            final(self).node_count == old(self).node_count,
            adjacency(final(self).edges@) == detach(
                adjacency(old(self).edges@),
                hub,
                nbrs(adjacency(old(self).edges@), hub),
            ),
    {
        let list = self.neighbors(hub);
        let ghost start = adjacency(self.edges@);
        let mut j: usize = 0;
        proof {
            assert(list@.skip(0) =~= list@);
        }
        while j < list.len()
            invariant
                j <= list@.len(),
                list@ == nbrs(start, hub),
                self.node_count == old(self).node_count,
                detach(adjacency(self.edges@), hub, list@.skip(j as int)) == detach(start, hub, list@),
            decreases list@.len() - j,
        {
            proof {
                assert(list@.skip(j as int).drop_first() =~= list@.skip(j + 1));
            }
            Self::remove_edge(&mut self.edges, hub, list[j]);
            j = j + 1;
        }
        proof {
            assert(list@.skip(list@.len() as int) =~= Seq::<usize>::empty());
        }
    }

    /// Whether every node with a list is below `n`.
    pub fn keys_within(&self, n: usize) -> (r: bool)
        ensures
            r == keys_below(adjacency(self.edges@), n as nat),
    {
        let ghost adj = adjacency(self.edges@);
        let ghost all = vstd::std_specs::iter::IteratorSpec::remaining(
            &vstd::std_specs::hash::spec_hash_map_iter(&self.edges),
        );
        let ghost mut seen: int = 0;
        for item in it: self.edges.iter()
            invariant
                adj == adjacency(self.edges@),
                it.seq() == all,
                seen == it.index(),
                forall|i: int| 0 <= i < seen ==> *#[trigger] all[i].0 < n,
        {
            let (id, _list) = item;
            proof {
                assert(self.edges@.contains_key(*id));
                assert(adj.contains_key(*id));
            }
            if *id >= n {
                return false;
            }
            proof {
                seen = seen + 1;
            }
        }
        proof {
            assert(seen == all.len());
            assert forall|k: usize| #[trigger] adj.contains_key(k) implies k < n by {
                assert(self.edges@.contains_key(k));
                assert(all.contains((&k, &self.edges@[k])));
                let i = choose|i: int| 0 <= i < all.len() && all[i] == (&k, &self.edges@[k]);
                assert(*all[i].0 == k);
            }
        }
        true
    }

    /// Whether every node with a list, and every listed neighbor of a node
    /// below `n`, is below `n`.
    pub fn fits_within(&self, n: usize) -> (r: bool)
        ensures
            r == (keys_below(adjacency(self.edges@), n as nat) && lists_in_range(adjacency(self.edges@), n as nat)),
    {
        let ghost adj = adjacency(self.edges@);
        let ghost all = vstd::std_specs::iter::IteratorSpec::remaining(
            &vstd::std_specs::hash::spec_hash_map_iter(&self.edges),
        );
        let ghost mut seen: int = 0;
        for item in it: self.edges.iter()
            invariant
                adj == adjacency(self.edges@),
                it.seq() == all,
                seen == it.index(),
                forall|i: int|
                    0 <= i < seen ==> ({
                        let k = *#[trigger] all[i].0;
                        k < n && forall|j: int| 0 <= j < adj[k].len() ==> adj[k][j] < n
                    }),
        {
            let (id, list) = item;
            proof {
                assert(self.edges@.contains_key(*id));
                assert(adj.contains_key(*id));
                assert(adj[*id] == list@);
            }
            if *id >= n {
                proof {
                    assert(!keys_below(adj, n as nat));
                }
                return false;
            }
            let mut j: usize = 0;
            while j < list.len()
                invariant
                    j <= list@.len(),
                    adj == adjacency(self.edges@),
                    adj.contains_key(*id),
                    *id < n,
                    adj[*id] == list@,
                    forall|jj: int| 0 <= jj < j ==> list@[jj] < n,
                decreases list@.len() - j,
            {
                if list[j] >= n {
                    proof {
                        assert(adj[*id][j as int] >= n);
                        assert(!lists_in_range(adj, n as nat));
                    }
                    return false;
                }
                j = j + 1;
            }
            proof {
                seen = seen + 1;
            }
        }
        proof {
            assert(seen == all.len());
            assert forall|k: usize| #[trigger] adj.contains_key(k) implies k < n && forall|j: int| 0 <= j < adj[k].len() ==> adj[k][j] < n by {
                assert(self.edges@.contains_key(k));
                assert(all.contains((&k, &self.edges@[k])));
                let i = choose|i: int| 0 <= i < all.len() && all[i] == (&k, &self.edges@[k]);
                assert(*all[i].0 == k);
            }
        }
        true
    }

    /// The neighbor list of `id` (empty when it has none).
    pub fn neighbors(&self, id: usize) -> (r: Vec<usize>)
        ensures
            r@ == nbrs(adjacency(self.edges@), id),
    {
        match self.edges.get(&id) {
            Some(v) => v.clone(),
            None => Vec::new(),
        }
    }
}

} // verus!
