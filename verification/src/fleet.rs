//! The discrete side of a fleet simulation: scenario schedules, the graph
//! changes they cause, which venues agents visit, and the per-tick census.
use std::collections::HashMap;
use vstd::prelude::*;
use crate::graph::{adjacency, connect, has_alive_neighbor, is_alive_hub, keys_below, nbrs, CellGraph};
use crate::reach::{count_true, lemma_count_true_bound};
use crate::topology::{detach, is_graph, lemma_connect_lists, lemma_edits_keep_graph};
use crate::venue::VenueState;
use crate::rng::{state_after, xorshift, Rng};

verus! {

/// How many kinds of event a visit can bring.
pub const EVENT_KINDS: usize = 8;

/// How many visits a tick can bring at most.
pub const MAX_VISITS: usize = 5;

/// The course a simulation run takes.
#[derive(Clone, Copy, Debug, PartialEq, Eq, Structural)]
pub enum Scenario {
    NormalOperation,
    SuddenChange,
    AdversarialInjection,
    NewVenueJoining,
    VenueDeath,
}

/// The display name of a scenario.
pub open spec fn scenario_label(s: Scenario) -> Seq<char> {
    match s {
        Scenario::NormalOperation => "Normal Operation"@,
        Scenario::SuddenChange => "Sudden Change"@,
        Scenario::AdversarialInjection => "Adversarial Injection"@,
        Scenario::NewVenueJoining => "New Venue Joining"@,
        Scenario::VenueDeath => "Venue Death"@,
    }
}

impl Scenario {
    /// The display name.
    pub fn name(&self) -> (s: &'static str)
        ensures
            s@ == scenario_label(*self),
    {
        match self {
            Scenario::NormalOperation => "Normal Operation",
            Scenario::SuddenChange => "Sudden Change",
            Scenario::AdversarialInjection => "Adversarial Injection",
            Scenario::NewVenueJoining => "New Venue Joining",
            Scenario::VenueDeath => "Venue Death",
        }
    }
}

/// What a scenario does to the fleet at the start of a tick, before the visits.
#[derive(Clone, Copy, Debug, PartialEq, Eq, Structural)]
pub enum Disruption {
    /// Nothing.
    Quiet,
    /// Every alive venue's vibe flips sign.
    InvertVibes,
    /// The contrarian venue pushes against the fleet; `first` marks the tick
    /// at which it turns contrarian.
    ContrarianPush { first: bool },
    /// The newcomer is held back (not alive) until it joins.
    HoldBackNewcomer,
    /// The newcomer joins, with an opposite vibe and a few random links.
    AdmitNewcomer,
    /// The best-connected alive venue dies and loses all its edges.
    RemoveHub,
}

/// The tick of the cultural shift.
pub const SHIFT_TICK: usize = 50;
/// The tick from which the contrarian acts.
pub const CONTRARIAN_TICK: usize = 300;
/// The tick at which the newcomer joins.
pub const JOIN_TICK: usize = 200;
/// The tick at which the hub dies.
pub const DEATH_TICK: usize = 500;

/// The schedule of each scenario.
pub open spec fn disruption_at(scenario: Scenario, tick: int) -> Disruption {
    match scenario {
        Scenario::NormalOperation => Disruption::Quiet,
        Scenario::SuddenChange => if tick == SHIFT_TICK {
            Disruption::InvertVibes
        } else {
            Disruption::Quiet
        },
        Scenario::AdversarialInjection => if tick >= CONTRARIAN_TICK {
            Disruption::ContrarianPush { first: tick == CONTRARIAN_TICK }
        } else {
            Disruption::Quiet
        },
        Scenario::NewVenueJoining => if tick == 0 {
            Disruption::HoldBackNewcomer
        } else if tick == JOIN_TICK {
            Disruption::AdmitNewcomer
        } else {
            Disruption::Quiet
        },
        Scenario::VenueDeath => if tick == DEATH_TICK {
            Disruption::RemoveHub
        } else {
            Disruption::Quiet
        },
    }
}

/// The one-off disruptions happen once in a run: the shift, the contrarian's
/// turn, the newcomer's hold-back and its joining, and the hub's death each
/// come at a single tick, the same for every run of the scenario.
pub proof fn lemma_one_off_disruptions(scenario: Scenario, t1: int, t2: int)
    requires
        t1 >= 0,
        t2 >= 0,
        disruption_at(scenario, t1) == disruption_at(scenario, t2),
        disruption_at(scenario, t1) != Disruption::Quiet,
        disruption_at(scenario, t1) != (Disruption::ContrarianPush { first: false }),
    ensures
        t1 == t2,
{
}

/// When each one-off disruption comes: the shift at `SHIFT_TICK`, the
/// contrarian's turn at `CONTRARIAN_TICK` (and its pushing on every tick from
/// then on), the newcomer held back at the first tick and joining at
/// `JOIN_TICK`, the hub's death at `DEATH_TICK`; the normal run has none.
pub proof fn lemma_disruption_ticks(scenario: Scenario, t: int)
    requires
        t >= 0,
    ensures
        scenario == Scenario::NormalOperation ==> disruption_at(scenario, t) == Disruption::Quiet,
        disruption_at(scenario, t) == Disruption::InvertVibes <==> scenario == Scenario::SuddenChange
            && t == SHIFT_TICK,
        disruption_at(scenario, t) == (Disruption::ContrarianPush { first: true }) <==> scenario
            == Scenario::AdversarialInjection && t == CONTRARIAN_TICK,
        disruption_at(scenario, t) is ContrarianPush <==> scenario == Scenario::AdversarialInjection
            && t >= CONTRARIAN_TICK,
        disruption_at(scenario, t) == Disruption::HoldBackNewcomer <==> scenario
            == Scenario::NewVenueJoining && t == 0,
        disruption_at(scenario, t) == Disruption::AdmitNewcomer <==> scenario
            == Scenario::NewVenueJoining && t == JOIN_TICK,
        disruption_at(scenario, t) == Disruption::RemoveHub <==> scenario == Scenario::VenueDeath
            && t == DEATH_TICK,
{
}

/// What `scenario` does at `tick`.
pub fn disruption(scenario: Scenario, tick: usize) -> (d: Disruption)
    ensures
        d == disruption_at(scenario, tick as int),
        d == Disruption::AdmitNewcomer <==> scenario == Scenario::NewVenueJoining && tick == JOIN_TICK,
        d == Disruption::RemoveHub <==> scenario == Scenario::VenueDeath && tick == DEATH_TICK,
        d == Disruption::InvertVibes <==> scenario == Scenario::SuddenChange && tick == SHIFT_TICK,
        d == Disruption::HoldBackNewcomer <==> scenario == Scenario::NewVenueJoining && tick == 0,
        d == (Disruption::ContrarianPush { first: true }) <==> scenario == Scenario::AdversarialInjection
            && tick == CONTRARIAN_TICK,
{
    proof {
        lemma_disruption_ticks(scenario, tick as int);
    }
    match scenario {
        Scenario::NormalOperation => Disruption::Quiet,
        Scenario::SuddenChange => {
            if tick == SHIFT_TICK {
                Disruption::InvertVibes
            } else {
                Disruption::Quiet
            }
        },
        Scenario::AdversarialInjection => {
            if tick >= CONTRARIAN_TICK {
                Disruption::ContrarianPush { first: tick == CONTRARIAN_TICK }
            } else {
                Disruption::Quiet
            }
        },
        Scenario::NewVenueJoining => {
            if tick == 0 {
                Disruption::HoldBackNewcomer
            } else if tick == JOIN_TICK {
                Disruption::AdmitNewcomer
            } else {
                Disruption::Quiet
            }
        },
        Scenario::VenueDeath => {
            if tick == DEATH_TICK {
                Disruption::RemoveHub
            } else {
                Disruption::Quiet
            }
        },
    }
}

/// The venue that turns contrarian.
pub const CONTRARIAN_ID: usize = 0;
/// The venue that joins late; the venues below it are the ones it can link to.
pub const NEWCOMER_ID: usize = 19;
/// How many links the newcomer makes when it joins.
pub const NEWCOMER_LINKS: usize = 4;

/// `v` with its liveness set to `a`.
pub open spec fn with_alive(v: VenueState, a: bool) -> VenueState {
    VenueState { alive: a, ..v }
}

/// `v` turned contrarian.
pub open spec fn turned_contrarian(v: VenueState) -> VenueState {
    VenueState { contrarian: true, ..v }
}

/// The liveness of each venue.
pub open spec fn alive_of(venues: Seq<VenueState>) -> Seq<bool> {
    venues.map_values(|v: VenueState| v.alive)
}

/// The liveness of each venue, in order.
pub fn alive_flags(venues: &[VenueState]) -> (a: Vec<bool>)
    ensures
        a@ == alive_of(venues@),
{
    let mut a: Vec<bool> = Vec::new();
    let mut i: usize = 0;
    while i < venues.len()
        invariant
            i <= venues@.len(),
            a@ == alive_of(venues@.take(i as int)),
        decreases venues@.len() - i,
    {
        a.push(venues[i].alive);
        i = i + 1;
        proof {
            assert(a@ =~= alive_of(venues@.take(i as int)));
        }
    }
    proof {
        assert(venues@.take(venues@.len() as int) =~= venues@);
    }
    a
}

/// Sets the liveness of venue `i`.
fn set_alive(venues: &mut Vec<VenueState>, i: usize, a: bool)
    requires
        i < old(venues)@.len(),
    ensures
        final(venues)@ == old(venues)@.update(i as int, with_alive(old(venues)@[i as int], a)),
{
    let mut v = venues.remove(i);
    v.alive = a;
    venues.insert(i, v);
    proof {
        assert(venues@ =~= old(venues)@.update(i as int, with_alive(old(venues)@[i as int], a)));
    }
}

/// Makes venue `i` contrarian.
fn set_contrarian(venues: &mut Vec<VenueState>, i: usize)
    requires
        i < old(venues)@.len(),
    ensures
        final(venues)@ == old(venues)@.update(i as int, turned_contrarian(old(venues)@[i as int])),
{
    let mut v = venues.remove(i);
    v.contrarian = true;
    venues.insert(i, v);
    proof {
        assert(venues@ =~= old(venues)@.update(i as int, turned_contrarian(old(venues)@[i as int])));
    }
}

/// Carries out the discrete side of a disruption: the contrarian's turn, the
/// newcomer held back or joining with its links, or the hub's death with all
/// its edges cut. Returns the hub for `RemoveHub`, nothing otherwise. Vibes
/// are left to the caller.
pub fn apply_disruption(
    d: Disruption,
    venues: &mut Vec<VenueState>,
    graph: &mut CellGraph,
    rng: &mut Rng,
) -> (hub: Option<usize>)
    requires
        d is ContrarianPush ==> CONTRARIAN_ID < old(venues)@.len(),
        d is HoldBackNewcomer || d is AdmitNewcomer ==> NEWCOMER_ID < old(venues)@.len(),
        d is RemoveHub ==> 0 < old(venues)@.len() && keys_below(
            adjacency(old(graph).edges@),
            old(venues)@.len(),
        ),
    ensures
        final(graph).node_count == old(graph).node_count,
        d is RemoveHub <==> hub is Some,
        match d {
            Disruption::Quiet | Disruption::InvertVibes => {
                &&& final(venues)@ == old(venues)@
                &&& final(graph).edges@ == old(graph).edges@
                &&& final(rng)@ == old(rng)@
            },
            Disruption::ContrarianPush { first } => {
                &&& final(venues)@ == if first {
                    old(venues)@.update(
                        CONTRARIAN_ID as int,
                        turned_contrarian(old(venues)@[CONTRARIAN_ID as int]),
                    )
                } else {
                    old(venues)@
                }
                &&& final(graph).edges@ == old(graph).edges@
                &&& final(rng)@ == old(rng)@
            },
            Disruption::HoldBackNewcomer => {
                &&& final(venues)@ == old(venues)@.update(
                    NEWCOMER_ID as int,
                    with_alive(old(venues)@[NEWCOMER_ID as int], false),
                )
                &&& final(graph).edges@ == old(graph).edges@
                &&& final(rng)@ == old(rng)@
            },
            Disruption::AdmitNewcomer => {
                &&& final(venues)@ == old(venues)@.update(
                    NEWCOMER_ID as int,
                    with_alive(old(venues)@[NEWCOMER_ID as int], true),
                )
                &&& (adjacency(final(graph).edges@), final(rng)@) == attach(
                    adjacency(old(graph).edges@),
                    old(rng)@,
                    NEWCOMER_ID,
                    NEWCOMER_ID,
                    NEWCOMER_LINKS as nat,
                )
            },
            Disruption::RemoveHub => {
                let adj = adjacency(old(graph).edges@);
                let alive = alive_of(old(venues)@);
                let h = hub->0;
                &&& has_alive_neighbor(adj, alive) ==> is_alive_hub(adj, alive, h)
                &&& !has_alive_neighbor(adj, alive) ==> h == 0
                &&& h < old(venues)@.len()
                &&& final(venues)@ == old(venues)@.update(h as int, with_alive(old(venues)@[h as int], false))
                &&& adjacency(final(graph).edges@) == detach(adj, h, nbrs(adj, h))
                &&& final(rng)@ == old(rng)@
            },
        },
{
    match d {
        Disruption::Quiet | Disruption::InvertVibes => None,
        Disruption::ContrarianPush { first } => {
            if first {
                set_contrarian(venues, CONTRARIAN_ID);
            }
            None
        },
        Disruption::HoldBackNewcomer => {
            set_alive(venues, NEWCOMER_ID, false);
            None
        },
        Disruption::AdmitNewcomer => {
            set_alive(venues, NEWCOMER_ID, true);
            link_newcomer(&mut graph.edges, rng, NEWCOMER_ID, NEWCOMER_ID, NEWCOMER_LINKS);
            None
        },
        Disruption::RemoveHub => {
            let alive = alive_flags(venues.as_slice());
            let hub = graph.most_connected(&alive);
            proof {
                if !has_alive_neighbor(adjacency(graph.edges@), alive@) {
                    assert(hub == 0);
                }
            }
            set_alive(venues, hub, false);
            graph.isolate(hub);
            Some(hub)
        },
    }
}

/// `k` links from `id`, each to a node drawn below `pool`, starting from
/// generator state `s`; the adjacency and the generator state afterwards.
pub open spec fn attach(adj: Map<usize, Seq<usize>>, s: u64, id: usize, pool: usize, k: nat) -> (
    Map<usize, Seq<usize>>,
    u64,
)
    decreases k,
{
    if k == 0 {
        (adj, s)
    } else {
        let prev = attach(adj, s, id, pool, (k - 1) as nat);
        let s1 = xorshift(prev.1);
        (connect(prev.0, id, ((s1 as usize) % pool) as usize), s1)
    }
}

/// Links node `id` to `links` nodes drawn uniformly below `pool`, one draw
/// each; a draw of `id` itself adds nothing.
pub fn link_newcomer(
    edges: &mut HashMap<usize, Vec<usize>>,
    rng: &mut Rng,
    id: usize,
    pool: usize,
    links: usize,
)
    requires
        pool > 0,
    ensures
        (adjacency(final(edges)@), final(rng)@) == attach(
            adjacency(old(edges)@),
            old(rng)@,
            id,
            pool,
            links as nat,
        ),
        final(rng)@ == state_after(old(rng)@, links as nat),
        nbrs(adjacency(final(edges)@), id).len() <= nbrs(adjacency(old(edges)@), id).len() + links,
{
    proof {
        lemma_attach_draws(adjacency(old(edges)@), old(rng)@, id, pool, links as nat);
    }
    let mut k: usize = 0;
    while k < links
        invariant
            pool > 0,
            k <= links,
            (adjacency(edges@), rng@) == attach(adjacency(old(edges)@), old(rng)@, id, pool, k as nat),
        decreases links - k,
    {
        let nbr = rng.next_usize(pool);
        CellGraph::add_edge(edges, id, nbr);
        k = k + 1;
    }
}

/// Linking a node takes exactly one draw per link, and gives the node at most
/// that many new neighbors, each drawn below `pool`; the other lists gain only
/// the node itself.
pub proof fn lemma_attach_draws(adj: Map<usize, Seq<usize>>, s: u64, id: usize, pool: usize, k: nat)
    requires
        pool > 0,
    ensures
        attach(adj, s, id, pool, k).1 == state_after(s, k),
        nbrs(attach(adj, s, id, pool, k).0, id).len() <= nbrs(adj, id).len() + k,
        forall|x: usize| #[trigger] nbrs(attach(adj, s, id, pool, k).0, id).contains(x) ==> nbrs(
            adj,
            id,
        ).contains(x) || x < pool,
        forall|v: usize, x: usize|
            v != id && #[trigger] nbrs(attach(adj, s, id, pool, k).0, v).contains(x) ==> nbrs(
                adj,
                v,
            ).contains(x) || x == id,
    decreases k,
{
    if k > 0 {
        lemma_attach_draws(adj, s, id, pool, (k - 1) as nat);
        let prev = attach(adj, s, id, pool, (k - 1) as nat);
        let s1 = xorshift(prev.1);
        let b = ((s1 as usize) % pool) as usize;
        let m = attach(adj, s, id, pool, k).0;
        if id != b {
            lemma_connect_lists(prev.0, id, b);
            assert forall|x: usize| #[trigger] nbrs(m, id).contains(x) implies nbrs(adj, id).contains(x)
                || x < pool by {
                if !nbrs(prev.0, id).contains(b) && x == b {
                } else if !nbrs(prev.0, id).contains(b) {
                    let j = choose|j: int| 0 <= j < nbrs(m, id).len() && nbrs(m, id)[j] == x;
                    assert(nbrs(prev.0, id)[j] == x);
                    assert(nbrs(prev.0, id).contains(x));
                } else {
                    assert(nbrs(prev.0, id).contains(x));
                }
            }
            assert forall|v: usize, x: usize|
                v != id && #[trigger] nbrs(m, v).contains(x) implies nbrs(adj, v).contains(x) || x == id by {
                if v == b && !nbrs(prev.0, b).contains(id) && x != id {
                    let j = choose|j: int| 0 <= j < nbrs(m, v).len() && nbrs(m, v)[j] == x;
                    assert(nbrs(prev.0, v)[j] == x);
                    assert(nbrs(prev.0, v).contains(x));
                } else if x != id {
                    assert(nbrs(prev.0, v).contains(x));
                }
            }
        }
    }
}

/// Linking a node of a graph to nodes below the graph's size keeps a graph.
pub proof fn lemma_attach_graph(adj: Map<usize, Seq<usize>>, s: u64, n: nat, id: usize, pool: usize, k: nat)
    requires
        is_graph(adj, n),
        id < n,
        0 < pool <= n,
    ensures
        is_graph(attach(adj, s, id, pool, k).0, n),
    decreases k,
{
    if k > 0 {
        lemma_attach_graph(adj, s, n, id, pool, (k - 1) as nat);
        let prev = attach(adj, s, id, pool, (k - 1) as nat);
        let s1 = xorshift(prev.1);
        lemma_edits_keep_graph(prev.0, n, id, ((s1 as usize) % pool) as usize);
    }
}

/// The alive positions, in increasing order.
pub open spec fn alive_indices(alive: Seq<bool>) -> Seq<usize>
    decreases alive.len(),
{
    if alive.len() == 0 {
        Seq::empty()
    } else {
        let rest = alive_indices(alive.drop_last());
        if alive.last() {
            rest.push((alive.len() - 1) as usize)
        } else {
            rest
        }
    }
}

/// One agent visit: the venue visited, the kind of event, and the raw draw
/// from which the event's vibe is made.
#[derive(Clone, Copy, Debug, PartialEq, Eq, Structural)]
pub struct Visit {
    pub venue: usize,
    pub kind: usize,
    pub vibe_draw: u64,
}

/// `k` visits among the venues `ids` from generator state `s`: three draws
/// each, for the venue, the kind and the vibe; no visit and no draw when no
/// venue is alive.
pub open spec fn visits(ids: Seq<usize>, s: u64, k: nat) -> (Seq<Visit>, u64)
    decreases k,
{
    if k == 0 || ids.len() == 0 {
        (Seq::empty(), s)
    } else {
        let prev = visits(ids, s, (k - 1) as nat);
        let s1 = xorshift(prev.1);
        let s2 = xorshift(s1);
        let s3 = xorshift(s2);
        let v = Visit {
            venue: ids[((s1 as usize) % (ids.len() as usize)) as int],
            kind: ((s2 as usize) % EVENT_KINDS) as usize,
            vibe_draw: s3,
        };
        (prev.0.push(v), s3)
    }
}

/// A tick's visits from generator state `s`: one draw for how many (one to
/// `MAX_VISITS`), then the visits among the alive venues.
pub open spec fn tick_visits(alive: Seq<bool>, s: u64) -> (Seq<Visit>, u64) {
    let s1 = xorshift(s);
    visits(alive_indices(alive), s1, (1 + (s1 as usize) % MAX_VISITS) as nat)
}

proof fn lemma_alive_indices(alive: Seq<bool>)
    requires
        alive.len() <= usize::MAX,
    ensures
        alive_indices(alive).len() <= alive.len(),
        forall|j: int|
            0 <= j < alive_indices(alive).len() ==> #[trigger] alive_indices(alive)[j] < alive.len()
                && alive[alive_indices(alive)[j] as int],
        alive_indices(alive).len() > 0 <==> exists|i: int| 0 <= i < alive.len() && alive[i],
    decreases alive.len(),
{
    if alive.len() > 0 {
        let rest = alive.drop_last();
        lemma_alive_indices(rest);
        assert forall|j: int|
            0 <= j < alive_indices(alive).len() implies #[trigger] alive_indices(alive)[j] < alive.len()
                && alive[alive_indices(alive)[j] as int] by {
            if j < alive_indices(rest).len() {
                assert(alive_indices(rest)[j] < rest.len());
                assert(rest[alive_indices(rest)[j] as int]);
            }
        }
        if exists|i: int| 0 <= i < alive.len() && alive[i] {
            let i = choose|i: int| 0 <= i < alive.len() && alive[i];
            if i < rest.len() {
                assert(rest[i]);
            }
        }
        if alive_indices(alive).len() > 0 && !alive.last() {
            let i = choose|i: int| 0 <= i < rest.len() && rest[i];
            assert(alive[i]);
        }
    }
}

proof fn lemma_visits(ids: Seq<usize>, s: u64, k: nat)
    requires
        ids.len() <= usize::MAX,
    ensures
        visits(ids, s, k).1 == state_after(s, 3 * visits(ids, s, k).0.len()),
        visits(ids, s, k).0.len() == if ids.len() == 0 { 0 } else { k },
        forall|j: int|
            0 <= j < visits(ids, s, k).0.len() ==> ids.contains(#[trigger] visits(ids, s, k).0[j].venue),
    decreases k,
{
    if k > 0 && ids.len() > 0 {
        lemma_visits(ids, s, (k - 1) as nat);
        let prev = visits(ids, s, (k - 1) as nat);
        let m = 3 * prev.0.len();
        assert(state_after(s, m + 1) == xorshift(state_after(s, m)));
        assert(state_after(s, m + 2) == xorshift(state_after(s, m + 1)));
        assert(state_after(s, m + 3) == xorshift(state_after(s, m + 2)));
        let s1 = xorshift(prev.1);
        let idx = ((s1 as usize) % (ids.len() as usize)) as int;
        assert(0 <= idx < ids.len());
        assert(ids.contains(ids[idx]));
        assert forall|j: int|
            0 <= j < visits(ids, s, k).0.len() implies ids.contains(#[trigger] visits(ids, s, k).0[j].venue) by {
            if j < prev.0.len() {
                assert(visits(ids, s, k).0[j] == prev.0[j]);
            }
        }
    }
}

proof fn lemma_state_after_shift(s: u64, m: nat)
    ensures
        state_after(xorshift(s), m) == state_after(s, m + 1),
    decreases m,
{
    assert(state_after(s, m + 1) == xorshift(state_after(s, m)));
    if m > 0 {
        lemma_state_after_shift(s, (m - 1) as nat);
        assert(state_after(xorshift(s), m) == xorshift(state_after(xorshift(s), (m - 1) as nat)));
    } else {
        assert(state_after(s, 1) == xorshift(state_after(s, 0)));
    }
}

proof fn lemma_visit_kinds(ids: Seq<usize>, s: u64, k: nat)
    ensures
        forall|j: int| 0 <= j < visits(ids, s, k).0.len() ==> #[trigger] visits(ids, s, k).0[j].kind < EVENT_KINDS,
    decreases k,
{
    if k > 0 && ids.len() > 0 {
        lemma_visit_kinds(ids, s, (k - 1) as nat);
        let prev = visits(ids, s, (k - 1) as nat);
        assert forall|j: int| 0 <= j < visits(ids, s, k).0.len() implies #[trigger] visits(ids, s, k).0[j].kind
            < EVENT_KINDS by {
            if j < prev.0.len() {
                assert(visits(ids, s, k).0[j] == prev.0[j]);
            }
        }
    }
}

/// The alive positions are exactly the alive indices, in strictly increasing order.
pub proof fn lemma_alive_indices_exact(alive: Seq<bool>)
    requires
        alive.len() <= usize::MAX,
    ensures
        forall|i: int| 0 <= i < alive.len() && alive[i] ==> #[trigger] alive_indices(alive).contains(i as usize),
        forall|j: int| 0 <= j < alive_indices(alive).len() ==> #[trigger] alive[alive_indices(alive)[j] as int]
            && alive_indices(alive)[j] < alive.len(),
        forall|j1: int, j2: int|
            0 <= j1 < j2 < alive_indices(alive).len() ==> #[trigger] alive_indices(alive)[j1]
                < #[trigger] alive_indices(alive)[j2],
    decreases alive.len(),
{
    lemma_alive_indices(alive);
    if alive.len() > 0 {
        let rest = alive.drop_last();
        lemma_alive_indices_exact(rest);
        lemma_alive_indices(rest);
        let r = alive_indices(rest);
        let a = alive_indices(alive);
        assert forall|i: int| 0 <= i < alive.len() && alive[i] implies #[trigger] a.contains(i as usize) by {
            if i < rest.len() {
                assert(rest[i]);
                assert(r.contains(i as usize));
                let j = choose|j: int| 0 <= j < r.len() && r[j] == i as usize;
                assert(a[j] == i as usize);
            } else {
                assert(a[a.len() - 1] == i as usize);
            }
        }
        assert forall|j1: int, j2: int| 0 <= j1 < j2 < a.len() implies #[trigger] a[j1] < #[trigger] a[j2] by {
            if j2 < r.len() {
                assert(r[j1] < r[j2]);
            } else {
                assert(r[j1] < rest.len());
            }
        }
    }
}

/// A tick brings one to `MAX_VISITS` visits when some venue is alive and
/// none otherwise, every visit is to an alive venue of a kind below
/// `EVENT_KINDS`, and the tick takes one draw for the count and three per visit.
pub proof fn lemma_tick_visits(alive: Seq<bool>, s: u64)
    requires
        alive.len() <= usize::MAX,
    ensures
        tick_visits(alive, s).1 == state_after(s, 1 + 3 * tick_visits(alive, s).0.len()),
        forall|j: int| 0 <= j < tick_visits(alive, s).0.len() ==> #[trigger] tick_visits(alive, s).0[j].kind < EVENT_KINDS,
        (exists|i: int| 0 <= i < alive.len() && alive[i]) ==> 1 <= tick_visits(alive, s).0.len()
            <= MAX_VISITS,
        !(exists|i: int| 0 <= i < alive.len() && alive[i]) ==> tick_visits(alive, s).0.len() == 0,
        forall|j: int|
            0 <= j < tick_visits(alive, s).0.len() ==> #[trigger] tick_visits(alive, s).0[j].venue
                < alive.len() && alive[tick_visits(alive, s).0[j].venue as int],
{
    let s1 = xorshift(s);
    let ids = alive_indices(alive);
    lemma_alive_indices(alive);
    lemma_visits(ids, s1, (1 + (s1 as usize) % MAX_VISITS) as nat);
    let v = tick_visits(alive, s).0;
    lemma_state_after_shift(s, 3 * v.len());
    lemma_visit_kinds(ids, s1, (1 + (s1 as usize) % MAX_VISITS) as nat);
    assert forall|j: int| 0 <= j < v.len() implies #[trigger] v[j].venue < alive.len() && alive[v[j].venue as int] by {
        assert(ids.contains(v[j].venue));
        let q = choose|q: int| 0 <= q < ids.len() && ids[q] == v[j].venue;
        assert(ids[q] < alive.len());
    }
}

/// The alive positions of `alive`, in increasing order.
pub fn alive_ids(alive: &[bool]) -> (ids: Vec<usize>)
    ensures
        ids@ == alive_indices(alive@),
{
    let mut ids: Vec<usize> = Vec::new();
    let mut i: usize = 0;
    while i < alive.len()
        invariant
            i <= alive@.len(),
            ids@ == alive_indices(alive@.take(i as int)),
        decreases alive@.len() - i,
    {
        proof {
            assert(alive@.take(i + 1).drop_last() =~= alive@.take(i as int));
        }
        if alive[i] {
            ids.push(i);
        }
        i = i + 1;
    }
    proof {
        assert(alive@.take(alive@.len() as int) =~= alive@);
    }
    ids
}

/// Draws a tick's visits: how many, then for each the alive venue visited,
/// the kind of event and the draw for its vibe.
pub fn plan_visits(rng: &mut Rng, alive: &[bool]) -> (v: Vec<Visit>)
    ensures
        (v@, final(rng)@) == tick_visits(alive@, old(rng)@),
        final(rng)@ == state_after(old(rng)@, 1 + 3 * v@.len()),
        forall|j: int| 0 <= j < v@.len() ==> #[trigger] v@[j].venue < alive@.len() && alive@[v@[j].venue as int],
{
    let fleet_size: usize = alive.len();
    proof {
        assert(fleet_size == alive@.len());
        lemma_tick_visits(alive@, old(rng)@);
    }
    let count = 1 + rng.next_usize(MAX_VISITS);
    let ids = alive_ids(alive);
    let ghost s1 = rng@;
    let mut plan: Vec<Visit> = Vec::new();
    let mut k: usize = 0;
    while k < count
        invariant
            k <= count,
            ids@ == alive_indices(alive@),
            (plan@, rng@) == visits(ids@, s1, k as nat),
        ensures
            (plan@, rng@) == visits(ids@, s1, count as nat),
        decreases count - k,
    {
        if ids.len() == 0 {
            proof {
                assert(visits(ids@, s1, count as nat) == visits(ids@, s1, k as nat));
            }
            break;
        }
        let pick = rng.next_usize(ids.len());
        let venue = ids[pick];
        let kind = rng.next_usize(EVENT_KINDS);
        let vibe_draw = rng.next_u64();
        plan.push(Visit { venue, kind, vibe_draw });
        k = k + 1;
    }
    plan
}

/// The sum of the event counts of the alive venues.
pub open spec fn alive_events(alive: Seq<bool>, events: Seq<usize>) -> nat
    decreases alive.len(),
{
    if alive.len() == 0 || events.len() == 0 {
        0
    } else {
        alive_events(alive.drop_last(), events.drop_last()) + if alive.last() {
            events.last() as nat
        } else {
            0nat
        }
    }
}

/// The total counts each alive venue's events once and no dead venue's:
/// with every venue dead it is zero, changing a dead venue's count leaves it
/// alone, and changing an alive venue's count changes it by the same amount.
pub proof fn lemma_alive_events(alive: Seq<bool>, events: Seq<usize>, i: int, x: usize)
    requires
        alive.len() == events.len(),
        0 <= i < alive.len(),
    ensures
        (forall|j: int| 0 <= j < alive.len() ==> !alive[j]) ==> alive_events(alive, events) == 0,
        !alive[i] ==> alive_events(alive, events.update(i, x)) == alive_events(alive, events),
        alive[i] ==> alive_events(alive, events.update(i, x)) + events[i] == alive_events(alive, events)
            + x,
    decreases alive.len(),
{
    let e2 = events.update(i, x);
    if i < alive.len() - 1 {
        lemma_alive_events(alive.drop_last(), events.drop_last(), i, x);
        assert(e2.drop_last() =~= events.drop_last().update(i, x));
    } else {
        assert(e2.drop_last() =~= events.drop_last());
        if forall|j: int| 0 <= j < alive.len() ==> !alive[j] {
            lemma_alive_events_all_dead(alive, events);
        }
    }
    if forall|j: int| 0 <= j < alive.len() ==> !alive[j] {
        lemma_alive_events_all_dead(alive, events);
    }
}

proof fn lemma_alive_events_all_dead(alive: Seq<bool>, events: Seq<usize>)
    requires
        forall|j: int| 0 <= j < alive.len() ==> !alive[j],
    ensures
        alive_events(alive, events) == 0,
    decreases alive.len(),
{
    if alive.len() > 0 && events.len() > 0 {
        lemma_alive_events_all_dead(alive.drop_last(), events.drop_last());
    }
}

/// The number of alive venues and the total of their event counts.
pub fn census(alive: &[bool], events: &[usize]) -> (r: (usize, usize))
    requires
        alive@.len() == events@.len(),
        alive_events(alive@, events@) <= usize::MAX,
    ensures
        r.0 == count_true(alive@),
        r.1 == alive_events(alive@, events@),
        (forall|j: int| 0 <= j < alive@.len() ==> !alive@[j]) ==> r.1 == 0,
{
    proof {
        if forall|j: int| 0 <= j < alive@.len() ==> !alive@[j] {
            lemma_alive_events_all_dead(alive@, events@);
        }
    }
    let mut count: usize = 0;
    let mut total: usize = 0;
    let mut i: usize = 0;
    while i < alive.len()
        invariant
            i <= alive@.len(),
            alive@.len() == events@.len(),
            alive_events(alive@, events@) <= usize::MAX,
            count == count_true(alive@.take(i as int)),
            total == alive_events(alive@.take(i as int), events@.take(i as int)),
        decreases alive@.len() - i,
    {
        proof {
            assert(alive@.take(i + 1).drop_last() =~= alive@.take(i as int));
            assert(events@.take(i + 1).drop_last() =~= events@.take(i as int));
            lemma_count_true_bound(alive@.take(i as int));
            lemma_alive_events_prefix(alive@, events@, i + 1);
        }
        if alive[i] {
            count = count + 1;
            total = total + events[i];
        }
        i = i + 1;
    }
    proof {
        assert(alive@.take(alive@.len() as int) =~= alive@);
        assert(events@.take(events@.len() as int) =~= events@);
    }
    (count, total)
}

/// A prefix's total is at most the whole total.
proof fn lemma_alive_events_prefix(alive: Seq<bool>, events: Seq<usize>, i: int)
    requires
        alive.len() == events.len(),
        0 <= i <= alive.len(),
    ensures
        alive_events(alive.take(i), events.take(i)) <= alive_events(alive, events),
    decreases alive.len() - i,
{
    if i < alive.len() {
        lemma_alive_events_prefix(alive, events, i + 1);
        assert(alive.take(i + 1).drop_last() =~= alive.take(i));
        assert(events.take(i + 1).drop_last() =~= events.take(i));
    } else {
        assert(alive.take(i) =~= alive);
        assert(events.take(i) =~= events);
    }
}

} // verus!
