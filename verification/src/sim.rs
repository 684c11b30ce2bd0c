//! The simulation engine: the step loop over the agents and the graph store.
//! Each step moves every agent along a uniformly random available exit, then
//! destroys every colony at which two or more of this step's moves arrived,
//! together with all agents there and all connections into it.

use vstd::prelude::*;

use crate::graph::{
    cols_wf, has_colony, is_exit, no_dangling, remove_model, zero_exits, ColonyModel, Graph,
};
use crate::rng::random_below;

verus! {

/// A mobile agent: a stable identity and a current position (a colony name).
pub struct Ant {
    pub id: usize,
    pub position: String,
}

/// One destruction event: the destroyed colony and the identities of the
/// agents whose moves arrived there together.
pub struct Destruction {
    pub colony: String,
    pub ant_ids: Vec<usize>,
}

/// The whole simulation state: the live graph, the active agents, the count
/// of elapsed steps, the step ceiling, and the names of destroyed colonies.
pub struct Sim {
    pub graph: Graph,
    pub ants: Vec<Ant>,
    pub moves: usize,
    pub max_moves: usize,
    pub destroyed: Vec<String>,
}

/// Agent identities are pairwise distinct.
pub open spec fn ids_unique(ants: Seq<Ant>) -> bool {
    forall|i: int, j: int| 0 <= i < j < ants.len() ==> ants[i].id != ants[j].id
}

/// Some agent of the list carries this identity.
pub open spec fn id_among(ants: Seq<Ant>, x: usize) -> bool {
    exists|m: int| 0 <= m < ants.len() && (#[trigger] ants[m]).id == x
}

/// At least two of this step's moves resolved to colony `c`.
pub open spec fn collision_at(ants: Seq<Ant>, moved: Seq<bool>, c: Seq<char>) -> bool {
    exists|i: int, j: int|
        0 <= i < j < ants.len() && #[trigger] moved[i] && #[trigger] moved[j]
            && ants[i].position@ == c && ants[j].position@ == c
}

/// The identities of the agents whose moves arrived at colony `c`, in agent
/// order.
pub open spec fn arrival_ids(ants: Seq<Ant>, moved: Seq<bool>, c: Seq<char>) -> Seq<usize>
    decreases ants.len(),
{
    if ants.len() == 0 || moved.len() != ants.len() {
        Seq::empty()
    } else if moved.last() && ants.last().position@ == c {
        arrival_ids(ants.drop_last(), moved.drop_last(), c).push(ants.last().id)
    } else {
        arrival_ids(ants.drop_last(), moved.drop_last(), c)
    }
}

/// The destroyed colony names carried by a list of events, in order.
pub open spec fn event_names(es: Seq<Destruction>) -> Seq<Seq<char>> {
    es.map_values(|e: Destruction| e.colony@)
}

/// The agents that survive a set of destructions: those whose position is
/// not a destroyed colony name, kept in order.
pub open spec fn surviving(ants: Seq<Ant>, dead: Seq<Seq<char>>) -> Seq<Ant> {
    ants.filter(|a: Ant| !dead.contains(a.position@))
}

/// The graph left after removing the named colonies one by one, each removal
/// cascading as `remove_model` does.
pub open spec fn remove_all(g: Seq<ColonyModel>, names: Seq<Seq<char>>) -> Seq<ColonyModel>
    decreases names.len(),
{
    if names.len() == 0 {
        g
    } else {
        remove_all(remove_model(g, names.first()), names.drop_first())
    }
}

impl Sim {
    /// Well-formedness: the graph store is well-formed and agent identities
    /// are unique.
    pub open spec fn wf(self) -> bool {
        cols_wf(self.graph@) && ids_unique(self.ants@)
    }

    /// The names recorded as destroyed, as sequences of characters.
    pub open spec fn destroyed_names(self) -> Seq<Seq<char>> {
        self.destroyed@.map_values(|n: String| n@)
    }
}

/// The movement rule of one step: every agent keeps its identity; an agent at
/// a colony with no exits stays put and is reported unmoved; every other
/// agent is reported moved and stands at the destination of some recorded
/// exit of its old colony.
pub open spec fn moves_ok(
    g: Seq<ColonyModel>,
    pre: Seq<Ant>,
    post: Seq<Ant>,
    moved: Seq<bool>,
) -> bool {
    &&& post.len() == pre.len()
    &&& moved.len() == pre.len()
    &&& forall|i: int|
        0 <= i < pre.len() ==> {
            &&& (#[trigger] post[i]).id == pre[i].id
            &&& moved[i] == !zero_exits(g, pre[i].position@)
            &&& (!moved[i] ==> post[i].position@ == pre[i].position@)
            &&& (moved[i] ==> is_exit(g, pre[i].position@, post[i].position@))
        }
}

/// The collision rule of one step, over the positions the agents moved to
/// (`ants`) and the flags saying which of them moved: the events name, once
/// each, exactly the colonies at which two or more moves arrived, each with
/// the arriving agents' identities; the graph loses exactly those colonies,
/// cascading; the agents positioned at them are removed, the rest stay in
/// order.
pub open spec fn collision_outcome(
    g: Seq<ColonyModel>,
    ants: Seq<Ant>,
    moved: Seq<bool>,
    post_g: Seq<ColonyModel>,
    post_ants: Seq<Ant>,
    events: Seq<Destruction>,
) -> bool {
    &&& forall|k: int|
        0 <= k < events.len() ==> collision_at(ants, moved, (#[trigger] events[k]).colony@)
    &&& forall|c: Seq<char>| collision_at(ants, moved, c) ==> event_names(events).contains(c)
    &&& forall|k1: int, k2: int|
        0 <= k1 < k2 < events.len() ==> (#[trigger] events[k1]).colony@ != (
        #[trigger] events[k2]).colony@
    &&& forall|k: int|
        0 <= k < events.len() ==> (#[trigger] events[k]).ant_ids@ == arrival_ids(
            ants,
            moved,
            events[k].colony@,
        )
    &&& post_g == remove_all(g, event_names(events))
    &&& post_ants == surviving(ants, event_names(events))
}

/// One full step as a relation between the state before and the state after:
/// some movement obeying the movement rule happened, the new graph, agents
/// and events are exactly the collision rule's outcome of it, the step
/// counter went up by one, and the destroyed record grew by exactly the
/// event names.
pub open spec fn step_rel(pre: Sim, post: Sim, events: Seq<Destruction>) -> bool {
    &&& post.moves == pre.moves + 1
    &&& post.max_moves == pre.max_moves
    &&& post.destroyed_names() == pre.destroyed_names() + event_names(events)
    &&& exists|mid: Seq<Ant>, moved: Seq<bool>|
        {
            &&& #[trigger] moves_ok(pre.graph@, pre.ants@, mid, moved)
            &&& collision_outcome(pre.graph@, mid, moved, post.graph@, post.ants@, events)
        }
}

/// A run trace: each consecutive pair of states is one legitimate step, taken
/// only while the continuation guard held (the ceiling not reached, more than
/// one agent active), with that step's events.
pub open spec fn run_trace(states: Seq<Sim>, step_events: Seq<Seq<Destruction>>) -> bool
    decreases step_events.len(),
{
    &&& states.len() == step_events.len() + 1
    &&& step_events.len() > 0 ==> {
        let pre = states[states.len() - 2];
        &&& run_trace(states.drop_last(), step_events.drop_last())
        &&& pre.moves < pre.max_moves
        &&& pre.ants@.len() > 1
        &&& step_rel(pre, states.last(), step_events.last())
    }
}

/// A trace grows by one step: appending a state reached by one legitimate
/// step, taken while the guard held, keeps the trace legitimate.
pub proof fn lemma_run_trace_snoc(
    states: Seq<Sim>,
    chunks: Seq<Seq<Destruction>>,
    s: Sim,
    evs: Seq<Destruction>,
)
    requires
        run_trace(states, chunks),
        states.len() > 0,
        states.last().moves < states.last().max_moves,
        states.last().ants@.len() > 1,
        step_rel(states.last(), s, evs),
    ensures
        run_trace(states.push(s), chunks.push(evs)),
{
    let ns = states.push(s);
    let nc = chunks.push(evs);
    assert(ns.drop_last() =~= states);
    assert(nc.drop_last() =~= chunks);
    assert(ns[ns.len() - 2] == states.last());
    assert(ns.last() == s);
    assert(nc.last() == evs);
    assert(run_trace(ns, nc));
}

/// The events of a run's steps, concatenated in step order.
pub open spec fn concat_events(chunks: Seq<Seq<Destruction>>) -> Seq<Destruction>
    decreases chunks.len(),
{
    if chunks.len() == 0 {
        Seq::empty()
    } else {
        concat_events(chunks.drop_last()) + chunks.last()
    }
}

/// Arrivals counted two ways agree: the arrival list is nonempty exactly when
/// some move arrived, and holds at least two identities exactly when a
/// collision happened.
pub proof fn lemma_arrival_ids_card(ants: Seq<Ant>, moved: Seq<bool>, c: Seq<char>)
    requires
        moved.len() == ants.len(),
    ensures
        arrival_ids(ants, moved, c).len() >= 1 <==> exists|i: int|
            0 <= i < ants.len() && #[trigger] moved[i] && ants[i].position@ == c,
        arrival_ids(ants, moved, c).len() >= 2 <==> collision_at(ants, moved, c),
    decreases ants.len(),
{
    if ants.len() > 0 {
        let da = ants.drop_last();
        let dm = moved.drop_last();
        let n = ants.len() - 1;
        lemma_arrival_ids_card(da, dm, c);
        assert(forall|i: int| 0 <= i < n ==> #[trigger] da[i] == ants[i]);
        assert(forall|i: int| 0 <= i < n ==> #[trigger] dm[i] == moved[i]);
        // one arrival
        if arrival_ids(ants, moved, c).len() >= 1 {
            if !(moved.last() && ants.last().position@ == c) {
                let i = choose|i: int| 0 <= i < n && #[trigger] dm[i] && da[i].position@ == c;
                assert(moved[i] && ants[i].position@ == c);
            }
        }
        if exists|i: int| 0 <= i < ants.len() && #[trigger] moved[i] && ants[i].position@ == c {
            let i = choose|i: int| 0 <= i < ants.len() && #[trigger] moved[i] && ants[i].position@
                == c;
            if i < n {
                assert(dm[i] && da[i].position@ == c);
                assert(arrival_ids(da, dm, c).len() >= 1);
            }
        }
        // two arrivals
        if arrival_ids(ants, moved, c).len() >= 2 {
            if moved.last() && ants.last().position@ == c {
                let i = choose|i: int| 0 <= i < n && #[trigger] dm[i] && da[i].position@ == c;
                assert(moved[i] && ants[i].position@ == c);
                assert(collision_at(ants, moved, c));
            } else {
                let (i, j): (int, int) = choose|i: int, j: int|
                    0 <= i < j < n && #[trigger] dm[i] && #[trigger] dm[j] && da[i].position@ == c
                        && da[j].position@ == c;
                assert(moved[i] && moved[j]);
                assert(collision_at(ants, moved, c));
            }
        }
        if collision_at(ants, moved, c) {
            let (i, j): (int, int) = choose|i: int, j: int|
                0 <= i < j < ants.len() && #[trigger] moved[i] && #[trigger] moved[j]
                    && ants[i].position@ == c && ants[j].position@ == c;
            if j < n {
                assert(dm[i] && dm[j] && da[i].position@ == c && da[j].position@ == c);
                assert(collision_at(da, dm, c));
            } else {
                assert(dm[i] && da[i].position@ == c);
                assert(arrival_ids(da, dm, c).len() >= 1);
            }
            assert(arrival_ids(ants, moved, c).len() >= 2);
        }
    }
}

/// One agent more: the arrival list grows by that agent's identity exactly
/// when its move arrived at `c`.
pub proof fn lemma_arrival_ids_step(ants: Seq<Ant>, moved: Seq<bool>, c: Seq<char>, i: int)
    requires
        moved.len() == ants.len(),
        0 <= i < ants.len(),
    ensures
        arrival_ids(ants.take(i + 1), moved.take(i + 1), c) == if moved[i] && ants[i].position@
            == c {
            arrival_ids(ants.take(i), moved.take(i), c).push(ants[i].id)
        } else {
            arrival_ids(ants.take(i), moved.take(i), c)
        },
{
    assert(ants.take(i + 1).drop_last() =~= ants.take(i));
    assert(moved.take(i + 1).drop_last() =~= moved.take(i));
    assert(ants.take(i + 1).last() == ants[i]);
    assert(moved.take(i + 1).last() == moved[i]);
}

/// Removing the colonies of a longer list: the last removal composes onto the
/// removals before it.
pub proof fn lemma_remove_all_snoc(g: Seq<ColonyModel>, names: Seq<Seq<char>>, n: Seq<char>)
    ensures
        remove_all(g, names.push(n)) == remove_model(remove_all(g, names), n),
    decreases names.len(),
{
    let p = names.push(n);
    if names.len() == 0 {
        assert(p.first() == n);
        assert(p.drop_first() =~~= Seq::<Seq<char>>::empty());
        assert(remove_all(g, p) == remove_all(remove_model(g, n), p.drop_first()));
        assert(remove_all(remove_model(g, n), p.drop_first()) == remove_model(g, n));
        assert(remove_all(g, names) == g);
    } else {
        assert(p.first() == names.first());
        assert(p.drop_first() =~~= names.drop_first().push(n));
        lemma_remove_all_snoc(remove_model(g, names.first()), names.drop_first(), n);
        assert(remove_all(g, p) == remove_all(remove_model(g, names.first()), p.drop_first()));
        assert(remove_all(remove_model(g, names.first()), names.drop_first().push(n))
            == remove_model(remove_all(remove_model(g, names.first()), names.drop_first()), n));
        assert(remove_all(g, names) == remove_all(
            remove_model(g, names.first()),
            names.drop_first(),
        ));
    }
}

/// What iterated removal leaves: never more colonies, exactly the colonies
/// whose names are not in the removed list, well-formedness kept, no dangling
/// reference created, and no trapped position regaining an exit.
pub proof fn lemma_remove_all(g: Seq<ColonyModel>, names: Seq<Seq<char>>)
    ensures
        remove_all(g, names).len() <= g.len(),
        forall|m: Seq<char>|
            (#[trigger] has_colony(remove_all(g, names), m)) <==> has_colony(g, m)
                && !names.contains(m),
        cols_wf(g) ==> cols_wf(remove_all(g, names)),
        no_dangling(g) ==> no_dangling(remove_all(g, names)),
        forall|p: Seq<char>|
            zero_exits(g, p) ==> #[trigger] zero_exits(remove_all(g, names), p),
    decreases names.len(),
{
    if names.len() > 0 {
        let h = remove_model(g, names.first());
        crate::graph::lemma_remove_model(g, names.first());
        lemma_remove_all(h, names.drop_first());
        if no_dangling(g) {
            crate::graph::lemma_remove_model_no_dangling(g, names.first());
        }
        assert forall|p: Seq<char>| zero_exits(g, p) implies #[trigger] zero_exits(
            remove_all(g, names),
            p,
        ) by {
            crate::graph::lemma_remove_model_zero_exits(g, names.first(), p);
        }
        assert forall|m: Seq<char>| #[trigger]
            has_colony(remove_all(g, names), m) <==> has_colony(g, m) && !names.contains(
            m,
        ) by {
            assert(names.contains(m) <==> m == names.first() || names.drop_first().contains(m))
                by {
                if names.contains(m) {
                    let i = choose|i: int| 0 <= i < names.len() && names[i] == m;
                    if i > 0 {
                        assert(names.drop_first()[i - 1] == m);
                    }
                }
                if names.drop_first().contains(m) {
                    let i = choose|i: int|
                        0 <= i < names.drop_first().len() && names.drop_first()[i] == m;
                    assert(names[i + 1] == m);
                }
            }
        }
    }
}

/// Move one agent: pick a uniformly random available exit of its colony and
/// step there. An agent at a colony with no exits (or at a name with no live
/// colony) is trapped and does not move.
pub fn move_ant(ant: &mut Ant, g: &Graph, rng: &mut rand::rngs::ThreadRng) -> (moved: bool)
    requires
        g.wf(),
    ensures
        final(ant).id == old(ant).id,
        moved == !zero_exits(g@, old(ant).position@),
        !moved ==> *final(ant) == *old(ant),
        moved ==> is_exit(g@, old(ant).position@, final(ant).position@),
{
    match g.available_exits(&ant.position) {
        Some(exits) => {
            if exits.len() == 0 {
                proof {
                    let i = choose|i: int|
                        0 <= i < g@.len() && (#[trigger] g@[i]).name == ant.position@
                            && exits@.map_values(|c: crate::graph::Conn| c@) == g@[i].conns;
                    assert forall|k: int|
                        0 <= k < g@.len() && (#[trigger] g@[k]).name == ant.position@ implies g@[k].conns.len()
                        == 0 by {
                        if k != i {
                            assert(g@[k].name != g@[i].name);
                        }
                    }
                }
                false
            } else {
                let k = random_below(rng, exits.len());
                let dest = exits[k].dest.clone();
                proof {
                    let i = choose|i: int|
                        0 <= i < g@.len() && (#[trigger] g@[i]).name == ant.position@
                            && exits@.map_values(|c: crate::graph::Conn| c@) == g@[i].conns;
                    assert(g@[i].conns[k as int].dest == dest@);
                    assert(is_exit(g@, ant.position@, dest@));
                    assert(g@[i].conns.len() > 0);
                    assert(!zero_exits(g@, ant.position@));
                }
                ant.position = dest;
                true
            }
        },
        None => { false },
    }
}

/// Move every agent once, on the unchanged graph, and report which moved.
fn move_all(ants: &mut Vec<Ant>, g: &Graph, rng: &mut rand::rngs::ThreadRng) -> (moved: Vec<bool>)
    requires
        g.wf(),
    ensures
        final(ants)@.len() == old(ants)@.len(),
        moved@.len() == old(ants)@.len(),
        forall|i: int|
            0 <= i < old(ants)@.len() ==> {
                &&& (#[trigger] final(ants)@[i]).id == old(ants)@[i].id
                &&& moved@[i] == !zero_exits(g@, old(ants)@[i].position@)
                &&& (!moved@[i] ==> final(ants)@[i].position@ == old(ants)@[i].position@)
                &&& (moved@[i] ==> is_exit(
                    g@,
                    old(ants)@[i].position@,
                    final(ants)@[i].position@,
                ))
            },
{
    let n = ants.len();
    let mut out: Vec<Ant> = Vec::new();
    let mut moved: Vec<bool> = Vec::new();
    let mut i: usize = 0;
    while i < n
        invariant
            g.wf(),
            ants@ == old(ants)@,
            n == ants@.len(),
            i <= n,
            out@.len() == i,
            moved@.len() == i,
            forall|k: int|
                0 <= k < i ==> {
                    &&& (#[trigger] out@[k]).id == ants@[k].id
                    &&& moved@[k] == !zero_exits(g@, ants@[k].position@)
                    &&& (!moved@[k] ==> out@[k].position@ == ants@[k].position@)
                    &&& (moved@[k] ==> is_exit(g@, ants@[k].position@, out@[k].position@))
                },
        decreases n - i,
    {
        let mut a = Ant { id: ants[i].id, position: ants[i].position.clone() };
        let m = move_ant(&mut a, g, rng);
        out.push(a);
        moved.push(m);
        i = i + 1;
    }
    *ants = out;
    moved
}

/// Does any event name this position?
fn hits_destroyed(events: &Vec<Destruction>, pos: &String) -> (r: bool)
    ensures
        r == event_names(events@).contains(pos@),
{
    let n = events.len();
    let mut k: usize = 0;
    while k < n
        invariant
            n == events@.len(),
            k <= n,
            forall|m: int| 0 <= m < k ==> (#[trigger] events@[m]).colony@ != pos@,
        decreases n - k,
    {
        if events[k].colony == *pos {
            proof {
                assert(event_names(events@)[k as int] == pos@);
            }
            return true;
        }
        k = k + 1;
    }
    proof {
        assert forall|m: int| 0 <= m < event_names(events@).len() implies event_names(events@)[m]
            != pos@ by {
            assert(events@[m].colony@ != pos@);
        }
    }
    false
}

/// The index of the group collecting arrivals at this position, if any.
fn find_group(groups: &Vec<Destruction>, pos: &String) -> (r: Option<usize>)
    ensures
        match r {
            Some(gix) => gix < groups@.len() && groups@[gix as int].colony@ == pos@,
            None => forall|t: int| 0 <= t < groups@.len() ==> (#[trigger] groups@[t]).colony@ != pos@,
        },
{
    let n = groups.len();
    let mut k: usize = 0;
    while k < n
        invariant
            n == groups@.len(),
            k <= n,
            forall|t: int| 0 <= t < k ==> (#[trigger] groups@[t]).colony@ != pos@,
        decreases n - k,
    {
        if groups[k].colony == *pos {
            return Some(k);
        }
        k = k + 1;
    }
    None
}

impl Sim {
    /// A fresh simulation over a given graph and agent list.
    pub fn new(graph: Graph, ants: Vec<Ant>, max_moves: usize) -> (s: Sim)
        requires
            cols_wf(graph@),
            ids_unique(ants@),
        ensures
            s.graph == graph,
            s.ants == ants,
            s.moves == 0,
            s.max_moves == max_moves,
            s.destroyed@.len() == 0,
            s.wf(),
    {
        Sim { graph, ants, moves: 0, max_moves, destroyed: Vec::new() }
    }

    /// A fresh simulation with `num_ants` agents, each placed independently
    /// and uniformly at random among the colonies present at start.
    pub fn new_random(
        graph: Graph,
        num_ants: usize,
        max_moves: usize,
        rng: &mut rand::rngs::ThreadRng,
    ) -> (s: Sim)
        requires
            cols_wf(graph@),
            num_ants > 0 ==> graph@.len() > 0,
        ensures
            s.wf(),
            s.graph == graph,
            s.moves == 0,
            s.max_moves == max_moves,
            s.destroyed@.len() == 0,
            s.ants@.len() == num_ants,
            forall|i: int|
                0 <= i < num_ants ==> (#[trigger] s.ants@[i]).id == i && has_colony(
                    graph@,
                    s.ants@[i].position@,
                ),
    {
        let mut ants: Vec<Ant> = Vec::new();
        let mut id: usize = 0;
        while id < num_ants
            invariant
                num_ants > 0 ==> graph@.len() > 0,
                id <= num_ants,
                ants@.len() == id,
                forall|i: int|
                    0 <= i < id ==> (#[trigger] ants@[i]).id == i && has_colony(
                        graph@,
                        ants@[i].position@,
                    ),
            decreases num_ants - id,
        {
            let k = random_below(rng, graph.colonies.len());
            let pos = graph.colonies[k].name.clone();
            proof {
                assert(graph@[k as int].name == pos@);
            }
            ants.push(Ant { id, position: pos });
            id = id + 1;
        }
        proof {
            assert(ids_unique(ants@));
        }
        Sim { graph, ants, moves: 0, max_moves, destroyed: Vec::new() }
    }

    /// The loop guard: the run goes on while the step ceiling is not reached
    /// and more than one agent is active.
    pub fn should_continue(&self) -> (r: bool)
        ensures
            r == (self.moves < self.max_moves && self.ants@.len() > 1),
    {
        self.moves < self.max_moves && self.ants.len() > 1
    }

    /// The collision-and-destruction phase of a step, over the positions the
    /// agents already moved to and the flags saying which of them moved.
    ///
    /// A colony is destroyed exactly when at least two of this step's moves
    /// resolved to it; each destruction removes the colony (with cascading
    /// cleanup), every agent positioned there, and records the event.
    pub fn apply_collisions(&mut self, moved: &Vec<bool>) -> (events: Vec<Destruction>)
        requires
            old(self).wf(),
            moved@.len() == old(self).ants@.len(),
        ensures
            final(self).wf(),
            final(self).moves == old(self).moves,
            final(self).max_moves == old(self).max_moves,
            // a colony is reported destroyed if and only if at least two
            // moves arrived there; each event carries exactly the arriving
            // agents' identities; the graph loses exactly the destroyed
            // colonies, cascading; the agents positioned there are removed,
            // the rest stay, in order
            collision_outcome(
                old(self).graph@,
                old(self).ants@,
                moved@,
                final(self).graph@,
                final(self).ants@,
                events@,
            ),
            // every destruction is the work of at least two agents
            forall|k: int| 0 <= k < events@.len() ==> (#[trigger] events@[k]).ant_ids@.len() >= 2,
            forall|j: int|
                0 <= j < final(self).ants@.len() ==> exists|m: int|
                    0 <= m < old(self).ants@.len() && old(self).ants@[m] == (
                    #[trigger] final(self).ants@[j]),
            final(self).ants@.len() <= old(self).ants@.len(),
            final(self).graph@.len() <= old(self).graph@.len(),
            final(self).destroyed_names() == old(self).destroyed_names() + event_names(events@),
    {
        let ghost am = self.ants@;
        let ghost g0 = self.graph@;
        // group this step's arrivals by destination
        let mut groups: Vec<Destruction> = Vec::new();
        let n = self.ants.len();
        let mut i: usize = 0;
        proof {
            assert(am.take(0) =~= Seq::<Ant>::empty());
            assert(moved@.take(0) =~= Seq::<bool>::empty());
        }
        while i < n
            invariant
                self == old(self),
                am == self.ants@,
                n == am.len(),
                moved@.len() == n,
                i <= n,
                forall|g1: int, g2: int|
                    0 <= g1 < g2 < groups@.len() ==> (#[trigger] groups@[g1]).colony@ != (
                    #[trigger] groups@[g2]).colony@,
                forall|g: int|
                    0 <= g < groups@.len() ==> (#[trigger] groups@[g]).ant_ids@ == arrival_ids(
                        am.take(i as int),
                        moved@.take(i as int),
                        groups@[g].colony@,
                    ) && groups@[g].ant_ids@.len() >= 1,
                forall|m: int|
                    0 <= m < i && moved@[m] ==> exists|g: int|
                        0 <= g < groups@.len() && (#[trigger] groups@[g]).colony@ == am[m].position@,
            decreases n - i,
        {
            let ghost pre = groups@;
            let ghost pos = am[i as int].position@;
            if moved[i] {
                match find_group(&groups, &self.ants[i].position) {
                    Some(gix) => {
                        let mut gr = groups.remove(gix);
                        gr.ant_ids.push(self.ants[i].id);
                        let ghost grv = gr;
                        groups.insert(gix, gr);
                        proof {
                            assert(groups@ =~= pre.update(gix as int, grv));
                            assert(grv.colony@ == pos);
                            assert(grv.ant_ids@ == pre[gix as int].ant_ids@.push(
                                am[i as int].id,
                            ));
                            assert forall|g: int| 0 <= g < groups@.len() implies (
                            #[trigger] groups@[g]).ant_ids@ == arrival_ids(
                                am.take(i as int + 1),
                                moved@.take(i as int + 1),
                                groups@[g].colony@,
                            ) && groups@[g].ant_ids@.len() >= 1 by {
                                lemma_arrival_ids_step(am, moved@, groups@[g].colony@, i as int);
                                if g != gix as int {
                                    assert(groups@[g] == pre[g]);
                                    assert(groups@[g].colony@ != pos);
                                }
                            }
                            assert forall|m: int| 0 <= m < i + 1 && moved@[m] implies exists|g: int|
                                0 <= g < groups@.len() && (#[trigger] groups@[g]).colony@
                                    == am[m].position@ by {
                                if m < i {
                                    let g = choose|g: int|
                                        0 <= g < pre.len() && (#[trigger] pre[g]).colony@
                                            == am[m].position@;
                                    assert(groups@[g].colony@ == pre[g].colony@);
                                } else {
                                    assert(groups@[gix as int].colony@ == am[m].position@);
                                }
                            }
                        }
                    },
                    None => {
                        let d = Destruction {
                            colony: self.ants[i].position.clone(),
                            ant_ids: vec![self.ants[i].id],
                        };
                        groups.push(d);
                        proof {
                            assert(groups@ =~= pre.push(d));
                            assert forall|g: int| 0 <= g < groups@.len() implies (
                            #[trigger] groups@[g]).ant_ids@ == arrival_ids(
                                am.take(i as int + 1),
                                moved@.take(i as int + 1),
                                groups@[g].colony@,
                            ) && groups@[g].ant_ids@.len() >= 1 by {
                                lemma_arrival_ids_step(am, moved@, groups@[g].colony@, i as int);
                                if g < pre.len() {
                                    assert(groups@[g] == pre[g]);
                                    assert(groups@[g].colony@ != pos);
                                } else {
                                    assert(groups@[g] == d);
                                    assert(arrival_ids(
                                        am.take(i as int),
                                        moved@.take(i as int),
                                        pos,
                                    ).len() == 0) by {
                                        lemma_arrival_ids_card(
                                            am.take(i as int),
                                            moved@.take(i as int),
                                            pos,
                                        );
                                        if arrival_ids(
                                            am.take(i as int),
                                            moved@.take(i as int),
                                            pos,
                                        ).len() >= 1 {
                                            let m2 = choose|m2: int|
                                                0 <= m2 < i && #[trigger] moved@.take(
                                                    i as int,
                                                )[m2] && am.take(i as int)[m2].position@ == pos;
                                            assert(moved@[m2] && am[m2].position@ == pos);
                                            let g2 = choose|g2: int|
                                                0 <= g2 < pre.len() && (#[trigger] pre[g2]).colony@
                                                    == am[m2].position@;
                                            assert(pre[g2].colony@ == pos);
                                            assert(false);
                                        }
                                    }
                                    assert(d.ant_ids@ =~= seq![am[i as int].id]);
                                }
                            }
                            assert forall|m: int| 0 <= m < i + 1 && moved@[m] implies exists|g: int|
                                0 <= g < groups@.len() && (#[trigger] groups@[g]).colony@
                                    == am[m].position@ by {
                                if m < i {
                                    let g = choose|g: int|
                                        0 <= g < pre.len() && (#[trigger] pre[g]).colony@
                                            == am[m].position@;
                                    assert(groups@[g].colony@ == pre[g].colony@);
                                } else {
                                    assert(groups@[groups@.len() - 1].colony@ == am[m].position@);
                                }
                            }
                        }
                    },
                }
            } else {
                proof {
                    assert forall|g: int| 0 <= g < groups@.len() implies (
                    #[trigger] groups@[g]).ant_ids@ == arrival_ids(
                        am.take(i as int + 1),
                        moved@.take(i as int + 1),
                        groups@[g].colony@,
                    ) && groups@[g].ant_ids@.len() >= 1 by {
                        lemma_arrival_ids_step(am, moved@, groups@[g].colony@, i as int);
                    }
                }
            }
            i = i + 1;
        }
        proof {
            assert(am.take(n as int) =~= am);
            assert(moved@.take(n as int) =~= moved@);
        }
        // destroy every destination with two or more arrivals
        let ghost og = groups@;
        let mut events: Vec<Destruction> = Vec::new();
        let ghost d0 = self.destroyed_names();
        proof {
            assert(event_names(events@) =~~= Seq::<Seq<char>>::empty());
            assert(remove_all(g0, event_names(events@)) == g0);
            assert(d0 + event_names(events@) =~~= d0);
        }
        while groups.len() > 0
            invariant
                self.ants@ == am,
                self.moves == old(self).moves,
                self.max_moves == old(self).max_moves,
                moved@.len() == am.len(),
                cols_wf(self.graph@),
                ids_unique(am),
                // the fixed facts about the grouping
                forall|g1: int, g2: int|
                    0 <= g1 < g2 < og.len() ==> (#[trigger] og[g1]).colony@ != (
                    #[trigger] og[g2]).colony@,
                forall|g: int|
                    0 <= g < og.len() ==> (#[trigger] og[g]).ant_ids@ == arrival_ids(
                        am,
                        moved@,
                        og[g].colony@,
                    ) && og[g].ant_ids@.len() >= 1,
                forall|m: int|
                    0 <= m < am.len() && moved@[m] ==> exists|g: int|
                        0 <= g < og.len() && (#[trigger] og[g]).colony@ == am[m].position@,
                // progress through the groups
                groups@ =~= og.skip(og.len() - groups@.len()),
                groups@.len() <= og.len(),
                // what the events collected so far say
                forall|k: int|
                    0 <= k < events@.len() ==> exists|g: int|
                        0 <= g < og.len() - groups@.len() && (#[trigger] events@[k]).colony@
                            == og[g].colony@,
                forall|k1: int, k2: int|
                    0 <= k1 < k2 < events@.len() ==> (#[trigger] events@[k1]).colony@ != (
                    #[trigger] events@[k2]).colony@,
                forall|k: int|
                    0 <= k < events@.len() ==> (#[trigger] events@[k]).ant_ids@ == arrival_ids(
                        am,
                        moved@,
                        events@[k].colony@,
                    ) && events@[k].ant_ids@.len() >= 2,
                forall|g: int|
                    0 <= g < og.len() - groups@.len() && (#[trigger] og[g]).ant_ids@.len() >= 2
                        ==> event_names(events@).contains(og[g].colony@),
                self.graph@ == remove_all(g0, event_names(events@)),
                self.destroyed_names() == d0 + event_names(events@),
            decreases groups@.len(),
        {
            let ghost gi = og.len() - groups@.len();
            let ghost pre_events = events@;
            let d = groups.remove(0);
            proof {
                assert(d == og[gi]);
                assert(groups@ =~= og.skip(gi + 1));
            }
            if d.ant_ids.len() >= 2 {
                let ghost pre_dn = self.destroyed_names();
                self.graph.remove_colony(&d.colony);
                self.destroyed.push(d.colony.clone());
                events.push(d);
                proof {
                    assert(event_names(events@) =~~= event_names(pre_events).push(
                        og[gi].colony@,
                    ));
                    lemma_remove_all_snoc(g0, event_names(pre_events), og[gi].colony@);
                    assert(self.destroyed_names() =~~= pre_dn.push(og[gi].colony@));
                    assert(d0 + event_names(events@) =~~= (d0 + event_names(pre_events)).push(
                        og[gi].colony@,
                    ));
                    assert(self.destroyed_names() == d0 + event_names(events@));
                    assert forall|k: int| 0 <= k < events@.len() implies exists|g: int|
                        0 <= g < og.len() - groups@.len() && (#[trigger] events@[k]).colony@
                            == og[g].colony@ by {
                        if k < pre_events.len() {
                            let g = choose|g: int|
                                0 <= g < gi && (#[trigger] pre_events[k]).colony@ == og[g].colony@;
                            assert(events@[k].colony@ == og[g].colony@);
                        } else {
                            assert(events@[k].colony@ == og[gi].colony@);
                        }
                    }
                    assert forall|k1: int, k2: int| 0 <= k1 < k2 < events@.len() implies (
                    #[trigger] events@[k1]).colony@ != (#[trigger] events@[k2]).colony@ by {
                        if k2 == events@.len() - 1 {
                            let g = choose|g: int|
                                0 <= g < gi && (#[trigger] pre_events[k1]).colony@
                                    == og[g].colony@;
                            assert(og[g].colony@ != og[gi].colony@);
                        }
                    }
                    assert forall|g: int|
                        0 <= g < og.len() - groups@.len() && (#[trigger] og[g]).ant_ids@.len()
                            >= 2 implies event_names(events@).contains(og[g].colony@) by {
                        if g < gi {
                            let x = choose|x: int|
                                0 <= x < event_names(pre_events).len() && event_names(
                                    pre_events,
                                )[x] == og[g].colony@;
                            assert(event_names(events@)[x] == og[g].colony@);
                        } else {
                            assert(event_names(events@)[event_names(events@).len() - 1]
                                == og[gi].colony@);
                        }
                    }
                }
            } else {
                proof {
                    assert forall|g: int|
                        0 <= g < og.len() - groups@.len() && (#[trigger] og[g]).ant_ids@.len()
                            >= 2 implies event_names(events@).contains(og[g].colony@) by {
                        if g < gi {
                        } else {
                            assert(g == gi);
                            assert(og[gi].ant_ids@.len() < 2);
                        }
                    }
                }
            }
        }
        proof {
            assert(og.skip(0) =~= og);
        }
        // remove every agent positioned at a destroyed colony
        let ghost dead = event_names(events@);
        let mut kept: Vec<Ant> = Vec::new();
        let mut j: usize = 0;
        proof {
            reveal(Seq::filter);
            assert(am.take(0) =~= Seq::<Ant>::empty());
            assert(surviving(am.take(0), dead) =~= Seq::<Ant>::empty());
        }
        while j < n
            invariant
                self.ants@ == am,
                n == am.len(),
                j <= n,
                ids_unique(am),
                dead == event_names(events@),
                kept@ == surviving(am.take(j as int), dead),
                kept@.len() <= j,
                ids_unique(kept@),
                forall|k: int|
                    0 <= k < kept@.len() ==> exists|m: int|
                        0 <= m < j && am[m] == #[trigger] kept@[k],
            decreases n - j,
        {
            let ghost pre = kept@;
            let dead_here = hits_destroyed(&events, &self.ants[j].position);
            if !dead_here {
                let a = Ant { id: self.ants[j].id, position: self.ants[j].position.clone() };
                proof {
                    assert(a == am[j as int]);
                    assert forall|k: int| 0 <= k < pre.len() implies pre[k].id != a.id by {
                        let m = choose|m: int| 0 <= m < j && am[m] == pre[k];
                        assert(am[m].id != am[j as int].id);
                    }
                }
                kept.push(a);
            }
            j = j + 1;
            proof {
                reveal(Seq::filter);
                assert(am.take(j as int).drop_last() =~= am.take(j as int - 1));
                assert(am.take(j as int).last() == am[j as int - 1]);
                assert(kept@ == surviving(am.take(j as int), dead));
            }
        }
        proof {
            assert(am.take(n as int) =~= am);
        }
        self.ants = kept;
        // every collision colony was grouped, found to have two or more
        // arrivals, and so reported
        proof {
            assert forall|c: Seq<char>| collision_at(am, moved@, c) implies event_names(
                events@,
            ).contains(c) by {
                lemma_arrival_ids_card(am, moved@, c);
                let m = choose|m: int|
                    0 <= m < am.len() && #[trigger] moved@[m] && am[m].position@ == c;
                let g = choose|g: int|
                    0 <= g < og.len() && (#[trigger] og[g]).colony@ == am[m].position@;
                assert(og[g].ant_ids@ == arrival_ids(am, moved@, c));
                assert(og[g].ant_ids@.len() >= 2);
            }
            assert forall|k: int| 0 <= k < events@.len() implies collision_at(
                am,
                moved@,
                (#[trigger] events@[k]).colony@,
            ) by {
                lemma_arrival_ids_card(am, moved@, events@[k].colony@);
            }
            lemma_remove_all(g0, event_names(events@));
        }
        events
    }

    /// One full simulation step: move every agent, resolve the collisions,
    /// count the step. Returns this step's destruction events.
    pub fn run_step(&mut self, rng: &mut rand::rngs::ThreadRng) -> (events: Vec<Destruction>)
        requires
            old(self).wf(),
            old(self).moves < old(self).max_moves,
        ensures
            final(self).wf(),
            // the new state and the returned events are the outcome of a real
            // step: a move phase obeying the movement rule, then the
            // collision rule applied to exactly this step's moves
            step_rel(*old(self), *final(self), events@),
            final(self).moves == old(self).moves + 1,
            final(self).max_moves == old(self).max_moves,
            // monotonic shrinkage
            final(self).ants@.len() <= old(self).ants@.len(),
            final(self).graph@.len() <= old(self).graph@.len(),
            // no dangling references are created
            no_dangling(old(self).graph@) ==> no_dangling(final(self).graph@),
            // a colony without exits never regains one
            forall|p: Seq<char>|
                zero_exits(old(self).graph@, p) ==> #[trigger] zero_exits(final(self).graph@, p),
            // the surviving colonies are exactly those not destroyed this step
            forall|m: Seq<char>|
                (#[trigger] has_colony(final(self).graph@, m)) <==> has_colony(
                    old(self).graph@,
                    m,
                ) && !event_names(events@).contains(m),
            // every destruction is the work of at least two agents
            forall|k: int| 0 <= k < events@.len() ==> (#[trigger] events@[k]).ant_ids@.len() >= 2,
            // the destroyed record grows by exactly this step's events
            final(self).destroyed_names() == old(self).destroyed_names() + event_names(events@),
            // every surviving agent is an old agent that kept its position or
            // moved along a connection of the old graph
            forall|j: int|
                0 <= j < final(self).ants@.len() ==> exists|m: int|
                    {
                        &&& 0 <= m < old(self).ants@.len()
                        &&& old(self).ants@[m].id == (#[trigger] final(self).ants@[j]).id
                        &&& (final(self).ants@[j].position@ == old(self).ants@[m].position@
                            || is_exit(
                            old(self).graph@,
                            old(self).ants@[m].position@,
                            final(self).ants@[j].position@,
                        ))
                    },
            // a trapped agent that survives keeps its position
            forall|m: int, j: int|
                ({
                    &&& 0 <= m < old(self).ants@.len()
                    &&& 0 <= j < final(self).ants@.len()
                    &&& zero_exits(old(self).graph@, (#[trigger] old(self).ants@[m]).position@)
                    &&& (#[trigger] final(self).ants@[j]).id == old(self).ants@[m].id
                }) ==> final(self).ants@[j].position@ == old(self).ants@[m].position@,
    {
        let ghost a0 = self.ants@;
        let ghost g0 = self.graph@;
        let moved = move_all(&mut self.ants, &self.graph, rng);
        let ghost a1 = self.ants@;
        proof {
            assert(ids_unique(a1)) by {
                assert forall|i: int, j: int| 0 <= i < j < a1.len() implies a1[i].id
                    != a1[j].id by {
                    assert(a1[i].id == a0[i].id && a1[j].id == a0[j].id);
                }
            }
        }
        let events = self.apply_collisions(&moved);
        self.moves = self.moves + 1;
        proof {
            assert(moves_ok(old(self).graph@, old(self).ants@, a1, moved@));
            assert(collision_outcome(
                old(self).graph@,
                a1,
                moved@,
                self.graph@,
                self.ants@,
                events@,
            ));
            assert(step_rel(*old(self), *self, events@));
            lemma_remove_all(g0, event_names(events@));
            assert forall|j: int| 0 <= j < self.ants@.len() implies exists|m: int|
                0 <= m < a0.len() && a0[m].id == (#[trigger] self.ants@[j]).id && (
                self.ants@[j].position@ == a0[m].position@ || is_exit(
                    g0,
                    a0[m].position@,
                    self.ants@[j].position@,
                )) by {
                let m = choose|m: int| 0 <= m < a1.len() && a1[m] == self.ants@[j];
                assert(a1[m].id == a0[m].id);
                if moved@[m] {
                    assert(is_exit(g0, a0[m].position@, a1[m].position@));
                } else {
                    assert(a1[m].position@ == a0[m].position@);
                }
            }
            assert forall|m: int, j: int|
                0 <= m < a0.len() && 0 <= j < self.ants@.len() && zero_exits(
                    g0,
                    (#[trigger] a0[m]).position@,
                ) && (#[trigger] self.ants@[j]).id == a0[m].id implies self.ants@[j].position@
                == a0[m].position@ by {
                let m2 = choose|m2: int| 0 <= m2 < a1.len() && a1[m2] == self.ants@[j];
                assert(a1[m2].id == a0[m2].id);
                if m2 != m {
                    assert(a0[m2].id != a0[m].id);
                }
                assert(m2 == m);
                assert(moved@[m] == !zero_exits(g0, a0[m].position@));
                assert(a1[m].position@ == a0[m].position@);
            }
        }
        events
    }

    /// Run the simulation to its end: step while the ceiling is not reached
    /// and more than one agent is active. Returns all destruction events, in
    /// order. A run that starts with at most one active agent executes no
    /// step at all.
    #[verifier::rlimit(50)]
    pub fn run(&mut self, rng: &mut rand::rngs::ThreadRng) -> (events: Vec<Destruction>)
        requires
            old(self).wf(),
        ensures
            final(self).wf(),
            final(self).max_moves == old(self).max_moves,
            // the run halts: the ceiling is reached or at most one agent is left
            final(self).moves >= final(self).max_moves || final(self).ants@.len() <= 1,
            old(self).moves <= old(self).max_moves ==> final(self).moves
                <= final(self).max_moves,
            // monotonic shrinkage over the whole run
            final(self).ants@.len() <= old(self).ants@.len(),
            final(self).graph@.len() <= old(self).graph@.len(),
            no_dangling(old(self).graph@) ==> no_dangling(final(self).graph@),
            final(self).destroyed_names() == old(self).destroyed_names() + event_names(events@),
            // the final state was reached from the initial one by a chain of
            // legitimate steps, each taken only while the continuation guard
            // held, and the returned events are those steps' events in order
            exists|states: Seq<Sim>, chunks: Seq<Seq<Destruction>>|
                {
                    &&& #[trigger] run_trace(states, chunks)
                    &&& states.first() == *old(self)
                    &&& states.last() == *final(self)
                    &&& events@ == concat_events(chunks)
                },
            // no agent is ever created: every surviving identity was there
            // at the start
            forall|j: int|
                0 <= j < final(self).ants@.len() ==> id_among(
                    old(self).ants@,
                    (#[trigger] final(self).ants@[j]).id,
                ),
            // a colony without exits never regains one
            forall|p: Seq<char>|
                zero_exits(old(self).graph@, p) ==> #[trigger] zero_exits(final(self).graph@, p),
            // an agent trapped at the start keeps its position for the whole
            // run, unless it is destroyed
            forall|m: int, j: int|
                ({
                    &&& 0 <= m < old(self).ants@.len()
                    &&& 0 <= j < final(self).ants@.len()
                    &&& zero_exits(old(self).graph@, (#[trigger] old(self).ants@[m]).position@)
                    &&& (#[trigger] final(self).ants@[j]).id == old(self).ants@[m].id
                }) ==> final(self).ants@[j].position@ == old(self).ants@[m].position@,
            // a run that may not step leaves the state untouched
            (old(self).ants@.len() <= 1 || old(self).moves >= old(self).max_moves)
                ==> *final(self) == *old(self),
    {
        let mut all_events: Vec<Destruction> = Vec::new();
        let ghost mut states: Seq<Sim> = seq![*self];
        let ghost mut chunks: Seq<Seq<Destruction>> = Seq::empty();
        proof {
            assert(event_names(all_events@) =~~= Seq::<Seq<char>>::empty());
            assert(self.destroyed_names() + event_names(all_events@) =~~= self.destroyed_names());
            assert(concat_events(chunks) =~= all_events@);
            assert forall|j: int| 0 <= j < self.ants@.len() implies id_among(
                old(self).ants@,
                (#[trigger] self.ants@[j]).id,
            ) by {
                assert(0 <= j < old(self).ants@.len() && old(self).ants@[j].id
                    == self.ants@[j].id);
            }
        }
        while self.moves < self.max_moves && self.ants.len() > 1
            invariant
                self.wf(),
                self.max_moves == old(self).max_moves,
                self.ants@.len() <= old(self).ants@.len(),
                self.graph@.len() <= old(self).graph@.len(),
                no_dangling(old(self).graph@) ==> no_dangling(self.graph@),
                old(self).moves <= old(self).max_moves ==> self.moves <= self.max_moves,
                self.destroyed_names() == old(self).destroyed_names() + event_names(all_events@),
                states.len() == chunks.len() + 1,
                run_trace(states, chunks),
                states.first() == *old(self),
                states.last() == *self,
                all_events@ == concat_events(chunks),
                forall|j: int|
                    0 <= j < self.ants@.len() ==> id_among(
                        old(self).ants@,
                        (#[trigger] self.ants@[j]).id,
                    ),
                forall|p: Seq<char>|
                    zero_exits(old(self).graph@, p) ==> #[trigger] zero_exits(self.graph@, p),
                forall|m: int, j: int|
                    ({
                        &&& 0 <= m < old(self).ants@.len()
                        &&& 0 <= j < self.ants@.len()
                        &&& zero_exits(old(self).graph@, (#[trigger] old(self).ants@[m]).position@)
                        &&& (#[trigger] self.ants@[j]).id == old(self).ants@[m].id
                    }) ==> self.ants@[j].position@ == old(self).ants@[m].position@,
                (old(self).ants@.len() <= 1 || old(self).moves >= old(self).max_moves) ==> self
                    == old(self),
            decreases self.max_moves - self.moves,
        {
            let ghost pre_names = event_names(all_events@);
            let ghost pre = *self;
            let ghost pre_states = states;
            let ghost pre_chunks = chunks;
            let mut evs = self.run_step(rng);
            let ghost step_evs = evs@;
            let ghost step_names = event_names(evs@);
            all_events.append(&mut evs);
            proof {
                states = states.push(*self);
                chunks = chunks.push(step_evs);
                assert(pre_states.last() == pre);
                lemma_run_trace_snoc(pre_states, pre_chunks, *self, step_evs);
                assert(run_trace(states, chunks));
                assert(chunks.drop_last() =~= pre_chunks);
                assert(concat_events(chunks) == concat_events(pre_chunks) + step_evs);
                assert(event_names(all_events@) =~~= pre_names + step_names);
                assert(old(self).destroyed_names() + event_names(all_events@) =~~= (old(
                    self,
                ).destroyed_names() + pre_names) + step_names);
                assert forall|j: int| 0 <= j < self.ants@.len() implies id_among(
                    old(self).ants@,
                    (#[trigger] self.ants@[j]).id,
                ) by {
                    let m2 = choose|m2: int|
                        {
                            &&& 0 <= m2 < pre.ants@.len()
                            &&& pre.ants@[m2].id == self.ants@[j].id
                            &&& (self.ants@[j].position@ == pre.ants@[m2].position@ || is_exit(
                                pre.graph@,
                                pre.ants@[m2].position@,
                                self.ants@[j].position@,
                            ))
                        };
                    assert(id_among(old(self).ants@, pre.ants@[m2].id));
                }
                assert forall|m: int, j: int|
                    ({
                        &&& 0 <= m < old(self).ants@.len()
                        &&& 0 <= j < self.ants@.len()
                        &&& zero_exits(old(self).graph@, (#[trigger] old(self).ants@[m]).position@)
                        &&& (#[trigger] self.ants@[j]).id == old(self).ants@[m].id
                    }) implies self.ants@[j].position@ == old(self).ants@[m].position@ by {
                    let m2 = choose|m2: int|
                        {
                            &&& 0 <= m2 < pre.ants@.len()
                            &&& pre.ants@[m2].id == self.ants@[j].id
                            &&& (self.ants@[j].position@ == pre.ants@[m2].position@ || is_exit(
                                pre.graph@,
                                pre.ants@[m2].position@,
                                self.ants@[j].position@,
                            ))
                        };
                    assert(pre.ants@[m2].position@ == old(self).ants@[m].position@);
                    assert(zero_exits(pre.graph@, pre.ants@[m2].position@));
                    assert(self.ants@[j].position@ == pre.ants@[m2].position@);
                }
            }
        }
        proof {
            assert(run_trace(states, chunks) && states.first() == *old(self) && states.last()
                == *self && all_events@ == concat_events(chunks));
        }
        all_events
    }
}

} // verus!
