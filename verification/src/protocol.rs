//! Protocols: agents with local states and neighbours, and transition rules
//! guarded by the states of other agents.
use vstd::prelude::*;

use crate::cochain::forward_pairs;
use crate::sheaf::{
    isolated_points, pair_set_name, point_set_name, range_points, with_edge, with_edges, OpenSet, SheafSpace,
};
use crate::text::{decimal, push_decimal};

verus! {

/// The character sequences of a list of strings.
pub open spec fn string_views(v: Seq<String>) -> Seq<Seq<char>> {
    v.map_values(|s: String| s@)
}

/// An agent's configuration: its local state and connectivity.
#[derive(Debug, Clone)]
pub struct AgentConfig {
    pub id: usize,
    pub name: String,
    pub local_states: Vec<String>,
    pub neighbors: Vec<usize>,
}

impl AgentConfig {
    pub fn new(id: usize, name: &str, local_states: Vec<String>) -> (a: AgentConfig)
        ensures
            a.id == id,
            a.name@ == name@,
            a.local_states@ == local_states@,
            a.neighbors@ == Seq::<usize>::empty(),
    {
        AgentConfig { id, name: name.to_owned(), local_states, neighbors: Vec::new() }
    }

    pub fn with_neighbors(self, neighbors: Vec<usize>) -> (a: AgentConfig)
        ensures
            a.id == self.id,
            a.name == self.name,
            a.local_states == self.local_states,
            a.neighbors@ == neighbors@,
    {
        let mut a = self;
        a.neighbors = neighbors;
        a
    }

    pub fn n_states(&self) -> (n: usize)
        ensures
            n == self.local_states@.len(),
    {
        self.local_states.len()
    }
}

/// A transition rule in the protocol.
#[derive(Debug, Clone)]
pub struct TransitionRule {
    pub agent: usize,
    pub from_state: usize,
    pub to_state: usize,
    /// Required states of other agents for this transition.
    pub guards: Vec<(usize, usize)>,
}

/// The total number of local states of the agents.
pub open spec fn total_states(agents: Seq<AgentConfig>) -> nat
    decreases agents.len(),
{
    if agents.len() == 0 {
        0
    } else {
        total_states(agents.drop_last()) + agents.last().local_states@.len()
    }
}

/// A protocol: a collection of agents with transition rules.
#[derive(Debug, Clone)]
pub struct Protocol {
    pub name: String,
    pub agents: Vec<AgentConfig>,
    /// Transition rules: (agent_id, from_state, to_state) → guard conditions.
    pub rules: Vec<TransitionRule>,
}

impl Protocol {
    pub fn new(name: &str) -> (p: Protocol)
        ensures
            p.name@ == name@,
            p.agents@ == Seq::<AgentConfig>::empty(),
            p.rules@ == Seq::<TransitionRule>::empty(),
    {
        Protocol { name: name.to_owned(), agents: Vec::new(), rules: Vec::new() }
    }

    pub fn add_agent(&mut self, agent: AgentConfig)
        ensures
            final(self).agents@ == old(self).agents@.push(agent),
            final(self).name == old(self).name,
            final(self).rules@ == old(self).rules@,
    {
        self.agents.push(agent);
    }

    pub fn add_rule(&mut self, rule: TransitionRule)
        ensures
            final(self).rules@ == old(self).rules@.push(rule),
            final(self).name == old(self).name,
            final(self).agents@ == old(self).agents@,
    {
        self.rules.push(rule);
    }

    /// Number of agents.
    pub fn n_agents(&self) -> (n: usize)
        ensures
            n == self.agents@.len(),
    {
        self.agents.len()
    }

    /// Total configuration space dimension: the number of local states of
    /// all agents together.
    pub fn config_dim(&self) -> (d: usize)
        requires
            total_states(self.agents@) <= usize::MAX,
        ensures
            d == total_states(self.agents@),
    {
        let mut total: usize = 0;
        let mut i: usize = 0;
        while i < self.agents.len()
            invariant
                i <= self.agents@.len(),
                total == total_states(self.agents@.take(i as int)),
                total_states(self.agents@) <= usize::MAX,
            decreases self.agents@.len() - i,
        {
            proof {
                let t = self.agents@.take(i + 1);
                assert(t.drop_last() =~= self.agents@.take(i as int));
                lemma_total_states_prefix(self.agents@, i + 1);
            }
            total = total + self.agents[i].n_states();
            i = i + 1;
        }
        assert(self.agents@.take(self.agents@.len() as int) =~= self.agents@);
        total
    }
}

/// The states of a prefix are no more than those of the whole list.
proof fn lemma_total_states_prefix(agents: Seq<AgentConfig>, k: int)
    requires
        0 <= k <= agents.len(),
    ensures
        total_states(agents.take(k)) <= total_states(agents),
    decreases agents.len(),
{
    if k < agents.len() {
        assert(agents.drop_last().take(k) =~= agents.take(k));
        lemma_total_states_prefix(agents.drop_last(), k);
    } else {
        assert(agents.take(k) =~= agents);
    }
}

/// The string `prefix` followed by the decimal rendering of `i`.
fn indexed_name(prefix: &str, i: usize) -> (s: String)
    ensures
        s@ == prefix@ + decimal(i as nat),
{
    let mut s = String::new();
    s.append(prefix);
    push_decimal(&mut s, i);
    s
}

/// The list of strings with the given contents.
fn strings2(a: &str, b: &str) -> (v: Vec<String>)
    ensures
        string_views(v@) == seq![a@, b@],
{
    let mut v: Vec<String> = Vec::new();
    v.push(a.to_owned());
    v.push(b.to_owned());
    assert(string_views(v@) =~= seq![a@, b@]);
    v
}

/// The list of strings with the given contents.
fn strings3(a: &str, b: &str, c: &str) -> (v: Vec<String>)
    ensures
        string_views(v@) == seq![a@, b@, c@],
{
    let mut v: Vec<String> = Vec::new();
    v.push(a.to_owned());
    v.push(b.to_owned());
    v.push(c.to_owned());
    assert(string_views(v@) =~= seq![a@, b@, c@]);
    v
}

/// The points `0 .. n` other than `i`, in order.
pub open spec fn all_but(n: nat, i: usize) -> Seq<usize>
    decreases n,
{
    if n == 0 {
        Seq::empty()
    } else if (n - 1) as usize != i {
        all_but((n - 1) as nat, i).push((n - 1) as usize)
    } else {
        all_but((n - 1) as nat, i)
    }
}

/// Agent `i` of the mutual-exclusion protocol on `n` agents: named
/// `Agent<i>`, with states idle, waiting and critical, and every other agent
/// as a neighbour.
pub open spec fn mutex_agent(a: AgentConfig, n: nat, i: usize) -> bool {
    &&& a.id == i
    &&& a.name@ == "Agent"@ + decimal(i as nat)
    &&& string_views(a.local_states@) == seq!["idle"@, "waiting"@, "critical"@]
    &&& a.neighbors@ == all_but(n, i)
}

/// Build a simple mutex protocol with n agents and m resources.
pub fn mutex_protocol(n_agents: usize, _n_resources: usize) -> (p: Protocol)
    ensures
        p.name@ == "MutexProtocol"@,
        p.agents@.len() == n_agents,
        forall|i: int| 0 <= i < n_agents ==> mutex_agent(#[trigger] p.agents@[i], n_agents as nat, i as usize),
        p.rules@ == Seq::<TransitionRule>::empty(),
{
    let mut proto = Protocol::new("MutexProtocol");
    let mut i: usize = 0;
    while i < n_agents
        invariant
            i <= n_agents,
            proto.name@ == "MutexProtocol"@,
            proto.agents@.len() == i,
            forall|k: int| 0 <= k < i ==> mutex_agent(#[trigger] proto.agents@[k], n_agents as nat, k as usize),
            proto.rules@ == Seq::<TransitionRule>::empty(),
        decreases n_agents - i,
    {
        let mut neighbors: Vec<usize> = Vec::new();
        let mut j: usize = 0;
        while j < n_agents
            invariant
                j <= n_agents,
                i < n_agents,
                neighbors@ == all_but(j as nat, i),
            decreases n_agents - j,
        {
            if j != i {
                neighbors.push(j);
            }
            j = j + 1;
        }
        proof {
            reveal_strlit("Agent");
            reveal_strlit("idle");
            reveal_strlit("waiting");
            reveal_strlit("critical");
        }
        let agent = AgentConfig::new(
            i,
            indexed_name("Agent", i).as_str(),
            strings3("idle", "waiting", "critical"),
        ).with_neighbors(neighbors);
        proto.add_agent(agent);
        i = i + 1;
    }
    proof {
        reveal_strlit("MutexProtocol");
    }
    proto
}

/// The successor of node `i` on a ring of `n` nodes.
pub open spec fn ring_next(n: nat, i: nat) -> nat {
    (i + 1) % n
}

/// The predecessor of node `i` on a ring of `n` nodes.
pub open spec fn ring_prev(n: nat, i: nat) -> nat {
    if i == 0 {
        (n - 1) as nat
    } else {
        (i - 1) as nat
    }
}

/// Node `i` of the ring protocol on `n` nodes: named `Node<i>`, with states
/// idle and active, and its predecessor and successor as neighbours.
pub open spec fn ring_agent(a: AgentConfig, n: nat, i: usize) -> bool {
    &&& a.id == i
    &&& a.name@ == "Node"@ + decimal(i as nat)
    &&& string_views(a.local_states@) == seq!["idle"@, "active"@]
    &&& a.neighbors@ == seq![ring_prev(n, i as nat) as usize, ring_next(n, i as nat) as usize]
}

/// Build a deadlock-free protocol (ring topology, always makes progress).
pub fn deadlock_free_ring(n: usize) -> (p: Protocol)
    ensures
        p.name@ == "DeadlockFreeRing"@,
        p.agents@.len() == n,
        forall|i: int| 0 <= i < n ==> ring_agent(#[trigger] p.agents@[i], n as nat, i as usize),
        p.rules@ == Seq::<TransitionRule>::empty(),
{
    let mut proto = Protocol::new("DeadlockFreeRing");
    let mut i: usize = 0;
    while i < n
        invariant
            i <= n,
            proto.name@ == "DeadlockFreeRing"@,
            proto.agents@.len() == i,
            forall|k: int| 0 <= k < i ==> ring_agent(#[trigger] proto.agents@[k], n as nat, k as usize),
            proto.rules@ == Seq::<TransitionRule>::empty(),
        decreases n - i,
    {
        let next = (i + 1) % n;
        let prev = if i == 0 {
            n - 1
        } else {
            i - 1
        };
        let mut neighbors: Vec<usize> = Vec::new();
        neighbors.push(prev);
        neighbors.push(next);
        proof {
            reveal_strlit("Node");
            reveal_strlit("idle");
            reveal_strlit("active");
            assert(neighbors@ =~= seq![ring_prev(n as nat, i as nat) as usize, ring_next(n as nat, i as nat) as usize]);
        }
        let agent = AgentConfig::new(i, indexed_name("Node", i).as_str(), strings2("idle", "active")).with_neighbors(
            neighbors,
        );
        proto.add_agent(agent);
        i = i + 1;
    }
    proof {
        reveal_strlit("DeadlockFreeRing");
    }
    proto
}

/// Node `i` of the circular-wait protocol on `n` nodes: named `Node<i>`,
/// with states idle, waiting and held, and its successor as neighbour.
pub open spec fn circular_agent(a: AgentConfig, n: nat, i: usize) -> bool {
    &&& a.id == i
    &&& a.name@ == "Node"@ + decimal(i as nat)
    &&& string_views(a.local_states@) == seq!["idle"@, "waiting"@, "held"@]
    &&& a.neighbors@ == seq![ring_next(n, i as nat) as usize]
}

/// The two rules of node `i` in the circular-wait protocol: from idle it
/// starts waiting, and from waiting it takes the resource once its
/// successor is idle.
pub open spec fn circular_rules(r0: TransitionRule, r1: TransitionRule, n: nat, i: usize) -> bool {
    &&& r0.agent == i && r0.from_state == 0 && r0.to_state == 1 && r0.guards@ == Seq::<(usize, usize)>::empty()
    &&& r1.agent == i && r1.from_state == 1 && r1.to_state == 2 && r1.guards@ == seq![(ring_next(n, i as nat) as usize, 0usize)]
}

/// Build a protocol with a known deadlock (circular wait).
pub fn circular_wait_deadlock(n: usize) -> (p: Protocol)
    ensures
        p.name@ == "CircularWait"@,
        p.agents@.len() == n,
        forall|i: int| 0 <= i < n ==> circular_agent(#[trigger] p.agents@[i], n as nat, i as usize),
        p.rules@.len() == 2 * n,
        forall|i: int| 0 <= i < n ==> circular_rules(#[trigger] p.rules@[2 * i], p.rules@[2 * i + 1], n as nat, i as usize),
{
    let mut proto = Protocol::new("CircularWait");
    let mut i: usize = 0;
    while i < n
        invariant
            i <= n,
            proto.name@ == "CircularWait"@,
            proto.agents@.len() == i,
            forall|k: int| 0 <= k < i ==> circular_agent(#[trigger] proto.agents@[k], n as nat, k as usize),
            proto.rules@.len() == 2 * i,
            forall|k: int| 0 <= k < i ==> circular_rules(#[trigger] proto.rules@[2 * k], proto.rules@[2 * k + 1], n as nat, k as usize),
        decreases n - i,
    {
        let next = (i + 1) % n;
        let mut neighbors: Vec<usize> = Vec::new();
        neighbors.push(next);
        proof {
            reveal_strlit("Node");
            reveal_strlit("idle");
            reveal_strlit("waiting");
            reveal_strlit("held");
            assert(neighbors@ =~= seq![ring_next(n as nat, i as nat) as usize]);
        }
        let agent = AgentConfig::new(
            i,
            indexed_name("Node", i).as_str(),
            strings3("idle", "waiting", "held"),
        ).with_neighbors(neighbors);
        proto.add_agent(agent);
        let ghost rules0 = proto.rules@;
        proto.add_rule(TransitionRule { agent: i, from_state: 0, to_state: 1, guards: Vec::new() });
        let mut guards: Vec<(usize, usize)> = Vec::new();
        guards.push((next, 0));
        assert(guards@ =~= seq![(ring_next(n as nat, i as nat) as usize, 0usize)]);
        proto.add_rule(TransitionRule { agent: i, from_state: 1, to_state: 2, guards });
        proof {
            assert forall|k: int| 0 <= k < i + 1 implies circular_rules(#[trigger] proto.rules@[2 * k], proto.rules@[2 * k + 1], n as nat, k as usize) by {
                if k < i {
                    assert(proto.rules@[2 * k] == rules0[2 * k]);
                    assert(proto.rules@[2 * k + 1] == rules0[2 * k + 1]);
                }
            }
        }
        i = i + 1;
    }
    proof {
        reveal_strlit("CircularWait");
    }
    proto
}

/// The edges `(agent, neighbour)` of a list of agents, agent after agent,
/// each in the order of its neighbour list.
pub open spec fn agent_edges(agents: Seq<AgentConfig>) -> Seq<(usize, usize)>
    decreases agents.len(),
{
    if agents.len() == 0 {
        Seq::empty()
    } else {
        agent_edges(agents.drop_last()) + agents.last().neighbors@.map_values(
            |b: usize| (agents.last().id, b),
        )
    }
}

/// The links `(a, b)` with `a < b` from agent `a` to its neighbour `b`,
/// agent after agent.
pub open spec fn agent_links(agents: Seq<AgentConfig>) -> Seq<(usize, usize)>
    decreases agents.len(),
{
    if agents.len() == 0 {
        Seq::empty()
    } else {
        agent_links(agents.drop_last()) + forward_pairs(agents.last().id, agents.last().neighbors@)
    }
}

impl Protocol {
    /// The configuration space of the protocol: one point per agent, the
    /// universe as its open set, and an edge from each agent to each of its
    /// neighbours, recorded agent after agent.
    pub fn configuration_space(&self) -> (space: SheafSpace)
        ensures
            space.n_points == self.agents@.len(),
            space.open_sets@.len() == 1,
            space.open_sets@[0].name@ == "U"@,
            space.open_sets@[0].points@ == range_points(self.agents@.len()),
            space.adjacency_model() == with_edges(isolated_points(self.agents@.len()), agent_edges(self.agents@)),
    {
        let n = self.agents.len();
        let mut space = SheafSpace::new(n);
        let ghost base = isolated_points(n as nat);
        let mut i: usize = 0;
        while i < n
            invariant
                n == self.agents@.len(),
                base == isolated_points(n as nat),
                i <= n,
                space.n_points == n,
                space.open_sets@.len() == 1,
                space.open_sets@[0].name@ == "U"@,
                space.open_sets@[0].points@ == range_points(n as nat),
                space.adjacency_model() == with_edges(base, agent_edges(self.agents@.take(i as int))),
            decreases n - i,
        {
            let agent = &self.agents[i];
            let ghost done = agent_edges(self.agents@.take(i as int));
            let mut j: usize = 0;
            while j < agent.neighbors.len()
                invariant
                    base == isolated_points(n as nat),
                    j <= agent.neighbors@.len(),
                    space.n_points == n,
                    space.open_sets@.len() == 1,
                    space.open_sets@[0].name@ == "U"@,
                    space.open_sets@[0].points@ == range_points(n as nat),
                    space.adjacency_model() == with_edges(
                        base,
                        done + agent.neighbors@.take(j as int).map_values(|b: usize| (agent.id, b)),
                    ),
                decreases agent.neighbors@.len() - j,
            {
                let b = agent.neighbors[j];
                space.add_edge(agent.id, b);
                proof {
                    let before = done + agent.neighbors@.take(j as int).map_values(|x: usize| (agent.id, x));
                    let after = done + agent.neighbors@.take(j + 1).map_values(|x: usize| (agent.id, x));
                    assert(after =~= before.push((agent.id, b)));
                    assert(after.drop_last() =~= before);
                }
                j = j + 1;
            }
            proof {
                assert(agent.neighbors@.take(agent.neighbors@.len() as int) =~= agent.neighbors@);
                let t = self.agents@.take(i + 1);
                assert(t.drop_last() =~= self.agents@.take(i as int));
                assert(t.last() == *agent);
            }
            i = i + 1;
        }
        assert(self.agents@.take(n as int) =~= self.agents@);
        space
    }

    /// The open sets of the protocol sheaf, in the order in which they are
    /// built: one per agent (named `U<id>`, holding its point), the universe,
    /// then one per link from an agent to a neighbour with a larger index
    /// (named `U<a>∩U<b>`, holding both points).
    pub fn open_cover(&self) -> (cover: Vec<OpenSet>)
        ensures
            cover@.len() == self.agents@.len() + 1 + agent_links(self.agents@).len(),
            forall|i: int| 0 <= i < self.agents@.len() ==> {
                &&& (#[trigger] cover@[i]).name@ == point_set_name(self.agents@[i].id)
                &&& cover@[i].points@ == seq![self.agents@[i].id]
            },
            cover@[self.agents@.len() as int].name@ == "U"@,
            cover@[self.agents@.len() as int].points@ == range_points(self.agents@.len()),
            forall|t: int| 0 <= t < agent_links(self.agents@).len() ==> {
                let l = agent_links(self.agents@)[t];
                &&& (#[trigger] cover@[self.agents@.len() + 1 + t]).name@ == pair_set_name(l.0, l.1)
                &&& cover@[self.agents@.len() + 1 + t].points@ == seq![l.0, l.1]
            },
    {
        let n = self.agents.len();
        let mut cover: Vec<OpenSet> = Vec::new();
        let mut i: usize = 0;
        while i < n
            invariant
                n == self.agents@.len(),
                i <= n,
                cover@.len() == i,
                forall|k: int| 0 <= k < i ==> {
                    &&& (#[trigger] cover@[k]).name@ == point_set_name(self.agents@[k].id)
                    &&& cover@[k].points@ == seq![self.agents@[k].id]
                },
            decreases n - i,
        {
            cover.push(OpenSet::point(self.agents[i].id));
            i = i + 1;
        }
        cover.push(OpenSet::universe(n));
        let ghost links0 = cover@;
        let mut i: usize = 0;
        while i < n
            invariant
                n == self.agents@.len(),
                i <= n,
                cover@.len() == n + 1 + agent_links(self.agents@.take(i as int)).len(),
                forall|k: int| 0 <= k < n ==> {
                    &&& (#[trigger] cover@[k]).name@ == point_set_name(self.agents@[k].id)
                    &&& cover@[k].points@ == seq![self.agents@[k].id]
                },
                cover@[n as int].name@ == "U"@,
                cover@[n as int].points@ == range_points(n as nat),
                forall|t: int| 0 <= t < agent_links(self.agents@.take(i as int)).len() ==> {
                    let l = agent_links(self.agents@.take(i as int))[t];
                    &&& (#[trigger] cover@[n + 1 + t]).name@ == pair_set_name(l.0, l.1)
                    &&& cover@[n + 1 + t].points@ == seq![l.0, l.1]
                },
            decreases n - i,
        {
            let agent = &self.agents[i];
            let ghost done = agent_links(self.agents@.take(i as int));
            let mut j: usize = 0;
            while j < agent.neighbors.len()
                invariant
                    j <= agent.neighbors@.len(),
                    cover@.len() == n + 1 + done.len() + forward_pairs(agent.id, agent.neighbors@.take(j as int)).len(),
                    forall|k: int| 0 <= k < n ==> {
                        &&& (#[trigger] cover@[k]).name@ == point_set_name(self.agents@[k].id)
                        &&& cover@[k].points@ == seq![self.agents@[k].id]
                    },
                    cover@[n as int].name@ == "U"@,
                    cover@[n as int].points@ == range_points(n as nat),
                    forall|t: int| 0 <= t < (done + forward_pairs(agent.id, agent.neighbors@.take(j as int))).len() ==> {
                        let l = (done + forward_pairs(agent.id, agent.neighbors@.take(j as int)))[t];
                        &&& (#[trigger] cover@[n + 1 + t]).name@ == pair_set_name(l.0, l.1)
                        &&& cover@[n + 1 + t].points@ == seq![l.0, l.1]
                    },
                decreases agent.neighbors@.len() - j,
            {
                let b = agent.neighbors[j];
                let ghost before = done + forward_pairs(agent.id, agent.neighbors@.take(j as int));
                proof {
                    let tk = agent.neighbors@.take(j + 1);
                    assert(tk.drop_last() =~= agent.neighbors@.take(j as int));
                    assert(tk.last() == b);
                }
                if agent.id < b {
                    let ghost cover0 = cover@;
                    cover.push(OpenSet::pair(agent.id, b));
                    proof {
                        let after = done + forward_pairs(agent.id, agent.neighbors@.take(j + 1));
                        assert(after =~= before.push((agent.id, b)));
                        assert forall|t: int| 0 <= t < after.len() implies {
                            let l = after[t];
                            &&& (#[trigger] cover@[n + 1 + t]).name@ == pair_set_name(l.0, l.1)
                            &&& cover@[n + 1 + t].points@ == seq![l.0, l.1]
                        } by {
                            if t < before.len() {
                                assert(cover@[n + 1 + t] == cover0[n + 1 + t]);
                            }
                        }
                        assert forall|k: int| 0 <= k < n implies {
                            &&& (#[trigger] cover@[k]).name@ == point_set_name(self.agents@[k].id)
                            &&& cover@[k].points@ == seq![self.agents@[k].id]
                        } by {
                            assert(cover@[k] == cover0[k]);
                        }
                        assert(cover@[n as int] == cover0[n as int]);
                    }
                } else {
                    assert(done + forward_pairs(agent.id, agent.neighbors@.take(j + 1)) =~= before);
                }
                j = j + 1;
            }
            proof {
                assert(agent.neighbors@.take(agent.neighbors@.len() as int) =~= agent.neighbors@);
                let t = self.agents@.take(i + 1);
                assert(t.drop_last() =~= self.agents@.take(i as int));
                assert(t.last() == *agent);
            }
            i = i + 1;
        }
        assert(self.agents@.take(n as int) =~= self.agents@);
        cover
    }
}

} // verus!
