//! Laws that relate several operations of the library, stated over the same
//! spec functions as the operations' own contracts.
use vstd::prelude::*;

use crate::automata::{dfa_run, lemma_nfa_run_push, nfa_run, nfa_step, subset_construction, Dfa, Nfa};
use crate::cochain::{listed_dims, pair_sets_dim, points_dim, total};
use crate::protocol::{total_states, AgentConfig};
use crate::sheaf::{OpenSet, Stalk};
use crate::sorted::{lex_lt, strictly_increasing};
use crate::protocol::{all_but, ring_next, ring_prev};
use crate::sheaf::{
    adjacent, is_intersection, is_nerve, is_union, isolated_points, vertex_simplices, with_edge,
    with_edges, SheafSpace,
};
use crate::sorted::lemma_strictly_increasing_unique;

verus! {

/// The intersection of two open sets does not depend on their order.
pub proof fn lemma_intersection_commutative(a: Seq<usize>, b: Seq<usize>, ab: Seq<usize>, ba: Seq<usize>)
    requires
        is_intersection(a, b, ab),
        is_intersection(b, a, ba),
    ensures
        ab == ba,
{
    assert(ab.to_set() =~= ba.to_set());
    lemma_strictly_increasing_unique(ab, ba);
}

/// The union of two open sets does not depend on their order.
pub proof fn lemma_union_commutative(a: Seq<usize>, b: Seq<usize>, ab: Seq<usize>, ba: Seq<usize>)
    requires
        is_union(a, b, ab),
        is_union(b, a, ba),
    ensures
        ab == ba,
{
    assert(ab.to_set() =~= ba.to_set());
    lemma_strictly_increasing_unique(ab, ba);
}

/// An open set met or joined with itself gives the same points: its own,
/// sorted and without repetition.
pub proof fn lemma_self_intersection_is_self_union(a: Seq<usize>, aa: Seq<usize>, a_or_a: Seq<usize>)
    requires
        is_intersection(a, a, aa),
        is_union(a, a, a_or_a),
    ensures
        aa == a_or_a,
        aa.to_set() == a.to_set(),
{
    assert(aa.to_set() =~= a_or_a.to_set());
    assert(aa.to_set() =~= a.to_set());
    lemma_strictly_increasing_unique(aa, a_or_a);
}

/// A point lies in the intersection exactly when it lies in both sets, and
/// in the union exactly when it lies in either.
pub proof fn lemma_membership(a: Seq<usize>, b: Seq<usize>, ab: Seq<usize>, a_or_b: Seq<usize>, p: usize)
    requires
        is_intersection(a, b, ab),
        is_union(a, b, a_or_b),
    ensures
        ab.contains(p) <==> a.contains(p) && b.contains(p),
        a_or_b.contains(p) <==> a.contains(p) || b.contains(p),
{
    assert(ab.to_set().contains(p) == ab.contains(p));
    assert(a.to_set().contains(p) == a.contains(p));
    assert(b.to_set().contains(p) == b.contains(p));
    assert(a_or_b.to_set().contains(p) == a_or_b.contains(p));
}

/// Recording an edge keeps the adjacency symmetric.
pub proof fn lemma_with_edge_symmetric(m: Map<usize, Seq<usize>>, a: usize, b: usize)
    requires
        forall|x: usize, y: usize| adjacent(m, x, y) ==> adjacent(m, y, x),
    ensures
        forall|x: usize, y: usize| adjacent(with_edge(m, a, b), x, y) ==> adjacent(with_edge(m, a, b), y, x),
{
    let m2 = with_edge(m, a, b);
    assert forall|x: usize, y: usize| adjacent(m2, x, y) implies adjacent(m2, y, x) by {
        let m1 = m.insert(a, crate::sheaf::neighbors_in(m, a).push(b));
        if (x == a && y == b) || (x == b && y == a) {
            assert(m2[b].contains(a)) by {
                assert(m2[b][m2[b].len() - 1] == a);
            }
            assert(m1[a].contains(b)) by {
                assert(m1[a][m1[a].len() - 1] == b);
            }
            if a != b {
                assert(m2[a] == m1[a]);
            }
        } else {
            // The lists of x and y gained nothing that matters here.
            assert(adjacent(m, x, y)) by {
                if x == a || x == b {
                    let k = choose|k: int| 0 <= k < m2[x].len() && m2[x][k] == y;
                    if x == b {
                        assert(k < m1[x].len() || m2[x][k] == a);
                        if x == a {
                            assert(k < m[x].len() || m1[x][k] == b);
                        } else {
                            assert(m1[x][k] == y);
                        }
                    } else {
                        assert(m2[x] == m1[x]);
                        assert(k < m[x].len() || m1[x][k] == b);
                        assert(m[x][k] == y);
                    }
                } else {
                    assert(m2[x] == m[x]);
                }
            }
            assert(adjacent(m2, y, x)) by {
                if y == a || y == b {
                    let k = choose|k: int| 0 <= k < m[y].len() && m[y][k] == x;
                    if y == b {
                        if y == a {
                            assert(m2[y][k] == x);
                        } else {
                            assert(m1[y] == m[y]);
                            assert(m2[y][k] == x);
                        }
                    } else {
                        assert(m2[y] == m1[y]);
                        assert(m1[y][k] == x);
                    }
                } else {
                    assert(m2[y] == m[y]);
                }
            }
        }
    }
}

/// The adjacency of a space built from a list of edges is symmetric: each
/// point is a neighbour of its neighbours.
pub proof fn lemma_edges_symmetric(n: nat, edges: Seq<(usize, usize)>)
    ensures
        forall|x: usize, y: usize|
            adjacent(with_edges(isolated_points(n), edges), x, y) ==> adjacent(
                with_edges(isolated_points(n), edges),
                y,
                x,
            ),
    decreases edges.len(),
{
    if edges.len() == 0 {
        assert forall|x: usize, y: usize| adjacent(isolated_points(n), x, y) implies adjacent(
            isolated_points(n),
            y,
            x,
        ) by {
            assert(isolated_points(n)[x].len() == 0);
        }
    } else {
        lemma_edges_symmetric(n, edges.drop_last());
        lemma_with_edge_symmetric(
            with_edges(isolated_points(n), edges.drop_last()),
            edges.last().0,
            edges.last().1,
        );
    }
}

/// The nerve holds each vertex of the space, so it has at least as many
/// simplices as the space has points.
pub proof fn lemma_nerve_has_vertices(space: SheafSpace, r: Seq<Seq<usize>>)
    requires
        is_nerve(space, r),
    ensures
        forall|i: usize| i < space.n_points ==> r.contains(seq![i]),
        r.len() >= space.n_points,
{
    let n = space.n_points as nat;
    let verts = vertex_simplices(n);
    assert forall|i: usize| i < space.n_points implies r.contains(seq![i]) by {
        assert(verts.contains(seq![i]));
        assert(r.to_set().contains(seq![i]));
    }
    // The vertices are the images of the points 0 .. n, one each.
    let pts = Set::new(|i: usize| i < n);
    let f = |i: usize| seq![i];
    assert(pts =~= Set::<usize>::range(0, space.n_points)) by {
        broadcast use vstd::set_lib::range_set_properties;
    }
    assert(pts.finite() && pts.len() == n) by {
        broadcast use vstd::set_lib::range_set_properties;
        <usize as vstd::set_lib::FiniteRange>::range_properties(0, space.n_points);
    }
    assert(verts =~= pts.map(f)) by {
        assert forall|s: Seq<usize>| verts.contains(s) implies pts.map(f).contains(s) by {
            assert(s =~= f(s[0]));
            assert(pts.contains(s[0]));
        }
    }
    assert(vstd::relations::injective_on(f, pts)) by {
        assert forall|x: usize, y: usize| pts.contains(x) && pts.contains(y) && #[trigger] f(x) == #[trigger] f(y) implies x == y by {
            assert(f(x)[0] == x);
        }
    }
    vstd::set_lib::lemma_map_size(pts, pts.map(f), f);
    assert(verts.subset_of(r.to_set()));
    r.lemma_cardinality_of_set();
    vstd::set_lib::lemma_len_subset(verts, r.to_set());
}

/// Running a DFA on `u` followed by `v` runs it on `u`, then on `v` from
/// where it stopped; a run stuck on `u` stays stuck.
pub proof fn lemma_dfa_run_concat(trans: Map<(usize, usize), usize>, q: usize, u: Seq<usize>, v: Seq<usize>)
    ensures
        dfa_run(trans, q, u + v) == match dfa_run(trans, q, u) {
            Some(p) => dfa_run(trans, p, v),
            None => None,
        },
    decreases u.len(),
{
    if u.len() == 0 {
        assert(u + v =~= v);
    } else {
        assert((u + v)[0] == u[0]);
        assert((u + v).drop_first() =~= u.drop_first() + v);
        if trans.contains_key((q, u[0])) {
            lemma_dfa_run_concat(trans, trans[(q, u[0])], u.drop_first(), v);
        }
    }
}

/// Running an NFA on `u` followed by `v` runs it on `v` from the states
/// reached on `u`.
pub proof fn lemma_nfa_run_concat(m: Map<(usize, usize), Set<usize>>, s: Set<usize>, u: Seq<usize>, v: Seq<usize>)
    ensures
        nfa_run(m, s, u + v) == nfa_run(m, nfa_run(m, s, u), v),
    decreases u.len(),
{
    if u.len() == 0 {
        assert(u + v =~= v);
    } else {
        assert((u + v)[0] == u[0]);
        assert((u + v).drop_first() =~= u.drop_first() + v);
        lemma_nfa_run_concat(m, nfa_step(m, s, u[0]), u.drop_first(), v);
    }
}

/// On a ring, each node is a neighbour of its neighbours.
pub proof fn lemma_ring_symmetric(n: nat, i: nat, j: nat)
    requires
        i < n,
        j < n,
    ensures
        (ring_prev(n, i) == j || ring_next(n, i) == j) <==> (ring_prev(n, j) == i || ring_next(n, j) == i),
{
    assert(ring_next(n, i) == if i + 1 == n { 0 } else { i + 1 }) by {
        if i + 1 == n {
            vstd::arithmetic::div_mod::lemma_mod_self_0(n as int);
        } else {
            vstd::arithmetic::div_mod::lemma_small_mod((i + 1) as nat, n);
        }
    }
    assert(ring_next(n, j) == if j + 1 == n { 0 } else { j + 1 }) by {
        if j + 1 == n {
            vstd::arithmetic::div_mod::lemma_mod_self_0(n as int);
        } else {
            vstd::arithmetic::div_mod::lemma_small_mod((j + 1) as nat, n);
        }
    }
}

/// In the mutual-exclusion protocol every agent neighbours every other
/// agent and only those.
pub proof fn lemma_mutex_complete(n: nat, i: usize, j: usize)
    requires
        i < n,
        n <= usize::MAX,
    ensures
        all_but(n, i).contains(j) <==> (j < n && j != i),
        all_but(n, i).len() == n - 1,
    decreases n,
{
    let s = all_but(n, i);
    if n > 0 {
        let k = (n - 1) as usize;
        let prev = all_but((n - 1) as nat, i);
        if k != i {
            lemma_mutex_complete((n - 1) as nat, i, j);
            if j == k {
                assert(s[s.len() - 1] == j);
            } else if s.contains(j) {
                let t = choose|t: int| 0 <= t < s.len() && s[t] == j;
                assert(prev[t] == j);
            } else if prev.contains(j) {
                let t = choose|t: int| 0 <= t < prev.len() && prev[t] == j;
                assert(s[t] == j);
            }
        } else {
            // i is the last point, so the earlier points are all the others.
            lemma_all_but_below((n - 1) as nat, i);
            assert(j < n - 1 ==> prev.contains(j)) by {
                if j < n - 1 {
                    lemma_all_but_index((n - 1) as nat, i, j);
                }
            }
        }
    }
}

/// Below `i`, the points other than `i` are all the points, in order.
proof fn lemma_all_but_below(n: nat, i: usize)
    requires
        n <= i,
    ensures
        all_but(n, i).len() == n,
        forall|t: int| 0 <= t < n ==> #[trigger] all_but(n, i)[t] == t,
    decreases n,
{
    if n > 0 {
        lemma_all_but_below((n - 1) as nat, i);
    }
}

/// Below `i`, every point is among the points other than `i`.
proof fn lemma_all_but_index(n: nat, i: usize, j: usize)
    requires
        n <= i,
        j < n,
    ensures
        all_but(n, i).contains(j),
{
    lemma_all_but_below(n, i);
    assert(all_but(n, i)[j as int] == j);
}

/// An NFA accepts a word exactly when some state reachable on it is marked
/// accepting.
pub proof fn lemma_nfa_accepts_iff_reached_state_accepting(nfa: Nfa, word: Seq<usize>)
    ensures
        nfa.accepts_word(word) <==> exists|s: usize|
            #[trigger] nfa.reachable_on(word).contains(s) && s < nfa.accepting@.len() && nfa.accepting@[s as int],
{
}

/// On the empty word an NFA reaches its initial state alone; one more
/// symbol reaches exactly the targets of the transitions on it from the
/// states reached so far.
pub proof fn lemma_nfa_reachable_by_transitions(nfa: Nfa, w: Seq<usize>, a: usize, t: usize)
    ensures
        nfa.reachable_on(Seq::empty()) == set![nfa.initial],
        nfa.reachable_on(w.push(a)).contains(t) <==> exists|s: usize|
            #[trigger] nfa.reachable_on(w).contains(s) && nfa.transitions@.contains_key((s, a))
                && nfa.transitions@[(s, a)]@.contains(t),
{
    let m = nfa.transition_sets();
    lemma_nfa_run_push(m, set![nfa.initial], w, a);
    let before = nfa.reachable_on(w);
    assert(nfa.reachable_on(w.push(a)) == nfa_step(m, before, a));
    if nfa.reachable_on(w.push(a)).contains(t) {
        let s = choose|s: usize| before.contains(s) && crate::automata::targets(m, s, a).contains(t);
        assert(nfa.transitions@.contains_key((s, a)));
    }
    if exists|s: usize| #[trigger] before.contains(s) && nfa.transitions@.contains_key((s, a)) && nfa.transitions@[(s, a)]@.contains(t) {
        let s = choose|s: usize| #[trigger] before.contains(s) && nfa.transitions@.contains_key((s, a)) && nfa.transitions@[(s, a)]@.contains(t);
        assert(crate::automata::targets(m, s, a).contains(t));
        assert(nfa_step(m, before, a).contains(t));
    }
}

/// A state of the subset construction is accepting exactly when some NFA
/// state of its set is marked accepting.
pub proof fn lemma_subset_state_accepting_iff_member_accepting(nfa: Nfa, dfa: Dfa, subsets: Seq<Seq<usize>>, i: int)
    requires
        subset_construction(nfa, dfa, subsets),
        0 <= i < subsets.len(),
    ensures
        dfa.accepting@[i] <==> exists|s: usize|
            #[trigger] subsets[i].contains(s) && s < nfa.accepting@.len() && nfa.accepting@[s as int],
{
    assert(dfa.accepting@[i] == crate::automata::any_accepting(nfa.accepting@, subsets[i].to_set()));
    if dfa.accepting@[i] {
        let s = choose|s: usize| subsets[i].to_set().contains(s) && crate::automata::is_accepting(nfa.accepting@, s);
        assert(subsets[i].contains(s));
    } else {
        assert forall|s: usize| #[trigger] subsets[i].contains(s) implies !(s < nfa.accepting@.len() && nfa.accepting@[s as int]) by {
            assert(subsets[i].to_set().contains(s));
        }
    }
}

/// The points below `n` that carry a stalk, in increasing order.
spec fn points_with_stalks(stalks: Map<usize, Stalk>, n: nat) -> Seq<usize>
    decreases n,
{
    if n == 0 {
        Seq::empty()
    } else {
        let rest = points_with_stalks(stalks, (n - 1) as nat);
        if stalks.contains_key((n - 1) as usize) {
            rest.push((n - 1) as usize)
        } else {
            rest
        }
    }
}

/// The stalk dimensions listed for the points below `n` are those of every
/// point below `n` that carries a stalk, one per such point, in increasing
/// order of the points.
pub proof fn lemma_stalk_dimensions_list_every_stalk(stalks: Map<usize, Stalk>, n: nat, dims: Seq<usize>)
    requires
        dims == listed_dims(stalks, n),
        n <= usize::MAX + 1,
    ensures
        exists|pts: Seq<usize>|
            {
                &&& strictly_increasing(pts)
                &&& forall|p: usize| #[trigger] pts.contains(p) <==> p < n && stalks.contains_key(p)
                &&& dims.len() == pts.len()
                &&& forall|i: int| 0 <= i < dims.len() ==> #[trigger] dims[i] == stalks[pts[i]].spec_dimension() as usize
            },
{
    lemma_points_with_stalks(stalks, n);
    let pts = points_with_stalks(stalks, n);
    assert(dims.len() == pts.len());
}

/// The points with stalks, and the dimensions listed for them, match.
proof fn lemma_points_with_stalks(stalks: Map<usize, Stalk>, n: nat)
    requires
        n <= usize::MAX + 1,
    ensures
        strictly_increasing(points_with_stalks(stalks, n)),
        forall|p: usize| #[trigger] points_with_stalks(stalks, n).contains(p) <==> p < n && stalks.contains_key(p),
        listed_dims(stalks, n).len() == points_with_stalks(stalks, n).len(),
        forall|i: int| 0 <= i < listed_dims(stalks, n).len() ==> #[trigger] listed_dims(stalks, n)[i] == stalks[points_with_stalks(stalks, n)[i]].spec_dimension() as usize,
    decreases n,
{
    if n > 0 {
        let m = (n - 1) as nat;
        lemma_points_with_stalks(stalks, m);
        let rest = points_with_stalks(stalks, m);
        let q = (n - 1) as usize;
        let pts = points_with_stalks(stalks, n);
        let dims = listed_dims(stalks, n);
        let drest = listed_dims(stalks, m);
        if stalks.contains_key(q) {
            assert(pts == rest.push(q));
            assert forall|i: int, j: int| 0 <= i < j < pts.len() implies pts[i] < pts[j] by {
                if j == pts.len() - 1 {
                    assert(rest.contains(pts[i]));
                } else {
                    assert(pts[i] == rest[i] && pts[j] == rest[j]);
                }
            }
            assert forall|p: usize| #[trigger] pts.contains(p) <==> p < n && stalks.contains_key(p) by {
                if pts.contains(p) && p != q {
                    let i = choose|i: int| 0 <= i < pts.len() && pts[i] == p;
                    assert(rest.contains(p)) by {
                        assert(rest[i] == p);
                    }
                }
                if p < n && stalks.contains_key(p) && p != q {
                    assert(rest.contains(p));
                    let i = choose|i: int| 0 <= i < rest.len() && rest[i] == p;
                    assert(pts[i] == p);
                }
                if p == q {
                    assert(pts[pts.len() - 1] == q);
                }
            }
            assert forall|i: int| 0 <= i < dims.len() implies #[trigger] dims[i] == stalks[pts[i]].spec_dimension() as usize by {
                if i < drest.len() {
                    assert(dims[i] == drest[i]);
                    assert(pts[i] == rest[i]);
                }
            }
        } else {
            assert(pts == rest);
            assert forall|p: usize| #[trigger] pts.contains(p) <==> p < n && stalks.contains_key(p) by {
                if p < n && stalks.contains_key(p) {
                    assert(p != q);
                }
            }
        }
    }
}

/// A custom stalk has its declared dimension, whatever its data.
pub proof fn lemma_custom_stalk_dimension_is_declared(data: Vec<u8>, dimension: usize)
    ensures
        (Stalk::Custom { data, dimension }).spec_dimension() == dimension,
{
}

/// A vector-space stalk has its own dimension; a label set has one
/// dimension per label; an automaton stalk one per state.
pub proof fn lemma_stalk_dimension_counts(dimension: usize, labels: Vec<String>, states: Vec<usize>, accepting: Vec<bool>)
    ensures
        (Stalk::VectorSpace { dimension }).spec_dimension() == dimension,
        (Stalk::LabelSet { labels }).spec_dimension() == labels@.len(),
        (Stalk::AutomatonState { states, accepting }).spec_dimension() == states@.len(),
{
}

/// The configuration dimension adds up over agents: a protocol with no
/// agents has none, and each agent added contributes exactly its number of
/// local states.
pub proof fn lemma_config_dim_additive(agents: Seq<AgentConfig>, agent: AgentConfig)
    ensures
        total_states(Seq::<AgentConfig>::empty()) == 0,
        total_states(agents.push(agent)) == total_states(agents) + agent.local_states@.len(),
{
    assert(agents.push(agent).drop_last() =~= agents);
}

/// Point lists are ordered as `Vec<usize>` orders them: by the first
/// position where they differ, compared as numbers, a proper prefix first.
pub proof fn lemma_lex_order_is_numeric(a: Seq<usize>, b: Seq<usize>)
    ensures
        lex_lt(a, b) <==> (exists|i: int| #[trigger] first_lower_at(a, b, i)) || proper_prefix(a, b),
    decreases a.len(),
{
    if a.len() == 0 {
        assert(b.take(0) =~= a);
    } else if b.len() == 0 {
    } else if a[0] < b[0] {
        assert(a.take(0) =~= b.take(0));
        assert(first_lower_at(a, b, 0));
    } else if a[0] > b[0] {
        assert forall|i: int| !#[trigger] first_lower_at(a, b, i) by {
            if first_lower_at(a, b, i) && i > 0 {
                assert(a.take(i)[0] == b.take(i)[0]);
            }
        }
        if proper_prefix(a, b) {
            assert(b.take(a.len() as int)[0] == a[0]);
        }
    } else {
        let a1 = a.drop_first();
        let b1 = b.drop_first();
        lemma_lex_order_is_numeric(a1, b1);
        if exists|i: int| #[trigger] first_lower_at(a1, b1, i) {
            let i = choose|i: int| #[trigger] first_lower_at(a1, b1, i);
            assert(a.take(i + 1) =~= seq![a[0]] + a1.take(i));
            assert(b.take(i + 1) =~= seq![b[0]] + b1.take(i));
            assert(first_lower_at(a, b, i + 1));
        }
        if proper_prefix(a1, b1) {
            assert(b.take(a.len() as int) =~= seq![b[0]] + b1.take(a1.len() as int));
            assert(a =~= seq![a[0]] + a1);
        }
        if exists|i: int| #[trigger] first_lower_at(a, b, i) {
            let i = choose|i: int| #[trigger] first_lower_at(a, b, i);
            assert(i != 0);
            assert(a1.take(i - 1) =~= a.take(i).drop_first());
            assert(b1.take(i - 1) =~= b.take(i).drop_first());
            assert(first_lower_at(a1, b1, i - 1));
        }
        if proper_prefix(a, b) {
            assert(b1.take(a1.len() as int) =~= b.take(a.len() as int).drop_first());
            assert(proper_prefix(a1, b1));
        }
    }
}

/// `a` and `b` agree before position `i`, where `a` holds the smaller number.
pub open spec fn first_lower_at(a: Seq<usize>, b: Seq<usize>, i: int) -> bool {
    0 <= i < a.len() && i < b.len() && a.take(i) == b.take(i) && a[i] < b[i]
}

/// `a` is a proper prefix of `b`.
pub open spec fn proper_prefix(a: Seq<usize>, b: Seq<usize>) -> bool {
    a.len() < b.len() && b.take(a.len() as int) == a
}

/// Single points are ordered as numbers.
pub proof fn lemma_lex_order_of_points(x: usize, y: usize)
    ensures
        lex_lt(seq![x], seq![y]) <==> x < y,
{
    lemma_lex_order_is_numeric(seq![x], seq![y]);
    if x < y {
        assert(first_lower_at(seq![x], seq![y], 0)) by {
            assert(seq![x].take(0) =~= seq![y].take(0));
        }
    }
}

/// The dimension of C⁰ adds up the listed stalk dimensions, one by one.
pub proof fn lemma_total_additive(dims: Seq<usize>, d: usize)
    ensures
        total(Seq::<usize>::empty()) == 0,
        total(dims.push(d)) == total(dims) + d,
{
    assert(dims.push(d).drop_last() =~= dims);
}

/// The dimension over a list of points adds each point's stalk dimension;
/// a point without a stalk adds nothing.
pub proof fn lemma_points_dim_additive(stalks: Map<usize, Stalk>, pts: Seq<usize>, p: usize)
    ensures
        points_dim(stalks, Seq::<usize>::empty()) == 0,
        points_dim(stalks, pts.push(p)) == points_dim(stalks, pts) + if stalks.contains_key(p) {
            stalks[p].spec_dimension()
        } else {
            0
        },
{
    assert(pts.push(p).drop_last() =~= pts);
}

/// The dimension of C¹ adds, for each open set with exactly two points,
/// the stalk dimensions at its points, and nothing for other open sets.
pub proof fn lemma_pair_sets_dim_additive(stalks: Map<usize, Stalk>, sets: Seq<OpenSet>, o: OpenSet)
    ensures
        pair_sets_dim(stalks, Seq::<OpenSet>::empty()) == 0,
        pair_sets_dim(stalks, sets.push(o)) == pair_sets_dim(stalks, sets) + if o.points@.len() == 2 {
            points_dim(stalks, o.points@)
        } else {
            0
        },
{
    assert(sets.push(o).drop_last() =~= sets);
}

} // verus!
