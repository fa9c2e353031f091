//! The base space of a sheaf: open sets, stalks, and the space of points
//! with its adjacency and nerve.
use std::collections::HashMap;
use vstd::std_specs::iter::IteratorSpec;
use vstd::prelude::*;

use crate::sorted::{insert_lex_sorted, insert_sorted, lex_sorted, strictly_increasing, views};
use crate::text::{decimal, push_decimal};


verus! {

/// An open set in the base topology, identified by name.
#[derive(Debug, Clone, PartialEq, Eq, Hash)]
pub struct OpenSet {
    pub name: String,
    /// Indices of points in this open set.
    pub points: Vec<usize>,
}

/// `r` lists, in increasing order, the points common to `a` and `b`.
pub open spec fn is_intersection(a: Seq<usize>, b: Seq<usize>, r: Seq<usize>) -> bool {
    strictly_increasing(r) && r.to_set() == a.to_set().intersect(b.to_set())
}

/// `r` lists, in increasing order, the points of `a` or `b`.
pub open spec fn is_union(a: Seq<usize>, b: Seq<usize>, r: Seq<usize>) -> bool {
    strictly_increasing(r) && r.to_set() == a.to_set().union(b.to_set())
}

/// The points `0, 1, ..., n - 1` in order.
pub open spec fn range_points(n: nat) -> Seq<usize> {
    Seq::new(n, |i: int| i as usize)
}

/// The name of the open set of the single point `i`.
pub open spec fn point_set_name(i: usize) -> Seq<char> {
    "U"@ + decimal(i as nat)
}

/// The name of the open set shared by the points `a` and `b`.
pub open spec fn pair_set_name(a: usize, b: usize) -> Seq<char> {
    "U"@ + decimal(a as nat) + "\u{2229}U"@ + decimal(b as nat)
}

impl OpenSet {
    pub fn new(name: &str, points: Vec<usize>) -> (os: OpenSet)
        ensures
            os.name@ == name@,
            os.points@ == points@,
    {
        OpenSet { name: name.to_owned(), points }
    }

    /// Universe open set containing all points.
    pub fn universe(n: usize) -> (os: OpenSet)
        ensures
            os.name@ == "U"@,
            os.points@ == range_points(n as nat),
    {
        let mut points: Vec<usize> = Vec::new();
        let mut i: usize = 0;
        while i < n
            invariant
                i <= n,
                points@ == range_points(i as nat),
            decreases n - i,
        {
            points.push(i);
            i = i + 1;
            assert(points@ =~= range_points(i as nat));
        }
        OpenSet { name: "U".to_owned(), points }
    }

    /// The open set `U<i>` of the single point `i`.
    pub fn point(i: usize) -> (os: OpenSet)
        ensures
            os.name@ == point_set_name(i),
            os.points@ == seq![i],
    {
        let mut name = String::new();
        proof {
            reveal_strlit("U");
        }
        name.append("U");
        push_decimal(&mut name, i);
        let mut points: Vec<usize> = Vec::new();
        points.push(i);
        assert(points@ =~= seq![i]);
        OpenSet { name, points }
    }

    /// The open set `U<a>∩U<b>` shared by the points `a` and `b`.
    pub fn pair(a: usize, b: usize) -> (os: OpenSet)
        ensures
            os.name@ == pair_set_name(a, b),
            os.points@ == seq![a, b],
    {
        let mut name = String::new();
        proof {
            reveal_strlit("U");
            reveal_strlit("\u{2229}U");
        }
        name.append("U");
        push_decimal(&mut name, a);
        name.append("\u{2229}U");
        push_decimal(&mut name, b);
        let mut points: Vec<usize> = Vec::new();
        points.push(a);
        points.push(b);
        assert(points@ =~= seq![a, b]);
        OpenSet { name, points }
    }

    /// Empty open set.
    pub fn empty() -> (os: OpenSet)
        ensures
            os.name@ == "\u{2205}"@,
            os.points@ == Seq::<usize>::empty(),
    {
        OpenSet { name: "\u{2205}".to_owned(), points: Vec::new() }
    }

    /// Check if this open set contains a point.
    pub fn contains(&self, point: usize) -> (r: bool)
        ensures
            r == self.points@.contains(point),
    {
        let mut i: usize = 0;
        while i < self.points.len()
            invariant
                i <= self.points.len(),
                forall|k: int| 0 <= k < i ==> self.points@[k] != point,
            decreases self.points.len() - i,
        {
            if self.points[i] == point {
                return true;
            }
            i = i + 1;
        }
        false
    }

    /// Intersection of two open sets: the common points, sorted and without
    /// repetition.
    pub fn intersection(&self, other: &OpenSet) -> (os: OpenSet)
        ensures
            os.name@ == self.name@ + "\u{2229}"@ + other.name@,
            is_intersection(self.points@, other.points@, os.points@),
    {
        let mut pts: Vec<usize> = Vec::new();
        let mut i: usize = 0;
        while i < self.points.len()
            invariant
                i <= self.points.len(),
                strictly_increasing(pts@),
                pts@.to_set() == self.points@.take(i as int).to_set().intersect(
                    other.points@.to_set(),
                ),
            decreases self.points.len() - i,
        {
            let p = self.points[i];
            let ghost before = pts@.to_set();
            if other.contains(p) {
                insert_sorted(&mut pts, p);
            }
            proof {
                let a = self.points@.take(i as int);
                let b = self.points@.take(i + 1);
                assert(b =~= a.push(p));
                a.lemma_push_to_set_commute(p);
            }
            i = i + 1;
            assert(pts@.to_set() =~= self.points@.take(i as int).to_set().intersect(
                other.points@.to_set(),
            ));
        }
        assert(self.points@.take(self.points.len() as int) =~= self.points@);
        let mut name = self.name.clone();
        name.append("\u{2229}");
        name.append(other.name.as_str());
        OpenSet { name, points: pts }
    }

    /// Union of two open sets: the points of either, sorted and without
    /// repetition.
    pub fn union(&self, other: &OpenSet) -> (os: OpenSet)
        ensures
            os.name@ == self.name@ + "\u{222a}"@ + other.name@,
            is_union(self.points@, other.points@, os.points@),
    {
        let mut pts: Vec<usize> = Vec::new();
        let mut i: usize = 0;
        while i < self.points.len()
            invariant
                i <= self.points.len(),
                strictly_increasing(pts@),
                pts@.to_set() == self.points@.take(i as int).to_set(),
            decreases self.points.len() - i,
        {
            let p = self.points[i];
            insert_sorted(&mut pts, p);
            proof {
                let a = self.points@.take(i as int);
                let b = self.points@.take(i + 1);
                assert(b =~= a.push(p));
                a.lemma_push_to_set_commute(p);
            }
            i = i + 1;
        }
        assert(self.points@.take(self.points.len() as int) =~= self.points@);
        let mut j: usize = 0;
        while j < other.points.len()
            invariant
                j <= other.points.len(),
                strictly_increasing(pts@),
                pts@.to_set() == self.points@.to_set().union(
                    other.points@.take(j as int).to_set(),
                ),
            decreases other.points.len() - j,
        {
            let p = other.points[j];
            insert_sorted(&mut pts, p);
            proof {
                let a = other.points@.take(j as int);
                let b = other.points@.take(j + 1);
                assert(b =~= a.push(p));
                a.lemma_push_to_set_commute(p);
            }
            j = j + 1;
            assert(pts@.to_set() =~= self.points@.to_set().union(
                other.points@.take(j as int).to_set(),
            ));
        }
        assert(other.points@.take(other.points.len() as int) =~= other.points@);
        let mut name = self.name.clone();
        name.append("\u{222a}");
        name.append(other.name.as_str());
        OpenSet { name, points: pts }
    }
}

/// The pairs `(i, j)` with `i < j < n`, in increasing order of `j`.
pub open spec fn pairs_from(i: nat, n: nat) -> Seq<(usize, usize)> {
    Seq::new(
        if i + 1 < n {
            (n - i - 1) as nat
        } else {
            0
        },
        |k: int| (i as usize, (i + 1 + k) as usize),
    )
}

/// The pairs `(i, j)` with `i < m` and `i < j < n`, in lexicographic order.
pub open spec fn pairs_below(m: nat, n: nat) -> Seq<(usize, usize)>
    decreases m,
{
    if m == 0 {
        Seq::empty()
    } else {
        pairs_below((m - 1) as nat, n) + pairs_from((m - 1) as nat, n)
    }
}

/// The open sets of the constant sheaf on `n` points: the universe, then
/// `U<i>` holding point `i` for each point, then `U<i>∩U<j>` holding both
/// points for each pair `i < j`, in lexicographic order of the pairs.
pub fn constant_cover(n: usize) -> (cover: Vec<OpenSet>)
    ensures
        cover@.len() == 1 + n + pairs_below(n as nat, n as nat).len(),
        cover@[0].name@ == "U"@,
        cover@[0].points@ == range_points(n as nat),
        forall|i: int| 0 <= i < n ==> {
            &&& (#[trigger] cover@[1 + i]).name@ == point_set_name(i as usize)
            &&& cover@[1 + i].points@ == seq![i as usize]
        },
        forall|t: int| 0 <= t < pairs_below(n as nat, n as nat).len() ==> {
            let p = pairs_below(n as nat, n as nat)[t];
            &&& (#[trigger] cover@[1 + n + t]).name@ == pair_set_name(p.0, p.1)
            &&& cover@[1 + n + t].points@ == seq![p.0, p.1]
        },
{
    let mut cover: Vec<OpenSet> = Vec::new();
    cover.push(OpenSet::universe(n));
    let mut i: usize = 0;
    while i < n
        invariant
            i <= n,
            cover@.len() == 1 + i,
            cover@[0].name@ == "U"@,
            cover@[0].points@ == range_points(n as nat),
            forall|k: int| 0 <= k < i ==> {
                &&& (#[trigger] cover@[1 + k]).name@ == point_set_name(k as usize)
                &&& cover@[1 + k].points@ == seq![k as usize]
            },
        decreases n - i,
    {
        let ghost before = cover@;
        cover.push(OpenSet::point(i));
        proof {
            assert forall|k: int| 0 <= k < i + 1 implies {
                &&& (#[trigger] cover@[1 + k]).name@ == point_set_name(k as usize)
                &&& cover@[1 + k].points@ == seq![k as usize]
            } by {
                if k < i {
                    assert(cover@[1 + k] == before[1 + k]);
                }
            }
        }
        i = i + 1;
    }
    let mut i: usize = 0;
    while i < n
        invariant
            i <= n,
            cover@.len() == 1 + n + pairs_below(i as nat, n as nat).len(),
            cover@[0].name@ == "U"@,
            cover@[0].points@ == range_points(n as nat),
            forall|k: int| 0 <= k < n ==> {
                &&& (#[trigger] cover@[1 + k]).name@ == point_set_name(k as usize)
                &&& cover@[1 + k].points@ == seq![k as usize]
            },
            forall|t: int| 0 <= t < pairs_below(i as nat, n as nat).len() ==> {
                let p = pairs_below(i as nat, n as nat)[t];
                &&& (#[trigger] cover@[1 + n + t]).name@ == pair_set_name(p.0, p.1)
                &&& cover@[1 + n + t].points@ == seq![p.0, p.1]
            },
        decreases n - i,
    {
        let ghost done = pairs_below(i as nat, n as nat);
        let ghost row = pairs_from(i as nat, n as nat);
        let mut j: usize = i + 1;
        while j < n
            invariant
                i < n,
                i + 1 <= j <= n,
                done == pairs_below(i as nat, n as nat),
                row == pairs_from(i as nat, n as nat),
                cover@.len() == 1 + n + done.len() + (j - i - 1),
                cover@[0].name@ == "U"@,
                cover@[0].points@ == range_points(n as nat),
                forall|k: int| 0 <= k < n ==> {
                    &&& (#[trigger] cover@[1 + k]).name@ == point_set_name(k as usize)
                    &&& cover@[1 + k].points@ == seq![k as usize]
                },
                forall|t: int| 0 <= t < done.len() + (j - i - 1) ==> {
                    let p = (done + row)[t];
                    &&& (#[trigger] cover@[1 + n + t]).name@ == pair_set_name(p.0, p.1)
                    &&& cover@[1 + n + t].points@ == seq![p.0, p.1]
                },
            decreases n - j,
        {
            let ghost before = cover@;
            cover.push(OpenSet::pair(i, j));
            proof {
                let t0 = done.len() + (j - i - 1);
                assert((done + row)[t0] == row[j - i - 1]);
                assert forall|t: int| 0 <= t < done.len() + (j + 1 - i - 1) implies {
                    let p = (done + row)[t];
                    &&& (#[trigger] cover@[1 + n + t]).name@ == pair_set_name(p.0, p.1)
                    &&& cover@[1 + n + t].points@ == seq![p.0, p.1]
                } by {
                    if t < t0 {
                        assert(cover@[1 + n + t] == before[1 + n + t]);
                    }
                }
                assert forall|k: int| 0 <= k < n implies {
                    &&& (#[trigger] cover@[1 + k]).name@ == point_set_name(k as usize)
                    &&& cover@[1 + k].points@ == seq![k as usize]
                } by {
                    assert(cover@[1 + k] == before[1 + k]);
                }
            }
            j = j + 1;
        }
        proof {
            assert(pairs_below((i + 1) as nat, n as nat) == done + row);
        }
        i = i + 1;
    }
    cover
}

/// A stalk at a point — the local data of the sheaf.
#[derive(Debug, Clone, PartialEq)]
pub enum Stalk {
    /// A finite-dimensional vector space (dim = value).
    VectorSpace { dimension: usize },
    /// A set of labels (language elements).
    LabelSet { labels: Vec<String> },
    /// An automaton state configuration.
    AutomatonState { states: Vec<usize>, accepting: Vec<bool> },
    /// Custom data encoded as a byte vector.
    Custom { data: Vec<u8>, dimension: usize },
}

impl Stalk {
    /// The dimension of a stalk: the dimension of a vector space, the number
    /// of labels or of automaton states, or the declared dimension of custom
    /// data.
    pub open spec fn spec_dimension(&self) -> nat {
        match self {
            Stalk::VectorSpace { dimension } => *dimension as nat,
            Stalk::LabelSet { labels } => labels@.len(),
            Stalk::AutomatonState { states, .. } => states@.len(),
            Stalk::Custom { dimension, .. } => *dimension as nat,
        }
    }

    /// Dimension of the stalk (for cohomology computation).
    pub fn dimension(&self) -> (d: usize)
        ensures
            d == self.spec_dimension(),
            *self matches Stalk::VectorSpace { dimension } ==> d == dimension,
            *self matches Stalk::LabelSet { labels } ==> d == labels@.len(),
            *self matches Stalk::AutomatonState { states, .. } ==> d == states@.len(),
            *self matches Stalk::Custom { dimension, .. } ==> d == dimension,
    {
        match self {
            Stalk::VectorSpace { dimension } => *dimension,
            Stalk::LabelSet { labels } => labels.len(),
            Stalk::AutomatonState { states, .. } => states.len(),
            Stalk::Custom { dimension, .. } => *dimension,
        }
    }

    /// Zero stalk.
    pub fn zero() -> (s: Stalk)
        ensures
            s == (Stalk::VectorSpace { dimension: 0 }),
    {
        Stalk::VectorSpace { dimension: 0 }
    }

    /// Create a vector space stalk.
    pub fn vector(dim: usize) -> (s: Stalk)
        ensures
            s == (Stalk::VectorSpace { dimension: dim }),
    {
        Stalk::VectorSpace { dimension: dim }
    }
}

} // verus!

verus! {

/// The neighbours recorded for point `a` (none when `a` has no entry).
pub open spec fn neighbors_in(m: Map<usize, Seq<usize>>, a: usize) -> Seq<usize> {
    if m.contains_key(a) {
        m[a]
    } else {
        Seq::empty()
    }
}

/// The adjacency after recording the edge `a`–`b`: `b` is appended to the
/// list of `a`, then `a` to the list of `b`.
pub open spec fn with_edge(m: Map<usize, Seq<usize>>, a: usize, b: usize) -> Map<usize, Seq<usize>> {
    let m1 = m.insert(a, neighbors_in(m, a).push(b));
    m1.insert(b, neighbors_in(m1, b).push(a))
}

/// The adjacency after recording the edges of `edges` in order.
pub open spec fn with_edges(m: Map<usize, Seq<usize>>, edges: Seq<(usize, usize)>) -> Map<
    usize,
    Seq<usize>,
>
    decreases edges.len(),
{
    if edges.len() == 0 {
        m
    } else {
        with_edge(with_edges(m, edges.drop_last()), edges.last().0, edges.last().1)
    }}

/// Each of the points `0 .. n` with an empty list of neighbours.
pub open spec fn isolated_points(n: nat) -> Map<usize, Seq<usize>> {
    Map::new(|k: usize| k < n, |k: usize| Seq::<usize>::empty())
}

/// `b` is recorded as a neighbour of `a`.
pub open spec fn adjacent(m: Map<usize, Seq<usize>>, a: usize, b: usize) -> bool {
    m.contains_key(a) && m[a].contains(b)
}

/// A choice of one oriented edge `[a, b]` for each recorded adjacency
/// between `a` and `b`, oriented as some record has it.
pub open spec fn edge_choice(m: Map<usize, Seq<usize>>, e: Set<Seq<usize>>) -> bool {
    &&& forall|s: Seq<usize>| #[trigger]
        e.contains(s) ==> s.len() == 2 && adjacent(m, s[0], s[1])
    &&& forall|a: usize, b: usize|
        adjacent(m, a, b) ==> e.contains(seq![a, b]) || e.contains(seq![b, a])
    &&& forall|a: usize, b: usize|
        a != b && e.contains(seq![a, b]) ==> !e.contains(seq![b, a])
}

/// The simplices contributed by the non-empty open sets.
pub open spec fn open_set_simplices(open_sets: Seq<OpenSet>) -> Set<Seq<usize>> {
    Set::new(
        |s: Seq<usize>|
            s.len() > 0 && exists|i: int| 0 <= i < open_sets.len() && open_sets[i].points@ == s,
    )
}

/// The vertices `[0], [1], ..., [n - 1]`.
pub open spec fn vertex_simplices(n: nat) -> Set<Seq<usize>> {
    Set::new(|s: Seq<usize>| s.len() == 1 && s[0] < n)
}

/// The base topological space over which sheaves are defined.
#[derive(Debug, Clone)]
pub struct SheafSpace {
    /// Number of points in the space.
    pub n_points: usize,
    /// Open sets of the topology.
    pub open_sets: Vec<OpenSet>,
    /// Adjacency: which points are connected (for nerve computation).
    pub adjacency: HashMap<usize, Vec<usize>>,
}

impl SheafSpace {
    /// The adjacency lists as a map from points to sequences.
    pub open spec fn adjacency_model(&self) -> Map<usize, Seq<usize>> {
        Map::new(|k: usize| self.adjacency@.contains_key(k), |k: usize| self.adjacency@[k]@)
    }

    pub fn new(n_points: usize) -> (space: SheafSpace)
        ensures
            space.n_points == n_points,
            space.open_sets@.len() == 1,
            space.open_sets@[0].name@ == "U"@,
            space.open_sets@[0].points@ == range_points(n_points as nat),
            space.adjacency_model() == isolated_points(n_points as nat),
    {
        let mut adjacency: HashMap<usize, Vec<usize>> = HashMap::new();
        let mut i: usize = 0;
        while i < n_points
            invariant
                i <= n_points,
                forall|k: usize| #[trigger] adjacency@.contains_key(k) <==> k < i,
                forall|k: usize| k < i ==> (#[trigger] adjacency@[k])@ == Seq::<usize>::empty(),
            decreases n_points - i,
        {
            let empty: Vec<usize> = Vec::new();
            let ghost before = adjacency@;
            adjacency.insert(i, empty);
            assert(adjacency@ == before.insert(i, empty));
            assert(empty@ == Seq::<usize>::empty());
            i = i + 1;
        }
        assert(Map::new(|k: usize| adjacency@.contains_key(k), |k: usize| adjacency@[k]@)
            =~= isolated_points(n_points as nat));
        let mut open_sets: Vec<OpenSet> = Vec::new();
        open_sets.push(OpenSet::universe(n_points));
        SheafSpace { n_points, open_sets, adjacency }
    }

    /// Appends `b` to the neighbour list of `a`, creating the list if needed.
    fn push_neighbor(&mut self, a: usize, b: usize)
        ensures
            final(self).n_points == old(self).n_points,
            final(self).open_sets@ == old(self).open_sets@,
            final(self).adjacency_model() == old(self).adjacency_model().insert(
                a,
                neighbors_in(old(self).adjacency_model(), a).push(b),
            ),
    {
        let mut list: Vec<usize> = match self.adjacency.get(&a) {
            Some(l) => l.clone(),
            None => Vec::new(),
        };
        assert(list@ == neighbors_in(self.adjacency_model(), a));
        list.push(b);
        self.adjacency.insert(a, list);
        assert(self.adjacency_model() =~= old(self).adjacency_model().insert(
            a,
            neighbors_in(old(self).adjacency_model(), a).push(b),
        ));
    }

    /// Add an edge between points (for the topology).
    pub fn add_edge(&mut self, a: usize, b: usize)
        ensures
            final(self).n_points == old(self).n_points,
            final(self).open_sets@ == old(self).open_sets@,
            final(self).adjacency_model() == with_edge(old(self).adjacency_model(), a, b),
    {
        self.push_neighbor(a, b);
        self.push_neighbor(b, a);
    }

    /// Build a space with discrete topology from adjacency list.
    pub fn from_adjacency(n_points: usize, edges: &[(usize, usize)]) -> (space: SheafSpace)
        ensures
            space.n_points == n_points,
            space.adjacency_model() == with_edges(isolated_points(n_points as nat), edges@),
            space.open_sets@.len() == edges@.len() + 1,
            space.open_sets@[0].name@ == "U"@,
            space.open_sets@[0].points@ == range_points(n_points as nat),
            forall|k: int|
                0 <= k < edges@.len() ==> {
                    &&& (#[trigger] space.open_sets@[k + 1]).name@ == edge_set_name(
                        edges@[k].0,
                        edges@[k].1,
                    )
                    &&& space.open_sets@[k + 1].points@ == seq![edges@[k].0, edges@[k].1]
                },
    {
        let mut space = SheafSpace::new(n_points);
        let mut k: usize = 0;
        while k < edges.len()
            invariant
                k <= edges@.len(),
                space.n_points == n_points,
                space.open_sets@.len() == 1,
                space.open_sets@[0].name@ == "U"@,
                space.open_sets@[0].points@ == range_points(n_points as nat),
                space.adjacency_model() == with_edges(
                    isolated_points(n_points as nat),
                    edges@.take(k as int),
                ),
            decreases edges@.len() - k,
        {
            let (a, b) = edges[k];
            space.add_edge(a, b);
            assert(edges@.take(k + 1).drop_last() =~= edges@.take(k as int));
            k = k + 1;
        }
        assert(edges@.take(edges@.len() as int) =~= edges@);
        let mut k: usize = 0;
        while k < edges.len()
            invariant
                k <= edges@.len(),
                space.n_points == n_points,
                space.adjacency_model() == with_edges(isolated_points(n_points as nat), edges@),
                space.open_sets@.len() == k + 1,
                space.open_sets@[0].name@ == "U"@,
                space.open_sets@[0].points@ == range_points(n_points as nat),
                forall|j: int|
                    0 <= j < k ==> {
                        &&& (#[trigger] space.open_sets@[j + 1]).name@ == edge_set_name(
                            edges@[j].0,
                            edges@[j].1,
                        )
                        &&& space.open_sets@[j + 1].points@ == seq![edges@[j].0, edges@[j].1]
                    },
            decreases edges@.len() - k,
        {
            let (a, b) = edges[k];
            let mut name = String::new();
            proof {
                reveal_strlit("U");
            }
            name.append("U");
            push_decimal(&mut name, a);
            push_decimal(&mut name, b);
            let mut points: Vec<usize> = Vec::new();
            points.push(a);
            points.push(b);
            assert(points@ =~= seq![a, b]);
            space.open_sets.push(OpenSet { name, points });
            k = k + 1;
        }
        space
    }

    /// The nerve of the covering: the point lists of the non-empty open
    /// sets, one oriented edge per adjacent pair, and every vertex, sorted
    /// lexicographically and without repetition.
    ///
    /// The adjacency map is walked in the map's own order, so which of the
    /// two orientations `[a, b]` and `[b, a]` of an edge is kept depends on
    /// that order.
    pub fn nerve(&self) -> (r: Vec<Vec<usize>>)
        ensures
            is_nerve(*self, views(r@)),
    {
        let mut result: Vec<Vec<usize>> = Vec::new();
        assert(views(result@).to_set() =~= Set::<Seq<usize>>::empty());
        let mut i: usize = 0;
        while i < self.open_sets.len()
            invariant
                i <= self.open_sets@.len(),
                lex_sorted(views(result@)),
                views(result@).to_set() == Set::new(
                    |s: Seq<usize>|
                        s.len() > 0 && exists|j: int|
                            0 <= j < i && #[trigger] self.open_sets@[j].points@ == s,
                ),
            decreases self.open_sets@.len() - i,
        {
            let ghost before = views(result@).to_set();
            if self.open_sets[i].points.len() > 0 {
                let pts = self.open_sets[i].points.clone();
                assert(pts@ =~= self.open_sets@[i as int].points@);
                insert_lex_sorted(&mut result, pts);
            }
            proof {
                let target = Set::new(
                    |s: Seq<usize>|
                        s.len() > 0 && exists|j: int|
                            0 <= j < i + 1 && #[trigger] self.open_sets@[j].points@ == s,
                );
                assert forall|s: Seq<usize>| target.contains(s) implies views(
                    result@,
                ).to_set().contains(s) by {
                    let j = choose|j: int|
                        0 <= j < i + 1 && #[trigger] self.open_sets@[j].points@ == s;
                    if j < i {
                        assert(before.contains(s));
                    }
                }
                assert(views(result@).to_set() =~= target);
            }
            i = i + 1;
        }
        let ghost opens = views(result@).to_set();
        assert(opens =~= open_set_simplices(self.open_sets@));
        let ghost m = self.adjacency_model();
        let mut seen: Vec<(usize, usize)> = Vec::new();
        let ghost mut e: Set<Seq<usize>> = Set::empty();
        assert(opens.union(e) =~= opens);
        let ghost all = self.adjacency.iter().remaining();
        let ghost mut count: int = 0;
        for (a_ref, nbrs) in it: self.adjacency.iter()
            invariant
                it.seq() == all,
                count == it.index(),
                m == self.adjacency_model(),
                lex_sorted(views(result@)),
                views(result@).to_set() == opens.union(e),
                forall|s: Seq<usize>| #[trigger]
                    e.contains(s) ==> s.len() == 2 && adjacent(m, s[0], s[1])
                        && seen@.contains(normalized(s[0], s[1])),
                forall|p: (usize, usize)| #[trigger]
                    seen@.contains(p) ==> e.contains(seq![p.0, p.1]) || e.contains(
                        seq![p.1, p.0],
                    ),
                forall|a: usize, b: usize|
                    a != b && e.contains(seq![a, b]) ==> !e.contains(seq![b, a]),
                forall|k: int, b: usize|
                    0 <= k < count && #[trigger] all[k].1@.contains(b)
                        ==> seen@.contains(normalized(*all[k].0, b)),
        {
            let a = *a_ref;
            assert(self.adjacency@.contains_key(a));
            assert(self.adjacency@[a] == *nbrs);
            let mut j: usize = 0;
            while j < nbrs.len()
                invariant
                    m == self.adjacency_model(),
                    self.adjacency@.contains_key(a),
                    self.adjacency@[a] == *nbrs,
                    j <= nbrs@.len(),
                    lex_sorted(views(result@)),
                    views(result@).to_set() == opens.union(e),
                    forall|s: Seq<usize>| #[trigger]
                        e.contains(s) ==> s.len() == 2 && adjacent(m, s[0], s[1])
                            && seen@.contains(normalized(s[0], s[1])),
                    forall|p: (usize, usize)| #[trigger]
                        seen@.contains(p) ==> e.contains(seq![p.0, p.1]) || e.contains(
                            seq![p.1, p.0],
                        ),
                    forall|x: usize, y: usize|
                        x != y && e.contains(seq![x, y]) ==> !e.contains(seq![y, x]),
                    it.seq() == all,
                    count == it.index(),
                    all[count] == (a_ref, nbrs),
                    forall|k: int, b: usize|
                        0 <= k < count && #[trigger] all[k].1@.contains(b)
                            ==> seen@.contains(normalized(*all[k].0, b)),
                    forall|jj: int|
                        0 <= jj < j ==> seen@.contains(normalized(a, #[trigger] nbrs@[jj])),
                decreases nbrs@.len() - j,
            {
                let b = nbrs[j];
                let key = if a < b {
                    (a, b)
                } else {
                    (b, a)
                };
                assert(key == normalized(a, b));
                assert(m.contains_key(a) && m[a] == nbrs@);
                assert(adjacent(m, a, b)) by {
                    assert(nbrs@[j as int] == b);
                }
                if !contains_pair(&seen, key) {
                    let ghost e0 = e;
                    let mut simplex: Vec<usize> = Vec::new();
                    simplex.push(a);
                    simplex.push(b);
                    assert(simplex@ =~= seq![a, b]);
                    insert_lex_sorted(&mut result, simplex);
                    let ghost seen0 = seen@;
                    seen.push(key);
                    proof {
                        assert(seen@ == seen0.push(key));
                        assert(seen@[seen0.len() as int] == key);
                        assert forall|x: (usize, usize)| seen0.contains(x) implies seen@.contains(
                            x,
                        ) by {
                            let ix = choose|ix: int| 0 <= ix < seen0.len() && seen0[ix] == x;
                            assert(seen@[ix] == x);
                        }
                        assert forall|x: (usize, usize)|
                            seen@.contains(x) && x != key implies seen0.contains(x) by {
                            let ix = choose|ix: int| 0 <= ix < seen@.len() && seen@[ix] == x;
                            assert(seen0[ix] == x);
                        }
                        e = e.insert(seq![a, b]);
                        assert(views(result@).to_set() =~= opens.union(e));
                        assert forall|s: Seq<usize>| #[trigger]
                            e.contains(s) implies s.len() == 2 && adjacent(m, s[0], s[1])
                            && seen@.contains(normalized(s[0], s[1])) by {
                            if s != seq![a, b] {
                                assert(e0.contains(s));
                                assert(seen0.contains(normalized(s[0], s[1])));
                            } else {
                                assert(s[0] == a && s[1] == b);
                            }
                        }
                        assert forall|x: usize, y: usize|
                            x != y && e.contains(seq![x, y]) implies !e.contains(seq![y, x]) by {
                            if seq![x, y] == seq![a, b] {
                                assert(x == a && y == b) by {
                                    assert(seq![x, y][0] == seq![a, b][0]);
                                    assert(seq![x, y][1] == seq![a, b][1]);
                                }
                                if e0.contains(seq![b, a]) {
                                    assert(seen@.contains(normalized(seq![b, a][0], seq![b, a][1])));
                                }
                                assert(seq![y, x] != seq![a, b]) by {
                                    assert(seq![y, x][0] != seq![a, b][0]);
                                }
                            } else if seq![y, x] == seq![a, b] {
                                assert(y == a && x == b) by {
                                    assert(seq![y, x][0] == seq![a, b][0]);
                                    assert(seq![y, x][1] == seq![a, b][1]);
                                }
                                if e0.contains(seq![x, y]) {
                                    assert(seen@.contains(normalized(seq![x, y][0], seq![x, y][1])));
                                }
                            }
                        }
                        assert forall|p: (usize, usize)| #[trigger]
                            seen@.contains(p) implies e.contains(seq![p.0, p.1]) || e.contains(
                            seq![p.1, p.0],
                        ) by {
                            if p == key {
                                if a < b {
                                    assert(seq![p.0, p.1] =~= seq![a, b]);
                                } else {
                                    assert(seq![p.1, p.0] =~= seq![a, b]);
                                }
                            } else {
                                assert(seen0.contains(p));
                            }
                        }
                    }
                }
                j = j + 1;
            }
            proof {
                assert forall|k: int, b: usize|
                    0 <= k < count + 1 && #[trigger] all[k].1@.contains(b)
                        implies seen@.contains(normalized(*all[k].0, b)) by {
                    if k == count {
                        let jj = choose|jj: int| 0 <= jj < nbrs@.len() && nbrs@[jj] == b;
                        assert(seen@.contains(normalized(a, nbrs@[jj])));
                    }
                }
                count = count + 1;
            }
        }
        proof {
            assert(count == all.len());
            assert forall|a: usize, b: usize| adjacent(m, a, b) implies e.contains(seq![a, b])
                || e.contains(seq![b, a]) by {
                assert(self.adjacency@.contains_key(a));
                assert(all.contains((&a, &self.adjacency@[a])));
                let k = choose|k: int| 0 <= k < all.len() && all[k] == (&a, &self.adjacency@[a]);
                assert(all[k].1@.contains(b));
                let p = normalized(a, b);
                assert(seen@.contains(p));
                if a < b {
                    assert(seq![p.0, p.1] =~= seq![a, b]);
                    assert(seq![p.1, p.0] =~= seq![b, a]);
                } else {
                    assert(seq![p.0, p.1] =~= seq![b, a]);
                    assert(seq![p.1, p.0] =~= seq![a, b]);
                }
            }
            assert(edge_choice(m, e));
        }
        let ghost oe = opens.union(e);
        let mut i: usize = 0;
        assert(oe.union(Set::new(|s: Seq<usize>| s.len() == 1 && s[0] < 0)) =~= oe);
        while i < self.n_points
            invariant
                i <= self.n_points,
                lex_sorted(views(result@)),
                views(result@).to_set() == oe.union(
                    Set::new(|s: Seq<usize>| s.len() == 1 && s[0] < i),
                ),
            decreases self.n_points - i,
        {
            let mut simplex: Vec<usize> = Vec::new();
            simplex.push(i);
            let ghost sv = simplex@;
            assert(sv =~= seq![i]);
            insert_lex_sorted(&mut result, simplex);
            proof {
                let lo = Set::new(|s: Seq<usize>| s.len() == 1 && s[0] < i);
                let hi = Set::new(|s: Seq<usize>| s.len() == 1 && s[0] < i + 1);
                assert forall|s: Seq<usize>| hi.contains(s) implies lo.insert(sv).contains(s) by {
                    if s[0] == i {
                        assert(s =~= sv);
                    }
                }
                assert(hi =~= lo.insert(sv));
                assert(views(result@).to_set() =~= oe.union(hi));
            }
            i = i + 1;
        }
        assert(oe.union(Set::new(|s: Seq<usize>| s.len() == 1 && s[0] < self.n_points))
            =~= open_set_simplices(self.open_sets@).union(e).union(
            vertex_simplices(self.n_points as nat),
        ));
        assert(edge_choice(self.adjacency_model(), e) && views(result@).to_set() == open_set_simplices(
            self.open_sets@,
        ).union(e).union(vertex_simplices(self.n_points as nat)));
        result
    }
}

/// `r` is the nerve of `space`: sorted lexicographically without
/// repetition, it holds the point lists of the non-empty open sets, one
/// oriented edge per adjacent pair, and every vertex.
pub open spec fn is_nerve(space: SheafSpace, r: Seq<Seq<usize>>) -> bool {
    &&& lex_sorted(r)
    &&& exists|e: Set<Seq<usize>>|
        {
            &&& edge_choice(space.adjacency_model(), e)
            &&& r.to_set() == open_set_simplices(space.open_sets@).union(e).union(
                vertex_simplices(space.n_points as nat),
            )
        }
}

/// The name given to the open set of the edge `a`–`b`.
pub open spec fn edge_set_name(a: usize, b: usize) -> Seq<char> {
    "U"@ + decimal(a as nat) + decimal(b as nat)
}

/// The pair `(a, b)` ordered so that the smaller comes first.
pub open spec fn normalized(a: usize, b: usize) -> (usize, usize) {
    if a < b {
        (a, b)
    } else {
        (b, a)
    }
}

/// Whether the pair `p` is in the list.
fn contains_pair(v: &Vec<(usize, usize)>, p: (usize, usize)) -> (r: bool)
    ensures
        r == v@.contains(p),
{
    let mut i: usize = 0;
    while i < v.len()
        invariant
            i <= v@.len(),
            forall|k: int| 0 <= k < i ==> v@[k] != p,
        decreases v@.len() - i,
    {
        let q = v[i];
        if q.0 == p.0 && q.1 == p.1 {
            assert(v@[i as int] == p);
            return true;
        }
        i = i + 1;
    }
    false
}

} // verus!
