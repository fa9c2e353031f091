//! The shape of the first coboundary map of a protocol sheaf: which entries
//! of d⁰ are +1, which are -1 and which vanish.
use vstd::prelude::*;
use vstd::std_specs::iter::IteratorSpec;
use vstd::std_specs::cmp::OrdSpec;

use std::collections::BTreeMap;

use crate::sheaf::{OpenSet, SheafSpace, Stalk};
use crate::sorted::{lemma_strictly_increasing_unique, strictly_increasing};

verus! {

/// The pairs `(a, b)` with `a < b` and `b` a neighbour of `a`, in the order
/// of the neighbour list.
pub open spec fn forward_pairs(a: usize, nbrs: Seq<usize>) -> Seq<(usize, usize)>
    decreases nbrs.len(),
{
    if nbrs.len() == 0 {
        Seq::empty()
    } else if a < nbrs.last() {
        forward_pairs(a, nbrs.drop_last()).push((a, nbrs.last()))
    } else {
        forward_pairs(a, nbrs.drop_last())
    }
}

/// The forward pairs of a list of adjacency entries, entry after entry.
pub open spec fn entries_pairs(entries: Seq<(usize, Seq<usize>)>) -> Seq<(usize, usize)>
    decreases entries.len(),
{
    if entries.len() == 0 {
        Seq::empty()
    } else {
        entries_pairs(entries.drop_last()) + forward_pairs(entries.last().0, entries.last().1)
    }
}

/// `order` lists each entry of the adjacency of `space` once: a walk of
/// the adjacency map in some order.
pub open spec fn is_walk_of(space: SheafSpace, order: Seq<(usize, Seq<usize>)>) -> bool {
    let m = space.adjacency_model();
    &&& forall|i: int| 0 <= i < order.len() ==> m.contains_key((#[trigger] order[i]).0) && m[order[i].0] == order[i].1
    &&& forall|k: usize| #[trigger] m.contains_key(k) ==> exists|i: int| 0 <= i < order.len() && order[i].0 == k
    &&& forall|i: int, j: int| 0 <= i < j < order.len() ==> (#[trigger] order[i]).0 != (#[trigger] order[j]).0
}

/// The dimension of stalk `i`, zero past the end of the list.
pub open spec fn dim_at(dims: Seq<usize>, i: usize) -> nat {
    if i < dims.len() {
        dims[i as int] as nat
    } else {
        0
    }
}

/// The sum of a list of dimensions.
pub open spec fn total(dims: Seq<usize>) -> nat
    decreases dims.len(),
{
    if dims.len() == 0 {
        0
    } else {
        total(dims.drop_last()) + dims.last() as nat
    }
}

/// The position of the first coordinate of stalk `i` among all coordinates:
/// the sum of the dimensions before it.
pub open spec fn offset(dims: Seq<usize>, i: usize) -> nat {
    if i < dims.len() {
        total(dims.take(i as int))
    } else {
        total(dims)
    }
}

/// The number of rows that an edge contributes: the smaller dimension of
/// its two ends.
pub open spec fn block(dims: Seq<usize>, e: (usize, usize)) -> nat {
    let di = dim_at(dims, e.0);
    let dj = dim_at(dims, e.1);
    if di <= dj {
        di
    } else {
        dj
    }
}

/// The number of rows that a list of edges contributes.
pub open spec fn total_rows(dims: Seq<usize>, edges: Seq<(usize, usize)>) -> nat
    decreases edges.len(),
{
    if edges.len() == 0 {
        0
    } else {
        block(dims, edges[0]) + total_rows(dims, edges.drop_first())
    }
}

/// The entry of d⁰ at row `r` and column `c`, when the rows of `edges` start
/// at row `start`: each edge (i, j) owns the next block of rows, and in its
/// k-th row the k-th coordinate of stalk j counts +1 and that of stalk i
/// counts -1.
pub open spec fn sign_at(dims: Seq<usize>, edges: Seq<(usize, usize)>, start: nat, r: nat, c: nat) -> int
    decreases edges.len(),
{
    if edges.len() == 0 {
        0
    } else {
        let e = edges[0];
        let b = block(dims, e);
        if start <= r < start + b {
            let k = r - start;
            if c == offset(dims, e.0) + k {
                -1
            } else if c == offset(dims, e.1) + k {
                1
            } else {
                0
            }
        } else {
            sign_at(dims, edges.drop_first(), start + b, r, c)
        }
    }
}

/// `d0` is the c1 × c0 matrix of signs of the list of edges `edges`.
pub open spec fn is_coboundary_pattern(dims: Seq<usize>, edges: Seq<(usize, usize)>, c0_dim: nat, c1_dim: nat, d0: Seq<Seq<i8>>) -> bool {
    &&& d0.len() == c1_dim
    &&& forall|r: int| 0 <= r < c1_dim ==> (#[trigger] d0[r]).len() == c0_dim
    &&& forall|r: int, c: int| 0 <= r < c1_dim && 0 <= c < c0_dim ==> (#[trigger] d0[r][c]) as int == sign_at(dims, edges, 0, r as nat, c as nat)
}

/// The rows of a matrix of small integers.
pub open spec fn rows_view(m: Seq<Vec<i8>>) -> Seq<Seq<i8>> {
    m.map_values(|r: Vec<i8>| r@)
}

/// The edges of `space`, each taken once from its smaller end, in the order
/// in which the adjacency map is walked.
fn edges_of(space: &SheafSpace) -> (r: Vec<(usize, usize)>)
    ensures
        exists|order: Seq<(usize, Seq<usize>)>| is_walk_of(*space, order) && r@ == entries_pairs(order),
{
    let ghost all = space.adjacency.iter().remaining();
    let ghost entries = all.map_values(|e: (&usize, &Vec<usize>)| (*e.0, e.1@));
    let ghost mut count: int = 0;
    let mut edges: Vec<(usize, usize)> = Vec::new();
    for (a_ref, nbrs) in it: space.adjacency.iter()
        invariant
            it.seq() == all,
            count == it.index(),
            entries == all.map_values(|e: (&usize, &Vec<usize>)| (*e.0, e.1@)),
            edges@ == entries_pairs(entries.take(count)),
    {
        let a = *a_ref;
        proof {
            assert(all[count] == (a_ref, nbrs));
        }
        let ghost before = edges@;
        let mut j: usize = 0;
        while j < nbrs.len()
            invariant
                j <= nbrs@.len(),
                edges@ == before + forward_pairs(a, nbrs@.take(j as int)),
            decreases nbrs@.len() - j,
        {
            let b = nbrs[j];
            proof {
                let t = nbrs@.take(j + 1);
                assert(t.drop_last() =~= nbrs@.take(j as int));
                assert(t.last() == b);
            }
            if a < b {
                edges.push((a, b));
                assert(edges@ =~= before + forward_pairs(a, nbrs@.take(j + 1)));
            }
            j = j + 1;
        }
        proof {
            assert(nbrs@.take(nbrs@.len() as int) =~= nbrs@);
            let t = entries.take(count + 1);
            assert(t.drop_last() =~= entries.take(count));
            assert(t.last() == (a, nbrs@));
            count = count + 1;
        }
    }
    proof {
        assert(count == all.len());
        assert(entries.take(count) =~= entries);
        let m = space.adjacency_model();
        assert forall|i: int| 0 <= i < entries.len() implies m.contains_key((#[trigger] entries[i]).0) && m[entries[i].0] == entries[i].1 by {
            assert(entries[i] == (*all[i].0, all[i].1@));
        }
        assert forall|k: usize| #[trigger] m.contains_key(k) implies exists|i: int| 0 <= i < entries.len() && entries[i].0 == k by {
            assert(all.contains((&k, &space.adjacency@[k])));
            let i = choose|i: int| 0 <= i < all.len() && all[i] == (&k, &space.adjacency@[k]);
            assert(entries[i] == (*all[i].0, all[i].1@));
        }
        assert forall|i: int, j: int| 0 <= i < j < entries.len() implies (#[trigger] entries[i]).0 != (#[trigger] entries[j]).0 by {
            assert(entries[i] == (*all[i].0, all[i].1@));
            assert(entries[j] == (*all[j].0, all[j].1@));
            if *all[i].0 == *all[j].0 {
                assert(all[i] == all[j]);
            }
        }
        assert(is_walk_of(*space, entries));
    }
    edges
}

/// The sum of the dimensions before stalk `i`.
fn offset_of(dims: &Vec<usize>, i: usize) -> (o: usize)
    requires
        total(dims@) <= usize::MAX,
    ensures
        o == offset(dims@, i),
{
    let n = if i < dims.len() {
        i
    } else {
        dims.len()
    };
    let mut s: usize = 0;
    let mut t: usize = 0;
    while t < n
        invariant
            n <= dims@.len(),
            t <= n,
            s == total(dims@.take(t as int)),
            total(dims@) <= usize::MAX,
        decreases n - t,
    {
        proof {
            assert(dims@.take(t + 1).drop_last() =~= dims@.take(t as int));
            lemma_total_prefix(dims@, t + 1);
        }
        s = s + dims[t];
        t = t + 1;
    }
    assert(dims@.take(dims@.len() as int) =~= dims@);
    s
}

/// A prefix of a list of dimensions sums to no more than the whole list.
proof fn lemma_total_prefix(dims: Seq<usize>, k: int)
    requires
        0 <= k <= dims.len(),
    ensures
        total(dims.take(k)) <= total(dims),
    decreases dims.len(),
{
    if k < dims.len() {
        assert(dims.drop_last().take(k) =~= dims.take(k));
        lemma_total_prefix(dims.drop_last(), k);
    } else {
        assert(dims.take(k) =~= dims);
    }
}

/// A stalk's coordinates end within the total dimension.
proof fn lemma_offset_bound(dims: Seq<usize>, i: usize)
    ensures
        offset(dims, i) + dim_at(dims, i) <= total(dims),
{
    if i < dims.len() {
        let t = dims.take(i + 1);
        assert(t.drop_last() =~= dims.take(i as int));
        assert(t.last() == dims[i as int]);
        lemma_total_prefix(dims, i + 1);
    }
}

/// A row of `n` zeros.
fn zero_row(n: usize) -> (v: Vec<i8>)
    ensures
        v@ == Seq::new(n as nat, |c: int| 0i8),
{
    let mut v: Vec<i8> = Vec::new();
    let mut c: usize = 0;
    while c < n
        invariant
            c <= n,
            v@ == Seq::new(c as nat, |x: int| 0i8),
        decreases n - c,
    {
        v.push(0);
        c = c + 1;
        assert(v@ =~= Seq::new(c as nat, |x: int| 0i8));
    }
    v
}

/// Rows that no edge owns are zero.
proof fn lemma_sign_past_edges(dims: Seq<usize>, edges: Seq<(usize, usize)>, start: nat, r: nat, c: nat)
    requires
        r >= start + total_rows(dims, edges),
    ensures
        sign_at(dims, edges, start, r, c) == 0,
    decreases edges.len(),
{
    if edges.len() > 0 {
        lemma_sign_past_edges(dims, edges.drop_first(), start + block(dims, edges[0]), r, c);
    }
}

/// The rows of an edge list split between its first edges and the rest.
proof fn lemma_total_rows_split(dims: Seq<usize>, edges: Seq<(usize, usize)>, e: int)
    requires
        0 <= e < edges.len(),
    ensures
        total_rows(dims, edges.skip(e)) == block(dims, edges[e]) + total_rows(dims, edges.skip(e + 1)),
{
    assert(edges.skip(e)[0] == edges[e]);
    assert(edges.skip(e).drop_first() =~= edges.skip(e + 1));
}

/// The shape of the coboundary map d⁰: C⁰ → C¹ of a protocol sheaf whose
/// stalks have dimensions `dims`, as a `c1_dim` × `c0_dim` matrix of signs.
///
/// The edges of `space` are taken from their smaller end, in the order in
/// which its adjacency map is walked; each owns the next rows, as many as
/// the smaller dimension of its ends, and in its k-th row the k-th
/// coordinate of its larger end counts +1 and that of its smaller end -1.
/// Rows and columns past the matrix are dropped.
pub fn build_d0(dims: &Vec<usize>, space: &SheafSpace, c0_dim: usize, c1_dim: usize) -> (d0: Vec<Vec<i8>>)
    requires
        total(dims@) <= usize::MAX,
    ensures
        exists|order: Seq<(usize, Seq<usize>)>|
            is_walk_of(*space, order) && is_coboundary_pattern(
                dims@,
                entries_pairs(order),
                c0_dim as nat,
                c1_dim as nat,
                rows_view(d0@),
            ),
        // Applied to the constant section, whose coordinates are all 1,
        // d⁰ gives zero when it has a column for every coordinate.
        total(dims@) <= c0_dim ==> forall|r: int| 0 <= r < c1_dim ==> #[trigger] row_sum(d0@[r]@) == 0,
{
    let edges = edges_of(space);
    let ghost order = choose|order: Seq<(usize, Seq<usize>)>| is_walk_of(*space, order) && edges@ == entries_pairs(order);
    let ghost es = edges@;
    let mut d0: Vec<Vec<i8>> = Vec::new();
    let mut row: usize = 0;
    let mut e: usize = 0;
    // Once every row of the matrix is written, the remaining edges own rows
    // past its end.
    let mut full = c1_dim == 0;
    assert(es.skip(0) =~= es);
    while e < edges.len() && !full
        invariant
            es == edges@,
            es == entries_pairs(order),
            total(dims@) <= usize::MAX,
            e <= es.len(),
            !full ==> row + total_rows(dims@, es.skip(e as int)) == total_rows(dims@, es),
            full ==> d0@.len() == c1_dim,
            !full ==> d0@.len() == row && row < c1_dim,
            forall|r: int| 0 <= r < d0@.len() ==> (#[trigger] d0@[r])@.len() == c0_dim,
            forall|r: int, c: int| 0 <= r < d0@.len() && 0 <= c < c0_dim ==> (#[trigger] d0@[r]@[c]) as int == sign_at(dims@, es, 0, r as nat, c as nat),
            forall|r: nat, c: nat| !full && r >= row ==> sign_at(dims@, es, 0, r, c) == #[trigger] sign_at(dims@, es.skip(e as int), row as nat, r, c),
        decreases es.len() - e,
    {
        let (i, j) = edges[e];
        proof {
            lemma_total_rows_split(dims@, es, e as int);
        }
        let di = if i < dims.len() {
            dims[i]
        } else {
            0
        };
        let dj = if j < dims.len() {
            dims[j]
        } else {
            0
        };
        let b = if di <= dj {
            di
        } else {
            dj
        };
        assert(b == block(dims@, es[e as int]));
        let col_i = offset_of(dims, i);
        let col_j = offset_of(dims, j);
        proof {
            lemma_offset_bound(dims@, i);
            lemma_offset_bound(dims@, j);
        }
        let ghost rest = es.skip(e as int);
        assert(rest[0] == es[e as int]);
        let avail = c1_dim - row;
        let kb = if b < avail {
            b
        } else {
            avail
        };
        let mut k: usize = 0;
        while k < kb
            invariant
                es == edges@,
                total(dims@) <= usize::MAX,
                rest == es.skip(e as int),
                rest.len() > 0,
                rest[0] == (i, j),
                b == block(dims@, (i, j)),
                col_i == offset(dims@, i),
                col_j == offset(dims@, j),
                col_i + b <= usize::MAX,
                col_j + b <= usize::MAX,
                kb <= b,
                row + kb <= c1_dim,
                k <= kb,
                d0@.len() == row + k,
                forall|r: int| 0 <= r < d0@.len() ==> (#[trigger] d0@[r])@.len() == c0_dim,
                forall|r: int, c: int| 0 <= r < d0@.len() && 0 <= c < c0_dim ==> (#[trigger] d0@[r]@[c]) as int == sign_at(dims@, es, 0, r as nat, c as nat),
                forall|r: nat, c: nat| r >= row ==> sign_at(dims@, es, 0, r, c) == #[trigger] sign_at(dims@, rest, row as nat, r, c),
            decreases kb - k,
        {
            let mut v = zero_row(c0_dim);
            if col_j + k < c0_dim {
                v.set(col_j + k, 1);
            }
            if col_i + k < c0_dim {
                v.set(col_i + k, -1);
            }
            proof {
                let r = (row + k) as nat;
                assert forall|c: int| 0 <= c < c0_dim implies (#[trigger] v@[c]) as int == sign_at(dims@, es, 0, r, c as nat) by {
                    assert(sign_at(dims@, es, 0, r, c as nat) == sign_at(dims@, rest, row as nat, r, c as nat));
                }
            }
            let ghost d_before = d0@;
            d0.push(v);
            proof {
                assert forall|r: int, c: int| 0 <= r < d0@.len() && 0 <= c < c0_dim implies (#[trigger] d0@[r]@[c]) as int == sign_at(dims@, es, 0, r as nat, c as nat) by {
                    if r < d_before.len() {
                        assert(d0@[r] == d_before[r]);
                    }
                }
                assert forall|r: int| 0 <= r < d0@.len() implies (#[trigger] d0@[r])@.len() == c0_dim by {
                    if r < d_before.len() {
                        assert(d0@[r] == d_before[r]);
                    }
                }
            }
            k = k + 1;
        }
        if b < avail {
            proof {
                assert(rest.drop_first() =~= es.skip(e + 1));
                assert(block(dims@, rest[0]) == b);
                assert forall|r: nat, c: nat| r >= row + b implies sign_at(dims@, es, 0, r, c) == #[trigger] sign_at(dims@, es.skip(e + 1), (row + b) as nat, r, c) by {
                    assert(sign_at(dims@, es, 0, r, c) == sign_at(dims@, rest, row as nat, r, c));
                    assert(sign_at(dims@, rest, row as nat, r, c) == sign_at(dims@, rest.drop_first(), (row + b) as nat, r, c));
                }
            }
            let ghost old_row = row;
            row = row + b;
            e = e + 1;
            proof {
                assert forall|r: nat, c: nat| r >= row implies sign_at(dims@, es, 0, r, c) == #[trigger] sign_at(dims@, es.skip(e as int), row as nat, r, c) by {
                    assert(r >= old_row + b);
                    assert(sign_at(dims@, es, 0, r, c) == sign_at(dims@, es.skip(e as int), (old_row + b) as nat, r, c));
                }
            }
        } else {
            full = true;
            e = e + 1;
        }
    }
    proof {
        if !full {
            assert(es.skip(e as int) =~= Seq::<(usize, usize)>::empty());
        }
    }
    // The rows past the last edge are zero.
    while d0.len() < c1_dim
        invariant
            es == entries_pairs(order),
            d0@.len() <= c1_dim,
            d0@.len() < c1_dim ==> d0@.len() >= total_rows(dims@, es),
            forall|r: int| 0 <= r < d0@.len() ==> (#[trigger] d0@[r])@.len() == c0_dim,
            forall|r: int, c: int| 0 <= r < d0@.len() && 0 <= c < c0_dim ==> (#[trigger] d0@[r]@[c]) as int == sign_at(dims@, es, 0, r as nat, c as nat),
        decreases c1_dim - d0@.len(),
    {
        let v = zero_row(c0_dim);
        let ghost d_before = d0@;
        proof {
            let r = d_before.len();
            assert forall|c: int| 0 <= c < c0_dim implies (#[trigger] v@[c]) as int == sign_at(dims@, es, 0, r as nat, c as nat) by {
                lemma_sign_past_edges(dims@, es, 0, r as nat, c as nat);
            }
        }
        d0.push(v);
        proof {
            assert forall|r: int, c: int| 0 <= r < d0@.len() && 0 <= c < c0_dim implies (#[trigger] d0@[r]@[c]) as int == sign_at(dims@, es, 0, r as nat, c as nat) by {
                if r < d_before.len() {
                    assert(d0@[r] == d_before[r]);
                }
            }
            assert forall|r: int| 0 <= r < d0@.len() implies (#[trigger] d0@[r])@.len() == c0_dim by {
                if r < d_before.len() {
                    assert(d0@[r] == d_before[r]);
                }
            }
        }
    }
    proof {
        let m = rows_view(d0@);
        assert forall|r: int| 0 <= r < c1_dim implies (#[trigger] m[r]).len() == c0_dim by {
            assert(m[r] == d0@[r]@);
        }
        assert forall|r: int, c: int| 0 <= r < c1_dim && 0 <= c < c0_dim implies (#[trigger] m[r][c]) as int == sign_at(dims@, es, 0, r as nat, c as nat) by {
            assert(m[r] == d0@[r]@);
        }
        assert(is_walk_of(*space, order) && is_coboundary_pattern(dims@, entries_pairs(order), c0_dim as nat, c1_dim as nat, m));
        if total(dims@) <= c0_dim {
            lemma_coboundary_rows_balanced(dims@, order, c0_dim as nat, c1_dim as nat, m);
            assert forall|r: int| 0 <= r < c1_dim implies #[trigger] row_sum(d0@[r]@) == 0 by {
                assert(m[r] == d0@[r]@);
            }
        }
    }
    d0
}

/// The dimensions of the stalks at the points `0 .. n` that carry one, in
/// the order of the points.
pub open spec fn listed_dims(stalks: Map<usize, Stalk>, n: nat) -> Seq<usize>
    decreases n,
{
    if n == 0 {
        Seq::empty()
    } else {
        let p = (n - 1) as usize;
        let rest = listed_dims(stalks, (n - 1) as nat);
        if stalks.contains_key(p) {
            rest.push(stalks[p].spec_dimension() as usize)
        } else {
            rest
        }
    }
}

/// The dimensions of the stalks at the listed points, summed, each point as
/// often as it is listed; a point without a stalk counts zero.
pub open spec fn points_dim(stalks: Map<usize, Stalk>, pts: Seq<usize>) -> nat
    decreases pts.len(),
{
    if pts.len() == 0 {
        0
    } else {
        points_dim(stalks, pts.drop_last()) + if stalks.contains_key(pts.last()) {
            stalks[pts.last()].spec_dimension()
        } else {
            0
        }
    }
}

/// The dimension of C¹: the stalk dimensions summed over the open sets that
/// hold exactly two points.
pub open spec fn pair_sets_dim(stalks: Map<usize, Stalk>, sets: Seq<OpenSet>) -> nat
    decreases sets.len(),
{
    if sets.len() == 0 {
        0
    } else {
        pair_sets_dim(stalks, sets.drop_last()) + if sets.last().points@.len() == 2 {
            points_dim(stalks, sets.last().points@)
        } else {
            0
        }
    }
}

/// The dimensions of the stalks at the points `0 .. n`, where `n` is the
/// number of stalks, skipping the points that carry none.
pub fn stalk_dimensions(stalks: &BTreeMap<usize, Stalk>) -> (dims: Vec<usize>)
    ensures
        dims@ == listed_dims(stalks@, stalks.len() as nat),
{
    let n = stalks.len();
    let mut dims: Vec<usize> = Vec::new();
    let mut i: usize = 0;
    while i < n
        invariant
            i <= n,
            n == stalks.len(),
            dims@ == listed_dims(stalks@, i as nat),
        decreases n - i,
    {
        match stalks.get(&i) {
            Some(s) => {
                dims.push(s.dimension());
            },
            None => {},
        }
        i = i + 1;
    }
    dims
}

/// The dimensions of C⁰ and C¹: the sum of `dims`, and the stalk dimensions
/// summed over the two-point open sets of `space`; `None` exactly when one
/// of the two exceeds `usize::MAX`.
pub fn cochain_dimensions(dims: &Vec<usize>, stalks: &BTreeMap<usize, Stalk>, space: &SheafSpace) -> (r: Option<(usize, usize)>)
    ensures
        r is Some <==> total(dims@) <= usize::MAX && pair_sets_dim(stalks@, space.open_sets@) <= usize::MAX,
        r matches Some((c0, c1)) ==> c0 == total(dims@) && c1 == pair_sets_dim(stalks@, space.open_sets@),
{
    let mut c0: usize = 0;
    let mut i: usize = 0;
    while i < dims.len()
        invariant
            i <= dims@.len(),
            c0 == total(dims@.take(i as int)),
        decreases dims@.len() - i,
    {
        proof {
            assert(dims@.take(i + 1).drop_last() =~= dims@.take(i as int));
            lemma_total_prefix(dims@, i + 1);
        }
        match c0.checked_add(dims[i]) {
            Some(s) => {
                c0 = s;
            },
            None => {
                return None;
            },
        }
        i = i + 1;
    }
    assert(dims@.take(dims@.len() as int) =~= dims@);
    let sets = &space.open_sets;
    let mut c1: usize = 0;
    let mut t: usize = 0;
    while t < sets.len()
        invariant
            sets@ == space.open_sets@,
            t <= sets@.len(),
            c0 == total(dims@),
            c1 == pair_sets_dim(stalks@, sets@.take(t as int)),
        decreases sets@.len() - t,
    {
        proof {
            assert(sets@.take(t + 1).drop_last() =~= sets@.take(t as int));
            lemma_pair_sets_prefix(stalks@, sets@, t + 1);
        }
        let pts = &sets[t].points;
        if pts.len() == 2 {
            let mut s: usize = 0;
            let mut k: usize = 0;
            while k < pts.len()
                invariant
                    sets@ == space.open_sets@,
                    t < sets@.len(),
                    pts@ == sets@[t as int].points@,
                    pts@.len() == 2,
                    k <= pts@.len(),
                    s == points_dim(stalks@, pts@.take(k as int)),
                decreases pts@.len() - k,
            {
                proof {
                    assert(pts@.take(k + 1).drop_last() =~= pts@.take(k as int));
                    assert(pts@.take(k + 1).last() == pts@[k as int]);
                    lemma_points_dim_prefix(stalks@, pts@, k + 1);
                }
                match stalks.get(&pts[k]) {
                    Some(st) => {
                        match s.checked_add(st.dimension()) {
                            Some(x) => {
                                s = x;
                            },
                            None => {
                                proof {
                                    assert(pts@.take(2) =~= pts@);
                                    lemma_pair_sets_last(stalks@, sets@, t as int);
                                }
                                return None;
                            },
                        }
                    },
                    None => {},
                }
                k = k + 1;
            }
            proof {
                assert(pts@.take(pts@.len() as int) =~= pts@);
                assert(sets@.take(t + 1).last() == sets@[t as int]);
            }
            match c1.checked_add(s) {
                Some(x) => {
                    c1 = x;
                },
                None => {
                    return None;
                },
            }
        }
        t = t + 1;
    }
    assert(sets@.take(sets@.len() as int) =~= sets@);
    Some((c0, c1))
}

/// The sum of the dimensions of all stalks, their points listed in
/// increasing order; `None` exactly when it exceeds `usize::MAX`.
pub fn total_dimension(stalks: &BTreeMap<usize, Stalk>) -> (r: Option<usize>)
    ensures
        forall|keys: Seq<usize>|
            strictly_increasing(keys) && keys.to_set() == stalks@.dom() ==> {
                &&& (r is Some <==> points_dim(stalks@, keys) <= usize::MAX)
                &&& (r matches Some(t) ==> t == points_dim(stalks@, keys))
            },
{
    broadcast use vstd::std_specs::btree::group_btree_axioms;
    let entries = stalks.iter();
    let ghost all = entries.remaining();
    let ghost ks = all.map_values(|kv: (&usize, &Stalk)| *kv.0);
    let ghost mut count: int = 0;
    proof {
        assert(strictly_increasing(ks)) by {
            assert forall|i: int, j: int| 0 <= i < j < ks.len() implies ks[i] < ks[j] by {
                assert(ks[i].cmp_spec(&ks[j]) is Less);
            }
        }
        assert(ks.to_set() =~= stalks@.dom()) by {
            assert forall|k: usize| ks.to_set().contains(k) implies stalks@.dom().contains(k) by {
                let i = choose|i: int| 0 <= i < ks.len() && ks[i] == k;
                assert(stalks@.contains_key(*all[i].0));
            }
            assert forall|k: usize| stalks@.dom().contains(k) implies ks.to_set().contains(k) by {
                assert(all.contains((&k, &stalks@[k])));
                let i = choose|i: int| 0 <= i < all.len() && all[i] == (&k, &stalks@[k]);
                assert(ks[i] == k);
            }
        }
    }
    let mut t: usize = 0;
    for (p, st) in it: entries
        invariant
            it.seq() == all,
            count == it.index(),
            ks == all.map_values(|kv: (&usize, &Stalk)| *kv.0),
            strictly_increasing(ks),
            ks.to_set() == stalks@.dom(),
            forall|i: int| 0 <= i < all.len() ==> stalks@.contains_key(*all[i].0) && stalks@[*all[i].0] == *all[i].1,
            t == points_dim(stalks@, ks.take(count)),
    {
        proof {
            assert(all[count] == (p, st));
            assert(ks.take(count + 1).drop_last() =~= ks.take(count));
            assert(ks.take(count + 1).last() == *p);
            lemma_points_dim_prefix(stalks@, ks, count + 1);
        }
        match t.checked_add(st.dimension()) {
            Some(x) => {
                t = x;
            },
            None => {
                proof {
                    assert forall|keys: Seq<usize>| strictly_increasing(keys) && keys.to_set() == stalks@.dom() implies points_dim(stalks@, keys) > usize::MAX by {
                        lemma_strictly_increasing_unique(keys, ks);
                    }
                }
                return None;
            },
        }
        proof {
            count = count + 1;
        }
    }
    proof {
        assert(ks.take(count) =~= ks);
        assert forall|keys: Seq<usize>| strictly_increasing(keys) && keys.to_set() == stalks@.dom() implies points_dim(stalks@, keys) == t by {
            lemma_strictly_increasing_unique(keys, ks);
        }
    }
    Some(t)
}

/// A prefix of a list of points has no larger stalk dimension than the list.
proof fn lemma_points_dim_prefix(stalks: Map<usize, Stalk>, pts: Seq<usize>, k: int)
    requires
        0 <= k <= pts.len(),
    ensures
        points_dim(stalks, pts.take(k)) <= points_dim(stalks, pts),
    decreases pts.len(),
{
    if k < pts.len() {
        assert(pts.drop_last().take(k) =~= pts.take(k));
        lemma_points_dim_prefix(stalks, pts.drop_last(), k);
    } else {
        assert(pts.take(k) =~= pts);
    }
}

/// A prefix of a list of open sets has no larger C¹ dimension than the list.
proof fn lemma_pair_sets_prefix(stalks: Map<usize, Stalk>, sets: Seq<OpenSet>, k: int)
    requires
        0 <= k <= sets.len(),
    ensures
        pair_sets_dim(stalks, sets.take(k)) <= pair_sets_dim(stalks, sets),
    decreases sets.len(),
{
    if k < sets.len() {
        assert(sets.drop_last().take(k) =~= sets.take(k));
        lemma_pair_sets_prefix(stalks, sets.drop_last(), k);
    } else {
        assert(sets.take(k) =~= sets);
    }
}

/// A single two-point open set contributes no more than the whole list.
proof fn lemma_pair_sets_last(stalks: Map<usize, Stalk>, sets: Seq<OpenSet>, t: int)
    requires
        0 <= t < sets.len(),
        sets[t].points@.len() == 2,
    ensures
        points_dim(stalks, sets[t].points@) <= pair_sets_dim(stalks, sets),
{
    let p = sets.take(t + 1);
    assert(p.drop_last() =~= sets.take(t));
    assert(p.last() == sets[t]);
    lemma_pair_sets_prefix(stalks, sets, t + 1);
}

/// The sum of the entries of a row: the row applied to the vector whose
/// coordinates are all 1.
pub open spec fn row_sum(row: Seq<i8>) -> int
    decreases row.len(),
{
    if row.len() == 0 {
        0
    } else {
        row_sum(row.drop_last()) + row.last() as int
    }
}

/// Each edge of an adjacency walk is taken from its smaller end.
proof fn lemma_entries_pairs_forward(order: Seq<(usize, Seq<usize>)>)
    ensures
        forall|t: int| 0 <= t < entries_pairs(order).len() ==> (#[trigger] entries_pairs(order)[t]).0 < entries_pairs(order)[t].1,
    decreases order.len(),
{
    if order.len() > 0 {
        lemma_entries_pairs_forward(order.drop_last());
        lemma_forward_pairs_forward(order.last().0, order.last().1);
        let a = entries_pairs(order.drop_last());
        let b = forward_pairs(order.last().0, order.last().1);
        assert forall|t: int| 0 <= t < (a + b).len() implies (#[trigger] (a + b)[t]).0 < (a + b)[t].1 by {
            if t >= a.len() {
                assert((a + b)[t] == b[t - a.len()]);
            }
        }
    }
}

/// The pairs taken from one end are taken from the smaller end.
proof fn lemma_forward_pairs_forward(a: usize, nbrs: Seq<usize>)
    ensures
        forall|t: int| 0 <= t < forward_pairs(a, nbrs).len() ==> (#[trigger] forward_pairs(a, nbrs)[t]).0 < forward_pairs(a, nbrs)[t].1,
    decreases nbrs.len(),
{
    if nbrs.len() > 0 {
        lemma_forward_pairs_forward(a, nbrs.drop_last());
        let p = forward_pairs(a, nbrs.drop_last());
        if a < nbrs.last() {
            assert forall|t: int| 0 <= t < p.push((a, nbrs.last())).len() implies (#[trigger] p.push((a, nbrs.last()))[t]).0 < p.push((a, nbrs.last()))[t].1 by {
                if t < p.len() {
                    assert(p.push((a, nbrs.last()))[t] == p[t]);
                }
            }
        }
    }
}

/// The coordinates of an earlier stalk come before those of a later one.
proof fn lemma_offsets_ordered(dims: Seq<usize>, i: usize, j: usize)
    requires
        i < j < dims.len(),
    ensures
        offset(dims, i) + dims[i as int] <= offset(dims, j),
{
    let t = dims.take(i + 1);
    assert(t.drop_last() =~= dims.take(i as int));
    assert(t.last() == dims[i as int]);
    assert(dims.take(j as int).take(i + 1) =~= t);
    lemma_total_prefix(dims.take(j as int), i + 1);
}

/// Row `r` holds -1 in column `lo`, +1 in column `hi` and zero elsewhere,
/// with `lo < hi` among the coordinates of C⁰.
spec fn signed_pair(dims: Seq<usize>, edges: Seq<(usize, usize)>, start: nat, r: nat, lo: nat, hi: nat) -> bool {
    lo < hi < total(dims) && forall|c: nat|
        #[trigger] sign_at(dims, edges, start, r, c) == if c == lo {
            -1int
        } else if c == hi {
            1int
        } else {
            0int
        }
}

/// A row of the sign pattern of forward edges is zero, or holds a single -1
/// and a single +1, the -1 first, both among the coordinates of C⁰.
proof fn lemma_sign_row(dims: Seq<usize>, edges: Seq<(usize, usize)>, start: nat, r: nat)
    requires
        forall|t: int| 0 <= t < edges.len() ==> (#[trigger] edges[t]).0 < edges[t].1,
    ensures
        (forall|c: nat| #[trigger] sign_at(dims, edges, start, r, c) == 0) || exists|lo: nat, hi: nat|
            #[trigger] signed_pair(dims, edges, start, r, lo, hi),
    decreases edges.len(),
{
    if edges.len() > 0 {
        let e = edges[0];
        let b = block(dims, e);
        if start <= r < start + b {
            let k = (r - start) as nat;
            assert(e.0 < e.1);
            assert(e.0 < dims.len() && e.1 < dims.len());
            lemma_offsets_ordered(dims, e.0, e.1);
            lemma_offset_bound(dims, e.1);
            let lo = offset(dims, e.0) + k;
            let hi = offset(dims, e.1) + k;
            assert(signed_pair(dims, edges, start, r, lo, hi));
        } else {
            let rest = edges.drop_first();
            assert forall|t: int| 0 <= t < rest.len() implies (#[trigger] rest[t]).0 < rest[t].1 by {
                assert(rest[t] == edges[t + 1]);
            }
            lemma_sign_row(dims, rest, start + b, r);
            assert(forall|c: nat| #[trigger] sign_at(dims, edges, start, r, c) == sign_at(dims, rest, start + b, r, c));
            if !forall|c: nat| #[trigger] sign_at(dims, rest, start + b, r, c) == 0 {
                let (lo, hi) = choose|lo: nat, hi: nat| #[trigger] signed_pair(dims, rest, start + b, r, lo, hi);
                assert(signed_pair(dims, edges, start, r, lo, hi));
            }
        }
    }
}

/// A row with a single -1 and a single +1 sums to zero; a zero row too.
proof fn lemma_row_sum_balanced(row: Seq<i8>, lo: int, hi: int, m: int)
    requires
        0 <= m <= row.len(),
        forall|c: int| 0 <= c < row.len() ==> #[trigger] row[c] as int == if c == lo {
            -1int
        } else if c == hi {
            1int
        } else {
            0int
        },
    ensures
        row_sum(row.take(m)) == (if 0 <= lo < m {
            -1int
        } else {
            0int
        }) + (if 0 <= hi < m && hi != lo {
            1int
        } else {
            0int
        }),
    decreases m,
{
    if m > 0 {
        assert(row.take(m).drop_last() =~= row.take(m - 1));
        assert(row.take(m).last() == row[m - 1]);
        lemma_row_sum_balanced(row, lo, hi, m - 1);
    } else {
        assert(row.take(0).len() == 0);
    }
}

/// In the coboundary of a walk, every row sums to zero when the matrix has a
/// column for every coordinate of C⁰.
proof fn lemma_coboundary_rows_balanced(dims: Seq<usize>, order: Seq<(usize, Seq<usize>)>, c0_dim: nat, c1_dim: nat, d0: Seq<Seq<i8>>)
    requires
        is_coboundary_pattern(dims, entries_pairs(order), c0_dim, c1_dim, d0),
        total(dims) <= c0_dim,
    ensures
        forall|r: int| 0 <= r < c1_dim ==> #[trigger] row_sum(d0[r]) == 0,
{
    let es = entries_pairs(order);
    lemma_entries_pairs_forward(order);
    assert forall|r: int| 0 <= r < c1_dim implies #[trigger] row_sum(d0[r]) == 0 by {
        let row = d0[r];
        lemma_sign_row(dims, es, 0, r as nat);
        assert(row.take(row.len() as int) =~= row);
        if forall|c: nat| #[trigger] sign_at(dims, es, 0, r as nat, c) == 0 {
            assert forall|c: int| 0 <= c < row.len() implies #[trigger] row[c] as int == if c == -1 {
                -1int
            } else if c == -1 {
                1int
            } else {
                0int
            } by {
                assert(sign_at(dims, es, 0, r as nat, c as nat) == 0);
            }
            lemma_row_sum_balanced(row, -1, -1, row.len() as int);
        } else {
            let (lo, hi) = choose|lo: nat, hi: nat| #[trigger] signed_pair(dims, es, 0, r as nat, lo, hi);
            assert forall|c: int| 0 <= c < row.len() implies #[trigger] row[c] as int == if c == lo {
                -1int
            } else if c == hi {
                1int
            } else {
                0int
            } by {
                assert(sign_at(dims, es, 0, r as nat, c as nat) == row[c] as int);
            }
            lemma_row_sum_balanced(row, lo as int, hi as int, row.len() as int);
        }
    }
}

} // verus!
