//! Sorted, duplicate-free vectors: the representation of point sets and of
//! lists of simplices, together with the lexicographic order on point lists.
use vstd::prelude::*;

verus! {

/// `s` is strictly increasing (hence sorted and free of duplicates).
pub open spec fn strictly_increasing(s: Seq<usize>) -> bool {
    forall|i: int, j: int| 0 <= i < j < s.len() ==> s[i] < s[j]
}

/// Two strictly increasing sequences with the same elements are equal.
pub proof fn lemma_strictly_increasing_unique(a: Seq<usize>, b: Seq<usize>)
    requires
        strictly_increasing(a),
        strictly_increasing(b),
        a.to_set() == b.to_set(),
    ensures
        a == b,
    decreases a.len(),
{
    if a.len() == 0 {
        if b.len() > 0 {
            assert(b.to_set().contains(b[0]));
        }
        assert(a =~= b);
    } else if b.len() == 0 {
        assert(a.to_set().contains(a[0]));
    } else {
        // The first elements are the minima of the common set.
        assert(b.to_set().contains(a[0]));
        assert(a.to_set().contains(b[0]));
        let ia = choose|i: int| 0 <= i < a.len() && a[i] == b[0];
        let ib = choose|i: int| 0 <= i < b.len() && b[i] == a[0];
        assert(a[0] <= b[0]) by {
            if ia > 0 {
                assert(a[0] < a[ia]);
            }
        }
        assert(b[0] <= a[0]) by {
            if ib > 0 {
                assert(b[0] < b[ib]);
            }
        }
        let ta = a.drop_first();
        let tb = b.drop_first();
        assert(ta.to_set() =~= tb.to_set()) by {
            assert forall|x: usize| ta.to_set().contains(x) implies tb.to_set().contains(x) by {
                let i = choose|i: int| 0 <= i < ta.len() && ta[i] == x;
                assert(a[i + 1] == x);
                assert(a[0] < a[i + 1]);
                assert(b.to_set().contains(x));
                let j = choose|j: int| 0 <= j < b.len() && b[j] == x;
                assert(j != 0);
                assert(tb[j - 1] == x);
            }
            assert forall|x: usize| tb.to_set().contains(x) implies ta.to_set().contains(x) by {
                let i = choose|i: int| 0 <= i < tb.len() && tb[i] == x;
                assert(b[i + 1] == x);
                assert(b[0] < b[i + 1]);
                assert(a.to_set().contains(x));
                let j = choose|j: int| 0 <= j < a.len() && a[j] == x;
                assert(j != 0);
                assert(ta[j - 1] == x);
            }
        }
        lemma_strictly_increasing_unique(ta, tb);
        assert(a =~= seq![a[0]] + ta);
        assert(b =~= seq![b[0]] + tb);
    }
}

/// Inserts `x` into the strictly increasing vector `v`, keeping it strictly
/// increasing; nothing changes when `x` is already there.
pub fn insert_sorted(v: &mut Vec<usize>, x: usize)
    requires
        strictly_increasing(old(v)@),
    ensures
        strictly_increasing(final(v)@),
        final(v)@.to_set() == old(v)@.to_set().insert(x),
{
    let ghost s = v@;
    let mut i: usize = 0;
    while i < v.len() && v[i] < x
        invariant
            v@ == s,
            strictly_increasing(s),
            i <= s.len(),
            forall|k: int| 0 <= k < i ==> s[k] < x,
        decreases s.len() - i,
    {
        i = i + 1;
    }
    if i < v.len() && v[i] == x {
        assert(s.to_set().insert(x) =~= s.to_set());
        return;
    }
    v.insert(i, x);
    proof {
        let t = v@;
        assert(t =~= s.insert(i as int, x));
        assert forall|a: int, b: int| 0 <= a < b < t.len() implies t[a] < t[b] by {
            if b < i {
            } else if b == i {
            } else if a < i {
                assert(s[b - 1] > x);
            } else if a == i {
                assert(s[b - 1] >= s[i as int]);
            } else {
            }
        }
        assert forall|y: usize| t.to_set().contains(y) implies s.to_set().insert(x).contains(y) by {
            let k = choose|k: int| 0 <= k < t.len() && t[k] == y;
            if k < i {
                assert(s[k] == y);
            } else if k > i {
                assert(s[k - 1] == y);
            }
        }
        assert forall|y: usize| s.to_set().insert(x).contains(y) implies t.to_set().contains(y) by {
            if y == x {
                assert(t[i as int] == x);
            } else {
                let k = choose|k: int| 0 <= k < s.len() && s[k] == y;
                if k < i {
                    assert(t[k] == y);
                } else {
                    assert(t[k + 1] == y);
                }
            }
        }
        assert(t.to_set() =~= s.to_set().insert(x));
    }
}

/// The lexicographic order on point lists, as `Ord` orders vectors:
/// a proper prefix comes first.
pub open spec fn lex_lt(a: Seq<usize>, b: Seq<usize>) -> bool
    decreases a.len(),
{
    if a.len() == 0 {
        b.len() > 0
    } else if b.len() == 0 {
        false
    } else if a[0] < b[0] {
        true
    } else if a[0] > b[0] {
        false
    } else {
        lex_lt(a.drop_first(), b.drop_first())
    }
}

/// No list comes before itself.
pub proof fn lemma_lex_irreflexive(a: Seq<usize>)
    ensures
        !lex_lt(a, a),
    decreases a.len(),
{
    if a.len() > 0 {
        lemma_lex_irreflexive(a.drop_first());
    }
}

/// The lexicographic order is transitive.
pub proof fn lemma_lex_transitive(a: Seq<usize>, b: Seq<usize>, c: Seq<usize>)
    requires
        lex_lt(a, b),
        lex_lt(b, c),
    ensures
        lex_lt(a, c),
    decreases a.len(),
{
    if a.len() > 0 && b.len() > 0 && c.len() > 0 {
        if a[0] == b[0] && b[0] == c[0] {
            lemma_lex_transitive(a.drop_first(), b.drop_first(), c.drop_first());
        }
    }
}

/// Of two different lists, one comes before the other.
pub proof fn lemma_lex_total(a: Seq<usize>, b: Seq<usize>)
    requires
        a != b,
    ensures
        lex_lt(a, b) || lex_lt(b, a),
    decreases a.len(),
{
    if a.len() == 0 {
        assert(b.len() > 0) by {
            if b.len() == 0 {
                assert(a =~= b);
            }
        }
    } else if b.len() == 0 {
    } else if a[0] == b[0] {
        assert(a.drop_first() != b.drop_first()) by {
            if a.drop_first() == b.drop_first() {
                assert(a =~= seq![a[0]] + a.drop_first());
                assert(b =~= seq![b[0]] + b.drop_first());
            }
        }
        lemma_lex_total(a.drop_first(), b.drop_first());
    }
}

/// Compares two point lists lexicographically.
pub fn lex_less(a: &Vec<usize>, b: &Vec<usize>) -> (r: bool)
    ensures
        r == lex_lt(a@, b@),
{
    let mut i: usize = 0;
    assert(a@.skip(0) =~= a@);
    assert(b@.skip(0) =~= b@);
    while i < a.len() && i < b.len() && a[i] == b[i]
        invariant
            i <= a.len(),
            i <= b.len(),
            lex_lt(a@, b@) == lex_lt(a@.skip(i as int), b@.skip(i as int)),
        decreases a.len() - i,
    {
        assert(a@.skip(i as int).drop_first() =~= a@.skip(i + 1));
        assert(b@.skip(i as int).drop_first() =~= b@.skip(i + 1));
        i = i + 1;
    }
    if i == a.len() {
        i < b.len()
    } else if i == b.len() {
        false
    } else {
        a[i] < b[i]
    }
}

/// Equality of two point lists.
pub fn seq_equal(a: &Vec<usize>, b: &Vec<usize>) -> (r: bool)
    ensures
        r == (a@ == b@),
{
    if a.len() != b.len() {
        return false;
    }
    let mut i: usize = 0;
    while i < a.len()
        invariant
            a.len() == b.len(),
            i <= a.len(),
            forall|k: int| 0 <= k < i ==> a@[k] == b@[k],
        decreases a.len() - i,
    {
        if a[i] != b[i] {
            return false;
        }
        i = i + 1;
    }
    assert(a@ =~= b@);
    true
}

/// `s` is strictly increasing in the lexicographic order.
pub open spec fn lex_sorted(s: Seq<Seq<usize>>) -> bool {
    forall|i: int, j: int| 0 <= i < j < s.len() ==> lex_lt(#[trigger] s[i], #[trigger] s[j])
}

/// The point lists held by a vector of vectors.
pub open spec fn views(v: Seq<Vec<usize>>) -> Seq<Seq<usize>> {
    v.map_values(|x: Vec<usize>| x@)
}

/// Inserts the point list `x` into the lexicographically sorted,
/// duplicate-free list `v`; nothing changes when `x` is already there.
pub fn insert_lex_sorted(v: &mut Vec<Vec<usize>>, x: Vec<usize>)
    requires
        lex_sorted(views(old(v)@)),
    ensures
        lex_sorted(views(final(v)@)),
        views(final(v)@).to_set() == views(old(v)@).to_set().insert(x@),
{
    let ghost s = views(v@);
    let mut i: usize = 0;
    while i < v.len() && lex_less(&v[i], &x)
        invariant
            views(v@) == s,
            lex_sorted(s),
            i <= s.len(),
            forall|k: int| 0 <= k < i ==> lex_lt(#[trigger] s[k], x@),
        decreases s.len() - i,
    {
        assert(s[i as int] == v@[i as int]@);
        i = i + 1;
    }
    if i < v.len() && seq_equal(&v[i], &x) {
        assert(s[i as int] == x@);
        assert(s.to_set().insert(x@) =~= s.to_set());
        return;
    }
    let ghost xv = x@;
    proof {
        if i < s.len() {
            assert(s[i as int] == v@[i as int]@);
            assert(s[i as int] != xv);
            assert(!lex_lt(s[i as int], xv));
            lemma_lex_total(s[i as int], xv);
        }
    }
    v.insert(i, x);
    proof {
        let t = views(v@);
        assert(t =~= s.insert(i as int, xv));
        assert forall|a: int, b: int| 0 <= a < b < t.len() implies lex_lt(#[trigger] t[a], #[trigger] t[b]) by {
            if b < i {
                assert(lex_lt(s[a], s[b]));
            } else if b == i {
                assert(lex_lt(s[a], xv));
            } else if a < i {
                assert(lex_lt(s[a], xv));
                if b - 1 > i {
                    assert(lex_lt(s[i as int], s[b - 1]));
                    lemma_lex_transitive(xv, s[i as int], s[b - 1]);
                }
                lemma_lex_transitive(s[a], xv, s[b - 1]);
            } else if a == i {
                if b - 1 > i {
                    assert(lex_lt(s[i as int], s[b - 1]));
                    lemma_lex_transitive(xv, s[i as int], s[b - 1]);
                }
            } else {
                assert(lex_lt(s[a - 1], s[b - 1]));
            }
        }
        assert forall|y: Seq<usize>| t.to_set().contains(y) implies s.to_set().insert(xv).contains(y) by {
            let k = choose|k: int| 0 <= k < t.len() && t[k] == y;
            if k < i {
                assert(s[k] == y);
            } else if k > i {
                assert(s[k - 1] == y);
            }
        }
        assert forall|y: Seq<usize>| s.to_set().insert(xv).contains(y) implies t.to_set().contains(y) by {
            if y == xv {
                assert(t[i as int] == xv);
            } else {
                let k = choose|k: int| 0 <= k < s.len() && s[k] == y;
                if k < i {
                    assert(t[k] == y);
                } else {
                    assert(t[k + 1] == y);
                }
            }
        }
        assert(t.to_set() =~= s.to_set().insert(xv));
    }
}

} // verus!
