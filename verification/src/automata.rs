//! Deterministic and non-deterministic finite automata, whose states become
//! the stalks of a language sheaf.
use std::collections::{BTreeMap, BTreeSet};
use vstd::prelude::*;
use vstd::std_specs::iter::IteratorSpec;

use crate::sheaf::{range_points, Stalk};
use crate::sorted::{insert_sorted, lemma_strictly_increasing_unique, seq_equal, strictly_increasing};
use crate::text::{decimal, push_decimal};

verus! {

/// The state a deterministic transition table reaches from `q` on `word`,
/// or `None` when it gets stuck on a missing transition.
pub open spec fn dfa_run(trans: Map<(usize, usize), usize>, q: usize, word: Seq<usize>) -> Option<
    usize,
>
    decreases word.len(),
{
    if word.len() == 0 {
        Some(q)
    } else if trans.contains_key((q, word[0])) {
        dfa_run(trans, trans[(q, word[0])], word.drop_first())
    } else {
        None
    }
}

/// State `s` is marked accepting (a state without a mark is not).
pub open spec fn is_accepting(accepting: Seq<bool>, s: usize) -> bool {
    s < accepting.len() && accepting[s as int]
}

/// The stalk of an automaton: its state indices `0 .. n` and their
/// accepting marks.
pub open spec fn automaton_stalk(s: Stalk, n: nat, accepting: Seq<bool>) -> bool {
    s matches Stalk::AutomatonState { states, accepting: acc } && states@ == range_points(n)
        && acc@ == accepting
}

/// A deterministic finite automaton.
#[derive(Debug, Clone)]
pub struct Dfa {
    pub states: Vec<String>,
    pub alphabet: Vec<String>,
    /// transitions[(state_index, symbol_index)] → target state index.
    pub transitions: BTreeMap<(usize, usize), usize>,
    pub initial: usize,
    pub accepting: Vec<bool>,
}

impl Dfa {
    /// The word is accepted: the run does not get stuck and ends in an
    /// accepting state.
    pub open spec fn accepts_word(&self, word: Seq<usize>) -> bool {
        match dfa_run(self.transitions@, self.initial, word) {
            Some(s) => is_accepting(self.accepting@, s),
            None => false,
        }
    }

    pub fn new(states: Vec<String>, alphabet: Vec<String>, initial: usize, accepting: Vec<bool>) -> (d: Dfa)
        ensures
            d.states@ == states@,
            d.alphabet@ == alphabet@,
            d.transitions@ == Map::<(usize, usize), usize>::empty(),
            d.initial == initial,
            d.accepting@ == accepting@,
    {
        Dfa { states, alphabet, transitions: BTreeMap::new(), initial, accepting }
    }

    pub fn add_transition(&mut self, from: usize, symbol: usize, to: usize)
        ensures
            final(self).transitions@ == old(self).transitions@.insert((from, symbol), to),
            final(self).states@ == old(self).states@,
            final(self).alphabet@ == old(self).alphabet@,
            final(self).initial == old(self).initial,
            final(self).accepting@ == old(self).accepting@,
    {
        self.transitions.insert((from, symbol), to);
    }

    /// Run the DFA on a word, returning final state index (or None if stuck).
    pub fn run(&self, word: &[usize]) -> (r: Option<usize>)
        ensures
            r == dfa_run(self.transitions@, self.initial, word@),
    {
        let mut current = self.initial;
        let mut i: usize = 0;
        assert(word@.skip(0) =~= word@);
        while i < word.len()
            invariant
                i <= word@.len(),
                dfa_run(self.transitions@, self.initial, word@) == dfa_run(
                    self.transitions@,
                    current,
                    word@.skip(i as int),
                ),
            decreases word@.len() - i,
        {
            let sym = word[i];
            assert(word@.skip(i as int).drop_first() =~= word@.skip(i + 1));
            match self.transitions.get(&(current, sym)) {
                Some(next) => {
                    current = *next;
                },
                None => {
                    return None;
                },
            }
            i = i + 1;
        }
        Some(current)
    }

    /// Check if a word is accepted.
    pub fn accepts(&self, word: &[usize]) -> (r: bool)
        ensures
            r == self.accepts_word(word@),
    {
        match self.run(word) {
            Some(s) => s < self.accepting.len() && self.accepting[s],
            None => false,
        }
    }

    /// Number of states.
    pub fn n_states(&self) -> (n: usize)
        ensures
            n == self.states@.len(),
    {
        self.states.len()
    }

    /// Convert this DFA into a sheaf stalk at a point.
    pub fn to_stalk(&self) -> (s: Stalk)
        ensures
            automaton_stalk(s, self.states@.len(), self.accepting@),
    {
        Stalk::AutomatonState { states: state_indices(self.states.len()), accepting: copy_flags(&self.accepting) }
    }
}

/// The indices `0 .. n` as a vector.
fn state_indices(n: usize) -> (v: Vec<usize>)
    ensures
        v@ == range_points(n as nat),
{
    let mut v: Vec<usize> = Vec::new();
    let mut i: usize = 0;
    while i < n
        invariant
            i <= n,
            v@ == range_points(i as nat),
        decreases n - i,
    {
        v.push(i);
        i = i + 1;
        assert(v@ =~= range_points(i as nat));
    }
    v
}

/// A copy of a vector of flags.
fn copy_flags(v: &Vec<bool>) -> (c: Vec<bool>)
    ensures
        c@ == v@,
{
    let mut c: Vec<bool> = Vec::new();
    let mut i: usize = 0;
    while i < v.len()
        invariant
            i <= v@.len(),
            c@ == v@.take(i as int),
        decreases v@.len() - i,
    {
        c.push(v[i]);
        i = i + 1;
        assert(c@ =~= v@.take(i as int));
    }
    assert(v@.take(v@.len() as int) =~= v@);
    c
}

/// The targets of the transitions from `q` on `a` (none when there is no
/// entry).
pub open spec fn targets(trans: Map<(usize, usize), Set<usize>>, q: usize, a: usize) -> Set<usize> {
    if trans.contains_key((q, a)) {
        trans[(q, a)]
    } else {
        Set::empty()
    }
}

/// The states reachable from some state of `current` by one transition on
/// `a`.
pub open spec fn nfa_step(trans: Map<(usize, usize), Set<usize>>, current: Set<usize>, a: usize) -> Set<
    usize,
> {
    Set::new(|t: usize| exists|q: usize| current.contains(q) && targets(trans, q, a).contains(t))
}

/// The states reachable from `current` on `word`.
pub open spec fn nfa_run(trans: Map<(usize, usize), Set<usize>>, current: Set<usize>, word: Seq<
    usize,
>) -> Set<usize>
    decreases word.len(),
{
    if word.len() == 0 {
        current
    } else {
        nfa_run(trans, nfa_step(trans, current, word[0]), word.drop_first())
    }
}

/// Some state of `set` is marked accepting.
pub open spec fn any_accepting(accepting: Seq<bool>, set: Set<usize>) -> bool {
    exists|s: usize| set.contains(s) && is_accepting(accepting, s)
}

/// A non-deterministic finite automaton.
#[derive(Debug, Clone)]
pub struct Nfa {
    pub states: Vec<String>,
    pub alphabet: Vec<String>,
    /// transitions[(state, symbol)] → set of target states.
    pub transitions: BTreeMap<(usize, usize), BTreeSet<usize>>,
    pub initial: usize,
    pub accepting: Vec<bool>,
}

impl Nfa {
    /// The transition relation as a map from (state, symbol) to target sets.
    pub open spec fn transition_sets(&self) -> Map<(usize, usize), Set<usize>> {
        Map::new(
            |k: (usize, usize)| self.transitions@.contains_key(k),
            |k: (usize, usize)| self.transitions@[k]@,
        )
    }

    /// The states reachable from the initial state on `word`.
    pub open spec fn reachable_on(&self, word: Seq<usize>) -> Set<usize> {
        nfa_run(self.transition_sets(), set![self.initial], word)
    }

    /// The word is accepted: some state reachable on it is accepting.
    pub open spec fn accepts_word(&self, word: Seq<usize>) -> bool {
        any_accepting(self.accepting@, self.reachable_on(word))
    }

    pub fn new(states: Vec<String>, alphabet: Vec<String>, initial: usize, accepting: Vec<bool>) -> (n: Nfa)
        ensures
            n.states@ == states@,
            n.alphabet@ == alphabet@,
            n.transition_sets() == Map::<(usize, usize), Set<usize>>::empty(),
            n.initial == initial,
            n.accepting@ == accepting@,
    {
        let n = Nfa { states, alphabet, transitions: BTreeMap::new(), initial, accepting };
        assert(n.transition_sets() =~= Map::<(usize, usize), Set<usize>>::empty());
        n
    }

    pub fn add_transition(&mut self, from: usize, symbol: usize, to: usize)
        ensures
            final(self).transition_sets() == old(self).transition_sets().insert(
                (from, symbol),
                targets(old(self).transition_sets(), from, symbol).insert(to),
            ),
            final(self).states@ == old(self).states@,
            final(self).alphabet@ == old(self).alphabet@,
            final(self).initial == old(self).initial,
            final(self).accepting@ == old(self).accepting@,
    {
        let mut set: BTreeSet<usize> = match self.transitions.get(&(from, symbol)) {
            Some(s) => s.clone(),
            None => BTreeSet::new(),
        };
        assert(set@ == targets(self.transition_sets(), from, symbol));
        set.insert(to);
        self.transitions.insert((from, symbol), set);
        assert(self.transition_sets() =~= old(self).transition_sets().insert(
            (from, symbol),
            targets(old(self).transition_sets(), from, symbol).insert(to),
        ));
    }

    /// The states reachable in one step on `sym` from some state of `current`.
    fn step(&self, current: &BTreeSet<usize>, sym: usize) -> (next: BTreeSet<usize>)
        ensures
            next@ == nfa_step(self.transition_sets(), current@, sym),
    {
        let mut next: BTreeSet<usize> = BTreeSet::new();
        let ghost all = current.iter().remaining();
        let ghost mut count: int = 0;
        for s in it: current.iter()
            invariant
                it.seq() == all,
                count == it.index(),
                next@ == Set::new(
                    |t: usize|
                        exists|k: int|
                            0 <= k < count && targets(self.transition_sets(), *all[k], sym).contains(t),
                ),
        {
            let q = *s;
            let ghost before = next@;
            match self.transitions.get(&(q, sym)) {
                Some(ts) => {
                    add_all(&mut next, ts);
                },
                None => {},
            }
            proof {
                assert(all[count] == s);
                assert(next@ =~= Set::new(
                    |t: usize|
                        exists|k: int|
                            0 <= k < count + 1 && targets(self.transition_sets(), *all[k], sym).contains(t),
                )) by {
                    assert forall|t: usize| next@.contains(t) implies exists|k: int|
                        0 <= k < count + 1 && targets(self.transition_sets(), *all[k], sym).contains(t) by {
                        if !before.contains(t) {
                            assert(targets(self.transition_sets(), *all[count], sym).contains(t));
                        }
                    }
                    assert forall|t: usize| (exists|k: int|
                        0 <= k < count + 1 && targets(self.transition_sets(), *all[k], sym).contains(t))
                        implies next@.contains(t) by {
                        let k = choose|k: int|
                            0 <= k < count + 1 && targets(self.transition_sets(), *all[k], sym).contains(t);
                        if k < count {
                            assert(before.contains(t));
                        }
                    }
                }
                count = count + 1;
            }
        }
        proof {
            assert(count == all.len());
            assert(all.unref().to_set() == current@);
            assert(next@ =~= nfa_step(self.transition_sets(), current@, sym)) by {
                assert forall|t: usize| next@.contains(t) implies nfa_step(self.transition_sets(), current@, sym).contains(t) by {
                    let k = choose|k: int|
                        0 <= k < count && targets(self.transition_sets(), *all[k], sym).contains(t);
                    assert(all.unref()[k] == *all[k]);
                    assert(current@.contains(*all[k]));
                }
                assert forall|t: usize| nfa_step(self.transition_sets(), current@, sym).contains(t) implies next@.contains(t) by {
                    let q = choose|q: usize| current@.contains(q) && targets(self.transition_sets(), q, sym).contains(t);
                    assert(all.unref().to_set().contains(q));
                    let k = choose|k: int| 0 <= k < all.unref().len() && all.unref()[k] == q;
                    assert(*all[k] == q);
                }
            }
        }
        next
    }

    /// Run the NFA, returning all reachable states.
    pub fn run(&self, word: &[usize]) -> (r: BTreeSet<usize>)
        ensures
            r@ == self.reachable_on(word@),
    {
        let mut current: BTreeSet<usize> = BTreeSet::new();
        current.insert(self.initial);
        assert(current@ =~= set![self.initial]);
        let mut i: usize = 0;
        assert(word@.skip(0) =~= word@);
        while i < word.len()
            invariant
                i <= word@.len(),
                self.reachable_on(word@) == nfa_run(self.transition_sets(), current@, word@.skip(i as int)),
            decreases word@.len() - i,
        {
            assert(word@.skip(i as int).drop_first() =~= word@.skip(i + 1));
            current = self.step(&current, word[i]);
            i = i + 1;
        }
        current
    }

    /// Check if a word is accepted.
    pub fn accepts(&self, word: &[usize]) -> (r: bool)
        ensures
            r == self.accepts_word(word@),
            r <==> exists|s: usize|
                #[trigger] self.reachable_on(word@).contains(s) && s < self.accepting@.len() && self.accepting@[s as int],
    {
        let reached = self.run(word);
        let ghost all = reached.iter().remaining();
        let ghost mut count: int = 0;
        for s in it: reached.iter()
            invariant
                it.seq() == all,
                count == it.index(),
                reached@ == self.reachable_on(word@),
                forall|k: int| 0 <= k < count ==> !is_accepting(self.accepting@, *all[k]),
        {
            let q = *s;
            proof {
                assert(all[count] == s);
            }
            if q < self.accepting.len() && self.accepting[q] {
                proof {
                    assert(all.unref()[count] == q);
                    assert(reached@.contains(q));
                }
                return true;
            }
            proof {
                count = count + 1;
            }
        }
        proof {
            assert(count == all.len());
            assert(all.unref().to_set() == reached@);
            assert forall|q: usize| reached@.contains(q) implies !is_accepting(self.accepting@, q) by {
                assert(all.unref().to_set().contains(q));
                let k = choose|k: int| 0 <= k < all.unref().len() && all.unref()[k] == q;
                assert(*all[k] == q);
            }
        }
        false
    }

    /// Convert to sheaf stalk.
    pub fn to_stalk(&self) -> (s: Stalk)
        ensures
            automaton_stalk(s, self.states@.len(), self.accepting@),
    {
        Stalk::AutomatonState { states: state_indices(self.states.len()), accepting: copy_flags(&self.accepting) }
    }
}

/// Adds every element of `src` to `dst`.
fn add_all(dst: &mut BTreeSet<usize>, src: &BTreeSet<usize>)
    ensures
        final(dst)@ == old(dst)@.union(src@),
{
    let ghost all = src.iter().remaining();
    let ghost mut count: int = 0;
    let ghost start = dst@;
    for s in it: src.iter()
        invariant
            it.seq() == all,
            count == it.index(),
            dst@ == start.union(all.unref().take(count).to_set()),
    {
        proof {
            assert(all[count] == s);
        }
        dst.insert(*s);
        proof {
            assert(all.unref().take(count + 1) =~= all.unref().take(count).push(*s));
            all.unref().take(count).lemma_push_to_set_commute(*s);
            count = count + 1;
            assert(dst@ =~= start.union(all.unref().take(count).to_set()));
        }
    }
    proof {
        assert(count == all.len());
        assert(all.unref().take(count) =~= all.unref());
        assert(all.unref().to_set() == src@);
    }
}

/// The `Debug` rendering of the elements of a set in order: decimal numbers
/// separated by `", "`.
pub open spec fn listed(s: Seq<usize>) -> Seq<char>
    decreases s.len(),
{
    if s.len() == 0 {
        Seq::empty()
    } else if s.len() == 1 {
        decimal(s[0] as nat)
    } else {
        listed(s.drop_last()) + ", "@ + decimal(s.last() as nat)
    }
}

/// The `Debug` rendering of a set of states listed in increasing order,
/// such as `{0, 2}`.
pub open spec fn set_debug(s: Seq<usize>) -> Seq<char> {
    "{"@ + listed(s) + "}"@
}

/// Every symbol of `word` is an index into an alphabet of `k` symbols.
pub open spec fn over_alphabet(word: Seq<usize>, k: nat) -> bool {
    forall|i: int| 0 <= i < word.len() ==> #[trigger] word[i] < k
}

/// `dfa` is the subset construction of `nfa`, its state `i` standing for
/// the set of NFA states listed (in increasing order) by `subsets[i]`,
/// numbered in the order of the depth-first exploration:
/// state `0` is the initial singleton, the states are distinct non-empty
/// sets reachable on words over the alphabet, each named by the `Debug`
/// rendering of its set and accepting when one of its NFA states is, and
/// the transition on a symbol of the alphabet leads to the set of NFA
/// successors, absent exactly when that set is empty.
pub open spec fn subset_construction(nfa: Nfa, dfa: Dfa, subsets: Seq<Seq<usize>>) -> bool {
    let m = nfa.transition_sets();
    let n = subsets.len();
    let k = nfa.alphabet@.len();
    &&& n > 0
    &&& dfa.states@.len() == n
    &&& dfa.accepting@.len() == n
    &&& dfa.initial == 0
    &&& dfa.alphabet@.len() == k
    &&& forall|a: int| 0 <= a < k ==> (#[trigger] dfa.alphabet@[a])@ == nfa.alphabet@[a]@
    &&& subsets[0] == seq![nfa.initial]
    &&& forall|i: int| 0 <= i < n ==> strictly_increasing(#[trigger] subsets[i])
    &&& forall|i: int| 0 <= i < n ==> (#[trigger] subsets[i]).len() > 0
    &&& forall|i: int, j: int| 0 <= i < n && 0 <= j < n && i != j ==> #[trigger] subsets[i] != #[trigger] subsets[j]
    &&& forall|i: int| 0 <= i < n ==> (#[trigger] dfa.states@[i])@ == set_debug(subsets[i])
    &&& forall|i: int| 0 <= i < n ==> #[trigger] dfa.accepting@[i] == any_accepting(nfa.accepting@, subsets[i].to_set())
    &&& forall|q: usize, a: usize| #[trigger] dfa.transitions@.contains_key((q, a)) <==> (q < n && a < k
        && nfa_step(m, subsets[q as int].to_set(), a) != Set::<usize>::empty())
    &&& forall|q: usize, a: usize| #[trigger] dfa.transitions@.contains_key((q, a)) ==> {
        &&& dfa.transitions@[(q, a)] < n
        &&& subsets[dfa.transitions@[(q, a)] as int].to_set() == nfa_step(m, subsets[q as int].to_set(), a)
    }
    &&& forall|i: int| 0 <= i < n ==> reachable_set(nfa, #[trigger] subsets[i].to_set())
    &&& depth_first_order(nfa, subsets)
}

/// The sets of NFA states listed by each list.
pub open spec fn set_list(v: Seq<Seq<usize>>) -> Seq<Set<usize>> {
    v.map_values(|x: Seq<usize>| x.to_set())
}

/// Visiting symbol `a` from the found set `idx`: a non-empty set of
/// successors not found before becomes the next found set, and its index
/// goes on the stack.
pub open spec fn visit(
    m: Map<(usize, usize), Set<usize>>,
    sets: Seq<Set<usize>>,
    stack: Seq<usize>,
    idx: int,
    a: usize,
) -> (Seq<Set<usize>>, Seq<usize>) {
    let next = nfa_step(m, sets[idx], a);
    if next == Set::<usize>::empty() || sets.contains(next) {
        (sets, stack)
    } else {
        (sets.push(next), stack.push(sets.len() as usize))
    }
}

/// Visiting the symbols `0 .. a`, in order, from the found set `idx`.
pub open spec fn visit_symbols(
    m: Map<(usize, usize), Set<usize>>,
    sets: Seq<Set<usize>>,
    stack: Seq<usize>,
    idx: int,
    a: nat,
) -> (Seq<Set<usize>>, Seq<usize>)
    decreases a,
{
    if a == 0 {
        (sets, stack)
    } else {
        let p = visit_symbols(m, sets, stack, idx, (a - 1) as nat);
        visit(m, p.0, p.1, idx, (a - 1) as usize)
    }
}

/// One step of the depth-first exploration: the most recently found set
/// still on the stack is taken off it, and each of the `k` symbols is
/// visited from it in order.
pub open spec fn explore_step(
    m: Map<(usize, usize), Set<usize>>,
    k: nat,
    st: (Seq<Set<usize>>, Seq<usize>),
) -> (Seq<Set<usize>>, Seq<usize>) {
    visit_symbols(m, st.0, st.1.drop_last(), st.1.last() as int, k)
}

/// The exploration after at most `steps` steps; it stops when the stack is
/// empty.
pub open spec fn explore(
    m: Map<(usize, usize), Set<usize>>,
    k: nat,
    st: (Seq<Set<usize>>, Seq<usize>),
    steps: nat,
) -> (Seq<Set<usize>>, Seq<usize>)
    decreases steps,
{
    if steps == 0 || st.1.len() == 0 {
        st
    } else {
        explore(m, k, explore_step(m, k, st), (steps - 1) as nat)
    }
}

/// `subsets` lists the sets in the order in which the depth-first
/// exploration from the initial singleton finds them, and the exploration
/// ends there with an empty stack.
pub open spec fn depth_first_order(nfa: Nfa, subsets: Seq<Seq<usize>>) -> bool {
    exists|steps: nat|
        #[trigger] explore(
            nfa.transition_sets(),
            nfa.alphabet@.len(),
            (seq![set![nfa.initial]], seq![0usize]),
            steps,
        ) == (set_list(subsets), Seq::<usize>::empty())
}

/// One more step of the exploration continues from where it stood.
proof fn lemma_explore_extend(
    m: Map<(usize, usize), Set<usize>>,
    k: nat,
    st: (Seq<Set<usize>>, Seq<usize>),
    steps: nat,
)
    requires
        explore(m, k, st, steps).1.len() > 0,
    ensures
        explore(m, k, st, steps + 1) == explore_step(m, k, explore(m, k, st, steps)),
    decreases steps,
{
    assert(st.1.len() > 0);
    let next = explore_step(m, k, st);
    assert(explore(m, k, st, steps + 1) == explore(m, k, next, steps));
    if steps > 0 {
        assert(explore(m, k, st, steps) == explore(m, k, next, (steps - 1) as nat));
        lemma_explore_extend(m, k, next, (steps - 1) as nat);
    } else {
        assert(explore(m, k, next, 0) == next);
    }
}

/// `s` is the set of NFA states reached on some word over the alphabet.
pub open spec fn reachable_set(nfa: Nfa, s: Set<usize>) -> bool {
    exists|w: Seq<usize>| over_alphabet(w, nfa.alphabet@.len()) && #[trigger] nfa.reachable_on(w) == s
}

/// Law: the DFA built by the subset construction accepts exactly the words
/// over the alphabet that the NFA accepts.
pub proof fn lemma_subset_construction_same_language(nfa: Nfa, dfa: Dfa, word: Seq<usize>)
    requires
        exists|subsets: Seq<Seq<usize>>| subset_construction(nfa, dfa, subsets),
        over_alphabet(word, nfa.alphabet@.len()),
    ensures
        dfa.accepts_word(word) == nfa.accepts_word(word),
{
    let subsets = choose|subsets: Seq<Seq<usize>>| subset_construction(nfa, dfa, subsets);
    let m = nfa.transition_sets();
    assert(subsets[0].to_set() =~= set![nfa.initial]) by {
        assert(subsets[0][0] == nfa.initial);
        assert(subsets[0].to_set().contains(nfa.initial));
    }
    lemma_subset_run(nfa, dfa, subsets, 0, word);
    match dfa_run(dfa.transitions@, 0, word) {
        Some(j) => {
            assert(dfa.accepting@[j as int] == any_accepting(nfa.accepting@, subsets[j as int].to_set()));
        },
        None => {
            assert(!nfa.accepts_word(word)) by {
                if nfa.accepts_word(word) {
                    let s = choose|s: usize| nfa.reachable_on(word).contains(s) && is_accepting(nfa.accepting@, s);
                }
            }
        },
    }
}

/// Running the DFA from state `q` tracks the NFA run from the set of `q`:
/// it reaches the state of the reached set, or gets stuck exactly when that
/// set is empty.
proof fn lemma_subset_run(nfa: Nfa, dfa: Dfa, subsets: Seq<Seq<usize>>, q: usize, w: Seq<usize>)
    requires
        subset_construction(nfa, dfa, subsets),
        q < subsets.len(),
        over_alphabet(w, nfa.alphabet@.len()),
    ensures
        match dfa_run(dfa.transitions@, q, w) {
            Some(j) => j < subsets.len() && subsets[j as int].to_set() == nfa_run(
                nfa.transition_sets(),
                subsets[q as int].to_set(),
                w,
            ),
            None => nfa_run(nfa.transition_sets(), subsets[q as int].to_set(), w) == Set::<usize>::empty(),
        },
    decreases w.len(),
{
    let m = nfa.transition_sets();
    if w.len() > 0 {
        let a = w[0];
        assert(a < nfa.alphabet@.len());
        let rest = w.drop_first();
        assert(over_alphabet(rest, nfa.alphabet@.len())) by {
            assert forall|i: int| 0 <= i < rest.len() implies #[trigger] rest[i] < nfa.alphabet@.len() by {
                assert(rest[i] == w[i + 1]);
            }
        }
        if dfa.transitions@.contains_key((q, a)) {
            let t = dfa.transitions@[(q, a)];
            lemma_subset_run(nfa, dfa, subsets, t, rest);
        } else {
            assert(nfa_step(m, subsets[q as int].to_set(), a) == Set::<usize>::empty());
            lemma_nfa_run_empty(m, rest);
        }
    }
}

/// Nothing is reached from no state.
pub proof fn lemma_nfa_run_empty(m: Map<(usize, usize), Set<usize>>, w: Seq<usize>)
    ensures
        nfa_run(m, Set::<usize>::empty(), w) == Set::<usize>::empty(),
    decreases w.len(),
{
    if w.len() > 0 {
        assert(nfa_step(m, Set::<usize>::empty(), w[0]) =~= Set::<usize>::empty());
        lemma_nfa_run_empty(m, w.drop_first());
    }
}

/// Running from a set and then one more symbol is one more step.
pub proof fn lemma_nfa_run_push(m: Map<(usize, usize), Set<usize>>, start: Set<usize>, w: Seq<usize>, a: usize)
    ensures
        nfa_run(m, start, w.push(a)) == nfa_step(m, nfa_run(m, start, w), a),
    decreases w.len(),
{
    let wa = w.push(a);
    if w.len() == 0 {
        assert(wa[0] == a);
        assert(wa.drop_first() =~= Seq::<usize>::empty());
        let x = nfa_step(m, start, a);
        assert(nfa_run(m, x, wa.drop_first()) == x);
        assert(nfa_run(m, start, wa) == nfa_run(m, x, wa.drop_first()));
        assert(nfa_run(m, start, w) == start);
    } else {
        assert(wa[0] == w[0]);
        assert(wa.drop_first() =~= w.drop_first().push(a));
        let x = nfa_step(m, start, w[0]);
        lemma_nfa_run_push(m, x, w.drop_first(), a);
        assert(nfa_run(m, start, wa) == nfa_run(m, x, wa.drop_first()));
        assert(nfa_run(m, start, w) == nfa_run(m, x, w.drop_first()));
    }
}

/// The sets of states of type `usize` are finitely many.
proof fn lemma_state_sets_finite()
    ensures
        Set::<Set<usize>>::full().finite(),
{
    broadcast use vstd::set_lib::full_set_properties;
    assert(Set::<usize>::full().finite());
    lemma_subsets_finite(Set::<usize>::full());
    assert(Set::new(|s: Set<usize>| s.subset_of(Set::<usize>::full())) =~= Set::<Set<usize>>::full());
}

/// A finite set has finitely many subsets.
proof fn lemma_subsets_finite(u: Set<usize>)
    requires
        u.finite(),
    ensures
        Set::new(|s: Set<usize>| s.subset_of(u)).finite(),
    decreases u.len(),
{
    let p = Set::new(|s: Set<usize>| s.subset_of(u));
    if u.len() == 0 {
        assert(u =~= Set::<usize>::empty());
        assert(p =~= set![Set::<usize>::empty()]) by {
            assert forall|s: Set<usize>| p.contains(s) implies s == Set::<usize>::empty() by {
                assert(s =~= Set::<usize>::empty());
            }
        }
    } else {
        let x = u.choose();
        let r = u.remove(x);
        lemma_subsets_finite(r);
        let pr = Set::new(|s: Set<usize>| s.subset_of(r));
        let f = |s: Set<usize>| s.insert(x);
        pr.lemma_map_finite(f);
        assert(p.subset_of(pr.union(pr.map(f)))) by {
            assert forall|s: Set<usize>| p.contains(s) implies pr.union(pr.map(f)).contains(s) by {
                if s.contains(x) {
                    let t = s.remove(x);
                    assert(pr.contains(t));
                    assert(f(t) =~= s);
                } else {
                    assert(pr.contains(s));
                }
            }
        }
        vstd::set_lib::lemma_set_subset_finite(pr.union(pr.map(f)), p);
    }
}

/// A copy of a vector of strings.
fn copy_strings(v: &Vec<String>) -> (c: Vec<String>)
    ensures
        c@.len() == v@.len(),
        forall|i: int| 0 <= i < v@.len() ==> (#[trigger] c@[i])@ == v@[i]@,
{
    let mut c: Vec<String> = Vec::new();
    let mut i: usize = 0;
    while i < v.len()
        invariant
            i <= v@.len(),
            c@.len() == i,
            forall|j: int| 0 <= j < i ==> (#[trigger] c@[j])@ == v@[j]@,
        decreases v@.len() - i,
    {
        c.push(v[i].clone());
        i = i + 1;
    }
    c
}

/// The `Debug` rendering of a strictly increasing list of states.
fn render_set(v: &Vec<usize>) -> (s: String)
    ensures
        s@ == set_debug(v@),
{
    let mut s = String::new();
    proof {
        reveal_strlit("{");
        reveal_strlit("}");
        reveal_strlit(", ");
    }
    s.append("{");
    let mut i: usize = 0;
    assert(v@.take(0) =~= Seq::<usize>::empty());
    while i < v.len()
        invariant
            i <= v@.len(),
            s@ == "{"@ + listed(v@.take(i as int)),
        decreases v@.len() - i,
    {
        let ghost prev = s@;
        if i > 0 {
            s.append(", ");
        }
        push_decimal(&mut s, v[i]);
        proof {
            let t = v@.take(i + 1);
            assert(t.drop_last() =~= v@.take(i as int));
            assert(t.last() == v@[i as int]);
            if i == 0 {
                assert(listed(v@.take(0)) =~= Seq::<char>::empty());
                assert(s@ =~= "{"@ + listed(t));
            } else {
                assert(s@ =~= "{"@ + listed(t));
            }
        }
        i = i + 1;
    }
    assert(v@.take(v@.len() as int) =~= v@);
    s.append("}");
    s
}

/// The index of the state standing for the list `x`, if any.
fn find_subset(states: &Vec<Vec<usize>>, x: &Vec<usize>) -> (r: Option<usize>)
    ensures
        match r {
            Some(j) => j < states@.len() && states@[j as int]@ == x@,
            None => forall|j: int| 0 <= j < states@.len() ==> (#[trigger] states@[j])@ != x@,
        },
{
    let mut j: usize = 0;
    while j < states.len()
        invariant
            j <= states@.len(),
            forall|i: int| 0 <= i < j ==> (#[trigger] states@[i])@ != x@,
        decreases states@.len() - j,
    {
        if seq_equal(&states[j], x) {
            return Some(j);
        }
        j = j + 1;
    }
    None
}

impl Nfa {
    /// Some state listed in `v` is marked accepting.
    fn any_accepting_in(&self, v: &Vec<usize>) -> (r: bool)
        ensures
            r == any_accepting(self.accepting@, v@.to_set()),
    {
        let mut i: usize = 0;
        while i < v.len()
            invariant
                i <= v@.len(),
                forall|j: int| 0 <= j < i ==> !is_accepting(self.accepting@, #[trigger] v@[j]),
            decreases v@.len() - i,
        {
            let q = v[i];
            if q < self.accepting.len() && self.accepting[q] {
                assert(v@.to_set().contains(q));
                return true;
            }
            i = i + 1;
        }
        proof {
            assert forall|q: usize| v@.to_set().contains(q) implies !is_accepting(self.accepting@, q) by {
                let j = choose|j: int| 0 <= j < v@.len() && v@[j] == q;
            }
        }
        false
    }

    /// The successors on `sym` of the states listed in `cur`, listed in
    /// increasing order.
    fn step_listed(&self, cur: &Vec<usize>, sym: usize) -> (next: Vec<usize>)
        ensures
            strictly_increasing(next@),
            next@.to_set() == nfa_step(self.transition_sets(), cur@.to_set(), sym),
    {
        let ghost m = self.transition_sets();
        let mut next: Vec<usize> = Vec::new();
        let mut i: usize = 0;
        assert(next@.to_set() =~= Set::<usize>::empty());
        while i < cur.len()
            invariant
                m == self.transition_sets(),
                i <= cur@.len(),
                strictly_increasing(next@),
                next@.to_set() == nfa_step(m, cur@.take(i as int).to_set(), sym),
            decreases cur@.len() - i,
        {
            let q = cur[i];
            let ghost before = next@.to_set();
            match self.transitions.get(&(q, sym)) {
                Some(ts) => {
                    let ghost all = ts.iter().remaining();
                    let ghost mut count: int = 0;
                    for t in it: ts.iter()
                        invariant
                            it.seq() == all,
                            count == it.index(),
                            strictly_increasing(next@),
                            next@.to_set() == before.union(all.unref().take(count).to_set()),
                    {
                        proof {
                            assert(all[count] == t);
                        }
                        insert_sorted(&mut next, *t);
                        proof {
                            assert(all.unref().take(count + 1) =~= all.unref().take(count).push(*t));
                            all.unref().take(count).lemma_push_to_set_commute(*t);
                            count = count + 1;
                            assert(next@.to_set() =~= before.union(all.unref().take(count).to_set()));
                        }
                    }
                    proof {
                        assert(count == all.len());
                        assert(all.unref().take(count) =~= all.unref());
                        assert(all.unref().to_set() == ts@);
                        assert(ts@ == targets(m, q, sym));
                    }
                },
                None => {
                    assert(targets(m, q, sym) =~= Set::<usize>::empty());
                    assert(next@.to_set() =~= before.union(targets(m, q, sym)));
                },
            }
            proof {
                let a = cur@.take(i as int);
                let b = cur@.take(i + 1);
                assert(b =~= a.push(q));
                a.lemma_push_to_set_commute(q);
                assert(next@.to_set() =~= nfa_step(m, b.to_set(), sym)) by {
                    assert forall|t: usize| next@.to_set().contains(t) implies nfa_step(m, b.to_set(), sym).contains(t) by {
                        if before.contains(t) {
                            let p = choose|p: usize| a.to_set().contains(p) && targets(m, p, sym).contains(t);
                            assert(b.to_set().contains(p));
                        } else {
                            assert(b.to_set().contains(q));
                        }
                    }
                    assert forall|t: usize| nfa_step(m, b.to_set(), sym).contains(t) implies next@.to_set().contains(t) by {
                        let p = choose|p: usize| b.to_set().contains(p) && targets(m, p, sym).contains(t);
                        if p != q {
                            assert(a.to_set().contains(p));
                            assert(before.contains(t));
                        }
                    }
                }
            }
            i = i + 1;
        }
        assert(cur@.take(cur@.len() as int) =~= cur@);
        next
    }

    /// Subset construction: convert to DFA.
    ///
    /// The states are numbered in the order in which the construction meets
    /// them, working depth-first from the most recently found set.
    pub fn to_dfa(&self) -> (d: Dfa)
        ensures
            exists|subsets: Seq<Seq<usize>>| subset_construction(*self, d, subsets),
    {
        let k = self.alphabet.len();
        let ghost m = self.transition_sets();
        let ghost init = (seq![set![self.initial]], seq![0usize]);
        let mut b = SubsetBuilder::start(self);
        let ghost mut steps: nat = 0;
        assert(b.queue@[0] == 0);
        assert forall|q: usize, a: usize| q < b.n() && a < k && !b.queue@.contains(q) implies #[trigger] b.explored(*self, q, a) by {
            assert(b.queue@.contains(0));
        }
        while b.queue.len() > 0
            invariant
                k == self.alphabet@.len(),
                b.states_wf(*self),
                b.transitions_wf(*self),
                forall|q: usize, a: usize| q < b.n() && b.queue@.contains(q) ==> !#[trigger] b.transitions@.contains_key((q, a)),
                forall|q: usize, a: usize| q < b.n() && a < k && !b.queue@.contains(q) ==> #[trigger] b.explored(*self, q, a),
                m == self.transition_sets(),
                init == (seq![set![self.initial]], seq![0usize]),
                explore(m, k as nat, init, steps) == (b.found_sets(), b.queue@),
            decreases Set::<Set<usize>>::full().len() - b.found@.len(), b.queue@.len(),
        {
            let ghost found0 = b.found@;
            let ghost queue0 = b.queue@;
            let ghost bp = b;
            let idx = b.pop();
            assert forall|q: usize, a: usize| q < b.n() && q != idx && a < k && !b.queue@.contains(q) implies #[trigger] b.explored(*self, q, a) by {
                assert(!queue0.contains(q));
                assert(bp.explored(*self, q, a));
            }
            assert forall|q: usize, a: usize| q < b.n() && b.queue@.contains(q) implies !#[trigger] b.transitions@.contains_key((q, a)) by {
                assert(queue0.contains(q));
            }
            let ghost qlen = b.queue@.len();
            let ghost s0 = b.found_sets();
            let ghost q0 = b.queue@;
            assert(s0 == bp.found_sets());
            let cur = b.sets[idx].clone();
            assert(cur@ =~= b.sets@[idx as int]@);
            let mut sym: usize = 0;
            while sym < k
                invariant
                    k == self.alphabet@.len(),
                    b.states_wf(*self),
                    b.transitions_wf(*self),
                    idx < b.n(),
                    cur@ == b.sets@[idx as int]@,
                    !b.queue@.contains(idx),
                    sym <= k,
                    b.found@.len() - found0.len() == b.queue@.len() - qlen,
                    b.queue@.len() >= qlen,
                    qlen + 1 == queue0.len(),
                    forall|q: usize, a: usize| q < b.n() && b.queue@.contains(q) ==> !#[trigger] b.transitions@.contains_key((q, a)),
                    forall|a: usize| #[trigger] b.transitions@.contains_key((idx, a)) ==> a < sym,
                    forall|q: usize, a: usize| q < b.n() && q != idx && a < k && !b.queue@.contains(q) ==> #[trigger] b.explored(*self, q, a),
                    forall|a: usize| a < sym ==> #[trigger] b.explored(*self, idx, a),
                    m == self.transition_sets(),
                    (b.found_sets(), b.queue@) == visit_symbols(m, s0, q0, idx as int, sym as nat),
                decreases k - sym,
            {
                let ghost before = (b.found_sets(), b.queue@);
                proof {
                    assert(b.found_sets()[idx as int] == cur@.to_set());
                    assert(b.found_sets().len() == b.n());
                }
                let next = self.step_listed(&cur, sym);
                if next.len() > 0 {
                    assert(next@.to_set().contains(next@[0]));
                    let ghost b0 = b;
                    b.record(self, idx, sym, next);
                    proof {
                        assert(b.sets@[idx as int] == b0.sets@[idx as int]);
                        assert(b.explored(*self, idx, sym)) by {
                            assert(b.transitions@.dom().contains((idx, sym)));
                            assert(nfa_step(self.transition_sets(), b.set_of(idx as int), sym).contains(next@[0]));
                        }
                        assert forall|a: usize| a < sym + 1 implies #[trigger] b.explored(*self, idx, a) by {
                            if a < sym {
                                assert(b0.explored(*self, idx, a));
                                assert(b0.transitions@.contains_key((idx, a)) == b.transitions@.contains_key((idx, a))) by {
                                    assert(b.transitions@.dom().contains((idx, a)) == b0.transitions@.dom().contains((idx, a)));
                                }
                            }
                        }
                        assert forall|q: usize, a: usize| q < b.n() && q != idx && a < k && !b.queue@.contains(q) implies #[trigger] b.explored(*self, q, a) by {
                            if q < b0.n() {
                                assert(!b0.queue@.contains(q)) by {
                                    if b0.queue@.contains(q) {
                                        assert(b.queue@.contains(q)) by {
                                            let t = choose|t: int| 0 <= t < b0.queue@.len() && b0.queue@[t] == q;
                                            assert(b.queue@[t] == q);
                                        }
                                    }
                                }
                                assert(b0.explored(*self, q, a));
                                assert(b.sets@[q as int] == b0.sets@[q as int]);
                                assert(b.transitions@.dom().contains((q, a)) == b0.transitions@.dom().contains((q, a)));
                            } else {
                                assert(b.queue@.contains(q)) by {
                                    assert(b.queue@[b.queue@.len() - 1] == q);
                                }
                            }
                        }
                        assert(!b.queue@.contains(idx)) by {
                            if b.queue@.contains(idx) {
                                assert(b0.queue@.contains(idx) || idx == b0.n());
                            }
                        }
                        assert forall|q: usize, a: usize| q < b.n() && b.queue@.contains(q) implies !#[trigger] b.transitions@.contains_key((q, a)) by {
                            if b.transitions@.contains_key((q, a)) {
                                assert(b.transitions@.dom().contains((q, a)));
                                if (q, a) != (idx, sym) {
                                    assert(b0.transitions@.contains_key((q, a)));
                                    assert(q < b0.n());
                                    assert(b0.queue@.contains(q));
                                }
                            }
                        }
                    }
                } else {
                    assert(next@ =~= Seq::<usize>::empty());
                    assert(next@.to_set() =~= Set::<usize>::empty());
                    assert(b.explored(*self, idx, sym));
                }
                proof {
                    assert((b.found_sets(), b.queue@) == visit(m, before.0, before.1, idx as int, sym));
                }
                sym = sym + 1;
            }
            proof {
                lemma_explore_extend(m, k as nat, init, steps);
                steps = steps + 1;
                lemma_state_sets_finite();
                vstd::set_lib::lemma_len_subset(b.found@, Set::<Set<usize>>::full());
            }
        }
        assert(depth_first_order(*self, views_of(b.sets@))) by {
            assert(b.queue@ =~= Seq::<usize>::empty());
            assert(explore(m, k as nat, init, steps) == (set_list(views_of(b.sets@)), Seq::<usize>::empty()));
        }
        b.finish(self)
    }
}

/// The DFA under construction: the sets found so far (listed in increasing
/// order), their names and accepting marks, the transitions recorded so far,
/// and the stack of states still to explore; with, for the proof, a word
/// reaching each set and the collection of sets found.
struct SubsetBuilder {
    sets: Vec<Vec<usize>>,
    names: Vec<String>,
    accepting: Vec<bool>,
    transitions: BTreeMap<(usize, usize), usize>,
    queue: Vec<usize>,
    words: Ghost<Seq<Seq<usize>>>,
    found: Ghost<Set<Set<usize>>>,
}

impl SubsetBuilder {
    /// The number of DFA states found so far.
    spec fn n(&self) -> nat {
        self.sets@.len()
    }

    /// The set of NFA states of DFA state `i`.
    spec fn set_of(&self, i: int) -> Set<usize> {
        self.sets@[i]@.to_set()
    }

    /// The sets found so far, in the order found.
    spec fn found_sets(&self) -> Seq<Set<usize>> {
        set_list(views_of(self.sets@))
    }

    /// The sets found so far are distinct, reachable, named and marked, and
    /// the stack holds distinct states.
    spec fn states_wf(&self, nfa: Nfa) -> bool {
        let m = nfa.transition_sets();
        let k = nfa.alphabet@.len();
        &&& self.n() > 0
        &&& self.names@.len() == self.n()
        &&& self.accepting@.len() == self.n()
        &&& self.words@.len() == self.n()
        &&& self.sets@[0]@ == seq![nfa.initial]
        &&& forall|i: int| 0 <= i < self.n() ==> strictly_increasing(#[trigger] self.sets@[i]@)
        &&& forall|i: int| 0 <= i < self.n() ==> (#[trigger] self.sets@[i])@.len() > 0
        &&& forall|i: int, j: int| 0 <= i < self.n() && 0 <= j < self.n() && i != j
            ==> (#[trigger] self.sets@[i])@ != (#[trigger] self.sets@[j])@
        &&& forall|i: int| 0 <= i < self.n() ==> (#[trigger] self.names@[i])@ == set_debug(self.sets@[i]@)
        &&& forall|i: int| 0 <= i < self.n() ==> #[trigger] self.accepting@[i] == any_accepting(nfa.accepting@, self.set_of(i))
        &&& forall|i: int| 0 <= i < self.n() ==> over_alphabet(#[trigger] self.words@[i], k)
            && self.set_of(i) == nfa_run(m, set![nfa.initial], self.words@[i])
        &&& self.found@.finite()
        &&& self.found@.len() == self.n()
        &&& forall|i: int| 0 <= i < self.n() ==> self.found@.contains(#[trigger] self.sets@[i]@.to_set())
        &&& forall|x: Set<usize>| #[trigger] self.found@.contains(x) ==> exists|i: int| 0 <= i < self.n() && self.sets@[i]@.to_set() == x
        &&& forall|t: int| 0 <= t < self.queue@.len() ==> #[trigger] self.queue@[t] < self.n()
        &&& self.queue@.no_duplicates()
    }

    /// Every recorded transition leaves a found set on a symbol of the
    /// alphabet and leads to the set of its successors.
    spec fn transitions_wf(&self, nfa: Nfa) -> bool {
        forall|q: usize, a: usize| #[trigger] self.transitions@.contains_key((q, a)) ==> {
            &&& q < self.n()
            &&& a < nfa.alphabet@.len()
            &&& self.transitions@[(q, a)] < self.n()
            &&& self.set_of(self.transitions@[(q, a)] as int) == nfa_step(nfa.transition_sets(), self.set_of(q as int), a)
        }
    }

    /// The transition of state `q` on `a` has been decided: it is recorded
    /// exactly when the successors form a non-empty set.
    spec fn explored(&self, nfa: Nfa, q: usize, a: usize) -> bool {
        self.transitions@.contains_key((q, a)) <==> nfa_step(nfa.transition_sets(), self.set_of(q as int), a) != Set::<usize>::empty()
    }

    /// The construction before any exploration: the initial singleton alone,
    /// waiting on the stack.
    fn start(nfa: &Nfa) -> (b: SubsetBuilder)
        ensures
            b.states_wf(*nfa),
            b.transitions_wf(*nfa),
            b.transitions@ == Map::<(usize, usize), usize>::empty(),
            b.queue@ == seq![0usize],
            b.n() == 1,
            b.found_sets() == seq![set![nfa.initial]],
    {
        let mut initial_set: Vec<usize> = Vec::new();
        initial_set.push(nfa.initial);
        assert(initial_set@ =~= seq![nfa.initial]);
        assert(initial_set@[0] == nfa.initial);
        assert(initial_set@.to_set() =~= set![nfa.initial]) by {
            assert(initial_set@.to_set().contains(nfa.initial));
        }
        let mut names: Vec<String> = Vec::new();
        names.push(render_set(&initial_set));
        let mut accepting: Vec<bool> = Vec::new();
        accepting.push(nfa.any_accepting_in(&initial_set));
        let mut sets: Vec<Vec<usize>> = Vec::new();
        sets.push(initial_set);
        let mut queue: Vec<usize> = Vec::new();
        queue.push(0);
        let ghost w0: Seq<Seq<usize>> = seq![Seq::<usize>::empty()];
        let ghost f0: Set<Set<usize>> = set![set![nfa.initial]];
        let b = SubsetBuilder {
            sets,
            names,
            accepting,
            transitions: BTreeMap::new(),
            queue,
            words: Ghost(w0),
            found: Ghost(f0),
        };
        proof {
            assert(b.set_of(0) == set![nfa.initial]);
            assert(b.found@.len() == 1);
            assert forall|x: Set<usize>| #[trigger] b.found@.contains(x) implies exists|i: int| 0 <= i < b.n() && b.sets@[i]@.to_set() == x by {
                assert(b.sets@[0]@.to_set() == x);
            }
            assert(over_alphabet(b.words@[0], nfa.alphabet@.len()));
            assert(b.found_sets() =~= seq![set![nfa.initial]]) by {
                assert(b.found_sets()[0] == b.set_of(0));
            }
        }
        b
    }

    /// Takes the most recently found unexplored state off the stack.
    fn pop(&mut self) -> (idx: usize)
        requires
            old(self).queue@.len() > 0,
        ensures
            idx == old(self).queue@.last(),
            final(self).queue@ == old(self).queue@.drop_last(),
            final(self).sets@ == old(self).sets@,
            final(self).names@ == old(self).names@,
            final(self).accepting@ == old(self).accepting@,
            final(self).transitions@ == old(self).transitions@,
            final(self).words@ == old(self).words@,
            final(self).found@ == old(self).found@,
            !final(self).queue@.contains(idx) || !old(self).queue@.no_duplicates(),
            forall|q: usize| #[trigger] final(self).queue@.contains(q) ==> old(self).queue@.contains(q),
            forall|q: usize| #[trigger] old(self).queue@.contains(q) && q != idx ==> final(self).queue@.contains(q),
    {
        let ghost q0 = self.queue@;
        let idx = match self.queue.pop() {
            Some(x) => x,
            None => 0,
        };
        proof {
            if q0.no_duplicates() && self.queue@.contains(idx) {
                let t = choose|t: int| 0 <= t < self.queue@.len() && self.queue@[t] == idx;
                assert(q0[t] == q0[q0.len() - 1]);
            }
            assert forall|q: usize| #[trigger] self.queue@.contains(q) implies q0.contains(q) by {
                let t = choose|t: int| 0 <= t < self.queue@.len() && self.queue@[t] == q;
                assert(q0[t] == q);
            }
            assert forall|q: usize| #[trigger] q0.contains(q) && q != idx implies self.queue@.contains(q) by {
                let t = choose|t: int| 0 <= t < q0.len() && q0[t] == q;
                assert(t != q0.len() - 1);
                assert(self.queue@[t] == q);
            }
        }
        idx
    }

    /// Records the transition of state `idx` on `sym` to the set listed by
    /// `next`, adding that set as a new state (to be explored) when it has
    /// not been found before.
    fn record(&mut self, nfa: &Nfa, idx: usize, sym: usize, next: Vec<usize>)
        requires
            old(self).states_wf(*nfa),
            old(self).transitions_wf(*nfa),
            idx < old(self).n(),
            sym < nfa.alphabet@.len(),
            strictly_increasing(next@),
            next@.len() > 0,
            next@.to_set() == nfa_step(nfa.transition_sets(), old(self).set_of(idx as int), sym),
        ensures
            final(self).states_wf(*nfa),
            final(self).transitions_wf(*nfa),
            final(self).n() >= old(self).n(),
            forall|i: int| 0 <= i < old(self).n() ==> #[trigger] final(self).sets@[i] == old(self).sets@[i],
            final(self).transitions@.dom() == old(self).transitions@.dom().insert((idx, sym)),
            forall|q: usize, a: usize| (q, a) != (idx, sym) && #[trigger] old(self).transitions@.contains_key((q, a))
                ==> final(self).transitions@[(q, a)] == old(self).transitions@[(q, a)],
            final(self).found@.len() - old(self).found@.len() == final(self).queue@.len() - old(self).queue@.len(),
            final(self).queue@.len() >= old(self).queue@.len(),
            final(self).n() == old(self).n() ==> final(self).queue@ == old(self).queue@,
            final(self).n() > old(self).n() ==> final(self).n() == old(self).n() + 1
                && final(self).queue@ == old(self).queue@.push(old(self).n() as usize),
            forall|q: usize| #[trigger] final(self).queue@.contains(q) ==> old(self).queue@.contains(q) || q == old(self).n(),
            final(self).found_sets() == if old(self).found_sets().contains(next@.to_set()) {
                old(self).found_sets()
            } else {
                old(self).found_sets().push(next@.to_set())
            },
            final(self).queue@ == if old(self).found_sets().contains(next@.to_set()) {
                old(self).queue@
            } else {
                old(self).queue@.push(old(self).n() as usize)
            },
    {
        let ghost m = nfa.transition_sets();
        let ghost nseq = next@;
        match find_subset(&self.sets, &next) {
            Some(existing) => {
                self.transitions.insert((idx, sym), existing);
                assert(self.transitions@.dom() =~= old(self).transitions@.dom().insert((idx, sym)));
                assert(old(self).found_sets()[existing as int] == nseq.to_set());
            },
            None => {
                let new_idx = self.sets.len();
                let ghost nset = next@.to_set();
                proof {
                    assert(!self.found@.contains(nset)) by {
                        if self.found@.contains(nset) {
                            let i = choose|i: int| 0 <= i < self.n() && self.sets@[i]@.to_set() == nset;
                            lemma_strictly_increasing_unique(self.sets@[i]@, next@);
                        }
                    }
                    lemma_nfa_run_push(m, set![nfa.initial], self.words@[idx as int], sym);
                    assert(!old(self).found_sets().contains(nset)) by {
                        if old(self).found_sets().contains(nset) {
                            let j = choose|j: int| 0 <= j < old(self).found_sets().len() && old(self).found_sets()[j] == nset;
                            assert(old(self).found_sets()[j] == old(self).sets@[j]@.to_set());
                            lemma_strictly_increasing_unique(old(self).sets@[j]@, nseq);
                        }
                    }
                }
                self.names.push(render_set(&next));
                self.accepting.push(nfa.any_accepting_in(&next));
                self.sets.push(next);
                self.transitions.insert((idx, sym), new_idx);
                self.queue.push(new_idx);
                let ghost w = self.words@[idx as int].push(sym);
                let ghost ws = self.words@.push(w);
                let ghost fs = self.found@.insert(nset);
                self.words = Ghost(ws);
                self.found = Ghost(fs);
                proof {
                    assert(self.set_of(new_idx as int) == nset);
                    assert(over_alphabet(w, nfa.alphabet@.len())) by {
                        assert forall|t: int| 0 <= t < w.len() implies #[trigger] w[t] < nfa.alphabet@.len() by {
                            if t < w.len() - 1 {
                                assert(w[t] == old(self).words@[idx as int][t]);
                            }
                        }
                    }
                    assert forall|i: int| 0 <= i < self.n() implies self.found@.contains(#[trigger] self.sets@[i]@.to_set()) by {
                        if i < old(self).n() {
                            assert(self.sets@[i] == old(self).sets@[i]);
                        }
                    }
                    assert forall|x: Set<usize>| #[trigger] self.found@.contains(x) implies exists|i: int| 0 <= i < self.n() && self.sets@[i]@.to_set() == x by {
                        if x == nset {
                            assert(self.sets@[new_idx as int]@.to_set() == x);
                        } else {
                            assert(old(self).found@.contains(x));
                            let i = choose|i: int| 0 <= i < old(self).n() && old(self).sets@[i]@.to_set() == x;
                            assert(self.sets@[i] == old(self).sets@[i]);
                        }
                    }
                    assert forall|i: int, j: int| 0 <= i < self.n() && 0 <= j < self.n() && i != j
                        implies (#[trigger] self.sets@[i])@ != (#[trigger] self.sets@[j])@ by {
                        if i < old(self).n() && j < old(self).n() {
                            assert(self.sets@[i] == old(self).sets@[i]);
                            assert(self.sets@[j] == old(self).sets@[j]);
                        }
                    }
                    assert forall|t: int| 0 <= t < self.queue@.len() implies #[trigger] self.queue@[t] < self.n() by {
                        if t < old(self).queue@.len() {
                            assert(self.queue@[t] == old(self).queue@[t]);
                        }
                    }
                    assert(self.queue@.no_duplicates()) by {
                        assert forall|s: int, t: int| 0 <= s < t < self.queue@.len() implies self.queue@[s] != self.queue@[t] by {
                            if t == self.queue@.len() - 1 {
                                assert(self.queue@[s] == old(self).queue@[s]);
                            } else {
                                assert(self.queue@[s] == old(self).queue@[s]);
                                assert(self.queue@[t] == old(self).queue@[t]);
                            }
                        }
                    }
                    assert(self.transitions@.dom() =~= old(self).transitions@.dom().insert((idx, sym)));
                    assert(self.found_sets() =~= old(self).found_sets().push(nset)) by {
                        assert forall|i: int| 0 <= i < self.n() implies #[trigger] self.found_sets()[i] == old(self).found_sets().push(nset)[i] by {
                            if i < old(self).n() {
                                assert(self.sets@[i] == old(self).sets@[i]);
                            }
                        }
                    }
                    assert forall|q: usize| #[trigger] self.queue@.contains(q) implies old(self).queue@.contains(q) || q == old(self).n() by {
                        let t = choose|t: int| 0 <= t < self.queue@.len() && self.queue@[t] == q;
                        if t < old(self).queue@.len() {
                            assert(old(self).queue@[t] == q);
                        }
                    }
                }
            },
        }
    }

    /// The finished DFA.
    fn finish(self, nfa: &Nfa) -> (d: Dfa)
        requires
            self.states_wf(*nfa),
            self.transitions_wf(*nfa),
            forall|q: usize, a: usize| q < self.n() && a < nfa.alphabet@.len() ==> #[trigger] self.explored(*nfa, q, a),
            depth_first_order(*nfa, views_of(self.sets@)),
        ensures
            exists|subsets: Seq<Seq<usize>>| subset_construction(*nfa, d, subsets),
    {
        let ghost subsets = views_of(self.sets@);
        let d = Dfa {
            states: self.names,
            alphabet: copy_strings(&nfa.alphabet),
            transitions: self.transitions,
            initial: 0,
            accepting: self.accepting,
        };
        proof {
            let m = nfa.transition_sets();
            let k = nfa.alphabet@.len();
            assert forall|i: int| 0 <= i < subsets.len() implies #[trigger] subsets[i] == self.sets@[i]@ by {}
            assert(subsets[0] == seq![nfa.initial]);
            assert forall|i: int| 0 <= i < subsets.len() implies reachable_set(*nfa, #[trigger] subsets[i].to_set()) by {
                let w = self.words@[i];
                assert(over_alphabet(w, k) && nfa.reachable_on(w) == subsets[i].to_set());
            }
            assert forall|q: usize, a: usize| #[trigger] d.transitions@.contains_key((q, a)) <==> (q < subsets.len() && a < k
                && nfa_step(m, subsets[q as int].to_set(), a) != Set::<usize>::empty()) by {
                if q < subsets.len() && a < k {
                    assert(self.explored(*nfa, q, a));
                }
            }
            assert forall|i: int| 0 <= i < subsets.len() implies #[trigger] d.accepting@[i] == any_accepting(nfa.accepting@, subsets[i].to_set()) by {
                assert(self.accepting@[i] == any_accepting(nfa.accepting@, self.set_of(i)));
            }
            assert forall|i: int, j: int| 0 <= i < subsets.len() && 0 <= j < subsets.len() && i != j implies #[trigger] subsets[i] != #[trigger] subsets[j] by {
                assert(self.sets@[i]@ != self.sets@[j]@);
            }
            let n = subsets.len();
            assert(n > 0);
            assert(d.states@.len() == n);
            assert(d.accepting@.len() == n);
            assert(d.initial == 0);
            assert(d.alphabet@.len() == k);
            assert(forall|a: int| 0 <= a < k ==> (#[trigger] d.alphabet@[a])@ == nfa.alphabet@[a]@);
            assert(forall|i: int| 0 <= i < n ==> strictly_increasing(#[trigger] subsets[i]));
            assert(forall|i: int| 0 <= i < n ==> (#[trigger] subsets[i]).len() > 0);
            assert(forall|i: int| 0 <= i < n ==> (#[trigger] d.states@[i])@ == set_debug(subsets[i]));
            assert(forall|q: usize, a: usize| #[trigger] d.transitions@.contains_key((q, a)) ==> {
                &&& d.transitions@[(q, a)] < n
                &&& subsets[d.transitions@[(q, a)] as int].to_set() == nfa_step(m, subsets[q as int].to_set(), a)
            });
            assert(subset_construction(*nfa, d, subsets));
        }
        d
    }
}

/// The lists held by a vector of vectors.
pub open spec fn views_of(v: Seq<Vec<usize>>) -> Seq<Seq<usize>> {
    v.map_values(|x: Vec<usize>| x@)
}

} // verus!
