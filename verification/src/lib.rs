//! Sheaf-theoretic protocol verification: automata whose states become the
//! stalks of a language sheaf, the base space of such a sheaf, protocols
//! built from agents, and deadlock verdicts read off the first cohomology.
use vstd::prelude::*;

pub mod automata;
pub mod cochain;
pub mod composition;
pub mod laws;
pub mod protocol;
pub mod sheaf;
pub mod sorted;
pub mod splitmix;
pub mod text;

pub use automata::{Dfa, Nfa};
pub use protocol::{AgentConfig, Protocol, TransitionRule};
pub use sheaf::{OpenSet, SheafSpace, Stalk};

use text::decimal;

verus! {

/// The description of obstruction class `i`.
pub open spec fn obstruction_label(i: nat) -> Seq<char> {
    "obstruction_class_"@ + decimal(i)
}

/// Deadlock detection result.
#[derive(Debug, Clone)]
pub struct DeadlockResult {
    /// Whether a deadlock was detected (H¹ ≠ 0).
    pub has_deadlock: bool,
    /// Dimension of H¹ (number of independent obstruction classes).
    pub obstruction_dimension: usize,
    /// Description of obstruction classes.
    pub obstructions: Vec<String>,
}

impl DeadlockResult {
    /// The verdict for a first cohomology of dimension `h1_dim`: a deadlock
    /// exactly when it is non-zero, with one described obstruction class per
    /// dimension.
    pub fn from_h1_dimension(h1_dim: usize) -> (r: DeadlockResult)
        ensures
            r.has_deadlock == (h1_dim > 0),
            r.obstruction_dimension == h1_dim,
            r.obstructions@.len() == h1_dim,
            forall|i: int| 0 <= i < h1_dim ==> (#[trigger] r.obstructions@[i])@ == obstruction_label(i as nat),
    {
        let mut obstructions: Vec<String> = Vec::new();
        let mut i: usize = 0;
        while i < h1_dim
            invariant
                i <= h1_dim,
                obstructions@.len() == i,
                forall|k: int| 0 <= k < i ==> (#[trigger] obstructions@[k])@ == obstruction_label(k as nat),
            decreases h1_dim - i,
        {
            let mut label = String::new();
            label.append("obstruction_class_");
            text::push_decimal(&mut label, i);
            obstructions.push(label);
            i = i + 1;
        }
        DeadlockResult { has_deadlock: h1_dim > 0, obstruction_dimension: h1_dim, obstructions }
    }
}

} // verus!
