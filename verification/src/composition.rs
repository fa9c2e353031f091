//! The cohomology dimensions of two protocols run together.
use vstd::prelude::*;

verus! {

/// The dimensions (H⁰, H¹, H²) of the composition of two protocols whose
/// cohomologies have dimensions `h0_a`, `h1_a` and `h0_b`, `h1_b`: H⁰ of
/// both less the one shared constant section, and at least 1; the H¹
/// classes of both; and for H² the bound given by the pairs of H¹ classes.
/// `None` exactly when one of these falls outside `usize`.
pub fn composed_dimensions(h0_a: usize, h1_a: usize, h0_b: usize, h1_b: usize) -> (r: Option<(usize, usize, usize)>)
    ensures
        r is Some <==> h1_a * h1_b <= usize::MAX && 1 <= h0_a + h0_b <= usize::MAX && h1_a + h1_b <= usize::MAX,
        r matches Some((h0, h1, h2)) ==> {
            &&& h0 == if h0_a + h0_b - 1 >= 1 {
                h0_a + h0_b - 1
            } else {
                1
            }
            &&& h1 == h1_a + h1_b
            &&& h2 == h1_a * h1_b
        },
{
    let h2 = match h1_a.checked_mul(h1_b) {
        Some(x) => x,
        None => {
            return None;
        },
    };
    let h0_sum = match h0_a.checked_add(h0_b) {
        Some(x) => x,
        None => {
            return None;
        },
    };
    if h0_sum == 0 {
        return None;
    }
    let h1 = match h1_a.checked_add(h1_b) {
        Some(x) => x,
        None => {
            return None;
        },
    };
    let h0 = if h0_sum - 1 >= 1 {
        h0_sum - 1
    } else {
        1
    };
    Some((h0, h1, h2))
}

} // verus!
