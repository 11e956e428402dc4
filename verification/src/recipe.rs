//! Column masks as a process recipe writes them.
//!
//! A recipe gives a mask either as an explicit per-column list of booleans
//! or as a `range` shorthand: columns `lo <= x < hi` are open, or closed
//! when `invert` is set.
use vstd::prelude::*;

verus! {

/// A column mask as written in a recipe.
#[derive(Debug, Clone)]
pub enum MaskSpec {
    /// One entry per column, `true` = open.
    Explicit(Vec<bool>),
    /// Columns `range[0] <= x < range[1]` are open (closed when `invert`).
    Range { range: [usize; 2], invert: bool },
}

/// Whether column `x` lies in the half-open range `[lo, hi)`.
pub open spec fn in_range(x: int, lo: int, hi: int) -> bool {
    lo <= x < hi
}

/// The per-column mask a `MaskSpec` stands for, on a grid of `nx` columns.
pub open spec fn resolve_mask_spec(spec: MaskSpec, nx: nat) -> Seq<bool> {
    match spec {
        MaskSpec::Explicit(v) => v@,
        MaskSpec::Range { range, invert } => Seq::new(
            nx,
            |x: int| in_range(x, range@[0] as int, range@[1] as int) != invert,
        ),
    }
}

/// Expand a recipe mask into one boolean per column (`true` = open). An
/// explicit list is taken as written.
pub fn resolve_mask(spec: &MaskSpec, nx: usize) -> (mask: Vec<bool>)
    ensures
        mask@ == resolve_mask_spec(*spec, nx as nat),
{
    match spec {
        MaskSpec::Explicit(v) => {
            let out = v.clone();
            proof {
                assert(out@ =~= v@);
            }
            out
        },
        MaskSpec::Range { range, invert } => {
            let lo = range[0];
            let hi = range[1];
            let mut out: Vec<bool> = Vec::new();
            for x in 0..nx
                invariant
                    lo == range@[0],
                    hi == range@[1],
                    out@.len() == x,
                    forall|j: int|
                        0 <= j < x ==> #[trigger] out@[j] == (in_range(j, lo as int, hi as int)
                            != *invert),
            {
                let inside = x >= lo && x < hi;
                out.push(if *invert {
                    !inside
                } else {
                    inside
                });
            }
            proof {
                assert(out@ =~= resolve_mask_spec(*spec, nx as nat));
            }
            out
        },
    }
}

} // verus!
