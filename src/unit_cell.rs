//! Crystallographic lattice parameters.
use vstd::prelude::*;

use crate::decode::Decimal;

verus! {

/// Edge lengths `a`, `b`, `c` and angles `alpha`, `beta`, `gamma` (degrees) of a unit cell.
#[derive(Debug, Clone, Copy, PartialEq, Eq, Structural)]
pub struct UnitCell {
    pub a: Decimal,
    pub b: Decimal,
    pub c: Decimal,
    pub alpha: Decimal,
    pub beta: Decimal,
    pub gamma: Decimal,
}

impl UnitCell {
    pub fn new(
        a: Decimal,
        b: Decimal,
        c: Decimal,
        alpha: Decimal,
        beta: Decimal,
        gamma: Decimal,
    ) -> (r: UnitCell)
        ensures
            r == (UnitCell { a, b, c, alpha, beta, gamma }),
    {
        UnitCell { a, b, c, alpha, beta, gamma }
    }
}

} // verus!
