use vstd::prelude::*;

use crate::board::Board;
use crate::digit::Digit;

verus! {

/// A solved grid: a 9 by 9 board of definite digits, produced by a
/// successful search.
#[derive(Debug)]
pub struct Solution(pub Board<Digit>);

impl PartialEq for Solution {
    /// Two solutions are equal when their grids are.
    fn eq(&self, other: &Self) -> (r: bool) {
        self.0 == other.0
    }
}

impl Eq for Solution {

}

impl vstd::std_specs::cmp::PartialEqSpecImpl for Solution {
    open spec fn obeys_eq_spec() -> bool {
        true
    }

    open spec fn eq_spec(&self, other: &Self) -> bool {
        self.0@ == other.0@
    }
}

} // verus!
