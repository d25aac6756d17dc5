use vstd::prelude::*;

use crate::bits::DigitBits;
use crate::bits::digit_bits;
use crate::board::Board;
use crate::board::idx_of;
use crate::digit::Digit;
use crate::digit::MaybeDigit;

verus! {

/// The cell at row `x`, column `y` of a flat, row-major board sequence.
pub open spec fn cell_at(b: Seq<MaybeDigit>, x: int, y: int) -> MaybeDigit {
    b[idx_of(x, y)]
}

/// Whether the cell at row `x`, column `y` holds a definite digit.
pub open spec fn filled(b: Seq<MaybeDigit>, x: int, y: int) -> bool {
    cell_at(b, x, y) is Definitely
}

/// The numeric value of the digit at row `x`, column `y`, or 0 for a hole.
pub open spec fn digit_at(b: Seq<MaybeDigit>, x: int, y: int) -> int {
    match cell_at(b, x, y) {
        MaybeDigit::Definitely(d) => d.value(),
        MaybeDigit::Hole => 0,
    }
}

/// Whether board `s` keeps every definite digit of board `b` in place.
pub open spec fn extends(s: Seq<MaybeDigit>, b: Seq<MaybeDigit>) -> bool {
    &&& s.len() == 81
    &&& b.len() == 81
    &&& forall|i: int| 0 <= i < 81 && b[i] is Definitely ==> s[i] == b[i]
}

/// Whether every one of the 81 cells holds a definite digit.
pub open spec fn complete(b: Seq<MaybeDigit>) -> bool {
    b.len() == 81 && forall|i: int| 0 <= i < 81 ==> b[i] is Definitely
}

/// A rule that narrows the set of digits still legal for a cell.
///
/// The spec function `allows` is the rule's acceptance relation: whether
/// digit `d` may stand at row `x`, column `y` of board `b`, judged against
/// the other cells of `b` only, never against the target cell's own value.
/// The executable `posibilities` computes exactly the allowed digits, and
/// the three lemmas are the laws every rule must obey for the backtracking
/// search to be both sound and exhaustive.
pub trait Constraint: Sized {
    /// Whether digit value `d` may stand at row `x`, column `y` of `b`,
    /// relative to the other cells of `b`.
    spec fn allows(&self, b: Seq<MaybeDigit>, x: int, y: int, d: int) -> bool;

    /// Narrows the candidate set `prev` for the cell at row `x`, column `y`:
    /// for an unresolved target cell the result keeps exactly the candidates
    /// of `prev` that the rule still allows, and it never adds a candidate.
    fn posibilities(&self, x: usize, y: usize, board: &Board<MaybeDigit>, prev: DigitBits) -> (r:
        DigitBits)
        requires
            x < 9,
            y < 9,
            board.wf(),
        ensures
            digit_bits(r).subset_of(digit_bits(prev)),
            cell_at(board@, x as int, y as int) is Hole ==> forall|d: int|
                1 <= d <= 9 ==> (digit_bits(r).contains(d) <==> digit_bits(prev).contains(d)
                    && self.allows(board@, x as int, y as int, d)),
    ;

    /// The acceptance relation ignores the target cell's own value.
    proof fn lemma_allows_ignores_target(
        &self,
        b: Seq<MaybeDigit>,
        x: int,
        y: int,
        d: int,
        m: MaybeDigit,
    )
        requires
            b.len() == 81,
            0 <= x < 9,
            0 <= y < 9,
        ensures
            self.allows(b, x, y, d) == self.allows(b.update(idx_of(x, y), m), x, y, d),
    ;

    /// Filling holes never widens acceptance: a digit allowed on the fuller
    /// board `b2` is allowed on any board `b1` that `b2` extends.
    proof fn lemma_allows_monotone(
        &self,
        b1: Seq<MaybeDigit>,
        b2: Seq<MaybeDigit>,
        x: int,
        y: int,
        d: int,
    )
        requires
            extends(b2, b1),
            0 <= x < 9,
            0 <= y < 9,
            self.allows(b2, x, y, d),
        ensures
            self.allows(b1, x, y, d),
    ;

    /// Placing an allowed digit in a hole of an accepted board yields an
    /// accepted board.
    proof fn lemma_allows_place(&self, b: Seq<MaybeDigit>, x: int, y: int, d: Digit)
        requires
            b.len() == 81,
            0 <= x < 9,
            0 <= y < 9,
            cell_at(b, x, y) is Hole,
            self.allows(b, x, y, d.value()),
            forall|u: int, v: int|
                0 <= u < 9 && 0 <= v < 9 && #[trigger] filled(b, u, v) ==> self.allows(
                    b,
                    u,
                    v,
                    digit_at(b, u, v),
                ),
        ensures
            forall|u: int, v: int|
                0 <= u < 9 && 0 <= v < 9 && #[trigger] filled(
                    b.update(idx_of(x, y), MaybeDigit::Definitely(d)),
                    u,
                    v,
                ) ==> self.allows(
                    b.update(idx_of(x, y), MaybeDigit::Definitely(d)),
                    u,
                    v,
                    digit_at(b.update(idx_of(x, y), MaybeDigit::Definitely(d)), u, v),
                ),
    ;
}

/// Whether every definite digit of `b` is allowed at its cell by the rule
/// `c`, relative to the other cells.
pub open spec fn accepted<C: Constraint>(c: &C, b: Seq<MaybeDigit>) -> bool {
    forall|x: int, y: int|
        0 <= x < 9 && 0 <= y < 9 && #[trigger] filled(b, x, y) ==> c.allows(b, x, y, digit_at(b, x, y))
}

/// A full, accepted board that keeps every given digit of `input`: what the
/// search engine is looking for.
pub open spec fn is_solution<C: Constraint>(c: &C, s: Seq<MaybeDigit>, input: Seq<MaybeDigit>) -> bool {
    complete(s) && extends(s, input) && accepted(c, s)
}

} // verus!
