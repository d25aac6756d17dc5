use vstd::prelude::*;

verus! {

/// One of the nine digits a resolved Sudoku cell can hold.
#[derive(Clone, Copy, Debug, PartialEq, Eq, Structural, PartialOrd, Ord, Hash)]
pub enum Digit {
    One,
    Two,
    Three,
    Four,
    Five,
    Six,
    Seven,
    Eight,
    Nine,
}

/// A cell value: either still unresolved (a hole) or a definite digit.
#[derive(Clone, Copy, Debug, PartialEq, Eq, Structural, PartialOrd, Ord, Hash)]
pub enum MaybeDigit {
    Hole,
    Definitely(Digit),
}

impl Digit {
    /// The numeric value of the digit, as a mathematical integer in 1..=9.
    pub open spec fn value(self) -> int {
        match self {
            Digit::One => 1,
            Digit::Two => 2,
            Digit::Three => 3,
            Digit::Four => 4,
            Digit::Five => 5,
            Digit::Six => 6,
            Digit::Seven => 7,
            Digit::Eight => 8,
            Digit::Nine => 9,
        }
    }

    /// Constructs the digit with the given numeric value.
    ///
    /// Values outside 1..=9 are a programming error and are excluded up
    /// front rather than detected at run time.
    pub fn new(x: u8) -> (r: Self)
        requires
            1 <= x <= 9,
        ensures
            r.value() == x as int,
    {
        match x {
            1 => Digit::One,
            2 => Digit::Two,
            3 => Digit::Three,
            4 => Digit::Four,
            5 => Digit::Five,
            6 => Digit::Six,
            7 => Digit::Seven,
            8 => Digit::Eight,
            _ => Digit::Nine,
        }
    }

    /// The numeric value of the digit, as a machine integer.
    pub fn to_u8(self) -> (r: u8)
        ensures
            r as int == self.value(),
    {
        match self {
            Digit::One => 1,
            Digit::Two => 2,
            Digit::Three => 3,
            Digit::Four => 4,
            Digit::Five => 5,
            Digit::Six => 6,
            Digit::Seven => 7,
            Digit::Eight => 8,
            Digit::Nine => 9,
        }
    }

    /// A digit's numeric value always lies in 1..=9.
    pub proof fn lemma_value_range(d: Digit)
        ensures
            1 <= d.value() <= 9,
    {
    }

    /// Two digits with the same numeric value are the same digit.
    pub proof fn lemma_value_injective(a: Digit, b: Digit)
        requires
            a.value() == b.value(),
        ensures
            a == b,
    {
    }
}

/// A board sequence of definite digits, seen as a sequence of cell values.
pub open spec fn as_maybe(s: Seq<Digit>) -> Seq<MaybeDigit> {
    s.map_values(|d: Digit| MaybeDigit::Definitely(d))
}

impl Default for MaybeDigit {
    /// A fresh cell is unresolved.
    fn default() -> (r: Self)
        ensures
            r is Hole,
    {
        MaybeDigit::Hole
    }
}

} // verus!
