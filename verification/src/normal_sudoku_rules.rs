use vstd::prelude::*;

use crate::bits::DigitBits;
use crate::bits::digit_bits;
use crate::bits::digit_bits_set;
use crate::board::Board;
use crate::board::idx_of;
use crate::board::lemma_idx_injective;
use crate::constraint::Constraint;
use crate::constraint::cell_at;
use crate::constraint::digit_at;
use crate::constraint::filled;
use crate::constraint::is_solution;
use crate::digit::Digit;
use crate::digit::MaybeDigit;

verus! {

/// Whether the cells at rows `x`, `u` and columns `y`, `v` share a 3 by 3 box.
pub open spec fn same_box(x: int, y: int, u: int, v: int) -> bool {
    u / 3 == x / 3 && v / 3 == y / 3
}

/// Whether the cell at row `u`, column `v` is a peer of the one at row `x`,
/// column `y`: a different cell of the same row, column, or box.
pub open spec fn sees(x: int, y: int, u: int, v: int) -> bool {
    !(u == x && v == y) && (u == x || v == y || same_box(x, y, u, v))
}

/// Division of `3 * a + c` by 3, for `c` in 0..3.
proof fn lemma_div3(j: int, a: int, c: int)
    requires
        j == 3 * a + c,
        0 <= c < 3,
    ensures
        j / 3 == a,
        j % 3 == c,
{
    vstd::arithmetic::div_mod::lemma_fundamental_div_mod(j, 3);
}

/// Peerhood is symmetric.
proof fn lemma_sees_symmetric(x: int, y: int, u: int, v: int)
    ensures
        sees(x, y, u, v) == sees(u, v, x, y),
{
}

/// No digit `dd` stands in the first `upto` cells of row `x`.
spec fn row_clear(b: Seq<MaybeDigit>, x: int, upto: int, dd: int) -> bool {
    forall|w: int| 0 <= w < upto && #[trigger] filled(b, x, w) ==> digit_at(b, x, w) != dd
}

/// No digit `dd` stands in the first `upto` cells of column `y`.
spec fn col_clear(b: Seq<MaybeDigit>, y: int, upto: int, dd: int) -> bool {
    forall|u: int| 0 <= u < upto && #[trigger] filled(b, u, y) ==> digit_at(b, u, y) != dd
}

/// No digit `dd` stands in the first `upto` cells, row-major, of the box
/// whose top-left cell is at row `bx`, column `by`.
spec fn box_clear(b: Seq<MaybeDigit>, bx: int, by: int, upto: int, dd: int) -> bool {
    forall|u: int, v: int|
        bx <= u < bx + 3 && by <= v < by + 3 && (u - bx) * 3 + (v - by) < upto && #[trigger] filled(
            b,
            u,
            v,
        ) ==> digit_at(b, u, v) != dd
}

/// The classic Sudoku rules: a digit may stand at a cell only when it stands
/// in no other cell of the cell's row, column, or 3 by 3 box.
pub struct NormalSudokuRules;

impl Constraint for NormalSudokuRules {
    open spec fn allows(&self, b: Seq<MaybeDigit>, x: int, y: int, d: int) -> bool {
        forall|u: int, v: int|
            0 <= u < 9 && 0 <= v < 9 && sees(x, y, u, v) && #[trigger] filled(b, u, v)
                ==> digit_at(b, u, v) != d
    }

    fn posibilities(&self, x: usize, y: usize, board: &Board<MaybeDigit>, prev: DigitBits) -> (r:
        DigitBits)
    {
        let ghost b = board@;
        let ghost p0 = digit_bits(prev);
        let ghost xi = x as int;
        let ghost yi = y as int;
        let mut cur = prev;

        let row = board.row(x);
        for w in 0..9
            invariant
                x < 9,
                y < 9,
                board.wf(),
                b == board@,
                row@.len() == 9,
                forall|t: int| 0 <= t < 9 ==> row@[t] == b[idx_of(xi, t)],
                forall|dd: int|
                    #[trigger] digit_bits(cur).contains(dd) <==> p0.contains(dd) && row_clear(
                        b,
                        xi,
                        w as int,
                        dd,
                    ),
        {
            match row.get(w) {
                MaybeDigit::Definitely(dg) => {
                    let ghost pre = digit_bits(cur);
                    digit_bits_set(&mut cur, dg.to_u8() as usize, false);
                    proof {
                        assert(filled(b, xi, w as int));
                        assert(digit_at(b, xi, w as int) == dg.value());
                        assert forall|dd: int| #[trigger] digit_bits(cur).contains(dd) <==> p0.contains(
                            dd,
                        ) && row_clear(b, xi, w as int + 1, dd) by {
                            assert(digit_bits(cur).contains(dd) <==> pre.contains(dd) && dd
                                != dg.value());
                            if p0.contains(dd) && row_clear(b, xi, w as int + 1, dd) {
                                assert(row_clear(b, xi, w as int, dd));
                            }
                            if digit_bits(cur).contains(dd) {
                                assert(row_clear(b, xi, w as int, dd) && dd != dg.value());
                                assert forall|t: int|
                                    0 <= t < w as int + 1 && #[trigger] filled(b, xi, t) implies digit_at(
                                    b,
                                    xi,
                                    t,
                                ) != dd by {
                                    if t < w as int {
                                        assert(digit_at(b, xi, t) != dd);
                                    }
                                }
                            }
                        }
                    }
                },
                MaybeDigit::Hole => {
                    proof {
                        assert forall|dd: int| #[trigger] digit_bits(cur).contains(dd) <==> p0.contains(
                            dd,
                        ) && row_clear(b, xi, w as int + 1, dd) by {
                            if p0.contains(dd) && row_clear(b, xi, w as int + 1, dd) {
                                assert(row_clear(b, xi, w as int, dd));
                            }
                            if digit_bits(cur).contains(dd) {
                                assert forall|t: int|
                                    0 <= t < w as int + 1 && #[trigger] filled(b, xi, t) implies digit_at(
                                    b,
                                    xi,
                                    t,
                                ) != dd by {
                                    if t < w as int {
                                        assert(digit_at(b, xi, t) != dd);
                                    } else {
                                        assert(!filled(b, xi, t));
                                    }
                                }
                            }
                        }
                    }
                },
            }
        }

        let col = board.column(y);
        for u in 0..9
            invariant
                x < 9,
                y < 9,
                board.wf(),
                b == board@,
                col@.len() == 9,
                forall|t: int| 0 <= t < 9 ==> col@[t] == b[idx_of(t, yi)],
                forall|dd: int|
                    #[trigger] digit_bits(cur).contains(dd) <==> p0.contains(dd) && row_clear(
                        b,
                        xi,
                        9,
                        dd,
                    ) && col_clear(b, yi, u as int, dd),
        {
            match col.get(u) {
                MaybeDigit::Definitely(dg) => {
                    let ghost pre = digit_bits(cur);
                    digit_bits_set(&mut cur, dg.to_u8() as usize, false);
                    proof {
                        assert(filled(b, u as int, yi));
                        assert(digit_at(b, u as int, yi) == dg.value());
                        assert forall|dd: int| #[trigger] digit_bits(cur).contains(dd) <==> p0.contains(
                            dd,
                        ) && row_clear(b, xi, 9, dd) && col_clear(b, yi, u as int + 1, dd) by {
                            assert(digit_bits(cur).contains(dd) <==> pre.contains(dd) && dd
                                != dg.value());
                            if p0.contains(dd) && row_clear(b, xi, 9, dd) && col_clear(
                                b,
                                yi,
                                u as int + 1,
                                dd,
                            ) {
                                assert(col_clear(b, yi, u as int, dd));
                            }
                            if digit_bits(cur).contains(dd) {
                                assert(col_clear(b, yi, u as int, dd) && dd != dg.value());
                                assert forall|t: int|
                                    0 <= t < u as int + 1 && #[trigger] filled(b, t, yi) implies digit_at(
                                    b,
                                    t,
                                    yi,
                                ) != dd by {
                                    if t < u as int {
                                        assert(digit_at(b, t, yi) != dd);
                                    }
                                }
                            }
                        }
                    }
                },
                MaybeDigit::Hole => {
                    proof {
                        assert forall|dd: int| #[trigger] digit_bits(cur).contains(dd) <==> p0.contains(
                            dd,
                        ) && row_clear(b, xi, 9, dd) && col_clear(b, yi, u as int + 1, dd) by {
                            if p0.contains(dd) && row_clear(b, xi, 9, dd) && col_clear(
                                b,
                                yi,
                                u as int + 1,
                                dd,
                            ) {
                                assert(col_clear(b, yi, u as int, dd));
                            }
                            if digit_bits(cur).contains(dd) {
                                assert forall|t: int|
                                    0 <= t < u as int + 1 && #[trigger] filled(b, t, yi) implies digit_at(
                                    b,
                                    t,
                                    yi,
                                ) != dd by {
                                    if t < u as int {
                                        assert(digit_at(b, t, yi) != dd);
                                    } else {
                                        assert(!filled(b, t, yi));
                                    }
                                }
                            }
                        }
                    }
                },
            }
        }

        let boxg = board.box_of((x, y));
        let ghost bx = xi - xi % 3;
        let ghost by = yi - yi % 3;
        proof {
            vstd::arithmetic::div_mod::lemma_fundamental_div_mod(xi, 3);
            vstd::arithmetic::div_mod::lemma_fundamental_div_mod(yi, 3);
        }
        for k in 0..9
            invariant
                x < 9,
                y < 9,
                board.wf(),
                b == board@,
                bx == xi - xi % 3,
                by == yi - yi % 3,
                bx == 3 * (xi / 3),
                by == 3 * (yi / 3),
                0 <= bx <= 6,
                0 <= by <= 6,
                boxg@.len() == 9,
                forall|t: int|
                    0 <= t < 9 ==> boxg@[t] == b[idx_of(bx + t / 3, by + t % 3)],
                forall|dd: int|
                    #[trigger] digit_bits(cur).contains(dd) <==> p0.contains(dd) && row_clear(
                        b,
                        xi,
                        9,
                        dd,
                    ) && col_clear(b, yi, 9, dd) && box_clear(b, bx, by, k as int, dd),
        {
            let ghost ku = bx + k as int / 3;
            let ghost kv = by + k as int % 3;
            proof {
                vstd::arithmetic::div_mod::lemma_fundamental_div_mod(k as int, 3);
                assert((ku - bx) * 3 + (kv - by) == k as int);
            }
            match boxg.get(k) {
                MaybeDigit::Definitely(dg) => {
                    let ghost pre = digit_bits(cur);
                    digit_bits_set(&mut cur, dg.to_u8() as usize, false);
                    proof {
                        assert(filled(b, ku, kv));
                        assert(digit_at(b, ku, kv) == dg.value());
                        assert forall|dd: int| #[trigger] digit_bits(cur).contains(dd) <==> p0.contains(
                            dd,
                        ) && row_clear(b, xi, 9, dd) && col_clear(b, yi, 9, dd) && box_clear(
                            b,
                            bx,
                            by,
                            k as int + 1,
                            dd,
                        ) by {
                            assert(digit_bits(cur).contains(dd) <==> pre.contains(dd) && dd
                                != dg.value());
                            if p0.contains(dd) && box_clear(b, bx, by, k as int + 1, dd) {
                                assert(box_clear(b, bx, by, k as int, dd));
                            }
                            if digit_bits(cur).contains(dd) {
                                assert(box_clear(b, bx, by, k as int, dd) && dd != dg.value());
                                assert forall|u: int, v: int|
                                    bx <= u < bx + 3 && by <= v < by + 3 && (u - bx) * 3 + (v - by)
                                        < k as int + 1 && #[trigger] filled(b, u, v) implies digit_at(
                                    b,
                                    u,
                                    v,
                                ) != dd by {
                                    if (u - bx) * 3 + (v - by) < k as int {
                                        assert(digit_at(b, u, v) != dd);
                                    } else {
                                        assert((u - bx) * 3 + (v - by) == k as int);
                                        lemma_div3(k as int, u - bx, v - by);
                                        assert(u == ku && v == kv);
                                    }
                                }
                            }
                        }
                    }
                },
                MaybeDigit::Hole => {
                    proof {
                        assert forall|dd: int| #[trigger] digit_bits(cur).contains(dd) <==> p0.contains(
                            dd,
                        ) && row_clear(b, xi, 9, dd) && col_clear(b, yi, 9, dd) && box_clear(
                            b,
                            bx,
                            by,
                            k as int + 1,
                            dd,
                        ) by {
                            if p0.contains(dd) && box_clear(b, bx, by, k as int + 1, dd) {
                                assert(box_clear(b, bx, by, k as int, dd));
                            }
                            if digit_bits(cur).contains(dd) {
                                assert forall|u: int, v: int|
                                    bx <= u < bx + 3 && by <= v < by + 3 && (u - bx) * 3 + (v - by)
                                        < k as int + 1 && #[trigger] filled(b, u, v) implies digit_at(
                                    b,
                                    u,
                                    v,
                                ) != dd by {
                                    if (u - bx) * 3 + (v - by) < k as int {
                                        assert(digit_at(b, u, v) != dd);
                                    } else {
                                        assert((u - bx) * 3 + (v - by) == k as int);
                                        lemma_div3(k as int, u - bx, v - by);
                                        assert(u == ku && v == kv);
                                        assert(!filled(b, u, v));
                                    }
                                }
                            }
                        }
                    }
                },
            }
        }

        proof {
            assert forall|dd: int| #[trigger] digit_bits(cur).contains(dd) implies digit_bits(
                prev,
            ).contains(dd) by {}
            assert(digit_bits(cur).subset_of(digit_bits(prev)));
            if cell_at(b, xi, yi) is Hole {
                assert forall|d: int| 1 <= d <= 9 implies (digit_bits(cur).contains(d)
                    <==> digit_bits(prev).contains(d) && self.allows(b, xi, yi, d)) by {
                    lemma_clears_match_allows(b, xi, yi, d);
                }
            }
        }
        cur
    }

    proof fn lemma_allows_ignores_target(
        &self,
        b: Seq<MaybeDigit>,
        x: int,
        y: int,
        d: int,
        m: MaybeDigit,
    ) {
        let b2 = b.update(idx_of(x, y), m);
        assert forall|u: int, v: int|
            0 <= u < 9 && 0 <= v < 9 && sees(x, y, u, v) && #[trigger] filled(b, u, v) implies filled(
            b2,
            u,
            v,
        ) && digit_at(b, u, v) == digit_at(b2, u, v) by {
            if idx_of(u, v) == idx_of(x, y) {
                lemma_idx_injective(x, y, u, v);
                assert(false);
            }
        }
        assert forall|u: int, v: int|
            0 <= u < 9 && 0 <= v < 9 && sees(x, y, u, v) && #[trigger] filled(b2, u, v) implies filled(
            b,
            u,
            v,
        ) && digit_at(b, u, v) == digit_at(b2, u, v) by {
            if idx_of(u, v) == idx_of(x, y) {
                lemma_idx_injective(x, y, u, v);
                assert(false);
            }
        }
        assert(self.allows(b, x, y, d) ==> self.allows(b2, x, y, d));
        assert(self.allows(b2, x, y, d) ==> self.allows(b, x, y, d));
    }

    proof fn lemma_allows_monotone(
        &self,
        b1: Seq<MaybeDigit>,
        b2: Seq<MaybeDigit>,
        x: int,
        y: int,
        d: int,
    ) {
        assert forall|u: int, v: int|
            0 <= u < 9 && 0 <= v < 9 && sees(x, y, u, v) && #[trigger] filled(b1, u, v) implies digit_at(
            b1,
            u,
            v,
        ) != d by {
            assert(0 <= idx_of(u, v) < 81);
            assert(b1[idx_of(u, v)] is Definitely);
            assert(b2[idx_of(u, v)] == b1[idx_of(u, v)]);
            assert(filled(b2, u, v));
            assert(digit_at(b2, u, v) != d);
        }
    }

    proof fn lemma_allows_place(&self, b: Seq<MaybeDigit>, x: int, y: int, d: Digit) {
        let b2 = b.update(idx_of(x, y), MaybeDigit::Definitely(d));
        assert forall|u: int, v: int|
            0 <= u < 9 && 0 <= v < 9 && #[trigger] filled(b2, u, v) implies self.allows(
            b2,
            u,
            v,
            digit_at(b2, u, v),
        ) by {
            if u == x && v == y {
                // The fresh digit: its peers are unchanged, so the hypothesis
                // that `d` was allowed at the hole carries over.
                assert(digit_at(b2, x, y) == d.value());
                assert forall|p: int, q: int|
                    0 <= p < 9 && 0 <= q < 9 && sees(x, y, p, q) && #[trigger] filled(b2, p, q) implies digit_at(
                    b2,
                    p,
                    q,
                ) != d.value() by {
                    if idx_of(p, q) == idx_of(x, y) {
                        lemma_idx_injective(x, y, p, q);
                        assert(false);
                    }
                    assert(filled(b, p, q));
                    assert(digit_at(b, p, q) == digit_at(b2, p, q));
                }
            } else {
                if idx_of(u, v) == idx_of(x, y) {
                    lemma_idx_injective(x, y, u, v);
                    assert(false);
                }
                let e = digit_at(b, u, v);
                assert(filled(b, u, v));
                assert(digit_at(b2, u, v) == e);
                assert(self.allows(b, u, v, e));
                assert forall|p: int, q: int|
                    0 <= p < 9 && 0 <= q < 9 && sees(u, v, p, q) && #[trigger] filled(b2, p, q) implies digit_at(
                    b2,
                    p,
                    q,
                ) != e by {
                    if idx_of(p, q) == idx_of(x, y) {
                        lemma_idx_injective(x, y, p, q);
                        // The fresh cell: it is a peer of (u, v), and the
                        // hole's allowance already ruled its digit out there.
                        lemma_sees_symmetric(u, v, x, y);
                        assert(sees(x, y, u, v));
                        assert(digit_at(b2, p, q) == d.value());
                        assert(digit_at(b, u, v) != d.value());
                    } else {
                        assert(filled(b, p, q));
                        assert(digit_at(b, p, q) == digit_at(b2, p, q));
                    }
                }
            }
        }
    }
}

/// For an unresolved target cell, clearing its row, column, and box is the
/// same as being allowed by the classic rules.
proof fn lemma_clears_match_allows(b: Seq<MaybeDigit>, x: int, y: int, d: int)
    requires
        b.len() == 81,
        0 <= x < 9,
        0 <= y < 9,
        cell_at(b, x, y) is Hole,
    ensures
        (row_clear(b, x, 9, d) && col_clear(b, y, 9, d) && box_clear(b, x - x % 3, y - y % 3, 9, d))
            == (NormalSudokuRules).allows(b, x, y, d),
{
    let bx = x - x % 3;
    let by = y - y % 3;
    vstd::arithmetic::div_mod::lemma_fundamental_div_mod(x, 3);
    vstd::arithmetic::div_mod::lemma_fundamental_div_mod(y, 3);
    if row_clear(b, x, 9, d) && col_clear(b, y, 9, d) && box_clear(b, bx, by, 9, d) {
        assert forall|u: int, v: int|
            0 <= u < 9 && 0 <= v < 9 && sees(x, y, u, v) && #[trigger] filled(b, u, v) implies digit_at(
            b,
            u,
            v,
        ) != d by {
            if u == x {
                assert(digit_at(b, x, v) != d);
            } else if v == y {
                assert(digit_at(b, u, y) != d);
            } else {
                assert(same_box(x, y, u, v));
                vstd::arithmetic::div_mod::lemma_fundamental_div_mod(u, 3);
                vstd::arithmetic::div_mod::lemma_fundamental_div_mod(v, 3);
                assert(bx <= u < bx + 3);
                assert(by <= v < by + 3);
                assert((u - bx) * 3 + (v - by) < 9);
            }
        }
    }
    if (NormalSudokuRules).allows(b, x, y, d) {
        assert forall|w: int| 0 <= w < 9 && #[trigger] filled(b, x, w) implies digit_at(b, x, w)
            != d by {
            if w == y {
                assert(!filled(b, x, y));
            } else {
                assert(sees(x, y, x, w));
            }
        }
        assert forall|u: int| 0 <= u < 9 && #[trigger] filled(b, u, y) implies digit_at(b, u, y)
            != d by {
            if u == x {
                assert(!filled(b, x, y));
            } else {
                assert(sees(x, y, u, y));
            }
        }
        assert forall|u: int, v: int|
            bx <= u < bx + 3 && by <= v < by + 3 && (u - bx) * 3 + (v - by) < 9 && #[trigger] filled(
            b,
            u,
            v,
        ) implies digit_at(b, u, v) != d by {
            if u == x && v == y {
                assert(!filled(b, x, y));
            } else {
                lemma_div3(u, x / 3, u - bx);
                lemma_div3(v, y / 3, v - by);
                assert(same_box(x, y, u, v));
                assert(sees(x, y, u, v));
            }
        }
    }
}


/// The set of digit values among the first `j` cells of a nine-cell unit.
spec fn unit_digits(s: Seq<MaybeDigit>, cells: spec_fn(int) -> (int, int), j: int) -> Set<int> {
    Set::new(
        |d: int|
            exists|k: int|
                0 <= k < j && digit_at(s, (#[trigger] cells(k)).0, cells(k).1) == d,
    )
}

/// A unit of nine cells with pairwise distinct digit values shows `j`
/// distinct values among its first `j` cells.
proof fn lemma_unit_digits_card(s: Seq<MaybeDigit>, cells: spec_fn(int) -> (int, int), j: int)
    requires
        0 <= j <= 9,
        forall|k: int| 0 <= k < 9 ==> 1 <= digit_at(s, (#[trigger] cells(k)).0, cells(k).1) <= 9,
        forall|k1: int, k2: int|
            0 <= k1 < 9 && 0 <= k2 < 9 && k1 != k2 ==> digit_at(
                s,
                (#[trigger] cells(k1)).0,
                cells(k1).1,
            ) != digit_at(s, (#[trigger] cells(k2)).0, cells(k2).1),
    ensures
        unit_digits(s, cells, j).finite(),
        unit_digits(s, cells, j).len() == j,
    decreases j,
{
    if j == 0 {
        assert(unit_digits(s, cells, 0) =~= Set::<int>::empty());
    } else {
        lemma_unit_digits_card(s, cells, j - 1);
        let v = digit_at(s, cells(j - 1).0, cells(j - 1).1);
        assert(!unit_digits(s, cells, j - 1).contains(v));
        assert(unit_digits(s, cells, j) =~= unit_digits(s, cells, j - 1).insert(v)) by {
            assert forall|d: int| unit_digits(s, cells, j).contains(d) implies unit_digits(
                s,
                cells,
                j - 1,
            ).insert(v).contains(d) by {
                let k = choose|k: int|
                    0 <= k < j && digit_at(s, (#[trigger] cells(k)).0, cells(k).1) == d;
                if k < j - 1 {
                    assert(unit_digits(s, cells, j - 1).contains(d));
                }
            }
            assert forall|d: int| unit_digits(s, cells, j - 1).insert(v).contains(d) implies unit_digits(
                s,
                cells,
                j,
            ).contains(d) by {
                if d == v {
                    assert(digit_at(s, (cells(j - 1)).0, cells(j - 1).1) == d);
                } else {
                    let k = choose|k: int|
                        0 <= k < j - 1 && digit_at(s, (#[trigger] cells(k)).0, cells(k).1) == d;
                    assert(digit_at(s, (cells(k)).0, cells(k).1) == d);
                }
            }
        }
    }
}

/// A unit of nine cells with pairwise distinct digit values in 1..=9 holds
/// every digit.
proof fn lemma_unit_has_digit(s: Seq<MaybeDigit>, cells: spec_fn(int) -> (int, int), d: int)
    requires
        1 <= d <= 9,
        forall|k: int| 0 <= k < 9 ==> 1 <= digit_at(s, (#[trigger] cells(k)).0, cells(k).1) <= 9,
        forall|k1: int, k2: int|
            0 <= k1 < 9 && 0 <= k2 < 9 && k1 != k2 ==> digit_at(
                s,
                (#[trigger] cells(k1)).0,
                cells(k1).1,
            ) != digit_at(s, (#[trigger] cells(k2)).0, cells(k2).1),
    ensures
        exists|k: int| 0 <= k < 9 && digit_at(s, (#[trigger] cells(k)).0, cells(k).1) == d,
{
    lemma_unit_digits_card(s, cells, 9);
    vstd::set_lib::lemma_int_range(1, 10);
    let digs = unit_digits(s, cells, 9);
    let range = vstd::set_lib::set_int_range(1, 10);
    assert forall|t: int| digs.contains(t) implies range.contains(t) by {
        let k = choose|k: int|
            0 <= k < 9 && digit_at(s, (#[trigger] cells(k)).0, cells(k).1) == t;
        assert(1 <= t <= 9);
    }
    vstd::set_lib::lemma_subset_equality(digs, range);
    assert(digs.contains(d));
}

/// In a solved grid, two distinct cells that share a row, a column, or a
/// box never hold the same digit.
pub proof fn lemma_solution_distinct(
    s: Seq<MaybeDigit>,
    input: Seq<MaybeDigit>,
    x1: int,
    y1: int,
    x2: int,
    y2: int,
)
    requires
        is_solution(&NormalSudokuRules, s, input),
        0 <= x1 < 9,
        0 <= y1 < 9,
        0 <= x2 < 9,
        0 <= y2 < 9,
        sees(x1, y1, x2, y2),
    ensures
        digit_at(s, x1, y1) != digit_at(s, x2, y2),
{
    assert(filled(s, x1, y1));
    assert(filled(s, x2, y2));
    assert((NormalSudokuRules).allows(s, x1, y1, digit_at(s, x1, y1)));
}

/// Every digit value of a solved grid lies in 1..=9.
proof fn lemma_solution_digit_range(s: Seq<MaybeDigit>, x: int, y: int)
    requires
        s.len() == 81,
        0 <= x < 9,
        0 <= y < 9,
        filled(s, x, y),
    ensures
        1 <= digit_at(s, x, y) <= 9,
{
    Digit::lemma_value_range(s[idx_of(x, y)]->Definitely_0);
}

/// Every row of a solved grid holds every digit.
pub proof fn lemma_row_has_digit(s: Seq<MaybeDigit>, input: Seq<MaybeDigit>, x: int, d: int)
    requires
        is_solution(&NormalSudokuRules, s, input),
        0 <= x < 9,
        1 <= d <= 9,
    ensures
        exists|y: int| 0 <= y < 9 && digit_at(s, x, y) == d,
{
    let cells = |k: int| (x, k);
    assert forall|k: int| 0 <= k < 9 implies 1 <= digit_at(
        s,
        (#[trigger] cells(k)).0,
        cells(k).1,
    ) <= 9 by {
        assert(filled(s, x, k));
        lemma_solution_digit_range(s, x, k);
    }
    assert forall|k1: int, k2: int| 0 <= k1 < 9 && 0 <= k2 < 9 && k1 != k2 implies digit_at(
        s,
        (#[trigger] cells(k1)).0,
        cells(k1).1,
    ) != digit_at(s, (#[trigger] cells(k2)).0, cells(k2).1) by {
        lemma_solution_distinct(s, input, x, k1, x, k2);
    }
    lemma_unit_has_digit(s, cells, d);
    let k = choose|k: int| 0 <= k < 9 && digit_at(s, (#[trigger] cells(k)).0, cells(k).1) == d;
    assert(digit_at(s, x, k) == d);
}

/// Every column of a solved grid holds every digit.
pub proof fn lemma_column_has_digit(s: Seq<MaybeDigit>, input: Seq<MaybeDigit>, y: int, d: int)
    requires
        is_solution(&NormalSudokuRules, s, input),
        0 <= y < 9,
        1 <= d <= 9,
    ensures
        exists|x: int| 0 <= x < 9 && digit_at(s, x, y) == d,
{
    let cells = |k: int| (k, y);
    assert forall|k: int| 0 <= k < 9 implies 1 <= digit_at(
        s,
        (#[trigger] cells(k)).0,
        cells(k).1,
    ) <= 9 by {
        assert(filled(s, k, y));
        lemma_solution_digit_range(s, k, y);
    }
    assert forall|k1: int, k2: int| 0 <= k1 < 9 && 0 <= k2 < 9 && k1 != k2 implies digit_at(
        s,
        (#[trigger] cells(k1)).0,
        cells(k1).1,
    ) != digit_at(s, (#[trigger] cells(k2)).0, cells(k2).1) by {
        lemma_solution_distinct(s, input, k1, y, k2, y);
    }
    lemma_unit_has_digit(s, cells, d);
    let k = choose|k: int| 0 <= k < 9 && digit_at(s, (#[trigger] cells(k)).0, cells(k).1) == d;
    assert(digit_at(s, k, y) == d);
}

/// The box containing any cell of a solved grid holds every digit.
pub proof fn lemma_box_has_digit(
    s: Seq<MaybeDigit>,
    input: Seq<MaybeDigit>,
    x: int,
    y: int,
    d: int,
)
    requires
        is_solution(&NormalSudokuRules, s, input),
        0 <= x < 9,
        0 <= y < 9,
        1 <= d <= 9,
    ensures
        exists|u: int, v: int|
            0 <= u < 9 && 0 <= v < 9 && same_box(x, y, u, v) && digit_at(s, u, v) == d,
{
    let bx = x - x % 3;
    let by = y - y % 3;
    vstd::arithmetic::div_mod::lemma_fundamental_div_mod(x, 3);
    vstd::arithmetic::div_mod::lemma_fundamental_div_mod(y, 3);
    let cells = |k: int| (bx + k / 3, by + k % 3);
    assert forall|k: int| 0 <= k < 9 implies 0 <= (#[trigger] cells(k)).0 < 9 && 0 <= cells(k).1
        < 9 && same_box(x, y, cells(k).0, cells(k).1) by {
        vstd::arithmetic::div_mod::lemma_fundamental_div_mod(k, 3);
        lemma_div3(cells(k).0, x / 3, cells(k).0 - bx);
        lemma_div3(cells(k).1, y / 3, cells(k).1 - by);
    }
    assert forall|k: int| 0 <= k < 9 implies 1 <= digit_at(
        s,
        (#[trigger] cells(k)).0,
        cells(k).1,
    ) <= 9 by {
        assert(filled(s, cells(k).0, cells(k).1));
        lemma_solution_digit_range(s, cells(k).0, cells(k).1);
    }
    assert forall|k1: int, k2: int| 0 <= k1 < 9 && 0 <= k2 < 9 && k1 != k2 implies digit_at(
        s,
        (#[trigger] cells(k1)).0,
        cells(k1).1,
    ) != digit_at(s, (#[trigger] cells(k2)).0, cells(k2).1) by {
        vstd::arithmetic::div_mod::lemma_fundamental_div_mod(k1, 3);
        vstd::arithmetic::div_mod::lemma_fundamental_div_mod(k2, 3);
        assert(cells(k1) != cells(k2));
        assert(same_box(cells(k1).0, cells(k1).1, cells(k2).0, cells(k2).1));
        assert(sees(cells(k1).0, cells(k1).1, cells(k2).0, cells(k2).1));
        lemma_solution_distinct(s, input, cells(k1).0, cells(k1).1, cells(k2).0, cells(k2).1);
    }
    lemma_unit_has_digit(s, cells, d);
    let k = choose|k: int| 0 <= k < 9 && digit_at(s, (#[trigger] cells(k)).0, cells(k).1) == d;
    assert(digit_at(s, cells(k).0, cells(k).1) == d);
}

/// An input that already holds the same digit twice in one row admits no
/// solution at all, so the search must report failure on it.
pub proof fn lemma_duplicate_in_row_unsolvable(input: Seq<MaybeDigit>, x: int, y1: int, y2: int)
    requires
        input.len() == 81,
        0 <= x < 9,
        0 <= y1 < 9,
        0 <= y2 < 9,
        y1 != y2,
        filled(input, x, y1),
        filled(input, x, y2),
        digit_at(input, x, y1) == digit_at(input, x, y2),
    ensures
        forall|s: Seq<MaybeDigit>| !is_solution(&NormalSudokuRules, s, input),
{
    assert forall|s: Seq<MaybeDigit>| !#[trigger] is_solution(&NormalSudokuRules, s, input) by {
        if is_solution(&NormalSudokuRules, s, input) {
            assert(s[idx_of(x, y1)] == input[idx_of(x, y1)]);
            assert(s[idx_of(x, y2)] == input[idx_of(x, y2)]);
            assert(sees(x, y1, x, y2));
            lemma_solution_distinct(s, input, x, y1, x, y2);
        }
    }
}

} // verus!
