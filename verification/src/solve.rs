use vstd::prelude::*;
use vstd::pervasive::unreached;

use crate::bits::CellBits;
use crate::bits::cell_bits;
use crate::bits::cell_bits_empty;
use crate::bits::cell_bits_first_one;
use crate::bits::cell_bits_set;
use crate::bits::DigitBits;
use crate::bits::digit_bits;
use crate::bits::digit_bits_empty;
use crate::bits::digit_bits_get;
use crate::bits::digit_bits_ones;
use crate::bits::digit_bits_set;
use crate::board::Board;
use crate::board::idx_of;
use crate::board::lemma_idx_injective;
use crate::constraint::Constraint;
use crate::constraint::cell_at;
use crate::constraint::complete;
use crate::constraint::digit_at;
use crate::constraint::extends;
use crate::constraint::filled;
use crate::constraint::is_solution;
use crate::digit::as_maybe;
use crate::digit::Digit;
use crate::digit::MaybeDigit;
use crate::solution::Solution;
use crate::sudoku::Sudoku;

verus! {

/// The number of unresolved cells of a board sequence.
spec fn count_holes(b: Seq<MaybeDigit>) -> nat
    decreases b.len(),
{
    if b.len() == 0 {
        0
    } else {
        count_holes(b.drop_last()) + if b.last() is Hole {
            1nat
        } else {
            0nat
        }
    }
}

/// Resolving a hole lowers the hole count by one.
proof fn lemma_count_holes_update(b: Seq<MaybeDigit>, i: int, m: MaybeDigit)
    requires
        0 <= i < b.len(),
        b[i] is Hole,
        m is Definitely,
    ensures
        count_holes(b.update(i, m)) + 1 == count_holes(b),
    decreases b.len(),
{
    let b2 = b.update(i, m);
    if i == b.len() - 1 {
        assert(b2.drop_last() =~= b.drop_last());
    } else {
        assert(b2.drop_last() =~= b.drop_last().update(i, m));
        lemma_count_holes_update(b.drop_last(), i, m);
    }
}

/// The unresolved-cell bitset mirrors exactly the board's holes.
spec fn holes_match(b: Seq<MaybeDigit>, hs: Set<int>) -> bool {
    forall|i: int| #[trigger] hs.contains(i) <==> 0 <= i < 81 && b[i] is Hole
}

/// Whether every definite digit among the first `upto` cells of `b` is
/// allowed at its cell by the rule.
spec fn checked<R: Constraint>(rules: &R, b: Seq<MaybeDigit>, upto: int) -> bool {
    forall|x: int, y: int|
        0 <= x < 9 && 0 <= y < 9 && idx_of(x, y) < upto && #[trigger] filled(b, x, y)
            ==> rules.allows(b, x, y, digit_at(b, x, y))
}

/// A candidate bitset holding exactly the nine digits.
fn all_digits() -> (r: DigitBits)
    ensures
        forall|t: int| #[trigger] digit_bits(r).contains(t) <==> 1 <= t <= 9,
{
    let mut all = digit_bits_empty();
    let mut d: usize = 1;
    while d <= 9
        invariant
            1 <= d <= 10,
            forall|t: int| #[trigger] digit_bits(all).contains(t) <==> 1 <= t < d as int,
        decreases 10 - d,
    {
        digit_bits_set(&mut all, d, true);
        d += 1;
    }
    all
}

/// One step of the backtracking search: resolve the lowest-indexed hole.
///
/// On success the board is completely resolved, still accepted by the rule,
/// and extends the board the step started from. On failure board and hole
/// set are restored, and no solution of the starting board exists at all.
#[verifier::loop_isolation(false)]
fn solve_step<R: Constraint>(rules: &R, board: &mut Board<MaybeDigit>, holes: &mut CellBits) -> (r:
    Result<(), ()>)
    requires
        old(board).wf(),
        checked(rules, old(board)@, 81),
        holes_match(old(board)@, cell_bits(*old(holes))),
    ensures
        final(board).wf(),
        holes_match(final(board)@, cell_bits(*final(holes))),
        r is Ok ==> complete(final(board)@) && checked(rules, final(board)@, 81) && extends(
            final(board)@,
            old(board)@,
        ),
        r is Err ==> final(board)@ == old(board)@ && cell_bits(*final(holes)) == cell_bits(
            *old(holes),
        ),
        r is Err ==> forall|s: Seq<MaybeDigit>| !is_solution(rules, s, old(board)@),
    decreases count_holes(old(board)@),
{
    let ghost b0 = old(board)@;
    let ghost h0 = cell_bits(*old(holes));

    let idx = match cell_bits_first_one(holes) {
        None => {
            proof {
                assert forall|i: int| 0 <= i < 81 implies b0[i] is Definitely by {
                    if b0[i] is Hole {
                        assert(cell_bits(*holes).contains(i));
                    }
                }
            }
            return Ok(());
        },
        Some(i) => i,
    };
    proof {
        assert(cell_bits(*holes).contains(idx as int));
    }
    let x = idx / 9;
    let y = idx % 9;
    let ghost xi = x as int;
    let ghost yi = y as int;
    proof {
        vstd::arithmetic::div_mod::lemma_fundamental_div_mod(idx as int, 9);
        assert(idx_of(xi, yi) == idx as int);
        assert(b0[idx as int] is Hole);
    }

    cell_bits_set(holes, idx, false);
    let ghost h1 = cell_bits(*holes);

    let all = all_digits();
    let poss = rules.posibilities(x, y, board, all);
    let cands = digit_bits_ones(&poss);
    proof {
        assert(cell_at(b0, xi, yi) is Hole);
        assert forall|t: int| 0 <= t < cands@.len() implies 1 <= #[trigger] cands@[t] <= 9
            && digit_bits(poss).contains(cands@[t] as int) by {
            assert(digit_bits(poss).contains(cands@[t] as int));
            assert(digit_bits(all).contains(cands@[t] as int));
        }
        // Every solution of the starting board keeps one of the candidate
        // digits at the chosen hole.
        assert forall|s: Seq<MaybeDigit>| #[trigger] is_solution(rules, s, b0) implies exists|j: int|
            0 <= j < cands@.len() && digit_at(s, xi, yi) == cands@[j] as int by {
            assert(s[idx as int] is Definitely);
            assert(filled(s, xi, yi));
            let sd = digit_at(s, xi, yi);
            Digit::lemma_value_range(s[idx as int]->Definitely_0);
            assert(1 <= sd <= 9);
            assert(rules.allows(s, xi, yi, sd));
            rules.lemma_allows_monotone(b0, s, xi, yi, sd);
            assert(digit_bits(poss).contains(sd));
            assert(exists|j: int| 0 <= j < cands@.len() && #[trigger] cands@[j] as int == sd);
        }
    }

    let n = cands.len();
    let mut k: usize = 0;
    while k < n
        invariant
            n == cands@.len(),
            k <= n,
            board.wf(),
            board@ == b0,
            cell_bits(*holes) == h1,
            h1 == h0.remove(idx as int),
            holes_match(b0, h0),
            checked(rules, b0, 81),
            idx < 81,
            xi == x as int,
            yi == y as int,
            xi == idx as int / 9,
            yi == idx as int % 9,
            0 <= xi < 9,
            0 <= yi < 9,
            idx_of(xi, yi) == idx as int,
            b0[idx as int] is Hole,
            forall|t: int|
                0 <= t < cands@.len() ==> 1 <= #[trigger] cands@[t] <= 9 && digit_bits(
                    poss,
                ).contains(cands@[t] as int),
            forall|d: int|
                1 <= d <= 9 ==> (#[trigger] digit_bits(poss).contains(d) <==> rules.allows(
                    b0,
                    xi,
                    yi,
                    d,
                )),
            forall|s: Seq<MaybeDigit>| #[trigger] is_solution(rules, s, b0) ==> exists|j: int|
                k as int <= j < cands@.len() && digit_at(s, xi, yi) == cands@[j] as int,
        decreases n - k,
    {
        let c = cands[k];
        let dg = Digit::new(c as u8);
        board.set(x, y, MaybeDigit::Definitely(dg));
        let ghost b2 = board@;
        proof {
            assert(rules.allows(b0, xi, yi, dg.value()));
            rules.lemma_allows_place(b0, xi, yi, dg);
            assert(checked(rules, b2, 81));
            assert forall|i: int| #[trigger] cell_bits(*holes).contains(i) <==> 0 <= i < 81
                && b2[i] is Hole by {
                assert(h0.contains(i) <==> 0 <= i < 81 && b0[i] is Hole);
            }
            assert(b2 == b0.update(idx as int, MaybeDigit::Definitely(dg)));
            lemma_count_holes_update(b0, idx as int, MaybeDigit::Definitely(dg));
            assert(count_holes(b2) < count_holes(b0));
        }
        match solve_step(rules, board, holes) {
            Ok(()) => {
                proof {
                    assert(complete(board@));
                    assert(checked(rules, board@, 81));
                    assert(extends(board@, b2));
                    assert forall|i: int| 0 <= i < 81 && b0[i] is Definitely implies board@[i]
                        == b0[i] by {
                        assert(b2[i] == b0[i]);
                        assert(board@[i] == b2[i]);
                    }
                    assert(extends(board@, b0));
                }
                return Ok(());
            },
            Err(()) => {
                proof {
                    assert forall|s: Seq<MaybeDigit>| #[trigger] is_solution(rules, s, b0) implies exists|
                        j: int,
                    |
                        k as int + 1 <= j < cands@.len() && digit_at(s, xi, yi) == cands@[j] as int by {
                        let j = choose|j: int|
                            k as int <= j < cands@.len() && digit_at(s, xi, yi) == cands@[j] as int;
                        if j == k as int {
                            let sd = s[idx as int]->Definitely_0;
                            assert(sd.value() == dg.value());
                            Digit::lemma_value_injective(sd, dg);
                            assert(s[idx as int] == MaybeDigit::Definitely(dg));
                            assert forall|i: int| 0 <= i < 81 && b2[i] is Definitely implies s[i]
                                == b2[i] by {
                                if i != idx as int {
                                    assert(b2[i] == b0[i]);
                                }
                            }
                            assert(is_solution(rules, s, b2));
                            assert(false);
                        }
                    }
                }
                board.set(x, y, MaybeDigit::Hole);
                proof {
                    assert(board@ =~= b0);
                }
                k += 1;
            },
        }
    }

    cell_bits_set(holes, idx, true);
    proof {
        assert(cell_bits(*holes) =~= h0);
        assert forall|s: Seq<MaybeDigit>| !#[trigger] is_solution(rules, s, b0) by {
            if is_solution(rules, s, b0) {
                let j = choose|j: int|
                    k as int <= j < cands@.len() && digit_at(s, xi, yi) == cands@[j] as int;
                assert(false);
            }
        }
    }
    Err(())
}

/// Solves the puzzle by exhaustive backtracking search.
///
/// `Ok` carries a full grid that is accepted by the puzzle's rule and keeps
/// every digit the input already had; `Err` comes exactly when no such grid
/// exists.
#[verifier::loop_isolation(false)]
pub fn solve<R: Constraint>(sudoku: &Sudoku<R>) -> (r: Result<Solution, ()>)
    requires
        sudoku.board.wf(),
    ensures
        r matches Ok(sol) ==> sol.0@.len() == 81 && is_solution(
            &sudoku.restrictions,
            as_maybe(sol.0@),
            sudoku.board@,
        ),
        r is Err ==> forall|s: Seq<MaybeDigit>| !is_solution(&sudoku.restrictions, s, sudoku.board@),
{
    let ghost b = sudoku.board@;
    let rules = &sudoku.restrictions;
    let mut board = sudoku.board.duplicate();

    // Reject an input whose given digits already break the rule; past this
    // scan the board is accepted and the search invariant holds.
    let mut i: usize = 0;
    while i < 81
        invariant
            board.wf(),
            board@ == b,
            b.len() == 81,
            sudoku.board@ == b,
            checked(rules, b, i as int),
        decreases 81 - i,
    {
        let x = i / 9;
        let y = i % 9;
        let ghost xi = x as int;
        let ghost yi = y as int;
        proof {
            vstd::arithmetic::div_mod::lemma_fundamental_div_mod(i as int, 9);
            assert(idx_of(xi, yi) == i as int);
        }
        match board.get(x, y) {
            MaybeDigit::Definitely(dg) => {
                board.set(x, y, MaybeDigit::Hole);
                let ghost bh = board@;
                let all = all_digits();
                let poss = rules.posibilities(x, y, &board, all);
                let ok = digit_bits_get(&poss, dg.to_u8() as usize);
                board.set(x, y, MaybeDigit::Definitely(dg));
                proof {
                    assert(board@ =~= b);
                    assert(cell_at(bh, xi, yi) is Hole);
                    Digit::lemma_value_range(dg);
                    rules.lemma_allows_ignores_target(b, xi, yi, dg.value(), MaybeDigit::Hole);
                    assert(bh == b.update(idx_of(xi, yi), MaybeDigit::Hole));
                }
                if !ok {
                    proof {
                        assert forall|s: Seq<MaybeDigit>| !#[trigger] is_solution(
                            &sudoku.restrictions,
                            s,
                            sudoku.board@,
                        ) by {
                            if is_solution(&sudoku.restrictions, s, sudoku.board@) {
                                assert(is_solution(rules, s, b));
                                assert(b[i as int] == MaybeDigit::Definitely(dg));
                                assert(s[i as int] == b[i as int]);
                                assert(filled(s, xi, yi));
                                assert(digit_at(s, xi, yi) == dg.value());
                                assert(rules.allows(s, xi, yi, dg.value()));
                                rules.lemma_allows_monotone(b, s, xi, yi, dg.value());
                                assert(rules.allows(b, xi, yi, dg.value()));
                                assert(rules.allows(bh, xi, yi, dg.value()));
                                assert(digit_bits(poss).contains(dg.value()));
                                assert(false);
                            }
                        }
                    }
                    return Err(());
                }
                proof {
                    assert(digit_bits(poss).contains(dg.value()));
                    assert(rules.allows(bh, xi, yi, dg.value()));
                    assert(rules.allows(b, xi, yi, dg.value()));
                    assert forall|u: int, v: int|
                        0 <= u < 9 && 0 <= v < 9 && idx_of(u, v) < i as int + 1 && #[trigger] filled(
                        b,
                        u,
                        v,
                    ) implies rules.allows(b, u, v, digit_at(b, u, v)) by {
                        if idx_of(u, v) == i as int {
                            lemma_idx_injective(u, v, xi, yi);
                        }
                    }
                }
            },
            MaybeDigit::Hole => {
                proof {
                    assert forall|u: int, v: int|
                        0 <= u < 9 && 0 <= v < 9 && idx_of(u, v) < i as int + 1 && #[trigger] filled(
                        b,
                        u,
                        v,
                    ) implies rules.allows(b, u, v, digit_at(b, u, v)) by {
                        if idx_of(u, v) == i as int {
                            lemma_idx_injective(u, v, xi, yi);
                            assert(!filled(b, xi, yi));
                        }
                    }
                }
            },
        }
        i += 1;
    }

    // Build the unresolved-cell bitset by scanning all 81 cells.
    let mut holes = cell_bits_empty();
    let mut j: usize = 0;
    while j < 81
        invariant
            j <= 81,
            board.wf(),
            board@ == b,
            forall|t: int| #[trigger] cell_bits(holes).contains(t) <==> 0 <= t < j as int
                && b[t] is Hole,
        decreases 81 - j,
    {
        match board.cell(j) {
            MaybeDigit::Hole => {
                cell_bits_set(&mut holes, j, true);
            },
            MaybeDigit::Definitely(_) => {
            },
        }
        j += 1;
    }

    match solve_step(rules, &mut board, &mut holes) {
        Ok(()) => {
        },
        Err(()) => {
            return Err(());
        },
    }

    let digits = to_digits(&board);
    proof {
        assert forall|t: int| 0 <= t < 81 implies as_maybe(digits@)[t] == board@[t] by {}
        assert(as_maybe(digits@) =~= board@);
    }
    Ok(Solution(digits))
}

/// Converts a completely resolved board into a board of plain digits. An
/// unresolved cell here would be an internal invariant violation, not a
/// run-time condition, so completeness is demanded up front.
fn to_digits(board: &Board<MaybeDigit>) -> (r: Board<Digit>)
    requires
        complete(board@),
    ensures
        r@.len() == 81,
        forall|i: int| 0 <= i < 81 ==> board@[i] == MaybeDigit::Definitely(#[trigger] r@[i]),
{
    let mut out: Vec<Digit> = Vec::new();
    let mut i: usize = 0;
    while i < 81
        invariant
            i <= 81,
            complete(board@),
            out@.len() == i,
            forall|j: int| 0 <= j < i ==> board@[j] == MaybeDigit::Definitely(#[trigger] out@[j]),
        decreases 81 - i,
    {
        match board.cell(i) {
            MaybeDigit::Definitely(d) => {
                out.push(d);
            },
            MaybeDigit::Hole => {
                unreached()
            },
        }
        i += 1;
    }
    Board::from_cells(out)
}


/// Determinism: a puzzle with a unique solution is solved the same way
/// every time. Any two solved grids of such a puzzle agree cell for cell,
/// so repeated successful solves return identical solutions.
pub proof fn lemma_solve_deterministic<R: Constraint>(
    rules: &R,
    input: Seq<MaybeDigit>,
    s1: Seq<Digit>,
    s2: Seq<Digit>,
)
    requires
        forall|a: Seq<MaybeDigit>, b: Seq<MaybeDigit>|
            is_solution(rules, a, input) && is_solution(rules, b, input) ==> a == b,
        is_solution(rules, as_maybe(s1), input),
        is_solution(rules, as_maybe(s2), input),
    ensures
        s1 == s2,
{
    assert(as_maybe(s1) == as_maybe(s2));
    assert forall|i: int| 0 <= i < s1.len() implies s1[i] == s2[i] by {
        assert(as_maybe(s1)[i] == as_maybe(s2)[i]);
    }
    assert(s1.len() == as_maybe(s1).len());
    assert(s2.len() == as_maybe(s2).len());
    assert(s1 =~= s2);
}

} // verus!
