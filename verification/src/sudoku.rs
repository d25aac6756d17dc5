use vstd::prelude::*;
use vstd::string::StrSliceExecFns;

use crate::board::Board;
use crate::board::idx_of;
use crate::digit::as_maybe;
use crate::digit::Digit;
use crate::digit::MaybeDigit;
use crate::normal_sudoku_rules::NormalSudokuRules;

verus! {

/// A puzzle: the initial, partially filled board together with the rule the
/// solution must obey.
pub struct Sudoku<R> {
    pub board: Board<MaybeDigit>,
    pub restrictions: R,
}

// ---------------------------------------------------------------------------
// The text form: 9 lines of 9 blank-separated tokens, a token being a digit
// or a placeholder. Parsing and rendering are specified over the character
// sequence of the text, and proved to round-trip.
// ---------------------------------------------------------------------------

/// A blank character separating the tokens of one line.
pub open spec fn is_blank(c: char) -> bool {
    c == ' ' || c == '\t' || c == '\r'
}

/// The cell value a one-character token stands for.
pub open spec fn char_cell(c: char) -> MaybeDigit {
    if c == '1' {
        MaybeDigit::Definitely(Digit::One)
    } else if c == '2' {
        MaybeDigit::Definitely(Digit::Two)
    } else if c == '3' {
        MaybeDigit::Definitely(Digit::Three)
    } else if c == '4' {
        MaybeDigit::Definitely(Digit::Four)
    } else if c == '5' {
        MaybeDigit::Definitely(Digit::Five)
    } else if c == '6' {
        MaybeDigit::Definitely(Digit::Six)
    } else if c == '7' {
        MaybeDigit::Definitely(Digit::Seven)
    } else if c == '8' {
        MaybeDigit::Definitely(Digit::Eight)
    } else if c == '9' {
        MaybeDigit::Definitely(Digit::Nine)
    } else {
        MaybeDigit::Hole
    }
}

/// The cell value a token stands for: a lone digit character gives that
/// digit, any other token is a placeholder for an unresolved cell.
pub open spec fn token_cell(tok: Seq<char>) -> MaybeDigit {
    if tok.len() == 1 {
        char_cell(tok[0])
    } else {
        MaybeDigit::Hole
    }
}

/// The position just past the token starting at `i`: the first position at
/// or after `i` holding a blank or a newline, or the end of the text.
pub open spec fn token_end(t: Seq<char>, i: int) -> int
    decreases t.len() - i
        when 0 <= i <= t.len()
{
    if i >= t.len() {
        i
    } else if is_blank(t[i]) || t[i] == '\n' {
        i
    } else {
        token_end(t, i + 1)
    }
}

/// The end of a token lies between its start and the end of the text.
pub proof fn lemma_token_end_bounds(t: Seq<char>, i: int)
    requires
        0 <= i <= t.len(),
    ensures
        i <= token_end(t, i) <= t.len(),
    decreases t.len() - i,
{
    if i < t.len() && !(is_blank(t[i]) || t[i] == '\n') {
        lemma_token_end_bounds(t, i + 1);
    }
}

/// One left-to-right pass of the parser, at position `i` of the text,
/// expecting the cell of row `x`, column `y` next, with the cells read so
/// far in `acc`. The text is accepted when it holds exactly 9 lines of
/// exactly 9 tokens each.
pub open spec fn parse_from(
    t: Seq<char>,
    i: int,
    x: int,
    y: int,
    acc: Seq<MaybeDigit>,
) -> Option<Seq<MaybeDigit>>
    decreases t.len() - i
        when 0 <= i <= t.len()
{
    if i >= t.len() {
        if x == 8 && y == 9 {
            Some(acc)
        } else {
            None
        }
    } else if t[i] == '\n' {
        if y == 9 && x < 8 {
            parse_from(t, i + 1, x + 1, 0, acc)
        } else if y == 9 && x == 8 {
            // Trailing newlines after the last row are accepted.
            parse_from(t, i + 1, x, y, acc)
        } else {
            None
        }
    } else if is_blank(t[i]) {
        parse_from(t, i + 1, x, y, acc)
    } else if y == 9 {
        None
    } else {
        proof {
            lemma_token_end_bounds(t, i + 1);
        }
        parse_from(
            t,
            token_end(t, i),
            x,
            y + 1,
            acc.push(token_cell(t.subrange(i, token_end(t, i)))),
        )
    }
}

/// What a text parses to: the 81 cells of a board, or nothing when the text
/// is not 9 lines of 9 tokens.
pub open spec fn parse_spec(t: Seq<char>) -> Option<Seq<MaybeDigit>> {
    parse_from(t, 0, 0, 0, Seq::empty())
}

/// The character a cell is rendered as: its digit, or `_` for a hole.
pub open spec fn cell_char(m: MaybeDigit) -> char {
    match m {
        MaybeDigit::Hole => '_',
        MaybeDigit::Definitely(d) => match d {
            Digit::One => '1',
            Digit::Two => '2',
            Digit::Three => '3',
            Digit::Four => '4',
            Digit::Five => '5',
            Digit::Six => '6',
            Digit::Seven => '7',
            Digit::Eight => '8',
            Digit::Nine => '9',
        },
    }
}

/// The text of the cells of row `x` from column `y` on, space separated.
pub open spec fn render_row(b: Seq<MaybeDigit>, x: int, y: int) -> Seq<char>
    decreases 9 - y
        when 0 <= y <= 8
{
    if y == 8 {
        seq![cell_char(b[idx_of(x, y)])]
    } else {
        seq![cell_char(b[idx_of(x, y)]), ' '] + render_row(b, x, y + 1)
    }
}

/// The text of the rows from row `x` on, one row per line.
pub open spec fn render_rows(b: Seq<MaybeDigit>, x: int) -> Seq<char>
    decreases 9 - x
        when 0 <= x <= 8
{
    if x == 8 {
        render_row(b, x, 0)
    } else {
        render_row(b, x, 0) + seq!['\n'] + render_rows(b, x + 1)
    }
}

/// The text form of a board: 9 lines of 9 space-separated cell characters,
/// with no trailing newline.
pub open spec fn render_spec(b: Seq<MaybeDigit>) -> Seq<char> {
    render_rows(b, 0)
}

/// Relies on std's `String::push`: appends one character to the string.
#[verifier::external_body]
fn push_char(s: &mut String, c: char)
    ensures
        final(s)@ == old(s)@.push(c),
{
    s.push(c);
}

impl Board<MaybeDigit> {
    /// Renders the board in its text form.
    #[verifier::loop_isolation(false)]
    pub fn render(&self) -> (r: String)
        requires
            self.wf(),
        ensures
            r@ == render_spec(self@),
    {
        let ghost b = self@;
        let mut out = String::new();
        let mut x: usize = 0;
        while x < 9
            invariant
                x <= 9,
                x < 9 ==> out@ + render_rows(b, x as int) == render_spec(b),
                x == 9 ==> out@ == render_spec(b),
            decreases 9 - x,
        {
            let mut y: usize = 0;
            while y < 9
                invariant
                    x < 9,
                    y <= 9,
                    y < 9 ==> out@ + render_row(b, x as int, y as int) + row_tail(b, x as int)
                        == render_spec(b),
                    y == 9 ==> out@ + row_tail(b, x as int) == render_spec(b),
                decreases 9 - y,
            {
                let c = cell_to_char(self.get(x, y));
                push_char(&mut out, c);
                proof {
                    if y < 8 {
                        assert(render_row(b, x as int, y as int) =~= seq![
                            cell_char(b[idx_of(x as int, y as int)]),
                            ' ',
                        ] + render_row(b, x as int, y as int + 1));
                    }
                }
                if y < 8 {
                    push_char(&mut out, ' ');
                    proof {
                        assert(out@ + render_row(b, x as int, y as int + 1) + row_tail(b, x as int)
                            =~= render_spec(b));
                    }
                } else {
                    proof {
                        assert(render_row(b, x as int, 8) =~= seq![cell_char(b[idx_of(x as int, 8)])]);
                        assert(out@ + row_tail(b, x as int) =~= render_spec(b));
                    }
                }
                y += 1;
            }
            if x < 8 {
                push_char(&mut out, '\n');
                proof {
                    assert(render_rows(b, x as int) =~= render_row(b, x as int, 0) + seq!['\n']
                        + render_rows(b, x as int + 1));
                    assert(out@ + render_rows(b, x as int + 1) =~= render_spec(b));
                }
            } else {
                proof {
                    assert(render_rows(b, 8) =~= render_row(b, 8, 0));
                    assert(out@ =~= render_spec(b));
                }
            }
            x += 1;
        }
        out
    }
}

impl Board<Digit> {
    /// Renders a solved grid in the text form a puzzle is written in.
    pub fn render(&self) -> (r: String)
        requires
            self.wf(),
        ensures
            r@ == render_spec(as_maybe(self@)),
    {
        let cells = self.cells();
        let mut out: Vec<MaybeDigit> = Vec::new();
        let mut i: usize = 0;
        while i < 81
            invariant
                i <= 81,
                cells@ == self@,
                self@.len() == 81,
                out@.len() == i,
                forall|j: int| 0 <= j < i ==> out@[j] == MaybeDigit::Definitely(#[trigger] self@[j]),
            decreases 81 - i,
        {
            out.push(MaybeDigit::Definitely(cells[i]));
            i += 1;
        }
        let full = Board::from_cells(out);
        proof {
            assert(full@ =~= as_maybe(self@));
        }
        full.render()
    }
}

/// What follows the cells of row `x` in the rendered text: a newline and
/// the remaining rows, or nothing after the last row.
spec fn row_tail(b: Seq<MaybeDigit>, x: int) -> Seq<char> {
    if x < 8 {
        seq!['\n'] + render_rows(b, x + 1)
    } else {
        Seq::empty()
    }
}

/// The character a cell is rendered as.
fn cell_to_char(m: MaybeDigit) -> (c: char)
    ensures
        c == cell_char(m),
{
    match m {
        MaybeDigit::Hole => '_',
        MaybeDigit::Definitely(d) => match d {
            Digit::One => '1',
            Digit::Two => '2',
            Digit::Three => '3',
            Digit::Four => '4',
            Digit::Five => '5',
            Digit::Six => '6',
            Digit::Seven => '7',
            Digit::Eight => '8',
            Digit::Nine => '9',
        },
    }
}

impl Sudoku<NormalSudokuRules> {
    /// Reads a puzzle from its text form under the classic rules. Returns
    /// nothing when the text is not 9 lines of 9 blank-separated tokens.
    #[verifier::loop_isolation(false)]
    pub fn parse(contents: &str) -> (r: Option<Self>)
        ensures
            r matches Some(sud) ==> sud.board.wf() && parse_spec(contents@) == Some(sud.board@),
            r is None ==> parse_spec(contents@) is None,
    {
        let ghost t = contents@;
        let n = contents.unicode_len();
        let mut cells: Vec<MaybeDigit> = Vec::new();
        let mut i: usize = 0;
        let mut x: usize = 0;
        let mut y: usize = 0;
        while i < n
            invariant
                n == t.len(),
                i <= n,
                x <= 8,
                y <= 9,
                cells@.len() == x * 9 + y,
                parse_from(t, i as int, x as int, y as int, cells@) == parse_spec(t),
            decreases n - i,
        {
            let c = contents.get_char(i);
            if c == '\n' {
                if y == 9 {
                    if x < 8 {
                        x += 1;
                        y = 0;
                    }
                    i += 1;
                } else {
                    return None;
                }
            } else if c == ' ' || c == '\t' || c == '\r' {
                i += 1;
            } else if y == 9 {
                return None;
            } else {
                let start = i;
                let mut j = i;
                while j < n
                    invariant
                        n == t.len(),
                        start <= j <= n,
                        token_end(t, start as int) == token_end(t, j as int),
                        forall|k: int| start <= k < j ==> !is_blank(t[k]) && t[k] != '\n',
                    decreases n - j,
                {
                    let cj = contents.get_char(j);
                    if cj == '\n' || cj == ' ' || cj == '\t' || cj == '\r' {
                        break ;
                    }
                    j += 1;
                }
                proof {
                    assert(token_end(t, j as int) == j as int);
                    assert(token_end(t, start as int) == j as int);
                }
                let cell = if j == start + 1 {
                    match c {
                        '1' => MaybeDigit::Definitely(Digit::One),
                        '2' => MaybeDigit::Definitely(Digit::Two),
                        '3' => MaybeDigit::Definitely(Digit::Three),
                        '4' => MaybeDigit::Definitely(Digit::Four),
                        '5' => MaybeDigit::Definitely(Digit::Five),
                        '6' => MaybeDigit::Definitely(Digit::Six),
                        '7' => MaybeDigit::Definitely(Digit::Seven),
                        '8' => MaybeDigit::Definitely(Digit::Eight),
                        '9' => MaybeDigit::Definitely(Digit::Nine),
                        _ => MaybeDigit::Hole,
                    }
                } else {
                    MaybeDigit::Hole
                };
                proof {
                    if j == start + 1 {
                        assert(t.subrange(start as int, j as int) =~= seq![t[start as int]]);
                    }
                    assert(cell == token_cell(t.subrange(start as int, j as int)));
                }
                cells.push(cell);
                y += 1;
                i = j;
            }
        }
        if x == 8 && y == 9 {
            let board = Board::from_cells(cells);
            Some(Sudoku { board, restrictions: NormalSudokuRules })
        } else {
            None
        }
    }
}

// ---------------------------------------------------------------------------
// The round trip: the text form of a board parses back to that board, so
// re-rendering what was parsed reproduces the text exactly.
// ---------------------------------------------------------------------------

/// A rendered cell character is never a separator.
proof fn lemma_cell_char_not_sep(m: MaybeDigit)
    ensures
        !is_blank(cell_char(m)),
        cell_char(m) != '\n',
{
}

/// Parsing a one-character token recovers the cell it was rendered from.
proof fn lemma_char_cell_inverse(m: MaybeDigit)
    ensures
        char_cell(cell_char(m)) == m,
{
}

/// Division of `2 * a + c` by 2, for `c` in 0..2.
proof fn lemma_div2(j: int, a: int, c: int)
    requires
        j == 2 * a + c,
        0 <= c < 2,
    ensures
        j / 2 == a,
        j % 2 == c,
{
    vstd::arithmetic::div_mod::lemma_fundamental_div_mod(j, 2);
}

/// Division of `18 * a + c` by 18, for `c` in 0..18.
proof fn lemma_div18(j: int, a: int, c: int)
    requires
        j == 18 * a + c,
        0 <= c < 18,
    ensures
        j / 18 == a,
        j % 18 == c,
{
    vstd::arithmetic::div_mod::lemma_fundamental_div_mod(j, 18);
}

/// The character at offset `p` of a rendered row suffix that starts at
/// column `y`: cells at even offsets, single spaces at odd ones.
spec fn row_char(b: Seq<MaybeDigit>, x: int, y: int, p: int) -> char {
    if p % 2 == 0 {
        cell_char(b[idx_of(x, y + p / 2)])
    } else {
        ' '
    }
}

/// The layout of a rendered row: 17 characters, cells at even offsets and
/// single spaces between them.
proof fn lemma_row_form(b: Seq<MaybeDigit>, x: int, y: int)
    requires
        b.len() == 81,
        0 <= x < 9,
        0 <= y <= 8,
    ensures
        render_row(b, x, y).len() == 17 - 2 * y,
        forall|p: int|
            0 <= p < 17 - 2 * y ==> #[trigger] render_row(b, x, y)[p] == row_char(b, x, y, p),
    decreases 8 - y,
{
    if y < 8 {
        lemma_row_form(b, x, y + 1);
        let whole = render_row(b, x, y);
        let rest = render_row(b, x, y + 1);
        assert(whole =~= seq![cell_char(b[idx_of(x, y)]), ' '] + rest);
        assert forall|p: int| 0 <= p < 17 - 2 * y implies #[trigger] whole[p] == row_char(
            b,
            x,
            y,
            p,
        ) by {
            if p == 0 {
                lemma_div2(0, 0, 0);
            } else if p == 1 {
                lemma_div2(1, 0, 1);
            } else {
                assert(whole[p] == rest[p - 2]);
                assert(rest[p - 2] == row_char(b, x, y + 1, p - 2));
                lemma_div2(p, (p - 2) / 2 + 1, (p - 2) % 2);
            }
        }
    } else {
        assert forall|p: int| 0 <= p < 1 implies #[trigger] render_row(b, x, 8)[p] == row_char(
            b,
            x,
            8,
            p,
        ) by {
            lemma_div2(0, 0, 0);
        }
    }
}

/// The character at offset `p` of the rendered rows from row `x` on: each
/// line takes 18 characters counting its newline, the last line 17.
spec fn text_char(b: Seq<MaybeDigit>, x: int, p: int) -> char {
    if p % 18 == 17 {
        '\n'
    } else {
        row_char(b, x + p / 18, 0, p % 18)
    }
}

/// The layout of the rendered text from row `x` on.
proof fn lemma_rows_form(b: Seq<MaybeDigit>, x: int)
    requires
        b.len() == 81,
        0 <= x <= 8,
    ensures
        render_rows(b, x).len() == (9 - x) * 18 - 1,
        forall|p: int|
            0 <= p < (9 - x) * 18 - 1 ==> #[trigger] render_rows(b, x)[p] == text_char(b, x, p),
    decreases 8 - x,
{
    lemma_row_form(b, x, 0);
    if x < 8 {
        lemma_rows_form(b, x + 1);
        let whole = render_rows(b, x);
        let head = render_row(b, x, 0);
        let rest = render_rows(b, x + 1);
        assert(whole =~= head + seq!['\n'] + rest);
        assert forall|p: int| 0 <= p < (9 - x) * 18 - 1 implies #[trigger] whole[p] == text_char(
            b,
            x,
            p,
        ) by {
            if p < 17 {
                assert(whole[p] == head[p]);
                assert(head[p] == row_char(b, x, 0, p));
                lemma_div18(p, 0, p);
            } else if p == 17 {
                assert(whole[17] == '\n');
                lemma_div18(17, 0, 17);
            } else {
                assert(whole[p] == rest[p - 18]);
                assert(rest[p - 18] == text_char(b, x + 1, p - 18));
                lemma_div18(p, (p - 18) / 18 + 1, (p - 18) % 18);
            }
        }
    } else {
        assert forall|p: int| 0 <= p < 17 implies #[trigger] render_rows(b, 8)[p] == text_char(
            b,
            8,
            p,
        ) by {
            assert(render_rows(b, 8)[p] == render_row(b, 8, 0)[p]);
            lemma_div18(p, 0, p);
        }
    }
}

/// From the cell of row `x`, column `y` on, the parser reads the rendered
/// text back into exactly the remaining cells of the board.
proof fn lemma_parse_at(b: Seq<MaybeDigit>, t: Seq<char>, x: int, y: int)
    requires
        b.len() == 81,
        t == render_spec(b),
        0 <= x < 9,
        0 <= y < 9,
    ensures
        parse_from(t, x * 18 + 2 * y, x, y, b.take(x * 9 + y)) == Some(b),
    decreases 81 - x * 9 - y,
{
    lemma_rows_form(b, 0);
    let pos = x * 18 + 2 * y;
    let m = b[idx_of(x, y)];
    assert(t[pos] == text_char(b, 0, pos)) by {
        assert(pos < 161);
    }
    assert(t[pos] == cell_char(m)) by {
        lemma_div18(pos, x, 2 * y);
        lemma_div2(2 * y, y, 0);
    }
    lemma_cell_char_not_sep(m);
    // The token is exactly one character long.
    if y < 8 {
        assert(t[pos + 1] == text_char(b, 0, pos + 1));
        assert(t[pos + 1] == ' ') by {
            lemma_div18(pos + 1, x, 2 * y + 1);
            lemma_div2(2 * y + 1, y, 1);
        }
    } else if x < 8 {
        assert(t[pos + 1] == text_char(b, 0, pos + 1));
        assert(t[pos + 1] == '\n') by {
            lemma_div18(pos + 1, x, 17);
        }
    } else {
        assert(pos + 1 == t.len());
    }
    assert(token_end(t, pos + 1) == pos + 1);
    assert(token_end(t, pos) == pos + 1);
    assert(t.subrange(pos, pos + 1) =~= seq![t[pos]]);
    lemma_char_cell_inverse(m);
    assert(token_cell(t.subrange(pos, pos + 1)) == m);
    let acc = b.take(x * 9 + y);
    let acc2 = b.take(x * 9 + y + 1);
    assert(acc.push(m) =~= acc2);
    assert(parse_from(t, pos, x, y, acc) == parse_from(t, pos + 1, x, y + 1, acc2));
    if y < 8 {
        // A blank follows; the parser skips it and stands at the next cell.
        assert(parse_from(t, pos + 1, x, y + 1, acc2) == parse_from(t, pos + 2, x, y + 1, acc2));
        lemma_parse_at(b, t, x, y + 1);
    } else if x < 8 {
        // A newline follows; the parser moves to the next row.
        assert(parse_from(t, pos + 1, x, 9, acc2) == parse_from(t, pos + 2, x + 1, 0, acc2));
        lemma_parse_at(b, t, x + 1, 0);
    } else {
        // The text ends after the last cell.
        assert(acc2 =~= b);
        assert(parse_from(t, pos + 1, 8, 9, acc2) == Some(acc2));
    }
}

/// Round trip: the text form of any full-size board parses back to exactly
/// that board. In particular, parsing the text of a solved grid and
/// re-rendering it reproduces the text character for character.
pub proof fn lemma_parse_render_roundtrip(b: Seq<MaybeDigit>)
    requires
        b.len() == 81,
    ensures
        parse_spec(render_spec(b)) == Some(b),
{
    let t = render_spec(b);
    assert(b.take(0) =~= Seq::<MaybeDigit>::empty());
    lemma_parse_at(b, t, 0, 0);
}

/// Round trip, stated over the text: a text that renders some board parses
/// successfully, and rendering what was parsed gives that text back.
pub proof fn lemma_render_after_parse(t: Seq<char>, b: Seq<MaybeDigit>)
    requires
        b.len() == 81,
        t == render_spec(b),
    ensures
        parse_spec(t) == Some(b),
        render_spec(parse_spec(t)->0) == t,
{
    lemma_parse_render_roundtrip(b);
}

} // verus!
