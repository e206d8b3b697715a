use vstd::prelude::*;
use vstd::string::StringExecFns;
use crate::game::{Board, Dice, HalfMove, Move, Player, Position, PositionEnum};
use crate::misc::text::{append_cell, append_number, cell, decimal};
use crate::rules::layout::{Layout, Spot, Step};
use crate::rules::roll::Roll;

verus! {

/// A position as text: `H` for home, `B` for the bar, a point by its number
/// counted from 1.
pub open spec fn spot_text(spot: Spot) -> Seq<char> {
    match spot {
        Spot::Home => "H"@,
        Spot::Bar => "B"@,
        Spot::Point(i) => decimal(i + 1),
    }
}

/// The first `n` steps as text, each as `from -> to, `.
pub open spec fn steps_text(steps: Seq<Step>, n: int) -> Seq<char>
    decreases n,
{
    if n <= 0 {
        Seq::empty()
    } else {
        steps_text(steps, n - 1) + spot_text(steps[n - 1].from) + " -> "@ + spot_text(steps[n - 1].to)
            + ", "@
    }
}

/// A roll as text: its two values with a stroke between.
pub open spec fn roll_text(r: Roll) -> Seq<char> {
    match r {
        Roll::Double { value, .. } => decimal(value) + "/"@ + decimal(value),
        Roll::Single { first, second, .. } => decimal(first) + "/"@ + decimal(second),
    }
}

/// The points as white counts them: white's checkers positive.
pub open spec fn white_points(s: Layout) -> Seq<int> {
    if s.white_to_move {
        s.points
    } else {
        s.flipped().points
    }
}

/// White's checkers on the bar.
pub open spec fn white_bar(s: Layout) -> int {
    if s.white_to_move {
        s.active_bar
    } else {
        s.passive_bar
    }
}

/// Black's checkers on the bar.
pub open spec fn black_bar(s: Layout) -> int {
    if s.white_to_move {
        s.passive_bar
    } else {
        s.active_bar
    }
}

/// Six points in a row, from `start` on in steps of `dir`, two blanks
/// between.
pub open spec fn row_text(p: Seq<int>, start: int, dir: int) -> Seq<char> {
    cell(p[start]) + "  "@ + cell(p[start + dir]) + "  "@ + cell(p[start + 2 * dir]) + "  "@ + cell(
        p[start + 3 * dir],
    ) + "  "@ + cell(p[start + 4 * dir]) + "  "@ + cell(p[start + 5 * dir])
}

/// The board drawn in five lines as white sees it: the point numbers, the
/// counts of points 12 to 1 round white's bar, a rule, the counts of points
/// 13 to 24 round black's bar, the point numbers.
pub open spec fn board_text(s: Layout) -> Seq<char> {
    let p = white_points(s);
    "12  11  10   9   8   7  | W |   6   5   4   3   2   1 \n"@ + row_text(p, 11, -1) + "  | "@
        + decimal(white_bar(s)) + " |  "@ + row_text(p, 5, -1)
        + "\n=========================================================\n"@ + row_text(p, 12, 1)
        + "  | "@ + decimal(black_bar(s)) + " |   "@ + row_text(p, 18, 1)
        + "\n13  14  15  16  17  18  | B |   19  20  21  22  23  24"@
}

/// Appends `position` as text.
fn append_position(out: &mut String, position: &Position)
    ensures
        final(out)@ == old(out)@ + spot_text(position@),
{
    match position.to_enum() {
        PositionEnum::Home => out.append("H"),
        PositionEnum::Bar => out.append("B"),
        PositionEnum::Board(n) => append_number(out, n + 1),
    }
}

impl Dice {
    /// The two values with a stroke between, as in `3/5`.
    pub fn to_string(&self) -> (text: String)
        ensures
            text@ == roll_text(self@),
    {
        let mut text = String::new();
        match self {
            Dice::Double { value, .. } => {
                append_number(&mut text, *value);
                text.append("/");
                append_number(&mut text, *value);
            },
            Dice::Single { value_1, value_2, .. } => {
                append_number(&mut text, *value_1);
                text.append("/");
                append_number(&mut text, *value_2);
            },
        }
        proof {
            assert(text@ =~= roll_text(self@));
        }
        text
    }
}

impl Move {
    /// The half-moves in order, each as `from -> to, ` with points counted
    /// from 1, `B` for the bar and `H` for home.
    pub fn to_string(&self) -> (text: String)
        ensures
            text@ == steps_text(self@, self@.len() as int),
    {
        let half_moves = self.get_half_moves();
        let mut result = String::new();
        let mut i: usize = 0;
        proof {
            assert(half_moves@.map_values(|hm: HalfMove| hm@).len() == self@.len());
        }
        while i < half_moves.len()
            invariant
                i <= half_moves@.len(),
                half_moves@.map_values(|hm: HalfMove| hm@) == self@,
                result@ == steps_text(self@, i as int),
            decreases half_moves@.len() - i,
        {
            let ghost before = result@;
            proof {
                assert(half_moves@.map_values(|hm: HalfMove| hm@)[i as int] == half_moves@[i as int]@);
            }
            append_position(&mut result, &half_moves[i].from);
            result.append(" -> ");
            append_position(&mut result, &half_moves[i].to);
            result.append(", ");
            i = i + 1;
            proof {
                assert(result@ =~= steps_text(self@, i as int));
            }
        }
        result
    }
}

/// Appends six points in a row, from `start` on in steps of `dir`.
fn append_row(out: &mut String, board: &Board, start: u8, up: bool)
    requires
        up ==> start <= 18,
        !up ==> 5 <= start < 24,
    ensures
        final(out)@ == old(out)@ + row_text(white_points(board@), start as int, if up {
            1int
        } else {
            -1int
        }),
{
    let ghost before = out@;
    let ghost p = white_points(board@);
    let ghost dir = if up {
        1int
    } else {
        -1int
    };
    let mut k: u8 = 0;
    let mut index = start;
    while k < 6
        invariant
            k <= 6,
            up ==> start <= 18,
            !up ==> 5 <= start < 24,
            dir == (if up {
                1int
            } else {
                -1int
            }),
            k < 6 ==> index as int == start + k * dir,
            p == white_points(board@),
            k == 0 ==> out@ == before,
            k == 1 ==> out@ == before + cell(p[start as int]),
            k == 2 ==> out@ == before + cell(p[start as int]) + "  "@ + cell(p[start + dir]),
            k == 3 ==> out@ == before + cell(p[start as int]) + "  "@ + cell(p[start + dir]) + "  "@
                + cell(p[start + 2 * dir]),
            k == 4 ==> out@ == before + cell(p[start as int]) + "  "@ + cell(p[start + dir]) + "  "@
                + cell(p[start + 2 * dir]) + "  "@ + cell(p[start + 3 * dir]),
            k == 5 ==> out@ == before + cell(p[start as int]) + "  "@ + cell(p[start + dir]) + "  "@
                + cell(p[start + 2 * dir]) + "  "@ + cell(p[start + 3 * dir]) + "  "@ + cell(
                p[start + 4 * dir],
            ),
            k == 6 ==> out@ == before + cell(p[start as int]) + "  "@ + cell(p[start + dir]) + "  "@
                + cell(p[start + 2 * dir]) + "  "@ + cell(p[start + 3 * dir]) + "  "@ + cell(
                p[start + 4 * dir],
            ) + "  "@ + cell(p[start + 5 * dir]),
        decreases 6 - k,
    {
        if k > 0 {
            out.append("  ");
        }
        let v = board.checkers_on_position(index);
        proof {
            assert(v as int == p[index as int]);
        }
        append_cell(out, v);
        k = k + 1;
        if k < 6 {
            if up {
                index = index + 1;
            } else {
                index = index - 1;
            }
        }
    }
    proof {
        assert(out@ =~= before + row_text(p, start as int, dir));
    }
}

impl Board {
    /// The board drawn in five lines as white sees it.
    pub fn to_fancy_string(&self) -> (text: String)
        ensures
            text@ == board_text(self@),
    {
        let mut text = String::new();
        text.append("12  11  10   9   8   7  | W |   6   5   4   3   2   1 \n");
        append_row(&mut text, self, 11, false);
        text.append("  | ");
        append_number(&mut text, self.bar(Player::White));
        text.append(" |  ");
        append_row(&mut text, self, 5, false);
        text.append("\n=========================================================\n");
        append_row(&mut text, self, 12, true);
        text.append("  | ");
        append_number(&mut text, self.bar(Player::Black));
        text.append(" |   ");
        append_row(&mut text, self, 18, true);
        text.append("\n13  14  15  16  17  18  | B |   19  20  21  22  23  24");
        proof {
            assert(text@ =~= board_text(self@));
        }
        text
    }
}

} // verus!
