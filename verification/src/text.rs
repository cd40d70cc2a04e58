//! Reading a puzzle from text: nine lines of nine characters.

use vstd::prelude::*;
use vstd::string::StrSliceExecFns;
use crate::error::SudokuError;
use crate::grid::{Grid, GridView};

verus! {

/// The digit that a character stands for: `'1'` to `'9'` stand for 1 to 9,
/// any other character for an unknown cell.
pub open spec fn digit_of(c: char) -> int {
    if '1' <= c <= '9' {
        c as int - '0' as int
    } else {
        0
    }
}

/// Whether the first nine lines are there and each has nine characters.
pub open spec fn is_readable(lines: Seq<Seq<char>>) -> bool {
    lines.len() >= 9 && forall|r: int| 0 <= r < 9 ==> (#[trigger] lines[r]).len() >= 9
}

/// The grid that the first nine characters of the first nine lines stand for.
pub open spec fn read_spec(lines: Seq<Seq<char>>) -> GridView {
    Seq::new(9, |r: int| Seq::new(9, |c: int| digit_of(lines[r][c])))
}

/// The lines of text as sequences of characters.
pub open spec fn lines_view(lines: Seq<String>) -> Seq<Seq<char>> {
    Seq::new(lines.len(), |i: int| lines[i]@)
}

/// The digit that a character stands for.
pub fn parse_digit(c: char) -> (d: u8)
    ensures
        d == digit_of(c),
        d <= 9,
{
    if c == '1' {
        1
    } else if c == '2' {
        2
    } else if c == '3' {
        3
    } else if c == '4' {
        4
    } else if c == '5' {
        5
    } else if c == '6' {
        6
    } else if c == '7' {
        7
    } else if c == '8' {
        8
    } else if c == '9' {
        9
    } else {
        0
    }
}

/// Reads one row from the first nine characters of a line. A line of fewer
/// than nine characters is malformed.
pub fn parse_line(line: &str) -> (res: Result<[u8; 9], SudokuError>)
    ensures
        match res {
            Ok(row) => line@.len() >= 9 && forall|c: int|
                0 <= c < 9 ==> #[trigger] row[c] == digit_of(line@[c]),
            Err(e) => line@.len() < 9 && e == SudokuError::MalformedInput,
        },
{
    if line.unicode_len() < 9 {
        return Err(SudokuError::MalformedInput);
    }
    let mut row = [0u8;9];
    let mut j: usize = 0;
    while j < 9
        invariant
            j <= 9,
            line@.len() >= 9,
            forall|c: int| 0 <= c < j ==> #[trigger] row[c] == digit_of(line@[c]),
        decreases 9 - j,
    {
        row[j] = parse_digit(line.get_char(j));
        j += 1;
    }
    Ok(row)
}

/// Reads a grid from the first nine lines. Fewer than nine lines, or a line
/// of fewer than nine characters among them, is malformed.
pub fn parse_grid(lines: &Vec<String>) -> (res: Result<Grid, SudokuError>)
    ensures
        match res {
            Ok(grid) => is_readable(lines_view(lines@)) && grid@ == read_spec(lines_view(lines@))
                && grid.wf(),
            Err(e) => !is_readable(lines_view(lines@)) && e == SudokuError::MalformedInput,
        },
{
    if lines.len() < 9 {
        return Err(SudokuError::MalformedInput);
    }
    let mut cells = [[0u8;9];9];
    let mut i: usize = 0;
    while i < 9
        invariant
            i <= 9,
            lines.len() >= 9,
            forall|r: int| 0 <= r < i ==> (#[trigger] lines_view(lines@)[r]).len() >= 9,
            forall|r: int, c: int|
                0 <= r < i && 0 <= c < 9 ==> #[trigger] cells[r][c] == digit_of(
                    lines_view(lines@)[r][c],
                ),
            forall|r: int, c: int| 0 <= r < 9 && 0 <= c < 9 ==> #[trigger] cells[r][c] <= 9,
        decreases 9 - i,
    {
        match parse_line(lines[i].as_str()) {
            Ok(row) => {
                assert(lines_view(lines@)[i as int] == lines@[i as int]@);
                cells[i] = row;
            },
            Err(e) => {
                assert(lines_view(lines@)[i as int] == lines@[i as int]@);
                return Err(e);
            },
        }
        i += 1;
    }
    let grid = Grid { cells };
    proof {
        assert(grid@ =~~= read_spec(lines_view(lines@)));
    }
    Ok(grid)
}

} // verus!
