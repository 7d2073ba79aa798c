use vstd::prelude::*;
use vstd::string::StringExecFns;

use crate::text::{decimal, push_decimal};

verus! {

/// A single square in a crossword grid: black, or white with the letter
/// that fills it, if any.
#[derive(Debug, Clone, Copy, PartialEq, Eq, Structural)]
pub enum Cell {
    Black,
    White(Option<char>),
}

/// Why a block of rows could not become a grid.
#[derive(Debug, Clone, Copy, PartialEq, Eq, Structural)]
pub enum GridError {
    Empty,
    RaggedRows { row: usize, expected: usize, found: usize },
}

impl GridError {
    /// What went wrong, in words.
    pub fn message(&self) -> (m: String)
        ensures
            m@ == match *self {
                GridError::Empty => "grid has no rows"@,
                GridError::RaggedRows { row, expected, found } => "row "@ + decimal(row as nat)
                    + " has "@ + decimal(found as nat) + " cells, expected "@ + decimal(
                    expected as nat,
                ),
            },
    {
        match self {
            GridError::Empty => "grid has no rows".to_owned(),
            GridError::RaggedRows { row, expected, found } => {
                let mut m = "row ".to_owned();
                push_decimal(&mut m, *row);
                m.append(" has ");
                push_decimal(&mut m, *found);
                m.append(" cells, expected ");
                push_decimal(&mut m, *expected);
                m
            },
        }
    }
}

/// The cell at (`row`, `col`) of a row-major sequence of cells `width` wide.
pub open spec fn cell_at(cells: Seq<Cell>, width: nat, row: int, col: int) -> Cell {
    cells[row * width + col]
}

/// The mathematical model of a grid: its dimensions and its cells in
/// row-major order.
pub struct GridView {
    pub width: nat,
    pub height: nat,
    pub cells: Seq<Cell>,
}

impl GridView {
    /// The cells fill the rectangle, and every size fits in a `usize`.
    pub open spec fn wf(self) -> bool {
        &&& self.cells.len() == self.width * self.height
        &&& self.width <= usize::MAX
        &&& self.height <= usize::MAX
        &&& self.cells.len() <= usize::MAX
    }

    pub open spec fn in_bounds(self, row: int, col: int) -> bool {
        0 <= row < self.height && 0 <= col < self.width
    }

    pub open spec fn cell(self, row: int, col: int) -> Cell {
        cell_at(self.cells, self.width, row, col)
    }

    /// Out-of-range positions are not black.
    pub open spec fn is_black(self, row: int, col: int) -> bool {
        self.in_bounds(row, col) && self.cell(row, col) is Black
    }

    pub open spec fn is_white(self, row: int, col: int) -> bool {
        self.in_bounds(row, col) && self.cell(row, col) is White
    }

    /// Every side of (`row`, `col`) is the grid's edge or a black square, so
    /// the cell could never be part of an across or down word.
    pub open spec fn is_boxed_in(self, row: int, col: int) -> bool {
        &&& (col == 0 || self.is_black(row, col - 1))
        &&& (col + 1 == self.width || self.is_black(row, col + 1))
        &&& (row == 0 || self.is_black(row - 1, col))
        &&& (row + 1 == self.height || self.is_black(row + 1, col))
    }

    pub open spec fn black_count(self) -> nat {
        count_black(self.cells)
    }

    /// The cell at (`row`, `col`) and the cell it turns into under a
    /// 180-degree rotation are both black or both not black.
    pub open spec fn agrees_with_mirror(self, row: int, col: int) -> bool {
        self.is_black(row, col) == self.is_black(self.height - 1 - row, self.width - 1 - col)
    }

    /// The grid reads the same when rotated 180 degrees around its center.
    pub open spec fn has_180_symmetry(self) -> bool {
        forall|row: int, col: int|
            self.in_bounds(row, col) ==> #[trigger] self.agrees_with_mirror(row, col)
    }
}

/// The number of black cells in `cells`.
pub open spec fn count_black(cells: Seq<Cell>) -> nat
    decreases cells.len(),
{
    if cells.len() == 0 {
        0
    } else {
        count_black(cells.drop_last()) + if cells.last() is Black {
            1nat
        } else {
            0nat
        }
    }
}

/// The number of white cells in `cells` that hold a letter.
pub open spec fn count_filled(cells: Seq<Cell>) -> nat
    decreases cells.len(),
{
    if cells.len() == 0 {
        0
    } else {
        count_filled(cells.drop_last()) + if cells.last() matches Cell::White(Some(_)) {
            1nat
        } else {
            0nat
        }
    }
}

/// What building a grid from `rows` gives: the grid whose row `i` is
/// `rows[i]`, or the error that the first offending row calls for.
pub open spec fn rows_result(rows: Seq<Seq<Cell>>, res: Result<GridView, GridError>) -> bool {
    match res {
        Ok(g) => {
            &&& rows.len() > 0
            &&& g.wf()
            &&& g.height == rows.len()
            &&& g.width == rows[0].len()
            &&& forall|i: int| 0 <= i < rows.len() ==> #[trigger] rows[i].len() == g.width
            &&& forall|r: int, c: int| g.in_bounds(r, c) ==> #[trigger] g.cell(r, c) == rows[r][c]
        },
        Err(GridError::Empty) => rows.len() == 0,
        Err(GridError::RaggedRows { row, expected, found }) => {
            &&& rows.len() > 0
            &&& expected == rows[0].len()
            &&& row < rows.len()
            &&& found == rows[row as int].len()
            &&& found != expected
            &&& forall|i: int| 0 <= i < row ==> #[trigger] rows[i].len() == expected
        },
    }
}

/// The cell that a character of the text format stands for.
pub open spec fn cell_of_char(c: char) -> Cell {
    if c == '#' {
        Cell::Black
    } else if ('A' <= c && c <= 'Z') || ('a' <= c && c <= 'z') {
        Cell::White(Some(c))
    } else {
        Cell::White(None)
    }
}

/// The index of the first newline in `text` at or after `start`, or the
/// text's length if there is none.
pub open spec fn newline_from(text: Seq<char>, start: int) -> int
    decreases text.len() - start,
{
    if start >= text.len() {
        text.len() as int
    } else if text[start] == '\n' {
        start
    } else {
        newline_from(text, start + 1)
    }
}

pub proof fn lemma_newline_from(text: Seq<char>, start: int)
    requires
        0 <= start,
    ensures
        start <= newline_from(text, start) <= text.len() || start > text.len(),
        newline_from(text, start) < text.len() ==> text[newline_from(text, start)] == '\n',
        forall|k: int| start <= k < newline_from(text, start) ==> text[k] != '\n',
    decreases text.len() - start,
{
    if start < text.len() && text[start] != '\n' {
        lemma_newline_from(text, start + 1);
    }
}

/// The line that starts at `start`: up to the next newline, without the
/// carriage return of a `\r\n` ending.
pub open spec fn line_at(text: Seq<char>, start: int) -> Seq<char> {
    let end = newline_from(text, start);
    if end < text.len() && end > start && text[end - 1] == '\r' {
        text.subrange(start, end - 1)
    } else {
        text.subrange(start, end)
    }
}

/// The rows of cells that the non-blank lines of `text` from `start` on
/// stand for.
pub open spec fn rows_from(text: Seq<char>, start: int) -> Seq<Seq<Cell>>
    decreases text.len() - start,
{
    if start < 0 || start >= text.len() {
        seq![]
    } else {
        let end = newline_from(text, start);
        let line = line_at(text, start);
        proof {
            lemma_newline_from(text, start);
        }
        let rest = if end < text.len() {
            rows_from(text, end + 1)
        } else {
            seq![]
        };
        if line.len() == 0 {
            rest
        } else {
            seq![line.map_values(|c: char| cell_of_char(c))] + rest
        }
    }
}

/// The rows that a grid text describes, blank lines left out.
pub open spec fn text_rows(text: Seq<char>) -> Seq<Seq<Cell>> {
    rows_from(text, 0)
}

pub open spec fn view_result(res: Result<Grid, GridError>) -> Result<GridView, GridError> {
    match res {
        Ok(g) => Ok(g@),
        Err(e) => Err(e),
    }
}

pub open spec fn rows_view(rows: Seq<Vec<Cell>>) -> Seq<Seq<Cell>> {
    rows.map_values(|v: Vec<Cell>| v@)
}

pub proof fn lemma_index_in_range(width: nat, height: nat, row: int, col: int)
    requires
        0 <= row < height,
        0 <= col < width,
    ensures
        0 <= row * width + col < width * height,
        row * width + col <= (height - 1) * width + col,
{
    assert(0 <= row * width + col < width * height) by (nonlinear_arith)
        requires
            0 <= row < height,
            0 <= col < width,
    ;
    assert(row * width <= (height - 1) * width) by (nonlinear_arith)
        requires
            0 <= row < height,
    ;
}

/// Row-major order of positions is the order of their flat indices.
pub proof fn lemma_row_major_lt(width: nat, r1: int, c1: int, r2: int, c2: int)
    requires
        0 <= c1 < width,
        0 <= c2,
        r1 < r2,
    ensures
        r1 * width + c1 < r2 * width + c2,
{
    assert(r1 * width + c1 < r2 * width + c2) by (nonlinear_arith)
        requires
            0 <= c1 < width,
            0 <= c2,
            r1 < r2,
    ;
}

/// Facts that hold at every cell of a well-formed grid hold at every entry
/// of its cell sequence.
pub proof fn lemma_cells_by_position(g: GridView, i: int)
    requires
        g.wf(),
        0 <= i < g.cells.len(),
    ensures
        g.in_bounds(i / (g.width as int), i % (g.width as int)),
        g.cell(i / (g.width as int), i % (g.width as int)) == g.cells[i],
{
    let w = g.width as int;
    assert(g.width > 0) by (nonlinear_arith)
        requires
            g.cells.len() == g.width * g.height,
            i < g.cells.len(),
            0 <= i,
    ;
    vstd::arithmetic::div_mod::lemma_fundamental_div_mod(i, w);
    vstd::arithmetic::div_mod::lemma_mod_bound(i, w);
    vstd::arithmetic::div_mod::lemma_div_pos_is_pos(i, w);
    assert(i / w < g.height) by (nonlinear_arith)
        requires
            i == w * (i / w) + i % w,
            0 <= i % w,
            i < w * g.height,
            w > 0,
    ;
    assert(i == (i / w) * w + i % w) by (nonlinear_arith)
        requires
            i == w * (i / w) + i % w,
    ;
}

/// The non-blank lines of `text` from `start` on, as `str::lines` splits
/// them (at `\n`, dropping the `\r` of a `\r\n` ending).
pub open spec fn nonblank_lines_from(text: Seq<char>, start: int) -> Seq<Seq<char>>
    decreases text.len() - start,
{
    if start < 0 || start >= text.len() {
        seq![]
    } else {
        let end = newline_from(text, start);
        let line = line_at(text, start);
        proof {
            lemma_newline_from(text, start);
        }
        let rest = if end < text.len() {
            nonblank_lines_from(text, end + 1)
        } else {
            seq![]
        };
        if line.len() == 0 {
            rest
        } else {
            seq![line] + rest
        }
    }
}

pub open spec fn nonblank_lines(text: Seq<char>) -> Seq<Seq<char>> {
    nonblank_lines_from(text, 0)
}

/// The rows a text describes are its non-blank lines, each character read
/// as a cell.
pub proof fn lemma_rows_are_lines(text: Seq<char>, start: int)
    ensures
        rows_from(text, start) == nonblank_lines_from(text, start).map_values(
            |l: Seq<char>| l.map_values(|c: char| cell_of_char(c)),
        ),
    decreases text.len() - start,
{
    if 0 <= start < text.len() {
        lemma_newline_from(text, start);
        let end = newline_from(text, start);
        if end < text.len() {
            lemma_rows_are_lines(text, end + 1);
        }
    }
    assert(rows_from(text, start) =~= nonblank_lines_from(text, start).map_values(
        |l: Seq<char>| l.map_values(|c: char| cell_of_char(c)),
    ));
}

/// Parsing reads nothing but the non-blank lines: texts with the same
/// non-blank lines describe the same rows, and a text of blank lines only
/// describes none (so it parses to `GridError::Empty`).
pub proof fn lemma_parse_reads_nonblank_lines(t1: Seq<char>, t2: Seq<char>)
    requires
        nonblank_lines(t1) == nonblank_lines(t2),
    ensures
        text_rows(t1) == text_rows(t2),
        nonblank_lines(t1).len() == 0 ==> text_rows(t1).len() == 0,
{
    lemma_rows_are_lines(t1, 0);
    lemma_rows_are_lines(t2, 0);
}

/// Building a grid from rows has one answer.
pub proof fn lemma_rows_result_unique(
    rows: Seq<Seq<Cell>>,
    r1: Result<GridView, GridError>,
    r2: Result<GridView, GridError>,
)
    requires
        rows_result(rows, r1),
        rows_result(rows, r2),
    ensures
        r1 == r2,
{
    match (r1, r2) {
        (Ok(g1), Ok(g2)) => {
            assert forall|i: int| 0 <= i < g1.cells.len() implies #[trigger] g1.cells[i]
                == g2.cells[i] by {
                lemma_cells_by_position(g1, i);
                lemma_cells_by_position(g2, i);
                let w = g1.width as int;
                assert(g1.cell(i / w, i % w) == rows[i / w][i % w]);
                assert(g2.cell(i / w, i % w) == rows[i / w][i % w]);
            }
            assert(g1.cells =~= g2.cells);
        },
        (Ok(g1), Err(GridError::RaggedRows { row, .. })) => {
            assert(rows[row as int].len() == g1.width);
        },
        (Err(GridError::RaggedRows { row, .. }), Ok(g2)) => {
            assert(rows[row as int].len() == g2.width);
        },
        (
            Err(GridError::RaggedRows { row: a, .. }),
            Err(GridError::RaggedRows { row: b, .. }),
        ) => {
            if a < b {
                assert(rows[a as int].len() == rows[0].len());
            } else if b < a {
                assert(rows[b as int].len() == rows[0].len());
            }
        },
        _ => {},
    }
}

/// The character that stands for a cell in the text format.
pub open spec fn char_of_cell(cell: Cell) -> char {
    match cell {
        Cell::Black => '#',
        Cell::White(Some(c)) => c,
        Cell::White(None) => '.',
    }
}

pub open spec fn is_ascii_letter(c: char) -> bool {
    ('A' <= c && c <= 'Z') || ('a' <= c && c <= 'z')
}

/// Every letter in the grid is an ASCII letter.
pub open spec fn letters_are_ascii(g: GridView) -> bool {
    forall|row: int, col: int|
        g.in_bounds(row, col) ==> (#[trigger] g.cell(row, col) matches Cell::White(Some(c))
            ==> is_ascii_letter(c))
}

/// Row `row` of `g` written out: `#` for black, the letter, `.` for empty.
pub open spec fn render_line(g: GridView, row: int) -> Seq<char> {
    Seq::new(g.width, |col: int| char_of_cell(g.cell(row, col)))
}

/// The rows of `g` from `row` on, written out and joined by newlines.
pub open spec fn render_from(g: GridView, row: int) -> Seq<char>
    decreases g.height - row,
{
    if row < 0 || row >= g.height {
        seq![]
    } else if row + 1 == g.height {
        render_line(g, row)
    } else {
        render_line(g, row) + seq!['\n'] + render_from(g, row + 1)
    }
}

/// The grid written in the text format, one line per row.
pub open spec fn render(g: GridView) -> Seq<char> {
    render_from(g, 0)
}

pub open spec fn row_cells(g: GridView, row: int) -> Seq<Cell> {
    Seq::new(g.width, |col: int| g.cell(row, col))
}

proof fn lemma_newline_from_shift(a: Seq<char>, b: Seq<char>, i: int)
    requires
        0 <= i,
    ensures
        newline_from(a + b, a.len() + i) == a.len() + newline_from(b, i),
    decreases b.len() - i,
{
    if i < b.len() {
        assert((a + b)[a.len() + i] == b[i]);
        if b[i] != '\n' {
            lemma_newline_from_shift(a, b, i + 1);
        }
    }
}

/// Rows read from the end of a text do not depend on what comes before.
proof fn lemma_rows_from_shift(a: Seq<char>, b: Seq<char>, i: int)
    requires
        0 <= i,
    ensures
        rows_from(a + b, a.len() + i) == rows_from(b, i),
    decreases b.len() - i,
{
    if i < b.len() {
        let t = a + b;
        let s = a.len() + i;
        lemma_newline_from_shift(a, b, i);
        lemma_newline_from(b, i);
        let end = newline_from(b, i);
        if end > i {
            assert(t[a.len() + end - 1] == b[end - 1]);
        }
        assert(line_at(t, s) =~= line_at(b, i));
        if end < b.len() {
            lemma_rows_from_shift(a, b, end + 1);
        }
    }
}

proof fn lemma_lines_from_shift(a: Seq<char>, b: Seq<char>, i: int)
    requires
        0 <= i,
    ensures
        nonblank_lines_from(a + b, a.len() + i) == nonblank_lines_from(b, i),
    decreases b.len() - i,
{
    if i < b.len() {
        let t = a + b;
        let s = a.len() + i;
        lemma_newline_from_shift(a, b, i);
        lemma_newline_from(b, i);
        let end = newline_from(b, i);
        if end > i {
            assert(t[a.len() + end - 1] == b[end - 1]);
        }
        assert(line_at(t, s) =~= line_at(b, i));
        if end < b.len() {
            lemma_lines_from_shift(a, b, end + 1);
        }
    }
}

/// The line that a newline-terminated piece stands for: without its `\n`,
/// and without the `\r` of a `\r\n` ending.
pub open spec fn piece_line(piece: Seq<char>) -> Seq<char> {
    let body = piece.drop_last();
    if body.len() > 0 && body.last() == '\r' {
        body.drop_last()
    } else {
        body
    }
}

proof fn lemma_lines_after_piece(piece: Seq<char>, rest: Seq<char>)
    requires
        piece.len() >= 1,
        piece.last() == '\n',
        forall|k: int| 0 <= k < piece.len() - 1 ==> #[trigger] piece[k] != '\n',
    ensures
        nonblank_lines(piece + rest) == if piece_line(piece).len() > 0 {
            seq![piece_line(piece)] + nonblank_lines(rest)
        } else {
            nonblank_lines(rest)
        },
{
    let t = piece + rest;
    let e = piece.len() - 1;
    assert forall|k: int| 0 <= k < e implies t[k] != '\n' by {
        assert(t[k] == piece[k]);
    }
    assert(t[e] == '\n');
    lemma_newline_is_first(t, 0, e);
    if e > 0 {
        assert(t[e - 1] == piece[e - 1]);
    }
    assert(line_at(t, 0) =~= piece_line(piece));
    lemma_lines_from_shift(piece, rest, 0);
}

/// How text splits into non-blank lines, the way `str::lines` does with
/// blank lines dropped: no text has none; a line ended by `\n` or by
/// `\r\n` comes first, without its ending, and the rest follows; a blank
/// line (`\n` or `\r\n` alone) is skipped; a last line without an ending is
/// kept whole; and every line is non-empty and holds no `\n`.
pub proof fn lemma_line_splitting(line: Seq<char>, rest: Seq<char>)
    requires
        forall|k: int| 0 <= k < line.len() ==> #[trigger] line[k] != '\n',
    ensures
        nonblank_lines(Seq::<char>::empty()) == Seq::<Seq<char>>::empty(),
        line.len() > 0 && line.last() != '\r' ==> nonblank_lines(line + seq!['\n'] + rest) == seq![
            line,
        ] + nonblank_lines(rest),
        line.len() > 0 ==> nonblank_lines(line + seq!['\r', '\n'] + rest) == seq![line]
            + nonblank_lines(rest),
        nonblank_lines(seq!['\n'] + rest) == nonblank_lines(rest),
        nonblank_lines(seq!['\r', '\n'] + rest) == nonblank_lines(rest),
        line.len() > 0 ==> nonblank_lines(line) == seq![line],
        forall|i: int|
            0 <= i < nonblank_lines(rest).len() ==> (#[trigger] nonblank_lines(rest)[i]).len() > 0
                && forall|k: int|
                0 <= k < nonblank_lines(rest)[i].len() ==> nonblank_lines(rest)[i][k] != '\n',
{
    if line.len() > 0 && line.last() != '\r' {
        let piece = line + seq!['\n'];
        assert(piece_line(piece) =~= line);
        assert(line + seq!['\n'] + rest == piece + rest);
        lemma_lines_after_piece(piece, rest);
    }
    if line.len() > 0 {
        let piece = line + seq!['\r', '\n'];
        assert(piece.drop_last() =~= line.push('\r'));
        assert(piece_line(piece) =~= line);
        assert(line + seq!['\r', '\n'] + rest == piece + rest);
        lemma_lines_after_piece(piece, rest);
        lemma_newline_is_first(line, 0, line.len() as int);
        assert(line_at(line, 0) =~= line);
    }
    let p1 = seq!['\n'];
    assert(piece_line(p1) =~= Seq::<char>::empty());
    lemma_lines_after_piece(p1, rest);
    let p2 = seq!['\r', '\n'];
    assert(p2.drop_last() =~= seq!['\r']);
    assert(piece_line(p2) =~= Seq::<char>::empty());
    lemma_lines_after_piece(p2, rest);
    lemma_lines_shape(rest, 0);
}

proof fn lemma_lines_shape(text: Seq<char>, start: int)
    ensures
        forall|i: int|
            0 <= i < nonblank_lines_from(text, start).len() ==> (#[trigger] nonblank_lines_from(
                text,
                start,
            )[i]).len() > 0 && forall|k: int|
                0 <= k < nonblank_lines_from(text, start)[i].len() ==> nonblank_lines_from(
                    text,
                    start,
                )[i][k] != '\n',
    decreases text.len() - start,
{
    if 0 <= start < text.len() {
        lemma_newline_from(text, start);
        let end = newline_from(text, start);
        let line = line_at(text, start);
        assert forall|k: int| 0 <= k < line.len() implies line[k] != '\n' by {
            assert(line[k] == text[start + k]);
        }
        if end < text.len() {
            lemma_lines_shape(text, end + 1);
        }
        let ls = nonblank_lines_from(text, start);
        let rest = if end < text.len() {
            nonblank_lines_from(text, end + 1)
        } else {
            Seq::<Seq<char>>::empty()
        };
        assert forall|i: int| 0 <= i < ls.len() implies (#[trigger] ls[i]).len() > 0 && forall|k: int|
            0 <= k < ls[i].len() ==> ls[i][k] != '\n' by {
            if line.len() > 0 {
                if i == 0 {
                    assert(ls[i] == line);
                } else {
                    assert(ls[i] == rest[i - 1]);
                }
            } else {
                assert(ls[i] == rest[i]);
            }
        }
    }
}

/// A text made of a line (no newline in it, not ending in a carriage
/// return) and, after a newline, the rest, gives that line's row followed by
/// the rows of the rest.
proof fn lemma_rows_of_line(line: Seq<char>, rest: Seq<char>, last: bool)
    requires
        line.len() >= 1,
        forall|k: int| 0 <= k < line.len() ==> #[trigger] line[k] != '\n',
        line.last() != '\r',
    ensures
        rows_from(
            if last {
                line
            } else {
                line + seq!['\n'] + rest
            },
            0,
        ) == seq![line.map_values(|c: char| cell_of_char(c))] + if last {
            Seq::<Seq<Cell>>::empty()
        } else {
            rows_from(rest, 0)
        },
{
    let a = line + seq!['\n'];
    let text = if last {
        line
    } else {
        a + rest
    };
    assert(forall|k: int| 0 <= k < line.len() ==> text[k] == line[k]);
    if !last {
        assert(text[line.len() as int] == '\n');
    }
    lemma_newline_is_first(text, 0, line.len() as int);
    assert(line_at(text, 0) =~= line);
    if !last {
        lemma_rows_from_shift(a, rest, 0);
        assert(line + seq!['\n'] + rest == a + rest);
    } else {
        assert(rows_from(text, 0) =~= seq![line.map_values(|c: char| cell_of_char(c))]);
    }
}

proof fn lemma_render_rows(g: GridView, row: int)
    requires
        g.wf(),
        g.width >= 1,
        letters_are_ascii(g),
        0 <= row <= g.height,
    ensures
        rows_from(render_from(g, row), 0) == Seq::new(
            (g.height - row) as nat,
            |i: int| row_cells(g, row + i),
        ),
    decreases g.height - row,
{
    if row < g.height {
        let line = render_line(g, row);
        assert forall|k: int| 0 <= k < line.len() implies #[trigger] line[k] != '\n' by {
            assert(g.in_bounds(row, k));
            let c = g.cell(row, k);
            if let Cell::White(Some(ch)) = c {
                assert(is_ascii_letter(ch));
            }
        }
        let lastcell = g.cell(row, g.width - 1);
        assert(g.in_bounds(row, g.width - 1));
        if let Cell::White(Some(ch)) = lastcell {
            assert(is_ascii_letter(ch));
        }
        assert(line.map_values(|c: char| cell_of_char(c)) =~= row_cells(g, row)) by {
            assert forall|k: int| 0 <= k < g.width implies cell_of_char(#[trigger] line[k])
                == g.cell(row, k) by {
                assert(g.in_bounds(row, k));
                if let Cell::White(Some(ch)) = g.cell(row, k) {
                    assert(is_ascii_letter(ch));
                }
            }
        }
        if row + 1 == g.height {
            lemma_rows_of_line(line, seq![], true);
        } else {
            lemma_rows_of_line(line, render_from(g, row + 1), false);
            lemma_render_rows(g, row + 1);
        }
        assert(rows_from(render_from(g, row), 0) =~= Seq::new(
            (g.height - row) as nat,
            |i: int| row_cells(g, row + i),
        ));
    } else {
        assert(rows_from(render_from(g, row), 0) =~= Seq::new(
            (g.height - row) as nat,
            |i: int| row_cells(g, row + i),
        ));
    }
}

/// Writing a grid out in the text format and parsing it back gives the same
/// grid, as long as it has a column and its letters are ASCII letters.
pub proof fn lemma_parse_render(g: GridView)
    requires
        g.wf(),
        g.width >= 1,
        g.height >= 1,
        letters_are_ascii(g),
    ensures
        forall|res: Result<GridView, GridError>|
            #[trigger] rows_result(text_rows(render(g)), res) <==> res == Ok::<
                GridView,
                GridError,
            >(g),
{
    lemma_render_rows(g, 0);
    let rows = text_rows(render(g));
    assert(rows_result(rows, Ok(g))) by {
        assert forall|i: int| 0 <= i < rows.len() implies #[trigger] rows[i].len() == g.width by {
            assert(rows[i] == row_cells(g, i));
        }
        assert forall|r: int, c: int| g.in_bounds(r, c) implies #[trigger] g.cell(r, c)
            == rows[r][c] by {
            assert(rows[r] == row_cells(g, r));
        }
        assert(rows[0] == row_cells(g, 0));
    }
    assert forall|res: Result<GridView, GridError>| #[trigger]
        rows_result(rows, res) implies res == Ok::<GridView, GridError>(g) by {
        lemma_rows_result_unique(rows, res, Ok(g));
    }
}

/// Distinct positions inside the grid have distinct flat indices.
pub proof fn lemma_index_injective(width: nat, r1: int, c1: int, r2: int, c2: int)
    requires
        0 <= c1 < width,
        0 <= c2 < width,
        r1 * width + c1 == r2 * width + c2,
    ensures
        r1 == r2 && c1 == c2,
{
    if r1 < r2 {
        lemma_row_major_lt(width, r1, c1, r2, c2);
    } else if r2 < r1 {
        lemma_row_major_lt(width, r2, c2, r1, c1);
    }
}

/// A rectangular crossword grid: a fixed width/height array of cells.
#[derive(Debug, PartialEq, Eq)]
pub struct Grid {
    width: usize,
    height: usize,
    cells: Vec<Cell>,
}

impl View for Grid {
    type V = GridView;

    closed spec fn view(&self) -> GridView {
        GridView { width: self.width as nat, height: self.height as nat, cells: self.cells@ }
    }
}

impl Clone for Grid {
    fn clone(&self) -> (res: Grid)
        ensures
            res@ == self@,
    {
        proof {
            use_type_invariant(self);
        }
        let cells = self.cells.clone();
        assert(cells@ =~= self.cells@);
        Grid { width: self.width, height: self.height, cells }
    }
}

impl Grid {
    #[verifier::type_invariant]
    closed spec fn well_formed(self) -> bool {
        &&& self.cells@.len() == self.width * self.height
        &&& self.height >= 1
    }

    /// The grid `width` wide and `height` high whose cells, in reading
    /// order, are `cells`.
    pub(crate) fn from_cells(width: usize, height: usize, cells: Vec<Cell>) -> (g: Grid)
        requires
            cells@.len() == width * height,
            height >= 1,
        ensures
            g@ == (GridView { width: width as nat, height: height as nat, cells: cells@ }),
            g@.wf(),
    {
        // Asking for the length brings in that it fits in a `usize`.
        let _ = cells.len();
        Grid { width, height, cells }
    }

    /// Builds a grid from a rectangular block of cells. Fails if there are
    /// no rows, or if any row's length differs from the first row's length.
    pub fn from_rows(rows: &[Vec<Cell>]) -> (res: Result<Grid, GridError>)
        ensures
            rows_result(rows_view(rows@), view_result(res)),
    {
        let ghost rv = rows_view(rows@);
        let height = rows.len();
        if height == 0 {
            return Err(GridError::Empty);
        }
        let width = rows[0].len();
        let mut i: usize = 0;
        while i < height
            invariant
                height == rows@.len(),
                rv == rows_view(rows@),
                width == rv[0].len(),
                0 <= i <= height,
                forall|k: int| 0 <= k < i ==> #[trigger] rv[k].len() == width,
            decreases height - i,
        {
            if rows[i].len() != width {
                return Err(GridError::RaggedRows { row: i, expected: width, found: rows[i].len() });
            }
            i = i + 1;
        }
        let mut cells: Vec<Cell> = Vec::new();
        let mut r: usize = 0;
        while r < height
            invariant
                height == rows@.len(),
                rv == rows_view(rows@),
                0 <= r <= height,
                forall|k: int| 0 <= k < height ==> #[trigger] rv[k].len() == width,
                cells@.len() == r * width,
                forall|rr: int, cc: int|
                    0 <= rr < r && 0 <= cc < width ==> #[trigger] cell_at(cells@, width as nat, rr, cc)
                        == rv[rr][cc],
            decreases height - r,
        {
            let row = &rows[r];
            assert(row@ == rv[r as int]);
            let mut c: usize = 0;
            while c < width
                invariant
                    height == rows@.len(),
                    rv == rows_view(rows@),
                    0 <= r < height,
                    row@ == rv[r as int],
                    row@.len() == width,
                    0 <= c <= width,
                    cells@.len() == r * width + c,
                    forall|rr: int, cc: int|
                        0 <= rr < r && 0 <= cc < width ==> #[trigger] cell_at(
                            cells@,
                            width as nat,
                            rr,
                            cc,
                        ) == rv[rr][cc],
                    forall|cc: int| 0 <= cc < c ==> #[trigger] cells@[r * width + cc] == rv[r as int][cc],
                decreases width - c,
            {
                let ghost before = cells@;
                cells.push(row[c]);
                assert forall|rr: int, cc: int|
                    0 <= rr < r && 0 <= cc < width implies #[trigger] cell_at(
                        cells@,
                        width as nat,
                        rr,
                        cc,
                    ) == rv[rr][cc] by {
                    lemma_row_major_lt(width as nat, rr, cc, r as int, c as int);
                    assert(cell_at(before, width as nat, rr, cc) == rv[rr][cc]);
                }
                c = c + 1;
            }
            assert forall|rr: int, cc: int|
                0 <= rr < r + 1 && 0 <= cc < width implies #[trigger] cell_at(
                    cells@,
                    width as nat,
                    rr,
                    cc,
                ) == rv[rr][cc] by {
                if rr == r {
                    assert(cells@[r * width + cc] == rv[r as int][cc]);
                }
            }
            assert((r + 1) * width == r * width + width) by (nonlinear_arith);
            r = r + 1;
        }
        assert(cells@.len() == width * height) by (nonlinear_arith)
            requires
                cells@.len() == r * width,
                r == height,
        ;
        // Asking for the length brings in that it fits in a `usize`.
        let _ = cells.len();
        let g = Grid { width, height, cells };
        proof {
            assert forall|rr: int, cc: int| g@.in_bounds(rr, cc) implies #[trigger] g@.cell(rr, cc)
                == rv[rr][cc] by {
                assert(cell_at(g.cells@, width as nat, rr, cc) == rv[rr][cc]);
            }
        }
        Ok(g)
    }

    /// Parses a text block into a grid, one row per non-blank line. `#`
    /// marks a black square, an ASCII letter a white square filled with that
    /// letter, and any other character an empty white square. Lines end at
    /// `\n` or `\r\n`; blank lines are skipped entirely, so trailing
    /// newlines in a file don't turn into a parse error.
    pub fn parse(text: &str) -> (res: Result<Grid, GridError>)
        ensures
            rows_result(text_rows(text@), view_result(res)),
    {
        let chars = text_chars(text);
        let ghost t = text@;
        let n = chars.len();
        let mut rows: Vec<Vec<Cell>> = Vec::new();
        let mut start: usize = 0;
        while start < n
            invariant
                chars@ == t,
                n == t.len(),
                0 <= start <= n,
                rows_view(rows@) + rows_from(t, start as int) == rows_from(t, 0),
            decreases n - start,
        {
            let mut end = start;
            while end < n && chars[end] != '\n'
                invariant
                    chars@ == t,
                    n == t.len(),
                    start <= end <= n,
                    forall|k: int| start <= k < end ==> t[k] != '\n',
                decreases n - end,
            {
                end = end + 1;
            }
            proof {
                lemma_newline_is_first(t, start as int, end as int);
            }
            let mut line_end = end;
            if end < n && end > start && chars[end - 1] == '\r' {
                line_end = end - 1;
            }
            let ghost rest = if end < n {
                rows_from(t, end + 1)
            } else {
                seq![]
            };
            assert(line_at(t, start as int) == t.subrange(start as int, line_end as int));
            if line_end > start {
                let mut row: Vec<Cell> = Vec::new();
                let mut k = start;
                while k < line_end
                    invariant
                        chars@ == t,
                        n == t.len(),
                        start <= k <= line_end <= n,
                        row@ == t.subrange(start as int, k as int).map_values(
                            |c: char| cell_of_char(c),
                        ),
                    decreases line_end - k,
                {
                    row.push(cell_from_char(chars[k]));
                    k = k + 1;
                    assert(row@ =~= t.subrange(start as int, k as int).map_values(
                        |c: char| cell_of_char(c),
                    ));
                }
                let ghost old_rows = rows_view(rows@);
                rows.push(row);
                assert(rows_view(rows@) =~= old_rows.push(row@));
                assert(rows_from(t, start as int) == seq![row@] + rest);
                assert(rows_view(rows@) + rest =~= old_rows + (seq![row@] + rest));
            } else {
                assert(rows_from(t, start as int) == rest);
            }
            if end < n {
                start = end + 1;
            } else {
                start = n;
            }
        }
        assert(rows_view(rows@) =~= rows_from(t, 0));
        Grid::from_rows(rows.as_slice())
    }

    /// The grid's width. Asking for it also brings in, for proofs, that
    /// the grid is well formed and has at least one row.
    pub fn width(&self) -> (w: usize)
        ensures
            w == self@.width,
            self@.wf(),
            self@.height >= 1,
    {
        proof {
            use_type_invariant(self);
        }
        // Asking for the length brings in that it fits in a `usize`.
        let _ = self.cells.len();
        self.width
    }

    /// The grid's height (at least one row). Asking for it also brings in,
    /// for proofs, that the grid is well formed.
    pub fn height(&self) -> (h: usize)
        ensures
            h == self@.height,
            self@.wf(),
            h >= 1,
    {
        proof {
            use_type_invariant(self);
        }
        // Asking for the length brings in that it fits in a `usize`.
        let _ = self.cells.len();
        self.height
    }

    /// The cell at (`row`, `col`), or `None` outside the grid.
    pub fn get(&self, row: usize, col: usize) -> (res: Option<Cell>)
        ensures
            res == if self@.in_bounds(row as int, col as int) {
                Some(self@.cell(row as int, col as int))
            } else {
                None::<Cell>
            },
    {
        proof {
            use_type_invariant(self);
        }
        if row >= self.height || col >= self.width {
            return None;
        }
        // Asking for the length brings in that it fits in a `usize`.
        let _ = self.cells.len();
        proof {
            lemma_index_in_range(self.width as nat, self.height as nat, row as int, col as int);
            assert(row * self.width <= row * self.width + col);
        }
        Some(self.cells[row * self.width + col])
    }

    /// Whether (`row`, `col`) is a black square; positions outside the grid
    /// are not.
    pub fn is_black(&self, row: usize, col: usize) -> (b: bool)
        ensures
            b == self@.is_black(row as int, col as int),
    {
        matches!(self.get(row, col), Some(Cell::Black))
    }

    pub fn black_count(&self) -> (n: usize)
        ensures
            n == self@.black_count(),
    {
        let mut n: usize = 0;
        let mut i: usize = 0;
        while i < self.cells.len()
            invariant
                0 <= i <= self.cells@.len(),
                n <= i,
                n == count_black(self.cells@.take(i as int)),
            decreases self.cells@.len() - i,
        {
            assert(self.cells@.take(i + 1).drop_last() =~= self.cells@.take(i as int));
            if matches!(self.cells[i], Cell::Black) {
                n = n + 1;
            }
            i = i + 1;
        }
        assert(self.cells@.take(i as int) =~= self.cells@);
        n
    }

    /// The number of white cells that hold a letter.
    pub fn filled_count(&self) -> (n: usize)
        ensures
            n == count_filled(self@.cells),
    {
        let mut n: usize = 0;
        let mut i: usize = 0;
        while i < self.cells.len()
            invariant
                0 <= i <= self.cells@.len(),
                n <= i,
                n == count_filled(self.cells@.take(i as int)),
            decreases self.cells@.len() - i,
        {
            assert(self.cells@.take(i + 1).drop_last() =~= self.cells@.take(i as int));
            if matches!(self.cells[i], Cell::White(Some(_))) {
                n = n + 1;
            }
            i = i + 1;
        }
        assert(self.cells@.take(i as int) =~= self.cells@);
        n
    }

    /// True if the grid reads the same when rotated 180 degrees around its
    /// center - the symmetry convention used by American-style crosswords.
    pub fn has_180_symmetry(&self) -> (b: bool)
        ensures
            b == self@.has_180_symmetry(),
            b <==> forall|row: int, col: int|
                0 <= row < self@.height && 0 <= col < self@.width ==> #[trigger] self@.is_black(
                    row,
                    col,
                ) == self@.is_black(self@.height - 1 - row, self@.width - 1 - col),
    {
        proof {
            lemma_symmetry_is_every_cell(self@);
        }
        let mut row: usize = 0;
        while row < self.height
            invariant
                0 <= row <= self@.height,
                forall|r: int, c: int|
                    0 <= r < row && 0 <= c < self@.width ==> #[trigger] self@.agrees_with_mirror(r, c),
            decreases self@.height - row,
        {
            let mut col: usize = 0;
            while col < self.width
                invariant
                    0 <= row < self@.height,
                    0 <= col <= self@.width,
                    forall|r: int, c: int|
                        0 <= r < row && 0 <= c < self@.width ==> #[trigger] self@.agrees_with_mirror(
                            r,
                            c,
                        ),
                    forall|c: int| 0 <= c < col ==> #[trigger] self@.agrees_with_mirror(row as int, c),
                decreases self@.width - col,
            {
                let mirror_row = self.height - 1 - row;
                let mirror_col = self.width - 1 - col;
                if self.is_black(row, col) != self.is_black(mirror_row, mirror_col) {
                    assert(!self@.agrees_with_mirror(row as int, col as int));
                    return false;
                }
                col = col + 1;
            }
            row = row + 1;
        }
        true
    }
}

pub proof fn lemma_newline_is_first(text: Seq<char>, start: int, end: int)
    requires
        0 <= start <= end <= text.len(),
        forall|k: int| start <= k < end ==> text[k] != '\n',
        end == text.len() || text[end] == '\n',
    ensures
        newline_from(text, start) == end,
    decreases end - start,
{
    if start < end {
        lemma_newline_is_first(text, start + 1, end);
    }
}

// ---------------------------------------------------------------------------
// Laws of the cell-level definitions
// ---------------------------------------------------------------------------

/// A grid has 180-degree symmetry exactly when every cell, in every row
/// (the middle row of an odd-height grid included), is black just when the
/// cell it turns into is black.
pub proof fn lemma_symmetry_is_every_cell(g: GridView)
    ensures
        g.has_180_symmetry() <==> forall|row: int, col: int|
            0 <= row < g.height && 0 <= col < g.width ==> #[trigger] g.is_black(row, col)
                == g.is_black(g.height - 1 - row, g.width - 1 - col),
{
    if g.has_180_symmetry() {
        assert forall|row: int, col: int|
            0 <= row < g.height && 0 <= col < g.width implies #[trigger] g.is_black(row, col)
                == g.is_black(g.height - 1 - row, g.width - 1 - col) by {
            assert(g.agrees_with_mirror(row, col));
        }
    }
    if forall|row: int, col: int|
        0 <= row < g.height && 0 <= col < g.width ==> #[trigger] g.is_black(row, col)
            == g.is_black(g.height - 1 - row, g.width - 1 - col) {
        assert forall|row: int, col: int| g.in_bounds(row, col) implies #[trigger]
            g.agrees_with_mirror(row, col) by {
            assert(g.is_black(row, col) == g.is_black(g.height - 1 - row, g.width - 1 - col));
        }
    }
}

/// How the text format reads a character: `#` is a black square; exactly
/// the ASCII letters `A`..=`Z` and `a`..=`z` are white squares holding that
/// very letter; every other character is an empty white square.
pub proof fn lemma_text_format_chars(c: char)
    ensures
        c == '#' ==> cell_of_char(c) == Cell::Black,
        ('A' <= c <= 'Z' || 'a' <= c <= 'z') ==> cell_of_char(c) == Cell::White(Some(c)),
        c != '#' && !('A' <= c <= 'Z') && !('a' <= c <= 'z') ==> cell_of_char(c) == Cell::White(
            None,
        ),
        forall|x: char| cell_of_char(c) == Cell::White(Some(x)) ==> x == c && ('A' <= c <= 'Z'
            || 'a' <= c <= 'z'),
{
}

/// Counting letter-holding cells goes cell by cell: none in an empty
/// sequence, and one more exactly when the added cell holds a letter.
pub proof fn lemma_count_filled_steps(cells: Seq<Cell>, cell: Cell)
    ensures
        count_filled(Seq::<Cell>::empty()) == 0,
        count_filled(cells.push(cell)) == count_filled(cells) + if cell is White && cell->0
            is Some {
            1int
        } else {
            0int
        },
        count_filled(seq![cell]) == if cell is White && cell->0 is Some {
            1int
        } else {
            0int
        },
        count_filled(cells) <= cells.len(),
    decreases cells.len(),
{
    assert(cells.push(cell).drop_last() =~= cells);
    assert(seq![cell].drop_last() =~= Seq::<Cell>::empty());
    if cells.len() > 0 {
        lemma_count_filled_steps(cells.drop_last(), cells.last());
    }
}

/// Counting black cells goes cell by cell: none in an empty sequence, and
/// one more exactly when the added cell is black.
pub proof fn lemma_count_black_steps(cells: Seq<Cell>, cell: Cell)
    ensures
        count_black(Seq::<Cell>::empty()) == 0,
        count_black(cells.push(cell)) == count_black(cells) + if cell is Black {
            1int
        } else {
            0int
        },
        count_black(seq![cell]) == if cell is Black {
            1int
        } else {
            0int
        },
        count_black(cells) <= cells.len(),
    decreases cells.len(),
{
    assert(cells.push(cell).drop_last() =~= cells);
    assert(seq![cell].drop_last() =~= Seq::<Cell>::empty());
    if cells.len() > 0 {
        lemma_count_black_steps(cells.drop_last(), cells.last());
    }
}

/// Rows make a grid exactly when there is at least one and all have the
/// same length; otherwise the error names the first row whose length
/// differs from the first row's, with both lengths.
pub proof fn lemma_rows_result_cases(rows: Seq<Seq<Cell>>, res: Result<GridView, GridError>)
    requires
        rows_result(rows, res),
    ensures
        res is Ok <==> (rows.len() > 0 && forall|i: int, j: int|
            0 <= i < rows.len() && 0 <= j < rows.len() ==> #[trigger] rows[i].len()
                == #[trigger] rows[j].len()),
        res == Err::<GridView, GridError>(GridError::Empty) <==> rows.len() == 0,
        res matches Err(GridError::RaggedRows { row, expected, found }) ==> {
            &&& 0 < row < rows.len()
            &&& expected == rows[0].len()
            &&& found == rows[row as int].len()
            &&& found != expected
            &&& forall|i: int| 0 <= i < row ==> #[trigger] rows[i].len() == rows[0].len()
        },
{
    if let Err(GridError::RaggedRows { row, .. }) = res {
        assert(row != 0);
    }
}

/// Inside the grid, a position is black or white as its entry in the cell
/// sequence (row by row, `width` cells each) is; outside, it is neither.
pub proof fn lemma_positions(g: GridView, row: int, col: int)
    requires
        g.wf(),
    ensures
        !(0 <= row < g.height && 0 <= col < g.width) ==> !g.is_black(row, col) && !g.is_white(
            row,
            col,
        ),
        0 <= row < g.height && 0 <= col < g.width ==> {
            &&& 0 <= row * g.width + col < g.cells.len()
            &&& g.is_black(row, col) == (g.cells[row * g.width + col] == Cell::Black)
            &&& g.is_white(row, col) == !(g.cells[row * g.width + col] == Cell::Black)
        },
{
    if 0 <= row < g.height && 0 <= col < g.width {
        lemma_index_in_range(g.width, g.height, row, col);
    }
}

/// The cell that a character of the text format stands for.
fn cell_from_char(c: char) -> (cell: Cell)
    ensures
        cell == cell_of_char(c),
{
    if c == '#' {
        Cell::Black
    } else if ('A' <= c && c <= 'Z') || ('a' <= c && c <= 'z') {
        Cell::White(Some(c))
    } else {
        Cell::White(None)
    }
}

/// The characters of `text`, in order.
fn text_chars(text: &str) -> (chars: Vec<char>)
    ensures
        chars@ == text@,
{
    broadcast use vstd::string::group_string_axioms;

    let mut chars: Vec<char> = Vec::new();
    for c in it: text.chars()
        invariant
            chars@ == it.seq().take(it.index() as int),
            it.seq() == text@,
    {
        chars.push(c);
    }
    chars
}

} // verus!
