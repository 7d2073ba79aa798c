use vstd::prelude::*;

use std::collections::HashMap;

use crate::grid::{lemma_index_in_range, lemma_index_injective, Grid, GridView};

verus! {

#[derive(Debug, Clone, Copy, PartialEq, Eq, Structural)]
pub enum Direction {
    Across,
    Down,
}

/// A word slot: a maximal run of two or more white cells, with the number
/// of its starting cell.
#[derive(Debug, Clone, Copy, PartialEq, Eq, Structural)]
pub struct Slot {
    pub number: u32,
    pub direction: Direction,
    pub row: usize,
    pub col: usize,
    pub length: usize,
}

// ---------------------------------------------------------------------------
// Scanning positions in reading order
// ---------------------------------------------------------------------------

/// `a` comes strictly before `b` when read line by line: by first
/// coordinate, then by second.
pub open spec fn reads_before(a: (int, int), b: (int, int)) -> bool {
    a.0 < b.0 || (a.0 == b.0 && a.1 < b.1)
}

/// The positions `(line, i)` with `0 <= i < upto` that satisfy `pred`, in
/// increasing `i`.
pub open spec fn scan_line(pred: spec_fn(int, int) -> bool, line: int, upto: int) -> Seq<(int, int)>
    decreases upto,
{
    if upto <= 0 {
        seq![]
    } else {
        scan_line(pred, line, upto - 1) + if pred(line, upto - 1) {
            seq![(line, upto - 1)]
        } else {
            seq![]
        }
    }
}

/// The positions `(l, i)` with `0 <= l < lines` and `0 <= i < len` that
/// satisfy `pred`, line by line.
pub open spec fn scan_lines(pred: spec_fn(int, int) -> bool, len: int, lines: int) -> Seq<
    (int, int),
>
    decreases lines,
{
    if lines <= 0 {
        seq![]
    } else {
        scan_lines(pred, len, lines - 1) + scan_line(pred, lines - 1, len)
    }
}

pub proof fn lemma_scan_line(pred: spec_fn(int, int) -> bool, line: int, upto: int)
    ensures
        scan_line(pred, line, upto).len() <= if upto < 0 {
            0
        } else {
            upto
        },
        forall|k: int|
            0 <= k < scan_line(pred, line, upto).len() ==> {
                let p = #[trigger] scan_line(pred, line, upto)[k];
                &&& p.0 == line
                &&& 0 <= p.1 < upto
                &&& pred(p.0, p.1)
            },
        forall|i: int, j: int|
            0 <= i < j < scan_line(pred, line, upto).len() ==> #[trigger] scan_line(
                pred,
                line,
                upto,
            )[i].1 < #[trigger] scan_line(pred, line, upto)[j].1,
        forall|i: int|
            0 <= i < upto && pred(line, i) ==> #[trigger] scan_line(pred, line, upto).contains(
                (line, i),
            ),
    decreases upto,
{
    if upto > 0 {
        lemma_scan_line(pred, line, upto - 1);
        let prev = scan_line(pred, line, upto - 1);
        let s = scan_line(pred, line, upto);
        assert forall|i: int| 0 <= i < upto && pred(line, i) implies #[trigger] s.contains(
            (line, i),
        ) by {
            if i < upto - 1 {
                assert(prev.contains((line, i)));
                let k = choose|k: int| 0 <= k < prev.len() && prev[k] == (line, i);
                assert(s[k] == (line, i));
            } else {
                assert(s[s.len() - 1] == (line, i));
            }
        }
    }
}

pub proof fn lemma_scan_lines(pred: spec_fn(int, int) -> bool, len: int, lines: int)
    ensures
        forall|k: int|
            0 <= k < scan_lines(pred, len, lines).len() ==> {
                let p = #[trigger] scan_lines(pred, len, lines)[k];
                &&& 0 <= p.0 < lines
                &&& 0 <= p.1 < len
                &&& pred(p.0, p.1)
            },
        forall|i: int, j: int|
            0 <= i < j < scan_lines(pred, len, lines).len() ==> reads_before(
                #[trigger] scan_lines(pred, len, lines)[i],
                #[trigger] scan_lines(pred, len, lines)[j],
            ),
        forall|l: int, i: int|
            0 <= l < lines && 0 <= i < len && pred(l, i) ==> #[trigger] scan_lines(
                pred,
                len,
                lines,
            ).contains((l, i)),
    decreases lines,
{
    if lines > 0 {
        lemma_scan_lines(pred, len, lines - 1);
        lemma_scan_line(pred, lines - 1, len);
        let prev = scan_lines(pred, len, lines - 1);
        let last = scan_line(pred, lines - 1, len);
        let s = scan_lines(pred, len, lines);
        assert(s == prev + last);
        assert forall|k: int| 0 <= k < s.len() implies {
            let p = #[trigger] s[k];
            &&& 0 <= p.0 < lines
            &&& 0 <= p.1 < len
            &&& pred(p.0, p.1)
        } by {
            if k < prev.len() {
                assert(s[k] == prev[k]);
            } else {
                assert(s[k] == last[k - prev.len()]);
            }
        }
        assert forall|i: int, j: int| 0 <= i < j < s.len() implies reads_before(
            #[trigger] s[i],
            #[trigger] s[j],
        ) by {
            if j < prev.len() {
                assert(s[i] == prev[i] && s[j] == prev[j]);
            } else if i < prev.len() {
                assert(s[i] == prev[i] && s[j] == last[j - prev.len()]);
            } else {
                assert(s[i] == last[i - prev.len()] && s[j] == last[j - prev.len()]);
            }
        }
        assert forall|l: int, i: int|
            0 <= l < lines && 0 <= i < len && pred(l, i) implies #[trigger] s.contains((l, i)) by {
            if l < lines - 1 {
                assert(prev.contains((l, i)));
                let k = choose|k: int| 0 <= k < prev.len() && prev[k] == (l, i);
                assert(s[k] == (l, i));
            } else {
                assert(last.contains((l, i)));
                let k = choose|k: int| 0 <= k < last.len() && last[k] == (l, i);
                assert(s[prev.len() + k] == (l, i));
            }
        }
    }
}

/// `scan_lines(pred, len, l) + scan_line(pred, l, i)` is a prefix of
/// `scan_lines(pred, len, lines)` for positions inside the scanned area.
pub proof fn lemma_scan_prefix(pred: spec_fn(int, int) -> bool, len: int, lines: int, l: int, i: int)
    requires
        0 <= l < lines,
        0 <= i <= len,
    ensures
        ({
            let pre = scan_lines(pred, len, l) + scan_line(pred, l, i);
            let all = scan_lines(pred, len, lines);
            &&& pre.len() <= all.len()
            &&& forall|k: int| 0 <= k < pre.len() ==> #[trigger] all[k] == pre[k]
        }),
    decreases lines - l, len - i,
{
    let pre = scan_lines(pred, len, l) + scan_line(pred, l, i);
    let all = scan_lines(pred, len, lines);
    if i < len {
        lemma_scan_prefix(pred, len, lines, l, i + 1);
        let pre1 = scan_lines(pred, len, l) + scan_line(pred, l, i + 1);
        assert forall|k: int| 0 <= k < pre.len() implies #[trigger] all[k] == pre[k] by {
            assert(pre1[k] == pre[k]);
            assert(all[k] == pre1[k]);
        }
    } else if l + 1 < lines {
        lemma_scan_prefix(pred, len, lines, l + 1, 0);
        let pre1 = scan_lines(pred, len, l + 1) + scan_line(pred, l + 1, 0);
        assert(pre1 =~= scan_lines(pred, len, l + 1));
        assert(pre =~= scan_lines(pred, len, l + 1));
        assert forall|k: int| 0 <= k < pre.len() implies #[trigger] all[k] == pre[k] by {
            assert(all[k] == pre1[k]);
        }
    } else {
        assert(pre =~= all);
    }
}

// ---------------------------------------------------------------------------
// Numbering
// ---------------------------------------------------------------------------

/// The white cell at (`row`, `col`) begins an across word: nothing white to
/// its left, and a white cell to its right.
pub open spec fn starts_across_at(g: GridView, row: int, col: int) -> bool {
    &&& (col == 0 || g.is_black(row, col - 1))
    &&& col + 1 < g.width
    &&& !g.is_black(row, col + 1)
}

/// The white cell at (`row`, `col`) begins a down word.
pub open spec fn starts_down_at(g: GridView, row: int, col: int) -> bool {
    &&& (row == 0 || g.is_black(row - 1, col))
    &&& row + 1 < g.height
    &&& !g.is_black(row + 1, col)
}

/// A cell is numbered if it is a white cell that starts an across word or a
/// down word (or both).
pub open spec fn is_numbered(g: GridView, row: int, col: int) -> bool {
    &&& g.in_bounds(row, col)
    &&& !g.is_black(row, col)
    &&& (starts_across_at(g, row, col) || starts_down_at(g, row, col))
}

pub open spec fn numbered_pred(g: GridView) -> spec_fn(int, int) -> bool {
    |row: int, col: int| is_numbered(g, row, col)
}

/// The numbered cells, left to right, top to bottom.
pub open spec fn numbered_cells(g: GridView) -> Seq<(int, int)> {
    scan_lines(numbered_pred(g), g.width as int, g.height as int)
}

/// The number that the standard convention gives the cell at (`row`,
/// `col`): one more than the count of numbered cells read before it.
pub open spec fn number_of(g: GridView, row: int, col: int) -> int {
    (scan_lines(numbered_pred(g), g.width as int, row).len() + scan_line(
        numbered_pred(g),
        row,
        col,
    ).len() + 1) as int
}

/// Tells whether the cell at (`row`, `col`) starts an across word.
fn starts_across(grid: &Grid, row: usize, col: usize) -> (b: bool)
    requires
        grid@.in_bounds(row as int, col as int),
    ensures
        b == starts_across_at(grid@, row as int, col as int),
{
    let width = grid.width();
    let open_start = col == 0 || grid.is_black(row, col - 1);
    let has_room = col + 1 < width && !grid.is_black(row, col + 1);
    open_start && has_room
}

/// Tells whether the cell at (`row`, `col`) starts a down word.
fn starts_down(grid: &Grid, row: usize, col: usize) -> (b: bool)
    requires
        grid@.in_bounds(row as int, col as int),
    ensures
        b == starts_down_at(grid@, row as int, col as int),
{
    let height = grid.height();
    let open_start = row == 0 || grid.is_black(row - 1, col);
    let has_room = row + 1 < height && !grid.is_black(row + 1, col);
    open_start && has_room
}

/// Assigns crossword numbers to white cells, following the standard
/// left-to-right, top-to-bottom convention: a cell is numbered if it starts
/// an across word or a down word (or both).
///
/// Returns `(row, col, number)` triples in numbering order; the `k`-th
/// triple carries the number `k + 1`.
pub fn number_cells(grid: &Grid) -> (res: Vec<(usize, usize, u32)>)
    requires
        numbered_cells(grid@).len() < u32::MAX,
    ensures
        res@.len() == numbered_cells(grid@).len(),
        forall|k: int|
            0 <= k < res@.len() ==> {
                let t = #[trigger] res@[k];
                &&& t.0 == numbered_cells(grid@)[k].0
                &&& t.1 == numbered_cells(grid@)[k].1
                &&& t.2 == k + 1
            },
{
    let ghost g = grid@;
    let ghost pred = numbered_pred(g);
    let width = grid.width();
    let height = grid.height();
    let mut numbered: Vec<(usize, usize, u32)> = Vec::new();
    let mut next_number: u32 = 1;
    let mut row: usize = 0;
    while row < height
        invariant
            g == grid@,
            pred == numbered_pred(g),
            width == g.width,
            height == g.height,
            numbered_cells(g).len() < u32::MAX,
            0 <= row <= height,
            next_number == numbered@.len() + 1,
            numbered@.len() == scan_lines(pred, width as int, row as int).len(),
            forall|k: int|
                0 <= k < numbered@.len() ==> {
                    let t = #[trigger] numbered@[k];
                    &&& t.0 == scan_lines(pred, width as int, row as int)[k].0
                    &&& t.1 == scan_lines(pred, width as int, row as int)[k].1
                    &&& t.2 == k + 1
                },
        decreases height - row,
    {
        let mut col: usize = 0;
        while col < width
            invariant
                g == grid@,
                pred == numbered_pred(g),
                width == g.width,
                height == g.height,
                numbered_cells(g).len() < u32::MAX,
                0 <= row < height,
                0 <= col <= width,
                next_number == numbered@.len() + 1,
                numbered@.len() == (scan_lines(pred, width as int, row as int) + scan_line(
                    pred,
                    row as int,
                    col as int,
                )).len(),
                forall|k: int|
                    0 <= k < numbered@.len() ==> {
                        let t = #[trigger] numbered@[k];
                        let p = (scan_lines(pred, width as int, row as int) + scan_line(
                            pred,
                            row as int,
                            col as int,
                        ))[k];
                        &&& t.0 == p.0
                        &&& t.1 == p.1
                        &&& t.2 == k + 1
                    },
            decreases width - col,
        {
            let ghost prefix = scan_lines(pred, width as int, row as int) + scan_line(
                pred,
                row as int,
                col as int,
            );
            let ghost next = scan_lines(pred, width as int, row as int) + scan_line(
                pred,
                row as int,
                col + 1,
            );
            proof {
                lemma_scan_prefix(pred, width as int, height as int, row as int, col + 1);
            }
            if grid.is_black(row, col) {
                assert(next =~= prefix);
            } else if starts_across(grid, row, col) || starts_down(grid, row, col) {
                assert(next =~= prefix.push((row as int, col as int)));
                numbered.push((row, col, next_number));
                next_number = next_number + 1;
            } else {
                assert(next =~= prefix);
            }
            col = col + 1;
        }
        assert(scan_lines(pred, width as int, row + 1) =~= scan_lines(
            pred,
            width as int,
            row as int,
        ) + scan_line(pred, row as int, width as int));
        row = row + 1;
    }
    numbered
}

// ---------------------------------------------------------------------------
// Word slots
// ---------------------------------------------------------------------------

/// The white cell at (`row`, `col`) starts an across slot.
pub open spec fn across_pred(g: GridView) -> spec_fn(int, int) -> bool {
    |row: int, col: int| g.in_bounds(row, col) && !g.is_black(row, col) && starts_across_at(g, row, col)
}

/// The white cell at (`row`, `col`) starts a down slot; the column comes
/// first, so that scanning goes column by column.
pub open spec fn down_pred(g: GridView) -> spec_fn(int, int) -> bool {
    |col: int, row: int| g.in_bounds(row, col) && !g.is_black(row, col) && starts_down_at(g, row, col)
}

/// The starts `(row, col)` of the across slots, in reading order.
pub open spec fn across_starts(g: GridView) -> Seq<(int, int)> {
    scan_lines(across_pred(g), g.width as int, g.height as int)
}

/// The starts `(col, row)` of the down slots, column by column.
pub open spec fn down_starts(g: GridView) -> Seq<(int, int)> {
    scan_lines(down_pred(g), g.height as int, g.width as int)
}

/// The number of white cells from (`row`, `col`) rightwards before a black
/// square or the edge.
pub open spec fn run_across(g: GridView, row: int, col: int) -> nat
    decreases g.width - col,
{
    if 0 <= col < g.width && !g.is_black(row, col) {
        1 + run_across(g, row, col + 1)
    } else {
        0
    }
}

/// The number of white cells from (`row`, `col`) downwards before a black
/// square or the edge.
pub open spec fn run_down(g: GridView, row: int, col: int) -> nat
    decreases g.height - row,
{
    if 0 <= row < g.height && !g.is_black(row, col) {
        1 + run_down(g, row + 1, col)
    } else {
        0
    }
}

pub open spec fn run_length(g: GridView, direction: Direction, row: int, col: int) -> nat {
    match direction {
        Direction::Across => run_across(g, row, col),
        Direction::Down => run_down(g, row, col),
    }
}

/// The slot that starts at (`row`, `col`) in `direction`.
pub open spec fn slot_at(g: GridView, direction: Direction, row: int, col: int) -> Slot {
    Slot {
        number: number_of(g, row, col) as u32,
        direction,
        row: row as usize,
        col: col as usize,
        length: run_length(g, direction, row, col) as usize,
    }
}

/// Every across slot in reading order, then every down slot column by
/// column.
pub open spec fn grid_slots(g: GridView) -> Seq<Slot> {
    across_starts(g).map_values(|p: (int, int)| slot_at(g, Direction::Across, p.0, p.1))
        + down_starts(g).map_values(|p: (int, int)| slot_at(g, Direction::Down, p.1, p.0))
}

/// The cell at (`row`, `col`) lies inside `slot`.
pub open spec fn covers(slot: Slot, row: int, col: int) -> bool {
    match slot.direction {
        Direction::Across => row == slot.row && slot.col <= col < slot.col + slot.length,
        Direction::Down => col == slot.col && slot.row <= row < slot.row + slot.length,
    }
}

pub open spec fn position_of(t: (usize, usize, u32)) -> (int, int) {
    (t.0 as int, t.1 as int)
}

/// A numbered cell carries the number that its place in the numbering
/// order gives it.
pub proof fn lemma_number_of(g: GridView, row: int, col: int)
    requires
        is_numbered(g, row, col),
    ensures
        1 <= number_of(g, row, col) <= numbered_cells(g).len(),
        numbered_cells(g)[number_of(g, row, col) - 1] == (row, col),
{
    let pred = numbered_pred(g);
    lemma_scan_prefix(pred, g.width as int, g.height as int, row, col + 1);
    let pre = scan_lines(pred, g.width as int, row) + scan_line(pred, row, col + 1);
    assert(scan_line(pred, row, col + 1) =~= scan_line(pred, row, col).push((row, col)));
    assert(pre.len() == number_of(g, row, col));
    assert(pre[pre.len() - 1] == (row, col));
}

/// The flat index `row * width + col` of the cell of an entry of the
/// numbering.
pub open spec fn entry_key(width: nat, t: (usize, usize, u32)) -> usize {
    (t.0 * width + t.1) as usize
}

/// The numbers of the numbered cells, keyed by each cell's flat index
/// `row * width + col`.
fn numbers_by_cell(numbers: &Vec<(usize, usize, u32)>, width: usize, height: usize) -> (map:
    HashMap<usize, u32>)
    requires
        width * height <= usize::MAX,
        forall|k: int|
            0 <= k < numbers@.len() ==> (#[trigger] numbers@[k]).0 < height && numbers@[k].1
                < width,
        forall|i: int, j: int|
            0 <= i < j < numbers@.len() ==> reads_before(
                position_of(#[trigger] numbers@[i]),
                position_of(#[trigger] numbers@[j]),
            ),
    ensures
        forall|k: int|
            0 <= k < numbers@.len() ==> map@.contains_key(entry_key(width as nat, #[trigger] numbers@[k]))
                && map@[entry_key(width as nat, numbers@[k])] == numbers@[k].2,
{
    broadcast use vstd::std_specs::hash::group_hash_axioms;

    let mut map: HashMap<usize, u32> = HashMap::new();
    let mut i: usize = 0;
    while i < numbers.len()
        invariant
            width * height <= usize::MAX,
            0 <= i <= numbers@.len(),
            forall|k: int|
                0 <= k < numbers@.len() ==> (#[trigger] numbers@[k]).0 < height && numbers@[k].1
                    < width,
            forall|i: int, j: int|
                0 <= i < j < numbers@.len() ==> reads_before(
                    position_of(#[trigger] numbers@[i]),
                    position_of(#[trigger] numbers@[j]),
                ),
            forall|k: int|
                0 <= k < i ==> map@.contains_key(entry_key(width as nat, #[trigger] numbers@[k]))
                    && map@[entry_key(width as nat, numbers@[k])] == numbers@[k].2,
        decreases numbers@.len() - i,
    {
        let (row, col, number) = numbers[i];
        proof {
            lemma_index_in_range(width as nat, height as nat, row as int, col as int);
        }
        let key = row * width + col;
        assert(key == entry_key(width as nat, numbers@[i as int]));
        assert forall|k: int| 0 <= k < i implies entry_key(width as nat, #[trigger] numbers@[k])
            != key by {
            let t = numbers@[k];
            assert(reads_before(position_of(t), position_of(numbers@[i as int])));
            lemma_index_in_range(width as nat, height as nat, t.0 as int, t.1 as int);
            if t.0 * width + t.1 == row * width + col {
                lemma_index_injective(width as nat, t.0 as int, t.1 as int, row as int, col as int);
            }
        }
        map.insert(key, number);
        i = i + 1;
    }
    map
}

/// Lists every across and down slot (a maximal run of two or more white
/// cells) together with the number assigned to its starting cell: the
/// across slots in reading order, then the down slots column by column.
pub fn word_slots(grid: &Grid) -> (res: Vec<Slot>)
    requires
        numbered_cells(grid@).len() < u32::MAX,
    ensures
        res@ == grid_slots(grid@),
{
    broadcast use vstd::std_specs::hash::group_hash_axioms;

    let ghost g = grid@;
    let numbers = number_cells(grid);
    let ghost np = numbered_pred(g);
    proof {
        lemma_scan_lines(np, g.width as int, g.height as int);
        assert forall|i: int, j: int|
            0 <= i < j < numbers@.len() implies reads_before(
            position_of(#[trigger] numbers@[i]),
            position_of(#[trigger] numbers@[j]),
        ) by {
            assert(reads_before(numbered_cells(g)[i], numbered_cells(g)[j]));
        }
    }
    let width = grid.width();
    let height = grid.height();
    proof {
        assert forall|k: int| 0 <= k < numbers@.len() implies (#[trigger] numbers@[k]).0 < height
            && numbers@[k].1 < width by {
            let p = numbered_cells(g)[k];
            assert(0 <= p.0 < height && 0 <= p.1 < width);
        }
    }
    let map = numbers_by_cell(&numbers, width, height);
    let ghost ap = across_pred(g);
    let ghost fa = |p: (int, int)| slot_at(g, Direction::Across, p.0, p.1);
    let mut slots: Vec<Slot> = Vec::new();
    let mut row: usize = 0;
    while row < height
        invariant
            g == grid@,
            ap == across_pred(g),
            np == numbered_pred(g),
            fa == (|p: (int, int)| slot_at(g, Direction::Across, p.0, p.1)),
            width == g.width,
            height == g.height,
            numbered_cells(g).len() < u32::MAX,
            numbers@.len() == numbered_cells(g).len(),
            width * height <= usize::MAX,
            forall|k: int|
                0 <= k < numbers@.len() ==> map@.contains_key(
                    entry_key(width as nat, #[trigger] numbers@[k]),
                ) && map@[entry_key(width as nat, numbers@[k])] == numbers@[k].2,
            forall|k: int|
                0 <= k < numbers@.len() ==> {
                    let t = #[trigger] numbers@[k];
                    &&& t.0 == numbered_cells(g)[k].0
                    &&& t.1 == numbered_cells(g)[k].1
                    &&& t.2 == k + 1
                },
            0 <= row <= height,
            slots@ == scan_lines(ap, width as int, row as int).map_values(fa),
        decreases height - row,
    {
        let mut col: usize = 0;
        while col < width
            invariant
                g == grid@,
                ap == across_pred(g),
                np == numbered_pred(g),
                fa == (|p: (int, int)| slot_at(g, Direction::Across, p.0, p.1)),
                width == g.width,
                height == g.height,
                numbered_cells(g).len() < u32::MAX,
                numbers@.len() == numbered_cells(g).len(),
                width * height <= usize::MAX,
                forall|k: int|
                    0 <= k < numbers@.len() ==> map@.contains_key(
                        entry_key(width as nat, #[trigger] numbers@[k]),
                    ) && map@[entry_key(width as nat, numbers@[k])] == numbers@[k].2,
                forall|k: int|
                    0 <= k < numbers@.len() ==> {
                        let t = #[trigger] numbers@[k];
                        &&& t.0 == numbered_cells(g)[k].0
                        &&& t.1 == numbered_cells(g)[k].1
                        &&& t.2 == k + 1
                    },
                0 <= row < height,
                0 <= col <= width,
                slots@ == (scan_lines(ap, width as int, row as int) + scan_line(
                    ap,
                    row as int,
                    col as int,
                )).map_values(fa),
            decreases width - col,
        {
            let ghost prefix = scan_lines(ap, width as int, row as int) + scan_line(
                ap,
                row as int,
                col as int,
            );
            let ghost next = scan_lines(ap, width as int, row as int) + scan_line(
                ap,
                row as int,
                col + 1,
            );
            if grid.is_black(row, col) || !starts_across(grid, row, col) {
                assert(next =~= prefix);
            } else {
                let mut end = col;
                while end < width && !grid.is_black(row, end)
                    invariant
                        g == grid@,
                        width == g.width,
                        col <= end <= width,
                        run_across(g, row as int, col as int) == (end - col) + run_across(
                            g,
                            row as int,
                            end as int,
                        ),
                    decreases width - end,
                {
                    end = end + 1;
                }
                let length = end - col;
                proof {
                    lemma_number_of(g, row as int, col as int);
                }
                let ghost n = number_of(g, row as int, col as int);
                assert(position_of(numbers@[n - 1]) == (row as int, col as int));
                proof {
                    lemma_index_in_range(width as nat, height as nat, row as int, col as int);
                }
                let key = row * width + col;
                assert(key == entry_key(width as nat, numbers@[n - 1]));
                let number = match map.get(&key) {
                    Some(number) => *number,
                    None => vstd::pervasive::unreached(),
                };
                assert(number == n);
                let slot = Slot { number, direction: Direction::Across, row, col, length };
                assert(slot == fa((row as int, col as int)));
                assert(next =~= prefix.push((row as int, col as int)));
                slots.push(slot);
                assert(slots@ =~= next.map_values(fa));
            }
            col = col + 1;
        }
        assert(scan_lines(ap, width as int, row + 1) =~= scan_lines(
            ap,
            width as int,
            row as int,
        ) + scan_line(ap, row as int, width as int));
        row = row + 1;
    }
    let ghost across = slots@;
    let ghost dp = down_pred(g);
    let ghost fd = |p: (int, int)| slot_at(g, Direction::Down, p.1, p.0);
    let mut col: usize = 0;
    while col < width
        invariant
            g == grid@,
            dp == down_pred(g),
            np == numbered_pred(g),
            fd == (|p: (int, int)| slot_at(g, Direction::Down, p.1, p.0)),
            width == g.width,
            height == g.height,
            numbered_cells(g).len() < u32::MAX,
            numbers@.len() == numbered_cells(g).len(),
            width * height <= usize::MAX,
            forall|k: int|
                0 <= k < numbers@.len() ==> map@.contains_key(
                    entry_key(width as nat, #[trigger] numbers@[k]),
                ) && map@[entry_key(width as nat, numbers@[k])] == numbers@[k].2,
            forall|k: int|
                0 <= k < numbers@.len() ==> {
                    let t = #[trigger] numbers@[k];
                    &&& t.0 == numbered_cells(g)[k].0
                    &&& t.1 == numbered_cells(g)[k].1
                    &&& t.2 == k + 1
                },
            0 <= col <= width,
            slots@ == across + scan_lines(dp, height as int, col as int).map_values(fd),
        decreases width - col,
    {
        let mut row: usize = 0;
        while row < height
            invariant
                g == grid@,
                dp == down_pred(g),
                np == numbered_pred(g),
                fd == (|p: (int, int)| slot_at(g, Direction::Down, p.1, p.0)),
                width == g.width,
                height == g.height,
                numbered_cells(g).len() < u32::MAX,
                numbers@.len() == numbered_cells(g).len(),
                width * height <= usize::MAX,
                forall|k: int|
                    0 <= k < numbers@.len() ==> map@.contains_key(
                        entry_key(width as nat, #[trigger] numbers@[k]),
                    ) && map@[entry_key(width as nat, numbers@[k])] == numbers@[k].2,
                forall|k: int|
                    0 <= k < numbers@.len() ==> {
                        let t = #[trigger] numbers@[k];
                        &&& t.0 == numbered_cells(g)[k].0
                        &&& t.1 == numbered_cells(g)[k].1
                        &&& t.2 == k + 1
                    },
                0 <= col < width,
                0 <= row <= height,
                slots@ == across + (scan_lines(dp, height as int, col as int) + scan_line(
                    dp,
                    col as int,
                    row as int,
                )).map_values(fd),
            decreases height - row,
        {
            let ghost prefix = scan_lines(dp, height as int, col as int) + scan_line(
                dp,
                col as int,
                row as int,
            );
            let ghost next = scan_lines(dp, height as int, col as int) + scan_line(
                dp,
                col as int,
                row + 1,
            );
            if grid.is_black(row, col) || !starts_down(grid, row, col) {
                assert(next =~= prefix);
            } else {
                let mut end = row;
                while end < height && !grid.is_black(end, col)
                    invariant
                        g == grid@,
                        height == g.height,
                        row <= end <= height,
                        run_down(g, row as int, col as int) == (end - row) + run_down(
                            g,
                            end as int,
                            col as int,
                        ),
                    decreases height - end,
                {
                    end = end + 1;
                }
                let length = end - row;
                proof {
                    lemma_number_of(g, row as int, col as int);
                }
                let ghost n = number_of(g, row as int, col as int);
                assert(position_of(numbers@[n - 1]) == (row as int, col as int));
                proof {
                    lemma_index_in_range(width as nat, height as nat, row as int, col as int);
                }
                let key = row * width + col;
                assert(key == entry_key(width as nat, numbers@[n - 1]));
                let number = match map.get(&key) {
                    Some(number) => *number,
                    None => vstd::pervasive::unreached(),
                };
                assert(number == n);
                let slot = Slot { number, direction: Direction::Down, row, col, length };
                assert(slot == fd((col as int, row as int)));
                assert(next =~= prefix.push((col as int, row as int)));
                slots.push(slot);
                assert(slots@ =~= across + next.map_values(fd));
            }
            row = row + 1;
        }
        assert(scan_lines(dp, height as int, col + 1) =~= scan_lines(
            dp,
            height as int,
            col as int,
        ) + scan_line(dp, col as int, height as int));
        col = col + 1;
    }
    assert(slots@ =~= grid_slots(g));
    slots
}

// ---------------------------------------------------------------------------
// Laws
// ---------------------------------------------------------------------------

/// The numbering lists every numbered cell once, left to right and top to
/// bottom, and nothing else: each listed cell is a white cell that starts an
/// across or a down word, the list is strictly increasing in reading order,
/// and every such cell is listed.
pub proof fn lemma_numbering_order(g: GridView)
    ensures
        forall|k: int|
            0 <= k < numbered_cells(g).len() ==> is_numbered(
                g,
                (#[trigger] numbered_cells(g)[k]).0,
                numbered_cells(g)[k].1,
            ),
        forall|i: int, j: int|
            0 <= i < j < numbered_cells(g).len() ==> reads_before(
                #[trigger] numbered_cells(g)[i],
                #[trigger] numbered_cells(g)[j],
            ),
        forall|row: int, col: int|
            #[trigger] is_numbered(g, row, col) ==> numbered_cells(g).contains((row, col)),
{
    lemma_scan_lines(numbered_pred(g), g.width as int, g.height as int);
    assert forall|k: int| 0 <= k < numbered_cells(g).len() implies is_numbered(
        g,
        (#[trigger] numbered_cells(g)[k]).0,
        numbered_cells(g)[k].1,
    ) by {
        let p = numbered_cells(g)[k];
        assert(numbered_pred(g)(p.0, p.1));
    }
    assert forall|row: int, col: int| #[trigger]
        is_numbered(g, row, col) implies numbered_cells(g).contains((row, col)) by {
        assert(numbered_pred(g)(row, col));
    }
}

/// The `i`-th cell of `slot`, counting from its start.
pub open spec fn slot_cell(slot: Slot, i: int) -> (int, int) {
    match slot.direction {
        Direction::Across => (slot.row as int, slot.col + i),
        Direction::Down => (slot.row + i, slot.col as int),
    }
}

/// The position just before the start of `slot` (it may lie outside the
/// grid).
pub open spec fn before_slot(slot: Slot) -> (int, int) {
    slot_cell(slot, -1)
}

pub proof fn lemma_run_across(g: GridView, row: int, col: int)
    requires
        0 <= row < g.height,
        0 <= col <= g.width,
    ensures
        run_across(g, row, col) <= g.width - col,
        forall|i: int| 0 <= i < run_across(g, row, col) ==> #[trigger] g.is_white(row, col + i),
        !g.is_white(row, col + run_across(g, row, col)),
    decreases g.width - col,
{
    if col < g.width && !g.is_black(row, col) {
        lemma_run_across(g, row, col + 1);
        assert forall|i: int| 0 <= i < run_across(g, row, col) implies #[trigger] g.is_white(
            row,
            col + i,
        ) by {
            if i > 0 {
                assert(g.is_white(row, (col + 1) + (i - 1)));
            }
        }
    }
}

pub proof fn lemma_run_down(g: GridView, row: int, col: int)
    requires
        0 <= row <= g.height,
        0 <= col < g.width,
    ensures
        run_down(g, row, col) <= g.height - row,
        forall|i: int| 0 <= i < run_down(g, row, col) ==> #[trigger] g.is_white(row + i, col),
        !g.is_white(row + run_down(g, row, col), col),
    decreases g.height - row,
{
    if row < g.height && !g.is_black(row, col) {
        lemma_run_down(g, row + 1, col);
        assert forall|i: int| 0 <= i < run_down(g, row, col) implies #[trigger] g.is_white(
            row + i,
            col,
        ) by {
            if i > 0 {
                assert(g.is_white((row + 1) + (i - 1), col));
            }
        }
    }
}

/// A white run reaches at least as far as the white cells that follow its
/// start without a gap.
pub proof fn lemma_run_across_reaches(g: GridView, row: int, a: int, b: int)
    requires
        0 <= a <= b,
        forall|j: int| a <= j <= b ==> #[trigger] g.is_white(row, j),
    ensures
        run_across(g, row, a) > b - a,
    decreases b - a,
{
    if a < b {
        lemma_run_across_reaches(g, row, a + 1, b);
    }
    assert(g.is_white(row, a));
}

pub proof fn lemma_run_down_reaches(g: GridView, col: int, a: int, b: int)
    requires
        0 <= a <= b,
        forall|j: int| a <= j <= b ==> #[trigger] g.is_white(j, col),
    ensures
        run_down(g, a, col) > b - a,
    decreases b - a,
{
    if a < b {
        lemma_run_down_reaches(g, col, a + 1, b);
    }
    assert(g.is_white(a, col));
}

/// Every slot is a maximal run of two or more white cells: its cells are
/// white, and the positions just before its start and just after its end are
/// black squares or off the grid.
pub proof fn lemma_slots_are_maximal_runs(g: GridView)
    requires
        g.wf(),
    ensures
        forall|k: int|
            0 <= k < grid_slots(g).len() ==> {
                let s = #[trigger] grid_slots(g)[k];
                &&& s.length >= 2
                &&& forall|i: int|
                    0 <= i < s.length ==> g.is_white(
                        #[trigger] slot_cell(s, i).0,
                        slot_cell(s, i).1,
                    )
                &&& !g.is_white(before_slot(s).0, before_slot(s).1)
                &&& !g.is_white(slot_cell(s, s.length as int).0, slot_cell(s, s.length as int).1)
            },
{
    let across = across_starts(g);
    let down = down_starts(g);
    lemma_scan_lines(across_pred(g), g.width as int, g.height as int);
    lemma_scan_lines(down_pred(g), g.height as int, g.width as int);
    let slots = grid_slots(g);
    assert forall|k: int| 0 <= k < slots.len() implies {
        let s = #[trigger] slots[k];
        &&& s.length >= 2
        &&& forall|i: int|
            0 <= i < s.length ==> g.is_white(#[trigger] slot_cell(s, i).0, slot_cell(s, i).1)
        &&& !g.is_white(before_slot(s).0, before_slot(s).1)
        &&& !g.is_white(slot_cell(s, s.length as int).0, slot_cell(s, s.length as int).1)
    } by {
        let s = slots[k];
        if k < across.len() {
            let p = across[k];
            assert(s == slot_at(g, Direction::Across, p.0, p.1));
            assert(across_pred(g)(p.0, p.1));
            lemma_run_across(g, p.0, p.1);
            assert(g.is_white(p.0, p.1 + 1));
            lemma_run_across_reaches(g, p.0, p.1, p.1 + 1);
            assert forall|i: int| 0 <= i < s.length implies g.is_white(
                #[trigger] slot_cell(s, i).0,
                slot_cell(s, i).1,
            ) by {
                assert(g.is_white(p.0, p.1 + i));
            }
        } else {
            let p = down[k - across.len()];
            assert(s == slot_at(g, Direction::Down, p.1, p.0));
            assert(down_pred(g)(p.0, p.1));
            lemma_run_down(g, p.1, p.0);
            assert(g.is_white(p.1 + 1, p.0));
            lemma_run_down_reaches(g, p.0, p.1, p.1 + 1);
            assert forall|i: int| 0 <= i < s.length implies g.is_white(
                #[trigger] slot_cell(s, i).0,
                slot_cell(s, i).1,
            ) by {
                assert(g.is_white(p.1 + i, p.0));
            }
        }
    }
}

/// Every white cell that starts an across (down) word starts an across
/// (down) slot.
pub proof fn lemma_every_run_is_a_slot(g: GridView)
    ensures
        forall|row: int, col: int|
            g.in_bounds(row, col) && !g.is_black(row, col) && #[trigger] starts_across_at(
                g,
                row,
                col,
            ) ==> grid_slots(g).contains(slot_at(g, Direction::Across, row, col)),
        forall|row: int, col: int|
            g.in_bounds(row, col) && !g.is_black(row, col) && #[trigger] starts_down_at(
                g,
                row,
                col,
            ) ==> grid_slots(g).contains(slot_at(g, Direction::Down, row, col)),
{
    let across = across_starts(g);
    let down = down_starts(g);
    lemma_scan_lines(across_pred(g), g.width as int, g.height as int);
    lemma_scan_lines(down_pred(g), g.height as int, g.width as int);
    let slots = grid_slots(g);
    assert forall|row: int, col: int|
        g.in_bounds(row, col) && !g.is_black(row, col) && #[trigger] starts_across_at(
            g,
            row,
            col,
        ) implies slots.contains(slot_at(g, Direction::Across, row, col)) by {
        assert(across_pred(g)(row, col));
        assert(across.contains((row, col)));
        let k = choose|k: int| 0 <= k < across.len() && across[k] == (row, col);
        assert(slots[k] == slot_at(g, Direction::Across, row, col));
    }
    assert forall|row: int, col: int|
        g.in_bounds(row, col) && !g.is_black(row, col) && #[trigger] starts_down_at(
            g,
            row,
            col,
        ) implies slots.contains(slot_at(g, Direction::Down, row, col)) by {
        assert(down_pred(g)(col, row));
        assert(down.contains((col, row)));
        let k = choose|k: int| 0 <= k < down.len() && down[k] == (col, row);
        assert(slots[across.len() + k] == slot_at(g, Direction::Down, row, col));
    }
}

/// Every maximal run of two or more white cells is a slot: a white cell
/// with no white cell before it and a white cell after it, in its row
/// (column), starts an across (down) slot in `grid_slots`.
pub proof fn lemma_runs_start_slots(g: GridView)
    ensures
        forall|row: int, col: int|
            #[trigger] g.is_white(row, col) && !g.is_white(row, col - 1) && g.is_white(row, col + 1)
                ==> grid_slots(g).contains(slot_at(g, Direction::Across, row, col)),
        forall|row: int, col: int|
            #[trigger] g.is_white(row, col) && !g.is_white(row - 1, col) && g.is_white(row + 1, col)
                ==> grid_slots(g).contains(slot_at(g, Direction::Down, row, col)),
{
    lemma_every_run_is_a_slot(g);
    assert forall|row: int, col: int|
        #[trigger] g.is_white(row, col) && !g.is_white(row, col - 1) && g.is_white(
            row,
            col + 1,
        ) implies grid_slots(g).contains(slot_at(g, Direction::Across, row, col)) by {
        assert(starts_across_at(g, row, col));
    }
    assert forall|row: int, col: int|
        #[trigger] g.is_white(row, col) && !g.is_white(row - 1, col) && g.is_white(
            row + 1,
            col,
        ) implies grid_slots(g).contains(slot_at(g, Direction::Down, row, col)) by {
        assert(starts_down_at(g, row, col));
    }
}

/// The order of the slots: the across slots come first, in reading order
/// of their starts (row by row, left to right), then the down slots, in
/// column order of their starts (column by column, top to bottom).
pub proof fn lemma_slot_order(g: GridView)
    requires
        g.wf(),
    ensures
        forall|i: int, j: int|
            0 <= i < j < grid_slots(g).len() ==> {
                let a = #[trigger] grid_slots(g)[i];
                let b = #[trigger] grid_slots(g)[j];
                ||| (a.direction == Direction::Across && b.direction == Direction::Across
                    && reads_before((a.row as int, a.col as int), (b.row as int, b.col as int)))
                ||| (a.direction == Direction::Across && b.direction == Direction::Down)
                ||| (a.direction == Direction::Down && b.direction == Direction::Down
                    && reads_before((a.col as int, a.row as int), (b.col as int, b.row as int)))
            },
{
    let across = across_starts(g);
    let down = down_starts(g);
    lemma_scan_lines(across_pred(g), g.width as int, g.height as int);
    lemma_scan_lines(down_pred(g), g.height as int, g.width as int);
    let slots = grid_slots(g);
    assert forall|i: int, j: int| 0 <= i < j < slots.len() implies {
        let a = #[trigger] slots[i];
        let b = #[trigger] slots[j];
        ||| (a.direction == Direction::Across && b.direction == Direction::Across
            && reads_before((a.row as int, a.col as int), (b.row as int, b.col as int)))
        ||| (a.direction == Direction::Across && b.direction == Direction::Down)
        ||| (a.direction == Direction::Down && b.direction == Direction::Down
            && reads_before((a.col as int, a.row as int), (b.col as int, b.row as int)))
    } by {
        if j < across.len() {
            assert(reads_before(across[i], across[j]));
        } else if i >= across.len() {
            assert(reads_before(down[i - across.len()], down[j - across.len()]));
        }
    }
}

/// A slot carries the number that the numbering gives its first cell.
pub proof fn lemma_slot_numbers(g: GridView)
    requires
        g.wf(),
        numbered_cells(g).len() < u32::MAX,
    ensures
        forall|k: int|
            0 <= k < grid_slots(g).len() ==> {
                let s = #[trigger] grid_slots(g)[k];
                &&& 1 <= s.number <= numbered_cells(g).len()
                &&& numbered_cells(g)[s.number - 1] == (s.row as int, s.col as int)
            },
{
    let across = across_starts(g);
    let down = down_starts(g);
    lemma_scan_lines(across_pred(g), g.width as int, g.height as int);
    lemma_scan_lines(down_pred(g), g.height as int, g.width as int);
    let slots = grid_slots(g);
    assert forall|k: int| 0 <= k < slots.len() implies {
        let s = #[trigger] slots[k];
        &&& 1 <= s.number <= numbered_cells(g).len()
        &&& numbered_cells(g)[s.number - 1] == (s.row as int, s.col as int)
    } by {
        if k < across.len() {
            let p = across[k];
            assert(across_pred(g)(p.0, p.1));
            lemma_number_of(g, p.0, p.1);
        } else {
            let p = down[k - across.len()];
            assert(down_pred(g)(p.0, p.1));
            lemma_number_of(g, p.1, p.0);
        }
    }
}

/// The direction of the slot that a numbered cell is sure to start: across
/// where it starts an across word, down otherwise.
pub open spec fn start_direction(g: GridView, row: int, col: int) -> Direction {
    if starts_across_at(g, row, col) {
        Direction::Across
    } else {
        Direction::Down
    }
}

/// Slots and numbering point at each other: every slot starts at entry
/// `number - 1` of the numbering, and every entry `j` of the numbering
/// starts a slot that carries the number `j + 1`. (`number_cells` gives
/// entry `j` of `numbered_cells` the number `j + 1`; `word_slots` lists
/// `grid_slots`.)
pub proof fn lemma_slots_match_numbering(g: GridView)
    requires
        g.wf(),
        numbered_cells(g).len() < u32::MAX,
    ensures
        forall|k: int|
            0 <= k < grid_slots(g).len() ==> {
                let s = #[trigger] grid_slots(g)[k];
                &&& 1 <= s.number <= numbered_cells(g).len()
                &&& numbered_cells(g)[s.number - 1] == (s.row as int, s.col as int)
            },
        forall|j: int|
            0 <= j < numbered_cells(g).len() ==> {
                let p = #[trigger] numbered_cells(g)[j];
                let s = slot_at(g, start_direction(g, p.0, p.1), p.0, p.1);
                &&& grid_slots(g).contains(s)
                &&& s.row == p.0
                &&& s.col == p.1
                &&& s.number == j + 1
            },
{
    lemma_slot_numbers(g);
    lemma_numbering_order(g);
    lemma_every_run_is_a_slot(g);
    let nc = numbered_cells(g);
    assert forall|j: int| 0 <= j < nc.len() implies {
        let p = #[trigger] nc[j];
        let s = slot_at(g, start_direction(g, p.0, p.1), p.0, p.1);
        &&& grid_slots(g).contains(s)
        &&& s.row == p.0
        &&& s.col == p.1
        &&& s.number == j + 1
    } by {
        let r = nc[j].0;
        let c = nc[j].1;
        assert(is_numbered(g, r, c));
        lemma_number_of(g, r, c);
        let n = number_of(g, r, c);
        if n - 1 < j {
            assert(reads_before(nc[n - 1], nc[j]));
        } else if n - 1 > j {
            assert(reads_before(nc[j], nc[n - 1]));
        }
        assert(g.in_bounds(r, c));
    }
}

/// Walking left from a white cell that has a white neighbor in its row
/// reaches the start of an across slot, with only white cells in between.
proof fn lemma_across_start_left_of(g: GridView, row: int, col: int)
    requires
        g.is_white(row, col),
        g.is_white(row, col - 1) || g.is_white(row, col + 1),
    ensures
        exists|c0: int|
            0 <= c0 <= col && #[trigger] across_pred(g)(row, c0) && forall|j: int|
                c0 <= j <= col ==> #[trigger] g.is_white(row, j),
    decreases col,
{
    if g.is_white(row, col - 1) {
        lemma_across_start_left_of(g, row, col - 1);
        let c0 = choose|c0: int|
            0 <= c0 <= col - 1 && #[trigger] across_pred(g)(row, c0) && forall|j: int|
                c0 <= j <= col - 1 ==> #[trigger] g.is_white(row, j);
        assert(forall|j: int| c0 <= j <= col ==> #[trigger] g.is_white(row, j));
    } else {
        assert(across_pred(g)(row, col));
        assert(forall|j: int| col <= j <= col ==> #[trigger] g.is_white(row, j));
    }
}

/// Walking up from a white cell that has a white neighbor in its column
/// reaches the start of a down slot, with only white cells in between.
proof fn lemma_down_start_above(g: GridView, row: int, col: int)
    requires
        g.is_white(row, col),
        g.is_white(row - 1, col) || g.is_white(row + 1, col),
    ensures
        exists|r0: int|
            0 <= r0 <= row && #[trigger] down_pred(g)(col, r0) && forall|j: int|
                r0 <= j <= row ==> #[trigger] g.is_white(j, col),
    decreases row,
{
    if g.is_white(row - 1, col) {
        lemma_down_start_above(g, row - 1, col);
        let r0 = choose|r0: int|
            0 <= r0 <= row - 1 && #[trigger] down_pred(g)(col, r0) && forall|j: int|
                r0 <= j <= row - 1 ==> #[trigger] g.is_white(j, col);
        assert(forall|j: int| r0 <= j <= row ==> #[trigger] g.is_white(j, col));
    } else {
        assert(down_pred(g)(col, row));
        assert(forall|j: int| row <= j <= row ==> #[trigger] g.is_white(j, col));
    }
}

/// In a grid where no white cell is boxed in on all four sides, every white
/// cell belongs to some word slot.
pub proof fn lemma_white_cells_in_slots(g: GridView)
    requires
        g.wf(),
        forall|row: int, col: int| #[trigger] g.is_white(row, col) ==> !g.is_boxed_in(row, col),
    ensures
        forall|row: int, col: int|
            #[trigger] g.is_white(row, col) ==> exists|k: int|
                0 <= k < grid_slots(g).len() && covers(#[trigger] grid_slots(g)[k], row, col),
{
    let across = across_starts(g);
    let down = down_starts(g);
    lemma_scan_lines(across_pred(g), g.width as int, g.height as int);
    lemma_scan_lines(down_pred(g), g.height as int, g.width as int);
    let slots = grid_slots(g);
    assert forall|row: int, col: int| #[trigger] g.is_white(row, col) implies exists|k: int|
        0 <= k < slots.len() && covers(#[trigger] slots[k], row, col) by {
        assert(!g.is_boxed_in(row, col));
        if g.is_white(row, col - 1) || g.is_white(row, col + 1) {
            lemma_across_start_left_of(g, row, col);
            let c0 = choose|c0: int|
                0 <= c0 <= col && #[trigger] across_pred(g)(row, c0) && forall|j: int|
                    c0 <= j <= col ==> #[trigger] g.is_white(row, j);
            assert(across.contains((row, c0)));
            let k = choose|k: int| 0 <= k < across.len() && across[k] == (row, c0);
            lemma_run_across_reaches(g, row, c0, col);
            lemma_run_across(g, row, c0);
            assert(slots[k] == slot_at(g, Direction::Across, row, c0));
            assert(covers(slots[k], row, col));
        } else {
            assert(g.is_white(row - 1, col) || g.is_white(row + 1, col));
            lemma_down_start_above(g, row, col);
            let r0 = choose|r0: int|
                0 <= r0 <= row && #[trigger] down_pred(g)(col, r0) && forall|j: int|
                    r0 <= j <= row ==> #[trigger] g.is_white(j, col);
            assert(down.contains((col, r0)));
            let k = choose|k: int| 0 <= k < down.len() && down[k] == (col, r0);
            lemma_run_down_reaches(g, col, r0, row);
            lemma_run_down(g, r0, col);
            assert(slots[across.len() + k] == slot_at(g, Direction::Down, r0, col));
            assert(covers(slots[across.len() + k], row, col));
        }
    }
}

} // verus!
