use vstd::prelude::*;

use crate::grid::{
    cell_at, count_black, lemma_cells_by_position, lemma_index_in_range, lemma_index_injective, Cell,
    Grid, GridView,
};
use crate::numbering::{covers, grid_slots, lemma_white_cells_in_slots};

verus! {

#[derive(Debug, Clone, Copy, PartialEq, Eq, Structural)]
pub enum GenerateError {
    InvalidDimensions,
    InvalidRatio,
}

impl GenerateError {
    /// What went wrong, in words.
    pub fn message(&self) -> (m: String)
        ensures
            m@ == match *self {
                GenerateError::InvalidDimensions => "width and height must both be at least 1"@,
                GenerateError::InvalidRatio => "black_ratio must be between 0.0 and 1.0"@,
            },
    {
        match self {
            GenerateError::InvalidDimensions => "width and height must both be at least 1".to_owned(),
            GenerateError::InvalidRatio => "black_ratio must be between 0.0 and 1.0".to_owned(),
        }
    }
}

/// The black-square density is given in units of 2^-53: a density of
/// `UNIT` means 1.0, every square black.
pub const UNIT: u64 = 9007199254740992;

pub const GOLDEN_GAMMA: u64 = 0x9E37_79B9_7F4A_7C15;

pub const MIX_MUL_1: u64 = 0xBF58_476D_1CE4_E5B9;

pub const MIX_MUL_2: u64 = 0x94D0_49BB_1331_11EB;

/// The state of the SplitMix64 generator after `steps` steps from `seed`.
pub open spec fn rng_state(seed: u64, steps: nat) -> u64
    decreases steps,
{
    if steps == 0 {
        seed
    } else {
        vstd::wrapping::u64_specs::wrapping_add(rng_state(seed, (steps - 1) as nat), GOLDEN_GAMMA)
    }
}

/// After `steps` steps from `seed`, the generator's state is
/// `seed + steps * GOLDEN_GAMMA` modulo 2^64.
pub proof fn lemma_rng_state_closed_form(seed: u64, steps: nat)
    ensures
        rng_state(seed, steps) as int == (seed + steps * GOLDEN_GAMMA) % 0x1_0000_0000_0000_0000,
    decreases steps,
{
    let m: int = 0x1_0000_0000_0000_0000;
    if steps == 0 {
        vstd::arithmetic::div_mod::lemma_small_mod(seed as nat, m as nat);
    } else {
        lemma_rng_state_closed_form(seed, (steps - 1) as nat);
        let prev = rng_state(seed, (steps - 1) as nat) as int;
        let g = GOLDEN_GAMMA as int;
        let a = seed + (steps - 1) * g;
        assert(vstd::wrapping::u64_specs::wrapping_add(prev as u64, GOLDEN_GAMMA) as int == (prev
            + g) % m) by {
            if prev + g > u64::MAX {
                vstd::arithmetic::div_mod::lemma_fundamental_div_mod(prev + g, m);
                vstd::arithmetic::div_mod::lemma_mod_pos_bound(prev + g, m);
                assert((prev + g) / m == 1) by {
                    vstd::arithmetic::div_mod::lemma_div_is_ordered(m, prev + g, m);
                    vstd::arithmetic::div_mod::lemma_div_by_self(m);
                    vstd::arithmetic::div_mod::lemma_div_is_ordered(prev + g, 2 * m - 1, m);
                    vstd::arithmetic::div_mod::lemma_fundamental_div_mod(2 * m - 1, m);
                    vstd::arithmetic::div_mod::lemma_mod_pos_bound(2 * m - 1, m);
                }
            } else {
                vstd::arithmetic::div_mod::lemma_small_mod((prev + g) as nat, m as nat);
            }
        }
        vstd::arithmetic::div_mod::lemma_add_mod_noop(a, g, m);
        vstd::arithmetic::div_mod::lemma_small_mod(g as nat, m as nat);
        assert(a + g == seed + steps * g) by (nonlinear_arith)
            requires
                a == seed + (steps - 1) * g,
        ;
    }
}

/// The SplitMix64 output for a given state.
pub open spec fn mix(state: u64) -> u64 {
    let z1 = vstd::wrapping::u64_specs::wrapping_mul(state ^ (state >> 30u64), MIX_MUL_1);
    let z2 = vstd::wrapping::u64_specs::wrapping_mul(z1 ^ (z1 >> 27u64), MIX_MUL_2);
    z2 ^ (z2 >> 31u64)
}

/// The `k`-th coin (counting from 0) drawn from `seed`: the top 53 bits of
/// the generator's `k + 1`-th output, a numerator over 2^53.
pub open spec fn coin(seed: u64, k: nat) -> u64 {
    mix(rng_state(seed, k + 1)) >> 11u64
}

/// A minimal SplitMix64 generator. Its only job is to make `generate` a
/// pure function of its seed - same inputs, same layout, every time.
pub struct Rng {
    state: u64,
}

impl Rng {
    pub closed spec fn state(&self) -> u64 {
        self.state
    }

    pub fn new(seed: u64) -> (rng: Rng)
        ensures
            rng.state() == seed,
    {
        Rng { state: seed }
    }

    pub fn next_u64(&mut self) -> (r: u64)
        ensures
            final(self).state() == vstd::wrapping::u64_specs::wrapping_add(
                old(self).state(),
                GOLDEN_GAMMA,
            ),
            r == mix(final(self).state()),
    {
        self.state = self.state.wrapping_add(GOLDEN_GAMMA);
        let mut z = self.state;
        z = (z ^ (z >> 30)).wrapping_mul(MIX_MUL_1);
        z = (z ^ (z >> 27)).wrapping_mul(MIX_MUL_2);
        z ^ (z >> 31)
    }

    /// The numerator `k` of the next value `k / 2^53` in `[0.0, 1.0)`.
    pub fn next_unit(&mut self) -> (k: u64)
        ensures
            final(self).state() == vstd::wrapping::u64_specs::wrapping_add(
                old(self).state(),
                GOLDEN_GAMMA,
            ),
            k == mix(final(self).state()) >> 11u64,
            k < UNIT,
    {
        let z = self.next_u64();
        assert(z >> 11u64 < 9007199254740992u64) by (bit_vector);
        z >> 11
    }
}

/// The flat index of the cell that (`row`, `col`) turns into under a
/// 180-degree rotation.
pub open spec fn mirror_index(width: nat, height: nat, row: int, col: int) -> int {
    (height - 1 - row) * width + (width - 1 - col)
}

/// The layout after black squares are drawn in mirrored pairs: cell `i` and
/// cell `n - 1 - i` share the coin drawn for the smaller of the two indices.
pub open spec fn drawn_layout(width: nat, height: nat, black_units: u64, seed: u64) -> GridView {
    let n = width * height;
    GridView {
        width,
        height,
        cells: Seq::new(
            n,
            |i: int|
                {
                    let j = if i <= n - 1 - i {
                        i
                    } else {
                        n - 1 - i
                    };
                    if coin(seed, j as nat) < black_units {
                        Cell::Black
                    } else {
                        Cell::White(None)
                    }
                },
        ),
    }
}

/// The cell at (`row`, `col`) of the generated layout: black where the
/// drawn layout is black, or where its white cell is boxed in.
pub open spec fn generated_cell(
    width: nat,
    height: nat,
    black_units: u64,
    seed: u64,
    row: int,
    col: int,
) -> Cell {
    let d = drawn_layout(width, height, black_units, seed);
    if d.is_black(row, col) || d.is_boxed_in(row, col) {
        Cell::Black
    } else {
        Cell::White(None)
    }
}

/// What `generate` answers for its arguments, the grid given by its cells.
pub open spec fn generate_result(
    width: nat,
    height: nat,
    black_units: u64,
    seed: u64,
    res: Result<GridView, GenerateError>,
) -> bool {
    match res {
        Ok(g) => {
            &&& width > 0 && height > 0 && black_units <= UNIT
            &&& g.wf()
            &&& g.width == width
            &&& g.height == height
            &&& forall|row: int, col: int|
                g.in_bounds(row, col) ==> #[trigger] g.cell(row, col) == generated_cell(
                    width,
                    height,
                    black_units,
                    seed,
                    row,
                    col,
                )
        },
        Err(GenerateError::InvalidDimensions) => width == 0 || height == 0,
        Err(GenerateError::InvalidRatio) => width > 0 && height > 0 && black_units > UNIT,
    }
}

pub open spec fn grid_result(res: Result<Grid, GenerateError>) -> Result<GridView, GenerateError> {
    match res {
        Ok(g) => Ok(g@),
        Err(e) => Err(e),
    }
}

proof fn lemma_mirror_index(width: nat, height: nat, row: int, col: int)
    requires
        0 <= row < height,
        0 <= col < width,
    ensures
        mirror_index(width, height, row, col) == width * height - 1 - (row * width + col),
        0 <= mirror_index(width, height, row, col) < width * height,
{
    assert((height - 1 - row) * width + (width - 1 - col) == width * height - 1 - (row * width
        + col)) by (nonlinear_arith);
    lemma_index_in_range(width, height, row, col);
}

/// The drawn layout's cell at (`row`, `col`).
proof fn lemma_drawn_cell(width: nat, height: nat, black_units: u64, seed: u64, row: int, col: int)
    requires
        0 <= row < height,
        0 <= col < width,
    ensures
        ({
            let d = drawn_layout(width, height, black_units, seed);
            let i = row * width + col;
            let n = width * height;
            let j = if i <= n - 1 - i {
                i
            } else {
                n - 1 - i
            };
            &&& d.cell(row, col) == if coin(seed, j as nat) < black_units {
                Cell::Black
            } else {
                Cell::White(None)
            }
        }),
{
    lemma_index_in_range(width, height, row, col);
}

/// The drawn layout reads the same when rotated 180 degrees.
proof fn lemma_drawn_symmetric(
    width: nat,
    height: nat,
    black_units: u64,
    seed: u64,
    row: int,
    col: int,
)
    requires
        0 <= row < height,
        0 <= col < width,
    ensures
        drawn_layout(width, height, black_units, seed).cell(row, col) == drawn_layout(
            width,
            height,
            black_units,
            seed,
        ).cell(height - 1 - row, width - 1 - col),
{
    lemma_mirror_index(width, height, row, col);
    lemma_drawn_cell(width, height, black_units, seed, row, col);
    lemma_drawn_cell(width, height, black_units, seed, height - 1 - row, width - 1 - col);
}

proof fn lemma_drawn_black_symmetric(width: nat, height: nat, black_units: u64, seed: u64)
    ensures
        forall|row: int, col: int|
            0 <= row < height && 0 <= col < width ==> #[trigger] drawn_layout(
                width,
                height,
                black_units,
                seed,
            ).is_black(row, col) == drawn_layout(width, height, black_units, seed).is_black(
                height - 1 - row,
                width - 1 - col,
            ),
{
    assert forall|row: int, col: int| 0 <= row < height && 0 <= col < width implies #[trigger] drawn_layout(
        width,
        height,
        black_units,
        seed,
    ).is_black(row, col) == drawn_layout(width, height, black_units, seed).is_black(
        height - 1 - row,
        width - 1 - col,
    ) by {
        lemma_drawn_symmetric(width, height, black_units, seed, row, col);
    }
}

/// In the drawn layout, a cell is boxed in exactly when its mirror is.
proof fn lemma_boxed_in_symmetric(
    width: nat,
    height: nat,
    black_units: u64,
    seed: u64,
    row: int,
    col: int,
)
    requires
        0 <= row < height,
        0 <= col < width,
    ensures
        drawn_layout(width, height, black_units, seed).is_boxed_in(row, col) == drawn_layout(
            width,
            height,
            black_units,
            seed,
        ).is_boxed_in(height - 1 - row, width - 1 - col),
{
    lemma_drawn_black_symmetric(width, height, black_units, seed);
    let d = drawn_layout(width, height, black_units, seed);
    let mr = height - 1 - row;
    let mc = width - 1 - col;
    assert(d.is_black(row, col - 1) == d.is_black(mr, mc + 1));
    assert(d.is_black(row, col + 1) == d.is_black(mr, mc - 1));
    assert(d.is_black(row - 1, col) == d.is_black(mr + 1, mc));
    assert(d.is_black(row + 1, col) == d.is_black(mr - 1, mc));
}

/// How many coins have been drawn once the cells before index `cur` of a
/// grid of `n` cells have been visited: one for each index up to the middle.
pub open spec fn draws_before(n: int, cur: int) -> int {
    if cur <= (n + 1) / 2 {
        cur
    } else {
        (n + 1) / 2
    }
}

/// Cell `i` of `n` once the drawing pass has visited the indices before
/// `cur`.
pub open spec fn drawn_prefix_cell(n: int, cur: int, black_units: u64, seed: u64, i: int) -> Cell {
    let j = if i <= n - 1 - i {
        i
    } else {
        n - 1 - i
    };
    if j < cur && coin(seed, j as nat) < black_units {
        Cell::Black
    } else {
        Cell::White(None)
    }
}

/// The cell at (`row`, `col`) once the filling pass has visited the indices
/// before `cur`: the boxed-in white cells visited so far, and their mirrors,
/// have turned black.
pub open spec fn filled_cell(d: GridView, cur: int, row: int, col: int) -> Cell {
    if d.is_black(row, col) || (d.is_boxed_in(row, col) && (row * d.width + col < cur
        || mirror_index(d.width, d.height, row, col) < cur)) {
        Cell::Black
    } else {
        Cell::White(None)
    }
}

/// A cell of a grid whose black squares are the drawn layout's plus some of
/// its boxed-in cells: if the cell is white, it is boxed in exactly when it is
/// boxed in in the drawn layout.
proof fn lemma_boxed_in_kept(d: GridView, v: GridView, row: int, col: int)
    requires
        v.width == d.width,
        v.height == d.height,
        forall|r: int, c: int| d.in_bounds(r, c) ==> #[trigger] v.is_black(r, c) == (
            d.is_black(r, c) || (v.is_black(r, c) && d.is_boxed_in(r, c))),
        d.in_bounds(row, col),
        !v.is_black(row, col),
    ensures
        v.is_boxed_in(row, col) == d.is_boxed_in(row, col),
{
    assert(v.is_black(row, col) == (d.is_black(row, col) || (v.is_black(row, col)
        && d.is_boxed_in(row, col))));
    if col > 0 {
        let r = row;
        let c = col - 1;
        assert(v.is_black(r, c) == (d.is_black(r, c) || (v.is_black(r, c) && d.is_boxed_in(r, c))));
    }
    if col + 1 < d.width {
        let r = row;
        let c = col + 1;
        assert(v.is_black(r, c) == (d.is_black(r, c) || (v.is_black(r, c) && d.is_boxed_in(r, c))));
    }
    if row > 0 {
        let r = row - 1;
        let c = col;
        assert(v.is_black(r, c) == (d.is_black(r, c) || (v.is_black(r, c) && d.is_boxed_in(r, c))));
    }
    if row + 1 < d.height {
        let r = row + 1;
        let c = col;
        assert(v.is_black(r, c) == (d.is_black(r, c) || (v.is_black(r, c) && d.is_boxed_in(r, c))));
    }
}

fn black_at(cells: &Vec<Cell>, i: usize) -> (b: bool)
    requires
        i < cells@.len(),
    ensures
        b == cells@[i as int] is Black,
{
    matches!(cells[i], Cell::Black)
}

/// True if every side of (`row`, `col`) is either the grid edge or a black
/// square, meaning the cell could never be part of an across or down word.
fn is_isolated(cells: &Vec<Cell>, width: usize, height: usize, row: usize, col: usize) -> (b: bool)
    requires
        cells@.len() == width * height,
        row < height,
        col < width,
    ensures
        b == (GridView { width: width as nat, height: height as nat, cells: cells@ }).is_boxed_in(
            row as int,
            col as int,
        ),
{
    // Asking for the length brings in that it fits in a `usize`.
    let _ = cells.len();
    proof {
        lemma_index_in_range(width as nat, height as nat, row as int, col as int);
    }
    let idx = row * width + col;
    proof {
        if col + 1 < width {
            lemma_index_in_range(width as nat, height as nat, row as int, col + 1);
        }
    }
    let left_blocked = col == 0 || black_at(cells, idx - 1);
    let right_blocked = col + 1 == width || black_at(cells, idx + 1);
    proof {
        if row > 0 {
            lemma_index_in_range(width as nat, height as nat, row - 1, col as int);
            assert((row - 1) * width + col == idx - width) by (nonlinear_arith)
                requires
                    idx == row * width + col,
            ;
        }
        if row + 1 < height {
            lemma_index_in_range(width as nat, height as nat, row + 1, col as int);
            assert((row + 1) * width + col == idx + width) by (nonlinear_arith)
                requires
                    idx == row * width + col,
            ;
        }
    }
    let up_blocked = row == 0 || black_at(cells, idx - width);
    let down_blocked = row + 1 == height || black_at(cells, idx + width);
    left_blocked && right_blocked && up_blocked && down_blocked
}

/// Generates a grid with 180-degree rotational symmetry whose black-square
/// density is about `black_units / UNIT` (at most `UNIT`). The `seed` picks
/// which layout to produce among all symmetric layouts at that density; the
/// same width, height, density, and seed always produce the same grid.
///
/// Black squares are chosen in mirrored pairs: a coin numerator is drawn for
/// each cell of the first half in reading order, and the cell and its mirror
/// turn black when it is below `black_units`. Afterward, any white cell
/// that ended up boxed in by black squares (or the grid edge) on all four
/// sides is converted to black too, since such a cell could never belong to
/// any word.
pub fn generate(width: usize, height: usize, black_units: u64, seed: u64) -> (res: Result<
    Grid,
    GenerateError,
>)
    requires
        width * height <= usize::MAX,
    ensures
        generate_result(width as nat, height as nat, black_units, seed, grid_result(res)),
{
    if width == 0 || height == 0 {
        return Err(GenerateError::InvalidDimensions);
    }
    if black_units > UNIT {
        return Err(GenerateError::InvalidRatio);
    }
    let n = width * height;
    let ghost w = width as nat;
    let ghost h = height as nat;
    let ghost d = drawn_layout(w, h, black_units, seed);
    let mut cells = vec![Cell::White(None); n];
    let mut rng = Rng::new(seed);
    let mut row: usize = 0;
    while row < height
        invariant
            n == width * height,
            w == width,
            h == height,
            0 < width,
            0 < height,
            0 <= row <= height,
            cells@.len() == n,
            rng.state() == rng_state(seed, draws_before(n as int, row * width) as nat),
            forall|i: int| 0 <= i < n ==> #[trigger] cells@[i] == drawn_prefix_cell(
                n as int,
                row * width,
                black_units,
                seed,
                i,
            ),
        decreases height - row,
    {
        let mut col: usize = 0;
        while col < width
            invariant
                n == width * height,
                w == width,
                h == height,
                0 < width,
                0 <= row < height,
                0 <= col <= width,
                cells@.len() == n,
                rng.state() == rng_state(seed, draws_before(n as int, row * width + col) as nat),
                forall|i: int| 0 <= i < n ==> #[trigger] cells@[i] == drawn_prefix_cell(
                    n as int,
                    row * width + col,
                    black_units,
                    seed,
                    i,
                ),
            decreases width - col,
        {
            proof {
                lemma_index_in_range(w, h, row as int, col as int);
            }
            let idx = row * width + col;
            let mirror = n - 1 - idx;
            if idx > mirror {
                assert forall|i: int| 0 <= i < n implies #[trigger] cells@[i] == drawn_prefix_cell(
                    n as int,
                    idx + 1,
                    black_units,
                    seed,
                    i,
                ) by {
                    assert(cells@[i] == drawn_prefix_cell(n as int, idx as int, black_units, seed, i));
                }
            } else {
                let ghost old_cells = cells@;
                let ghost k = draws_before(n as int, idx as int) as nat;
                let unit = rng.next_unit();
                assert(rng_state(seed, k + 1) == rng.state());
                if unit < black_units {
                    cells.set(idx, Cell::Black);
                    cells.set(mirror, Cell::Black);
                }
                assert forall|i: int| 0 <= i < n implies #[trigger] cells@[i] == drawn_prefix_cell(
                    n as int,
                    idx + 1,
                    black_units,
                    seed,
                    i,
                ) by {
                    assert(old_cells[i] == drawn_prefix_cell(n as int, idx as int, black_units, seed, i));
                }
            }
            col = col + 1;
        }
        assert(row * width + width == (row + 1) * width) by (nonlinear_arith);
        row = row + 1;
    }
    assert(row * width == n) by (nonlinear_arith)
        requires
            row == height,
            n == width * height,
    ;
    proof {
        assert forall|r: int, c: int| 0 <= r < h && 0 <= c < w implies #[trigger] cell_at(
            cells@,
            w,
            r,
            c,
        ) == filled_cell(d, 0, r, c) by {
            lemma_index_in_range(w, h, r, c);
            lemma_mirror_index(w, h, r, c);
            lemma_drawn_cell(w, h, black_units, seed, r, c);
            assert(cells@[r * w + c] == drawn_prefix_cell(n as int, n as int, black_units, seed, r * w + c));
        }
    }
    row = 0;
    while row < height
        invariant
            n == width * height,
            w == width,
            h == height,
            d == drawn_layout(w, h, black_units, seed),
            0 < width,
            0 < height,
            0 <= row <= height,
            cells@.len() == n,
            forall|r: int, c: int|
                0 <= r < h && 0 <= c < w ==> #[trigger] cell_at(cells@, w, r, c) == filled_cell(
                    d,
                    row * width,
                    r,
                    c,
                ),
        decreases height - row,
    {
        let mut col: usize = 0;
        while col < width
            invariant
                n == width * height,
                w == width,
                h == height,
                d == drawn_layout(w, h, black_units, seed),
                0 < width,
                0 <= row < height,
                0 <= col <= width,
                cells@.len() == n,
                forall|r: int, c: int|
                    0 <= r < h && 0 <= c < w ==> #[trigger] cell_at(cells@, w, r, c)
                        == filled_cell(d, row * width + col, r, c),
            decreases width - col,
        {
            proof {
                lemma_index_in_range(w, h, row as int, col as int);
                lemma_mirror_index(w, h, row as int, col as int);
            }
            let idx = row * width + col;
            let ghost v = GridView { width: w, height: h, cells: cells@ };
            let ghost old_cells = cells@;
            proof {
                assert forall|r: int, c: int| d.in_bounds(r, c) implies #[trigger] v.is_black(r, c)
                    == (d.is_black(r, c) || (v.is_black(r, c) && d.is_boxed_in(r, c))) by {
                    assert(cell_at(cells@, w, r, c) == filled_cell(d, idx as int, r, c));
                }
                assert(cell_at(cells@, w, row as int, col as int) == filled_cell(
                    d,
                    idx as int,
                    row as int,
                    col as int,
                ));
            }
            if matches!(cells[idx], Cell::White(_)) && is_isolated(&cells, width, height, row, col) {
                proof {
                    lemma_boxed_in_kept(d, v, row as int, col as int);
                    lemma_boxed_in_symmetric(w, h, black_units, seed, row as int, col as int);
                }
                let mirror = n - 1 - idx;
                cells.set(idx, Cell::Black);
                cells.set(mirror, Cell::Black);
            } else {
                proof {
                    if !v.is_black(row as int, col as int) {
                        lemma_boxed_in_kept(d, v, row as int, col as int);
                    }
                }
            }
            proof {
                lemma_boxed_in_symmetric(w, h, black_units, seed, row as int, col as int);
                lemma_drawn_black_symmetric(w, h, black_units, seed);
                let mr = h - 1 - row;
                let mc = w - 1 - col;
                assert(cell_at(old_cells, w, mr, mc) == filled_cell(d, idx as int, mr, mc));
                assert forall|r: int, c: int| 0 <= r < h && 0 <= c < w implies #[trigger] cell_at(
                    cells@,
                    w,
                    r,
                    c,
                ) == filled_cell(d, idx + 1, r, c) by {
                    assert(cell_at(old_cells, w, r, c) == filled_cell(d, idx as int, r, c));
                    lemma_index_in_range(w, h, r, c);
                    lemma_mirror_index(w, h, r, c);
                    if r * w + c == idx {
                        lemma_index_injective(w, r, c, row as int, col as int);
                    } else if r * w + c == n - 1 - idx {
                        lemma_index_injective(w, r, c, mr, mc);
                    } else {
                        if mirror_index(w, h, r, c) == idx {
                            lemma_index_injective(w, r, c, mr, mc);
                        }
                    }
                }
            }
            col = col + 1;
        }
        assert(row * width + width == (row + 1) * width) by (nonlinear_arith);
        row = row + 1;
    }
    assert(row * width == n) by (nonlinear_arith)
        requires
            row == height,
            n == width * height,
    ;
    // Asking for the length brings in that it fits in a `usize`.
    let _ = cells.len();
    let grid = Grid::from_cells(width, height, cells);
    proof {
        assert forall|r: int, c: int| grid@.in_bounds(r, c) implies #[trigger] grid@.cell(r, c)
            == generated_cell(w, h, black_units, seed, r, c) by {
            lemma_index_in_range(w, h, r, c);
            lemma_mirror_index(w, h, r, c);
            assert(cell_at(grid@.cells, w, r, c) == filled_cell(d, n as int, r, c));
        }
    }
    Ok(grid)
}

// ---------------------------------------------------------------------------
// Laws
// ---------------------------------------------------------------------------

proof fn lemma_generated_black(
    width: nat,
    height: nat,
    black_units: u64,
    seed: u64,
    g: GridView,
    row: int,
    col: int,
)
    requires
        generate_result(width, height, black_units, seed, Ok(g)),
        g.in_bounds(row, col),
    ensures
        g.is_black(row, col) == (drawn_layout(width, height, black_units, seed).is_black(row, col)
            || drawn_layout(width, height, black_units, seed).is_boxed_in(row, col)),
        g.is_white(row, col) == !g.is_black(row, col),
{
    assert(g.cell(row, col) == generated_cell(width, height, black_units, seed, row, col));
}

/// What the filling pass changes: a cell of a generated grid is black
/// exactly when it is black in the drawn layout, or when each of its four
/// sides is the grid's edge or a black square of the drawn layout; every
/// other cell is an empty white square.
pub proof fn lemma_generated_cells(
    width: nat,
    height: nat,
    black_units: u64,
    seed: u64,
    g: GridView,
    row: int,
    col: int,
)
    requires
        generate_result(width, height, black_units, seed, Ok(g)),
        0 <= row < height,
        0 <= col < width,
    ensures
        ({
            let d = drawn_layout(width, height, black_units, seed);
            let blocked = |r: int, c: int|
                !(0 <= r < height && 0 <= c < width) || d.cell(r, c) == Cell::Black;
            g.cell(row, col) == if d.cell(row, col) == Cell::Black || (blocked(row, col - 1)
                && blocked(row, col + 1) && blocked(row - 1, col) && blocked(row + 1, col)) {
                Cell::Black
            } else {
                Cell::White(None)
            }
        }),
{
    assert(g.in_bounds(row, col));
}

/// A generated grid always has 180-degree rotational symmetry.
pub proof fn lemma_generated_symmetric(
    width: nat,
    height: nat,
    black_units: u64,
    seed: u64,
    g: GridView,
)
    requires
        generate_result(width, height, black_units, seed, Ok(g)),
    ensures
        g.has_180_symmetry(),
{
    assert forall|row: int, col: int| g.in_bounds(row, col) implies #[trigger] g.agrees_with_mirror(
        row,
        col,
    ) by {
        lemma_generated_black(width, height, black_units, seed, g, row, col);
        lemma_generated_black(
            width,
            height,
            black_units,
            seed,
            g,
            height - 1 - row,
            width - 1 - col,
        );
        lemma_drawn_black_symmetric(width, height, black_units, seed);
        lemma_boxed_in_symmetric(width, height, black_units, seed, row, col);
    }
}

/// A generated grid never leaves behind a white cell that is boxed in on
/// all four sides.
pub proof fn lemma_generated_no_boxed_in_white(
    width: nat,
    height: nat,
    black_units: u64,
    seed: u64,
    g: GridView,
)
    requires
        generate_result(width, height, black_units, seed, Ok(g)),
    ensures
        forall|row: int, col: int| #[trigger] g.is_white(row, col) ==> !g.is_boxed_in(row, col),
{
    let d = drawn_layout(width, height, black_units, seed);
    assert forall|row: int, col: int| #[trigger] g.is_white(row, col) implies !g.is_boxed_in(
        row,
        col,
    ) by {
        lemma_generated_black(width, height, black_units, seed, g, row, col);
        assert(!d.is_black(row, col) && !d.is_boxed_in(row, col));
        if col > 0 && !d.is_black(row, col - 1) {
            lemma_generated_black(width, height, black_units, seed, g, row, col - 1);
        } else if col + 1 != width && !d.is_black(row, col + 1) {
            lemma_generated_black(width, height, black_units, seed, g, row, col + 1);
        } else if row > 0 && !d.is_black(row - 1, col) {
            lemma_generated_black(width, height, black_units, seed, g, row - 1, col);
        } else {
            lemma_generated_black(width, height, black_units, seed, g, row + 1, col);
        }
    }
}

/// Every white cell of a generated grid belongs to some word slot.
pub proof fn lemma_generated_cells_in_slots(
    width: nat,
    height: nat,
    black_units: u64,
    seed: u64,
    g: GridView,
)
    requires
        generate_result(width, height, black_units, seed, Ok(g)),
    ensures
        forall|row: int, col: int|
            #[trigger] g.is_white(row, col) ==> exists|k: int|
                0 <= k < grid_slots(g).len() && covers(#[trigger] grid_slots(g)[k], row, col),
{
    lemma_generated_no_boxed_in_white(width, height, black_units, seed, g);
    lemma_white_cells_in_slots(g);
}

proof fn lemma_drawn_monotone(width: nat, height: nat, u1: u64, u2: u64, seed: u64)
    requires
        u1 <= u2,
    ensures
        forall|row: int, col: int|
            #[trigger] drawn_layout(width, height, u1, seed).is_black(row, col) ==> drawn_layout(
                width,
                height,
                u2,
                seed,
            ).is_black(row, col),
{
    assert forall|row: int, col: int| #[trigger]
        drawn_layout(width, height, u1, seed).is_black(row, col) implies drawn_layout(
        width,
        height,
        u2,
        seed,
    ).is_black(row, col) by {
        lemma_drawn_cell(width, height, u1, seed, row, col);
        lemma_drawn_cell(width, height, u2, seed, row, col);
    }
}

/// With the same size and seed, a higher density only adds black squares.
pub proof fn lemma_density_monotone(
    width: nat,
    height: nat,
    u1: u64,
    u2: u64,
    seed: u64,
    g1: GridView,
    g2: GridView,
)
    requires
        u1 <= u2,
        generate_result(width, height, u1, seed, Ok(g1)),
        generate_result(width, height, u2, seed, Ok(g2)),
    ensures
        forall|row: int, col: int| #[trigger] g1.is_black(row, col) ==> g2.is_black(row, col),
{
    lemma_drawn_monotone(width, height, u1, u2, seed);
    let d1 = drawn_layout(width, height, u1, seed);
    let d2 = drawn_layout(width, height, u2, seed);
    assert forall|row: int, col: int| #[trigger] g1.is_black(row, col) implies g2.is_black(
        row,
        col,
    ) by {
        lemma_generated_black(width, height, u1, seed, g1, row, col);
        lemma_generated_black(width, height, u2, seed, g2, row, col);
        if d1.is_boxed_in(row, col) {
            assert(d1.is_black(row, col - 1) ==> d2.is_black(row, col - 1));
            assert(d1.is_black(row, col + 1) ==> d2.is_black(row, col + 1));
            assert(d1.is_black(row - 1, col) ==> d2.is_black(row - 1, col));
            assert(d1.is_black(row + 1, col) ==> d2.is_black(row + 1, col));
        }
    }
}

/// The same width, height, density and seed always produce the same grid.
pub proof fn lemma_generate_deterministic(
    width: nat,
    height: nat,
    black_units: u64,
    seed: u64,
    g1: GridView,
    g2: GridView,
)
    requires
        generate_result(width, height, black_units, seed, Ok(g1)),
        generate_result(width, height, black_units, seed, Ok(g2)),
    ensures
        g1 == g2,
{
    assert forall|i: int| 0 <= i < g1.cells.len() implies #[trigger] g1.cells[i] == g2.cells[i] by {
        lemma_cells_by_position(g1, i);
        lemma_cells_by_position(g2, i);
        let r = i / (width as int);
        let c = i % (width as int);
        assert(g1.cell(r, c) == generated_cell(width, height, black_units, seed, r, c));
        assert(g2.cell(r, c) == generated_cell(width, height, black_units, seed, r, c));
    }
    assert(g1.cells =~= g2.cells);
}

/// A sequence without black cells has none to count.
pub proof fn lemma_count_black_none(cells: Seq<Cell>)
    requires
        forall|i: int| 0 <= i < cells.len() ==> !(#[trigger] cells[i] is Black),
    ensures
        count_black(cells) == 0,
    decreases cells.len(),
{
    if cells.len() > 0 {
        assert(!(cells[cells.len() - 1] is Black));
        lemma_count_black_none(cells.drop_last());
    }
}

/// In a sequence of black cells, every cell counts.
pub proof fn lemma_count_black_all(cells: Seq<Cell>)
    requires
        forall|i: int| 0 <= i < cells.len() ==> #[trigger] cells[i] is Black,
    ensures
        count_black(cells) == cells.len(),
    decreases cells.len(),
{
    if cells.len() > 0 {
        assert(cells[cells.len() - 1] is Black);
        lemma_count_black_all(cells.drop_last());
    }
}

/// With a density of zero no square is drawn black, and unless the grid is
/// a single cell (which is boxed in by the edges) none turns black later.
pub proof fn lemma_zero_density_no_black(width: nat, height: nat, seed: u64, g: GridView)
    requires
        generate_result(width, height, 0, seed, Ok(g)),
        width > 1 || height > 1,
    ensures
        g.black_count() == 0,
{
    let d = drawn_layout(width, height, 0, seed);
    assert forall|row: int, col: int| g.in_bounds(row, col) implies !g.is_black(row, col) by {
        lemma_generated_black(width, height, 0, seed, g, row, col);
        lemma_drawn_cell(width, height, 0, seed, row, col);
        if col > 0 {
            lemma_drawn_cell(width, height, 0, seed, row, col - 1);
        } else if col + 1 < width {
            lemma_drawn_cell(width, height, 0, seed, row, col + 1);
        } else if row > 0 {
            lemma_drawn_cell(width, height, 0, seed, row - 1, col);
        } else {
            lemma_drawn_cell(width, height, 0, seed, row + 1, col);
        }
    }
    assert forall|i: int| 0 <= i < g.cells.len() implies !(#[trigger] g.cells[i] is Black) by {
        lemma_cells_by_position(g, i);
    }
    lemma_count_black_none(g.cells);
}

/// With a density of `UNIT` every square is drawn black.
pub proof fn lemma_full_density_all_black(width: nat, height: nat, seed: u64, g: GridView)
    requires
        generate_result(width, height, UNIT, seed, Ok(g)),
    ensures
        g.black_count() == width * height,
{
    assert forall|row: int, col: int| g.in_bounds(row, col) implies g.is_black(row, col) by {
        lemma_generated_black(width, height, UNIT, seed, g, row, col);
        lemma_drawn_cell(width, height, UNIT, seed, row, col);
        let i = row * width + col;
        let j = if i <= width * height - 1 - i {
            i
        } else {
            width * height - 1 - i
        };
        let z = mix(rng_state(seed, (j as nat) + 1));
        assert(z >> 11u64 < 9007199254740992u64) by (bit_vector);
        assert(coin(seed, j as nat) < UNIT);
    }
    assert forall|i: int| 0 <= i < g.cells.len() implies #[trigger] g.cells[i] is Black by {
        lemma_cells_by_position(g, i);
    }
    lemma_count_black_all(g.cells);
}

} // verus!
