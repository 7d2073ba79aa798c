use vstd::prelude::*;

use vstd::string::StringExecFns;

use crate::grid::{rows_view, Cell, Grid, GridView};
use crate::text::push_char;

verus! {

/// Length of the fixed `.puz` header; the boards start right after it.
pub const HEADER_LEN: usize = 0x34;

#[derive(Debug, Clone, Copy, PartialEq, Eq, Structural)]
pub enum PuzError {
    /// Shorter than a bare header, let alone a board.
    TooShort,
    /// Missing the `ACROSS&DOWN\0` signature at offset 0x02.
    BadMagic,
    /// The header promises a board that the rest of the file doesn't hold.
    Truncated,
    /// Width or height is zero.
    InvalidDimensions,
}

/// The parts of a `.puz` file this crate can make sense of.
///
/// This only reads the base header, the two boards, and the string table
/// (title, author, copyright, clues, notes). Checksums are not verified,
/// since a mismatch there doesn't change what grid the file describes.
/// Extra sections used for rebus squares, timers, and circled-square
/// markup (`GRBS`/`RTBL`/`LTIM`/`GEXT`) are not parsed - a rebus cell in
/// either board decodes as an empty white square rather than the rebus
/// fragment it stands for.
#[derive(Debug, Clone, PartialEq, Eq)]
pub struct PuzFile {
    pub title: String,
    pub author: String,
    pub copyright: String,
    pub notes: String,
    pub clues: Vec<String>,
    pub solution: Grid,
    pub player_state: Grid,
}

impl PuzError {
    /// What went wrong, in words.
    pub fn message(&self) -> (m: String)
        ensures
            m@ == match *self {
                PuzError::TooShort => "file is too short to contain a .puz header"@,
                PuzError::BadMagic => "missing ACROSS&DOWN file signature"@,
                PuzError::Truncated => "file ends before the board it declares"@,
                PuzError::InvalidDimensions => "width or height is zero"@,
            },
    {
        match self {
            PuzError::TooShort => "file is too short to contain a .puz header".to_owned(),
            PuzError::BadMagic => "missing ACROSS&DOWN file signature".to_owned(),
            PuzError::Truncated => "file ends before the board it declares".to_owned(),
            PuzError::InvalidDimensions => "width or height is zero".to_owned(),
        }
    }
}

/// The `ACROSS&DOWN\0` signature.
pub open spec fn puz_magic() -> Seq<u8> {
    seq![0x41u8, 0x43, 0x52, 0x4F, 0x53, 0x53, 0x26, 0x44, 0x4F, 0x57, 0x4E, 0x00]
}

pub open spec fn puz_width(b: Seq<u8>) -> nat {
    b[0x2C] as nat
}

pub open spec fn puz_height(b: Seq<u8>) -> nat {
    b[0x2D] as nat
}

/// The clue count, a little-endian `u16` at offset 0x2E.
pub open spec fn puz_clue_count(b: Seq<u8>) -> nat {
    b[0x2E] as nat + 256 * b[0x2F] as nat
}

/// Where the player-state board ends and the string table begins.
pub open spec fn puz_state_end(b: Seq<u8>) -> int {
    HEADER_LEN + 2 * (puz_width(b) * puz_height(b))
}

pub open spec fn is_ascii_letter(b: u8) -> bool {
    (0x41 <= b && b <= 0x5A) || (0x61 <= b && b <= 0x7A)
}

pub open spec fn ascii_upper(b: u8) -> u8 {
    if 0x61 <= b && b <= 0x7A {
        (b - 32) as u8
    } else {
        b
    }
}

/// The cell that a board byte stands for. `.` is black; a letter is a white
/// square filled with its upper case; the player-state board marks an
/// unfilled white square with `-`; anything else is an empty white square.
pub open spec fn puz_cell(b: u8, is_state: bool) -> Cell {
    if b == 0x2E {
        Cell::Black
    } else if b == 0x2D && is_state {
        Cell::White(None)
    } else if is_ascii_letter(b) {
        Cell::White(Some(ascii_upper(b) as char))
    } else {
        Cell::White(None)
    }
}

/// `.puz` strings are single-byte Latin-1: byte `b` is the character with
/// code point `b`.
pub open spec fn latin1(bytes: Seq<u8>) -> Seq<char> {
    bytes.map_values(|b: u8| b as char)
}

/// The index of the first zero byte at or after `start`, or the length if
/// there is none.
pub open spec fn zero_from(b: Seq<u8>, start: int) -> int
    decreases b.len() - start,
{
    if start >= b.len() {
        b.len() as int
    } else if b[start] == 0 {
        start
    } else {
        zero_from(b, start + 1)
    }
}

/// Where the string after the one starting at `cursor` starts; `None` once
/// the bytes have run out.
pub open spec fn next_cursor(b: Seq<u8>, cursor: Option<int>) -> Option<int> {
    match cursor {
        Some(p) => if zero_from(b, p) < b.len() {
            Some(zero_from(b, p) + 1)
        } else {
            None
        },
        None => None,
    }
}

/// Where the `k`-th zero-terminated string from `start` starts.
pub open spec fn cursor_after(b: Seq<u8>, start: int, k: nat) -> Option<int>
    decreases k,
{
    if k == 0 {
        Some(start)
    } else {
        next_cursor(b, cursor_after(b, start, (k - 1) as nat))
    }
}

/// The string that starts at `cursor`, up to the next zero byte or the end;
/// empty once the bytes have run out.
pub open spec fn field_at(b: Seq<u8>, cursor: Option<int>) -> Seq<u8> {
    match cursor {
        Some(p) => b.subrange(p, zero_from(b, p)),
        None => seq![],
    }
}

/// The `k`-th string of the string table: the table is split at zero bytes,
/// and a file that ends early yields empty strings for whatever is missing.
pub open spec fn puz_string(b: Seq<u8>, k: nat) -> Seq<char> {
    latin1(field_at(b, cursor_after(b, puz_state_end(b), k)))
}

/// The cell at (`row`, `col`) of a `width`-wide board whose bytes start at
/// `start`.
pub open spec fn board_cell(b: Seq<u8>, start: int, width: nat, row: int, col: int, is_state: bool) -> Cell {
    puz_cell(b[start + row * width + col], is_state)
}

/// `g` is the `width` by `height` board whose bytes start at `start`.
pub open spec fn is_board(g: GridView, b: Seq<u8>, start: int, width: nat, height: nat, is_state: bool) -> bool {
    &&& g.wf()
    &&& g.width == width
    &&& g.height == height
    &&& forall|row: int, col: int|
        g.in_bounds(row, col) ==> #[trigger] g.cell(row, col) == board_cell(
            b,
            start,
            width,
            row,
            col,
            is_state,
        )
}

/// What reading the bytes `b` of a `.puz` file gives.
pub open spec fn puz_result(b: Seq<u8>, res: Result<PuzFile, PuzError>) -> bool {
    match res {
        Err(PuzError::TooShort) => b.len() < HEADER_LEN,
        Err(PuzError::BadMagic) => b.len() >= HEADER_LEN && b.subrange(2, 14) != puz_magic(),
        Err(PuzError::InvalidDimensions) => {
            &&& b.len() >= HEADER_LEN
            &&& b.subrange(2, 14) == puz_magic()
            &&& (puz_width(b) == 0 || puz_height(b) == 0)
        },
        Err(PuzError::Truncated) => {
            &&& b.len() >= HEADER_LEN
            &&& b.subrange(2, 14) == puz_magic()
            &&& puz_width(b) > 0
            &&& puz_height(b) > 0
            &&& b.len() < puz_state_end(b)
        },
        Ok(p) => {
            let w = puz_width(b);
            let h = puz_height(b);
            &&& b.len() >= HEADER_LEN
            &&& b.subrange(2, 14) == puz_magic()
            &&& w > 0
            &&& h > 0
            &&& b.len() >= puz_state_end(b)
            &&& is_board(p.solution@, b, HEADER_LEN as int, w, h, false)
            &&& is_board(p.player_state@, b, HEADER_LEN + w * h, w, h, true)
            &&& p.title@ == puz_string(b, 0)
            &&& p.author@ == puz_string(b, 1)
            &&& p.copyright@ == puz_string(b, 2)
            &&& p.clues@.len() == puz_clue_count(b)
            &&& forall|i: int|
                0 <= i < p.clues@.len() ==> (#[trigger] p.clues@[i])@ == puz_string(
                    b,
                    (3 + i) as nat,
                )
            &&& p.notes@ == puz_string(b, 3 + puz_clue_count(b))
        },
    }
}

/// `.puz` strings are single-byte Latin-1, not UTF-8, so every byte value
/// decodes to a valid character and this can never fail.
fn latin1_decode(bytes: &[u8]) -> (s: String)
    ensures
        s@ == latin1(bytes@),
{
    let mut s = String::new();
    let mut i: usize = 0;
    while i < bytes.len()
        invariant
            0 <= i <= bytes@.len(),
            s@ == latin1(bytes@.subrange(0, i as int)),
        decreases bytes@.len() - i,
    {
        let b = bytes[i];
        push_char(&mut s, b as char);
        i = i + 1;
        assert(s@ =~= latin1(bytes@.subrange(0, i as int)));
    }
    assert(bytes@.subrange(0, i as int) =~= bytes@);
    s
}

/// The cell that a board byte stands for.
fn cell_from_byte(b: u8, is_state: bool) -> (cell: Cell)
    ensures
        cell == puz_cell(b, is_state),
{
    if b == 0x2E {
        Cell::Black
    } else if b == 0x2D && is_state {
        Cell::White(None)
    } else if (0x41 <= b && b <= 0x5A) || (0x61 <= b && b <= 0x7A) {
        let upper = if 0x61 <= b && b <= 0x7A {
            b - 32
        } else {
            b
        };
        Cell::White(Some(upper as char))
    } else {
        Cell::White(None)
    }
}

/// Converts one `width`-wide block of board bytes into a `Grid`. `is_state`
/// selects how a fill byte is read: the player-state board uses `-` for an
/// unfilled white square, a marker the solution board never contains.
fn board_to_grid(bytes: &[u8], width: usize, is_state: bool) -> (g: Grid)
    requires
        width > 0,
        bytes@.len() > 0,
        bytes@.len() % (width as nat) == 0,
    ensures
        is_board(g@, bytes@, 0, width as nat, bytes@.len() / (width as nat), is_state),
{
    let height = bytes.len() / width;
    proof {
        let len = bytes@.len() as int;
        let wi = width as int;
        let hi = height as int;
        vstd::arithmetic::div_mod::lemma_fundamental_div_mod(len, wi);
        assert(len == wi * hi) by (nonlinear_arith)
            requires
                len == wi * (len / wi) + len % wi,
                len % wi == 0,
                hi == len / wi,
        ;
        assert(hi > 0) by (nonlinear_arith)
            requires
                len == wi * hi,
                len > 0,
                wi > 0,
        ;
    }
    let mut rows: Vec<Vec<Cell>> = Vec::new();
    let mut r: usize = 0;
    while r < height
        invariant
            0 < width,
            bytes@.len() == width * height,
            bytes@.len() <= usize::MAX,
            0 <= r <= height,
            rows@.len() == r,
            forall|i: int| 0 <= i < r ==> #[trigger] rows@[i]@.len() == width,
            forall|i: int, c: int|
                0 <= i < r && 0 <= c < width ==> #[trigger] rows@[i]@[c] == puz_cell(
                    bytes@[i * width + c],
                    is_state,
                ),
        decreases height - r,
    {
        let mut row: Vec<Cell> = Vec::new();
        let mut c: usize = 0;
        proof {
            crate::grid::lemma_index_in_range(width as nat, height as nat, r as int, 0);
        }
        let base = r * width;
        while c < width
            invariant
                0 < width,
                bytes@.len() == width * height,
                bytes@.len() <= usize::MAX,
                0 <= r < height,
                base == r * width,
                0 <= c <= width,
                row@.len() == c,
                forall|k: int| 0 <= k < c ==> #[trigger] row@[k] == puz_cell(
                    bytes@[base + k],
                    is_state,
                ),
            decreases width - c,
        {
            proof {
                crate::grid::lemma_index_in_range(width as nat, height as nat, r as int, c as int);
            }
            row.push(cell_from_byte(bytes[base + c], is_state));
            c = c + 1;
        }
        rows.push(row);
        r = r + 1;
    }
    let ghost rv = rows_view(rows@);
    assert(rv.len() == height);
    assert forall|i: int| 0 <= i < rv.len() implies #[trigger] rv[i].len() == width by {
        assert(rv[i] == rows@[i]@);
    }
    let res = Grid::from_rows(rows.as_slice());
    match res {
        Ok(g) => {
            assert forall|row: int, col: int| g@.in_bounds(row, col) implies #[trigger] g@.cell(
                row,
                col,
            ) == board_cell(bytes@, 0, width as nat, row, col, is_state) by {
                assert(rv[row] == rows@[row]@);
                assert(rows@[row]@[col] == puz_cell(bytes@[row * width + col], is_state));
            }
            g
        },
        Err(e) => {
            proof {
                match e {
                    crate::grid::GridError::Empty => {},
                    crate::grid::GridError::RaggedRows { row, .. } => {
                        assert(rv[row as int] == rows@[row as int]@);
                    },
                }
            }
            vstd::pervasive::unreached()
        },
    }
}

// ---------------------------------------------------------------------------
// Laws
// ---------------------------------------------------------------------------

/// The player-state flag never changes how a byte decodes: `-` is an empty
/// white square on either board, as is any other byte that is neither `.`
/// nor a letter.
pub proof fn lemma_state_flag_irrelevant(b: u8)
    ensures
        puz_cell(b, true) == puz_cell(b, false),
{
}

/// Both boards decode their bytes alike.
pub proof fn lemma_board_state_flag_irrelevant(
    g: GridView,
    b: Seq<u8>,
    start: int,
    width: nat,
    height: nat,
)
    ensures
        is_board(g, b, start, width, height, true) == is_board(g, b, start, width, height, false),
{
    assert forall|row: int, col: int| g.in_bounds(row, col) implies board_cell(
        b,
        start,
        width,
        row,
        col,
        true,
    ) == board_cell(b, start, width, row, col, false) by {
        lemma_state_flag_irrelevant(b[start + row * width + col]);
    }
}

/// How a board byte decodes, on either board: `.` is black; an upper-case
/// ASCII letter `A`..=`Z` is a white square holding that letter; a lower-case
/// one `a`..=`z` is a white square holding its upper case; every other byte
/// (the player-state `-` and rebus markers among them) is an empty white
/// square.
pub proof fn lemma_board_bytes(b: u8, is_state: bool)
    ensures
        b == 0x2E ==> puz_cell(b, is_state) == Cell::Black,
        0x41 <= b <= 0x5A ==> puz_cell(b, is_state) == Cell::White(Some(b as char)),
        0x61 <= b <= 0x7A ==> puz_cell(b, is_state) == Cell::White(Some((b - 32) as u8 as char)),
        b != 0x2E && !(0x41 <= b <= 0x5A) && !(0x61 <= b <= 0x7A) ==> puz_cell(b, is_state)
            == Cell::White(None),
{
}

proof fn lemma_zero_from_props(b: Seq<u8>, start: int)
    requires
        0 <= start <= b.len(),
    ensures
        start <= zero_from(b, start) <= b.len(),
        forall|i: int| start <= i < zero_from(b, start) ==> b[i] != 0,
        zero_from(b, start) < b.len() ==> b[zero_from(b, start)] == 0,
    decreases b.len() - start,
{
    if start < b.len() && b[start] != 0 {
        lemma_zero_from_props(b, start + 1);
    }
}

/// The string table from `start` splits at zero bytes: each string starts
/// where the previous one's terminating zero ended (the first at `start`),
/// holds no zero byte, and ends at the next zero byte, where the next string
/// starts after it, or at the end of the bytes, after which every string is
/// empty.
pub proof fn lemma_string_table(b: Seq<u8>, start: int, k: nat)
    requires
        0 <= start <= b.len(),
    ensures
        cursor_after(b, start, 0) == Some(start),
        match cursor_after(b, start, k) {
            Some(p) => {
                let f = field_at(b, Some(p));
                &&& start <= p <= b.len()
                &&& p + f.len() <= b.len()
                &&& f == b.subrange(p, p + f.len())
                &&& forall|i: int| 0 <= i < f.len() ==> #[trigger] f[i] != 0
                &&& if p + f.len() < b.len() {
                    &&& b[p + f.len()] == 0
                    &&& cursor_after(b, start, k + 1) == Some(p + f.len() + 1)
                } else {
                    cursor_after(b, start, k + 1) == None::<int>
                }
            },
            None => field_at(b, None).len() == 0 && cursor_after(b, start, k + 1) == None::<int>,
        },
    decreases k,
{
    if k > 0 {
        lemma_string_table(b, start, (k - 1) as nat);
    }
    if let Some(p) = cursor_after(b, start, k) {
        lemma_zero_from_props(b, p);
        let f = field_at(b, Some(p));
        assert(f.len() == zero_from(b, p) - p);
        assert forall|i: int| 0 <= i < f.len() implies #[trigger] f[i] != 0 by {
            assert(f[i] == b[p + i]);
        }
    }
}

/// Latin-1 decoding keeps one character per byte, whose code point is the
/// byte's value.
pub proof fn lemma_latin1_codes(bytes: Seq<u8>)
    ensures
        latin1(bytes).len() == bytes.len(),
        forall|i: int| 0 <= i < bytes.len() ==> (#[trigger] latin1(bytes)[i]) as u32 == bytes[i] as u32,
{
}

/// `b1` and `b2` have the same length and differ at most in the checksum
/// fields: the file checksum (0x00..0x02) and the CIB and masked checksums
/// (0x0E..0x18).
pub open spec fn same_but_checksums(b1: Seq<u8>, b2: Seq<u8>) -> bool {
    &&& b1.len() == b2.len()
    &&& forall|i: int|
        0 <= i < b1.len() && !(0 <= i < 0x02) && !(0x0E <= i < 0x18) ==> #[trigger] b1[i]
            == b2[i]
}

proof fn lemma_zero_from_same(b1: Seq<u8>, b2: Seq<u8>, start: int)
    requires
        same_but_checksums(b1, b2),
        start >= 0x18,
    ensures
        zero_from(b1, start) == zero_from(b2, start),
    decreases b1.len() - start,
{
    if start < b1.len() {
        assert(b1[start] == b2[start]);
        lemma_zero_from_same(b1, b2, start + 1);
    }
}

proof fn lemma_zero_from_bounds(b: Seq<u8>, start: int)
    requires
        0 <= start <= b.len(),
    ensures
        start <= zero_from(b, start) <= b.len(),
    decreases b.len() - start,
{
    if start < b.len() && b[start] != 0 {
        lemma_zero_from_bounds(b, start + 1);
    }
}

proof fn lemma_strings_same(b1: Seq<u8>, b2: Seq<u8>, start: int, k: nat)
    requires
        same_but_checksums(b1, b2),
        0x18 <= start <= b1.len(),
    ensures
        cursor_after(b1, start, k) == cursor_after(b2, start, k),
        cursor_after(b1, start, k) matches Some(p) ==> 0x18 <= p <= b1.len(),
        field_at(b1, cursor_after(b1, start, k)) == field_at(b2, cursor_after(b2, start, k)),
    decreases k,
{
    if k > 0 {
        lemma_strings_same(b1, b2, start, (k - 1) as nat);
        let c = cursor_after(b1, start, (k - 1) as nat);
        if let Some(p) = c {
            lemma_zero_from_same(b1, b2, p);
            lemma_zero_from_bounds(b1, p);
        }
    }
    let c = cursor_after(b1, start, k);
    if let Some(p) = c {
        lemma_zero_from_same(b1, b2, p);
        lemma_zero_from_bounds(b1, p);
        let z = zero_from(b1, p);
        assert forall|i: int| 0 <= i < z - p implies b1.subrange(p, z)[i] == b2.subrange(p, z)[i] by {
            assert(b1[p + i] == b2[p + i]);
        }
        assert(b1.subrange(p, z) =~= b2.subrange(p, z));
    }
}

proof fn lemma_boards_same(b1: Seq<u8>, b2: Seq<u8>, g: GridView, start: int, is_state: bool)
    requires
        same_but_checksums(b1, b2),
        b1.len() >= HEADER_LEN,
        b1.len() >= puz_state_end(b1),
        start == HEADER_LEN || start == HEADER_LEN + puz_width(b1) * puz_height(b1),
        puz_width(b1) == puz_width(b2),
        puz_height(b1) == puz_height(b2),
    ensures
        is_board(g, b1, start, puz_width(b1), puz_height(b1), is_state) == is_board(
            g,
            b2,
            start,
            puz_width(b1),
            puz_height(b1),
            is_state,
        ),
{
    let w = puz_width(b1);
    let h = puz_height(b1);
    if g.wf() && g.width == w && g.height == h {
        assert forall|row: int, col: int| g.in_bounds(row, col) implies board_cell(
            b1,
            start,
            w,
            row,
            col,
            is_state,
        ) == board_cell(b2, start, w, row, col, is_state) by {
            crate::grid::lemma_index_in_range(w, h, row, col);
            assert(b1[start + row * w + col] == b2[start + row * w + col]);
        }
    }
}

/// `read_puz` neither checks the checksums nor reports them: files that
/// differ only in the checksum fields read the same.
pub proof fn lemma_checksums_ignored(b1: Seq<u8>, b2: Seq<u8>)
    requires
        same_but_checksums(b1, b2),
    ensures
        forall|res: Result<PuzFile, PuzError>| #[trigger] puz_result(b1, res) == puz_result(b2, res),
{
    if b1.len() >= HEADER_LEN {
        assert(b1.subrange(2, 14) =~= b2.subrange(2, 14)) by {
            assert forall|i: int| 0 <= i < 12 implies b1.subrange(2, 14)[i] == b2.subrange(2, 14)[i] by {
                assert(b1[2 + i] == b2[2 + i]);
            }
        }
        assert(b1[0x2C] == b2[0x2C]);
        assert(b1[0x2D] == b2[0x2D]);
        assert(b1[0x2E] == b2[0x2E]);
        assert(b1[0x2F] == b2[0x2F]);
        let se = puz_state_end(b1);
        assert forall|res: Result<PuzFile, PuzError>| #[trigger] puz_result(b1, res) == puz_result(b2, res) by {
            if let Ok(p) = res {
                if b1.len() >= se {
                    let w = puz_width(b1);
                    let h = puz_height(b1);
                    assert(w * h >= 0) by (nonlinear_arith);
                    lemma_boards_same(b1, b2, p.solution@, HEADER_LEN as int, false);
                    lemma_boards_same(b1, b2, p.player_state@, HEADER_LEN + w * h, true);
                    assert forall|k: nat| #[trigger] puz_string(b1, k) == puz_string(b2, k) by {
                        lemma_strings_same(b1, b2, se, k);
                    }
                    assert(puz_string(b1, 0) == puz_string(b2, 0));
                    assert(puz_string(b1, 1) == puz_string(b2, 1));
                    assert(puz_string(b1, 2) == puz_string(b2, 2));
                    assert(puz_string(b1, 3 + puz_clue_count(b1)) == puz_string(
                        b2,
                        3 + puz_clue_count(b1),
                    ));
                    assert(forall|i: int|
                        0 <= i < p.clues@.len() ==> #[trigger] puz_string(b1, (3 + i) as nat)
                            == puz_string(b2, (3 + i) as nat));
                }
            }
        }
    }
}

pub open spec fn cursor_view(cursor: Option<usize>) -> Option<int> {
    match cursor {
        Some(p) => Some(p as int),
        None => None,
    }
}

/// Reads the zero-terminated string at `cursor` and moves the cursor past
/// it; once the bytes have run out, every further string is empty.
fn next_string(bytes: &[u8], cursor: &mut Option<usize>) -> (s: String)
    requires
        *old(cursor) matches Some(p) ==> p <= bytes@.len(),
    ensures
        s@ == latin1(field_at(bytes@, cursor_view(*old(cursor)))),
        cursor_view(*final(cursor)) == next_cursor(bytes@, cursor_view(*old(cursor))),
        *final(cursor) matches Some(p) ==> p <= bytes@.len(),
{
    match *cursor {
        Some(start) => {
            let mut end = start;
            while end < bytes.len() && bytes[end] != 0
                invariant
                    start <= end <= bytes@.len(),
                    zero_from(bytes@, start as int) == zero_from(bytes@, end as int),
                decreases bytes@.len() - end,
            {
                end = end + 1;
            }
            let s = latin1_decode(&bytes[start..end]);
            if end < bytes.len() {
                *cursor = Some(end + 1);
            } else {
                *cursor = None;
            }
            s
        },
        None => String::new(),
    }
}

/// Tells whether the `ACROSS&DOWN\0` signature stands at offset 0x02.
fn has_magic(bytes: &[u8]) -> (b: bool)
    requires
        bytes@.len() >= 14,
    ensures
        b == (bytes@.subrange(2, 14) == puz_magic()),
{
    let magic: [u8; 12] = [0x41, 0x43, 0x52, 0x4F, 0x53, 0x53, 0x26, 0x44, 0x4F, 0x57, 0x4E, 0x00];
    assert(magic@ =~= puz_magic());
    let mut i: usize = 0;
    while i < 12
        invariant
            bytes@.len() >= 14,
            magic@ == puz_magic(),
            0 <= i <= 12,
            forall|k: int| 0 <= k < i ==> bytes@[2 + k] == #[trigger] puz_magic()[k],
        decreases 12 - i,
    {
        if bytes[2 + i] != magic[i] {
            assert(bytes@.subrange(2, 14)[i as int] != puz_magic()[i as int]);
            return false;
        }
        i = i + 1;
    }
    assert(bytes@.subrange(2, 14) =~= puz_magic());
    true
}

/// Parses the bytes of a `.puz` file.
pub fn read_puz(bytes: &[u8]) -> (res: Result<PuzFile, PuzError>)
    ensures
        puz_result(bytes@, res),
{
    let ghost b = bytes@;
    if bytes.len() < HEADER_LEN {
        return Err(PuzError::TooShort);
    }
    if !has_magic(bytes) {
        return Err(PuzError::BadMagic);
    }
    let width = bytes[0x2C] as usize;
    let height = bytes[0x2D] as usize;
    if width == 0 || height == 0 {
        return Err(PuzError::InvalidDimensions);
    }
    let num_clues = bytes[0x2E] as usize + 256 * (bytes[0x2F] as usize);
    assert(width * height <= 255 * 255) by (nonlinear_arith)
        requires
            width <= 255,
            height <= 255,
    ;
    let board_len = width * height;
    let solution_end = HEADER_LEN + board_len;
    let state_end = solution_end + board_len;
    if bytes.len() < state_end {
        return Err(PuzError::Truncated);
    }
    let solution_bytes = &bytes[HEADER_LEN..solution_end];
    let state_bytes = &bytes[solution_end..state_end];
    proof {
        vstd::arithmetic::div_mod::lemma_mod_multiples_basic(height as int, width as int);
        vstd::arithmetic::div_mod::lemma_div_multiples_vanish(height as int, width as int);
        assert(height * width == board_len) by (nonlinear_arith)
            requires
                board_len == width * height,
        ;
        assert(board_len > 0) by (nonlinear_arith)
            requires
                board_len == width * height,
                width > 0,
                height > 0,
        ;
    }
    let solution = board_to_grid(solution_bytes, width, false);
    let player_state = board_to_grid(state_bytes, width, true);
    proof {
        assert forall|row: int, col: int| solution@.in_bounds(row, col) implies #[trigger] solution@.cell(
            row,
            col,
        ) == board_cell(b, HEADER_LEN as int, width as nat, row, col, false) by {
            assert(solution@.cell(row, col) == board_cell(
                solution_bytes@,
                0,
                width as nat,
                row,
                col,
                false,
            ));
            crate::grid::lemma_index_in_range(width as nat, height as nat, row, col);
        }
        assert forall|row: int, col: int| player_state@.in_bounds(row, col) implies #[trigger] player_state@.cell(
            row,
            col,
        ) == board_cell(b, HEADER_LEN + width * height, width as nat, row, col, true) by {
            assert(player_state@.cell(row, col) == board_cell(
                state_bytes@,
                0,
                width as nat,
                row,
                col,
                true,
            ));
            crate::grid::lemma_index_in_range(width as nat, height as nat, row, col);
        }
    }
    let mut cursor: Option<usize> = Some(state_end);
    assert(state_end == puz_state_end(b));
    assert(cursor_view(cursor) == cursor_after(b, puz_state_end(b), 0));
    let title = next_string(bytes, &mut cursor);
    assert(cursor_view(cursor) == cursor_after(b, puz_state_end(b), 1));
    let author = next_string(bytes, &mut cursor);
    assert(cursor_view(cursor) == cursor_after(b, puz_state_end(b), 2));
    let copyright = next_string(bytes, &mut cursor);
    assert(cursor_view(cursor) == cursor_after(b, puz_state_end(b), 3));
    let mut clues: Vec<String> = Vec::new();
    let mut i: usize = 0;
    while i < num_clues
        invariant
            b == bytes@,
            state_end == puz_state_end(b),
            num_clues == puz_clue_count(b),
            0 <= i <= num_clues,
            cursor matches Some(p) ==> p <= bytes@.len(),
            cursor_view(cursor) == cursor_after(b, puz_state_end(b), (3 + i) as nat),
            clues@.len() == i,
            forall|j: int| 0 <= j < i ==> (#[trigger] clues@[j])@ == puz_string(b, (3 + j) as nat),
        decreases num_clues - i,
    {
        let clue = next_string(bytes, &mut cursor);
        clues.push(clue);
        i = i + 1;
    }
    let notes = next_string(bytes, &mut cursor);
    Ok(PuzFile { title, author, copyright, notes, clues, solution, player_state })
}

} // verus!
