use crossgrid::{read_puz, Cell, Grid, PuzError};

const MAGIC: &[u8; 12] = b"ACROSS&DOWN\0";
const HEADER_LEN: usize = 0x34;

fn minimal_puz() -> Vec<u8> {
    let mut bytes = vec![0u8; HEADER_LEN];
    bytes[0x02..0x0E].copy_from_slice(MAGIC);
    bytes[0x18..0x1C].copy_from_slice(b"1.3\0");
    bytes[0x2C] = 3; // width
    bytes[0x2D] = 1; // height
    bytes[0x2E..0x30].copy_from_slice(&1u16.to_le_bytes()); // num_clues
    bytes.extend_from_slice(b"CAT"); // solution
    bytes.extend_from_slice(b"CA-"); // player state: T not yet filled in
    bytes.push(0); // title
    bytes.push(0); // author
    bytes.push(0); // copyright
    bytes.extend_from_slice(b"a clue");
    bytes.push(0);
    bytes.push(0); // notes
    bytes
}

fn header(width: u8, height: u8, num_clues: u16) -> Vec<u8> {
    let mut bytes = vec![0u8; HEADER_LEN];
    bytes[0x02..0x0E].copy_from_slice(MAGIC);
    bytes[0x2C] = width;
    bytes[0x2D] = height;
    bytes[0x2E..0x30].copy_from_slice(&num_clues.to_le_bytes());
    bytes
}

#[test]
fn reads_minimal_puz_file() {
    let puz = read_puz(&minimal_puz()).unwrap();
    assert_eq!(puz.title, "");
    assert_eq!(puz.author, "");
    assert_eq!(puz.copyright, "");
    assert_eq!(puz.notes, "");
    assert_eq!(puz.clues, vec!["a clue".to_string()]);
    assert_eq!(puz.solution, Grid::parse("CAT").unwrap());
    assert_eq!(puz.player_state, Grid::parse("CA-").unwrap());
}

#[test]
fn rejects_short_files() {
    assert_eq!(read_puz(&[0u8; 10]).unwrap_err(), PuzError::TooShort);
}

#[test]
fn rejects_bad_magic() {
    let bytes = vec![0u8; HEADER_LEN];
    assert_eq!(read_puz(&bytes).unwrap_err(), PuzError::BadMagic);
}

#[test]
fn puz_rejects_zero_dimensions() {
    let mut bytes = vec![0u8; HEADER_LEN];
    bytes[0x02..0x0E].copy_from_slice(MAGIC);
    assert_eq!(read_puz(&bytes).unwrap_err(), PuzError::InvalidDimensions);
}

#[test]
fn rejects_truncated_board() {
    let mut bytes = vec![0u8; HEADER_LEN];
    bytes[0x02..0x0E].copy_from_slice(MAGIC);
    bytes[0x2C] = 5;
    bytes[0x2D] = 5;
    assert_eq!(read_puz(&bytes).unwrap_err(), PuzError::Truncated);
}

#[test]
fn one_byte_short_of_the_boards_is_truncated() {
    let mut bytes = header(2, 2, 0);
    bytes.extend_from_slice(b"ABCDABC");
    assert_eq!(read_puz(&bytes).unwrap_err(), PuzError::Truncated);
    bytes.push(b'D');
    assert!(read_puz(&bytes).is_ok());
}

#[test]
fn missing_strings_are_empty() {
    let mut bytes = header(1, 1, 2);
    bytes.extend_from_slice(b"X-");
    let puz = read_puz(&bytes).unwrap();
    assert_eq!(puz.title, "");
    assert_eq!(puz.author, "");
    assert_eq!(puz.copyright, "");
    assert_eq!(puz.clues, vec![String::new(), String::new()]);
    assert_eq!(puz.notes, "");
    assert_eq!(puz.solution.get(0, 0), Some(Cell::White(Some('X'))));
    assert_eq!(puz.player_state.get(0, 0), Some(Cell::White(None)));
}

#[test]
fn strings_are_read_in_order() {
    let mut bytes = header(2, 1, 2);
    bytes.extend_from_slice(b".a");
    bytes.extend_from_slice(b".-");
    bytes.extend_from_slice(b"Title\0Me\0(c)\0one\0two\0notes here");
    let puz = read_puz(&bytes).unwrap();
    assert_eq!(puz.title, "Title");
    assert_eq!(puz.author, "Me");
    assert_eq!(puz.copyright, "(c)");
    assert_eq!(puz.clues, vec!["one".to_string(), "two".to_string()]);
    assert_eq!(puz.notes, "notes here");
    assert_eq!(puz.solution, Grid::parse("#A").unwrap());
    assert_eq!(puz.player_state, Grid::parse("#.").unwrap());
}

#[test]
fn strings_are_latin1() {
    let mut bytes = header(1, 1, 0);
    bytes.extend_from_slice(b"AA");
    bytes.extend_from_slice(&[0x43, 0x61, 0x66, 0xE9, 0x00]);
    let puz = read_puz(&bytes).unwrap();
    assert_eq!(puz.title, "Caf\u{e9}");
}

#[test]
fn dash_on_the_solution_board_and_rebus_bytes_are_empty_squares() {
    let mut bytes = header(3, 1, 0);
    bytes.extend_from_slice(b"-1z");
    bytes.extend_from_slice(b"---");
    let puz = read_puz(&bytes).unwrap();
    assert_eq!(puz.solution.get(0, 0), Some(Cell::White(None)));
    assert_eq!(puz.solution.get(0, 1), Some(Cell::White(None)));
    assert_eq!(puz.solution.get(0, 2), Some(Cell::White(Some('Z'))));
    assert_eq!(puz.player_state.filled_count(), 0);
}

#[test]
fn boards_are_laid_out_row_by_row() {
    let mut bytes = header(2, 3, 0);
    bytes.extend_from_slice(b"AB.CDE");
    bytes.extend_from_slice(b"------");
    let puz = read_puz(&bytes).unwrap();
    assert_eq!(puz.solution.width(), 2);
    assert_eq!(puz.solution.height(), 3);
    assert_eq!(puz.solution, Grid::parse("AB\n#C\nDE").unwrap());
}

#[test]
fn checksum_bytes_are_ignored() {
    let plain = minimal_puz();
    let mut stamped = plain.clone();
    stamped[0x00] = 0xAB;
    stamped[0x01] = 0xCD;
    for i in 0x0E..0x18 {
        stamped[i] = 0x5A;
    }
    assert_eq!(read_puz(&plain), read_puz(&stamped));
}

#[test]
fn state_flag_does_not_change_decoding() {
    let mut bytes = header(4, 1, 0);
    bytes.extend_from_slice(b"-.q7");
    bytes.extend_from_slice(b"-.q7");
    let puz = read_puz(&bytes).unwrap();
    assert_eq!(puz.solution, puz.player_state);
}

#[test]
fn puz_error_messages() {
    assert_eq!(PuzError::TooShort.message(), "file is too short to contain a .puz header");
    assert_eq!(PuzError::BadMagic.message(), "missing ACROSS&DOWN file signature");
    assert_eq!(PuzError::Truncated.message(), "file ends before the board it declares");
    assert_eq!(PuzError::InvalidDimensions.message(), "width or height is zero");
}
