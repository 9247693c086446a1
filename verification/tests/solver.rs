use sudoku::codec::{parse, ParseGridError};
use sudoku::grid::Grid;
use sudoku::numset::NumSet;

fn text_of(g: &Grid) -> Vec<u8> {
    sudoku::codec::format(g)
}

const PUZZLE: &str = "53..7....6..195....98....6.8...6...34..8.3..17...2...6.6....28....419..5....8..79";
const SOLUTION: &str = "534678912672195348198342567859761423426853791713924856961537284287419635345286179";

#[test]
fn test_end_to_end_scenario() {
    let mut g = parse(PUZZLE.as_bytes()).unwrap();
    assert!(g.resolv());
    assert_eq!(text_of(&g), SOLUTION.as_bytes().to_vec());
}

#[test]
fn test_noop_on_fully_assigned_board() {
    let mut g = parse(SOLUTION.as_bytes()).unwrap();
    assert!(g.resolv());
    assert_eq!(text_of(&g), SOLUTION.as_bytes().to_vec());
}

#[test]
fn test_unsolvable_preserves_input() {
    // Cell 0 is empty while its row, column, and box together already
    // use all nine digits: a direct contradiction.
    let bad = ".54678912672195348198342567859761423426853791713924856961537284287419635345286179";
    let mut g = parse(bad.as_bytes()).unwrap();
    assert!(!g.resolv());
    assert_eq!(text_of(&g), bad.as_bytes().to_vec());
}

#[test]
fn test_solution_satisfies_constraints() {
    let mut g = parse(PUZZLE.as_bytes()).unwrap();
    assert!(g.resolv());
    let out = text_of(&g);
    // Every row, column, and box holds each digit exactly once.
    for group in 0..9usize {
        let mut row = [false; 9];
        let mut col = [false; 9];
        let mut boxd = [false; 9];
        for k in 0..9usize {
            let r = (out[group * 9 + k] - b'1') as usize;
            assert!(!row[r]);
            row[r] = true;
            let c = (out[k * 9 + group] - b'1') as usize;
            assert!(!col[c]);
            col[c] = true;
            let bi = (group / 3) * 27 + (group % 3) * 3 + (k / 3) * 9 + k % 3;
            let b = (out[bi] - b'1') as usize;
            assert!(!boxd[b]);
            boxd[b] = true;
        }
    }
}

#[test]
fn test_solution_extends_givens() {
    let mut g = parse(PUZZLE.as_bytes()).unwrap();
    assert!(g.resolv());
    let out = text_of(&g);
    for (i, &b) in PUZZLE.as_bytes().iter().enumerate() {
        if b != b'.' {
            assert_eq!(out[i], b);
        }
    }
}

#[test]
fn test_round_trip_of_full_board() {
    let mut g = parse(PUZZLE.as_bytes()).unwrap();
    assert!(g.resolv());
    let text = text_of(&g);
    let g2 = parse(&text).unwrap();
    assert_eq!(text_of(&g2), text);
}

#[test]
fn test_parse_rejects_bad_byte() {
    let bad = "53..7....6..195....98....6.8...6...34..8x3..17...2...6.6....28....419..5....8..79";
    assert_eq!(parse(bad.as_bytes()).unwrap_err(), ParseGridError { pos: 40 });
}

#[test]
fn test_parse_reports_first_bad_position() {
    assert_eq!(parse(b"a.b").unwrap_err(), ParseGridError { pos: 0 });
    assert_eq!(parse(b".5x4x").unwrap_err(), ParseGridError { pos: 2 });
}

#[test]
fn test_parse_short_input_leaves_rest_empty() {
    let g = parse(b"123").unwrap();
    let out = text_of(&g);
    assert_eq!(&out[..3], b"123");
    assert!(out[3..].iter().all(|&b| b == b'.'));
    let blank = parse(b"").unwrap();
    assert!(text_of(&blank).iter().all(|&b| b == b'.'));
}

#[test]
fn test_parse_ignores_excess_bytes() {
    let mut long = String::from(SOLUTION);
    long.push('x');
    let g = parse(long.as_bytes()).unwrap();
    assert_eq!(text_of(&g), SOLUTION.as_bytes().to_vec());
}

#[test]
fn test_free_excludes_peer_digits() {
    let board = "123456789".to_string() + &".".repeat(72);
    let g = parse(board.as_bytes()).unwrap();
    // Cell (0, 1): column holds 1, its box holds 1,2,3, its row nothing.
    let f = g.free(0, 1);
    assert_eq!(f.len(), 6);
    assert!(!f.has_digit(0));
    assert!(!f.has_digit(1));
    assert!(!f.has_digit(2));
    assert!(f.has_digit(3));
    assert!(f.has_digit(8));
    // Peer-group queries behind it.
    assert_eq!(g.row(0), NumSet::full());
    assert_eq!(g.row(1), NumSet::empty());
    assert_eq!(g.col(0), NumSet::one_hot(0));
    assert_eq!(g.sqr(0, 0), NumSet::one_hot(0).union(NumSet::one_hot(1)).union(NumSet::one_hot(2)));
}
