//! The codec between 81-character puzzle text and the board.
//!
//! A puzzle is one line of 81 bytes drawn from `'1'..='9'` and `'.'`,
//! row-major with no separators. Parsing turns digits into singleton
//! cells and dots into empty cells; formatting emits the same alphabet,
//! one byte per cell.

use crate::grid::Grid;
use crate::numset::{
    empty_ns, is_singleton, law_domain_algebra, ns_val, one_hot_spec, NumSet,
};
use crate::spaceset::SpaceSet;
use vstd::prelude::*;

verus! {

/// A parse failure, carrying the position of the first invalid byte.
#[derive(Clone, Copy, Debug, PartialEq, Eq, Structural)]
pub struct ParseGridError {
    pub pos: usize,
}

/// The bytes the puzzle alphabet allows: a digit or a dot.
pub open spec fn valid_cell_byte(b: u8) -> bool {
    b == 46 || (49 <= b <= 57)
}

/// The cell a byte denotes: a digit becomes its singleton, anything
/// else the empty cell.
pub open spec fn cell_of_byte(b: u8) -> NumSet {
    if 49 <= b <= 57 {
        one_hot_spec(b - 49)
    } else {
        empty_ns()
    }
}

/// How many leading bytes of the input the parser examines: at most 81.
pub open spec fn scan_len(s: Seq<u8>) -> int {
    if s.len() < 81 {
        s.len() as int
    } else {
        81
    }
}

/// The 81 cells a byte sequence denotes; positions past its end stay
/// empty and bytes past the 81st are ignored.
pub open spec fn parsed_cells(s: Seq<u8>) -> Seq<NumSet> {
    Seq::new(
        81,
        |i: int|
            if i < s.len() {
                cell_of_byte(s[i])
            } else {
                empty_ns()
            },
    )
}

/// The byte a cell is written as: its digit, or a dot when empty.
pub open spec fn byte_of_cell(c: NumSet) -> u8 {
    if c == empty_ns() {
        46
    } else {
        (49 + ns_val(c)) as u8
    }
}

/// The 81-byte text of a board.
pub open spec fn formatted(cells: Seq<NumSet>) -> Seq<u8> {
    Seq::new(81, |i: int| byte_of_cell(cells[i]))
}

/// Parses one line of puzzle text into a board.
///
/// Succeeds exactly when every examined byte is a digit or a dot, and
/// then yields the well-formed board those bytes denote; otherwise
/// reports the position of the first invalid byte.
pub fn parse(s: &[u8]) -> (r: Result<Grid, ParseGridError>)
    ensures
        match r {
            Ok(g) => {
                &&& forall|i: int| 0 <= i < scan_len(s@) ==> valid_cell_byte(#[trigger] s@[i])
                &&& g.wf()
                &&& g.data@ == parsed_cells(s@)
            },
            Err(e) => {
                &&& e.pos < scan_len(s@)
                &&& !valid_cell_byte(s@[e.pos as int])
                &&& forall|i: int| 0 <= i < e.pos ==> valid_cell_byte(#[trigger] s@[i])
            },
        },
{
    let mut data: Vec<NumSet> = Vec::new();
    let mut i: usize = 0;
    while i < 81
        invariant
            i <= 81,
            data@.len() == i,
            forall|j: int| 0 <= j < i ==> #[trigger] data@[j] == empty_ns(),
        decreases 81 - i,
    {
        data.push(NumSet::empty());
        i = i + 1;
    }
    let n = if s.len() < 81 {
        s.len()
    } else {
        81
    };
    let mut i: usize = 0;
    while i < n
        invariant
            i <= n,
            n == scan_len(s@),
            n <= s@.len(),
            data@.len() == 81,
            forall|j: int| 0 <= j < i ==> valid_cell_byte(#[trigger] s@[j]),
            forall|j: int| 0 <= j < i ==> #[trigger] data@[j] == cell_of_byte(s@[j]),
            forall|j: int| i <= j < 81 ==> #[trigger] data@[j] == empty_ns(),
        decreases n - i,
    {
        let b = s[i];
        if b == 46 {
        } else if 49 <= b && b <= 57 {
            data[i] = NumSet::one_hot(b - 49);
        } else {
            return Err(ParseGridError { pos: i });
        }
        i = i + 1;
    }
    proof {
        assert(data@ =~= parsed_cells(s@));
        assert forall|j: int| 0 <= j < 81 implies crate::grid::cell_ok(
            #[trigger] parsed_cells(s@)[j],
        ) by {
            let c = parsed_cells(s@)[j];
            if c != empty_ns() {
                assert(c == one_hot_spec(s@[j] - 49));
            }
        }
    }
    let spaces = SpaceSet::find_all(&data);
    Ok(Grid { data, spaces })
}

/// Writes a board back as 81 bytes of puzzle text.
pub fn format(g: &Grid) -> (r: Vec<u8>)
    requires
        g.wf(),
    ensures
        r@ == formatted(g.data@),
{
    let mut out: Vec<u8> = Vec::new();
    let mut i: usize = 0;
    while i < 81
        invariant
            i <= 81,
            g.wf(),
            out@.len() == i,
            forall|j: int| 0 <= j < i ==> #[trigger] out@[j] == byte_of_cell(g.data@[j]),
        decreases 81 - i,
    {
        let c = g.data[i];
        if c.is_empty() {
            out.push(46);
        } else {
            let v = c.val();
            proof {
                law_domain_algebra();
            }
            out.push(49 + v);
        }
        i = i + 1;
    }
    proof {
        assert(out@ =~= formatted(g.data@));
    }
    out
}

/// Round trip: the text of a fully assigned board parses back to the
/// very same cells, so formatting what was parsed from it gives the
/// same text again.
pub proof fn law_round_trip(cells: Seq<NumSet>)
    requires
        cells.len() == 81,
        forall|i: int| 0 <= i < 81 ==> is_singleton(#[trigger] cells[i]),
    ensures
        forall|i: int| 0 <= i < 81 ==> valid_cell_byte(#[trigger] formatted(cells)[i]),
        parsed_cells(formatted(cells)) == cells,
        formatted(parsed_cells(formatted(cells))) == formatted(cells),
{
    law_domain_algebra();
    assert forall|i: int| 0 <= i < 81 implies valid_cell_byte(#[trigger] formatted(cells)[i])
        && parsed_cells(formatted(cells))[i] == cells[i] by {
        let d = choose|d: int| 0 <= d < 9 && cells[i] == one_hot_spec(d);
        assert(ns_val(cells[i]) == d);
        assert(cells[i] != empty_ns()) by {
            crate::numset::lemma_bit_ops();
            assert(crate::numset::bit(cells[i].bits, d as u16));
            assert(!crate::numset::bit(empty_ns().bits, d as u16));
        }
        assert(formatted(cells)[i] == (49 + d) as u8);
    }
    assert(parsed_cells(formatted(cells)) =~= cells);
}

} // verus!
