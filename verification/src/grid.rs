//! The board and its solver.
//!
//! A `Grid` is an 81-cell row-major array of digit domain sets (each
//! cell empty or a singleton) together with the removable index set of
//! currently unresolved cells. The solver assigns digits in place by
//! recursive backtracking, always branching on the most constrained
//! cell found by a greedy scan with a cardinality-one early exit.

use crate::numset::{
    bit, diff_spec, empty_ns, full_ns, is_singleton, lemma_bit_ops, lemma_card_below_bound,
    ns_card, ns_has, ns_val, one_hot_spec, members_spec, law_enumeration_complete,
    lemma_member_card_pos, NumSet,
};
use crate::spaceset::{lemma_remove_membership, SpaceSet};
use vstd::arithmetic::div_mod::{lemma_fundamental_div_mod, lemma_fundamental_div_mod_converse};
use vstd::prelude::*;

verus! {

/// An 81-cell board plus the set of unresolved cell indices.
#[derive(Clone, Debug)]
pub struct Grid {
    pub data: Vec<NumSet>,
    pub spaces: SpaceSet,
}

/// A stored cell is either unassigned or a single assigned digit.
pub open spec fn cell_ok(s: NumSet) -> bool {
    s == empty_ns() || is_singleton(s)
}

/// The union of the nine cells of row `y`.
pub open spec fn row_spec(cells: Seq<NumSet>, y: int) -> NumSet {
    NumSet {
        bits: cells[9 * y + 0].bits | cells[9 * y + 1].bits | cells[9 * y + 2].bits | cells[9 * y
            + 3].bits | cells[9 * y + 4].bits | cells[9 * y + 5].bits | cells[9 * y + 6].bits
            | cells[9 * y + 7].bits | cells[9 * y + 8].bits,
    }
}

/// The union of the nine cells of column `x`.
pub open spec fn col_spec(cells: Seq<NumSet>, x: int) -> NumSet {
    NumSet {
        bits: cells[0 + x].bits | cells[9 + x].bits | cells[18 + x].bits | cells[27 + x].bits
            | cells[36 + x].bits | cells[45 + x].bits | cells[54 + x].bits | cells[63 + x].bits
            | cells[72 + x].bits,
    }
}

/// The row-major index of the top-left cell of the box holding (x, y).
pub open spec fn box_base(x: int, y: int) -> int {
    27 * (y / 3) + 3 * (x / 3)
}

/// The union of the nine cells of the 3x3 box holding (x, y).
pub open spec fn sqr_spec(cells: Seq<NumSet>, x: int, y: int) -> NumSet {
    NumSet {
        bits: cells[box_base(x, y) + 0].bits | cells[box_base(x, y) + 1].bits | cells[box_base(
            x,
            y,
        ) + 2].bits | cells[box_base(x, y) + 9].bits | cells[box_base(x, y) + 10].bits | cells[
            box_base(x, y) + 11].bits | cells[box_base(x, y) + 18].bits | cells[box_base(x, y)
            + 19].bits | cells[box_base(x, y) + 20].bits,
    }
}

/// The digits not yet used by any cell of the row, column, or box of
/// (x, y): the full set minus the union of the three peer groups.
pub open spec fn free_spec(cells: Seq<NumSet>, x: int, y: int) -> NumSet {
    diff_spec(
        full_ns(),
        NumSet {
            bits: col_spec(cells, x).bits | row_spec(cells, y).bits | sqr_spec(cells, x, y).bits,
        },
    )
}

/// Two cell indices share a row.
pub open spec fn same_row(i: int, j: int) -> bool {
    i / 9 == j / 9
}

/// Two cell indices share a column.
pub open spec fn same_col(i: int, j: int) -> bool {
    i % 9 == j % 9
}

/// Two cell indices share a 3x3 box.
pub open spec fn same_box(i: int, j: int) -> bool {
    (i / 9) / 3 == (j / 9) / 3 && (i % 9) / 3 == (j % 9) / 3
}

/// Two cell indices constrain each other: same row, column, or box.
pub open spec fn same_group(i: int, j: int) -> bool {
    same_row(i, j) || same_col(i, j) || same_box(i, j)
}

/// No digit occurs in two distinct cells of a shared group: any two
/// such cells hold disjoint digit sets.
pub open spec fn consistent(cells: Seq<NumSet>) -> bool {
    forall|i: int, j: int|
        #![trigger cells[i], cells[j]]
        0 <= i < 81 && 0 <= j < 81 && i != j && same_group(i, j) ==> cells[i].bits & cells[j].bits
            == 0
}

/// Membership of a nine-way bitwise-or chain.
proof fn lemma_or9_member(
    s1: u16,
    s2: u16,
    s3: u16,
    s4: u16,
    s5: u16,
    s6: u16,
    s7: u16,
    s8: u16,
    s9: u16,
    d: u16,
)
    by (bit_vector)
    requires
        d < 9,
    ensures
        bit(s1 | s2 | s3 | s4 | s5 | s6 | s7 | s8 | s9, d) <==> (bit(s1, d) || bit(s2, d) || bit(
            s3,
            d,
        ) || bit(s4, d) || bit(s5, d) || bit(s6, d) || bit(s7, d) || bit(s8, d) || bit(s9, d)),
{
}

/// Membership of a three-way bitwise-or chain.
proof fn lemma_or3_member(s1: u16, s2: u16, s3: u16, d: u16)
    by (bit_vector)
    requires
        d < 9,
    ensures
        bit(s1 | s2 | s3, d) <==> (bit(s1, d) || bit(s2, d) || bit(s3, d)),
{
}

/// The row-major decomposition of a cell index: `j == 9 * (j / 9) + j % 9`
/// with both parts in range.
proof fn lemma_index_parts(j: int)
    requires
        0 <= j < 81,
    ensures
        j == 9 * (j / 9) + j % 9,
        0 <= j / 9 < 9,
        0 <= j % 9 < 9,
{
    lemma_fundamental_div_mod(j, 9);
    vstd::arithmetic::div_mod::lemma_mod_bound(j, 9);
}

/// A digit held by any cell of the row, column, or box of (x, y) shows
/// up in the union of those three peer groups.
proof fn lemma_cell_in_group_union(cells: Seq<NumSet>, x: int, y: int, j: int, d: int)
    requires
        cells.len() == 81,
        0 <= x < 9,
        0 <= y < 9,
        0 <= j < 81,
        same_group(9 * y + x, j),
        ns_has(cells[j], d),
    ensures
        bit(
            col_spec(cells, x).bits | row_spec(cells, y).bits | sqr_spec(cells, x, y).bits,
            d as u16,
        ),
{
    let i0 = 9 * y + x;
    lemma_fundamental_div_mod_converse(i0, 9, y, x);
    lemma_index_parts(j);
    let yj = j / 9;
    let xj = j % 9;
    let du = d as u16;
    if same_row(i0, j) {
        assert(yj == y);
        assert(cells[j] == cells[9 * y + xj]);
        lemma_or9_member(
            cells[9 * y + 0].bits,
            cells[9 * y + 1].bits,
            cells[9 * y + 2].bits,
            cells[9 * y + 3].bits,
            cells[9 * y + 4].bits,
            cells[9 * y + 5].bits,
            cells[9 * y + 6].bits,
            cells[9 * y + 7].bits,
            cells[9 * y + 8].bits,
            du,
        );
        assert(bit(row_spec(cells, y).bits, du));
    } else if same_col(i0, j) {
        assert(xj == x);
        assert(cells[j] == cells[9 * yj + x]);
        lemma_or9_member(
            cells[0 + x].bits,
            cells[9 + x].bits,
            cells[18 + x].bits,
            cells[27 + x].bits,
            cells[36 + x].bits,
            cells[45 + x].bits,
            cells[54 + x].bits,
            cells[63 + x].bits,
            cells[72 + x].bits,
            du,
        );
        assert(bit(col_spec(cells, x).bits, du));
    } else {
        assert(same_box(i0, j));
        lemma_fundamental_div_mod(yj, 3);
        lemma_fundamental_div_mod(xj, 3);
        vstd::arithmetic::div_mod::lemma_mod_bound(yj, 3);
        vstd::arithmetic::div_mod::lemma_mod_bound(xj, 3);
        let r = yj % 3;
        let c = xj % 3;
        assert(yj / 3 == y / 3 && xj / 3 == x / 3);
        assert(j == box_base(x, y) + 9 * r + c);
        lemma_or9_member(
            cells[box_base(x, y) + 0].bits,
            cells[box_base(x, y) + 1].bits,
            cells[box_base(x, y) + 2].bits,
            cells[box_base(x, y) + 9].bits,
            cells[box_base(x, y) + 10].bits,
            cells[box_base(x, y) + 11].bits,
            cells[box_base(x, y) + 18].bits,
            cells[box_base(x, y) + 19].bits,
            cells[box_base(x, y) + 20].bits,
            du,
        );
        assert(bit(sqr_spec(cells, x, y).bits, du));
    }
    lemma_or3_member(
        col_spec(cells, x).bits,
        row_spec(cells, y).bits,
        sqr_spec(cells, x, y).bits,
        du,
    );
}

/// A digit still free at (x, y) is held by no peer of that cell: its
/// singleton is disjoint from every cell sharing a row, column, or box.
pub proof fn lemma_free_blocks_peers(cells: Seq<NumSet>, x: int, y: int, d: int, j: int)
    requires
        cells.len() == 81,
        0 <= x < 9,
        0 <= y < 9,
        0 <= j < 81,
        same_group(9 * y + x, j),
        ns_has(free_spec(cells, x, y), d),
    ensures
        cells[j].bits & one_hot_spec(d).bits == 0,
        one_hot_spec(d).bits & cells[j].bits == 0,
{
    lemma_bit_ops();
    let du = d as u16;
    let u = col_spec(cells, x).bits | row_spec(cells, y).bits | sqr_spec(cells, x, y).bits;
    assert(bit(511u16 & !u, du));
    assert(!bit(u, du));
    if ns_has(cells[j], d) {
        lemma_cell_in_group_union(cells, x, y, j, d);
    }
    assert(!bit(cells[j].bits, du));
}

/// Assigning a still-free digit to its cell keeps the board consistent.
pub proof fn lemma_assign_keeps_consistent(cells: Seq<NumSet>, x: int, y: int, d: int)
    requires
        cells.len() == 81,
        0 <= x < 9,
        0 <= y < 9,
        consistent(cells),
        ns_has(free_spec(cells, x, y), d),
    ensures
        consistent(cells.update(9 * y + x, one_hot_spec(d))),
{
    let i0 = 9 * y + x;
    let new = cells.update(i0, one_hot_spec(d));
    assert forall|i: int, j: int|
        #![trigger new[i], new[j]]
        0 <= i < 81 && 0 <= j < 81 && i != j && same_group(i, j) implies new[i].bits & new[j].bits
        == 0 by {
        if i == i0 {
            lemma_free_blocks_peers(cells, x, y, d, j);
        } else if j == i0 {
            assert(same_group(j, i));
            lemma_free_blocks_peers(cells, x, y, d, i);
        } else {
            assert(cells[i].bits & cells[j].bits == 0);
        }
    }
}

/// A fully assigned, consistent board.
pub open spec fn is_solution(cells: Seq<NumSet>) -> bool {
    &&& cells.len() == 81
    &&& forall|i: int| 0 <= i < 81 ==> is_singleton(#[trigger] cells[i])
    &&& consistent(cells)
}

/// `sol` keeps every assigned cell of `cells`.
pub open spec fn extends(sol: Seq<NumSet>, cells: Seq<NumSet>) -> bool {
    forall|i: int| 0 <= i < 81 && #[trigger] cells[i] != empty_ns() ==> sol[i] == cells[i]
}

/// Some solution extends the board.
pub open spec fn solvable(cells: Seq<NumSet>) -> bool {
    exists|sol: Seq<NumSet>| #[trigger] extends(sol, cells) && is_solution(sol)
}

/// No cell sharing a group with an empty cell holds the digit a
/// solution puts into that empty cell.
proof fn lemma_peer_conflict(cells: Seq<NumSet>, sol: Seq<NumSet>, i0: int, j: int, d: int)
    requires
        cells.len() == 81,
        is_solution(sol),
        extends(sol, cells),
        0 <= i0 < 81,
        0 <= j < 81,
        same_group(i0, j),
        cells[i0] == empty_ns(),
        sol[i0] == one_hot_spec(d),
        0 <= d < 9,
    ensures
        !bit(cells[j].bits, d as u16),
{
    lemma_bit_ops();
    if bit(cells[j].bits, d as u16) {
        assert(cells[j] != empty_ns());
        assert(j != i0);
        assert(sol[j] == cells[j]);
        assert(sol[i0].bits & sol[j].bits == 0);
        assert(bit(sol[i0].bits, d as u16));
    }
}

/// The digit a solution assigns to a still-empty cell is a member of
/// that cell's free set.
#[verifier::rlimit(50)]
proof fn lemma_solution_digit_free(cells: Seq<NumSet>, sol: Seq<NumSet>, x: int, y: int)
    requires
        cells.len() == 81,
        is_solution(sol),
        extends(sol, cells),
        0 <= x < 9,
        0 <= y < 9,
        cells[9 * y + x] == empty_ns(),
    ensures
        ns_has(free_spec(cells, x, y), ns_val(sol[9 * y + x])),
{
    let i0 = 9 * y + x;
    let d = ns_val(sol[i0]);
    assert(is_singleton(sol[i0]));
    assert(0 <= d < 9 && sol[i0] == one_hot_spec(d));
    let du = d as u16;
    lemma_bit_ops();
    lemma_fundamental_div_mod_converse(i0, 9, y, x);
    let cb = col_spec(cells, x).bits;
    let rb = row_spec(cells, y).bits;
    let sb = sqr_spec(cells, x, y).bits;
    if bit(cb | rb | sb, du) {
        lemma_or3_member(cb, rb, sb, du);
        if bit(rb, du) {
            lemma_or9_member(
                cells[9 * y + 0].bits,
                cells[9 * y + 1].bits,
                cells[9 * y + 2].bits,
                cells[9 * y + 3].bits,
                cells[9 * y + 4].bits,
                cells[9 * y + 5].bits,
                cells[9 * y + 6].bits,
                cells[9 * y + 7].bits,
                cells[9 * y + 8].bits,
                du,
            );
            let k = choose|k: int| 0 <= k < 9 && #[trigger] bit(cells[9 * y + k].bits, du);
            lemma_fundamental_div_mod_converse(9 * y + k, 9, y, k);
            lemma_peer_conflict(cells, sol, i0, 9 * y + k, d);
        } else if bit(cb, du) {
            lemma_or9_member(
                cells[0 + x].bits,
                cells[9 + x].bits,
                cells[18 + x].bits,
                cells[27 + x].bits,
                cells[36 + x].bits,
                cells[45 + x].bits,
                cells[54 + x].bits,
                cells[63 + x].bits,
                cells[72 + x].bits,
                du,
            );
            let k = choose|k: int| 0 <= k < 9 && #[trigger] bit(cells[9 * k + x].bits, du);
            lemma_fundamental_div_mod_converse(9 * k + x, 9, k, x);
            lemma_peer_conflict(cells, sol, i0, 9 * k + x, d);
        } else {
            let b = box_base(x, y);
            lemma_or9_member(
                cells[b + 0].bits,
                cells[b + 1].bits,
                cells[b + 2].bits,
                cells[b + 9].bits,
                cells[b + 10].bits,
                cells[b + 11].bits,
                cells[b + 18].bits,
                cells[b + 19].bits,
                cells[b + 20].bits,
                du,
            );
            let bx = x / 3;
            let by = y / 3;
            lemma_index_parts(x);
            lemma_index_parts(y);
            lemma_fundamental_div_mod(x, 3);
            lemma_fundamental_div_mod(y, 3);
            vstd::arithmetic::div_mod::lemma_mod_bound(x, 3);
            vstd::arithmetic::div_mod::lemma_mod_bound(y, 3);
            assert(0 <= bx < 3 && 0 <= by < 3);
            let rc = choose|r: int, c: int|
                0 <= r < 3 && 0 <= c < 3 && #[trigger] bit(cells[b + 9 * r + c].bits, du);
            let r = rc.0;
            let c = rc.1;
            let j = b + 9 * r + c;
            lemma_fundamental_div_mod_converse(j, 9, 3 * by + r, 3 * bx + c);
            lemma_fundamental_div_mod_converse(3 * by + r, 3, by, r);
            lemma_fundamental_div_mod_converse(3 * bx + c, 3, bx, c);
            lemma_fundamental_div_mod_converse(i0 / 9, 3, by, y % 3);
            lemma_fundamental_div_mod_converse(i0 % 9, 3, bx, x % 3);
            assert(same_box(i0, j));
            lemma_peer_conflict(cells, sol, i0, j, d);
        }
    }
}

/// Nine one-hot values over nine positions with pairwise distinct
/// positions cover every position.
proof fn lemma_nine_distinct_cover(
    d1: u16,
    d2: u16,
    d3: u16,
    d4: u16,
    d5: u16,
    d6: u16,
    d7: u16,
    d8: u16,
    d9: u16,
)
    by (bit_vector)
    requires
        d1 < 9,
        d2 < 9,
        d3 < 9,
        d4 < 9,
        d5 < 9,
        d6 < 9,
        d7 < 9,
        d8 < 9,
        d9 < 9,
        d1 != d2 && d1 != d3 && d1 != d4 && d1 != d5 && d1 != d6 && d1 != d7 && d1 != d8 && d1
            != d9,
        d2 != d3 && d2 != d4 && d2 != d5 && d2 != d6 && d2 != d7 && d2 != d8 && d2 != d9,
        d3 != d4 && d3 != d5 && d3 != d6 && d3 != d7 && d3 != d8 && d3 != d9,
        d4 != d5 && d4 != d6 && d4 != d7 && d4 != d8 && d4 != d9,
        d5 != d6 && d5 != d7 && d5 != d8 && d5 != d9,
        d6 != d7 && d6 != d8 && d6 != d9,
        d7 != d8 && d7 != d9,
        d8 != d9,
    ensures
        (1u16 << d1) | (1u16 << d2) | (1u16 << d3) | (1u16 << d4) | (1u16 << d5) | (1u16 << d6) | (
        1u16 << d7) | (1u16 << d8) | (1u16 << d9) == 511,
{
}

/// The digits of nine pairwise-constraining singleton cells of a
/// consistent board are pairwise distinct, and their union is full.
proof fn lemma_group_cells_cover(cells: Seq<NumSet>, idx: Seq<int>)
    requires
        cells.len() == 81,
        consistent(cells),
        idx.len() == 9,
        forall|k: int| 0 <= k < 9 ==> 0 <= #[trigger] idx[k] < 81,
        forall|k: int, l: int| 0 <= k < 9 && 0 <= l < 9 && k != l ==> idx[k] != idx[l],
        forall|k: int, l: int|
            0 <= k < 9 && 0 <= l < 9 && k != l ==> same_group(#[trigger] idx[k], #[trigger] idx[l]),
        forall|k: int| 0 <= k < 9 ==> is_singleton(cells[#[trigger] idx[k]]),
    ensures
        cells[idx[0]].bits | cells[idx[1]].bits | cells[idx[2]].bits | cells[idx[3]].bits
            | cells[idx[4]].bits | cells[idx[5]].bits | cells[idx[6]].bits | cells[idx[7]].bits
            | cells[idx[8]].bits == 511,
{
    lemma_bit_ops();
    let e = Seq::new(9, |k: int| choose|d: int| 0 <= d < 9 && cells[idx[k]] == one_hot_spec(d));
    assert forall|k: int| 0 <= k < 9 implies 0 <= #[trigger] e[k] < 9 && cells[idx[k]]
        == one_hot_spec(e[k]) by {
        assert(is_singleton(cells[idx[k]]));
    }
    assert forall|k: int, l: int| 0 <= k < 9 && 0 <= l < 9 && k != l implies e[k] != e[l] by {
        assert(cells[idx[k]].bits & cells[idx[l]].bits == 0);
        if e[k] == e[l] {
            assert((1u16 << (e[k] as u16)) & (1u16 << (e[k] as u16)) == (1u16 << (e[k] as u16)));
            assert((1u16 << (e[k] as u16)) != 0);
        }
    }
    lemma_nine_distinct_cover(
        e[0] as u16,
        e[1] as u16,
        e[2] as u16,
        e[3] as u16,
        e[4] as u16,
        e[5] as u16,
        e[6] as u16,
        e[7] as u16,
        e[8] as u16,
    );
}

/// Constraint satisfaction: on a consistent, fully assigned board every
/// row, column, and 3x3 box holds the full digit set, so with nine
/// singleton cells per group each digit occurs exactly once in each.
pub proof fn law_constraint_satisfaction(cells: Seq<NumSet>)
    requires
        cells.len() == 81,
        forall|i: int| 0 <= i < 81 ==> is_singleton(#[trigger] cells[i]),
        consistent(cells),
    ensures
        forall|y: int| 0 <= y < 9 ==> row_spec(cells, y) == full_ns(),
        forall|x: int| 0 <= x < 9 ==> col_spec(cells, x) == full_ns(),
        forall|x: int, y: int| 0 <= x < 9 && 0 <= y < 9 ==> sqr_spec(cells, x, y) == full_ns(),
{
    assert forall|y: int| 0 <= y < 9 implies row_spec(cells, y) == full_ns() by {
        let idx = Seq::new(9, |k: int| 9 * y + k);
        assert forall|k: int, l: int|
            0 <= k < 9 && 0 <= l < 9 && k != l implies same_group(idx[k], idx[l]) by {
            lemma_fundamental_div_mod_converse(9 * y + k, 9, y, k);
            lemma_fundamental_div_mod_converse(9 * y + l, 9, y, l);
        }
        lemma_group_cells_cover(cells, idx);
    }
    assert forall|x: int| 0 <= x < 9 implies col_spec(cells, x) == full_ns() by {
        let idx = Seq::new(9, |k: int| 9 * k + x);
        assert forall|k: int, l: int|
            0 <= k < 9 && 0 <= l < 9 && k != l implies same_group(idx[k], idx[l]) by {
            lemma_fundamental_div_mod_converse(9 * k + x, 9, k, x);
            lemma_fundamental_div_mod_converse(9 * l + x, 9, l, x);
        }
        lemma_group_cells_cover(cells, idx);
    }
    assert forall|x: int, y: int|
        0 <= x < 9 && 0 <= y < 9 implies sqr_spec(cells, x, y) == full_ns() by {
        let bx = x / 3;
        let by = y / 3;
        assert(0 <= bx < 3 && 0 <= by < 3) by (nonlinear_arith)
            requires
                0 <= x < 9,
                0 <= y < 9,
                bx == x / 3,
                by == y / 3,
        ;
        let b = 27 * by + 3 * bx;
        assert(b == box_base(x, y));
        let idx = Seq::new(9, |k: int| b + 9 * (k / 3) + k % 3);
        assert forall|k: int| 0 <= k < 9 implies #[trigger] idx[k] == b + 9 * (k / 3) + k % 3
            && 0 <= k / 3 < 3 && 0 <= k % 3 < 3 by {
            lemma_index_parts3(k);
        }
        assert forall|k: int, l: int|
            0 <= k < 9 && 0 <= l < 9 && k != l implies idx[k] != idx[l] && same_group(
            idx[k],
            idx[l],
        ) by {
            lemma_index_parts3(k);
            lemma_index_parts3(l);
            let rk = k / 3;
            let ck = k % 3;
            let rl = l / 3;
            let cl = l % 3;
            lemma_fundamental_div_mod_converse(idx[k], 9, 3 * by + rk, 3 * bx + ck);
            lemma_fundamental_div_mod_converse(idx[l], 9, 3 * by + rl, 3 * bx + cl);
            lemma_fundamental_div_mod_converse(3 * by + rk, 3, by, rk);
            lemma_fundamental_div_mod_converse(3 * by + rl, 3, by, rl);
            lemma_fundamental_div_mod_converse(3 * bx + ck, 3, bx, ck);
            lemma_fundamental_div_mod_converse(3 * bx + cl, 3, bx, cl);
        }
        lemma_group_cells_cover(cells, idx);
        assert(idx[0] == b + 0 && idx[1] == b + 1 && idx[2] == b + 2 && idx[3] == b + 9 && idx[4]
            == b + 10 && idx[5] == b + 11 && idx[6] == b + 18 && idx[7] == b + 19 && idx[8] == b
            + 20);
    }
}

/// The base-3 decomposition of a position inside a box.
proof fn lemma_index_parts3(k: int)
    requires
        0 <= k < 9,
    ensures
        k == 3 * (k / 3) + k % 3,
        0 <= k / 3 < 3,
        0 <= k % 3 < 3,
{
    lemma_fundamental_div_mod(k, 3);
    vstd::arithmetic::div_mod::lemma_mod_bound(k, 3);
}

impl Grid {
    /// The board invariant: 81 cells, each empty or a singleton, and
    /// the space set holds exactly the indices of the empty cells,
    /// each once.
    pub open spec fn wf(self) -> bool {
        &&& self.data@.len() == 81
        &&& forall|i: int| 0 <= i < 81 ==> cell_ok(#[trigger] self.data@[i])
        &&& self.spaces@.no_duplicates()
        &&& self.spaces@.len() <= 81
        &&& forall|k: int| 0 <= k < self.spaces@.len() ==> #[trigger] self.spaces@[k] < 81
        &&& forall|i: int|
            0 <= i < 81 ==> (self.spaces@.contains(i as usize) <==> #[trigger] self.data@[i]
                == empty_ns())
    }

    /// The union of the cells of row `y`.
    pub fn row(&self, y: usize) -> (r: NumSet)
        requires
            self.data@.len() == 81,
            y < 9,
        ensures
            r == row_spec(self.data@, y as int),
    {
        let b = y * 9;
        NumSet {
            bits: self.data[b].bits | self.data[b + 1].bits | self.data[b + 2].bits | self.data[b
                + 3].bits | self.data[b + 4].bits | self.data[b + 5].bits | self.data[b + 6].bits
                | self.data[b + 7].bits | self.data[b + 8].bits,
        }
    }

    /// The union of the cells of column `x`.
    pub fn col(&self, x: usize) -> (r: NumSet)
        requires
            self.data@.len() == 81,
            x < 9,
        ensures
            r == col_spec(self.data@, x as int),
    {
        NumSet {
            bits: self.data[x].bits | self.data[9 + x].bits | self.data[18 + x].bits | self.data[27
                + x].bits | self.data[36 + x].bits | self.data[45 + x].bits | self.data[54
                + x].bits | self.data[63 + x].bits | self.data[72 + x].bits,
        }
    }

    /// The union of the cells of the 3x3 box holding (x, y).
    pub fn sqr(&self, x: usize, y: usize) -> (r: NumSet)
        requires
            self.data@.len() == 81,
            x < 9,
            y < 9,
        ensures
            r == sqr_spec(self.data@, x as int, y as int),
    {
        let b = (y / 3) * 27 + (x / 3) * 3;
        NumSet {
            bits: self.data[b].bits | self.data[b + 1].bits | self.data[b + 2].bits | self.data[b
                + 9].bits | self.data[b + 10].bits | self.data[b + 11].bits | self.data[b
                + 18].bits | self.data[b + 19].bits | self.data[b + 20].bits,
        }
    }

    /// The candidate digits still open for cell (x, y).
    pub fn free(&self, x: usize, y: usize) -> (r: NumSet)
        requires
            self.data@.len() == 81,
            x < 9,
            y < 9,
        ensures
            r == free_spec(self.data@, x as int, y as int),
    {
        let col = self.col(x);
        let row = self.row(y);
        let sqr = self.sqr(x, y);
        NumSet { bits: 511u16 & !(col.bits | row.bits | sqr.bits) }
    }

    /// Solves the board in place by backtracking.
    ///
    /// Scans the unresolved cells for the most constrained one, stopping
    /// early at a single-candidate cell or failing fast on a zero-candidate
    /// cell, then tries that cell's candidates in ascending digit order,
    /// recursing after each tentative assignment and undoing it if no
    /// candidate leads to a solution.
    ///
    /// On success every cell is assigned, every assignment taken from the
    /// cell's free set, so a consistent board stays consistent; on failure
    /// the cells and the space-set membership are exactly as on entry.
    /// The search is exhaustive: a board some solution extends is always
    /// solved, so on a consistent board the result is `true` exactly when
    /// the board is solvable.
    pub fn resolv(&mut self) -> (r: bool)
        requires
            old(self).wf(),
        ensures
            final(self).wf(),
            !r ==> final(self).data@ == old(self).data@,
            !r ==> final(self).spaces@.len() == old(self).spaces@.len(),
            !r ==> (forall|z: usize| final(self).spaces@.contains(z) <==> old(
                self,
            ).spaces@.contains(z)),
            r ==> final(self).spaces@.len() == 0,
            r ==> (forall|i: int| 0 <= i < 81 ==> is_singleton(#[trigger] final(self).data@[i])),
            r ==> (forall|i: int|
                0 <= i < 81 && old(self).data@[i] != empty_ns() ==> final(self).data@[i] == old(
                    self,
                ).data@[i]),
            (r && consistent(old(self).data@)) ==> consistent(final(self).data@),
            old(self).spaces@.len() == 0 ==> r && *final(self) == *old(self),
            solvable(old(self).data@) ==> r,
            (r && consistent(old(self).data@)) ==> solvable(old(self).data@),
        decreases old(self).spaces@.len(),
    {
        let n = self.spaces.len();
        let mut best_index: usize = 0;
        let mut best_space: usize = 0;
        let mut best_set = NumSet::full();
        let mut best_len: u32 = 10;
        let mut k: usize = 0;
        while k < n && best_len != 1
            invariant
                *self == *old(self),
                self.wf(),
                n == self.spaces@.len(),
                k <= n,
                best_len == 10 ==> k == 0,
                best_len != 10 ==> {
                    &&& 1 <= best_len <= 9
                    &&& (best_index as int) < self.spaces@.len()
                    &&& self.spaces@[best_index as int] == best_space
                    &&& best_space < 81
                    &&& best_set == free_spec(
                        self.data@,
                        (best_space % 9) as int,
                        (best_space / 9) as int,
                    )
                    &&& best_len as nat == ns_card(best_set)
                },
            decreases n - k,
        {
            let space = self.spaces.get(k);
            let x = space % 9;
            let y = space / 9;
            assert(y < 9) by (nonlinear_arith)
                requires
                    space < 81,
                    y == space / 9,
            ;
            let f = self.free(x, y);
            let fl = f.len();
            proof {
                lemma_card_below_bound(f, 9);
            }
            if fl == 0 {
                proof {
                    assert(!solvable(self.data@)) by {
                        if solvable(self.data@) {
                            let sol = choose|sol: Seq<NumSet>|
                                #[trigger] extends(sol, self.data@) && is_solution(sol);
                            lemma_fundamental_div_mod(space as int, 9);
                            assert(self.spaces@.contains(space));
                            lemma_solution_digit_free(self.data@, sol, x as int, y as int);
                            lemma_member_card_pos(f, ns_val(sol[space as int]));
                        }
                    }
                }
                return false;
            }
            if fl < best_len {
                best_index = k;
                best_space = space;
                best_set = f;
                best_len = fl;
            }
            k = k + 1;
        }
        if best_len == 10 {
            assert(n == 0);
            assert forall|i: int| 0 <= i < 81 implies is_singleton(#[trigger] self.data@[i]) by {
                assert(!self.spaces@.contains(i as usize));
            }
            proof {
                if consistent(self.data@) {
                    assert(extends(self.data@, self.data@));
                    assert(solvable(self.data@));
                }
            }
            return true;
        }
        let ghost cells0 = self.data@;
        let ghost spaces0 = self.spaces@;
        let x = best_space % 9;
        let y = best_space / 9;
        assert(y < 9) by (nonlinear_arith)
            requires
                best_space < 81,
                y == best_space / 9,
        ;
        let ghost i0: int = best_space as int;
        proof {
            lemma_fundamental_div_mod(i0, 9);
            lemma_remove_membership(spaces0, best_index as int);
        }
        self.spaces.remove(best_index);
        let cands = best_set.members();
        proof {
            law_enumeration_complete(best_set);
        }
        let mut t: usize = 0;
        while t < cands.len()
            invariant
                cells0 == old(self).data@,
                spaces0 == old(self).spaces@,
                spaces0.no_duplicates(),
                spaces0.len() <= 81,
                spaces0.contains(best_space),
                cells0.len() == 81,
                self.data@.len() == 81,
                t <= cands@.len(),
                cands@.len() == members_spec(best_set).len(),
                forall|k: int|
                    0 <= k < cands@.len() ==> cands@[k] == one_hot_spec(
                        #[trigger] members_spec(best_set)[k],
                    ),
                forall|k: int|
                    0 <= k < members_spec(best_set).len() ==> ns_has(
                        best_set,
                        #[trigger] members_spec(best_set)[k],
                    ),
                best_set == free_spec(cells0, x as int, y as int),
                x < 9,
                y < 9,
                i0 == best_space as int,
                i0 == 9 * (y as int) + (x as int),
                0 <= i0 < 81,
                cells0[i0] == empty_ns(),
                forall|i: int| 0 <= i < 81 && i != i0 ==> #[trigger] self.data@[i] == cells0[i],
                forall|i: int| 0 <= i < 81 ==> cell_ok(#[trigger] self.data@[i]),
                self.spaces@.no_duplicates(),
                self.spaces@.len() == spaces0.len() - 1,
                forall|k: int| 0 <= k < self.spaces@.len() ==> #[trigger] self.spaces@[k] < 81,
                forall|z: usize|
                    #[trigger] self.spaces@.contains(z) <==> (spaces0.contains(z) && z
                        != best_space),
                forall|i: int|
                    0 <= i < 81 && i != i0 ==> (self.spaces@.contains(i as usize)
                        <==> #[trigger] self.data@[i] == empty_ns()),
                consistent(cells0) ==> consistent(self.data@),
                forall|t0: int|
                    0 <= t0 < t ==> !solvable(
                        cells0.update(i0, one_hot_spec(#[trigger] members_spec(best_set)[t0])),
                    ),
            decreases cands@.len() - t,
        {
            let c = cands[t];
            let ghost m = members_spec(best_set)[t as int];
            proof {
                assert(c == one_hot_spec(m));
                assert(ns_has(best_set, m));
                if consistent(cells0) {
                    lemma_assign_keeps_consistent(cells0, x as int, y as int, m);
                }
            }
            self.data[best_space] = c;
            proof {
                assert(self.data@ =~= cells0.update(i0, c));
                assert(c != empty_ns()) by {
                    lemma_bit_ops();
                    assert(bit(c.bits, m as u16));
                    assert(!bit(empty_ns().bits, m as u16));
                }
                assert(self.wf());
            }
            let ghost pre = *self;
            let r = self.resolv();
            if r {
                proof {
                    assert forall|i: int|
                        0 <= i < 81 && cells0[i] != empty_ns() implies self.data@[i]
                        == cells0[i] by {
                        assert(pre.data@[i] == cells0[i]);
                    }
                    if consistent(cells0) {
                        assert(extends(self.data@, cells0));
                        assert(solvable(cells0));
                    }
                }
                return true;
            }
            proof {
                assert(!solvable(pre.data@));
                assert(pre.data@ == cells0.update(i0, one_hot_spec(m)));
            }
            t = t + 1;
        }
        self.data[best_space] = NumSet::empty();
        proof {
            assert(self.data@ =~= cells0);
        }
        let ghost before_insert = self.spaces@;
        self.spaces.insert(best_space);
        proof {
            assert(self.spaces@ == before_insert.push(best_space));
            assert forall|z: usize| self.spaces@.contains(z) implies spaces0.contains(z) by {
                let w = choose|w: int| 0 <= w < self.spaces@.len() && self.spaces@[w] == z;
                if w < before_insert.len() {
                    assert(before_insert[w] == z);
                    assert(before_insert.contains(z));
                } else {
                    assert(z == best_space);
                }
            }
            assert forall|z: usize| spaces0.contains(z) implies self.spaces@.contains(z) by {
                if z == best_space {
                    assert(self.spaces@[self.spaces@.len() - 1] == z);
                } else {
                    assert(before_insert.contains(z));
                    let w = choose|w: int|
                        0 <= w < before_insert.len() && before_insert[w] == z;
                    assert(self.spaces@[w] == z);
                }
            }
            assert(self.spaces@.no_duplicates()) by {
                assert forall|a: int, b: int|
                    0 <= a < self.spaces@.len() && 0 <= b < self.spaces@.len() && a
                        != b implies self.spaces@[a] != self.spaces@[b] by {
                    if a < before_insert.len() && b < before_insert.len() {
                    } else if a < before_insert.len() {
                        if before_insert[a] == best_space {
                            assert(before_insert.contains(best_space));
                        }
                    } else if b < before_insert.len() {
                        if before_insert[b] == best_space {
                            assert(before_insert.contains(best_space));
                        }
                    }
                }
            }
            assert(!solvable(cells0)) by {
                if solvable(cells0) {
                    let sol = choose|sol: Seq<NumSet>|
                        #[trigger] extends(sol, cells0) && is_solution(sol);
                    lemma_solution_digit_free(cells0, sol, x as int, y as int);
                    let d = ns_val(sol[i0]);
                    assert(is_singleton(sol[i0]));
                    assert(0 <= d < 9 && sol[i0] == one_hot_spec(d));
                    law_enumeration_complete(best_set);
                    assert(members_spec(best_set).contains(d));
                    let t0 = choose|t0: int|
                        0 <= t0 < members_spec(best_set).len() && members_spec(best_set)[t0] == d;
                    let up = cells0.update(i0, one_hot_spec(d));
                    assert(extends(sol, up)) by {
                        assert forall|i: int|
                            0 <= i < 81 && #[trigger] up[i] != empty_ns() implies sol[i]
                            == up[i] by {
                            if i != i0 {
                                assert(cells0[i] == up[i]);
                            }
                        }
                    }
                    assert(solvable(up));
                    assert(!solvable(
                        cells0.update(i0, one_hot_spec(members_spec(best_set)[t0])),
                    ));
                }
            }
        }
        false
    }
}

} // verus!
