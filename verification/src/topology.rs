//! Topology of the 9x9 grid: rows, columns, boxes, and the influence
//! relation between cell positions.
//!
//! Cell positions are the integers 0..81, row-major. Two distinct positions
//! influence each other when they share a row, a column, or a 3x3 box.

use vstd::prelude::*;
use itertools::Itertools;

verus! {

/// Row of a cell position, as a mathematical function.
pub open spec fn spec_row(p: int) -> int {
    p / 9
}

/// Column of a cell position, as a mathematical function.
pub open spec fn spec_col(p: int) -> int {
    p % 9
}

/// 3x3 box of a cell position, as a mathematical function.
pub open spec fn spec_sqr(p: int) -> int {
    spec_col(p) / 3 + (spec_row(p) / 3) * 3
}

/// The influence relation: `q` constrains `p` when both are on the grid,
/// they are distinct, and they share a row, column, or box.
pub open spec fn sees(p: int, q: int) -> bool {
    &&& 0 <= p < 81
    &&& 0 <= q < 81
    &&& p != q
    &&& (spec_row(p) == spec_row(q) || spec_col(p) == spec_col(q) || spec_sqr(p) == spec_sqr(q))
}

/// Row index (0..9) of the cell at `index`.
pub fn get_row(index: u8) -> (r: u8)
    requires
        index < 81,
    ensures
        r == spec_row(index as int),
{
    index / 9
}

/// Column index (0..9) of the cell at `index`.
pub fn get_col(index: u8) -> (r: u8)
    requires
        index < 81,
    ensures
        r == spec_col(index as int),
{
    index % 9
}

/// Box index (0..9) of the cell at `index`.
pub fn get_sqr(index: u8) -> (r: u8)
    requires
        index < 81,
    ensures
        r == spec_sqr(index as int),
{
    get_col(index) / 3 + (get_row(index) / 3) * 3
}

/// One of the three grouping kinds a position can be classified by.
spec fn group_match(mode: int, val: int, x: int) -> bool {
    if mode == 0 {
        spec_row(x) == val
    } else if mode == 1 {
        spec_col(x) == val
    } else {
        spec_sqr(x) == val
    }
}

/// Appends, in ascending order, every position whose row (`mode` 0),
/// column (`mode` 1) or box (`mode` 2) is `val`.
fn push_group(members: &mut Vec<u8>, mode: u8, val: u8)
    requires
        mode < 3,
        val < 9,
    ensures
        forall|x: u8|
            #![trigger final(members)@.contains(x)]
            final(members)@.contains(x) <==> (old(members)@.contains(x) || (x < 81 && group_match(
                mode as int,
                val as int,
                x as int,
            ))),
{
    broadcast use vstd::seq_lib::lemma_seq_contains_after_push;

    let ghost orig = members@;
    let mut q: u8 = 0;
    while q < 81
        invariant
            mode < 3,
            val < 9,
            q <= 81,
            forall|x: u8|
                members@.contains(x) <==> (orig.contains(x) || (x < q && group_match(
                    mode as int,
                    val as int,
                    x as int,
                ))),
        decreases 81 - q,
    {
        let ghost before = members@;
        let matched = if mode == 0 {
            get_row(q) == val
        } else if mode == 1 {
            get_col(q) == val
        } else {
            get_sqr(q) == val
        };
        if matched {
            members.push(q);
        }
        proof {
            if matched {
                assert(members@ == before.push(q));
                assert(group_match(mode as int, val as int, q as int));
                assert forall|x: u8|
                    members@.contains(x) <==> (before.contains(x) || x == q) by {
                    vstd::seq_lib::lemma_seq_contains_after_push(before, q, x);
                }
            } else {
                assert(members@ == before);
                assert(!group_match(mode as int, val as int, q as int));
            }
            assert forall|x: u8|
                members@.contains(x) <==> (orig.contains(x) || (x < q + 1 && group_match(
                    mode as int,
                    val as int,
                    x as int,
                ))) by {
                assert(before.contains(x) <==> (orig.contains(x) || (x < q && group_match(
                    mode as int,
                    val as int,
                    x as int,
                ))));
            }
        }
        q = q + 1;
    }
}

/// Relies on itertools' `Itertools::unique`: it yields the input's values
/// with duplicates removed, keeping the first occurrence of each.
#[verifier::external_body]
fn unique_u8(v: Vec<u8>) -> (r: Vec<u8>)
    ensures
        r@.no_duplicates(),
        forall|x: u8| r@.contains(x) <==> v@.contains(x),
{
    v.into_iter().unique().collect()
}

/// The influence set of the cell at `index`: every other position sharing
/// its row, column, or box, each position once.
pub fn get_influences(index: u8) -> (r: Vec<u8>)
    requires
        index < 81,
    ensures
        r@.no_duplicates(),
        forall|q: u8| r@.contains(q) <==> sees(index as int, q as int),
{
    broadcast use vstd::seq_lib::lemma_seq_contains_after_push;
    broadcast use vstd::seq_lib::lemma_seq_take_contains;

    let row = get_row(index);
    let col = get_col(index);
    let sqr = get_sqr(index);

    let mut members: Vec<u8> = Vec::new();
    let ghost stage0 = members@;
    push_group(&mut members, 0, row);
    let ghost stage1 = members@;
    push_group(&mut members, 1, col);
    let ghost stage2 = members@;
    push_group(&mut members, 2, sqr);

    let mut others: Vec<u8> = Vec::new();
    let mut k: usize = 0;
    let n = members.len();
    while k < n
        invariant
            n == members@.len(),
            k <= n,
            forall|x: u8| others@.contains(x) <==> (members@.take(k as int).contains(x) && x != index),
        decreases n - k,
    {
        let ghost before = others@;
        let x = members[k];
        if x != index {
            others.push(x);
        }
        proof {
            assert(members@.take(k as int + 1) =~= members@.take(k as int).push(members@[k as int]));
            if x != index {
                assert(others@ == before.push(x));
            } else {
                assert(others@ == before);
            }
            assert forall|y: u8|
                others@.contains(y) <==> (members@.take(k as int + 1).contains(y) && y
                    != index) by {
                vstd::seq_lib::lemma_seq_contains_after_push(
                    members@.take(k as int),
                    members@[k as int],
                    y,
                );
                if x != index {
                    vstd::seq_lib::lemma_seq_contains_after_push(before, x, y);
                }
                assert(before.contains(y) <==> (members@.take(k as int).contains(y) && y != index));
            }
        }
        k = k + 1;
    }
    proof {
        assert(members@.take(n as int) =~= members@);
        assert forall|x: u8| others@.contains(x) <==> sees(index as int, x as int) by {
            assert(others@.contains(x) <==> (members@.take(n as int).contains(x) && x != index));
            assert(members@.contains(x) <==> (stage2.contains(x) || (x < 81 && group_match(
                2,
                sqr as int,
                x as int,
            ))));
            assert(stage2.contains(x) <==> (stage1.contains(x) || (x < 81 && group_match(
                1,
                col as int,
                x as int,
            ))));
            assert(stage1.contains(x) <==> (stage0.contains(x) || (x < 81 && group_match(
                0,
                row as int,
                x as int,
            ))));
            assert(!stage0.contains(x));
        }
    }
    unique_u8(others)
}

} // verus!
