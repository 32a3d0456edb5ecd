//! The search driver and the result collector.
//!
//! The driver keeps a work list of boards: each board is resolved once;
//! terminal verdicts are collected, and a branch verdict puts every clone
//! back on the list. A potential function over the work list — each board
//! weighs ten to the power of its undetermined-tile count — strictly
//! shrinks at every step, which bounds the whole search.

use vstd::prelude::*;
use crate::board::Board;
use crate::board::Tile;
use crate::board::all_determined;
use crate::board::at_fixpoint;
use crate::board::board_wf;
use crate::board::cand_count;
use crate::board::cand_list;
use crate::board::candidate;
use crate::board::determined;
use crate::board::has_contradiction;
use crate::board::lemma_cands_below;
use crate::board::lemma_refines_trans;
use crate::board::refines;
use crate::board::solution_of;
use crate::board::tile_refines;
use crate::board::tile_wf;
use crate::solve::BoardResult;
use crate::solve::result_admits;
use crate::solve::first_undet;
use crate::solve::is_branch_list;
use crate::solve::is_committed_clone;
use crate::solve::lemma_first_undet;

verus! {

/// How many tiles of a sequence have no committed value.
spec fn undet_count(s: Seq<Tile>) -> nat
    decreases s.len(),
{
    if s.len() == 0 {
        0
    } else {
        undet_count(s.drop_last()) + if determined(s.last()) {
            0nat
        } else {
            1nat
        }
    }
}

/// Ten to the power `n`.
spec fn pow10(n: nat) -> nat
    decreases n,
{
    if n == 0 {
        1
    } else {
        10 * pow10((n - 1) as nat)
    }
}

/// The weight of one board on the work list: an upper-bound-shaped
/// measure of the search still below it.
spec fn board_pot(b: Board) -> nat {
    pow10(undet_count(b@))
}

/// The combined weight of a work list.
spec fn total_pot(s: Seq<Board>) -> nat
    decreases s.len(),
{
    if s.len() == 0 {
        0
    } else {
        total_pot(s.drop_last()) + board_pot(s.last())
    }
}

proof fn lemma_pow10_pos(n: nat)
    ensures
        pow10(n) >= 1,
    decreases n,
{
    if n > 0 {
        lemma_pow10_pos((n - 1) as nat);
    }
}

proof fn lemma_pow10_mono(a: nat, b: nat)
    requires
        a <= b,
    ensures
        pow10(a) <= pow10(b),
    decreases b,
{
    if b > 0 && a < b {
        lemma_pow10_mono(a, (b - 1) as nat);
        lemma_pow10_pos((b - 1) as nat);
    }
}

proof fn lemma_undet_update(s: Seq<Tile>, i: int, t: Tile)
    requires
        0 <= i < s.len(),
    ensures
        undet_count(s.update(i, t)) + (if determined(s[i]) {
            0nat
        } else {
            1nat
        }) == undet_count(s) + (if determined(t) {
            0nat
        } else {
            1nat
        }),
    decreases s.len(),
{
    let s2 = s.update(i, t);
    if i == s.len() - 1 {
        assert(s2.drop_last() =~= s.drop_last());
        assert(s2.last() == t);
        assert(s.last() == s[i]);
    } else {
        assert(s2.drop_last() =~= s.drop_last().update(i, t));
        lemma_undet_update(s.drop_last(), i, t);
        assert(s2.last() == s.last());
    }
}

proof fn lemma_undet_mono(s1: Seq<Tile>, s2: Seq<Tile>)
    requires
        s1.len() == s2.len(),
        forall|i: int| 0 <= i < s1.len() && determined(#[trigger] s2[i]) ==> determined(s1[i]),
    ensures
        undet_count(s1) <= undet_count(s2),
    decreases s1.len(),
{
    if s1.len() > 0 {
        assert forall|i: int|
            0 <= i < s1.drop_last().len() && determined(#[trigger] s2.drop_last()[i]) implies
            determined(s1.drop_last()[i]) by {
            assert(s2.drop_last()[i] == s2[i]);
            assert(s1.drop_last()[i] == s1[i]);
        }
        lemma_undet_mono(s1.drop_last(), s2.drop_last());
        assert(s1.last() == s1[s1.len() - 1]);
        assert(s2.last() == s2[s2.len() - 1]);
    }
}

proof fn lemma_undet_pos(s: Seq<Tile>, i: int)
    requires
        0 <= i < s.len(),
        !determined(s[i]),
    ensures
        undet_count(s) >= 1,
    decreases s.len(),
{
    if i < s.len() - 1 {
        assert(s.drop_last()[i] == s[i]);
        lemma_undet_pos(s.drop_last(), i);
    }
}

proof fn lemma_total_pot_push(s: Seq<Board>, b: Board)
    ensures
        total_pot(s.push(b)) == total_pot(s) + board_pot(b),
{
    assert(s.push(b).drop_last() =~= s);
    assert(s.push(b).last() == b);
}

/// Some board of `pending` or of `solved` still keeps the assignment `s`
/// open.
spec fn search_open(s: Seq<u8>, pending: Seq<Board>, solved: Seq<Board>) -> bool {
    ||| exists|i: int| 0 <= i < pending.len() && solution_of(s, #[trigger] pending[i])
    ||| exists|i: int| 0 <= i < solved.len() && solution_of(s, #[trigger] solved[i])
}

proof fn lemma_sol_exists_push(v: Seq<Board>, b: Board, s: Seq<u8>)
    ensures
        (exists|i: int| 0 <= i < v.push(b).len() && solution_of(s, #[trigger] v.push(b)[i]))
            <==> ((exists|i: int| 0 <= i < v.len() && solution_of(s, #[trigger] v[i]))
            || solution_of(s, b)),
{
    if exists|i: int| 0 <= i < v.push(b).len() && solution_of(s, #[trigger] v.push(b)[i]) {
        let i = choose|i: int|
            0 <= i < v.push(b).len() && solution_of(s, #[trigger] v.push(b)[i]);
        if i < v.len() {
            assert(v[i] == v.push(b)[i]);
        } else {
            assert(v.push(b)[i] == b);
        }
    }
    if exists|i: int| 0 <= i < v.len() && solution_of(s, #[trigger] v[i]) {
        let i = choose|i: int| 0 <= i < v.len() && solution_of(s, #[trigger] v[i]);
        assert(v.push(b)[i] == v[i]);
    }
    if solution_of(s, b) {
        assert(v.push(b)[v.len() as int] == b);
    }
}

/// Resolves `board` and, exhaustively, every branch clone the search
/// spawns, sequentially. Returns the solved boards and the dead-end
/// boards: every solved board is a fully determined, contradiction-free
/// narrowing of the input, and every failed board is a narrowing whose
/// candidates emptied out. The solved boards keep open exactly the valid
/// assignments the input kept open: no solution is lost, none invented.
pub fn solve_all(board: Board) -> (r: (Vec<Board>, Vec<Board>))
    requires
        board_wf(board),
    ensures
        forall|i: int|
            0 <= i < r.0@.len() ==> board_wf(#[trigger] r.0@[i]) && all_determined(r.0@[i])
                && !has_contradiction(r.0@[i]) && refines(r.0@[i], board),
        forall|i: int|
            0 <= i < r.1@.len() ==> board_wf(#[trigger] r.1@[i]) && has_contradiction(r.1@[i])
                && refines(r.1@[i], board),
        r.0@.len() + r.1@.len() >= 1,
        all_determined(board) ==> r.0@ == seq![board] && r.1@.len() == 0,
        forall|s: Seq<u8>|
            solution_of(s, board) <==> exists|i: int|
                0 <= i < r.0@.len() && solution_of(s, #[trigger] r.0@[i]),
{
    let mut solved: Vec<Board> = Vec::new();
    let mut failed: Vec<Board> = Vec::new();
    let mut pending: Vec<Board> = Vec::new();
    pending.push(board);
    proof {
        crate::board::lemma_refines_refl(board);
        assert(pending@ =~= seq![board]);
        assert forall|s: Seq<u8>|
            solution_of(s, board) <==> search_open(s, pending@, solved@) by {
            if solution_of(s, board) {
                assert(pending@[0] == board);
            }
        }
    }
    while pending.len() > 0
        invariant
            board_wf(board),
            forall|i: int|
                0 <= i < pending@.len() ==> board_wf(#[trigger] pending@[i]) && refines(
                    pending@[i],
                    board,
                ),
            forall|i: int|
                0 <= i < solved@.len() ==> board_wf(#[trigger] solved@[i]) && all_determined(
                    solved@[i],
                ) && !has_contradiction(solved@[i]) && refines(solved@[i], board),
            forall|i: int|
                0 <= i < failed@.len() ==> board_wf(#[trigger] failed@[i]) && has_contradiction(
                    failed@[i],
                ) && refines(failed@[i], board),
            solved@.len() + failed@.len() + pending@.len() >= 1,
            all_determined(board) ==> ((pending@ == seq![board] && solved@.len() == 0
                && failed@.len() == 0) || (pending@.len() == 0 && solved@ == seq![board]
                && failed@.len() == 0)),
            forall|s: Seq<u8>| solution_of(s, board) <==> search_open(s, pending@, solved@),
        decreases total_pot(pending@),
    {
        let ghost head = pending@;
        let b = pending.pop().unwrap();
        proof {
            assert(board_wf(head[head.len() - 1]) && refines(head[head.len() - 1], board));
            assert(head.drop_last() =~= pending@);
            assert(b == head.last());
            assert(total_pot(head) == total_pot(pending@) + board_pot(b));
            lemma_pow10_pos(undet_count(b@));
        }
        let ghost base = total_pot(pending@);
        let ghost ub = undet_count(b@);
        let ghost after_pop = pending@;
        proof {
            assert(head =~= after_pop.push(b));
        }
        let r = b.try_solve();
        let ghost gr = r;
        match r {
            BoardResult::Solved(sb) => {
                proof {
                    lemma_refines_trans(sb, b, board);
                }
                let ghost solved_before = solved@;
                solved.push(sb);
                proof {
                    if all_determined(board) {
                        assert(head == seq![board]);
                        assert(b == board);
                        assert(sb == board);
                        assert(solved_before.len() == 0);
                        assert(solved@ =~= seq![board]);
                    }
                    assert forall|s: Seq<u8>|
                        solution_of(s, board) <==> search_open(s, pending@, solved@) by {
                        assert(solution_of(s, board) <==> search_open(s, head, solved_before));
                        lemma_sol_exists_push(after_pop, b, s);
                        assert(gr->Solved_0 == sb);
                        assert(solution_of(s, b) <==> result_admits(gr, s));
                        lemma_sol_exists_push(solved_before, sb, s);
                    }
                }
            },
            BoardResult::Failed(fb) => {
                proof {
                    if all_determined(board) {
                        assert(head == seq![board]);
                        assert(b == board);
                        assert(false);
                    }
                    lemma_refines_trans(fb, b, board);
                    assert forall|s: Seq<u8>|
                        solution_of(s, board) <==> search_open(s, pending@, solved@) by {
                        assert(solution_of(s, board) <==> search_open(s, head, solved@));
                        lemma_sol_exists_push(after_pop, b, s);
                        assert(gr->Failed_0 == fb);
                        assert(solution_of(s, b) <==> result_admits(gr, s));
                        crate::board::lemma_no_solution_of_contradiction(s, fb);
                    }
                }
                failed.push(fb);
            },
            BoardResult::Branch(bs) => {
                let ghost m = choose|m: Board|
                    board_wf(m) && refines(m, b) && at_fixpoint(m) && !has_contradiction(m)
                        && !all_determined(m) && #[trigger] is_branch_list(bs@, m);
                proof {
                    if all_determined(board) {
                        assert(head == seq![board]);
                        assert(b == board);
                        assert(false);
                    }
                    lemma_first_undet(m);
                    let t = first_undet(m);
                    let cl = cand_list(m@[t]);
                    lemma_cands_below(m@[t].hints@, 9);
                    m.lemma_len();
                    b.lemma_len();
                    assert forall|i: int|
                        0 <= i < m@.len() && determined(#[trigger] b@[i]) implies determined(
                        m@[i],
                    ) by {
                        assert(tile_refines(m@[i], b@[i]));
                    }
                    lemma_undet_mono(m@, b@);
                    lemma_undet_pos(m@, t);
                    lemma_pow10_mono(undet_count(m@), ub);
                    assert forall|k: int|
                        0 <= k < bs@.len() implies (board_wf(#[trigger] bs@[k]) && refines(
                        bs@[k],
                        board,
                    ) && board_pot(bs@[k]) == pow10((undet_count(m@) - 1) as nat)) by {
                        let c = bs@[k];
                        assert(is_committed_clone(c, m, t, cl[k]));
                        c.lemma_len();
                        let v = cl[k];
                        assert(v < 9 && m@[t].hints@[v as int]);
                        assert(candidate(m@[t], v as int));
                        assert forall|j: int| 0 <= j < 81 implies tile_wf(#[trigger] c@[j], j) by {
                            assert(tile_wf(m@[j], j));
                        }
                        assert forall|j: int| 0 <= j < 81 implies tile_refines(
                            #[trigger] c@[j],
                            m@[j],
                        ) by {
                            assert(tile_wf(m@[j], j));
                        }
                        assert(refines(c, m));
                        lemma_refines_trans(c, m, b);
                        lemma_refines_trans(c, b, board);
                        assert(c@ =~= m@.update(t, c@[t]));
                        lemma_undet_update(m@, t, c@[t]);
                        assert(determined(c@[t]));
                        assert(undet_count(c@) == undet_count(m@) - 1);
                    }
                    assert(cand_count(m@[t]) != 0);
                    assert(!determined(m@[t]));
                    assert(cand_count(m@[t]) != 1);
                    assert(bs@.len() >= 2);
                    assert forall|s: Seq<u8>|
                        solution_of(s, board) <==> (search_open(s, pending@, solved@) || (
                        exists|k2: int|
                            0 <= k2 < bs@.len() && solution_of(s, #[trigger] bs@[k2]))) by {
                        assert(solution_of(s, board) <==> search_open(s, head, solved@));
                        lemma_sol_exists_push(after_pop, b, s);
                        assert(gr->Branch_0 == bs);
                        assert(solution_of(s, b) <==> result_admits(gr, s));
                        if result_admits(gr, s) {
                            let k2 = choose|k2: int|
                                0 <= k2 < gr->Branch_0@.len() && solution_of(
                                    s,
                                    #[trigger] gr->Branch_0@[k2],
                                );
                            assert(bs@[k2] == gr->Branch_0@[k2]);
                        }
                        if exists|k2: int|
                            0 <= k2 < bs@.len() && solution_of(s, #[trigger] bs@[k2]) {
                            let k2 = choose|k2: int|
                                0 <= k2 < bs@.len() && solution_of(s, #[trigger] bs@[k2]);
                            assert(gr->Branch_0@[k2] == bs@[k2]);
                        }
                    }
                }
                let ghost base_len = pending@.len();
                let n2 = bs.len();
                let mut k: usize = 0;
                while k < n2
                    invariant
                        n2 == bs@.len(),
                        n2 >= 2,
                        k <= n2,
                        !all_determined(board),
                        board_wf(board),
                        undet_count(m@) >= 1,
                        pending@.len() == base_len + k,
                        forall|i: int|
                            0 <= i < bs@.len() ==> board_wf(#[trigger] bs@[i]) && refines(
                                bs@[i],
                                board,
                            ) && board_pot(bs@[i]) == pow10((undet_count(m@) - 1) as nat),
                        forall|i: int|
                            0 <= i < pending@.len() ==> board_wf(#[trigger] pending@[i]) && refines(
                                pending@[i],
                                board,
                            ),
                        forall|i: int|
                            0 <= i < solved@.len() ==> board_wf(#[trigger] solved@[i])
                                && all_determined(solved@[i]) && !has_contradiction(solved@[i])
                                && refines(solved@[i], board),
                        forall|i: int|
                            0 <= i < failed@.len() ==> board_wf(#[trigger] failed@[i])
                                && has_contradiction(failed@[i]) && refines(failed@[i], board),
                        total_pot(pending@) == base + k * pow10((undet_count(m@) - 1) as nat),
                        forall|s: Seq<u8>|
                            solution_of(s, board) <==> (search_open(s, pending@, solved@) || (
                            exists|k2: int|
                                k <= k2 < bs@.len() && solution_of(s, #[trigger] bs@[k2]))),
                    decreases n2 - k,
                {
                    let c = bs[k];
                    let ghost p_before = pending@;
                    proof {
                        lemma_total_pot_push(pending@, c);
                        let p = pow10((undet_count(m@) - 1) as nat);
                        assert((k + 1) * p == k * p + p) by (nonlinear_arith);
                    }
                    pending.push(c);
                    proof {
                        assert forall|s: Seq<u8>|
                            solution_of(s, board) <==> (search_open(s, pending@, solved@) || (
                            exists|k2: int|
                                k + 1 <= k2 < bs@.len() && solution_of(
                                    s,
                                    #[trigger] bs@[k2],
                                ))) by {
                            assert(solution_of(s, board) <==> (search_open(s, p_before, solved@)
                                || (exists|k2: int|
                                k <= k2 < bs@.len() && solution_of(s, #[trigger] bs@[k2]))));
                            lemma_sol_exists_push(p_before, c, s);
                            if exists|k2: int|
                                k <= k2 < bs@.len() && solution_of(s, #[trigger] bs@[k2]) {
                                let k2 = choose|k2: int|
                                    k <= k2 < bs@.len() && solution_of(s, #[trigger] bs@[k2]);
                                if k2 == k {
                                    assert(solution_of(s, c));
                                }
                            }
                            if solution_of(s, c) {
                                assert(bs@[k as int] == c);
                            }
                        }
                    }
                    k = k + 1;
                }
                proof {
                    let um = undet_count(m@);
                    let p = pow10((um - 1) as nat);
                    lemma_pow10_pos((um - 1) as nat);
                    assert(bs@.len() <= 9);
                    assert(pow10(um) == 10 * p);
                    assert(n2 * p <= 9 * p) by (nonlinear_arith)
                        requires
                            n2 <= 9,
                            p >= 0,
                    ;
                    assert(9 * p < 10 * p);
                    assert(total_pot(pending@) < total_pot(head));
                    assert forall|s: Seq<u8>|
                        solution_of(s, board) <==> search_open(s, pending@, solved@) by {
                        assert(solution_of(s, board) <==> (search_open(s, pending@, solved@) || (
                        exists|k2: int|
                            n2 <= k2 < bs@.len() && solution_of(s, #[trigger] bs@[k2]))));
                        if exists|k2: int|
                            n2 <= k2 < bs@.len() && solution_of(s, #[trigger] bs@[k2]) {
                            let k2 = choose|k2: int|
                                n2 <= k2 < bs@.len() && solution_of(s, #[trigger] bs@[k2]);
                            assert(false);
                        }
                    }
                }
            },
        }
    }
    proof {
        assert forall|s: Seq<u8>|
            solution_of(s, board) <==> exists|i: int|
                0 <= i < solved@.len() && solution_of(s, #[trigger] solved@[i]) by {
            assert(solution_of(s, board) <==> search_open(s, pending@, solved@));
            if exists|i: int| 0 <= i < pending@.len() && solution_of(s, #[trigger] pending@[i]) {
                let i = choose|i: int|
                    0 <= i < pending@.len() && solution_of(s, #[trigger] pending@[i]);
                assert(false);
            }
        }
    }
    (solved, failed)
}

/// How many verdicts in a sequence are solved boards.
pub open spec fn count_solved(s: Seq<BoardResult>) -> nat
    decreases s.len(),
{
    if s.len() == 0 {
        0
    } else {
        count_solved(s.drop_last()) + if s.last() is Solved {
            1nat
        } else {
            0nat
        }
    }
}

/// How many verdicts in a sequence are failed boards.
pub open spec fn count_failed(s: Seq<BoardResult>) -> nat
    decreases s.len(),
{
    if s.len() == 0 {
        0
    } else {
        count_failed(s.drop_last()) + if s.last() is Failed {
            1nat
        } else {
            0nat
        }
    }
}

/// Some verdict in the sequence is a branch.
pub open spec fn has_branch(s: Seq<BoardResult>) -> bool {
    exists|i: int| 0 <= i < s.len() && (#[trigger] s[i]) is Branch
}

/// The collector: classifies every terminal verdict and accumulates the
/// two counts, each verdict counted exactly once. A branch verdict is an
/// invariant violation — the search never publishes one — and is reported
/// as a fatal error instead of a tally.
pub fn tally(results: &Vec<BoardResult>) -> (r: Result<(usize, usize), String>)
    ensures
        match r {
            Ok(c) => !has_branch(results@) && c.0 == count_solved(results@) && c.1 == count_failed(
                results@,
            ),
            Err(_) => has_branch(results@),
        },
{
    let mut s: usize = 0;
    let mut f: usize = 0;
    let mut i: usize = 0;
    let n = results.len();
    while i < n
        invariant
            n == results@.len(),
            i <= n,
            s <= i,
            f <= i,
            s == count_solved(results@.take(i as int)),
            f == count_failed(results@.take(i as int)),
            forall|j: int| 0 <= j < i ==> !((#[trigger] results@[j]) is Branch),
        decreases n - i,
    {
        proof {
            assert(results@.take(i as int + 1).drop_last() =~= results@.take(i as int));
            assert(results@.take(i as int + 1).last() == results@[i as int]);
        }
        match &results[i] {
            BoardResult::Solved(_) => {
                s = s + 1;
            },
            BoardResult::Failed(_) => {
                f = f + 1;
            },
            BoardResult::Branch(_) => {
                return Err("branch verdict reached the collector".to_owned());
            },
        }
        i = i + 1;
    }
    proof {
        assert(results@.take(n as int) =~= results@);
    }
    Ok((s, f))
}

} // verus!
