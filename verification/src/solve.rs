//! The propagation engine and the branch selector.
//!
//! Propagation repeatedly narrows candidate sets using committed peer
//! values until a full sweep makes no change (a fixpoint) or some tile's
//! candidate set empties out (a contradiction). A stalled board is then
//! resolved by branching: one clone per remaining candidate of the first
//! undetermined tile.

use vstd::prelude::*;
use crate::board::Board;
use crate::board::Tile;
use crate::board::all_determined;
use crate::board::at_fixpoint;
use crate::board::board_wf;
use crate::board::cand_count;
use crate::board::cand_list;
use crate::board::cands_below;
use crate::board::candidate;
use crate::board::determined;
use crate::board::eliminated;
use crate::board::has_contradiction;
use crate::board::lemma_cands_below;
use crate::board::lemma_cands_below_clear;
use crate::board::lemma_determined_cand_count;
use crate::board::peer_excluded;
use crate::board::refines;
use crate::board::solution_of;
use crate::board::tile_refines;
use crate::board::tile_wf;
use crate::board::candidates_of;
use crate::topology::get_influences;
use crate::topology::sees;

verus! {

broadcast use vstd::array::group_array_axioms;

/// The verdict of one resolution step on a board.
pub enum BoardResult {
    Solved(Board),
    Branch(Vec<Board>),
    Failed(Board),
}

/// What one propagation sweep did to the board.
pub enum SweepOutcome {
    NoChange,
    Progress,
    Contradiction,
}

/// The remaining work in one tile: its open candidates, plus one for the
/// commitment still to make if it is undetermined.
pub open spec fn tile_score(t: Tile) -> nat {
    cand_count(t) + if determined(t) {
        0nat
    } else {
        1nat
    }
}

/// The remaining work in a whole tile sequence. Every propagation step
/// strictly decreases it, which bounds the number of sweeps.
pub open spec fn score(s: Seq<Tile>) -> nat
    decreases s.len(),
{
    if s.len() == 0 {
        0
    } else {
        score(s.drop_last()) + tile_score(s.last())
    }
}

/// Replacing one tile changes the score by that tile's difference.
proof fn lemma_score_update(s: Seq<Tile>, i: int, t: Tile)
    requires
        0 <= i < s.len(),
    ensures
        score(s.update(i, t)) + tile_score(s[i]) == score(s) + tile_score(t),
    decreases s.len(),
{
    let s2 = s.update(i, t);
    if i == s.len() - 1 {
        assert(s2.drop_last() =~= s.drop_last());
        assert(s2.last() == t);
        assert(s.last() == s[i]);
    } else {
        assert(s2.drop_last() =~= s.drop_last().update(i, t));
        lemma_score_update(s.drop_last(), i, t);
        assert(s2.last() == s.last());
    }
}

/// The first undetermined position at or after `i`, or 81 if there is
/// none.
pub open spec fn first_undet_from(b: Board, i: int) -> int
    decreases 81 - i,
{
    if i >= 81 {
        81
    } else if !determined(b@[i]) {
        i
    } else {
        first_undet_from(b, i + 1)
    }
}

/// The first undetermined position of the board, or 81 if every tile is
/// determined.
pub open spec fn first_undet(b: Board) -> int {
    first_undet_from(b, 0)
}

proof fn lemma_first_undet_from(b: Board, i: int)
    requires
        0 <= i <= 81,
    ensures
        i <= first_undet_from(b, i) <= 81,
        first_undet_from(b, i) < 81 ==> !determined(b@[first_undet_from(b, i)]),
        forall|j: int| i <= j < first_undet_from(b, i) ==> determined(#[trigger] b@[j]),
    decreases 81 - i,
{
    if i < 81 && determined(b@[i]) {
        lemma_first_undet_from(b, i + 1);
    }
}

/// On a board with an undetermined tile, `first_undet` names the first
/// one: it is on the grid, undetermined, and everything before it is
/// determined.
pub proof fn lemma_first_undet(b: Board)
    requires
        !all_determined(b),
    ensures
        0 <= first_undet(b) < 81,
        !determined(b@[first_undet(b)]),
        forall|j: int| 0 <= j < first_undet(b) ==> determined(#[trigger] b@[j]),
{
    lemma_first_undet_from(b, 0);
    if first_undet(b) == 81 {
        assert(all_determined(b));
    }
}

/// Board `c` is board `m` with the tile at `t` committed to digit `v`:
/// identical everywhere else, and at `t` the value is `v` with the
/// candidate set collapsed to that singleton.
pub open spec fn is_committed_clone(c: Board, m: Board, t: int, v: u8) -> bool {
    &&& forall|j: int| 0 <= j < 81 && j != t ==> c@[j] == m@[j]
    &&& c@[t].index == m@[t].index
    &&& c@[t].value == Some(v)
    &&& forall|d: int| 0 <= d < 9 ==> (candidate(c@[t], d) <==> d == v)
}

/// `bs` is the complete branch fan-out of `m`: with `t` the first
/// undetermined tile of `m`, one clone per candidate of `t`, in ascending
/// digit order, each identical to `m` but for the committed tile.
pub open spec fn is_branch_list(bs: Seq<Board>, m: Board) -> bool {
    let t = first_undet(m);
    let cl = cand_list(m@[t]);
    &&& bs.len() == cl.len()
    &&& forall|k: int| 0 <= k < bs.len() ==> is_committed_clone(#[trigger] bs[k], m, t, cl[k])
}

/// What one resolution step promises of its verdict on the board `b0`:
/// a solved board is a fully determined, contradiction-free narrowing of
/// `b0`; a failed board is a narrowing with an emptied candidate set; a
/// branch list is the complete fan-out of some contradiction-free,
/// stalled, still-undetermined fixpoint narrowing of `b0`.
pub open spec fn resolution_ok(r: BoardResult, b0: Board) -> bool {
    match r {
        BoardResult::Solved(b) => board_wf(b) && refines(b, b0) && all_determined(b)
            && !has_contradiction(b),
        BoardResult::Failed(b) => board_wf(b) && refines(b, b0) && has_contradiction(b),
        BoardResult::Branch(bs) => exists|m: Board|
            board_wf(m) && refines(m, b0) && at_fixpoint(m) && !has_contradiction(m)
                && !all_determined(m) && #[trigger] is_branch_list(bs@, m),
    }
}

/// The assignments a verdict keeps open: those of the terminal board, or
/// of any branch clone. One resolution step neither loses nor invents an
/// assignment: what was open on the input board is exactly what stays
/// open through its verdict.
pub open spec fn result_admits(r: BoardResult, s: Seq<u8>) -> bool {
    match r {
        BoardResult::Solved(b) => solution_of(s, b),
        BoardResult::Failed(b) => solution_of(s, b),
        BoardResult::Branch(bs) => exists|k: int|
            0 <= k < bs@.len() && solution_of(s, #[trigger] bs@[k]),
    }
}

/// Counts a tile's candidates; also reports a witness digit, which for a
/// single-candidate tile is that one candidate.
fn count_hints(t: &Tile) -> (r: (usize, u8))
    ensures
        r.0 == cand_count(*t),
        r.0 >= 1 ==> r.1 < 9 && candidate(*t, r.1 as int),
        r.0 == 1 ==> forall|d: int| 0 <= d < 9 ==> (candidate(*t, d) <==> d == r.1 as int),
{
    let mut cnt: usize = 0;
    let mut last: u8 = 0;
    let mut d: usize = 0;
    while d < 9
        invariant
            d <= 9,
            cnt == cands_below(t.hints@, d as int).len(),
            cnt <= d,
            cnt >= 1 ==> last < d && t.hints@[last as int],
        decreases 9 - d,
    {
        if t.hints[d] {
            cnt = cnt + 1;
            last = d as u8;
        }
        d = d + 1;
    }
    proof {
        lemma_cands_below(t.hints@, 9);
    }
    (cnt, last)
}

impl Board {
    /// Removes from the candidates of the undetermined tile at `ti` every
    /// value committed among its peers. Touches nothing else, reports
    /// whether anything was removed, and removes nothing when the tile had
    /// already absorbed all its peers.
    fn eliminate_peers(&mut self, ti: usize) -> (changed: bool)
        requires
            board_wf(*old(self)),
            ti < 81,
            !determined(old(self)@[ti as int]),
        ensures
            board_wf(*final(self)),
            forall|j: int| 0 <= j < 81 && j != ti ==> final(self)@[j] == old(self)@[j],
            final(self)@[ti as int].value == old(self)@[ti as int].value,
            final(self)@[ti as int].index == old(self)@[ti as int].index,
            forall|d: int|
                0 <= d < 9 && candidate(final(self)@[ti as int], d) ==> candidate(
                    old(self)@[ti as int],
                    d,
                ),
            !changed ==> *final(self) == *old(self),
            changed ==> score(final(self)@) < score(old(self)@),
            score(final(self)@) <= score(old(self)@),
            eliminated(*final(self), ti as int),
            eliminated(*old(self), ti as int) ==> !changed,
            forall|s: Seq<u8>|
                solution_of(s, *old(self)) <==> solution_of(s, *final(self)),
    {
        let mut changed = false;
        let infs = get_influences(ti as u8);
        let n = infs.len();
        let mut k: usize = 0;
        while k < n
            invariant
                n == infs@.len(),
                k <= n,
                ti < 81,
                board_wf(*self),
                !determined(self@[ti as int]),
                forall|x: u8| infs@.contains(x) <==> sees(ti as int, x as int),
                forall|j: int| 0 <= j < 81 && j != ti ==> self@[j] == old(self)@[j],
                self@[ti as int].value == old(self)@[ti as int].value,
                self@[ti as int].index == old(self)@[ti as int].index,
                forall|d: int|
                    0 <= d < 9 && candidate(self@[ti as int], d) ==> candidate(
                        old(self)@[ti as int],
                        d,
                    ),
                !changed ==> *self == *old(self),
                changed ==> score(self@) < score(old(self)@),
                score(self@) <= score(old(self)@),
                forall|k2: int|
                    0 <= k2 < k ==> peer_excluded(*self, ti as int, #[trigger] infs@[k2] as int),
                eliminated(*old(self), ti as int) ==> !changed,
                forall|s: Seq<u8>| solution_of(s, *old(self)) <==> solution_of(s, *self),
            decreases n - k,
        {
            let q = infs[k];
            proof {
                assert(infs@[k as int] == q);
                assert(infs@.contains(q));
                assert(sees(ti as int, q as int));
            }
            let qt = self.tile_at(q as usize);
            match qt.value {
                Some(v) => {
                    proof {
                        assert(tile_wf(self@[q as int], q as int));
                    }
                    let cur = self.tile_at(ti);
                    if cur.hints[v as usize] {
                        let ghost before = *self;
                        let mut nt = cur;
                        nt.hints[v as usize] = false;
                        self.set_tile(ti, nt);
                        changed = true;
                        proof {
                            assert(nt.hints@ == cur.hints@.update(v as int, false));
                            lemma_cands_below_clear(cur.hints@, v as int, 9);
                            lemma_score_update(before@, ti as int, nt);
                            assert(score(self@) < score(before@));
                            if eliminated(*old(self), ti as int) {
                                assert(sees(ti as int, q as int));
                                assert(peer_excluded(*old(self), ti as int, q as int));
                                assert(candidate(before@[ti as int], v as int));
                                assert(candidate(old(self)@[ti as int], v as int));
                                assert(false);
                            }
                            assert forall|k2: int| 0 <= k2 < k + 1 implies peer_excluded(
                                *self,
                                ti as int,
                                #[trigger] infs@[k2] as int,
                            ) by {
                                assert(infs@.contains(infs@[k2]));
                                assert(sees(ti as int, infs@[k2] as int));
                                if k2 < k {
                                    assert(peer_excluded(before, ti as int, infs@[k2] as int));
                                    assert(self@[infs@[k2] as int] == before@[infs@[k2] as int]);
                                } else {
                                    assert(infs@[k2] == q);
                                    assert(self@[q as int] == before@[q as int]);
                                    assert(!candidate(self@[ti as int], v as int));
                                }
                            }
                            assert forall|j: int| 0 <= j < 81 implies tile_wf(
                                #[trigger] self@[j],
                                j,
                            ) by {
                                assert(tile_wf(before@[j], j));
                            }
                            let after = *self;
                            assert forall|j: int| 0 <= j < 81 implies tile_refines(
                                #[trigger] after@[j],
                                before@[j],
                            ) by {}
                            assert forall|s: Seq<u8>|
                                solution_of(s, before) implies solution_of(s, after) by {
                                assert(tile_wf(before@[q as int], q as int));
                                assert(candidate(before@[q as int], s[q as int] as int));
                                assert(s[q as int] == v);
                                assert(sees(ti as int, q as int));
                                assert(s[ti as int] != s[q as int]);
                                assert forall|p: int| 0 <= p < 81 implies (#[trigger] s[p]) < 9
                                    && candidate(after@[p], s[p] as int) by {
                                    assert(candidate(before@[p], s[p] as int));
                                }
                            }
                            assert forall|s: Seq<u8>|
                                solution_of(s, after) implies solution_of(s, before) by {
                                crate::board::lemma_solution_refines(s, after, before);
                            }
                            assert forall|s: Seq<u8>|
                                solution_of(s, *old(self)) <==> solution_of(s, after) by {
                                assert(solution_of(s, *old(self)) <==> solution_of(s, before));
                                assert(solution_of(s, before) <==> solution_of(s, after));
                            }
                        }
                    }
                },
                None => {},
            }
            k = k + 1;
        }
        proof {
            assert forall|q: int| #[trigger] sees(ti as int, q) implies peer_excluded(
                *self,
                ti as int,
                q,
            ) by {
                assert(infs@.contains(q as u8));
                let k2 = choose|k2: int| 0 <= k2 < infs@.len() && infs@[k2] == q as u8;
                assert(peer_excluded(*self, ti as int, infs@[k2] as int));
            }
        }
        changed
    }

    /// One propagation pass over the tiles in position order. Committed
    /// values discovered mid-pass are visible to later tiles of the same
    /// pass. Stops at the first tile whose candidate set empties out; a
    /// pass over a contradiction-free fixpoint changes nothing, and a pass
    /// that changes nothing certifies the fixpoint.
    pub fn sweep(&mut self) -> (r: SweepOutcome)
        requires
            board_wf(*old(self)),
        ensures
            board_wf(*final(self)),
            refines(*final(self), *old(self)),
            score(final(self)@) <= score(old(self)@),
            match r {
                SweepOutcome::NoChange => *final(self) == *old(self) && at_fixpoint(*final(self))
                    && !has_contradiction(*final(self)),
                SweepOutcome::Progress => score(final(self)@) < score(old(self)@)
                    && !has_contradiction(*final(self)),
                SweepOutcome::Contradiction => exists|i: int|
                    0 <= i < 81 && cand_count(#[trigger] final(self)@[i]) == 0 && (forall|j: int|
                        i < j < 81 ==> final(self)@[j] == old(self)@[j]),
            },
            at_fixpoint(*old(self)) && !has_contradiction(*old(self)) ==> r is NoChange,
            forall|s: Seq<u8>|
                solution_of(s, *old(self)) <==> solution_of(s, *final(self)),
    {
        let ghost entry = *self;
        let mut progress = false;
        let mut ti: usize = 0;
        while ti < 81
            invariant
                entry == *old(self),
                board_wf(*self),
                board_wf(entry),
                refines(*self, entry),
                ti <= 81,
                score(self@) <= score(entry@),
                progress ==> score(self@) < score(entry@),
                !progress ==> *self == entry,
                forall|j: int| ti <= j < 81 ==> self@[j] == entry@[j],
                !progress ==> (forall|p: int|
                    0 <= p < ti && !determined(#[trigger] entry@[p]) ==> eliminated(entry, p)
                        && cand_count(entry@[p]) != 1),
                forall|p: int| 0 <= p < ti ==> cand_count(#[trigger] self@[p]) != 0,
                (at_fixpoint(entry) && !has_contradiction(entry)) ==> !progress,
                forall|s: Seq<u8>| solution_of(s, entry) <==> solution_of(s, *self),
            decreases 81 - ti,
        {
            let t = self.tile_at(ti);
            if t.value.is_none() {
                let ghost mid = *self;
                let ghost fix = at_fixpoint(entry) && !has_contradiction(entry);
                proof {
                    if fix {
                        assert(*self == entry);
                        assert(!determined(entry@[ti as int]));
                        assert(eliminated(entry, ti as int));
                    }
                }
                let changed = self.eliminate_peers(ti);
                if changed {
                    progress = true;
                }
                proof {
                    assert forall|jj: int| 0 <= jj < 81 implies tile_refines(
                        #[trigger] self@[jj],
                        entry@[jj],
                    ) by {
                        assert(tile_refines(mid@[jj], entry@[jj]));
                    }
                    assert(refines(*self, entry));
                    assert forall|s: Seq<u8>|
                        solution_of(s, entry) <==> solution_of(s, *self) by {
                        assert(solution_of(s, entry) <==> solution_of(s, mid));
                        assert(solution_of(s, mid) <==> solution_of(s, *self));
                    }
                    if fix {
                        assert(!changed);
                    }
                }
                let t2 = self.tile_at(ti);
                let (cnt, last) = count_hints(&t2);
                if cnt == 0 {
                    proof {
                        assert(cand_count(self@[ti as int]) == 0);
                        if fix {
                            assert(*self == entry);
                            assert(cand_count(entry@[ti as int]) == 0);
                            assert(has_contradiction(entry));
                        }
                        assert(forall|j: int| ti < j < 81 ==> self@[j] == entry@[j]);
                        assert(exists|i: int|
                            0 <= i < 81 && cand_count(#[trigger] self@[i]) == 0 && (forall|j: int|
                                i < j < 81 ==> self@[j] == entry@[j]));
                    }
                    return SweepOutcome::Contradiction;
                }
                if cnt == 1 {
                    let ghost before = *self;
                    let mut nt = t2;
                    nt.value = Some(last);
                    self.set_tile(ti, nt);
                    progress = true;
                    proof {
                        if fix {
                            assert(before == entry);
                            assert(cand_count(entry@[ti as int]) != 1);
                        }
                        assert(nt.hints@ == t2.hints@);
                        assert(cand_count(nt) == 1);
                        lemma_score_update(before@, ti as int, nt);
                        assert(tile_score(nt) == 1);
                        assert(tile_score(t2) == 2);
                        assert(score(self@) < score(entry@));
                        assert forall|j: int| 0 <= j < 81 implies tile_wf(
                            #[trigger] self@[j],
                            j,
                        ) by {
                            assert(tile_wf(before@[j], j));
                            if j == ti {
                                assert(self@[j] == nt);
                                assert(nt.value == Some(last));
                                assert(last < 9);
                                assert forall|d: int| 0 <= d < 9 implies (candidate(nt, d) <==> d
                                    == last as int) by {
                                    assert(candidate(t2, d) <==> d == last as int);
                                }
                            }
                        }
                        assert forall|jj: int| 0 <= jj < 81 implies tile_refines(
                            #[trigger] self@[jj],
                            entry@[jj],
                        ) by {
                            assert(tile_refines(before@[jj], entry@[jj]));
                        }
                        assert(refines(*self, entry));
                        assert forall|s: Seq<u8>|
                            solution_of(s, entry) <==> solution_of(s, *self) by {
                            assert(solution_of(s, entry) <==> solution_of(s, before));
                            assert forall|p: int| 0 <= p < 81 implies (candidate(
                                self@[p],
                                s[p] as int,
                            ) <==> candidate(before@[p], s[p] as int)) by {}
                        }
                    }
                } else {
                    proof {
                        if !progress {
                            assert(*self == entry);
                            assert(eliminated(entry, ti as int));
                            assert(cand_count(entry@[ti as int]) == cnt);
                        }
                    }
                }
            } else {
                proof {
                    assert(tile_wf(self@[ti as int], ti as int));
                    lemma_determined_cand_count(self@[ti as int], ti as int);
                }
            }
            ti = ti + 1;
        }
        if progress {
            SweepOutcome::Progress
        } else {
            SweepOutcome::NoChange
        }
    }

    /// Runs sweeps until a full pass changes nothing (the fixpoint) or a
    /// contradiction surfaces. On a board already at a contradiction-free
    /// fixpoint it changes nothing.
    pub fn propagate(&mut self) -> (ok: bool)
        requires
            board_wf(*old(self)),
        ensures
            board_wf(*final(self)),
            refines(*final(self), *old(self)),
            ok ==> at_fixpoint(*final(self)) && !has_contradiction(*final(self)),
            !ok ==> has_contradiction(*final(self)),
            at_fixpoint(*old(self)) && !has_contradiction(*old(self)) ==> (ok && *final(self)
                == *old(self)),
            forall|s: Seq<u8>|
                solution_of(s, *old(self)) <==> solution_of(s, *final(self)),
    {
        let ghost entry = *self;
        loop
            invariant
                entry == *old(self),
                board_wf(*self),
                board_wf(entry),
                refines(*self, entry),
                at_fixpoint(entry) && !has_contradiction(entry) ==> *self == entry,
                forall|s: Seq<u8>| solution_of(s, entry) <==> solution_of(s, *self),
            decreases score(self@),
        {
            let ghost prev = *self;
            let r = self.sweep();
            proof {
                crate::board::lemma_refines_trans(*self, prev, entry);
                assert forall|s: Seq<u8>|
                    solution_of(s, entry) <==> solution_of(s, *self) by {
                    assert(solution_of(s, entry) <==> solution_of(s, prev));
                    assert(solution_of(s, prev) <==> solution_of(s, *self));
                }
            }
            match r {
                SweepOutcome::NoChange => {
                    return true;
                },
                SweepOutcome::Contradiction => {
                    proof {
                        let i = choose|i: int|
                            0 <= i < 81 && cand_count(#[trigger] self@[i]) == 0;
                        assert(cand_count(self@[i]) == 0);
                        assert(has_contradiction(*self));
                    }
                    return false;
                },
                SweepOutcome::Progress => {},
            }
        }
    }

    /// Every tile has a committed value.
    pub fn is_complete(&self) -> (r: bool)
        ensures
            r == all_determined(*self),
    {
        let mut i: usize = 0;
        while i < 81
            invariant
                i <= 81,
                forall|j: int| 0 <= j < i ==> determined(#[trigger] self@[j]),
            decreases 81 - i,
        {
            let t = self.tile_at(i);
            if t.value.is_none() {
                proof {
                    assert(!determined(self@[i as int]));
                }
                return false;
            }
            i = i + 1;
        }
        true
    }

    /// The position of the first undetermined tile.
    fn find_first_undet(&self) -> (t: usize)
        requires
            board_wf(*self),
            !all_determined(*self),
        ensures
            t < 81,
            t as int == first_undet(*self),
            !determined(self@[t as int]),
    {
        let mut t: usize = 0;
        while t < 81
            invariant
                t <= 81,
                board_wf(*self),
                !all_determined(*self),
                forall|j: int| 0 <= j < t ==> determined(#[trigger] self@[j]),
            decreases 81 - t,
        {
            let tile = self.tile_at(t);
            if tile.value.is_none() {
                proof {
                    lemma_first_undet(*self);
                    let fu = first_undet(*self);
                    if fu < t {
                        assert(determined(self@[fu]));
                    }
                    if fu > t {
                        assert(determined(self@[t as int]));
                    }
                }
                return t;
            }
            t = t + 1;
        }
        proof {
            assert(all_determined(*self));
        }
        0
    }

    /// The branch fan-out of a stalled board: for each remaining candidate
    /// of the first undetermined tile, in ascending digit order, a full
    /// clone with that tile committed to that candidate. Each clone is
    /// well formed and narrows the parent.
    pub fn branch_clones(&self) -> (bs: Vec<Board>)
        requires
            board_wf(*self),
            !all_determined(*self),
        ensures
            is_branch_list(bs@, *self),
            bs@.len() == cand_count(self@[first_undet(*self)]),
            forall|k: int|
                0 <= k < bs@.len() ==> board_wf(#[trigger] bs@[k]) && refines(bs@[k], *self),
            forall|s: Seq<u8>|
                solution_of(s, *self) <==> exists|k: int|
                    0 <= k < bs@.len() && solution_of(s, #[trigger] bs@[k]),
    {
        let t = self.find_first_undet();
        let tile = self.tile_at(t);
        let cands = candidates_of(&tile);
        proof {
            lemma_cands_below(tile.hints@, 9);
        }
        let mut bs: Vec<Board> = Vec::new();
        let mut k: usize = 0;
        while k < cands.len()
            invariant
                t < 81,
                board_wf(*self),
                tile == self@[t as int],
                !determined(tile),
                cands@ == cand_list(tile),
                forall|i: int|
                    0 <= i < cands@.len() ==> (#[trigger] cands@[i] < 9
                        && tile.hints@[cands@[i] as int]),
                k <= cands@.len(),
                bs@.len() == k,
                forall|k2: int|
                    0 <= k2 < k ==> is_committed_clone(#[trigger] bs@[k2], *self, t as int, cands@[k2])
                        && board_wf(bs@[k2]) && refines(bs@[k2], *self),
            decreases cands@.len() - k,
        {
            let v = cands[k];
            let mut c = *self;
            let mut nt = tile;
            nt.value = Some(v);
            nt.hints = [false; 9];
            nt.hints[v as usize] = true;
            c.set_tile(t, nt);
            proof {
                assert(c@ == self@.update(t as int, nt));
                assert(forall|d: int| 0 <= d < 9 ==> (candidate(nt, d) <==> d == v as int));
                assert(is_committed_clone(c, *self, t as int, v));
                assert forall|j: int| 0 <= j < 81 implies tile_wf(#[trigger] c@[j], j) by {
                    assert(tile_wf(self@[j], j));
                }
                assert forall|j: int| 0 <= j < 81 implies tile_refines(
                    #[trigger] c@[j],
                    self@[j],
                ) by {
                    assert(tile_wf(self@[j], j));
                    if j == t {
                        assert(candidate(tile, v as int));
                    }
                }
            }
            bs.push(c);
            k = k + 1;
        }
        proof {
            assert(bs@.len() == cand_list(self@[first_undet(*self)]).len());
            let cl = cand_list(tile);
            assert forall|s: Seq<u8>|
                solution_of(s, *self) <==> exists|k: int|
                    0 <= k < bs@.len() && solution_of(s, #[trigger] bs@[k]) by {
                if solution_of(s, *self) {
                    let st = s[t as int];
                    assert(candidate(tile, st as int));
                    assert(cands_below(tile.hints@, 9).contains((st as int) as u8));
                    assert((st as int) as u8 == st);
                    assert(cl.contains(st));
                    let k = choose|k: int| 0 <= k < cl.len() && cl[k] == st;
                    assert(is_committed_clone(bs@[k], *self, t as int, cl[k]));
                    assert forall|p: int| 0 <= p < 81 implies (#[trigger] s[p]) < 9 && candidate(
                        bs@[k]@[p],
                        s[p] as int,
                    ) by {
                        assert(candidate(self@[p], s[p] as int));
                    }
                    bs@[k].lemma_len();
                    assert(solution_of(s, bs@[k]));
                }
                if exists|k: int| 0 <= k < bs@.len() && solution_of(s, #[trigger] bs@[k]) {
                    let k = choose|k: int|
                        0 <= k < bs@.len() && solution_of(s, #[trigger] bs@[k]);
                    self.lemma_len();
                    crate::board::lemma_solution_refines(s, bs@[k], *self);
                }
            }
        }
        bs
    }

    /// The single resolution step: propagate to fixpoint, then classify.
    /// A contradiction yields `Failed`; a fully determined board yields
    /// `Solved`; otherwise the board branches on its first undetermined
    /// tile. An already fully determined board comes back `Solved`
    /// unchanged.
    #[verifier::rlimit(60)]
    #[verifier::spinoff_prover]
    pub fn try_solve(self) -> (r: BoardResult)
        requires
            board_wf(self),
        ensures
            resolution_ok(r, self),
            all_determined(self) ==> (r matches BoardResult::Solved(b) && b == self),
            forall|s: Seq<u8>| solution_of(s, self) <==> result_admits(r, s),
    {
        proof {
            if all_determined(self) {
                assert forall|i: int| 0 <= i < 81 implies cand_count(#[trigger] self@[i])
                    != 0 by {
                    lemma_determined_cand_count(self@[i], i);
                }
                assert(!has_contradiction(self));
                assert(at_fixpoint(self));
            }
        }
        let mut b = self;
        let ok = b.propagate();
        if !ok {
            proof {
                let rr = BoardResult::Failed(b);
                assert(rr->Failed_0 == b);
                assert forall|s: Seq<u8>|
                    solution_of(s, self) <==> result_admits(rr, s) by {
                    assert(solution_of(s, self) <==> solution_of(s, b));
                }
            }
            return BoardResult::Failed(b);
        }
        if b.is_complete() {
            proof {
                assert forall|i: int| 0 <= i < 81 implies cand_count(#[trigger] b@[i]) != 0 by {
                    lemma_determined_cand_count(b@[i], i);
                }
                let rr = BoardResult::Solved(b);
                assert(rr->Solved_0 == b);
                assert forall|s: Seq<u8>|
                    solution_of(s, self) <==> result_admits(rr, s) by {
                    assert(solution_of(s, self) <==> solution_of(s, b));
                }
            }
            return BoardResult::Solved(b);
        }
        let clones = b.branch_clones();
        proof {
            assert(board_wf(b) && refines(b, self) && at_fixpoint(b) && !has_contradiction(b)
                && !all_determined(b) && is_branch_list(clones@, b));
            assert(exists|m: Board|
                board_wf(m) && refines(m, self) && at_fixpoint(m) && !has_contradiction(m)
                    && !all_determined(m) && #[trigger] is_branch_list(clones@, m));
            let rr = BoardResult::Branch(clones);
            assert(rr->Branch_0 == clones);
            assert(rr->Branch_0@ == clones@);
            assert(resolution_ok(rr, self));
            assert forall|s: Seq<u8>|
                solution_of(s, self) <==> result_admits(rr, s) by {
                assert(solution_of(s, self) <==> solution_of(s, b));
                assert(solution_of(s, b) <==> exists|k: int|
                    0 <= k < clones@.len() && solution_of(s, #[trigger] clones@[k]));
            }
        }
        BoardResult::Branch(clones)
    }
}

} // verus!
