//! The board and tile model: each of the 81 cells carries an optional
//! committed value (a zero-based digit 0..9) and a candidate set over the
//! nine digits, kept as an array of nine flags.

use vstd::prelude::*;
use crate::topology::sees;

verus! {

broadcast use vstd::array::group_array_axioms;

/// One cell of the grid: its position, its committed value if it has one,
/// and the digits it could still take.
#[derive(Clone, Copy)]
pub struct Tile {
    pub index: u8,
    pub value: Option<u8>,
    pub hints: [bool; 9],
}

/// The grid: exactly one tile per position, row-major.
#[derive(Clone, Copy)]
pub struct Board {
    tiles: [Tile; 81],
}

impl View for Board {
    type V = Seq<Tile>;

    closed spec fn view(&self) -> Seq<Tile> {
        self.tiles@
    }
}

/// Digit `d` is still a candidate of tile `t`.
pub open spec fn candidate(t: Tile, d: int) -> bool {
    t.hints@[d]
}

/// The candidate digits of a hint array that lie below `d`, in ascending
/// order.
pub open spec fn cands_below(h: Seq<bool>, d: int) -> Seq<u8>
    decreases d,
{
    if d <= 0 {
        Seq::empty()
    } else if h[d - 1] {
        cands_below(h, d - 1).push((d - 1) as u8)
    } else {
        cands_below(h, d - 1)
    }
}

/// All candidate digits of tile `t`, in ascending order.
pub open spec fn cand_list(t: Tile) -> Seq<u8> {
    cands_below(t.hints@, 9)
}

/// How many digits tile `t` could still take.
pub open spec fn cand_count(t: Tile) -> nat {
    cand_list(t).len()
}

/// The tile has a committed value.
pub open spec fn determined(t: Tile) -> bool {
    t.value is Some
}

/// Well-formedness of the tile at position `i`: it knows its position, and
/// a committed value is a digit whose candidate set is exactly the
/// singleton of that value.
pub open spec fn tile_wf(t: Tile, i: int) -> bool {
    &&& t.index == i
    &&& match t.value {
        Some(v) => v < 9 && (forall|d: int| 0 <= d < 9 ==> (candidate(t, d) <==> d == v)),
        None => true,
    }
}

/// Well-formedness of a board: 81 tiles, each well formed at its position.
pub open spec fn board_wf(b: Board) -> bool {
    &&& b@.len() == 81
    &&& forall|i: int| 0 <= i < 81 ==> tile_wf(#[trigger] b@[i], i)
}

/// Every tile is determined.
pub open spec fn all_determined(b: Board) -> bool {
    forall|i: int| 0 <= i < 81 ==> determined(#[trigger] b@[i])
}

/// Some tile's candidate set is empty: the board cannot be completed.
pub open spec fn has_contradiction(b: Board) -> bool {
    exists|i: int| 0 <= i < 81 && cand_count(#[trigger] b@[i]) == 0
}

/// Tile `t` only narrows tile `u`: committed values are kept, and no new
/// candidate appears.
pub open spec fn tile_refines(t: Tile, u: Tile) -> bool {
    &&& t.index == u.index
    &&& (determined(u) ==> t.value == u.value)
    &&& forall|d: int| 0 <= d < 9 && candidate(t, d) ==> candidate(u, d)
}

/// Board `b` is a narrowing of board `a`: position by position, values are
/// kept and candidate sets only shrink.
pub open spec fn refines(b: Board, a: Board) -> bool {
    forall|i: int| 0 <= i < 81 ==> tile_refines(#[trigger] b@[i], a@[i])
}

/// The peer at `q` does not leave its committed value as a candidate of
/// tile `p`.
pub open spec fn peer_excluded(b: Board, p: int, q: int) -> bool {
    match b@[q].value {
        Some(v) => !candidate(b@[p], v as int),
        None => true,
    }
}

/// Every committed value among the peers of `p` has been removed from the
/// candidates of `p`.
pub open spec fn eliminated(b: Board, p: int) -> bool {
    forall|q: int| #[trigger] sees(p, q) ==> peer_excluded(b, p, q)
}

/// No propagation step applies: every undetermined tile has absorbed all
/// its peers' values and has no singleton candidate set left to commit.
pub open spec fn at_fixpoint(b: Board) -> bool {
    forall|p: int|
        0 <= p < 81 && !determined(#[trigger] b@[p]) ==> eliminated(b, p) && cand_count(b@[p]) != 1
}

/// `s` is a full, valid assignment still open on board `b`: one digit per
/// cell, each digit still a candidate of its cell, and no two peers equal.
pub open spec fn solution_of(s: Seq<u8>, b: Board) -> bool {
    &&& s.len() == 81
    &&& forall|p: int| 0 <= p < 81 ==> (#[trigger] s[p]) < 9 && candidate(b@[p], s[p] as int)
    &&& forall|p: int, q: int| #[trigger] sees(p, q) ==> s[p] != s[q]
}

/// A narrowing never invents solutions: whatever is still open on the
/// narrowed board was open on the wider one.
pub proof fn lemma_solution_refines(s: Seq<u8>, b2: Board, b1: Board)
    requires
        refines(b2, b1),
        solution_of(s, b2),
        b1@.len() == 81,
    ensures
        solution_of(s, b1),
{
    assert forall|p: int| 0 <= p < 81 implies (#[trigger] s[p]) < 9 && candidate(
        b1@[p],
        s[p] as int,
    ) by {
        assert(tile_refines(b2@[p], b1@[p]));
        assert(candidate(b2@[p], s[p] as int));
    }
}

/// On a well-formed, fully determined board the only assignment still
/// open is the board's own: an open assignment reads off the values.
pub proof fn lemma_solution_of_determined(s: Seq<u8>, b: Board)
    requires
        board_wf(b),
        all_determined(b),
        solution_of(s, b),
    ensures
        forall|p: int| 0 <= p < 81 ==> (#[trigger] b@[p]).value == Some(s[p]),
{
    assert forall|p: int| 0 <= p < 81 implies (#[trigger] b@[p]).value == Some(s[p]) by {
        assert(tile_wf(b@[p], p));
        assert(candidate(b@[p], s[p] as int));
    }
}

/// A board with an emptied candidate set admits no solution.
pub proof fn lemma_no_solution_of_contradiction(s: Seq<u8>, b: Board)
    requires
        has_contradiction(b),
    ensures
        !solution_of(s, b),
{
    let i = choose|i: int| 0 <= i < 81 && cand_count(#[trigger] b@[i]) == 0;
    lemma_cands_below(b@[i].hints@, 9);
    if solution_of(s, b) {
        assert(candidate(b@[i], s[i] as int));
    }
}

pub proof fn lemma_refines_refl(a: Board)
    ensures
        refines(a, a),
{
}

pub proof fn lemma_refines_trans(c: Board, b: Board, a: Board)
    requires
        refines(c, b),
        refines(b, a),
    ensures
        refines(c, a),
{
    assert forall|i: int| 0 <= i < 81 implies tile_refines(#[trigger] c@[i], a@[i]) by {
        assert(tile_refines(c@[i], b@[i]));
        assert(tile_refines(b@[i], a@[i]));
    }
}

/// The candidate digits below `d` are exactly the set hint flags below `d`.
pub proof fn lemma_cands_below(h: Seq<bool>, d: int)
    requires
        h.len() == 9,
        0 <= d <= 9,
    ensures
        cands_below(h, d).len() <= d,
        forall|i: int|
            0 <= i < cands_below(h, d).len() ==> (#[trigger] cands_below(h, d)[i] < d
                && h[cands_below(h, d)[i] as int]),
        (cands_below(h, d).len() == 0 <==> (forall|x: int| 0 <= x < d ==> !h[x])),
        cands_below(h, d).len() == 1 ==> (forall|x: int|
            0 <= x < d ==> (h[x] <==> x == cands_below(h, d)[0] as int)),
        forall|x: int| 0 <= x < d && h[x] ==> #[trigger] cands_below(h, d).contains(x as u8),
    decreases d,
{
    if d > 0 {
        lemma_cands_below(h, d - 1);
        let prev = cands_below(h, d - 1);
        if h[d - 1] {
            let cur = prev.push((d - 1) as u8);
            assert forall|x: int| 0 <= x < d && h[x] implies #[trigger] cur.contains(x as u8) by {
                if x < d - 1 {
                    assert(prev.contains(x as u8));
                    let j = choose|j: int| 0 <= j < prev.len() && prev[j] == x as u8;
                    assert(cur[j] == x as u8);
                } else {
                    assert(cur[cur.len() - 1] == x as u8);
                }
            }
        } else {
            assert forall|x: int| 0 <= x < d && h[x] implies #[trigger] cands_below(h, d).contains(
                x as u8,
            ) by {
                assert(prev.contains(x as u8));
            }
        }
    }
}

/// A hint array that is exactly the singleton of `v` holds one candidate:
/// `v` itself.
proof fn lemma_cands_below_singleton(h: Seq<bool>, v: int, d: int)
    requires
        h.len() == 9,
        0 <= v < 9,
        forall|x: int| 0 <= x < 9 ==> (h[x] <==> x == v),
        0 <= d <= 9,
    ensures
        cands_below(h, d).len() == if v < d {
            1int
        } else {
            0int
        },
        v < d ==> cands_below(h, d)[0] == v,
    decreases d,
{
    if d > 0 {
        lemma_cands_below_singleton(h, v, d - 1);
    }
}

/// A well-formed determined tile has exactly one candidate, its value.
pub proof fn lemma_determined_cand_count(t: Tile, i: int)
    requires
        tile_wf(t, i),
        determined(t),
    ensures
        cand_count(t) == 1,
{
    match t.value {
        Some(v) => {
            assert forall|x: int| 0 <= x < 9 implies (t.hints@[x] <==> x == v as int) by {
                assert(candidate(t, x) <==> x == v as int);
            }
            lemma_cands_below_singleton(t.hints@, v as int, 9);
        },
        None => {},
    }
}

/// `c` is one of the characters '0' to '9'.
pub open spec fn is_digit_char(c: char) -> bool {
    '0' as int <= c as int && c as int <= '9' as int
}

/// The digit characters of a text, in order of appearance.
pub open spec fn digits_of(s: Seq<char>) -> Seq<char> {
    s.filter(|c: char| is_digit_char(c))
}

/// The internal value a digit character stands for: '1' to '9' give the
/// zero-based digits 0 to 8, anything else (in particular '0', a blank
/// cell) gives none.
pub open spec fn digit_value(c: char) -> Option<u8> {
    if '1' as int <= c as int && c as int <= '9' as int {
        Some((c as int - '1' as int) as u8)
    } else {
        None
    }
}

/// Tile `t` is the parse of digit character `c` at position `i`: '0' gives
/// an undetermined tile open to all nine digits, '1' to '9' a determined
/// tile with a singleton candidate set.
pub open spec fn tile_matches_digit(t: Tile, i: int, c: char) -> bool {
    &&& t.index == i
    &&& t.value == digit_value(c)
    &&& forall|d: int|
        0 <= d < 9 ==> (candidate(t, d) <==> match digit_value(c) {
            Some(v) => d == v,
            None => true,
        })
}

/// Board `b` is the parse of the digit characters `ds`.
pub open spec fn parses_to(b: Board, ds: Seq<char>) -> bool {
    &&& ds.len() == 81
    &&& b@.len() == 81
    &&& forall|i: int| 0 <= i < 81 ==> tile_matches_digit(#[trigger] b@[i], i, ds[i])
}

/// Maps '1' to '9' to the zero-based digits 0 to 8; everything else,
/// including '0', has no value.
pub fn char_to_maxnine(c: char) -> (r: Option<u8>)
    ensures
        r == digit_value(c),
{
    match c {
        '1' => Some(0),
        '2' => Some(1),
        '3' => Some(2),
        '4' => Some(3),
        '5' => Some(4),
        '6' => Some(5),
        '7' => Some(6),
        '8' => Some(7),
        '9' => Some(8),
        _ => None,
    }
}

impl Default for Tile {
    /// An unconstrained tile at position 0: no value, all nine digits open.
    fn default() -> (t: Tile)
        ensures
            t.index == 0,
            t.value is None,
            forall|d: int| 0 <= d < 9 ==> candidate(t, d),
    {
        Tile { index: 0, value: None, hints: [true; 9] }
    }
}

/// Clearing a set hint flag removes exactly one candidate.
pub proof fn lemma_cands_below_clear(h: Seq<bool>, v: int, d: int)
    requires
        h.len() == 9,
        0 <= v < 9,
        h[v],
        0 <= d <= 9,
    ensures
        v < d ==> cands_below(h.update(v, false), d).len() + 1 == cands_below(h, d).len(),
        v >= d ==> cands_below(h.update(v, false), d) == cands_below(h, d),
    decreases d,
{
    if d > 0 {
        lemma_cands_below_clear(h, v, d - 1);
    }
}

/// Law: a board parsed from 81 given digits — no blanks — is fully
/// determined, each tile's value the external digit less one. Together
/// with the resolution contract, a fully given grid therefore resolves
/// immediately, to itself.
pub proof fn lemma_parse_round_trip(b: Board, ds: Seq<char>)
    requires
        parses_to(b, ds),
        forall|i: int| 0 <= i < 81 ==> '1' as int <= (#[trigger] ds[i]) as int <= '9' as int,
    ensures
        all_determined(b),
        forall|i: int|
            0 <= i < 81 ==> (#[trigger] b@[i]).value == Some((ds[i] as int - '1' as int) as u8),
{
    assert forall|i: int| 0 <= i < 81 implies determined(#[trigger] b@[i]) && b@[i].value == Some(
        (ds[i] as int - '1' as int) as u8,
    ) by {
        assert(tile_matches_digit(b@[i], i, ds[i]));
    }
}

/// The tile a digit character parses to at position `i`.
fn tile_from_digit(i: u8, c: char) -> (t: Tile)
    requires
        i < 81,
        is_digit_char(c),
    ensures
        tile_matches_digit(t, i as int, c),
        tile_wf(t, i as int),
{
    let value = char_to_maxnine(c);
    let hints: [bool; 9] = match value {
        Some(v) => {
            let mut h: [bool; 9] = [false; 9];
            h[v as usize] = true;
            h
        },
        None => [true; 9],
    };
    Tile { index: i, value, hints }
}

impl Board {
    /// Parses a puzzle text. Digit characters are read left to right, top
    /// to bottom, and become the 81 tiles in order of appearance: '0' a
    /// blank cell, '1' to '9' a given digit. Every other character is
    /// skipped. Succeeds exactly when the text holds 81 digit characters.
    pub fn try_from_str(src: &str) -> (r: Result<Board, String>)
        ensures
            match r {
                Ok(b) => digits_of(src@).len() == 81 && board_wf(b) && parses_to(
                    b,
                    digits_of(src@),
                ),
                Err(_) => digits_of(src@).len() != 81,
            },
    {
        let n = src.unicode_len();
        let d = Tile::default();
        let mut tiles: [Tile; 81] = [d; 81];
        let mut count: usize = 0;
        let mut i: usize = 0;
        while i < n
            invariant
                n == src@.len(),
                i <= n,
                count == digits_of(src@.subrange(0, i as int)).len(),
                forall|j: int|
                    0 <= j < count && j < 81 ==> tile_matches_digit(
                        #[trigger] tiles@[j],
                        j,
                        digits_of(src@.subrange(0, i as int))[j],
                    ) && tile_wf(tiles@[j], j),
            decreases n - i,
        {
            let c = src.get_char(i);
            let ghost prefix = src@.subrange(0, i as int);
            let ghost prefix2 = src@.subrange(0, i as int + 1);
            proof {
                assert(prefix2.drop_last() =~= prefix);
                assert(prefix2.last() == src@[i as int]);
            }
            let u = c as u32;
            let is_digit = 48 <= u && u <= 57;
            proof {
                reveal(Seq::filter);
                assert(is_digit == is_digit_char(c));
                if is_digit_char(c) {
                    assert(digits_of(prefix2) =~= digits_of(prefix).push(c));
                } else {
                    assert(digits_of(prefix2) =~= digits_of(prefix));
                }
            }
            if is_digit {
                if count < 81 {
                    let t = tile_from_digit(count as u8, c);
                    tiles[count] = t;
                }
                count = count + 1;
            }
            i = i + 1;
        }
        proof {
            assert(src@.subrange(0, n as int) =~= src@);
        }
        if count != 81 {
            return Err("puzzle must contain exactly 81 digit cells".to_owned());
        }
        Ok(Board { tiles })
    }

    /// The tile at position `i`.
    pub fn tile_at(&self, i: usize) -> (t: Tile)
        requires
            i < 81,
        ensures
            t == self@[i as int],
    {
        self.tiles[i]
    }

    /// Replaces the tile at position `i`.
    pub(crate) fn set_tile(&mut self, i: usize, t: Tile)
        requires
            i < 81,
        ensures
            final(self)@ == old(self)@.update(i as int, t),
    {
        self.tiles[i] = t;
    }

    /// A board always holds exactly 81 tiles.
    pub proof fn lemma_len(self)
        ensures
            self@.len() == 81,
    {
    }

    /// The tiles of the board, in position order.
    pub fn tiles_vec(&self) -> (r: Vec<Tile>)
        ensures
            r@ == self@,
    {
        let mut r: Vec<Tile> = Vec::new();
        let mut i: usize = 0;
        while i < 81
            invariant
                i <= 81,
                r@ =~= self@.subrange(0, i as int),
            decreases 81 - i,
        {
            r.push(self.tiles[i]);
            proof {
                assert(r@ =~= self@.subrange(0, i as int + 1));
            }
            i = i + 1;
        }
        proof {
            assert(self@.subrange(0, 81) =~= self@);
        }
        r
    }

    /// Decides well-formedness, so that an unverified caller can test it
    /// before handing a board to the solver.
    pub fn is_well_formed(&self) -> (r: bool)
        ensures
            r == board_wf(*self),
    {
        let mut i: usize = 0;
        while i < 81
            invariant
                i <= 81,
                forall|j: int| 0 <= j < i ==> tile_wf(#[trigger] self@[j], j),
            decreases 81 - i,
        {
            let t = self.tiles[i];
            if t.index as usize != i {
                return false;
            }
            match t.value {
                Some(v) => {
                    if v >= 9 {
                        return false;
                    }
                    let mut dd: usize = 0;
                    while dd < 9
                        invariant
                            v < 9,
                            dd <= 9,
                            t == self@[i as int],
                            t.value == Some(v),
                            0 <= i < 81,
                            forall|d: int| 0 <= d < dd ==> (candidate(t, d) <==> d == v),
                        decreases 9 - dd,
                    {
                        if t.hints[dd] != (dd == v as usize) {
                            proof {
                                assert(candidate(self@[i as int], dd as int) != (dd as int
                                    == v as int));
                                assert(!tile_wf(self@[i as int], i as int));
                            }
                            return false;
                        }
                        dd = dd + 1;
                    }
                },
                None => {},
            }
            i = i + 1;
        }
        true
    }
}

/// The candidate digits of tile `t`, in ascending order.
pub fn candidates_of(t: &Tile) -> (r: Vec<u8>)
    ensures
        r@ == cand_list(*t),
{
    let mut r: Vec<u8> = Vec::new();
    let mut d: usize = 0;
    while d < 9
        invariant
            d <= 9,
            r@ == cands_below(t.hints@, d as int),
        decreases 9 - d,
    {
        if t.hints[d] {
            r.push(d as u8);
        }
        d = d + 1;
    }
    r
}

} // verus!
