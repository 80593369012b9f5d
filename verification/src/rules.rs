//! The board representation and rules engine: bit-packed position state,
//! neighbour masks, legal-move generation, move application with flood
//! capture, terminal detection and position hashing.
//!
//! Cells are addressed on an 8-wide stride: row `y`, column `x` is bit
//! `x + 8*y`. Column 7 of every row is permanently excluded from play so
//! that neighbour masks can be produced by constant-time shifts.

use vstd::prelude::*;
use crate::bits::{
    bit,
    clear_lowest,
    count_bits,
    lemma_disjoint_bit,
    lemma_lowest_bit,
    lemma_subset_bit,
    popcount,
};
use crate::rng::RNG_MULT;

verus! {

/// The 49 playable cells: rows 0 to 6, columns 0 to 6.
pub const ALL_CELLS_MASK: u64 = 0x7f7f7f7f7f7f7f;

/// Cell index `c` names a playable cell.
pub open spec fn on_board(c: u64) -> bool {
    c < 55 && c % 8 < 7
}

/// Both cells playable and within Chebyshev distance 1 (includes `a == b`).
pub open spec fn near(a: u64, b: u64) -> bool {
    &&& on_board(a)
    &&& on_board(b)
    &&& a % 8 <= b % 8 + 1
    &&& b % 8 <= a % 8 + 1
    &&& a / 8 <= b / 8 + 1
    &&& b / 8 <= a / 8 + 1
}

/// Chebyshev distance exactly 1: the capture and clone neighbourhood.
pub open spec fn is_adjacent(a: u64, b: u64) -> bool {
    near(a, b) && a != b
}

/// Both cells playable and within Chebyshev distance 2.
pub open spec fn within_two(a: u64, b: u64) -> bool {
    &&& on_board(a)
    &&& on_board(b)
    &&& a % 8 <= b % 8 + 2
    &&& b % 8 <= a % 8 + 2
    &&& a / 8 <= b / 8 + 2
    &&& b / 8 <= a / 8 + 2
}

/// Chebyshev distance exactly 2: the relocation ring.
pub open spec fn is_jump(a: u64, b: u64) -> bool {
    within_two(a, b) && !near(a, b)
}

/// All playable cells within Chebyshev distance 1 of some set bit of `m`,
/// the set bits themselves included.
pub open spec fn spec_grow(m: u64) -> u64 {
    ((m | (m << 1) | (m >> 1)) | ((m | (m << 1) | (m >> 1)) << 8) | ((m | (m << 1) | (m >> 1))
        >> 8)) & ALL_CELLS_MASK
}

/// The cells adjacent to `c`.
pub open spec fn spec_adjacency(c: u64) -> u64 {
    spec_grow(1u64 << c) & !(1u64 << c)
}

/// The cells a jump away from `c`.
pub open spec fn spec_jump_ring(c: u64) -> u64 {
    spec_grow(spec_grow(1u64 << c)) & !spec_grow(1u64 << c)
}

pub proof fn lemma_adjacency_bit(c: u64, d: u64)
    requires
        on_board(c),
        d < 64,
    ensures
        bit(spec_adjacency(c), d) == is_adjacent(c, d),
{
    assert(((spec_adjacency(c) >> d) & 1u64 == 1u64) == (d < 55 && d % 8 < 7 && c != d && c % 8
        <= d % 8 + 1 && d % 8 <= c % 8 + 1 && c / 8 <= d / 8 + 1 && d / 8 <= c / 8 + 1))
        by (bit_vector)
        requires
            c < 55,
            c % 8 < 7,
            d < 64,
    ;
}

pub proof fn lemma_jump_ring_bit(c: u64, d: u64)
    requires
        on_board(c),
        d < 64,
    ensures
        bit(spec_jump_ring(c), d) == is_jump(c, d),
{
    assert(((spec_jump_ring(c) >> d) & 1u64 == 1u64) == (d < 55 && d % 8 < 7 && (c % 8 <= d % 8
        + 2 && d % 8 <= c % 8 + 2 && c / 8 <= d / 8 + 2 && d / 8 <= c / 8 + 2) && !(c % 8 <= d % 8
        + 1 && d % 8 <= c % 8 + 1 && c / 8 <= d / 8 + 1 && d / 8 <= c / 8 + 1))) by (bit_vector)
        requires
            c < 55,
            c % 8 < 7,
            d < 64,
    ;
}

/// A set bit of a mask contained in the playable region names a playable
/// cell.
pub proof fn lemma_contained_bit(m: u64, i: u64)
    requires
        m & ALL_CELLS_MASK == m,
        i < 64,
        bit(m, i),
    ensures
        on_board(i),
{
    assert(((m >> i) & 1u64 == 1u64 && m & 0x7f7f7f7f7f7f7fu64 == m) ==> (i < 55 && i % 8 < 7))
        by (bit_vector)
        requires
            i < 64,
    ;
}

/// Compute the adjacency mask of cell `c` by shifting its bit.
pub fn adjacency_mask(c: u8) -> (r: u64)
    requires
        on_board(c as u64),
    ensures
        r == spec_adjacency(c as u64),
        forall|d: u64| d < 64 ==> #[trigger] bit(r, d) == is_adjacent(c as u64, d),
{
    let b: u64 = 1u64 << (c as u64);
    let g: u64 = b | (b << 1) | (b >> 1);
    let r: u64 = ((g | (g << 8) | (g >> 8)) & ALL_CELLS_MASK) & !b;
    assert forall|d: u64| d < 64 implies #[trigger] bit(r, d) == is_adjacent(c as u64, d) by {
        lemma_adjacency_bit(c as u64, d);
    }
    r
}

/// Compute the jump-ring mask of cell `c` by growing its neighbourhood
/// twice.
pub fn jump_ring_mask(c: u8) -> (r: u64)
    requires
        on_board(c as u64),
    ensures
        r == spec_jump_ring(c as u64),
        forall|d: u64| d < 64 ==> #[trigger] bit(r, d) == is_jump(c as u64, d),
{
    let b: u64 = 1u64 << (c as u64);
    let g: u64 = b | (b << 1) | (b >> 1);
    let a: u64 = (g | (g << 8) | (g >> 8)) & ALL_CELLS_MASK;
    let g2: u64 = a | (a << 1) | (a >> 1);
    let r: u64 = ((g2 | (g2 << 8) | (g2 >> 8)) & ALL_CELLS_MASK) & !a;
    assert forall|d: u64| d < 64 implies #[trigger] bit(r, d) == is_jump(c as u64, d) by {
        lemma_jump_ring_bit(c as u64, d);
    }
    r
}

#[derive(Clone, Copy, PartialEq, Eq, Structural, Debug)]
pub enum Color {
    Black,
    White,
}

impl Color {
    pub open spec fn spec_other(self) -> Color {
        if self == Color::Black {
            Color::White
        } else {
            Color::Black
        }
    }

    pub fn other_player(self) -> (r: Color)
        ensures
            r == self.spec_other(),
    {
        match self {
            Color::Black => Color::White,
            Color::White => Color::Black,
        }
    }
}

/// A cell, stored as its stride-8 index; the pass sentinel uses 255.
#[derive(Clone, Copy, PartialEq, Eq, Structural, Debug)]
pub struct Spot(pub u8);

/// A move: a clone when `from == to`, a relocation otherwise, and the
/// distinguished pass when both spots carry the sentinel.
#[derive(Clone, Copy, PartialEq, Eq, Structural, Debug)]
pub struct Move {
    pub from: Spot,
    pub to: Spot,
}

impl Move {
    pub open spec fn spec_pass() -> Move {
        Move { from: Spot(255), to: Spot(255) }
    }

    pub open spec fn is_pass(self) -> bool {
        self == Move::spec_pass()
    }

    /// The pass move, legal only when the side to move has no other move.
    pub fn pass() -> (m: Move)
        ensures
            m == Move::spec_pass(),
    {
        Move { from: Spot(255), to: Spot(255) }
    }
}

/// The mover's stones after placing on `to` and, for a relocation,
/// vacating `from`.
pub open spec fn spec_placed(mover: u64, to: u64, from: u64) -> u64 {
    if from == to {
        mover | (1u64 << to)
    } else {
        (mover | (1u64 << to)) & !(1u64 << from)
    }
}

/// The stones adjacent to the destination; enemy ones flip, friendly ones
/// are rewritten harmlessly.
pub open spec fn spec_captures(placed: u64, other: u64, to: u64) -> u64 {
    spec_adjacency(to) & (placed | other)
}

#[derive(Clone, Copy, PartialEq, Eq, Structural, Debug)]
pub struct State {
    pub black_stones: u64,
    pub white_stones: u64,
    pub gaps: u64,
    pub to_move: Color,
}

impl State {
    pub open spec fn occupied(self) -> u64 {
        self.black_stones | self.white_stones | self.gaps
    }

    pub open spec fn stones(self) -> u64 {
        self.black_stones | self.white_stones
    }

    pub open spec fn side_stones(self, c: Color) -> u64 {
        if c == Color::Black {
            self.black_stones
        } else {
            self.white_stones
        }
    }

    /// The two colour sets and the blocked set are pairwise disjoint.
    pub open spec fn spec_disjoint(self) -> bool {
        &&& self.black_stones & self.white_stones == 0
        &&& self.black_stones & self.gaps == 0
        &&& self.white_stones & self.gaps == 0
    }

    /// Every stone and gap lies on a playable cell.
    pub open spec fn contained(self) -> bool {
        self.occupied() & ALL_CELLS_MASK == self.occupied()
    }

    pub open spec fn wf(self) -> bool {
        self.spec_disjoint() && self.contained()
    }

    /// No empty playable cell remains.
    pub open spec fn spec_terminal(self) -> bool {
        self.occupied() == ALL_CELLS_MASK
    }

    /// A move that `spec_apply` gives the documented meaning to: the
    /// destination is an empty playable cell and the source, when
    /// distinct, is playable. Moves outside this set are undefined at
    /// this layer; `is_legal_move` is the full rule-level check.
    pub open spec fn can_apply(self, m: Move) -> bool {
        ||| m.is_pass()
        ||| {
            &&& on_board(m.to.0 as u64)
            &&& !bit(self.occupied(), m.to.0 as u64)
            &&& (m.from.0 == m.to.0 || on_board(m.from.0 as u64))
        }
    }

    /// The position after `m`: place, vacate for a relocation, flood the
    /// destination's neighbourhood to the mover's colour, flip the side
    /// to move.
    pub open spec fn spec_apply(self, m: Move) -> State {
        if m.is_pass() {
            State {
                black_stones: self.black_stones,
                white_stones: self.white_stones,
                gaps: self.gaps,
                to_move: self.to_move.spec_other(),
            }
        } else {
            let to = m.to.0 as u64;
            let from = m.from.0 as u64;
            let mover = self.side_stones(self.to_move);
            let other = self.side_stones(self.to_move.spec_other());
            let placed = spec_placed(mover, to, from);
            let caps = spec_captures(placed, other, to);
            if self.to_move == Color::Black {
                State {
                    black_stones: placed | caps,
                    white_stones: other & !caps,
                    gaps: self.gaps,
                    to_move: Color::White,
                }
            } else {
                State {
                    black_stones: other & !caps,
                    white_stones: placed | caps,
                    gaps: self.gaps,
                    to_move: Color::Black,
                }
            }
        }
    }

    pub fn new() -> (s: State)
        ensures
            s == (State { black_stones: 0, white_stones: 0, gaps: 0, to_move: Color::Black }),
            s.wf(),
    {
        let s = State { black_stones: 0, white_stones: 0, gaps: 0, to_move: Color::Black };
        proof {
            assert(0u64 & 0u64 == 0 && (0u64 | 0u64 | 0u64) & 0x7f7f7f7f7f7f7fu64 == (0u64 | 0u64
                | 0u64)) by (bit_vector);
        }
        s
    }

    pub fn game_is_over(&self) -> (r: bool)
        ensures
            r == self.spec_terminal(),
    {
        (self.black_stones | self.white_stones | self.gaps) == ALL_CELLS_MASK
    }

    /// The runtime form of the well-formedness invariant, for unverified
    /// callers that must check it before handing a position in.
    pub fn is_well_formed(&self) -> (r: bool)
        ensures
            r == self.wf(),
    {
        self.black_stones & self.white_stones == 0 && self.black_stones & self.gaps == 0
            && self.white_stones & self.gaps == 0 && (self.black_stones | self.white_stones
            | self.gaps) & ALL_CELLS_MASK == (self.black_stones | self.white_stones | self.gaps)
    }

    /// The three cell sets must never overlap; a violation would be a
    /// programming error, so it is ruled out by contract and the checks
    /// below are provably dead.
    pub fn sanity_check(&self)
        requires
            self.spec_disjoint(),
    {
        if self.black_stones & self.white_stones != 0 {
            proof {
                assert(false);
            }
        }
        if self.black_stones & self.gaps != 0 {
            proof {
                assert(false);
            }
        }
        if self.white_stones & self.gaps != 0 {
            proof {
                assert(false);
            }
        }
    }
}

/// One scrambling step of the position hash: fold in a word, multiply,
/// fold the high bits down.
pub open spec fn spec_mix_step(h: u64, x: u64) -> u64 {
    let b = vstd::wrapping::u64_specs::wrapping_mul(h ^ x, RNG_MULT);
    b ^ (b >> 37)
}

pub open spec fn spec_color_code(c: Color) -> u64 {
    if c == Color::Black {
        0
    } else {
        1
    }
}

impl State {
    /// The full rule-level legality check: the destination is an empty
    /// playable cell, and the move either clones next to an own stone or
    /// jumps an own stone from exactly two cells away.
    pub open spec fn is_legal_move(self, m: Move) -> bool {
        &&& !m.is_pass()
        &&& on_board(m.to.0 as u64)
        &&& !bit(self.occupied(), m.to.0 as u64)
        &&& if m.from.0 == m.to.0 {
            exists|f: u64|
                f < 64 && #[trigger] bit(self.side_stones(self.to_move), f) && is_adjacent(
                    f,
                    m.to.0 as u64,
                )
        } else {
            bit(self.side_stones(self.to_move), m.from.0 as u64) && is_jump(
                m.from.0 as u64,
                m.to.0 as u64,
            )
        }
    }

    /// A non-pass position key: both colour masks and the side to move,
    /// scrambled by the multiply-xor-shift mixer. The blocked cells are
    /// left out because they never change within a game.
    pub open spec fn spec_hash(self) -> u64 {
        spec_mix_step(
            spec_mix_step(spec_mix_step(0, self.black_stones), self.white_stones),
            spec_color_code(self.to_move),
        )
    }

    pub fn get_hash(&self) -> (r: u64)
        ensures
            r == self.spec_hash(),
    {
        let mut hash: u64 = 0;
        hash = (hash ^ self.black_stones).wrapping_mul(RNG_MULT);
        hash = hash ^ (hash >> 37);
        hash = (hash ^ self.white_stones).wrapping_mul(RNG_MULT);
        hash = hash ^ (hash >> 37);
        let side: u64 = match self.to_move {
            Color::Black => 0,
            Color::White => 1,
        };
        hash = (hash ^ side).wrapping_mul(RNG_MULT);
        hash = hash ^ (hash >> 37);
        hash
    }

    /// The winner of a finished game is the side with strictly more
    /// stones; the board geometry is assumed to make an exact tie
    /// unreachable, so a tie is excluded by contract rather than
    /// resolved silently.
    pub fn get_winner(&self) -> (r: Option<Color>)
        requires
            self.spec_terminal() ==> count_bits(self.black_stones) != count_bits(
                self.white_stones,
            ),
        ensures
            (r == None::<Color>) <==> !self.spec_terminal(),
            (r == Some(Color::Black)) <==> (self.spec_terminal() && count_bits(self.black_stones)
                > count_bits(self.white_stones)),
            (r == Some(Color::White)) <==> (self.spec_terminal() && count_bits(self.white_stones)
                > count_bits(self.black_stones)),
    {
        if !self.game_is_over() {
            None
        } else {
            let black_score = popcount(self.black_stones);
            let white_score = popcount(self.white_stones);
            if black_score > white_score {
                Some(Color::Black)
            } else if white_score > black_score {
                Some(Color::White)
            } else {
                proof {
                    assert(false);
                }
                None
            }
        }
    }

    /// Apply `m` to this position in place. The caller must only hand in
    /// moves the rules give a meaning to; anything else is a programming
    /// error, excluded by contract.
    pub fn make_move(&mut self, m: Move) -> (r: Result<(), &'static str>)
        requires
            old(self).wf(),
            old(self).can_apply(m),
        ensures
            r.is_ok(),
            *final(self) == old(self).spec_apply(m),
            final(self).wf(),
    {
        proof {
            lemma_apply_preserves_wf(*old(self), m);
        }
        if m == Move::pass() {
            self.to_move = self.to_move.other_player();
            return Ok(());
        }
        let to = m.to.0;
        // Place the target stone, vacating the source for a relocation.
        match self.to_move {
            Color::Black => {
                self.black_stones = self.black_stones | (1u64 << (to as u64));
                if m.from.0 != to {
                    self.black_stones = self.black_stones & !(1u64 << (m.from.0 as u64));
                }
            },
            Color::White => {
                self.white_stones = self.white_stones | (1u64 << (to as u64));
                if m.from.0 != to {
                    self.white_stones = self.white_stones & !(1u64 << (m.from.0 as u64));
                }
            },
        }
        // Flood the destination's neighbourhood to the mover's colour.
        let captures = adjacency_mask(to) & (self.black_stones | self.white_stones);
        proof {
            let b = self.black_stones;
            let w = self.white_stones;
            assert(b | w == w | b) by (bit_vector);
        }
        match self.to_move {
            Color::Black => {
                self.black_stones = self.black_stones | captures;
                self.white_stones = self.white_stones & !captures;
            },
            Color::White => {
                self.white_stones = self.white_stones | captures;
                self.black_stones = self.black_stones & !captures;
            },
        }
        self.to_move = self.to_move.other_player();
        Ok(())
    }
}

/// A fully legal move is in particular one that `spec_apply` interprets.
pub proof fn lemma_legal_can_apply(s: State, m: Move)
    requires
        s.wf(),
        s.is_legal_move(m),
    ensures
        s.can_apply(m),
{
}

/// What each cell holds after a non-pass move, at the mask level: the
/// destination gains a mover's stone, a relocation vacates its source,
/// every enemy stone adjacent to the destination flips, and no other
/// cell changes.
proof fn lemma_apply_masks_cell(mover: u64, other: u64, to: u64, from: u64, c: u64)
    requires
        on_board(to),
        from == to || from < 64,
        c < 64,
    ensures
        bit(spec_placed(mover, to, from) | spec_captures(spec_placed(mover, to, from), other, to),
            c) == (c == to || (bit(mover, c) && !(from != to && c == from)) || (bit(other, c)
            && is_adjacent(to, c))),
        bit(other & !spec_captures(spec_placed(mover, to, from), other, to), c) == (bit(other, c)
            && !is_adjacent(to, c)),
{
    lemma_adjacency_bit(to, c);
    let a = spec_adjacency(to);
    if from == to {
        let p = mover | (1u64 << to);
        assert((((p | (a & (p | other))) >> c) & 1u64 == 1u64) == (c == to || ((mover >> c) & 1u64
            == 1u64) || (((other >> c) & 1u64 == 1u64) && ((a >> c) & 1u64 == 1u64))))
            by (bit_vector)
            requires
                p == mover | (1u64 << to),
                to < 64,
                c < 64,
        ;
        assert((((other & !(a & (p | other))) >> c) & 1u64 == 1u64) == (((other >> c) & 1u64
            == 1u64) && !((a >> c) & 1u64 == 1u64))) by (bit_vector)
            requires
                c < 64,
        ;
    } else {
        let p = (mover | (1u64 << to)) & !(1u64 << from);
        assert((((p | (a & (p | other))) >> c) & 1u64 == 1u64) == (c == to || (((mover >> c) & 1u64
            == 1u64) && c != from) || (((other >> c) & 1u64 == 1u64) && ((a >> c) & 1u64 == 1u64))))
            by (bit_vector)
            requires
                p == (mover | (1u64 << to)) & !(1u64 << from),
                to < 64,
                from < 64,
                from != to,
                c < 64,
                to != from,
        ;
        assert((((other & !(a & (p | other))) >> c) & 1u64 == 1u64) == (((other >> c) & 1u64
            == 1u64) && !((a >> c) & 1u64 == 1u64))) by (bit_vector)
            requires
                c < 64,
        ;
    }
}

/// Applying an admissible non-pass move at the mask level keeps the three
/// cell sets pairwise disjoint and inside the playable region.
proof fn lemma_apply_masks_wf(mover: u64, other: u64, gaps: u64, to: u64, from: u64)
    requires
        mover & other == 0,
        mover & gaps == 0,
        other & gaps == 0,
        (mover | other | gaps) & ALL_CELLS_MASK == (mover | other | gaps),
        on_board(to),
        !bit(mover | other | gaps, to),
        from == to || from < 64,
    ensures
        ({
            let placed = spec_placed(mover, to, from);
            let caps = spec_captures(placed, other, to);
            &&& (placed | caps) & (other & !caps) == 0
            &&& (placed | caps) & gaps == 0
            &&& (other & !caps) & gaps == 0
            &&& ((placed | caps) | (other & !caps) | gaps) & ALL_CELLS_MASK == ((placed | caps) | (
            other & !caps) | gaps)
        }),
{
    let a = spec_adjacency(to);
    assert(a & ALL_CELLS_MASK == a && !((a >> to) & 1u64 == 1u64)) by (bit_vector)
        requires
            a == spec_adjacency(to),
            to < 55,
            to % 8 < 7,
    ;
    if from == to {
        let p = mover | (1u64 << to);
        let caps = a & (p | other);
        assert((p | caps) & (other & !caps) == 0 && (p | caps) & gaps == 0 && (other & !caps)
            & gaps == 0 && ((p | caps) | (other & !caps) | gaps) & ALL_CELLS_MASK == ((p | caps) | (
        other & !caps) | gaps)) by (bit_vector)
            requires
                p == mover | (1u64 << to),
                caps == a & (p | other),
                mover & other == 0,
                mover & gaps == 0,
                other & gaps == 0,
                (mover | other | gaps) & ALL_CELLS_MASK == (mover | other | gaps),
                a & ALL_CELLS_MASK == a,
                to < 55,
                to % 8 < 7,
                !(((mover | other | gaps) >> to) & 1u64 == 1u64),
        ;
    } else {
        let p = (mover | (1u64 << to)) & !(1u64 << from);
        let caps = a & (p | other);
        assert((p | caps) & (other & !caps) == 0 && (p | caps) & gaps == 0 && (other & !caps)
            & gaps == 0 && ((p | caps) | (other & !caps) | gaps) & ALL_CELLS_MASK == ((p | caps) | (
        other & !caps) | gaps)) by (bit_vector)
            requires
                p == (mover | (1u64 << to)) & !(1u64 << from),
                caps == a & (p | other),
                mover & other == 0,
                mover & gaps == 0,
                other & gaps == 0,
                (mover | other | gaps) & ALL_CELLS_MASK == (mover | other | gaps),
                a & ALL_CELLS_MASK == a,
                to < 55,
                to % 8 < 7,
                !(((mover | other | gaps) >> to) & 1u64 == 1u64),
        ;
    }
}

/// Applying an admissible move to a well-formed position yields a
/// well-formed position: the black, white and blocked sets stay pairwise
/// disjoint on every reachable position.
pub proof fn lemma_apply_preserves_wf(s: State, m: Move)
    requires
        s.wf(),
        s.can_apply(m),
    ensures
        s.spec_apply(m).wf(),
{
    if !m.is_pass() {
        broadcast use crate::bits::lemma_bitand_comm;
        broadcast use crate::bits::lemma_bitor_comm;

        let b = s.black_stones;
        let w = s.white_stones;
        let g = s.gaps;
        let to = m.to.0 as u64;
        let from = m.from.0 as u64;
        if s.to_move == Color::Black {
            lemma_apply_masks_wf(b, w, g, to, from);
        } else {
            assert((w | b | g) == (b | w | g)) by (bit_vector);
            lemma_apply_masks_wf(w, b, g, to, from);
        }
    }
}

/// The trailing-zero count as a cell index.
pub open spec fn spec_tz(m: u64) -> u64 {
    vstd::std_specs::bits::u64_trailing_zeros(m) as u64
}

/// Relocation moves from `from` to every set bit of `mask`, lowest
/// destination first.
pub open spec fn spec_jump_targets(from: u64, mask: u64) -> Seq<Move>
    decreases mask,
{
    if mask == 0 {
        Seq::<Move>::empty()
    } else {
        proof {
            lemma_lowest_bit(mask);
        }
        seq![Move { from: Spot(from as u8), to: Spot(spec_tz(mask) as u8) }] + spec_jump_targets(
            from,
            clear_lowest(mask),
        )
    }
}

/// Relocation moves of every stone of `our`, lowest source first.
pub open spec fn spec_jump_moves(our: u64, empty: u64) -> Seq<Move>
    decreases our,
{
    if our == 0 {
        Seq::<Move>::empty()
    } else {
        proof {
            lemma_lowest_bit(our);
        }
        spec_jump_targets(spec_tz(our), spec_jump_ring(spec_tz(our)) & empty) + spec_jump_moves(
            clear_lowest(our),
            empty,
        )
    }
}

/// The empty cells adjacent to at least one stone of `our`: the clone
/// destinations, de-duplicated across sources.
pub open spec fn spec_clone_mask(our: u64, empty: u64) -> u64
    decreases our,
{
    if our == 0 {
        0
    } else {
        proof {
            lemma_lowest_bit(our);
        }
        (spec_adjacency(spec_tz(our)) & empty) | spec_clone_mask(clear_lowest(our), empty)
    }
}

/// One clone move per set bit of `mask`, lowest first.
pub open spec fn spec_clone_moves(mask: u64) -> Seq<Move>
    decreases mask,
{
    if mask == 0 {
        Seq::<Move>::empty()
    } else {
        proof {
            lemma_lowest_bit(mask);
        }
        seq![Move { from: Spot(spec_tz(mask) as u8), to: Spot(spec_tz(mask) as u8) }]
            + spec_clone_moves(clear_lowest(mask))
    }
}

impl State {
    /// Every non-pass move of the side to move: relocations per source
    /// stone, then the de-duplicated clones.
    pub open spec fn spec_gen_moves(self) -> Seq<Move> {
        spec_jump_moves(self.side_stones(self.to_move), !self.occupied()) + spec_clone_moves(
            spec_clone_mask(self.side_stones(self.to_move), !self.occupied()),
        )
    }

    /// What `move_gen` appends to an empty buffer: the generated moves,
    /// or the forced pass when there is none.
    pub open spec fn spec_move_list(self) -> Seq<Move> {
        if self.spec_gen_moves().len() == 0 {
            seq![Move::spec_pass()]
        } else {
            self.spec_gen_moves()
        }
    }
}

/// Take the lowest set bit out of `bitboard` and return its cell.
fn iter_bits(bitboard: &mut u64) -> (r: Option<Spot>)
    ensures
        *old(bitboard) == 0 ==> r == None::<Spot> && *final(bitboard) == 0,
        *old(bitboard) != 0 ==> r == Some(Spot(spec_tz(*old(bitboard)) as u8)) && *final(bitboard)
            == clear_lowest(*old(bitboard)),
{
    proof {
        vstd::std_specs::bits::axiom_u64_trailing_zeros(*bitboard);
    }
    let pos = bitboard.trailing_zeros();
    if pos == 64 {
        return None;
    }
    proof {
        lemma_lowest_bit(*bitboard);
    }
    *bitboard = *bitboard & (*bitboard - 1);
    Some(Spot(pos as u8))
}

impl State {
    /// Append every legal move of the side to move; when none exists and
    /// the buffer was empty, the forced pass alone is produced.
    #[verifier::loop_isolation(false)]
    pub fn move_gen(&self, moves: &mut Vec<Move>)
        requires
            self.wf(),
        ensures
            old(moves)@.len() == 0 ==> final(moves)@ == self.spec_move_list(),
            old(moves)@.len() > 0 ==> final(moves)@ == old(moves)@ + self.spec_gen_moves(),
    {
        let unoccupied = !(self.black_stones | self.white_stones | self.gaps);
        let mut our_stones = match self.to_move {
            Color::Black => self.black_stones,
            Color::White => self.white_stones,
        };
        let ghost our0 = our_stones;
        let ghost base = moves@;
        proof {
            let b = self.black_stones;
            let w = self.white_stones;
            let g = self.gaps;
            let full = spec_clone_mask(our0, unoccupied);
            assert((((b | w | g) & ALL_CELLS_MASK == (b | w | g)) ==> (b & ALL_CELLS_MASK == b && w
                & ALL_CELLS_MASK == w)) && our_stones & our_stones == our_stones && 0u64 | full
                == full) by (bit_vector);
        }
        let mut single_moves: u64 = 0;
        while our_stones != 0
            invariant
                our0 & ALL_CELLS_MASK == our0,
                our_stones & our0 == our_stones,
                moves@ + spec_jump_moves(our_stones, unoccupied) == base + spec_jump_moves(
                    our0,
                    unoccupied,
                ),
                single_moves | spec_clone_mask(our_stones, unoccupied) == spec_clone_mask(
                    our0,
                    unoccupied,
                ),
            decreases our_stones,
        {
            let ghost our_before = our_stones;
            let ghost f = spec_tz(our_before);
            let pos = iter_bits(&mut our_stones).unwrap();
            proof {
                lemma_lowest_bit(our_before);
                lemma_subset_bit(our_before, our0, f);
                lemma_contained_bit(our0, f);
                assert(our_stones & our0 == our_stones) by (bit_vector)
                    requires
                        our_stones == our_before & ((our_before - 1) as u64),
                        our_before & our0 == our_before,
                        our_before != 0,
                ;
            }
            let adj = adjacency_mask(pos.0);
            let grown = adj & unoccupied;
            proof {
                let s = single_moves;
                let a = grown;
                let r = spec_clone_mask(clear_lowest(our_before), unoccupied);
                assert((s | a) | r == s | (a | r)) by (bit_vector);
            }
            single_moves = single_moves | grown;
            let mut double_moves = jump_ring_mask(pos.0) & unoccupied;
            let ghost dm0 = double_moves;
            let ghost inner_base = moves@;
            while double_moves != 0
                invariant
                    moves@ + spec_jump_targets(f, double_moves) == inner_base + spec_jump_targets(
                        f,
                        dm0,
                    ),
                decreases double_moves,
            {
                let ghost dm_before = double_moves;
                let to = iter_bits(&mut double_moves).unwrap();
                moves.push(Move { from: pos, to });
                proof {
                    lemma_lowest_bit(dm_before);
                    let head = Move { from: Spot(f as u8), to: Spot(spec_tz(dm_before) as u8) };
                    assert(spec_jump_targets(f, dm_before) == seq![head] + spec_jump_targets(
                        f,
                        double_moves,
                    ));
                    assert(moves@ + spec_jump_targets(f, double_moves) =~= inner_base
                        + spec_jump_targets(f, dm0));
                }
            }
            proof {
                assert(moves@ + spec_jump_targets(f, 0) =~= moves@);
                assert(spec_jump_moves(our_before, unoccupied) == spec_jump_targets(f, dm0)
                    + spec_jump_moves(our_stones, unoccupied));
                assert(moves@ + spec_jump_moves(our_stones, unoccupied) =~= base
                    + spec_jump_moves(our0, unoccupied));
            }
        }
        proof {
            assert(moves@ + spec_jump_moves(0, unoccupied) =~= moves@);
            let full = spec_clone_mask(our0, unoccupied);
            assert(single_moves | spec_clone_mask(0, unoccupied) == single_moves) by (bit_vector);
        }
        let ghost clone_base = moves@;
        let ghost sm0 = single_moves;
        while single_moves != 0
            invariant
                moves@ + spec_clone_moves(single_moves) == clone_base + spec_clone_moves(sm0),
            decreases single_moves,
        {
            let ghost sm_before = single_moves;
            let to = iter_bits(&mut single_moves).unwrap();
            moves.push(Move { from: to, to });
            proof {
                lemma_lowest_bit(sm_before);
                let head = Move {
                    from: Spot(spec_tz(sm_before) as u8),
                    to: Spot(spec_tz(sm_before) as u8),
                };
                assert(spec_clone_moves(sm_before) == seq![head] + spec_clone_moves(
                    single_moves,
                ));
                assert(moves@ + spec_clone_moves(single_moves) =~= clone_base + spec_clone_moves(
                    sm0,
                ));
            }
        }
        proof {
            assert(moves@ + spec_clone_moves(0) =~= moves@);
            assert(moves@ =~= base + self.spec_gen_moves());
        }
        if moves.len() == 0 {
            moves.push(Move::pass());
            proof {
                assert(base.len() == 0 && self.spec_gen_moves().len() == 0);
                assert(moves@ =~= self.spec_move_list());
            }
        }
    }
}

/// Bit `i` of the zero mask is never set.
proof fn lemma_bit_zero(i: u64)
    requires
        i < 64,
    ensures
        !bit(0u64, i),
{
    assert(((0u64 >> i) & 1u64) != 1u64) by (bit_vector);
}

/// Concatenating duplicate-free sequences with no common element stays
/// duplicate-free.
proof fn lemma_no_dup_concat<A>(a: Seq<A>, b: Seq<A>)
    requires
        a.no_duplicates(),
        b.no_duplicates(),
        forall|x: A| !(#[trigger] a.contains(x) && b.contains(x)),
    ensures
        (a + b).no_duplicates(),
{
    assert forall|i: int, j: int|
        0 <= i < (a + b).len() && 0 <= j < (a + b).len() && i != j implies (a + b)[i] != (a
        + b)[j] by {
        if i < a.len() && j >= a.len() {
            assert(a.contains(a[i]));
            assert(b.contains(b[j - a.len()]));
        } else if j < a.len() && i >= a.len() {
            assert(a.contains(a[j]));
            assert(b.contains(b[i - a.len()]));
        }
    }
}

proof fn lemma_jump_targets_props(from: u64, mask: u64)
    requires
        from < 64,
    ensures
        forall|m: Move|
            #[trigger] spec_jump_targets(from, mask).contains(m) <==> (m.from == Spot(from as u8)
                && (m.to.0 as u64) < 64 && bit(mask, m.to.0 as u64)),
        spec_jump_targets(from, mask).no_duplicates(),
        spec_jump_targets(from, mask).len() == count_bits(mask),
    decreases mask,
{
    broadcast use vstd::seq_lib::lemma_seq_concat_contains_all_elements;

    if mask == 0 {
        assert forall|m: Move|
            #[trigger] spec_jump_targets(from, mask).contains(m) <==> (m.from == Spot(from as u8)
                && (m.to.0 as u64) < 64 && bit(mask, m.to.0 as u64)) by {
            if (m.to.0 as u64) < 64 {
                lemma_bit_zero(m.to.0 as u64);
            }
        }
    } else {
        lemma_lowest_bit(mask);
        crate::bits::lemma_count_clear_lowest(mask);
        lemma_jump_targets_props(from, clear_lowest(mask));
        let t = spec_tz(mask);
        let head = Move { from: Spot(from as u8), to: Spot(t as u8) };
        let rest = spec_jump_targets(from, clear_lowest(mask));
        assert(spec_jump_targets(from, mask) == seq![head] + rest);
        assert(seq![head].contains(head)) by {
            assert(seq![head][0] == head);
        }
        assert forall|m: Move|
            #[trigger] spec_jump_targets(from, mask).contains(m) <==> (m.from == Spot(from as u8)
                && (m.to.0 as u64) < 64 && bit(mask, m.to.0 as u64)) by {
            assert(seq![head].contains(m) <==> m == head) by {
                if seq![head].contains(m) {
                    let i = choose|i: int| 0 <= i < seq![head].len() && seq![head][i] == m;
                    assert(seq![head][i] == head);
                }
            }
        }
        assert(seq![head].no_duplicates());
        assert forall|x: Move| !(#[trigger] seq![head].contains(x) && rest.contains(x)) by {
            if seq![head].contains(x) {
                let i = choose|i: int| 0 <= i < seq![head].len() && seq![head][i] == x;
                assert(seq![head][i] == head);
            }
        }
        lemma_no_dup_concat(seq![head], rest);
    }
}

proof fn lemma_clone_mask_bit(our: u64, empty: u64, d: u64)
    requires
        d < 64,
    ensures
        bit(spec_clone_mask(our, empty), d) <==> exists|f: u64|
            f < 64 && #[trigger] bit(our, f) && bit(spec_adjacency(f) & empty, d),
    decreases our,
{
    broadcast use crate::bits::lemma_bit_or;

    if our == 0 {
        lemma_bit_zero(d);
        assert forall|f: u64| f < 64 implies !(#[trigger] bit(our, f)) by {
            lemma_bit_zero(f);
        }
    } else {
        lemma_lowest_bit(our);
        lemma_clone_mask_bit(clear_lowest(our), empty, d);
        let t = spec_tz(our);
        let cl = clear_lowest(our);
        assert(spec_clone_mask(our, empty) == (spec_adjacency(t) & empty) | spec_clone_mask(
            cl,
            empty,
        ));
        if bit(spec_clone_mask(our, empty), d) {
            if bit(spec_adjacency(t) & empty, d) {
                assert(bit(our, t) && bit(spec_adjacency(t) & empty, d));
            } else {
                let f = choose|f: u64|
                    f < 64 && #[trigger] bit(cl, f) && bit(spec_adjacency(f) & empty, d);
                assert(bit(our, f) && bit(spec_adjacency(f) & empty, d));
            }
        }
        if exists|f: u64| f < 64 && #[trigger] bit(our, f) && bit(spec_adjacency(f) & empty, d) {
            let f = choose|f: u64|
                f < 64 && #[trigger] bit(our, f) && bit(spec_adjacency(f) & empty, d);
            if f == t {
            } else {
                assert(bit(cl, f) && bit(spec_adjacency(f) & empty, d));
            }
        }
    }
}

proof fn lemma_jump_moves_props(our: u64, empty: u64)
    ensures
        forall|m: Move|
            #[trigger] spec_jump_moves(our, empty).contains(m) <==> ((m.from.0 as u64) < 64 && bit(
                our,
                m.from.0 as u64,
            ) && (m.to.0 as u64) < 64 && bit(
                spec_jump_ring(m.from.0 as u64) & empty,
                m.to.0 as u64,
            )),
        spec_jump_moves(our, empty).no_duplicates(),
        spec_jump_moves(our, empty).len() <= count_bits(our) * 64,
    decreases our,
{
    broadcast use vstd::seq_lib::lemma_seq_concat_contains_all_elements;

    if our == 0 {
        assert forall|f: u64| f < 64 implies !(#[trigger] bit(our, f)) by {
            lemma_bit_zero(f);
        }
    } else {
        lemma_lowest_bit(our);
        crate::bits::lemma_count_clear_lowest(our);
        lemma_jump_moves_props(clear_lowest(our), empty);
        let t = spec_tz(our);
        let cl = clear_lowest(our);
        let block = spec_jump_targets(t, spec_jump_ring(t) & empty);
        let rest = spec_jump_moves(cl, empty);
        lemma_jump_targets_props(t, spec_jump_ring(t) & empty);
        crate::bits::lemma_count_bits_le_64(spec_jump_ring(t) & empty);
        assert(spec_jump_moves(our, empty) == block + rest);
        assert forall|m: Move|
            #[trigger] spec_jump_moves(our, empty).contains(m) <==> ((m.from.0 as u64) < 64 && bit(
                our,
                m.from.0 as u64,
            ) && (m.to.0 as u64) < 64 && bit(
                spec_jump_ring(m.from.0 as u64) & empty,
                m.to.0 as u64,
            )) by {
            if block.contains(m) {
                assert(m.from == Spot(t as u8));
                assert(m.from.0 as u64 == t);
            }
        }
        assert forall|x: Move| !(#[trigger] block.contains(x) && rest.contains(x)) by {
            if block.contains(x) && rest.contains(x) {
                assert(x.from.0 as u64 == t);
                assert(bit(cl, x.from.0 as u64));
            }
        }
        lemma_no_dup_concat(block, rest);
        assert(spec_jump_moves(our, empty).len() <= count_bits(our) * 64) by {
            assert(block.len() <= 64);
            assert(rest.len() <= count_bits(cl) * 64);
            assert(count_bits(our) == count_bits(cl) + 1);
        }
    }
}

proof fn lemma_clone_moves_props(mask: u64)
    ensures
        forall|m: Move|
            #[trigger] spec_clone_moves(mask).contains(m) <==> (m.from == m.to && (m.to.0 as u64)
                < 64 && bit(mask, m.to.0 as u64)),
        spec_clone_moves(mask).no_duplicates(),
        spec_clone_moves(mask).len() == count_bits(mask),
    decreases mask,
{
    broadcast use vstd::seq_lib::lemma_seq_concat_contains_all_elements;

    if mask == 0 {
        assert forall|m: Move|
            #[trigger] spec_clone_moves(mask).contains(m) <==> (m.from == m.to && (m.to.0 as u64)
                < 64 && bit(mask, m.to.0 as u64)) by {
            if (m.to.0 as u64) < 64 {
                lemma_bit_zero(m.to.0 as u64);
            }
        }
    } else {
        lemma_lowest_bit(mask);
        crate::bits::lemma_count_clear_lowest(mask);
        lemma_clone_moves_props(clear_lowest(mask));
        let t = spec_tz(mask);
        let head = Move { from: Spot(t as u8), to: Spot(t as u8) };
        let rest = spec_clone_moves(clear_lowest(mask));
        assert(spec_clone_moves(mask) == seq![head] + rest);
        assert(seq![head].contains(head)) by {
            assert(seq![head][0] == head);
        }
        assert forall|m: Move|
            #[trigger] spec_clone_moves(mask).contains(m) <==> (m.from == m.to && (m.to.0 as u64)
                < 64 && bit(mask, m.to.0 as u64)) by {
            assert(seq![head].contains(m) <==> m == head) by {
                if seq![head].contains(m) {
                    let i = choose|i: int| 0 <= i < seq![head].len() && seq![head][i] == m;
                    assert(seq![head][i] == head);
                }
            }
        }
        assert(seq![head].no_duplicates());
        assert forall|x: Move| !(#[trigger] seq![head].contains(x) && rest.contains(x)) by {
            if seq![head].contains(x) {
                let i = choose|i: int| 0 <= i < seq![head].len() && seq![head][i] == x;
                assert(seq![head][i] == head);
            }
        }
        lemma_no_dup_concat(seq![head], rest);
    }
}

/// A position is terminal exactly when every playable cell is occupied
/// by a stone or blocked.
pub proof fn lemma_terminal_characterization(s: State)
    requires
        s.wf(),
    ensures
        s.spec_terminal() <==> (forall|c: u64| on_board(c) ==> #[trigger] bit(s.occupied(), c)),
{
    let occ = s.occupied();
    if s.spec_terminal() {
        assert forall|c: u64| on_board(c) implies #[trigger] bit(occ, c) by {
            assert((occ == 0x7f7f7f7f7f7f7fu64 && c < 55 && c % 8 < 7) ==> ((occ >> c) & 1u64
                == 1u64)) by (bit_vector)
                requires
                    c < 64,
            ;
        }
    }
    if forall|c: u64| on_board(c) ==> #[trigger] bit(occ, c) {
        let empty = ALL_CELLS_MASK & !occ;
        if empty != 0 {
            lemma_lowest_bit(empty);
            let t = spec_tz(empty);
            assert(empty & ALL_CELLS_MASK == empty) by (bit_vector)
                requires
                    empty == 0x7f7f7f7f7f7f7fu64 & !occ,
            ;
            lemma_contained_bit(empty, t);
            assert(!bit(occ, t)) by {
                assert(((empty >> t) & 1u64 == 1u64 && empty == 0x7f7f7f7f7f7f7fu64 & !occ) ==> !((
                occ >> t) & 1u64 == 1u64)) by (bit_vector)
                    requires
                        t < 64,
                ;
            }
        }
        assert(occ == ALL_CELLS_MASK) by (bit_vector)
            requires
                0x7f7f7f7f7f7f7fu64 & !occ == 0,
                occ & 0x7f7f7f7f7f7f7fu64 == occ,
        ;
    }
}

/// The playable region holds 49 cells, so a well-formed position has at
/// most 49 occupied cells.
pub proof fn lemma_occupied_count(s: State)
    requires
        s.wf(),
    ensures
        count_bits(s.occupied()) <= 49,
{
    crate::bits::lemma_count_bits_subset(s.occupied(), ALL_CELLS_MASK);
    crate::bits::lemma_count_bits_all_cells();
}

/// The generated move list holds exactly the legal moves, each once.
pub proof fn lemma_gen_moves_characterization(s: State)
    requires
        s.wf(),
    ensures
        forall|m: Move| #[trigger] s.spec_gen_moves().contains(m) <==> s.is_legal_move(m),
        s.spec_gen_moves().no_duplicates(),
{
    broadcast use vstd::seq_lib::lemma_seq_concat_contains_all_elements;
    broadcast use crate::bits::lemma_bit_and;
    broadcast use crate::bits::lemma_bit_not;

    let our = s.side_stones(s.to_move);
    let e = !s.occupied();
    let cmask = spec_clone_mask(our, e);
    let jumps = spec_jump_moves(our, e);
    let clones = spec_clone_moves(cmask);
    lemma_jump_moves_props(our, e);
    lemma_clone_moves_props(cmask);
    let b = s.black_stones;
    let w = s.white_stones;
    let g = s.gaps;
    assert(((b | w | g) & ALL_CELLS_MASK == (b | w | g)) ==> (b & ALL_CELLS_MASK == b && w
        & ALL_CELLS_MASK == w)) by (bit_vector);
    assert(s.spec_gen_moves() == jumps + clones);
    assert forall|m: Move| #[trigger] s.spec_gen_moves().contains(m) <==> s.is_legal_move(m) by {
        let from = m.from.0 as u64;
        let to = m.to.0 as u64;
        // Relocations.
        if jumps.contains(m) {
            lemma_contained_bit(our, from);
            lemma_jump_ring_bit(from, to);
            assert(!m.is_pass());
        }
        if s.is_legal_move(m) && m.from.0 != m.to.0 {
            lemma_contained_bit(our, from);
            lemma_jump_ring_bit(from, to);
            assert(jumps.contains(m));
        }
        // Clones.
        if clones.contains(m) {
            lemma_clone_mask_bit(our, e, to);
            let f = choose|f: u64| f < 64 && #[trigger] bit(our, f) && bit(spec_adjacency(f) & e, to);
            lemma_contained_bit(our, f);
            lemma_adjacency_bit(f, to);
            assert(bit(our, f) && is_adjacent(f, to));
            assert(!m.is_pass());
            assert(s.is_legal_move(m));
        }
        if s.is_legal_move(m) && m.from.0 == m.to.0 {
            let f = choose|f: u64|
                f < 64 && #[trigger] bit(our, f) && is_adjacent(f, m.to.0 as u64);
            lemma_contained_bit(our, f);
            lemma_adjacency_bit(f, to);
            assert(bit(our, f) && bit(spec_adjacency(f) & e, to));
            lemma_clone_mask_bit(our, e, to);
            assert(clones.contains(m));
        }
    }
    assert forall|x: Move| !(#[trigger] jumps.contains(x) && clones.contains(x)) by {
        if jumps.contains(x) {
            let from = x.from.0 as u64;
            let to = x.to.0 as u64;
            lemma_contained_bit(our, from);
            lemma_jump_ring_bit(from, to);
        }
    }
    lemma_no_dup_concat(jumps, clones);
}

/// A position admits the forced pass exactly when it has no legal move:
/// the generated list is then the single pass, and otherwise holds no
/// pass at all.
pub proof fn lemma_move_list_pass(s: State)
    requires
        s.wf(),
    ensures
        s.spec_move_list().len() > 0,
        (forall|m: Move| !s.is_legal_move(m)) <==> s.spec_move_list() =~= seq![Move::spec_pass()],
        forall|m: Move|
            #[trigger] s.spec_move_list().contains(m) ==> (s.is_legal_move(m) || (m
                == Move::spec_pass() && (forall|n: Move| !s.is_legal_move(n)))),
{
    lemma_gen_moves_characterization(s);
    if s.spec_gen_moves().len() == 0 {
        assert forall|m: Move| !s.is_legal_move(m) by {
            if s.is_legal_move(m) {
                assert(s.spec_gen_moves().contains(m));
            }
        }
    } else {
        let w = s.spec_gen_moves()[0];
        assert(s.spec_gen_moves().contains(w));
        assert(s.is_legal_move(w));
        assert(!(s.spec_move_list() =~= seq![Move::spec_pass()])) by {
            assert(s.spec_move_list().contains(w));
            if s.spec_move_list() =~= seq![Move::spec_pass()] {
                assert(w == Move::spec_pass());
            }
        }
    }
}

/// Capture correctness: after a non-pass move, every enemy stone
/// adjacent to the destination has become the mover's, every friendly
/// stone adjacent to it (other than the vacated source) is untouched,
/// and no stone away from the destination, source and neighbourhood
/// changes at all.
pub proof fn lemma_capture_correctness(s: State, m: Move, c: u64)
    requires
        s.wf(),
        s.can_apply(m),
        !m.is_pass(),
        c < 64,
    ensures
        (is_adjacent(m.to.0 as u64, c) && bit(s.side_stones(s.to_move.spec_other()), c)) ==> (bit(
            s.spec_apply(m).side_stones(s.to_move),
            c,
        ) && !bit(s.spec_apply(m).side_stones(s.to_move.spec_other()), c)),
        (is_adjacent(m.to.0 as u64, c) && bit(s.side_stones(s.to_move), c) && c != m.from.0
            as u64) ==> bit(s.spec_apply(m).side_stones(s.to_move), c),
        (!is_adjacent(m.to.0 as u64, c) && c != m.to.0 as u64 && c != m.from.0 as u64) ==> (bit(
            s.spec_apply(m).black_stones,
            c,
        ) == bit(s.black_stones, c) && bit(s.spec_apply(m).white_stones, c) == bit(
            s.white_stones,
            c,
        )),
{
    let to = m.to.0 as u64;
    let from = m.from.0 as u64;
    if s.to_move == Color::Black {
        lemma_apply_masks_cell(s.black_stones, s.white_stones, to, from, c);
    } else {
        lemma_apply_masks_cell(s.white_stones, s.black_stones, to, from, c);
    }
}

/// Clone vs. relocation: a clone never clears a cell and adds exactly
/// the destination to the occupied set; a relocation adds the
/// destination and clears exactly the source.
pub proof fn lemma_clone_vs_relocation(s: State, m: Move, c: u64)
    requires
        s.wf(),
        s.is_legal_move(m),
        c < 64,
    ensures
        m.from == m.to ==> bit(s.spec_apply(m).stones(), c) == (bit(s.stones(), c) || c == m.to.0
            as u64),
        m.from != m.to ==> bit(s.spec_apply(m).stones(), c) == ((bit(s.stones(), c) || c == m.to.0
            as u64) && c != m.from.0 as u64),
{
    lemma_legal_can_apply(s, m);
    let to = m.to.0 as u64;
    let from = m.from.0 as u64;
    let mover = s.side_stones(s.to_move);
    let other = s.side_stones(s.to_move.spec_other());
    if s.to_move == Color::Black {
        lemma_apply_masks_cell(s.black_stones, s.white_stones, to, from, c);
    } else {
        lemma_apply_masks_cell(s.white_stones, s.black_stones, to, from, c);
    }
    let nm = s.spec_apply(m).side_stones(s.to_move);
    let no = s.spec_apply(m).side_stones(s.to_move.spec_other());
    assert(bit(nm | no, c) == (bit(nm, c) || bit(no, c))) by {
        assert((((nm | no) >> c) & 1u64 == 1u64) == (((nm >> c) & 1u64 == 1u64) || ((no >> c)
            & 1u64 == 1u64))) by (bit_vector)
            requires
                c < 64,
        ;
    }
    assert(bit(mover | other, c) == (bit(mover, c) || bit(other, c))) by {
        assert((((mover | other) >> c) & 1u64 == 1u64) == (((mover >> c) & 1u64 == 1u64) || ((
        other >> c) & 1u64 == 1u64))) by (bit_vector)
            requires
                c < 64,
        ;
    }
    if s.to_move == Color::Black {
        assert(s.stones() == mover | other);
        assert(s.spec_apply(m).stones() == nm | no);
    } else {
        assert(bit(s.stones(), c) == bit(mover | other, c)) by {
            let b = s.black_stones;
            let w = s.white_stones;
            assert((((b | w) >> c) & 1u64 == 1u64) == (((w | b) >> c) & 1u64 == 1u64))
                by (bit_vector);
        }
        assert(bit(s.spec_apply(m).stones(), c) == bit(nm | no, c)) by {
            let nb = s.spec_apply(m).black_stones;
            let nw = s.spec_apply(m).white_stones;
            assert((((nb | nw) >> c) & 1u64 == 1u64) == (((nw | nb) >> c) & 1u64 == 1u64))
                by (bit_vector);
        }
    }
    if m.from != m.to {
        // The vacated source holds no enemy stone, so it really empties.
        lemma_disjoint_bit(s.black_stones, s.white_stones, from);
    }
}

/// The number of leaf positions reachable by applying every generated
/// move (the forced pass included) to depth `depth`.
pub open spec fn spec_perft(s: State, depth: nat) -> nat
    decreases depth, 0nat, 0nat,
{
    if depth == 0 {
        1
    } else {
        spec_perft_sum(s.spec_move_list(), s, (depth - 1) as nat)
    }
}

pub open spec fn spec_perft_sum(moves: Seq<Move>, s: State, depth: nat) -> nat
    decreases depth, 1nat, moves.len(),
{
    if moves.len() == 0 {
        0
    } else {
        spec_perft(s.spec_apply(moves[0]), depth) + spec_perft_sum(moves.skip(1), s, depth)
    }
}

/// A crude per-ply branching cap: no position generates more moves.
pub open spec fn spec_perft_cap(depth: nat) -> nat
    decreases depth,
{
    if depth == 0 {
        1
    } else {
        4200 * spec_perft_cap((depth - 1) as nat)
    }
}

proof fn lemma_perft_cap_pos(depth: nat)
    ensures
        spec_perft_cap(depth) >= 1,
    decreases depth,
{
    if depth > 0 {
        lemma_perft_cap_pos((depth - 1) as nat);
        assert(4200 * spec_perft_cap((depth - 1) as nat) >= spec_perft_cap((depth - 1) as nat))
            by (nonlinear_arith)
            requires
                spec_perft_cap((depth - 1) as nat) >= 1,
        ;
    }
}

proof fn lemma_perft_cap_mono(d1: nat, d2: nat)
    requires
        d1 <= d2,
    ensures
        spec_perft_cap(d1) <= spec_perft_cap(d2),
    decreases d2,
{
    if d1 < d2 {
        lemma_perft_cap_mono(d1, (d2 - 1) as nat);
        lemma_perft_cap_pos((d2 - 1) as nat);
        assert(spec_perft_cap((d2 - 1) as nat) <= 4200 * spec_perft_cap((d2 - 1) as nat))
            by (nonlinear_arith)
            requires
                spec_perft_cap((d2 - 1) as nat) >= 1,
        ;
    }
}

/// Every move the generator can produce is one the rules interpret.
pub proof fn lemma_move_list_can_apply(s: State)
    requires
        s.wf(),
    ensures
        forall|m: Move| #[trigger] s.spec_move_list().contains(m) ==> s.can_apply(m),
{
    lemma_move_list_pass(s);
    assert forall|m: Move| #[trigger] s.spec_move_list().contains(m) implies s.can_apply(m) by {
        if s.is_legal_move(m) {
            lemma_legal_can_apply(s, m);
        }
    }
}

/// The generated move list never exceeds the branching cap.
proof fn lemma_move_list_len(s: State)
    requires
        s.wf(),
    ensures
        s.spec_move_list().len() <= 4200,
{
    let our = s.side_stones(s.to_move);
    let e = !s.occupied();
    lemma_jump_moves_props(our, e);
    lemma_clone_moves_props(spec_clone_mask(our, e));
    crate::bits::lemma_count_bits_le_64(our);
    crate::bits::lemma_count_bits_le_64(spec_clone_mask(our, e));
    assert(count_bits(our) * 64 <= 64 * 64) by (nonlinear_arith)
        requires
            count_bits(our) <= 64,
    ;
}

proof fn lemma_perft_le_cap(s: State, depth: nat)
    requires
        s.wf(),
    ensures
        spec_perft(s, depth) <= spec_perft_cap(depth),
    decreases depth, 0nat, 0nat,
{
    if depth > 0 {
        let moves = s.spec_move_list();
        lemma_move_list_can_apply(s);
        lemma_move_list_len(s);
        lemma_perft_sum_le_cap(moves, s, (depth - 1) as nat);
        lemma_perft_cap_pos((depth - 1) as nat);
        assert(moves.len() * spec_perft_cap((depth - 1) as nat) <= 4200 * spec_perft_cap(
            (depth - 1) as nat,
        )) by (nonlinear_arith)
            requires
                moves.len() <= 4200,
                spec_perft_cap((depth - 1) as nat) >= 0,
        ;
    }
}

proof fn lemma_perft_sum_le_cap(moves: Seq<Move>, s: State, depth: nat)
    requires
        s.wf(),
        forall|m: Move| #[trigger] moves.contains(m) ==> s.can_apply(m),
    ensures
        spec_perft_sum(moves, s, depth) <= moves.len() * spec_perft_cap(depth),
    decreases depth, 1nat, moves.len(),
{
    if moves.len() == 0 {
    } else {
        let m = moves[0];
        assert(moves.contains(m));
        lemma_apply_preserves_wf(s, m);
        lemma_perft_le_cap(s.spec_apply(m), depth);
        assert(forall|x: Move| #[trigger] moves.skip(1).contains(x) ==> moves.contains(x));
        lemma_perft_sum_le_cap(moves.skip(1), s, depth);
        assert(spec_perft_cap(depth) + (moves.len() - 1) * spec_perft_cap(depth) == moves.len()
            * spec_perft_cap(depth)) by (nonlinear_arith)
            requires
                moves.len() >= 1,
        ;
    }
}

/// Count the leaves of the game tree to the given depth; the standard
/// regression check for the rules engine. The depth cap keeps the count
/// provably inside a machine word.
pub fn perft(state: &State, depth: u64) -> (r: u64)
    requires
        state.wf(),
        depth <= 5,
    ensures
        r == spec_perft(*state, depth as nat),
    decreases depth,
{
    if depth == 0 {
        return 1;
    }
    proof {
        lemma_perft_le_cap(*state, depth as nat);
        assert(spec_perft_cap(0) == 1);
        assert(spec_perft_cap(1) == 4200);
        assert(spec_perft_cap(2) == 17640000);
        assert(spec_perft_cap(3) == 74088000000);
        assert(spec_perft_cap(4) == 311169600000000);
        assert(spec_perft_cap(5) == 1306912320000000000);
        lemma_perft_cap_mono(depth as nat, 5);
        lemma_move_list_can_apply(*state);
    }
    let mut moves: Vec<Move> = Vec::new();
    state.move_gen(&mut moves);
    let ghost d1 = (depth - 1) as nat;
    let mut total: u64 = 0;
    let mut i: usize = 0;
    proof {
        assert(moves@.skip(0) =~= moves@);
    }
    while i < moves.len()
        invariant
            state.wf(),
            depth >= 1,
            d1 == (depth - 1) as nat,
            moves@ == state.spec_move_list(),
            i <= moves@.len(),
            total + spec_perft_sum(moves@.skip(i as int), *state, d1) == spec_perft(
                *state,
                depth as nat,
            ),
            spec_perft(*state, depth as nat) <= spec_perft_cap(5),
            spec_perft_cap(5) < 0x10000000000000000,
            depth <= 5,
        decreases moves@.len() - i,
    {
        let m = moves[i];
        proof {
            assert(moves@.contains(m));
            lemma_move_list_can_apply(*state);
        }
        let mut child = *state;
        let r = child.make_move(m);
        proof {
            assert(r.is_ok());
        }
        child.sanity_check();
        let sub = perft(&child, depth - 1);
        proof {
            assert(moves@.skip(i as int).len() != 0);
            assert(moves@.skip(i as int)[0] == moves@[i as int]);
            assert(moves@.skip(i as int).skip(1) =~= moves@.skip(i as int + 1));
            assert(spec_perft_sum(moves@.skip(i as int), *state, d1) == spec_perft(
                state.spec_apply(m),
                d1,
            ) + spec_perft_sum(moves@.skip(i as int + 1), *state, d1));
            assert(child == state.spec_apply(m));
            assert(sub == spec_perft(child, d1));
        }
        total = total + sub;
        i = i + 1;
    }
    proof {
        assert(moves@.skip(moves@.len() as int) =~= Seq::<Move>::empty());
    }
    total
}

} // verus!
