//! Textual notation at the engine boundary: cell codes (a letter for
//! the file and a digit for the rank, rank 1 being the last internal
//! row), move codes (a single cell for a clone, a four-character pair
//! for a relocation, the literal zero-token for a pass), and the
//! row-major, slash-separated position text with run-length digits for
//! empty cells.

use vstd::prelude::*;
use vstd::string::StrSliceExecFns;
use vstd::string::StringExecFns;
use crate::bits::bit;
use crate::rules::{on_board, Color, Move, Spot, State};

verus! {

pub open spec fn valid_spot_chars(c0: char, c1: char) -> bool {
    97 <= c0 as int <= 103 && 49 <= c1 as int <= 55
}

/// The cell index named by a file letter and a rank digit; rank 1 is
/// the last internal row.
pub open spec fn spec_spot_value(c0: char, c1: char) -> u64 {
    ((c0 as int - 97) + 8 * (6 - (c1 as int - 49))) as u64
}

/// The two-character code of a cell.
pub open spec fn spec_spot_chars(c: u64) -> Seq<char> {
    seq![(97 + (c % 8)) as char, (49 + 6 - (c / 8)) as char]
}

pub open spec fn valid_spot_str(s: Seq<char>) -> bool {
    s.len() == 2 && valid_spot_chars(s[0], s[1])
}

pub open spec fn spec_parse_spot(s: Seq<char>) -> u64 {
    spec_spot_value(s[0], s[1])
}

pub open spec fn spec_move_chars(m: Move) -> Seq<char> {
    if m.is_pass() {
        seq!['0', '0', '0', '0']
    } else if m.from == m.to {
        spec_spot_chars(m.to.0 as u64)
    } else {
        spec_spot_chars(m.from.0 as u64) + spec_spot_chars(m.to.0 as u64)
    }
}

pub open spec fn valid_move_str(s: Seq<char>) -> bool {
    ||| (s.len() == 4 && s[0] == '0' && s[1] == '0' && s[2] == '0' && s[3] == '0')
    ||| (s.len() == 2 && valid_spot_chars(s[0], s[1]))
    ||| (s.len() == 4 && valid_spot_chars(s[0], s[1]) && valid_spot_chars(s[2], s[3]))
}

pub open spec fn spec_parse_move(s: Seq<char>) -> Move {
    if s.len() == 4 && s[0] == '0' {
        Move::spec_pass()
    } else if s.len() == 2 {
        Move {
            from: Spot(spec_spot_value(s[0], s[1]) as u8),
            to: Spot(spec_spot_value(s[0], s[1]) as u8),
        }
    } else {
        Move {
            from: Spot(spec_spot_value(s[0], s[1]) as u8),
            to: Spot(spec_spot_value(s[2], s[3]) as u8),
        }
    }
}

/// The cell named by two already-validated characters.
fn spot_of_chars(c0: char, c1: char) -> (r: Spot)
    requires
        valid_spot_chars(c0, c1),
    ensures
        r.0 as u64 == spec_spot_value(c0, c1),
        on_board(r.0 as u64),
{
    let x: u32 = c0 as u32 - 97;
    let y: u32 = 6 - (c1 as u32 - 49);
    let idx: u32 = x + 8 * y;
    proof {
        let xb = x as u64;
        let yb = y as u64;
        assert((xb + 8 * yb) % 8 == xb && (xb + 8 * yb) < 55) by (bit_vector)
            requires
                xb < 7,
                yb < 7,
        ;
    }
    Spot(idx as u8)
}

fn file_str(x: u8) -> (r: &'static str)
    requires
        x < 7,
    ensures
        r@ == seq![(97 + x as int) as char],
{
    proof {
        reveal_strlit("a");
        reveal_strlit("b");
        reveal_strlit("c");
        reveal_strlit("d");
        reveal_strlit("e");
        reveal_strlit("f");
        reveal_strlit("g");
    }
    let r: &'static str = match x {
        0 => "a",
        1 => "b",
        2 => "c",
        3 => "d",
        4 => "e",
        5 => "f",
        _ => "g",
    };
    proof {
        assert(r@ =~= seq![(97 + x as int) as char]);
    }
    r
}

fn digit_str(d: u8) -> (r: &'static str)
    requires
        d < 7,
    ensures
        r@ == seq![(49 + d as int) as char],
{
    proof {
        reveal_strlit("1");
        reveal_strlit("2");
        reveal_strlit("3");
        reveal_strlit("4");
        reveal_strlit("5");
        reveal_strlit("6");
        reveal_strlit("7");
    }
    let r: &'static str = match d {
        0 => "1",
        1 => "2",
        2 => "3",
        3 => "4",
        4 => "5",
        5 => "6",
        _ => "7",
    };
    proof {
        assert(r@ =~= seq![(49 + d as int) as char]);
    }
    r
}

impl Spot {
    /// Parse a two-character cell code; the caller vouches for its
    /// shape.
    pub fn from_uai(s: &str) -> (r: Spot)
        requires
            valid_spot_str(s@),
        ensures
            r.0 as u64 == spec_parse_spot(s@),
            on_board(r.0 as u64),
    {
        let c0 = s.get_char(0);
        let c1 = s.get_char(1);
        spot_of_chars(c0, c1)
    }

    /// Parse a cell code of unknown shape.
    pub fn try_from_uai(s: &str) -> (r: Option<Spot>)
        ensures
            match r {
                Some(sp) => valid_spot_str(s@) && sp.0 as u64 == spec_parse_spot(s@) && on_board(
                    sp.0 as u64,
                ),
                None => !valid_spot_str(s@),
            },
    {
        if s.unicode_len() != 2 {
            return None;
        }
        let c0 = s.get_char(0);
        let c1 = s.get_char(1);
        if 'a' <= c0 && c0 <= 'g' && '1' <= c1 && c1 <= '7' {
            Some(spot_of_chars(c0, c1))
        } else {
            None
        }
    }

    /// Render the cell code.
    pub fn to_uai(self) -> (r: String)
        requires
            on_board(self.0 as u64),
        ensures
            r@ == spec_spot_chars(self.0 as u64),
    {
        let x = self.0 % 8;
        let y = self.0 / 8;
        let f = file_str(x);
        let d = digit_str(6 - y);
        let r = String::from_str(f).concat(d);
        proof {
            assert(r@ =~= spec_spot_chars(self.0 as u64));
        }
        r
    }
}

impl Move {
    /// Parse a move code; the caller vouches for its shape.
    pub fn from_uai(uai: &str) -> (r: Move)
        requires
            valid_move_str(uai@),
        ensures
            r == spec_parse_move(uai@),
    {
        let n = uai.unicode_len();
        if n == 4 && uai.get_char(0) == '0' {
            return Move::pass();
        }
        if n == 2 {
            let sp = Spot::from_uai(uai);
            Move { from: sp, to: sp }
        } else {
            let from = spot_of_chars(uai.get_char(0), uai.get_char(1));
            let to = spot_of_chars(uai.get_char(2), uai.get_char(3));
            Move { from, to }
        }
    }

    /// Parse a move code of unknown shape.
    pub fn try_from_uai(uai: &str) -> (r: Option<Move>)
        ensures
            match r {
                Some(m) => valid_move_str(uai@) && m == spec_parse_move(uai@),
                None => !valid_move_str(uai@),
            },
    {
        let n = uai.unicode_len();
        if n == 4 && uai.get_char(0) == '0' {
            if uai.get_char(1) == '0' && uai.get_char(2) == '0' && uai.get_char(3) == '0' {
                return Some(Move::pass());
            } else {
                return None;
            }
        }
        if n == 2 {
            match Spot::try_from_uai(uai) {
                Some(sp) => Some(Move { from: sp, to: sp }),
                None => None,
            }
        } else if n == 4 {
            let c0 = uai.get_char(0);
            let c1 = uai.get_char(1);
            let c2 = uai.get_char(2);
            let c3 = uai.get_char(3);
            if 'a' <= c0 && c0 <= 'g' && '1' <= c1 && c1 <= '7' && 'a' <= c2 && c2 <= 'g' && '1'
                <= c3 && c3 <= '7' {
                Some(Move { from: spot_of_chars(c0, c1), to: spot_of_chars(c2, c3) })
            } else {
                None
            }
        } else {
            None
        }
    }

    /// Render the move code.
    pub fn to_uai(self) -> (r: String)
        requires
            self.is_pass() || (on_board(self.to.0 as u64) && (self.from == self.to || on_board(
                self.from.0 as u64,
            ))),
        ensures
            r@ == spec_move_chars(self),
    {
        if self == Move::pass() {
            proof {
                reveal_strlit("0000");
            }
            let r = String::from_str("0000");
            proof {
                assert(r@ =~= seq!['0', '0', '0', '0']);
            }
            return r;
        }
        if self.from.0 == self.to.0 {
            self.to.to_uai()
        } else {
            let f = self.from.to_uai();
            let t = self.to.to_uai();
            f.concat(t.as_str())
        }
    }
}

/// The move notation round trip: rendering any renderable move (every
/// generated move and the pass included) and parsing it back yields the
/// same move.
pub proof fn lemma_move_notation_round_trip(m: Move)
    requires
        m.is_pass() || (on_board(m.to.0 as u64) && (m.from == m.to || on_board(m.from.0 as u64))),
    ensures
        valid_move_str(spec_move_chars(m)),
        spec_parse_move(spec_move_chars(m)) == m,
{
    if m.is_pass() {
    } else if m.from == m.to {
        lemma_spot_chars_round_trip(m.to.0 as u64);
    } else {
        lemma_spot_chars_round_trip(m.from.0 as u64);
        lemma_spot_chars_round_trip(m.to.0 as u64);
        let s = spec_move_chars(m);
        let f = spec_spot_chars(m.from.0 as u64);
        let t = spec_spot_chars(m.to.0 as u64);
        assert(s.len() == 4 && s[0] == f[0] && s[1] == f[1] && s[2] == t[0] && s[3] == t[1]);
    }
}

/// A playable cell code survives the render-parse round trip.
proof fn lemma_spot_chars_round_trip(c: u64)
    requires
        on_board(c),
    ensures
        valid_spot_chars(spec_spot_chars(c)[0], spec_spot_chars(c)[1]),
        spec_spot_value(spec_spot_chars(c)[0], spec_spot_chars(c)[1]) == c,
        spec_spot_chars(c)[0] != '0',
{
    let x = c % 8;
    let y = c / 8;
    assert(c % 8 + 8 * (c / 8) == c && c % 8 < 8 && c / 8 < 7) by (bit_vector)
        requires
            c < 55,
    ;
    assert(((97 + x as int) as char) as int == 97 + x as int);
    assert(((49 + 6 - y as int) as char) as int == 49 + 6 - y as int);
}

/// One pass of the position-text scanner, from character `i` with
/// `cell` cells already accounted for and the three masks accumulated
/// so far. Slashes must land on the excluded eighth column, a space
/// must land exactly after the 49th cell, and a side token must follow
/// it; everything after the side token is ignored.
pub open spec fn spec_fen_scan(s: Seq<char>, i: nat, cell: nat, b: u64, w: u64, g: u64) -> Option<
    State,
>
    decreases s.len() - i,
{
    if i >= s.len() {
        None
    } else {
        let c = s[i as int];
        if c == ' ' {
            if cell == 55 && i + 1 < s.len() {
                if s[i as int + 1] == 'x' {
                    Some(State { black_stones: b, white_stones: w, gaps: g, to_move: Color::Black })
                } else if s[i as int + 1] == 'o' {
                    Some(State { black_stones: b, white_stones: w, gaps: g, to_move: Color::White })
                } else {
                    None
                }
            } else {
                None
            }
        } else if c == '/' {
            if cell % 8 == 7 {
                spec_fen_scan(s, i + 1, cell + 1, b, w, g)
            } else {
                None
            }
        } else if 49 <= c as int <= 55 {
            spec_fen_scan(s, i + 1, (cell + (c as int - 48)) as nat, b, w, g)
        } else if c == 'x' {
            if cell < 64 {
                spec_fen_scan(s, i + 1, cell + 1, b | (1u64 << (cell as u64)), w, g)
            } else {
                None
            }
        } else if c == 'o' {
            if cell < 64 {
                spec_fen_scan(s, i + 1, cell + 1, b, w | (1u64 << (cell as u64)), g)
            } else {
                None
            }
        } else if c == '-' {
            if cell < 64 {
                spec_fen_scan(s, i + 1, cell + 1, b, w, g | (1u64 << (cell as u64)))
            } else {
                None
            }
        } else {
            None
        }
    }
}

/// The position named by a piece of notation, when it names one.
pub open spec fn spec_parse_fen(s: Seq<char>) -> Option<State> {
    spec_fen_scan(s, 0, 0, 0, 0, 0)
}

/// Once the cell counter has passed the 49th playable cell it can never
/// again equal it, so the scan can only fail.
proof fn lemma_fen_scan_dead(s: Seq<char>, i: nat, cell: nat, b: u64, w: u64, g: u64)
    requires
        cell > 55,
    ensures
        spec_fen_scan(s, i, cell, b, w, g).is_none(),
    decreases s.len() - i,
{
    if i < s.len() {
        let c = s[i as int];
        if c == '/' {
            if cell % 8 == 7 {
                lemma_fen_scan_dead(s, i + 1, cell + 1, b, w, g);
            }
        } else if 49 <= c as int <= 55 {
            lemma_fen_scan_dead(s, i + 1, (cell + (c as int - 48)) as nat, b, w, g);
        } else if c == 'x' {
            if cell < 64 {
                lemma_fen_scan_dead(s, i + 1, cell + 1, b | (1u64 << (cell as u64)), w, g);
            }
        } else if c == 'o' {
            if cell < 64 {
                lemma_fen_scan_dead(s, i + 1, cell + 1, b, w | (1u64 << (cell as u64)), g);
            }
        } else if c == '-' {
            if cell < 64 {
                lemma_fen_scan_dead(s, i + 1, cell + 1, b, w, g | (1u64 << (cell as u64)));
            }
        }
    }
}

impl State {
    /// Parse position notation. Success needs the text to describe
    /// exactly the 49 playable cells with its slashes on the row
    /// boundaries, a valid side-to-move token after the space, and a
    /// resulting position whose cell sets are disjoint and playable;
    /// each failure is reported descriptively.
    #[verifier::loop_isolation(false)]
    pub fn from_fen(fen: &str) -> (r: Result<State, String>)
        ensures
            r.is_ok() <==> (spec_parse_fen(fen@).is_some() && spec_parse_fen(
                fen@,
            ).unwrap().wf()),
            r.is_ok() ==> r.unwrap() == spec_parse_fen(fen@).unwrap(),
            r.is_ok() ==> r.unwrap().wf(),
    {
        let n = fen.unicode_len();
        let mut i: usize = 0;
        let mut cell: u32 = 0;
        let mut b: u64 = 0;
        let mut w: u64 = 0;
        let mut g: u64 = 0;
        while i < n
            invariant
                i <= n,
                cell <= 55,
                spec_parse_fen(fen@) == spec_fen_scan(fen@, i as nat, cell as nat, b, w, g),
            decreases n - i,
        {
            let c = fen.get_char(i);
            if c == ' ' {
                if cell == 55 && i + 1 < n {
                    let side = fen.get_char(i + 1);
                    let to_move = if side == 'x' {
                        Color::Black
                    } else if side == 'o' {
                        Color::White
                    } else {
                        return Err(String::from_str("invalid side-to-move token"));
                    };
                    let st = State { black_stones: b, white_stones: w, gaps: g, to_move };
                    if st.is_well_formed() {
                        return Ok(st);
                    } else {
                        return Err(String::from_str("cells described outside the playable board"));
                    }
                } else if cell != 55 {
                    return Err(String::from_str("position text describes too few cells"));
                } else {
                    return Err(String::from_str("missing side-to-move token"));
                }
            } else if c == '/' {
                if cell % 8 != 7 {
                    return Err(String::from_str("misplaced row separator"));
                }
                cell = cell + 1;
            } else if '1' <= c && c <= '7' {
                cell = cell + (c as u32 - 48);
            } else if c == 'x' {
                b = b | (1u64 << (cell as u64));
                cell = cell + 1;
            } else if c == 'o' {
                w = w | (1u64 << (cell as u64));
                cell = cell + 1;
            } else if c == '-' {
                g = g | (1u64 << (cell as u64));
                cell = cell + 1;
            } else {
                return Err(String::from_str("invalid character in position text"));
            }
            i = i + 1;
            if cell > 55 {
                proof {
                    lemma_fen_scan_dead(fen@, i as nat, cell as nat, b, w, g);
                }
                return Err(String::from_str("position text describes too many cells"));
            }
        }
        Err(String::from_str("missing side-to-move token"))
    }
}

/// What a playable cell holds, as its notation character; `None` for an
/// empty cell.
pub open spec fn spec_fen_cell(s: State, pos: u64) -> Option<char> {
    if bit(s.black_stones, pos) {
        Some('x')
    } else if bit(s.white_stones, pos) {
        Some('o')
    } else if bit(s.gaps, pos) {
        Some('-')
    } else {
        None
    }
}

/// The encoding of row `y` from column `x` on, with `run` pending empty
/// cells to flush as a digit.
pub open spec fn spec_fen_row(s: State, y: int, x: int, run: int) -> Seq<char>
    decreases 7 - x,
{
    if x >= 7 || x < 0 {
        if run > 0 {
            seq![(48 + run) as char]
        } else {
            Seq::<char>::empty()
        }
    } else {
        match spec_fen_cell(s, (8 * y + x) as u64) {
            None => spec_fen_row(s, y, x + 1, run + 1),
            Some(ch) => (if run > 0 {
                seq![(48 + run) as char]
            } else {
                Seq::<char>::empty()
            }) + seq![ch] + spec_fen_row(s, y, x + 1, 0),
        }
    }
}

pub open spec fn spec_fen_rows(s: State, y: int) -> Seq<char>
    decreases 7 - y,
{
    if y >= 7 || y < 0 {
        Seq::<char>::empty()
    } else if y == 6 {
        spec_fen_row(s, 6, 0, 0)
    } else {
        spec_fen_row(s, y, 0, 0) + seq!['/'] + spec_fen_rows(s, y + 1)
    }
}

pub open spec fn spec_side_char(c: Color) -> char {
    if c == Color::Black {
        'x'
    } else {
        'o'
    }
}

/// The canonical notation of a position: seven slash-separated rows,
/// a space, and the side to move.
pub open spec fn spec_fen(s: State) -> Seq<char> {
    spec_fen_rows(s, 0) + seq![' ', spec_side_char(s.to_move)]
}

fn run_digit_str(run: u8) -> (r: &'static str)
    requires
        1 <= run <= 7,
    ensures
        r@ == seq![(48 + run as int) as char],
{
    digit_str(run - 1)
}

impl State {
    /// Render the canonical position notation.
    #[verifier::loop_isolation(false)]
    pub fn to_fen(&self) -> (r: String)
        ensures
            r@ == spec_fen(*self),
    {
        let mut out = String::new();
        let mut y: u8 = 0;
        while y < 7
            invariant
                y <= 7,
                out@ + spec_fen_rows(*self, y as int) == spec_fen_rows(*self, 0),
            decreases 7 - y,
        {
            let mut x: u8 = 0;
            let mut run: u8 = 0;
            let ghost row_start = out@;
            while x < 7
                invariant
                    x <= 7,
                    run <= x,
                    y < 7,
                    out@ + spec_fen_row(*self, y as int, x as int, run as int) == row_start
                        + spec_fen_row(*self, y as int, 0, 0),
                decreases 7 - x,
            {
                let pos: u8 = 8 * y + x;
                let black = (self.black_stones >> (pos as u64)) & 1 == 1;
                let white = (self.white_stones >> (pos as u64)) & 1 == 1;
                let gap = (self.gaps >> (pos as u64)) & 1 == 1;
                if !black && !white && !gap {
                    run = run + 1;
                } else {
                    if run > 0 {
                        out.append(run_digit_str(run));
                    }
                    if black {
                        proof {
                            reveal_strlit("x");
                        }
                        out.append("x");
                        proof {
                            assert("x"@ =~= seq!['x']);
                        }
                    } else if white {
                        proof {
                            reveal_strlit("o");
                        }
                        out.append("o");
                        proof {
                            assert("o"@ =~= seq!['o']);
                        }
                    } else {
                        proof {
                            reveal_strlit("-");
                        }
                        out.append("-");
                        proof {
                            assert("-"@ =~= seq!['-']);
                        }
                    }
                    run = 0;
                }
                proof {
                    assert(out@ + spec_fen_row(*self, y as int, x as int + 1, run as int)
                        =~= row_start + spec_fen_row(*self, y as int, 0, 0));
                }
                x = x + 1;
            }
            if run > 0 {
                out.append(run_digit_str(run));
            }
            if y < 6 {
                proof {
                    reveal_strlit("/");
                }
                out.append("/");
                proof {
                    assert("/"@ =~= seq!['/']);
                }
            }
            proof {
                assert(out@ + spec_fen_rows(*self, y as int + 1) =~= spec_fen_rows(*self, 0));
            }
            y = y + 1;
        }
        proof {
            reveal_strlit(" x");
            reveal_strlit(" o");
        }
        match self.to_move {
            Color::Black => {
                out.append(" x");
                proof {
                    assert(out@ =~= spec_fen(*self));
                }
            },
            Color::White => {
                out.append(" o");
                proof {
                    assert(out@ =~= spec_fen(*self));
                }
            },
        }
        out
    }
}

/// The display form of one cell: a colour-highlighted stone letter, a
/// hash for a blocked cell, a dot for an empty one.
pub open spec fn spec_render_cell(s: State, pos: u64) -> Seq<char> {
    if bit(s.black_stones, pos) {
        seq!['\x1b', '[', '9', '1', 'm', 'X', '\x1b', '[', '0', 'm']
    } else if bit(s.white_stones, pos) {
        seq!['\x1b', '[', '9', '4', 'm', 'O', '\x1b', '[', '0', 'm']
    } else if bit(s.gaps, pos) {
        seq!['#']
    } else {
        seq!['.']
    }
}

pub open spec fn spec_render_row(s: State, y: int, x: int) -> Seq<char>
    decreases 7 - x,
{
    if x >= 7 || x < 0 {
        seq!['\n']
    } else {
        spec_render_cell(s, (8 * y + x) as u64) + (if x != 6 {
            seq![' ']
        } else {
            Seq::<char>::empty()
        }) + spec_render_row(s, y, x + 1)
    }
}

pub open spec fn spec_render_rows(s: State, y: int) -> Seq<char>
    decreases 7 - y,
{
    if y >= 7 || y < 0 {
        Seq::<char>::empty()
    } else {
        spec_render_row(s, y, 0) + spec_render_rows(s, y + 1)
    }
}

pub open spec fn spec_render_tail(c: Color) -> Seq<char> {
    if c == Color::Black {
        seq!['\x1b', '[', '9', '1', 'm', 'X', '\x1b', '[', '0', 'm', ' ', '-', '-', ' ', 'B', 'l',
            'a', 'c', 'k', ' ', 't', 'o', ' ', 'm', 'o', 'v', 'e', '\n']
    } else {
        seq!['\x1b', '[', '9', '4', 'm', 'O', '\x1b', '[', '0', 'm', ' ', '-', '-', ' ', 'W', 'h',
            'i', 't', 'e', ' ', 't', 'o', ' ', 'm', 'o', 'v', 'e', '\n']
    }
}

/// The whole display grid with its trailing side-to-move line.
pub open spec fn spec_render(s: State) -> Seq<char> {
    spec_render_rows(s, 0) + spec_render_tail(s.to_move)
}

impl State {
    /// Render the position as a human-readable grid for diagnostics.
    #[verifier::loop_isolation(false)]
    pub fn render(&self) -> (r: String)
        ensures
            r@ == spec_render(*self),
    {
        let mut out = String::new();
        let mut y: u8 = 0;
        while y < 7
            invariant
                y <= 7,
                out@ + spec_render_rows(*self, y as int) == spec_render_rows(*self, 0),
            decreases 7 - y,
        {
            let mut x: u8 = 0;
            let ghost row_start = out@;
            while x < 7
                invariant
                    x <= 7,
                    y < 7,
                    out@ + spec_render_row(*self, y as int, x as int) == row_start
                        + spec_render_row(*self, y as int, 0),
                decreases 7 - x,
            {
                let pos: u8 = 8 * y + x;
                let black = (self.black_stones >> (pos as u64)) & 1 == 1;
                let white = (self.white_stones >> (pos as u64)) & 1 == 1;
                let gap = (self.gaps >> (pos as u64)) & 1 == 1;
                if black {
                    proof {
                        reveal_strlit("\x1b[91mX\x1b[0m");
                    }
                    out.append("\x1b[91mX\x1b[0m");
                    proof {
                        assert("\x1b[91mX\x1b[0m"@ =~= seq!['\x1b', '[', '9', '1', 'm', 'X',
                            '\x1b', '[', '0', 'm']);
                    }
                } else if white {
                    proof {
                        reveal_strlit("\x1b[94mO\x1b[0m");
                    }
                    out.append("\x1b[94mO\x1b[0m");
                    proof {
                        assert("\x1b[94mO\x1b[0m"@ =~= seq!['\x1b', '[', '9', '4', 'm', 'O',
                            '\x1b', '[', '0', 'm']);
                    }
                } else if gap {
                    proof {
                        reveal_strlit("#");
                    }
                    out.append("#");
                    proof {
                        assert("#"@ =~= seq!['#']);
                    }
                } else {
                    proof {
                        reveal_strlit(".");
                    }
                    out.append(".");
                    proof {
                        assert("."@ =~= seq!['.']);
                    }
                }
                if x != 6 {
                    proof {
                        reveal_strlit(" ");
                    }
                    out.append(" ");
                    proof {
                        assert(" "@ =~= seq![' ']);
                    }
                }
                proof {
                    assert(out@ + spec_render_row(*self, y as int, x as int + 1) =~= row_start
                        + spec_render_row(*self, y as int, 0));
                }
                x = x + 1;
            }
            proof {
                reveal_strlit("\n");
            }
            out.append("\n");
            proof {
                assert("\n"@ =~= seq!['\n']);
                assert(out@ + spec_render_rows(*self, y as int + 1) =~= spec_render_rows(
                    *self,
                    0,
                ));
            }
            y = y + 1;
        }
        match self.to_move {
            Color::Black => {
                proof {
                    reveal_strlit("\x1b[91mX\x1b[0m -- Black to move\n");
                }
                out.append("\x1b[91mX\x1b[0m -- Black to move\n");
                proof {
                    assert(out@ =~= spec_render(*self));
                }
            },
            Color::White => {
                proof {
                    reveal_strlit("\x1b[94mO\x1b[0m -- White to move\n");
                }
                out.append("\x1b[94mO\x1b[0m -- White to move\n");
                proof {
                    assert(out@ =~= spec_render(*self));
                }
            },
        }
        out
    }
}

/// The mask of all bits strictly below `c`.
spec fn low_mask(c: int) -> u64 {
    ((1u64 << (c as u64)) - 1) as u64
}

proof fn lemma_low_mask_step(m: u64, c: u64)
    requires
        c < 63,
    ensures
        bit(m, c) ==> ((m & low_mask(c as int)) | (1u64 << c)) == m & low_mask(c as int + 1),
        !bit(m, c) ==> m & low_mask(c as int) == m & low_mask(c as int + 1),
{
    assert((((m >> c) & 1u64 == 1u64) ==> ((m & (((1u64 << c) - 1) as u64)) | (1u64 << c)) == (m
        & (((1u64 << ((c + 1) as u64)) - 1) as u64))) && (!((m >> c) & 1u64 == 1u64) ==> (m & (((
    1u64 << c) - 1) as u64)) == (m & (((1u64 << ((c + 1) as u64)) - 1) as u64)))) by (bit_vector)
        requires
            c < 63,
    ;
    assert(low_mask(c as int) == ((1u64 << c) - 1) as u64);
    assert(low_mask(c as int + 1) == ((1u64 << ((c + 1) as u64)) - 1) as u64);
}

proof fn lemma_low_mask_skip(m: u64, a: u64, r: u64)
    requires
        a + r <= 63,
        forall|j: u64| a <= j < a + r ==> !bit(m, j),
    ensures
        m & low_mask(a as int) == m & low_mask(a as int + r),
    decreases r,
{
    if r > 0 {
        lemma_low_mask_skip(m, a, (r - 1) as u64);
        assert(!bit(m, (a + r - 1) as u64));
        lemma_low_mask_step(m, (a + r - 1) as u64);
    }
}

proof fn lemma_col7_clear(m: u64, c: u64)
    requires
        m & crate::rules::ALL_CELLS_MASK == m,
        c < 64,
        c % 8 == 7,
    ensures
        !bit(m, c),
{
    assert((m & 0x7f7f7f7f7f7f7fu64 == m && c % 8 == 7) ==> !((m >> c) & 1u64 == 1u64))
        by (bit_vector)
        requires
            c < 64,
    ;
}

proof fn lemma_full_low(m: u64)
    requires
        m & crate::rules::ALL_CELLS_MASK == m,
    ensures
        m & low_mask(55) == m,
{
    assert((m & 0x7f7f7f7f7f7f7fu64 == m) ==> (m & (((1u64 << 55) - 1) as u64)) == m)
        by (bit_vector);
    assert(low_mask(55) == ((1u64 << 55) - 1) as u64);
}

/// Scanning one encoded row advances the cell counter to the excluded
/// eighth column of that row and folds in exactly the row's stones.
proof fn lemma_scan_row(s: State, t: Seq<char>, i: nat, y: int, x: int, run: int)
    requires
        s.wf(),
        0 <= y < 7,
        0 <= x <= 7,
        0 <= run <= x,
        8 * y + x <= 55,
        i + spec_fen_row(s, y, x, run).len() <= t.len(),
        forall|k: int|
            0 <= k < spec_fen_row(s, y, x, run).len() ==> t[i + k] == spec_fen_row(s, y, x, run)[k],
        forall|c: int|
            8 * y + x - run <= c < 8 * y + x ==> #[trigger] spec_fen_cell(s, c as u64).is_none(),
    ensures
        spec_fen_scan(
            t,
            i,
            (8 * y + x - run) as nat,
            s.black_stones & low_mask(8 * y + x - run),
            s.white_stones & low_mask(8 * y + x - run),
            s.gaps & low_mask(8 * y + x - run),
        ) == spec_fen_scan(
            t,
            i + spec_fen_row(s, y, x, run).len(),
            (8 * y + 7) as nat,
            s.black_stones & low_mask(8 * y + 7),
            s.white_stones & low_mask(8 * y + 7),
            s.gaps & low_mask(8 * y + 7),
        ),
    decreases 7 - x,
{
    let a = 8 * y + x - run;
    let enc = spec_fen_row(s, y, x, run);
    assert forall|j: u64| a <= j < a + run implies !(#[trigger] bit(s.black_stones, j)) by {
        let ci: int = j as int;
        assert(spec_fen_cell(s, ci as u64).is_none());
        assert(ci as u64 == j);
    }
    assert forall|j: u64| a <= j < a + run implies !(#[trigger] bit(s.white_stones, j)) by {
        let ci: int = j as int;
        assert(spec_fen_cell(s, ci as u64).is_none());
        assert(ci as u64 == j);
    }
    assert forall|j: u64| a <= j < a + run implies !(#[trigger] bit(s.gaps, j)) by {
        let ci: int = j as int;
        assert(spec_fen_cell(s, ci as u64).is_none());
        assert(ci as u64 == j);
    }
    if x == 7 {
        if run == 0 {
        } else {
            let d = (48 + run) as char;
            assert(enc == seq![d]);
            assert(t[i as int + 0] == enc[0]);
            assert(t[i as int] == d);
            assert(d as int == 48 + run);
            let b0 = s.black_stones & low_mask(a);
            let w0 = s.white_stones & low_mask(a);
            let g0 = s.gaps & low_mask(a);
            assert(spec_fen_scan(t, i, a as nat, b0, w0, g0) == spec_fen_scan(
                t,
                (i + 1) as nat,
                (8 * y + 7) as nat,
                b0,
                w0,
                g0,
            ));
            lemma_low_mask_skip(s.black_stones, a as u64, run as u64);
            lemma_low_mask_skip(s.white_stones, a as u64, run as u64);
            lemma_low_mask_skip(s.gaps, a as u64, run as u64);
        }
    } else {
        let pos = (8 * y + x) as u64;
        match spec_fen_cell(s, pos) {
            None => {
                assert(enc == spec_fen_row(s, y, x + 1, run + 1));
                lemma_scan_row(s, t, i, y, x + 1, run + 1);
            },
            Some(ch) => {
                let digits: Seq<char> = if run > 0 {
                    seq![(48 + run) as char]
                } else {
                    Seq::<char>::empty()
                };
                let rest = spec_fen_row(s, y, x + 1, 0);
                assert(enc == digits + seq![ch] + rest);
                let j = i + digits.len();
                // The optional run digit moves the counter to the cell
                // itself without touching the masks.
                lemma_low_mask_skip(s.black_stones, a as u64, run as u64);
                lemma_low_mask_skip(s.white_stones, a as u64, run as u64);
                lemma_low_mask_skip(s.gaps, a as u64, run as u64);
                if run > 0 {
                    let d = (48 + run) as char;
                    assert(t[i as int + 0] == enc[0]);
                    assert(enc[0] == digits[0]);
                    assert(t[i as int] == d);
                    assert(d as int == 48 + run);
                }
                // The cell character folds in exactly this cell's bit.
                assert(t[i as int + digits.len() as int] == enc[digits.len() as int]);
                assert(enc[digits.len() as int] == ch);
                assert(t[j as int] == ch);
                lemma_low_mask_step(s.black_stones, pos);
                lemma_low_mask_step(s.white_stones, pos);
                lemma_low_mask_step(s.gaps, pos);
                if ch == 'x' {
                    assert(bit(s.black_stones, pos));
                    crate::bits::lemma_disjoint_bit(s.black_stones, s.white_stones, pos);
                    crate::bits::lemma_disjoint_bit(s.black_stones, s.gaps, pos);
                } else if ch == 'o' {
                    assert(bit(s.white_stones, pos));
                    crate::bits::lemma_disjoint_bit(s.black_stones, s.white_stones, pos);
                    crate::bits::lemma_disjoint_bit(s.white_stones, s.gaps, pos);
                } else {
                    assert(ch == '-');
                    assert(bit(s.gaps, pos));
                    crate::bits::lemma_disjoint_bit(s.black_stones, s.gaps, pos);
                    crate::bits::lemma_disjoint_bit(s.white_stones, s.gaps, pos);
                }
                assert forall|k: int| 0 <= k < rest.len() implies t[j + 1 + k] == rest[k] by {
                    assert(t[i as int + (digits.len() as int + 1 + k)] == enc[digits.len() as int
                        + 1 + k]);
                    assert(enc[digits.len() + 1 + k] == rest[k]);
                }
                lemma_scan_row(s, t, (j + 1) as nat, y, x + 1, 0);
                // Chain the digit step, the cell step, and the rest of
                // the row.
                let b0 = s.black_stones & low_mask(a);
                let w0 = s.white_stones & low_mask(a);
                let g0 = s.gaps & low_mask(a);
                if run > 0 {
                    assert(spec_fen_scan(t, i, a as nat, b0, w0, g0) == spec_fen_scan(
                        t,
                        j as nat,
                        (8 * y + x) as nat,
                        b0,
                        w0,
                        g0,
                    ));
                }
                if ch == 'x' {
                    let b1 = b0 | (1u64 << pos);
                    assert(spec_fen_scan(t, j, (8 * y + x) as nat, b0, w0, g0) == spec_fen_scan(
                        t,
                        (j + 1) as nat,
                        (8 * y + x + 1) as nat,
                        b1,
                        w0,
                        g0,
                    ));
                    assert(b1 == s.black_stones & low_mask(8 * y + x + 1));
                    assert(w0 == s.white_stones & low_mask(8 * y + x + 1));
                    assert(g0 == s.gaps & low_mask(8 * y + x + 1));
                } else if ch == 'o' {
                    let w1 = w0 | (1u64 << pos);
                    assert(spec_fen_scan(t, j, (8 * y + x) as nat, b0, w0, g0) == spec_fen_scan(
                        t,
                        (j + 1) as nat,
                        (8 * y + x + 1) as nat,
                        b0,
                        w1,
                        g0,
                    ));
                    assert(w1 == s.white_stones & low_mask(8 * y + x + 1));
                    assert(b0 == s.black_stones & low_mask(8 * y + x + 1));
                    assert(g0 == s.gaps & low_mask(8 * y + x + 1));
                } else {
                    let g1 = g0 | (1u64 << pos);
                    assert(spec_fen_scan(t, j, (8 * y + x) as nat, b0, w0, g0) == spec_fen_scan(
                        t,
                        (j + 1) as nat,
                        (8 * y + x + 1) as nat,
                        b0,
                        w0,
                        g1,
                    ));
                    assert(g1 == s.gaps & low_mask(8 * y + x + 1));
                    assert(b0 == s.black_stones & low_mask(8 * y + x + 1));
                    assert(w0 == s.white_stones & low_mask(8 * y + x + 1));
                }
            },
        }
    }
}

/// Scanning the encoded rows from row `y` on reaches the 49-cell mark
/// with the full masks accumulated.
proof fn lemma_scan_rows(s: State, t: Seq<char>, i: nat, y: int)
    requires
        s.wf(),
        0 <= y < 7,
        i + spec_fen_rows(s, y).len() <= t.len(),
        forall|k: int| 0 <= k < spec_fen_rows(s, y).len() ==> t[i + k] == spec_fen_rows(s, y)[k],
    ensures
        spec_fen_scan(
            t,
            i,
            (8 * y) as nat,
            s.black_stones & low_mask(8 * y),
            s.white_stones & low_mask(8 * y),
            s.gaps & low_mask(8 * y),
        ) == spec_fen_scan(
            t,
            i + spec_fen_rows(s, y).len(),
            55,
            s.black_stones & low_mask(55),
            s.white_stones & low_mask(55),
            s.gaps & low_mask(55),
        ),
    decreases 7 - y,
{
    let row = spec_fen_row(s, y, 0, 0);
    if y == 6 {
        assert(spec_fen_rows(s, y) == row);
        lemma_scan_row(s, t, i, y, 0, 0);
    } else {
        let tail = spec_fen_rows(s, y + 1);
        assert(spec_fen_rows(s, y) == row + seq!['/'] + tail);
        assert forall|k: int| 0 <= k < row.len() implies t[i + k] == row[k] by {
            assert(spec_fen_rows(s, y)[k] == row[k]);
        }
        lemma_scan_row(s, t, i, y, 0, 0);
        let j = i + row.len();
        assert(t[j as int] == '/') by {
            assert(spec_fen_rows(s, y)[row.len() as int] == '/');
        }
        // The slash consumes the excluded eighth column, which holds no
        // stone in a well-formed position.
        let c7 = (8 * y + 7) as u64;
        assert((8 * y + 7) % 8 == 7) by (nonlinear_arith)
            requires
                0 <= y < 7,
        ;
        let b = s.black_stones;
        let w = s.white_stones;
        let g = s.gaps;
        assert(((b | w | g) & crate::rules::ALL_CELLS_MASK == (b | w | g)) ==> (b
            & crate::rules::ALL_CELLS_MASK == b && w & crate::rules::ALL_CELLS_MASK == w && g
            & crate::rules::ALL_CELLS_MASK == g)) by (bit_vector);
        lemma_col7_clear(b, c7);
        lemma_col7_clear(w, c7);
        lemma_col7_clear(g, c7);
        lemma_low_mask_step(b, c7);
        lemma_low_mask_step(w, c7);
        lemma_low_mask_step(g, c7);
        assert forall|k: int| 0 <= k < tail.len() implies t[j + 1 + k] == tail[k] by {
            assert(spec_fen_rows(s, y)[row.len() + 1 + k] == tail[k]);
        }
        lemma_scan_rows(s, t, (j + 1) as nat, y + 1);
    }
}

/// The position-notation round trip: parsing the canonical notation of
/// any well-formed position yields exactly that position.
pub proof fn lemma_fen_round_trip(s: State)
    requires
        s.wf(),
    ensures
        spec_parse_fen(spec_fen(s)) == Some(s),
{
    let t = spec_fen(s);
    let rows = spec_fen_rows(s, 0);
    assert forall|k: int| 0 <= k < rows.len() implies t[k] == rows[k] by {
        assert(t[k] == (rows + seq![' ', spec_side_char(s.to_move)])[k]);
    }
    let b = s.black_stones;
    let w = s.white_stones;
    let g = s.gaps;
    assert(((b | w | g) & crate::rules::ALL_CELLS_MASK == (b | w | g)) ==> (b
        & crate::rules::ALL_CELLS_MASK == b && w & crate::rules::ALL_CELLS_MASK == w && g
        & crate::rules::ALL_CELLS_MASK == g)) by (bit_vector);
    assert(b & low_mask(0) == 0 && w & low_mask(0) == 0 && g & low_mask(0) == 0) by (bit_vector);
    lemma_scan_rows(s, t, 0, 0);
    lemma_full_low(b);
    lemma_full_low(w);
    lemma_full_low(g);
    let j = rows.len() as int;
    assert(t[j] == ' ');
    assert(t[j + 1] == spec_side_char(s.to_move));
    if s.to_move == Color::Black {
        assert(spec_fen_scan(t, rows.len(), 55, b, w, g) == Some(s));
    } else {
        assert(spec_side_char(s.to_move) != 'x');
        assert(spec_fen_scan(t, rows.len(), 55, b, w, g) == Some(s));
    }
}

} // verus!
