use snpataxx::rules::{Color, Move, Spot, State};

const START_FEN: &str = "x5o/7/7/7/7/7/o5x x 0 1";

fn start() -> State {
    State::from_fen(START_FEN).unwrap()
}

#[test]
fn start_position_layout() {
    let s = start();
    assert_eq!(s.black_stones, (1u64 << 0) | (1u64 << 54));
    assert_eq!(s.white_stones, (1u64 << 6) | (1u64 << 48));
    assert_eq!(s.gaps, 0);
    assert_eq!(s.to_move, Color::Black);
    assert!(s.is_well_formed());
}

#[test]
fn perft_reference_counts() {
    let s = start();
    assert_eq!(snpataxx::rules::perft(&s, 0), 1);
    assert_eq!(snpataxx::rules::perft(&s, 1), 16);
    assert_eq!(snpataxx::rules::perft(&s, 2), 256);
    assert_eq!(snpataxx::rules::perft(&s, 3), 6460);
    assert_eq!(snpataxx::rules::perft(&s, 4), 155888);
}

#[test]
fn move_gen_start_counts() {
    let s = start();
    let mut moves = Vec::new();
    s.move_gen(&mut moves);
    assert_eq!(moves.len(), 16);
    assert!(!moves.contains(&Move::pass()));
}

#[test]
fn every_reachable_position_stays_disjoint() {
    // Disjointness of the black, white and blocked sets, checked over
    // the full depth-2 tree from the start position.
    let s = start();
    let mut moves = Vec::new();
    s.move_gen(&mut moves);
    for m in &moves {
        let mut child = s.clone();
        child.make_move(*m).unwrap();
        child.sanity_check();
        assert!(child.is_well_formed());
        let mut moves2 = Vec::new();
        child.move_gen(&mut moves2);
        for m2 in &moves2 {
            let mut grandchild = child.clone();
            grandchild.make_move(*m2).unwrap();
            grandchild.sanity_check();
            assert!(grandchild.is_well_formed());
        }
    }
}

#[test]
fn clone_captures_adjacent_enemy() {
    // Black at a7 (cell 0), white at b6 (cell 9). Cloning to b7 (cell 1)
    // flips the adjacent white stone and leaves black's own stone alone.
    let s = State::from_fen("x6/1o5/7/7/7/7/7 x").unwrap();
    let m = Move { from: Spot(1), to: Spot(1) };
    let mut after = s.clone();
    after.make_move(m).unwrap();
    assert_eq!(after.black_stones, (1u64 << 0) | (1u64 << 1) | (1u64 << 9));
    assert_eq!(after.white_stones, 0);
    assert_eq!(after.to_move, Color::White);
}

#[test]
fn capture_does_not_touch_distant_stones() {
    // A white stone two cells away from the destination is unaffected.
    let s = State::from_fen("x6/1o5/3o3/7/7/7/7 x").unwrap();
    let m = Move { from: Spot(1), to: Spot(1) };
    let mut after = s.clone();
    after.make_move(m).unwrap();
    assert_eq!(after.white_stones, 1u64 << 19);
    assert_eq!(after.black_stones, (1u64 << 0) | (1u64 << 1) | (1u64 << 9));
}

#[test]
fn clone_never_clears_relocation_clears_source() {
    let s = State::from_fen("x6/7/7/7/7/7/7 x").unwrap();
    // Clone: the source keeps its stone.
    let clone = Move { from: Spot(1), to: Spot(1) };
    let mut a = s.clone();
    a.make_move(clone).unwrap();
    assert_eq!(a.black_stones, (1u64 << 0) | (1u64 << 1));
    // Relocation from a7 to c5 (cell 18): exactly the source is cleared.
    let jump = Move { from: Spot(0), to: Spot(18) };
    let mut b = s.clone();
    b.make_move(jump).unwrap();
    assert_eq!(b.black_stones, 1u64 << 18);
}

#[test]
fn pass_is_forced_when_no_move_exists() {
    // A lone black stone walled in by blocked cells has only the pass.
    let s = State::from_fen("x--4/---4/---4/7/7/7/7 x").unwrap();
    let mut moves = Vec::new();
    s.move_gen(&mut moves);
    assert_eq!(moves, vec![Move::pass()]);
    let mut after = s.clone();
    after.make_move(Move::pass()).unwrap();
    assert_eq!(after.black_stones, s.black_stones);
    assert_eq!(after.white_stones, s.white_stones);
    assert_eq!(after.to_move, Color::White);
}

#[test]
fn terminal_and_winner() {
    let full = State::from_fen("xxxxxxx/ooooooo/xxxxxxx/ooooooo/xxxxxxx/ooooooo/xxxxxxx x").unwrap();
    assert!(full.game_is_over());
    assert_eq!(full.get_winner(), Some(Color::Black));
    let s = start();
    assert!(!s.game_is_over());
    assert_eq!(s.get_winner(), None);
    let white_ahead =
        State::from_fen("ooooooo/xxxxxxx/ooooooo/xxxxxxx/ooooooo/xxxxxxx/ooooooo x").unwrap();
    assert_eq!(white_ahead.get_winner(), Some(Color::White));
}

#[test]
fn hash_matches_the_mixing_formula() {
    let s = start();
    let mult: u64 = 0x243f6a8885a308d3;
    let mut h: u64 = 0;
    for x in [s.black_stones, s.white_stones, 0u64] {
        h = (h ^ x).wrapping_mul(mult);
        h ^= h >> 37;
    }
    assert_eq!(s.get_hash(), h);
}

#[test]
fn rng_matches_the_mixing_formula() {
    let mut rng = snpataxx::rng::Rng::new(12345);
    let mult: u64 = 0x243f6a8885a308d3;
    let mut x: u64 = 12346u64.wrapping_mul(mult);
    for _ in 0..3 {
        x = (x ^ (x >> 37)).wrapping_mul(mult);
    }
    assert_eq!(rng.next_random(), x);
    let mut rng2 = snpataxx::rng::Rng::new(7);
    let draw = rng2.generate_range(15);
    assert!(draw < 15);
    let mut rng3 = snpataxx::rng::Rng::new(7);
    assert_eq!(rng3.next_random() % 15, draw as u64);
}

#[test]
fn hash_is_deterministic_and_discriminates() {
    let s = start();
    assert_eq!(s.get_hash(), s.clone().get_hash());
    let mut other = s.clone();
    other.make_move(Move { from: Spot(1), to: Spot(1) }).unwrap();
    assert_ne!(s.get_hash(), other.get_hash());
    // The side to move is part of the key.
    let mut passed = s.clone();
    passed.make_move(Move::pass()).unwrap();
    assert_ne!(s.get_hash(), passed.get_hash());
}
