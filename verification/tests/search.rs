use snpataxx::rules::{Color, Move, State};
use snpataxx::search::{minimax, Engine};

const START_FEN: &str = "x5o/7/7/7/7/7/o5x x 0 1";

fn engine_at(fen: &str, seed: u64) -> Engine {
    let mut engine = Engine::new(seed);
    engine.set_position(State::from_fen(fen).unwrap());
    engine
}

#[test]
fn evaluate_counts_material_for_the_side_to_move() {
    let s = State::from_fen(START_FEN).unwrap();
    assert_eq!(snpataxx::search::evaluate(&s), 0);
    let black_up = State::from_fen("xx4o/7/7/7/7/7/o6 x").unwrap();
    assert_eq!(snpataxx::search::evaluate(&black_up), 0);
    let lead = State::from_fen("xxx3o/7/7/7/7/7/o6 x").unwrap();
    assert_eq!(snpataxx::search::evaluate(&lead), 100);
    let mut as_white = lead.clone();
    as_white.make_move(Move::pass()).unwrap();
    assert_eq!(snpataxx::search::evaluate(&as_white), -100);
}

#[test]
fn evaluate_rewards_finished_games() {
    let full = State::from_fen("xxxxxxx/ooooooo/xxxxxxx/ooooooo/xxxxxxx/ooooooo/xxxxxxx x").unwrap();
    // 28 black, 21 white: 100 * 7 + 1000000 from black's view.
    assert_eq!(snpataxx::search::evaluate(&full), 1000700);
}

#[test]
fn depth_one_search_from_the_corner_opening() {
    // Depth 1 from the start position: a clone brings black to three
    // stones against two, worth exactly 100 with the jitter disabled.
    let mut engine = engine_at(START_FEN, 7);
    engine.disable_jitter();
    let (score, best) = engine.run_depth(1);
    let m = best.expect("a move must be found");
    assert_ne!(m, Move::pass());
    assert!(score > 0);
    assert_eq!(score, 100);
    // The returned move is legal in the position.
    let mut moves = Vec::new();
    engine.state.move_gen(&mut moves);
    assert!(moves.contains(&m));
}

#[test]
fn pruning_search_matches_plain_minimax() {
    let s = State::from_fen(START_FEN).unwrap();
    for depth in 1..=3u16 {
        let mut engine = Engine::new(0);
        engine.disable_jitter();
        engine.set_position(s.clone());
        let (score, best) = engine.run_depth(depth);
        let (ref_score, ref_best) = minimax(depth, &s);
        assert_eq!(score, ref_score, "depth {depth}");
        assert_eq!(best, ref_best, "depth {depth}");
    }
}

#[test]
fn pruning_search_matches_minimax_in_a_capture_fight() {
    let s = State::from_fen("x6/1o5/3o3/7/7/7/6x x").unwrap();
    for depth in 1..=3u16 {
        let mut engine = Engine::new(1);
        engine.disable_jitter();
        engine.set_position(s.clone());
        let (score, best) = engine.run_depth(depth);
        let (ref_score, ref_best) = minimax(depth, &s);
        assert_eq!(score, ref_score, "depth {depth}");
        assert_eq!(best, ref_best, "depth {depth}");
    }
}

#[test]
fn search_is_deterministic_for_a_fixed_seed() {
    let a = engine_at(START_FEN, 42).run_depth(3);
    let b = engine_at(START_FEN, 42).run_depth(3);
    assert_eq!(a, b);
}

#[test]
fn a_stopped_search_still_answers() {
    // A zero-millisecond budget degenerates to the stop flag being set
    // before the deepening loop runs: every iteration must still return
    // a usable answer promptly.
    let mut engine = engine_at(START_FEN, 3);
    engine.request_stop();
    assert!(engine.should_stop());
    let (score, best) = engine.search_root(1);
    assert!(best.is_some());
    assert!(score > snpataxx::search::VERY_NEGATIVE_EVAL);
    engine.clear_stop();
    assert!(!engine.should_stop());
}

#[test]
fn stop_handle_shares_the_flag() {
    let engine = Engine::new(9);
    let handle = engine.stop_handle();
    handle.store(true, std::sync::atomic::Ordering::Relaxed);
    assert!(engine.should_stop());
}

#[test]
fn make_move_advances_the_engine_position() {
    let mut engine = engine_at(START_FEN, 5);
    let (_, best) = engine.run_depth(2);
    let m = best.unwrap();
    engine.make_move(m).unwrap();
    assert_eq!(engine.state.to_move, Color::White);
}

#[test]
fn time_budget_policy() {
    // Start position: 4 stones on the board, 45 empty cells, so the
    // engine plans for 91 more plies.
    let engine = engine_at(START_FEN, 0);
    // time_left = 10000 + 100 * 91 = 19100; 19100 / 91 = 209 < 5000.
    assert_eq!(engine.compute_time_budget(10000, 100), 209);
    // The half-clock cap binds when the increment is huge.
    assert_eq!(engine.compute_time_budget(1000, 10000), 500);
    // No clock and no increment: nothing to spend.
    assert_eq!(engine.compute_time_budget(0, 0), 0);
}

#[test]
fn search_handles_a_forced_pass() {
    let mut engine = engine_at("x--4/---4/---4/7/7/7/7 x", 2);
    engine.disable_jitter();
    let (_score, best) = engine.run_depth(2);
    assert_eq!(best, Some(Move::pass()));
}
