use snpataxx::rules::{Color, Move, Spot, State};

#[test]
fn spot_codes_follow_rank_flip() {
    // Rank 1 is the last internal row, so the first internal row is
    // rank 7.
    assert_eq!(Spot(0).to_uai(), "a7");
    assert_eq!(Spot(6).to_uai(), "g7");
    assert_eq!(Spot(48).to_uai(), "a1");
    assert_eq!(Spot(54).to_uai(), "g1");
    assert_eq!(Spot::from_uai("a7"), Spot(0));
    assert_eq!(Spot::from_uai("g1"), Spot(54));
}

#[test]
fn move_codes_round_trip() {
    let clone = Move { from: Spot(9), to: Spot(9) };
    assert_eq!(clone.to_uai(), "b6");
    assert_eq!(Move::from_uai("b6"), clone);
    let jump = Move { from: Spot(0), to: Spot(18) };
    assert_eq!(jump.to_uai(), "a7c5");
    assert_eq!(Move::from_uai("a7c5"), jump);
    assert_eq!(Move::pass().to_uai(), "0000");
    assert_eq!(Move::from_uai("0000"), Move::pass());
}

#[test]
fn every_generated_move_round_trips() {
    let s = State::from_fen("x5o/7/7/7/7/7/o5x x 0 1").unwrap();
    let mut moves = Vec::new();
    s.move_gen(&mut moves);
    for m in &moves {
        assert_eq!(Move::from_uai(&m.to_uai()), *m);
    }
}

#[test]
fn try_from_uai_rejects_malformed_codes() {
    assert_eq!(Move::try_from_uai(""), None);
    assert_eq!(Move::try_from_uai("h1"), None);
    assert_eq!(Move::try_from_uai("a8"), None);
    assert_eq!(Move::try_from_uai("a7c"), None);
    assert_eq!(Move::try_from_uai("0001"), None);
    assert_eq!(Move::try_from_uai("a7c5"), Some(Move { from: Spot(0), to: Spot(18) }));
    assert_eq!(Spot::try_from_uai("a0"), None);
    assert_eq!(Spot::try_from_uai("g1"), Some(Spot(54)));
}

#[test]
fn fen_round_trips_through_render_and_parse() {
    let cases = [
        "x5o/7/7/7/7/7/o5x x",
        "x5o/7/2-1-2/7/7/7/o5x o",
        "7/7/7/7/7/7/7 x",
        "xxxxxxx/ooooooo/xxxxxxx/ooooooo/xxxxxxx/ooooooo/xxxxxxx o",
        "x6/1o5/3o3/7/7/7/7 x",
    ];
    for fen in cases {
        let s = State::from_fen(fen).unwrap();
        assert_eq!(s.to_fen(), fen);
        let back = State::from_fen(&s.to_fen()).unwrap();
        assert_eq!(back, s);
    }
}

#[test]
fn fen_parser_reports_each_failure() {
    // Out-of-range character.
    assert!(State::from_fen("z5o/7/7/7/7/7/o5x x").is_err());
    // Misplaced row separator.
    assert!(State::from_fen("x4o/7/7/7/7/7/o5x x").is_err());
    // Too few cells described.
    assert!(State::from_fen("x5o/7/7 x").is_err());
    // Too many cells described.
    assert!(State::from_fen("x5o7/7/7/7/7/7/o5x x").is_err());
    // Missing side to move.
    assert!(State::from_fen("x5o/7/7/7/7/7/o5x").is_err());
    // Invalid side token.
    assert!(State::from_fen("x5o/7/7/7/7/7/o5x q").is_err());
}

#[test]
fn fen_parser_ignores_move_counters() {
    let a = State::from_fen("x5o/7/7/7/7/7/o5x x").unwrap();
    let b = State::from_fen("x5o/7/7/7/7/7/o5x x 0 1").unwrap();
    assert_eq!(a, b);
}

#[test]
fn render_shows_the_grid() {
    let s = State::from_fen("x5o/7/7/7/7/7/o5x x 0 1").unwrap();
    let art = s.render();
    assert!(art.contains('X'));
    assert!(art.contains('O'));
    assert!(art.contains("Black to move"));
    let mut flipped = s.clone();
    flipped.make_move(Move::pass()).unwrap();
    assert!(flipped.render().contains("White to move"));
}
