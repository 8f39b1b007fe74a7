use chess_driller::graph::RepertoireGraph;
use chess_driller::ingest::parse_game;
use chess_driller::moves::Color;
use chess_driller::session::{MoveAssessment, ReplyPolicy};
use chess_driller::trainer::{Outcome, Trainer};

const START: &str = "rnbqkbnr/pppppppp/8/8/8/8/PPPPPPPP/RNBQKBNR w KQkq - 0 1";

fn sq(name: &str) -> u8 {
    let bytes = name.as_bytes();
    (bytes[0] - b'a') + 8 * (bytes[1] - b'1')
}

fn three_games() -> RepertoireGraph {
    RepertoireGraph::build(&vec![
        parse_game("e4 e5 Nf3"),
        parse_game("e4 e5 Nf3 Nc6"),
        parse_game("d4 d5"),
    ])
}

fn recorded(san: &str) -> Outcome {
    Outcome::Recorded { san: san.to_string() }
}

fn drilled(san: &str, assessment: MoveAssessment, reply: Option<&str>) -> Outcome {
    Outcome::Drilled { san: san.to_string(), assessment, reply: reply.map(|r| r.to_string()) }
}

fn go(trainer: &mut Trainer, from: &str, to: &str) -> Outcome {
    assert_eq!(trainer.click(sq(from)), Outcome::Selected);
    trainer.click(sq(to))
}

#[test]
fn a_new_trainer_shows_the_starting_position() {
    let graph = three_games();
    let trainer = Trainer::new(&graph);
    assert_eq!(trainer.board().to_string(), START);
    assert!(trainer.recorded().is_empty());
    assert!(!trainer.drilling());
    assert_eq!(trainer.selected_square(), None);
}

#[test]
fn clicks_select_a_piece_and_then_move_it() {
    let graph = three_games();
    let mut trainer = Trainer::new(&graph);
    assert_eq!(trainer.click(sq("e4")), Outcome::Ignored);
    assert_eq!(trainer.selected_square(), None);
    assert_eq!(trainer.click(sq("e2")), Outcome::Selected);
    assert_eq!(trainer.selected_square(), Some(sq("e2")));
    assert_eq!(trainer.click(sq("e4")), recorded("e4"));
    assert_eq!(trainer.selected_square(), None);
    assert_eq!(trainer.recorded(), &vec!["e4".to_string()]);
    assert_eq!(
        trainer.board().to_string(),
        "rnbqkbnr/pppppppp/8/8/4P3/8/PPPP1PPP/RNBQKBNR b KQkq - 0 1"
    );
    assert_eq!(go(&mut trainer, "g8", "f6"), recorded("Nf6"));
    assert_eq!(trainer.recorded(), &vec!["e4".to_string(), "Nf6".to_string()]);
}

#[test]
fn a_click_off_the_board_is_ignored() {
    let graph = three_games();
    let mut trainer = Trainer::new(&graph);
    assert_eq!(trainer.click(64), Outcome::Ignored);
    assert_eq!(trainer.click(sq("e2")), Outcome::Selected);
    assert_eq!(trainer.click(200), Outcome::Ignored);
    assert_eq!(trainer.selected_square(), Some(sq("e2")));
    assert_eq!(trainer.put_down(64), Outcome::Ignored);
    assert_eq!(trainer.pick_up(99), Outcome::Ignored);
    assert_eq!(trainer.selected_square(), Some(sq("e2")));
}

#[test]
fn an_illegal_click_moves_the_selection() {
    let graph = three_games();
    let mut trainer = Trainer::new(&graph);
    trainer.click(sq("e2"));
    assert_eq!(trainer.click(sq("e5")), Outcome::Illegal);
    assert_eq!(trainer.selected_square(), Some(sq("e5")));
    assert_eq!(trainer.click(sq("d2")), Outcome::Illegal);
    assert_eq!(trainer.selected_square(), Some(sq("d2")));
    assert_eq!(trainer.click(sq("d4")), recorded("d4"));
    assert_eq!(trainer.board().to_string().split(' ').nth(1), Some("b"));
}

#[test]
fn a_drag_moves_or_lets_go() {
    let graph = three_games();
    let mut trainer = Trainer::new(&graph);
    assert_eq!(trainer.put_down(sq("e4")), Outcome::Ignored);
    assert_eq!(trainer.pick_up(sq("e4")), Outcome::Ignored);
    assert_eq!(trainer.pick_up(sq("g1")), Outcome::Selected);
    assert_eq!(trainer.put_down(sq("g3")), Outcome::Illegal);
    assert_eq!(trainer.selected_square(), None);
    assert_eq!(trainer.board().to_string(), START);
    assert_eq!(trainer.pick_up(sq("g1")), Outcome::Selected);
    assert_eq!(trainer.put_down(sq("f3")), recorded("Nf3"));
    assert_eq!(trainer.selected_square(), None);
}

#[test]
fn a_pawn_on_the_last_rank_becomes_a_queen() {
    let graph = three_games();
    let mut trainer = Trainer::new(&graph);
    let moves = [
        ("a2", "a4", "a4"),
        ("b7", "b5", "b5"),
        ("a4", "b5", "axb5"),
        ("a7", "a6", "a6"),
        ("b5", "a6", "bxa6"),
        ("c8", "b7", "Bb7"),
        ("a6", "b7", "axb7"),
        ("b8", "c6", "Nc6"),
        ("b7", "a8", "bxa8=Q"),
    ];
    for (from, to, san) in moves {
        assert_eq!(trainer.pick_up(sq(from)), Outcome::Selected);
        assert_eq!(trainer.put_down(sq(to)), recorded(san));
    }
    assert_eq!(
        trainer.board().to_string(),
        "Q2qkbnr/2pppppp/2n5/8/8/8/1PPPPPPP/RNBQKBNR b KQk - 0 1"
    );
}

#[test]
fn a_drill_answers_moves_in_preparation() {
    let graph = three_games();
    let mut trainer = Trainer::new(&graph);
    assert!(trainer.start(Color::White));
    assert!(trainer.drilling());
    assert_eq!(
        go(&mut trainer, "e2", "e4"),
        drilled("e4", MoveAssessment::InPrep, Some("e5"))
    );
    assert_eq!(
        trainer.board().to_string(),
        "rnbqkbnr/pppp1ppp/8/4p3/4P3/8/PPPP1PPP/RNBQKBNR w KQkq - 0 1"
    );
    assert_eq!(
        go(&mut trainer, "g1", "f3"),
        drilled("Nf3", MoveAssessment::InPrep, Some("Nc6"))
    );
    assert_eq!(
        go(&mut trainer, "d2", "d4"),
        drilled("d4", MoveAssessment::EndOfLine, None)
    );
    assert!(trainer.recorded().is_empty());
}

#[test]
fn a_deviation_leaves_the_board_alone() {
    let graph = three_games();
    let mut trainer = Trainer::new(&graph);
    trainer.start(Color::White);
    assert_eq!(
        go(&mut trainer, "c2", "c4"),
        drilled("c4", MoveAssessment::Deviated, None)
    );
    assert_eq!(trainer.board().to_string(), START);
    assert_eq!(trainer.selected_square(), None);
    assert_eq!(
        go(&mut trainer, "d2", "d4"),
        drilled("d4", MoveAssessment::InPrep, Some("d5"))
    );
}

#[test]
fn a_drill_as_black_opens_with_a_reply() {
    let graph = three_games();
    let mut trainer = Trainer::new(&graph);
    assert!(trainer.start(Color::Black));
    assert_eq!(
        trainer.board().to_string(),
        "rnbqkbnr/pppppppp/8/8/4P3/8/PPPP1PPP/RNBQKBNR b KQkq - 0 1"
    );
    assert_eq!(
        go(&mut trainer, "e7", "e5"),
        drilled("e5", MoveAssessment::InPrep, Some("Nf3"))
    );
}

#[test]
fn a_drill_starts_from_the_recorded_line() {
    let graph = three_games();
    let mut trainer = Trainer::new(&graph);
    go(&mut trainer, "e2", "e4");
    go(&mut trainer, "e7", "e5");
    assert!(trainer.start(Color::White));
    assert_eq!(
        go(&mut trainer, "g1", "f3"),
        drilled("Nf3", MoveAssessment::InPrep, Some("Nc6"))
    );
    assert_eq!(trainer.recorded().len(), 2);
}

#[test]
fn an_unknown_line_starts_no_drill() {
    let graph = three_games();
    let mut trainer = Trainer::new(&graph);
    go(&mut trainer, "c2", "c4");
    assert!(!trainer.start(Color::White));
    assert!(!trainer.drilling());
    assert_eq!(go(&mut trainer, "e7", "e5"), recorded("e5"));
}

#[test]
fn a_running_drill_is_not_started_over() {
    let graph = three_games();
    let mut trainer = Trainer::new(&graph);
    trainer.start(Color::White);
    go(&mut trainer, "e2", "e4");
    let before = trainer.board().to_string();
    assert!(trainer.start(Color::Black));
    assert_eq!(trainer.board().to_string(), before);
    go(&mut trainer, "g1", "f3");
    assert!(trainer.start(Color::White));
    assert_eq!(trainer.board().to_string(), START);
}

#[test]
fn reset_sets_the_pieces_up_again() {
    let graph = three_games();
    let mut trainer = Trainer::new(&graph);
    go(&mut trainer, "e2", "e4");
    trainer.start(Color::Black);
    trainer.click(sq("e7"));
    trainer.reset();
    assert!(!trainer.drilling());
    assert!(trainer.recorded().is_empty());
    assert_eq!(trainer.board().to_string(), START);
    assert_eq!(trainer.selected_square(), Some(sq("e7")));
}

#[test]
fn a_reply_that_cannot_be_played_shows_as_a_fault() {
    let graph = RepertoireGraph::build(&vec![parse_game("e4 Qh9")]);
    let mut trainer = Trainer::new(&graph);
    assert!(trainer.fault().is_none());
    assert!(trainer.start(Color::White));
    assert!(trainer.fault().is_none());
    assert_eq!(
        go(&mut trainer, "e2", "e4"),
        drilled("e4", MoveAssessment::InPrep, Some("Qh9"))
    );
    assert_eq!(trainer.fault().unwrap().notation, "Qh9");
    assert_eq!(
        trainer.board().to_string(),
        "rnbqkbnr/pppppppp/8/8/4P3/8/PPPP1PPP/RNBQKBNR b KQkq - 0 1"
    );
    assert!(trainer.recorded().is_empty());
    trainer.reset();
    assert!(trainer.fault().is_none());
}

fn before_promotion(trainer: &mut Trainer) {
    let moves = [
        ("a2", "a4"),
        ("b7", "b5"),
        ("a4", "b5"),
        ("a7", "a6"),
        ("b5", "a6"),
        ("c8", "b7"),
        ("a6", "b7"),
        ("b8", "c6"),
    ];
    for (from, to) in moves {
        assert!(matches!(go(trainer, from, to), Outcome::Recorded { .. }));
    }
}

#[test]
fn a_click_never_promotes() {
    let graph = three_games();
    let mut trainer = Trainer::new(&graph);
    before_promotion(&mut trainer);
    let before = trainer.board().to_string();
    assert_eq!(trainer.click(sq("b7")), Outcome::Selected);
    assert_eq!(trainer.click(sq("a8")), Outcome::Illegal);
    assert_eq!(trainer.selected_square(), Some(sq("a8")));
    assert_eq!(trainer.board().to_string(), before);
    assert_eq!(trainer.recorded().len(), 8);
    assert_eq!(trainer.click(sq("b7")), Outcome::Illegal);
    assert_eq!(trainer.selected_square(), Some(sq("b7")));
    assert_eq!(trainer.put_down(sq("a8")), recorded("bxa8=Q"));
}

#[test]
fn drills_pick_replies_by_the_policy_of_the_trainer() {
    let graph = three_games();
    let mut trainer = Trainer::new(&graph);
    assert_eq!(trainer.reply_policy(), ReplyPolicy::Weighted { seed: 0 });
    trainer.set_policy(ReplyPolicy::Weighted { seed: 1876011003808476466 });
    assert!(trainer.start(Color::Black));
    assert_eq!(
        trainer.board().to_string(),
        "rnbqkbnr/pppppppp/8/8/3P4/8/PPP1PPPP/RNBQKBNR b KQkq - 0 1"
    );
    assert_eq!(
        trainer.reply_policy(),
        ReplyPolicy::Weighted { seed: 11166244414315200793 }
    );
    trainer.reset();
    trainer.set_policy(ReplyPolicy::MostPlayed);
    assert!(trainer.start(Color::Black));
    assert_eq!(
        trainer.board().to_string(),
        "rnbqkbnr/pppppppp/8/8/4P3/8/PPPP1PPP/RNBQKBNR b KQkq - 0 1"
    );
    assert_eq!(trainer.reply_policy(), ReplyPolicy::MostPlayed);
}

#[test]
fn the_policy_moves_on_with_every_drill_started() {
    let graph = three_games();
    let mut trainer = Trainer::new(&graph);
    go(&mut trainer, "c2", "c4");
    assert!(!trainer.start(Color::White));
    assert_eq!(trainer.reply_policy(), ReplyPolicy::Weighted { seed: 0 });
    trainer.reset();
    assert!(trainer.start(Color::White));
    assert_eq!(
        trainer.reply_policy(),
        ReplyPolicy::Weighted { seed: 1442695040888963407 }
    );
    assert!(trainer.start(Color::White));
    assert_eq!(
        trainer.reply_policy(),
        ReplyPolicy::Weighted { seed: 1442695040888963407 }
    );
}
