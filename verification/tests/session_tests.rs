use chess_driller::graph::RepertoireGraph;
use chess_driller::ingest::parse_game;
use chess_driller::moves::Color;
use chess_driller::session::{MoveAssessment, ReplyPolicy};

const START: &str = "rnbqkbnr/pppppppp/8/8/8/8/PPPPPPPP/RNBQKBNR w KQkq - 0 1";

fn game(text: &str) -> Vec<String> {
    parse_game(text)
}

fn three_games() -> RepertoireGraph {
    RepertoireGraph::build(&vec![
        game("e4 e5 Nf3"),
        game("e4 e5 Nf3 Nc6"),
        game("d4 d5"),
    ])
}

#[test]
fn drill_through_three_games() {
    let graph = three_games();
    let mut session = graph.start_drill(Color::White, &Vec::new()).unwrap();
    assert!(session.is_player_turn());
    assert!(session.still_running());
    assert_eq!(session.apply_move("e4"), MoveAssessment::InPrep);
    assert_eq!(session.apply_move("c5"), MoveAssessment::Deviated);
    assert_eq!(session.ply(), 1);
    let here = graph.find_path(graph.root(), &game("e4")).unwrap();
    assert_eq!(graph.children_of(here), vec![("e5".to_string(), 2)]);
    assert_eq!(session.apply_move("e5"), MoveAssessment::InPrep);
    assert_eq!(session.apply_move("Nf3"), MoveAssessment::InPrep);
    assert!(!session.is_player_turn());
    assert!(session.still_running());
    assert_eq!(session.make_move(), Some("Nc6".to_string()));
    assert_eq!(session.ply(), 4);
    assert!(!session.still_running());
    assert_eq!(
        session.position_text(),
        "r1bqkbnr/pppp1ppp/2n5/4p3/4P3/5N2/PPPP1PPP/RNBQKB1R w KQkq - 0 1"
    );
}

#[test]
fn start_drill_needs_a_known_line() {
    let graph = three_games();
    assert!(graph.start_drill(Color::White, &game("c4")).is_none());
    assert!(graph.start_drill(Color::Black, &game("e4 c5")).is_none());
    assert!(graph.start_drill(Color::White, &game("e4 e5 Nf3 Nc6 Bb5")).is_none());
    assert!(graph.start_drill(Color::White, &game("e4 e5")).is_some());
}

#[test]
fn start_drill_with_no_moves_always_starts() {
    let graph = three_games();
    assert!(graph.start_drill(Color::White, &Vec::new()).is_some());
    assert!(graph.start_drill(Color::Black, &Vec::new()).is_some());
    let empty = RepertoireGraph::new();
    let session = empty.start_drill(Color::White, &Vec::new()).unwrap();
    assert!(!session.still_running());
    assert_eq!(session.position_text(), START);
}

#[test]
fn start_drill_replays_the_opening_moves() {
    let graph = three_games();
    let session = graph.start_drill(Color::Black, &game("e4 e5")).unwrap();
    assert_eq!(session.ply(), 2);
    assert_eq!(session.player_color(), Color::Black);
    assert_eq!(
        session.position_text(),
        "rnbqkbnr/pppp1ppp/8/4p3/4P3/8/PPPP1PPP/RNBQKBNR w KQkq - 0 1"
    );
    assert_eq!(session.board().to_string(), session.position_text());
    assert!(session.fault().is_none());
}

#[test]
fn the_board_starts_in_the_starting_position() {
    let graph = three_games();
    let session = graph.start_drill(Color::White, &Vec::new()).unwrap();
    assert_eq!(session.position_text(), START);
    assert_eq!(session.board(), chess::Board::default());
}

#[test]
fn turns_alternate_with_the_ply() {
    let graph = three_games();
    let mut white = graph.start_drill(Color::White, &Vec::new()).unwrap();
    let mut black = graph.start_drill(Color::Black, &Vec::new()).unwrap();
    let mut expect_white = true;
    assert!(white.is_player_turn());
    assert!(!black.is_player_turn());
    for san in ["e4", "e5", "Nf3", "Nc6"] {
        assert_eq!(white.is_player_turn(), expect_white);
        assert_eq!(black.is_player_turn(), !expect_white);
        white.apply_move(san);
        black.apply_move(san);
        expect_white = !expect_white;
    }
    assert_eq!(white.is_player_turn(), expect_white);
    let second = graph.start_drill(Color::Black, &game("e4")).unwrap();
    assert_eq!(second.ply(), 1);
    assert!(second.is_player_turn());
}

#[test]
fn a_deviation_does_not_turn_the_ply() {
    let graph = three_games();
    let mut session = graph.start_drill(Color::White, &Vec::new()).unwrap();
    assert_eq!(session.apply_move("c4"), MoveAssessment::Deviated);
    assert!(session.is_player_turn());
    assert_eq!(session.ply(), 0);
    assert_eq!(session.position_text(), START);
    assert!(session.still_running());
}

#[test]
fn every_ingested_game_replays_in_prep() {
    let games = vec![
        game("e4 e5 Nf3"),
        game("e4 e5 Nf3 Nc6"),
        game("d4 d5"),
        game("e4 c5"),
    ];
    let graph = RepertoireGraph::build(&games);
    for moves in &games {
        let mut session = graph.start_drill(Color::White, &Vec::new()).unwrap();
        for san in moves {
            assert_eq!(session.apply_move(san), MoveAssessment::InPrep);
        }
        assert_eq!(session.ply(), moves.len());
        assert!(session.fault().is_none());
    }
}

#[test]
fn a_move_past_the_end_of_a_line_ends_the_drill() {
    let graph = three_games();
    let mut session = graph.start_drill(Color::White, &game("d4 d5")).unwrap();
    assert!(!session.still_running());
    assert_eq!(session.apply_move("c4"), MoveAssessment::EndOfLine);
    assert!(!session.still_running());
    assert_eq!(session.apply_move("c4"), MoveAssessment::EndOfLine);
    assert_eq!(session.ply(), 2);
    assert_eq!(session.make_move(), None);
}

#[test]
fn make_move_has_nothing_to_play_at_a_leaf() {
    let graph = three_games();
    let mut session = graph.start_drill(Color::White, &game("e4 e5 Nf3 Nc6")).unwrap();
    assert_eq!(session.make_move(), None);
    assert_eq!(session.ply(), 4);
    let empty = RepertoireGraph::new();
    let mut lone = empty.start_drill(Color::Black, &Vec::new()).unwrap();
    assert_eq!(lone.make_move(), None);
}

#[test]
fn make_move_plays_an_only_reply() {
    let graph = three_games();
    for seed in [0u64, 1, 2, 99, u64::MAX] {
        let mut session = graph
            .start_drill(Color::Black, &game("d4"))
            .unwrap()
            .with_policy(ReplyPolicy::Weighted { seed });
        assert_eq!(session.make_move(), Some("d5".to_string()));
    }
    let mut most = graph
        .start_drill(Color::Black, &game("d4"))
        .unwrap()
        .with_policy(ReplyPolicy::MostPlayed);
    assert_eq!(most.make_move(), Some("d5".to_string()));
}

#[test]
fn most_played_takes_the_heaviest_and_of_equals_the_first() {
    let graph = three_games();
    let mut session = graph
        .start_drill(Color::Black, &Vec::new())
        .unwrap()
        .with_policy(ReplyPolicy::MostPlayed);
    assert_eq!(session.make_move(), Some("e4".to_string()));
    let tied = RepertoireGraph::build(&vec![game("d4"), game("e4"), game("c4")]);
    let mut first = tied
        .start_drill(Color::Black, &Vec::new())
        .unwrap()
        .with_policy(ReplyPolicy::MostPlayed);
    assert_eq!(first.make_move(), Some("d4".to_string()));
    let later = RepertoireGraph::build(&vec![game("d4"), game("e4"), game("e4")]);
    let mut heavy = later
        .start_drill(Color::Black, &Vec::new())
        .unwrap()
        .with_policy(ReplyPolicy::MostPlayed);
    assert_eq!(heavy.make_move(), Some("e4".to_string()));
}

#[test]
fn weighted_draw_follows_the_seed() {
    let graph = three_games();
    let mut zero = graph.start_drill(Color::Black, &Vec::new()).unwrap();
    assert_eq!(zero.make_move(), Some("e4".to_string()));
    let mut two = graph
        .start_drill(Color::Black, &Vec::new())
        .unwrap()
        .with_policy(ReplyPolicy::Weighted { seed: 1876011003808476466 });
    assert_eq!(two.make_move(), Some("d4".to_string()));
    let mut other = graph
        .start_drill(Color::Black, &Vec::new())
        .unwrap()
        .with_policy(ReplyPolicy::Weighted { seed: 42 });
    assert_eq!(other.make_move(), Some("e4".to_string()));
}

#[test]
fn weighted_draw_moves_the_seed_on() {
    let games = vec![game("e4 e5"), game("e4 c5"), game("e4 e6")];
    let graph = RepertoireGraph::build(&games);
    let mut session = graph
        .start_drill(Color::White, &Vec::new())
        .unwrap()
        .with_policy(ReplyPolicy::Weighted { seed: 1442695040888963407 });
    assert_eq!(session.make_move(), Some("e4".to_string()));
    assert_eq!(session.make_move(), Some("e6".to_string()));
    let mut again = graph
        .start_drill(Color::White, &game("e4"))
        .unwrap()
        .with_policy(ReplyPolicy::Weighted { seed: 1876011003808476466 });
    assert_eq!(again.make_move(), Some("e6".to_string()));
    let mut fresh = graph.start_drill(Color::White, &game("e4")).unwrap();
    assert_eq!(fresh.make_move(), Some("c5".to_string()));
}

#[test]
fn same_seed_same_replies() {
    let games = vec![game("e4 e5"), game("e4 c5"), game("d4 d5"), game("c4 e5")];
    let graph = RepertoireGraph::build(&games);
    for seed in [0u64, 7, 123456789] {
        let mut a = graph
            .start_drill(Color::Black, &Vec::new())
            .unwrap()
            .with_policy(ReplyPolicy::Weighted { seed });
        let mut b = graph
            .start_drill(Color::Black, &Vec::new())
            .unwrap()
            .with_policy(ReplyPolicy::Weighted { seed });
        let first = a.make_move();
        assert_eq!(first, b.make_move());
        assert!(first.is_some());
        assert_eq!(a.make_move(), b.make_move());
    }
}

#[test]
fn the_board_follows_the_moves() {
    let graph = three_games();
    let mut session = graph.start_drill(Color::White, &Vec::new()).unwrap();
    session.apply_move("e4");
    assert_eq!(
        session.position_text(),
        "rnbqkbnr/pppppppp/8/8/4P3/8/PPPP1PPP/RNBQKBNR b KQkq - 0 1"
    );
    session.make_move();
    assert_eq!(
        session.position_text(),
        "rnbqkbnr/pppp1ppp/8/4p3/4P3/8/PPPP1PPP/RNBQKBNR w KQkq - 0 1"
    );
}

#[test]
fn a_line_that_cannot_be_played_shows_as_a_fault() {
    let graph = RepertoireGraph::build(&vec![game("e4 Qh9 Nf3")]);
    let mut session = graph.start_drill(Color::White, &Vec::new()).unwrap();
    assert_eq!(session.apply_move("e4"), MoveAssessment::InPrep);
    assert!(session.fault().is_none());
    let after_e4 = "rnbqkbnr/pppppppp/8/8/4P3/8/PPPP1PPP/RNBQKBNR b KQkq - 0 1";
    assert_eq!(session.position_text(), after_e4);
    assert_eq!(session.apply_move("Qh9"), MoveAssessment::InPrep);
    assert_eq!(session.position_text(), after_e4);
    assert_eq!(session.board().to_string(), after_e4);
    assert_eq!(session.fault().unwrap().notation, "Qh9");
    assert_eq!(session.make_move(), Some("Nf3".to_string()));
    assert_eq!(session.fault().unwrap().notation, "Qh9");
    assert_eq!(session.position_text(), after_e4);
    assert_eq!(session.ply(), 3);
    let late = graph.start_drill(Color::White, &game("e4 Qh9")).unwrap();
    assert_eq!(late.fault().unwrap().notation, "Qh9");
    assert_eq!(late.position_text(), after_e4);
    assert_eq!(
        late.fault().unwrap().describe(),
        "no legal move is written Qh9"
    );
}

#[test]
fn marked_moves_are_keys_as_written() {
    let graph = RepertoireGraph::build(&vec![game("e4 e5 Qh5 Nc6 Bc4 Nf6 Qxf7#")]);
    let mut session = graph
        .start_drill(Color::White, &game("e4 e5 Qh5 Nc6 Bc4 Nf6"))
        .unwrap();
    assert_eq!(session.apply_move("Qxf7"), MoveAssessment::Deviated);
    assert_eq!(session.apply_move("Qxf7#"), MoveAssessment::InPrep);
    assert_eq!(
        session.position_text(),
        "r1bqkb1r/pppp1Qpp/2n2n2/4p3/2B1P3/8/PPPP1PPP/RNB1K1NR b KQkq - 0 1"
    );
    assert!(!session.still_running());
}

#[test]
fn the_session_points_at_the_node_of_its_line() {
    let graph = three_games();
    let mut session = graph.start_drill(Color::White, &game("e4")).unwrap();
    assert_eq!(graph.children_of(session.node()), vec![("e5".to_string(), 2)]);
    session.apply_move("e5");
    assert_eq!(graph.children_of(session.node()), vec![("Nf3".to_string(), 2)]);
    assert_eq!(session.moves(), &game("e4 e5"));
    session.apply_move("d4");
    assert_eq!(session.moves(), &game("e4 e5"));
}

#[test]
fn a_reply_that_cannot_be_played_leaves_the_board_as_it_was() {
    let graph = RepertoireGraph::build(&vec![game("e4 Qh9")]);
    let mut session = graph.start_drill(Color::White, &Vec::new()).unwrap();
    assert_eq!(session.apply_move("e4"), MoveAssessment::InPrep);
    let before = session.board();
    assert_eq!(session.make_move(), Some("Qh9".to_string()));
    assert_eq!(session.board(), before);
    assert_eq!(session.fault().unwrap().notation, "Qh9");
    assert_eq!(session.ply(), 2);
    assert!(!session.still_running());
}
