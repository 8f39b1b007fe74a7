use chess_driller::graph::RepertoireGraph;
use chess_driller::ingest::parse_game;

fn game(text: &str) -> Vec<String> {
    parse_game(text)
}

fn corpus() -> Vec<Vec<String>> {
    vec![game("e4 e5 Nf3"), game("e4 e5 Nf3 Nc6"), game("d4 d5")]
}

fn pairs(list: &[(&str, u64)]) -> Vec<(String, u64)> {
    list.iter().map(|(san, visits)| (san.to_string(), *visits)).collect()
}

#[test]
fn new_graph_is_a_lone_root() {
    let graph = RepertoireGraph::new();
    let root = graph.root();
    assert_eq!(graph.games(), 0);
    assert!(graph.is_leaf(root));
    assert!(graph.children_of(root).is_empty());
}

#[test]
fn insert_counts_every_edge_it_takes() {
    let mut graph = RepertoireGraph::new();
    graph.insert(&game("e4 e5"));
    graph.insert(&game("e4 c5"));
    graph.insert(&game("e4 e5 Nf3"));
    let root = graph.root();
    assert_eq!(graph.games(), 3);
    assert_eq!(graph.children_of(root), pairs(&[("e4", 3)]));
    let e4 = graph.child_on(root, "e4").unwrap();
    assert_eq!(graph.children_of(e4), pairs(&[("e5", 2), ("c5", 1)]));
    let e5 = graph.child_on(e4, "e5").unwrap();
    assert_eq!(graph.children_of(e5), pairs(&[("Nf3", 1)]));
}

#[test]
fn insert_of_an_empty_game_counts_the_game_only() {
    let mut graph = RepertoireGraph::new();
    graph.insert(&Vec::new());
    assert_eq!(graph.games(), 1);
    assert!(graph.is_leaf(graph.root()));
}

#[test]
fn insert_keeps_earlier_handles_good() {
    let mut graph = RepertoireGraph::new();
    graph.insert(&game("e4 e5"));
    let e4 = graph.child_on(graph.root(), "e4").unwrap();
    graph.insert(&game("d4 d5"));
    graph.insert(&game("e4 c5"));
    assert_eq!(graph.children_of(e4), pairs(&[("e5", 1), ("c5", 1)]));
}

#[test]
fn build_grows_side_branches_at_the_root() {
    let graph = RepertoireGraph::build(&corpus());
    let root = graph.root();
    assert_eq!(graph.games(), 3);
    assert_eq!(graph.children_of(root), pairs(&[("e4", 2), ("d4", 1)]));
    let d4 = graph.child_on(root, "d4").unwrap();
    assert_eq!(graph.children_of(d4), pairs(&[("d5", 1)]));
}

#[test]
fn build_is_insert_game_by_game() {
    let built = RepertoireGraph::build(&corpus());
    let mut grown = RepertoireGraph::new();
    for g in corpus() {
        grown.insert(&g);
    }
    let lines = ["", "e4", "e4 e5", "e4 e5 Nf3", "e4 e5 Nf3 Nc6", "d4", "d4 d5"];
    for line in lines {
        let a = built.find_path(built.root(), &game(line)).unwrap();
        let b = grown.find_path(grown.root(), &game(line)).unwrap();
        assert_eq!(built.children_of(a), grown.children_of(b));
    }
}

#[test]
fn find_path_follows_known_moves() {
    let graph = RepertoireGraph::build(&corpus());
    let root = graph.root();
    let end = graph.find_path(root, &game("e4 e5 Nf3")).unwrap();
    assert_eq!(graph.children_of(end), pairs(&[("Nc6", 1)]));
    let leaf = graph.find_path(end, &game("Nc6")).unwrap();
    assert!(graph.is_leaf(leaf));
}

#[test]
fn find_path_of_no_moves_is_the_node_itself() {
    let graph = RepertoireGraph::build(&corpus());
    let e4 = graph.child_on(graph.root(), "e4").unwrap();
    let same = graph.find_path(e4, &Vec::new()).unwrap();
    assert_eq!(graph.children_of(same), graph.children_of(e4));
}

#[test]
fn find_path_fails_at_the_first_unknown_move() {
    let graph = RepertoireGraph::build(&corpus());
    let root = graph.root();
    assert!(graph.find_path(root, &game("c4")).is_none());
    assert!(graph.find_path(root, &game("e4 c5")).is_none());
    assert!(graph.find_path(root, &game("e4 e5 Nf3 Nc6 Bb5")).is_none());
    assert!(graph.find_path(root, &game("e4 e5 Nf3 Nc6")).is_some());
}

#[test]
fn child_on_knows_only_recorded_replies() {
    let graph = RepertoireGraph::build(&corpus());
    let root = graph.root();
    assert!(graph.child_on(root, "e4").is_some());
    assert!(graph.child_on(root, "e5").is_none());
    assert!(graph.child_on(root, "").is_none());
}

#[test]
fn transposed_lines_stay_apart() {
    let games = vec![game("Nf3 d5 d4"), game("d4 d5 Nf3")];
    let graph = RepertoireGraph::build(&games);
    let root = graph.root();
    assert_eq!(graph.children_of(root), pairs(&[("Nf3", 1), ("d4", 1)]));
    let first = graph.find_path(root, &game("Nf3 d5 d4")).unwrap();
    let second = graph.find_path(root, &game("d4 d5 Nf3")).unwrap();
    assert!(graph.is_leaf(first));
    assert!(graph.is_leaf(second));
    assert!(graph.find_path(root, &game("Nf3 d5 Nf3")).is_none());
}

#[test]
fn child_visits_add_up_to_the_games_that_go_on() {
    let games = vec![
        game("e4 e5 Nf3"),
        game("e4 e5 Nf3 Nc6"),
        game("d4 d5"),
        game("e4"),
        game("e4 c5 Nf3"),
        game(""),
    ];
    let graph = RepertoireGraph::build(&games);
    let n = games.len() as u64;
    let lines = ["", "e4", "e4 e5", "e4 e5 Nf3", "e4 e5 Nf3 Nc6", "e4 c5", "e4 c5 Nf3", "d4", "d4 d5"];
    for line in lines {
        let path = game(line);
        let node = graph.find_path(graph.root(), &path).unwrap();
        let sum: u64 = graph.children_of(node).iter().map(|(_, visits)| *visits).sum();
        let going_on = games
            .iter()
            .filter(|g| g.len() > path.len() && g[..path.len()] == path[..])
            .count() as u64;
        assert!(sum <= n);
        assert_eq!(sum, going_on);
    }
    assert_eq!(
        graph.children_of(graph.root()).iter().map(|(_, v)| *v).sum::<u64>(),
        5
    );
}

#[test]
fn order_of_games_changes_no_count() {
    let forward = corpus();
    let mut backward = corpus();
    backward.reverse();
    let a = RepertoireGraph::build(&forward);
    let b = RepertoireGraph::build(&backward);
    let lines = ["", "e4", "e4 e5", "e4 e5 Nf3", "e4 e5 Nf3 Nc6", "d4", "d4 d5"];
    for line in lines {
        let path = game(line);
        let na = a.find_path(a.root(), &path).unwrap();
        let nb = b.find_path(b.root(), &path).unwrap();
        let mut ka = a.children_of(na);
        let mut kb = b.children_of(nb);
        ka.sort();
        kb.sort();
        assert_eq!(ka, kb);
    }
    assert_eq!(b.children_of(b.root()), pairs(&[("d4", 1), ("e4", 2)]));
}

#[test]
fn building_twice_gives_the_same_graph() {
    let a = RepertoireGraph::build(&corpus());
    let b = RepertoireGraph::build(&corpus());
    let lines = ["", "e4", "e4 e5", "e4 e5 Nf3", "e4 e5 Nf3 Nc6", "d4", "d4 d5"];
    for line in lines {
        let path = game(line);
        let na = a.find_path(a.root(), &path).unwrap();
        let nb = b.find_path(b.root(), &path).unwrap();
        assert_eq!(a.children_of(na), b.children_of(nb));
    }
    assert_eq!(a.games(), b.games());
}

fn lines(list: &[(&str, u64)]) -> Vec<(Vec<String>, u64)> {
    list.iter().map(|(line, games)| (game(line), *games)).collect()
}

#[test]
fn lines_hold_each_game_where_it_ended() {
    let graph = RepertoireGraph::build(&corpus());
    assert_eq!(
        graph.to_lines(),
        lines(&[("e4 e5 Nf3", 1), ("e4 e5 Nf3 Nc6", 1), ("d4 d5", 1)])
    );
    let mut more = RepertoireGraph::build(&corpus());
    more.insert(&game("e4"));
    more.insert(&game("d4 d5"));
    more.insert(&game(""));
    more.insert(&game(""));
    assert_eq!(
        more.to_lines(),
        lines(&[("", 2), ("e4", 1), ("e4 e5 Nf3", 1), ("e4 e5 Nf3 Nc6", 1), ("d4 d5", 2)])
    );
    assert!(RepertoireGraph::new().to_lines().is_empty());
}

#[test]
fn from_lines_counts_each_line_as_often_as_told() {
    let graph = RepertoireGraph::from_lines(&lines(&[("e4", 3), ("e4 e5", 2), ("d4", 0)])).unwrap();
    let root = graph.root();
    assert_eq!(graph.games(), 5);
    assert_eq!(graph.children_of(root), pairs(&[("e4", 5)]));
    let e4 = graph.child_on(root, "e4").unwrap();
    assert_eq!(graph.children_of(e4), pairs(&[("e5", 2)]));
    let none = RepertoireGraph::from_lines(&Vec::new()).unwrap();
    assert_eq!(none.games(), 0);
    assert!(none.is_leaf(none.root()));
}

#[test]
fn from_lines_refuses_more_games_than_it_can_count() {
    assert!(RepertoireGraph::from_lines(&lines(&[("e4", u64::MAX), ("d4", 1)])).is_none());
    assert!(RepertoireGraph::from_lines(&lines(&[("e4", 1), ("d4", u64::MAX)])).is_none());
    assert!(
        RepertoireGraph::from_lines(&lines(&[("e4", u64::MAX / 2 + 1), ("d4", u64::MAX / 2 + 1)]))
            .is_none()
    );
}

#[test]
fn lines_lose_no_count() {
    let games = vec![
        game("e4 e5 Nf3"),
        game("e4 e5 Nf3 Nc6"),
        game("d4 d5"),
        game("e4"),
        game("e4 c5 Nf3"),
        game("e4 e5 Nf3"),
        game(""),
    ];
    let graph = RepertoireGraph::build(&games);
    let copy = RepertoireGraph::from_lines(&graph.to_lines()).unwrap();
    assert_eq!(copy.games(), graph.games());
    let all = ["", "e4", "e4 e5", "e4 e5 Nf3", "e4 e5 Nf3 Nc6", "e4 c5", "e4 c5 Nf3", "d4", "d4 d5"];
    for line in all {
        let path = game(line);
        let a = graph.find_path(graph.root(), &path).unwrap();
        let b = copy.find_path(copy.root(), &path).unwrap();
        let mut ka = graph.children_of(a);
        let mut kb = copy.children_of(b);
        ka.sort();
        kb.sort();
        assert_eq!(ka, kb);
    }
    assert!(copy.find_path(copy.root(), &game("c4")).is_none());
    let mut first = graph.to_lines();
    let mut second = copy.to_lines();
    first.sort();
    second.sort();
    assert_eq!(first, second);
}
