use chess_driller::graph::RepertoireGraph;
use chess_driller::ingest::parse_game;
use chess_driller::store::{read_repertoire, read_settings, write_repertoire, write_settings};

fn lines(list: &[(&str, u64)]) -> Vec<(Vec<String>, u64)> {
    list.iter().map(|(line, games)| (parse_game(line), *games)).collect()
}

fn names(list: &[&str]) -> Vec<String> {
    list.iter().map(|name| name.to_string()).collect()
}

#[test]
fn repertoire_is_written_row_by_row() {
    assert_eq!(
        write_repertoire(&lines(&[("e4 e5", 3), ("", 2), ("d4", 120)])),
        "3 e4 e5 \n2 \n120 d4 \n"
    );
    assert_eq!(write_repertoire(&Vec::new()), "");
    assert_eq!(write_repertoire(&lines(&[("Nf3", 0)])), "0 Nf3 \n");
    assert_eq!(
        write_repertoire(&lines(&[("O-O-O", u64::MAX)])),
        "18446744073709551615 O-O-O \n"
    );
}

#[test]
fn repertoire_is_read_row_by_row() {
    assert_eq!(
        read_repertoire("3 e4 e5 \n2 \n120 d4 \n"),
        Some(lines(&[("e4 e5", 3), ("", 2), ("d4", 120)]))
    );
    assert_eq!(read_repertoire(""), Some(Vec::new()));
    assert_eq!(read_repertoire("007 e4 \n"), Some(lines(&[("e4", 7)])));
    assert_eq!(
        read_repertoire("18446744073709551615 e4 \n"),
        Some(lines(&[("e4", u64::MAX)]))
    );
    assert_eq!(
        read_repertoire("1  e4 \n"),
        Some(vec![(vec![String::new(), "e4".to_string()], 1)])
    );
}

#[test]
fn repertoire_text_that_was_not_written_is_refused() {
    assert_eq!(read_repertoire("3 e4 e5 "), None);
    assert_eq!(read_repertoire("3 e4 e5\n"), None);
    assert_eq!(read_repertoire("3\n"), None);
    assert_eq!(read_repertoire("\n"), None);
    assert_eq!(read_repertoire(" e4 \n"), None);
    assert_eq!(read_repertoire("x e4 \n"), None);
    assert_eq!(read_repertoire("3x e4 \n"), None);
    assert_eq!(read_repertoire("-3 e4 \n"), None);
    assert_eq!(read_repertoire("18446744073709551616 e4 \n"), None);
    assert_eq!(read_repertoire("99999999999999999999999 e4 \n"), None);
    assert_eq!(read_repertoire("3 é4 \n"), None);
    assert_eq!(read_repertoire("3 e4 \n2 d4 \nrest"), None);
}

#[test]
fn repertoire_comes_back_from_its_text() {
    let games = vec![
        parse_game("e4 e5 Nf3"),
        parse_game("e4 e5 Nf3 Nc6"),
        parse_game("d4 d5"),
        parse_game("e4 e5 Qh5 Nc6 Bc4 Nf6 Qxf7#"),
        parse_game("e4"),
        parse_game(""),
        parse_game("d4 d5"),
    ];
    let graph = RepertoireGraph::build(&games);
    let kept = graph.to_lines();
    let text = write_repertoire(&kept);
    assert_eq!(read_repertoire(&text), Some(kept.clone()));
    let again = RepertoireGraph::from_lines(&read_repertoire(&text).unwrap()).unwrap();
    assert_eq!(again.games(), 7);
    assert_eq!(again.to_lines().len(), kept.len());
    assert_eq!(
        again.children_of(again.root()),
        vec![("e4".to_string(), 4), ("d4".to_string(), 2)]
    );
}

#[test]
fn settings_are_written_place_first() {
    assert_eq!(
        write_settings(&Some("games/openings.db".to_string()), &names(&["alice", "bob"])),
        "+games/openings.db\nalice\nbob\n"
    );
    assert_eq!(write_settings(&None, &names(&["alice"])), "-\nalice\n");
    assert_eq!(write_settings(&None, &Vec::new()), "-\n");
    assert_eq!(write_settings(&Some(String::new()), &Vec::new()), "+\n");
}

#[test]
fn settings_come_back_from_their_text() {
    assert_eq!(
        read_settings("+games/openings.db\nalice\nbob\n"),
        Some((Some("games/openings.db".to_string()), names(&["alice", "bob"])))
    );
    assert_eq!(read_settings("-\nalice\n"), Some((None, names(&["alice"]))));
    assert_eq!(read_settings("-\n"), Some((None, Vec::new())));
    assert_eq!(read_settings("+\n\n"), Some((Some(String::new()), names(&[""]))));
    assert_eq!(read_settings("+-\n"), Some((Some("-".to_string()), Vec::new())));
    let place = Some("my db.txt".to_string());
    let accounts = names(&["a b", "+c", "-"]);
    assert_eq!(
        read_settings(&write_settings(&place, &accounts)),
        Some((place, accounts))
    );
}

#[test]
fn settings_text_that_was_not_written_is_refused() {
    assert_eq!(read_settings(""), None);
    assert_eq!(read_settings("\n"), None);
    assert_eq!(read_settings("alice\n"), None);
    assert_eq!(read_settings("--\n"), None);
    assert_eq!(read_settings("-"), None);
    assert_eq!(read_settings("+db\nalice"), None);
    assert_eq!(read_settings("+dé\n"), None);
}
