//! From the record of a game to its moves.
//!
//! A record is text: moves in algebraic notation with blanks between them,
//! and among them, as records go, move numbers and a result. A move starts
//! with a letter, and nothing else in a record does.

use vstd::prelude::*;

verus! {

/// One move of a game, in algebraic notation.
pub type MoveRecord = String;

/// One game: its moves in the order played.
pub type GameRecord = Vec<MoveRecord>;

/// A blank: what parts the words of a record.
pub open spec fn is_gap(c: char) -> bool {
    c == ' ' || c == '\n' || c == '\t' || c == '\r'
}

/// A letter of the Latin alphabet.
pub open spec fn is_letter(c: char) -> bool {
    ('a' <= c && c <= 'z') || ('A' <= c && c <= 'Z')
}

/// A word that stands for a move: one that starts with a letter.
pub open spec fn is_move_word(word: Seq<char>) -> bool {
    word.len() > 0 && is_letter(word[0])
}

/// A record read up to some point: the moves found, and the word that the
/// reading is in the middle of.
pub struct Reading {
    pub moves: Seq<Seq<char>>,
    pub word: Seq<char>,
}

/// The moves found once the word at hand has come to its end.
pub open spec fn closed(reading: Reading) -> Seq<Seq<char>> {
    if is_move_word(reading.word) {
        reading.moves.push(reading.word)
    } else {
        reading.moves
    }
}

/// The text read from its first character to its last.
pub open spec fn read(text: Seq<char>) -> Reading
    decreases text.len(),
{
    if text.len() == 0 {
        Reading { moves: Seq::empty(), word: Seq::empty() }
    } else if is_gap(text.last()) {
        Reading { moves: closed(read(text.drop_last())), word: Seq::empty() }
    } else {
        Reading {
            moves: read(text.drop_last()).moves,
            word: read(text.drop_last()).word.push(text.last()),
        }
    }
}

/// The moves of a record: its words that start with a letter, in order.
pub open spec fn moves_in(text: Seq<char>) -> Seq<Seq<char>> {
    closed(read(text))
}

fn gap(c: char) -> (yes: bool)
    ensures
        yes == is_gap(c),
{
    c == ' ' || c == '\n' || c == '\t' || c == '\r'
}

fn letter(c: char) -> (yes: bool)
    ensures
        yes == is_letter(c),
{
    ('a' <= c && c <= 'z') || ('A' <= c && c <= 'Z')
}

/// Reads the moves out of the record of one game.
pub fn parse_game(record: &str) -> (moves: GameRecord)
    ensures
        moves.deep_view() =~= moves_in(record@),
{
    let len = record.unicode_len();
    let mut moves: Vec<String> = Vec::new();
    let mut start: usize = 0;
    let mut i: usize = 0;
    while i < len
        invariant
            start <= i <= len,
            len == record@.len(),
            moves.deep_view() =~= read(record@.take(i as int)).moves,
            read(record@.take(i as int)).word =~= record@.subrange(start as int, i as int),
        decreases len - i,
    {
        let c = record.get_char(i);
        proof {
            assert(record@.take(i + 1).drop_last() =~= record@.take(i as int));
            assert(record@.take(i + 1).last() == c);
        }
        if gap(c) {
            if start < i && letter(record.get_char(start)) {
                let ghost before = moves.deep_view();
                moves.push(String::from_str(record.substring_char(start, i)));
                proof {
                    assert(moves.deep_view() =~= before.push(
                        record@.subrange(start as int, i as int),
                    ));
                }
            }
            start = i + 1;
        }
        i += 1;
    }
    proof {
        assert(record@.take(len as int) =~= record@);
    }
    if start < len && letter(record.get_char(start)) {
        let ghost before = moves.deep_view();
        moves.push(String::from_str(record.substring_char(start, len)));
        proof {
            assert(moves.deep_view() =~= before.push(record@.subrange(start as int, len as int)));
        }
    }
    moves
}

/// Reads the moves out of the records of many games, game by game.
pub fn parse_games(records: &Vec<String>) -> (games: Vec<GameRecord>)
    ensures
        games.len() == records.len(),
        forall|k: int|
            0 <= k < records.len() ==> (#[trigger] games.deep_view()[k]) =~= moves_in(records[k]@),
{
    let mut games: Vec<Vec<String>> = Vec::new();
    let mut k: usize = 0;
    while k < records.len()
        invariant
            k <= records.len(),
            games.len() == k,
            forall|j: int| 0 <= j < k ==> (#[trigger] games.deep_view()[j]) =~= moves_in(records[j]@),
        decreases records.len() - k,
    {
        let ghost before = games.deep_view();
        let game = parse_game(records[k].as_str());
        games.push(game);
        proof {
            assert(games.deep_view() =~= before.push(game.deep_view()));
        }
        k += 1;
    }
    games
}

} // verus!
