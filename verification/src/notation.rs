//! Algebraic notation: from a move to its text and back.
//!
//! The text of a move depends on the position only through a few facts:
//! which piece moves, whether it takes, whether another piece of its kind
//! could go to the same square, and whether the move gives check or mate.
//! [`to_notation`] asks the rules for those facts and [`san_of`] writes the
//! text from them. [`from_notation`] leaves the reading to the rules, after
//! taking out the marks that the rules do not read.

use crate::moves::{file_of, rank_of, Move, PieceKind};
use crate::rules::{
    advance, after, checks_on, count_checks, count_movers, legal_moves, legal_moves_on, piece_at,
    piece_on, resolve, roomy, san_move_on,
};
use vstd::prelude::*;

verus! {

/// What the text of a move depends on.
#[derive(Clone, Copy, Debug)]
pub struct MoveFacts {
    /// The kind of the piece that moves.
    pub piece: PieceKind,
    /// The square it leaves.
    pub from: u8,
    /// The square it goes to.
    pub to: u8,
    /// The piece a pawn becomes on the last rank.
    pub promotion: Option<PieceKind>,
    /// The move takes a piece.
    pub capture: bool,
    /// Another piece of the same kind could go to the same square.
    pub rival: bool,
    /// Such a piece stands on the same file.
    pub rival_on_file: bool,
    /// Such a piece stands on the same rank.
    pub rival_on_rank: bool,
    /// The move gives check.
    pub check: bool,
    /// The move gives mate.
    pub mate: bool,
}

/// A text that could not be read as a move of the position.
#[derive(Debug)]
pub struct NotationError {
    /// The text as it was given.
    pub notation: String,
}

/// The letter of a piece; a pawn has none.
pub open spec fn letter_text(kind: PieceKind) -> Seq<char> {
    match kind {
        PieceKind::Pawn => Seq::empty(),
        PieceKind::Knight => "N"@,
        PieceKind::Bishop => "B"@,
        PieceKind::Rook => "R"@,
        PieceKind::Queen => "Q"@,
        PieceKind::King => "K"@,
    }
}

/// The letter of a file.
pub open spec fn file_text(file: u8) -> Seq<char> {
    match file {
        0 => "a"@,
        1 => "b"@,
        2 => "c"@,
        3 => "d"@,
        4 => "e"@,
        5 => "f"@,
        6 => "g"@,
        _ => "h"@,
    }
}

/// The digit of a rank.
pub open spec fn rank_text(rank: u8) -> Seq<char> {
    match rank {
        0 => "1"@,
        1 => "2"@,
        2 => "3"@,
        3 => "4"@,
        4 => "5"@,
        5 => "6"@,
        6 => "7"@,
        _ => "8"@,
    }
}

/// The name of a square: file, then rank.
pub open spec fn square_text(square: u8) -> Seq<char> {
    file_text(file_of(square)) + rank_text(rank_of(square))
}

/// What tells the moving piece from its rivals: nothing where it has none,
/// else its file, or its rank where a rival shares the file, or both. A pawn
/// that takes always names its file.
pub open spec fn origin_text(facts: MoveFacts) -> Seq<char> {
    if facts.piece is Pawn {
        if facts.capture {
            file_text(file_of(facts.from))
        } else {
            Seq::empty()
        }
    } else if !facts.rival {
        Seq::empty()
    } else if !facts.rival_on_file {
        file_text(file_of(facts.from))
    } else if !facts.rival_on_rank {
        rank_text(rank_of(facts.from))
    } else {
        square_text(facts.from)
    }
}

/// The piece a pawn becomes, after an equals sign.
pub open spec fn promotion_text(promotion: Option<PieceKind>) -> Seq<char> {
    match promotion {
        Some(kind) => "="@ + letter_text(kind),
        None => Seq::empty(),
    }
}

/// The mark for mate or check.
pub open spec fn mark_text(facts: MoveFacts) -> Seq<char> {
    if facts.mate {
        "#"@
    } else if facts.check {
        "+"@
    } else {
        Seq::empty()
    }
}

/// A king that goes from the e-file to the g-file castles short.
pub open spec fn castles_short(facts: MoveFacts) -> bool {
    facts.piece is King && file_of(facts.from) == 4 && file_of(facts.to) == 6
}

/// A king that goes from the e-file to the c-file castles long.
pub open spec fn castles_long(facts: MoveFacts) -> bool {
    facts.piece is King && file_of(facts.from) == 4 && file_of(facts.to) == 2
}

/// The text of a move in algebraic notation.
pub open spec fn san_text(facts: MoveFacts) -> Seq<char> {
    if castles_short(facts) {
        "O-O"@ + mark_text(facts)
    } else if castles_long(facts) {
        "O-O-O"@ + mark_text(facts)
    } else {
        letter_text(facts.piece) + origin_text(facts) + (if facts.capture {
            "x"@
        } else {
            Seq::empty()
        }) + square_text(facts.to) + promotion_text(facts.promotion) + mark_text(facts)
    }
}

/// A character that decorates a move and says nothing of which move it is.
pub open spec fn is_mark(c: char) -> bool {
    c == '=' || c == '+' || c == '#'
}

/// The text without its marks.
pub open spec fn plain(text: Seq<char>) -> Seq<char>
    decreases text.len(),
{
    if text.len() == 0 {
        text
    } else if is_mark(text.last()) {
        plain(text.drop_last())
    } else {
        plain(text.drop_last()).push(text.last())
    }
}

/// `other` is a move of another piece of the same kind to the same square.
pub open spec fn is_rival(board: chess::Board, mv: Move, other: Move) -> bool {
    other.to == mv.to && other.from != mv.from && piece_at(board, other.from) == piece_at(
        board,
        mv.from,
    )
}

/// The facts of a move of `piece` on a board, as the rules give them.
pub open spec fn facts_of(board: chess::Board, mv: Move, piece: PieceKind) -> MoveFacts {
    let moves = legal_moves_on(board);
    let next = after(board, mv);
    MoveFacts {
        piece: piece,
        from: mv.from,
        to: mv.to,
        promotion: mv.promotion,
        capture: piece_at(board, mv.to) is Some || (piece is Pawn && file_of(mv.from) != file_of(
            mv.to,
        )),
        rival: exists|i: int| 0 <= i < moves.len() && is_rival(board, mv, #[trigger] moves[i]),
        rival_on_file: exists|i: int|
            0 <= i < moves.len() && is_rival(board, mv, #[trigger] moves[i]) && file_of(
                moves[i].from,
            ) == file_of(mv.from),
        rival_on_rank: exists|i: int|
            0 <= i < moves.len() && is_rival(board, mv, #[trigger] moves[i]) && rank_of(
                moves[i].from,
            ) == rank_of(mv.from),
        check: checks_on(next) > 0,
        mate: checks_on(next) > 0 && legal_moves_on(next).len() == 0,
    }
}

/// The move that a text stands for on a board: what the rules read the text
/// as once its marks are gone, and, where they read nothing, what they read
/// it as when it is marked as taking in passing. On a board that is not
/// roomy no text stands for a move.
pub open spec fn read_move(board: chess::Board, text: Seq<char>) -> Option<Move> {
    if !roomy(board) {
        None
    } else {
        match san_move_on(board, plain(text)) {
            Some(mv) => Some(mv),
            None => san_move_on(board, plain(text) + " e.p."@),
        }
    }
}

/// A move can be written on a board: the board is roomy, the move is legal
/// and moves a piece, and where it gives check the board after it is roomy
/// too, so that the rules can tell check from mate.
pub open spec fn writable(board: chess::Board, mv: Move) -> bool {
    &&& roomy(board)
    &&& legal_moves_on(board).contains(mv)
    &&& piece_at(board, mv.from) is Some
    &&& checks_on(after(board, mv)) > 0 ==> roomy(after(board, mv))
}

fn letter_str(kind: PieceKind) -> (text: &'static str)
    ensures
        text@ == letter_text(kind),
{
    proof {
        reveal_strlit("");
    }
    match kind {
        PieceKind::Pawn => "",
        PieceKind::Knight => "N",
        PieceKind::Bishop => "B",
        PieceKind::Rook => "R",
        PieceKind::Queen => "Q",
        PieceKind::King => "K",
    }
}

fn file_str(file: u8) -> (text: &'static str)
    ensures
        text@ == file_text(file),
{
    match file {
        0 => "a",
        1 => "b",
        2 => "c",
        3 => "d",
        4 => "e",
        5 => "f",
        6 => "g",
        _ => "h",
    }
}

fn rank_str(rank: u8) -> (text: &'static str)
    ensures
        text@ == rank_text(rank),
{
    match rank {
        0 => "1",
        1 => "2",
        2 => "3",
        3 => "4",
        4 => "5",
        5 => "6",
        6 => "7",
        _ => "8",
    }
}

/// Writes a move in algebraic notation from its facts.
pub fn san_of(facts: &MoveFacts) -> (text: String)
    ensures
        text@ =~= san_text(*facts),
{
    let mut text = String::new();
    let from_file = facts.from % 8;
    let to_file = facts.to % 8;
    let king = match facts.piece {
        PieceKind::King => true,
        _ => false,
    };
    let pawn = match facts.piece {
        PieceKind::Pawn => true,
        _ => false,
    };
    if king && from_file == 4 && to_file == 6 {
        text.append("O-O");
    } else if king && from_file == 4 && to_file == 2 {
        text.append("O-O-O");
    } else {
        text.append(letter_str(facts.piece));
        if pawn {
            if facts.capture {
                text.append(file_str(from_file));
            }
        } else if !facts.rival {
        } else if !facts.rival_on_file {
            text.append(file_str(from_file));
        } else if !facts.rival_on_rank {
            text.append(rank_str(facts.from / 8));
        } else {
            text.append(file_str(from_file));
            text.append(rank_str(facts.from / 8));
        }
        assert(text@ =~= letter_text(facts.piece) + origin_text(*facts));
        if facts.capture {
            text.append("x");
        }
        text.append(file_str(to_file));
        text.append(rank_str(facts.to / 8));
        assert(text@ =~= letter_text(facts.piece) + origin_text(*facts) + (if facts.capture {
            "x"@
        } else {
            Seq::empty()
        }) + square_text(facts.to));
        match facts.promotion {
            Some(kind) => {
                text.append("=");
                text.append(letter_str(kind));
            },
            None => {},
        }
        assert(text@ =~= letter_text(facts.piece) + origin_text(*facts) + (if facts.capture {
            "x"@
        } else {
            Seq::empty()
        }) + square_text(facts.to) + promotion_text(facts.promotion));
    }
    if facts.mate {
        text.append("#");
    } else if facts.check {
        text.append("+");
    }
    text
}

/// Takes the marks for promotion, check and mate out of a text.
pub fn strip(text: &str) -> (bare: String)
    ensures
        bare@ == plain(text@),
{
    let mut bare = String::new();
    let len = text.unicode_len();
    let mut i: usize = 0;
    while i < len
        invariant
            i <= len,
            len == text@.len(),
            bare@ == plain(text@.take(i as int)),
        decreases len - i,
    {
        let c = text.get_char(i);
        proof {
            assert(text@.take(i + 1).drop_last() =~= text@.take(i as int));
            assert(text@.take(i + 1).last() == c);
        }
        if c == '=' || c == '+' || c == '#' {
        } else {
            bare.append(text.substring_char(i, i + 1));
            assert(text@.subrange(i as int, i + 1) =~= seq![c]);
            assert(bare@ =~= plain(text@.take(i as int)).push(c));
        }
        i += 1;
    }
    proof {
        assert(text@.take(len as int) =~= text@);
    }
    bare
}

impl NotationError {
    /// The error in words.
    pub fn describe(&self) -> (message: String)
        ensures
            message@ == "no legal move is written "@ + self.notation@,
    {
        String::from_str("no legal move is written ").concat(self.notation.as_str())
    }
}

/// The text of a move on a board, or nothing where the move is not legal
/// there.
///
/// Nothing is returned either on a board that the rules cannot take: one
/// with more than 16 pieces to move, now or after a move that gives check.
/// And a legal move starts from a square that holds a piece; should the
/// rules ever hold a move legal and see no piece there, nothing is returned
/// for that move too.
pub fn to_notation(mv: Move, board: &chess::Board) -> (text: Option<String>)
    ensures
        text is Some <==> writable(*board, mv),
        text matches Some(san) ==> san@ =~= san_text(
            facts_of(*board, mv, piece_at(*board, mv.from)->0),
        ),
{
    if count_movers(board) > 16 {
        return None;
    }
    let moves = legal_moves(board);
    let mut legal = false;
    let mut i: usize = 0;
    while i < moves.len()
        invariant
            i <= moves.len(),
            legal <==> exists|j: int| 0 <= j < i && moves[j] == mv,
        decreases moves.len() - i,
    {
        if moves[i].same(&mv) {
            legal = true;
        }
        i += 1;
    }
    if !legal {
        return None;
    }
    let ghost at = choose|j: int| 0 <= j < moves.len() && moves[j] == mv;
    assert(moves[at].wf());
    let piece = match piece_on(board, mv.from) {
        Some(piece) => piece,
        None => {
            return None;
        },
    };
    let pawn = match piece {
        PieceKind::Pawn => true,
        _ => false,
    };
    let capture = piece_on(board, mv.to).is_some() || (pawn && mv.from % 8 != mv.to % 8);
    let mut rival = false;
    let mut rival_on_file = false;
    let mut rival_on_rank = false;
    let mut k: usize = 0;
    while k < moves.len()
        invariant
            k <= moves.len(),
            mv.wf(),
            moves@ == legal_moves_on(*board),
            forall|j: int| 0 <= j < moves.len() ==> (#[trigger] moves[j]).wf(),
            piece_at(*board, mv.from) == Some(piece),
            rival <==> exists|j: int| 0 <= j < k && is_rival(*board, mv, #[trigger] moves[j]),
            rival_on_file <==> exists|j: int|
                0 <= j < k && is_rival(*board, mv, #[trigger] moves[j]) && file_of(moves[j].from)
                    == file_of(mv.from),
            rival_on_rank <==> exists|j: int|
                0 <= j < k && is_rival(*board, mv, #[trigger] moves[j]) && rank_of(moves[j].from)
                    == rank_of(mv.from),
        decreases moves.len() - k,
    {
        let other = moves[k];
        assert(moves[k as int].wf());
        if other.to == mv.to && other.from != mv.from {
            let same_kind = match piece_on(board, other.from) {
                Some(kind) => kind == piece,
                None => false,
            };
            if same_kind {
                assert(is_rival(*board, mv, moves[k as int]));
                rival = true;
                if other.from % 8 == mv.from % 8 {
                    rival_on_file = true;
                }
                if other.from / 8 == mv.from / 8 {
                    rival_on_rank = true;
                }
            }
        }
        k += 1;
    }
    let next = advance(board, mv);
    let check = count_checks(&next) > 0;
    if check && count_movers(&next) > 16 {
        return None;
    }
    let mate = check && legal_moves(&next).len() == 0;
    let facts = MoveFacts {
        piece,
        from: mv.from,
        to: mv.to,
        promotion: mv.promotion,
        capture,
        rival,
        rival_on_file,
        rival_on_rank,
        check,
        mate,
    };
    assert(facts == facts_of(*board, mv, piece));
    Some(san_of(&facts))
}

/// The move that a text stands for on a board, or an error that holds the
/// text where it stands for none. Marks for promotion, check and mate are
/// not needed and not read, and a pawn that takes in passing need not say
/// so. On a board with more than 16 pieces to move every text is an error.
pub fn from_notation(notation: &str, board: &chess::Board) -> (found: Result<Move, NotationError>)
    ensures
        match read_move(*board, notation@) {
            Some(mv) => found == Ok::<Move, NotationError>(mv),
            None => found matches Err(error) && error.notation@ == notation@,
        },
        found matches Ok(mv) ==> legal_moves_on(*board).contains(mv) && mv.wf(),
{
    if count_movers(board) > 16 {
        return Err(NotationError { notation: String::from_str(notation) });
    }
    let bare = strip(notation);
    match resolve(board, bare.as_str()) {
        Ok(mv) => Ok(mv),
        Err(_) => {
            let marked = bare.concat(" e.p.");
            match resolve(board, marked.as_str()) {
                Ok(mv) => Ok(mv),
                Err(_) => Err(NotationError { notation: String::from_str(notation) }),
            }
        },
    }
}

} // verus!
