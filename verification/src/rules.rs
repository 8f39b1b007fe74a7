//! The rules of chess, as the `chess` crate knows them.
//!
//! Nothing in this module is proved. Each function hands one question to the
//! `chess` crate, and its contract gives the answer a name, so that the
//! verified code that asks can say what it does with the answer. A board is
//! carried as the crate's own `Board`; squares, pieces and moves cross the
//! border as the plain values of [`crate::moves`].

use crate::moves::{Move, PieceKind};
use vstd::prelude::*;

verus! {

/// A position of `chess`: opaque here, and only ever handed back to `chess`.
#[verifier::external_type_specification]
#[verifier::external_body]
pub struct ExBoard(chess::Board);

/// The error of `chess`: opaque here.
#[verifier::external_type_specification]
#[verifier::external_body]
pub struct ExRulesError(chess::Error);

/// The position as `chess` prints it: its FEN text.
pub uninterp spec fn placement(board: chess::Board) -> Seq<char>;

/// The kind of the piece that stands on a square, if one does.
pub uninterp spec fn piece_at(board: chess::Board, square: u8) -> Option<PieceKind>;

/// The legal moves of the side to move, in the order in which `chess`
/// generates them.
pub uninterp spec fn legal_moves_on(board: chess::Board) -> Seq<Move>;

/// The position after a legal move.
pub uninterp spec fn after(board: chess::Board, mv: Move) -> chess::Board;

/// The number of pieces that give check to the side to move.
pub uninterp spec fn checks_on(board: chess::Board) -> nat;

/// The number of pieces that the side to move has on the board.
pub uninterp spec fn movers_on(board: chess::Board) -> nat;

/// The side to move has no more pieces than a side has in a game of chess.
/// The move generator of `chess` keeps room for so many and for no more.
pub open spec fn roomy(board: chess::Board) -> bool {
    movers_on(board) <= 16
}

/// The move that `chess` reads a text as, if it reads it as a move of the
/// position.
pub uninterp spec fn san_move_on(board: chess::Board, text: Seq<char>) -> Option<Move>;

/// The FEN text of the position in which a game of chess starts.
pub open spec fn start_text() -> Seq<char> {
    "rnbqkbnr/pppppppp/8/8/8/8/PPPPPPPP/RNBQKBNR w KQkq - 0 1"@
}

/// `Board::default`: the position in which a game starts. `chess` builds it
/// from the FEN text above and prints it as that text again.
#[verifier::external_body]
pub(crate) fn start_board() -> (board: chess::Board)
    ensures
        placement(board) == start_text(),
{
    chess::Board::default()
}

/// `Board`'s `Display`, through `to_string`: the FEN text of the position.
#[verifier::external_body]
pub(crate) fn position_text(board: &chess::Board) -> (text: String)
    ensures
        text@ == placement(*board),
{
    board.to_string()
}

/// `Board::piece_on`: the kind of the piece on a square, if any. The square
/// is picked from `ALL_SQUARES`, which holds square `i` at index `i`, and
/// `Piece::to_index` counts the kinds in the order of `PieceKind`.
#[verifier::external_body]
pub(crate) fn piece_on(board: &chess::Board, square: u8) -> (piece: Option<PieceKind>)
    requires
        square < 64,
    ensures
        piece == piece_at(*board, square),
{
    board
        .piece_on(chess::ALL_SQUARES[square as usize])
        .map(|p| PieceKind::from_index(p.to_index() as u8))
}

/// `Board::color_combined` of `Board::side_to_move`, counted with
/// `BitBoard::popcnt`: how many pieces the side to move has.
#[verifier::external_body]
pub(crate) fn count_movers(board: &chess::Board) -> (count: u32)
    ensures
        count == movers_on(*board),
{
    board.color_combined(board.side_to_move()).popcnt()
}

/// `MoveGen::new_legal`, run to its end: every legal move of the side to
/// move. `Piece::to_index` counts the kinds in the order of `PieceKind`, and
/// `Square::to_int` is the index of the square, which is below 64. The
/// generator lists the pieces that can move in a list of 18 places and does
/// not look whether one is left; 16 pieces and two pawns that take in
/// passing fit, and a board with more pieces to move is left out.
#[verifier::external_body]
pub(crate) fn legal_moves(board: &chess::Board) -> (moves: Vec<Move>)
    requires
        roomy(*board),
    ensures
        moves@ == legal_moves_on(*board),
        forall|i: int| 0 <= i < moves.len() ==> (#[trigger] moves[i]).wf(),
{
    chess::MoveGen::new_legal(board).map(|m| Move {
        from: m.get_source().to_int(),
        to: m.get_dest().to_int(),
        promotion: m.get_promotion().map(|p| PieceKind::from_index(p.to_index() as u8)),
    }).collect()
}

/// `Board::make_move_new`: the position after a move. `chess` panics on a
/// move that takes a king or starts from an empty square; a legal move does
/// neither, and its squares are on the board. The piece of a promotion is
/// picked from `ALL_PIECES`, which holds the kinds in the order of
/// `PieceKind`.
#[verifier::external_body]
pub(crate) fn advance(board: &chess::Board, mv: Move) -> (next: chess::Board)
    requires
        legal_moves_on(*board).contains(mv),
    ensures
        next == after(*board, mv),
{
    board.make_move_new(chess::ChessMove::new(
        chess::ALL_SQUARES[mv.from as usize],
        chess::ALL_SQUARES[mv.to as usize],
        mv.promotion.map(|k| chess::ALL_PIECES[k.index() as usize]),
    ))
}

/// `Board::checkers`, counted with `BitBoard::popcnt`: how many pieces give
/// check to the side to move.
#[verifier::external_body]
pub(crate) fn count_checks(board: &chess::Board) -> (count: u32)
    ensures
        count == checks_on(*board),
{
    board.checkers().popcnt()
}

/// `ChessMove::from_san`: the legal move that a text in algebraic notation
/// stands for. `chess` picks the move among those of `MoveGen::new_legal`,
/// so that it is one of them and its squares are on the board, and fails
/// where the text fits none of them or more than one. It runs the same
/// generator, so a board with more than 16 pieces to move is left out.
#[verifier::external_body]
pub(crate) fn resolve(board: &chess::Board, text: &str) -> (found: Result<Move, chess::Error>)
    requires
        roomy(*board),
    ensures
        found is Ok <==> san_move_on(*board, text@) is Some,
        found matches Ok(mv) ==> san_move_on(*board, text@) == Some(mv) && legal_moves_on(
            *board,
        ).contains(mv) && mv.wf(),
{
    match chess::ChessMove::from_san(board, text) {
        Ok(m) => Ok(Move {
            from: m.get_source().to_int(),
            to: m.get_dest().to_int(),
            promotion: m.get_promotion().map(|p| PieceKind::from_index(p.to_index() as u8)),
        }),
        Err(error) => Err(error),
    }
}

} // verus!
