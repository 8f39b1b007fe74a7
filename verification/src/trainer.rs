//! The trainer: what the player's input does to the game on the screen.
//!
//! Between drills the player moves the pieces freely, and the trainer
//! records the moves as the line to drill from. In a drill every move of the
//! player goes to the session, and the session answers a move that is in
//! preparation with a reply of its own. The trainer decides; showing the
//! board and reading the mouse is left to whoever drives it.

use crate::corpus::{known, replies};
use crate::graph::RepertoireGraph;
use crate::moves::{rank_of, Color, Move, PieceKind};
use crate::notation::{facts_of, san_text, to_notation, writable, NotationError};
use crate::rules::{
    advance, after, legal_moves_on, piece_at, piece_on, placement, start_board, start_text,
};
use crate::session::{
    assess, choice, player_to_move, step_seed, stepped, used, DrillSession, MoveAssessment, Replay,
    ReplyPolicy,
};
use vstd::prelude::*;

verus! {

/// What came of an input.
#[derive(Debug, PartialEq, Eq)]
pub enum Outcome {
    /// Nothing changed.
    Ignored,
    /// A piece was picked: its square is selected.
    Selected,
    /// The move asked for is not legal; no piece has moved.
    Illegal,
    /// A move was played between drills and added to the line.
    Recorded { san: String },
    /// A move was handed to the drill, which found it in preparation or
    /// not, and may have replied.
    Drilled { san: String, assessment: MoveAssessment, reply: Option<String> },
}

/// The state of the trainer.
pub struct Trainer<'a> {
    graph: &'a RepertoireGraph,
    board: chess::Board,
    line: Vec<String>,
    session: Option<DrillSession<'a>>,
    selected: Option<u8>,
    policy: ReplyPolicy,
}

/// The move that a click asks for: from the selected square to the square
/// clicked, and no promotion.
pub open spec fn clicked(from: u8, to: u8) -> Move {
    Move { from: from, to: to, promotion: None }
}

/// The move that a drag asks for: from the square where the piece was picked
/// up to the square where it is put down, and a pawn that reaches the first
/// or the last rank becomes a queen.
pub open spec fn candidate(board: chess::Board, from: u8, to: u8) -> Move {
    Move {
        from: from,
        to: to,
        promotion: if piece_at(board, from) == Some(PieceKind::Pawn) && (rank_of(to) == 0
            || rank_of(to) == 7) {
            Some(PieceKind::Queen)
        } else {
            None
        },
    }
}

/// The text of a move that can be written.
pub open spec fn text_of(board: chess::Board, mv: Move) -> Seq<char> {
    san_text(facts_of(board, mv, piece_at(board, mv.from)->0))
}

/// The line of a drill after a move of the player and what the drill made
/// of it.
pub open spec fn drilled_line(
    line: Seq<Seq<char>>,
    san: Seq<char>,
    assessment: MoveAssessment,
    reply: Option<String>,
) -> Seq<Seq<char>> {
    if assessment == MoveAssessment::InPrep {
        match reply {
            Some(answer) => line.push(san).push(answer@),
            None => line.push(san),
        }
    } else {
        line
    }
}

/// The replay of a drill after a move of the player and what the drill made
/// of it: a move that the rules do not read leaves the board as it was.
pub open spec fn drilled_replay(
    replay: Replay,
    san: Seq<char>,
    assessment: MoveAssessment,
    reply: Option<String>,
) -> Replay {
    if assessment == MoveAssessment::InPrep {
        match reply {
            Some(answer) => stepped(stepped(replay, san), answer@),
            None => stepped(replay, san),
        }
    } else {
        replay
    }
}

/// The policy after a drill has been started with it.
fn advance_policy(policy: ReplyPolicy) -> (next: ReplyPolicy)
    ensures
        next == used(policy),
{
    match policy {
        ReplyPolicy::Weighted { seed } => ReplyPolicy::Weighted { seed: step_seed(seed) },
        ReplyPolicy::MostPlayed => ReplyPolicy::MostPlayed,
    }
}

impl<'a> Trainer<'a> {
    /// The trainer is sound: its graph is, its drill is a drill on that
    /// graph, and the selected square is on the board.
    pub closed spec fn wf(&self) -> bool {
        &&& self.graph.wf()
        &&& self.session matches Some(session) ==> session.wf() && session.graph() == self.graph
        &&& self.selected matches Some(square) ==> square < 64
    }

    /// The repertoire that drills are started on.
    pub closed spec fn graph(&self) -> &RepertoireGraph {
        self.graph
    }

    /// The board of the free game between drills.
    pub closed spec fn free_board(&self) -> chess::Board {
        self.board
    }

    /// The moves of the free game: the line that a drill starts from.
    pub closed spec fn line(&self) -> Seq<Seq<char>> {
        self.line.deep_view()
    }

    /// The drill, if one has been started.
    pub closed spec fn session(&self) -> Option<DrillSession<'a>> {
        self.session
    }

    /// The selected square, if one is.
    pub closed spec fn selected(&self) -> Option<u8> {
        self.selected
    }

    /// How a drill that is started picks its replies.
    pub closed spec fn policy(&self) -> ReplyPolicy {
        self.policy
    }

    /// The board to show: that of the drill while there is one, else that of
    /// the free game.
    pub open spec fn shown(&self) -> chess::Board {
        match self.session() {
            Some(session) => session.on_board(),
            None => self.free_board(),
        }
    }

    /// A trainer on a repertoire, with the pieces set up and no drill.
    pub fn new(graph: &'a RepertoireGraph) -> (trainer: Self)
        requires
            graph.wf(),
        ensures
            trainer.wf(),
            trainer.graph() == graph,
            placement(trainer.free_board()) == start_text(),
            trainer.line() =~= Seq::<Seq<char>>::empty(),
            trainer.session() is None,
            trainer.selected() is None,
            trainer.policy() == (ReplyPolicy::Weighted { seed: 0 }),
    {
        Trainer {
            graph,
            board: start_board(),
            line: Vec::new(),
            session: None,
            selected: None,
            policy: ReplyPolicy::Weighted { seed: 0 },
        }
    }

    /// Sets how the drills started from now on pick their replies: by
    /// weight from a given seed, or the most played.
    pub fn set_policy(&mut self, policy: ReplyPolicy)
        requires
            old(self).wf(),
        ensures
            final(self).wf(),
            final(self).policy() == policy,
            final(self).graph() == old(self).graph(),
            final(self).free_board() == old(self).free_board(),
            final(self).line() == old(self).line(),
            final(self).session() == old(self).session(),
            final(self).selected() == old(self).selected(),
    {
        self.policy = policy;
    }

    /// How a drill that is started picks its replies.
    pub fn reply_policy(&self) -> (policy: ReplyPolicy)
        ensures
            policy == self.policy(),
    {
        self.policy
    }

    /// The board to show.
    pub fn board(&self) -> (board: chess::Board)
        requires
            self.wf(),
        ensures
            board == self.shown(),
    {
        match &self.session {
            Some(session) => session.board(),
            None => self.board,
        }
    }

    /// The selected square, if one is.
    pub fn selected_square(&self) -> (square: Option<u8>)
        ensures
            square == self.selected(),
    {
        self.selected
    }

    /// The moves of the free game so far.
    pub fn recorded(&self) -> (moves: &Vec<String>)
        ensures
            moves.deep_view() == self.line(),
    {
        &self.line
    }

    /// Whether a drill has been started and not been discarded since.
    pub fn drilling(&self) -> (yes: bool)
        ensures
            yes == self.session() is Some,
    {
        self.session.is_some()
    }

    /// The move that broke the replay of the drill, if there is a drill and
    /// the rules could not read one of its moves. The board shown is the one
    /// before that move.
    pub fn fault(&self) -> (fault: Option<NotationError>)
        requires
            self.wf(),
        ensures
            match self.session() {
                Some(session) => match session.position().fault {
                    None => fault is None,
                    Some(text) => fault matches Some(error) && error.notation@ == text,
                },
                None => fault is None,
            },
    {
        match &self.session {
            Some(session) => session.fault(),
            None => None,
        }
    }

    /// Discards the drill and the free game: the pieces are set up again
    /// and the line is empty. The selection stays.
    pub fn reset(&mut self)
        requires
            old(self).wf(),
        ensures
            final(self).wf(),
            final(self).graph() == old(self).graph(),
            placement(final(self).free_board()) == start_text(),
            final(self).line() =~= Seq::<Seq<char>>::empty(),
            final(self).session() is None,
            final(self).selected() == old(self).selected(),
            final(self).policy() == old(self).policy(),
    {
        self.line = Vec::new();
        self.session = None;
        self.board = start_board();
    }

    /// Picks up the piece on a square, as at the start of a drag: the square
    /// is selected if a piece stands on it.
    pub fn pick_up(&mut self, square: u8) -> (outcome: Outcome)
        requires
            old(self).wf(),
        ensures
            final(self).wf(),
            final(self).graph() == old(self).graph(),
            final(self).free_board() == old(self).free_board(),
            final(self).line() == old(self).line(),
            final(self).session() == old(self).session(),
            final(self).policy() == old(self).policy(),
            if square < 64 && piece_at(old(self).shown(), square) is Some {
                outcome == Outcome::Selected && final(self).selected() == Some(square)
            } else {
                outcome == Outcome::Ignored && final(self).selected() == old(self).selected()
            },
    {
        if square >= 64 {
            return Outcome::Ignored;
        }
        let board = self.board();
        if piece_on(&board, square).is_some() {
            self.selected = Some(square);
            Outcome::Selected
        } else {
            Outcome::Ignored
        }
    }

    /// Plays a move, if it can be written on the board shown: in the free
    /// game it is made and recorded, in a drill it goes to the session,
    /// which replies to a move that is in preparation.
    fn try_move(&mut self, mv: Move) -> (outcome: Outcome)
        requires
            old(self).wf(),
        ensures
            final(self).wf(),
            final(self).graph() == old(self).graph(),
            final(self).selected() == old(self).selected(),
            final(self).policy() == old(self).policy(),
            moved(*old(self), *final(self), mv, outcome),
    {
        let board = self.board();
        let san = match to_notation(mv, &board) {
            Some(san) => san,
            None => {
                return Outcome::Illegal;
            },
        };
        match self.session.take() {
            None => {
                let ghost before = self.line.deep_view();
                self.board = advance(&self.board, mv);
                self.line.push(san.clone());
                proof {
                    assert(self.line.deep_view() =~= before.push(san@));
                }
                Outcome::Recorded { san }
            },
            Some(mut session) => {
                let assessment = session.apply_move(san.as_str());
                let reply = match assessment {
                    MoveAssessment::InPrep => session.make_move(),
                    _ => None,
                };
                self.session = Some(session);
                Outcome::Drilled { san, assessment, reply }
            },
        }
    }

    /// A click on a square. With no square selected, it selects the square
    /// if a piece stands there. With one selected, it asks for the move from
    /// there to here, without promotion: a legal move is played and the
    /// selection dropped, and after any other the square clicked is the
    /// selected one and nothing else has changed.
    pub fn click(&mut self, square: u8) -> (outcome: Outcome)
        requires
            old(self).wf(),
        ensures
            final(self).wf(),
            final(self).graph() == old(self).graph(),
            match old(self).selected() {
                _ if square >= 64 => outcome == Outcome::Ignored && *final(self) == *old(self),
                None => {
                    &&& final(self).free_board() == old(self).free_board()
                    &&& final(self).line() == old(self).line()
                    &&& final(self).session() == old(self).session()
                    &&& final(self).policy() == old(self).policy()
                    &&& if piece_at(old(self).shown(), square) is Some {
                        outcome == Outcome::Selected && final(self).selected() == Some(square)
                    } else {
                        outcome == Outcome::Ignored && final(self).selected() is None
                    }
                },
                Some(from) => {
                    &&& moved(*old(self), *final(self), clicked(from, square), outcome)
                    &&& final(self).policy() == old(self).policy()
                    &&& final(self).selected() == if outcome == Outcome::Illegal {
                        Some(square)
                    } else {
                        None
                    }
                },
            },
    {
        if square >= 64 {
            return Outcome::Ignored;
        }
        match self.selected {
            None => self.pick_up(square),
            Some(from) => {
                let outcome = self.try_move(Move { from, to: square, promotion: None });
                let illegal = match outcome {
                    Outcome::Illegal => true,
                    _ => false,
                };
                self.selected = if illegal {
                    Some(square)
                } else {
                    None
                };
                outcome
            },
        }
    }

    /// Puts the piece in hand down on a square, as at the end of a drag: the
    /// move from the selected square to this one is played if it is legal,
    /// with a pawn that reaches the first or the last rank made a queen, and
    /// the selection is dropped either way.
    pub fn put_down(&mut self, square: u8) -> (outcome: Outcome)
        requires
            old(self).wf(),
        ensures
            final(self).wf(),
            final(self).graph() == old(self).graph(),
            match old(self).selected() {
                Some(from) if square < 64 => {
                    &&& moved(
                        *old(self),
                        *final(self),
                        candidate(old(self).shown(), from, square),
                        outcome,
                    )
                    &&& final(self).selected() is None
                    &&& final(self).policy() == old(self).policy()
                },
                _ => outcome == Outcome::Ignored && *final(self) == *old(self),
            },
    {
        if square >= 64 {
            return Outcome::Ignored;
        }
        match self.selected {
            None => Outcome::Ignored,
            Some(from) => {
                let board = self.board();
                let pawn = match piece_on(&board, from) {
                    Some(PieceKind::Pawn) => true,
                    _ => false,
                };
                let promotion = if pawn && (square / 8 == 0 || square / 8 == 7) {
                    Some(PieceKind::Queen)
                } else {
                    None
                };
                let outcome = self.try_move(Move { from, to: square, promotion });
                self.selected = None;
                outcome
            },
        }
    }

    /// Starts a drill for a player of the given color from the line of the
    /// free game, unless a drill is still running. Where the repertoire does
    /// not know the line there is nothing to drill, and the free game goes
    /// on. A drill in which the player is not to move opens with a reply of
    /// the session. The drill picks its replies by the policy of the
    /// trainer, which moves on with every drill started, so that the next
    /// drill draws anew. The result tells whether there is a drill now.
    pub fn start(&mut self, color: Color) -> (drilling: bool)
        requires
            old(self).wf(),
        ensures
            final(self).wf(),
            final(self).graph() == old(self).graph(),
            final(self).free_board() == old(self).free_board(),
            final(self).line() == old(self).line(),
            final(self).selected() == old(self).selected(),
            drilling == final(self).session() is Some,
            match old(self).session() {
                Some(running) if !running.finished() && running.replies().len() > 0 => {
                    &&& final(self).session() == old(self).session()
                    &&& final(self).policy() == old(self).policy()
                },
                _ => {
                    &&& started(*old(self), final(self).session(), color)
                    &&& final(self).policy() == if final(self).session() is Some {
                        used(old(self).policy())
                    } else {
                        old(self).policy()
                    }
                },
            },
    {
        let running = match &self.session {
            Some(session) => session.still_running(),
            None => false,
        };
        if running {
            return true;
        }
        match self.graph.start_drill(color, &self.line) {
            Some(fresh) => {
                let mut session = fresh.with_policy(self.policy);
                self.policy = advance_policy(self.policy);
                if !session.is_player_turn() {
                    let _ = session.make_move();
                }
                self.session = Some(session);
                true
            },
            None => {
                self.session = None;
                false
            },
        }
    }
}

/// What asking for a move does to the trainer, apart from the selection.
pub open spec fn moved(before: Trainer, after_it: Trainer, mv: Move, outcome: Outcome) -> bool {
    let board = before.shown();
    if !writable(board, mv) {
        &&& outcome == Outcome::Illegal
        &&& after_it.free_board() == before.free_board()
        &&& after_it.line() == before.line()
        &&& after_it.session() == before.session()
    } else {
        match before.session() {
            None => {
                &&& outcome matches Outcome::Recorded { san }
                &&& san@ =~= text_of(board, mv)
                &&& after_it.free_board() == after(board, mv)
                &&& after_it.line() =~= before.line().push(san@)
                &&& after_it.session() is None
            },
            Some(drill) => {
                &&& outcome matches Outcome::Drilled { san, assessment, reply }
                &&& san@ =~= text_of(board, mv)
                &&& assessment == assess(before.graph()@, drill.line(), san@)
                &&& reply is Some <==> assessment == MoveAssessment::InPrep && replies(
                    before.graph()@,
                    drill.line().push(san@),
                ).len() > 0
                &&& reply matches Some(answer) ==> answer@ == replies(
                    before.graph()@,
                    drill.line().push(san@),
                )[choice(replies(before.graph()@, drill.line().push(san@)), drill.policy())].san
                &&& after_it.free_board() == before.free_board()
                &&& after_it.line() == before.line()
                &&& after_it.session() matches Some(next)
                &&& next.graph() == drill.graph()
                &&& next.origin() == drill.origin()
                &&& next.live() == next.on_board()
                &&& next.position() == drilled_replay(drill.position(), san@, assessment, reply)
                &&& next.line() =~= drilled_line(drill.line(), san@, assessment, reply)
                &&& next.color() == drill.color()
                &&& next.finished() == (drill.finished() || assessment == MoveAssessment::EndOfLine)
                &&& next.policy() == if reply is Some {
                    used(drill.policy())
                } else {
                    drill.policy()
                }
            },
        }
    }
}

/// A click for a move that is not legal plays nothing: board, line and drill
/// are as they were, and the outcome says so. A click asks for no promotion,
/// so a pawn clicked onto the last rank plays nothing either.
pub proof fn lemma_illegal_click_plays_nothing(
    before: Trainer,
    after_it: Trainer,
    from: u8,
    square: u8,
    outcome: Outcome,
)
    requires
        moved(before, after_it, clicked(from, square), outcome),
        !legal_moves_on(before.shown()).contains(clicked(from, square)),
    ensures
        outcome == Outcome::Illegal,
        after_it.free_board() == before.free_board(),
        after_it.line() == before.line(),
        after_it.session() == before.session(),
        after_it.shown() == before.shown(),
{
}

/// The drill that a start gives: none where the repertoire does not know
/// the line of the free game; else one on that line, or one reply further
/// where the player is not to move and the line has a reply.
pub open spec fn started(before: Trainer, session: Option<DrillSession>, color: Color) -> bool {
    let line = before.line();
    let kids = replies(before.graph()@, line);
    if !known(before.graph()@, line) {
        session is None
    } else {
        &&& session matches Some(drill)
        &&& drill.graph() == before.graph()
        &&& placement(drill.origin()) == start_text()
        &&& drill.live() == drill.on_board()
        &&& drill.color() == color
        &&& !drill.finished()
        &&& if player_to_move(color, line.len()) || kids.len() == 0 {
            &&& drill.line() =~= line
            &&& drill.policy() == before.policy()
        } else {
            &&& drill.line() =~= line.push(kids[choice(kids, before.policy())].san)
            &&& drill.policy() == used(before.policy())
        }
    }
}

} // verus!
