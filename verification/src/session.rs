//! A drill: one walk through the repertoire, move by move.
//!
//! A session points at a node of the graph it was started on and records the
//! moves that led there. Its board is the position that those moves give
//! from the starting position. Where the rules cannot read one of them, the
//! board is left as it was, the session keeps the move as its fault, and
//! goes on following the graph.

use crate::corpus::{
    follows, has_reply, known, lemma_follows_shorter, lemma_replies, lemma_total_take, passes,
    replies, total, Reply,
};
use crate::graph::{listed, NodeId, RepertoireGraph};
use crate::moves::Color;
use crate::notation::{from_notation, read_move, NotationError};
use crate::rules::{advance, after, placement, position_text, start_board, start_text};
use vstd::prelude::*;

verus! {

/// What a move is to the repertoire.
#[derive(Clone, Copy, PartialEq, Eq, Debug, Structural)]
pub enum MoveAssessment {
    /// The move is a known reply; the session has followed it.
    InPrep,
    /// The line has known replies and the move is none of them.
    Deviated,
    /// The line has no known reply at all: the drill is over.
    EndOfLine,
}

/// How the session picks the reply it plays itself.
#[derive(Clone, Copy, PartialEq, Eq, Debug, Structural)]
pub enum ReplyPolicy {
    /// A reply is drawn with a chance in proportion to its visit count. The
    /// seed decides the draw and moves on with it.
    Weighted { seed: u64 },
    /// The reply with the most visits, and of several the one first played.
    MostPlayed,
}

/// A practice session on a repertoire graph.
pub struct DrillSession<'a> {
    graph: &'a RepertoireGraph,
    node: NodeId,
    line: Vec<String>,
    board: chess::Board,
    fault: Option<NotationError>,
    color: Color,
    finished: bool,
    policy: ReplyPolicy,
    origin: Ghost<chess::Board>,
}

/// Whose turn it is after `ply` moves: the player's when the number is even
/// and the player has White, or odd and the player has Black.
pub open spec fn player_to_move(color: Color, ply: nat) -> bool {
    (ply % 2 == 0) == (color is White)
}

/// What a move is to the corpus after a line.
pub open spec fn assess(
    games: Seq<Seq<Seq<char>>>,
    line: Seq<Seq<char>>,
    san: Seq<char>,
) -> MoveAssessment {
    if has_reply(replies(games, line), san) {
        MoveAssessment::InPrep
    } else if replies(games, line).len() > 0 {
        MoveAssessment::Deviated
    } else {
        MoveAssessment::EndOfLine
    }
}

/// Where a replay stands: the board, and the move that broke the replay if
/// one did.
pub struct Replay {
    pub board: chess::Board,
    pub fault: Option<Seq<char>>,
}

/// A replay one move on. The move is played on the board where the rules
/// can read it there. Where they cannot, the board is left as it was and the
/// move is kept as the fault; and once there is a fault, nothing changes any
/// more.
pub open spec fn stepped(before: Replay, san: Seq<char>) -> Replay {
    match before.fault {
        Some(_) => before,
        None => match read_move(before.board, san) {
            Some(mv) => Replay { board: after(before.board, mv), fault: None },
            None => Replay { board: before.board, fault: Some(san) },
        },
    }
}

/// The replay of a line from `origin`: the position that the line gives, or
/// the position before the first move that the rules cannot read, with that
/// move.
pub open spec fn replay(origin: chess::Board, line: Seq<Seq<char>>) -> Replay
    decreases line.len(),
{
    if line.len() == 0 {
        Replay { board: origin, fault: None }
    } else {
        stepped(replay(origin, line.drop_last()), line.last())
    }
}

/// A move that the rules do not read changes no board: the replay keeps the
/// board it had and takes the move as its fault, unless it has one already.
pub proof fn lemma_unread_move_keeps_board(before: Replay, san: Seq<char>)
    requires
        read_move(before.board, san) is None,
    ensures
        stepped(before, san).board == before.board,
        stepped(before, san).fault is Some,
        before.fault is None ==> stepped(before, san).fault == Some(san),
{
}

/// The seed after a draw.
pub open spec fn next_seed(seed: u64) -> u64 {
    ((seed * 6364136223846793005 + 1442695040888963407) % 0x1_0000_0000_0000_0000) as u64
}

/// The ticket that a seed draws among `sum` visits: the upper half of the
/// next seed, brought below `sum`.
pub open spec fn ticket(seed: u64, sum: nat) -> nat {
    ((next_seed(seed) / 0x1_0000_0000) as nat) % sum
}

/// Reply `i` is the one that the policy picks among `kids`.
pub open spec fn picks(kids: Seq<Reply>, policy: ReplyPolicy, i: int) -> bool {
    &&& 0 <= i < kids.len()
    &&& match policy {
        ReplyPolicy::Weighted { seed } => total(kids.take(i)) <= ticket(seed, total(kids)) < total(
            kids.take(i + 1),
        ),
        ReplyPolicy::MostPlayed => {
            &&& forall|j: int| 0 <= j < kids.len() ==> kids[j].visits <= kids[i].visits
            &&& forall|j: int| 0 <= j < i ==> kids[j].visits < kids[i].visits
        },
    }
}

/// The reply that the policy picks among `kids`.
pub open spec fn choice(kids: Seq<Reply>, policy: ReplyPolicy) -> int {
    choose|i: int| picks(kids, policy, i)
}

/// The policy after it has picked a reply.
pub open spec fn used(policy: ReplyPolicy) -> ReplyPolicy {
    match policy {
        ReplyPolicy::Weighted { seed } => ReplyPolicy::Weighted { seed: next_seed(seed) },
        ReplyPolicy::MostPlayed => ReplyPolicy::MostPlayed,
    }
}

/// The total of the first replies grows with their number.
pub proof fn lemma_total_grows(kids: Seq<Reply>, i: int, j: int)
    requires
        0 <= i <= j <= kids.len(),
    ensures
        total(kids.take(i)) <= total(kids.take(j)),
{
    assert(kids.take(j).take(i) =~= kids.take(i));
    lemma_total_take(kids.take(j), i);
}

/// A policy picks at most one reply.
pub proof fn lemma_one_choice(kids: Seq<Reply>, policy: ReplyPolicy, i: int, j: int)
    requires
        picks(kids, policy, i),
        picks(kids, policy, j),
    ensures
        i == j,
        choice(kids, policy) == i,
{
    if i < j {
        lemma_total_grows(kids, i + 1, j);
    }
    if j < i {
        lemma_total_grows(kids, j + 1, i);
    }
    let c = choice(kids, policy);
    if c < i {
        lemma_total_grows(kids, c + 1, i);
    }
    if i < c {
        lemma_total_grows(kids, i + 1, c);
    }
}

/// Turns alternate: whoever is to move after some number of moves is not to
/// move after one more, whatever color the player has. With White the
/// player moves first, with Black second.
pub proof fn lemma_turns_alternate(color: Color, ply: nat)
    ensures
        player_to_move(color, ply + 1) == !player_to_move(color, ply),
        player_to_move(Color::White, 0),
        player_to_move(Color::Black, 1),
        !player_to_move(Color::Black, 0),
        !player_to_move(Color::White, 1),
{
}

/// A game of the corpus is counted on every line it starts with.
pub proof fn lemma_member_passes(games: Seq<Seq<Seq<char>>>, k: int, path: Seq<Seq<char>>)
    requires
        0 <= k < games.len(),
        follows(games[k], path),
    ensures
        passes(games, path) > 0,
    decreases games.len(),
{
    if k < games.len() - 1 {
        lemma_member_passes(games.drop_last(), k, path);
    }
}

/// Every move of an ingested game is in preparation where the game plays it:
/// after the moves before it, it is a known reply.
pub proof fn lemma_ingested_game_in_prep(games: Seq<Seq<Seq<char>>>, k: int, i: int)
    requires
        0 <= k < games.len(),
        0 <= i < games[k].len(),
    ensures
        assess(games, games[k].take(i), games[k][i]) == MoveAssessment::InPrep,
        known(games, games[k].take(i)),
{
    let game = games[k];
    let before = game.take(i);
    assert(before.push(game[i]) =~= game.take(i + 1));
    assert(follows(game, game)) by {
        assert(game.take(game.len() as int) =~= game);
    }
    lemma_follows_shorter(game, game, i + 1);
    lemma_follows_shorter(game, game, i);
    lemma_member_passes(games, k, game.take(i + 1));
    lemma_member_passes(games, k, before);
    lemma_replies(games, before);
    assert(has_reply(replies(games, before), game[i]) <==> passes(games, before.push(game[i])) > 0);
}

/// What a session holds of a replay.
spec fn held(board: chess::Board, fault: Option<NotationError>) -> Replay {
    Replay {
        board: board,
        fault: match fault {
            Some(error) => Some(error.notation@),
            None => None,
        },
    }
}

/// The board and the fault one move on.
fn step_board(board: &chess::Board, fault: &Option<NotationError>, notation: &str) -> (next: (
    chess::Board,
    Option<NotationError>,
))
    ensures
        held(next.0, next.1) == stepped(held(*board, *fault), notation@),
{
    match fault {
        Some(error) => (*board, Some(NotationError { notation: error.notation.clone() })),
        None => match from_notation(notation, board) {
            Ok(mv) => (advance(board, mv), None),
            Err(error) => (*board, Some(error)),
        },
    }
}

/// The seed after a draw.
pub fn step_seed(seed: u64) -> (next: u64)
    ensures
        next == next_seed(seed),
{
    let wide: u128 = (seed as u128 * 6364136223846793005u128 + 1442695040888963407u128)
        % 0x1_0000_0000_0000_0000u128;
    wide as u64
}

/// The reply that the policy picks among the children of a node.
fn pick(children: &Vec<(String, u64)>, policy: ReplyPolicy) -> (i: usize)
    requires
        children.len() > 0,
        total(listed(children@)) <= u64::MAX,
        forall|j: int| 0 <= j < children.len() ==> (#[trigger] children[j]).1 >= 1,
    ensures
        picks(listed(children@), policy, i as int),
{
    let ghost kids = listed(children@);
    match policy {
        ReplyPolicy::Weighted { seed } => {
            let mut sum: u64 = 0;
            let mut n: usize = 0;
            while n < children.len()
                invariant
                    n <= children.len(),
                    kids == listed(children@),
                    total(kids) <= u64::MAX,
                    sum == total(kids.take(n as int)),
                decreases children.len() - n,
            {
                proof {
                    lemma_total_take(kids, n + 1);
                    assert(kids.take(n + 1).drop_last() =~= kids.take(n as int));
                }
                sum = sum + children[n].1;
                n += 1;
            }
            proof {
                assert(kids.take(n as int) =~= kids);
                assert(kids.take(1).drop_last() =~= kids.take(0));
                assert(total(kids.take(0)) == 0);
                lemma_total_take(kids, 1);
            }
            let drawn: u64 = (step_seed(seed) / 0x1_0000_0000u64) % sum;
            assert(drawn == ticket(seed, total(kids)));
            let mut i: usize = 0;
            let mut upto: u64 = children[0].1;
            while drawn >= upto
                invariant
                    i < children.len(),
                    kids == listed(children@),
                    total(kids) <= u64::MAX,
                    drawn < total(kids),
                    upto == total(kids.take(i + 1)),
                    total(kids.take(i as int)) <= drawn,
                decreases children.len() - i,
            {
                proof {
                    if i + 1 == children.len() {
                        assert(kids.take(i + 1) =~= kids);
                    }
                    lemma_total_take(kids, i + 2);
                    assert(kids.take(i + 2).drop_last() =~= kids.take(i + 1));
                }
                i += 1;
                upto = upto + children[i].1;
            }
            i
        },
        ReplyPolicy::MostPlayed => {
            let mut best: usize = 0;
            let mut n: usize = 1;
            while n < children.len()
                invariant
                    1 <= n <= children.len(),
                    best < n,
                    kids == listed(children@),
                    forall|j: int| 0 <= j < n ==> kids[j].visits <= kids[best as int].visits,
                    forall|j: int| 0 <= j < best ==> kids[j].visits < kids[best as int].visits,
                decreases children.len() - n,
            {
                if children[n].1 > children[best].1 {
                    best = n;
                }
                n += 1;
            }
            best
        },
    }
}

impl RepertoireGraph {
    /// Starts a drill at the end of `opening_moves`, for a player of the
    /// given color. There is nothing to drill, and nothing is returned,
    /// where the graph does not know the line; the empty line is always
    /// known. The session draws its own replies by weight, from seed 0.
    pub fn start_drill<'a>(&'a self, player_color: Color, opening_moves: &Vec<String>) -> (started:
        Option<DrillSession<'a>>)
        requires
            self.wf(),
        ensures
            started is Some <==> known(self@, opening_moves.deep_view()),
            opening_moves.len() == 0 ==> started is Some,
            started matches Some(session) ==> {
                &&& session.wf()
                &&& session.graph() == self
                &&& session.line() =~= opening_moves.deep_view()
                &&& session.color() == player_color
                &&& !session.finished()
                &&& session.policy() == ReplyPolicy::Weighted { seed: 0 }
                &&& placement(session.origin()) == start_text()
                &&& session.live() == session.on_board()
            },
    {
        let root = self.root();
        let node = match self.find_path(root, opening_moves) {
            Some(node) => node,
            None => {
                proof {
                    assert(Seq::<Seq<char>>::empty() + opening_moves.deep_view()
                        =~= opening_moves.deep_view());
                }
                return None;
            },
        };
        proof {
            assert(Seq::<Seq<char>>::empty() + opening_moves.deep_view()
                =~= opening_moves.deep_view());
        }
        let origin = start_board();
        let mut board = origin;
        let mut fault: Option<NotationError> = None;
        let mut line: Vec<String> = Vec::new();
        let mut i: usize = 0;
        while i < opening_moves.len()
            invariant
                i <= opening_moves.len(),
                line.deep_view() =~= opening_moves.deep_view().take(i as int),
                held(board, fault) == replay(origin, line.deep_view()),
            decreases opening_moves.len() - i,
        {
            let next = step_board(&board, &fault, opening_moves[i].as_str());
            proof {
                assert(line.deep_view().push(opening_moves[i as int]@).drop_last()
                    =~= line.deep_view());
                assert(line.deep_view().push(opening_moves[i as int]@)
                    =~= opening_moves.deep_view().take(i + 1));
            }
            board = next.0;
            fault = next.1;
            line.push(opening_moves[i].clone());
            proof {
                assert(line.deep_view() =~= opening_moves.deep_view().take(i + 1));
            }
            i += 1;
        }
        proof {
            assert(opening_moves.deep_view().take(i as int) =~= opening_moves.deep_view());
        }
        Some(
            DrillSession {
                graph: self,
                node,
                line,
                board,
                fault,
                color: player_color,
                finished: false,
                policy: ReplyPolicy::Weighted { seed: 0 },
                origin: Ghost(origin),
            },
        )
    }
}

impl<'a> DrillSession<'a> {
    /// The session is sound: it points at the node of its line, its board is
    /// the replay of its line from the starting position, and it is finished
    /// only at a line without replies.
    pub closed spec fn wf(&self) -> bool {
        &&& self.graph.wf()
        &&& self.graph.has_node(self.node)
        &&& self.graph.path_of(self.node) =~= self.line.deep_view()
        &&& placement(self.origin@) == start_text()
        &&& held(self.board, self.fault) == replay(self.origin@, self.line.deep_view())
        &&& self.finished ==> replies(self.graph@, self.line.deep_view()).len() == 0
    }

    /// The graph that the session walks.
    pub closed spec fn graph(&self) -> &RepertoireGraph {
        self.graph
    }

    /// The moves played so far, the opening moves included.
    pub closed spec fn line(&self) -> Seq<Seq<char>> {
        self.line.deep_view()
    }

    /// The color that the player drills.
    pub closed spec fn color(&self) -> Color {
        self.color
    }

    /// The session has run into the end of a line.
    pub closed spec fn finished(&self) -> bool {
        self.finished
    }

    /// How the session picks its own replies.
    pub closed spec fn policy(&self) -> ReplyPolicy {
        self.policy
    }

    /// The position in which the session started to replay: the starting
    /// position of chess.
    pub closed spec fn origin(&self) -> chess::Board {
        self.origin@
    }

    /// Where the replay of the line stands.
    pub open spec fn position(&self) -> Replay {
        replay(self.origin(), self.line())
    }

    /// The board that the line gives: the position after its last move, or
    /// the position before the move that broke the replay.
    pub open spec fn on_board(&self) -> chess::Board {
        self.position().board
    }

    /// The board that the session holds.
    pub closed spec fn live(&self) -> chess::Board {
        self.board
    }

    /// The board of a session is the board that its line gives, replayed
    /// from the starting position of chess.
    pub proof fn lemma_board_follows_line(&self)
        requires
            self.wf(),
        ensures
            placement(self.origin()) == start_text(),
            self.live() == self.on_board(),
    {
    }

    /// The replies that the repertoire knows at this point.
    pub open spec fn replies(&self) -> Seq<Reply> {
        replies(self.graph()@, self.line())
    }

    /// The same session with another policy for its replies.
    pub fn with_policy(self, policy: ReplyPolicy) -> (session: Self)
        requires
            self.wf(),
        ensures
            session.wf(),
            session.policy() == policy,
            session.graph() == self.graph(),
            session.line() == self.line(),
            session.color() == self.color(),
            session.finished() == self.finished(),
            session.origin() == self.origin(),
            session.live() == self.live(),
    {
        DrillSession {
            graph: self.graph,
            node: self.node,
            line: self.line,
            board: self.board,
            fault: self.fault,
            color: self.color,
            finished: self.finished,
            policy,
            origin: self.origin,
        }
    }

    /// A session stands on a line that its repertoire knows.
    pub proof fn lemma_on_known_line(&self)
        requires
            self.wf(),
        ensures
            self.graph().wf(),
            known(self.graph()@, self.line()),
            self.finished() ==> self.replies().len() == 0,
    {
        self.graph.lemma_node_known(self.node);
    }

    /// The node that the session points at: the node of its line.
    pub fn node(&self) -> (node: NodeId)
        requires
            self.wf(),
        ensures
            self.graph().has_node(node),
            self.graph().path_of(node) == self.line(),
    {
        self.node
    }

    /// The moves played so far, the opening moves included.
    pub fn moves(&self) -> (moves: &Vec<String>)
        ensures
            moves.deep_view() == self.line(),
    {
        &self.line
    }

    /// The number of moves played so far.
    pub fn ply(&self) -> (ply: usize)
        ensures
            ply == self.line().len(),
    {
        self.line.len()
    }

    /// The color that the player drills.
    pub fn player_color(&self) -> (color: Color)
        ensures
            color == self.color(),
    {
        self.color
    }

    /// Whether the player is to move: a matter of the number of moves played
    /// and of the player's color, and of nothing else.
    pub fn is_player_turn(&self) -> (mine: bool)
        ensures
            mine == player_to_move(self.color(), self.line().len()),
    {
        let even = self.line.len() % 2 == 0;
        match self.color {
            Color::White => even,
            Color::Black => !even,
        }
    }

    /// Whether the drill goes on: it has not run into the end of a line, and
    /// the line it is on has a reply left.
    pub fn still_running(&self) -> (running: bool)
        requires
            self.wf(),
        ensures
            running == (!self.finished() && self.replies().len() > 0),
    {
        !self.finished && !self.graph.is_leaf(self.node)
    }

    /// The board: the position that the line gives, or the last position
    /// that it gave before the replay broke.
    pub fn board(&self) -> (board: chess::Board)
        requires
            self.wf(),
        ensures
            board == self.live(),
            board == self.on_board(),
    {
        self.board
    }

    /// The board as FEN text.
    pub fn position_text(&self) -> (text: String)
        requires
            self.wf(),
        ensures
            text@ == placement(self.on_board()),
            self.line().len() == 0 ==> text@ == start_text(),
    {
        position_text(&self.board)
    }

    /// The move that broke the replay of the line, if one did: the first
    /// that the rules could not read in the position before it. The board
    /// has stayed in that position since.
    pub fn fault(&self) -> (fault: Option<NotationError>)
        requires
            self.wf(),
        ensures
            match self.position().fault {
                None => fault is None,
                Some(text) => fault matches Some(error) && error.notation@ == text,
            },
    {
        match &self.fault {
            None => None,
            Some(error) => Some(NotationError { notation: error.notation.clone() }),
        }
    }

    /// Takes a move of either side. A known reply is followed: the session
    /// goes on to its node, records the move and plays it on the board.
    /// Should the rules not read the move on the board, the board is left as
    /// it was and the move is kept as the fault. Another move changes
    /// nothing where the line has replies, and ends the drill where it has
    /// none.
    pub fn apply_move(&mut self, notation: &str) -> (assessment: MoveAssessment)
        requires
            old(self).wf(),
        ensures
            final(self).wf(),
            assessment == assess(old(self).graph()@, old(self).line(), notation@),
            final(self).line() =~= if assessment == MoveAssessment::InPrep {
                old(self).line().push(notation@)
            } else {
                old(self).line()
            },
            final(self).finished() == (old(self).finished() || assessment
                == MoveAssessment::EndOfLine),
            final(self).graph() == old(self).graph(),
            final(self).color() == old(self).color(),
            final(self).policy() == old(self).policy(),
            final(self).origin() == old(self).origin(),
            final(self).live() == final(self).on_board(),
            final(self).position() == if assessment == MoveAssessment::InPrep {
                stepped(old(self).position(), notation@)
            } else {
                old(self).position()
            },
            read_move(old(self).live(), notation@) is None || assessment
                != MoveAssessment::InPrep ==> final(self).live() == old(self).live(),
    {
        match self.graph.child_on(self.node, notation) {
            Some(child) => {
                let next = step_board(&self.board, &self.fault, notation);
                proof {
                    assert(self.line.deep_view().push(notation@).drop_last()
                        =~= self.line.deep_view());
                }
                let ghost before = self.line.deep_view();
                self.board = next.0;
                self.fault = next.1;
                self.node = child;
                self.line.push(String::from_str(notation));
                proof {
                    assert(self.line.deep_view() =~= before.push(notation@));
                }
                MoveAssessment::InPrep
            },
            None => {
                if self.graph.is_leaf(self.node) {
                    self.finished = true;
                    MoveAssessment::EndOfLine
                } else {
                    MoveAssessment::Deviated
                }
            },
        }
    }

    /// Plays a reply of the session's own, meant for when the player is not
    /// to move. The policy picks one of the known replies and the session
    /// follows it as `apply_move` would, so that a reply that the rules do
    /// not read leaves the board as it was and is kept as the fault. Where
    /// the line has no reply, there is nothing to play and nothing changes.
    pub fn make_move(&mut self) -> (played: Option<String>)
        requires
            old(self).wf(),
        ensures
            final(self).wf(),
            played is Some <==> old(self).replies().len() > 0,
            played matches Some(san) ==> {
                &&& san@ == old(self).replies()[choice(old(self).replies(), old(self).policy())].san
                &&& picks(
                    old(self).replies(),
                    old(self).policy(),
                    choice(old(self).replies(), old(self).policy()),
                )
                &&& final(self).line() =~= old(self).line().push(san@)
                &&& final(self).policy() == used(old(self).policy())
                &&& final(self).position() == stepped(old(self).position(), san@)
                &&& read_move(old(self).live(), san@) is None ==> {
                    final(self).live() == old(self).live()
                }
            },
            played is None ==> final(self).line() == old(self).line() && final(self).policy()
                == old(self).policy() && final(self).position() == old(self).position()
                && final(self).live() == old(self).live(),
            final(self).finished() == old(self).finished(),
            final(self).graph() == old(self).graph(),
            final(self).color() == old(self).color(),
            final(self).origin() == old(self).origin(),
            final(self).live() == final(self).on_board(),
    {
        let children = self.graph.children_of(self.node);
        if children.len() == 0 {
            return None;
        }
        let ghost kids = listed(children@);
        proof {
            self.graph.lemma_games_bounded();
            lemma_replies(self.graph@, self.line.deep_view());
            assert forall|j: int| 0 <= j < children.len() implies (#[trigger] children[j]).1
                >= 1 by {
                assert(kids[j].visits >= 1);
            }
        }
        let i = pick(&children, self.policy);
        proof {
            lemma_one_choice(kids, self.policy, i as int, i as int);
            assert(has_reply(kids, kids[i as int].san));
        }
        let san = children[i].0.clone();
        let assessment = self.apply_move(san.as_str());
        assert(assessment == MoveAssessment::InPrep);
        self.policy =
        match self.policy {
            ReplyPolicy::Weighted { seed } => ReplyPolicy::Weighted { seed: step_seed(seed) },
            ReplyPolicy::MostPlayed => ReplyPolicy::MostPlayed,
        };
        Some(san)
    }
}

} // verus!
