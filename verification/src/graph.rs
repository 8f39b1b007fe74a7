//! The repertoire graph: a tree of lines grown from a corpus of games.
//!
//! Nodes live in an arena and are addressed by index. Every node stands for
//! one line, the moves on the way to it from the root, and keeps the replies
//! to that line in the order in which they were first played. The view of a
//! graph is its corpus, the games ingested so far; what a graph answers is
//! stated over that corpus with the functions of [`crate::corpus`].

use crate::corpus::{
    bump, continues, ends, follows, has_reply, known, lemma_children_total, lemma_passes_root,
    lemma_passes_shorter, lemma_passes_split, lemma_replies, lemma_tallies_keep_counts,
    lemma_total_take, lemma_unfolded, lemma_unknown_has_no_replies, lemma_visits_within_total,
    lemma_volume_take, passes, raise, repeated, replies, stored, total, unfolded, volume, Reply,
    Tally,
};
use vstd::prelude::*;

verus! {

/// A handle on a node of a graph. It is good for the graph that gave it out,
/// and stays good as that graph grows.
#[derive(Clone, Copy, Debug)]
pub struct NodeId {
    index: usize,
}

/// A known reply: the move, the node it leads to, and the number of games
/// that played it.
struct Edge {
    san: String,
    child: usize,
    visits: u64,
}

/// A line: its replies in the order first played, and the place of the edge
/// that leads here, as a node and a slot among that node's edges.
struct Node {
    edges: Vec<Edge>,
    parent: usize,
    slot: usize,
}

/// A repertoire: every line that some ingested game has played, with the
/// number of games that played it.
pub struct RepertoireGraph {
    nodes: Vec<Node>,
    games: u64,
    paths: Ghost<Seq<Seq<Seq<char>>>>,
    corpus: Ghost<Seq<Seq<Seq<char>>>>,
}

/// The reply that an edge stands for.
spec fn edge_reply(edge: Edge) -> Reply {
    Reply { san: edge.san@, visits: edge.visits as nat }
}

/// The replies that the edges of a node stand for, in their order.
spec fn edge_replies(edges: Seq<Edge>) -> Seq<Reply> {
    Seq::new(edges.len(), |i: int| edge_reply(edges[i]))
}

/// The replies that a node with this path holds after the first `done` moves
/// of `game` have been worked into a graph grown from `games`.
spec fn expected(
    games: Seq<Seq<Seq<char>>>,
    game: Seq<Seq<char>>,
    done: int,
    path: Seq<Seq<char>>,
) -> Seq<Reply> {
    if path.len() < done && game.take(path.len() as int) =~= path {
        bump(replies(games, path), game[path.len() as int])
    } else {
        replies(games, path)
    }
}

impl View for RepertoireGraph {
    type V = Seq<Seq<Seq<char>>>;

    /// The games ingested so far, oldest first.
    closed spec fn view(&self) -> Seq<Seq<Seq<char>>> {
        self.corpus@
    }
}

impl RepertoireGraph {
    /// Node `k` holds the replies that are expected of its line.
    spec fn node_holds(&self, k: int, game: Seq<Seq<char>>, done: int) -> bool {
        edge_replies(self.nodes[k].edges@) =~= expected(self.corpus@, game, done, self.paths@[k])
    }

    /// Edge `j` of node `k` leads to the node of the line one move longer.
    spec fn edge_sound(&self, k: int, j: int) -> bool {
        let edge = self.nodes[k].edges[j];
        &&& 0 < edge.child < self.nodes.len()
        &&& self.paths@[edge.child as int] =~= self.paths@[k].push(edge.san@)
    }

    /// Node `k` knows the edge that leads to it, from a node before it.
    spec fn node_parented(&self, k: int) -> bool {
        let node = self.nodes[k];
        &&& node.parent < k
        &&& node.slot < self.nodes[node.parent as int].edges.len()
        &&& self.nodes[node.parent as int].edges[node.slot as int].child == k
    }

    /// Some game has played the line of node `k`: one of the corpus, or the
    /// game that is being ingested, as far as it has been worked in.
    spec fn node_reached(&self, k: int, game: Seq<Seq<char>>, done: int) -> bool {
        passes(self.corpus@, self.paths@[k]) > 0 || (self.paths@[k].len() <= done && follows(
            game,
            self.paths@[k],
        ))
    }

    /// The state of the arena while `game` is being ingested and its first
    /// `done` moves have been worked in.
    spec fn midway(&self, game: Seq<Seq<char>>, done: int) -> bool {
        &&& self.nodes.len() >= 1
        &&& self.paths@.len() == self.nodes.len()
        &&& self.paths@[0].len() == 0
        &&& self.games == self.corpus@.len()
        &&& forall|k: int| 0 <= k < self.nodes.len() ==> #[trigger] self.node_holds(k, game, done)
        &&& forall|k: int, j: int|
            0 <= k < self.nodes.len() && 0 <= j < self.nodes[k].edges.len()
                ==> #[trigger] self.edge_sound(k, j)
        &&& forall|a: int, b: int|
            0 <= a < b < self.nodes.len() ==> !(#[trigger] self.paths@[a] =~= #[trigger] self.paths@[b])
        &&& forall|k: int| 0 < k < self.nodes.len() ==> #[trigger] self.node_reached(k, game, done)
        &&& forall|k: int| 0 < k < self.nodes.len() ==> #[trigger] self.node_parented(k)
    }

    /// The graph is sound: its nodes stand for the lines that its corpus
    /// knows, one node for each, and hold the replies of the corpus.
    pub closed spec fn wf(&self) -> bool {
        self.midway(Seq::empty(), 0)
    }

    /// `node` is a node of this graph.
    pub closed spec fn has_node(&self, node: NodeId) -> bool {
        node.index < self.nodes.len()
    }

    /// The line that `node` stands for: the moves from the root to it.
    pub closed spec fn path_of(&self, node: NodeId) -> Seq<Seq<char>> {
        self.paths@[node.index as int]
    }

    /// A graph of no games: the root and nothing else.
    pub fn new() -> (graph: Self)
        ensures
            graph.wf(),
            graph@ =~= Seq::<Seq<Seq<char>>>::empty(),
    {
        let mut nodes: Vec<Node> = Vec::new();
        nodes.push(Node { edges: Vec::new(), parent: 0, slot: 0 });
        let graph = RepertoireGraph {
            nodes,
            games: 0,
            paths: Ghost(Seq::<Seq<Seq<char>>>::empty().push(Seq::empty())),
            corpus: Ghost(Seq::empty()),
        };
        assert(graph.node_holds(0, Seq::empty(), 0));
        graph
    }

    /// The number of games ingested.
    pub fn games(&self) -> (count: u64)
        requires
            self.wf(),
        ensures
            count == self@.len(),
    {
        self.games
    }

    /// The root, which stands for the empty line.
    pub fn root(&self) -> (node: NodeId)
        requires
            self.wf(),
        ensures
            self.has_node(node),
            self.path_of(node) =~= Seq::<Seq<char>>::empty(),
    {
        NodeId { index: 0 }
    }

    /// A graph counts its games in 64 bits, and holds no more than fit.
    pub proof fn lemma_games_bounded(&self)
        requires
            self.wf(),
        ensures
            self@.len() <= u64::MAX,
    {
    }

    /// Every node stands for a line that the corpus knows.
    pub proof fn lemma_node_known(&self, node: NodeId)
        requires
            self.wf(),
            self.has_node(node),
        ensures
            known(self@, self.path_of(node)),
    {
        if node.index > 0 {
            assert(self.node_reached(node.index as int, Seq::empty(), 0));
        }
    }

    /// Two nodes that stand for the same line are the same node.
    pub proof fn lemma_node_unique(&self, first: NodeId, second: NodeId)
        requires
            self.wf(),
            self.has_node(first),
            self.has_node(second),
            self.path_of(first) == self.path_of(second),
        ensures
            first == second,
    {
        let a = first.index as int;
        let b = second.index as int;
        if a < b {
            assert(!(self.paths@[a] =~= self.paths@[b]));
        }
        if b < a {
            assert(!(self.paths@[b] =~= self.paths@[a]));
        }
    }

    /// The place of `san` among the edges of node `at`, if it is there.
    fn seek(&self, at: usize, san: &String) -> (found: Option<usize>)
        requires
            at < self.nodes.len(),
        ensures
            match found {
                Some(j) => j < self.nodes[at as int].edges.len() && self.nodes[at as int].edges[j as int].san@
                    == san@,
                None => !has_reply(edge_replies(self.nodes[at as int].edges@), san@),
            },
    {
        let edges = &self.nodes[at].edges;
        let mut j: usize = 0;
        while j < edges.len()
            invariant
                j <= edges.len(),
                edges == &self.nodes[at as int].edges,
                forall|i: int| 0 <= i < j ==> edges[i].san@ != san@,
            decreases edges.len() - j,
        {
            if edges[j].san == *san {
                return Some(j);
            }
            j += 1;
        }
        proof {
            let kids = edge_replies(edges@);
            if has_reply(kids, san@) {
                let i = choose|i: int| 0 <= i < kids.len() && (#[trigger] kids[i]).san == san@;
                assert(edges[i].san@ != san@);
            }
        }
        None
    }

    /// Counts one more game on edge `j` of node `at`, the edge that the game
    /// takes next, and gives the node that the edge leads to.
    fn strengthen(
        &mut self,
        at: usize,
        j: usize,
        Ghost(game): Ghost<Seq<Seq<char>>>,
        Ghost(done): Ghost<int>,
    ) -> (child: usize)
        requires
            old(self).midway(game, done),
            0 <= done < game.len(),
            at < old(self).nodes.len(),
            old(self).paths@[at as int] =~= game.take(done),
            j < old(self).nodes[at as int].edges.len(),
            old(self).nodes[at as int].edges[j as int].san@ == game[done],
            old(self).games < u64::MAX,
        ensures
            final(self).midway(game, done + 1),
            final(self).nodes.len() == old(self).nodes.len(),
            final(self).paths@ == old(self).paths@,
            final(self).corpus@ == old(self).corpus@,
            final(self).games == old(self).games,
            child < final(self).nodes.len(),
            final(self).paths@[child as int] =~= game.take(done + 1),
    {
        let ghost before = *self;
        let ghost path = self.paths@[at as int];
        let ghost kids = replies(self.corpus@, path);
        proof {
            assert(self.node_holds(at as int, game, done));
            assert(self.edge_sound(at as int, j as int));
            lemma_replies(self.corpus@, path);
            lemma_children_total(self.corpus@, path);
            lemma_visits_within_total(kids, j as int);
            assert(kids[j as int] == edge_reply(self.nodes[at as int].edges[j as int]));
        }
        let node = &mut self.nodes[at];
        let edge = &mut node.edges[j];
        edge.visits = edge.visits + 1;
        let child = edge.child;
        proof {
            let san = game[done];
            assert(has_reply(kids, san)) by {
                assert(kids[j as int].san == san);
            }
            assert(self.paths@[child as int] =~= game.take(done + 1)) by {
                assert(path.push(san) =~= game.take(done + 1));
            }
            assert forall|k: int| 0 <= k < self.nodes.len() implies #[trigger] self.node_holds(
                k,
                game,
                done + 1,
            ) by {
                assert(before.node_holds(k, game, done));
                if k == at {
                    assert(edge_replies(self.nodes[k].edges@) =~= raise(kids, san));
                } else {
                    assert(self.nodes[k] == before.nodes[k]);
                    if k < at {
                        assert(!(self.paths@[k] =~= self.paths@[at as int]));
                    } else {
                        assert(!(self.paths@[at as int] =~= self.paths@[k]));
                    }
                }
            }
            assert forall|k: int, i: int|
                0 <= k < self.nodes.len() && 0 <= i < self.nodes[k].edges.len()
                    implies #[trigger] self.edge_sound(k, i) by {
                assert(before.edge_sound(k, i));
            }
            assert forall|k: int| 0 < k < self.nodes.len() implies #[trigger] self.node_reached(
                k,
                game,
                done + 1,
            ) by {
                assert(before.node_reached(k, game, done));
            }
            assert forall|k: int| 0 < k < self.nodes.len() implies #[trigger] self.node_parented(
                k,
            ) by {
                assert(before.node_parented(k));
            }
        }
        child
    }

    /// Gives node `at` a new edge for `san`, the move that the game takes
    /// next and that no game took before, and gives the new node it leads to.
    fn branch(
        &mut self,
        at: usize,
        san: &String,
        Ghost(game): Ghost<Seq<Seq<char>>>,
        Ghost(done): Ghost<int>,
    ) -> (child: usize)
        requires
            old(self).midway(game, done),
            0 <= done < game.len(),
            at < old(self).nodes.len(),
            old(self).paths@[at as int] =~= game.take(done),
            san@ == game[done],
            !has_reply(edge_replies(old(self).nodes[at as int].edges@), san@),
        ensures
            final(self).midway(game, done + 1),
            final(self).nodes.len() == old(self).nodes.len() + 1,
            forall|k: int|
                0 <= k < old(self).nodes.len() ==> final(self).paths@[k] == old(self).paths@[k],
            final(self).corpus@ == old(self).corpus@,
            final(self).games == old(self).games,
            child < final(self).nodes.len(),
            final(self).paths@[child as int] =~= game.take(done + 1),
    {
        let ghost before = *self;
        let ghost path = self.paths@[at as int];
        let ghost kids = replies(self.corpus@, path);
        let ghost longer = path.push(san@);
        let child = self.nodes.len();
        let slot = self.nodes[at].edges.len();
        self.nodes.push(Node { edges: Vec::new(), parent: at, slot });
        let node = &mut self.nodes[at];
        node.edges.push(Edge { san: san.clone(), child, visits: 1 });
        self.paths = Ghost(self.paths@.push(longer));
        proof {
            assert(before.node_holds(at as int, game, done));
            lemma_replies(self.corpus@, path);
            assert(!has_reply(kids, san@));
            assert(has_reply(replies(self.corpus@, path), san@) <==> passes(
                self.corpus@,
                path.push(san@),
            ) > 0);
            assert(passes(self.corpus@, longer) == 0);
            lemma_unknown_has_no_replies(self.corpus@, longer);
            assert(longer =~= game.take(done + 1));
            assert forall|k: int| 0 <= k < self.nodes.len() implies #[trigger] self.node_holds(
                k,
                game,
                done + 1,
            ) by {
                if k == child {
                    assert(edge_replies(self.nodes[k].edges@) =~= Seq::<Reply>::empty());
                } else {
                    assert(before.node_holds(k, game, done));
                    if k == at {
                        assert(edge_replies(self.nodes[k].edges@) =~= kids.push(
                            Reply { san: san@, visits: 1 },
                        ));
                    } else {
                        assert(self.nodes[k] == before.nodes[k]);
                        if k < at {
                            assert(!(before.paths@[k] =~= before.paths@[at as int]));
                        } else {
                            assert(!(before.paths@[at as int] =~= before.paths@[k]));
                        }
                    }
                }
            }
            assert forall|k: int, i: int|
                0 <= k < self.nodes.len() && 0 <= i < self.nodes[k].edges.len()
                    implies #[trigger] self.edge_sound(k, i) by {
                if k == at && i == before.nodes[at as int].edges.len() {
                } else {
                    assert(before.edge_sound(k, i));
                }
            }
            assert forall|k: int| 0 < k < self.nodes.len() implies #[trigger] self.node_reached(
                k,
                game,
                done + 1,
            ) by {
                if k < child {
                    assert(before.node_reached(k, game, done));
                }
            }
            assert forall|a: int, b: int| 0 <= a < b < self.nodes.len() implies !(
            #[trigger] self.paths@[a] =~= #[trigger] self.paths@[b]) by {
                if b < child {
                    assert(!(before.paths@[a] =~= before.paths@[b]));
                } else if a > 0 {
                    assert(before.node_reached(a, game, done));
                }
            }
            assert forall|k: int| 0 < k < self.nodes.len() implies #[trigger] self.node_parented(
                k,
            ) by {
                if k < child {
                    assert(before.node_parented(k));
                }
            }
        }
        child
    }

    /// Once every move of `game` is worked in, the arena is that of the
    /// corpus with `game` added.
    proof fn lemma_settled(before: Self, after: Self, game: Seq<Seq<char>>)
        requires
            before.midway(game, game.len() as int),
            after.nodes == before.nodes,
            after.paths@ == before.paths@,
            after.corpus@ == before.corpus@.push(game),
            after.games == before.games + 1,
        ensures
            after.wf(),
    {
        let games = after.corpus@;
        assert(games.drop_last() =~= before.corpus@);
        assert(games.last() == game);
        assert forall|k: int| 0 <= k < after.nodes.len() implies #[trigger] after.node_holds(
            k,
            Seq::empty(),
            0,
        ) by {
            assert(before.node_holds(k, game, game.len() as int));
        }
        assert forall|k: int, i: int|
            0 <= k < after.nodes.len() && 0 <= i < after.nodes[k].edges.len()
                implies #[trigger] after.edge_sound(k, i) by {
            assert(before.edge_sound(k, i));
        }
        assert forall|k: int| 0 < k < after.nodes.len() implies #[trigger] after.node_reached(
            k,
            Seq::empty(),
            0,
        ) by {
            assert(before.node_reached(k, game, game.len() as int));
        }
        assert forall|k: int| 0 < k < after.nodes.len() implies #[trigger] after.node_parented(
            k,
        ) by {
            assert(before.node_parented(k));
        }
    }

    /// A sound graph is ready to take any game.
    proof fn lemma_ready(&self, game: Seq<Seq<char>>)
        requires
            self.wf(),
        ensures
            self.midway(game, 0),
    {
        let none = Seq::<Seq<char>>::empty();
        assert forall|k: int| 0 <= k < self.nodes.len() implies #[trigger] self.node_holds(
            k,
            game,
            0,
        ) by {
            assert(self.node_holds(k, none, 0));
        }
        assert forall|k: int| 0 < k < self.nodes.len() implies #[trigger] self.node_reached(
            k,
            game,
            0,
        ) by {
            assert(self.node_reached(k, none, 0));
            assert(!(self.paths@[0] =~= self.paths@[k]));
        }
    }

    /// Ingests one game: walks its moves from the root, counts one more
    /// visit on every edge that it takes, and grows an edge where it leaves
    /// the lines known so far. Nothing is asked of the moves; a game is taken
    /// to hold legal moves in the order played.
    pub fn insert(&mut self, moves: &Vec<String>)
        requires
            old(self).wf(),
            old(self)@.len() < u64::MAX,
        ensures
            final(self).wf(),
            final(self)@ =~= old(self)@.push(moves.deep_view()),
            forall|node: NodeId|
                old(self).has_node(node) ==> final(self).has_node(node) && final(self).path_of(node)
                    == old(self).path_of(node),
    {
        let ghost game = moves.deep_view();
        let ghost start = *self;
        proof {
            self.lemma_ready(game);
            assert(game.take(0) =~= Seq::<Seq<char>>::empty());
        }
        let mut at: usize = 0;
        let mut done: usize = 0;
        while done < moves.len()
            invariant
                done <= moves.len(),
                game == moves.deep_view(),
                self.midway(game, done as int),
                at < self.nodes.len(),
                self.paths@[at as int] =~= game.take(done as int),
                self.corpus@ == start.corpus@,
                self.games == start.games,
                self.games < u64::MAX,
                start.nodes.len() <= self.nodes.len(),
                forall|k: int| 0 <= k < start.nodes.len() ==> self.paths@[k] == start.paths@[k],
            decreases moves.len() - done,
        {
            let san = &moves[done];
            assert(san@ == game[done as int]);
            at =
            match self.seek(at, san) {
                Some(j) => self.strengthen(at, j, Ghost(game), Ghost(done as int)),
                None => self.branch(at, san, Ghost(game), Ghost(done as int)),
            };
            done += 1;
        }
        let ghost grown = *self;
        self.corpus = Ghost(self.corpus@.push(game));
        self.games = self.games + 1;
        proof {
            Self::lemma_settled(grown, *self, game);
        }
    }

    /// The graph of a corpus: every game ingested from the root, in order.
    /// Games need share no beginning; those that differ at the first move
    /// grow branches side by side at the root.
    pub fn build(games: &Vec<Vec<String>>) -> (graph: Self)
        ensures
            graph.wf(),
            graph@ =~= games.deep_view(),
    {
        let mut graph = Self::new();
        let mut i: usize = 0;
        while i < games.len()
            invariant
                i <= games.len(),
                graph.wf(),
                graph@ =~= games.deep_view().take(i as int),
            decreases games.len() - i,
        {
            graph.insert(&games[i]);
            proof {
                assert(games.deep_view().take(i as int).push(games[i as int].deep_view())
                    =~= games.deep_view().take(i + 1));
            }
            i += 1;
        }
        proof {
            assert(games.deep_view().take(i as int) =~= games.deep_view());
        }
        graph
    }

    /// A node of a sound graph holds the replies that the corpus knows to
    /// its line, and its edges lead to the nodes of the longer lines.
    proof fn lemma_node(&self, k: int)
        requires
            self.wf(),
            0 <= k < self.nodes.len(),
        ensures
            edge_replies(self.nodes[k].edges@) =~= replies(self.corpus@, self.paths@[k]),
            forall|j: int|
                0 <= j < self.nodes[k].edges.len() ==> {
                    let edge = #[trigger] self.nodes[k].edges[j];
                    &&& 0 < edge.child < self.nodes.len()
                    &&& self.paths@[edge.child as int] =~= self.paths@[k].push(edge.san@)
                },
    {
        assert(self.node_holds(k, Seq::empty(), 0));
        assert forall|j: int| 0 <= j < self.nodes[k].edges.len() implies {
            let edge = #[trigger] self.nodes[k].edges[j];
            &&& 0 < edge.child < self.nodes.len()
            &&& self.paths@[edge.child as int] =~= self.paths@[k].push(edge.san@)
        } by {
            assert(self.edge_sound(k, j));
        }
    }

    /// The replies known to the line of `node`, each with its visit count,
    /// in the order in which they were first played. A leaf has none.
    pub fn children_of(&self, node: NodeId) -> (children: Vec<(String, u64)>)
        requires
            self.wf(),
            self.has_node(node),
        ensures
            listed(children@) =~= replies(self@, self.path_of(node)),
            total(listed(children@)) == continues(self@, self.path_of(node)),
            total(listed(children@)) <= self@.len(),
    {
        proof {
            self.lemma_node(node.index as int);
            lemma_children_total(self.corpus@, self.paths@[node.index as int]);
        }
        let edges = &self.nodes[node.index].edges;
        let mut children: Vec<(String, u64)> = Vec::new();
        let mut j: usize = 0;
        while j < edges.len()
            invariant
                j <= edges.len(),
                children.len() == j,
                forall|i: int|
                    0 <= i < j ==> (#[trigger] children[i]).0@ == edges[i].san@ && children[i].1
                        == edges[i].visits,
            decreases edges.len() - j,
        {
            children.push((edges[j].san.clone(), edges[j].visits));
            j += 1;
        }
        proof {
            assert(listed(children@) =~= edge_replies(edges@));
        }
        children
    }

    /// Whether the line of `node` has no known reply.
    pub fn is_leaf(&self, node: NodeId) -> (leaf: bool)
        requires
            self.wf(),
            self.has_node(node),
        ensures
            leaf == (replies(self@, self.path_of(node)).len() == 0),
    {
        proof {
            self.lemma_node(node.index as int);
        }
        self.nodes[node.index].edges.len() == 0
    }

    /// The node one move on from `node`, if the corpus knows that move as a
    /// reply to its line.
    pub fn child_on(&self, node: NodeId, san: &str) -> (child: Option<NodeId>)
        requires
            self.wf(),
            self.has_node(node),
        ensures
            child is Some <==> has_reply(replies(self@, self.path_of(node)), san@),
            child matches Some(next) ==> self.has_node(next) && self.path_of(next)
                =~= self.path_of(node).push(san@),
    {
        let key = String::from_str(san);
        proof {
            self.lemma_node(node.index as int);
        }
        match self.seek(node.index, &key) {
            Some(j) => {
                proof {
                    let kids = edge_replies(self.nodes[node.index as int].edges@);
                    assert(kids[j as int].san == san@);
                }
                Some(NodeId { index: self.nodes[node.index].edges[j].child })
            },
            None => None,
        }
    }

    /// The node reached from `node` by following `moves` in order, or
    /// nothing as soon as one of them is not a known reply: the line is then
    /// unknown to the corpus.
    pub fn find_path(&self, node: NodeId, moves: &Vec<String>) -> (found: Option<NodeId>)
        requires
            self.wf(),
            self.has_node(node),
        ensures
            found is Some <==> known(self@, self.path_of(node) + moves.deep_view()),
            found matches Some(end) ==> self.has_node(end) && self.path_of(end) =~= self.path_of(
                node,
            ) + moves.deep_view(),
    {
        let ghost base = self.path_of(node);
        let ghost line = moves.deep_view();
        let mut at = node;
        let mut done: usize = 0;
        while done < moves.len()
            invariant
                done <= moves.len(),
                self.wf(),
                line == moves.deep_view(),
                base == self.path_of(node),
                self.has_node(at),
                self.path_of(at) =~= base + line.take(done as int),
            decreases moves.len() - done,
        {
            let san = moves[done].as_str();
            match self.child_on(at, san) {
                Some(next) => {
                    proof {
                        assert((base + line.take(done as int)).push(line[done as int]) =~= base
                            + line.take(done + 1));
                    }
                    at = next;
                },
                None => {
                    proof {
                        let here = self.path_of(at);
                        let whole = base + line;
                        let cut = here.len() + 1;
                        lemma_replies(self@, here);
                        assert(has_reply(replies(self@, here), san@) <==> passes(
                            self@,
                            here.push(san@),
                        ) > 0);
                        assert(whole.take(cut as int) =~= here.push(san@));
                        lemma_passes_shorter(self@, whole, cut as int);
                    }
                    return None;
                },
            }
            done += 1;
        }
        proof {
            assert(line.take(done as int) =~= line);
            self.lemma_node_known(at);
        }
        Some(at)
    }
}

/// The tallies that a list of lines and counts stands for.
pub open spec fn tallied(lines: Seq<(Vec<String>, u64)>) -> Seq<Tally> {
    Seq::new(lines.len(), |i: int| Tally { line: lines[i].0.deep_view(), games: lines[i].1 as nat })
}

/// A copy of a line.
fn copy_line(line: &Vec<String>) -> (copy: Vec<String>)
    ensures
        copy.deep_view() =~= line.deep_view(),
{
    let mut copy: Vec<String> = Vec::new();
    let mut i: usize = 0;
    while i < line.len()
        invariant
            i <= line.len(),
            copy.deep_view() =~= line.deep_view().take(i as int),
        decreases line.len() - i,
    {
        let ghost before = copy.deep_view();
        copy.push(line[i].clone());
        proof {
            assert(copy.deep_view() =~= before.push(line[i as int]@));
            assert(line.deep_view().take(i + 1) =~= line.deep_view().take(i as int).push(
                line[i as int]@,
            ));
        }
        i += 1;
    }
    proof {
        assert(line.deep_view().take(i as int) =~= line.deep_view());
    }
    copy
}

impl RepertoireGraph {
    /// One of the first `upto` nodes stands for `path`.
    spec fn seen(&self, upto: int, path: Seq<Seq<char>>) -> bool {
        exists|c: int| 0 <= c < upto && #[trigger] self.paths@[c] =~= path
    }

    /// Every line that the corpus knows has its node.
    proof fn lemma_known_has_node(&self, path: Seq<Seq<char>>)
        requires
            self.wf(),
            known(self.corpus@, path),
        ensures
            self.seen(self.nodes.len() as int, path),
        decreases path.len(),
    {
        if path.len() == 0 {
            assert(self.paths@[0] =~= path);
        } else {
            let shorter = path.drop_last();
            let san = path.last();
            assert(path.take(path.len() - 1) =~= shorter);
            assert(shorter.push(san) =~= path);
            lemma_passes_shorter(self.corpus@, path, path.len() - 1);
            self.lemma_known_has_node(shorter);
            let j = choose|c: int| 0 <= c < self.nodes.len() && #[trigger] self.paths@[c] =~= shorter;
            self.lemma_node(j);
            lemma_replies(self.corpus@, shorter);
            let kids = replies(self.corpus@, shorter);
            assert(has_reply(kids, san) <==> passes(self.corpus@, shorter.push(san)) > 0);
            let i = choose|i: int| 0 <= i < kids.len() && (#[trigger] kids[i]).san == san;
            let edge = self.nodes[j].edges[i];
            assert(edge_replies(self.nodes[j].edges@)[i] == kids[i]);
            assert(self.paths@[edge.child as int] =~= path);
        }
    }

    /// The sum of the visits on the edges of node `at`.
    fn visits_beyond(&self, at: usize) -> (sum: u64)
        requires
            self.wf(),
            at < self.nodes.len(),
        ensures
            sum == continues(self.corpus@, self.paths@[at as int]),
    {
        let ghost kids = replies(self.corpus@, self.paths@[at as int]);
        proof {
            self.lemma_node(at as int);
            lemma_children_total(self.corpus@, self.paths@[at as int]);
        }
        let edges = &self.nodes[at].edges;
        let mut sum: u64 = 0;
        let mut n: usize = 0;
        while n < edges.len()
            invariant
                n <= edges.len(),
                kids =~= edge_replies(edges@),
                total(kids) <= u64::MAX,
                sum == total(kids.take(n as int)),
            decreases edges.len() - n,
        {
            proof {
                lemma_total_take(kids, n + 1);
                assert(kids.take(n + 1).drop_last() =~= kids.take(n as int));
            }
            sum = sum + edges[n].visits;
            n += 1;
        }
        proof {
            assert(kids.take(n as int) =~= kids);
        }
        sum
    }

    /// The number of games that start with the line of node `at`.
    fn visits_through(&self, at: usize) -> (count: u64)
        requires
            self.wf(),
            at < self.nodes.len(),
        ensures
            count == passes(self.corpus@, self.paths@[at as int]),
    {
        if at == 0 {
            proof {
                lemma_passes_root(self.corpus@);
                assert(self.paths@[0] =~= Seq::<Seq<char>>::empty());
            }
            self.games
        } else {
            let node = &self.nodes[at];
            proof {
                assert(self.node_parented(at as int));
                let up = node.parent as int;
                let path = self.paths@[up];
                self.lemma_node(up);
                lemma_children_total(self.corpus@, path);
                let kids = replies(self.corpus@, path);
                assert(kids[node.slot as int] == edge_reply(
                    self.nodes[up].edges[node.slot as int],
                ));
                assert(self.paths@[at as int] =~= path.push(kids[node.slot as int].san));
            }
            self.nodes[node.parent].edges[node.slot].visits
        }
    }

    /// The graph as tallies, for keeping: every line on which a game ended,
    /// with the number of games that ended there. The tallies stand for a
    /// corpus with the same games, so that nothing is lost in them: see
    /// [`crate::corpus::lemma_tallies_keep_counts`].
    pub fn to_lines(&self) -> (lines: Vec<(Vec<String>, u64)>)
        requires
            self.wf(),
        ensures
            forall|path: Seq<Seq<char>>| stored(tallied(lines@), path) == ends(self@, path),
            volume(tallied(lines@)) == self@.len(),
            forall|i: int| 0 <= i < lines.len() ==> (#[trigger] lines[i]).1 > 0,
    {
        let mut paths: Vec<Vec<String>> = Vec::new();
        let mut lines: Vec<(Vec<String>, u64)> = Vec::new();
        let mut k: usize = 0;
        while k < self.nodes.len()
            invariant
                k <= self.nodes.len(),
                self.wf(),
                paths.len() == k,
                forall|c: int| 0 <= c < k ==> (#[trigger] paths[c]).deep_view() =~= self.paths@[c],
                forall|path: Seq<Seq<char>>|
                    stored(tallied(lines@), path) == if self.seen(k as int, path) {
                        ends(self.corpus@, path)
                    } else {
                        0nat
                    },
                forall|i: int| 0 <= i < lines.len() ==> (#[trigger] lines[i]).1 > 0,
            decreases self.nodes.len() - k,
        {
            let ghost here = self.paths@[k as int];
            let mut path: Vec<String> = Vec::new();
            if k > 0 {
                let node = &self.nodes[k];
                proof {
                    assert(self.node_parented(k as int));
                    self.lemma_node(node.parent as int);
                }
                path = copy_line(&paths[node.parent]);
                let ghost shorter = path.deep_view();
                path.push(self.nodes[node.parent].edges[node.slot].san.clone());
                proof {
                    assert(path.deep_view() =~= shorter.push(
                        self.nodes[node.parent as int].edges[node.slot as int].san@,
                    ));
                }
            }
            assert(path.deep_view() =~= here);
            let through = self.visits_through(k);
            let beyond = self.visits_beyond(k);
            proof {
                lemma_passes_split(self.corpus@, here);
            }
            let ended = through - beyond;
            let ghost before = tallied(lines@);
            if ended > 0 {
                lines.push((copy_line(&path), ended));
                proof {
                    assert(tallied(lines@) =~= before.push(Tally { line: here, games: ended as nat }));
                    assert(tallied(lines@).drop_last() =~= before);
                }
            }
            paths.push(path);
            proof {
                let now = tallied(lines@);
                assert forall|p: Seq<Seq<char>>|
                    stored(now, p) == if self.seen(k + 1, p) {
                        ends(self.corpus@, p)
                    } else {
                        0nat
                    } by {
                    let add = if ended > 0 && here =~= p {
                        ended as nat
                    } else {
                        0nat
                    };
                    assert(ended == ends(self.corpus@, here));
                    assert(stored(before, p) == if self.seen(k as int, p) {
                        ends(self.corpus@, p)
                    } else {
                        0nat
                    });
                    assert(stored(now, p) == stored(before, p) + add);
                    if p =~= here {
                        assert(self.paths@[k as int] =~= p);
                        if self.seen(k as int, p) {
                            let c = choose|c: int| 0 <= c < k && #[trigger] self.paths@[c] =~= p;
                            assert(!(self.paths@[c] =~= self.paths@[k as int]));
                        }
                    } else {
                        if self.seen(k + 1, p) {
                            let c = choose|c: int| 0 <= c < k + 1 && #[trigger] self.paths@[c] =~= p;
                            assert(self.paths@[c] =~= p);
                        }
                        if self.seen(k as int, p) {
                            let c = choose|c: int| 0 <= c < k && #[trigger] self.paths@[c] =~= p;
                            assert(self.paths@[c] =~= p);
                        }
                    }
                }
            }
            k += 1;
        }
        proof {
            assert forall|p: Seq<Seq<char>>| stored(tallied(lines@), p) == ends(
                self.corpus@,
                p,
            ) by {
                if !self.seen(k as int, p) {
                    if known(self.corpus@, p) {
                        self.lemma_known_has_node(p);
                    }
                    lemma_passes_split(self.corpus@, p);
                }
            }
            lemma_tallies_keep_counts(self.corpus@, tallied(lines@), Seq::empty());
        }
        lines
    }

    /// The graph of the corpus that tallies stand for: every line ingested
    /// as often as it counts, tally by tally. There is no such graph, and
    /// nothing is returned, where the tallies hold more games than a graph
    /// can count in 64 bits.
    pub fn from_lines(lines: &Vec<(Vec<String>, u64)>) -> (graph: Option<Self>)
        ensures
            graph is Some <==> volume(tallied(lines@)) <= u64::MAX,
            graph matches Some(built) ==> built.wf() && built@ =~= unfolded(tallied(lines@)),
    {
        let ghost tallies = tallied(lines@);
        let mut sum: u64 = 0;
        let mut n: usize = 0;
        while n < lines.len()
            invariant
                n <= lines.len(),
                tallies == tallied(lines@),
                sum == volume(tallies.take(n as int)),
            decreases lines.len() - n,
        {
            proof {
                assert(tallies.take(n + 1).drop_last() =~= tallies.take(n as int));
                assert(tallies.take(n + 1).last() == tallies[n as int]);
                lemma_volume_take(tallies, n + 1);
            }
            if lines[n].1 > u64::MAX - sum {
                return None;
            }
            sum = sum + lines[n].1;
            n += 1;
        }
        proof {
            assert(tallies.take(n as int) =~= tallies);
        }
        let mut graph = Self::new();
        let mut i: usize = 0;
        while i < lines.len()
            invariant
                i <= lines.len(),
                tallies == tallied(lines@),
                volume(tallies) <= u64::MAX,
                graph.wf(),
                graph@ =~= unfolded(tallies.take(i as int)),
            decreases lines.len() - i,
        {
            let ghost done = unfolded(tallies.take(i as int));
            let ghost line = lines[i as int].0.deep_view();
            proof {
                assert(tallies.take(i + 1).drop_last() =~= tallies.take(i as int));
                assert(tallies.take(i + 1).last() == tallies[i as int]);
                assert(repeated(line, 0) =~= Seq::<Seq<Seq<char>>>::empty());
                lemma_unfolded(tallies.take(i as int), Seq::empty());
                lemma_volume_take(tallies, i + 1);
            }
            let mut count: u64 = 0;
            while count < lines[i].1
                invariant
                    i < lines.len(),
                    count <= lines[i as int].1,
                    tallies == tallied(lines@),
                    line == lines[i as int].0.deep_view(),
                    done == unfolded(tallies.take(i as int)),
                    done.len() + lines[i as int].1 <= u64::MAX,
                    graph.wf(),
                    graph@ =~= done + repeated(line, count as nat),
                decreases lines[i as int].1 - count,
            {
                graph.insert(&lines[i].0);
                proof {
                    assert((done + repeated(line, count as nat)).push(line) =~= done + repeated(
                        line,
                        (count + 1) as nat,
                    ));
                }
                count += 1;
            }
            i += 1;
        }
        proof {
            assert(tallies.take(i as int) =~= tallies);
        }
        Some(graph)
    }
}

/// The replies that a list of moves and counts stands for.
pub open spec fn listed(children: Seq<(String, u64)>) -> Seq<Reply> {
    Seq::new(children.len(), |i: int| Reply { san: children[i].0@, visits: children[i].1 as nat })
}

} // verus!
