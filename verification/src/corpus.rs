//! The mathematics of a game corpus.
//!
//! A game is a sequence of moves in algebraic notation, and a corpus is a
//! sequence of games in the order in which they were ingested. Everything a
//! repertoire graph can be asked is a statistic of its corpus; this module
//! defines those statistics and proves the laws that relate them.

use vstd::prelude::*;

verus! {

/// One known continuation of a line: the move, and how many games played it.
pub struct Reply {
    pub san: Seq<char>,
    pub visits: nat,
}

/// `game` starts with the moves of `path`.
pub open spec fn follows(game: Seq<Seq<char>>, path: Seq<Seq<char>>) -> bool {
    path.len() <= game.len() && game.take(path.len() as int) =~= path
}

/// `game` starts with the moves of `path` and goes on after them.
pub open spec fn extends(game: Seq<Seq<char>>, path: Seq<Seq<char>>) -> bool {
    path.len() < game.len() && game.take(path.len() as int) =~= path
}

/// The number of games of the corpus that start with `path`.
pub open spec fn passes(games: Seq<Seq<Seq<char>>>, path: Seq<Seq<char>>) -> nat
    decreases games.len(),
{
    if games.len() == 0 {
        0
    } else {
        passes(games.drop_last(), path) + if follows(games.last(), path) {
            1nat
        } else {
            0nat
        }
    }
}

/// The number of games of the corpus that start with `path` and go on after it.
pub open spec fn continues(games: Seq<Seq<Seq<char>>>, path: Seq<Seq<char>>) -> nat
    decreases games.len(),
{
    if games.len() == 0 {
        0
    } else {
        continues(games.drop_last(), path) + if extends(games.last(), path) {
            1nat
        } else {
            0nat
        }
    }
}

/// A line is known when it is empty or some game of the corpus starts with it.
pub open spec fn known(games: Seq<Seq<Seq<char>>>, path: Seq<Seq<char>>) -> bool {
    path.len() == 0 || passes(games, path) > 0
}

/// `san` is among the replies.
pub open spec fn has_reply(kids: Seq<Reply>, san: Seq<char>) -> bool {
    exists|i: int| 0 <= i < kids.len() && (#[trigger] kids[i]).san == san
}

/// No move occurs twice among the replies.
pub open spec fn distinct(kids: Seq<Reply>) -> bool {
    forall|i: int, j: int|
        0 <= i < j < kids.len() ==> (#[trigger] kids[i]).san != (#[trigger] kids[j]).san
}

/// The replies with one more visit counted for `san`, wherever it occurs.
pub open spec fn raise(kids: Seq<Reply>, san: Seq<char>) -> Seq<Reply> {
    Seq::new(
        kids.len(),
        |i: int|
            if kids[i].san == san {
                Reply { san: san, visits: kids[i].visits + 1 }
            } else {
                kids[i]
            },
    )
}

/// The replies after one more game has played `san`: its count goes up by
/// one, or it joins the end with a count of one.
pub open spec fn bump(kids: Seq<Reply>, san: Seq<char>) -> Seq<Reply> {
    if has_reply(kids, san) {
        raise(kids, san)
    } else {
        kids.push(Reply { san: san, visits: 1 })
    }
}

/// The replies to `path` that the corpus knows, in the order in which they
/// were first played, each with the number of games that played it.
pub open spec fn replies(games: Seq<Seq<Seq<char>>>, path: Seq<Seq<char>>) -> Seq<Reply>
    decreases games.len(),
{
    if games.len() == 0 {
        Seq::empty()
    } else if extends(games.last(), path) {
        bump(replies(games.drop_last(), path), games.last()[path.len() as int])
    } else {
        replies(games.drop_last(), path)
    }
}

/// The sum of the visit counts of the replies.
pub open spec fn total(kids: Seq<Reply>) -> nat
    decreases kids.len(),
{
    if kids.len() == 0 {
        0
    } else {
        total(kids.drop_last()) + kids.last().visits
    }
}

/// Every reply has been played at least once.
pub open spec fn all_played(kids: Seq<Reply>) -> bool {
    forall|i: int| 0 <= i < kids.len() ==> (#[trigger] kids[i]).visits >= 1
}

/// A game starts with `path` and then `san` exactly when it goes on after
/// `path` with `san`.
pub proof fn lemma_follows_push(game: Seq<Seq<char>>, path: Seq<Seq<char>>, san: Seq<char>)
    ensures
        follows(game, path.push(san)) <==> (extends(game, path) && game[path.len() as int] == san),
{
    let longer = path.push(san);
    if follows(game, longer) {
        assert(game.take(longer.len() as int)[path.len() as int] == longer[path.len() as int]);
        assert forall|i: int| 0 <= i < path.len() implies game.take(path.len() as int)[i]
            == path[i] by {
            assert(game.take(longer.len() as int)[i] == longer[i]);
        }
    }
    if extends(game, path) && game[path.len() as int] == san {
        assert forall|i: int| 0 <= i < longer.len() implies game.take(longer.len() as int)[i]
            == longer[i] by {
            if i < path.len() {
                assert(game.take(path.len() as int)[i] == path[i]);
            }
        }
    }
}

/// A game that starts with a line starts with each of its beginnings.
pub proof fn lemma_follows_shorter(game: Seq<Seq<char>>, path: Seq<Seq<char>>, n: int)
    requires
        follows(game, path),
        0 <= n <= path.len(),
    ensures
        follows(game, path.take(n)),
{
    assert forall|i: int| 0 <= i < n implies game.take(n)[i] == path.take(n)[i] by {
        assert(game.take(path.len() as int)[i] == path[i]);
    }
}

/// Fewer games start with a line than with any beginning of it.
pub proof fn lemma_passes_shorter(games: Seq<Seq<Seq<char>>>, path: Seq<Seq<char>>, n: int)
    requires
        0 <= n <= path.len(),
    ensures
        passes(games, path) <= passes(games, path.take(n)),
    decreases games.len(),
{
    if games.len() > 0 {
        lemma_passes_shorter(games.drop_last(), path, n);
        if follows(games.last(), path) {
            lemma_follows_shorter(games.last(), path, n);
        }
    }
}

/// No more games start with a line than there are games, and no more go on
/// after it than start with it.
pub proof fn lemma_counts_bounded(games: Seq<Seq<Seq<char>>>, path: Seq<Seq<char>>)
    ensures
        continues(games, path) <= passes(games, path) <= games.len(),
    decreases games.len(),
{
    if games.len() > 0 {
        lemma_counts_bounded(games.drop_last(), path);
    }
}

/// Raising a move leaves the moves and their order as they were.
pub proof fn lemma_raise_keeps_moves(kids: Seq<Reply>, san: Seq<char>)
    ensures
        raise(kids, san).len() == kids.len(),
        forall|i: int| 0 <= i < kids.len() ==> (#[trigger] raise(kids, san)[i]).san == kids[i].san,
        distinct(kids) ==> distinct(raise(kids, san)),
        all_played(kids) ==> all_played(raise(kids, san)),
        forall|m: Seq<char>| has_reply(raise(kids, san), m) <==> has_reply(kids, m),
{
    let up = raise(kids, san);
    assert forall|m: Seq<char>| has_reply(up, m) <==> has_reply(kids, m) by {
        if has_reply(up, m) {
            let i = choose|i: int| 0 <= i < up.len() && (#[trigger] up[i]).san == m;
            assert(kids[i].san == m);
        }
        if has_reply(kids, m) {
            let i = choose|i: int| 0 <= i < kids.len() && (#[trigger] kids[i]).san == m;
            assert(up[i].san == m);
        }
    }
}

/// What one more game does to the replies: the moves stay distinct and
/// played, and the only new move is the one the game played.
pub proof fn lemma_bump(kids: Seq<Reply>, san: Seq<char>)
    requires
        distinct(kids),
        all_played(kids),
    ensures
        distinct(bump(kids, san)),
        all_played(bump(kids, san)),
        total(bump(kids, san)) == total(kids) + 1,
        forall|m: Seq<char>| has_reply(bump(kids, san), m) <==> (has_reply(kids, m) || m == san),
{
    lemma_raise_keeps_moves(kids, san);
    let next = bump(kids, san);
    if has_reply(kids, san) {
        lemma_total_raise(kids, san);
    } else {
        assert(next.drop_last() =~= kids);
        assert forall|i: int, j: int| 0 <= i < j < next.len() implies (#[trigger] next[i]).san != (
        #[trigger] next[j]).san by {
            if j == kids.len() {
                assert(kids[i].san != san);
            }
        }
        assert forall|m: Seq<char>| has_reply(next, m) <==> (has_reply(kids, m) || m == san) by {
            if has_reply(next, m) {
                let i = choose|i: int| 0 <= i < next.len() && (#[trigger] next[i]).san == m;
                if i < kids.len() {
                    assert(kids[i].san == m);
                }
            }
            if has_reply(kids, m) {
                let i = choose|i: int| 0 <= i < kids.len() && (#[trigger] kids[i]).san == m;
                assert(next[i].san == m);
            }
            if m == san {
                assert(next[kids.len() as int].san == m);
            }
        }
    }
}

/// Raising a move that occurs once adds one to the total, and raising one
/// that does not occur adds nothing.
pub proof fn lemma_total_raise(kids: Seq<Reply>, san: Seq<char>)
    requires
        distinct(kids),
    ensures
        total(raise(kids, san)) == total(kids) + if has_reply(kids, san) {
            1nat
        } else {
            0nat
        },
    decreases kids.len(),
{
    if kids.len() > 0 {
        let front = kids.drop_last();
        assert(raise(kids, san).drop_last() =~= raise(front, san));
        lemma_total_raise(front, san);
        if kids.last().san == san {
            assert(!has_reply(front, san)) by {
                if has_reply(front, san) {
                    let i = choose|i: int| 0 <= i < front.len() && (#[trigger] front[i]).san == san;
                    assert(kids[i].san == san);
                    assert(kids[kids.len() - 1].san == san);
                }
            }
            assert(kids[kids.len() - 1].san == san);
        } else {
            assert(has_reply(kids, san) <==> has_reply(front, san)) by {
                if has_reply(kids, san) {
                    let i = choose|i: int| 0 <= i < kids.len() && (#[trigger] kids[i]).san == san;
                    assert(front[i].san == san);
                }
                if has_reply(front, san) {
                    let i = choose|i: int| 0 <= i < front.len() && (#[trigger] front[i]).san == san;
                    assert(kids[i].san == san);
                }
            }
        }
    } else {
        assert(raise(kids, san) =~= kids);
    }
}

/// The number of games that played `san` among the replies: its visit count,
/// or nothing where it does not occur.
pub open spec fn weight(kids: Seq<Reply>, san: Seq<char>) -> nat {
    if has_reply(kids, san) {
        kids[choose|i: int| 0 <= i < kids.len() && (#[trigger] kids[i]).san == san].visits
    } else {
        0
    }
}

/// Among distinct replies, the weight of a move that occurs is the count
/// that stands beside it.
pub proof fn lemma_weight_at(kids: Seq<Reply>, i: int)
    requires
        distinct(kids),
        0 <= i < kids.len(),
    ensures
        has_reply(kids, kids[i].san),
        weight(kids, kids[i].san) == kids[i].visits,
{
    let san = kids[i].san;
    let j = choose|j: int| 0 <= j < kids.len() && (#[trigger] kids[j]).san == san;
    assert(j == i);
}

/// One more game adds one to the weight of the move it played and leaves
/// the other weights alone.
pub proof fn lemma_weight_bump(kids: Seq<Reply>, san: Seq<char>, m: Seq<char>)
    requires
        distinct(kids),
        all_played(kids),
    ensures
        weight(bump(kids, san), m) == weight(kids, m) + if m == san {
            1nat
        } else {
            0nat
        },
{
    lemma_bump(kids, san);
    lemma_raise_keeps_moves(kids, san);
    let next = bump(kids, san);
    if has_reply(next, m) {
        let j = choose|j: int| 0 <= j < next.len() && (#[trigger] next[j]).san == m;
        lemma_weight_at(next, j);
        if has_reply(kids, san) {
            lemma_weight_at(kids, j);
        } else if j < kids.len() {
            lemma_weight_at(kids, j);
        } else {
            assert(m == san);
        }
    }
}

/// What the replies to a line are, in terms of the games that pass through
/// it: no move occurs twice, each has been played, the counts add up to the
/// number of games that go on after the line, and a move's count is the
/// number of games that start with the line and then that move.
pub proof fn lemma_replies(games: Seq<Seq<Seq<char>>>, path: Seq<Seq<char>>)
    ensures
        distinct(replies(games, path)),
        all_played(replies(games, path)),
        total(replies(games, path)) == continues(games, path),
        forall|m: Seq<char>| #[trigger]
            weight(replies(games, path), m) == passes(games, path.push(m)),
        forall|m: Seq<char>| #[trigger]
            has_reply(replies(games, path), m) <==> passes(games, path.push(m)) > 0,
    decreases games.len(),
{
    if games.len() > 0 {
        let before = games.drop_last();
        let game = games.last();
        let kids = replies(before, path);
        lemma_replies(before, path);
        assert forall|m: Seq<char>| #[trigger]
            weight(replies(games, path), m) == passes(games, path.push(m)) by {
            lemma_follows_push(game, path, m);
            if extends(game, path) {
                lemma_weight_bump(kids, game[path.len() as int], m);
            }
        }
        assert forall|m: Seq<char>| #[trigger]
            has_reply(replies(games, path), m) <==> passes(games, path.push(m)) > 0 by {
            lemma_follows_push(game, path, m);
            assert(has_reply(kids, m) <==> passes(before, path.push(m)) > 0);
            if extends(game, path) {
                lemma_bump(kids, game[path.len() as int]);
            }
        }
        if extends(game, path) {
            lemma_bump(kids, game[path.len() as int]);
        }
    }
}

/// No reply has more visits than all replies together.
pub proof fn lemma_visits_within_total(kids: Seq<Reply>, i: int)
    requires
        0 <= i < kids.len(),
    ensures
        kids[i].visits <= total(kids),
    decreases kids.len(),
{
    if i < kids.len() - 1 {
        lemma_visits_within_total(kids.drop_last(), i);
    }
}

/// The total of a beginning of the replies is no more than the total of all.
pub proof fn lemma_total_take(kids: Seq<Reply>, n: int)
    requires
        0 <= n <= kids.len(),
    ensures
        total(kids.take(n)) <= total(kids),
    decreases kids.len(),
{
    if n < kids.len() {
        assert(kids.drop_last().take(n) =~= kids.take(n));
        lemma_total_take(kids.drop_last(), n);
    } else {
        assert(kids.take(n) =~= kids);
    }
}

/// Of the games ingested, those that go on after a line are counted once
/// each among its replies: the visit counts of a line's replies add up to
/// the number of games that pass through the line, which is never more than
/// the number of games. With the games that end on the line, they add up to
/// the games that start with it. And each reply has the visits of the line
/// that it leads to.
pub proof fn lemma_children_total(games: Seq<Seq<Seq<char>>>, path: Seq<Seq<char>>)
    ensures
        total(replies(games, path)) == continues(games, path),
        total(replies(games, path)) <= games.len(),
        total(replies(games, path)) + ends(games, path) == passes(games, path),
        forall|i: int|
            0 <= i < replies(games, path).len() ==> (#[trigger] replies(games, path)[i]).visits
                == passes(games, path.push(replies(games, path)[i].san)),
{
    lemma_replies(games, path);
    lemma_counts_bounded(games, path);
    lemma_passes_split(games, path);
    let kids = replies(games, path);
    assert forall|i: int| 0 <= i < kids.len() implies (#[trigger] kids[i]).visits == passes(
        games,
        path.push(kids[i].san),
    ) by {
        lemma_weight_at(kids, i);
        assert(weight(kids, kids[i].san) == passes(games, path.push(kids[i].san)));
    }
}

/// A line that no game starts with has no replies.
pub proof fn lemma_unknown_has_no_replies(games: Seq<Seq<Seq<char>>>, path: Seq<Seq<char>>)
    requires
        passes(games, path) == 0,
    ensures
        replies(games, path) =~= Seq::<Reply>::empty(),
    decreases games.len(),
{
    if games.len() > 0 {
        lemma_unknown_has_no_replies(games.drop_last(), path);
    }
}

/// Taking one game out of the corpus takes it out of the count if it starts
/// with the line, and changes nothing else.
pub proof fn lemma_passes_remove(games: Seq<Seq<Seq<char>>>, k: int, path: Seq<Seq<char>>)
    requires
        0 <= k < games.len(),
    ensures
        passes(games, path) == passes(games.remove(k), path) + if follows(games[k], path) {
            1nat
        } else {
            0nat
        },
    decreases games.len(),
{
    if k == games.len() - 1 {
        assert(games.remove(k) =~= games.drop_last());
    } else {
        assert(games.remove(k).drop_last() =~= games.drop_last().remove(k));
        assert(games.remove(k).last() == games.last());
        lemma_passes_remove(games.drop_last(), k, path);
    }
}

/// The order in which games are ingested does not matter to the counts: two
/// corpora that hold the same games, each as often as the other, know the
/// same lines, and each line and each reply has the same number of visits in
/// both.
pub proof fn lemma_order_irrelevant(
    first: Seq<Seq<Seq<char>>>,
    second: Seq<Seq<Seq<char>>>,
    path: Seq<Seq<char>>,
)
    requires
        first.to_multiset() =~= second.to_multiset(),
    ensures
        passes(first, path) == passes(second, path),
        known(first, path) == known(second, path),
        forall|m: Seq<char>|
            weight(replies(first, path), m) == weight(replies(second, path), m),
        forall|m: Seq<char>|
            has_reply(replies(first, path), m) == has_reply(replies(second, path), m),
{
    lemma_passes_permuted(first, second, path);
    lemma_replies(first, path);
    lemma_replies(second, path);
    assert forall|m: Seq<char>|
        weight(replies(first, path), m) == weight(replies(second, path), m) by {
        lemma_passes_permuted(first, second, path.push(m));
        assert(weight(replies(first, path), m) == passes(first, path.push(m)));
        assert(weight(replies(second, path), m) == passes(second, path.push(m)));
    }
    assert forall|m: Seq<char>|
        has_reply(replies(first, path), m) == has_reply(replies(second, path), m) by {
        lemma_passes_permuted(first, second, path.push(m));
        assert(has_reply(replies(first, path), m) <==> passes(first, path.push(m)) > 0);
        assert(has_reply(replies(second, path), m) <==> passes(second, path.push(m)) > 0);
    }
}

/// Two corpora that hold the same games have as many that start with a line.
pub proof fn lemma_passes_permuted(
    first: Seq<Seq<Seq<char>>>,
    second: Seq<Seq<Seq<char>>>,
    path: Seq<Seq<char>>,
)
    requires
        first.to_multiset() =~= second.to_multiset(),
    ensures
        passes(first, path) == passes(second, path),
    decreases first.len(),
{
    first.to_multiset_ensures();
    second.to_multiset_ensures();
    if first.len() == 0 {
        assert(second.len() == 0);
    } else {
        let game = first.last();
        let rest = first.drop_last();
        assert(first.contains(game)) by {
            assert(first[first.len() - 1] == game);
        }
        assert(first.to_multiset().count(game) > 0);
        assert(second.to_multiset().count(game) > 0);
        assert(second.contains(game));
        let k = choose|k: int| 0 <= k < second.len() && second[k] == game;
        assert(rest =~= first.remove(first.len() - 1));
        assert(rest.to_multiset() =~= second.remove(k).to_multiset());
        lemma_passes_permuted(rest, second.remove(k), path);
        lemma_passes_remove(second, k, path);
    }
}

/// The number of games of the corpus that are exactly the line `path`.
pub open spec fn ends(games: Seq<Seq<Seq<char>>>, path: Seq<Seq<char>>) -> nat
    decreases games.len(),
{
    if games.len() == 0 {
        0
    } else {
        ends(games.drop_last(), path) + if games.last() =~= path {
            1nat
        } else {
            0nat
        }
    }
}

/// A line, and a number of games that played it and nothing more.
pub struct Tally {
    pub line: Seq<Seq<char>>,
    pub games: nat,
}

/// The number of games that the tallies hold for a line.
pub open spec fn stored(tallies: Seq<Tally>, path: Seq<Seq<char>>) -> nat
    decreases tallies.len(),
{
    if tallies.len() == 0 {
        0
    } else {
        stored(tallies.drop_last(), path) + if tallies.last().line =~= path {
            tallies.last().games
        } else {
            0nat
        }
    }
}

/// The number of games that the tallies hold in all.
pub open spec fn volume(tallies: Seq<Tally>) -> nat
    decreases tallies.len(),
{
    if tallies.len() == 0 {
        0
    } else {
        volume(tallies.drop_last()) + tallies.last().games
    }
}

/// A corpus of one game, ingested `times` times.
pub open spec fn repeated(game: Seq<Seq<char>>, times: nat) -> Seq<Seq<Seq<char>>> {
    Seq::new(times, |i: int| game)
}

/// The corpus that the tallies stand for: tally by tally, the line of each
/// as often as it counts.
pub open spec fn unfolded(tallies: Seq<Tally>) -> Seq<Seq<Seq<char>>>
    decreases tallies.len(),
{
    if tallies.len() == 0 {
        Seq::empty()
    } else {
        unfolded(tallies.drop_last()) + repeated(tallies.last().line, tallies.last().games)
    }
}

/// Every game starts with the empty line.
pub proof fn lemma_passes_root(games: Seq<Seq<Seq<char>>>)
    ensures
        passes(games, Seq::empty()) == games.len(),
    decreases games.len(),
{
    if games.len() > 0 {
        lemma_passes_root(games.drop_last());
        assert(games.last().take(0) =~= Seq::<Seq<char>>::empty());
    }
}

/// A game that starts with a line either ends there or goes on.
pub proof fn lemma_passes_split(games: Seq<Seq<Seq<char>>>, path: Seq<Seq<char>>)
    ensures
        passes(games, path) == continues(games, path) + ends(games, path),
    decreases games.len(),
{
    if games.len() > 0 {
        lemma_passes_split(games.drop_last(), path);
        let game = games.last();
        if game =~= path {
            assert(game.take(path.len() as int) =~= path);
        }
        if follows(game, path) && !extends(game, path) {
            assert(game.take(game.len() as int) =~= game);
        }
    }
}

/// The games that are a line are the occurrences of the line in the corpus.
pub proof fn lemma_ends_counts(games: Seq<Seq<Seq<char>>>, path: Seq<Seq<char>>)
    ensures
        ends(games, path) == games.to_multiset().count(path),
    decreases games.len(),
{
    if games.len() == 0 {
        games.to_multiset_ensures();
        assert(games.to_multiset().len() == 0);
    } else {
        let before = games.drop_last();
        lemma_ends_counts(before, path);
        before.to_multiset_ensures();
        assert(before.push(games.last()) =~= games);
        assert(games.to_multiset() =~= before.to_multiset().insert(games.last()));
    }
}

/// Two corpora in which every line ends as many games hold the same games:
/// as many start with any line in the one as in the other, and the replies
/// to any line have the same visits in both.
pub proof fn lemma_same_games_same_counts(
    first: Seq<Seq<Seq<char>>>,
    second: Seq<Seq<Seq<char>>>,
    path: Seq<Seq<char>>,
)
    requires
        forall|p: Seq<Seq<char>>| ends(first, p) == ends(second, p),
    ensures
        first.len() == second.len(),
        passes(first, path) == passes(second, path),
        known(first, path) == known(second, path),
        forall|m: Seq<char>|
            weight(replies(first, path), m) == weight(replies(second, path), m),
        forall|m: Seq<char>|
            has_reply(replies(first, path), m) == has_reply(replies(second, path), m),
{
    assert forall|p: Seq<Seq<char>>| first.to_multiset().count(p) == second.to_multiset().count(
        p,
    ) by {
        lemma_ends_counts(first, p);
        lemma_ends_counts(second, p);
    }
    assert(first.to_multiset() =~= second.to_multiset());
    first.to_multiset_ensures();
    second.to_multiset_ensures();
    lemma_order_irrelevant(first, second, path);
}

/// Ending is counted corpus by corpus.
pub proof fn lemma_ends_add(
    first: Seq<Seq<Seq<char>>>,
    second: Seq<Seq<Seq<char>>>,
    path: Seq<Seq<char>>,
)
    ensures
        ends(first + second, path) == ends(first, path) + ends(second, path),
    decreases second.len(),
{
    if second.len() == 0 {
        assert(first + second =~= first);
    } else {
        assert((first + second).drop_last() =~= first + second.drop_last());
        assert((first + second).last() == second.last());
        lemma_ends_add(first, second.drop_last(), path);
    }
}

/// A game ingested some number of times ends that many games on its own
/// line and none on another.
pub proof fn lemma_ends_repeated(game: Seq<Seq<char>>, times: nat, path: Seq<Seq<char>>)
    ensures
        ends(repeated(game, times), path) == if game =~= path {
            times
        } else {
            0nat
        },
    decreases times,
{
    if times > 0 {
        assert(repeated(game, times).drop_last() =~= repeated(game, (times - 1) as nat));
        lemma_ends_repeated(game, (times - 1) as nat, path);
    }
}

/// The corpus that tallies stand for ends on every line the games that the
/// tallies hold for it, and has as many games as they hold in all.
pub proof fn lemma_unfolded(tallies: Seq<Tally>, path: Seq<Seq<char>>)
    ensures
        ends(unfolded(tallies), path) == stored(tallies, path),
        unfolded(tallies).len() == volume(tallies),
    decreases tallies.len(),
{
    if tallies.len() > 0 {
        let last = tallies.last();
        lemma_unfolded(tallies.drop_last(), path);
        lemma_ends_add(unfolded(tallies.drop_last()), repeated(last.line, last.games), path);
        lemma_ends_repeated(last.line, last.games, path);
    }
}

/// Tallies that hold for every line the games that a corpus ends there
/// stand for a corpus with the same counts: nothing is lost in the tallies.
pub proof fn lemma_tallies_keep_counts(
    games: Seq<Seq<Seq<char>>>,
    tallies: Seq<Tally>,
    path: Seq<Seq<char>>,
)
    requires
        forall|p: Seq<Seq<char>>| stored(tallies, p) == ends(games, p),
    ensures
        volume(tallies) == games.len(),
        passes(unfolded(tallies), path) == passes(games, path),
        known(unfolded(tallies), path) == known(games, path),
        forall|m: Seq<char>|
            weight(replies(unfolded(tallies), path), m) == weight(replies(games, path), m),
{
    assert forall|p: Seq<Seq<char>>| ends(unfolded(tallies), p) == ends(games, p) by {
        lemma_unfolded(tallies, p);
    }
    lemma_unfolded(tallies, path);
    lemma_same_games_same_counts(unfolded(tallies), games, path);
}

/// The first tallies hold no more games than all of them.
pub proof fn lemma_volume_take(tallies: Seq<Tally>, n: int)
    requires
        0 <= n <= tallies.len(),
    ensures
        volume(tallies.take(n)) <= volume(tallies),
    decreases tallies.len(),
{
    if n < tallies.len() {
        assert(tallies.drop_last().take(n) =~= tallies.take(n));
        lemma_volume_take(tallies.drop_last(), n);
    } else {
        assert(tallies.take(n) =~= tallies);
    }
}

} // verus!
