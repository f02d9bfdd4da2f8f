//! The search itself: simulation passes that grow the tree, and the advice
//! read off it.

use vstd::prelude::*;
use std::marker::PhantomData;
use crate::game::{lemma_final_position_stays, played_out, random_play, Game};
use crate::node::{
    credited, lemma_credit_is_one_win, lemma_root_is_well_formed, lemma_visits_below_update, total,
    visits_below, Node,
};
use crate::score::{Evaluator, ExploitVsExplore, PLAYER_LIMIT, VISIT_LIMIT};

verus! {

/// What one simulation pass through a node does to it.
///
/// The node gains one visit and the credit of `winner`, and stays well
/// formed. A node with a cached winner reports that winner and is otherwise
/// untouched. A node visited for the first time takes its winner from a
/// line of legal moves played out to the end, gets its children, all bare,
/// and caches the winner if it has none. Any other node hands the
/// pass to exactly one child, one that `strategy` favours for the player to
/// move, through which the pass runs in the same way and with the same
/// winner.
pub open spec fn passed<Game_: Game<Choice>, Choice: Clone, E: Evaluator>(
    before: Node<Game_, Choice>,
    after: Node<Game_, Choice>,
    winner: usize,
    players: nat,
    strategy: E,
) -> bool
    decreases before,
{
    &&& after.wf(players)
    &&& after.visits == before.visits + 1
    &&& winner <= players
    &&& credited(before.wins@, after.wins@, winner as int, players as int)
    &&& after.game_state == before.game_state
    &&& after.choice == before.choice
    &&& (before.winner matches Some(w) ==> winner == w && after.winner == before.winner
        && after.next@ == before.next@)
    &&& (before.visits == 0 ==> {
        &&& after.next@.len() == before.game_state.choices().len()
        &&& visits_below(after.next@) == 0
        &&& (before.game_state.choices().len() == 0 ==> after.winner == Some(winner) && winner
            == before.game_state.winner())
        &&& exists|end: Game_, steps: Seq<(Game_, Choice)>|
            {
                &&& #[trigger] played_out(before.game_state, end, steps)
                &&& end.choices().len() == 0
                &&& winner == end.winner()
            }
    })
    &&& (before.visits > 0 && before.winner is None ==> after.winner is None && exists|i: int|
        {
            &&& 0 <= i < before.next@.len()
            &&& after.next@ == before.next@.update(i, #[trigger] after.next[i])
            &&& before.favours(strategy, i, before.game_state.turn() as int)
            &&& passed(before.next[i], after.next[i], winner, players, strategy)
        })
}

/// What `cycles` passes from the root do to a tree: each is a pass as
/// [`passed`] describes it, one after the other.
pub open spec fn searched<Game_: Game<Choice>, Choice: Clone, E: Evaluator>(
    before: Node<Game_, Choice>,
    after: Node<Game_, Choice>,
    cycles: nat,
    players: nat,
    strategy: E,
) -> bool {
    &&& after.wf(players)
    &&& after.visits == before.visits + cycles
    &&& after.game_state == before.game_state
    &&& after.choice == before.choice
    &&& (before.winner is Some ==> after.winner == before.winner)
    &&& exists|passes: Seq<(Node<Game_, Choice>, usize)>|
        passes.len() == cycles && #[trigger] pass_chain(
            before,
            after,
            passes,
            players,
            strategy,
        )
}

/// Whether `passes` lists, pass by pass, the tree before the pass and the
/// winner of the pass, on the way from `before` to `after`.
pub open spec fn pass_chain<Game_: Game<Choice>, Choice: Clone, E: Evaluator>(
    before: Node<Game_, Choice>,
    after: Node<Game_, Choice>,
    passes: Seq<(Node<Game_, Choice>, usize)>,
    players: nat,
    strategy: E,
) -> bool {
    &&& (passes.len() == 0 ==> after == before)
    &&& (passes.len() > 0 ==> passes[0].0 == before && passed(
        passes.last().0,
        after,
        passes.last().1,
        players,
        strategy,
    ))
    &&& forall|k: int|
        0 < k < passes.len() ==> passed(
            passes[k - 1].0,
            (#[trigger] passes[k]).0,
            passes[k - 1].1,
            players,
            strategy,
        )
}

/// A chain of passes without its last pass is a chain up to the tree that
/// the last pass started from.
pub proof fn lemma_chain_front<Game_: Game<Choice>, Choice: Clone, E: Evaluator>(
    before: Node<Game_, Choice>,
    after: Node<Game_, Choice>,
    passes: Seq<(Node<Game_, Choice>, usize)>,
    players: nat,
    strategy: E,
)
    requires
        pass_chain(before, after, passes, players, strategy),
        passes.len() > 0,
    ensures
        pass_chain(before, passes.last().0, passes.drop_last(), players, strategy),
        passed(passes.last().0, after, passes.last().1, players, strategy),
{
    let front = passes.drop_last();
    if front.len() > 0 {
        let n = passes.len() - 1;
        assert(front.last() == passes[n - 1]);
        assert(front[0] == passes[0]);
        assert(passed(passes[n - 1].0, passes[n].0, passes[n - 1].1, players, strategy));
        assert forall|k: int| 0 < k < front.len() implies passed(
            front[k - 1].0,
            (#[trigger] front[k]).0,
            front[k - 1].1,
            players,
            strategy,
        ) by {
            assert(front[k] == passes[k]);
            assert(front[k - 1] == passes[k - 1]);
        }
    }
}

/// The visit count of a node grows by exactly one with every pass through
/// it: after a chain of passes it has grown by their number.
pub proof fn lemma_visits_count_passes<Game_: Game<Choice>, Choice: Clone, E: Evaluator>(
    before: Node<Game_, Choice>,
    after: Node<Game_, Choice>,
    passes: Seq<(Node<Game_, Choice>, usize)>,
    players: nat,
    strategy: E,
)
    requires
        pass_chain(before, after, passes, players, strategy),
    ensures
        after.visits == before.visits + passes.len(),
    decreases passes.len(),
{
    if passes.len() > 0 {
        lemma_chain_front(before, after, passes, players, strategy);
        lemma_visits_count_passes(
            before,
            passes.last().0,
            passes.drop_last(),
            players,
            strategy,
        );
    }
}

/// A pass adds exactly one win to the credit of the node it runs through:
/// `players` units in all, to the winner or split evenly on a draw.
pub proof fn lemma_pass_hands_out_one_win<Game_: Game<Choice>, Choice: Clone, E: Evaluator>(
    before: Node<Game_, Choice>,
    after: Node<Game_, Choice>,
    winner: usize,
    players: nat,
    strategy: E,
)
    requires
        before.wf(players),
        passed(before, after, winner, players, strategy),
    ensures
        total(after.wins@) == total(before.wins@) + players,
{
    lemma_credit_is_one_win(before.wins@, after.wins@, winner as int, players as int);
}

/// Once a node holds a cached winner, every later pass through it reports
/// that winner, and the node keeps the winner and stays without children.
pub proof fn lemma_cached_winner_is_stable<Game_: Game<Choice>, Choice: Clone, E: Evaluator>(
    before: Node<Game_, Choice>,
    after: Node<Game_, Choice>,
    passes: Seq<(Node<Game_, Choice>, usize)>,
    players: nat,
    strategy: E,
)
    requires
        before.wf(players),
        before.winner is Some,
        pass_chain(before, after, passes, players, strategy),
    ensures
        after.winner == before.winner,
        after.next@.len() == 0,
        forall|k: int| 0 <= k < passes.len() ==> Some((#[trigger] passes[k]).1) == before.winner,
    decreases passes.len(),
{
    if passes.len() > 0 {
        let front = passes.drop_last();
        lemma_chain_front(before, after, passes, players, strategy);
        lemma_cached_winner_is_stable(before, passes.last().0, front, players, strategy);
        assert forall|k: int| 0 <= k < passes.len() implies Some((#[trigger] passes[k]).1)
            == before.winner by {
            if k < front.len() {
                assert(front[k] == passes[k]);
            }
        }
    }
}

/// What a whole piece of advice does: a search of `cycles` passes from
/// `base` to `mid`, then a recommendation that leaves `after`.
pub open spec fn advised<Game_: Game<Choice>, Choice: Clone, E: Evaluator>(
    base: Node<Game_, Choice>,
    mid: Node<Game_, Choice>,
    after: Node<Game_, Choice>,
    r: Option<Choice>,
    cycles: nat,
    players: nat,
    strategy: E,
) -> bool {
    searched(base, mid, cycles, players, strategy) && recommended(mid, after, r)
}

/// What a recommendation does to a tree, and which move it names.
///
/// Without children there is no move and the tree stays as it is. With
/// children the move is that of a child whose success rate, for the player
/// to move, no other child exceeds, and the tree becomes that child's
/// subtree.
pub open spec fn recommended<Game_: Game<Choice>, Choice: Clone>(
    before: Node<Game_, Choice>,
    after: Node<Game_, Choice>,
    r: Option<Choice>,
) -> bool {
    if before.next@.len() == 0 {
        r is None && after == before
    } else {
        exists|i: int|
            {
                &&& r == Some(before.game_state.choices()[i])
                &&& #[trigger] after.descended_from(before, i)
                &&& forall|j: int|
                    0 <= j < before.next@.len() ==> (#[trigger] before.success(
                        j,
                        before.game_state.turn() as int,
                    )).at_most(before.success(i, before.game_state.turn() as int))
            }
    }
}

/// A search engine for one game: the number of players and the rule by
/// which the search picks the child to descend into.
pub struct MCTS<Game_, Choice, Bound> where Game_: Game<Choice>, Choice: Clone, Bound: Evaluator {
    pub players: usize,
    pub exploit_vs_explore: ExploitVsExplore<Bound>,
    pub marker: PhantomData<(Game_, Choice)>,
}

impl<Game_, Choice, Bound> MCTS<Game_, Choice, Bound> where
    Game_: Game<Choice>,
    Choice: Clone,
    Bound: Evaluator,
 {
    /// Whether the number of players is one the engine accepts.
    pub open spec fn wf(&self) -> bool {
        1 <= self.players <= PLAYER_LIMIT
    }

    /// An engine for the game that `initial_game_state` belongs to.
    pub fn new(initial_game_state: &Game_, exploit_vs_explore: ExploitVsExplore<Bound>) -> (engine:
        Self)
        requires
            initial_game_state.players() <= PLAYER_LIMIT,
        ensures
            engine.wf(),
            engine.players == initial_game_state.players(),
            engine.exploit_vs_explore == exploit_vs_explore,
    {
        let players = initial_game_state.get_num_players();
        MCTS { players, exploit_vs_explore, marker: PhantomData }
    }

    /// Runs one simulation pass through `node` and returns its winner.
    pub fn mcts(&self, node: &mut Node<Game_, Choice>) -> (winner: usize)
        requires
            self.wf(),
            old(node).wf(self.players as nat),
            old(node).visits < VISIT_LIMIT,
        ensures
            passed(*old(node), *final(node), winner, self.players as nat, self.exploit_vs_explore),
        decreases old(node).game_state.horizon(),
    {
        let ghost before = *node;
        if node.visits == 0 {
            let mut playout = node.game_state.duplicate();
            let winner = random_play(&mut playout);
            proof {
                let steps = choose|steps: Seq<(Game_, Choice)>| #[trigger]
                    played_out(before.game_state, playout, steps);
                if before.game_state.choices().len() == 0 {
                    lemma_final_position_stays(before.game_state, playout, steps);
                }
            }
            node.expand(self.players);
            if node.next.len() == 0 {
                node.winner = Some(winner);
            }
            return node.update(winner, self.players);
        }
        if let Some(winner) = node.winner {
            return node.update(winner, self.players);
        }
        let turn = node.game_state.get_turn();
        let picked = node.best_next_index(turn, &self.exploit_vs_explore);
        let next: usize = match picked {
            Some(i) => i,
            None => {
                proof {
                    assert(false);
                }
                0
            },
        };
        proof {
            lemma_visits_below_update(before.next@, next as int, before.next[next as int]);
        }
        let winner = self.mcts(&mut node.next[next]);
        proof {
            lemma_visits_below_update(before.next@, next as int, node.next[next as int]);
        }
        node.update(winner, self.players)
    }

    /// Runs `cycles` passes from the root of `tree`.
    pub fn search(&self, tree: &mut Node<Game_, Choice>, cycles: usize)
        requires
            self.wf(),
            old(tree).wf(self.players as nat),
            old(tree).visits + cycles <= VISIT_LIMIT,
        ensures
            searched(
                *old(tree),
                *final(tree),
                cycles as nat,
                self.players as nat,
                self.exploit_vs_explore,
            ),
    {
        let mut done: usize = 0;
        let ghost mut passes: Seq<(Node<Game_, Choice>, usize)> = Seq::empty();
        while done < cycles
            invariant
                done <= cycles,
                self.wf(),
                old(tree).visits + cycles <= VISIT_LIMIT,
                tree.wf(self.players as nat),
                tree.visits == old(tree).visits + done,
                tree.game_state == old(tree).game_state,
                tree.choice == old(tree).choice,
                old(tree).winner is Some ==> tree.winner == old(tree).winner,
                passes.len() == done,
                pass_chain(*old(tree), *tree, passes, self.players as nat, self.exploit_vs_explore),
            decreases cycles - done,
        {
            let ghost here = *tree;
            let winner = self.mcts(tree);
            proof {
                passes = passes.push((here, winner));
            }
            done = done + 1;
        }
    }

    /// Names the most successful move at the root of `tree`, if there is
    /// one, and moves the tree down to it.
    pub fn recommend(&self, tree: &mut Node<Game_, Choice>) -> (r: Option<Choice>)
        requires
            self.wf(),
            old(tree).wf(self.players as nat),
        ensures
            recommended(*old(tree), *final(tree), r),
            final(tree).wf(self.players as nat),
    {
        let ghost before = *tree;
        let turn = tree.game_state.get_turn();
        match tree.most_successful(turn) {
            None => None,
            Some(index) => {
                let choice = tree.commit(index);
                proof {
                    lemma_root_is_well_formed(
                        before.next[index as int],
                        *tree,
                        self.players as nat,
                    );
                }
                choice
            },
        }
    }

    /// Runs `cycles` passes on `tree`, then recommends a move and moves the
    /// tree down to it. The move is a legal one of the root's position;
    /// there is none exactly when the root has no children after the
    /// passes: the position is final, or nothing was ever searched.
    pub fn advise_with_tree(&self, tree: &mut Node<Game_, Choice>, cycles: usize) -> (r: Option<
        Choice,
    >)
        requires
            self.wf(),
            old(tree).wf(self.players as nat),
            old(tree).visits + cycles <= VISIT_LIMIT,
        ensures
            final(tree).wf(self.players as nat),
            r is None <==> old(tree).game_state.choices().len() == 0 || (old(tree).visits == 0
                && cycles == 0),
            r matches Some(c) ==> old(tree).game_state.choices().contains(c)
                && final(tree).game_state == old(tree).game_state.after(c),
            r is None ==> searched(
                *old(tree),
                *final(tree),
                cycles as nat,
                self.players as nat,
                self.exploit_vs_explore,
            ),
            exists|mid: Node<Game_, Choice>| #[trigger]
                advised(
                    *old(tree),
                    mid,
                    *final(tree),
                    r,
                    cycles as nat,
                    self.players as nat,
                    self.exploit_vs_explore,
                ),
    {
        self.search(tree, cycles);
        let ghost mid = *tree;
        let r = self.recommend(tree);
        proof {
            assert(advised(
                *old(tree),
                mid,
                *tree,
                r,
                cycles as nat,
                self.players as nat,
                self.exploit_vs_explore,
            ));
        }
        r
    }

    /// Recommends a move for `game_state`: none at once, without any pass,
    /// where the position is final; else the recommendation after `cycles`
    /// passes on a fresh tree, which is a legal move, or none where no pass
    /// was asked for.
    pub fn advise(&self, game_state: &Game_, cycles: usize) -> (r: Option<Choice>)
        requires
            self.wf(),
            game_state.players() == self.players,
            cycles <= VISIT_LIMIT,
        ensures
            r is None <==> game_state.choices().len() == 0 || cycles == 0,
            r matches Some(c) ==> game_state.choices().contains(c),
            game_state.choices().len() > 0 ==> exists|
                base: Node<Game_, Choice>,
                mid: Node<Game_, Choice>,
                after: Node<Game_, Choice>,
            |
                {
                    &&& #[trigger] advised(
                        base,
                        mid,
                        after,
                        r,
                        cycles as nat,
                        self.players as nat,
                        self.exploit_vs_explore,
                    )
                    &&& base.game_state == *game_state
                    &&& base.visits == 0
                    &&& base.choice is None
                    &&& base.wf(self.players as nat)
                },
    {
        if game_state.get_choices().len() == 0 {
            return None;
        }
        let mut base_node = Node::default(game_state.duplicate(), self.players);
        let ghost base = base_node;
        let r = self.advise_with_tree(&mut base_node, cycles);
        proof {
            let mid = choose|mid: Node<Game_, Choice>| #[trigger]
                advised(
                    base,
                    mid,
                    base_node,
                    r,
                    cycles as nat,
                    self.players as nat,
                    self.exploit_vs_explore,
                );
            assert(advised(
                base,
                mid,
                base_node,
                r,
                cycles as nat,
                self.players as nat,
                self.exploit_vs_explore,
            ));
        }
        r
    }
}

} // verus!
