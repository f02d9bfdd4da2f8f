//! The search tree: one node per position reached, with the statistics of
//! the passes that ran through it.

use vstd::prelude::*;
use vstd::std_specs::cmp::PartialEqSpec;
use crate::game::Game;
use crate::score::{
    exploitation_score, exploitation_value, leader_at, leader_count, leaders_before, leads,
    pick_best, Evaluator, Score, PLAYER_LIMIT, VISIT_LIMIT,
};

verus! {

/// The sum of a credit vector.
pub open spec fn total(s: Seq<u64>) -> int
    decreases s.len(),
{
    if s.len() == 0 {
        0
    } else {
        total(s.drop_last()) + s.last()
    }
}

/// What one outcome adds to the entry of player `p + 1`: a win gives the
/// winner `players` units, a draw gives every player one unit.
pub open spec fn share(winner: int, players: int, p: int) -> int {
    if winner == 0 {
        1
    } else if p == winner - 1 {
        players
    } else {
        0
    }
}

/// Whether `after` is `before` with the credit of one outcome added.
pub open spec fn credited(before: Seq<u64>, after: Seq<u64>, winner: int, players: int) -> bool {
    &&& after.len() == before.len()
    &&& forall|p: int|
        0 <= p < before.len() ==> #[trigger] after[p] == before[p] + share(winner, players, p)
}

proof fn lemma_total_of_shares(before: Seq<u64>, after: Seq<u64>, winner: int, players: int)
    requires
        credited(before, after, winner, players),
        0 <= winner,
    ensures
        total(after) == total(before) + (if winner == 0 {
            before.len() as int
        } else if winner <= before.len() {
            players
        } else {
            0
        }),
    decreases before.len(),
{
    if before.len() > 0 {
        let b = before.drop_last();
        let a = after.drop_last();
        assert forall|p: int| 0 <= p < b.len() implies #[trigger] a[p] == b[p] + share(
            winner,
            players,
            p,
        ) by {
            assert(after[p] == before[p] + share(winner, players, p));
        }
        lemma_total_of_shares(b, a, winner, players);
        assert(after.last() == before.last() + share(winner, players, before.len() - 1));
    }
}

/// Every pass hands out exactly one win: the credit added over all players
/// is `players` units, whether one player takes it all or a draw splits it
/// evenly.
pub proof fn lemma_credit_is_one_win(
    before: Seq<u64>,
    after: Seq<u64>,
    winner: int,
    players: int,
)
    requires
        credited(before, after, winner, players),
        before.len() == players,
        0 <= winner <= players,
    ensures
        total(after) == total(before) + players,
{
    lemma_total_of_shares(before, after, winner, players);
}

/// The sum of a credit vector is not negative.
pub proof fn lemma_total_nonnegative(s: Seq<u64>)
    ensures
        0 <= total(s),
    decreases s.len(),
{
    if s.len() > 0 {
        lemma_total_nonnegative(s.drop_last());
    }
}

/// No entry of a credit vector exceeds its sum.
pub proof fn lemma_entry_at_most_total(s: Seq<u64>, i: int)
    requires
        0 <= i < s.len(),
    ensures
        s[i] <= total(s),
    decreases s.len(),
{
    lemma_total_nonnegative(s.drop_last());
    if i < s.len() - 1 {
        lemma_entry_at_most_total(s.drop_last(), i);
        assert(s.drop_last()[i] == s[i]);
    }
}

/// One position of the tree, with everything below it.
pub struct Node<Game_, Choice> where Game_: Game<Choice>, Choice: Clone {
    /// The outcome, once the position is known to be final.
    pub winner: Option<usize>,
    /// The position.
    pub game_state: Game_,
    /// The move that led here; `None` at the root.
    pub choice: Option<Choice>,
    /// Credit per player, in units of which one win holds `players`.
    pub wins: Vec<u64>,
    /// Number of passes that ran through this node.
    pub visits: u64,
    /// One child per legal move, in the order of the moves.
    pub next: Vec<Node<Game_, Choice>>,
}

/// The sum of the visit counts of `children`.
pub open spec fn visits_below<Game_: Game<Choice>, Choice: Clone>(
    children: Seq<Node<Game_, Choice>>,
) -> int
    decreases children.len(),
{
    if children.len() == 0 {
        0
    } else {
        visits_below(children.drop_last()) + children.last().visits
    }
}

/// Replacing one child changes the sum by the difference of the visit
/// counts.
pub proof fn lemma_visits_below_update<Game_: Game<Choice>, Choice: Clone>(
    children: Seq<Node<Game_, Choice>>,
    i: int,
    child: Node<Game_, Choice>,
)
    requires
        0 <= i < children.len(),
    ensures
        visits_below(children.update(i, child)) == visits_below(children) - children[i].visits
            + child.visits,
        0 <= children[i].visits <= visits_below(children),
    decreases children.len(),
{
    let after = children.update(i, child);
    lemma_visits_below_nonnegative(children.drop_last());
    if i == children.len() - 1 {
        assert(after.drop_last() =~= children.drop_last());
    } else {
        assert(after.drop_last() =~= children.drop_last().update(i, child));
        lemma_visits_below_update(children.drop_last(), i, child);
    }
}

proof fn lemma_visits_below_nonnegative<Game_: Game<Choice>, Choice: Clone>(
    children: Seq<Node<Game_, Choice>>,
)
    ensures
        0 <= visits_below(children),
    decreases children.len(),
{
    if children.len() > 0 {
        lemma_visits_below_nonnegative(children.drop_last());
    }
}

/// A credit vector of `players` zeros.
fn zeros(players: usize) -> (wins: Vec<u64>)
    ensures
        wins@.len() == players,
        forall|p: int| 0 <= p < players ==> wins@[p] == 0,
        total(wins@) == 0,
{
    let mut wins: Vec<u64> = Vec::new();
    let mut p: usize = 0;
    while p < players
        invariant
            p <= players,
            wins@.len() == p,
            forall|q: int| 0 <= q < p ==> wins@[q] == 0,
            total(wins@) == 0,
        decreases players - p,
    {
        let ghost before = wins@;
        wins.push(0);
        assert(wins@.drop_last() =~= before);
        p = p + 1;
    }
    wins
}

impl<Game_: Game<Choice>, Choice: Clone> Node<Game_, Choice> {
    /// The invariant of a tree for a game of `players` players.
    ///
    /// Credit and visits balance: the credit handed out at a node is one
    /// win per visit. A node that was never visited is bare. A visited node
    /// has one child per legal move, holds a winner exactly when there is
    /// no move, and, when it has children, every pass but its first went on
    /// into exactly one of them.
    pub open spec fn wf(self, players: nat) -> bool
        decreases self,
    {
        &&& 1 <= players <= PLAYER_LIMIT
        &&& self.game_state.players() == players
        &&& self.wins@.len() == players
        &&& self.visits <= VISIT_LIMIT
        &&& total(self.wins@) == self.visits * players
        &&& (self.winner matches Some(w) ==> w <= players)
        &&& (self.visits == 0 ==> self.winner is None && self.next@.len() == 0)
        &&& (self.visits > 0 ==> self.next@.len() == self.game_state.choices().len())
        &&& (self.visits > 0 ==> (self.winner is Some <==> self.next@.len() == 0))
        &&& (self.next@.len() > 0 ==> self.visits == 1 + visits_below(self.next@))
        &&& forall|i: int|
            0 <= i < self.next@.len() ==> {
                &&& (#[trigger] self.next[i]).choice == Some(self.game_state.choices()[i])
                &&& self.next[i].game_state == self.game_state.after(self.game_state.choices()[i])
                &&& self.next[i].game_state.horizon() < self.game_state.horizon()
                &&& self.next[i].wf(players)
            }
    }

    /// The success rate of child `j` for the player `player_id`.
    pub open spec fn success(self, j: int, player_id: int) -> Score {
        exploitation_value(
            self.next[j].wins[player_id - 1],
            self.wins@.len() as u64,
            self.next[j].visits,
        )
    }

    /// Whether `self` is child `i` of `parent` made a root: the child's
    /// subtree and statistics, without the move that led to it.
    pub open spec fn descended_from(self, parent: Self, i: int) -> bool {
        &&& 0 <= i < parent.next@.len()
        &&& self.choice is None
        &&& self.winner == parent.next[i].winner
        &&& self.game_state == parent.next[i].game_state
        &&& self.wins == parent.next[i].wins
        &&& self.visits == parent.next[i].visits
        &&& self.next == parent.next[i].next
    }

    /// The score that `evaluator` fixes for child `j` and the player
    /// `player_id`, if it fixes one.
    pub open spec fn fixed_score<E: Evaluator>(
        self,
        evaluator: E,
        j: int,
        player_id: int,
    ) -> Option<Score> {
        evaluator.rule(
            self.next[j].wins[player_id - 1],
            self.wins@.len() as u64,
            self.next[j].visits,
            self.visits,
        )
    }

    /// Whether no child's score exceeds that of child `i`, as far as
    /// `evaluator` fixes the scores.
    pub open spec fn favours<E: Evaluator>(self, evaluator: E, i: int, player_id: int) -> bool {
        forall|j: int|
            0 <= j < self.next@.len() ==> match (
                #[trigger] self.fixed_score(evaluator, j, player_id),
                self.fixed_score(evaluator, i, player_id),
            ) {
                (Some(sj), Some(si)) => sj.at_most(si),
                _ => true,
            }
    }

    /// A bare node for a position reached by `choice`.
    pub fn new(game_state: Game_, choice: Option<Choice>, players: usize) -> (node: Self)
        requires
            1 <= players <= PLAYER_LIMIT,
            game_state.players() == players,
        ensures
            node.wf(players as nat),
            node.visits == 0,
            node.game_state == game_state,
            node.choice == choice,
            node.winner is None,
            node.next@.len() == 0,
            forall|p: int| 0 <= p < players ==> node.wins@[p] == 0,
    {
        Node { winner: None, game_state, choice, wins: zeros(players), visits: 0, next: Vec::new() }
    }

    /// A bare root for the position `game_state`.
    pub fn default(game_state: Game_, players: usize) -> (node: Self)
        requires
            1 <= players <= PLAYER_LIMIT,
            game_state.players() == players,
        ensures
            node.wf(players as nat),
            node.visits == 0,
            node.game_state == game_state,
            node.choice is None,
            node.winner is None,
            node.next@.len() == 0,
            forall|p: int| 0 <= p < players ==> node.wins@[p] == 0,
    {
        Node {
            winner: None,
            game_state,
            choice: None,
            wins: zeros(players),
            visits: 0,
            next: Vec::new(),
        }
    }

    /// Books the outcome of one pass: one more visit, and one win of credit,
    /// to the winner or, on a draw, in equal parts to every player.
    pub fn update(&mut self, winner: usize, players: usize) -> (w: usize)
        requires
            1 <= players <= PLAYER_LIMIT,
            old(self).wins@.len() == players,
            winner <= players,
            old(self).visits < VISIT_LIMIT,
            total(old(self).wins@) == old(self).visits * players,
        ensures
            w == winner,
            final(self).visits == old(self).visits + 1,
            credited(old(self).wins@, final(self).wins@, winner as int, players as int),
            total(final(self).wins@) == final(self).visits * players,
            final(self).winner == old(self).winner,
            final(self).game_state == old(self).game_state,
            final(self).choice == old(self).choice,
            final(self).next == old(self).next,
    {
        let ghost before = self.wins@;
        proof {
            let v = self.visits as int;
            let n = players as int;
            assert(v * n <= 1_000_000_000 * 65_535) by (nonlinear_arith)
                requires
                    0 <= v <= 1_000_000_000,
                    0 <= n <= 65_535,
            ;
        }
        if winner > 0 {
            let held: u64 = self.wins[winner - 1];
            proof {
                lemma_entry_at_most_total(before, winner - 1);
            }
            self.wins.set(winner - 1, held + players as u64);
        } else {
            let mut p: usize = 0;
            while p < players
                invariant
                    p <= players,
                    before.len() == players,
                    self.wins@.len() == players,
                    total(before) <= 1_000_000_000 * 65_535,
                    forall|q: int| 0 <= q < p ==> #[trigger] self.wins@[q] == before[q] + 1,
                    forall|q: int| p <= q < players ==> #[trigger] self.wins@[q] == before[q],
                    self.visits == old(self).visits,
                    self.winner == old(self).winner,
                    self.game_state == old(self).game_state,
                    self.choice == old(self).choice,
                    self.next == old(self).next,
                decreases players - p,
            {
                let held: u64 = self.wins[p];
                proof {
                    lemma_entry_at_most_total(before, p as int);
                }
                self.wins.set(p, held + 1);
                p = p + 1;
            }
        }
        self.visits = self.visits + 1;
        proof {
            lemma_credit_is_one_win(before, self.wins@, winner as int, players as int);
            let v = old(self).visits as int;
            let n = players as int;
            assert((v + 1) * n == v * n + n) by (nonlinear_arith);
        }
        winner
    }

    /// Gives a childless node one bare child per legal move, in the order
    /// of the moves, each holding the position after its move.
    pub fn expand(&mut self, players: usize)
        requires
            1 <= players <= PLAYER_LIMIT,
            old(self).game_state.players() == players,
            old(self).next@.len() == 0,
        ensures
            final(self).next@.len() == old(self).game_state.choices().len(),
            forall|i: int|
                0 <= i < final(self).next@.len() ==> {
                    &&& (#[trigger] final(self).next[i]).choice == Some(
                        old(self).game_state.choices()[i],
                    )
                    &&& final(self).next[i].game_state == old(self).game_state.after(
                        old(self).game_state.choices()[i],
                    )
                    &&& final(self).next[i].game_state.horizon() < old(
                        self,
                    ).game_state.horizon()
                    &&& final(self).next[i].wf(players as nat)
                    &&& final(self).next[i].visits == 0
                },
            visits_below(final(self).next@) == 0,
            final(self).visits == old(self).visits,
            final(self).wins == old(self).wins,
            final(self).winner == old(self).winner,
            final(self).game_state == old(self).game_state,
            final(self).choice == old(self).choice,
    {
        let choices = self.game_state.get_choices();
        let mut i: usize = 0;
        while i < choices.len()
            invariant
                i <= choices@.len(),
                1 <= players <= PLAYER_LIMIT,
                choices@ == self.game_state.choices(),
                self.game_state.players() == players,
                self.next@.len() == i,
                forall|k: int|
                    0 <= k < i ==> {
                        &&& (#[trigger] self.next[k]).choice == Some(choices@[k])
                        &&& self.next[k].game_state == self.game_state.after(choices@[k])
                        &&& self.next[k].game_state.horizon() < self.game_state.horizon()
                        &&& self.next[k].wf(players as nat)
                        &&& self.next[k].visits == 0
                    },
                visits_below(self.next@) == 0,
                self.visits == old(self).visits,
                self.wins == old(self).wins,
                self.winner == old(self).winner,
                self.game_state == old(self).game_state,
                self.choice == old(self).choice,
            decreases choices@.len() - i,
        {
            let ghost before = self.next@;
            let mut state = self.game_state.duplicate();
            assert(state.choices().contains(choices@[i as int]));
            state.apply_move(&choices[i]);
            let child = Node::new(state, Some(Game_::copy_choice(&choices[i])), players);
            self.next.push(child);
            assert(self.next@.drop_last() =~= before);
            i = i + 1;
        }
    }

    /// The success rates of all children for the player `player_id`.
    pub open spec fn success_seq(self, player_id: int) -> Seq<Score> {
        Seq::new(self.next@.len(), |j: int| self.success(j, player_id))
    }

    /// The scores that `evaluator` gives the children, in their order, for
    /// the player `player_id`; where the evaluator fixes a score, it is the
    /// one returned.
    pub fn child_scores<E: Evaluator>(&self, player_id: usize, evaluator: &E) -> (scores: Vec<
        Score,
    >)
        requires
            self.wf(self.wins@.len()),
            1 <= player_id <= self.wins@.len(),
        ensures
            scores@.len() == self.next@.len(),
            forall|j: int|
                0 <= j < self.next@.len() ==> (#[trigger] self.fixed_score(
                    *evaluator,
                    j,
                    player_id as int,
                ) matches Some(fixed) ==> scores@[j] == fixed),
    {
        let players: usize = self.wins.len();
        let mut scores: Vec<Score> = Vec::new();
        let mut k: usize = 0;
        while k < self.next.len()
            invariant
                k <= self.next@.len(),
                scores@.len() == k,
                players == self.wins@.len(),
                self.wf(players as nat),
                1 <= player_id <= players,
                forall|j: int|
                    0 <= j < k ==> (#[trigger] self.fixed_score(
                        *evaluator,
                        j,
                        player_id as int,
                    ) matches Some(fixed) ==> scores@[j] == fixed),
            decreases self.next@.len() - k,
        {
            let child = &self.next[k];
            assert(child.wf(players as nat));
            proof {
                lemma_entry_at_most_total(child.wins@, player_id - 1);
            }
            let s = evaluator.evaluate(
                child.wins[player_id - 1],
                players as u64,
                child.visits,
                self.visits,
            );
            scores.push(s);
            k = k + 1;
        }
        scores
    }

    /// The success rates of the children, in their order, for the player
    /// `player_id`.
    pub fn success_rates(&self, player_id: usize) -> (scores: Vec<Score>)
        requires
            self.wf(self.wins@.len()),
            1 <= player_id <= self.wins@.len(),
        ensures
            scores@ == self.success_seq(player_id as int),
    {
        let players: usize = self.wins.len();
        let mut scores: Vec<Score> = Vec::new();
        let mut k: usize = 0;
        while k < self.next.len()
            invariant
                k <= self.next@.len(),
                scores@.len() == k,
                players == self.wins@.len(),
                self.wf(players as nat),
                1 <= player_id <= players,
                forall|j: int| 0 <= j < k ==> #[trigger] scores@[j] == self.success(j, player_id as int),
            decreases self.next@.len() - k,
        {
            let child = &self.next[k];
            assert(child.wf(players as nat));
            proof {
                lemma_entry_at_most_total(child.wins@, player_id - 1);
            }
            let s = exploitation_score(child.wins[player_id - 1], players as u64, child.visits);
            scores.push(s);
            k = k + 1;
        }
        assert(scores@ =~= self.success_seq(player_id as int));
        scores
    }

    /// The child to descend into: one of those that `evaluator` scores
    /// highest for the player `player_id`, picked among equals by a random
    /// draw as [`pick_best`] does on the scores of [`Node::child_scores`].
    /// `None` exactly when there is no child. Where the evaluator fixes the
    /// scores, the contract says that none exceeds the chosen child's.
    pub fn best_next_index<E: Evaluator>(&self, player_id: usize, evaluator: &E) -> (r: Option<
        usize,
    >)
        requires
            self.wf(self.wins@.len()),
            1 <= player_id <= self.wins@.len(),
        ensures
            r is None <==> self.next@.len() == 0,
            r matches Some(i) ==> i < self.next@.len() && self.favours(
                *evaluator,
                i as int,
                player_id as int,
            ),
    {
        let scores = self.child_scores(player_id, evaluator);
        let r = pick_best(&scores);
        proof {
            if let Some(i) = r {
                assert(leads(scores@, i as int, scores@.len() as int));
                assert forall|j: int| 0 <= j < self.next@.len() implies match (
                    #[trigger] self.fixed_score(*evaluator, j, player_id as int),
                    self.fixed_score(*evaluator, i as int, player_id as int),
                ) {
                    (Some(sj), Some(si)) => sj.at_most(si),
                    _ => true,
                } by {
                    assert(scores@[j].at_most(scores@[i as int]));
                }
            }
        }
        r
    }

    /// The child that a draw of `k` recommends: the one whose success rate
    /// for the player `player_id` no other exceeds and that has exactly `k`
    /// such children before it.
    pub fn most_successful_at(&self, player_id: usize, k: usize) -> (i: usize)
        requires
            self.wf(self.wins@.len()),
            1 <= player_id <= self.wins@.len(),
            k < leader_count(self.success_seq(player_id as int)),
        ensures
            i < self.next@.len(),
            leads(self.success_seq(player_id as int), i as int, self.next@.len() as int),
            leaders_before(self.success_seq(player_id as int), i as int) == k,
    {
        let scores = self.success_rates(player_id);
        leader_at(&scores, k)
    }

    /// The child to recommend: one of those with the greatest success rate
    /// for the player `player_id`, picked among equals by a random draw as
    /// [`pick_best`] does on the rates of [`Node::success_rates`]. `None`
    /// exactly when there is no child.
    pub fn most_successful(&self, player_id: usize) -> (r: Option<usize>)
        requires
            self.wf(self.wins@.len()),
            1 <= player_id <= self.wins@.len(),
        ensures
            r is None <==> self.next@.len() == 0,
            r matches Some(i) ==> i < self.next@.len() && forall|j: int|
                0 <= j < self.next@.len() ==> (#[trigger] self.success(j, player_id as int)).at_most(
                    self.success(i as int, player_id as int),
                ),
    {
        let scores = self.success_rates(player_id);
        let r = pick_best(&scores);
        proof {
            if let Some(i) = r {
                assert forall|j: int| 0 <= j < self.next@.len() implies (#[trigger] self.success(
                    j,
                    player_id as int,
                )).at_most(self.success(i as int, player_id as int)) by {
                    assert(leads(scores@, i as int, scores@.len() as int));
                    assert(scores@[j].at_most(scores@[i as int]));
                }
            }
        }
        r
    }

    /// Moves the tree down to child `index`: the node becomes that child,
    /// now a root without a move, and the other children are dropped. The
    /// move that led to the child is returned.
    pub fn commit(&mut self, index: usize) -> (choice: Option<Choice>)
        requires
            index < old(self).next@.len(),
        ensures
            choice == old(self).next[index as int].choice,
            final(self).descended_from(*old(self), index as int),
    {
        let mut child = self.next.swap_remove(index);
        let choice = child.choice.take();
        *self = child;
        choice
    }
}

/// Why a tree could not be moved down.
#[derive(Clone, Copy, Debug)]
pub enum CommitError {
    /// No child of the root was reached by the move asked for.
    MoveNotFound,
}

impl<Game_: Game<Choice>, Choice: Clone + PartialEq> Node<Game_, Choice> {
    /// Whether child `j` was reached by a move equal to `choice`.
    pub open spec fn holds_move(self, j: int, choice: Choice) -> bool {
        self.next[j].choice matches Some(c) && c.eq_spec(&choice)
    }

    /// The first child that was reached by a move equal to `choice`.
    pub fn position_of(&self, choice: &Choice) -> (r: Option<usize>)
        ensures
            r matches Some(i) ==> i < self.next@.len(),
            Choice::obeys_eq_spec() ==> match r {
                Some(i) => self.holds_move(i as int, *choice) && forall|j: int|
                    0 <= j < i ==> !self.holds_move(j, *choice),
                None => forall|j: int| 0 <= j < self.next@.len() ==> !self.holds_move(j, *choice),
            },
    {
        let mut i: usize = 0;
        while i < self.next.len()
            invariant
                i <= self.next@.len(),
                Choice::obeys_eq_spec() ==> forall|j: int|
                    0 <= j < i ==> !self.holds_move(j, *choice),
            decreases self.next@.len() - i,
        {
            let found = match &self.next[i].choice {
                Some(c) => c.eq(choice),
                None => false,
            };
            if found {
                return Some(i);
            }
            i = i + 1;
        }
        None
    }

    /// Moves the tree down to the first child that was reached by a move
    /// equal to `choice`, as [`Node::commit`] does. Where there is no such
    /// child the tree stays as it is and the error says so.
    pub fn commit_to(&mut self, choice: &Choice) -> (r: Result<(), CommitError>)
        ensures
            r is Err ==> *final(self) == *old(self),
            r is Ok ==> exists|i: int| #[trigger] final(self).descended_from(*old(self), i),
            Choice::obeys_eq_spec() ==> match r {
                Ok(_) => exists|i: int|
                    {
                        &&& #[trigger] final(self).descended_from(*old(self), i)
                        &&& old(self).holds_move(i, *choice)
                        &&& forall|j: int| 0 <= j < i ==> !old(self).holds_move(j, *choice)
                    },
                Err(_) => forall|j: int|
                    0 <= j < old(self).next@.len() ==> !old(self).holds_move(j, *choice),
            },
    {
        match self.position_of(choice) {
            None => Err(CommitError::MoveNotFound),
            Some(index) => {
                let _ = self.commit(index);
                assert(final(self).descended_from(*old(self), index as int));
                Ok(())
            },
        }
    }
}

/// A visited node with children has passed on every pass but its first to
/// exactly one child: its visit count is one more than the sum of theirs.
pub proof fn lemma_visits_flow_down<Game_: Game<Choice>, Choice: Clone>(
    node: Node<Game_, Choice>,
    players: nat,
)
    requires
        node.wf(players),
        node.next@.len() > 0,
    ensures
        node.visits == 1 + visits_below(node.next@),
{
}

/// Dropping the move of a node leaves a well-formed tree well formed.
pub proof fn lemma_root_is_well_formed<Game_: Game<Choice>, Choice: Clone>(
    child: Node<Game_, Choice>,
    root: Node<Game_, Choice>,
    players: nat,
)
    requires
        child.wf(players),
        root.winner == child.winner,
        root.game_state == child.game_state,
        root.wins == child.wins,
        root.visits == child.visits,
        root.next == child.next,
    ensures
        root.wf(players),
{
}

} // verus!
