//! What a game has to offer so that the search can play it.

use vstd::prelude::*;
use crate::chance::random_index;

verus! {

/// Static sizes of a game, for callers that describe games to other tools.
pub struct GameInfo {
    pub input_size: usize,
    pub output_size: usize,
    pub players: usize,
}

/// A turn-based game of perfect information.
///
/// The search trusts an implementation to keep the promises below: player
/// identifiers stay in range, a copy is the same position or move, and
/// every move brings the game strictly closer to its end. The specification functions describe the position; an
/// implementation states them for its own representation, and the bodies
/// given here describe a finished game of one player.
pub trait Game<Choice>: Clone + Sized where Choice: Clone {
    /// Number of players, fixed for the whole game and at least one.
    open spec fn players(&self) -> nat { 1 }

    /// The player to move, counted from one.
    open spec fn turn(&self) -> nat { 1 }

    /// The legal moves, in order; empty exactly at a finished position.
    open spec fn choices(&self) -> Seq<Choice> { Seq::empty() }

    /// The position reached by playing `choice`.
    open spec fn after(&self, choice: Choice) -> Self { *self }

    /// The winner, or zero for none.
    open spec fn winner(&self) -> nat { 0 }

    /// An upper bound on the number of moves still to be played.
    open spec fn horizon(&self) -> nat { 0 }

    fn get_num_players(&self) -> (n: usize)
        ensures
            n == self.players(),
            n >= 1,
    ;

    fn get_turn(&self) -> (t: usize)
        ensures
            t == self.turn(),
            1 <= t <= self.players(),
    ;

    fn get_choices(&self) -> (c: Vec<Choice>)
        ensures
            c@ == self.choices(),
    ;

    fn apply_move(&mut self, choice: &Choice)
        requires
            old(self).choices().contains(*choice),
        ensures
            *final(self) == old(self).after(*choice),
            final(self).players() == old(self).players(),
            final(self).horizon() < old(self).horizon(),
    ;

    fn get_winner(&self) -> (w: usize)
        ensures
            w == self.winner(),
            w <= self.players(),
    ;

    /// An independent copy of the position. That the copy is the same
    /// position is the game's promise; the search explores on copies and
    /// relies on it.
    fn duplicate(&self) -> (copy: Self)
        ensures
            copy == *self,
    ;

    /// A copy of a move. That the copy is the same move is the game's
    /// promise.
    fn copy_choice(choice: &Choice) -> (copy: Choice)
        ensures
            copy == *choice,
    ;
}

/// Whether `steps` is a line of play from `start` to `end`: each step holds
/// a position and a legal move made there, the first position is `start`,
/// every move leads to the position of the next step, and the last move
/// leads to `end`. Without steps, `end` is `start`.
pub open spec fn played_out<Game_: Game<Choice>, Choice: Clone>(
    start: Game_,
    end: Game_,
    steps: Seq<(Game_, Choice)>,
) -> bool {
    &&& (steps.len() == 0 ==> end == start)
    &&& (steps.len() > 0 ==> steps[0].0 == start && end == steps.last().0.after(steps.last().1))
    &&& forall|k: int|
        0 <= k < steps.len() ==> (#[trigger] steps[k]).0.choices().contains(steps[k].1)
    &&& forall|k: int|
        0 < k < steps.len() ==> (#[trigger] steps[k]).0 == steps[k - 1].0.after(steps[k - 1].1)
}

/// Plays uniformly random legal moves until none is left and reports the
/// winner of the final position, which is reached from the first by a line
/// of legal moves.
pub fn random_play<Game_: Game<Choice>, Choice: Clone>(game: &mut Game_) -> (w: usize)
    ensures
        final(game).choices().len() == 0,
        final(game).players() == old(game).players(),
        w == final(game).winner(),
        w <= old(game).players(),
        exists|steps: Seq<(Game_, Choice)>| #[trigger] played_out(*old(game), *final(game), steps),
{
    let mut choices = game.get_choices();
    let ghost mut steps: Seq<(Game_, Choice)> = Seq::empty();
    while choices.len() > 0
        invariant
            choices@ == game.choices(),
            game.players() == old(game).players(),
            played_out(*old(game), *game, steps),
        decreases game.horizon(),
    {
        let i: usize = random_index(choices.len());
        proof {
            assert(game.choices().contains(choices@[i as int]));
            steps = steps.push((*game, choices@[i as int]));
        }
        game.apply_move(&choices[i]);
        choices = game.get_choices();
    }
    game.get_winner()
}

/// A line of play from a position without legal moves has no step: the
/// line ends where it starts.
pub proof fn lemma_final_position_stays<Game_: Game<Choice>, Choice: Clone>(
    start: Game_,
    end: Game_,
    steps: Seq<(Game_, Choice)>,
)
    requires
        played_out(start, end, steps),
        start.choices().len() == 0,
    ensures
        end == start,
{
    if steps.len() > 0 {
        assert(steps[0].0.choices().contains(steps[0].1));
    }
}

} // verus!
