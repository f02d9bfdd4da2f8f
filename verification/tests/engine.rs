use mcts::engine::MCTS;
use mcts::game::{random_play, Game, GameInfo};
use mcts::node::{CommitError, Node};
use mcts::score::{Evaluator, ExploitVsExplore, Exploitation, Score};

/// One move only; whoever plays it wins.
#[derive(Clone)]
struct OneMove {
    done: bool,
}

impl Game<u8> for OneMove {
    fn get_num_players(&self) -> usize { 2 }
    fn get_turn(&self) -> usize { 1 }
    fn get_choices(&self) -> Vec<u8> {
        if self.done { Vec::new() } else { vec![7] }
    }
    fn apply_move(&mut self, _choice: &u8) { self.done = true; }
    fn get_winner(&self) -> usize { if self.done { 1 } else { 0 } }
    fn duplicate(&self) -> Self { self.clone() }
    fn copy_choice(choice: &u8) -> u8 { *choice }
}

/// Two players, a fixed number of plies, two moves at each, nobody wins.
#[derive(Clone)]
struct Stalemate {
    left: u8,
    turn: usize,
}

impl Game<u8> for Stalemate {
    fn get_num_players(&self) -> usize { 2 }
    fn get_turn(&self) -> usize { self.turn }
    fn get_choices(&self) -> Vec<u8> {
        if self.left == 0 { Vec::new() } else { vec![0, 1] }
    }
    fn apply_move(&mut self, _choice: &u8) {
        self.left -= 1;
        self.turn = 3 - self.turn;
    }
    fn get_winner(&self) -> usize { 0 }
    fn duplicate(&self) -> Self { self.clone() }
    fn copy_choice(choice: &u8) -> u8 { *choice }
}

/// Take one or two from the pile; whoever takes the last one wins.
#[derive(Clone)]
struct Nim {
    pile: u32,
    turn: usize,
    winner: usize,
}

impl Nim {
    fn start(pile: u32) -> Nim { Nim { pile, turn: 1, winner: 0 } }
}

impl Game<u32> for Nim {
    fn get_num_players(&self) -> usize { 2 }
    fn get_turn(&self) -> usize { self.turn }
    fn get_choices(&self) -> Vec<u32> {
        match self.pile {
            0 => Vec::new(),
            1 => vec![1],
            _ => vec![1, 2],
        }
    }
    fn apply_move(&mut self, choice: &u32) {
        self.pile -= *choice;
        if self.pile == 0 {
            self.winner = self.turn;
        }
        self.turn = 3 - self.turn;
    }
    fn get_winner(&self) -> usize { self.winner }
    fn duplicate(&self) -> Self { self.clone() }
    fn copy_choice(choice: &u32) -> u32 { *choice }
}

/// A confidence bound for the tests: success rate plus a bonus that shrinks
/// with the child's visits.
struct Bonus;

impl Evaluator for Bonus {
    fn evaluate(&self, wins: u64, players: u64, visits: u64, parent_visits: u64) -> Score {
        Score { num: wins + players * parent_visits, den: players * (visits + 1) }
    }
}

fn visits_of_children<G: Game<C>, C: Clone>(node: &Node<G, C>) -> u64 {
    node.next.iter().map(|child| child.visits).sum()
}

fn check_tree<G: Game<C>, C: Clone>(node: &Node<G, C>, players: u64) {
    assert_eq!(node.wins.len() as u64, players);
    assert_eq!(node.wins.iter().sum::<u64>(), node.visits * players);
    if node.visits == 0 {
        assert!(node.next.is_empty());
        assert!(node.winner.is_none());
    }
    if node.winner.is_some() {
        assert!(node.next.is_empty());
    }
    if !node.next.is_empty() {
        assert_eq!(node.visits, 1 + visits_of_children(node));
        assert_eq!(node.next.len(), node.game_state.get_choices().len());
    }
    for child in node.next.iter() {
        assert!(child.choice.is_some());
        check_tree(child, players);
    }
}

#[test]
fn game_info_holds_its_sizes() {
    let info = GameInfo { input_size: 9, output_size: 9, players: 2 };
    assert_eq!(info.input_size, 9);
    assert_eq!(info.output_size, 9);
    assert_eq!(info.players, 2);
}

#[test]
fn random_play_runs_to_the_end() {
    let mut g = Nim::start(9);
    let w = random_play(&mut g);
    assert_eq!(g.pile, 0);
    assert!(w == 1 || w == 2);
    assert_eq!(w, g.get_winner());
}

#[test]
fn random_play_leaves_a_final_position_alone() {
    let mut g = OneMove { done: true };
    assert_eq!(random_play(&mut g), 1);
    assert!(g.done);
}

#[test]
fn trivial_win_is_found() {
    let mut g = OneMove { done: false };
    let engine: MCTS<OneMove, u8, Exploitation> = MCTS::new(&g, ExploitVsExplore::ExploreFirst);
    assert_eq!(engine.players, 2);
    let advice = engine.advise(&g, 1);
    assert_eq!(advice, Some(7));
    g.apply_move(&advice.unwrap());
    assert_eq!(g.get_winner(), 1);
    assert!(!(OneMove { done: false }).done);
}

#[test]
fn forced_draw_is_played_to_the_end() {
    for cycles in [1usize, 2, 5, 40] {
        let mut g = Stalemate { left: 3, turn: 1 };
        let engine: MCTS<Stalemate, u8, Bonus> = MCTS::new(&g, ExploitVsExplore::UCB1(Bonus));
        let mut plies = 0;
        while !g.get_choices().is_empty() {
            let advice = engine.advise(&g, cycles);
            let choice = advice.unwrap();
            assert!(g.get_choices().contains(&choice));
            g.apply_move(&choice);
            plies += 1;
        }
        assert_eq!(plies, 3);
        assert_eq!(engine.advise(&g, cycles), None);
        assert_eq!(g.get_winner(), 0);
    }
}

#[test]
fn final_position_gives_no_advice() {
    let g = OneMove { done: true };
    let engine: MCTS<OneMove, u8, Exploitation> = MCTS::new(&g, ExploitVsExplore::Random);
    assert_eq!(engine.advise(&g, 10), None);
    assert_eq!(engine.advise(&g, 0), None);
}

#[test]
fn no_cycles_give_no_advice() {
    let g = Nim::start(4);
    let engine: MCTS<Nim, u32, Exploitation> = MCTS::new(&g, ExploitVsExplore::Random);
    assert_eq!(engine.advise(&g, 0), None);
    let mut tree = Node::default(g.clone(), 2);
    assert_eq!(engine.advise_with_tree(&mut tree, 0), None);
    assert_eq!(tree.visits, 0);
}

#[test]
fn advise_leaves_the_position_alone() {
    let g = Nim::start(5);
    let engine: MCTS<Nim, u32, Exploitation> = MCTS::new(&g, ExploitVsExplore::ExploreFirst);
    let advice = engine.advise(&g, 30);
    assert!(advice == Some(1) || advice == Some(2));
    assert_eq!(g.pile, 5);
    assert_eq!(g.turn, 1);
}

#[test]
fn every_pass_is_one_visit_at_the_root() {
    let g = Nim::start(6);
    let engine: MCTS<Nim, u32, Bonus> = MCTS::new(&g, ExploitVsExplore::UCB1(Bonus));
    let mut tree = Node::default(g, 2);
    for n in 1..=50u64 {
        let w = engine.mcts(&mut tree);
        assert!(w == 1 || w == 2);
        assert_eq!(tree.visits, n);
        check_tree(&tree, 2);
    }
    assert_eq!(tree.visits, 1 + visits_of_children(&tree));
    engine.search(&mut tree, 25);
    assert_eq!(tree.visits, 75);
    assert_eq!(visits_of_children(&tree), 74);
    check_tree(&tree, 2);
}

#[test]
fn first_pass_expands_and_later_passes_descend() {
    let g = Nim::start(3);
    let engine: MCTS<Nim, u32, Exploitation> = MCTS::new(&g, ExploitVsExplore::ExploreFirst);
    let mut tree = Node::default(g, 2);
    engine.mcts(&mut tree);
    assert_eq!(tree.visits, 1);
    assert_eq!(tree.next.len(), 2);
    assert_eq!(tree.next[0].choice, Some(1));
    assert_eq!(tree.next[1].choice, Some(2));
    assert_eq!(tree.next[0].game_state.pile, 2);
    assert_eq!(tree.next[1].game_state.pile, 1);
    assert_eq!(tree.next[0].game_state.turn, 2);
    assert_eq!(tree.game_state.pile, 3);
    assert_eq!(visits_of_children(&tree), 0);
    engine.mcts(&mut tree);
    engine.mcts(&mut tree);
    // the least visited child goes first, so each child has one visit now
    assert_eq!(tree.next[0].visits, 1);
    assert_eq!(tree.next[1].visits, 1);
    assert_eq!(tree.visits, 3);
}

#[test]
fn each_pass_hands_out_one_win() {
    let g = Stalemate { left: 2, turn: 1 };
    let engine: MCTS<Stalemate, u8, Exploitation> = MCTS::new(&g, ExploitVsExplore::Random);
    let mut tree = Node::default(g, 2);
    for n in 1..=20u64 {
        assert_eq!(engine.mcts(&mut tree), 0);
        assert_eq!(tree.wins, vec![n, n]);
    }
    let g = Nim::start(4);
    let engine: MCTS<Nim, u32, Exploitation> = MCTS::new(&g, ExploitVsExplore::Random);
    let mut tree = Node::default(g, 2);
    for _ in 0..20 {
        let before = tree.wins.clone();
        let w = engine.mcts(&mut tree);
        let mut expected = before;
        expected[w - 1] += 2;
        assert_eq!(tree.wins, expected);
    }
}

#[test]
fn update_credits_the_winner_or_splits_a_draw() {
    let mut node = Node::<Nim, u32>::default(Nim::start(2), 2);
    assert_eq!(node.wins, vec![0, 0]);
    assert_eq!(node.update(2, 2), 2);
    assert_eq!(node.wins, vec![0, 2]);
    assert_eq!(node.visits, 1);
    assert_eq!(node.update(0, 2), 0);
    assert_eq!(node.wins, vec![1, 3]);
    assert_eq!(node.visits, 2);
    assert_eq!(node.update(1, 2), 1);
    assert_eq!(node.wins, vec![3, 3]);
    assert_eq!(node.visits, 3);
}

#[test]
fn cached_winner_is_kept() {
    let g = OneMove { done: true };
    let engine: MCTS<OneMove, u8, Exploitation> = MCTS::new(&g, ExploitVsExplore::Random);
    let mut tree = Node::default(g, 2);
    assert_eq!(tree.winner, None);
    assert_eq!(engine.mcts(&mut tree), 1);
    assert_eq!(tree.winner, Some(1));
    for n in 2..=10u64 {
        assert_eq!(engine.mcts(&mut tree), 1);
        assert_eq!(tree.winner, Some(1));
        assert!(tree.next.is_empty());
        assert_eq!(tree.visits, n);
        assert_eq!(tree.wins, vec![2 * n, 0]);
    }
}

#[test]
fn advice_is_always_a_legal_move() {
    for pile in 1..=7u32 {
        let g = Nim::start(pile);
        let legal = g.get_choices();
        let a: MCTS<Nim, u32, Bonus> = MCTS::new(&g, ExploitVsExplore::UCB1(Bonus));
        let b: MCTS<Nim, u32, Bonus> = MCTS::new(&g, ExploitVsExplore::Random);
        let c: MCTS<Nim, u32, Bonus> = MCTS::new(&g, ExploitVsExplore::ExploreFirst);
        for cycles in [1usize, 3, 20] {
            assert!(legal.contains(&a.advise(&g, cycles).unwrap()));
            assert!(legal.contains(&b.advise(&g, cycles).unwrap()));
            assert!(legal.contains(&c.advise(&g, cycles).unwrap()));
        }
    }
}

#[test]
fn a_winning_move_is_recommended() {
    // with two left, taking both wins at once
    let g = Nim::start(2);
    let engine: MCTS<Nim, u32, Exploitation> = MCTS::new(&g, ExploitVsExplore::ExploreFirst);
    assert_eq!(engine.advise(&g, 200), Some(2));
}

#[test]
fn kept_tree_and_fresh_tree_agree_on_a_forced_line() {
    let mut fresh = Nim::start(1);
    let engine: MCTS<Nim, u32, Exploitation> = MCTS::new(&fresh, ExploitVsExplore::ExploreFirst);
    assert_eq!(engine.advise(&fresh, 5), Some(1));
    fresh.apply_move(&1);
    assert_eq!(engine.advise(&fresh, 5), None);

    let mut tree = Node::default(Nim::start(1), 2);
    assert_eq!(engine.advise_with_tree(&mut tree, 5), Some(1));
    assert_eq!(tree.game_state.pile, 0);
    assert_eq!(tree.choice, None);
    assert_eq!(tree.visits, 4);
    assert_eq!(engine.advise_with_tree(&mut tree, 5), None);
    assert_eq!(tree.visits, 9);
    assert_eq!(tree.winner, Some(1));
}

#[test]
fn kept_tree_follows_the_game() {
    let mut g = Nim::start(7);
    let engine: MCTS<Nim, u32, Bonus> = MCTS::new(&g, ExploitVsExplore::UCB1(Bonus));
    let mut tree = Node::default(g.clone(), 2);
    while !g.get_choices().is_empty() {
        let choice = engine.advise_with_tree(&mut tree, 30).unwrap();
        assert!(g.get_choices().contains(&choice));
        g.apply_move(&choice);
        assert_eq!(tree.game_state.pile, g.pile);
        assert_eq!(tree.game_state.turn, g.turn);
        assert_eq!(tree.choice, None);
        check_tree(&tree, 2);
    }
    assert_eq!(engine.advise_with_tree(&mut tree, 30), None);
}

#[test]
fn commit_moves_down_to_the_child() {
    let mut tree = Node::<Nim, u32>::default(Nim::start(5), 2);
    tree.expand(2);
    assert_eq!(tree.next.len(), 2);
    assert_eq!(tree.commit(1), Some(2));
    assert_eq!(tree.choice, None);
    assert_eq!(tree.game_state.pile, 3);
    assert!(tree.next.is_empty());
}

#[test]
fn new_node_is_bare() {
    let node = Node::<Nim, u32>::new(Nim::start(5), Some(2), 2);
    assert_eq!(node.choice, Some(2));
    assert_eq!(node.visits, 0);
    assert_eq!(node.wins, vec![0, 0]);
    assert_eq!(node.winner, None);
    assert!(node.next.is_empty());
    assert_eq!(node.best_next_index(1, &Exploitation), None);
    assert_eq!(node.most_successful(1), None);
}

#[test]
fn most_successful_child_has_the_best_rate() {
    let mut tree = Node::<Nim, u32>::default(Nim::start(5), 2);
    tree.expand(2);
    tree.update(1, 2);
    // child 0: one win for player 1 in two visits; child 1: one win in one
    tree.next[0].update(1, 2);
    tree.next[0].update(2, 2);
    tree.next[1].update(1, 2);
    tree.update(1, 2);
    tree.update(2, 2);
    tree.update(1, 2);
    for _ in 0..20 {
        assert_eq!(tree.most_successful(1), Some(1));
        assert_eq!(tree.most_successful(2), Some(0));
        assert_eq!(tree.best_next_index(1, &Exploitation), Some(1));
        // the child with fewer visits
        assert_eq!(tree.best_next_index(1, &ExploitVsExplore::<Bonus>::ExploreFirst), Some(1));
    }
}

#[test]
fn position_of_finds_the_first_child_with_the_move() {
    let mut tree = Node::<Nim, u32>::default(Nim::start(5), 2);
    assert_eq!(tree.position_of(&1), None);
    tree.expand(2);
    assert_eq!(tree.position_of(&1), Some(0));
    assert_eq!(tree.position_of(&2), Some(1));
    assert_eq!(tree.position_of(&3), None);
}

#[test]
fn commit_to_a_move_moves_down() {
    let mut tree = Node::<Nim, u32>::default(Nim::start(5), 2);
    tree.expand(2);
    tree.next[1].update(2, 2);
    assert!(tree.commit_to(&2).is_ok());
    assert_eq!(tree.game_state.pile, 3);
    assert_eq!(tree.choice, None);
    assert_eq!(tree.visits, 1);
    assert_eq!(tree.wins, vec![0, 2]);
}

#[test]
fn commit_to_an_unknown_move_is_an_error() {
    let mut tree = Node::<Nim, u32>::default(Nim::start(5), 2);
    assert!(matches!(tree.commit_to(&1), Err(CommitError::MoveNotFound)));
    tree.expand(2);
    assert!(matches!(tree.commit_to(&3), Err(CommitError::MoveNotFound)));
    assert_eq!(tree.next.len(), 2);
    assert_eq!(tree.game_state.pile, 5);
}

#[test]
fn expand_keeps_the_order_of_the_moves() {
    let mut tree = Node::<Stalemate, u8>::default(Stalemate { left: 1, turn: 2 }, 2);
    tree.expand(2);
    assert_eq!(tree.next.len(), 2);
    assert_eq!(tree.next[0].choice, Some(0));
    assert_eq!(tree.next[1].choice, Some(1));
    for child in tree.next.iter() {
        assert_eq!(child.game_state.left, 0);
        assert_eq!(child.game_state.turn, 1);
        assert_eq!(child.visits, 0);
        assert_eq!(child.wins, vec![0, 0]);
    }
    assert_eq!(tree.game_state.left, 1);
    let mut leaf = Node::<Stalemate, u8>::default(Stalemate { left: 0, turn: 1 }, 2);
    leaf.expand(2);
    assert!(leaf.next.is_empty());
}

#[test]
fn the_draw_picks_among_equally_successful_children() {
    let mut tree = Node::<Stalemate, u8>::default(Stalemate { left: 2, turn: 1 }, 2);
    tree.expand(2);
    tree.update(0, 2);
    // both children unvisited: equal rates, two leaders
    let rates = tree.success_rates(1);
    assert_eq!(rates.len(), 2);
    assert_eq!((rates[0].num, rates[0].den), (0, 2));
    assert_eq!(tree.most_successful_at(1, 0), 0);
    assert_eq!(tree.most_successful_at(1, 1), 1);
    let scores = tree.child_scores(1, &ExploitVsExplore::<Bonus>::ExploreFirst);
    assert_eq!(scores.len(), 2);
    assert_eq!((scores[1].num, scores[1].den), (100_000, 1));
    let mut seen = [false; 2];
    for _ in 0..200 {
        seen[tree.most_successful(1).unwrap()] = true;
    }
    assert_eq!(seen, [true, true]);
}

#[test]
fn final_position_gives_no_advice_whatever_the_cycles() {
    let g = Stalemate { left: 0, turn: 1 };
    let engine: MCTS<Stalemate, u8, Exploitation> = MCTS::new(&g, ExploitVsExplore::Random);
    for cycles in [0usize, 1, 1000] {
        assert_eq!(engine.advise(&g, cycles), None);
    }
}

#[test]
fn children_hold_copies_that_do_not_touch_the_parent() {
    let mut tree = Node::<Nim, u32>::default(Nim::start(4), 2);
    tree.expand(2);
    tree.next[0].game_state.apply_move(&1);
    assert_eq!(tree.next[0].game_state.pile, 2);
    assert_eq!(tree.next[1].game_state.pile, 2);
    assert_eq!(tree.game_state.pile, 4);
}
