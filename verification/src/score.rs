//! Scores by which the children of a node are ranked.
//!
//! A score is a non-negative fraction. Statistics are kept as integers, so
//! the ratios that drive the search are compared exactly, by cross
//! multiplication, and ties are ties.

use vstd::prelude::*;
use crate::chance::{random_index, random_u64};

verus! {

/// Largest number of players the engine accepts.
pub const PLAYER_LIMIT: usize = 65_535;

/// Largest number of passes that may run through one node.
pub const VISIT_LIMIT: u64 = 1_000_000_000;

/// One over the small constant that is added to a child's visit count
/// before it is used as a divisor.
pub const EPSILON_INVERSE: u64 = 100_000;

/// The fraction `num / den`; a zero denominator counts as one.
#[derive(Clone, Copy, Debug)]
pub struct Score {
    pub num: u64,
    pub den: u64,
}

impl Score {
    /// The denominator that comparisons use.
    pub open spec fn span(self) -> int {
        if self.den == 0 {
            1
        } else {
            self.den as int
        }
    }

    /// `self <= other` as fractions.
    pub open spec fn at_most(self, other: Score) -> bool {
        self.num * other.span() <= other.num * self.span()
    }

    /// Whether `self` is strictly greater than `other`.
    pub fn exceeds(&self, other: &Score) -> (b: bool)
        ensures
            b == !self.at_most(*other),
    {
        let sd: u128 = if self.den == 0 { 1 } else { self.den as u128 };
        let od: u128 = if other.den == 0 { 1 } else { other.den as u128 };
        assert(self.num * od <= u64::MAX * u64::MAX) by (nonlinear_arith)
            requires self.num <= u64::MAX, od <= u64::MAX;
        assert(other.num * sd <= u64::MAX * u64::MAX) by (nonlinear_arith)
            requires other.num <= u64::MAX, sd <= u64::MAX;
        (self.num as u128) * od > (other.num as u128) * sd
    }

    /// Whether the two fractions are equal in value.
    pub fn ties(&self, other: &Score) -> (b: bool)
        ensures
            b == (self.at_most(*other) && other.at_most(*self)),
    {
        let sd: u128 = if self.den == 0 { 1 } else { self.den as u128 };
        let od: u128 = if other.den == 0 { 1 } else { other.den as u128 };
        assert(self.num * od <= u64::MAX * u64::MAX) by (nonlinear_arith)
            requires self.num <= u64::MAX, od <= u64::MAX;
        assert(other.num * sd <= u64::MAX * u64::MAX) by (nonlinear_arith)
            requires other.num <= u64::MAX, sd <= u64::MAX;
        (self.num as u128) * od == (other.num as u128) * sd
    }
}

/// The order on scores is transitive.
pub proof fn lemma_at_most_transitive(a: Score, b: Score, c: Score)
    requires
        a.at_most(b),
        b.at_most(c),
    ensures
        a.at_most(c),
{
    let (an, ad) = (a.num as int, a.span());
    let (bn, bd) = (b.num as int, b.span());
    let (cn, cd) = (c.num as int, c.span());
    assert(an * cd <= cn * ad) by (nonlinear_arith)
        requires
            an * bd <= bn * ad,
            bn * cd <= cn * bd,
            an >= 0, bn >= 0, cn >= 0,
            ad > 0, bd > 0, cd > 0,
    {
        assert((an * bd) * cd <= (bn * ad) * cd);
        assert((bn * cd) * ad <= (cn * bd) * ad);
        assert((an * cd) * bd <= (cn * ad) * bd);
    }
}

/// Whether no score among the first `upto` is greater than the one at `j`.
pub open spec fn leads(scores: Seq<Score>, j: int, upto: int) -> bool {
    forall|m: int| 0 <= m < upto ==> (#[trigger] scores[m]).at_most(scores[j])
}

/// The positions of the greatest score, in ascending order: each position
/// returned holds a score that none exceeds, and every such position is
/// returned.
pub fn best_indices(scores: &Vec<Score>) -> (best: Vec<usize>)
    ensures
        scores@.len() > 0 ==> best@.len() > 0,
        forall|k: int| 0 <= k < best@.len() ==> (#[trigger] best@[k]) < scores@.len()
            && leads(scores@, best@[k] as int, scores@.len() as int),
        forall|j: int| 0 <= j < scores@.len() && leads(scores@, j, scores@.len() as int)
            ==> best@.contains(j as usize),
        forall|a: int, b: int| 0 <= a < b < best@.len() ==> best@[a] < best@[b],
{
    let mut best: Vec<usize> = Vec::new();
    let mut i: usize = 0;
    while i < scores.len()
        invariant
            i <= scores@.len(),
            i > 0 ==> best@.len() > 0,
            forall|k: int| 0 <= k < best@.len() ==> (#[trigger] best@[k]) < i
                && leads(scores@, best@[k] as int, i as int),
            forall|j: int| 0 <= j < i && leads(scores@, j, i as int)
                ==> best@.contains(j as usize),
            forall|a: int, b: int| 0 <= a < b < best@.len() ==> best@[a] < best@[b],
        decreases scores@.len() - i,
    {
        let ghost before = best@;
        let ghost s = scores@;
        let ghost cur = i as int;
        let ghost nxt = i as int + 1;
        if best.len() == 0 {
            best.push(i);
            assert(best@[0] == i);
            assert(best@.contains(i));
        } else {
            let top: usize = best[0];
            let ghost t = top as int;
            assert(leads(s, t, cur));
            proof {
                assert forall|k: int| 0 <= k < before.len() implies s[t].at_most(
                    s[#[trigger] before[k] as int],
                ) && s[before[k] as int].at_most(s[t]) by {
                    assert(leads(s, before[k] as int, cur));
                    assert(s[t].at_most(s[before[k] as int]));
                    assert(s[before[k] as int].at_most(s[t]));
                }
            }
            if scores[i].exceeds(&scores[top]) {
                best = Vec::new();
                best.push(i);
                proof {
                    assert(best@[0] == i);
                    assert(best@.contains(i));
                    assert forall|m: int| 0 <= m < nxt implies (#[trigger] s[m]).at_most(
                        s[cur],
                    ) by {
                        if m < cur {
                            lemma_at_most_transitive(s[m], s[t], s[cur]);
                        }
                    }
                    assert forall|j: int| 0 <= j < nxt && #[trigger] leads(s, j, nxt) implies best@.contains(
                        j as usize,
                    ) by {
                        if j < cur {
                            assert(s[cur].at_most(s[j]));
                            assert(s[j].at_most(s[t]));
                            lemma_at_most_transitive(s[cur], s[j], s[t]);
                        }
                    }
                }
            } else if scores[i].ties(&scores[top]) {
                best.push(i);
                proof {
                    assert(best@[before.len() as int] == i);
                    assert(best@.contains(i));
                    assert forall|m: int| 0 <= m < nxt implies (#[trigger] s[m]).at_most(
                        s[cur],
                    ) by {
                        if m < cur {
                            lemma_at_most_transitive(s[m], s[t], s[cur]);
                        }
                    }
                    assert forall|k: int| 0 <= k < before.len() implies leads(
                        s,
                        #[trigger] before[k] as int,
                        nxt,
                    ) by {
                        lemma_at_most_transitive(s[cur], s[t], s[before[k] as int]);
                        assert(leads(s, before[k] as int, cur));
                    }
                    assert forall|j: int| 0 <= j < nxt && #[trigger] leads(s, j, nxt) implies best@.contains(
                        j as usize,
                    ) by {
                        if j < cur {
                            assert(leads(s, j, cur));
                            assert(before.contains(j as usize));
                            let k = choose|k: int| 0 <= k < before.len() && before[k] == j as usize;
                            assert(best@[k] == j as usize);
                        }
                    }
                }
            } else {
                proof {
                    assert forall|k: int| 0 <= k < before.len() implies leads(
                        s,
                        #[trigger] before[k] as int,
                        nxt,
                    ) by {
                        lemma_at_most_transitive(s[cur], s[t], s[before[k] as int]);
                        assert(leads(s, before[k] as int, cur));
                    }
                    assert(!leads(s, cur, nxt)) by {
                        if leads(s, cur, nxt) {
                            assert(s[t].at_most(s[cur]));
                        }
                    }
                    assert forall|j: int| 0 <= j < nxt && #[trigger] leads(s, j, nxt) implies best@.contains(
                        j as usize,
                    ) by {
                        if j < cur {
                            assert(leads(s, j, cur));
                        }
                    }
                }
            }
        }
        i = i + 1;
    }
    best
}

/// The number of positions before `i` that hold the greatest score.
pub open spec fn leaders_before(scores: Seq<Score>, i: int) -> nat
    decreases i,
{
    if i <= 0 {
        0
    } else if leads(scores, i - 1, scores.len() as int) {
        leaders_before(scores, i - 1) + 1
    } else {
        leaders_before(scores, i - 1)
    }
}

/// The number of positions that hold the greatest score.
pub open spec fn leader_count(scores: Seq<Score>) -> nat {
    leaders_before(scores, scores.len() as int)
}

/// Whether `best` lists the positions of the greatest score in ascending
/// order, each once and none left out.
pub open spec fn lists_leaders(scores: Seq<Score>, best: Seq<usize>) -> bool {
    &&& forall|k: int|
        0 <= k < best.len() ==> (#[trigger] best[k]) < scores.len() && leads(
            scores,
            best[k] as int,
            scores.len() as int,
        )
    &&& forall|j: int|
        0 <= j < scores.len() && leads(scores, j, scores.len() as int) ==> best.contains(
            j as usize,
        )
    &&& forall|a: int, b: int| 0 <= a < b < best.len() ==> best[a] < best[b]
}

/// In an ascending list of the leaders, the entries below `i` are as many
/// as the leaders before `i`; the number of them is returned.
proof fn lemma_leaders_below(scores: Seq<Score>, best: Seq<usize>, i: int) -> (m: int)
    requires
        lists_leaders(scores, best),
        scores.len() <= usize::MAX,
        0 <= i <= scores.len(),
    ensures
        0 <= m <= best.len(),
        forall|k: int| 0 <= k < m ==> (#[trigger] best[k]) < i,
        forall|k: int| m <= k < best.len() ==> (#[trigger] best[k]) >= i,
        leaders_before(scores, i) == m,
    decreases i,
{
    if i == 0 {
        0
    } else {
        let m0 = lemma_leaders_below(scores, best, i - 1);
        if leads(scores, i - 1, scores.len() as int) {
            assert(best.contains((i - 1) as usize));
            let k = choose|k: int| 0 <= k < best.len() && best[k] == (i - 1) as usize;
            assert(k >= m0);
            if k > m0 {
                assert(best[m0] < best[k]);
            }
            assert(k == m0);
            assert forall|j: int| m0 + 1 <= j < best.len() implies (#[trigger] best[j]) >= i by {
                assert(best[m0] < best[j]);
            }
            m0 + 1
        } else {
            assert forall|j: int| m0 <= j < best.len() implies (#[trigger] best[j]) >= i by {
                assert(leads(scores, best[j] as int, scores.len() as int));
            }
            m0
        }
    }
}

/// An ascending list of the leaders holds, at place `k`, the leader that
/// has exactly `k` leaders before it, and is as long as there are leaders.
pub proof fn lemma_list_ranks_leaders(scores: Seq<Score>, best: Seq<usize>)
    requires
        lists_leaders(scores, best),
        scores.len() <= usize::MAX,
    ensures
        best.len() == leader_count(scores),
        forall|k: int| 0 <= k < best.len() ==> leaders_before(scores, #[trigger] best[k] as int) == k,
{
    let n = lemma_leaders_below(scores, best, scores.len() as int);
    if n < best.len() {
        assert(best[n] >= scores.len());
    }
    assert forall|k: int| 0 <= k < best.len() implies leaders_before(
        scores,
        #[trigger] best[k] as int,
    ) == k by {
        let m = lemma_leaders_below(scores, best, best[k] as int);
        if m < k {
            assert(best[m] < best[k]);
        }
        if m > k {
            assert(best[k] < best[k]);
        }
    }
}

/// The number of positions that hold the greatest score.
pub fn count_leaders(scores: &Vec<Score>) -> (n: usize)
    ensures
        n == leader_count(scores@),
        scores@.len() > 0 ==> n > 0,
        n <= scores@.len(),
{
    let best = best_indices(scores);
    let len: usize = scores.len();
    proof {
        assert(scores@.len() == len);
        lemma_list_ranks_leaders(scores@, best@);
        lemma_leader_count_bound(scores@, scores@.len() as int);
    }
    best.len()
}

/// There are no more leaders before `i` than positions.
pub proof fn lemma_leader_count_bound(scores: Seq<Score>, i: int)
    requires
        0 <= i,
    ensures
        leaders_before(scores, i) <= i,
    decreases i,
{
    if i > 0 {
        lemma_leader_count_bound(scores, i - 1);
    }
}

/// The position that a draw of `k` picks: the one that holds the greatest
/// score and has exactly `k` such positions before it. A draw of zero
/// picks the first leader, the greatest draw the last, and a single leader
/// is picked whatever the draw.
pub fn leader_at(scores: &Vec<Score>, k: usize) -> (i: usize)
    requires
        k < leader_count(scores@),
    ensures
        i < scores@.len(),
        leads(scores@, i as int, scores@.len() as int),
        leaders_before(scores@, i as int) == k,
{
    let best = best_indices(scores);
    let len: usize = scores.len();
    proof {
        assert(scores@.len() == len);
        lemma_list_ranks_leaders(scores@, best@);
    }
    best[k]
}

/// Picks, uniformly at random, one position among those that hold the
/// greatest score: it draws a number below the count of such positions and
/// returns the position that [`leader_at`] gives for the draw. `None`
/// exactly when there is no score at all.
pub fn pick_best(scores: &Vec<Score>) -> (r: Option<usize>)
    ensures
        r is None <==> scores@.len() == 0,
        r matches Some(i) ==> i < scores@.len() && leads(
            scores@,
            i as int,
            scores@.len() as int,
        ),
{
    if scores.len() == 0 {
        return None;
    }
    let k: usize = random_index(count_leaders(scores));
    Some(leader_at(scores, k))
}

/// The success rate `wins / (visits + epsilon)`, where a win is worth
/// `players` units of `wins` and epsilon is one over [`EPSILON_INVERSE`].
pub open spec fn exploitation_value(wins: u64, players: u64, visits: u64) -> Score {
    Score {
        num: (wins * EPSILON_INVERSE) as u64,
        den: (players * (visits * EPSILON_INVERSE + 1)) as u64,
    }
}

/// The rate `1 / (visits + epsilon)`.
pub open spec fn explore_first_value(visits: u64) -> Score {
    Score { num: EPSILON_INVERSE, den: (visits * EPSILON_INVERSE + 1) as u64 }
}

/// Whether statistics are within the range that scores are computed on.
pub open spec fn scorable(wins: u64, players: u64, visits: u64) -> bool {
    &&& 1 <= players <= PLAYER_LIMIT
    &&& visits <= VISIT_LIMIT
    &&& wins <= visits * players
}

/// Computes [`exploitation_value`] without overflow.
pub fn exploitation_score(wins: u64, players: u64, visits: u64) -> (s: Score)
    requires
        scorable(wins, players, visits),
    ensures
        s == exploitation_value(wins, players, visits),
        s.num == wins * EPSILON_INVERSE,
        s.den == players * (visits * EPSILON_INVERSE + 1),
        s.den > 0,
{
    assert(wins * 100_000 <= 1_000_000_000 * 65_535 * 100_000) by (nonlinear_arith)
        requires
            wins <= visits * players,
            visits <= 1_000_000_000,
            players <= 65_535,
    ;
    assert(0 < players * (visits * 100_000 + 1) <= 65_535 * (1_000_000_000 * 100_000 + 1))
        by (nonlinear_arith)
        requires
            visits <= 1_000_000_000,
            1 <= players <= 65_535,
    ;
    Score { num: wins * EPSILON_INVERSE, den: players * (visits * EPSILON_INVERSE + 1) }
}

/// Computes [`explore_first_value`] without overflow.
pub fn explore_first_score(visits: u64) -> (s: Score)
    requires
        visits <= VISIT_LIMIT,
    ensures
        s == explore_first_value(visits),
        s.den == visits * EPSILON_INVERSE + 1,
{
    Score { num: EPSILON_INVERSE, den: visits * EPSILON_INVERSE + 1 }
}

/// A rule that scores one child of a node during the search.
///
/// `wins` is the child's credit for the player to move, in units of which a
/// full win holds `players`; `visits` is the child's visit count and
/// `parent_visits` the node's own. A rule may fix the score of given
/// statistics, and then has to return it; a rule that fixes none, such as
/// one that draws its scores at random, promises nothing.
pub trait Evaluator {
    /// The score that the rule fixes for these statistics, if it fixes one.
    open spec fn rule(&self, wins: u64, players: u64, visits: u64, parent_visits: u64) -> Option<
        Score,
    > {
        None
    }

    fn evaluate(&self, wins: u64, players: u64, visits: u64, parent_visits: u64) -> (s: Score)
        requires
            scorable(wins, players, visits),
        ensures
            self.rule(wins, players, visits, parent_visits) matches Some(fixed) ==> s == fixed,
    ;
}

/// Pure exploitation: the child's success rate so far.
pub struct Exploitation;

impl Evaluator for Exploitation {
    open spec fn rule(&self, wins: u64, players: u64, visits: u64, parent_visits: u64) -> Option<
        Score,
    > {
        Some(exploitation_value(wins, players, visits))
    }

    fn evaluate(&self, wins: u64, players: u64, visits: u64, parent_visits: u64) -> (s: Score) {
        exploitation_score(wins, players, visits)
    }
}

/// How the search weighs what it knows against what it has not tried.
pub enum ExploitVsExplore<Bound> {
    /// An upper confidence bound, computed by the rule held here.
    UCB1(Bound),
    /// A fresh random score for every child: pure exploration.
    Random,
    /// `1 / visits`: the least visited child first.
    ExploreFirst,
}

impl<Bound: Evaluator> Evaluator for ExploitVsExplore<Bound> {
    open spec fn rule(&self, wins: u64, players: u64, visits: u64, parent_visits: u64) -> Option<
        Score,
    > {
        match self {
            ExploitVsExplore::UCB1(bound) => bound.rule(wins, players, visits, parent_visits),
            ExploitVsExplore::Random => None,
            ExploitVsExplore::ExploreFirst => Some(explore_first_value(visits)),
        }
    }

    fn evaluate(&self, wins: u64, players: u64, visits: u64, parent_visits: u64) -> (s: Score)
        ensures
            self is Random ==> s.den == 1,
    {
        match self {
            ExploitVsExplore::UCB1(bound) => bound.evaluate(wins, players, visits, parent_visits),
            ExploitVsExplore::Random => Score { num: random_u64(), den: 1 },
            ExploitVsExplore::ExploreFirst => explore_first_score(visits),
        }
    }
}

} // verus!
