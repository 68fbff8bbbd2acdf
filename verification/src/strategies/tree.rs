use vstd::prelude::*;
use crate::interface::{Game, Winner};
use crate::strategies::fixed::{int_sqrt, isqrt, lemma_int_sqrt_below, log2, log2_of};
use crate::strategies::random::{gen_index, thread_rng};
use crate::strategies::util::LazySlot;

verus! {

/// The score of a child that was never visited, where exploring counts:
/// above every score that a visited child can have.
pub const INFINITE_SCORE: u64 = 18446744073709551615;

/// One vertex of the search tree: a state of the game, named by the moves
/// that lead to it from the root.
pub struct Node<M> {
    /// The move that leads here from the parent. `None` at the root only.
    pub m: Option<M>,
    /// How many passes went through this node.
    pub visits: u32,
    /// The sum of the outcomes of those passes: 1 for a win, -1 for a loss
    /// and 0 for a draw, each for the player whose move led here.
    pub score: i64,
    /// The children, once they have been made.
    pub expansion: LazySlot<NodeExpansion<M>>,
}

/// What a node becomes when it is expanded.
pub struct NodeExpansion<M> {
    /// How the game ended here, if it has.
    pub winner: Option<Winner>,
    /// One child for each legal move, in the order of the moves.
    pub children: Vec<Node<M>>,
}

/// A node that no pass has gone through yet.
pub open spec fn fresh_node<M>(m: Option<M>) -> Node<M> {
    Node { m, visits: 0, score: 0, expansion: LazySlot { value: None } }
}

/// The children of a newly expanded node for `state`: none where the game
/// has ended, else one fresh node for each legal move, in their order.
pub open spec fn initial_children<G: Game>(state: G::S) -> Seq<Node<G::M>> {
    if G::winner(state) is Some {
        Seq::empty()
    } else {
        G::legal_moves(state).map_values(|m: G::M| fresh_node(Some(m)))
    }
}

/// The share of wins among `visits` passes with the summed outcome `score`,
/// in fixed point: 0 for losses only, `UNIT` for wins only.
pub open spec fn win_ratio(visits: int, score: int) -> int {
    ((score + visits) * 65536) / (2 * visits)
}

/// What a child gains for having been visited rarely: the weight times the
/// square root of twice the parent's logarithm over the child's visits, in
/// fixed point.
pub open spec fn exploration_bonus(visits: int, weight: int, log_parent: int) -> int {
    (weight * int_sqrt((2 * log_parent * 65536) / visits)) / 65536
}

/// The UCT score of a child with the given statistics. `weight` and
/// `log_parent` are fixed-point numbers.
pub open spec fn uct_value(visits: u32, score: i64, weight: u32, log_parent: u32) -> int {
    if visits == 0 {
        if weight > 0 {
            INFINITE_SCORE as int
        } else {
            0
        }
    } else {
        win_ratio(visits as int, score as int) + exploration_bonus(
            visits as int,
            weight as int,
            log_parent as int,
        )
    }
}

/// The UCT scores of `children`, in their order.
pub open spec fn child_scores<M>(children: Seq<Node<M>>, weight: u32, log_parent: u32) -> Seq<int> {
    Seq::new(
        children.len(),
        |i: int| uct_value(children[i].visits, children[i].score, weight, log_parent),
    )
}

/// When the child at `i` is looked at in a scan of `n` children that starts
/// at `start` and wraps round: 0 for the first.
pub open spec fn turn_of(start: int, n: int, i: int) -> int {
    if i >= start {
        i - start
    } else {
        i - start + n
    }
}

/// Whether `best` is the child that a scan from `start` settles on: no score
/// is higher than its own, and every child that the scan meets before it
/// has a lower one.
pub open spec fn is_first_max_from(scores: Seq<int>, start: int, best: int) -> bool {
    &&& 0 <= start < scores.len()
    &&& 0 <= best < scores.len()
    &&& forall|j: int| 0 <= j < scores.len() ==> #[trigger] scores[j] <= scores[best]
    &&& forall|j: int|
        0 <= j < scores.len() && turn_of(start, scores.len() as int, j) < turn_of(
            start,
            scores.len() as int,
            best,
        ) ==> #[trigger] scores[j] < scores[best]
}

/// A visited child's score is finite, whatever the weight and the parent.
pub proof fn lemma_visited_score_is_finite(visits: u32, score: i64, weight: u32, log_parent: u32)
    requires
        visits > 0,
        -(visits as int) <= score <= visits as int,
    ensures
        0 <= win_ratio(visits as int, score as int) <= 65536,
        0 <= int_sqrt((2 * log_parent * 65536) / (visits as int)) < 33554432,
        0 <= exploration_bonus(visits as int, weight as int, log_parent as int)
            < 2199023255552,
        0 <= uct_value(visits, score, weight, log_parent) < INFINITE_SCORE,
{
    let v = visits as int;
    let wins = score + v;
    assert(0 <= (wins * 65536) / (2 * v) <= 65536) by (nonlinear_arith)
        requires
            0 <= wins <= 2 * v,
            v > 0,
    ;
    let x = (2 * log_parent * 65536) / v;
    assert(0 <= x < 33554432 * 33554432) by (nonlinear_arith)
        requires
            x == (2 * log_parent * 65536) / v,
            0 <= log_parent <= 4294967295,
            v > 0,
    ;
    lemma_int_sqrt_below(x, 33554432);
    let root = int_sqrt(x);
    assert(0 <= (weight * root) / 65536 < 2199023255552) by (nonlinear_arith)
        requires
            0 <= root < 33554432,
            0 <= weight <= 4294967295,
    ;
}

/// A child that was never visited scores above every visited child as soon
/// as exploring counts for anything, so untried moves are tried first.
pub proof fn lemma_untried_scores_highest(
    untried_score: i64,
    weight: u32,
    log_parent: u32,
    visits: u32,
    score: i64,
    other_weight: u32,
    other_log_parent: u32,
)
    requires
        weight > 0,
        visits > 0,
        -(visits as int) <= score <= visits as int,
    ensures
        uct_value(0, untried_score, weight, log_parent) > uct_value(
            visits,
            score,
            other_weight,
            other_log_parent,
        ),
{
    lemma_visited_score_is_finite(visits, score, other_weight, other_log_parent);
}

/// The order in which two passes are recorded at a node does not matter:
/// it ends with the same visits and the same score.
pub proof fn lemma_recording_commutes<M>(node: Node<M>, first: i32, second: i32)
    requires
        node.stats_in_range(),
        node.visits + 2 <= u32::MAX,
    ensures
        node.recorded(first).recorded(second) == node.recorded(second).recorded(first),
        node.recorded(first).recorded(second).visits == node.visits + 2,
        node.recorded(first).recorded(second).score == node.score + first + second,
{
}

/// At most one child is the one that a scan from `start` settles on.
pub proof fn lemma_first_max_is_unique(scores: Seq<int>, start: int, a: int, b: int)
    requires
        is_first_max_from(scores, start, a),
        is_first_max_from(scores, start, b),
    ensures
        a == b,
{
    let n = scores.len() as int;
    if turn_of(start, n, a) < turn_of(start, n, b) {
        assert(scores[a] < scores[b]);
        assert(scores[b] <= scores[a]);
    } else if turn_of(start, n, b) < turn_of(start, n, a) {
        assert(scores[b] < scores[a]);
        assert(scores[a] <= scores[b]);
    }
}

impl<M> Node<M> {
    /// The children of this node; none while it is not expanded.
    pub open spec fn children(self) -> Seq<Node<M>> {
        match self.expansion@ {
            Some(e) => e.children@,
            None => Seq::empty(),
        }
    }

    /// The UCT scores by which a child of this node is selected: those of
    /// its children, taken with the logarithm of this node's visits.
    pub open spec fn selection_scores(self, weight: u32) -> Seq<int> {
        child_scores(self.children(), weight, log2_of(self.visits))
    }

    /// This node with one more pass recorded, of the outcome `result`.
    pub open spec fn recorded(self, result: i32) -> Node<M> {
        Node {
            m: self.m,
            visits: (self.visits + 1) as u32,
            score: (self.score + result) as i64,
            expansion: self.expansion,
        }
    }

    /// Whether the score can be the sum of `visits` outcomes.
    pub open spec fn stats_in_range(self) -> bool {
        -(self.visits as int) <= self.score <= self.visits as int
    }

    /// The invariant of the tree under this node. The score of every node
    /// can be the sum of as many outcomes as the node has visits. An
    /// expanded node in which the game has ended has no children. Every
    /// child carries its move and has no more visits than its parent.
    pub open spec fn wf(self) -> bool
        decreases self,
    {
        &&& self.stats_in_range()
        &&& match self.expansion@ {
            None => true,
            Some(e) => {
                &&& e.winner is Some ==> e.children@.len() == 0
                &&& forall|i: int|
                    0 <= i < e.children@.len() ==> {
                        let child = #[trigger] e.children@[i];
                        &&& child.m is Some
                        &&& child.visits <= self.visits
                        &&& child.wf()
                    }
            },
        }
    }

    /// What the invariant says of each child.
    pub proof fn lemma_child_wf(self, i: int)
        requires
            self.wf(),
            0 <= i < self.children().len(),
        ensures
            self.children()[i].wf(),
            self.children()[i].stats_in_range(),
            self.children()[i].m is Some,
            self.children()[i].visits <= self.visits,
            self.expansion@->0.winner is None,
    {
        reveal_with_fuel(Node::wf, 2);
    }

    /// A node for the state that `m` leads to, or for the root.
    pub fn new(m: Option<M>) -> (node: Self)
        ensures
            node == fresh_node(m),
            node.wf(),
    {
        Node { m, expansion: LazySlot::new(), visits: 0, score: 0 }
    }

    /// The UCT score of this node as a child: its share of wins, plus a
    /// bonus that grows with the parent's visits and shrinks with its own.
    /// A node without visits scores `INFINITE_SCORE` where the weight is
    /// positive, else 0.
    pub fn uct_score(&self, exploration_weight: u32, log_parent_visits: u32) -> (r: u64)
        requires
            self.stats_in_range(),
        ensures
            r == uct_value(self.visits, self.score, exploration_weight, log_parent_visits),
    {
        if self.visits == 0 {
            return if exploration_weight > 0 {
                INFINITE_SCORE
            } else {
                0
            };
        }
        proof {
            lemma_visited_score_is_finite(
                self.visits,
                self.score,
                exploration_weight,
                log_parent_visits,
            );
        }
        let visits: u64 = self.visits as u64;
        let wins: u64 = (self.score + self.visits as i64) as u64;
        let ratio: u64 = (wins * 65536) / (2 * visits);
        let spread: u64 = isqrt((2 * (log_parent_visits as u64) * 65536) / visits);
        assert(exploration_weight as u64 * spread < 144115188075855872) by (nonlinear_arith)
            requires
                spread < 33554432,
                exploration_weight <= 4294967295,
        ;
        ratio + (exploration_weight as u64 * spread) / 65536
    }

    /// Records one pass with the outcome `result`, and hands the outcome
    /// back.
    pub fn update_stats(&mut self, result: i32) -> (r: i32)
        requires
            old(self).visits < u32::MAX,
            i64::MIN <= old(self).score + result <= i64::MAX,
        ensures
            r == result,
            *final(self) == old(self).recorded(result),
            final(self).visits == old(self).visits + 1,
            final(self).score == old(self).score + result,
            final(self).m == old(self).m,
            final(self).expansion == old(self).expansion,
            old(self).wf() && -1 <= result <= 1 ==> final(self).wf(),
    {
        self.visits = self.visits + 1;
        self.score = self.score + result as i64;
        result
    }

    /// The child that a scan settles on which starts at the child `start`,
    /// looks at every child once and wraps round at the end: the first one
    /// it meets with the highest UCT score. The scores are taken with this
    /// node's visits as the parent's. `None` where there are no children.
    pub fn best_child_from(&self, start: usize, exploration_weight: u32) -> (best: Option<usize>)
        requires
            self.wf(),
            self.children().len() > 0 ==> start < self.children().len(),
        ensures
            best is None <==> self.children().len() == 0,
            best is Some ==> is_first_max_from(
                self.selection_scores(exploration_weight),
                start as int,
                best->0 as int,
            ),
    {
        let log_visits: u32 = log2(self.visits);
        let expansion = match self.expansion.get() {
            Some(expansion) => expansion,
            None => { return None; },
        };
        let n: usize = expansion.children.len();
        if n == 0 {
            return None;
        }
        let ghost scores = child_scores(self.children(), exploration_weight, log_visits);
        let mut i: usize = start;
        let mut best_score: u64 = 0;
        let mut best: Option<usize> = None;
        let mut k: usize = 0;
        while k < n
            invariant
                self.wf(),
                self.expansion@ == Some(*expansion),
                n == expansion.children@.len(),
                n > 0,
                start < n,
                k <= n,
                scores == child_scores(self.children(), exploration_weight, log_visits),
                k < n ==> i < n && turn_of(start as int, n as int, i as int) == k,
                k > 0 ==> best is Some,
                best is Some ==> {
                    let b = best->0 as int;
                    &&& 0 <= b < n
                    &&& turn_of(start as int, n as int, b) < k
                    &&& best_score == scores[b]
                    &&& forall|j: int|
                        0 <= j < n && turn_of(start as int, n as int, j) < k ==> #[trigger] scores[j]
                            <= scores[b]
                    &&& forall|j: int|
                        0 <= j < n && turn_of(start as int, n as int, j) < turn_of(
                            start as int,
                            n as int,
                            b,
                        ) ==> #[trigger] scores[j] < scores[b]
                },
            decreases n - k,
        {
            proof {
                self.lemma_child_wf(i as int);
            }
            let score: u64 = expansion.children[i].uct_score(exploration_weight, log_visits);
            assert(score == scores[i as int]);
            if best.is_none() || score > best_score {
                best_score = score;
                best = Some(i);
            }
            assert((i + 1) % (n as int) == if i + 1 < n { i + 1 } else { 0 }) by (nonlinear_arith)
                requires
                    0 <= i < n,
            ;
            i = (i + 1) % n;
            k = k + 1;
        }
        best
    }

    /// The index of the child with the highest UCT score. Among several
    /// with that score, the first one that a scan from a random child meets.
    /// `None` where there are no children.
    pub fn best_child_index(&self, exploration_weight: u32) -> (best: Option<usize>)
        requires
            self.wf(),
        ensures
            best is None <==> self.children().len() == 0,
            best is Some ==> exists|start: int|
                #[trigger] is_first_max_from(
                    self.selection_scores(exploration_weight),
                    start,
                    best->0 as int,
                ),
    {
        let n: usize = match self.expansion.get() {
            Some(expansion) => expansion.children.len(),
            None => 0,
        };
        if n == 0 {
            return None;
        }
        let mut rng = thread_rng();
        let start: usize = gen_index(&mut rng, n);
        let best = self.best_child_from(start, exploration_weight);
        assert(is_first_max_from(
            self.selection_scores(exploration_weight),
            start as int,
            best->0 as int,
        ));
        best
    }

    /// The child with the highest UCT score. Among several with that score,
    /// the first one that a scan from a random child meets. `None` where
    /// there are no children.
    pub fn best_child(&self, exploration_weight: u32) -> (best: Option<&Node<M>>)
        requires
            self.wf(),
        ensures
            best is None <==> self.children().len() == 0,
            best is Some ==> exists|start: int, i: int|
                #[trigger] is_first_max_from(
                    self.selection_scores(exploration_weight),
                    start,
                    i,
                ) && *best->0 == self.children()[i],
    {
        match self.best_child_index(exploration_weight) {
            Some(i) => {
                match self.expansion.get() {
                    Some(expansion) => Some(&expansion.children[i]),
                    None => None,
                }
            },
            None => None,
        }
    }
}

/// Whether the tree under `node` is the tree of `state`: every expanded node
/// in it records how the game ended in its state, and has one child for each
/// legal move there, in the order of the moves, each for the state that its
/// move leads to.
pub open spec fn tree_matches<G: Game>(node: Node<G::M>, state: G::S) -> bool
    decreases node,
{
    match node.expansion@ {
        None => true,
        Some(e) => {
            &&& e.winner == G::winner(state)
            &&& e.children@.len() == initial_children::<G>(state).len()
            &&& forall|i: int|
                0 <= i < e.children@.len() ==> {
                    let child = #[trigger] e.children@[i];
                    &&& child.m == Some(G::legal_moves(state)[i])
                    &&& tree_matches::<G>(child, G::next_state(state, G::legal_moves(state)[i]))
                }
        },
    }
}

/// Expands a node for `state`: records how the game ended there, or makes a
/// fresh child for each legal move.
pub fn new_expansion<G: Game>(state: &G::S) -> (expansion: Box<NodeExpansion<G::M>>)
    ensures
        expansion.winner == G::winner(*state),
        expansion.children@ == initial_children::<G>(*state),
{
    let winner = G::get_winner(state);
    let mut children: Vec<Node<G::M>> = Vec::new();
    if winner.is_none() {
        let mut moves: Vec<G::M> = Vec::new();
        G::generate_moves(state, &mut moves);
        assert(moves@ =~= G::legal_moves(*state));
        let mut i: usize = 0;
        while i < moves.len()
            invariant
                i <= moves@.len(),
                children@.len() == i,
                forall|j: int| 0 <= j < i ==> #[trigger] children@[j] == fresh_node(Some(moves@[j])),
            decreases moves@.len() - i,
        {
            children.push(Node::new(Some(moves[i])));
            i = i + 1;
        }
    }
    assert(children@ =~= initial_children::<G>(*state));
    Box::new(NodeExpansion { winner, children })
}

/// Expanding a state always gives the same: two expansions of one state end
/// the same way and have children for the same moves in the same order.
pub proof fn lemma_expansion_is_determined<G: Game>(
    a: NodeExpansion<G::M>,
    b: NodeExpansion<G::M>,
    state: G::S,
)
    requires
        a.winner == G::winner(state) && a.children@ == initial_children::<G>(state),
        b.winner == G::winner(state) && b.children@ == initial_children::<G>(state),
    ensures
        a.winner == b.winner,
        a.children@ == b.children@,
        a.children@.map_values(|c: Node<G::M>| c.m) == b.children@.map_values(
            |c: Node<G::M>| c.m,
        ),
{
}

} // verus!
