use vstd::prelude::*;
use crate::interface::{is_stuck, Game, Winner};
use crate::strategies::fixed::log2_of;
use crate::strategies::mcts::{MCTSOptions, EXPLORATION};
use crate::strategies::tree::{
    child_scores, fresh_node, initial_children, is_first_max_from, tree_matches, Node,
};

verus! {

/// Whether a random playout of at most `depth` moves from `state` can end
/// with `outcome` for the player whose move led to `state`. Where the game
/// has ended, the outcome is the value of that end to the player who moved
/// last. Where no move is left to the playout, it is 0. Else it is the
/// opposite of what some legal move leads to.
pub open spec fn playout_outcome<G: Game>(state: G::S, depth: nat, outcome: int) -> bool
    decreases depth,
{
    match G::winner(state) {
        Some(winner) => outcome == winner.value(),
        None => if depth == 0 {
            outcome == 0
        } else {
            exists|m: G::M|
                #[trigger] G::legal_moves(state).contains(m) && playout_outcome::<G>(
                    G::next_state(state, m),
                    (depth - 1) as nat,
                    -outcome,
                )
        },
    }
}

/// Whether the game goes on in every state that at most `depth` legal moves
/// lead to from `state`.
pub open spec fn no_end_within<G: Game>(state: G::S, depth: nat) -> bool
    decreases depth,
{
    &&& G::winner(state) is None
    &&& depth > 0 ==> forall|m: G::M|
        #[trigger] G::legal_moves(state).contains(m) ==> no_end_within::<G>(
            G::next_state(state, m),
            (depth - 1) as nat,
        )
}

/// A playout ends with a loss, a draw or a win.
pub proof fn lemma_playout_outcome_range<G: Game>(state: G::S, depth: nat, outcome: int)
    requires
        playout_outcome::<G>(state, depth, outcome),
    ensures
        -1 <= outcome <= 1,
    decreases depth,
{
    if G::winner(state) is None && depth > 0 {
        let m = choose|m: G::M|
            #[trigger] G::legal_moves(state).contains(m) && playout_outcome::<G>(
                G::next_state(state, m),
                (depth - 1) as nat,
                -outcome,
            );
        lemma_playout_outcome_range::<G>(G::next_state(state, m), (depth - 1) as nat, -outcome);
    }
}

/// A playout that cannot reach the end of the game within its depth ends
/// with a draw.
pub proof fn lemma_playout_to_the_cap<G: Game>(state: G::S, depth: nat, outcome: int)
    requires
        no_end_within::<G>(state, depth),
        playout_outcome::<G>(state, depth, outcome),
    ensures
        outcome == 0,
    decreases depth,
{
    if depth > 0 {
        let m = choose|m: G::M|
            #[trigger] G::legal_moves(state).contains(m) && playout_outcome::<G>(
                G::next_state(state, m),
                (depth - 1) as nat,
                -outcome,
            );
        assert(no_end_within::<G>(G::next_state(state, m), (depth - 1) as nat));
        lemma_playout_to_the_cap::<G>(G::next_state(state, m), (depth - 1) as nat, -outcome);
    }
}

/// Whether a pass that reaches `node` ends there with a playout: because it
/// was told to, or because the node is not expanded and has not yet had the
/// playouts that come before expanding.
pub open spec fn rolls_out<M>(options: MCTSOptions, node: Node<M>, force_rollout: bool) -> bool {
    force_rollout || (node.expansion@ is None && node.visits < options.rollouts_before_expanding)
}

/// The children of `node` once it is expanded for `state`: those it has, or
/// fresh ones if it is not expanded yet.
pub open spec fn children_once_expanded<G: Game>(node: Node<G::M>, state: G::S) -> Seq<Node<G::M>> {
    if node.expansion@ is Some {
        node.children()
    } else {
        initial_children::<G>(state)
    }
}

/// How the game ended at `node` once it is expanded for `state`: what it
/// records, or what the game says if it is not expanded yet.
pub open spec fn winner_once_expanded<G: Game>(node: Node<G::M>, state: G::S) -> Option<Winner> {
    if node.expansion@ is Some {
        node.expansion@->0.winner
    } else {
        G::winner(state)
    }
}

/// The UCT scores by which a pass selects a child of `node`, once it is
/// expanded for `state`.
pub open spec fn scores_once_expanded<G: Game>(node: Node<G::M>, state: G::S) -> Seq<int> {
    child_scores(children_once_expanded::<G>(node, state), EXPLORATION, log2_of(node.visits))
}

/// Whether one pass with the result `outcome` can turn the tree `before`
/// into the tree `after`, where `before` is the tree of `state`.
///
/// The pass is counted at the node and its outcome is added to the score.
/// Where the pass ends with a playout, the outcome is that of the playout
/// and nothing else changes. Else the node is expanded, if it was not. If
/// the game has ended there, the outcome is the value of that end.
/// Otherwise the pass goes on through the child that a UCT scan from some
/// child settles on, in the state that the child's move leads to: that
/// child is changed by a pass of the opposite outcome, which ends with a
/// playout if the node was expanded only now, and no other child changes.
pub open spec fn is_pass<G: Game>(
    options: MCTSOptions,
    before: Node<G::M>,
    after: Node<G::M>,
    state: G::S,
    force_rollout: bool,
    outcome: int,
) -> bool
    decreases after,
{
    &&& after.m == before.m
    &&& after.visits == before.visits + 1
    &&& after.score == before.score + outcome
    &&& if rolls_out(options, before, force_rollout) {
        &&& after.expansion@ == before.expansion@
        &&& playout_outcome::<G>(state, options.max_rollout_depth as nat, outcome)
    } else {
        let old_children = children_once_expanded::<G>(before, state);
        &&& after.expansion@ is Some
        &&& after.expansion@->0.winner == winner_once_expanded::<G>(before, state)
        &&& after.children().len() == old_children.len()
        &&& match winner_once_expanded::<G>(before, state) {
            Some(winner) => outcome == winner.value() && after.children() == old_children,
            None => exists|i: int, start: int|
                {
                    &&& #[trigger] is_first_max_from(
                        scores_once_expanded::<G>(before, state),
                        start,
                        i,
                    )
                    &&& after.children() == old_children.update(i, after.children()[i])
                    &&& is_pass::<G>(
                        options,
                        old_children[i],
                        after.children()[i],
                        G::next_state(state, G::legal_moves(state)[i]),
                        before.expansion@ is None,
                        -outcome,
                    )
                },
        }
    }
}

/// A pass ends with a loss, a draw or a win.
pub proof fn lemma_pass_outcome_range<G: Game>(
    options: MCTSOptions,
    before: Node<G::M>,
    after: Node<G::M>,
    state: G::S,
    force_rollout: bool,
    outcome: int,
)
    requires
        is_pass::<G>(options, before, after, state, force_rollout, outcome),
    ensures
        -1 <= outcome <= 1,
    decreases after,
{
    if rolls_out(options, before, force_rollout) {
        lemma_playout_outcome_range::<G>(state, options.max_rollout_depth as nat, outcome);
    } else if winner_once_expanded::<G>(before, state) is None {
        let old_children = children_once_expanded::<G>(before, state);
        let (i, start) = choose|i: int, start: int|
            {
                &&& #[trigger] is_first_max_from(
                    scores_once_expanded::<G>(before, state),
                    start,
                    i,
                )
                &&& after.children() == old_children.update(i, after.children()[i])
                &&& is_pass::<G>(
                    options,
                    old_children[i],
                    after.children()[i],
                    G::next_state(state, G::legal_moves(state)[i]),
                    before.expansion@ is None,
                    -outcome,
                )
            };
        lemma_pass_outcome_range::<G>(
            options,
            old_children[i],
            after.children()[i],
            G::next_state(state, G::legal_moves(state)[i]),
            before.expansion@ is None,
            -outcome,
        );
    }
}

/// Negamax: a pass that goes on through the only child of a node is
/// recorded at the child with the opposite of the outcome that it is
/// recorded with at the node.
pub proof fn lemma_only_child_records_opposite<G: Game>(
    options: MCTSOptions,
    before: Node<G::M>,
    after: Node<G::M>,
    state: G::S,
    force_rollout: bool,
    outcome: int,
)
    requires
        is_pass::<G>(options, before, after, state, force_rollout, outcome),
        !rolls_out(options, before, force_rollout),
        winner_once_expanded::<G>(before, state) is None,
        children_once_expanded::<G>(before, state).len() == 1,
    ensures
        after.children().len() == 1,
        after.score - before.score == outcome,
        after.children()[0].score - children_once_expanded::<G>(before, state)[0].score
            == -outcome,
        after.children()[0].visits == children_once_expanded::<G>(before, state)[0].visits + 1,
{
    reveal_with_fuel(is_pass, 2);
}

/// A pass leaves what an expanded node records as it is: how the game
/// ended there, and the moves of its children in their order. However
/// often the expansion is read, it says the same.
pub proof fn lemma_pass_keeps_expansion<G: Game>(
    options: MCTSOptions,
    before: Node<G::M>,
    after: Node<G::M>,
    state: G::S,
    force_rollout: bool,
    outcome: int,
)
    requires
        is_pass::<G>(options, before, after, state, force_rollout, outcome),
        before.expansion@ is Some,
    ensures
        after.expansion@ is Some,
        after.expansion@->0.winner == before.expansion@->0.winner,
        after.children().len() == before.children().len(),
        forall|j: int|
            0 <= j < before.children().len() ==> (#[trigger] after.children()[j]).m
                == before.children()[j].m,
{
    reveal_with_fuel(is_pass, 2);
}

/// Whether `to` is what `passes` passes through a node can make of the
/// tree `from` under it, which is the tree of `state`.
pub open spec fn is_grown_by<G: Game>(
    options: MCTSOptions,
    from: Node<G::M>,
    to: Node<G::M>,
    state: G::S,
    passes: nat,
) -> bool
    decreases passes,
{
    if passes == 0 {
        to == from
    } else {
        exists|mid: Node<G::M>, force_rollout: bool, outcome: int|
            #[trigger] is_pass::<G>(options, mid, to, state, force_rollout, outcome)
                && is_grown_by::<G>(options, from, mid, state, (passes - 1) as nat)
    }
}

/// After any number of passes through a node, the node has that many
/// visits more, and its score has moved by that much at most. So a node
/// that started without visits and score has as many visits as passes
/// went through it, and a score within its visits.
pub proof fn lemma_grown_tree_counts_passes<G: Game>(
    options: MCTSOptions,
    from: Node<G::M>,
    to: Node<G::M>,
    state: G::S,
    passes: nat,
)
    requires
        is_grown_by::<G>(options, from, to, state, passes),
    ensures
        to.m == from.m,
        to.visits == from.visits + passes,
        from.score - passes <= to.score <= from.score + passes,
        from.visits == 0 && from.score == 0 ==> to.visits == passes && -to.visits <= to.score
            <= to.visits,
    decreases passes,
{
    if passes > 0 {
        let (mid, force_rollout, outcome) = choose|
            mid: Node<G::M>,
            force_rollout: bool,
            outcome: int,
        |
            #[trigger] is_pass::<G>(options, mid, to, state, force_rollout, outcome)
                && is_grown_by::<G>(options, from, mid, state, (passes - 1) as nat);
        lemma_pass_outcome_range::<G>(options, mid, to, state, force_rollout, outcome);
        lemma_grown_tree_counts_passes::<G>(options, from, mid, state, (passes - 1) as nat);
    }
}

/// Whether `root` is the tree that a search of `state` starts from: a root
/// without a move or a visit, expanded for `state`.
pub open spec fn is_initial_tree<G: Game>(root: Node<G::M>, state: G::S) -> bool {
    &&& root.m is None
    &&& root.visits == 0
    &&& root.score == 0
    &&& root.expansion@ is Some
    &&& root.expansion@->0.winner == G::winner(state)
    &&& root.children() == initial_children::<G>(state)
}

/// A node that has just been expanded for its state keeps the invariant of
/// the tree and is the tree of that state.
pub proof fn lemma_expanded_node<G: Game>(before: Node<G::M>, after: Node<G::M>, state: G::S)
    requires
        before.wf(),
        before.expansion@ is None,
        after.m == before.m,
        after.visits == before.visits,
        after.score == before.score,
        after.expansion@ is Some,
        after.expansion@->0.winner == G::winner(state),
        after.children() == initial_children::<G>(state),
    ensures
        after.wf(),
        tree_matches::<G>(after, state),
{
    reveal_with_fuel(Node::wf, 2);
    reveal_with_fuel(tree_matches, 2);
    let children = after.children();
    assert forall|i: int| 0 <= i < children.len() implies (#[trigger] children[i]) == fresh_node(
        Some(G::legal_moves(state)[i]),
    ) by {}
}

/// A node through whose child a pass has gone keeps the invariant of the
/// tree and stays the tree of its state, once the pass is recorded at the
/// node too.
pub proof fn lemma_pass_through_child<G: Game>(
    mid: Node<G::M>,
    after: Node<G::M>,
    state: G::S,
    i: int,
    outcome: int,
)
    requires
        mid.wf(),
        tree_matches::<G>(mid, state),
        mid.expansion@ is Some,
        mid.expansion@->0.winner is None,
        0 <= i < mid.children().len(),
        -1 <= outcome <= 1,
        after.m == mid.m,
        after.visits == mid.visits + 1,
        after.score == mid.score + outcome,
        after.expansion@ is Some,
        after.expansion@->0.winner is None,
        after.children() == mid.children().update(i, after.children()[i]),
        after.children()[i].wf(),
        after.children()[i].m == mid.children()[i].m,
        after.children()[i].visits == mid.children()[i].visits + 1,
        tree_matches::<G>(after.children()[i], G::next_state(state, G::legal_moves(state)[i])),
    ensures
        after.wf(),
        tree_matches::<G>(after, state),
{
    let old_children = mid.children();
    let new_children = after.children();
    assert forall|j: int| 0 <= j < new_children.len() implies {
        let child = #[trigger] new_children[j];
        &&& child.m is Some
        &&& child.visits <= after.visits
        &&& child.wf()
        &&& child.m == Some(G::legal_moves(state)[j])
        &&& tree_matches::<G>(child, G::next_state(state, G::legal_moves(state)[j]))
    } by {
        let was = old_children[j];
        assert(was.m is Some && was.visits <= mid.visits && was.wf());
        assert(was.m == Some(G::legal_moves(state)[j]));
        assert(tree_matches::<G>(was, G::next_state(state, G::legal_moves(state)[j])));
    }
}

/// How many passes a search of `state` makes: as many as the options ask
/// for, and none where the state is stuck.
pub open spec fn passes_of_search<G: Game>(options: MCTSOptions, state: G::S) -> nat {
    if is_stuck::<G>(state) {
        0
    } else {
        options.max_rollouts as nat
    }
}

/// Whether `root` is a tree that a search of `state` can end with: the
/// expanded tree of `state`, as the passes of the search can make it of
/// the tree that it starts from.
pub open spec fn is_search_tree<G: Game>(options: MCTSOptions, root: Node<G::M>, state: G::S) -> bool {
    &&& root.wf()
    &&& root.expansion@ is Some
    &&& tree_matches::<G>(root, state)
    &&& exists|first: Node<G::M>| #[trigger]
        is_initial_tree::<G>(first, state) && is_grown_by::<G>(
            options,
            first,
            root,
            state,
            passes_of_search::<G>(options, state),
        )
}

/// The root of the tree that a search ends with has no move, as many
/// visits as the search has made passes, and a score within its visits.
pub proof fn lemma_search_tree_counts_passes<G: Game>(
    options: MCTSOptions,
    root: Node<G::M>,
    state: G::S,
)
    requires
        is_search_tree::<G>(options, root, state),
    ensures
        root.m is None,
        root.visits == passes_of_search::<G>(options, state),
        -root.visits <= root.score <= root.visits,
{
    let first = choose|first: Node<G::M>| #[trigger]
        is_initial_tree::<G>(first, state) && is_grown_by::<G>(
            options,
            first,
            root,
            state,
            passes_of_search::<G>(options, state),
        );
    lemma_grown_tree_counts_passes::<G>(
        options,
        first,
        root,
        state,
        passes_of_search::<G>(options, state),
    );
}

} // verus!
