use vstd::prelude::*;
use crate::interface::{
    can_play, clone_is_exact, is_stuck, lemma_never_stuck_at_end, lemma_never_stuck_here,
    lemma_never_stuck_step, never_stuck_from, Game, Strategy, Winner,
};
use crate::strategies::pass::{
    children_once_expanded, is_grown_by, is_initial_tree, is_pass, is_search_tree,
    lemma_expanded_node, lemma_pass_through_child, playout_outcome, scores_once_expanded,
};
use crate::strategies::random::{choose_item, thread_rng};
use crate::strategies::tree::{fresh_node, is_first_max_from, new_expansion, tree_matches, Node};

verus! {

/// The weight of exploring while the tree is grown: one, in fixed point.
pub const EXPLORATION: u32 = 65536;

/// The weight of exploring when the move is picked at the end: none, so
/// that the share of wins alone decides.
pub const NO_EXPLORATION: u32 = 0;

/// Options for MonteCarloTreeSearch.
pub struct MCTSOptions {
    /// How many moves a rollout may play before it is stopped and counted
    /// as a draw.
    pub max_rollout_depth: u32,
    /// How many rollouts a leaf gets before it is expanded.
    pub rollouts_before_expanding: u32,
    /// How many passes one search makes over its tree.
    pub max_rollouts: u32,
}

impl Default for MCTSOptions {
    fn default() -> (options: Self)
        ensures
            options.max_rollout_depth == 100,
            options.rollouts_before_expanding == 0,
            options.max_rollouts == 100,
    {
        MCTSOptions { max_rollout_depth: 100, rollouts_before_expanding: 0, max_rollouts: 100 }
    }
}

impl MCTSOptions {
    /// Set a maximum depth for rollouts. Rollouts that reach this depth are
    /// stopped and assigned a Draw value.
    pub fn with_max_rollout_depth(self, depth: u32) -> (options: Self)
        ensures
            options.max_rollout_depth == depth,
            options.rollouts_before_expanding == self.rollouts_before_expanding,
            options.max_rollouts == self.max_rollouts,
    {
        let mut options = self;
        options.max_rollout_depth = depth;
        options
    }

    /// How many rollouts to run on a single leaf node before expanding its
    /// children. The default value is 0, where every rollout expands some
    /// leaf node.
    pub fn with_rollouts_before_expanding(self, rollouts: u32) -> (options: Self)
        ensures
            options.max_rollout_depth == self.max_rollout_depth,
            options.rollouts_before_expanding == rollouts,
            options.max_rollouts == self.max_rollouts,
    {
        let mut options = self;
        options.rollouts_before_expanding = rollouts;
        options
    }

    /// How many passes one search makes over its tree. The default value is
    /// 100.
    pub fn with_max_rollouts(self, rollouts: u32) -> (options: Self)
        ensures
            options.max_rollout_depth == self.max_rollout_depth,
            options.rollouts_before_expanding == self.rollouts_before_expanding,
            options.max_rollouts == rollouts,
    {
        let mut options = self;
        options.max_rollouts = rollouts;
        options
    }
}

/// A search for a move by Monte Carlo tree search.
pub struct MonteCarloTreeSearch {
    /// What the search was made with.
    pub options: MCTSOptions,
}

impl MonteCarloTreeSearch {
    /// A search with the given options.
    pub fn new(options: MCTSOptions) -> (search: Self)
        ensures
            search.options == options,
    {
        Self { options }
    }

    /// Plays random legal moves from `s` until the game ends or the depth of
    /// rollouts is used up. Returns the outcome for the player whose move
    /// led to `s`: 1 for a win, -1 for a loss, 0 for a draw or an unfinished
    /// game. Each move is drawn from the legal moves of the state that the
    /// playout has reached, not from those of `s`.
    pub fn rollout<G: Game>(&self, s: &G::S) -> (r: i32) where G::S: Clone
        requires
            clone_is_exact::<G::S>(),
            never_stuck_from::<G>(*s),
        ensures
            playout_outcome::<G>(*s, self.options.max_rollout_depth as nat, r as int),
            -1 <= r <= 1,
    {
        let mut rng = thread_rng();
        let mut depth: u32 = self.options.max_rollout_depth;
        let mut state = s.clone();
        assert(cloned(*s, state));
        let mut moves: Vec<G::M> = Vec::new();
        let mut sign: i32 = 1;
        loop
            invariant
                sign == 1 || sign == -1,
                never_stuck_from::<G>(state),
                sign == 1 ==> forall|x: int| #[trigger]
                    playout_outcome::<G>(state, depth as nat, x) ==> playout_outcome::<G>(
                        *s,
                        self.options.max_rollout_depth as nat,
                        x,
                    ),
                sign == -1 ==> forall|x: int| #[trigger]
                    playout_outcome::<G>(state, depth as nat, x) ==> playout_outcome::<G>(
                        *s,
                        self.options.max_rollout_depth as nat,
                        -x,
                    ),
            decreases depth,
        {
            if let Some(winner) = G::get_winner(&state) {
                let value: i32 = winner.outcome();
                let r: i32 = value * sign;
                assert(playout_outcome::<G>(state, depth as nat, value as int));
                return r;
            }
            if depth == 0 {
                assert(playout_outcome::<G>(state, depth as nat, 0));
                return 0;
            }
            moves.clear();
            G::generate_moves(&state, &mut moves);
            proof {
                lemma_never_stuck_here::<G>(state);
                assert(moves@ =~= G::legal_moves(state));
            }
            let m: G::M = *choose_item(&moves, &mut rng).unwrap();
            let ghost prev = state;
            let ghost prev_depth = depth as nat;
            proof {
                lemma_never_stuck_step::<G>(state, m);
            }
            G::apply(&m, &mut state);
            sign = -sign;
            depth = depth - 1;
            proof {
                assert forall|x: int| #[trigger]
                    playout_outcome::<G>(state, depth as nat, x) implies playout_outcome::<G>(
                    *s,
                    self.options.max_rollout_depth as nat,
                    if sign == 1 {
                        x
                    } else {
                        -x
                    },
                ) by {
                    assert(G::legal_moves(prev).contains(m));
                    assert(state == G::next_state(prev, m));
                    assert(depth as nat == (prev_depth - 1) as nat);
                    assert(playout_outcome::<G>(
                        G::next_state(prev, m),
                        (prev_depth - 1) as nat,
                        -(-x),
                    ));
                    assert(playout_outcome::<G>(prev, prev_depth, -x));
                }
            }
        }
    }

    /// One pass over the tree under `node`, which is the tree of `state`:
    /// down to a node that is not expanded, a playout from there, and the
    /// outcome recorded at every node on the way back, with its sign
    /// turned at each step. Returns the outcome for the player whose move
    /// led to `node`. With `force_rollout` the pass ends with a playout at
    /// `node` itself. The state is handed back as it was.
    pub fn simulate<G: Game>(
        &self,
        node: &mut Node<G::M>,
        state: &mut G::S,
        force_rollout: bool,
    ) -> (r: i32) where G::S: Clone
        requires
            clone_is_exact::<G::S>(),
            never_stuck_from::<G>(*old(state)),
            old(node).wf(),
            tree_matches::<G>(*old(node), *old(state)),
            old(node).visits < u32::MAX,
        ensures
            -1 <= r <= 1,
            *final(state) == *old(state),
            final(node).visits == old(node).visits + 1,
            final(node).score == old(node).score + r,
            final(node).wf(),
            tree_matches::<G>(*final(node), *old(state)),
            is_pass::<G>(
                self.options,
                *old(node),
                *final(node),
                *old(state),
                force_rollout,
                r as int,
            ),
        decreases
                (if force_rollout {
                    0int
                } else {
                    1int
                }),
                *old(node),
    {
        let ghost before = *node;
        let ghost s0 = *state;
        if force_rollout {
            let outcome: i32 = self.rollout::<G>(state);
            return node.update_stats(outcome);
        }
        let mut force_next: bool = false;
        if node.expansion.get().is_none() {
            if node.visits < self.options.rollouts_before_expanding {
                let outcome: i32 = self.rollout::<G>(state);
                return node.update_stats(outcome);
            }
            node.expansion.try_set(new_expansion::<G>(state));
            force_next = true;
            proof {
                lemma_expanded_node::<G>(before, *node, s0);
            }
        }
        let ghost mid = *node;
        let winner: Option<Winner> = match node.expansion.get() {
            Some(expansion) => expansion.winner,
            None => None,
        };
        if let Some(winner) = winner {
            return node.update_stats(winner.outcome());
        }
        proof {
            lemma_never_stuck_here::<G>(s0);
        }
        let i: usize = node.best_child_index(EXPLORATION).unwrap();
        let ghost start = choose|start: int| #[trigger]
            is_first_max_from(mid.selection_scores(EXPLORATION), start, i as int);
        let expansion = node.expansion.get_mut().unwrap();
        let child = &mut expansion.children[i];
        let ghost old_child = *child;
        let m: G::M = child.m.unwrap();
        proof {
            mid.lemma_child_wf(i as int);
            assert(G::legal_moves(s0)[i as int] == m);
            lemma_never_stuck_step::<G>(s0, m);
        }
        G::apply(&m, state);
        let child_result: i32 = self.simulate::<G>(child, state, force_next);
        G::undo(&m, state);
        let result: i32 = -child_result;
        let r: i32 = node.update_stats(result);
        proof {
            lemma_pass_through_child::<G>(mid, *node, s0, i as int, r as int);
            assert(node.children() =~= mid.children().update(i as int, node.children()[i as int]));
            assert(mid.children() == children_once_expanded::<G>(before, s0));
            assert(is_first_max_from(scores_once_expanded::<G>(before, s0), start, i as int));
            assert(is_pass::<G>(self.options, before, *node, s0, force_rollout, r as int));
        }
        r
    }

    /// Grows the tree of `s`: a root, expanded at once, and then as many
    /// passes over it as the options ask for. Where `s` is stuck there is
    /// nothing to pass through, and the tree is left as it is.
    pub fn search<G: Game>(&self, s: &G::S) -> (root: Node<G::M>) where G::S: Clone
        requires
            clone_is_exact::<G::S>(),
            is_stuck::<G>(*s) || never_stuck_from::<G>(*s),
        ensures
            is_search_tree::<G>(self.options, root, *s),
    {
        let mut root: Node<G::M> = Node::new(None);
        root.expansion.try_set(new_expansion::<G>(s));
        let ghost first = root;
        proof {
            lemma_expanded_node::<G>(fresh_node(None), root, *s);
        }
        let mut state = s.clone();
        assert(cloned(*s, state));
        let playable: bool = match root.expansion.get() {
            Some(expansion) => expansion.winner.is_some() || expansion.children.len() > 0,
            None => false,
        };
        if playable {
            proof {
                if G::winner(*s) is Some {
                    lemma_never_stuck_at_end::<G>(*s);
                }
            }
            let mut passes: u32 = 0;
            while passes < self.options.max_rollouts
                invariant
                    clone_is_exact::<G::S>(),
                    never_stuck_from::<G>(*s),
                    state == *s,
                    passes <= self.options.max_rollouts,
                    root.visits == passes,
                    root.wf(),
                    root.expansion@ is Some,
                    tree_matches::<G>(root, *s),
                    is_grown_by::<G>(self.options, first, root, *s, passes as nat),
                decreases self.options.max_rollouts - passes,
            {
                let ghost mid = root;
                let outcome: i32 = self.simulate::<G>(&mut root, &mut state, false);
                passes = passes + 1;
                assert(is_pass::<G>(self.options, mid, root, *s, false, outcome as int));
            }
        }
        assert(is_initial_tree::<G>(first, *s));
        root
    }

    /// Searches the tree of `s` and returns the move of the root's child
    /// with the highest share of wins; among several such, the first that a
    /// scan from a random child meets. `None` where the game has ended in
    /// `s` or there is no legal move.
    pub fn choose_move<G: Game>(&mut self, s: &G::S) -> (r: Option<G::M>) where G::S: Clone
        requires
            clone_is_exact::<G::S>(),
            is_stuck::<G>(*s) || never_stuck_from::<G>(*s),
        ensures
            final(self).options == old(self).options,
            r is None <==> G::winner(*s) is Some || G::legal_moves(*s).len() == 0,
            r is Some ==> can_play::<G>(*s, r->0),
            r is Some ==> exists|root: Node<G::M>, start: int, i: int|
                {
                    &&& is_search_tree::<G>(old(self).options, root, *s)
                    &&& #[trigger] is_first_max_from(
                        root.selection_scores(NO_EXPLORATION),
                        start,
                        i,
                    )
                    &&& r == root.children()[i].m
                },
    {
        let root = self.search::<G>(s);
        match root.best_child(NO_EXPLORATION) {
            Some(child) => {
                proof {
                    let (start, i) = choose|start: int, i: int|
                        #[trigger] is_first_max_from(
                            root.selection_scores(NO_EXPLORATION),
                            start,
                            i,
                        ) && *child == root.children()[i];
                    root.lemma_child_wf(i);
                    assert(G::legal_moves(*s)[i] == child.m->0);
                }
                child.m
            },
            None => None,
        }
    }
}

impl<G: Game> Strategy<G> for MonteCarloTreeSearch where G::S: Clone {
    /// A search can be asked for a move where a clone of a state is that
    /// state again, and where no play from the state gets stuck, unless
    /// the state is stuck itself.
    open spec fn accepts(&self, state: G::S) -> bool {
        &&& clone_is_exact::<G::S>()
        &&& is_stuck::<G>(state) || never_stuck_from::<G>(state)
    }

    /// The search keeps its options. It answers `None` where the game has
    /// ended in `state` or there is no legal move, and nowhere else. A move
    /// that it answers with is the move of the child that a scan without
    /// exploration settles on, from some child of the root of a tree that
    /// a search of `state` can end with.
    open spec fn chooses(&self, after: &Self, state: G::S, r: Option<G::M>) -> bool {
        &&& after.options == self.options
        &&& r is None <==> G::winner(state) is Some || G::legal_moves(state).len() == 0
        &&& r is Some ==> exists|root: Node<G::M>, start: int, i: int|
            {
                &&& is_search_tree::<G>(self.options, root, state)
                &&& #[trigger] is_first_max_from(
                    root.selection_scores(NO_EXPLORATION),
                    start,
                    i,
                )
                &&& r == root.children()[i].m
            }
    }

    /// The move that the search chooses in `s`: what the function of the
    /// same name finds.
    fn choose_move(&mut self, s: &G::S) -> (r: Option<G::M>) {
        MonteCarloTreeSearch::choose_move::<G>(self, s)
    }
}

} // verus!
