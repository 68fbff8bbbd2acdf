use vstd::prelude::*;

verus! {

/// How a finished game ended, told by who moved last.
#[derive(Clone, Copy, PartialEq, Eq, Structural, Debug)]
pub enum Winner {
    /// The player who made the last move has won.
    PlayerJustMoved,
    /// Nobody has won.
    Draw,
    /// The player whose turn it is has won.
    PlayerToMove,
}

/// The rules of a two-player game of perfect information, as the search
/// sees them. The three spec functions are the game; the four executable
/// functions compute them on real states. A game states the three itself:
/// what stands here for them leaves them open, so that nothing can be
/// proved of a game that does not.
pub trait Game: Sized {
    /// A position of the game, with whose turn it is.
    type S;

    /// A move.
    type M: Copy;

    /// How the game ended in `state`, if it has ended there.
    open spec fn winner(state: Self::S) -> Option<Winner> {
        arbitrary()
    }

    /// The moves that the player to move may make in `state`, in a fixed
    /// order.
    open spec fn legal_moves(state: Self::S) -> Seq<Self::M> {
        arbitrary()
    }

    /// The state that `m` leads to from `state`.
    open spec fn next_state(state: Self::S, m: Self::M) -> Self::S {
        arbitrary()
    }

    /// Appends the legal moves of `state` to `moves`.
    fn generate_moves(state: &Self::S, moves: &mut Vec<Self::M>)
        ensures
            final(moves)@ == old(moves)@ + Self::legal_moves(*state),
    ;

    /// How the game ended in `state`, if it has ended there.
    fn get_winner(state: &Self::S) -> (w: Option<Winner>)
        ensures
            w == Self::winner(*state),
    ;

    /// Plays `m`, a legal move of a state in which the game goes on.
    fn apply(m: &Self::M, state: &mut Self::S)
        requires
            Self::winner(*old(state)) is None,
            Self::legal_moves(*old(state)).contains(*m),
        ensures
            *final(state) == Self::next_state(*old(state), *m),
    ;

    /// Takes `m` back: from a state that `m` led to, returns to the state
    /// in which it was played.
    fn undo(m: &Self::M, state: &mut Self::S)
        ensures
            forall|p: Self::S|
                Self::winner(p) is None && Self::legal_moves(p).contains(*m)
                    && #[trigger] Self::next_state(p, *m) == *old(state) ==> *final(state) == p,
    ;
}

/// A way to pick a move in a state of a game.
pub trait Strategy<G: Game> {
    /// Whether the strategy can be asked for a move in `state`. Every state
    /// will do unless a strategy says otherwise.
    open spec fn accepts(&self, state: G::S) -> bool {
        true
    }

    /// What the strategy says of the answer `r` that it gives in `state`,
    /// and of what it is itself `after` giving it. Nothing, unless a
    /// strategy says otherwise.
    open spec fn chooses(&self, after: &Self, state: G::S, r: Option<G::M>) -> bool {
        true
    }

    /// A move to play in `state`, if the strategy finds one. What it finds
    /// is a legal move of a state in which the game goes on, and is as the
    /// strategy says of its answers.
    fn choose_move(&mut self, state: &G::S) -> (r: Option<G::M>)
        requires
            <Self as Strategy<G>>::accepts(old(self), *state),
        ensures
            r is Some ==> G::winner(*state) is None && G::legal_moves(*state).contains(r->0),
            <Self as Strategy<G>>::chooses(old(self), final(self), *state, r),
    ;
}

impl Winner {
    /// The value of a finished game to the player who made its last move:
    /// 1 for a win, -1 for a loss, 0 for a draw.
    pub open spec fn value(self) -> int {
        match self {
            Winner::PlayerJustMoved => 1,
            Winner::PlayerToMove => -1,
            Winner::Draw => 0,
        }
    }

    /// The value of a finished game to the player who made its last move.
    pub fn outcome(self) -> (r: i32)
        ensures
            r == self.value(),
    {
        match self {
            Winner::PlayerJustMoved => 1,
            Winner::PlayerToMove => -1,
            Winner::Draw => 0,
        }
    }
}

/// Whether a clone of a state is that state again. The search works on a
/// clone of the state it is given, and says of the one what it finds of the
/// other.
pub open spec fn clone_is_exact<S: Clone>() -> bool {
    forall|a: S, b: S| #[trigger] cloned(a, b) ==> a == b
}

/// Whether `m` may be played in `state`: the game goes on there and `m` is
/// one of its legal moves.
pub open spec fn can_play<G: Game>(state: G::S, m: G::M) -> bool {
    G::winner(state) is None && G::legal_moves(state).contains(m)
}

/// Whether the game neither has ended in `state` nor offers a move there.
pub open spec fn is_stuck<G: Game>(state: G::S) -> bool {
    G::winner(state) is None && G::legal_moves(state).len() == 0
}

/// Whether the moves of `line` can be played one after the other from
/// `state`.
pub open spec fn is_line<G: Game>(state: G::S, line: Seq<G::M>) -> bool
    decreases line.len(),
{
    line.len() == 0 || (can_play::<G>(state, line[0]) && is_line::<G>(
        G::next_state(state, line[0]),
        line.skip(1),
    ))
}

/// The state that the moves of `line` lead to from `state`.
pub open spec fn state_after<G: Game>(state: G::S, line: Seq<G::M>) -> G::S
    decreases line.len(),
{
    if line.len() == 0 {
        state
    } else {
        state_after::<G>(G::next_state(state, line[0]), line.skip(1))
    }
}

/// Whether no play from `state` ever gets stuck: every state that legal
/// moves lead to from it has ended or offers a move.
pub open spec fn never_stuck_from<G: Game>(state: G::S) -> bool {
    forall|line: Seq<G::M>| #[trigger]
        is_line::<G>(state, line) ==> !is_stuck::<G>(state_after::<G>(state, line))
}

/// A state from which no play gets stuck is not stuck itself.
pub proof fn lemma_never_stuck_here<G: Game>(state: G::S)
    requires
        never_stuck_from::<G>(state),
    ensures
        !is_stuck::<G>(state),
{
    let line = Seq::<G::M>::empty();
    assert(is_line::<G>(state, line));
    assert(state_after::<G>(state, line) == state);
}

/// If no play from `state` gets stuck, none does from a state that one
/// legal move leads to.
pub proof fn lemma_never_stuck_step<G: Game>(state: G::S, m: G::M)
    requires
        never_stuck_from::<G>(state),
        can_play::<G>(state, m),
    ensures
        never_stuck_from::<G>(G::next_state(state, m)),
{
    let next = G::next_state(state, m);
    assert forall|line: Seq<G::M>| #[trigger] is_line::<G>(next, line) implies !is_stuck::<G>(
        state_after::<G>(next, line),
    ) by {
        let longer = seq![m] + line;
        assert(longer[0] == m);
        assert(longer.skip(1) =~= line);
        assert(is_line::<G>(state, longer));
        assert(state_after::<G>(state, longer) == state_after::<G>(next, line));
    }
}

/// In a state in which the game has ended, no play gets stuck: there is
/// none.
pub proof fn lemma_never_stuck_at_end<G: Game>(state: G::S)
    requires
        G::winner(state) is Some,
    ensures
        never_stuck_from::<G>(state),
{
    assert forall|line: Seq<G::M>| #[trigger] is_line::<G>(state, line) implies !is_stuck::<G>(
        state_after::<G>(state, line),
    ) by {
        assert(line.len() == 0);
    }
}

} // verus!
