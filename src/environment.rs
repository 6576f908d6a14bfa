use crate::score::Score;
use vstd::prelude::*;
use vstd::std_specs::cmp::PartialEqSpec;

verus! {

/// What a game state must offer to be searched.
///
/// `Action` identifies a move; `AgentId` identifies a participant. Each
/// executable method is tied to a spec function that states its result.
pub trait Environment<Action, AgentId>: Sized {
    /// The canonical starting configuration.
    spec fn initial_spec() -> Self;

    /// Every legal action for the agent whose turn it is, in a fixed order.
    spec fn actions_spec(&self) -> Seq<Action>;

    /// The state that results from `a`.
    spec fn what_if_spec(&self, a: Action) -> Self;

    /// True once no further actions are explored.
    spec fn terminal_spec(&self) -> bool;

    /// Whose action is pending.
    spec fn turn_spec(&self) -> AgentId;

    /// The winner of a finished game; `None` is a draw.
    spec fn winner_spec(&self) -> Option<AgentId>;

    /// The key under which the state is cached.
    spec fn key_spec(&self) -> u64;

    /// Equal keys mean equal states, hence equal game trees.
    proof fn lemma_key_identifies(a: Self, b: Self)
        requires
            a.key_spec() == b.key_spec(),
        ensures
            a == b,
    ;

    fn initial_state() -> (r: Self)
        ensures
            r == Self::initial_spec(),
    ;

    /// Applies `a` in place; returns whether the state changed.
    fn update(&mut self, a: &Action) -> (changed: bool)
        requires
            old(self).actions_spec().contains(*a),
        ensures
            *final(self) == old(self).what_if_spec(*a),
            changed == (*final(self) != *old(self)),
    ;

    /// The state that `a` would lead to, leaving `self` as it is.
    fn what_if(&self, a: &Action) -> (r: Self)
        requires
            self.actions_spec().contains(*a),
        ensures
            r == self.what_if_spec(*a),
    ;

    fn valid_actions(&self) -> (r: Vec<Action>)
        ensures
            r@ == self.actions_spec(),
    ;

    fn is_valid(&self, a: &Action) -> (r: bool)
        ensures
            r == self.actions_spec().contains(*a),
    ;

    fn is_terminal(&self) -> (r: bool)
        ensures
            r == self.terminal_spec(),
    ;

    fn turn(&self) -> (r: AgentId)
        ensures
            r == self.turn_spec(),
    ;

    fn winner(&self) -> (r: Option<AgentId>)
        requires
            self.terminal_spec(),
        ensures
            r == self.winner_spec(),
    ;

    fn key(&self) -> (r: u64)
        ensures
            r == self.key_spec(),
    ;
}

/// A reward: how good a state is for an agent.
pub trait Reward<T, Action, AgentId: PartialEq> where T: Environment<Action, AgentId> {
    spec fn value_spec(&self, env: T, agent: AgentId) -> Score;

    fn reward(&self, env: &T, agent: &AgentId) -> (r: Score)
        requires
            AgentId::obeys_eq_spec(),
        ensures
            r == self.value_spec(*env, *agent),
    ;
}

} // verus!
