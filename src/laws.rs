use crate::environment::{Environment, Reward};
use crate::game_tree::{
    child_values, ends_within, improves, lemma_pick_first_best, lemma_solve_depth_stable,
    lemma_solve_leaf_agree, maximizing, outcome, outcome_leaf, reward_leaf, solve,
};
use crate::score::Score;
use crate::tree_search::{cache_sound, lemma_run_sound, run, Stored};
use vstd::laws_eq::obeys_concrete_eq;
use vstd::prelude::*;
use vstd::std_specs::cmp::PartialEqSpec;

verus! {

/// A search is a function of its inputs: the same state, agent, reward,
/// depth and cache give the same value, action and cache.
pub proof fn lemma_search_deterministic<A, G: PartialEq, T: Environment<A, G>, R: Reward<T, A, G>>(
    c1: Map<u64, Stored<A>>,
    c2: Map<u64, Stored<A>>,
    s: T,
    agent: G,
    reward: R,
    d: u32,
)
    requires
        c1 == c2,
    ensures
        run::<A, G, T, R>(c1, s, agent, reward, d) == run::<A, G, T, R>(c2, s, agent, reward, d),
{
}

/// Where every line of play ends within the depth, a search from any sound
/// cache (one warmed by earlier searches for the same agent and reward)
/// returns the same value and action as a search from an empty cache.
pub proof fn lemma_cache_transparency<A, G: PartialEq, T: Environment<A, G>, R: Reward<T, A, G>>(
    c: Map<u64, Stored<A>>,
    s: T,
    agent: G,
    reward: R,
    d: u32,
)
    requires
        cache_sound::<A, G, T, R>(c, agent, reward),
        ends_within::<A, G, T>(s, d as nat),
    ensures
        run::<A, G, T, R>(c, s, agent, reward, d).0 == run::<A, G, T, R>(
            Map::empty(),
            s,
            agent,
            reward,
            d,
        ).0,
        run::<A, G, T, R>(c, s, agent, reward, d).1 == run::<A, G, T, R>(
            Map::empty(),
            s,
            agent,
            reward,
            d,
        ).1,
{
    lemma_run_sound::<A, G, T, R>(c, s, agent, reward, d);
    lemma_run_sound::<A, G, T, R>(Map::empty(), s, agent, reward, d);
}

/// A terminal state is worth its reward, with no action, at every depth it
/// is searched at, and that is the value the cache holds for it afterwards.
pub proof fn lemma_terminal_value_fixed<A, G: PartialEq, T: Environment<A, G>, R: Reward<T, A, G>>(
    c: Map<u64, Stored<A>>,
    s: T,
    agent: G,
    reward: R,
    d: u32,
)
    requires
        cache_sound::<A, G, T, R>(c, agent, reward),
        s.terminal_spec(),
    ensures
        ({
            let r = run::<A, G, T, R>(c, s, agent, reward, d);
            &&& r.0 == reward.value_spec(s, agent)
            &&& r.1 is None
            &&& r.2[s.key_spec()].0 == reward.value_spec(s, agent)
        }),
{
    lemma_run_sound::<A, G, T, R>(c, s, agent, reward, d);
}

/// A search at a depth within which every line of play ends, with a reward
/// that is the win/loss/draw outcome at terminal states, returns the game's
/// value under perfect play: the value of the unbounded depth-first search.
pub proof fn lemma_bounded_optimality<A, G: PartialEq, T: Environment<A, G>, R: Reward<T, A, G>>(
    c: Map<u64, Stored<A>>,
    s: T,
    agent: G,
    reward: R,
    d: u32,
)
    requires
        cache_sound::<A, G, T, R>(c, agent, reward),
        ends_within::<A, G, T>(s, d as nat),
        forall|t: T| t.terminal_spec() ==> reward.value_spec(t, agent) == outcome::<A, G, T>(t, agent),
    ensures
        forall|n: nat|
            ends_within::<A, G, T>(s, n) ==> run::<A, G, T, R>(c, s, agent, reward, d).0
                == #[trigger] solve::<A, G, T>(s, agent, outcome_leaf::<A, G, T>(agent), n).0,
{
    let l1 = reward_leaf::<A, G, T, R>(reward, agent);
    let l2 = outcome_leaf::<A, G, T>(agent);
    lemma_run_sound::<A, G, T, R>(c, s, agent, reward, d);
    lemma_solve_leaf_agree::<A, G, T>(s, agent, l1, l2, d as nat);
    assert forall|n: nat| ends_within::<A, G, T>(s, n) implies run::<A, G, T, R>(
        c,
        s,
        agent,
        reward,
        d,
    ).0 == #[trigger] solve::<A, G, T>(s, agent, l2, n).0 by {
        if n <= d {
            lemma_solve_depth_stable::<A, G, T>(s, agent, l2, n, d as nat);
        } else {
            lemma_solve_depth_stable::<A, G, T>(s, agent, l2, d as nat, n);
        }
    }
}

/// At a terminal state the depth-first value is +1 for the winner, -1 for
/// any other agent, and 0 for every agent after a draw.
pub proof fn lemma_terminal_outcome<A, G: PartialEq, T: Environment<A, G>>(
    s: T,
    x: G,
    y: G,
    n: nat,
)
    requires
        obeys_concrete_eq::<G>(),
        s.terminal_spec(),
    ensures
        s.winner_spec() == Some(x) ==> solve::<A, G, T>(s, x, outcome_leaf::<A, G, T>(x), n).0
            == Score::Finite(1),
        s.winner_spec() == Some(x) && y != x ==> solve::<A, G, T>(
            s,
            y,
            outcome_leaf::<A, G, T>(y),
            n,
        ).0 == Score::Finite(-1i64),
        s.winner_spec() is None ==> solve::<A, G, T>(s, y, outcome_leaf::<A, G, T>(y), n).0
            == Score::Finite(0),
{
    reveal(obeys_concrete_eq);
}

/// Where the game ends within the depth, the action a search returns is the
/// first, in the order of the state's actions, whose child reaches the
/// returned value: every earlier child is strictly worse and no child is
/// better.
pub proof fn lemma_first_best_action<A, G: PartialEq, T: Environment<A, G>, R: Reward<T, A, G>>(
    c: Map<u64, Stored<A>>,
    s: T,
    agent: G,
    reward: R,
    d: u32,
)
    requires
        cache_sound::<A, G, T, R>(c, agent, reward),
        ends_within::<A, G, T>(s, d as nat),
        !s.terminal_spec(),
        d > 0,
    ensures
        ({
            let r = run::<A, G, T, R>(c, s, agent, reward, d);
            let vals = child_values::<A, G, T>(
                s,
                agent,
                reward_leaf::<A, G, T, R>(reward, agent),
                d as nat,
            );
            let acts = s.actions_spec();
            let maxi = maximizing::<A, G, T>(s, agent);
            &&& forall|k: int| 0 <= k < acts.len() ==> !improves(maxi, #[trigger] vals[k], r.0)
            &&& r.1 matches Some(a) ==> exists|j: int|
                0 <= j < acts.len() && a == acts[j] && r.0 == vals[j] && forall|k: int|
                    0 <= k < j ==> improves(maxi, vals[j], #[trigger] vals[k])
        }),
{
    let leaf = reward_leaf::<A, G, T, R>(reward, agent);
    lemma_run_sound::<A, G, T, R>(c, s, agent, reward, d);
    lemma_pick_first_best(
        child_values::<A, G, T>(s, agent, leaf, d as nat),
        s.actions_spec(),
        maximizing::<A, G, T>(s, agent),
        s.actions_spec().len(),
    );
}

} // verus!
