use crate::environment::{Environment, Reward};
use crate::game_tree::{
    child, child_values, ends_within, improves, lemma_solve_depth_stable, maximizing, outcome, outcome_leaf, pick,
    reward_leaf, sentinel, solve,
};
use crate::score::Score;
use std::collections::HashMap;
use vstd::prelude::*;
use vstd::std_specs::cmp::PartialEqSpec;

verus! {

broadcast use vstd::std_specs::hash::group_hash_axioms;

/// What the cache holds for a state: its value, the action that reaches it,
/// and the depth it was searched at.
pub type Stored<Action> = (Score, Option<Action>, u32);

/// The depth recorded for terminal states, whose value no deeper search
/// can change.
pub const EXACT_DEPTH: u32 = 4294967295;

/// A cache entry for `s` is sound: its action is legal in `s`, and where the
/// game ends within the recorded depth, it is the minimax result at that
/// depth.
pub open spec fn entry_sound<A, G: PartialEq, T: Environment<A, G>, R: Reward<T, A, G>>(
    s: T,
    e: Stored<A>,
    agent: G,
    reward: R,
) -> bool {
    &&& (e.1 matches Some(a) ==> s.actions_spec().contains(a))
    &&& (ends_within::<A, G, T>(s, e.2 as nat) ==> (e.0, e.1) == solve::<A, G, T>(
        s,
        agent,
        reward_leaf::<A, G, T, R>(reward, agent),
        e.2 as nat,
    ))
}

/// Every entry of the cache is sound for the perspective agent and the reward.
pub open spec fn cache_sound<A, G: PartialEq, T: Environment<A, G>, R: Reward<T, A, G>>(
    c: Map<u64, Stored<A>>,
    agent: G,
    reward: R,
) -> bool {
    forall|s: T| #[trigger]
        c.contains_key(s.key_spec()) ==> entry_sound::<A, G, T, R>(
            s,
            c[s.key_spec()],
            agent,
            reward,
        )
}

/// The cache answers a query at `depth` for key `k` without search.
pub open spec fn usable<A>(c: Map<u64, Stored<A>>, k: u64, depth: u32) -> bool {
    c.contains_key(k) && c[k].2 >= depth
}

/// What a search does, as a function of the cache it starts from: the value,
/// the action, and the cache it leaves behind.
pub open spec fn run<A, G: PartialEq, T: Environment<A, G>, R: Reward<T, A, G>>(
    c: Map<u64, Stored<A>>,
    s: T,
    agent: G,
    reward: R,
    d: u32,
) -> (Score, Option<A>, Map<u64, Stored<A>>)
    decreases d, 1nat, 0nat,
{
    let k = s.key_spec();
    if usable(c, k, d) {
        (c[k].0, c[k].1, c)
    } else if s.terminal_spec() {
        let v = reward.value_spec(s, agent);
        (v, None, c.insert(k, (v, None, EXACT_DEPTH)))
    } else if d == 0 {
        let v = reward.value_spec(s, agent);
        (v, None, c.insert(k, (v, None, 0)))
    } else {
        let f = run_fold::<A, G, T, R>(c, s, agent, reward, d, s.actions_spec().len());
        (f.0, f.1, f.2.insert(k, (f.0, f.1, d)))
    }
}

/// The fold of a search over the first `i` actions of `s`, each child searched
/// one ply shallower, the cache passed from one child to the next.
pub open spec fn run_fold<A, G: PartialEq, T: Environment<A, G>, R: Reward<T, A, G>>(
    c: Map<u64, Stored<A>>,
    s: T,
    agent: G,
    reward: R,
    d: u32,
    i: nat,
) -> (Score, Option<A>, Map<u64, Stored<A>>)
    decreases d, 0nat, i,
{
    let maxi = maximizing::<A, G, T>(s, agent);
    if i == 0 || d == 0 {
        (sentinel(maxi), None, c)
    } else {
        let prev = run_fold::<A, G, T, R>(c, s, agent, reward, d, (i - 1) as nat);
        let sub = run::<A, G, T, R>(
            prev.2,
            child::<A, G, T>(s, i - 1),
            agent,
            reward,
            (d - 1) as u32,
        );
        if improves(maxi, sub.0, prev.0) {
            (sub.0, Some(s.actions_spec()[i - 1]), sub.2)
        } else {
            (prev.0, prev.1, sub.2)
        }
    }
}

proof fn lemma_insert_sound<A, G: PartialEq, T: Environment<A, G>, R: Reward<T, A, G>>(
    c: Map<u64, Stored<A>>,
    s: T,
    e: Stored<A>,
    agent: G,
    reward: R,
)
    requires
        cache_sound::<A, G, T, R>(c, agent, reward),
        entry_sound::<A, G, T, R>(s, e, agent, reward),
    ensures
        cache_sound::<A, G, T, R>(c.insert(s.key_spec(), e), agent, reward),
{
    let c2 = c.insert(s.key_spec(), e);
    assert forall|t: T| #[trigger] c2.contains_key(t.key_spec()) implies entry_sound::<A, G, T, R>(
        t,
        c2[t.key_spec()],
        agent,
        reward,
    ) by {
        if t.key_spec() == s.key_spec() {
            T::lemma_key_identifies(t, s);
        }
    }
}

/// A search from a sound cache leaves a sound cache, returns a legal action,
/// records its result, and returns the plain minimax result wherever the
/// game ends within the depth.
pub proof fn lemma_run_sound<A, G: PartialEq, T: Environment<A, G>, R: Reward<T, A, G>>(
    c: Map<u64, Stored<A>>,
    s: T,
    agent: G,
    reward: R,
    d: u32,
)
    requires
        cache_sound::<A, G, T, R>(c, agent, reward),
    ensures
        ({
            let r = run::<A, G, T, R>(c, s, agent, reward, d);
            &&& cache_sound::<A, G, T, R>(r.2, agent, reward)
            &&& ends_within::<A, G, T>(s, d as nat) ==> (r.0, r.1) == solve::<A, G, T>(
                s,
                agent,
                reward_leaf::<A, G, T, R>(reward, agent),
                d as nat,
            )
            &&& r.1 matches Some(a) ==> s.actions_spec().contains(a)
            &&& usable(r.2, s.key_spec(), d)
            &&& r.2[s.key_spec()].0 == r.0
            &&& r.2[s.key_spec()].1 == r.1
        }),
    decreases d, 1nat, 0nat,
{
    let leaf = reward_leaf::<A, G, T, R>(reward, agent);
    let k = s.key_spec();
    if usable(c, k, d) {
        assert(entry_sound::<A, G, T, R>(s, c[k], agent, reward));
        if ends_within::<A, G, T>(s, d as nat) {
            lemma_solve_depth_stable::<A, G, T>(s, agent, leaf, d as nat, c[k].2 as nat);
            crate::game_tree::lemma_ends_within_mono::<A, G, T>(s, d as nat, c[k].2 as nat);
        }
    } else if s.terminal_spec() {
        let v = reward.value_spec(s, agent);
        lemma_insert_sound::<A, G, T, R>(c, s, (v, None, EXACT_DEPTH), agent, reward);
    } else if d == 0 {
        let v = reward.value_spec(s, agent);
        lemma_insert_sound::<A, G, T, R>(c, s, (v, None, 0), agent, reward);
    } else {
        let n = s.actions_spec().len();
        lemma_fold_sound::<A, G, T, R>(c, s, agent, reward, d, n);
        let f = run_fold::<A, G, T, R>(c, s, agent, reward, d, n);
        lemma_insert_sound::<A, G, T, R>(f.2, s, (f.0, f.1, d), agent, reward);
    }
}

/// The fold over the children keeps the cache sound and, where the game ends
/// within the depth, computes the minimax fold over the children's values.
pub proof fn lemma_fold_sound<A, G: PartialEq, T: Environment<A, G>, R: Reward<T, A, G>>(
    c: Map<u64, Stored<A>>,
    s: T,
    agent: G,
    reward: R,
    d: u32,
    i: nat,
)
    requires
        cache_sound::<A, G, T, R>(c, agent, reward),
        d > 0,
        !s.terminal_spec(),
        i <= s.actions_spec().len(),
    ensures
        ({
            let f = run_fold::<A, G, T, R>(c, s, agent, reward, d, i);
            &&& cache_sound::<A, G, T, R>(f.2, agent, reward)
            &&& ends_within::<A, G, T>(s, d as nat) ==> (f.0, f.1) == pick(
                child_values::<A, G, T>(s, agent, reward_leaf::<A, G, T, R>(reward, agent), d as nat),
                s.actions_spec(),
                maximizing::<A, G, T>(s, agent),
                i,
            )
            &&& f.1 matches Some(a) ==> s.actions_spec().contains(a)
        }),
    decreases d, 0nat, i,
{
    if i > 0 {
        lemma_fold_sound::<A, G, T, R>(c, s, agent, reward, d, (i - 1) as nat);
        let prev = run_fold::<A, G, T, R>(c, s, agent, reward, d, (i - 1) as nat);
        let ch = child::<A, G, T>(s, i - 1);
        lemma_run_sound::<A, G, T, R>(prev.2, ch, agent, reward, (d - 1) as u32);
        assert(s.actions_spec().contains(s.actions_spec()[i - 1]));
        if ends_within::<A, G, T>(s, d as nat) {
            assert(ends_within::<A, G, T>(ch, (d - 1) as nat));
        }
    }
}

/// Searches `env` at most `depth` plies ahead for the value to `agent_id`
/// and the action that reaches it: the perspective agent maximises, every
/// other agent minimises, and ties keep the first action in order.
/// Results are memoised in `cache`, keyed by state; an entry searched at
/// least as deep as asked is returned as it stands.
pub fn minmax<A: Copy, G: PartialEq, T: Environment<A, G>, R: Reward<T, A, G>>(
    env: &T,
    agent_id: &G,
    reward: &R,
    depth: u32,
    cache: &mut HashMap<u64, Stored<A>>,
) -> (r: (Score, Option<A>))
    requires
        G::obeys_eq_spec(),
        cache_sound::<A, G, T, R>(old(cache)@, *agent_id, *reward),
    ensures
        (r.0, r.1, final(cache)@) == run::<A, G, T, R>(
            old(cache)@,
            *env,
            *agent_id,
            *reward,
            depth,
        ),
        cache_sound::<A, G, T, R>(final(cache)@, *agent_id, *reward),
        ends_within::<A, G, T>(*env, depth as nat) ==> r == solve::<A, G, T>(
            *env,
            *agent_id,
            reward_leaf::<A, G, T, R>(*reward, *agent_id),
            depth as nat,
        ),
        r.1 matches Some(a) ==> env.actions_spec().contains(a),
        usable(final(cache)@, env.key_spec(), depth),
        final(cache)@[env.key_spec()].0 == r.0,
        final(cache)@[env.key_spec()].1 == r.1,
        usable(old(cache)@, env.key_spec(), depth) ==> {
            &&& r == (old(cache)@[env.key_spec()].0, old(cache)@[env.key_spec()].1)
            &&& final(cache)@ == old(cache)@
        },
        !usable(old(cache)@, env.key_spec(), depth) && (env.terminal_spec() || depth == 0) ==> r == (
            reward.value_spec(*env, *agent_id),
            None::<A>,
        ),
    decreases depth,
{
    let ghost leaf = reward_leaf::<A, G, T, R>(*reward, *agent_id);
    let key = env.key();
    match cache.get(&key) {
        Some(st) => {
            if st.2 >= depth {
                proof {
                    assert(entry_sound::<A, G, T, R>(*env, cache@[key], *agent_id, *reward));
                    if ends_within::<A, G, T>(*env, depth as nat) {
                        lemma_solve_depth_stable::<A, G, T>(
                            *env,
                            *agent_id,
                            leaf,
                            depth as nat,
                            st.2 as nat,
                        );
                        crate::game_tree::lemma_ends_within_mono::<A, G, T>(
                            *env,
                            depth as nat,
                            st.2 as nat,
                        );
                    }
                }
                return (st.0, st.1);
            }
        },
        None => {},
    }
    if env.is_terminal() {
        let v = reward.reward(env, agent_id);
        proof {
            lemma_insert_sound::<A, G, T, R>(cache@, *env, (v, None, EXACT_DEPTH), *agent_id, *reward);
        }
        cache.insert(key, (v, None, EXACT_DEPTH));
        (v, None)
    } else if depth == 0 {
        let v = reward.reward(env, agent_id);
        proof {
            lemma_insert_sound::<A, G, T, R>(cache@, *env, (v, None, 0), *agent_id, *reward);
        }
        cache.insert(key, (v, None, 0));
        (v, None)
    } else {
        let new_depth = depth - 1;
        let maxi = env.turn() == *agent_id;
        let actions = env.valid_actions();
        let ghost acts = env.actions_spec();
        let ghost vals = child_values::<A, G, T>(*env, *agent_id, leaf, depth as nat);
        let ghost c0 = cache@;
        let mut best: (Score, Option<A>) = if maxi {
            (Score::NegInf, None)
        } else {
            (Score::PosInf, None)
        };
        let mut i: usize = 0;
        while i < actions.len()
            invariant
                G::obeys_eq_spec(),
                actions@ == acts,
                acts == env.actions_spec(),
                maxi == maximizing::<A, G, T>(*env, *agent_id),
                new_depth == depth - 1,
                !env.terminal_spec(),
                depth > 0,
                0 <= i <= actions.len(),
                cache_sound::<A, G, T, R>(cache@, *agent_id, *reward),
                leaf == reward_leaf::<A, G, T, R>(*reward, *agent_id),
                vals == child_values::<A, G, T>(*env, *agent_id, leaf, depth as nat),
                ends_within::<A, G, T>(*env, depth as nat) ==> best == pick(vals, acts, maxi, i as nat),
                best.1 matches Some(a) ==> acts.contains(a),
                (best.0, best.1, cache@) == run_fold::<A, G, T, R>(
                    c0,
                    *env,
                    *agent_id,
                    *reward,
                    depth,
                    i as nat,
                ),
            decreases actions.len() - i,
        {
            let a = actions[i];
            assert(acts[i as int] == a);
            let c = env.what_if(&a);
            assert(c == child::<A, G, T>(*env, i as int));
            let (v, _) = minmax(&c, agent_id, reward, new_depth, cache);
            proof {
                if ends_within::<A, G, T>(*env, depth as nat) {
                    assert(ends_within::<A, G, T>(child::<A, G, T>(*env, i as int), new_depth as nat));
                    assert(v == vals[i as int]);
                }
            }
            if (maxi && best.0.less_than(&v)) || (!maxi && v.less_than(&best.0)) {
                best = (v, Some(a));
            }
            i = i + 1;
        }
        proof {
            lemma_insert_sound::<A, G, T, R>(
                cache@,
                *env,
                (best.0, best.1, depth),
                *agent_id,
                *reward,
            );
        }
        cache.insert(key, (best.0, best.1, depth));
        best
    }
}

/// What [`minmax_search`] does, as a function of the cache it starts from:
/// the value and the cache it leaves behind.
pub open spec fn run_values<A, G: PartialEq, T: Environment<A, G>, R: Reward<T, A, G>>(
    c: Map<u64, Score>,
    s: T,
    agent: G,
    reward: R,
    d: u8,
) -> (Score, Map<u64, Score>)
    decreases d, 1nat, 0nat,
{
    let k = s.key_spec();
    if c.contains_key(k) {
        (c[k], c)
    } else if s.terminal_spec() || d == 0 {
        let v = reward.value_spec(s, agent);
        (v, c.insert(k, v))
    } else {
        let f = fold_values::<A, G, T, R>(c, s, agent, reward, d, s.actions_spec().len());
        (f.0, f.1.insert(k, f.0))
    }
}

/// The fold of [`run_values`] over the first `i` children of `s`.
pub open spec fn fold_values<A, G: PartialEq, T: Environment<A, G>, R: Reward<T, A, G>>(
    c: Map<u64, Score>,
    s: T,
    agent: G,
    reward: R,
    d: u8,
    i: nat,
) -> (Score, Map<u64, Score>)
    decreases d, 0nat, i,
{
    let maxi = maximizing::<A, G, T>(s, agent);
    if i == 0 || d == 0 {
        (sentinel(maxi), c)
    } else {
        let prev = fold_values::<A, G, T, R>(c, s, agent, reward, d, (i - 1) as nat);
        let sub = run_values::<A, G, T, R>(
            prev.1,
            child::<A, G, T>(s, i - 1),
            agent,
            reward,
            (d - 1) as u8,
        );
        if improves(maxi, sub.0, prev.0) {
            (sub.0, sub.1)
        } else {
            (prev.0, sub.1)
        }
    }
}

/// Every entry of a value cache is the value of its state under play to the
/// end, with the reward at terminal states.
pub open spec fn values_exact<A, G: PartialEq, T: Environment<A, G>, R: Reward<T, A, G>>(
    c: Map<u64, Score>,
    agent: G,
    reward: R,
) -> bool {
    forall|s: T, n: nat|
        #[trigger] c.contains_key(s.key_spec()) && #[trigger] ends_within::<A, G, T>(s, n)
            ==> c[s.key_spec()] == solve::<A, G, T>(
            s,
            agent,
            reward_leaf::<A, G, T, R>(reward, agent),
            n,
        ).0
}

/// Searches `env` at most `depth` plies ahead for its value to `agent`, as
/// [`minmax`] does, but reports no action, and any cached value for the state
/// is returned whatever depth it was found at.
pub fn minmax_search<A, G: PartialEq, T: Environment<A, G>, R: Reward<T, A, G>>(
    env: &T,
    agent: &G,
    reward: &R,
    depth: u8,
    cache: &mut HashMap<u64, Score>,
) -> (r: Score)
    requires
        G::obeys_eq_spec(),
    ensures
        (r, final(cache)@) == run_values::<A, G, T, R>(old(cache)@, *env, *agent, *reward, depth),
        values_exact::<A, G, T, R>(old(cache)@, *agent, *reward) && ends_within::<A, G, T>(
            *env,
            depth as nat,
        ) ==> {
            &&& values_exact::<A, G, T, R>(final(cache)@, *agent, *reward)
            &&& r == solve::<A, G, T>(
                *env,
                *agent,
                reward_leaf::<A, G, T, R>(*reward, *agent),
                depth as nat,
            ).0
        },
    decreases depth,
{
    let ghost leaf = reward_leaf::<A, G, T, R>(*reward, *agent);
    let ghost exact = values_exact::<A, G, T, R>(cache@, *agent, *reward) && ends_within::<
        A,
        G,
        T,
    >(*env, depth as nat);
    let key = env.key();
    match cache.get(&key) {
        Some(v) => {
            return *v;
        },
        None => {},
    }
    if env.is_terminal() || depth == 0 {
        let v = reward.reward(env, agent);
        proof {
            if exact {
                lemma_insert_exact::<A, G, T, R>(cache@, *env, v, *agent, *reward, depth as nat);
            }
        }
        cache.insert(key, v);
        v
    } else {
        let new_depth = depth - 1;
        let maxi = env.turn() == *agent;
        let actions = env.valid_actions();
        let ghost acts = env.actions_spec();
        let ghost vals = child_values::<A, G, T>(*env, *agent, leaf, depth as nat);
        let ghost c0 = cache@;
        let ghost mut best_a: Option<A> = None;
        let mut best = if maxi {
            Score::NegInf
        } else {
            Score::PosInf
        };
        let mut i: usize = 0;
        while i < actions.len()
            invariant
                G::obeys_eq_spec(),
                actions@ == acts,
                acts == env.actions_spec(),
                maxi == maximizing::<A, G, T>(*env, *agent),
                new_depth == depth - 1,
                !env.terminal_spec(),
                depth > 0,
                0 <= i <= actions.len(),
                leaf == reward_leaf::<A, G, T, R>(*reward, *agent),
                vals == child_values::<A, G, T>(*env, *agent, leaf, depth as nat),
                exact == (values_exact::<A, G, T, R>(c0, *agent, *reward) && ends_within::<
                    A,
                    G,
                    T,
                >(*env, depth as nat)),
                exact ==> values_exact::<A, G, T, R>(cache@, *agent, *reward),
                exact ==> (best, best_a) == pick(vals, acts, maxi, i as nat),
                (best, cache@) == fold_values::<A, G, T, R>(
                    c0,
                    *env,
                    *agent,
                    *reward,
                    depth,
                    i as nat,
                ),
            decreases actions.len() - i,
        {
            let c = env.what_if(&actions[i]);
            assert(c == child::<A, G, T>(*env, i as int));
            let v = minmax_search(&c, agent, reward, new_depth, cache);
            proof {
                if exact {
                    assert(ends_within::<A, G, T>(c, new_depth as nat));
                    assert(v == vals[i as int]);
                }
            }
            if (maxi && best.less_than(&v)) || (!maxi && v.less_than(&best)) {
                best = v;
                proof {
                    best_a = Some(acts[i as int]);
                }
            }
            i = i + 1;
        }
        proof {
            if exact {
                lemma_insert_exact::<A, G, T, R>(cache@, *env, best, *agent, *reward, depth as nat);
            }
        }
        cache.insert(key, best);
        best
    }
}

proof fn lemma_insert_exact<A, G: PartialEq, T: Environment<A, G>, R: Reward<T, A, G>>(
    c: Map<u64, Score>,
    s: T,
    v: Score,
    agent: G,
    reward: R,
    d: nat,
)
    requires
        values_exact::<A, G, T, R>(c, agent, reward),
        ends_within::<A, G, T>(s, d),
        v == solve::<A, G, T>(s, agent, reward_leaf::<A, G, T, R>(reward, agent), d).0,
    ensures
        values_exact::<A, G, T, R>(c.insert(s.key_spec(), v), agent, reward),
{
    let c2 = c.insert(s.key_spec(), v);
    let leaf = reward_leaf::<A, G, T, R>(reward, agent);
    assert forall|t: T, n: nat|
        #[trigger] c2.contains_key(t.key_spec()) && #[trigger] ends_within::<A, G, T>(t, n)
            implies c2[t.key_spec()] == solve::<A, G, T>(t, agent, leaf, n).0 by {
        if t.key_spec() == s.key_spec() {
            T::lemma_key_identifies(t, s);
            if d <= n {
                lemma_solve_depth_stable::<A, G, T>(s, agent, leaf, d, n);
            } else {
                lemma_solve_depth_stable::<A, G, T>(s, agent, leaf, n, d);
            }
        }
    }
}

fn depth_first_value<A, G: PartialEq, T: Environment<A, G>>(
    env: &T,
    agent: &G,
    Ghost(n): Ghost<nat>,
) -> (r: Score)
    requires
        G::obeys_eq_spec(),
        ends_within::<A, G, T>(*env, n),
    ensures
        r == solve::<A, G, T>(*env, *agent, outcome_leaf::<A, G, T>(*agent), n).0,
    decreases n,
{
    if env.is_terminal() {
        match env.winner() {
            Some(w) => {
                if w == *agent {
                    Score::Finite(1)
                } else {
                    Score::Finite(-1)
                }
            },
            None => Score::Finite(0),
        }
    } else {
        let ghost leaf = outcome_leaf::<A, G, T>(*agent);
        let maxi = env.turn() == *agent;
        let actions = env.valid_actions();
        let ghost acts = env.actions_spec();
        let ghost vals = child_values::<A, G, T>(*env, *agent, leaf, n);
        let mut best = if maxi {
            Score::NegInf
        } else {
            Score::PosInf
        };
        let ghost mut best_a: Option<A> = None;
        let mut i: usize = 0;
        while i < actions.len()
            invariant
                G::obeys_eq_spec(),
                actions@ == acts,
                acts == env.actions_spec(),
                maxi == maximizing::<A, G, T>(*env, *agent),
                !env.terminal_spec(),
                n > 0,
                0 <= i <= actions.len(),
                ends_within::<A, G, T>(*env, n),
                leaf == outcome_leaf::<A, G, T>(*agent),
                vals == child_values::<A, G, T>(*env, *agent, leaf, n),
                (best, best_a) == pick(vals, acts, maxi, i as nat),
            decreases actions.len() - i,
        {
            let c = env.what_if(&actions[i]);
            assert(c == child::<A, G, T>(*env, i as int));
            assert(ends_within::<A, G, T>(c, (n - 1) as nat));
            let v = depth_first_value(&c, agent, Ghost((n - 1) as nat));
            if (maxi && best.less_than(&v)) || (!maxi && v.less_than(&best)) {
                best = v;
                proof {
                    best_a = Some(acts[i as int]);
                }
            }
            i = i + 1;
        }
        best
    }
}

/// The outcome of `env` for `agent` under perfect play by every agent:
/// +1 for a win, -1 for a loss, 0 for a draw. The game tree is expanded to
/// its terminal states with no depth bound.
pub fn depth_first_reward<A, G: PartialEq, T: Environment<A, G>>(env: &T, agent: &G) -> (r: Score)
    requires
        G::obeys_eq_spec(),
        exists|n: nat| ends_within::<A, G, T>(*env, n),
    ensures
        env.terminal_spec() ==> r == outcome::<A, G, T>(*env, *agent),
        forall|n: nat|
            ends_within::<A, G, T>(*env, n) ==> r == #[trigger] solve::<A, G, T>(
                *env,
                *agent,
                outcome_leaf::<A, G, T>(*agent),
                n,
            ).0,
{
    let ghost n = choose|n: nat| ends_within::<A, G, T>(*env, n);
    let r = depth_first_value(env, agent, Ghost(n));
    proof {
        let leaf = outcome_leaf::<A, G, T>(*agent);
        assert forall|m: nat| ends_within::<A, G, T>(*env, m) implies r == #[trigger] solve::<
            A,
            G,
            T,
        >(*env, *agent, leaf, m).0 by {
            if n <= m {
                lemma_solve_depth_stable::<A, G, T>(*env, *agent, leaf, n, m);
            } else {
                lemma_solve_depth_stable::<A, G, T>(*env, *agent, leaf, m, n);
            }
        }
        if env.terminal_spec() {
            assert(ends_within::<A, G, T>(*env, 0));
            assert(r == solve::<A, G, T>(*env, *agent, leaf, 0).0);
        }
    }
    r
}

/// The plain terminal-outcome reward: +1 when the agent has won, -1 when
/// another agent has, 0 for a draw and for states that are not terminal.
#[derive(Clone, Copy, Debug)]
pub struct Outcome;

impl<A, G: PartialEq, T: Environment<A, G>> Reward<T, A, G> for Outcome {
    open spec fn value_spec(&self, env: T, agent: G) -> Score {
        outcome::<A, G, T>(env, agent)
    }

    fn reward(&self, env: &T, agent: &G) -> (r: Score) {
        if !env.is_terminal() {
            Score::Finite(0)
        } else {
            match env.winner() {
                Some(w) => {
                    if w == *agent {
                        Score::Finite(1)
                    } else {
                        Score::Finite(-1)
                    }
                },
                None => Score::Finite(0),
            }
        }
    }
}

} // verus!
