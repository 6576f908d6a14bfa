use crate::environment::{Environment, Reward};
use crate::score::Score;
use vstd::prelude::*;
use vstd::std_specs::cmp::PartialEqSpec;

verus! {

/// The perspective agent maximises in `s` exactly when it is its turn.
pub open spec fn maximizing<A, G: PartialEq, T: Environment<A, G>>(s: T, agent: G) -> bool {
    s.turn_spec().eq_spec(&agent)
}

/// The value a fold starts from, which any real value replaces.
pub open spec fn sentinel(maxi: bool) -> Score {
    if maxi {
        Score::NegInf
    } else {
        Score::PosInf
    }
}

/// A candidate replaces the incumbent only when strictly better.
pub open spec fn improves(maxi: bool, cand: Score, incumbent: Score) -> bool {
    if maxi {
        incumbent.lt(cand)
    } else {
        cand.lt(incumbent)
    }
}

/// The best of the first `i` values with the action that reached it; ties
/// keep the left-most action.
pub open spec fn pick<A>(vals: Seq<Score>, acts: Seq<A>, maxi: bool, i: nat) -> (Score, Option<A>)
    decreases i,
{
    if i == 0 {
        (sentinel(maxi), None)
    } else {
        let prev = pick(vals, acts, maxi, (i - 1) as nat);
        if improves(maxi, vals[i - 1], prev.0) {
            (vals[i - 1], Some(acts[i - 1]))
        } else {
            prev
        }
    }
}

/// The children of `s`, in the order of its actions.
pub open spec fn child<A, G, T: Environment<A, G>>(s: T, j: int) -> T {
    s.what_if_spec(s.actions_spec()[j])
}

/// Plain depth-limited minimax: `leaf` at terminal states and where the
/// depth runs out, the best child value elsewhere.
pub open spec fn solve<A, G: PartialEq, T: Environment<A, G>>(
    s: T,
    agent: G,
    leaf: spec_fn(T) -> Score,
    n: nat,
) -> (Score, Option<A>)
    decreases n, 1nat,
{
    if s.terminal_spec() || n == 0 {
        (leaf(s), None)
    } else {
        pick(
            child_values::<A, G, T>(s, agent, leaf, n),
            s.actions_spec(),
            maximizing::<A, G, T>(s, agent),
            s.actions_spec().len(),
        )
    }
}

/// The values of the children of `s`, each searched one ply shallower than `n`.
pub open spec fn child_values<A, G: PartialEq, T: Environment<A, G>>(
    s: T,
    agent: G,
    leaf: spec_fn(T) -> Score,
    n: nat,
) -> Seq<Score>
    decreases n, 0nat,
{
    Seq::new(
        s.actions_spec().len(),
        |j: int| if n > 0 {
            solve::<A, G, T>(child::<A, G, T>(s, j), agent, leaf, (n - 1) as nat).0
        } else {
            leaf(s)
        },
    )
}

/// Every line of play from `s` reaches a terminal state within `n` plies.
pub open spec fn ends_within<A, G, T: Environment<A, G>>(s: T, n: nat) -> bool
    decreases n,
{
    s.terminal_spec() || (n > 0 && forall|j: int|
        0 <= j < s.actions_spec().len() ==> ends_within::<A, G, T>(
            #[trigger] child::<A, G, T>(s, j),
            (n - 1) as nat,
        ))
}

/// The terminal outcome for `agent`: +1 for a win, -1 for a loss, 0 for a
/// draw (and at states that are not terminal).
pub open spec fn outcome<A, G: PartialEq, T: Environment<A, G>>(s: T, agent: G) -> Score {
    if !s.terminal_spec() {
        Score::Finite(0)
    } else {
        match s.winner_spec() {
            Some(w) => if w.eq_spec(&agent) {
                Score::Finite(1)
            } else {
                Score::Finite(-1i64)
            },
            None => Score::Finite(0),
        }
    }
}

pub open spec fn outcome_leaf<A, G: PartialEq, T: Environment<A, G>>(agent: G) -> spec_fn(T) -> Score {
    |s: T| outcome::<A, G, T>(s, agent)
}

pub open spec fn reward_leaf<A, G: PartialEq, T: Environment<A, G>, R: Reward<T, A, G>>(
    reward: R,
    agent: G,
) -> spec_fn(T) -> Score {
    |s: T| reward.value_spec(s, agent)
}

/// A game that ends within `n` plies ends within any larger bound.
pub proof fn lemma_ends_within_mono<A, G, T: Environment<A, G>>(s: T, n: nat, m: nat)
    requires
        ends_within::<A, G, T>(s, n),
        n <= m,
    ensures
        ends_within::<A, G, T>(s, m),
    decreases n,
{
    if !s.terminal_spec() {
        assert forall|j: int| 0 <= j < s.actions_spec().len() implies ends_within::<A, G, T>(
            #[trigger] child::<A, G, T>(s, j),
            (m - 1) as nat,
        ) by {
            lemma_ends_within_mono::<A, G, T>(child::<A, G, T>(s, j), (n - 1) as nat, (m - 1) as nat);
        }
    }
}

/// Past the point where every line of play has ended, a deeper search
/// changes nothing.
pub proof fn lemma_solve_depth_stable<A, G: PartialEq, T: Environment<A, G>>(
    s: T,
    agent: G,
    leaf: spec_fn(T) -> Score,
    n: nat,
    m: nat,
)
    requires
        ends_within::<A, G, T>(s, n),
        n <= m,
    ensures
        solve::<A, G, T>(s, agent, leaf, m) == solve::<A, G, T>(s, agent, leaf, n),
    decreases n,
{
    if !s.terminal_spec() {
        let acts = s.actions_spec();
        let vn = child_values::<A, G, T>(s, agent, leaf, n);
        let vm = child_values::<A, G, T>(s, agent, leaf, m);
        assert forall|j: int| 0 <= j < acts.len() implies vn[j] == vm[j] by {
            lemma_solve_depth_stable::<A, G, T>(
                child::<A, G, T>(s, j),
                agent,
                leaf,
                (n - 1) as nat,
                (m - 1) as nat,
            );
        }
        assert(vn =~= vm);
    }
}

/// Two leaf evaluations that agree on terminal states give the same value
/// to a game that ends within the searched depth.
pub proof fn lemma_solve_leaf_agree<A, G: PartialEq, T: Environment<A, G>>(
    s: T,
    agent: G,
    l1: spec_fn(T) -> Score,
    l2: spec_fn(T) -> Score,
    n: nat,
)
    requires
        ends_within::<A, G, T>(s, n),
        forall|t: T| t.terminal_spec() ==> l1(t) == l2(t),
    ensures
        solve::<A, G, T>(s, agent, l1, n) == solve::<A, G, T>(s, agent, l2, n),
    decreases n,
{
    if !s.terminal_spec() {
        let acts = s.actions_spec();
        let v1 = child_values::<A, G, T>(s, agent, l1, n);
        let v2 = child_values::<A, G, T>(s, agent, l2, n);
        assert forall|j: int| 0 <= j < acts.len() implies v1[j] == v2[j] by {
            lemma_solve_leaf_agree::<A, G, T>(child::<A, G, T>(s, j), agent, l1, l2, (n - 1) as nat);
        }
        assert(v1 =~= v2);
    }
}

/// The fold keeps a best value that nothing among the first `n` values
/// beats, and the action it returns is the first to reach that value: every
/// earlier value is strictly worse.
pub proof fn lemma_pick_first_best<A>(vals: Seq<Score>, acts: Seq<A>, maxi: bool, n: nat)
    ensures
        ({
            let r = pick(vals, acts, maxi, n);
            &&& forall|k: int| 0 <= k < n ==> !improves(maxi, #[trigger] vals[k], r.0)
            &&& r.1 is None ==> r.0 == sentinel(maxi)
            &&& r.1 matches Some(a) ==> exists|j: int|
                0 <= j < n && a == acts[j] && r.0 == vals[j] && forall|k: int|
                    0 <= k < j ==> improves(maxi, vals[j], #[trigger] vals[k])
        }),
    decreases n,
{
    if n > 0 {
        lemma_pick_first_best(vals, acts, maxi, (n - 1) as nat);
        let p = pick(vals, acts, maxi, (n - 1) as nat);
        let r = pick(vals, acts, maxi, n);
        if improves(maxi, vals[n - 1], p.0) {
            assert forall|k: int| 0 <= k < n - 1 implies improves(maxi, vals[n - 1], #[trigger] vals[k]) by {
                assert(!improves(maxi, vals[k], p.0));
            }
            assert(forall|k: int| 0 <= k < n ==> !improves(maxi, #[trigger] vals[k], r.0));
        }
    }
}

} // verus!
