use minimax::environment::{Environment, Reward};
use minimax::score::Score;
use minimax::tictactoe::{Board, Mark};
use minimax::tree_search::{
    depth_first_reward, minmax, minmax_search, Outcome, Stored, EXACT_DEPTH,
};
use std::collections::HashMap;

fn play(moves: &[usize]) -> Board {
    let mut b = Board::initial_state();
    for m in moves {
        assert!(b.is_valid(m));
        assert!(b.update(m));
    }
    b
}

fn fresh() -> HashMap<u64, Stored<usize>> {
    HashMap::new()
}

#[test]
fn empty_board_is_a_draw_with_corner_opening() {
    let b = Board::initial_state();
    let (v, a) = minmax(&b, &Mark::X, &Outcome, 9, &mut fresh());
    assert_eq!(v, Score::Finite(0));
    let a = a.unwrap();
    assert!([0usize, 2, 4, 6, 8].contains(&a));
    assert_eq!(a, 0);
}

#[test]
fn forced_win_is_found() {
    // X on 0 and 1, O on 3 and 4, X to move.
    let b = play(&[0, 3, 1, 4]);
    let (v, a) = minmax(&b, &Mark::X, &Outcome, 9, &mut fresh());
    assert_eq!(v, Score::Finite(1));
    assert_eq!(a, Some(2));
}

#[test]
fn opponent_to_move_minimises() {
    // X on 0 and 1, O on 4, O to move: O must block at 2.
    let b = play(&[0, 4, 1]);
    let (v, a) = minmax(&b, &Mark::X, &Outcome, 9, &mut fresh());
    assert_eq!(a, Some(2));
    assert_eq!(v, depth_first_reward(&b, &Mark::X));
}

#[test]
fn repeated_searches_agree() {
    let b = play(&[0, 4]);
    let r1 = minmax(&b, &Mark::X, &Outcome, 3, &mut fresh());
    let r2 = minmax(&b, &Mark::X, &Outcome, 3, &mut fresh());
    assert_eq!(r1, r2);
    let r3 = minmax(&b, &Mark::O, &Outcome, 9, &mut fresh());
    let r4 = minmax(&b, &Mark::O, &Outcome, 9, &mut fresh());
    assert_eq!(r3, r4);
}

#[test]
fn warm_cache_gives_the_same_result() {
    let mut cache = fresh();
    minmax(&Board::initial_state(), &Mark::X, &Outcome, 9, &mut cache);
    let warmed = cache.len();
    assert!(warmed > 1000);
    for moves in [&[0usize][..], &[0, 4], &[0, 1], &[0, 2, 4, 8]] {
        let b = play(moves);
        let cold = minmax(&b, &Mark::X, &Outcome, 9, &mut fresh());
        let warm = minmax(&b, &Mark::X, &Outcome, 9, &mut cache);
        assert_eq!(cold, warm);
    }
    assert_eq!(cache.len(), warmed);
}

#[test]
fn terminal_value_does_not_depend_on_depth() {
    // X completes the top row.
    let b = play(&[0, 3, 1, 4, 2]);
    assert!(b.is_terminal());
    let mut cache = fresh();
    let r0 = minmax(&b, &Mark::X, &Outcome, 0, &mut cache);
    assert_eq!(r0, (Score::Finite(1), None));
    assert_eq!(cache.get(&b.key()), Some(&(Score::Finite(1), None, EXACT_DEPTH)));
    let r5 = minmax(&b, &Mark::X, &Outcome, 5, &mut cache);
    assert_eq!(r5, r0);
    let r7 = minmax(&b, &Mark::X, &Outcome, 7, &mut fresh());
    assert_eq!(r7, r0);
}

#[test]
fn full_depth_matches_depth_first_value() {
    for moves in [&[0usize][..], &[0, 1], &[0, 4], &[0, 1, 4], &[0, 1, 2, 4]] {
        let b = play(moves);
        for agent in [Mark::X, Mark::O] {
            let (v, _) = minmax(&b, &agent, &Outcome, 9, &mut fresh());
            assert_eq!(v, depth_first_reward(&b, &agent));
        }
    }
}

#[test]
fn terminal_outcomes() {
    let x_wins = play(&[0, 3, 1, 4, 2]);
    assert_eq!(depth_first_reward(&x_wins, &Mark::X), Score::Finite(1));
    assert_eq!(depth_first_reward(&x_wins, &Mark::O), Score::Finite(-1));
    let o_wins = play(&[3, 0, 4, 1, 6, 2]);
    assert_eq!(o_wins.winner(), Some(Mark::O));
    assert_eq!(depth_first_reward(&o_wins, &Mark::O), Score::Finite(1));
    assert_eq!(depth_first_reward(&o_wins, &Mark::X), Score::Finite(-1));
    let draw = play(&[0, 1, 2, 4, 3, 5, 7, 6, 8]);
    assert!(draw.is_terminal());
    assert_eq!(draw.winner(), None);
    assert_eq!(depth_first_reward(&draw, &Mark::X), Score::Finite(0));
    assert_eq!(depth_first_reward(&draw, &Mark::O), Score::Finite(0));
}

#[test]
fn outcome_reward_values() {
    let x_wins = play(&[0, 3, 1, 4, 2]);
    assert_eq!(Outcome.reward(&x_wins, &Mark::X), Score::Finite(1));
    assert_eq!(Outcome.reward(&x_wins, &Mark::O), Score::Finite(-1));
    let draw = play(&[0, 1, 2, 4, 3, 5, 7, 6, 8]);
    assert_eq!(Outcome.reward(&draw, &Mark::X), Score::Finite(0));
    // Not terminal, though X is about to win.
    let open = play(&[0, 3, 1, 4]);
    assert_eq!(Outcome.reward(&open, &Mark::X), Score::Finite(0));
}

#[test]
fn depth_first_value_of_open_positions() {
    assert_eq!(depth_first_reward(&Board::initial_state(), &Mark::X), Score::Finite(0));
    assert_eq!(depth_first_reward(&Board::initial_state(), &Mark::O), Score::Finite(0));
    let b = play(&[0, 3, 1, 4]);
    assert_eq!(depth_first_reward(&b, &Mark::X), Score::Finite(1));
    assert_eq!(depth_first_reward(&b, &Mark::O), Score::Finite(-1));
}

#[test]
fn ties_keep_the_first_action() {
    // No line can be completed within two plies: every move is worth 0.
    let b = play(&[0, 4]);
    for _ in 0..3 {
        let (v, a) = minmax(&b, &Mark::X, &Outcome, 2, &mut fresh());
        assert_eq!(v, Score::Finite(0));
        assert_eq!(a, Some(1));
    }
    let (v, a) = minmax(&Board::initial_state(), &Mark::O, &Outcome, 1, &mut fresh());
    assert_eq!(v, Score::Finite(0));
    assert_eq!(a, Some(0));
}

#[test]
fn depth_zero_uses_the_reward() {
    let b = play(&[4]);
    let mut cache = fresh();
    let r = minmax(&b, &Mark::X, &Outcome, 0, &mut cache);
    assert_eq!(r, (Score::Finite(0), None));
    assert_eq!(cache.get(&b.key()), Some(&(Score::Finite(0), None, 0)));
}

#[test]
fn cached_depth_decides_reuse() {
    let b = play(&[0, 3, 1]);
    let mut cache = fresh();
    let deep = minmax(&b, &Mark::X, &Outcome, 9, &mut cache);
    let shallow = minmax(&b, &Mark::X, &Outcome, 1, &mut cache);
    assert_eq!(shallow, deep);
    assert_eq!(cache.get(&b.key()), Some(&(deep.0, deep.1, 9)));
    // A shallower entry does not answer a deeper query.
    let mut cache = fresh();
    let one = minmax(&b, &Mark::X, &Outcome, 1, &mut cache);
    assert_eq!(cache.get(&b.key()), Some(&(one.0, one.1, 1)));
    let three = minmax(&b, &Mark::X, &Outcome, 3, &mut cache);
    assert_eq!(cache.get(&b.key()), Some(&(three.0, three.1, 3)));
    assert_eq!(three, minmax(&b, &Mark::X, &Outcome, 3, &mut fresh()));
}

#[test]
fn board_moves_and_turns() {
    let mut b = Board::initial_state();
    assert_eq!(b.turn(), Mark::X);
    assert_eq!(b.valid_actions(), vec![0, 1, 2, 3, 4, 5, 6, 7, 8]);
    assert!(b.is_valid(&4));
    assert!(b.update(&4));
    assert_eq!(b.cell_at(4), Some(Mark::X));
    assert_eq!(b.turn(), Mark::O);
    assert!(!b.is_valid(&4));
    assert!(!b.is_valid(&9));
    let c = b.what_if(&0);
    assert_eq!(c.cell_at(0), Some(Mark::O));
    assert_eq!(b.cell_at(0), None);
    assert_eq!(c.valid_actions(), vec![1, 2, 3, 5, 6, 7, 8]);
    assert_ne!(b.key(), c.key());
    assert_eq!(Board::initial_state().key(), 0);
}

#[test]
fn won_board_has_no_moves() {
    let b = play(&[0, 3, 1, 4, 2]);
    assert!(b.valid_actions().is_empty());
    assert_eq!(b.winner(), Some(Mark::X));
}

#[test]
fn score_order() {
    assert!(Score::NegInf.less_than(&Score::Finite(i64::MIN)));
    assert!(Score::Finite(-1).less_than(&Score::Finite(0)));
    assert!(Score::Finite(i64::MAX).less_than(&Score::PosInf));
    assert!(!Score::Finite(3).less_than(&Score::Finite(3)));
    assert!(!Score::PosInf.less_than(&Score::PosInf));
    assert!(!Score::NegInf.less_than(&Score::NegInf));
    assert!(!Score::PosInf.less_than(&Score::NegInf));
}

#[test]
fn value_search_matches_full_search() {
    let mut values: HashMap<u64, Score> = HashMap::new();
    assert_eq!(
        minmax_search(&Board::initial_state(), &Mark::X, &Outcome, 9, &mut values),
        Score::Finite(0)
    );
    for moves in [&[0usize][..], &[0, 3, 1, 4], &[0, 4, 1], &[0, 1, 2, 4]] {
        let b = play(moves);
        let (v, _) = minmax(&b, &Mark::X, &Outcome, 9, &mut fresh());
        let mut cold: HashMap<u64, Score> = HashMap::new();
        assert_eq!(minmax_search(&b, &Mark::X, &Outcome, 9, &mut cold), v);
        assert_eq!(minmax_search(&b, &Mark::X, &Outcome, 9, &mut values), v);
    }
}

#[test]
fn value_search_reuses_any_entry() {
    // X to move can win at once, but a depth 0 entry says 0 and is kept.
    let b = play(&[0, 3, 1, 4]);
    let mut values: HashMap<u64, Score> = HashMap::new();
    assert_eq!(minmax_search(&b, &Mark::X, &Outcome, 0, &mut values), Score::Finite(0));
    assert_eq!(values.get(&b.key()), Some(&Score::Finite(0)));
    assert_eq!(minmax_search(&b, &Mark::X, &Outcome, 9, &mut values), Score::Finite(0));
    let mut cold: HashMap<u64, Score> = HashMap::new();
    assert_eq!(minmax_search(&b, &Mark::X, &Outcome, 1, &mut cold), Score::Finite(1));
    assert_eq!(cold.get(&b.key()), Some(&Score::Finite(1)));
}

#[test]
fn value_search_for_the_minimising_side() {
    let b = play(&[0, 3, 1, 4]);
    let mut values: HashMap<u64, Score> = HashMap::new();
    assert_eq!(minmax_search(&b, &Mark::O, &Outcome, 9, &mut values), Score::Finite(-1));
}
