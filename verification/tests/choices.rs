use poke_mcts::child_map::{child_key, ChildMap, LocalChildMap, SharedChildMap};
use poke_mcts::choice::{first_best, last_best_of, pick, sort_by_likelihood};
use poke_mcts::engine::{MoveChoice, StateInstructions};
use poke_mcts::single::{Single, HUNDRED, INFINITY, LOWEST, MINUS_ONE, ONE};
use poke_mcts::walk::{score_decided, should_expand};

fn s(x: f32) -> Single {
    Single { bits: x.to_bits() }
}

fn all(xs: &[f32]) -> Vec<Single> {
    xs.iter().map(|x| s(*x)).collect()
}

#[test]
fn constants_are_the_numbers_they_name() {
    assert_eq!(f32::from_bits(ONE), 1.0);
    assert_eq!(f32::from_bits(MINUS_ONE), -1.0);
    assert_eq!(f32::from_bits(HUNDRED), 100.0);
    assert_eq!(f32::from_bits(INFINITY), f32::INFINITY);
    assert_eq!(f32::from_bits(LOWEST), f32::MIN);
}

#[test]
fn patterns_compare_like_their_numbers() {
    let xs = [
        f32::NEG_INFINITY, f32::MIN, -2.5, -1.0, -1e-40, -0.0, 0.0, 1e-40, 0.5, 1.0, 100.0,
        f32::MAX, f32::INFINITY, f32::NAN, -f32::NAN,
    ];
    for a in xs {
        assert_eq!(s(a).clamped().bits, a.max(0.0).to_bits() & 0x7fff_ffff);
        for b in xs {
            assert_eq!(s(a).greater(s(b)), a > b);
            assert_eq!(s(a).at_least(s(b)), a >= b);
            assert_eq!(s(a).equals(s(b)), a == b);
            let (x, y) = (s(a).total_position(), s(b).total_position());
            assert_eq!(x.cmp(&y), a.total_cmp(&b));
        }
    }
}

#[test]
fn the_first_of_the_greatest_is_chosen() {
    assert_eq!(first_best(&all(&[1.0, 3.0, 3.0, 2.0])), 1);
    assert_eq!(first_best(&all(&[f32::NAN, 0.5, f32::NAN])), 1);
    assert_eq!(first_best(&all(&[f32::NAN, f32::NAN])), 0);
    assert_eq!(first_best(&all(&[f32::NEG_INFINITY, f32::MIN])), 0);
    assert_eq!(first_best(&all(&[f32::MIN, -1e30])), 1);
    assert_eq!(first_best(&all(&[0.0, f32::INFINITY])), 1);
    assert_eq!(first_best(&[]), 0);
}

#[test]
fn the_last_of_the_greatest_is_chosen() {
    assert_eq!(last_best_of(&all(&[1.0, 3.0, 3.0, 2.0])), 2);
    assert_eq!(last_best_of(&all(&[5.0])), 0);
    assert_eq!(last_best_of(&all(&[0.0, -0.0])), 1);
    // what is no number takes over, and is taken over from
    assert_eq!(last_best_of(&all(&[9.0, f32::NAN, 1.0, 0.5])), 2);
    assert_eq!(last_best_of(&[]), 0);
}

#[test]
fn the_first_sum_that_reaches_the_roll_is_picked() {
    let sums = all(&[60.0, 90.0, 100.0]);
    assert_eq!(pick(&sums, s(0.0)), 0);
    assert_eq!(pick(&sums, s(60.0)), 0);
    assert_eq!(pick(&sums, s(60.5)), 1);
    assert_eq!(pick(&sums, s(99.0)), 2);
    assert_eq!(pick(&all(&[10.0, 20.0]), s(50.0)), 1);
    assert_eq!(pick(&all(&[f32::NAN, 20.0, 30.0]), s(5.0)), 1);
}

#[test]
fn likely_outcomes_come_first() {
    let given: Vec<StateInstructions<u16>> = [(10.0, 1), (70.0, 2), (-0.0, 3), (0.0, 4), (20.0, 5)]
        .iter()
        .map(|(p, i)| StateInstructions { percentage: s(*p), instruction_list: vec![*i] })
        .collect();
    let sorted = sort_by_likelihood(given);
    let order: Vec<u16> = sorted.iter().map(|o| o.instruction_list[0]).collect();
    assert_eq!(order, vec![2, 5, 1, 4, 3]);
}

#[test]
fn battles_that_are_over_are_scored_by_their_winner() {
    assert!(score_decided(s(1.0)) == s(1.0));
    assert!(score_decided(s(-1.0)) == s(0.0));
    assert!(score_decided(s(0.25)) == s(0.25));
}

#[test]
fn choices_lead_on_while_there_is_something_to_do() {
    let (a, none) = (MoveChoice::Action(0), MoveChoice::NoMove);
    assert!(should_expand(s(0.0), 3, a, a));
    assert!(should_expand(s(-0.0), 3, a, none));
    assert!(should_expand(s(1.0), 0, none, a));
    assert!(!should_expand(s(1.0), 1, a, a));
    assert!(!should_expand(s(f32::NAN), 1, a, a));
    assert!(!should_expand(s(0.0), 0, none, none));
}

#[test]
fn children_are_filed_under_their_own_number() {
    assert_eq!(child_key(1, 2, 3), 0x1_0203);
    assert_eq!(child_key(u32::MAX, 255, 255), 0xffff_ffff_ffff);
    assert_ne!(child_key(1, 0, 0), child_key(0, 255, 255));
}

#[test]
fn a_local_map_keeps_what_is_filed_last() {
    let mut map = LocalChildMap::new();
    assert!(map.find(7) == None);
    assert!(map.file(7, (1, 2)) == (1, 2));
    assert!(map.find(7) == Some((1, 2)));
    assert!(map.file(7, (3, 4)) == (3, 4));
    assert!(map.find(7) == Some((3, 4)));
    assert!(map.find(8) == None);
}

#[test]
fn a_shared_map_keeps_what_is_filed_first() {
    let mut map = SharedChildMap::new(1 << 16);
    assert!(map.find(7) == None);
    assert!(map.file(7, (1, 2)) == (1, 2));
    assert!(map.file(7, (3, 4)) == (1, 2));
    assert!(map.find(7) == Some((1, 2)));
    assert!(map.file(8, (5, 6)) == (5, 6));
    assert!(map.find(8) == Some((5, 6)));
}
