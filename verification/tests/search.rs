use poke_mcts::child_map::LocalChildMap;
use poke_mcts::engine::{Arithmetic, Battle, MoveChoice, StateInstructions};
use poke_mcts::mcts;
use poke_mcts::mcts::{MctsSideResult, SearchTree};
use poke_mcts::perf::virt_arena::ArenaPool;
use poke_mcts::single::{Single, HUNDRED, INFINITY, ONE};
use poke_mcts::tree::{MoveNode, SearchError, Tree};
use poke_mcts::walk::PathStep;
use rand::rngs::SmallRng;
use rand::{Rng, SeedableRng};

fn s(x: f32) -> Single {
    Single { bits: x.to_bits() }
}

fn f(x: Single) -> f32 {
    f32::from_bits(x.bits)
}

struct Floats;

impl Arithmetic for Floats {
    fn plus(a: Single, b: Single) -> Single {
        s(f(a) + f(b))
    }

    fn minus(a: Single, b: Single) -> Single {
        s(f(a) - f(b))
    }

    fn mean(total: Single, visits: u32) -> Single {
        s(f(total) / visits as f32)
    }

    fn upper_bound(total: Single, visits: u32, parent_visits: u32) -> Single {
        let v = visits as f32;
        s(f(total) / v + (2.0 * (parent_visits as f32).ln() / v).sqrt())
    }

    fn scaled_upper_bound(total: u32, visits: u32, parent_visits: u32) -> Single {
        let v = visits as f32;
        s(total as f32 / 400.0 / v + (2.0 * (parent_visits as f32).ln().max(0.0) / v).sqrt())
    }

    fn to_scaled(score: Single) -> u32 {
        (f(score) * 400.0).round() as u32
    }

    fn from_scaled(total: u32) -> Single {
        s(total as f32 / 400.0)
    }

    fn sigmoid(x: Single) -> Single {
        s(1.0 / (1.0 + (-0.0125 * f(x)).exp()))
    }

    fn roll(rng: &mut SmallRng) -> Single {
        s(rng.random_range(0f32..100f32))
    }
}

/// Each turn adds the difference of the actions to a lead; the battle is over after three turns.
#[derive(Clone, Debug, PartialEq)]
struct Race {
    lead: i32,
    turns: u32,
    options: usize,
    outcomes: usize,
    later_options: usize,
}

fn race() -> Race {
    Race { lead: 0, turns: 0, options: 2, outcomes: 2, later_options: 2 }
}

fn actions(n: usize) -> Vec<MoveChoice> {
    (0..n).map(|i| MoveChoice::Action(i as u16)).collect()
}

impl Battle for Race {
    type Instruction = i32;

    fn get_all_options(&self) -> (Vec<MoveChoice>, Vec<MoveChoice>) {
        let n = if self.turns == 0 { self.options } else { self.later_options };
        (actions(n), actions(n))
    }

    fn apply_instructions(mut self, instructions: &[i32]) -> Self {
        for i in instructions {
            self.lead += i;
            self.turns += 1;
        }
        self
    }

    fn reverse_instructions(mut self, instructions: &[i32]) -> Self {
        for i in instructions.iter().rev() {
            self.lead -= i;
            self.turns -= 1;
        }
        self
    }

    fn battle_is_over(&self) -> Single {
        if self.turns < 3 {
            s(0.0)
        } else if self.lead > 0 {
            s(1.0)
        } else {
            s(-1.0)
        }
    }

    fn evaluate(&self) -> Single {
        s(self.lead as f32)
    }

    fn generate_instructions_from_move_pair(
        self,
        side_one: MoveChoice,
        side_two: MoveChoice,
        branch_on_damage: bool,
    ) -> (Self, Vec<StateInstructions<i32>>) {
        let value = |m| match m {
            MoveChoice::Action(a) => a as i32,
            MoveChoice::NoMove => 0,
        };
        let gain = value(side_one) - value(side_two);
        let n = if branch_on_damage { self.outcomes } else { self.outcomes.min(1) };
        let list = (0..n)
            .map(|i| StateInstructions {
                percentage: s(if n == 1 { 100.0 } else { 30.0 + 40.0 * i as f32 }),
                instruction_list: vec![gain + i as i32],
            })
            .collect();
        (self, list)
    }
}

fn planted(race: &Race) -> (SearchTree<i32>, u32) {
    let mut tree: SearchTree<i32> = match Tree::new(LocalChildMap::new()) {
        Ok(tree) => tree,
        Err(e) => panic!("{:?}", e),
    };
    let root = match tree.add_root(Single { bits: HUNDRED }, vec![], ()) {
        Ok(root) => root,
        Err(e) => panic!("{:?}", e),
    };
    let (s1, s2) = race.get_all_options();
    assert!(tree.set_options(root, &s1, &s2, s(0.0)).is_ok());
    (tree, root)
}

fn run(tree: &mut SearchTree<i32>, root: u32, state: Race, n: u32) -> Race {
    let mut path: Vec<PathStep> = vec![];
    let mut rng = SmallRng::seed_from_u64(7);
    let mut at = state;
    for _ in 0..n {
        at = match mcts::do_mcts::<Race, Floats>(tree, root, at, s(0.0), &mut path, &mut rng) {
            Ok(at) => at,
            Err(e) => panic!("{:?}", e),
        };
    }
    at
}

fn visits(side: &[MoveNode<Single>]) -> u32 {
    side.iter().map(|m| m.visits).sum()
}

#[test]
fn upper_bounds_follow_the_formula() {
    let mut m = MoveNode::<Single>::from_move_choice(MoveChoice::Action(3));
    assert!(m.move_choice == MoveChoice::Action(3));
    assert!(m.ucb1::<Floats>(5) == Single { bits: INFINITY });
    m.visits = 4;
    m.total_score = s(3.0);
    // three quarters plus the root of half the logarithm of one
    assert_eq!(f(m.ucb1::<Floats>(1)), 0.75);
    assert_eq!(f(m.average_score::<Floats>()), 0.75);
    assert_eq!(f(m.ucb1::<Floats>(100)), 0.75 + (2.0 * 100f32.ln() / 4.0).sqrt());
}

#[test]
fn averages_of_nothing_are_zero() {
    let mut r = MctsSideResult { move_choice: MoveChoice::NoMove, total_score: s(3.0), visits: 0 };
    assert_eq!(f(r.average_score::<Floats>()), 0.0);
    r.visits = 2;
    assert_eq!(f(r.average_score::<Floats>()), 1.5);
}

#[test]
fn untried_choices_are_tried_first() {
    let (mut tree, root) = planted(&race());
    let node = tree.node(root);
    let side = tree.options(root).s1().to_vec();
    assert_eq!(node.maximize_ucb_for_side::<Floats>(&side), 0);
    run(&mut tree, root, race(), 1);
    let side = tree.options(root).s1().to_vec();
    assert_eq!(tree.node(root).maximize_ucb_for_side::<Floats>(&side), 1);
    assert_eq!(tree.node(root).maximize_ucb_for_side::<Floats>(&[]), 0);
}

#[test]
fn the_first_iteration_expands_the_root() {
    let (mut tree, root) = planted(&race());
    assert!(tree.children_of(root, 0, 0).is_none());
    let end = run(&mut tree, root, race(), 1);
    assert!(end == race());
    let children = match tree.children_of(root, 0, 0) {
        Some(c) => c,
        None => panic!("no children"),
    };
    assert_eq!(children.len(), 2);
    assert!(children.iter().all(|c| *c > root));
    // the more likely outcome comes first
    assert_eq!(f(tree.node(children[0]).percentage), 70.0);
    assert_eq!(tree.instructions(children[0]), &[1]);
    assert_eq!(f(tree.node(children[1]).percentage), 30.0);
    assert_eq!(tree.instructions(children[1]), &[0]);
    let seen: u32 = children.iter().map(|c| tree.node(*c).times_visited).sum();
    assert_eq!(seen, 1);
    assert_eq!(tree.node(root).times_visited, 1);
    let o = tree.options(root);
    assert_eq!((o.s1()[0].visits, o.s1()[1].visits), (1, 0));
    assert_eq!((o.s2()[0].visits, o.s2()[1].visits), (1, 0));
    assert_eq!(f(o.s1()[0].total_score) + f(o.s2()[0].total_score), 1.0);
}

#[test]
fn iterations_restore_the_state_and_keep_the_tallies() {
    let (mut tree, root) = planted(&race());
    let end = run(&mut tree, root, race(), 500);
    assert!(end == race());
    assert_eq!(tree.node(root).times_visited, 500);
    let o = tree.options(root);
    assert_eq!(visits(o.s1()), 500);
    assert_eq!(visits(o.s2()), 500);
    // the higher action is better for both sides
    assert!(o.s1()[1].visits > o.s1()[0].visits);
    assert!(o.s2()[1].visits > o.s2()[0].visits);
}

#[test]
fn a_root_at_which_both_sides_wait_is_scored_itself() {
    let mut tree: SearchTree<i32> = match Tree::new(LocalChildMap::new()) {
        Ok(tree) => tree,
        Err(e) => panic!("{:?}", e),
    };
    let root = match tree.add_root(Single { bits: HUNDRED }, vec![], ()) {
        Ok(root) => root,
        Err(e) => panic!("{:?}", e),
    };
    let wait = [MoveChoice::NoMove];
    assert!(tree.set_options(root, &wait, &wait, s(0.0)).is_ok());
    let end = run(&mut tree, root, race(), 3);
    assert!(end == race());
    assert_eq!(tree.node(root).times_visited, 3);
    assert_eq!(visits(tree.options(root).s1()), 0);
    assert!(tree.children_of(root, 0, 0).is_none());
}

#[test]
fn a_search_without_time_reports_its_options() {
    let options = vec![MoveChoice::Action(5), MoveChoice::NoMove];
    let r = mcts::perform_mcts::<Race, Floats>(race(), options.clone(), vec![], 0);
    let (end, result) = match r {
        Ok(r) => r,
        Err(e) => panic!("{:?}", e),
    };
    assert!(end == race());
    assert_eq!(result.iteration_count, 0);
    assert_eq!(result.s2.len(), 0);
    let told: Vec<MoveChoice> = result.s1.iter().map(|r| r.move_choice).collect();
    assert_eq!(told, options);
    assert!(result.s1.iter().all(|r| r.visits == 0 && r.total_score == s(0.0)));
}

#[test]
fn a_search_stops_when_its_time_is_up() {
    let r = mcts::perform_mcts::<Race, Floats>(race(), actions(3), actions(2), 30_000_000);
    let (end, result) = match r {
        Ok(r) => r,
        Err(e) => panic!("{:?}", e),
    };
    assert!(end == race());
    assert!(result.iteration_count >= 1_000);
    assert_eq!(result.iteration_count % 1_000, 0);
    assert!(result.iteration_count <= mcts::MCTS_MAX_ITERATIONS);
    let total = |side: &Vec<MctsSideResult>| side.iter().map(|r| r.visits).sum::<u32>();
    assert_eq!(total(&result.s1), result.iteration_count);
    assert_eq!(total(&result.s2), result.iteration_count);
    assert!(result.s1[2].average_score::<Floats>().greater(result.s1[0].average_score::<Floats>()));
}

#[test]
fn searches_fail_where_the_engine_gives_them_nothing() {
    let mut none = race();
    none.later_options = 0;
    let r = mcts::perform_mcts::<Race, Floats>(none, actions(2), actions(2), 1_000_000_000);
    assert!(matches!(r, Err(SearchError::NoOptions)));

    let mut many = race();
    many.later_options = 256;
    let r = mcts::perform_mcts::<Race, Floats>(many, actions(2), actions(2), 1_000_000_000);
    assert!(matches!(r, Err(SearchError::TooManyOptions)));

    let mut dead = race();
    dead.outcomes = 0;
    let r = mcts::perform_mcts::<Race, Floats>(dead, actions(2), actions(2), 1_000_000_000);
    assert!(matches!(r, Err(SearchError::NoOutcome)));

    let r = mcts::perform_mcts::<Race, Floats>(race(), vec![], actions(2), 1_000_000_000);
    assert!(matches!(r, Err(SearchError::NoOptions)));
}

#[test]
fn two_searches_share_a_tree() {
    let mut tree: SearchTree<i32> = match Tree::new(LocalChildMap::new()) {
        Ok(tree) => tree,
        Err(e) => panic!("{:?}", e),
    };
    let options = actions(2);
    let mut roots = vec![];
    for _ in 0..2 {
        let r = mcts::perform_mcts_inner::<Race, Floats>(&mut tree, race(), &options, &options, 1);
        match r {
            Ok(done) => {
                assert_eq!(tree.node(done.root).times_visited, done.result.iteration_count);
                roots.push(done.root);
            }
            Err(e) => panic!("{:?}", e),
        }
    }
    assert!(roots[0] < roots[1]);
}

struct Odd;

impl Battle for Odd {
    type Instruction = u8;

    fn get_all_options(&self) -> (Vec<MoveChoice>, Vec<MoveChoice>) {
        (vec![], vec![])
    }

    fn apply_instructions(self, _: &[u8]) -> Self {
        self
    }

    fn reverse_instructions(self, _: &[u8]) -> Self {
        self
    }

    fn battle_is_over(&self) -> Single {
        Single { bits: ONE }
    }

    fn evaluate(&self) -> Single {
        Single { bits: ONE }
    }

    fn generate_instructions_from_move_pair(
        self,
        _: MoveChoice,
        _: MoveChoice,
        _: bool,
    ) -> (Self, Vec<StateInstructions<u8>>) {
        (self, vec![])
    }
}

#[test]
fn instructions_of_odd_size_can_be_stored() {
    let mut tree: SearchTree<u8> = match Tree::new(LocalChildMap::new()) {
        Ok(tree) => tree,
        Err(e) => panic!("{:?}", e),
    };
    let lists: [&[u8]; 4] = [&[1, 2, 3], &[], &[4], &[5, 6]];
    let roots = lists.map(|list| match tree.add_root(Single { bits: HUNDRED }, list.to_vec(), ()) {
        Ok(root) => root,
        Err(e) => panic!("{:?}", e),
    });
    assert_eq!(roots.map(|r| tree.instructions(r)), lists);
    let wait = vec![MoveChoice::NoMove];
    match mcts::perform_mcts::<Odd, Floats>(Odd, wait.clone(), wait, 1) {
        Ok((_, result)) => assert_eq!(result.s1[0].visits, 0),
        Err(e) => panic!("{:?}", e),
    }
}

#[test]
fn trees_can_lie_in_a_given_pool() {
    let mut pool = ArenaPool::new();
    pool.alloc_slice(1);
    let mut tree: SearchTree<i32> = match Tree::new_in(pool, LocalChildMap::new()) {
        Ok(tree) => tree,
        Err(e) => panic!("{:?}", e),
    };
    match tree.add_root(Single { bits: HUNDRED }, vec![7], ()) {
        Ok(root) => {
            // behind the slice that was taken before, in units of two bytes
            assert!(root > 1 << 22);
            assert_eq!(tree.instructions(root), &[7]);
        }
        Err(e) => panic!("{:?}", e),
    }
}

#[test]
fn batches_run_while_there_is_time() {
    let (mut tree, root) = planted(&race());
    let mut path: Vec<PathStep> = vec![];
    let mut rng = SmallRng::seed_from_u64(9);
    let mut batch = |tree: &mut SearchTree<i32>, elapsed: u128, max_nanos: u128| {
        let r = mcts::run_batch::<Race, Floats>(
            tree,
            root,
            race(),
            s(0.0),
            &mut path,
            &mut rng,
            elapsed,
            max_nanos,
        );
        match r {
            Ok((end, more)) => {
                assert!(end == race());
                more
            }
            Err(e) => panic!("{:?}", e),
        }
    };
    assert!(!batch(&mut tree, 5, 5));
    assert!(!batch(&mut tree, 0, 0));
    assert_eq!(tree.node(root).times_visited, 0);
    assert!(tree.children_of(root, 0, 0).is_none());
    assert!(batch(&mut tree, 4, 5));
    assert_eq!(tree.node(root).times_visited, 1_000);
    assert_eq!(visits(tree.options(root).s1()), 1_000);
    assert!(batch(&mut tree, 0, u128::MAX));
    assert_eq!(tree.node(root).times_visited, 2_000);
}

#[test]
fn batches_end_at_the_greatest_number_of_visits() {
    let wait = [MoveChoice::NoMove];
    let mut tree: SearchTree<i32> = match Tree::new(LocalChildMap::new()) {
        Ok(tree) => tree,
        Err(e) => panic!("{:?}", e),
    };
    let root = match tree.add_root(Single { bits: HUNDRED }, vec![], ()) {
        Ok(root) => root,
        Err(e) => panic!("{:?}", e),
    };
    assert!(tree.set_options(root, &wait, &wait, s(0.0)).is_ok());
    tree.set_counts(root, mcts::MCTS_MAX_ITERATIONS - 1_000, ());
    let mut path: Vec<PathStep> = vec![];
    let mut rng = SmallRng::seed_from_u64(9);
    let r = mcts::run_batch::<Race, Floats>(
        &mut tree,
        root,
        race(),
        s(0.0),
        &mut path,
        &mut rng,
        0,
        1,
    );
    assert!(matches!(r, Ok((_, false))));
    assert_eq!(tree.node(root).times_visited, mcts::MCTS_MAX_ITERATIONS);
}

#[test]
fn instructions_without_size_cannot_be_told_apart() {
    let r: Result<SearchTree<()>, SearchError> = Tree::new(LocalChildMap::new());
    assert!(matches!(r, Err(SearchError::NotIndexable)));
}

#[test]
fn a_descent_ends_where_a_side_has_no_options() {
    let mut tree: SearchTree<i32> = match Tree::new(LocalChildMap::new()) {
        Ok(tree) => tree,
        Err(e) => panic!("{:?}", e),
    };
    let root = match tree.add_root(Single { bits: HUNDRED }, vec![], ()) {
        Ok(root) => root,
        Err(e) => panic!("{:?}", e),
    };
    assert!(tree.set_options(root, &[], &actions(2), s(0.0)).is_ok());
    let mut path: Vec<PathStep> = vec![];
    let mut rng = SmallRng::seed_from_u64(7);
    match mcts::selection::<Race, Floats>(&mut tree, root, race(), &mut path, &mut rng) {
        Ok(found) => assert_eq!((found.leaf, found.s1_index, found.s2_index), (root, 0, 0)),
        Err(e) => panic!("{:?}", e),
    }
    assert!(path.is_empty());
    let r = mcts::do_mcts::<Race, Floats>(&mut tree, root, race(), s(0.0), &mut path, &mut rng);
    assert!(matches!(r, Err(SearchError::NoOptions)));
}
