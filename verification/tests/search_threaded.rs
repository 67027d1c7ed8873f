use poke_mcts::child_map::SharedChildMap;
use poke_mcts::engine::{Arithmetic, Battle, MoveChoice, StateInstructions};
use poke_mcts::mcts_threaded;
use poke_mcts::mcts_threaded::{SharedTree, Worker, WorkerStep};
use poke_mcts::single::{Single, INFINITY};
use poke_mcts::tree::{MoveNode, SearchError, Tree};
use poke_mcts::walk::{rollout, PathStep, Selected};
use rand::rngs::SmallRng;
use rand::{Rng, SeedableRng};

fn s(x: f32) -> Single {
    Single { bits: x.to_bits() }
}

fn f(x: Single) -> f32 {
    f32::from_bits(x.bits)
}

struct Floats;

impl Arithmetic for Floats {
    fn plus(a: Single, b: Single) -> Single {
        s(f(a) + f(b))
    }

    fn minus(a: Single, b: Single) -> Single {
        s(f(a) - f(b))
    }

    fn mean(total: Single, visits: u32) -> Single {
        s(f(total) / visits as f32)
    }

    fn upper_bound(total: Single, visits: u32, parent_visits: u32) -> Single {
        let v = visits as f32;
        s(f(total) / v + (2.0 * (parent_visits as f32).ln() / v).sqrt())
    }

    fn scaled_upper_bound(total: u32, visits: u32, parent_visits: u32) -> Single {
        let v = visits as f32;
        s(total as f32 / 400.0 / v + (2.0 * (parent_visits as f32).ln().max(0.0) / v).sqrt())
    }

    fn to_scaled(score: Single) -> u32 {
        (f(score) * 400.0).round() as u32
    }

    fn from_scaled(total: u32) -> Single {
        s(total as f32 / 400.0)
    }

    fn sigmoid(x: Single) -> Single {
        s(1.0 / (1.0 + (-0.0125 * f(x)).exp()))
    }

    fn roll(rng: &mut SmallRng) -> Single {
        s(rng.random_range(0f32..100f32))
    }
}

/// Each turn adds the difference of the actions to a lead; the battle is over after three turns.
#[derive(Clone, Debug, PartialEq)]
struct Race {
    lead: i32,
    turns: u32,
    options: usize,
    outcomes: usize,
    later_options: usize,
}

fn race() -> Race {
    Race { lead: 0, turns: 0, options: 2, outcomes: 2, later_options: 2 }
}

fn actions(n: usize) -> Vec<MoveChoice> {
    (0..n).map(|i| MoveChoice::Action(i as u16)).collect()
}

impl Battle for Race {
    type Instruction = i32;

    fn get_all_options(&self) -> (Vec<MoveChoice>, Vec<MoveChoice>) {
        let n = if self.turns == 0 { self.options } else { self.later_options };
        (actions(n), actions(n))
    }

    fn apply_instructions(mut self, instructions: &[i32]) -> Self {
        for i in instructions {
            self.lead += i;
            self.turns += 1;
        }
        self
    }

    fn reverse_instructions(mut self, instructions: &[i32]) -> Self {
        for i in instructions.iter().rev() {
            self.lead -= i;
            self.turns -= 1;
        }
        self
    }

    fn battle_is_over(&self) -> Single {
        if self.turns < 3 {
            s(0.0)
        } else if self.lead > 0 {
            s(1.0)
        } else {
            s(-1.0)
        }
    }

    fn evaluate(&self) -> Single {
        s(self.lead as f32)
    }

    fn generate_instructions_from_move_pair(
        self,
        side_one: MoveChoice,
        side_two: MoveChoice,
        branch_on_damage: bool,
    ) -> (Self, Vec<StateInstructions<i32>>) {
        let value = |m| match m {
            MoveChoice::Action(a) => a as i32,
            MoveChoice::NoMove => 0,
        };
        let gain = value(side_one) - value(side_two);
        let n = if branch_on_damage { self.outcomes } else { self.outcomes.min(1) };
        let list = (0..n)
            .map(|i| StateInstructions {
                percentage: s(if n == 1 { 100.0 } else { 30.0 + 40.0 * i as f32 }),
                instruction_list: vec![gain + i as i32],
            })
            .collect();
        (self, list)
    }
}

fn planted(race: &Race) -> (SharedTree<i32>, u32) {
    let mut tree: SharedTree<i32> = match Tree::new(SharedChildMap::new(1 << 16)) {
        Ok(tree) => tree,
        Err(e) => panic!("{:?}", e),
    };
    let (s1, s2) = race.get_all_options();
    match mcts_threaded::new_root_in(&mut tree, &s1, &s2) {
        Ok(root) => (tree, root),
        Err(e) => panic!("{:?}", e),
    }
}

fn run(tree: &mut SharedTree<i32>, root: u32, state: Race, n: u32) -> Result<Race, SearchError> {
    let mut path: Vec<PathStep> = vec![];
    let mut rng = SmallRng::seed_from_u64(11);
    let mut at = state;
    for _ in 0..n {
        at = mcts_threaded::do_mcts::<Race, Floats>(tree, root, at, s(0.0), &mut path, &mut rng)?;
    }
    Ok(at)
}

fn visits(side: &[MoveNode<u32>]) -> u32 {
    side.iter().map(|m| m.visits).sum()
}

#[test]
fn virtual_losses_cancel() {
    let mut m = MoveNode::<u32>::new(MoveChoice::Action(1));
    assert!(m.ucb1::<Floats>(1) == Single { bits: INFINITY });
    m.add_virtual_loss();
    assert_eq!((m.visits, m.total_score), (3, 0));
    m.add_result(200);
    assert_eq!((m.visits, m.total_score), (4, 200));
    m.remove_virtual_loss();
    assert_eq!((m.visits, m.total_score), (1, 200));
    assert_eq!(f(m.total_score_f32::<Floats>()), 0.5);
    assert_eq!(f(m.ucb1::<Floats>(1)), 0.5);
    m.remove_virtual_loss();
    assert_eq!(m.visits, u32::MAX - 1);
}

#[test]
fn workers_below_a_node_count_as_visits() {
    assert_eq!(mcts_threaded::parent_visits(0, 0), 1);
    assert_eq!(mcts_threaded::parent_visits(0, -4), 1);
    assert_eq!(mcts_threaded::parent_visits(5, 3), 8);
    assert_eq!(mcts_threaded::parent_visits(u32::MAX, 3), u32::MAX);
}

#[test]
fn later_choices_win_ties() {
    let side = [MoveNode::<u32>::new(MoveChoice::Action(0)), MoveNode::<u32>::new(MoveChoice::Action(1))];
    assert_eq!(mcts_threaded::maximize_ucb_for_side::<Floats>(&side, 1), 1);
    assert_eq!(mcts_threaded::maximize_ucb_for_side::<Floats>(&[], 1), 0);
}

#[test]
fn scores_are_counted_in_points() {
    assert_eq!(mcts_threaded::points_of::<Floats>(s(0.25)), (100, 300));
    assert_eq!(mcts_threaded::points_of::<Floats>(s(1.0)), (400, 0));
}

#[test]
fn a_worker_marks_its_way_and_clears_it_again() {
    let (mut tree, root) = planted(&race());
    let mut path: Vec<PathStep> = vec![];
    let mut rng = SmallRng::seed_from_u64(3);
    let begun = match mcts_threaded::begin::<Race, Floats>(&mut tree, root, race(), &mut path, &mut rng) {
        Ok(begun) => begun,
        Err(e) => panic!("{:?}", e),
    };
    assert_eq!(path.len(), 1);
    assert_eq!(path[0].parent, root);
    assert_eq!(path[0].child, begun.target);
    assert_eq!((path[0].s1_index, path[0].s2_index), (1, 1));
    assert_eq!(tree.options(root).s1()[1].visits, 3);
    assert_eq!(tree.options(root).s2()[1].visits, 3);
    assert_eq!(tree.node(begun.target).virtual_losses, 1);
    assert_eq!(tree.node(root).times_visited, 0);

    let score = rollout::<Race, Floats>(&begun.state, s(0.0));
    let end =
        mcts_threaded::backpropagate::<Race, Floats>(&mut tree, &path, begun.target, score, begun.state);
    assert!(end == race());
    assert_eq!(tree.options(root).s1()[1].visits, 1);
    assert_eq!(tree.options(root).s2()[1].visits, 1);
    let o = tree.options(root);
    assert_eq!(o.s1()[1].total_score + o.s2()[1].total_score, 400);
    assert_eq!(tree.node(path[0].child).virtual_losses, 0);
    assert_eq!(tree.node(path[0].child).times_visited, 1);
    assert_eq!(tree.node(root).times_visited, 1);
}

#[test]
fn two_workers_may_be_on_their_way() {
    let (mut tree, root) = planted(&race());
    let mut rng = SmallRng::seed_from_u64(3);
    let mut paths: Vec<Vec<PathStep>> = vec![vec![], vec![]];
    let mut begun = vec![];
    for path in paths.iter_mut() {
        match mcts_threaded::begin::<Race, Floats>(&mut tree, root, race(), path, &mut rng) {
            Ok(b) => begun.push(b),
            Err(e) => panic!("{:?}", e),
        }
    }
    // the second worker is kept off the choices of the first
    assert_eq!((paths[0][0].s1_index, paths[1][0].s1_index), (1, 0));
    // every virtual loss stands for a worker below
    assert_eq!((tree.node(root).virtual_losses, visits(tree.options(root).s1())), (0, 6));
    assert_eq!(visits(tree.options(root).s2()), 6);
    for path in paths.iter() {
        assert_eq!(tree.node(path[0].child).virtual_losses, 1);
    }
    // the worker that set out last comes back first
    for (path, b) in paths.iter().zip(begun).rev() {
        let score = rollout::<Race, Floats>(&b.state, s(0.0));
        let end = mcts_threaded::backpropagate::<Race, Floats>(&mut tree, path, b.target, score, b.state);
        assert!(end == race());
    }
    let o = tree.options(root);
    assert_eq!((o.s1()[0].visits, o.s1()[1].visits), (1, 1));
    assert_eq!(visits(o.s2()), 2);
    for path in paths.iter() {
        assert_eq!(tree.node(path[0].child).virtual_losses, 0);
    }
    assert_eq!(tree.node(root).times_visited, 2);
}

#[test]
fn iterations_leave_no_virtual_losses() {
    let (mut tree, root) = planted(&race());
    match run(&mut tree, root, race(), 400) {
        Ok(end) => assert!(end == race()),
        Err(e) => panic!("{:?}", e),
    }
    assert_eq!(tree.node(root).times_visited, 400);
    assert_eq!(tree.node(root).virtual_losses, 0);
    let o = tree.options(root);
    assert_eq!(visits(o.s1()), 400);
    assert_eq!(visits(o.s2()), 400);
    for (i, j) in [(0, 0), (0, 1), (1, 0), (1, 1)] {
        if let Some(children) = tree.children_of(root, i, j) {
            assert!(children.iter().all(|c| tree.node(*c).virtual_losses == 0));
        }
    }
    let result = mcts_threaded::results::<Floats, i32>(&tree, root);
    assert_eq!(result.iteration_count, 400);
    assert_eq!(result.s1.len(), 2);
    assert_eq!(result.s1[1].visits, o.s1()[1].visits);
    assert_eq!(f(result.s1[1].total_score), o.s1()[1].total_score as f32 / 400.0);
}

#[test]
fn a_root_at_which_both_sides_wait_keeps_no_marks() {
    let mut tree: SharedTree<i32> = match Tree::new(SharedChildMap::new(16)) {
        Ok(tree) => tree,
        Err(e) => panic!("{:?}", e),
    };
    let wait = [MoveChoice::NoMove];
    let root = match mcts_threaded::new_root_in(&mut tree, &wait, &wait) {
        Ok(root) => root,
        Err(e) => panic!("{:?}", e),
    };
    assert!(run(&mut tree, root, race(), 2).is_ok());
    assert_eq!(tree.node(root).times_visited, 2);
    assert_eq!(visits(tree.options(root).s1()), 0);
    assert_eq!(visits(tree.options(root).s2()), 0);
}

#[test]
fn shared_searches_fail_where_the_engine_gives_them_nothing() {
    let mut none = race();
    none.later_options = 0;
    let (mut tree, root) = planted(&none);
    assert!(matches!(run(&mut tree, root, none, 50), Err(SearchError::NoOptions)));

    let mut many = race();
    many.later_options = 300;
    let (mut tree, root) = planted(&many);
    assert!(matches!(run(&mut tree, root, many, 50), Err(SearchError::TooManyOptions)));

    let mut dead = race();
    dead.outcomes = 0;
    let (mut tree, root) = planted(&dead);
    assert!(matches!(run(&mut tree, root, dead, 50), Err(SearchError::NoOutcome)));
}

#[test]
fn outcomes_that_are_no_number_count_for_nothing() {
    let (mut tree, root) = planted(&race());
    let outcomes = vec![
        StateInstructions { percentage: s(f32::NAN), instruction_list: vec![1] },
        StateInstructions { percentage: s(-5.0), instruction_list: vec![2] },
        StateInstructions { percentage: s(100.0), instruction_list: vec![3] },
    ];
    let children = match tree.add_children(root, 0, 0, outcomes, 0) {
        Ok(c) => c,
        Err(e) => panic!("{:?}", e),
    };
    let mut rng = SmallRng::seed_from_u64(5);
    let mut last = 0;
    for _ in 0..100 {
        if mcts_threaded::sample_node::<Floats, i32>(&children, &tree, &mut rng) == 2 {
            last += 1;
        }
    }
    assert!(last >= 99);
}

#[test]
fn children_that_are_filed_first_stay() {
    let (mut tree, root) = planted(&race());
    let outcome = |i| vec![StateInstructions { percentage: s(100.0), instruction_list: vec![i] }];
    let (first, second) = match (
        tree.add_children(root, 0, 1, outcome(4), 0),
        tree.add_children(root, 0, 1, outcome(5), 0),
    ) {
        (Ok(a), Ok(b)) => (a, b),
        _ => panic!("no children"),
    };
    assert_eq!(first, second);
    assert_eq!(tree.instructions(second[0]), &[4]);
    assert!(matches!(tree.add_children(root, 1, 1, vec![], 0), Err(SearchError::NoOutcome)));
    assert!(tree.children_of(root, 1, 1).is_none());
}

#[test]
fn workers_look_at_the_clock_between_batches() {
    let mut w = Worker::new();
    assert!(w.step() == WorkerStep::CheckDeadline);
    w.checked(true);
    for _ in 0..999 {
        assert!(w.step() == WorkerStep::Iterate);
        w.iterated(0);
    }
    assert!(w.step() == WorkerStep::Iterate);
    w.iterated(0);
    assert!(w.step() == WorkerStep::CheckDeadline);
    w.checked(true);
    w.iterated(9_999_999);
    assert!(w.step() == WorkerStep::Iterate);
    w.iterated(10_000_000);
    assert!(w.step() == WorkerStep::CheckDeadline);
    w.checked(false);
    assert!(w.step() == WorkerStep::Stop);
    assert_eq!(mcts_threaded::claim(5), 1_005);
    assert_eq!(mcts_threaded::claim(u32::MAX), 999);
}

#[test]
fn an_expansion_marks_the_child_that_it_samples() {
    let (mut tree, root) = planted(&race());
    let mut rng = SmallRng::seed_from_u64(5);
    let found = Selected { state: race(), leaf: root, s1_index: 0, s2_index: 1 };
    let child = match mcts_threaded::expand::<Race, Floats>(&mut tree, found, 0, &mut rng) {
        Ok((state, Some(child))) => {
            assert!(state == race());
            child
        }
        _ => panic!("no child"),
    };
    let children = match tree.children_of(root, 0, 1) {
        Some(children) => children,
        None => panic!("no children"),
    };
    assert_eq!(children.len(), 2);
    assert!(children.contains(&child));
    for c in children {
        assert_eq!(tree.node(c).virtual_losses, if c == child { 1 } else { 0 });
    }
}

#[test]
fn a_battle_that_is_over_is_not_expanded() {
    let mut over = race();
    over.turns = 3;
    over.lead = 5;
    over.later_options = 2;
    let (mut tree, root) = planted(&over);
    let mut rng = SmallRng::seed_from_u64(5);
    let found = Selected { state: over.clone(), leaf: root, s1_index: 0, s2_index: 1 };
    let r = mcts_threaded::expand::<Race, Floats>(&mut tree, found, 0, &mut rng);
    assert!(matches!(r, Ok((_, None))));
    assert!(tree.children_of(root, 0, 1).is_none());
    // the root itself is scored
    assert!(run(&mut tree, root, over, 3).is_ok());
    assert_eq!(tree.node(root).times_visited, 3);
    assert_eq!(visits(tree.options(root).s1()), 0);
    assert!(!mcts_threaded::should_expand(s(1.0), MoveChoice::Action(0), MoveChoice::Action(0)));
    assert!(!mcts_threaded::should_expand(s(0.0), MoveChoice::NoMove, MoveChoice::NoMove));
    assert!(mcts_threaded::should_expand(s(0.0), MoveChoice::NoMove, MoveChoice::Action(0)));
    assert!(mcts_threaded::should_expand(s(-0.0), MoveChoice::Action(0), MoveChoice::NoMove));
}

#[test]
fn only_children_are_sampled_without_a_roll() {
    let (mut tree, root) = planted(&race());
    let outcome = vec![StateInstructions { percentage: s(100.0), instruction_list: vec![1] }];
    let only = match tree.add_children(root, 0, 0, outcome, 0) {
        Ok(c) => c,
        Err(e) => panic!("{:?}", e),
    };
    let mut rng = SmallRng::seed_from_u64(5);
    assert_eq!(mcts_threaded::sample_node::<Floats, i32>(&only, &tree, &mut rng), 0);
    assert_eq!(rng.random::<u64>(), SmallRng::seed_from_u64(5).random::<u64>());
}

#[test]
fn both_sides_of_a_root_are_tallied_where_one_may_wait() {
    let mut tree: SharedTree<i32> = match Tree::new(SharedChildMap::new(16)) {
        Ok(tree) => tree,
        Err(e) => panic!("{:?}", e),
    };
    let some = [MoveChoice::NoMove, MoveChoice::Action(1)];
    let root = match mcts_threaded::new_root_in(&mut tree, &some, &some) {
        Ok(root) => root,
        Err(e) => panic!("{:?}", e),
    };
    assert!(run(&mut tree, root, race(), 200).is_ok());
    let result = mcts_threaded::results::<Floats, i32>(&tree, root);
    let total = |i: usize| match i {
        0 => result.s1.iter().map(|r| r.visits).sum::<u32>(),
        _ => result.s2.iter().map(|r| r.visits).sum::<u32>(),
    };
    assert_eq!(result.iteration_count, 200);
    assert_eq!(total(0), total(1));
    assert!(total(0) <= 200);

    let never = [MoveChoice::Action(0), MoveChoice::Action(1)];
    let other = match mcts_threaded::new_root_in(&mut tree, &[MoveChoice::NoMove], &never) {
        Ok(root) => root,
        Err(e) => panic!("{:?}", e),
    };
    assert!(run(&mut tree, other, race(), 200).is_ok());
    let result = mcts_threaded::results::<Floats, i32>(&tree, other);
    assert_eq!(result.iteration_count, 200);
    assert_eq!(result.s1[0].visits, 200);
    assert_eq!(result.s2.iter().map(|r| r.visits).sum::<u32>(), 200);
}

#[test]
fn a_shared_descent_ends_where_a_side_has_no_options() {
    let mut none = race();
    none.options = 0;
    let (mut tree, root) = planted(&none);
    match mcts_threaded::select_move_pair::<Race, Floats>(&mut tree, root, &none) {
        Ok(pair) => assert_eq!(pair, (0, 0)),
        Err(e) => panic!("{:?}", e),
    }
    let mut path: Vec<PathStep> = vec![];
    let mut rng = SmallRng::seed_from_u64(7);
    let r = mcts_threaded::selection::<Race, Floats>(
        &mut tree,
        root,
        none.clone(),
        &mut path,
        &mut rng,
    );
    assert!(matches!(r, Ok(found) if found.leaf == root && (found.s1_index, found.s2_index) == (0, 0)));
    assert!(matches!(run(&mut tree, root, none, 1), Err(SearchError::NoOptions)));
}
