//! What the search asks of the battle engine that it serves.
//!
//! The methods of [`Battle`] and [`Arithmetic`] carry no contracts, so no proof rests on how an
//! engine behaves. A contract that speaks of what an engine did speaks of it as the outcome of a
//! call with given arguments.

use crate::single::Single;
use rand::rngs::SmallRng;
use vstd::prelude::*;

verus! {

/// What one side does in a turn.
#[derive(Clone, Copy, PartialEq, Eq, Structural, Debug, Hash)]
pub enum MoveChoice {
    /// An action, by the number that the battle engine gives it.
    Action(u16),
    /// Nothing: the side has to wait.
    NoMove,
}

/// One outcome of a turn: how likely it is, and how it changes the battle.
pub struct StateInstructions<I> {
    pub percentage: Single,
    pub instruction_list: Vec<I>,
}

/// The state of a battle.
pub trait Battle: Sized {
    /// A reversible change to the state.
    type Instruction;

    /// What each side can do.
    fn get_all_options(&self) -> (Vec<MoveChoice>, Vec<MoveChoice>);

    /// Makes the changes, in order.
    fn apply_instructions(self, instructions: &[Self::Instruction]) -> Self;

    /// Takes the changes back, in reverse order.
    fn reverse_instructions(self, instructions: &[Self::Instruction]) -> Self;

    /// Zero while the battle goes on, one if side one has won, minus one if side two has.
    fn battle_is_over(&self) -> Single;

    /// How well side one is doing.
    fn evaluate(&self) -> Single;

    /// Every outcome of a turn in which the sides make these choices.
    fn generate_instructions_from_move_pair(
        self,
        side_one: MoveChoice,
        side_two: MoveChoice,
        branch_on_damage: bool,
    ) -> (Self, Vec<StateInstructions<Self::Instruction>>);
}

/// Arithmetic on single-precision numbers, and the numbers drawn at random.
pub trait Arithmetic {
    /// The sum.
    fn plus(a: Single, b: Single) -> Single;

    /// The difference.
    fn minus(a: Single, b: Single) -> Single;

    /// A total over a number of visits.
    fn mean(total: Single, visits: u32) -> Single;

    /// The mean plus the width of its confidence interval.
    fn upper_bound(total: Single, visits: u32, parent_visits: u32) -> Single;

    /// The mean of a scaled total plus the width of its confidence interval.
    fn scaled_upper_bound(total: u32, visits: u32, parent_visits: u32) -> Single;

    /// A score in the units in which scaled totals count.
    fn to_scaled(score: Single) -> u32;

    /// A scaled total as a number.
    fn from_scaled(total: u32) -> Single;

    /// The logistic function of a difference between two evaluations.
    fn sigmoid(x: Single) -> Single;

    /// A number drawn uniformly from zero up to one hundred.
    fn roll(rng: &mut SmallRng) -> Single;
}

/// `rand::rngs::SmallRng`, the generator that random numbers are drawn from. Nothing is known of
/// its state.
#[verifier::external_type_specification]
#[verifier::external_body]
pub struct ExSmallRng(SmallRng);

/// Calls `rand::SeedableRng::from_rng` on `rand::rng()`: a generator seeded from the thread's own.
/// Nothing is claimed of it.
#[verifier::external_body]
pub(crate) fn seeded_rng() -> (r: SmallRng) {
    rand::SeedableRng::from_rng(&mut rand::rng())
}

/// The number may be drawn.
pub open spec fn is_roll<A: Arithmetic>(roll: Single) -> bool {
    exists|rng: &mut SmallRng| #[trigger] call_ensures(A::roll, (rng,), roll)
}

/// `state`, changed by exactly this list of instructions, may become `after`.
pub open spec fn applies<B: Battle>(state: B, list: Seq<B::Instruction>, after: B) -> bool {
    exists|l: &[B::Instruction]|
        l@ == list && #[trigger] call_ensures(B::apply_instructions, (state, l), after)
}

/// What a list of instructions makes of a state is what the engine makes of it when it is called with
/// the whole list, once.
pub proof fn instructions_are_applied_by_the_engine<B: Battle>(
    state: B,
    list: Seq<B::Instruction>,
    after: B,
)
    requires
        applies(state, list, after),
    ensures
        exists|l: &[B::Instruction]|
            l@ == list && #[trigger] call_ensures(B::apply_instructions, (state, l), after),
{
}

/// What is left of a state when a list of instructions is taken back is what the engine leaves of it
/// when it is called with the whole list, once.
pub proof fn instructions_are_reversed_by_the_engine<B: Battle>(
    state: B,
    list: Seq<B::Instruction>,
    after: B,
)
    requires
        reverses(state, list, after),
    ensures
        exists|l: &[B::Instruction]|
            l@ == list && #[trigger] call_ensures(B::reverse_instructions, (state, l), after),
{
}

/// `state`, with exactly this list of instructions taken back, may become `after`.
pub open spec fn reverses<B: Battle>(state: B, list: Seq<B::Instruction>, after: B) -> bool {
    exists|l: &[B::Instruction]|
        l@ == list && #[trigger] call_ensures(B::reverse_instructions, (state, l), after)
}

} // verus!
