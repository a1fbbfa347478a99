//! Single-disk moves and what applying one does to a state.
use vstd::prelude::*;
use crate::problem::cost_sum;
use crate::states::{MoveError, States, fits, top_disk, with_disk, without_top};

verus! {

/// The kinds of action the puzzle knows.
#[derive(Clone, Copy, Debug, PartialEq, Eq, Structural)]
pub enum ACTIONS {
    /// Take the top disk of one peg and place it on another.
    Move,
}

/// A move of the top disk of peg `rod_input` onto peg `rod_output`.
#[derive(Clone, Copy, Debug, PartialEq, Eq, Structural)]
pub struct Action {
    pub rod_input: usize,
    pub rod_output: usize,
    pub action: ACTIONS,
}

/// Why `action` cannot be applied to `pegs`; none where it can.
///
/// A peg index outside the pegs is an invalid index, whatever the pegs hold.
/// With both indices in range, an empty source peg comes first, and the
/// destination is judged with the disk already lifted off its peg.
pub open spec fn move_error(pegs: Seq<Seq<u32>>, action: Action) -> Option<MoveError> {
    let from = action.rod_input as int;
    let to = action.rod_output as int;
    if from >= pegs.len() || to >= pegs.len() {
        Some(MoveError::InvalidPegIndex)
    } else {
        match top_disk(pegs, from) {
            None => Some(MoveError::EmptySourcePeg),
            Some(disk) => if !fits(without_top(pegs, from), to, disk) {
                Some(MoveError::DestinationTooSmall)
            } else {
                None
            },
        }
    }
}

/// The pegs after `action`, where it can be applied.
pub open spec fn move_result(pegs: Seq<Seq<u32>>, action: Action) -> Seq<Seq<u32>> {
    let from = action.rod_input as int;
    let to = action.rod_output as int;
    with_disk(without_top(pegs, from), to, pegs[from].last())
}

impl Action {
    /// Applies the move to a copy of `state` and charges one unit of cost to
    /// it, or says why the move cannot be made.
    pub fn apply_action(&self, state: &States) -> (r: Result<States, MoveError>)
        ensures
            match r {
                Ok(next) => move_error(state@, *self) is None && next@ == move_result(
                    state@,
                    *self,
                ) && next.acc_cost == cost_sum(state.acc_cost, 1),
                Err(e) => move_error(state@, *self) == Some(e),
            },
    {
        if self.rod_input >= state.rods.len() || self.rod_output >= state.rods.len() {
            return Err(MoveError::InvalidPegIndex);
        }
        let mut new_state = state.duplicate();
        match new_state.pop_disk_from_rod(self.rod_input) {
            Some(disk) => {
                match new_state.put_disk_in_rod(self.rod_output, disk) {
                    Ok(_) => {
                        new_state.accumulate_cost(1);
                        Ok(new_state)
                    },
                    Err(err) => Err(err),
                }
            },
            None => Err(MoveError::EmptySourcePeg),
        }
    }
}

} // verus!
