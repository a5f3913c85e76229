//! A goal-oriented action planner: world states are partial mappings from
//! boolean conditions to values, actions carry preconditions, effects and a
//! positive cost, and a best-first search returns an ordered action sequence
//! that transforms the current state into one satisfying a goal.

pub mod library;
pub mod planner;
pub mod state;

pub use library::Action;
pub use library::ActionLibrary;
pub use planner::ActionPlanner;
pub use planner::PlanningError;
pub use state::WorldState;
