//! A state partition system: a generic object store plus a state machine
//! that groups objects into named states, moves them between states, and
//! dispatches a per-state update rule over each state's members once per
//! simulation tick.

pub mod laws;
pub mod machine;
pub mod store;
pub mod touch;
pub mod update;
