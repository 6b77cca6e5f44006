//! A discrete-time, discrete-state Markov chain random walk, and a zigzag
//! text layout.
//!
//! The walk starts at a state and takes a fixed number of steps. Each step
//! records the current state, in a trace and in a histogram of visits, and
//! then samples the next state from the distribution that a table of
//! transitions gives to the current one.
//!
//! Probabilities are whole numbers of parts out of [`table::PROB_ONE`], and
//! a distribution lists its destinations in increasing order, so that the
//! outcome of a step is a function of the table, the state and one draw
//! below `PROB_ONE`. The functions that draw say what holds whatever was
//! drawn; those that take the draws as arguments say what they return.

pub mod report;
pub mod sample;
pub mod sampler;
pub mod state_map;
pub mod table;
pub mod walk;
pub mod zigzag;
