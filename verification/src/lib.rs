//! A wide xorshift-r+ generator: several independent lanes stepped in
//! lockstep to fill buffers of 64-bit words.
//!
//! * [`recurrence`] is the mathematical model: the lane recurrence, the state
//!   after any number of group steps and the words a fill produces.
//! * [`seeding`] says which lane contents are acceptable as a seed.
//! * [`generator`] is the executable generator, proved against the model.
//! * [`laws`] holds theorems that relate several fills to each other.

pub mod generator;
pub mod laws;
pub mod recurrence;
pub mod seeding;

pub use generator::XorshiftrWide;
