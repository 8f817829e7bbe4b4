//! The integer core of an equaliser fitter.
//!
//! A bank of peaking filters is fitted so that one measured response matches another. The
//! numeric evaluation of a filter is done by the caller in its own arithmetic; this crate
//! holds everything that is decided on whole numbers: the frequency grid on which the
//! correction is sampled, the order of samples by distance, the fields of a measurement text,
//! the annealing run with its schedule, its trials and its acceptance rule, the selection of
//! the best bank over the rounds, and the layout of the equaliser description.
pub mod anneal;
pub mod fields;
pub mod filter;
pub mod grid;
pub mod nearest;
pub mod report;
pub mod rounds;
