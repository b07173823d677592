//! Debounce event scheduling for push-button input lines, plus the state
//! machine of a two-color indicator with a blinking mode.
//!
//! The debounce engine turns bursts of raw rising-edge timestamps into a
//! single logical event per physical transition: each edge on a line opens
//! (or extends) that line's debounce window, and only when the window
//! closes is one event reported for the line. Time is measured in ticks,
//! a monotonic `u64` supplied by the caller.

pub mod button;
mod channel;
pub mod led;
pub mod scheduler;
pub mod tracker;

pub use button::Button;
pub use led::Led;
pub use scheduler::IO;
