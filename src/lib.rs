//! Turns the lines of an execution log into timed events and packs them into
//! lanes, so that a timeline can draw them side by side without overlap.
pub mod clock;
pub mod duration;
pub mod events;
pub mod lanes;
pub mod patterns;
pub mod timeline;
