//! Verified core of a four-way intersection simulator in which vehicles book
//! time slots through the junction instead of obeying traffic lights.

pub mod input;
pub mod intersection;
pub mod renderer;
pub mod statistics;
pub mod vehicle;
