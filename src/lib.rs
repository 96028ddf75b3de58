//! Rules engine of a falling-block puzzle game played inside a 3-D scene.
//!
//! The engine never touches the scene itself: it reads object positions from a
//! [`scene::Scene`] snapshot and records what the scene should do as
//! [`scene::Command`]s in a [`scene::CommandLog`], which the host then replays.
pub mod point;
pub mod math;
pub mod scene;
pub mod cube;
pub mod tetrimino;
pub mod grid;
