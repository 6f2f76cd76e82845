//! A tile-matching puzzle board engine.
//!
//! A fixed-size grid of typed blocks where contiguous same-type regions can
//! be cleared, followed by gravity-driven compaction: blocks fall to fill
//! vertical gaps, then empty columns collapse horizontally. The crate covers
//! the board-state engine itself: coordinate addressing, connected-region
//! discovery, gap and shift detection, the animation engine that advances
//! block positions toward settled grid cells over multiple frames, and the
//! per-frame session state machine. Rendering, input polling and frame-rate
//! limiting are left to the embedding application.

pub mod block;
pub mod constants;
pub mod coordinate;
pub mod game_session;
pub mod grid_layout;
pub mod physics_system;
