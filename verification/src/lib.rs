//! The verified core of a desktop window-arrangement utility: a discovery
//! filter that decides which top-level windows take part, a grid-layout
//! engine that tiles them into two rows, a proportional transform that
//! carries each window onto the opposite monitor of a two-monitor topology,
//! and a single-level undo that replays the rectangles captured before the
//! last mutating pass. The operating-system surface itself stays outside:
//! the passes run here against an in-memory desktop model, and a thin
//! driver performs the same steps against the real window system.

pub mod control;
pub mod desktop;
pub mod filter;
pub mod geom;
pub mod grid;
pub mod passes;
pub mod swap;
