//! Fixed-step physics, a static quad-tree and a tile-world generator for a
//! small top-down lander game.

pub mod game;
pub mod geometry;
pub mod physics;
pub mod quadtree;
pub mod random;
pub mod session;
pub mod world;

pub use game::{GamePhase, PhaseSignal};
pub use geometry::Rect;
pub use physics::{Bodies, Body, EntityId, Impulse, Vec2};
pub use quadtree::{QuadError, QuadNode, Quadrants, StaticQuadTree};
pub use random::{RandomNumberGenerator, RandomPlugin};
pub use session::{Session, SessionError};
pub use world::{GridError, World};
