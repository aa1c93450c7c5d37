use vstd::prelude::*;

pub mod arena;
pub mod body;
pub mod bvh;
pub mod filter;
pub mod handle;
pub mod island;
pub mod island_manager;
pub mod pool;
pub mod position_solver;
pub mod shape;
pub mod sleeping;
pub mod stats;
pub mod step;
pub mod threads;

pub use arena::GenerationalArena;
pub use body::{BodyType, ForceType};
pub use bvh::DynamicAabbTree;
pub use filter::CollisionFilter;
pub use handle::{BodyHandle, ColliderHandle, JointHandle};
pub use island::Island;
pub use island_manager::{IslandManager, JointDesc, JointStorage};
pub use pool::{ColliderPair, ContactFeatureId, ContactFeatureKind, ContactPool, MAX_MANIFOLD_POINTS};
pub use position_solver::{assign_contact_colours, PositionColorAssignment};
pub use shape::ShapeType;
pub use sleeping::wake_body;
pub use stats::{timed, StepStats};
