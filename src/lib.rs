//! A rank-ordered event scheduler for a fixed-step simulation: actors propose
//! events, the scheduler buckets them by rank and applies them to a world of
//! actors, re-expanding what spawns produce until a fixpoint is reached.
pub mod ids;
pub mod entity;
pub mod being;
pub mod world;
pub mod rank_queue;
pub mod events;
pub mod game;
pub mod clock;

pub use ids::{IDManager, IDType, ID};
pub use entity::{Entity, EntityIDType, UNSET};
pub use being::{Being, BeingArgs, Field, Vec2, Vec2Event, Vec3, Vec3Event};
pub use world::{GameError, Owner, World};
pub use rank_queue::RankQueue;
pub use events::{
    get_rank_tick, get_rank_tick_after, EntityGraphicsEvent, EntityIDEvent, RenderCommand, TickAfterEvent,
    TickEvent, TransformEvent, WorldEvent,
};
pub use game::{split_events, BeingType, Game};
pub use clock::TickClock;
