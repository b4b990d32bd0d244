//! The two event families and their static ranks.
use vstd::prelude::*;
use crate::being::{BeingArgs, Field, Vec2Event, Vec3Event};
use crate::entity::EntityIDType;
use crate::ids::ID;

verus! {

/// A new projection, view or model transform for a drawable part; the
/// payload (matrix and inverse) is the renderer's.
pub enum TransformEvent<P> {
    Perspective(P),
    View(P),
    Model(P),
}

/// Rewires handles of a drawable part: to fresh handles, to those of a part
/// of another live actor (actor, slot), or to those of a part of a type's
/// template (type, slot).
pub enum EntityIDEvent {
    UseNewID(Vec<EntityIDType>),
    UseOldID(ID, u32, Vec<EntityIDType>),
    UseBaseID(u32, u32, Vec<EntityIDType>),
}

/// New renderer data for one resource of a drawable part.
pub enum EntityGraphicsEvent<P> {
    Vertices(P),
    Indices(P),
    Texture(P),
    DrawMethod(P),
}

/// Events applied while a tick settles.
pub enum TickEvent<P> {
    /// Spawns an instance of a type, from its template.
    NewBeing(u32, BeingArgs),
    /// Creates the template of a type.
    NewBase(u32),
    Sca2(ID, Vec2Event),
    Sca3(ID, Vec3Event),
    Rot2(ID, Vec2Event),
    Rot3(ID, Vec3Event),
    Pos2(ID, Vec2Event),
    Pos3(ID, Vec3Event),
    Vel2(ID, Vec2Event),
    Vel3(ID, Vec3Event),
    Acc2(ID, Vec2Event),
    Acc3(ID, Vec3Event),
    /// Rewires handles of a live actor's part (actor, slot, how).
    EntityID(ID, u32, EntityIDEvent),
    /// Rewires handles of a template's part (type, slot, how).
    EntityIDBase(u32, u32, EntityIDEvent),
    Transform(ID, u32, TransformEvent<P>),
    TransformBase(u32, u32, TransformEvent<P>),
}

/// Events applied after a tick has settled, one at a time.
pub enum TickAfterEvent<P> {
    Entity(ID, u32, EntityGraphicsEvent<P>),
    EntityBase(u32, u32, EntityGraphicsEvent<P>),
    EndBeing(ID),
}

/// An event of either family.
pub enum WorldEvent<P> {
    Tick(TickEvent<P>),
    TickAfter(TickAfterEvent<P>),
}

/// A renderer update: store `payload` as the resource `resource`, of kind
/// `kind`.
pub struct RenderCommand<P> {
    pub kind: EntityIDType,
    pub resource: ID,
    pub payload: P,
}

/// Rank of a 2- or 3-vector change, by field and operation.
pub open spec fn field_rank(f: Field, op: nat) -> u32 {
    let base: u32 = match f {
        Field::Sca => 5,
        Field::Rot => 5,
        Field::Pos => 5,
        Field::Vel => 10,
        Field::Acc => 15,
    };
    (base + op) as u32
}

impl Vec2Event {
    /// 0 for a set, 1 for an add, 2 for a multiply.
    pub open spec fn op(self) -> nat {
        match self {
            Vec2Event::Assign(_) => 0,
            Vec2Event::Add(_) => 1,
            Vec2Event::Mul(_) => 2,
        }
    }
}

impl Vec3Event {
    /// 0 for a set, 1 for an add, 2 for a multiply.
    pub open spec fn op(self) -> nat {
        match self {
            Vec3Event::Assign(_) => 0,
            Vec3Event::Add(_) => 1,
            Vec3Event::Mul(_) => 2,
        }
    }
}

impl EntityIDEvent {
    /// Fresh handles are wired before borrowed ones, those of live actors
    /// before those of templates.
    pub open spec fn rank(self) -> u32 {
        match self {
            EntityIDEvent::UseNewID(_) => 4,
            EntityIDEvent::UseOldID(_, _, _) => 3,
            EntityIDEvent::UseBaseID(_, _, _) => 2,
        }
    }
}

impl<P> TickEvent<P> {
    /// The kinematic field and the 2-vector change the event makes, if any.
    pub open spec fn field2(self) -> Option<(ID, Field, Vec2Event)> {
        match self {
            TickEvent::Sca2(id, ev) => Some((id, Field::Sca, ev)),
            TickEvent::Rot2(id, ev) => Some((id, Field::Rot, ev)),
            TickEvent::Pos2(id, ev) => Some((id, Field::Pos, ev)),
            TickEvent::Vel2(id, ev) => Some((id, Field::Vel, ev)),
            TickEvent::Acc2(id, ev) => Some((id, Field::Acc, ev)),
            _ => None,
        }
    }

    /// The kinematic field and the 3-vector change the event makes, if any.
    pub open spec fn field3(self) -> Option<(ID, Field, Vec3Event)> {
        match self {
            TickEvent::Sca3(id, ev) => Some((id, Field::Sca, ev)),
            TickEvent::Rot3(id, ev) => Some((id, Field::Rot, ev)),
            TickEvent::Pos3(id, ev) => Some((id, Field::Pos, ev)),
            TickEvent::Vel3(id, ev) => Some((id, Field::Vel, ev)),
            TickEvent::Acc3(id, ev) => Some((id, Field::Acc, ev)),
            _ => None,
        }
    }

    /// The event creates an actor or a template.
    pub open spec fn is_spawn(self) -> bool {
        self is NewBeing || self is NewBase
    }

    /// The static rank: templates first, then spawns, kinematic changes,
    /// handle rewiring, and transforms last.
    pub open spec fn rank(self) -> u32 {
        match self {
            TickEvent::NewBase(_) => 200,
            TickEvent::NewBeing(_, _) => 100,
            TickEvent::EntityID(_, _, ev) => ev.rank(),
            TickEvent::EntityIDBase(_, _, ev) => ev.rank(),
            TickEvent::Transform(_, _, _) => 1,
            TickEvent::TransformBase(_, _, _) => 1,
            TickEvent::Sca2(_, ev) => field_rank(Field::Sca, ev.op()),
            TickEvent::Sca3(_, ev) => field_rank(Field::Sca, ev.op()),
            TickEvent::Rot2(_, ev) => field_rank(Field::Rot, ev.op()),
            TickEvent::Rot3(_, ev) => field_rank(Field::Rot, ev.op()),
            TickEvent::Pos2(_, ev) => field_rank(Field::Pos, ev.op()),
            TickEvent::Pos3(_, ev) => field_rank(Field::Pos, ev.op()),
            TickEvent::Vel2(_, ev) => field_rank(Field::Vel, ev.op()),
            TickEvent::Vel3(_, ev) => field_rank(Field::Vel, ev.op()),
            TickEvent::Acc2(_, ev) => field_rank(Field::Acc, ev.op()),
            TickEvent::Acc3(_, ev) => field_rank(Field::Acc, ev.op()),
        }
    }
}

impl<P> TickAfterEvent<P> {
    /// The static rank: destruction before graphics updates.
    pub open spec fn rank(self) -> u32 {
        match self {
            TickAfterEvent::EndBeing(_) => 0,
            _ => 1,
        }
    }
}

fn rank_vec2(base: u32, ev: &Vec2Event) -> (r: u32)
    requires
        base <= 15,
    ensures
        r == base + ev.op(),
{
    match ev {
        Vec2Event::Assign(_) => base,
        Vec2Event::Add(_) => base + 1,
        Vec2Event::Mul(_) => base + 2,
    }
}

fn rank_vec3(base: u32, ev: &Vec3Event) -> (r: u32)
    requires
        base <= 15,
    ensures
        r == base + ev.op(),
{
    match ev {
        Vec3Event::Assign(_) => base,
        Vec3Event::Add(_) => base + 1,
        Vec3Event::Mul(_) => base + 2,
    }
}

fn rank_entity_id(ev: &EntityIDEvent) -> (r: u32)
    ensures
        r == ev.rank(),
{
    match ev {
        EntityIDEvent::UseNewID(_) => 4,
        EntityIDEvent::UseOldID(_, _, _) => 3,
        EntityIDEvent::UseBaseID(_, _, _) => 2,
    }
}

/// The rank of a tick event.
pub fn get_rank_tick<P>(event: &TickEvent<P>) -> (r: u32)
    ensures
        r == event.rank(),
{
    match event {
        TickEvent::NewBase(_) => 200,
        TickEvent::NewBeing(_, _) => 100,
        TickEvent::Sca2(_, ev) => rank_vec2(5, ev),
        TickEvent::Sca3(_, ev) => rank_vec3(5, ev),
        TickEvent::Rot2(_, ev) => rank_vec2(5, ev),
        TickEvent::Rot3(_, ev) => rank_vec3(5, ev),
        TickEvent::Pos2(_, ev) => rank_vec2(5, ev),
        TickEvent::Pos3(_, ev) => rank_vec3(5, ev),
        TickEvent::Vel2(_, ev) => rank_vec2(10, ev),
        TickEvent::Vel3(_, ev) => rank_vec3(10, ev),
        TickEvent::Acc2(_, ev) => rank_vec2(15, ev),
        TickEvent::Acc3(_, ev) => rank_vec3(15, ev),
        TickEvent::EntityID(_, _, ev) => rank_entity_id(ev),
        TickEvent::EntityIDBase(_, _, ev) => rank_entity_id(ev),
        TickEvent::Transform(_, _, _) => 1,
        TickEvent::TransformBase(_, _, _) => 1,
    }
}

/// The rank of a post-tick event.
pub fn get_rank_tick_after<P>(event: &TickAfterEvent<P>) -> (r: u32)
    ensures
        r == event.rank(),
{
    match event {
        TickAfterEvent::EndBeing(_) => 0,
        _ => 1,
    }
}

/// The ranks order the tick family as the scheduler needs: a template before
/// any spawn, a spawn before any change to an existing actor, changes before
/// handle rewiring, and rewiring before transforms.
pub proof fn lemma_tick_rank_order<P>(e: TickEvent<P>)
    ensures
        e is NewBase ==> e.rank() == 200,
        e is NewBeing ==> e.rank() == 100,
        !e.is_spawn() ==> e.rank() <= 17,
        (e is EntityID || e is EntityIDBase) ==> 2 <= e.rank() <= 4,
        (e.field2() is Some || e.field3() is Some) ==> 5 <= e.rank() <= 17,
        (e is Transform || e is TransformBase) ==> e.rank() == 1,
{
}

} // verus!
