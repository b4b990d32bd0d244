//! Actors: identity, type tag, kinematic state and drawable parts.
use vstd::prelude::*;
use std::collections::HashMap;
use crate::entity::Entity;
use crate::ids::ID;

verus! {

broadcast use vstd::std_specs::hash::group_hash_axioms;

/// A 2-vector of integer components.
#[derive(Clone, Copy, PartialEq, Eq, Structural, Debug)]
pub struct Vec2 {
    pub x: i64,
    pub y: i64,
}

/// A 3-vector of integer components.
#[derive(Clone, Copy, PartialEq, Eq, Structural, Debug)]
pub struct Vec3 {
    pub x: i64,
    pub y: i64,
    pub z: i64,
}

impl Vec2 {
    pub fn from_vals(x: i64, y: i64) -> (r: Vec2)
        ensures
            r == (Vec2 { x, y }),
    {
        Vec2 { x, y }
    }

    pub fn zero() -> (r: Vec2)
        ensures
            r == (Vec2 { x: 0, y: 0 }),
    {
        Vec2 { x: 0, y: 0 }
    }

    /// This vector with `z` as third component.
    pub open spec fn spec_to_vec3(self, z: i64) -> Vec3 {
        Vec3 { x: self.x, y: self.y, z }
    }

    pub fn to_vec3(self, z: i64) -> (r: Vec3)
        ensures
            r == self.spec_to_vec3(z),
    {
        Vec3 { x: self.x, y: self.y, z }
    }
}

impl Vec3 {
    pub fn from_vals(x: i64, y: i64, z: i64) -> (r: Vec3)
        ensures
            r == (Vec3 { x, y, z }),
    {
        Vec3 { x, y, z }
    }

    pub fn zero() -> (r: Vec3)
        ensures
            r == (Vec3 { x: 0, y: 0, z: 0 }),
    {
        Vec3 { x: 0, y: 0, z: 0 }
    }

    pub fn one() -> (r: Vec3)
        ensures
            r == (Vec3 { x: 1, y: 1, z: 1 }),
    {
        Vec3 { x: 1, y: 1, z: 1 }
    }

    /// The first two components.
    pub open spec fn spec_to_vec2(self) -> Vec2 {
        Vec2 { x: self.x, y: self.y }
    }

    pub fn to_vec2(self) -> (r: Vec2)
        ensures
            r == self.spec_to_vec2(),
    {
        Vec2 { x: self.x, y: self.y }
    }

    /// Componentwise sum, wrapping on overflow.
    pub open spec fn spec_add(self, o: Vec3) -> Vec3 {
        Vec3 { x: self.x.wrapping_add(o.x), y: self.y.wrapping_add(o.y), z: self.z.wrapping_add(o.z) }
    }

    /// Componentwise product, wrapping on overflow.
    pub open spec fn spec_mul(self, o: Vec3) -> Vec3 {
        Vec3 { x: self.x.wrapping_mul(o.x), y: self.y.wrapping_mul(o.y), z: self.z.wrapping_mul(o.z) }
    }

    pub fn add(self, o: Vec3) -> (r: Vec3)
        ensures
            r == self.spec_add(o),
    {
        Vec3 { x: self.x.wrapping_add(o.x), y: self.y.wrapping_add(o.y), z: self.z.wrapping_add(o.z) }
    }

    pub fn mul(self, o: Vec3) -> (r: Vec3)
        ensures
            r == self.spec_mul(o),
    {
        Vec3 { x: self.x.wrapping_mul(o.x), y: self.y.wrapping_mul(o.y), z: self.z.wrapping_mul(o.z) }
    }
}

/// A change to a kinematic field given as a 2-vector; the third component
/// of the field is kept.
#[derive(Clone, Copy, PartialEq, Eq, Structural, Debug)]
pub enum Vec2Event {
    Assign(Vec2),
    Add(Vec2),
    Mul(Vec2),
}

/// A change to a kinematic field given as a 3-vector.
#[derive(Clone, Copy, PartialEq, Eq, Structural, Debug)]
pub enum Vec3Event {
    Assign(Vec3),
    Add(Vec3),
    Mul(Vec3),
}

impl Vec2Event {
    /// The field's value after the change, from its value `cur` before.
    pub open spec fn spec_apply(self, cur: Vec3) -> Vec3 {
        match self {
            Vec2Event::Assign(v) => v.spec_to_vec3(cur.z),
            Vec2Event::Add(v) => cur.spec_add(v.spec_to_vec3(0)),
            Vec2Event::Mul(v) => cur.spec_mul(v.spec_to_vec3(1)),
        }
    }

    pub fn apply(&self, cur: Vec3) -> (r: Vec3)
        ensures
            r == self.spec_apply(cur),
    {
        match self {
            Vec2Event::Assign(v) => v.to_vec3(cur.z),
            Vec2Event::Add(v) => cur.add(v.to_vec3(0)),
            Vec2Event::Mul(v) => cur.mul(v.to_vec3(1)),
        }
    }
}

impl Vec3Event {
    /// The field's value after the change, from its value `cur` before.
    pub open spec fn spec_apply(self, cur: Vec3) -> Vec3 {
        match self {
            Vec3Event::Assign(v) => v,
            Vec3Event::Add(v) => cur.spec_add(v),
            Vec3Event::Mul(v) => cur.spec_mul(v),
        }
    }

    pub fn apply(&self, cur: Vec3) -> (r: Vec3)
        ensures
            r == self.spec_apply(cur),
    {
        match self {
            Vec3Event::Assign(v) => *v,
            Vec3Event::Add(v) => cur.add(*v),
            Vec3Event::Mul(v) => cur.mul(*v),
        }
    }
}

/// The kinematic fields of an actor.
#[derive(Clone, Copy, PartialEq, Eq, Structural, Debug)]
pub enum Field {
    Sca,
    Rot,
    Pos,
    Vel,
    Acc,
}

/// Optional initial kinematic state for a spawned actor; what is left out is
/// taken from the type's template.
#[derive(Clone, Copy, PartialEq, Eq, Structural, Debug)]
pub struct BeingArgs {
    pub pos: Option<Vec3>,
    pub vel: Option<Vec3>,
    pub acc: Option<Vec3>,
    pub sca: Option<Vec3>,
    pub rot: Option<Vec3>,
}

impl BeingArgs {
    pub fn new() -> (r: BeingArgs)
        ensures
            r == (BeingArgs { pos: None, vel: None, acc: None, sca: None, rot: None }),
    {
        BeingArgs { pos: None, vel: None, acc: None, sca: None, rot: None }
    }

    pub fn with_pos(self, v: Vec3) -> (r: BeingArgs)
        ensures
            r == (BeingArgs { pos: Some(v), ..self }),
    {
        BeingArgs { pos: Some(v), ..self }
    }

    pub fn with_vel(self, v: Vec3) -> (r: BeingArgs)
        ensures
            r == (BeingArgs { vel: Some(v), ..self }),
    {
        BeingArgs { vel: Some(v), ..self }
    }

    pub fn with_acc(self, v: Vec3) -> (r: BeingArgs)
        ensures
            r == (BeingArgs { acc: Some(v), ..self }),
    {
        BeingArgs { acc: Some(v), ..self }
    }

    pub fn with_sca(self, v: Vec3) -> (r: BeingArgs)
        ensures
            r == (BeingArgs { sca: Some(v), ..self }),
    {
        BeingArgs { sca: Some(v), ..self }
    }

    pub fn with_rot(self, v: Vec3) -> (r: BeingArgs)
        ensures
            r == (BeingArgs { rot: Some(v), ..self }),
    {
        BeingArgs { rot: Some(v), ..self }
    }

    /// The value given for `f`, if any.
    pub open spec fn spec_get(self, f: Field) -> Option<Vec3> {
        match f {
            Field::Sca => self.sca,
            Field::Rot => self.rot,
            Field::Pos => self.pos,
            Field::Vel => self.vel,
            Field::Acc => self.acc,
        }
    }
}

/// A simulation actor.
pub struct Being {
    pub id: ID,
    /// The actor's type, a tag of the user's catalog of actor types.
    pub kind: u32,
    /// Drawable parts, by slot number.
    pub entities: HashMap<u32, Entity>,
    pub sca: Vec3,
    pub rot: Vec3,
    pub pos: Vec3,
    pub vel: Vec3,
    pub acc: Vec3,
}

/// Value `a` unless `o` holds one.
pub open spec fn or_default(o: Option<Vec3>, a: Vec3) -> Vec3 {
    match o {
        Some(v) => v,
        None => a,
    }
}

fn pick(o: Option<Vec3>, a: Vec3) -> (r: Vec3)
    ensures
        r == or_default(o, a),
{
    match o {
        Some(v) => v,
        None => a,
    }
}

/// What an actor holds, as mathematical values.
pub ghost struct BeingView {
    pub id: ID,
    pub kind: u32,
    pub entities: Map<u32, Entity>,
    pub sca: Vec3,
    pub rot: Vec3,
    pub pos: Vec3,
    pub vel: Vec3,
    pub acc: Vec3,
}

impl BeingView {
    /// The value of kinematic field `f`.
    pub open spec fn get3(self, f: Field) -> Vec3 {
        match f {
            Field::Sca => self.sca,
            Field::Rot => self.rot,
            Field::Pos => self.pos,
            Field::Vel => self.vel,
            Field::Acc => self.acc,
        }
    }

    /// This actor with field `f` set to `v`.
    pub open spec fn with3(self, f: Field, v: Vec3) -> BeingView {
        match f {
            Field::Sca => BeingView { sca: v, ..self },
            Field::Rot => BeingView { rot: v, ..self },
            Field::Pos => BeingView { pos: v, ..self },
            Field::Vel => BeingView { vel: v, ..self },
            Field::Acc => BeingView { acc: v, ..self },
        }
    }

    /// This actor with the drawable part at `slot` set to `e`.
    pub open spec fn with_entity(self, slot: u32, e: Entity) -> BeingView {
        BeingView { entities: self.entities.insert(slot, e), ..self }
    }
}

impl View for Being {
    type V = BeingView;

    open spec fn view(&self) -> BeingView {
        BeingView {
            id: self.id,
            kind: self.kind,
            entities: self.entities@,
            sca: self.sca,
            rot: self.rot,
            pos: self.pos,
            vel: self.vel,
            acc: self.acc,
        }
    }
}

impl Being {
    /// An actor with the given identity, no drawable parts, unit scale and
    /// all other fields zero.
    pub fn new(id: ID, kind: u32) -> (r: Being)
        ensures
            r@ == (BeingView {
                id,
                kind,
                entities: Map::empty(),
                sca: Vec3 { x: 1, y: 1, z: 1 },
                rot: Vec3 { x: 0, y: 0, z: 0 },
                pos: Vec3 { x: 0, y: 0, z: 0 },
                vel: Vec3 { x: 0, y: 0, z: 0 },
                acc: Vec3 { x: 0, y: 0, z: 0 },
            }),
    {
        Being {
            id,
            kind,
            entities: HashMap::new(),
            sca: Vec3::one(),
            rot: Vec3::zero(),
            pos: Vec3::zero(),
            vel: Vec3::zero(),
            acc: Vec3::zero(),
        }
    }

    /// A new instance stamped from `base`: it shares every drawable part's
    /// handles and takes each kinematic field from `args`, or from `base`
    /// where `args` gives none.
    pub fn new_from_base(id: ID, base: &Being, args: &BeingArgs) -> (r: Being)
        ensures
            r@.id == id,
            r@.kind == base@.kind,
            r@.entities == base@.entities,
            forall|f: Field| #[trigger] r@.get3(f) == or_default(args.spec_get(f), base@.get3(f)),
    {
        let r = Being {
            id,
            kind: base.kind,
            entities: base.entities.clone(),
            sca: pick(args.sca, base.sca),
            rot: pick(args.rot, base.rot),
            pos: pick(args.pos, base.pos),
            vel: pick(args.vel, base.vel),
            acc: pick(args.acc, base.acc),
        };
        assert forall|f: Field| #[trigger] r@.get3(f) == or_default(args.spec_get(f), base@.get3(f)) by {
            match f {
                Field::Sca => {},
                Field::Rot => {},
                Field::Pos => {},
                Field::Vel => {},
                Field::Acc => {},
            }
        }
        r
    }

    pub fn get_id(&self) -> (r: ID)
        ensures
            r == self@.id,
    {
        self.id
    }

    pub fn get_type(&self) -> (r: u32)
        ensures
            r == self@.kind,
    {
        self.kind
    }

    /// The drawable part at `slot`, if there is one.
    pub fn get_entity(&self, slot: u32) -> (r: Option<Entity>)
        ensures
            r == (if self@.entities.contains_key(slot) { Some(self@.entities[slot]) } else { None::<Entity> }),
    {
        match self.entities.get(&slot) {
            Some(e) => Some(*e),
            None => None,
        }
    }

    /// Puts `entity` at `slot`, replacing what was there.
    pub fn set_entity(&mut self, slot: u32, entity: Entity)
        ensures
            final(self)@ == old(self)@.with_entity(slot, entity),
    {
        self.entities.insert(slot, entity);
    }

    /// The value of kinematic field `f`.
    pub fn get3(&self, f: Field) -> (r: Vec3)
        ensures
            r == self@.get3(f),
    {
        match f {
            Field::Sca => self.sca,
            Field::Rot => self.rot,
            Field::Pos => self.pos,
            Field::Vel => self.vel,
            Field::Acc => self.acc,
        }
    }

    /// The first two components of kinematic field `f`.
    pub fn get2(&self, f: Field) -> (r: Vec2)
        ensures
            r == self@.get3(f).spec_to_vec2(),
    {
        self.get3(f).to_vec2()
    }

    /// Sets kinematic field `f` to `v`.
    pub fn set3(&mut self, f: Field, v: Vec3)
        ensures
            final(self)@ == old(self)@.with3(f, v),
    {
        match f {
            Field::Sca => {
                self.sca = v;
            },
            Field::Rot => {
                self.rot = v;
            },
            Field::Pos => {
                self.pos = v;
            },
            Field::Vel => {
                self.vel = v;
            },
            Field::Acc => {
                self.acc = v;
            },
        }
    }

    /// Sets the first two components of field `f`, keeping the third.
    pub fn set2(&mut self, f: Field, v: Vec2)
        ensures
            final(self)@ == old(self)@.with3(f, v.spec_to_vec3(old(self)@.get3(f).z)),
    {
        let z = self.get3(f).z;
        self.set3(f, v.to_vec3(z));
    }

    /// Applies a 3-vector change to field `f`.
    pub fn apply3(&mut self, f: Field, ev: &Vec3Event)
        ensures
            final(self)@ == old(self)@.with3(f, ev.spec_apply(old(self)@.get3(f))),
    {
        let cur = self.get3(f);
        let v = ev.apply(cur);
        self.set3(f, v);
    }

    /// Applies a 2-vector change to field `f`.
    pub fn apply2(&mut self, f: Field, ev: &Vec2Event)
        ensures
            final(self)@ == old(self)@.with3(f, ev.spec_apply(old(self)@.get3(f))),
    {
        let cur = self.get3(f);
        let v = ev.apply(cur);
        self.set3(f, v);
    }
}

} // verus!
