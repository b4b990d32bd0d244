//! The registry of live actors and of the one template actor per type.
use vstd::prelude::*;
use std::collections::HashMap;
use crate::being::{Being, BeingView, Field, Vec2Event, Vec3Event};
use crate::entity::Entity;
use crate::ids::{IDType, ID};

verus! {

broadcast use vstd::std_specs::hash::group_hash_axioms;

/// A failed lookup or a fatal condition met while applying events.
#[derive(Clone, Copy, PartialEq, Eq, Structural, Debug)]
pub enum GameError {
    /// No live actor has this identifier.
    BeingNotFound(ID),
    /// No template is installed for this type.
    BaseNotFound(u32),
    /// The actor or template has no drawable part at this slot.
    EntityNotFound(u32),
    /// The identifier counter of this category is used up.
    IDsExhausted(IDType),
    /// The settle loop reached its pass ceiling with events of this rank
    /// still pending.
    TooManyPasses(u32),
}

/// Whose drawable part an event addresses: a live actor's, or a type's
/// template's.
#[derive(Clone, Copy, PartialEq, Eq, Structural, Debug)]
pub enum Owner {
    Being(ID),
    Base(u32),
}

/// `s` without the entry `v`, where `s` holds it once.
pub open spec fn without(s: Seq<u64>, v: u64) -> Seq<u64> {
    if s.contains(v) {
        s.remove(choose|i: int| 0 <= i < s.len() && s[i] == v)
    } else {
        s
    }
}

/// What a world holds, as mathematical values.
pub ghost struct WorldView {
    pub beings: Map<u64, BeingView>,
    pub order: Seq<u64>,
    pub bases: Map<u32, BeingView>,
}

impl WorldView {
    pub open spec fn has_being(self, id: ID) -> bool {
        id.kind == IDType::Being && self.beings.contains_key(id.value)
    }

    pub open spec fn has_owner(self, o: Owner) -> bool {
        match o {
            Owner::Being(id) => self.has_being(id),
            Owner::Base(t) => self.bases.contains_key(t),
        }
    }

    pub open spec fn owner(self, o: Owner) -> BeingView {
        match o {
            Owner::Being(id) => self.beings[id.value],
            Owner::Base(t) => self.bases[t],
        }
    }

    /// The drawable part at `slot` of `o`, or why there is none.
    pub open spec fn lookup_part(self, o: Owner, slot: u32) -> Result<Entity, GameError> {
        if !self.has_owner(o) {
            match o {
                Owner::Being(id) => Err(GameError::BeingNotFound(id)),
                Owner::Base(t) => Err(GameError::BaseNotFound(t)),
            }
        } else if !self.owner(o).entities.contains_key(slot) {
            Err(GameError::EntityNotFound(slot))
        } else {
            Ok(self.owner(o).entities[slot])
        }
    }

    /// This world with the part at `slot` of `o` set to `e`.
    pub open spec fn with_part(self, o: Owner, slot: u32, e: Entity) -> WorldView {
        match o {
            Owner::Being(id) => WorldView {
                beings: self.beings.insert(id.value, self.beings[id.value].with_entity(slot, e)),
                ..self
            },
            Owner::Base(t) => WorldView { bases: self.bases.insert(t, self.bases[t].with_entity(slot, e)), ..self },
        }
    }

    /// This world with the live actor stored under `v` replaced by `b`.
    pub open spec fn with_being(self, v: u64, b: BeingView) -> WorldView {
        WorldView { beings: self.beings.insert(v, b), ..self }
    }

    /// This world with `b` filed as a live actor under its identifier.
    pub open spec fn added(self, b: BeingView) -> WorldView {
        WorldView {
            beings: self.beings.insert(b.id.value, b),
            order: if self.beings.contains_key(b.id.value) {
                self.order
            } else {
                self.order.push(b.id.value)
            },
            bases: self.bases,
        }
    }

    /// This world without the live actor stored under `v`.
    pub open spec fn removed(self, v: u64) -> WorldView {
        WorldView { beings: self.beings.remove(v), order: without(self.order, v), bases: self.bases }
    }

    /// This world with `b` as the template of type `t`.
    pub open spec fn with_base(self, t: u32, b: BeingView) -> WorldView {
        WorldView { bases: self.bases.insert(t, b), ..self }
    }
}

/// Live actors by identifier value, and templates by type.
pub struct World {
    beings: HashMap<u64, Being>,
    order: Vec<u64>,
    bases: HashMap<u32, Being>,
}

/// The live actor `b` is stored under `k`.
pub open spec fn keyed_being(k: u64, b: BeingView) -> bool {
    b.id == (ID { kind: IDType::Being, value: k })
}

impl World {
    /// Live actors by identifier value.
    pub closed spec fn beings(&self) -> Map<u64, BeingView> {
        self.beings@.map_values(|b: Being| b@)
    }

    /// Templates by type.
    pub closed spec fn bases(&self) -> Map<u32, BeingView> {
        self.bases@.map_values(|b: Being| b@)
    }

    /// The live identifier values, oldest first.
    pub closed spec fn order(&self) -> Seq<u64> {
        self.order@
    }

    /// Everything the world holds.
    pub open spec fn model(&self) -> WorldView {
        WorldView { beings: self.beings(), order: self.order(), bases: self.bases() }
    }

    pub closed spec fn wf(&self) -> bool {
        &&& self.order@.no_duplicates()
        &&& forall|k: u64| #[trigger] self.beings@.contains_key(k) <==> self.order@.contains(k)
        &&& forall|k: u64| #[trigger] self.beings@.contains_key(k) ==> keyed_being(k, self.beings@[k]@)
        &&& forall|t: u32| #[trigger] self.bases@.contains_key(t) ==> self.bases@[t].kind == t
    }

    /// Whether `id` names a live actor.
    pub open spec fn has_being(&self, id: ID) -> bool {
        id.kind == IDType::Being && self.beings().contains_key(id.value)
    }

    /// The live actor named by `id`.
    pub open spec fn being(&self, id: ID) -> BeingView {
        self.beings()[id.value]
    }

    /// `next` is this world with the live actor `id` replaced by `b`.
    pub open spec fn replaces(&self, next: &World, id: ID, b: BeingView) -> bool {
        &&& next.wf()
        &&& next.beings() == self.beings().insert(id.value, b)
        &&& next.order() == self.order()
        &&& next.bases() == self.bases()
        &&& next.model() == self.model().with_being(id.value, b)
    }

    /// `next` holds the same actors and templates as this world.
    pub open spec fn unchanged(&self, next: &World) -> bool {
        &&& next.wf()
        &&& next.model() == self.model()
        &&& next.beings() == self.beings()
        &&& next.order() == self.order()
        &&& next.bases() == self.bases()
    }

    pub fn new() -> (r: World)
        ensures
            r.wf(),
            r.beings() == Map::<u64, BeingView>::empty(),
            r.bases() == Map::<u32, BeingView>::empty(),
            r.order() == Seq::<u64>::empty(),
    {
        World { beings: HashMap::new(), order: Vec::new(), bases: HashMap::new() }
    }

    /// The live actors, by identifier value.
    pub fn get_beings(&self) -> (r: &HashMap<u64, Being>)
        ensures
            r@.map_values(|b: Being| b@) == self.beings(),
    {
        &self.beings
    }

    /// Number of live actors.
    pub fn len(&self) -> (r: usize)
        requires
            self.wf(),
        ensures
            r == self.order().len(),
    {
        self.order.len()
    }

    /// The identifier of the `i`-th live actor, oldest first.
    pub fn being_id_at(&self, i: usize) -> (r: ID)
        requires
            self.wf(),
            i < self.order().len(),
        ensures
            r == (ID { kind: IDType::Being, value: self.order()[i as int] }),
            self.has_being(r),
    {
        let v = self.order[i];
        assert(self.order@.contains(v));
        ID { kind: IDType::Being, value: v }
    }

    /// Inserts a live actor under its identifier; an actor of the same
    /// identifier is replaced.
    pub fn add_being(&mut self, being: Being)
        requires
            old(self).wf(),
            being.id.kind == IDType::Being,
        ensures
            final(self).wf(),
            final(self).beings() == old(self).beings().insert(being.id.value, being@),
            final(self).model() == old(self).model().added(being@),
            final(self).bases() == old(self).bases(),
            final(self).order() == if old(self).beings().contains_key(being.id.value) {
                old(self).order()
            } else {
                old(self).order().push(being.id.value)
            },
    {
        let k = being.id.value;
        let had = self.beings.contains_key(&k);
        self.beings.insert(k, being);
        assert(self.beings() =~= old(self).beings().insert(k, being@));
        if !had {
            self.order.push(k);
        }
        assert forall|j: u64| #[trigger] self.beings@.contains_key(j) <==> self.order@.contains(j) by {
            if !had {
                assert(self.order@.last() == k);
                if old(self).order@.contains(j) {
                    let n = choose|n: int| 0 <= n < old(self).order@.len() && old(self).order@[n] == j;
                    assert(self.order@[n] == j);
                }
                if self.order@.contains(j) && j != k {
                    let n = choose|n: int| 0 <= n < self.order@.len() && self.order@[n] == j;
                    assert(old(self).order@[n] == j);
                }
            }
        }
    }

    /// Removes the live actor `id`; `None` where there is none.
    pub fn del_being(&mut self, id: ID) -> (r: Option<Being>)
        requires
            old(self).wf(),
        ensures
            final(self).wf(),
            final(self).bases() == old(self).bases(),
            old(self).has_being(id) ==> r.is_some() && r.unwrap()@ == old(self).being(id)
                && final(self).model() == old(self).model().removed(id.value),
            !old(self).has_being(id) ==> r.is_none() && final(self).beings() == old(self).beings()
                && final(self).order() == old(self).order(),
    {
        if id.kind != IDType::Being {
            return None;
        }
        let k = id.value;
        let r = self.beings.remove(&k);
        assert(self.beings() =~= old(self).beings().remove(k));
        if r.is_some() {
            let mut i: usize = 0;
            while i < self.order.len() && self.order[i] != k
                invariant
                    0 <= i <= self.order@.len(),
                    self.order@ == old(self).order@,
                    old(self).order@.contains(k),
                    forall|j: int| 0 <= j < i ==> self.order@[j] != k,
                decreases self.order@.len() - i,
            {
                i = i + 1;
            }
            assert(i < self.order@.len() && self.order@[i as int] == k);
            let ghost before = self.order@;
            self.order.remove(i);
            assert(self.order@ == before.remove(i as int));
            assert(self.order@ == without(before, k)) by {
                let j = choose|j: int| 0 <= j < before.len() && before[j] == k;
                assert(before[i as int] == k);
                assert(i as int == j);
            }
            assert forall|j: u64| #[trigger] self.beings@.contains_key(j) <==> self.order@.contains(j) by {
                if self.order@.contains(j) {
                    let n = choose|n: int| 0 <= n < self.order@.len() && self.order@[n] == j;
                    if n < i {
                        assert(before[n] == j);
                    } else {
                        assert(before[n + 1] == j);
                    }
                }
                if self.beings@.contains_key(j) {
                    assert(before.contains(j));
                    let n = choose|n: int| 0 <= n < before.len() && before[n] == j;
                    assert(n != i);
                    if n < i {
                        assert(self.order@[n] == j);
                    } else {
                        assert(self.order@[n - 1] == j);
                    }
                }
            }
            assert(self.order@.no_duplicates()) by {
                assert forall|a: int, b: int| 0 <= a < b < self.order@.len() implies self.order@[a] != self.order@[b] by {
                    let a1 = if a < i { a } else { a + 1 };
                    let b1 = if b < i { b } else { b + 1 };
                    assert(before[a1] == self.order@[a]);
                    assert(before[b1] == self.order@[b]);
                }
            }
        }
        r
    }

    /// The live actor `id`, if there is one.
    pub fn get_being(&self, id: ID) -> (r: Option<&Being>)
        requires
            self.wf(),
        ensures
            self.has_being(id) ==> r.is_some() && r.unwrap()@ == self.being(id),
            !self.has_being(id) ==> r.is_none(),
    {
        if id.kind != IDType::Being {
            return None;
        }
        self.beings.get(&id.value)
    }

    /// Installs `base` as the template of type `being_type`.
    pub fn set_base(&mut self, being_type: u32, base: Being)
        requires
            old(self).wf(),
            base.kind == being_type,
        ensures
            final(self).wf(),
            final(self).bases() == old(self).bases().insert(being_type, base@),
            final(self).model() == old(self).model().with_base(being_type, base@),
            final(self).beings() == old(self).beings(),
            final(self).order() == old(self).order(),
    {
        self.bases.insert(being_type, base);
        assert(self.bases() =~= old(self).bases().insert(being_type, base@));
    }

    /// The template of type `being_type`, if one is installed.
    pub fn get_base(&self, being_type: u32) -> (r: Option<&Being>)
        requires
            self.wf(),
        ensures
            self.bases().contains_key(being_type) ==> r.is_some() && r.unwrap()@ == self.bases()[being_type],
            !self.bases().contains_key(being_type) ==> r.is_none(),
    {
        self.bases.get(&being_type)
    }

    /// Takes the live actor `id` out of the map for an update in place.
    fn take_being(&mut self, id: ID) -> (r: Result<Being, GameError>)
        requires
            old(self).wf(),
        ensures
            old(self).has_being(id) ==> r is Ok && r->Ok_0@ == old(self).being(id)
                && final(self).beings@ == old(self).beings@.remove(id.value),
            !old(self).has_being(id) ==> r == Err::<Being, GameError>(GameError::BeingNotFound(id))
                && final(self).beings@ == old(self).beings@,
            final(self).order@ == old(self).order@,
            final(self).bases@ == old(self).bases@,
    {
        if id.kind != IDType::Being {
            return Err(GameError::BeingNotFound(id));
        }
        match self.beings.remove(&id.value) {
            Some(b) => Ok(b),
            None => Err(GameError::BeingNotFound(id)),
        }
    }

    /// Puts back an actor taken out by `take_being`.
    fn put_being(&mut self, id: ID, b: Being)
        requires
            old(self).order@.no_duplicates(),
            forall|k: u64| #[trigger] old(self).beings@.contains_key(k) ==> keyed_being(k, old(self).beings@[k]@),
            forall|k: u64| #[trigger] old(self).beings@.contains_key(k) || k == id.value <==> old(self).order@.contains(k),
            forall|t: u32| #[trigger] old(self).bases@.contains_key(t) ==> old(self).bases@[t].kind == t,
            keyed_being(id.value, b@),
        ensures
            final(self).wf(),
            final(self).beings@ == old(self).beings@.insert(id.value, b),
            final(self).order@ == old(self).order@,
            final(self).bases@ == old(self).bases@,
    {
        self.beings.insert(id.value, b);
    }

    /// Applies a 3-vector change to field `f` of the live actor `id`.
    pub fn update_field3(&mut self, id: ID, f: Field, ev: &Vec3Event) -> (r: Result<(), GameError>)
        requires
            old(self).wf(),
        ensures
            final(self).wf(),
            old(self).has_being(id) ==> r is Ok && old(self).replaces(
                final(self),
                id,
                old(self).being(id).with3(f, ev.spec_apply(old(self).being(id).get3(f))),
            ),
            !old(self).has_being(id) ==> r == Err::<(), GameError>(GameError::BeingNotFound(id))
                && old(self).unchanged(final(self)),
    {
        let mut b = self.take_being(id)?;
        b.apply3(f, ev);
        self.put_being(id, b);
        assert(self.beings() =~= old(self).beings().insert(id.value, b@));
        Ok(())
    }

    /// Applies a 2-vector change to field `f` of the live actor `id`.
    pub fn update_field2(&mut self, id: ID, f: Field, ev: &Vec2Event) -> (r: Result<(), GameError>)
        requires
            old(self).wf(),
        ensures
            final(self).wf(),
            old(self).has_being(id) ==> r is Ok && old(self).replaces(
                final(self),
                id,
                old(self).being(id).with3(f, ev.spec_apply(old(self).being(id).get3(f))),
            ),
            !old(self).has_being(id) ==> r == Err::<(), GameError>(GameError::BeingNotFound(id))
                && old(self).unchanged(final(self)),
    {
        let mut b = self.take_being(id)?;
        b.apply2(f, ev);
        self.put_being(id, b);
        assert(self.beings() =~= old(self).beings().insert(id.value, b@));
        Ok(())
    }

    /// Whether `o` exists.
    pub open spec fn has_owner(&self, o: Owner) -> bool {
        match o {
            Owner::Being(id) => self.has_being(id),
            Owner::Base(t) => self.bases().contains_key(t),
        }
    }

    /// The actor or template `o`.
    pub open spec fn owner(&self, o: Owner) -> BeingView {
        match o {
            Owner::Being(id) => self.being(id),
            Owner::Base(t) => self.bases()[t],
        }
    }

    /// The drawable part at `slot` of `o`, or why there is none.
    pub open spec fn lookup_part(&self, o: Owner, slot: u32) -> Result<Entity, GameError> {
        if !self.has_owner(o) {
            match o {
                Owner::Being(id) => Err(GameError::BeingNotFound(id)),
                Owner::Base(t) => Err(GameError::BaseNotFound(t)),
            }
        } else if !self.owner(o).entities.contains_key(slot) {
            Err(GameError::EntityNotFound(slot))
        } else {
            Ok(self.owner(o).entities[slot])
        }
    }

    /// `next` is this world with the part at `slot` of `o` set to `e`.
    pub open spec fn sets_part(&self, next: &World, o: Owner, slot: u32, e: Entity) -> bool {
        &&& next.wf()
        &&& next.model() == self.model().with_part(o, slot, e)
        &&& next.order() == self.order()
        &&& match o {
            Owner::Being(id) => {
                &&& next.beings() == self.beings().insert(id.value, self.being(id).with_entity(slot, e))
                &&& next.bases() == self.bases()
            },
            Owner::Base(t) => {
                &&& next.beings() == self.beings()
                &&& next.bases() == self.bases().insert(t, self.bases()[t].with_entity(slot, e))
            },
        }
    }

    /// The drawable part at `slot` of `o`.
    pub fn get_part(&self, o: Owner, slot: u32) -> (r: Result<Entity, GameError>)
        requires
            self.wf(),
        ensures
            r == self.lookup_part(o, slot),
    {
        let owner = match o {
            Owner::Being(id) => match self.get_being(id) {
                Some(b) => b,
                None => {
                    return Err(GameError::BeingNotFound(id));
                },
            },
            Owner::Base(t) => match self.get_base(t) {
                Some(b) => b,
                None => {
                    return Err(GameError::BaseNotFound(t));
                },
            },
        };
        match owner.get_entity(slot) {
            Some(e) => Ok(e),
            None => Err(GameError::EntityNotFound(slot)),
        }
    }

    /// Sets the drawable part at `slot` of `o`, which must already exist.
    pub fn set_part(&mut self, o: Owner, slot: u32, e: Entity) -> (r: Result<(), GameError>)
        requires
            old(self).wf(),
        ensures
            final(self).wf(),
            match old(self).lookup_part(o, slot) {
                Ok(_) => r is Ok && old(self).sets_part(final(self), o, slot, e),
                Err(x) => r == Err::<(), GameError>(x) && old(self).unchanged(final(self)),
            },
    {
        match self.get_part(o, slot) {
            Err(x) => {
                return Err(x);
            },
            Ok(_) => {},
        }
        match o {
            Owner::Being(id) => {
                let mut b = match self.take_being(id) {
                    Ok(b) => b,
                    Err(x) => {
                        return Err(x);
                    },
                };
                b.set_entity(slot, e);
                self.put_being(id, b);
                assert(self.beings() =~= old(self).beings().insert(id.value, b@));
            },
            Owner::Base(t) => {
                let mut b = match self.bases.remove(&t) {
                    Some(b) => b,
                    None => {
                        return Err(GameError::BaseNotFound(t));
                    },
                };
                b.set_entity(slot, e);
                self.bases.insert(t, b);
                assert(self.bases() =~= old(self).bases().insert(t, b@));
            },
        }
        Ok(())
    }
}

} // verus!
