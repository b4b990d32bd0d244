//! The graphics-resource handles that one drawable part of an actor owns.
use vstd::prelude::*;
use crate::ids::{IDManager, IDType, ID};

verus! {

broadcast use vstd::seq_lib::group_seq_properties;

/// The kinds of resource a drawable part refers to.
#[derive(Clone, Copy, PartialEq, Eq, Structural, Hash, Debug)]
pub enum EntityIDType {
    Vertex,
    Index,
    Texture,
    DrawParameter,
    Perspective,
    View,
    Model,
}

impl EntityIDType {
    /// The identifier category that handles of this kind are issued from.
    pub open spec fn spec_id_type(self) -> IDType {
        match self {
            EntityIDType::Vertex => IDType::Vertex,
            EntityIDType::Index => IDType::Index,
            EntityIDType::Texture => IDType::Texture,
            EntityIDType::DrawParameter => IDType::DrawParameter,
            EntityIDType::Perspective => IDType::Perspective,
            EntityIDType::View => IDType::View,
            EntityIDType::Model => IDType::Model,
        }
    }

    pub fn id_type(self) -> (r: IDType)
        ensures
            r == self.spec_id_type(),
    {
        match self {
            EntityIDType::Vertex => IDType::Vertex,
            EntityIDType::Index => IDType::Index,
            EntityIDType::Texture => IDType::Texture,
            EntityIDType::DrawParameter => IDType::DrawParameter,
            EntityIDType::Perspective => IDType::Perspective,
            EntityIDType::View => IDType::View,
            EntityIDType::Model => IDType::Model,
        }
    }
}

/// The resource handles of one drawable part.
#[derive(Clone, Copy, PartialEq, Eq, Structural, Debug)]
pub struct Entity {
    pub texture_id: ID,
    pub vertex_id: ID,
    pub index_id: ID,
    pub draw_parameters_id: ID,
    pub perspective_id: ID,
    pub view_id: ID,
    pub model_id: ID,
}

/// The counter value that marks a handle as not yet wired.
pub const UNSET: u64 = 0xffff_ffff_ffff_ffff;

impl Entity {
    /// The handle of kind `t`.
    pub open spec fn spec_get(self, t: EntityIDType) -> ID {
        match t {
            EntityIDType::Vertex => self.vertex_id,
            EntityIDType::Index => self.index_id,
            EntityIDType::Texture => self.texture_id,
            EntityIDType::DrawParameter => self.draw_parameters_id,
            EntityIDType::Perspective => self.perspective_id,
            EntityIDType::View => self.view_id,
            EntityIDType::Model => self.model_id,
        }
    }

    /// This entity with the handle of kind `t` replaced by `id`.
    pub open spec fn spec_with(self, t: EntityIDType, id: ID) -> Entity {
        match t {
            EntityIDType::Vertex => Entity { vertex_id: id, ..self },
            EntityIDType::Index => Entity { index_id: id, ..self },
            EntityIDType::Texture => Entity { texture_id: id, ..self },
            EntityIDType::DrawParameter => Entity { draw_parameters_id: id, ..self },
            EntityIDType::Perspective => Entity { perspective_id: id, ..self },
            EntityIDType::View => Entity { view_id: id, ..self },
            EntityIDType::Model => Entity { model_id: id, ..self },
        }
    }

    /// An entity whose handles are all unwired.
    pub fn unset() -> (r: Entity)
        ensures
            forall|t: EntityIDType| #[trigger] r.spec_get(t) == (ID { kind: t.spec_id_type(), value: UNSET }),
    {
        Entity {
            texture_id: ID { kind: IDType::Texture, value: UNSET },
            vertex_id: ID { kind: IDType::Vertex, value: UNSET },
            index_id: ID { kind: IDType::Index, value: UNSET },
            draw_parameters_id: ID { kind: IDType::DrawParameter, value: UNSET },
            perspective_id: ID { kind: IDType::Perspective, value: UNSET },
            view_id: ID { kind: IDType::View, value: UNSET },
            model_id: ID { kind: IDType::Model, value: UNSET },
        }
    }

    /// An entity with a freshly issued handle of every kind.
    pub fn new(manager: &mut IDManager) -> (r: Entity)
        requires
            old(manager).wf(),
            forall|t: EntityIDType| #[trigger] old(manager).issued(t.spec_id_type()) < u64::MAX,
        ensures
            final(manager).wf(),
            old(manager).precedes(final(manager)),
            forall|t: EntityIDType| #[trigger] r.spec_get(t).kind == t.spec_id_type()
                && r.spec_get(t).value as nat == old(manager).issued(t.spec_id_type())
                && final(manager).issued(t.spec_id_type()) == old(manager).issued(t.spec_id_type()) + 1,
            final(manager).issued(IDType::Being) == old(manager).issued(IDType::Being),
            final(manager).issued(IDType::World) == old(manager).issued(IDType::World),
    {
        proof {
            assert(old(manager).issued(EntityIDType::Texture.spec_id_type()) < u64::MAX);
            assert(old(manager).issued(EntityIDType::Vertex.spec_id_type()) < u64::MAX);
            assert(old(manager).issued(EntityIDType::Index.spec_id_type()) < u64::MAX);
            assert(old(manager).issued(EntityIDType::DrawParameter.spec_id_type()) < u64::MAX);
            assert(old(manager).issued(EntityIDType::Perspective.spec_id_type()) < u64::MAX);
            assert(old(manager).issued(EntityIDType::View.spec_id_type()) < u64::MAX);
            assert(old(manager).issued(EntityIDType::Model.spec_id_type()) < u64::MAX);
        }
        let texture_id = ID::new(manager, IDType::Texture);
        let vertex_id = ID::new(manager, IDType::Vertex);
        let index_id = ID::new(manager, IDType::Index);
        let draw_parameters_id = ID::new(manager, IDType::DrawParameter);
        let perspective_id = ID::new(manager, IDType::Perspective);
        let view_id = ID::new(manager, IDType::View);
        let model_id = ID::new(manager, IDType::Model);
        Entity {
            texture_id,
            vertex_id,
            index_id,
            draw_parameters_id,
            perspective_id,
            view_id,
            model_id,
        }
    }

    /// A copy of `entity` that shares all of its handles.
    pub fn new_from(entity: &Entity) -> (r: Entity)
        ensures
            r == *entity,
    {
        Entity {
            texture_id: entity.texture_id,
            vertex_id: entity.vertex_id,
            index_id: entity.index_id,
            draw_parameters_id: entity.draw_parameters_id,
            perspective_id: entity.perspective_id,
            view_id: entity.view_id,
            model_id: entity.model_id,
        }
    }

    /// The handle of kind `t`.
    pub fn get(&self, t: EntityIDType) -> (r: ID)
        ensures
            r == self.spec_get(t),
    {
        match t {
            EntityIDType::Vertex => self.vertex_id,
            EntityIDType::Index => self.index_id,
            EntityIDType::Texture => self.texture_id,
            EntityIDType::DrawParameter => self.draw_parameters_id,
            EntityIDType::Perspective => self.perspective_id,
            EntityIDType::View => self.view_id,
            EntityIDType::Model => self.model_id,
        }
    }

    /// Sets the handle of kind `t` to `id`.
    pub fn set(&mut self, t: EntityIDType, id: ID)
        ensures
            *final(self) == old(self).spec_with(t, id),
    {
        match t {
            EntityIDType::Vertex => {
                self.vertex_id = id;
            },
            EntityIDType::Index => {
                self.index_id = id;
            },
            EntityIDType::Texture => {
                self.texture_id = id;
            },
            EntityIDType::DrawParameter => {
                self.draw_parameters_id = id;
            },
            EntityIDType::Perspective => {
                self.perspective_id = id;
            },
            EntityIDType::View => {
                self.view_id = id;
            },
            EntityIDType::Model => {
                self.model_id = id;
            },
        }
    }

    /// Shares the handle of kind `t` of `other`.
    pub fn use_other_id(&mut self, other: &Entity, t: EntityIDType)
        ensures
            *final(self) == old(self).spec_with(t, other.spec_get(t)),
    {
        let id = other.get(t);
        self.set(t, id);
    }

    /// Replaces the handle of kind `t` with a freshly issued one.
    pub fn use_new_id(&mut self, manager: &mut IDManager, t: EntityIDType)
        requires
            old(manager).wf(),
            old(manager).issued(t.spec_id_type()) < u64::MAX,
        ensures
            exists|v: u64|
                old(manager).issues(final(manager), t.spec_id_type(), v)
                && *final(self) == old(self).spec_with(t, ID { kind: t.spec_id_type(), value: v }),
    {
        let kind = t.id_type();
        let id = ID::new(manager, kind);
        self.set(t, id);
    }
}

impl Entity {
    /// This entity with the handles of the listed kinds taken from `other`.
    pub open spec fn spec_use_other_ids(self, other: Entity, kinds: Seq<EntityIDType>) -> Entity {
        Entity {
            texture_id: if kinds.contains(EntityIDType::Texture) { other.texture_id } else { self.texture_id },
            vertex_id: if kinds.contains(EntityIDType::Vertex) { other.vertex_id } else { self.vertex_id },
            index_id: if kinds.contains(EntityIDType::Index) { other.index_id } else { self.index_id },
            draw_parameters_id: if kinds.contains(EntityIDType::DrawParameter) {
                other.draw_parameters_id
            } else {
                self.draw_parameters_id
            },
            perspective_id: if kinds.contains(EntityIDType::Perspective) {
                other.perspective_id
            } else {
                self.perspective_id
            },
            view_id: if kinds.contains(EntityIDType::View) { other.view_id } else { self.view_id },
            model_id: if kinds.contains(EntityIDType::Model) { other.model_id } else { self.model_id },
        }
    }

    /// `next` is this entity with fresh handles, issued between the counters
    /// of `m0` and `m1`, for the listed kinds, and the others kept.
    pub open spec fn renews(self, next: Entity, kinds: Seq<EntityIDType>, m0: IDManager, m1: IDManager) -> bool {
        &&& forall|t: EntityIDType| #[trigger] next.spec_get(t) == self.spec_get(t) || kinds.contains(t)
        &&& forall|t: EntityIDType| #[trigger] kinds.contains(t) ==> {
            let id = next.spec_get(t);
            &&& id.kind == t.spec_id_type()
            &&& m0.issued(t.spec_id_type()) <= id.value
            &&& id.value < m1.issued(t.spec_id_type())
        }
    }

    /// This entity and the counters `c` after fresh handles are issued, in
    /// list order, for the listed kinds.
    pub open spec fn renew_spec(self, c: Seq<u64>, kinds: Seq<EntityIDType>) -> (Entity, Seq<u64>)
        decreases kinds.len(),
    {
        if kinds.len() == 0 {
            (self, c)
        } else {
            let (e1, c1) = self.renew_spec(c, kinds.drop_last());
            let t = kinds.last();
            let i = t.spec_id_type().index();
            (e1.spec_with(t, ID { kind: t.spec_id_type(), value: c1[i] }), c1.update(i, (c1[i] + 1) as u64))
        }
    }

    /// Shares the handles of the listed kinds of `other`.
    pub fn use_other_ids(&mut self, other: &Entity, kinds: &Vec<EntityIDType>)
        ensures
            *final(self) == old(self).spec_use_other_ids(*other, kinds@),
    {
        let mut i: usize = 0;
        while i < kinds.len()
            invariant
                0 <= i <= kinds@.len(),
                forall|t: EntityIDType| #[trigger] self.spec_get(t) == if kinds@.subrange(0, i as int).contains(t) {
                    other.spec_get(t)
                } else {
                    old(self).spec_get(t)
                },
            decreases kinds@.len() - i,
        {
            let t = kinds[i];
            let ghost prev = *self;
            self.use_other_id(other, t);
            assert(kinds@.subrange(0, i + 1) =~= kinds@.subrange(0, i as int).push(t));
            assert forall|u: EntityIDType| #[trigger] self.spec_get(u) == if kinds@.subrange(0, i + 1).contains(u) {
                other.spec_get(u)
            } else {
                old(self).spec_get(u)
            } by {
                lemma_with_get(prev, t, u, other.spec_get(t));
                lemma_push_contains(kinds@.subrange(0, i as int), t, u);
            }
            i = i + 1;
        }
        assert(kinds@.subrange(0, kinds@.len() as int) =~= kinds@);
        assert(self.spec_get(EntityIDType::Texture) == old(self).spec_use_other_ids(*other, kinds@).texture_id);
        assert(self.spec_get(EntityIDType::Vertex) == old(self).spec_use_other_ids(*other, kinds@).vertex_id);
        assert(self.spec_get(EntityIDType::Index) == old(self).spec_use_other_ids(*other, kinds@).index_id);
        assert(self.spec_get(EntityIDType::DrawParameter) == old(self).spec_use_other_ids(*other, kinds@).draw_parameters_id);
        assert(self.spec_get(EntityIDType::Perspective) == old(self).spec_use_other_ids(*other, kinds@).perspective_id);
        assert(self.spec_get(EntityIDType::View) == old(self).spec_use_other_ids(*other, kinds@).view_id);
        assert(self.spec_get(EntityIDType::Model) == old(self).spec_use_other_ids(*other, kinds@).model_id);
    }

    /// Replaces the handles of the listed kinds with freshly issued ones.
    pub fn use_new_ids(&mut self, manager: &mut IDManager, kinds: &Vec<EntityIDType>)
        requires
            old(manager).wf(),
            forall|t: EntityIDType| #[trigger] kinds@.contains(t) ==> old(manager).issued(t.spec_id_type()) + kinds@.len() <= u64::MAX,
        ensures
            final(manager).wf(),
            old(manager).precedes(final(manager)),
            forall|k: IDType| #[trigger] final(manager).issued(k) <= old(manager).issued(k) + kinds@.len(),
            final(manager).issued(IDType::Being) == old(manager).issued(IDType::Being),
            old(self).renews(*final(self), kinds@, *old(manager), *final(manager)),
            (*final(self), final(manager).counts()) == old(self).renew_spec(old(manager).counts(), kinds@),
    {
        let mut i: usize = 0;
        while i < kinds.len()
            invariant
                0 <= i <= kinds@.len(),
                manager.wf(),
                old(manager).precedes(manager),
                forall|t: EntityIDType| #[trigger] kinds@.contains(t) ==> old(manager).issued(t.spec_id_type()) + kinds@.len() <= u64::MAX,
                forall|k: IDType| #[trigger] manager.issued(k) <= old(manager).issued(k) + i,
                manager.issued(IDType::Being) == old(manager).issued(IDType::Being),
                (*self, manager.counts()) == old(self).renew_spec(old(manager).counts(), kinds@.subrange(0, i as int)),
                forall|t: EntityIDType| #[trigger] self.spec_get(t) == old(self).spec_get(t) || kinds@.subrange(0, i as int).contains(t),
                forall|t: EntityIDType| #[trigger] kinds@.subrange(0, i as int).contains(t) ==> {
                    let id = self.spec_get(t);
                    &&& id.kind == t.spec_id_type()
                    &&& old(manager).issued(t.spec_id_type()) <= id.value
                    &&& id.value < manager.issued(t.spec_id_type())
                },
            decreases kinds@.len() - i,
        {
            let t = kinds[i];
            assert(kinds@.contains(t));
            let ghost m0 = *manager;
            let ghost prev = *self;
            let kind = t.id_type();
            let id = ID::new(manager, kind);
            self.set(t, id);
            assert(kinds@.subrange(0, i + 1) =~= kinds@.subrange(0, i as int).push(t));
            assert(kinds@.subrange(0, i + 1).drop_last() =~= kinds@.subrange(0, i as int));
            assert forall|u: EntityIDType| #[trigger] self.spec_get(u) == old(self).spec_get(u)
                || kinds@.subrange(0, i + 1).contains(u) by {
                lemma_with_get(prev, t, u, self.spec_get(t));
                lemma_push_contains(kinds@.subrange(0, i as int), t, u);
            }
            assert forall|u: EntityIDType| #[trigger] kinds@.subrange(0, i + 1).contains(u) implies {
                let id = self.spec_get(u);
                &&& id.kind == u.spec_id_type()
                &&& old(manager).issued(u.spec_id_type()) <= id.value
                &&& id.value < manager.issued(u.spec_id_type())
            } by {
                lemma_with_get(prev, t, u, self.spec_get(t));
                lemma_push_contains(kinds@.subrange(0, i as int), t, u);
            }
            assert forall|k: IDType| #[trigger] old(manager).issued(k) <= manager.issued(k) by {
                assert(old(manager).issued(k) <= m0.issued(k));
            }
            i = i + 1;
        }
        assert(kinds@.subrange(0, kinds@.len() as int) =~= kinds@);
    }
}

proof fn lemma_push_contains(s: Seq<EntityIDType>, t: EntityIDType, u: EntityIDType)
    ensures
        s.push(t).contains(u) <==> (s.contains(u) || u == t),
{
    if s.push(t).contains(u) && u != t {
        let n = choose|n: int| 0 <= n < s.len() + 1 && s.push(t)[n] == u;
        assert(s[n] == u);
    }
    if s.contains(u) {
        let n = choose|n: int| 0 <= n < s.len() && s[n] == u;
        assert(s.push(t)[n] == u);
    }
    if u == t {
        assert(s.push(t)[s.len() as int] == u);
    }
}

/// Reading back a handle that was just written gives the written value, and
/// the other handles are untouched.
proof fn lemma_with_get(e: Entity, t: EntityIDType, u: EntityIDType, id: ID)
    ensures
        e.spec_with(t, id).spec_get(u) == if u == t { id } else { e.spec_get(u) },
{
}

} // verus!
