//! The scheduler: applies ranked events to the world, re-expands what spawns
//! produce until nothing new comes, and runs the post-tick family after.
use vstd::prelude::*;
use crate::being::{Being, BeingArgs, BeingView, Field, Vec3};
use crate::entity::{Entity, EntityIDType};
use crate::events::{
    get_rank_tick, get_rank_tick_after, EntityGraphicsEvent, EntityIDEvent, RenderCommand, TickAfterEvent,
    TickEvent, TransformEvent, WorldEvent,
};
use crate::ids::{IDManager, IDType, ID};
use crate::rank_queue::{asc_schedule, bucket_of, desc_schedule, popped, RankQueue};
use crate::world::{GameError, Owner, World, WorldView};

verus! {

/// The tick events of `s`, in order.
pub open spec fn tick_part<P>(s: Seq<WorldEvent<P>>) -> Seq<TickEvent<P>> {
    s.filter_map(|w: WorldEvent<P>| match w {
        WorldEvent::Tick(e) => Some(e),
        WorldEvent::TickAfter(_) => None,
    })
}

/// The post-tick events of `s`, in order.
pub open spec fn after_part<P>(s: Seq<WorldEvent<P>>) -> Seq<TickAfterEvent<P>> {
    s.filter_map(|w: WorldEvent<P>| match w {
        WorldEvent::Tick(_) => None,
        WorldEvent::TickAfter(e) => Some(e),
    })
}

/// Splits a batch into its two families; each comes out in popped order.
pub fn split_events<P>(events: Vec<WorldEvent<P>>) -> (r: (Vec<TickEvent<P>>, Vec<TickAfterEvent<P>>))
    ensures
        r.0@ == tick_part(popped(events@)),
        r.1@ == after_part(popped(events@)),
{
    let ghost orig = events@;
    let mut events = events;
    let mut tick: Vec<TickEvent<P>> = Vec::new();
    let mut after: Vec<TickAfterEvent<P>> = Vec::new();
    let ghost mut k: int = 0;
    while events.len() > 0
        invariant
            0 <= k <= orig.len(),
            events@ == orig.subrange(0, orig.len() - k),
            tick@ == tick_part(popped(orig).subrange(0, k)),
            after@ == after_part(popped(orig).subrange(0, k)),
        decreases events@.len(),
    {
        let w = events.pop().unwrap();
        proof {
            assert(w == popped(orig)[k]);
            assert(popped(orig).subrange(0, k + 1).drop_last() =~= popped(orig).subrange(0, k));
        }
        match w {
            WorldEvent::Tick(e) => tick.push(e),
            WorldEvent::TickAfter(e) => after.push(e),
        }
        proof {
            k = k + 1;
            assert(events@ =~= orig.subrange(0, orig.len() - k));
        }
    }
    assert(popped(orig).subrange(0, k) =~= popped(orig));
    (tick, after)
}

/// The live actors after the kinematic event `e` is applied to `beings`;
/// other events, and events for an identifier that is not live, leave them
/// as they are.
pub open spec fn kinematic_after<P>(beings: Map<u64, BeingView>, e: TickEvent<P>) -> Map<u64, BeingView> {
    match e.field3() {
        Some((id, f, ev)) => if id.kind == IDType::Being && beings.contains_key(id.value) {
            beings.insert(id.value, beings[id.value].with3(f, ev.spec_apply(beings[id.value].get3(f))))
        } else {
            beings
        },
        None => match e.field2() {
            Some((id, f, ev)) => if id.kind == IDType::Being && beings.contains_key(id.value) {
                beings.insert(id.value, beings[id.value].with3(f, ev.spec_apply(beings[id.value].get3(f))))
            } else {
                beings
            },
            None => beings,
        },
    }
}

/// The actor a kinematic event targets.
pub open spec fn kinematic_target<P>(e: TickEvent<P>) -> Option<ID> {
    match e.field3() {
        Some((id, _, _)) => Some(id),
        None => match e.field2() {
            Some((id, _, _)) => Some(id),
            None => None,
        },
    }
}

/// Two kinematic events of one rank that target different actors give the
/// same world in either order: running them concurrently cannot lose an
/// update.
pub proof fn lemma_disjoint_commute<P>(beings: Map<u64, BeingView>, a: TickEvent<P>, b: TickEvent<P>)
    requires
        kinematic_target(a) is Some,
        kinematic_target(b) is Some,
        kinematic_target(a)->0.value != kinematic_target(b)->0.value,
    ensures
        kinematic_after(kinematic_after(beings, a), b) == kinematic_after(kinematic_after(beings, b), a),
{
    let ab = kinematic_after(kinematic_after(beings, a), b);
    let ba = kinematic_after(kinematic_after(beings, b), a);
    assert(ab =~= ba);
}

/// When the bucket holding a spawn is taken, no template-creation event is
/// pending any more: every template asked for in the same pass already
/// exists when an instance is spawned.
pub proof fn lemma_templates_before_spawns<P>(
    q0: RankQueue<TickEvent<P>>,
    q1: RankQueue<TickEvent<P>>,
    r: u32,
    b: Seq<TickEvent<P>>,
    i: int,
)
    requires
        q0.wf(),
        Game::<P>::ranked(q0),
        q0.takes_highest(&q1, r, b),
        0 <= i < b.len(),
        b[i] is NewBeing,
    ensures
        forall|r2: u32, j: int| 0 <= j < q1.bucket(r2).len() ==> !(#[trigger] q1.bucket(r2)[j] is NewBase),
        forall|j: int| 0 <= j < b.len() ==> !(#[trigger] b[j] is NewBase),
{
    assert(b[i].rank() == r);
    assert forall|r2: u32, j: int| 0 <= j < q1.bucket(r2).len() implies !(#[trigger] q1.bucket(r2)[j] is NewBase) by {
        if q1.bucket(r2)[j] is NewBase {
            assert(q1.buckets().contains_key(r2));
            assert(r2 != r);
            assert(q0.bucket(r2) == q1.bucket(r2));
            assert(q0.bucket(r2)[j].rank() == r2);
            crate::rank_queue::lemma_bucket_active(q0, r2);
        }
    }
    assert forall|j: int| 0 <= j < b.len() implies !(#[trigger] b[j] is NewBase) by {
        assert(b[j].rank() == r);
    }
}

/// When the bucket holding a graphics update is taken, no destruction is
/// pending any more: an actor destroyed in this post-tick phase is gone
/// before any graphics update is applied.
pub proof fn lemma_destroy_before_flush<P>(
    q0: RankQueue<TickAfterEvent<P>>,
    q1: RankQueue<TickAfterEvent<P>>,
    r: u32,
    b: Seq<TickAfterEvent<P>>,
    i: int,
)
    requires
        q0.wf(),
        Game::<P>::ranked_after(q0),
        q0.takes_lowest(&q1, r, b),
        0 <= i < b.len(),
        !(b[i] is EndBeing),
    ensures
        forall|r2: u32, j: int| 0 <= j < q1.bucket(r2).len() ==> !(#[trigger] q1.bucket(r2)[j] is EndBeing),
        forall|j: int| 0 <= j < b.len() ==> !(#[trigger] b[j] is EndBeing),
{
    assert(b[i].rank() == r);
    assert forall|r2: u32, j: int| 0 <= j < q1.bucket(r2).len() implies !(#[trigger] q1.bucket(r2)[j] is EndBeing) by {
        if q1.bucket(r2)[j] is EndBeing {
            assert(q1.buckets().contains_key(r2));
            assert(r2 != r);
            assert(q0.bucket(r2) == q1.bucket(r2));
            assert(q0.bucket(r2)[j].rank() == r2);
            crate::rank_queue::lemma_bucket_active(q0, r2);
        }
    }
    assert forall|j: int| 0 <= j < b.len() implies !(#[trigger] b[j] is EndBeing) by {
        assert(b[j].rank() == r);
    }
}

/// No tick event of `s` creates an actor or a template.
pub open spec fn spawn_free<P>(s: Seq<WorldEvent<P>>) -> bool {
    forall|w: WorldEvent<P>| #[trigger] s.contains(w) && w is Tick ==> !w->Tick_0.is_spawn()
}

/// Whatever the tick part of a spawn-free batch holds is no spawn.
proof fn lemma_spawn_free_part<P>(s: Seq<WorldEvent<P>>, e: TickEvent<P>)
    requires
        spawn_free(s),
        popped(tick_part(popped(s))).contains(e),
    ensures
        !e.is_spawn(),
{
    let t = tick_part(popped(s));
    let i = choose|i: int| 0 <= i < popped(t).len() && popped(t)[i] == e;
    assert(t.contains(e)) by {
        assert(t[t.len() - 1 - i] == e);
    }
    let f = |w: WorldEvent<P>| match w {
        WorldEvent::Tick(e) => Some(e),
        WorldEvent::TickAfter(_) => None,
    };
    popped(s).lemma_filter_map_contains(f, e);
    let w = choose|w: WorldEvent<P>| #[trigger] popped(s).contains(w) && f(w) == Some(e);
    let j = choose|j: int| 0 <= j < popped(s).len() && popped(s)[j] == w;
    assert(s[s.len() - 1 - j] == w);
    assert(s.contains(w));
}

/// The events a pass applies (see `run_pass`) come highest rank first; in
/// particular no spawn comes before a template creation, so a template
/// asked for in the same pass exists when its instances are spawned.
pub proof fn lemma_pass_order<P>(q: RankQueue<TickEvent<P>>)
    requires
        q.wf(),
        Game::<P>::ranked(q),
    ensures
        forall|i: int, j: int|
            0 <= i < j < desc_schedule(q.buckets(), u32::MAX as int).len() ==> (#[trigger] desc_schedule(
                q.buckets(),
                u32::MAX as int,
            )[i]).rank() >= (#[trigger] desc_schedule(q.buckets(), u32::MAX as int)[j]).rank(),
        forall|i: int, j: int|
            0 <= i < j < desc_schedule(q.buckets(), u32::MAX as int).len() ==> !((#[trigger] desc_schedule(
                q.buckets(),
                u32::MAX as int,
            )[i]) is NewBeing && (#[trigger] desc_schedule(q.buckets(), u32::MAX as int)[j]) is NewBase),
{
    let m = q.buckets();
    assert forall|k: u32, n: int| m.contains_key(k) && 0 <= n < m[k].len() implies (#[trigger] m[k][n]).rank() == k by {
        assert(q.bucket(k)[n] == m[k][n]);
    }
    crate::rank_queue::lemma_desc_sorted(m, |e: TickEvent<P>| e.rank(), u32::MAX as int);
}

/// The post-tick events are applied lowest rank first (see
/// `execute_tick_after_events`); in particular no graphics update comes
/// before a destruction.
pub proof fn lemma_post_tick_order<P>(q: RankQueue<TickAfterEvent<P>>)
    requires
        q.wf(),
        Game::<P>::ranked_after(q),
    ensures
        forall|i: int, j: int|
            0 <= i < j < asc_schedule(q.buckets(), 0).len() ==> (#[trigger] asc_schedule(q.buckets(), 0)[i]).rank()
                <= (#[trigger] asc_schedule(q.buckets(), 0)[j]).rank(),
        forall|i: int, j: int|
            0 <= i < j < asc_schedule(q.buckets(), 0).len() ==> !(!((#[trigger] asc_schedule(q.buckets(), 0)[i]) is EndBeing)
                && (#[trigger] asc_schedule(q.buckets(), 0)[j]) is EndBeing),
{
    let m = q.buckets();
    assert forall|k: u32, n: int| m.contains_key(k) && 0 <= n < m[k].len() implies (#[trigger] m[k][n]).rank() == k by {
        assert(q.bucket(k)[n] == m[k][n]);
    }
    crate::rank_queue::lemma_asc_sorted(m, |e: TickAfterEvent<P>| e.rank(), 0);
}

/// `s` holds a destruction of `id`.
pub open spec fn ends_in<P>(s: Seq<TickAfterEvent<P>>, id: ID) -> bool {
    exists|i: int| 0 <= i < s.len() && (#[trigger] s[i]) is EndBeing && s[i]->EndBeing_0 == id
}

/// A destruction of `id` is pending in `q`.
pub open spec fn pending_end<P>(q: RankQueue<TickAfterEvent<P>>, id: ID) -> bool {
    exists|r: u32| #[trigger] ends_in(q.bucket(r), id)
}

/// The user's catalog of actor types: how each type builds its template and
/// its instances, and what its actors propose each tick.
pub trait BeingType<P> {
    /// Builds an instance of `being_type` named `id`, from the type's
    /// template `base`, and the events that wire it up. The scheduler files
    /// it under `id` and `being_type` whatever the returned actor says.
    fn make_being(&self, id: ID, being_type: u32, base: &Being, args: &BeingArgs, world: &World) -> (Being, Vec<
        WorldEvent<P>,
    >);

    /// Builds the template of `being_type`, named `id`, and the events that
    /// give it its resources.
    fn make_base(&self, id: ID, being_type: u32, world: &World) -> (Being, Vec<WorldEvent<P>>);

    /// The changes `being` proposes for this tick, from the settled world.
    fn tick(&self, being: &Being, world: &World) -> Vec<TickEvent<P>>;

    /// The destruction and graphics updates `being` asks for once the tick
    /// has settled.
    fn tick_after(&self, being: &Being, world: &World) -> Vec<TickAfterEvent<P>>;
}

/// What the catalog handed back for one spawn: the actor it built (before
/// the scheduler files it under its identifier and type) and the events it
/// asked for.
pub ghost struct Built<P> {
    pub being: BeingView,
    pub events: Seq<WorldEvent<P>>,
}

/// A catalog result that stands where no catalog call is made.
pub open spec fn any_built<P>() -> Built<P> {
    let z = Vec3 { x: 0, y: 0, z: 0 };
    Built {
        being: BeingView {
            id: ID { kind: IDType::Being, value: 0 },
            kind: 0,
            entities: Map::empty(),
            sca: z,
            rot: z,
            pos: z,
            vel: z,
            acc: z,
        },
        events: Seq::empty(),
    }
}

/// The parts of `parts`, one after another.
pub open spec fn concat<T>(parts: Seq<Seq<T>>) -> Seq<T>
    decreases parts.len(),
{
    if parts.len() == 0 {
        Seq::empty()
    } else {
        concat(parts.drop_last()) + parts.last()
    }
}

/// The state a settle works on: the world, the allocator's counters, the
/// follow-up events asked for, the renderer updates and the errors of
/// skipped events.
pub ghost struct Settle<P> {
    pub world: WorldView,
    pub counts: Seq<u64>,
    pub out: Seq<WorldEvent<P>>,
    pub commands: Seq<RenderCommand<P>>,
    pub errors: Seq<GameError>,
}

/// An effect that changes the world and counters and adds nothing else.
pub open spec fn quiet<P>(world: WorldView, counts: Seq<u64>) -> Settle<P> {
    Settle { world, counts, out: Seq::empty(), commands: Seq::empty(), errors: Seq::empty() }
}

/// An effect that changes nothing and records the error `x`.
pub open spec fn fail<P>(world: WorldView, counts: Seq<u64>, x: GameError) -> Settle<P> {
    Settle { world, counts, out: Seq::empty(), commands: Seq::empty(), errors: seq![x] }
}

/// The first listed kind of which fewer than `n` identifiers are left.
pub open spec fn first_short(c: Seq<u64>, kinds: Seq<EntityIDType>, n: nat) -> Option<EntityIDType>
    decreases kinds.len(),
{
    if kinds.len() == 0 {
        None
    } else if c[kinds[0].spec_id_type().index()] + n > u64::MAX {
        Some(kinds[0])
    } else {
        first_short(c, kinds.drop_first(), n)
    }
}

/// What rewiring the part at `slot` of `o` as `ev` does.
pub open spec fn rewire_effect<P>(w: WorldView, c: Seq<u64>, o: Owner, slot: u32, ev: EntityIDEvent) -> Settle<P> {
    match w.lookup_part(o, slot) {
        Err(x) => fail(w, c, x),
        Ok(e) => match ev {
            EntityIDEvent::UseNewID(kinds) => match first_short(c, kinds@, kinds@.len()) {
                Some(t) => fail(w, c, GameError::IDsExhausted(t.spec_id_type())),
                None => quiet(w.with_part(o, slot, e.renew_spec(c, kinds@).0), e.renew_spec(c, kinds@).1),
            },
            EntityIDEvent::UseOldID(src, src_slot, kinds) => match w.lookup_part(Owner::Being(src), src_slot) {
                Err(x) => fail(w, c, x),
                Ok(sp) => quiet(w.with_part(o, slot, e.spec_use_other_ids(sp, kinds@)), c),
            },
            EntityIDEvent::UseBaseID(t, src_slot, kinds) => match w.lookup_part(Owner::Base(t), src_slot) {
                Err(x) => fail(w, c, x),
                Ok(sp) => quiet(w.with_part(o, slot, e.spec_use_other_ids(sp, kinds@)), c),
            },
        },
    }
}

/// What setting field `f` of actor `id` to `v` does.
pub open spec fn field_effect_of<P>(w: WorldView, c: Seq<u64>, id: ID, f: Field, v: Vec3) -> Settle<P> {
    if w.has_being(id) {
        quiet(w.with_being(id.value, w.beings[id.value].with3(f, v)), c)
    } else {
        fail(w, c, GameError::BeingNotFound(id))
    }
}

/// The renderer update a transform of the part `e` makes.
pub open spec fn transform_command<P>(e: Entity, ev: TransformEvent<P>) -> RenderCommand<P> {
    match ev {
        TransformEvent::Perspective(p) => RenderCommand { kind: EntityIDType::Perspective, resource: e.perspective_id, payload: p },
        TransformEvent::View(p) => RenderCommand { kind: EntityIDType::View, resource: e.view_id, payload: p },
        TransformEvent::Model(p) => RenderCommand { kind: EntityIDType::Model, resource: e.model_id, payload: p },
    }
}

/// The renderer update a graphics event for the part `e` makes.
pub open spec fn graphics_command<P>(e: Entity, ev: EntityGraphicsEvent<P>) -> RenderCommand<P> {
    match ev {
        EntityGraphicsEvent::Vertices(p) => RenderCommand { kind: EntityIDType::Vertex, resource: e.vertex_id, payload: p },
        EntityGraphicsEvent::Indices(p) => RenderCommand { kind: EntityIDType::Index, resource: e.index_id, payload: p },
        EntityGraphicsEvent::Texture(p) => RenderCommand { kind: EntityIDType::Texture, resource: e.texture_id, payload: p },
        EntityGraphicsEvent::DrawMethod(p) => RenderCommand {
            kind: EntityIDType::DrawParameter,
            resource: e.draw_parameters_id,
            payload: p,
        },
    }
}

/// What queueing a renderer update for the part at `slot` of `o` does.
pub open spec fn command_effect<P>(w: WorldView, c: Seq<u64>, o: Owner, slot: u32, cmd: spec_fn(Entity) -> RenderCommand<P>) -> Settle<P> {
    match w.lookup_part(o, slot) {
        Err(x) => fail(w, c, x),
        Ok(e) => Settle { world: w, counts: c, out: Seq::empty(), commands: seq![cmd(e)], errors: Seq::empty() },
    }
}

/// What applying the tick event `e` to world `w` with counters `c` does,
/// where a spawn's catalog call hands back `made`.
pub open spec fn step_effect<P>(w: WorldView, c: Seq<u64>, made: Built<P>, e: TickEvent<P>) -> Settle<P> {
    let b = IDType::Being.index();
    match e {
        TickEvent::NewBeing(t, args) => if !w.bases.contains_key(t) {
            fail(w, c, GameError::BaseNotFound(t))
        } else if c[b] == u64::MAX {
            fail(w, c, GameError::IDsExhausted(IDType::Being))
        } else {
            let id = ID { kind: IDType::Being, value: c[b] };
            Settle {
                world: w.added(BeingView { id, kind: t, ..made.being }),
                counts: c.update(b, (c[b] + 1) as u64),
                out: made.events,
                commands: Seq::empty(),
                errors: Seq::empty(),
            }
        },
        TickEvent::NewBase(t) => if c[b] == u64::MAX {
            fail(w, c, GameError::IDsExhausted(IDType::Being))
        } else {
            let id = ID { kind: IDType::Being, value: c[b] };
            Settle {
                world: w.with_base(t, BeingView { id, kind: t, ..made.being }),
                counts: c.update(b, (c[b] + 1) as u64),
                out: made.events,
                commands: Seq::empty(),
                errors: Seq::empty(),
            }
        },
        TickEvent::EntityID(id, slot, ev) => rewire_effect(w, c, Owner::Being(id), slot, ev),
        TickEvent::EntityIDBase(t, slot, ev) => rewire_effect(w, c, Owner::Base(t), slot, ev),
        TickEvent::Transform(id, slot, ev) => command_effect(w, c, Owner::Being(id), slot, |e: Entity| transform_command(e, ev)),
        TickEvent::TransformBase(t, slot, ev) => command_effect(w, c, Owner::Base(t), slot, |e: Entity| transform_command(e, ev)),
        _ => match e.field3() {
            Some((id, f, ev)) => field_effect_of(w, c, id, f, ev.spec_apply(w.beings[id.value].get3(f))),
            None => match e.field2() {
                Some((id, f, ev)) => field_effect_of(w, c, id, f, ev.spec_apply(w.beings[id.value].get3(f))),
                None => quiet(w, c),
            },
        },
    }
}

/// The tick buckets `m` with the events `es` filed by rank, in popped order.
pub open spec fn expand_ticks<P>(m: Map<u32, Seq<TickEvent<P>>>, es: Seq<TickEvent<P>>) -> Map<u32, Seq<TickEvent<P>>> {
    Map::new(
        |r: u32| bucket_of(m, r).len() + popped(es).filter(|e: TickEvent<P>| e.rank() == r).len() > 0,
        |r: u32| bucket_of(m, r) + popped(es).filter(|e: TickEvent<P>| e.rank() == r),
    )
}

/// The post-tick buckets `m` with the events `es` filed by rank, in popped
/// order.
pub open spec fn expand_afters<P>(m: Map<u32, Seq<TickAfterEvent<P>>>, es: Seq<TickAfterEvent<P>>) -> Map<
    u32,
    Seq<TickAfterEvent<P>>,
> {
    Map::new(
        |r: u32| bucket_of(m, r).len() + popped(es).filter(|e: TickAfterEvent<P>| e.rank() == r).len() > 0,
        |r: u32| bucket_of(m, r) + popped(es).filter(|e: TickAfterEvent<P>| e.rank() == r),
    )
}

/// The highest rank that holds a bucket.
pub open spec fn top_key<E>(m: Map<u32, Seq<E>>) -> u32 {
    choose|r: u32| m.contains_key(r) && forall|k: u32| #[trigger] m.contains_key(k) ==> k <= r
}

/// Where a settle ends: its state, both families' buckets, and its result.
pub ghost struct SettleRun<P> {
    pub s: Settle<P>,
    pub ticks: Map<u32, Seq<TickEvent<P>>>,
    pub afters: Map<u32, Seq<TickAfterEvent<P>>>,
    pub result: Result<u32, GameError>,
}

/// Settling from state `s` with the given buckets after `passes` passes:
/// while tick events are pending, a pass runs (see `run_events` over
/// `desc_schedule`), and the events it asked for are filed, tick events for
/// the next pass and post-tick events for later; pass `p` hands back
/// `made[p]` from the catalog. Reaching `max` passes with events pending
/// fails with the highest pending rank.
pub open spec fn settle_from<P>(
    s: Settle<P>,
    ticks: Map<u32, Seq<TickEvent<P>>>,
    afters: Map<u32, Seq<TickAfterEvent<P>>>,
    passes: nat,
    max: nat,
    made: Seq<Seq<Built<P>>>,
) -> SettleRun<P>
    decreases max - passes,
{
    if ticks == Map::<u32, Seq<TickEvent<P>>>::empty() {
        SettleRun { s, ticks, afters, result: Ok(passes as u32) }
    } else if passes >= max {
        SettleRun { s, ticks, afters, result: Err(GameError::TooManyPasses(top_key(ticks))) }
    } else {
        let s1 = run_events(Settle { out: Seq::empty(), ..s }, desc_schedule(ticks, u32::MAX as int), made[passes as int]);
        settle_from(
            Settle { out: Seq::empty(), ..s1 },
            expand_ticks(Map::empty(), tick_part(popped(s1.out))),
            expand_afters(afters, after_part(popped(s1.out))),
            passes + 1,
            max,
            made,
        )
    }
}

/// What applying the post-tick event `e` to world `w` does.
pub open spec fn after_effect<P>(w: WorldView, c: Seq<u64>, e: TickAfterEvent<P>) -> Settle<P> {
    match e {
        TickAfterEvent::EndBeing(id) => if w.has_being(id) {
            quiet(w.removed(id.value), c)
        } else {
            fail(w, c, GameError::BeingNotFound(id))
        },
        TickAfterEvent::Entity(id, slot, ev) => command_effect(w, c, Owner::Being(id), slot, |e: Entity| graphics_command(e, ev)),
        TickAfterEvent::EntityBase(t, slot, ev) => command_effect(w, c, Owner::Base(t), slot, |e: Entity| graphics_command(e, ev)),
    }
}

/// `s` after the post-tick event `e`.
pub open spec fn after_step<P>(s: Settle<P>, e: TickAfterEvent<P>) -> Settle<P> {
    let d = after_effect(s.world, s.counts, e);
    Settle {
        world: d.world,
        counts: d.counts,
        out: s.out + d.out,
        commands: s.commands + d.commands,
        errors: s.errors + d.errors,
    }
}

/// `s` after the post-tick events `es`, in order.
pub open spec fn run_afters<P>(s: Settle<P>, es: Seq<TickAfterEvent<P>>) -> Settle<P>
    decreases es.len(),
{
    if es.len() == 0 {
        s
    } else {
        after_step(run_afters(s, es.drop_last()), es.last())
    }
}

/// `s` after the post-tick phase over the buckets `m`: lowest rank first,
/// each bucket in popped order.
pub open spec fn after_result<P>(s: Settle<P>, m: Map<u32, Seq<TickAfterEvent<P>>>) -> Settle<P> {
    run_afters(s, asc_schedule(m, 0))
}

/// Where the post-tick phase that follows the settle `run` ends, once the
/// post-tick events `asked` are added to its buckets.
pub open spec fn finish<P>(run: SettleRun<P>, asked: Seq<TickAfterEvent<P>>) -> Settle<P> {
    after_result(run.s, expand_afters(run.afters, asked))
}

/// `s` after the tick event `e`, whose catalog call (if any) hands back
/// `made`.
pub open spec fn tick_step<P>(s: Settle<P>, e: TickEvent<P>, made: Built<P>) -> Settle<P> {
    let d = step_effect(s.world, s.counts, made, e);
    Settle {
        world: d.world,
        counts: d.counts,
        out: s.out + d.out,
        commands: s.commands + d.commands,
        errors: s.errors + d.errors,
    }
}

/// `s` after the tick events `es`, in order, the `i`-th handing back
/// `made[i]` where it calls the catalog.
pub open spec fn run_events<P>(s: Settle<P>, es: Seq<TickEvent<P>>, made: Seq<Built<P>>) -> Settle<P>
    decreases es.len(),
{
    if es.len() == 0 {
        s
    } else {
        tick_step(run_events(s, es.drop_last(), made.drop_last()), es.last(), made.last())
    }
}

/// The world, the identifier allocator and the pending events of both
/// families.
pub struct Game<P> {
    world: World,
    manager: IDManager,
    tick_events: RankQueue<TickEvent<P>>,
    tick_after_events: RankQueue<TickAfterEvent<P>>,
    max_passes: u32,
}

impl<P> Game<P> {
    pub closed spec fn spec_world(&self) -> World {
        self.world
    }

    pub closed spec fn spec_manager(&self) -> IDManager {
        self.manager
    }

    pub closed spec fn spec_tick_events(&self) -> RankQueue<TickEvent<P>> {
        self.tick_events
    }

    pub closed spec fn spec_tick_after_events(&self) -> RankQueue<TickAfterEvent<P>> {
        self.tick_after_events
    }

    /// How many expand-and-execute passes one settle may take.
    pub closed spec fn spec_max_passes(&self) -> u32 {
        self.max_passes
    }

    /// Every live identifier was issued by the allocator.
    pub open spec fn ids_issued(w: World, m: IDManager) -> bool {
        forall|k: u64| #[trigger] w.beings().contains_key(k) ==> m.has_issued(IDType::Being, k)
    }

    /// Every pending tick event sits in the bucket of its own rank.
    pub open spec fn ranked(q: RankQueue<TickEvent<P>>) -> bool {
        forall|r: u32, i: int| 0 <= i < q.bucket(r).len() ==> (#[trigger] q.bucket(r)[i]).rank() == r
    }

    /// Every pending post-tick event sits in the bucket of its own rank.
    pub open spec fn ranked_after(q: RankQueue<TickAfterEvent<P>>) -> bool {
        forall|r: u32, i: int| 0 <= i < q.bucket(r).len() ==> (#[trigger] q.bucket(r)[i]).rank() == r
    }

    pub open spec fn wf(&self) -> bool {
        &&& Self::ranked(self.spec_tick_events())
        &&& Self::ranked_after(self.spec_tick_after_events())
        &&& self.spec_world().wf()
        &&& self.spec_manager().wf()
        &&& self.spec_tick_events().wf()
        &&& self.spec_tick_after_events().wf()
        &&& Self::ids_issued(self.spec_world(), self.spec_manager())
    }

    /// `next` differs from this game at most in its world and allocator.
    pub open spec fn same_queues(&self, next: &Game<P>) -> bool {
        &&& next.spec_tick_events() == self.spec_tick_events()
        &&& next.spec_tick_after_events() == self.spec_tick_after_events()
        &&& next.spec_max_passes() == self.spec_max_passes()
    }

    /// A game with an empty world, a fresh allocator and nothing pending.
    pub fn new(max_passes: u32) -> (r: Game<P>)
        ensures
            r.wf(),
            r.spec_world().beings() == Map::<u64, BeingView>::empty(),
            r.spec_world().bases() == Map::<u32, BeingView>::empty(),
            forall|k: IDType| r.spec_manager().issued(k) == 0,
            r.spec_tick_events().spec_is_empty(),
            r.spec_tick_after_events().spec_is_empty(),
            r.spec_max_passes() == max_passes,
    {
        Game {
            world: World::new(),
            manager: IDManager::new(),
            tick_events: RankQueue::new(),
            tick_after_events: RankQueue::new(),
            max_passes,
        }
    }

    pub fn world(&self) -> (r: &World)
        ensures
            *r == self.spec_world(),
    {
        &self.world
    }

    pub fn manager(&self) -> (r: &IDManager)
        ensures
            *r == self.spec_manager(),
    {
        &self.manager
    }

    pub fn tick_events(&self) -> (r: &RankQueue<TickEvent<P>>)
        ensures
            *r == self.spec_tick_events(),
    {
        &self.tick_events
    }

    pub fn tick_after_events(&self) -> (r: &RankQueue<TickAfterEvent<P>>)
        ensures
            *r == self.spec_tick_after_events(),
    {
        &self.tick_after_events
    }

    /// `g1`, with outputs `out1` and `cmd1` and the errors `errs`, is what
    /// the tick event `e` makes of `g0` with outputs `out0` and `cmd0`, where
    /// a catalog call hands back `made`.
    pub open spec fn steps(
        g0: Game<P>,
        g1: Game<P>,
        e: TickEvent<P>,
        made: Built<P>,
        out0: Seq<WorldEvent<P>>,
        out1: Seq<WorldEvent<P>>,
        cmd0: Seq<RenderCommand<P>>,
        cmd1: Seq<RenderCommand<P>>,
        errs: Seq<GameError>,
    ) -> bool {
        let d = step_effect(g0.spec_world().model(), g0.spec_manager().counts(), made, e);
        &&& g1.spec_world().model() == d.world
        &&& g1.spec_manager().counts() == d.counts
        &&& out1 == out0 + d.out
        &&& cmd1 == cmd0 + d.commands
        &&& errs == d.errors
    }

    /// The errors a result reports.
    pub open spec fn err_seq<T>(r: Result<T, GameError>) -> Seq<GameError> {
        match r {
            Ok(_) => Seq::empty(),
            Err(x) => seq![x],
        }
    }

    /// The events a spawn's result hands back.
    pub open spec fn ok_events(r: Result<Vec<WorldEvent<P>>, GameError>) -> Seq<WorldEvent<P>> {
        match r {
            Ok(v) => v@,
            Err(_) => Seq::empty(),
        }
    }

    /// Files a freshly built actor under `id` and `being_type`.
    pub fn add_spawned(&mut self, id: ID, being_type: u32, being: Being)
        requires
            old(self).wf(),
            id.kind == IDType::Being,
            old(self).spec_manager().has_issued(IDType::Being, id.value),
        ensures
            final(self).wf(),
            old(self).same_queues(final(self)),
            final(self).spec_manager() == old(self).spec_manager(),
            final(self).spec_world().bases() == old(self).spec_world().bases(),
            final(self).spec_world().beings() == old(self).spec_world().beings().insert(
                id.value,
                BeingView { id, kind: being_type, ..being@ },
            ),
            final(self).spec_world().model() == old(self).spec_world().model().added(
                BeingView { id, kind: being_type, ..being@ },
            ),
    {
        let mut being = being;
        being.id = id;
        being.kind = being_type;
        self.world.add_being(being);
    }

    /// Installs a freshly built template for `being_type`.
    pub fn add_spawned_base(&mut self, id: ID, being_type: u32, base: Being)
        requires
            old(self).wf(),
        ensures
            final(self).wf(),
            old(self).same_queues(final(self)),
            final(self).spec_manager() == old(self).spec_manager(),
            final(self).spec_world().beings() == old(self).spec_world().beings(),
            final(self).spec_world().order() == old(self).spec_world().order(),
            final(self).spec_world().bases() == old(self).spec_world().bases().insert(
                being_type,
                BeingView { id, kind: being_type, ..base@ },
            ),
            final(self).spec_world().model() == old(self).spec_world().model().with_base(
                being_type,
                BeingView { id, kind: being_type, ..base@ },
            ),
    {
        let mut base = base;
        base.id = id;
        base.kind = being_type;
        self.world.set_base(being_type, base);
    }

    /// Spawns an instance of `being_type` from its template; returns the
    /// events that the catalog asks for to wire it up.
    pub fn spawn_being<C: BeingType<P>>(&mut self, catalog: &C, being_type: u32, args: &BeingArgs) -> (r: Result<
        Vec<WorldEvent<P>>,
        GameError,
    >)
        requires
            old(self).wf(),
        ensures
            final(self).wf(),
            old(self).same_queues(final(self)),
            exists|made: Built<P>|
                Self::steps(
                    *old(self),
                    *final(self),
                    TickEvent::NewBeing(being_type, *args),
                    made,
                    Seq::empty(),
                    Self::ok_events(r),
                    Seq::empty(),
                    Seq::empty(),
                    Self::err_seq(r),
                ),
            old(self).spec_manager().precedes(&final(self).spec_manager()),
            !old(self).spec_world().bases().contains_key(being_type) ==> r == Err::<Vec<WorldEvent<P>>, GameError>(
                GameError::BaseNotFound(being_type),
            ),
            old(self).spec_world().bases().contains_key(being_type) && old(self).spec_manager().issued(
                IDType::Being,
            ) == u64::MAX ==> r == Err::<Vec<WorldEvent<P>>, GameError>(GameError::IDsExhausted(IDType::Being)),
            old(self).spec_world().bases().contains_key(being_type) && old(self).spec_manager().issued(IDType::Being)
                < u64::MAX ==> r is Ok,
            r is Err ==> final(self).spec_world().beings() == old(self).spec_world().beings()
                && final(self).spec_manager() == old(self).spec_manager(),
            r is Ok ==> {
                let v = old(self).spec_manager().issued(IDType::Being) as u64;
                let id = ID { kind: IDType::Being, value: v };
                &&& old(self).spec_world().bases().contains_key(being_type)
                &&& old(self).spec_manager().issues(&final(self).spec_manager(), IDType::Being, v)
                &&& !old(self).spec_world().beings().contains_key(v)
                &&& final(self).spec_world().beings().contains_key(v)
                &&& final(self).spec_world().beings()[v].id == id
                &&& final(self).spec_world().beings()[v].kind == being_type
                &&& final(self).spec_world().beings().remove(v) == old(self).spec_world().beings()
                &&& final(self).spec_world().bases() == old(self).spec_world().bases()
            },
    {
        let issued = self.manager.can_issue(IDType::Being);
        let (id, built) = {
            let base = match self.world.get_base(being_type) {
                Some(b) => b,
                None => {
{
                    let r: Result<Vec<WorldEvent<P>>, GameError> = Err(GameError::BaseNotFound(being_type));
                    proof {
                        assert(Self::steps(*old(self), *self, TickEvent::NewBeing(being_type, *args), any_built(), Seq::empty(), Self::ok_events(r), Seq::empty(), Seq::empty(), Self::err_seq(r)));
                    }
                    return r;
                }
                },
            };
            if !issued {
{
                    let r: Result<Vec<WorldEvent<P>>, GameError> = Err(GameError::IDsExhausted(IDType::Being));
                    proof {
                        assert(Self::steps(*old(self), *self, TickEvent::NewBeing(being_type, *args), any_built(), Seq::empty(), Self::ok_events(r), Seq::empty(), Seq::empty(), Self::err_seq(r)));
                    }
                    return r;
                }
            }
            let ghost m0 = self.manager;
            let id = ID::new(&mut self.manager, IDType::Being);
            proof {
                crate::ids::lemma_issue_fresh(m0, self.manager, IDType::Being, id.value);
            }
            (id, catalog.make_being(id, being_type, base, args, &self.world))
        };
        let (being, events) = built;
        let ghost made = Built { being: being@, events: events@ };
        assert(!old(self).spec_world().beings().contains_key(id.value));
        self.add_spawned(id, being_type, being);
        assert(self.spec_world().beings().remove(id.value) =~= old(self).spec_world().beings());
        let r: Result<Vec<WorldEvent<P>>, GameError> = Ok(events);
        assert(Seq::<WorldEvent<P>>::empty() + made.events =~= made.events);
        assert(Seq::<RenderCommand<P>>::empty() + Seq::<RenderCommand<P>>::empty() =~= Seq::<RenderCommand<P>>::empty());
        assert(Self::steps(*old(self), *self, TickEvent::NewBeing(being_type, *args), made, Seq::empty(), Self::ok_events(r), Seq::empty(), Seq::empty(), Self::err_seq(r)));
        r
    }

    /// Creates the template of `being_type`; returns the events that the
    /// catalog asks for to give it its resources.
    pub fn spawn_base<C: BeingType<P>>(&mut self, catalog: &C, being_type: u32) -> (r: Result<
        Vec<WorldEvent<P>>,
        GameError,
    >)
        requires
            old(self).wf(),
        ensures
            final(self).wf(),
            old(self).same_queues(final(self)),
            final(self).spec_world().beings() == old(self).spec_world().beings(),
            exists|made: Built<P>|
                Self::steps(
                    *old(self),
                    *final(self),
                    TickEvent::NewBase(being_type),
                    made,
                    Seq::empty(),
                    Self::ok_events(r),
                    Seq::empty(),
                    Seq::empty(),
                    Self::err_seq(r),
                ),
            old(self).spec_manager().precedes(&final(self).spec_manager()),
            old(self).spec_manager().issued(IDType::Being) == u64::MAX <==> r is Err,
            r is Err ==> r == Err::<Vec<WorldEvent<P>>, GameError>(GameError::IDsExhausted(IDType::Being))
                && final(self).spec_world().bases() == old(self).spec_world().bases()
                && final(self).spec_manager() == old(self).spec_manager(),
            r is Ok ==> {
                let v = old(self).spec_manager().issued(IDType::Being) as u64;
                &&& old(self).spec_manager().issues(&final(self).spec_manager(), IDType::Being, v)
                &&& final(self).spec_world().bases().contains_key(being_type)
                &&& final(self).spec_world().bases()[being_type].id == (ID { kind: IDType::Being, value: v })
                &&& final(self).spec_world().bases()[being_type].kind == being_type
                &&& final(self).spec_world().bases().remove(being_type) == old(self).spec_world().bases().remove(
                    being_type,
                )
            },
    {
        if !self.manager.can_issue(IDType::Being) {
{
                    let r: Result<Vec<WorldEvent<P>>, GameError> = Err(GameError::IDsExhausted(IDType::Being));
                    proof {
                        assert(Self::steps(*old(self), *self, TickEvent::NewBase(being_type), any_built(), Seq::empty(), Self::ok_events(r), Seq::empty(), Seq::empty(), Self::err_seq(r)));
                    }
                    return r;
                }
        }
        let ghost m0 = self.manager;
        let id = ID::new(&mut self.manager, IDType::Being);
        proof {
            crate::ids::lemma_issue_fresh(m0, self.manager, IDType::Being, id.value);
        }
        let (base, events) = catalog.make_base(id, being_type, &self.world);
        let ghost made = Built { being: base@, events: events@ };
        self.add_spawned_base(id, being_type, base);
        assert(self.spec_world().bases().remove(being_type) =~= old(self).spec_world().bases().remove(being_type));
        let r: Result<Vec<WorldEvent<P>>, GameError> = Ok(events);
        assert(Seq::<WorldEvent<P>>::empty() + made.events =~= made.events);
        assert(Seq::<RenderCommand<P>>::empty() + Seq::<RenderCommand<P>>::empty() =~= Seq::<RenderCommand<P>>::empty());
        assert(Self::steps(*old(self), *self, TickEvent::NewBase(being_type), made, Seq::empty(), Self::ok_events(r), Seq::empty(), Seq::empty(), Self::err_seq(r)));
        r
    }

    /// The identifier kinds listed in `kinds` of which fewer than
    /// `kinds.len()` can still be issued.
    pub open spec fn short_of_ids(m: IDManager, kinds: Seq<EntityIDType>) -> bool {
        exists|t: EntityIDType| #[trigger] kinds.contains(t) && m.issued(t.spec_id_type()) + kinds.len() > u64::MAX
    }

    /// Finds a listed kind of which fewer than `kinds.len()` identifiers are
    /// left.
    fn check_capacity(&self, kinds: &Vec<EntityIDType>) -> (r: Result<(), GameError>)
        requires
            self.wf(),
        ensures
            r is Ok <==> !Self::short_of_ids(self.spec_manager(), kinds@),
            r matches Err(x) ==> exists|t: EntityIDType| #[trigger] kinds@.contains(t)
                && x == GameError::IDsExhausted(t.spec_id_type()),
            r == match first_short(self.spec_manager().counts(), kinds@, kinds@.len()) {
                None => Ok::<(), GameError>(()),
                Some(t) => Err(GameError::IDsExhausted(t.spec_id_type())),
            },
    {
        let n = kinds.len() as u64;
        let mut i: usize = 0;
        assert(kinds@.subrange(0, kinds@.len() as int) =~= kinds@);
        while i < kinds.len()
            invariant
                0 <= i <= kinds@.len(),
                n == kinds@.len(),
                self.wf(),
                forall|j: int| 0 <= j < i ==> #[trigger] self.spec_manager().issued(kinds@[j].spec_id_type()) + kinds@.len() <= u64::MAX,
                first_short(self.spec_manager().counts(), kinds@, kinds@.len()) == first_short(
                    self.spec_manager().counts(),
                    kinds@.subrange(i as int, kinds@.len() as int),
                    kinds@.len(),
                ),
            decreases kinds@.len() - i,
        {
            let t = kinds[i];
            assert(kinds@.subrange(i as int, kinds@.len() as int)[0] == t);
            assert(kinds@.subrange(i as int, kinds@.len() as int).drop_first() =~= kinds@.subrange(i + 1, kinds@.len() as int));
            if self.manager.remaining(t.id_type()) < n {
                assert(kinds@.contains(t));
                return Err(GameError::IDsExhausted(t.id_type()));
            }
            i = i + 1;
        }
        assert(kinds@.subrange(i as int, kinds@.len() as int).len() == 0);
        assert forall|t: EntityIDType| #[trigger] kinds@.contains(t) implies self.spec_manager().issued(t.spec_id_type()) + kinds@.len() <= u64::MAX by {
            let j = choose|j: int| 0 <= j < kinds@.len() && kinds@[j] == t;
            assert(self.spec_manager().issued(kinds@[j].spec_id_type()) + kinds@.len() <= u64::MAX);
        }
        Ok(())
    }

    /// What rewiring the part at `slot` of `o` as `ev` leaves there, or why
    /// it cannot be done; fresh handles are described by `renews`, and where
    /// several kinds are short of identifiers the one reported may differ.
    pub open spec fn rewire_result(w: World, m0: IDManager, o: Owner, slot: u32, ev: EntityIDEvent) -> Result<
        Entity,
        GameError,
    > {
        match w.lookup_part(o, slot) {
            Err(x) => Err(x),
            Ok(e) => match ev {
                EntityIDEvent::UseNewID(kinds) => if Self::short_of_ids(m0, kinds@) {
                    let t = choose|t: EntityIDType| #[trigger] kinds@.contains(t) && m0.issued(t.spec_id_type()) + kinds@.len() > u64::MAX;
                    Err(GameError::IDsExhausted(t.spec_id_type()))
                } else {
                    Ok(e)
                },
                EntityIDEvent::UseOldID(src, src_slot, kinds) => match w.lookup_part(Owner::Being(src), src_slot) {
                    Err(x) => Err(x),
                    Ok(s) => Ok(e.spec_use_other_ids(s, kinds@)),
                },
                EntityIDEvent::UseBaseID(t, src_slot, kinds) => match w.lookup_part(Owner::Base(t), src_slot) {
                    Err(x) => Err(x),
                    Ok(s) => Ok(e.spec_use_other_ids(s, kinds@)),
                },
            },
        }
    }

    /// Rewires the handles of the part at `slot` of `o`: to fresh ones, or
    /// to those of another part.
    pub fn rewire(&mut self, o: Owner, slot: u32, ev: EntityIDEvent) -> (r: Result<(), GameError>)
        requires
            old(self).wf(),
        ensures
            final(self).wf(),
            old(self).same_queues(final(self)),
            ({
                let d = rewire_effect::<P>(old(self).spec_world().model(), old(self).spec_manager().counts(), o, slot, ev);
                &&& final(self).spec_world().model() == d.world
                &&& final(self).spec_manager().counts() == d.counts
                &&& match r {
                    Ok(_) => d.errors == Seq::<GameError>::empty(),
                    Err(x) => d.errors == seq![x],
                }
            }),
            ({
                let w0 = old(self).spec_world();
                let w1 = final(self).spec_world();
                let m0 = old(self).spec_manager();
                let m1 = final(self).spec_manager();
                match Self::rewire_result(w0, m0, o, slot, ev) {
                    Err(x) => {
                        &&& r is Err
                        &&& (x is IDsExhausted ==> r->Err_0 is IDsExhausted)
                        &&& (!(x is IDsExhausted) ==> r == Err::<(), GameError>(x))
                        &&& w0.unchanged(&w1)
                        &&& m1 == m0
                    },
                    Ok(e) => {
                        &&& r is Ok
                        &&& m0.precedes(&m1)
                        &&& w1.lookup_part(o, slot) is Ok
                        &&& w0.sets_part(&w1, o, slot, w1.lookup_part(o, slot)->Ok_0)
                        &&& match ev {
                            EntityIDEvent::UseNewID(kinds) => e.renews(w1.lookup_part(o, slot)->Ok_0, kinds@, m0, m1),
                            _ => w1.lookup_part(o, slot)->Ok_0 == e && m1 == m0,
                        }
                    },
                }
            }),
    {
        let mut e = match self.world.get_part(o, slot) {
            Ok(e) => e,
            Err(x) => {
                return Err(x);
            },
        };
        match ev {
            EntityIDEvent::UseNewID(kinds) => {
                match self.check_capacity(&kinds) {
                    Ok(()) => {},
                    Err(x) => {
                        return Err(x);
                    },
                }
                let ghost m0 = self.manager;
                e.use_new_ids(&mut self.manager, &kinds);
                assert forall|k: u64| #[trigger] self.world.beings().contains_key(k) implies self.manager.has_issued(IDType::Being, k) by {
                    assert(m0.has_issued(IDType::Being, k));
                }
            },
            EntityIDEvent::UseOldID(src, src_slot, kinds) => {
                let s = match self.world.get_part(Owner::Being(src), src_slot) {
                    Ok(s) => s,
                    Err(x) => {
                        return Err(x);
                    },
                };
                e.use_other_ids(&s, &kinds);
            },
            EntityIDEvent::UseBaseID(t, src_slot, kinds) => {
                let s = match self.world.get_part(Owner::Base(t), src_slot) {
                    Ok(s) => s,
                    Err(x) => {
                        return Err(x);
                    },
                };
                e.use_other_ids(&s, &kinds);
            },
        }
        let ghost w0 = self.world;
        let r = self.world.set_part(o, slot, e);
        assert(w0.lookup_part(o, slot) is Ok);
        proof {
            Self::lemma_set_part_lookup(w0, self.world, o, slot, e);
        }
        r
    }

    /// After a part is set it is found with the value set.
    proof fn lemma_set_part_lookup(w0: World, w1: World, o: Owner, slot: u32, e: Entity)
        requires
            w0.wf(),
            w0.lookup_part(o, slot) is Ok,
            w0.sets_part(&w1, o, slot, e),
        ensures
            w1.lookup_part(o, slot) == Ok::<Entity, GameError>(e),
    {
    }

    /// Queues for the renderer the transform `ev` of the part at `slot` of `o`.
    pub fn transform(&self, o: Owner, slot: u32, ev: TransformEvent<P>, commands: &mut Vec<RenderCommand<P>>) -> (r: Result<(), GameError>)
        requires
            self.wf(),
        ensures
            match self.spec_world().lookup_part(o, slot) {
                Err(x) => r == Err::<(), GameError>(x) && final(commands)@ == old(commands)@,
                Ok(e) => r is Ok && final(commands)@ == old(commands)@.push(transform_command(e, ev)),
            },
    {
        let e = match self.world.get_part(o, slot) {
            Ok(e) => e,
            Err(x) => {
                return Err(x);
            },
        };
        let c = match ev {
            TransformEvent::Perspective(p) => RenderCommand { kind: EntityIDType::Perspective, resource: e.perspective_id, payload: p },
            TransformEvent::View(p) => RenderCommand { kind: EntityIDType::View, resource: e.view_id, payload: p },
            TransformEvent::Model(p) => RenderCommand { kind: EntityIDType::Model, resource: e.model_id, payload: p },
        };
        commands.push(c);
        Ok(())
    }

    /// Queues for the renderer the graphics update `ev` of the part at
    /// `slot` of `o`.
    pub fn graphics(&self, o: Owner, slot: u32, ev: EntityGraphicsEvent<P>, commands: &mut Vec<RenderCommand<P>>) -> (r: Result<(), GameError>)
        requires
            self.wf(),
        ensures
            match self.spec_world().lookup_part(o, slot) {
                Err(x) => r == Err::<(), GameError>(x) && final(commands)@ == old(commands)@,
                Ok(e) => r is Ok && final(commands)@ == old(commands)@.push(graphics_command(e, ev)),
            },
    {
        let e = match self.world.get_part(o, slot) {
            Ok(e) => e,
            Err(x) => {
                return Err(x);
            },
        };
        let c = match ev {
            EntityGraphicsEvent::Vertices(p) => RenderCommand { kind: EntityIDType::Vertex, resource: e.vertex_id, payload: p },
            EntityGraphicsEvent::Indices(p) => RenderCommand { kind: EntityIDType::Index, resource: e.index_id, payload: p },
            EntityGraphicsEvent::Texture(p) => RenderCommand { kind: EntityIDType::Texture, resource: e.texture_id, payload: p },
            EntityGraphicsEvent::DrawMethod(p) => RenderCommand {
                kind: EntityIDType::DrawParameter,
                resource: e.draw_parameters_id,
                payload: p,
            },
        };
        commands.push(c);
        Ok(())
    }

    /// Files each tick event in the bucket of its rank, in popped order.
    pub fn expand_tick_events(&mut self, events: Vec<TickEvent<P>>)
        requires
            old(self).wf(),
        ensures
            final(self).wf(),
            final(self).spec_world() == old(self).spec_world(),
            final(self).spec_manager() == old(self).spec_manager(),
            final(self).spec_tick_after_events() == old(self).spec_tick_after_events(),
            final(self).spec_max_passes() == old(self).spec_max_passes(),
            forall|r: u32| #[trigger] final(self).spec_tick_events().bucket(r) == old(self).spec_tick_events().bucket(r)
                + popped(events@).filter(|e: TickEvent<P>| e.rank() == r),
            final(self).spec_tick_events().buckets() == expand_ticks(old(self).spec_tick_events().buckets(), events@),
            final(self).spec_tick_events().ranks().no_duplicates(),
            forall|r: u32| #[trigger] final(self).spec_tick_events().ranks().contains(r) <==> final(self).spec_tick_events().bucket(r).len() > 0,
    {
        let ghost orig = events@;
        let mut events = events;
        let ghost mut k: int = 0;
        while events.len() > 0
            invariant
                self.wf(),
                self.spec_world() == old(self).spec_world(),
                self.spec_manager() == old(self).spec_manager(),
                self.spec_tick_after_events() == old(self).spec_tick_after_events(),
                self.spec_max_passes() == old(self).spec_max_passes(),
                0 <= k <= orig.len(),
                events@ == orig.subrange(0, orig.len() - k),
                forall|r: u32| #[trigger] self.spec_tick_events().bucket(r) == old(self).spec_tick_events().bucket(r)
                    + popped(orig).subrange(0, k).filter(|e: TickEvent<P>| e.rank() == r),
            decreases events@.len(),
        {
            let e = events.pop().unwrap();
            let ghost q0 = self.tick_events;
            let rank = get_rank_tick(&e);
            proof {
                assert(e == popped(orig)[k]);
                assert(popped(orig).subrange(0, k + 1) =~= popped(orig).subrange(0, k).push(e));
            }
            self.tick_events.push(rank, e);
            proof {
                assert forall|r: u32| #[trigger] self.spec_tick_events().bucket(r) == old(self).spec_tick_events().bucket(r)
                    + popped(orig).subrange(0, k + 1).filter(|e: TickEvent<P>| e.rank() == r) by {
                    popped(orig).subrange(0, k).lemma_filter_push(e, |e: TickEvent<P>| e.rank() == r);
                    assert(q0.bucket(r) == old(self).spec_tick_events().bucket(r)
                        + popped(orig).subrange(0, k).filter(|e: TickEvent<P>| e.rank() == r));
                    if r == rank {
                        assert(self.spec_tick_events().bucket(r) =~= q0.bucket(r).push(e));
                    } else {
                        assert(self.spec_tick_events().bucket(r) == q0.bucket(r));
                    }
                }
                assert forall|r: u32, i: int| 0 <= i < self.spec_tick_events().bucket(r).len() implies (
                #[trigger] self.spec_tick_events().bucket(r)[i]).rank() == r by {
                    if r == rank {
                        assert(self.spec_tick_events().bucket(r) =~= q0.bucket(r).push(e));
                        if i < q0.bucket(r).len() {
                            assert(q0.bucket(r)[i] == self.spec_tick_events().bucket(r)[i]);
                        }
                    } else {
                        assert(self.spec_tick_events().bucket(r) == q0.bucket(r));
                    }
                }
                k = k + 1;
                assert(events@ =~= orig.subrange(0, orig.len() - k));
            }
        }
        assert(popped(orig).subrange(0, k) =~= popped(orig));
        proof {
            crate::rank_queue::lemma_buckets_determined(self.spec_tick_events());
            crate::rank_queue::lemma_ranks_listed(self.spec_tick_events());
            assert(self.spec_tick_events().buckets() =~= expand_ticks(old(self).spec_tick_events().buckets(), orig));
        }
    }

    /// Files each post-tick event in the bucket of its rank, in popped order.
    pub fn expand_tick_after_events(&mut self, events: Vec<TickAfterEvent<P>>)
        requires
            old(self).wf(),
        ensures
            final(self).wf(),
            final(self).spec_world() == old(self).spec_world(),
            final(self).spec_manager() == old(self).spec_manager(),
            final(self).spec_tick_events() == old(self).spec_tick_events(),
            final(self).spec_max_passes() == old(self).spec_max_passes(),
            forall|r: u32| #[trigger] final(self).spec_tick_after_events().bucket(r) == old(self).spec_tick_after_events().bucket(r)
                + popped(events@).filter(|e: TickAfterEvent<P>| e.rank() == r),
            final(self).spec_tick_after_events().buckets() == expand_afters(old(self).spec_tick_after_events().buckets(), events@),
            final(self).spec_tick_after_events().ranks().no_duplicates(),
            forall|r: u32| #[trigger] final(self).spec_tick_after_events().ranks().contains(r) <==> final(self).spec_tick_after_events().bucket(r).len() > 0,
    {
        let ghost orig = events@;
        let mut events = events;
        let ghost mut k: int = 0;
        while events.len() > 0
            invariant
                self.wf(),
                self.spec_world() == old(self).spec_world(),
                self.spec_manager() == old(self).spec_manager(),
                self.spec_tick_events() == old(self).spec_tick_events(),
                self.spec_max_passes() == old(self).spec_max_passes(),
                0 <= k <= orig.len(),
                events@ == orig.subrange(0, orig.len() - k),
                forall|r: u32| #[trigger] self.spec_tick_after_events().bucket(r) == old(self).spec_tick_after_events().bucket(r)
                    + popped(orig).subrange(0, k).filter(|e: TickAfterEvent<P>| e.rank() == r),
            decreases events@.len(),
        {
            let e = events.pop().unwrap();
            let ghost q0 = self.tick_after_events;
            let rank = get_rank_tick_after(&e);
            proof {
                assert(e == popped(orig)[k]);
                assert(popped(orig).subrange(0, k + 1) =~= popped(orig).subrange(0, k).push(e));
            }
            self.tick_after_events.push(rank, e);
            proof {
                assert forall|r: u32| #[trigger] self.spec_tick_after_events().bucket(r) == old(self).spec_tick_after_events().bucket(r)
                    + popped(orig).subrange(0, k + 1).filter(|e: TickAfterEvent<P>| e.rank() == r) by {
                    popped(orig).subrange(0, k).lemma_filter_push(e, |e: TickAfterEvent<P>| e.rank() == r);
                    assert(q0.bucket(r) == old(self).spec_tick_after_events().bucket(r)
                        + popped(orig).subrange(0, k).filter(|e: TickAfterEvent<P>| e.rank() == r));
                    if r == rank {
                        assert(self.spec_tick_after_events().bucket(r) =~= q0.bucket(r).push(e));
                    } else {
                        assert(self.spec_tick_after_events().bucket(r) == q0.bucket(r));
                    }
                }
                assert forall|r: u32, i: int| 0 <= i < self.spec_tick_after_events().bucket(r).len() implies (
                #[trigger] self.spec_tick_after_events().bucket(r)[i]).rank() == r by {
                    if r == rank {
                        assert(self.spec_tick_after_events().bucket(r) =~= q0.bucket(r).push(e));
                        if i < q0.bucket(r).len() {
                            assert(q0.bucket(r)[i] == self.spec_tick_after_events().bucket(r)[i]);
                        }
                    } else {
                        assert(self.spec_tick_after_events().bucket(r) == q0.bucket(r));
                    }
                }
                k = k + 1;
                assert(events@ =~= orig.subrange(0, orig.len() - k));
            }
        }
        assert(popped(orig).subrange(0, k) =~= popped(orig));
        proof {
            crate::rank_queue::lemma_buckets_determined(self.spec_tick_after_events());
            crate::rank_queue::lemma_ranks_listed(self.spec_tick_after_events());
            assert(self.spec_tick_after_events().buckets() =~= expand_afters(old(self).spec_tick_after_events().buckets(), orig));
        }
    }

    /// Applies one tick event that is not a spawn.
    fn apply_plain(&mut self, event: TickEvent<P>, commands: &mut Vec<RenderCommand<P>>) -> (r: Result<(), GameError>)
        requires
            old(self).wf(),
            !event.is_spawn(),
        ensures
            final(self).wf(),
            old(self).same_queues(final(self)),
            old(self).spec_manager().precedes(&final(self).spec_manager()),
            ({
                let d = step_effect(old(self).spec_world().model(), old(self).spec_manager().counts(), any_built(), event);
                &&& final(self).spec_world().model() == d.world
                &&& final(self).spec_manager().counts() == d.counts
                &&& d.out == Seq::<WorldEvent<P>>::empty()
                &&& final(commands)@ == old(commands)@ + d.commands
                &&& d.errors == Self::err_seq(r)
            }),
            kinematic_target(event) is Some ==> final(self).spec_world().beings() == kinematic_after(
                old(self).spec_world().beings(),
                event,
            ),
    {
        match event {
            TickEvent::NewBeing(_, _) => Ok(()),
            TickEvent::NewBase(_) => Ok(()),
            TickEvent::Sca2(id, ev) => self.world.update_field2(id, Field::Sca, &ev),
            TickEvent::Sca3(id, ev) => self.world.update_field3(id, Field::Sca, &ev),
            TickEvent::Rot2(id, ev) => self.world.update_field2(id, Field::Rot, &ev),
            TickEvent::Rot3(id, ev) => self.world.update_field3(id, Field::Rot, &ev),
            TickEvent::Pos2(id, ev) => self.world.update_field2(id, Field::Pos, &ev),
            TickEvent::Pos3(id, ev) => self.world.update_field3(id, Field::Pos, &ev),
            TickEvent::Vel2(id, ev) => self.world.update_field2(id, Field::Vel, &ev),
            TickEvent::Vel3(id, ev) => self.world.update_field3(id, Field::Vel, &ev),
            TickEvent::Acc2(id, ev) => self.world.update_field2(id, Field::Acc, &ev),
            TickEvent::Acc3(id, ev) => self.world.update_field3(id, Field::Acc, &ev),
            TickEvent::EntityID(id, slot, ev) => self.rewire(Owner::Being(id), slot, ev),
            TickEvent::EntityIDBase(t, slot, ev) => self.rewire(Owner::Base(t), slot, ev),
            TickEvent::Transform(id, slot, ev) => self.transform(Owner::Being(id), slot, ev, commands),
            TickEvent::TransformBase(t, slot, ev) => self.transform(Owner::Base(t), slot, ev, commands),
        }
    }

    /// Applies one tick event. Spawns hand back, through `out`, the events
    /// the catalog asks for; transforms queue renderer updates in
    /// `commands`.
    pub fn apply_tick_event<C: BeingType<P>>(
        &mut self,
        catalog: &C,
        event: TickEvent<P>,
        out: &mut Vec<WorldEvent<P>>,
        commands: &mut Vec<RenderCommand<P>>,
    ) -> (r: Result<(), GameError>)
        requires
            old(self).wf(),
        ensures
            final(self).wf(),
            old(self).same_queues(final(self)),
            old(self).spec_manager().precedes(&final(self).spec_manager()),
            exists|made: Built<P>|
                Self::steps(
                    *old(self),
                    *final(self),
                    event,
                    made,
                    old(out)@,
                    final(out)@,
                    old(commands)@,
                    final(commands)@,
                    Self::err_seq(r),
                ),
            !event.is_spawn() ==> final(out)@ == old(out)@,
            kinematic_target(event) is Some ==> final(self).spec_world().beings() == kinematic_after(
                old(self).spec_world().beings(),
                event,
            ),
    {
        let ghost ev0 = event;
        let ghost g0 = *self;
        let ghost out0 = out@;
        let ghost cmd0 = commands@;
        match event {
            TickEvent::NewBeing(being_type, args) => {
                let rs = self.spawn_being(catalog, being_type, &args);
                assert(ev0 == TickEvent::<P>::NewBeing(being_type, args));
                let ghost made = choose|made: Built<P>|
                    Self::steps(g0, *self, ev0, made, Seq::empty(), Self::ok_events(rs), Seq::empty(), Seq::empty(), Self::err_seq(rs));
                match rs {
                    Ok(events) => {
                        let mut events = events;
                        out.append(&mut events);
                        proof {
                            assert(Self::steps(g0, *self, ev0, made, out0, out@, cmd0, commands@, Seq::empty()));
                            assert(Self::steps(g0, *self, ev0, made, out0, out@, cmd0, commands@, Self::err_seq(Ok::<(), GameError>(()))));
                        }
                        Ok(())
                    },
                    Err(x) => {
                        proof {
                            assert(Self::steps(g0, *self, ev0, made, out0, out@, cmd0, commands@, seq![x]));
                            assert(Self::steps(g0, *self, ev0, made, out0, out@, cmd0, commands@, Self::err_seq(Err::<(), GameError>(x))));
                        }
                        Err(x)
                    },
                }
            },
            TickEvent::NewBase(being_type) => {
                let rs = self.spawn_base(catalog, being_type);
                let ghost made = choose|made: Built<P>|
                    Self::steps(g0, *self, ev0, made, Seq::empty(), Self::ok_events(rs), Seq::empty(), Seq::empty(), Self::err_seq(rs));
                match rs {
                    Ok(events) => {
                        let mut events = events;
                        out.append(&mut events);
                        proof {
                            assert(Self::steps(g0, *self, ev0, made, out0, out@, cmd0, commands@, Seq::empty()));
                            assert(Self::steps(g0, *self, ev0, made, out0, out@, cmd0, commands@, Self::err_seq(Ok::<(), GameError>(()))));
                        }
                        Ok(())
                    },
                    Err(x) => {
                        proof {
                            assert(Self::steps(g0, *self, ev0, made, out0, out@, cmd0, commands@, seq![x]));
                            assert(Self::steps(g0, *self, ev0, made, out0, out@, cmd0, commands@, Self::err_seq(Err::<(), GameError>(x))));
                        }
                        Err(x)
                    },
                }
            },
            _ => {
                let r = self.apply_plain(event, commands);
                proof {
                    assert(out@ == out0 + Seq::<WorldEvent<P>>::empty());
                    assert(Self::steps(g0, *self, ev0, any_built(), out0, out@, cmd0, commands@, Self::err_seq(r)));
                }
                r
            },
        }
    }

    /// No pending event of `q` creates an actor or a template.
    pub open spec fn no_spawns(q: RankQueue<TickEvent<P>>) -> bool {
        forall|r: u32, i: int| 0 <= i < q.bucket(r).len() ==> !(#[trigger] q.bucket(r)[i]).is_spawn()
    }

    /// Runs one settle pass: takes the pending buckets highest rank first,
    /// applies every event of a bucket before the next bucket is taken, and
    /// returns the events that spawns asked for. Events that fail are
    /// skipped and their errors recorded in `errors`.
    pub fn run_pass<C: BeingType<P>>(
        &mut self,
        catalog: &C,
        commands: &mut Vec<RenderCommand<P>>,
        errors: &mut Vec<GameError>,
    ) -> (r: Vec<WorldEvent<P>>)
        requires
            old(self).wf(),
        ensures
            final(self).wf(),
            final(self).spec_tick_events().spec_is_empty(),
            final(self).spec_tick_after_events() == old(self).spec_tick_after_events(),
            final(self).spec_max_passes() == old(self).spec_max_passes(),
            old(self).spec_manager().precedes(&final(self).spec_manager()),
            Self::no_spawns(old(self).spec_tick_events()) ==> r@.len() == 0,
            exists|made: Seq<Built<P>>|
                Self::state(*final(self), r@, final(commands)@, final(errors)@) == #[trigger] Self::pass_result(
                    Self::state(*old(self), Seq::empty(), old(commands)@, old(errors)@),
                    old(self).spec_tick_events().buckets(),
                    made,
                ),
    {
        let mut out: Vec<WorldEvent<P>> = Vec::new();
        let ghost s0 = Self::state(*self, Seq::empty(), commands@, errors@);
        let ghost b0 = self.tick_events.buckets();
        let ghost mut done: Seq<TickEvent<P>> = Seq::empty();
        let ghost mut log: Seq<Built<P>> = Seq::empty();
        while !self.tick_events.is_empty()
            invariant
                self.wf(),
                self.spec_tick_after_events() == old(self).spec_tick_after_events(),
                self.spec_max_passes() == old(self).spec_max_passes(),
                old(self).spec_manager().precedes(&self.spec_manager()),
                Self::no_spawns(old(self).spec_tick_events()) ==> out@.len() == 0 && Self::no_spawns(
                    self.spec_tick_events(),
                ),
                s0 == Self::state(*old(self), Seq::empty(), old(commands)@, old(errors)@),
                b0 == old(self).spec_tick_events().buckets(),
                Self::state(*self, out@, commands@, errors@) == run_events(s0, done, log),
                log.len() == done.len(),
                done + desc_schedule(self.spec_tick_events().buckets(), u32::MAX as int) == desc_schedule(b0, u32::MAX as int),
            decreases self.spec_tick_events().ranks().len(),
        {
            let ghost q0 = self.tick_events;
            let (rank, bucket) = match self.tick_events.take_highest() {
                Some(p) => p,
                None => {
                    assert(false);
                    return out;
                },
            };
            let mut bucket = bucket;
            let ghost bk = bucket@;
            proof {
                assert forall|k: u32| #[trigger] q0.buckets().contains_key(k) implies k <= rank by {
                    crate::rank_queue::lemma_keys_active(q0, k);
                }
                crate::rank_queue::lemma_desc_take(q0.buckets(), rank);
                assert(bk == q0.buckets()[rank]);
            }
            assert forall|r2: u32, i: int| 0 <= i < self.spec_tick_events().bucket(r2).len() implies (
            #[trigger] self.spec_tick_events().bucket(r2)[i]).rank() == r2 by {
                assert(self.spec_tick_events().bucket(r2) == q0.bucket(r2));
            }
            proof {
                if Self::no_spawns(old(self).spec_tick_events()) {
                    assert forall|r: u32, i: int| 0 <= i < self.spec_tick_events().bucket(r).len() implies !(
                    #[trigger] self.spec_tick_events().bucket(r)[i]).is_spawn() by {
                        assert(self.spec_tick_events().bucket(r) == q0.bucket(r));
                        assert(!q0.bucket(r)[i].is_spawn());
                    }
                    assert forall|i: int| 0 <= i < bucket@.len() implies !(#[trigger] bucket@[i]).is_spawn() by {
                        assert(!q0.bucket(rank)[i].is_spawn());
                    }
                }
            }
            let ghost mut k: int = 0;
            let ghost q1 = self.tick_events;
            while bucket.len() > 0
                invariant
                    self.spec_tick_events() == q1,
                    q1.buckets() == q0.buckets().remove(rank),
                    bk == q0.buckets()[rank],
                    desc_schedule(q0.buckets(), u32::MAX as int) == popped(bk) + desc_schedule(q1.buckets(), u32::MAX as int),
                    done + desc_schedule(q0.buckets(), u32::MAX as int) == desc_schedule(b0, u32::MAX as int),
                    self.wf(),
                    self.spec_tick_after_events() == old(self).spec_tick_after_events(),
                    self.spec_max_passes() == old(self).spec_max_passes(),
                    old(self).spec_manager().precedes(&self.spec_manager()),
                    Self::no_spawns(old(self).spec_tick_events()) ==> out@.len() == 0 && Self::no_spawns(
                        self.spec_tick_events(),
                    ) && forall|i: int| 0 <= i < bucket@.len() ==> !(#[trigger] bucket@[i]).is_spawn(),
                    self.spec_tick_events().ranks().len() < q0.ranks().len(),
                    0 <= k <= bk.len(),
                    bucket@ == bk.subrange(0, bk.len() - k),
                    Self::state(*self, out@, commands@, errors@) == run_events(
                        s0,
                        done + popped(bk).subrange(0, k),
                        log,
                    ),
                    log.len() == done.len() + k,
                decreases bucket@.len(),
            {
                let e = bucket.pop().unwrap();
                let ghost m0 = self.manager;
                let ghost before = Self::state(*self, out@, commands@, errors@);
                let ghost x = done + popped(bk).subrange(0, k);
                proof {
                    if Self::no_spawns(old(self).spec_tick_events()) {
                        assert(!bucket@.push(e)[bucket@.len() as int].is_spawn());
                    }
                    assert(e == popped(bk)[k]);
                }
                let ghost ev = e;
                let ghost g0 = *self;
                let ghost out0 = out@;
                let ghost cmd0 = commands@;
                let r = self.apply_tick_event(catalog, e, &mut out, commands);
                match r {
                    Ok(()) => {},
                    Err(x) => {
                        errors.push(x);
                    },
                }
                proof {
                    Self::lemma_precedes_trans(old(self).spec_manager(), m0, self.spec_manager());
                    let made = choose|made: Built<P>|
                        Self::steps(g0, *self, ev, made, out0, out@, cmd0, commands@, Self::err_seq(r));
                    let d = step_effect(before.world, before.counts, made, ev);
                    assert(errors@ =~= before.errors + d.errors);
                    assert(Self::state(*self, out@, commands@, errors@) == tick_step(before, ev, made));
                    assert((done + popped(bk).subrange(0, k + 1)).drop_last() =~= x);
                    assert((done + popped(bk).subrange(0, k + 1)).last() == ev);
                    assert(log.push(made).drop_last() =~= log);
                    log = log.push(made);
                    k = k + 1;
                    assert(bucket@ =~= bk.subrange(0, bk.len() - k));
                }
            }
            proof {
                assert(popped(bk).subrange(0, k) =~= popped(bk));
                assert(done + popped(bk) + desc_schedule(self.spec_tick_events().buckets(), u32::MAX as int) =~= done + (popped(bk)
                    + desc_schedule(self.spec_tick_events().buckets(), u32::MAX as int)));
                done = done + popped(bk);
            }
        }
        proof {
            crate::rank_queue::lemma_desc_empty(self.spec_tick_events().buckets(), u32::MAX as int);
            assert(done =~= done + desc_schedule(self.spec_tick_events().buckets(), u32::MAX as int));
            assert(Self::state(*self, out@, commands@, errors@) == Self::pass_result(s0, b0, log));
        }
        out
    }

    /// The settle state this game and the given outputs make up.
    pub open spec fn state(g: Game<P>, out: Seq<WorldEvent<P>>, commands: Seq<RenderCommand<P>>, errors: Seq<GameError>) -> Settle<P> {
        Settle { world: g.spec_world().model(), counts: g.spec_manager().counts(), out, commands, errors }
    }

    /// `g1`, with commands `cmd1` and errors `err1`, is where settling `g0`
    /// (commands `cmd0`, errors `err0`) with the given buckets after
    /// `passes` passes ends, with result `r`, where pass `p` hands back
    /// `made[p]` from the catalog.
    pub open spec fn settles(
        g0: Game<P>,
        g1: Game<P>,
        cmd0: Seq<RenderCommand<P>>,
        cmd1: Seq<RenderCommand<P>>,
        err0: Seq<GameError>,
        err1: Seq<GameError>,
        ticks: Map<u32, Seq<TickEvent<P>>>,
        afters: Map<u32, Seq<TickAfterEvent<P>>>,
        passes: nat,
        made: Seq<Seq<Built<P>>>,
        r: Result<u32, GameError>,
    ) -> bool {
        let run = settle_from(
            Self::state(g0, Seq::empty(), cmd0, err0),
            ticks,
            afters,
            passes,
            g0.spec_max_passes() as nat,
            made,
        );
        &&& Self::state(g1, Seq::empty(), cmd1, err1) == run.s
        &&& g1.spec_tick_events().buckets() == run.ticks
        &&& g1.spec_tick_after_events().buckets() == run.afters
        &&& r == run.result
    }

    /// `g1` and `r` are where a step of `g0` ends: the tick family settles
    /// from the buckets `ticks` and `afters` (pass `p` handing back
    /// `made[p]` from the catalog); if that succeeds, the post-tick events
    /// `concat(asked)` are filed (one part per live actor, oldest first,
    /// where `gathers`; none otherwise) and the post-tick family settles.
    pub open spec fn drives(
        g0: Game<P>,
        g1: Game<P>,
        ticks: Map<u32, Seq<TickEvent<P>>>,
        afters: Map<u32, Seq<TickAfterEvent<P>>>,
        made: Seq<Seq<Built<P>>>,
        gathers: bool,
        asked: Seq<Seq<TickAfterEvent<P>>>,
        r: Result<(Vec<RenderCommand<P>>, Vec<GameError>), GameError>,
    ) -> bool {
        let run = settle_from(
            Self::state(g0, Seq::empty(), Seq::empty(), Seq::empty()),
            ticks,
            afters,
            0,
            g0.spec_max_passes() as nat,
            made,
        );
        match run.result {
            Err(x) => {
                &&& r == Err::<(Vec<RenderCommand<P>>, Vec<GameError>), GameError>(x)
                &&& Self::state(g1, Seq::empty(), run.s.commands, run.s.errors) == run.s
                &&& g1.spec_tick_events().buckets() == run.ticks
                &&& g1.spec_tick_after_events().buckets() == run.afters
            },
            Ok(_) => {
                &&& r is Ok
                &&& if gathers {
                    asked.len() == run.s.world.order.len()
                } else {
                    asked == Seq::<Seq<TickAfterEvent<P>>>::empty()
                }
                &&& Self::state(g1, Seq::empty(), r->Ok_0.0@, r->Ok_0.1@) == finish(run, concat(asked))
            },
        }
    }

    /// A settle reads the catalog results only of the passes it runs.
    proof fn lemma_settle_agree(
        s: Settle<P>,
        t: Map<u32, Seq<TickEvent<P>>>,
        a: Map<u32, Seq<TickAfterEvent<P>>>,
        p: nat,
        max: nat,
        o1: Seq<Seq<Built<P>>>,
        o2: Seq<Seq<Built<P>>>,
    )
        requires
            forall|q: int| p <= q < max ==> o1[q] == o2[q],
        ensures
            settle_from(s, t, a, p, max, o1) == settle_from(s, t, a, p, max, o2),
        decreases max - p,
    {
        if t != Map::<u32, Seq<TickEvent<P>>>::empty() && p < max {
            let s1 = run_events(Settle { out: Seq::empty(), ..s }, desc_schedule(t, u32::MAX as int), o1[p as int]);
            Self::lemma_settle_agree(
                Settle { out: Seq::empty(), ..s1 },
                expand_ticks(Map::empty(), tick_part(popped(s1.out))),
                expand_afters(a, after_part(popped(s1.out))),
                p + 1,
                max,
                o1,
                o2,
            );
        }
    }

    /// `s` after one pass over the tick buckets `m`: highest rank first,
    /// each bucket in popped order, the catalog handing back `made`.
    pub open spec fn pass_result(s: Settle<P>, m: Map<u32, Seq<TickEvent<P>>>, made: Seq<Built<P>>) -> Settle<P> {
        run_events(s, desc_schedule(m, u32::MAX as int), made)
    }

    /// The highest active rank is the top key of the buckets.
    proof fn lemma_top_key(q: RankQueue<TickEvent<P>>, r: u32)
        requires
            q.wf(),
            q.ranks().contains(r),
            forall|k: u32| #[trigger] q.ranks().contains(k) ==> k <= r,
        ensures
            top_key(q.buckets()) == r,
    {
        let m = q.buckets();
        crate::rank_queue::lemma_active_key(q, r);
        assert forall|k: u32| #[trigger] m.contains_key(k) implies k <= r by {
            crate::rank_queue::lemma_keys_active(q, k);
        }
        let t = top_key(m);
        assert(m.contains_key(t) && forall|k: u32| #[trigger] m.contains_key(k) ==> k <= t);
        assert(t <= r);
        assert(r <= t);
    }

    proof fn lemma_precedes_trans(a: IDManager, b: IDManager, c: IDManager)
        requires
            a.precedes(&b),
            b.precedes(&c) || b == c,
        ensures
            a.precedes(&c),
    {
        assert forall|k: IDType| a.issued(k) <= #[trigger] c.issued(k) by {
            assert(a.issued(k) <= b.issued(k));
        }
    }

    /// Settles the tick family: runs passes, expanding after each the events
    /// that spawns asked for, until nothing is pending. Returns the number of
    /// passes, or `TooManyPasses` with a pending rank once the ceiling is
    /// reached.
    pub fn execute_tick_events<C: BeingType<P>>(
        &mut self,
        catalog: &C,
        commands: &mut Vec<RenderCommand<P>>,
        errors: &mut Vec<GameError>,
    ) -> (r: Result<u32, GameError>)
        requires
            old(self).wf(),
        ensures
            final(self).wf(),
            final(self).spec_max_passes() == old(self).spec_max_passes(),
            old(self).spec_manager().precedes(&final(self).spec_manager()),
            r matches Ok(n) ==> final(self).spec_tick_events().spec_is_empty() && n <= old(self).spec_max_passes(),
            r matches Err(x) ==> x is TooManyPasses && final(self).spec_tick_events().ranks().contains(x->TooManyPasses_0),
            old(self).spec_tick_events().spec_is_empty() ==> {
                &&& r == Ok::<u32, GameError>(0)
                &&& final(self).spec_world() == old(self).spec_world()
                &&& final(self).spec_manager() == old(self).spec_manager()
                &&& final(self).spec_tick_events() == old(self).spec_tick_events()
                &&& final(self).spec_tick_after_events() == old(self).spec_tick_after_events()
                &&& final(commands)@ == old(commands)@
                &&& final(errors)@ == old(errors)@
            },
            !old(self).spec_tick_events().spec_is_empty() && Self::no_spawns(old(self).spec_tick_events())
                && old(self).spec_max_passes() >= 1 ==> r == Ok::<u32, GameError>(1),
            exists|made: Seq<Seq<Built<P>>>|
                Self::settles(
                    *old(self),
                    *final(self),
                    old(commands)@,
                    final(commands)@,
                    old(errors)@,
                    final(errors)@,
                    old(self).spec_tick_events().buckets(),
                    old(self).spec_tick_after_events().buckets(),
                    0,
                    made,
                    r,
                ),
    {
        let ghost t0 = self.spec_tick_events().buckets();
        let ghost a0 = self.spec_tick_after_events().buckets();
        let ghost s0 = Self::state(*self, Seq::empty(), commands@, errors@);
        if self.tick_events.is_empty() {
            proof {
                assert(Self::settles(*old(self), *self, old(commands)@, commands@, old(errors)@, errors@, t0, a0, 0, Seq::empty(), Ok(0)));
            }
            return Ok(0);
        }
        if self.max_passes == 0 {
            let rank = self.tick_events.top_rank();
            proof {
                Self::lemma_top_key(self.tick_events, rank);
                assert(Self::settles(*old(self), *self, old(commands)@, commands@, old(errors)@, errors@, t0, a0, 0, Seq::empty(), Err(GameError::TooManyPasses(rank))));
            }
            return Err(GameError::TooManyPasses(rank));
        }
        let follow = self.run_pass(catalog, commands, errors);
        let ghost bs0 = choose|made: Seq<Built<P>>|
            Self::state(*self, follow@, commands@, errors@) == #[trigger] Self::pass_result(s0, t0, made);
        let ghost g1 = *self;
        let ghost cmd1 = commands@;
        let ghost err1 = errors@;
        let ghost fw = follow@;
        let ghost m0 = self.manager;
        let r = self.continue_settle(catalog, follow, 1, commands, errors);
        proof {
            let o1 = choose|made: Seq<Seq<Built<P>>>|
                Self::settles(
                    g1,
                    *self,
                    cmd1,
                    commands@,
                    err1,
                    errors@,
                    expand_ticks(g1.spec_tick_events().buckets(), tick_part(popped(fw))),
                    expand_afters(g1.spec_tick_after_events().buckets(), after_part(popped(fw))),
                    1,
                    made,
                    r,
                );
            let max = old(self).spec_max_passes() as nat;
            let o = Seq::new(max + 1, |q: int| if q == 0 { bs0 } else { o1[q] });
            assert(o[0] == bs0);
            assert(g1.spec_tick_events().buckets() == Map::<u32, Seq<TickEvent<P>>>::empty());
            let mid = Self::state(g1, Seq::empty(), cmd1, err1);
            assert(Settle { out: Seq::empty(), ..Self::state(g1, fw, cmd1, err1) } == mid);
            Self::lemma_settle_agree(
                mid,
                expand_ticks(Map::empty(), tick_part(popped(fw))),
                expand_afters(a0, after_part(popped(fw))),
                1,
                max,
                o,
                o1,
            );
            assert(Self::settles(*old(self), *self, old(commands)@, commands@, old(errors)@, errors@, t0, a0, 0, o, r));
            Self::lemma_precedes_trans(old(self).spec_manager(), m0, self.spec_manager());
            if !old(self).spec_tick_events().spec_is_empty() && Self::no_spawns(old(self).spec_tick_events()) {
                assert(follow@ =~= Seq::<WorldEvent<P>>::empty());
            }
        }
        r
    }

    /// Continues a settle after `passes_done` passes whose last one asked for
    /// `follow`: expands those events and runs passes until nothing is
    /// pending, or the ceiling is reached.
    pub fn continue_settle<C: BeingType<P>>(
        &mut self,
        catalog: &C,
        follow: Vec<WorldEvent<P>>,
        passes_done: u32,
        commands: &mut Vec<RenderCommand<P>>,
        errors: &mut Vec<GameError>,
    ) -> (r: Result<u32, GameError>)
        requires
            old(self).wf(),
            passes_done <= old(self).spec_max_passes(),
        ensures
            final(self).wf(),
            final(self).spec_max_passes() == old(self).spec_max_passes(),
            old(self).spec_manager().precedes(&final(self).spec_manager()),
            r matches Ok(n) ==> final(self).spec_tick_events().spec_is_empty() && passes_done <= n <= old(self).spec_max_passes(),
            r matches Err(x) ==> x is TooManyPasses && final(self).spec_tick_events().ranks().contains(x->TooManyPasses_0),
            exists|made: Seq<Seq<Built<P>>>|
                Self::settles(
                    *old(self),
                    *final(self),
                    old(commands)@,
                    final(commands)@,
                    old(errors)@,
                    final(errors)@,
                    expand_ticks(old(self).spec_tick_events().buckets(), tick_part(popped(follow@))),
                    expand_afters(old(self).spec_tick_after_events().buckets(), after_part(popped(follow@))),
                    passes_done as nat,
                    made,
                    r,
                ),
            old(self).spec_tick_events().spec_is_empty() && follow@.len() == 0 ==> r == Ok::<u32, GameError>(passes_done),
            old(self).spec_tick_events().spec_is_empty() && spawn_free(follow@) && passes_done < old(self).spec_max_passes()
                ==> r is Ok && r->Ok_0 <= passes_done + 1,
    {
        let mut passes = passes_done;
        let ghost q0 = self.tick_events;
        let ghost fs = follow@;
        let (tick, after) = split_events(follow);
        self.expand_tick_events(tick);
        self.expand_tick_after_events(after);
        proof {
            if q0.spec_is_empty() && spawn_free(fs) {
                assert forall|r: u32, i: int| 0 <= i < self.spec_tick_events().bucket(r).len() implies !(
                #[trigger] self.spec_tick_events().bucket(r)[i]).is_spawn() by {
                    let e = self.spec_tick_events().bucket(r)[i];
                    assert(q0.bucket(r).len() == 0);
                    assert(self.spec_tick_events().bucket(r) =~= popped(tick@).filter(|e: TickEvent<P>| e.rank() == r));
                    assert(popped(tick@).filter(|e: TickEvent<P>| e.rank() == r).contains(e));
                    popped(tick@).lemma_filter_contains_rev(|e: TickEvent<P>| e.rank() == r, e);
                    lemma_spawn_free_part(fs, e);
                }
            }
            if q0.spec_is_empty() && fs.len() == 0 {
                assert(popped(fs) =~= Seq::<WorldEvent<P>>::empty());
                assert(tick@ =~= Seq::<TickEvent<P>>::empty());
                assert(popped(tick@) =~= Seq::<TickEvent<P>>::empty());
                assert forall|r: u32| #[trigger] self.spec_tick_events().bucket(r).len() == 0 by {
                    reveal(Seq::filter);
                    assert(q0.bucket(r).len() == 0);
                    assert(self.spec_tick_events().bucket(r) =~= q0.bucket(r) + Seq::<TickEvent<P>>::empty());
                }
                crate::rank_queue::lemma_empty_buckets(self.spec_tick_events());
            }
        }
        let ghost start = passes;
        let ghost free = q0.spec_is_empty() && spawn_free(fs) && start < old(self).spec_max_passes();
        let ghost init = Self::state(*self, Seq::empty(), commands@, errors@);
        let ghost t0 = self.spec_tick_events().buckets();
        let ghost a0 = self.spec_tick_after_events().buckets();
        let ghost max = self.spec_max_passes() as nat;
        let ghost mut log: Seq<Seq<Built<P>>> = Seq::empty();
        assert(init == Self::state(*old(self), Seq::empty(), old(commands)@, old(errors)@));
        while !self.tick_events.is_empty()
            invariant
                init == Self::state(*old(self), Seq::empty(), old(commands)@, old(errors)@),
                t0 == expand_ticks(old(self).spec_tick_events().buckets(), tick_part(popped(follow@))),
                a0 == expand_afters(old(self).spec_tick_after_events().buckets(), after_part(popped(follow@))),
                max == old(self).spec_max_passes() as nat,
                log.len() == passes - start,
                forall|o: Seq<Seq<Built<P>>>| (forall|q: int| start <= q < passes ==> o[q] == log[q - start]) ==> #[trigger] settle_from(
                    init,
                    t0,
                    a0,
                    start as nat,
                    max,
                    o,
                ) == settle_from(
                    Self::state(*self, Seq::empty(), commands@, errors@),
                    self.spec_tick_events().buckets(),
                    self.spec_tick_after_events().buckets(),
                    passes as nat,
                    max,
                    o,
                ),
                self.wf(),
                self.spec_max_passes() == old(self).spec_max_passes(),
                old(self).spec_manager().precedes(&self.spec_manager()),
                start <= passes <= self.spec_max_passes(),
                start == passes_done,
                q0 == old(self).spec_tick_events(),
                fs == follow@,
                free == (q0.spec_is_empty() && spawn_free(fs) && start < old(self).spec_max_passes()),
                q0.spec_is_empty() && fs.len() == 0 ==> passes == start && self.spec_tick_events().spec_is_empty(),
                free ==> (passes == start && Self::no_spawns(self.spec_tick_events())) || (passes == start + 1
                    && self.spec_tick_events().spec_is_empty()),
            decreases self.spec_max_passes() - passes,
        {
            if passes >= self.max_passes {
                let rank = self.tick_events.top_rank();
                proof {
                    Self::lemma_top_key(self.tick_events, rank);
                    let o = Seq::new(passes as nat, |q: int| if q >= start { log[q - start] } else { Seq::empty() });
                    assert(Self::settles(*old(self), *self, old(commands)@, commands@, old(errors)@, errors@, t0, a0, start as nat, o, Err(GameError::TooManyPasses(rank))));
                }
                return Err(GameError::TooManyPasses(rank));
            }
            let ghost m0 = self.manager;
            let ghost pre = Self::state(*self, Seq::empty(), commands@, errors@);
            let ghost pre_ticks = self.spec_tick_events().buckets();
            let ghost pre_after = self.spec_tick_after_events().buckets();
            let ghost pre_passes = passes;
            let follow = self.run_pass(catalog, commands, errors);
            let ghost bs = choose|made: Seq<Built<P>>|
                Self::state(*self, follow@, commands@, errors@) == #[trigger] Self::pass_result(pre, pre_ticks, made);
            let ghost mid = Self::state(*self, Seq::empty(), commands@, errors@);
            proof {
                assert(Settle { out: Seq::empty(), ..pre } == pre);
                assert(self.spec_tick_events().buckets() == Map::<u32, Seq<TickEvent<P>>>::empty());
            }
            passes = passes + 1;
            let (tick, after) = split_events(follow);
            let ghost q1 = self.tick_events;
            self.expand_tick_events(tick);
            self.expand_tick_after_events(after);
            proof {
                assert forall|o: Seq<Seq<Built<P>>>| (forall|q: int| start <= q < passes ==> o[q] == log.push(bs)[q - start]) implies #[trigger] settle_from(
                    init,
                    t0,
                    a0,
                    start as nat,
                    max,
                    o,
                ) == settle_from(
                    Self::state(*self, Seq::empty(), commands@, errors@),
                    self.spec_tick_events().buckets(),
                    self.spec_tick_after_events().buckets(),
                    passes as nat,
                    max,
                    o,
                ) by {
                    assert forall|q: int| start <= q < pre_passes implies o[q] == log[q - start] by {
                        assert(log.push(bs)[q - start] == log[q - start]);
                    }
                    assert(o[pre_passes as int] == bs);
                    assert(Settle { out: Seq::empty(), ..Self::state(*self, follow@, commands@, errors@) } == mid);
                }
                log = log.push(bs);
            }
            proof {
                Self::lemma_precedes_trans(old(self).spec_manager(), m0, self.spec_manager());
                if follow@.len() == 0 {
                    assert(popped(follow@) =~= Seq::<WorldEvent<P>>::empty());
                    assert(tick@ =~= Seq::<TickEvent<P>>::empty());
                    assert(popped(tick@) =~= Seq::<TickEvent<P>>::empty());
                    assert forall|r: u32| #[trigger] self.spec_tick_events().bucket(r).len() == 0 by {
                        reveal(Seq::filter);
                        assert(q1.bucket(r).len() == 0);
                        assert(self.spec_tick_events().bucket(r) =~= q1.bucket(r) + Seq::<TickEvent<P>>::empty());
                    }
                    crate::rank_queue::lemma_empty_buckets(self.spec_tick_events());
                }
            }
        }
        proof {
            let o = Seq::new(passes as nat, |q: int| if q >= start { log[q - start] } else { Seq::empty() });
            assert(Self::settles(*old(self), *self, old(commands)@, commands@, old(errors)@, errors@, t0, a0, start as nat, o, Ok(passes)));
        }
        Ok(passes)
    }

    /// Applies one post-tick event: destroys an actor, or queues a graphics
    /// update for the renderer in `commands`.
    pub fn apply_tick_after_event(&mut self, event: TickAfterEvent<P>, commands: &mut Vec<RenderCommand<P>>) -> (r:
        Result<(), GameError>)
        requires
            old(self).wf(),
        ensures
            final(self).wf(),
            old(self).same_queues(final(self)),
            final(self).spec_manager() == old(self).spec_manager(),
            ({
                let d = after_effect::<P>(old(self).spec_world().model(), old(self).spec_manager().counts(), event);
                &&& final(self).spec_world().model() == d.world
                &&& final(commands)@ == old(commands)@ + d.commands
                &&& match r {
                    Ok(_) => d.errors == Seq::<GameError>::empty(),
                    Err(x) => d.errors == seq![x],
                }
            }),
            event matches TickAfterEvent::EndBeing(id) ==> {
                let w0 = old(self).spec_world();
                let w1 = final(self).spec_world();
                &&& final(commands)@ == old(commands)@
                &&& w1.bases() == w0.bases()
                &&& if w0.has_being(id) {
                    r is Ok && w1.beings() == w0.beings().remove(id.value)
                } else {
                    r == Err::<(), GameError>(GameError::BeingNotFound(id)) && w0.unchanged(&w1)
                }
            },
            event matches TickAfterEvent::Entity(id, slot, ev) ==> {
                &&& old(self).spec_world().unchanged(&final(self).spec_world())
                &&& match old(self).spec_world().lookup_part(Owner::Being(id), slot) {
                    Err(x) => r == Err::<(), GameError>(x) && final(commands)@ == old(commands)@,
                    Ok(e) => r is Ok && final(commands)@ == old(commands)@.push(graphics_command(e, ev)),
                }
            },
            event matches TickAfterEvent::EntityBase(t, slot, ev) ==> {
                &&& old(self).spec_world().unchanged(&final(self).spec_world())
                &&& match old(self).spec_world().lookup_part(Owner::Base(t), slot) {
                    Err(x) => r == Err::<(), GameError>(x) && final(commands)@ == old(commands)@,
                    Ok(e) => r is Ok && final(commands)@ == old(commands)@.push(graphics_command(e, ev)),
                }
            },
    {
        match event {
            TickAfterEvent::EndBeing(id) => {
                let ghost w0 = self.world;
                match self.world.del_being(id) {
                    Some(_) => {
                        assert forall|k: u64| #[trigger] self.world.beings().contains_key(k) implies self.manager.has_issued(IDType::Being, k) by {
                            assert(w0.beings().contains_key(k));
                        }
                        Ok(())
                    },
                    None => Err(GameError::BeingNotFound(id)),
                }
            },
            TickAfterEvent::Entity(id, slot, ev) => self.graphics(Owner::Being(id), slot, ev, commands),
            TickAfterEvent::EntityBase(t, slot, ev) => self.graphics(Owner::Base(t), slot, ev, commands),
        }
    }

    /// Settles the post-tick family: one event at a time, lowest rank first,
    /// so destruction comes before graphics updates. Events that fail are
    /// skipped and their errors recorded in `errors`.
    pub fn execute_tick_after_events(&mut self, commands: &mut Vec<RenderCommand<P>>, errors: &mut Vec<GameError>)
        requires
            old(self).wf(),
        ensures
            final(self).wf(),
            final(self).spec_tick_after_events().spec_is_empty(),
            final(self).spec_tick_events() == old(self).spec_tick_events(),
            final(self).spec_max_passes() == old(self).spec_max_passes(),
            final(self).spec_manager() == old(self).spec_manager(),
            final(self).spec_world().bases() == old(self).spec_world().bases(),
            final(self).spec_world().beings().dom().subset_of(old(self).spec_world().beings().dom()),
            forall|k: u64| #[trigger] final(self).spec_world().beings().contains_key(k) ==> final(self).spec_world().beings()[k]
                == old(self).spec_world().beings()[k],
            old(self).spec_tick_after_events().spec_is_empty() ==> final(self).spec_world() == old(self).spec_world()
                && final(commands)@ == old(commands)@ && final(errors)@ == old(errors)@,
            forall|id: ID| #[trigger] pending_end(old(self).spec_tick_after_events(), id)
                ==> !final(self).spec_world().has_being(id),
            Self::state(*final(self), Seq::empty(), final(commands)@, final(errors)@) == after_result(
                Self::state(*old(self), Seq::empty(), old(commands)@, old(errors)@),
                old(self).spec_tick_after_events().buckets(),
            ),
    {
        let ghost s0 = Self::state(*self, Seq::empty(), commands@, errors@);
        let ghost b0 = self.tick_after_events.buckets();
        let ghost mut done: Seq<TickAfterEvent<P>> = Seq::empty();
        while !self.tick_after_events.is_empty()
            invariant
                s0 == Self::state(*old(self), Seq::empty(), old(commands)@, old(errors)@),
                b0 == old(self).spec_tick_after_events().buckets(),
                Self::state(*self, Seq::empty(), commands@, errors@) == run_afters(s0, done),
                done + asc_schedule(self.spec_tick_after_events().buckets(), 0) == asc_schedule(b0, 0),
                self.wf(),
                self.spec_tick_events() == old(self).spec_tick_events(),
                self.spec_max_passes() == old(self).spec_max_passes(),
                self.spec_manager() == old(self).spec_manager(),
                self.spec_world().bases() == old(self).spec_world().bases(),
                self.spec_world().beings().dom().subset_of(old(self).spec_world().beings().dom()),
                forall|k: u64| #[trigger] self.spec_world().beings().contains_key(k) ==> self.spec_world().beings()[k]
                    == old(self).spec_world().beings()[k],
                old(self).spec_tick_after_events().spec_is_empty() ==> *self == *old(self) && commands@ == old(
                    commands,
                )@ && errors@ == old(errors)@,
                forall|id: ID| #[trigger] pending_end(old(self).spec_tick_after_events(), id) ==> pending_end(
                    self.spec_tick_after_events(),
                    id,
                ) || !self.spec_world().has_being(id),
            decreases self.spec_tick_after_events().ranks().len(),
        {
            let ghost q0 = self.tick_after_events;
            let (_rank, bucket) = match self.tick_after_events.take_lowest() {
                Some(p) => p,
                None => {
                    assert(false);
                    return;
                },
            };
            let mut bucket = bucket;
            let ghost bk = bucket@;
            proof {
                assert forall|k: u32| #[trigger] q0.buckets().contains_key(k) implies _rank <= k by {
                    crate::rank_queue::lemma_keys_active(q0, k);
                }
                crate::rank_queue::lemma_asc_take(q0.buckets(), _rank);
                assert(bk == q0.buckets()[_rank]);
            }
            assert forall|r2: u32, i: int| 0 <= i < self.spec_tick_after_events().bucket(r2).len() implies (
            #[trigger] self.spec_tick_after_events().bucket(r2)[i]).rank() == r2 by {
                assert(self.spec_tick_after_events().bucket(r2) == q0.bucket(r2));
            }
            let ghost mut k: int = 0;
            let ghost q1 = self.tick_after_events;
            assert forall|id: ID| #[trigger] pending_end(q0, id) implies pending_end(self.spec_tick_after_events(), id)
                || ends_in(bucket@, id) by {
                let r2 = choose|r2: u32| #[trigger] ends_in(q0.bucket(r2), id);
                if r2 != _rank {
                    assert(self.spec_tick_after_events().bucket(r2) == q0.bucket(r2));
                }
            }
            while bucket.len() > 0
                invariant
                    self.wf(),
                    self.spec_tick_events() == old(self).spec_tick_events(),
                    self.spec_max_passes() == old(self).spec_max_passes(),
                    self.spec_manager() == old(self).spec_manager(),
                    self.spec_world().bases() == old(self).spec_world().bases(),
                    self.spec_world().beings().dom().subset_of(old(self).spec_world().beings().dom()),
                    forall|k: u64| #[trigger] self.spec_world().beings().contains_key(k) ==> self.spec_world().beings()[k]
                        == old(self).spec_world().beings()[k],
                    self.spec_tick_after_events().ranks().len() < q0.ranks().len(),
                    forall|id: ID| #[trigger] pending_end(old(self).spec_tick_after_events(), id) ==> pending_end(
                        self.spec_tick_after_events(),
                        id,
                    ) || ends_in(bucket@, id) || !self.spec_world().has_being(id),
                    self.spec_tick_after_events() == q1,
                    q1.buckets() == q0.buckets().remove(_rank),
                    bk == q0.buckets()[_rank],
                    asc_schedule(q0.buckets(), 0) == popped(bk) + asc_schedule(q1.buckets(), 0),
                    done + asc_schedule(q0.buckets(), 0) == asc_schedule(b0, 0),
                    s0 == Self::state(*old(self), Seq::empty(), old(commands)@, old(errors)@),
                    0 <= k <= bk.len(),
                    bucket@ == bk.subrange(0, bk.len() - k),
                    Self::state(*self, Seq::empty(), commands@, errors@) == run_afters(s0, done + popped(bk).subrange(0, k)),
                decreases bucket@.len(),
            {
                let ghost b0 = bucket@;
                let ghost w0 = self.world;
                let ghost before = Self::state(*self, Seq::empty(), commands@, errors@);
                let ghost x = done + popped(bk).subrange(0, k);
                let e = bucket.pop().unwrap();
                proof {
                    assert(e == popped(bk)[k]);
                }
                proof {
                    assert forall|id: ID| #[trigger] ends_in(b0, id) implies ends_in(bucket@, id) || (e is EndBeing
                        && e->EndBeing_0 == id) by {
                        let i = choose|i: int| 0 <= i < b0.len() && (#[trigger] b0[i]) is EndBeing && b0[i]->EndBeing_0 == id;
                        if i < bucket@.len() {
                            assert(bucket@[i] == b0[i]);
                        }
                    }
                }
                let ghost ev = e;
                match self.apply_tick_after_event(e, commands) {
                    Ok(()) => {},
                    Err(x) => {
                        errors.push(x);
                    },
                }
                proof {
                    assert forall|id: ID| #[trigger] pending_end(old(self).spec_tick_after_events(), id) implies pending_end(
                        self.spec_tick_after_events(),
                        id,
                    ) || ends_in(bucket@, id) || !self.spec_world().has_being(id) by {
                        if !w0.has_being(id) {
                            assert(!self.spec_world().has_being(id));
                        }
                    }
                    let d = after_effect::<P>(before.world, before.counts, ev);
                    assert(errors@ =~= before.errors + d.errors);
                    assert(Self::state(*self, Seq::empty(), commands@, errors@) == after_step(before, ev));
                    assert((done + popped(bk).subrange(0, k + 1)).drop_last() =~= x);
                    assert((done + popped(bk).subrange(0, k + 1)).last() == ev);
                    k = k + 1;
                    assert(bucket@ =~= bk.subrange(0, bk.len() - k));
                }
            }
            proof {
                assert(popped(bk).subrange(0, k) =~= popped(bk));
                assert(done + popped(bk) + asc_schedule(self.spec_tick_after_events().buckets(), 0) =~= done + (popped(bk)
                    + asc_schedule(self.spec_tick_after_events().buckets(), 0)));
                done = done + popped(bk);
            }
        }
        proof {
            crate::rank_queue::lemma_asc_empty(self.spec_tick_after_events().buckets(), 0);
            assert(done =~= done + asc_schedule(self.spec_tick_after_events().buckets(), 0));
        }
    }

    /// Asks every live actor, oldest first, for its proposals for this tick.
    pub fn tick<C: BeingType<P>>(&self, catalog: &C) -> (r: Vec<TickEvent<P>>)
        requires
            self.wf(),
        ensures
            exists|parts: Seq<Seq<TickEvent<P>>>| parts.len() == self.spec_world().order().len() && r@ == #[trigger] concat(parts),
    {
        let mut events: Vec<TickEvent<P>> = Vec::new();
        let ghost mut parts: Seq<Seq<TickEvent<P>>> = Seq::empty();
        let n = self.world.len();
        let mut i: usize = 0;
        while i < n
            invariant
                self.wf(),
                n == self.spec_world().order().len(),
                0 <= i <= n,
                parts.len() == i,
                events@ == concat(parts),
            decreases n - i,
        {
            let id = self.world.being_id_at(i);
            match self.world.get_being(id) {
                Some(b) => {
                    let mut proposed = catalog.tick(b, &self.world);
                    proof {
                        assert(parts.push(proposed@).drop_last() =~= parts);
                        parts = parts.push(proposed@);
                    }
                    events.append(&mut proposed);
                },
                None => {
                    assert(false);
                },
            }
            i = i + 1;
        }
        events
    }

    /// Asks every live actor, oldest first, for its post-tick events.
    pub fn tick_after<C: BeingType<P>>(&self, catalog: &C) -> (r: Vec<TickAfterEvent<P>>)
        requires
            self.wf(),
        ensures
            exists|parts: Seq<Seq<TickAfterEvent<P>>>| parts.len() == self.spec_world().order().len() && r@ == #[trigger] concat(parts),
    {
        let mut events: Vec<TickAfterEvent<P>> = Vec::new();
        let ghost mut parts: Seq<Seq<TickAfterEvent<P>>> = Seq::empty();
        let n = self.world.len();
        let mut i: usize = 0;
        while i < n
            invariant
                self.wf(),
                n == self.spec_world().order().len(),
                0 <= i <= n,
                parts.len() == i,
                events@ == concat(parts),
            decreases n - i,
        {
            let id = self.world.being_id_at(i);
            match self.world.get_being(id) {
                Some(b) => {
                    let mut proposed = catalog.tick_after(b, &self.world);
                    proof {
                        assert(parts.push(proposed@).drop_last() =~= parts);
                        parts = parts.push(proposed@);
                    }
                    events.append(&mut proposed);
                },
                None => {
                    assert(false);
                },
            }
            i = i + 1;
        }
        events
    }

    /// Seeds the scheduler with a batch of events of either family.
    pub fn add_events(&mut self, events: Vec<WorldEvent<P>>)
        requires
            old(self).wf(),
        ensures
            final(self).wf(),
            final(self).spec_world() == old(self).spec_world(),
            final(self).spec_manager() == old(self).spec_manager(),
            final(self).spec_max_passes() == old(self).spec_max_passes(),
            forall|r: u32| #[trigger] final(self).spec_tick_events().bucket(r) == old(self).spec_tick_events().bucket(r)
                + popped(tick_part(popped(events@))).filter(|e: TickEvent<P>| e.rank() == r),
            forall|r: u32| #[trigger] final(self).spec_tick_after_events().bucket(r) == old(self).spec_tick_after_events().bucket(r)
                + popped(after_part(popped(events@))).filter(|e: TickAfterEvent<P>| e.rank() == r),
            final(self).spec_tick_events().buckets() == expand_ticks(old(self).spec_tick_events().buckets(), tick_part(popped(events@))),
            final(self).spec_tick_after_events().buckets() == expand_afters(
                old(self).spec_tick_after_events().buckets(),
                after_part(popped(events@)),
            ),
            final(self).spec_tick_events().ranks().no_duplicates(),
            forall|r: u32| #[trigger] final(self).spec_tick_events().ranks().contains(r) <==> final(self).spec_tick_events().bucket(r).len() > 0,
            final(self).spec_tick_after_events().ranks().no_duplicates(),
            forall|r: u32| #[trigger] final(self).spec_tick_after_events().ranks().contains(r) <==> final(self).spec_tick_after_events().bucket(r).len() > 0,
    {
        let (tick, after) = split_events(events);
        self.expand_tick_events(tick);
        self.expand_tick_after_events(after);
    }

    /// Runs one simulation step: settles the events already pending and
    /// what the actors propose, then the post-tick family, and returns the
    /// renderer updates and the errors of skipped events. Both families are
    /// empty afterwards unless the pass ceiling was reached.
    pub fn step<C: BeingType<P>>(&mut self, catalog: &C) -> (r: Result<(Vec<RenderCommand<P>>, Vec<GameError>), GameError>)
        requires
            old(self).wf(),
        ensures
            final(self).wf(),
            final(self).spec_max_passes() == old(self).spec_max_passes(),
            r is Ok ==> final(self).spec_tick_events().spec_is_empty() && final(self).spec_tick_after_events().spec_is_empty(),
            r matches Err(x) ==> x is TooManyPasses,
            exists|parts: Seq<Seq<TickEvent<P>>>, made: Seq<Seq<Built<P>>>, asked: Seq<Seq<TickAfterEvent<P>>>|
                parts.len() == old(self).spec_world().order().len() && #[trigger] Self::drives(
                    *old(self),
                    *final(self),
                    expand_ticks(old(self).spec_tick_events().buckets(), concat(parts)),
                    old(self).spec_tick_after_events().buckets(),
                    made,
                    true,
                    asked,
                    r,
                ),
    {
        let mut commands: Vec<RenderCommand<P>> = Vec::new();
        let mut errors: Vec<GameError> = Vec::new();
        let proposed = self.tick(catalog);
        let ghost parts = choose|parts: Seq<Seq<TickEvent<P>>>|
            parts.len() == self.spec_world().order().len() && proposed@ == #[trigger] concat(parts);
        self.expand_tick_events(proposed);
        let ghost g1 = *self;
        let r1 = self.execute_tick_events(catalog, &mut commands, &mut errors);
        let ghost made = choose|made: Seq<Seq<Built<P>>>|
            Self::settles(
                g1,
                *self,
                Seq::empty(),
                commands@,
                Seq::empty(),
                errors@,
                g1.spec_tick_events().buckets(),
                g1.spec_tick_after_events().buckets(),
                0,
                made,
                r1,
            );
        proof {
            assert(Self::state(g1, Seq::empty(), Seq::empty(), Seq::empty()) == Self::state(*old(self), Seq::empty(), Seq::empty(), Seq::empty()));
        }
        match r1 {
            Err(x) => {
                let r = Err(x);
                proof {
                    assert(Self::drives(
                        *old(self),
                        *self,
                        expand_ticks(old(self).spec_tick_events().buckets(), concat(parts)),
                        old(self).spec_tick_after_events().buckets(),
                        made,
                        true,
                        Seq::empty(),
                        r,
                    ));
                }
                return r;
            },
            Ok(_) => {},
        }
        let proposed_after = self.tick_after(catalog);
        let ghost asked = choose|parts: Seq<Seq<TickAfterEvent<P>>>|
            parts.len() == self.spec_world().order().len() && proposed_after@ == #[trigger] concat(parts);
        self.expand_tick_after_events(proposed_after);
        self.execute_tick_after_events(&mut commands, &mut errors);
        let r = Ok((commands, errors));
        proof {
            assert(Self::drives(
                *old(self),
                *self,
                expand_ticks(old(self).spec_tick_events().buckets(), concat(parts)),
                old(self).spec_tick_after_events().buckets(),
                made,
                true,
                asked,
                r,
            ));
        }
        r
    }

    /// Settles a starting batch: the tick family to its fixpoint, then the
    /// post-tick family, without asking the actors for proposals.
    pub fn starting_events<C: BeingType<P>>(&mut self, catalog: &C, events: Vec<WorldEvent<P>>) -> (r: Result<
        (Vec<RenderCommand<P>>, Vec<GameError>),
        GameError,
    >)
        requires
            old(self).wf(),
        ensures
            final(self).wf(),
            final(self).spec_max_passes() == old(self).spec_max_passes(),
            r is Ok ==> final(self).spec_tick_events().spec_is_empty() && final(self).spec_tick_after_events().spec_is_empty(),
            r matches Err(x) ==> x is TooManyPasses,
            exists|made: Seq<Seq<Built<P>>>|
                #[trigger] Self::drives(
                    *old(self),
                    *final(self),
                    expand_ticks(old(self).spec_tick_events().buckets(), tick_part(popped(events@))),
                    expand_afters(old(self).spec_tick_after_events().buckets(), after_part(popped(events@))),
                    made,
                    false,
                    Seq::empty(),
                    r,
                ),
    {
        let mut commands: Vec<RenderCommand<P>> = Vec::new();
        let mut errors: Vec<GameError> = Vec::new();
        let ghost ev = events@;
        self.add_events(events);
        let ghost g1 = *self;
        let r1 = self.execute_tick_events(catalog, &mut commands, &mut errors);
        let ghost made = choose|made: Seq<Seq<Built<P>>>|
            Self::settles(
                g1,
                *self,
                Seq::empty(),
                commands@,
                Seq::empty(),
                errors@,
                g1.spec_tick_events().buckets(),
                g1.spec_tick_after_events().buckets(),
                0,
                made,
                r1,
            );
        proof {
            assert(Self::state(g1, Seq::empty(), Seq::empty(), Seq::empty()) == Self::state(*old(self), Seq::empty(), Seq::empty(), Seq::empty()));
        }
        match r1 {
            Err(x) => {
                let r = Err(x);
                proof {
                    assert(Self::drives(
                        *old(self),
                        *self,
                        expand_ticks(old(self).spec_tick_events().buckets(), tick_part(popped(ev))),
                        expand_afters(old(self).spec_tick_after_events().buckets(), after_part(popped(ev))),
                        made,
                        false,
                        Seq::empty(),
                        r,
                    ));
                }
                return r;
            },
            Ok(_) => {},
        }
        proof {
            let q = self.spec_tick_after_events();
            crate::rank_queue::lemma_buckets_determined(q);
            assert(popped(Seq::<TickAfterEvent<P>>::empty()) =~= Seq::<TickAfterEvent<P>>::empty());
            assert(expand_afters(q.buckets(), Seq::empty()) =~= q.buckets()) by {
                assert forall|r: u32| #[trigger] expand_afters(q.buckets(), Seq::empty()).contains_key(r) == q.buckets().contains_key(r) by {
                    reveal(Seq::filter);
                    assert(popped(Seq::<TickAfterEvent<P>>::empty()).filter(|e: TickAfterEvent<P>| e.rank() == r).len() == 0);
                    assert(bucket_of(q.buckets(), r) + Seq::<TickAfterEvent<P>>::empty() =~= bucket_of(q.buckets(), r));
                }
                assert forall|r: u32| #[trigger] q.buckets().contains_key(r) implies expand_afters(q.buckets(), Seq::empty())[r] == q.buckets()[r] by {
                    reveal(Seq::filter);
                    assert(popped(Seq::<TickAfterEvent<P>>::empty()).filter(|e: TickAfterEvent<P>| e.rank() == r) =~= Seq::<TickAfterEvent<P>>::empty());
                    assert(bucket_of(q.buckets(), r) + Seq::<TickAfterEvent<P>>::empty() =~= bucket_of(q.buckets(), r));
                }
            }
        }
        self.execute_tick_after_events(&mut commands, &mut errors);
        let r = Ok((commands, errors));
        proof {
            assert(concat(Seq::<Seq<TickAfterEvent<P>>>::empty()) == Seq::<TickAfterEvent<P>>::empty());
            assert(Self::drives(
                *old(self),
                *self,
                expand_ticks(old(self).spec_tick_events().buckets(), tick_part(popped(ev))),
                expand_afters(old(self).spec_tick_after_events().buckets(), after_part(popped(ev))),
                made,
                false,
                Seq::empty(),
                r,
            ));
        }
        r
    }

    /// Drops every pending event of both families.
    pub fn clear(&mut self)
        requires
            old(self).wf(),
        ensures
            final(self).wf(),
            final(self).spec_world() == old(self).spec_world(),
            final(self).spec_manager() == old(self).spec_manager(),
            final(self).spec_max_passes() == old(self).spec_max_passes(),
            final(self).spec_tick_events().spec_is_empty(),
            final(self).spec_tick_after_events().spec_is_empty(),
    {
        self.tick_events.clear();
        self.tick_after_events.clear();
    }
}

} // verus!
