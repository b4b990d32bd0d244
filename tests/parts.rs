use polyclops::{
    get_rank_tick, get_rank_tick_after, split_events, Being, BeingArgs, Entity, EntityGraphicsEvent, EntityIDEvent,
    EntityIDType, Field, IDManager, IDType, RankQueue, TickAfterEvent, TickEvent, TransformEvent, Vec2, Vec2Event,
    Vec3, Vec3Event, World, WorldEvent, ID, UNSET,
};
use std::collections::HashSet;

fn being_id(v: u64) -> ID {
    ID { kind: IDType::Being, value: v }
}

#[test]
fn identifiers_are_distinct_per_category() {
    let mut m = IDManager::new();
    let mut seen = HashSet::new();
    for _ in 0..10000 {
        let id = ID::new(&mut m, IDType::Vertex);
        assert_eq!(id.kind, IDType::Vertex);
        assert!(seen.insert(id.value));
    }
    assert_eq!(seen.len(), 10000);
    assert_eq!(ID::new(&mut m, IDType::Texture).value, 0);
    assert_eq!(ID::new(&mut m, IDType::Vertex).value, 10000);
    assert_eq!(m.remaining(IDType::Texture), u64::MAX - 1);
    assert!(m.can_issue(IDType::Model));
}

#[test]
fn entity_new_issues_one_handle_of_each_kind() {
    let mut m = IDManager::new();
    let a = Entity::new(&mut m);
    let b = Entity::new(&mut m);
    assert_eq!(a.vertex_id, ID { kind: IDType::Vertex, value: 0 });
    assert_eq!(b.vertex_id, ID { kind: IDType::Vertex, value: 1 });
    assert_eq!(b.model_id, ID { kind: IDType::Model, value: 1 });
    assert_eq!(Entity::new_from(&a), a);
    let u = Entity::unset();
    assert_eq!(u.texture_id, ID { kind: IDType::Texture, value: UNSET });
}

#[test]
fn entity_rewiring() {
    let mut m = IDManager::new();
    let a = Entity::new(&mut m);
    let mut b = Entity::new(&mut m);
    b.use_other_id(&a, EntityIDType::Texture);
    assert_eq!(b.texture_id, a.texture_id);
    assert_ne!(b.vertex_id, a.vertex_id);
    b.use_other_ids(&a, &vec![EntityIDType::Vertex, EntityIDType::Index]);
    assert_eq!(b.vertex_id, a.vertex_id);
    assert_eq!(b.index_id, a.index_id);
    assert_ne!(b.model_id, a.model_id);
    b.use_new_id(&mut m, EntityIDType::Vertex);
    assert_eq!(b.vertex_id, ID { kind: IDType::Vertex, value: 2 });
    b.use_new_ids(&mut m, &vec![EntityIDType::Model, EntityIDType::View]);
    assert_eq!(b.model_id, ID { kind: IDType::Model, value: 2 });
    assert_eq!(b.view_id, ID { kind: IDType::View, value: 2 });
    assert_eq!(b.get(EntityIDType::View), b.view_id);
    b.set(EntityIDType::Perspective, a.perspective_id);
    assert_eq!(b.perspective_id, a.perspective_id);
}

#[test]
fn tick_ranks_follow_the_table() {
    let id = being_id(0);
    let v3 = Vec3::from_vals(1, 2, 3);
    let v2 = Vec2::from_vals(1, 2);
    assert_eq!(get_rank_tick::<u32>(&TickEvent::NewBase(1)), 200);
    assert_eq!(get_rank_tick::<u32>(&TickEvent::NewBeing(1, BeingArgs::new())), 100);
    assert_eq!(get_rank_tick::<u32>(&TickEvent::Pos3(id, Vec3Event::Assign(v3))), 5);
    assert_eq!(get_rank_tick::<u32>(&TickEvent::Sca2(id, Vec2Event::Add(v2))), 6);
    assert_eq!(get_rank_tick::<u32>(&TickEvent::Rot3(id, Vec3Event::Mul(v3))), 7);
    assert_eq!(get_rank_tick::<u32>(&TickEvent::Vel2(id, Vec2Event::Assign(v2))), 10);
    assert_eq!(get_rank_tick::<u32>(&TickEvent::Vel3(id, Vec3Event::Mul(v3))), 12);
    assert_eq!(get_rank_tick::<u32>(&TickEvent::Acc3(id, Vec3Event::Add(v3))), 16);
    assert_eq!(get_rank_tick::<u32>(&TickEvent::Acc2(id, Vec2Event::Mul(v2))), 17);
    assert_eq!(get_rank_tick::<u32>(&TickEvent::EntityID(id, 0, EntityIDEvent::UseNewID(vec![]))), 4);
    assert_eq!(get_rank_tick::<u32>(&TickEvent::EntityID(id, 0, EntityIDEvent::UseOldID(id, 0, vec![]))), 3);
    assert_eq!(get_rank_tick::<u32>(&TickEvent::EntityIDBase(1, 0, EntityIDEvent::UseBaseID(1, 0, vec![]))), 2);
    assert_eq!(get_rank_tick(&TickEvent::Transform(id, 0, TransformEvent::Model(0u32))), 1);
    assert_eq!(get_rank_tick(&TickEvent::TransformBase(1, 0, TransformEvent::View(0u32))), 1);
    assert_eq!(get_rank_tick_after::<u32>(&TickAfterEvent::EndBeing(id)), 0);
    assert_eq!(get_rank_tick_after(&TickAfterEvent::Entity(id, 0, EntityGraphicsEvent::Indices(0u32))), 1);
    assert_eq!(get_rank_tick_after(&TickAfterEvent::EntityBase(1, 0, EntityGraphicsEvent::DrawMethod(0u32))), 1);
}

#[test]
fn vector_changes() {
    let cur = Vec3::from_vals(2, 3, 4);
    assert_eq!(Vec3Event::Assign(Vec3::from_vals(7, 8, 9)).apply(cur), Vec3::from_vals(7, 8, 9));
    assert_eq!(Vec3Event::Add(Vec3::from_vals(1, -1, 2)).apply(cur), Vec3::from_vals(3, 2, 6));
    assert_eq!(Vec3Event::Mul(Vec3::from_vals(2, 0, -1)).apply(cur), Vec3::from_vals(4, 0, -4));
    assert_eq!(Vec2Event::Assign(Vec2::from_vals(9, 9)).apply(cur), Vec3::from_vals(9, 9, 4));
    assert_eq!(Vec2Event::Add(Vec2::from_vals(1, 1)).apply(cur), Vec3::from_vals(3, 4, 4));
    assert_eq!(Vec2Event::Mul(Vec2::from_vals(3, 3)).apply(cur), Vec3::from_vals(6, 9, 4));
    assert_eq!(Vec3::from_vals(i64::MAX, 0, 0).add(Vec3::from_vals(1, 0, 0)), Vec3::from_vals(i64::MIN, 0, 0));
    assert_eq!(Vec3::from_vals(1, 2, 3).mul(Vec3::one()), Vec3::from_vals(1, 2, 3));
    assert_eq!(Vec3::from_vals(1, 2, 3).to_vec2(), Vec2::from_vals(1, 2));
    assert_eq!(Vec2::from_vals(1, 2).to_vec3(5), Vec3::from_vals(1, 2, 5));
    assert_eq!(Vec2::zero(), Vec2::from_vals(0, 0));
    assert_eq!(Vec3::zero(), Vec3::from_vals(0, 0, 0));
}

#[test]
fn being_fields_and_template_stamping() {
    let mut base = Being::new(being_id(0), 4);
    assert_eq!(base.sca, Vec3::one());
    base.set3(Field::Vel, Vec3::from_vals(1, 1, 1));
    base.set_entity(0, Entity::unset());
    let args = BeingArgs::new().with_pos(Vec3::from_vals(5, 6, 7)).with_rot(Vec3::from_vals(0, 0, 1));
    let mut b = Being::new_from_base(being_id(1), &base, &args);
    assert_eq!(b.get_id(), being_id(1));
    assert_eq!(b.get_type(), 4);
    assert_eq!(b.get3(Field::Pos), Vec3::from_vals(5, 6, 7));
    assert_eq!(b.get3(Field::Rot), Vec3::from_vals(0, 0, 1));
    assert_eq!(b.get3(Field::Vel), Vec3::from_vals(1, 1, 1));
    assert_eq!(b.get3(Field::Sca), Vec3::one());
    assert_eq!(b.get_entity(0), Some(Entity::unset()));
    assert_eq!(b.get_entity(1), None);
    b.set2(Field::Pos, Vec2::from_vals(0, 0));
    assert_eq!(b.get3(Field::Pos), Vec3::from_vals(0, 0, 7));
    assert_eq!(b.get2(Field::Pos), Vec2::from_vals(0, 0));
    b.apply3(Field::Acc, &Vec3Event::Add(Vec3::from_vals(1, 2, 3)));
    assert_eq!(b.acc, Vec3::from_vals(1, 2, 3));
    b.apply2(Field::Acc, &Vec2Event::Mul(Vec2::from_vals(2, 2)));
    assert_eq!(b.acc, Vec3::from_vals(2, 4, 3));
    let full = BeingArgs::new()
        .with_vel(Vec3::one())
        .with_acc(Vec3::one())
        .with_sca(Vec3::zero());
    assert_eq!(full.vel, Some(Vec3::one()));
    assert_eq!(full.acc, Some(Vec3::one()));
    assert_eq!(full.sca, Some(Vec3::zero()));
    assert_eq!(full.pos, None);
}

#[test]
fn world_registry() {
    let mut w = World::new();
    w.add_being(Being::new(being_id(3), 1));
    w.add_being(Being::new(being_id(5), 1));
    assert_eq!(w.len(), 2);
    assert_eq!(w.being_id_at(0), being_id(3));
    assert_eq!(w.being_id_at(1), being_id(5));
    assert!(w.get_being(being_id(3)).is_some());
    assert!(w.get_being(ID { kind: IDType::Vertex, value: 3 }).is_none());
    assert_eq!(w.del_being(being_id(3)).map(|b| b.id), Some(being_id(3)));
    assert!(w.del_being(being_id(3)).is_none());
    assert!(w.get_being(being_id(3)).is_none());
    assert_eq!(w.len(), 1);
    assert_eq!(w.being_id_at(0), being_id(5));
    assert!(w.get_base(1).is_none());
    w.set_base(1, Being::new(being_id(9), 1));
    assert_eq!(w.get_base(1).map(|b| b.id), Some(being_id(9)));
    assert!(w.update_field3(being_id(5), Field::Pos, &Vec3Event::Add(Vec3::one())).is_ok());
    assert_eq!(w.get_being(being_id(5)).unwrap().pos, Vec3::one());
    assert!(w.update_field2(being_id(4), Field::Pos, &Vec2Event::Add(Vec2::zero())).is_err());
}

#[test]
fn rank_queue_orders_buckets() {
    let mut q: RankQueue<char> = RankQueue::new();
    assert!(q.is_empty());
    q.push(5, 'a');
    q.push(200, 'b');
    q.push(1, 'c');
    q.push(5, 'd');
    assert_eq!(q.rank_count(), 3);
    assert_eq!(q.top_rank(), 200);
    let (r, b) = q.take_highest().unwrap();
    assert_eq!((r, b), (200, vec!['b']));
    let (r, b) = q.take_highest().unwrap();
    assert_eq!((r, b), (5, vec!['a', 'd']));
    let (r, _) = q.take_lowest().unwrap();
    assert_eq!(r, 1);
    assert!(q.take_highest().is_none());
    assert!(q.is_empty());
    q.push(2, 'x');
    q.push(1, 'y');
    assert_eq!(q.take_lowest().unwrap().0, 1);
    q.clear();
    assert!(q.is_empty());
}

#[test]
fn split_separates_families() {
    let id = being_id(0);
    let events: Vec<WorldEvent<u32>> = vec![
        WorldEvent::Tick(TickEvent::NewBase(1)),
        WorldEvent::TickAfter(TickAfterEvent::EndBeing(id)),
        WorldEvent::Tick(TickEvent::NewBase(2)),
    ];
    let (tick, after) = split_events(events);
    assert_eq!(tick.len(), 2);
    assert_eq!(after.len(), 1);
    assert!(matches!(tick[0], TickEvent::NewBase(2)));
    assert!(matches!(tick[1], TickEvent::NewBase(1)));
}
