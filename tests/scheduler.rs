use polyclops::{
    Being, BeingArgs, BeingType, Entity, EntityGraphicsEvent, EntityIDEvent, EntityIDType, Game, GameError, Owner,
    TickAfterEvent, TickEvent, TransformEvent, Vec3, Vec3Event, World, WorldEvent, ID, IDType,
};

const TILE: u32 = 1;
const MOVER: u32 = 2;
const LOOPER: u32 = 3;
const PART: u32 = 0;

/// Templates get one part with fresh handles; instances copy the template's
/// vertex, index and texture handles and get a fresh model handle. Movers
/// step one unit along x every tick; loopers spawn another looper forever.
struct Catalog;

impl BeingType<u32> for Catalog {
    fn make_being(&self, id: ID, being_type: u32, base: &Being, args: &BeingArgs, _world: &World) -> (Being, Vec<WorldEvent<u32>>) {
        let being = Being::new_from_base(id, base, args);
        let mut events = vec![
            WorldEvent::Tick(TickEvent::EntityID(
                id,
                PART,
                EntityIDEvent::UseBaseID(being_type, PART, vec![EntityIDType::Vertex, EntityIDType::Index, EntityIDType::Texture]),
            )),
            WorldEvent::Tick(TickEvent::EntityID(id, PART, EntityIDEvent::UseNewID(vec![EntityIDType::Model]))),
        ];
        if being_type == LOOPER {
            events.push(WorldEvent::Tick(TickEvent::NewBeing(LOOPER, BeingArgs::new())));
        }
        (being, events)
    }

    fn make_base(&self, id: ID, being_type: u32, _world: &World) -> (Being, Vec<WorldEvent<u32>>) {
        let mut base = Being::new(id, being_type);
        base.set_entity(PART, Entity::unset());
        let events = vec![
            WorldEvent::Tick(TickEvent::EntityIDBase(
                being_type,
                PART,
                EntityIDEvent::UseNewID(vec![
                    EntityIDType::Vertex,
                    EntityIDType::Index,
                    EntityIDType::Texture,
                    EntityIDType::DrawParameter,
                    EntityIDType::Perspective,
                    EntityIDType::View,
                    EntityIDType::Model,
                ]),
            )),
            WorldEvent::TickAfter(TickAfterEvent::EntityBase(being_type, PART, EntityGraphicsEvent::Vertices(7))),
        ];
        (base, events)
    }

    fn tick(&self, being: &Being, _world: &World) -> Vec<TickEvent<u32>> {
        if being.kind == MOVER {
            vec![TickEvent::Pos3(being.id, Vec3Event::Add(Vec3::from_vals(1, 0, 0)))]
        } else {
            vec![]
        }
    }

    fn tick_after(&self, _being: &Being, _world: &World) -> Vec<TickAfterEvent<u32>> {
        vec![]
    }
}

/// Spawns one given actor type through a template, then one instance.
struct OneShot;

impl BeingType<u32> for OneShot {
    fn make_being(&self, id: ID, _being_type: u32, base: &Being, args: &BeingArgs, _world: &World) -> (Being, Vec<WorldEvent<u32>>) {
        let being = Being::new_from_base(id, base, args);
        (being, vec![WorldEvent::Tick(TickEvent::Vel3(id, Vec3Event::Assign(Vec3::from_vals(0, 0, 1))))])
    }

    fn make_base(&self, id: ID, being_type: u32, _world: &World) -> (Being, Vec<WorldEvent<u32>>) {
        (Being::new(id, being_type), vec![])
    }

    fn tick(&self, _being: &Being, _world: &World) -> Vec<TickEvent<u32>> {
        vec![]
    }

    fn tick_after(&self, _being: &Being, _world: &World) -> Vec<TickAfterEvent<u32>> {
        vec![]
    }
}

fn spawn_mover(game: &mut Game<u32>) -> ID {
    let args = BeingArgs::new().with_pos(Vec3::from_vals(0, 0, 0));
    let r = game.starting_events(&Catalog, vec![
        WorldEvent::Tick(TickEvent::NewBase(MOVER)),
        WorldEvent::Tick(TickEvent::NewBeing(MOVER, args)),
    ]);
    let (_, errors) = r.unwrap();
    assert!(errors.is_empty());
    assert_eq!(game.world().len(), 1);
    game.world().being_id_at(0)
}

#[test]
fn template_and_spawn_in_one_batch_succeed() {
    let mut game: Game<u32> = Game::new(8);
    let (commands, errors) = game
        .starting_events(&Catalog, vec![
            WorldEvent::Tick(TickEvent::NewBeing(TILE, BeingArgs::new())),
            WorldEvent::Tick(TickEvent::NewBase(TILE)),
        ])
        .unwrap();
    assert!(errors.is_empty());
    assert_eq!(game.world().len(), 1);
    assert!(game.world().get_base(TILE).is_some());
    let id = game.world().being_id_at(0);
    assert_eq!(game.world().get_being(id).unwrap().kind, TILE);
    assert_eq!(commands.len(), 1);
    assert_eq!(commands[0].kind, EntityIDType::Vertex);
    assert_eq!(commands[0].payload, 7);
}

#[test]
fn spawn_without_template_is_base_not_found() {
    let mut game: Game<u32> = Game::new(8);
    let (_, errors) = game.starting_events(&Catalog, vec![WorldEvent::Tick(TickEvent::NewBeing(TILE, BeingArgs::new()))]).unwrap();
    assert_eq!(errors, vec![GameError::BaseNotFound(TILE)]);
    assert_eq!(game.world().len(), 0);
}

#[test]
fn nested_spawns_settle_in_two_passes() {
    let mut game: Game<u32> = Game::new(8);
    game.starting_events(&OneShot, vec![WorldEvent::Tick(TickEvent::NewBase(TILE))]).unwrap();
    let n = 25;
    let mut batch = Vec::new();
    for _ in 0..n {
        batch.push(WorldEvent::Tick(TickEvent::NewBeing(TILE, BeingArgs::new())));
    }
    game.add_events(batch);
    let mut commands = Vec::new();
    let mut errors = Vec::new();
    let passes = game.execute_tick_events(&OneShot, &mut commands, &mut errors).unwrap();
    assert_eq!(passes, 2);
    assert!(errors.is_empty());
    assert_eq!(game.world().len(), n);
    for i in 0..n {
        let id = game.world().being_id_at(i);
        assert_eq!(game.world().get_being(id).unwrap().vel, Vec3::from_vals(0, 0, 1));
    }
}

#[test]
fn non_spawn_batch_settles_in_one_pass() {
    let mut game: Game<u32> = Game::new(8);
    let id = spawn_mover(&mut game);
    game.add_events(vec![WorldEvent::Tick(TickEvent::Pos3(id, Vec3Event::Assign(Vec3::from_vals(4, 5, 6))))]);
    let mut commands = Vec::new();
    let mut errors = Vec::new();
    assert_eq!(game.execute_tick_events(&Catalog, &mut commands, &mut errors), Ok(1));
    assert_eq!(game.world().get_being(id).unwrap().pos, Vec3::from_vals(4, 5, 6));
}

#[test]
fn settled_tick_leaves_no_pending_events() {
    let mut game: Game<u32> = Game::new(8);
    spawn_mover(&mut game);
    game.step(&Catalog).unwrap();
    assert!(game.tick_events().is_empty());
    assert_eq!(game.tick_events().rank_count(), 0);
    assert!(game.tick_after_events().is_empty());
    let before = game.world().get_being(game.world().being_id_at(0)).unwrap().pos;
    let mut commands = Vec::new();
    let mut errors = Vec::new();
    assert_eq!(game.execute_tick_events(&Catalog, &mut commands, &mut errors), Ok(0));
    assert!(commands.is_empty());
    assert!(errors.is_empty());
    assert_eq!(game.world().get_being(game.world().being_id_at(0)).unwrap().pos, before);
}

#[test]
fn mover_advances_one_unit_per_tick() {
    let mut game: Game<u32> = Game::new(8);
    let id = spawn_mover(&mut game);
    assert_eq!(game.world().get_being(id).unwrap().pos, Vec3::from_vals(0, 0, 0));
    let (_, errors) = game.step(&Catalog).unwrap();
    assert!(errors.is_empty());
    assert_eq!(game.world().get_being(id).unwrap().pos, Vec3::from_vals(1, 0, 0));
    game.step(&Catalog).unwrap();
    assert_eq!(game.world().get_being(id).unwrap().pos, Vec3::from_vals(2, 0, 0));
}

#[test]
fn instance_shares_template_resource_ids() {
    let mut game: Game<u32> = Game::new(8);
    let (_, errors) = game
        .starting_events(&Catalog, vec![
            WorldEvent::Tick(TickEvent::NewBase(TILE)),
            WorldEvent::Tick(TickEvent::NewBeing(TILE, BeingArgs::new())),
        ])
        .unwrap();
    assert!(errors.is_empty());
    let base = game.world().get_part(Owner::Base(TILE), PART).unwrap();
    let id = game.world().being_id_at(0);
    let inst = game.world().get_part(Owner::Being(id), PART).unwrap();
    assert_eq!(inst.vertex_id, base.vertex_id);
    assert_eq!(inst.texture_id, base.texture_id);
    assert_eq!(inst.index_id, base.index_id);
    assert_ne!(inst.model_id, base.model_id);
    assert_eq!(base.vertex_id.kind, IDType::Vertex);
    assert_ne!(base.vertex_id.value, polyclops::UNSET);
}

#[test]
fn destroy_then_late_update_is_not_found() {
    let mut game: Game<u32> = Game::new(8);
    let id = spawn_mover(&mut game);
    let (commands, errors) = game
        .starting_events(&Catalog, vec![
            WorldEvent::TickAfter(TickAfterEvent::Entity(id, PART, EntityGraphicsEvent::Texture(3))),
            WorldEvent::TickAfter(TickAfterEvent::EndBeing(id)),
        ])
        .unwrap();
    assert!(game.world().get_being(id).is_none());
    assert_eq!(game.world().len(), 0);
    assert!(commands.is_empty());
    assert_eq!(errors, vec![GameError::BeingNotFound(id)]);
}

#[test]
fn endless_spawning_hits_pass_ceiling() {
    let mut game: Game<u32> = Game::new(3);
    let r = game.starting_events(&Catalog, vec![
        WorldEvent::Tick(TickEvent::NewBase(LOOPER)),
        WorldEvent::Tick(TickEvent::NewBeing(LOOPER, BeingArgs::new())),
    ]);
    assert_eq!(r.err(), Some(GameError::TooManyPasses(100)));
}

#[test]
fn disjoint_position_updates_both_apply() {
    let mut game: Game<u32> = Game::new(8);
    game.starting_events(&Catalog, vec![
        WorldEvent::Tick(TickEvent::NewBase(TILE)),
        WorldEvent::Tick(TickEvent::NewBeing(TILE, BeingArgs::new().with_pos(Vec3::from_vals(1, 1, 1)))),
        WorldEvent::Tick(TickEvent::NewBeing(TILE, BeingArgs::new().with_pos(Vec3::from_vals(5, 5, 5)))),
    ])
    .unwrap();
    let first = game.world().being_id_at(0);
    let second = game.world().being_id_at(1);
    let (a, b) = if game.world().get_being(first).unwrap().pos == Vec3::from_vals(1, 1, 1) {
        (first, second)
    } else {
        (second, first)
    };
    assert_ne!(a, b);
    assert_eq!(game.world().get_being(b).unwrap().pos, Vec3::from_vals(5, 5, 5));
    let (_, errors) = game
        .starting_events(&Catalog, vec![
            WorldEvent::Tick(TickEvent::Pos3(a, Vec3Event::Add(Vec3::from_vals(2, 0, 0)))),
            WorldEvent::Tick(TickEvent::Pos3(b, Vec3Event::Mul(Vec3::from_vals(2, 2, 2)))),
        ])
        .unwrap();
    assert!(errors.is_empty());
    assert_eq!(game.world().get_being(a).unwrap().pos, Vec3::from_vals(3, 1, 1));
    assert_eq!(game.world().get_being(b).unwrap().pos, Vec3::from_vals(10, 10, 10));
}

#[test]
fn transform_queues_command_for_model_handle() {
    let mut game: Game<u32> = Game::new(8);
    let id = spawn_mover(&mut game);
    let (commands, errors) = game
        .starting_events(&Catalog, vec![WorldEvent::Tick(TickEvent::Transform(id, PART, TransformEvent::Model(42)))])
        .unwrap();
    assert!(errors.is_empty());
    let part = game.world().get_part(Owner::Being(id), PART).unwrap();
    assert_eq!(commands.len(), 1);
    assert_eq!(commands[0].kind, EntityIDType::Model);
    assert_eq!(commands[0].resource, part.model_id);
    assert_eq!(commands[0].payload, 42);
}

#[test]
fn missing_slot_is_entity_not_found() {
    let mut game: Game<u32> = Game::new(8);
    let id = spawn_mover(&mut game);
    let (commands, errors) = game
        .starting_events(&Catalog, vec![WorldEvent::Tick(TickEvent::Transform(id, 9, TransformEvent::View(1)))])
        .unwrap();
    assert!(commands.is_empty());
    assert_eq!(errors, vec![GameError::EntityNotFound(9)]);
}

#[test]
fn update_of_unknown_actor_is_not_found() {
    let mut game: Game<u32> = Game::new(8);
    let ghost_id = ID { kind: IDType::Being, value: 99 };
    let (_, errors) = game
        .starting_events(&Catalog, vec![WorldEvent::Tick(TickEvent::Pos3(ghost_id, Vec3Event::Add(Vec3::from_vals(1, 0, 0))))])
        .unwrap();
    assert_eq!(errors, vec![GameError::BeingNotFound(ghost_id)]);
}

#[test]
fn use_old_id_copies_from_other_actor() {
    let mut game: Game<u32> = Game::new(8);
    game.starting_events(&Catalog, vec![
        WorldEvent::Tick(TickEvent::NewBase(TILE)),
        WorldEvent::Tick(TickEvent::NewBeing(TILE, BeingArgs::new())),
        WorldEvent::Tick(TickEvent::NewBeing(TILE, BeingArgs::new())),
    ])
    .unwrap();
    let a = game.world().being_id_at(0);
    let b = game.world().being_id_at(1);
    let pa = game.world().get_part(Owner::Being(a), PART).unwrap();
    let pb = game.world().get_part(Owner::Being(b), PART).unwrap();
    assert_ne!(pa.model_id, pb.model_id);
    let (_, errors) = game
        .starting_events(&Catalog, vec![WorldEvent::Tick(TickEvent::EntityID(
            b,
            PART,
            EntityIDEvent::UseOldID(a, PART, vec![EntityIDType::Model]),
        ))])
        .unwrap();
    assert!(errors.is_empty());
    let pb2 = game.world().get_part(Owner::Being(b), PART).unwrap();
    assert_eq!(pb2.model_id, pa.model_id);
    assert_eq!(pb2.vertex_id, pb.vertex_id);
}

#[test]
fn gather_collects_proposals_of_every_actor() {
    let mut game: Game<u32> = Game::new(8);
    game.starting_events(&Catalog, vec![
        WorldEvent::Tick(TickEvent::NewBase(MOVER)),
        WorldEvent::Tick(TickEvent::NewBeing(MOVER, BeingArgs::new())),
        WorldEvent::Tick(TickEvent::NewBeing(MOVER, BeingArgs::new())),
        WorldEvent::Tick(TickEvent::NewBase(TILE)),
        WorldEvent::Tick(TickEvent::NewBeing(TILE, BeingArgs::new())),
    ])
    .unwrap();
    assert_eq!(game.world().len(), 3);
    assert_eq!(game.tick(&Catalog).len(), 2);
    assert_eq!(game.tick_after(&Catalog).len(), 0);
}

#[test]
fn clear_drops_pending_events() {
    let mut game: Game<u32> = Game::new(8);
    game.add_events(vec![
        WorldEvent::Tick(TickEvent::NewBase(TILE)),
        WorldEvent::TickAfter(TickAfterEvent::EndBeing(ID { kind: IDType::Being, value: 0 })),
    ]);
    assert_eq!(game.tick_events().rank_count(), 1);
    assert_eq!(game.tick_after_events().rank_count(), 1);
    game.clear();
    assert!(game.tick_events().is_empty());
    assert!(game.tick_after_events().is_empty());
    assert_eq!(game.world().len(), 0);
}

#[test]
fn spawn_free_follow_ups_finish_in_one_more_pass() {
    let mut game: Game<u32> = Game::new(8);
    let id = spawn_mover(&mut game);
    let follow = vec![
        WorldEvent::Tick(TickEvent::Pos3(id, Vec3Event::Assign(Vec3::from_vals(3, 0, 0)))),
        WorldEvent::Tick(TickEvent::Transform(id, PART, TransformEvent::View(5))),
    ];
    let mut commands = Vec::new();
    let mut errors = Vec::new();
    assert_eq!(game.continue_settle(&Catalog, follow, 1, &mut commands, &mut errors), Ok(2));
    assert_eq!(game.world().get_being(id).unwrap().pos, Vec3::from_vals(3, 0, 0));
    assert_eq!(commands.len(), 1);
    assert_eq!(game.continue_settle(&Catalog, vec![], 4, &mut commands, &mut errors), Ok(4));
    assert!(errors.is_empty());
}

#[test]
fn registry_lists_live_actors() {
    let mut game: Game<u32> = Game::new(8);
    let id = spawn_mover(&mut game);
    let beings = game.world().get_beings();
    assert_eq!(beings.len(), 1);
    assert_eq!(beings.get(&id.value).map(|b| b.id), Some(id));
}
