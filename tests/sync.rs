use enum_filter::{
    Command, EnumComponent, EnumFilterSystems, MarkerAction, MarkerCell, Strategy, World, set_marker_action,
};

#[allow(dead_code)]
#[derive(Clone, Debug)]
enum Shape {
    Empty,
    Single(u32),
    Pair { left: i64, right: String },
}

impl EnumComponent for Shape {
    fn variant_spec(&self) -> usize {
        self.variant_index()
    }

    fn variant_index(&self) -> usize {
        match self {
            Shape::Empty => 0,
            Shape::Single(_) => 1,
            Shape::Pair { .. } => 2,
        }
    }
}

const A: usize = 0;
const B: usize = 1;
const C: usize = 2;

fn markers_of(world: &World, e: usize) -> Vec<usize> {
    (0..world.variant_count()).filter(|&v| world.has_marker(e, v)).collect()
}

#[test]
fn hook_round_trip() {
    let mut world = World::new(3, Strategy::Hooks);
    let e = world.spawn();
    let t0 = world.tick();
    assert!(world.insert(e, A));
    // nothing is visible before the flush
    assert_eq!(markers_of(&world, e), Vec::<usize>::new());
    assert_eq!(world.pending_commands(), 1);
    world.flush();
    assert_eq!(world.pending_commands(), 0);
    assert_eq!(markers_of(&world, e), vec![A]);
    assert!(world.marker_added_since(e, A, t0));

    let t1 = world.tick();
    assert_eq!(t1, t0 + 1);
    assert!(world.insert(e, B));
    assert_eq!(world.pending_commands(), 2);
    world.flush();
    assert_eq!(markers_of(&world, e), vec![B]);
    assert!(world.marker_added_since(e, B, t1));
    assert_eq!(world.marker(e, B), Some(MarkerCell { added: t1, changed: t1 }));
    assert!(!world.marker_changed_since(e, B, t1 + 1));
    assert_eq!(world.variant_of(e), Some(B));
}

#[test]
fn hook_remove_and_despawn() {
    let mut world = World::new(3, Strategy::Hooks);
    let e = world.spawn();
    let f = world.spawn();
    world.insert(e, C);
    world.insert(f, A);
    world.flush();
    assert!(world.remove(e));
    assert!(!world.remove(e));
    assert!(world.despawn(f));
    world.flush();
    assert_eq!(markers_of(&world, e), Vec::<usize>::new());
    assert_eq!(markers_of(&world, f), Vec::<usize>::new());
    assert!(!world.is_alive(f));
    assert_eq!(world.removed_count(), 2);
    assert_eq!(world.removed_at(0), e);
    assert_eq!(world.removed_at(1), f);
    // a despawned entity takes nothing
    assert!(!world.insert(f, A));
    assert!(!world.despawn(f));
}

#[test]
fn polling_correct_order() {
    let mut world = World::new(3, Strategy::Polling);
    let mut systems = EnumFilterSystems::new(&world);
    let e = world.spawn();
    world.insert(e, A);
    assert_eq!(world.pending_commands(), 0);
    systems.run_update(&mut world);
    assert_eq!(markers_of(&world, e), vec![A]);

    let start = world.tick();
    world.remove(e);
    world.insert(e, C);
    systems.remove_marker_for_enum(&mut world);
    systems.watch_for_enum(&mut world);
    assert!(!world.has_marker(e, A));
    assert!(world.has_marker(e, C));
    assert!(world.marker_added_since(e, C, start));
    assert_eq!(markers_of(&world, e), vec![C]);
}

#[test]
fn polling_reversed_order_hazard() {
    let mut world = World::new(3, Strategy::Polling);
    let mut systems = EnumFilterSystems::new(&world);
    let e = world.spawn();
    world.insert(e, A);
    systems.watch_for_enum(&mut world);
    systems.remove_marker_for_enum(&mut world);
    assert_eq!(markers_of(&world, e), vec![A]);

    let start = world.tick();
    world.remove(e);
    world.insert(e, C);
    systems.watch_for_enum(&mut world);
    systems.remove_marker_for_enum(&mut world);
    assert!(!world.has_marker(e, A));
    assert!(!world.marker_added_since(e, C, start));
    assert_eq!(world.variant_of(e), Some(C));
}

#[test]
fn polling_replace_in_place() {
    let mut world = World::new(3, Strategy::Polling);
    let mut systems = EnumFilterSystems::new(&world);
    let e = world.spawn();
    world.insert(e, B);
    systems.run_update(&mut world);
    let before = world.marker(e, B);
    world.insert(e, A);
    systems.run_update(&mut world);
    assert_eq!(markers_of(&world, e), vec![A]);
    assert!(before.is_some());
}

#[test]
fn removal_watcher_tolerates_despawned_entity() {
    let mut world = World::new(3, Strategy::Polling);
    let mut systems = EnumFilterSystems::new(&world);
    let e = world.spawn();
    let f = world.spawn();
    world.insert(e, A);
    world.insert(f, B);
    systems.run_update(&mut world);
    world.remove(e);
    world.despawn(e);
    world.despawn(f);
    systems.run_update(&mut world);
    assert_eq!(markers_of(&world, e), Vec::<usize>::new());
    assert_eq!(markers_of(&world, f), Vec::<usize>::new());
    assert_eq!(world.removed_count(), 2);
}

#[test]
fn initializer_covers_earlier_entities() {
    let mut world = World::new(3, Strategy::Polling);
    let e = world.spawn();
    let f = world.spawn();
    world.insert(e, C);
    world.flush();
    let mut systems = EnumFilterSystems::new(&world);
    systems.run_update(&mut world);
    assert_eq!(markers_of(&world, e), Vec::<usize>::new());
    EnumFilterSystems::create_marker_for_enum(&mut world);
    assert_eq!(markers_of(&world, e), vec![C]);
    assert_eq!(markers_of(&world, f), Vec::<usize>::new());
}

#[test]
fn strip_twice_changes_nothing() {
    let mut world = World::new(3, Strategy::Hooks);
    let e = world.spawn();
    world.insert(e, B);
    world.flush();
    world.apply(Command::StripMarkers { entity: e });
    let tick = world.tick();
    assert_eq!(markers_of(&world, e), Vec::<usize>::new());
    world.apply(Command::StripMarkers { entity: e });
    assert_eq!(markers_of(&world, e), Vec::<usize>::new());
    assert_eq!(world.tick(), tick);
    assert_eq!(world.variant_of(e), Some(B));
    // a strip of an entity that does not exist is no error either
    world.apply(Command::StripMarkers { entity: 99 });
    assert_eq!(world.entity_count(), 1);
}

#[test]
fn set_marker_again_keeps_it() {
    let mut world = World::new(3, Strategy::Hooks);
    let e = world.spawn();
    world.insert(e, B);
    world.flush();
    let first = world.marker(e, B);
    world.queue(Command::SetMarker { entity: e, variant: B });
    world.flush();
    assert_eq!(world.marker(e, B), first);
    assert!(!world.marker_changed_since(e, B, world.tick() - 1));
}

#[test]
fn field_shapes_synchronize_alike() {
    let values = [Shape::Empty, Shape::Single(7), Shape::Pair { left: -3, right: String::from("x") }];
    for strategy in [Strategy::Hooks, Strategy::Polling] {
        let mut world = World::new(3, strategy);
        let mut systems = EnumFilterSystems::new(&world);
        let e = world.spawn();
        for (i, value) in values.iter().enumerate() {
            let start = world.tick();
            assert_eq!(world.insert_value(e, value), i);
            world.flush();
            systems.run_update(&mut world);
            assert_eq!(markers_of(&world, e), vec![i]);
            assert!(world.marker_added_since(e, i, start));
        }
        world.remove(e);
        world.flush();
        systems.run_update(&mut world);
        assert_eq!(markers_of(&world, e), Vec::<usize>::new());
    }
}

#[test]
fn invalid_inputs_do_nothing() {
    let mut world = World::new(2, Strategy::Hooks);
    let e = world.spawn();
    assert_eq!(e, 0);
    assert_eq!(world.spawn(), 1);
    assert!(!world.insert(e, 2));
    assert!(!world.insert(7, 0));
    assert!(!world.remove(e));
    assert!(!world.despawn(7));
    assert_eq!(world.pending_commands(), 0);
    assert_eq!(world.variant_of(e), None);
    assert_eq!(world.component(7), None);
    assert!(!world.has_marker(e, 5));
}

#[test]
fn replacing_keeps_first_attachment_tick() {
    let mut world = World::new(3, Strategy::Hooks);
    let e = world.spawn();
    world.insert(e, A);
    world.flush();
    world.flush();
    world.insert(e, C);
    let cell = world.component(e).unwrap();
    assert_eq!(cell.variant, C);
    assert_eq!(cell.added, 0);
    assert_eq!(cell.changed, 2);
}

fn settled_ok(world: &World) -> bool {
    (0..world.entity_count()).all(|e| {
        let marks = markers_of(world, e);
        match world.variant_of(e) {
            Some(v) => marks == vec![v],
            None => marks.is_empty(),
        }
    })
}

#[test]
fn exclusivity_after_event_sequences() {
    for strategy in [Strategy::Hooks, Strategy::Polling] {
        let mut world = World::new(3, strategy);
        let mut systems = EnumFilterSystems::new(&world);
        let e = world.spawn();
        let f = world.spawn();
        let g = world.spawn();
        let rounds: [&[(usize, Option<usize>)]; 4] = [
            &[(e, Some(A)), (f, Some(B))],
            &[(e, None), (e, Some(C)), (f, Some(B)), (g, Some(A))],
            &[(f, None), (g, Some(C)), (g, None), (e, Some(A))],
            &[(e, None), (f, Some(C)), (g, Some(B)), (g, Some(A))],
        ];
        for round in rounds {
            for &(entity, value) in round {
                match value {
                    Some(v) => assert!(world.insert(entity, v)),
                    None => assert!(world.remove(entity)),
                }
            }
            world.flush();
            systems.run_update(&mut world);
            assert!(settled_ok(&world));
            assert!((0..world.entity_count()).all(|x| markers_of(&world, x).len() <= 1));
        }
        world.despawn(f);
        world.flush();
        systems.run_update(&mut world);
        assert!(settled_ok(&world));
    }
}

#[test]
fn marker_action_per_slot() {
    assert_eq!(set_marker_action(1, 0, true), MarkerAction::Remove);
    assert_eq!(set_marker_action(1, 0, false), MarkerAction::Keep);
    assert_eq!(set_marker_action(1, 1, true), MarkerAction::Keep);
    assert_eq!(set_marker_action(1, 1, false), MarkerAction::Attach);
}
