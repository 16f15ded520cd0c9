use enum_filter::{EnumComponent, Strategy, World};

#[allow(dead_code)]
#[derive(Clone, Debug)]
enum TestEnum {
    A,
    B {
        v: f64,
    },
    C(i32),
}

impl EnumComponent for TestEnum {
    fn variant_spec(&self) -> usize {
        self.variant_index()
    }

    fn variant_index(&self) -> usize {
        match self {
            TestEnum::A => 0,
            TestEnum::B { .. } => 1,
            TestEnum::C(_) => 2,
        }
    }
}

const A: usize = 0;
const B: usize = 1;
const C: usize = 2;

/// A world with the hooks strategy and one entity that holds `value`, as
/// spawning with a component does.
fn world_with(value: TestEnum) -> (World, usize) {
    let mut world = World::new(3, Strategy::Hooks);
    let entity = world.spawn();
    world.insert_value(entity, &value);
    world.flush();
    (world, entity)
}

fn count_with(world: &World, v: usize) -> usize {
    (0..world.entity_count()).filter(|&e| world.has_marker(e, v)).count()
}

#[test]
fn test_observer() {
    let (mut world, entity) = world_with(TestEnum::A);

    world.insert_value(entity, &TestEnum::B { v: 0.0 });
    world.flush();
    // what an observer triggered after the insert sees
    assert!(count_with(&world, B) != 0);

    world.insert_value(entity, &TestEnum::C(42));
    world.flush();
    assert!(count_with(&world, C) != 0);

    assert!(count_with(&world, B) != 1);
    assert!(count_with(&world, C) == 1);
}

#[test]
fn test_abbr() {
    let (mut world, entity) = world_with(TestEnum::A);

    assert!(count_with(&world, A) == 1);
    assert!(world.marker_added_since(entity, A, 0));
    assert!(world.marker(entity, A).is_some());
    assert!(!world.marker_added_since(entity, B, 0));

    world.remove(entity);
    world.flush();

    assert!(count_with(&world, A) != 1);
    assert!(world.marker(entity, A).is_none());
    assert!((0..world.entity_count()).filter(|&e| !world.has_marker(e, A)).any(|target| target == entity));
    assert!(!world.marker_added_since(entity, A, 0));
}

#[test]
fn test_filter() {
    let (mut world, entity) = world_with(TestEnum::A);

    assert!(count_with(&world, A) == 1);
    assert!(world.marker_added_since(entity, A, 0));
    assert!(!world.marker_added_since(entity, B, 0));

    world.remove(entity);
    world.flush();

    assert!(count_with(&world, A) != 1);
    assert!((0..world.entity_count()).filter(|&e| !world.has_marker(e, A)).any(|target| target == entity));
    assert!(!world.marker_added_since(entity, A, 0));

    world.insert_value(entity, &TestEnum::B { v: 0.0 });
    world.flush();

    assert!(!world.marker_added_since(entity, A, 0));
    assert!(world.marker_added_since(entity, B, 0));

    world.insert_value(entity, &TestEnum::C(42));
    world.flush();

    assert!(count_with(&world, B) == 0);
    assert!(!world.marker_changed_since(entity, A, 0));
    assert!(world.marker_added_since(entity, C, 0));
    assert!(world.marker_changed_since(entity, C, 0));
}
