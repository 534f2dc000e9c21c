use rust_ecs::{All, ComponentId, One, World};

type Value = (ComponentId, usize);

fn a(value: usize) -> Value {
    (ComponentId::new(1), value)
}

fn b(value: usize) -> Value {
    (ComponentId::new(2), value)
}

fn id_a() -> ComponentId {
    ComponentId::new(1)
}

fn id_b() -> ComponentId {
    ComponentId::new(2)
}

#[test]
fn spawn() {
    let mut world: World<Value> = World::new();
    world.spawn(a(10));
}

#[test]
fn despawn() {
    let mut world: World<Value> = World::new();
    let entity = world.spawn(a(10));
    world.despawn(entity).unwrap();
}

#[test]
fn query_mut() {
    let mut world: World<Value> = World::new();
    let _entity = world.spawn(a(3));
    {
        let mut query = world.query::<All<Value>, _>(&id_a());
        for _v in query.iter_mut() {}
    }
}

#[test]
fn query_multiple() {
    let mut world: World<Value> = World::new();
    let _entity = world.spawn((a(3), b(5)));
    {
        let mut query = world.query::<All<Value>, _>(&(id_a(), id_b()));
        let rows = query.iter_mut();
        assert_eq!(rows.len(), 1);
        for row in rows.iter() {
            assert_eq!(row[0].unwrap().1, 3);
            assert_eq!(row[1].unwrap().1, 5);
        }
    }
}

#[test]
fn query_multiple_mut() {
    let mut world: World<Value> = World::new();
    let _entity = world.spawn((a(3), b(5)));
    {
        let mut query = world.query_mut::<All<Value>, _>(&(id_a(), id_b()));
        let rows = query.iter_mut();
        assert_eq!(rows.len(), 1);
        for row in rows.iter() {
            assert_eq!(row[0].unwrap().1, 3);
            assert_eq!(row[1].unwrap().1, 5);
        }
    }
}

#[test]
fn query_one() {
    let mut world: World<Value> = World::new();
    let _entity = world.spawn(a(3));
    {
        let query = world.query_mut::<One<Value>, _>(&id_a());
        assert!(query.get()[0].unwrap().1 == 3)
    }
}
