use tuber_ecs::ecs::{Ecs, EntityDefinition};
use tuber_ecs::query::{Accessor, Query, R, W};

const POSITION: u64 = 1;
const VELOCITY: u64 = 2;
const LABEL: u64 = 3;

#[derive(Debug, PartialEq, Clone, Copy)]
struct Position {
    x: f32,
    y: f32,
}

#[derive(Debug, PartialEq, Clone, Copy)]
struct Velocity {
    x: f32,
    y: f32,
}

fn pair_bytes(x: f32, y: f32) -> Vec<u8> {
    let mut bytes = x.to_le_bytes().to_vec();
    bytes.extend_from_slice(&y.to_le_bytes());
    bytes
}

fn pair_from(bytes: &[u8]) -> (f32, f32) {
    let x = f32::from_le_bytes([bytes[0], bytes[1], bytes[2], bytes[3]]);
    let y = f32::from_le_bytes([bytes[4], bytes[5], bytes[6], bytes[7]]);
    (x, y)
}

fn position_from(bytes: &[u8]) -> Position {
    let (x, y) = pair_from(bytes);
    Position { x, y }
}

fn velocity_from(bytes: &[u8]) -> Velocity {
    let (x, y) = pair_from(bytes);
    Velocity { x, y }
}

fn count_matches(ecs: &Ecs, query: &Query) -> usize {
    let mut iterator = ecs.query(query);
    let mut count = 0;
    while let Some(_) = iterator.next() {
        count += 1;
    }
    count
}

#[test]
fn ecs_ecs_new() {
    let ecs = Ecs::new();
    assert_eq!(ecs.entity_count(), 0usize);
}

#[test]
fn ecs_insert() {
    let mut ecs = Ecs::new();
    ecs.insert(EntityDefinition {
        components: vec![(POSITION, pair_bytes(0.0, 1.0)), (VELOCITY, pair_bytes(2.0, 3.0))],
    });
    assert_eq!(ecs.entity_count(), 1usize);
    ecs.insert(EntityDefinition {
        components: vec![(POSITION, pair_bytes(4.0, 5.0)), (VELOCITY, pair_bytes(6.0, 7.0))],
    });
    assert_eq!(ecs.entity_count(), 2usize);
}

#[test]
fn ecs_query() {
    let mut ecs = Ecs::new();
    ecs.insert(EntityDefinition {
        components: vec![(POSITION, pair_bytes(12.0, 1.0)), (VELOCITY, pair_bytes(2.0, 3.0))],
    });
    ecs.insert(EntityDefinition {
        components: vec![(POSITION, pair_bytes(4.0, 5.0)), (VELOCITY, pair_bytes(6.0, 7.0))],
    });
    ecs.insert(EntityDefinition { components: vec![(POSITION, pair_bytes(4.0, 5.0))] });

    let mut writes = ecs.query(&Query::new(vec![W(VELOCITY).term()]));
    while let Some((index, values)) = writes.next() {
        let mut velocity = velocity_from(&values[0]);
        velocity.x = 0.0;
        ecs.set_component(VELOCITY, index, pair_bytes(velocity.x, velocity.y));
    }

    let mut reads = ecs.query(&Query::new(vec![R(POSITION).term(), R(VELOCITY).term()]));
    while let Some((_, values)) = reads.next() {
        let position = position_from(&values[0]);
        let velocity = velocity_from(&values[1]);
        assert_ne!(position.x, 0.0);
        assert_ne!(position.y, 0.0);
        assert_eq!(velocity.x, 0.0);
        assert_ne!(velocity.y, 0.0);
    }

    assert_eq!(count_matches(&ecs, &Query::new(vec![R(POSITION).term()])), 3);
    assert_eq!(count_matches(&ecs, &Query::new(vec![R(VELOCITY).term()])), 2);
}

#[test]
fn ecs_query_one() {
    let mut ecs = Ecs::new();
    ecs.insert(EntityDefinition {
        components: vec![(POSITION, pair_bytes(12.0, 1.0)), (VELOCITY, pair_bytes(2.0, 3.0))],
    });

    let found = ecs.query_one(&Query::new(vec![R(POSITION).term()])).unwrap();
    assert_eq!(found.0, 0);
    assert_eq!(position_from(&found.1[0]), Position { x: 12.0, y: 1.0 });
}

#[test]
fn query_yields_exactly_the_holders() {
    let mut ecs = Ecs::new();
    for _ in 0..2 {
        ecs.insert(EntityDefinition { components: vec![(POSITION, pair_bytes(1.0, 1.0))] });
    }
    for _ in 0..3 {
        ecs.insert(EntityDefinition { components: vec![(VELOCITY, pair_bytes(2.0, 2.0))] });
    }
    for _ in 0..4 {
        ecs.insert(EntityDefinition {
            components: vec![(POSITION, pair_bytes(3.0, 3.0)), (VELOCITY, pair_bytes(4.0, 4.0))],
        });
    }

    assert_eq!(count_matches(&ecs, &Query::new(vec![R(POSITION).term()])), 6);
    assert_eq!(count_matches(&ecs, &Query::new(vec![R(VELOCITY).term()])), 7);
    assert_eq!(
        count_matches(&ecs, &Query::new(vec![R(POSITION).term(), R(VELOCITY).term()])),
        4
    );
    assert_eq!(count_matches(&ecs, &Query::new(vec![R(LABEL).term()])), 0);
}

#[test]
fn query_one_by_id_reads_the_given_entity() {
    let mut ecs = Ecs::new();
    ecs.insert(EntityDefinition { components: vec![(POSITION, pair_bytes(1.0, 2.0))] });
    ecs.insert(EntityDefinition { components: vec![(POSITION, pair_bytes(3.0, 4.0))] });

    let values = ecs.query_one_by_id(&Query::new(vec![R(POSITION).term()]), 1);
    assert_eq!(position_from(&values[0]), Position { x: 3.0, y: 4.0 });
}

#[test]
fn delete_by_query_removes_whole_entities() {
    let mut ecs = Ecs::new();
    ecs.insert(EntityDefinition { components: vec![(POSITION, pair_bytes(1.0, 1.0))] });
    ecs.insert(EntityDefinition {
        components: vec![(POSITION, pair_bytes(2.0, 2.0)), (VELOCITY, pair_bytes(2.5, 2.5))],
    });
    ecs.insert(EntityDefinition { components: vec![(VELOCITY, pair_bytes(3.0, 3.0))] });

    ecs.delete_by_query(&Query::new(vec![R(POSITION).term()]));

    assert_eq!(count_matches(&ecs, &Query::new(vec![R(POSITION).term()])), 0);
    assert_eq!(count_matches(&ecs, &Query::new(vec![R(VELOCITY).term()])), 1);
    assert_eq!(ecs.entity_count(), 3);
}

#[test]
fn remove_component_drops_only_that_component() {
    let mut ecs = Ecs::new();
    let index = ecs.insert(EntityDefinition {
        components: vec![(POSITION, pair_bytes(1.0, 1.0)), (VELOCITY, pair_bytes(2.0, 2.0))],
    });

    ecs.remove_component(VELOCITY, index);

    assert_eq!(count_matches(&ecs, &Query::new(vec![R(VELOCITY).term()])), 0);
    assert_eq!(count_matches(&ecs, &Query::new(vec![R(POSITION).term()])), 1);
}

#[test]
fn resources_are_stored_and_replaced() {
    let mut ecs = Ecs::new();
    ecs.insert_resource(LABEL, vec![1, 2, 3]);
    assert_eq!(ecs.resource(LABEL), vec![1, 2, 3]);

    ecs.resource_mut(LABEL, vec![9, 9]);
    assert_eq!(ecs.resource(LABEL), vec![9, 9]);

    ecs.insert_resource(LABEL, vec![4]);
    assert_eq!(ecs.resource(LABEL), vec![4]);
}

#[test]
fn writes_are_visible_to_later_reads() {
    let mut ecs = Ecs::new();
    for value in 0..3u8 {
        ecs.insert(EntityDefinition { components: vec![(LABEL, vec![value])] });
    }

    let mut writes = ecs.query(&Query::new(vec![W(LABEL).term()]));
    while let Some((index, values)) = writes.next() {
        ecs.set_component(LABEL, index, vec![values[0][0] + 10]);
    }

    let mut reads = ecs.query(&Query::new(vec![R(LABEL).term()]));
    let mut seen = Vec::new();
    while let Some((_, values)) = reads.next() {
        seen.push(values[0][0]);
    }
    seen.sort();
    assert_eq!(seen, vec![10, 11, 12]);
}
