use tuber_ecs::archetype::{Archetype, TypeMetadata, align_value};
use tuber_ecs::component_bundle::{ComponentBundle, ComponentData};
use tuber_ecs::{Ecs, EcsError};

const POSITION: u64 = 1;
const VELOCITY: u64 = 2;
const COUNTER: u64 = 7;
const MARKER: u64 = 8;

#[derive(Debug, PartialEq, Clone, Copy)]
struct Position {
    x: f32,
    y: f32,
}

#[derive(Debug, PartialEq, Clone, Copy)]
struct Velocity {
    x: f32,
    y: f32,
}

fn pair_bytes(x: f32, y: f32) -> Vec<u8> {
    let mut bytes = x.to_le_bytes().to_vec();
    bytes.extend_from_slice(&y.to_le_bytes());
    bytes
}

fn pair_from(bytes: &[u8]) -> (f32, f32) {
    let x = f32::from_le_bytes([bytes[0], bytes[1], bytes[2], bytes[3]]);
    let y = f32::from_le_bytes([bytes[4], bytes[5], bytes[6], bytes[7]]);
    (x, y)
}

fn position_from(bytes: &[u8]) -> Position {
    let (x, y) = pair_from(bytes);
    Position { x, y }
}

fn velocity_from(bytes: &[u8]) -> Velocity {
    let (x, y) = pair_from(bytes);
    Velocity { x, y }
}

fn pv_bundle(position: Position, velocity: Velocity) -> ComponentBundle {
    ComponentBundle::new(vec![
        ComponentData {
            metadata: TypeMetadata { size: 8, align: 4, type_id: POSITION },
            bytes: pair_bytes(position.x, position.y),
        },
        ComponentData {
            metadata: TypeMetadata { size: 8, align: 4, type_id: VELOCITY },
            bytes: pair_bytes(velocity.x, velocity.y),
        },
    ])
}

fn pv_sig() -> Vec<u64> {
    vec![POSITION, VELOCITY]
}

fn counter_bundle(value: u32) -> ComponentBundle {
    ComponentBundle::new(vec![ComponentData {
        metadata: TypeMetadata { size: 4, align: 4, type_id: COUNTER },
        bytes: value.to_le_bytes().to_vec(),
    }])
}

fn counter_marker_bundle(value: u32, flag: u8) -> ComponentBundle {
    ComponentBundle::new(vec![
        ComponentData {
            metadata: TypeMetadata { size: 4, align: 4, type_id: COUNTER },
            bytes: value.to_le_bytes().to_vec(),
        },
        ComponentData {
            metadata: TypeMetadata { size: 1, align: 1, type_id: MARKER },
            bytes: vec![flag],
        },
    ])
}

fn marker_bundle(flag: u8) -> ComponentBundle {
    ComponentBundle::new(vec![ComponentData {
        metadata: TypeMetadata { size: 1, align: 1, type_id: MARKER },
        bytes: vec![flag],
    }])
}

#[test]
fn lib_ecs_new() {
    let ecs = Ecs::new();
    assert_eq!(ecs.entity_count(), 0usize);
}

#[test]
fn ecs_insert_one_entity() {
    let mut ecs = Ecs::new();
    ecs.insert(vec![pv_bundle(
        Position { x: 2.0, y: 1.0 },
        Velocity { x: 1.5, y: 2.6 },
    )])
    .unwrap();
    assert_eq!(ecs.entity_count(), 1usize);
}

#[test]
fn ecs_insert_two_entities() {
    let mut ecs = Ecs::new();
    ecs.insert(vec![
        pv_bundle(Position { x: 2.0, y: 1.0 }, Velocity { x: 1.5, y: 2.6 }),
        pv_bundle(Position { x: 0.2, y: 0.5 }, Velocity { x: 3.0, y: 2.0 }),
    ])
    .unwrap();
    assert_eq!(ecs.entity_count(), 2usize);
}

#[test]
fn ecs_entity() {
    let mut ecs = Ecs::new();
    let entity = ecs
        .insert_one(pv_bundle(Position { x: 2.0, y: 1.0 }, Velocity { x: 1.5, y: 2.6 }))
        .unwrap();

    let rows = ecs.entity(&pv_sig(), entity).unwrap();
    assert_eq!(position_from(&rows[0]), Position { x: 2.0, y: 1.0 });
    assert_eq!(velocity_from(&rows[1]), Velocity { x: 1.5, y: 2.6 });

    let second_entity = ecs
        .insert_one(pv_bundle(Position { x: 4.0, y: 1.0 }, Velocity { x: 1.2, y: 28.6 }))
        .unwrap();

    let rows = ecs.entity(&pv_sig(), entity).unwrap();
    assert_eq!(position_from(&rows[0]), Position { x: 2.0, y: 1.0 });
    assert_eq!(velocity_from(&rows[1]), Velocity { x: 1.5, y: 2.6 });

    let rows = ecs.entity(&pv_sig(), second_entity).unwrap();
    assert_eq!(position_from(&rows[0]), Position { x: 4.0, y: 1.0 });
    assert_eq!(velocity_from(&rows[1]), Velocity { x: 1.2, y: 28.6 });
}

#[test]
fn ecs_entity_mut() {
    let mut ecs = Ecs::new();
    let entity = ecs
        .insert_one(pv_bundle(Position { x: 2.0, y: 1.0 }, Velocity { x: 1.5, y: 2.6 }))
        .unwrap();

    let rows = ecs.entity(&pv_sig(), entity).unwrap();
    let mut position = position_from(&rows[0]);
    let mut velocity = velocity_from(&rows[1]);
    assert_eq!(position, Position { x: 2.0, y: 1.0 });
    assert_eq!(velocity, Velocity { x: 1.5, y: 2.6 });

    position.x = 0.0;
    velocity.y = 50.0;
    ecs.entity_mut(
        &pv_sig(),
        entity,
        &vec![pair_bytes(position.x, position.y), pair_bytes(velocity.x, velocity.y)],
    )
    .unwrap();

    let rows = ecs.entity(&pv_sig(), entity).unwrap();
    assert_eq!(position_from(&rows[0]), Position { x: 0.0, y: 1.0 });
    assert_eq!(velocity_from(&rows[1]), Velocity { x: 1.5, y: 50.0 });
}

#[test]
fn lib_align_unaligned_value() {
    assert_eq!(align_value(35, 8), 40);
}

#[test]
fn lib_align_aligned_value() {
    assert_eq!(align_value(8, 8), 8);
    assert_eq!(align_value(16, 8), 16);
}

#[test]
fn archetype_align_unaligned_value() {
    assert_eq!(align_value(35, 8), 40);
}

#[test]
fn archetype_align_aligned_value() {
    assert_eq!(align_value(8, 8), 8);
    assert_eq!(align_value(16, 8), 16);
}

#[test]
fn first_entity_id_is_one_and_ids_count_up() {
    let mut ecs = Ecs::new();
    let first = ecs.insert_one(counter_bundle(10)).unwrap();
    let second = ecs.insert_one(counter_bundle(20)).unwrap();
    let third = ecs
        .insert_one(pv_bundle(Position { x: 2.0, y: 1.0 }, Velocity { x: 1.5, y: 2.6 }))
        .unwrap();
    assert_eq!(first, 1);
    assert_eq!(second, 2);
    assert_eq!(third, 3);
    assert_eq!(ecs.entity_count(), 3);
}

#[test]
fn growth_keeps_every_written_row() {
    let mut ecs = Ecs::new();
    let mut ids = Vec::new();
    for value in 0u32..9u32 {
        ids.push(ecs.insert_one(counter_bundle(value * 3 + 1)).unwrap());
    }
    for (offset, id) in ids.iter().enumerate() {
        let rows = ecs.entity(&vec![COUNTER], *id).unwrap();
        let stored = u32::from_le_bytes([rows[0][0], rows[0][1], rows[0][2], rows[0][3]]);
        assert_eq!(stored, (offset as u32) * 3 + 1);
    }
}

#[test]
fn fetch_concatenates_columns() {
    let mut ecs = Ecs::new();
    ecs.insert_one(counter_bundle(11)).unwrap();
    ecs.insert_one(counter_bundle(12)).unwrap();
    ecs.insert_one(counter_bundle(13)).unwrap();
    ecs.insert_one(counter_marker_bundle(21, 1)).unwrap();
    ecs.insert_one(counter_marker_bundle(22, 2)).unwrap();
    ecs.insert_one(marker_bundle(3)).unwrap();

    let values = ecs.fetch(COUNTER);
    assert_eq!(values.len(), 5);
    let decoded: Vec<u32> = values
        .iter()
        .map(|v| u32::from_le_bytes([v[0], v[1], v[2], v[3]]))
        .collect();
    assert_eq!(decoded, vec![11, 12, 13, 21, 22]);

    let markers = ecs.fetch(MARKER);
    assert_eq!(markers.len(), 3);

    let absent = ecs.fetch(99);
    assert_eq!(absent.len(), 0);
}

#[test]
fn entity_with_unknown_signature_fails() {
    let mut ecs = Ecs::new();
    ecs.insert_one(counter_bundle(5)).unwrap();
    let result = ecs.entity(&vec![MARKER], 1);
    assert_eq!(result, Err(EcsError::UnknownSignature));
}

#[test]
fn first_insert_round_trips_and_sees_mutation() {
    let mut ecs = Ecs::new();
    let entity = ecs
        .insert_one(pv_bundle(Position { x: 2.0, y: 1.0 }, Velocity { x: 1.5, y: 2.6 }))
        .unwrap();
    assert_eq!(entity, 1);

    let rows = ecs.entity(&pv_sig(), 1).unwrap();
    assert_eq!(position_from(&rows[0]), Position { x: 2.0, y: 1.0 });
    assert_eq!(velocity_from(&rows[1]), Velocity { x: 1.5, y: 2.6 });

    let mut position = position_from(&rows[0]);
    position.x = 0.0;
    ecs.entity_mut(&pv_sig(), 1, &vec![pair_bytes(position.x, position.y), rows[1].clone()])
        .unwrap();

    let rows = ecs.entity(&pv_sig(), 1).unwrap();
    assert_eq!(position_from(&rows[0]), Position { x: 0.0, y: 1.0 });
    assert_eq!(velocity_from(&rows[1]), Velocity { x: 1.5, y: 2.6 });
}

#[test]
fn signatures_are_order_sensitive() {
    let mut ecs = Ecs::new();
    let first = ecs
        .insert_one(ComponentBundle::new(vec![
            ComponentData {
                metadata: TypeMetadata { size: 4, align: 4, type_id: COUNTER },
                bytes: 5u32.to_le_bytes().to_vec(),
            },
            ComponentData {
                metadata: TypeMetadata { size: 1, align: 1, type_id: MARKER },
                bytes: vec![7],
            },
        ]))
        .unwrap();
    let second = ecs
        .insert_one(ComponentBundle::new(vec![
            ComponentData {
                metadata: TypeMetadata { size: 1, align: 1, type_id: MARKER },
                bytes: vec![8],
            },
            ComponentData {
                metadata: TypeMetadata { size: 4, align: 4, type_id: COUNTER },
                bytes: 6u32.to_le_bytes().to_vec(),
            },
        ]))
        .unwrap();

    // the reversed declaration order makes a second, separate archetype
    let rows = ecs.entity(&vec![COUNTER, MARKER], first).unwrap();
    assert_eq!(rows[1], vec![7]);
    let rows = ecs.entity(&vec![MARKER, COUNTER], second).unwrap();
    assert_eq!(rows[0], vec![8]);
    assert_eq!(ecs.fetch(COUNTER).len(), 2);
}

#[test]
fn archetype_stores_and_reads_back_slots() {
    let mut archetype = Archetype::new(vec![
        TypeMetadata { size: 4, align: 4, type_id: COUNTER },
        TypeMetadata { size: 1, align: 1, type_id: MARKER },
    ]);
    assert!(archetype.match_component(COUNTER));
    assert!(!archetype.match_component(99));

    let row_a = archetype.allocate_storage_for_entity(1);
    let row_b = archetype.allocate_storage_for_entity(2);
    assert_eq!(row_a, 0);
    assert_eq!(row_b, 1);

    archetype.write_component(0, row_a, &44u32.to_le_bytes().to_vec());
    archetype.write_component(1, row_a, &vec![9]);
    archetype.write_component(0, row_b, &55u32.to_le_bytes().to_vec());
    archetype.write_component(1, row_b, &vec![10]);

    assert_eq!(archetype.read_component(0, row_a), 44u32.to_le_bytes().to_vec());
    assert_eq!(archetype.read_component(1, row_b), vec![10]);
    assert_eq!(archetype.data_index_for_entity(2), 1);

    let mut column = archetype.fetch(COUNTER);
    assert_eq!(column.next(), Some(44u32.to_le_bytes().to_vec()));
    assert_eq!(column.next(), Some(55u32.to_le_bytes().to_vec()));
    assert_eq!(column.next(), None);
}
