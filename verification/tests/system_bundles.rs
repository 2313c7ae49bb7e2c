use tuber_ecs::ecs::{Ecs, EntityDefinition};
use tuber_ecs::query::{Accessor, Query, R, W};
use tuber_ecs::system::{IntoSystem, System, SystemBundle};

const VALUE: u64 = 1;
const OTHER: u64 = 2;

struct NoOperation;

impl System for NoOperation {
    fn run(&mut self, _ecs: &mut Ecs) {
    }
}

struct AddToValue(i32);

impl System for AddToValue {
    fn run(&mut self, ecs: &mut Ecs) {
        let mut writes = ecs.query(&Query::new(vec![W(VALUE).term()]));
        while let Some((index, values)) = writes.next() {
            let stored = i32::from_le_bytes([
                values[0][0],
                values[0][1],
                values[0][2],
                values[0][3],
            ]);
            let updated = stored + self.0;
            ecs.set_component(VALUE, index, updated.to_le_bytes().to_vec());
        }
    }
}

#[test]
fn system_into_system() {
    let _ = NoOperation.into_system();
}

#[test]
fn system_bundle_add() {
    let mut system_bundle = SystemBundle::new();
    system_bundle.add_system(NoOperation.into_system());
    assert_eq!(system_bundle.len(), 1)
}

#[test]
fn system_bundle_step() {
    let mut ecs = Ecs::new();
    ecs.insert(EntityDefinition {
        components: vec![(VALUE, 12i32.to_le_bytes().to_vec())],
    });
    ecs.insert(EntityDefinition {
        components: vec![(VALUE, 18i32.to_le_bytes().to_vec()), (OTHER, vec![])],
    });

    let mut system_bundle = SystemBundle::new();
    system_bundle.add_system(AddToValue(35).into_system());
    system_bundle.add_system(AddToValue(-6).into_system());

    system_bundle.step(&mut ecs);

    let mut reads = ecs.query(&Query::new(vec![R(VALUE).term()]));
    let mut results = Vec::new();
    while let Some((_, values)) = reads.next() {
        results.push(i32::from_le_bytes([
            values[0][0],
            values[0][1],
            values[0][2],
            values[0][3],
        ]));
    }
    assert!(results.contains(&41));
    assert!(results.contains(&47));
}
