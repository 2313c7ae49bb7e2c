use tuber_ecs::registry;
use tuber_ecs::resource_manager::ResourceManager;

const POSITION: u64 = 1;

#[test]
fn can_register_component() {
    let mut ecs = registry::Ecs::new();

    ecs.register_component(POSITION);
    assert!(ecs.is_component_registered(POSITION));
}

#[test]
fn registering_twice_changes_nothing() {
    let mut ecs = registry::Ecs::new();
    ecs.register_component(POSITION);
    ecs.register_component(POSITION);
    assert!(ecs.is_component_registered(POSITION));
    assert!(!ecs.is_component_registered(2));
}

#[test]
fn should_store_resource() {
    let mut resource_manager = ResourceManager::new();
    resource_manager.store("some_resource", 5u64);
    assert!(resource_manager.contains_resource("some_resource"));
}

#[test]
fn should_retrieve_resource() {
    let mut resource_manager = ResourceManager::new();
    resource_manager.store("some_resource", 5u64);
    assert_eq!(resource_manager.fetch("some_resource"), Some(&5u64));
}

#[test]
fn should_update_resource_if_stored_again() {
    let mut resource_manager = ResourceManager::new();
    resource_manager.store("some_resource", 5u64);
    assert_eq!(resource_manager.fetch("some_resource"), Some(&5u64));
    resource_manager.store("some_resource", 12u64);
    assert_eq!(resource_manager.fetch("some_resource"), Some(&12u64));
}

#[test]
fn fetch_of_missing_name_is_none() {
    let mut resource_manager = ResourceManager::new();
    resource_manager.store("some_resource", 5u64);
    assert_eq!(resource_manager.fetch("another_resource"), None);
    assert!(!resource_manager.contains_resource("another_resource"));
}
