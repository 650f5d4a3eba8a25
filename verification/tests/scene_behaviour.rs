use ecs_scene::behavioursystem::BehaviourSystem;
use ecs_scene::componentcollection::{CollectionItem, ComponentCollection};
use ecs_scene::scene::{Scene, System, BEHAVIOUR_SYSTEM_TAG};
use ecs_scene::tbehaviourcomponent::TBehaviourComponent;
use ecs_scene::tcomponent::{BehaviourComponent, Component, ComponentKey, DataComponent};

const TAG_POSITION: u64 = 10;
const TAG_MOVER: u64 = 11;
const TAG_BUNDLE: u64 = 12;
const TAG_OTHER: u64 = 13;

fn behaviour(value: i64) -> Component {
    Component::Behaviour(BehaviourComponent::new(value))
}

fn data(value: i64) -> Component {
    Component::Data(DataComponent { value })
}

fn subs_of(scene: &Scene) -> Vec<ComponentKey> {
    let System::Behaviour(b) = scene.get_system(BEHAVIOUR_SYSTEM_TAG).unwrap();
    b.subscriptions().clone()
}

fn dispatched_of(scene: &Scene) -> Vec<ComponentKey> {
    let System::Behaviour(b) = scene.get_system(BEHAVIOUR_SYSTEM_TAG).unwrap();
    b.last_dispatched().clone()
}

#[test]
fn iterate_scene() {
    let mut scene = Scene::new();
    scene.add_system(System::Behaviour(BehaviourSystem::new()));
    let entity = scene.create_entity();

    let mut coll = ComponentCollection::new();
    coll.add(CollectionItem::Data(DataComponent { value: 0 }));

    assert!(!coll.get_entity().is_some());

    assert!(entity
        .add_component(&mut scene, TAG_BUNDLE, Component::Collection(coll))
        .is_some());

    entity.add_component(&mut scene, TAG_POSITION, data(80));

    assert!(entity
        .use_component(&mut scene, TAG_BUNDLE, |c: &mut Component| {
            match c {
                Component::Collection(coll) => {
                    coll.add(CollectionItem::Data(DataComponent { value: 23 }));
                    assert_eq!(coll.size(), 2);
                }
                _ => panic!("expected the collection"),
            }
        })
        .is_some());
}

#[test]
fn duplicate_component_keeps_first() {
    let mut scene = Scene::new();
    let entity = scene.create_entity();

    assert!(entity.add_component(&mut scene, TAG_POSITION, data(80)).is_some());
    assert!(entity.add_component(&mut scene, TAG_POSITION, data(63)).is_none());

    let seen = entity.use_component(&mut scene, TAG_POSITION, |c: &mut Component| match c {
        Component::Data(d) => d.value,
        _ => panic!("expected the data component"),
    });
    assert_eq!(seen, Some(80));
}

#[test]
fn destroyed_entity_rejects_operations() {
    let mut scene = Scene::new();
    let mut entity = scene.create_entity();
    entity.add_component(&mut scene, TAG_POSITION, data(1));

    assert!(entity.is_valid(&scene));
    assert!(scene.destroy_entity(&mut entity).is_some());
    assert!(!entity.is_valid(&scene));
    assert_eq!(entity.get_id(), -1);

    assert!(entity.add_component(&mut scene, TAG_OTHER, data(2)).is_none());
    assert!(entity.remove_component(&mut scene, TAG_POSITION).is_none());
    assert!(entity
        .use_component(&mut scene, TAG_POSITION, |_c: &mut Component| ())
        .is_none());
}

#[test]
fn subscriptions_match_attached_behaviour_components() {
    let mut scene = Scene::new();
    scene.add_system(System::Behaviour(BehaviourSystem::new()));
    let first = scene.create_entity();
    let second = scene.create_entity();

    first.add_component(&mut scene, TAG_POSITION, data(1));
    first.add_component(&mut scene, TAG_MOVER, behaviour(2));
    second.add_component(&mut scene, TAG_MOVER, behaviour(3));

    let subs = subs_of(&scene);
    assert_eq!(
        subs,
        vec![
            ComponentKey { entity_id: first.get_id(), tag: TAG_MOVER },
            ComponentKey { entity_id: second.get_id(), tag: TAG_MOVER },
        ]
    );

    first.remove_component(&mut scene, TAG_MOVER);
    let subs = subs_of(&scene);
    assert_eq!(subs, vec![ComponentKey { entity_id: second.get_id(), tag: TAG_MOVER }]);
}

#[test]
fn dispatch_order_matches_subscription_order_and_is_stable() {
    let mut scene = Scene::new();
    scene.add_system(System::Behaviour(BehaviourSystem::new()));
    let first = scene.create_entity();
    let second = scene.create_entity();

    second.add_component(&mut scene, TAG_MOVER, behaviour(1));
    first.add_component(&mut scene, TAG_MOVER, behaviour(2));
    first.add_component(&mut scene, TAG_OTHER, behaviour(3));

    scene.update();
    let once = dispatched_of(&scene);
    assert_eq!(once, subs_of(&scene));
    assert_eq!(
        once,
        vec![
            ComponentKey { entity_id: second.get_id(), tag: TAG_MOVER },
            ComponentKey { entity_id: first.get_id(), tag: TAG_MOVER },
            ComponentKey { entity_id: first.get_id(), tag: TAG_OTHER },
        ]
    );

    scene.update();
    assert_eq!(dispatched_of(&scene), once);
}

#[test]
fn attach_then_detach_restores_subscriptions() {
    let mut scene = Scene::new();
    scene.add_system(System::Behaviour(BehaviourSystem::new()));
    let entity = scene.create_entity();
    entity.add_component(&mut scene, TAG_MOVER, behaviour(1));

    let before = subs_of(&scene);
    assert!(entity.add_component(&mut scene, TAG_OTHER, behaviour(2)).is_some());
    assert!(entity.remove_component(&mut scene, TAG_OTHER).is_some());
    assert_eq!(subs_of(&scene), before);
}

#[test]
fn update_with_only_data_components_is_a_noop() {
    let mut scene = Scene::new();
    scene.add_system(System::Behaviour(BehaviourSystem::new()));
    let entity = scene.create_entity();
    entity.add_component(&mut scene, TAG_POSITION, data(80));

    scene.update();

    assert!(dispatched_of(&scene).is_empty());
    let seen = entity.use_component(&mut scene, TAG_POSITION, |c: &mut Component| match c {
        Component::Data(d) => d.value,
        _ => panic!("expected the data component"),
    });
    assert_eq!(seen, Some(80));
}

#[test]
fn collection_reaches_size_two_via_use_component() {
    let mut scene = Scene::new();
    scene.add_system(System::Behaviour(BehaviourSystem::new()));
    let entity = scene.create_entity();

    let mut coll = ComponentCollection::new();
    coll.add(CollectionItem::Data(DataComponent { value: 63 }));
    entity.add_component(&mut scene, TAG_BUNDLE, Component::Collection(coll));

    entity.use_component(&mut scene, TAG_BUNDLE, |c: &mut Component| {
        if let Component::Collection(coll) = c {
            coll.add(CollectionItem::Data(DataComponent { value: 23 }));
        }
    });

    let sizes = entity.use_component(&mut scene, TAG_BUNDLE, |c: &mut Component| {
        match c {
            Component::Collection(coll) => {
                assert_eq!(coll.size(), 2);
                let first = match coll.get(0) {
                    Some(CollectionItem::Data(d)) => d.value,
                    _ => panic!("expected a data member"),
                };
                let second = match coll.get(1) {
                    Some(CollectionItem::Data(d)) => d.value,
                    _ => panic!("expected a data member"),
                };
                assert!(coll.get(2).is_none());
                (first, second)
            }
            _ => panic!("expected the collection"),
        }
    });
    assert_eq!(sizes, Some((63, 23)));
}

#[test]
fn destroy_fires_destruction_hook_exactly_once() {
    let mut scene = Scene::new();
    scene.add_system(System::Behaviour(BehaviourSystem::new()));
    let mut entity = scene.create_entity();
    entity.add_component(&mut scene, TAG_MOVER, behaviour(7));

    let remains = scene.destroy_entity(&mut entity).unwrap();
    assert_eq!(remains.len(), 1);
    let slot = remains.get(0).unwrap();
    assert_eq!(slot.tag, TAG_MOVER);
    match &slot.component {
        Component::Behaviour(b) => assert_eq!(b.destroyed_count, 1),
        _ => panic!("expected the behaviour component"),
    }

    assert!(!entity.is_valid(&scene));
    assert!(scene.destroy_entity(&mut entity).is_none());
}

#[test]
fn duplicate_system_rejected() {
    let mut scene = Scene::new();
    assert!(scene.add_system(System::Behaviour(BehaviourSystem::new())).is_some());
    assert!(scene.add_system(System::Behaviour(BehaviourSystem::new())).is_none());

    assert!(scene.remove_system(BEHAVIOUR_SYSTEM_TAG).is_some());
    assert!(scene.remove_system(BEHAVIOUR_SYSTEM_TAG).is_none());
    assert!(scene.get_system(BEHAVIOUR_SYSTEM_TAG).is_none());
}

#[test]
fn missing_component_operations_fail() {
    let mut scene = Scene::new();
    let entity = scene.create_entity();

    assert!(entity.remove_component(&mut scene, TAG_POSITION).is_none());
    assert!(entity
        .use_component(&mut scene, TAG_POSITION, |_c: &mut Component| ())
        .is_none());
}

#[test]
fn update_and_draw_bump_hook_counters() {
    let mut scene = Scene::new();
    scene.add_system(System::Behaviour(BehaviourSystem::new()));
    let entity = scene.create_entity();
    entity.add_component(&mut scene, TAG_MOVER, behaviour(0));

    scene.update();
    scene.update();
    scene.draw();
    scene.update_behaviour();
    scene.draw_behaviour();

    let counts = entity.use_component(&mut scene, TAG_MOVER, |c: &mut Component| match c {
        Component::Behaviour(b) => (b.update_count, b.draw_count),
        _ => panic!("expected the behaviour component"),
    });
    assert_eq!(counts, Some((3, 2)));
}

#[test]
fn collection_fans_dispatch_out_to_behaviour_members() {
    let mut scene = Scene::new();
    scene.add_system(System::Behaviour(BehaviourSystem::new()));
    let entity = scene.create_entity();

    let mut coll = ComponentCollection::new();
    coll.add(CollectionItem::Behaviour(BehaviourComponent::new(1)));
    coll.add(CollectionItem::Data(DataComponent { value: 2 }));
    entity.add_component(&mut scene, TAG_BUNDLE, Component::Collection(coll));

    scene.update();

    let counts = entity.use_component(&mut scene, TAG_BUNDLE, |c: &mut Component| match c {
        Component::Collection(coll) => {
            let first = match coll.get(0) {
                Some(CollectionItem::Behaviour(b)) => b.update_count,
                _ => panic!("expected the behaviour member"),
            };
            let second = match coll.get(1) {
                Some(CollectionItem::Data(d)) => d.value,
                _ => panic!("expected the data member"),
            };
            (first, second)
        }
        _ => panic!("expected the collection"),
    });
    assert_eq!(counts, Some((1, 2)));
}

#[test]
fn stale_subscription_after_destroy_is_skipped() {
    let mut scene = Scene::new();
    scene.add_system(System::Behaviour(BehaviourSystem::new()));
    let mut entity = scene.create_entity();
    entity.add_component(&mut scene, TAG_MOVER, behaviour(0));

    let key = ComponentKey { entity_id: entity.get_id(), tag: TAG_MOVER };
    scene.destroy_entity(&mut entity);

    // destruction does not notify the systems: the key lingers
    assert_eq!(subs_of(&scene), vec![key]);

    // but dispatch resolves it to nothing and skips it
    scene.update();
    assert!(dispatched_of(&scene).is_empty());
}

#[test]
fn entity_ids_are_never_reused() {
    let mut scene = Scene::new();
    let mut first = scene.create_entity();
    let first_id = first.get_id();
    scene.destroy_entity(&mut first);

    let second = scene.create_entity();
    assert_ne!(second.get_id(), first_id);
    assert_eq!(second.get_id(), first_id + 1);
}

#[test]
fn attach_sets_and_detach_clears_back_reference() {
    let mut scene = Scene::new();
    let entity = scene.create_entity();
    entity.add_component(&mut scene, TAG_MOVER, behaviour(0));

    let owner = entity.use_component(&mut scene, TAG_MOVER, |c: &mut Component| c.get_entity());
    assert_eq!(owner, Some(Some(entity.get_id())));

    let stored = scene.get_entity_data(entity.get_id()).unwrap();
    let slot = stored.get(0).unwrap();
    match &slot.component {
        Component::Behaviour(b) => assert_eq!(b.get_id(), entity.get_id()),
        _ => panic!("expected the behaviour component"),
    }
}

#[test]
fn registry_and_scene_accessors() {
    let mut bs = BehaviourSystem::new();
    bs.reserve(8);
    assert!(bs.subscriptions().is_empty());
    assert!(bs.last_dispatched().is_empty());

    let sys = System::Behaviour(bs);
    assert_eq!(sys.tag(), BEHAVIOUR_SYSTEM_TAG);
    assert!(sys.updatable());
    assert!(sys.drawable());

    let mut scene = Scene::new();
    assert_eq!(scene.next_entity_id(), 0);
    assert!(!scene.contains_entity(0));
    let entity = scene.create_entity();
    assert_eq!(entity.get_id(), 0);
    assert_eq!(scene.next_entity_id(), 1);
    assert!(scene.contains_entity(0));
    assert!(scene.get_entity_data(0).unwrap().len() == 0);
    assert!(scene.get_entity_data(1).is_none());
}
