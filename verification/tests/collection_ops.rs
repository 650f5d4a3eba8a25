use ecs_scene::componentcollection::{CollectionItem, ComponentCollection};
use ecs_scene::tbehaviourcomponent::TBehaviourComponent;
use ecs_scene::tcomponent::{BehaviourComponent, DataComponent, TComponent};

#[test]
fn pop_returns_most_recent_member() {
    let mut coll = ComponentCollection::new();
    assert!(coll.pop().is_none());

    coll.add(CollectionItem::Data(DataComponent { value: 1 }));
    coll.add(CollectionItem::Data(DataComponent { value: 2 }));

    match coll.pop() {
        Some(CollectionItem::Data(d)) => assert_eq!(d.value, 2),
        _ => panic!("expected the second member back"),
    }
    assert_eq!(coll.size(), 1);
}

#[test]
fn behaviour_iterate_skips_data_members() {
    let mut coll = ComponentCollection::new();
    coll.add(CollectionItem::Behaviour(BehaviourComponent::new(0)));
    coll.add(CollectionItem::Data(DataComponent { value: 5 }));
    coll.add(CollectionItem::Behaviour(BehaviourComponent::new(0)));

    coll.behaviour_iterate(|b: &mut BehaviourComponent| {
        b.value = b.value + 1;
    });

    match coll.get(0) {
        Some(CollectionItem::Behaviour(b)) => assert_eq!(b.value, 1),
        _ => panic!("expected a behaviour member"),
    }
    match coll.get(1) {
        Some(CollectionItem::Data(d)) => assert_eq!(d.value, 5),
        _ => panic!("expected the data member"),
    }
    match coll.get(2) {
        Some(CollectionItem::Behaviour(b)) => assert_eq!(b.value, 1),
        _ => panic!("expected a behaviour member"),
    }
}

#[test]
fn collection_update_and_draw_reach_behaviour_members() {
    let mut coll = ComponentCollection::new();
    coll.add(CollectionItem::Behaviour(BehaviourComponent::new(0)));
    coll.add(CollectionItem::Data(DataComponent { value: 9 }));

    coll.update();
    coll.update();
    coll.draw();

    match coll.get(0) {
        Some(CollectionItem::Behaviour(b)) => {
            assert_eq!(b.update_count, 2);
            assert_eq!(b.draw_count, 1);
        }
        _ => panic!("expected the behaviour member"),
    }
}

#[test]
fn collection_is_behaviour_capable_and_tracks_its_entity() {
    let mut coll = ComponentCollection::new();
    assert!(coll.is_behaviour());
    assert!(coll.get_entity().is_none());
    assert_eq!(coll.get_id(), -1);

    coll.set_entity(Some(4));
    assert_eq!(coll.get_entity(), Some(4));
    assert_eq!(coll.get_id(), 4);

    coll.set_entity(None);
    assert!(coll.get_entity().is_none());
}

#[test]
fn component_capability_queries() {
    let b = BehaviourComponent::new(0);
    assert!(b.is_behaviour());
    let d = DataComponent { value: 0 };
    assert!(!d.is_behaviour());
}
