use std::collections::BTreeSet;
use tearchan::entity::{EntityManagerData, EntityRemapper, IdManager};

#[test]
fn manager_test_iter() {
    let mut id_manager = IdManager::default();
    let id_0 = id_manager.gen();
    let id_1 = id_manager.gen();
    let id_2 = id_manager.gen();

    assert_eq!(
        id_manager
            .pull_vacated_entities()
            .into_iter()
            .collect::<Vec<_>>(),
        vec![id_0, id_1, id_2]
    );
    assert_eq!(id_manager.pull_vacated_entities().len(), 0);

    id_manager.free(id_0);
    id_manager.free(id_1);
    id_manager.free(id_2);

    assert_eq!(id_manager.entity_ids().iter().copied().count(), 0);

    let id_3 = id_manager.gen();
    assert_eq!(
        id_manager.entity_ids().iter().copied().collect::<Vec<_>>(),
        vec![id_3]
    );
}

#[test]
fn test_commitment() {
    let mut entity_manager = IdManager::default();
    let entity_id0 = {
        let token = entity_manager.begin();
        let entity_id = token.entity_id();
        token.commit();
        entity_id
    };
    {
        let token = entity_manager.begin();
        let _entity_id = token.entity_id();
    };
    let entity_id1 = {
        let token = entity_manager.begin();
        let entity_id = token.entity_id();
        token.commit();
        entity_id
    };
    {
        let token = entity_manager.begin();
        let _entity_id = token.entity_id();
    };
    assert_eq!(
        entity_manager
            .pull_vacated_entities()
            .into_iter()
            .collect::<Vec<_>>(),
        vec![entity_id0, entity_id1]
    );
    assert_eq!(
        entity_manager.entity_ids().iter().collect::<Vec<_>>(),
        vec![&entity_id0, &entity_id1]
    );
}

#[test]
fn test_serialization_and_remap() {
    let mut entity_manager = IdManager::default();
    let entity_id1 = entity_manager.gen();
    let entity_id2 = entity_manager.gen();
    let entity_id3 = entity_manager.gen();
    let entity_id4 = 7;

    let data = entity_manager.to_data();
    let mut remapper = EntityRemapper::default();
    {
        let mapping = entity_manager.load_data(data);
        remapper.set_mapping(Some(mapping));
        assert_ne!(entity_id1, remapper.remap(entity_id1));
        assert_ne!(entity_id2, remapper.remap(entity_id2));
        assert_ne!(entity_id3, remapper.remap(entity_id3));
        assert_eq!(entity_id4, remapper.remap(entity_id4));
    }
    remapper.set_mapping(None);
    assert_eq!(entity_id1, remapper.remap(entity_id1));
}

#[test]
fn ids_increase_from_the_first() {
    let mut m = IdManager::new(10);
    assert_eq!(m.next(), 10);
    assert_eq!(m.gen(), 10);
    assert_eq!(m.gen(), 11);
    assert_eq!(m.next(), 12);
    assert!(m.contains(10));
    m.free(10);
    assert!(!m.contains(10));
    assert!(m.contains(11));
    assert_eq!(m.gen(), 12);
}

#[test]
fn load_data_renumbers_in_increasing_order() {
    let mut m = IdManager::default();
    m.gen();
    m.gen();
    let mut entity_ids = BTreeSet::new();
    entity_ids.insert(2);
    entity_ids.insert(1);
    let mapping = m.load_data(EntityManagerData { entity_ids });
    assert_eq!(mapping.get(&1), Some(&3));
    assert_eq!(mapping.get(&2), Some(&4));
    assert_eq!(m.next(), 5);
    assert_eq!(
        m.entity_ids().iter().copied().collect::<Vec<_>>(),
        vec![1, 2, 3, 4]
    );
}

#[test]
fn dropped_token_creates_nothing() {
    let mut m = IdManager::default();
    {
        let token = m.begin();
        assert_eq!(token.entity_id(), 1);
    }
    assert_eq!(m.next(), 1);
    assert_eq!(m.entity_ids().len(), 0);
}

#[test]
fn dropped_token_uses_no_id() {
    let mut manager = IdManager::default();
    let a = manager.begin().commit();
    {
        let token = manager.begin();
        assert_eq!(token.entity_id(), 2);
    }
    let b = manager.begin().commit();
    let _ = manager.begin();
    assert_eq!((a, b), (1, 2));
    assert_eq!(manager.next(), 3);
}
