use tearchan::object_manager::{BatchObjectEvent, BatchObjectManager};

fn convert_events(manager: &mut BatchObjectManager) -> Vec<String> {
    let mut events = Vec::new();
    while let Some(event) = manager.pop_event() {
        events.push(format!("{:?}", event));
    }
    events
}

fn add(id: u64) -> String {
    format!("Add {{ id: BatchObjectId({}) }}", id)
}

fn remove(id: u64) -> String {
    format!("Remove {{ id: BatchObjectId({}) }}", id)
}

fn wi(id: u64) -> String {
    format!("WriteToIndexBuffer {{ id: BatchObjectId({}) }}", id)
}

fn wv(id: u64, attribute: u32) -> String {
    format!("WriteToVertexBuffer {{ id: BatchObjectId({}), attribute: {} }}", id, attribute)
}

fn ci(first: usize, len: usize) -> String {
    format!("ClearToIndexBuffer {{ pointer: BatchBufferPointer {{ first: {}, len: {} }} }}", first, len)
}

fn cv(first: usize, len: usize) -> String {
    format!("ClearToVertexBuffer {{ pointer: BatchBufferPointer {{ first: {}, len: {} }} }}", first, len)
}

fn ri(len: usize) -> String {
    format!("ResizeIndexBuffer {{ len: {} }}", len)
}

fn rv(len: usize) -> String {
    format!("ResizeVertexBuffer {{ len: {} }}", len)
}

#[test]
fn object_manager_test_valid_len() {
    let mut manager = BatchObjectManager::new(100, 100);
    let id = manager.add(1, 1, 2, None);
    let record = manager.get(id).unwrap();
    assert_eq!(record.index_pointer.len, 1);
    assert_eq!(record.vertex_pointer.len, 1);
    assert_eq!(record.attributes, 2);
}

#[test]
fn object_manager_test_cleanup() {
    let mut manager = BatchObjectManager::new(100, 100);
    let id0 = manager.add(1, 1, 2, None);
    let id1 = manager.add(1, 1, 2, None);
    manager.remove(id0);
    manager.remove(id1);

    assert!(manager.get(id0).is_none());
    assert!(manager.get(id1).is_none());
    assert_eq!(manager.index_allocator_len(), 0);
}

#[test]
fn object_manager_test_events() {
    let mut manager = BatchObjectManager::new(100, 100);
    let id0 = manager.add(1, 1, 2, None);
    let id1 = manager.add(1, 1, 2, None);

    assert_eq!(
        convert_events(&mut manager),
        vec![add(0), add(1), wi(0), wi(1), wv(0, 0), wv(0, 1), wv(1, 0), wv(1, 1)]
    );

    manager.transform(id0, 1);
    manager.transform(id1, 0);

    assert_eq!(convert_events(&mut manager), vec![wv(0, 1), wv(1, 0)]);

    manager.remove(id0);

    assert_eq!(convert_events(&mut manager), vec![remove(0), ci(0, 1), cv(0, 1)]);

    manager.remove(id1);

    assert_eq!(convert_events(&mut manager), vec![remove(1)]);
}

#[test]
fn object_manager_test_resize_event() {
    let mut manager = BatchObjectManager::new(1, 2);
    let _id0 = manager.add(1, 2, 3, None);

    assert_eq!(
        convert_events(&mut manager),
        vec![add(0), wi(0), wv(0, 0), wv(0, 1), wv(0, 2)]
    );

    let _id1 = manager.add(1, 3, 3, None);
    assert_eq!(
        convert_events(&mut manager),
        vec![ri(4), rv(10), add(1), wi(1), wv(1, 0), wv(1, 1), wv(1, 2)]
    );
}

#[test]
fn test_sort_by_order() {
    let mut manager = BatchObjectManager::new(1, 2);
    let _id0 = manager.add(1, 2, 3, Some(6));
    let _id1 = manager.add(1, 2, 3, Some(2));
    let _id2 = manager.add(1, 2, 3, Some(4));

    assert_eq!(
        convert_events(&mut manager),
        vec![
            add(0), ri(4), rv(8), add(1), add(2),
            wi(1), wi(2), wi(0),
            wv(0, 0), wv(0, 1), wv(0, 2),
            wv(1, 0), wv(1, 1), wv(1, 2),
            wv(2, 0), wv(2, 1), wv(2, 2)
        ]
    );

    let _id3 = manager.add(1, 2, 3, Some(5));
    let _id4 = manager.add(1, 2, 3, Some(3));

    assert_eq!(
        convert_events(&mut manager),
        vec![
            add(3), ri(10), rv(20), add(4),
            wi(1), wi(4), wi(2), wi(3), wi(0),
            wv(3, 0), wv(3, 1), wv(3, 2),
            wv(4, 0), wv(4, 1), wv(4, 2)
        ]
    );
    assert_eq!(manager.get(_id4).unwrap().index_pointer.first, 1);
    assert_eq!(manager.get(_id0).unwrap().index_pointer.first, 4);
}

#[test]
fn replace_moves_ranges_and_marks() {
    let mut manager = BatchObjectManager::new(100, 100);
    let id0 = manager.add(2, 2, 1, None);
    let id1 = manager.add(2, 2, 1, None);
    convert_events(&mut manager);

    manager.replace_indices(id0, 2);
    assert_eq!(convert_events(&mut manager).len(), 0);

    manager.replace_indices(id0, 3);
    assert_eq!(manager.get(id0).unwrap().index_pointer.first, 4);
    assert_eq!(convert_events(&mut manager), vec![ci(0, 2), wi(0)]);

    manager.replace_vertices(id1, 2, 1);
    assert_eq!(convert_events(&mut manager), vec![wv(1, 0)]);

    manager.replace_vertices(id1, 5, 1);
    assert_eq!(manager.get(id1).unwrap().vertex_pointer.first, 2);
    assert_eq!(manager.get(id1).unwrap().vertex_pointer.len, 5);
    assert_eq!(convert_events(&mut manager), vec![wv(1, 0)]);

    manager.rewrite_vertices(id0, 0, 2);
    manager.rewrite_vertices(id0, 0, 2);
    assert_eq!(convert_events(&mut manager), vec![wv(0, 0)]);
}

#[test]
fn clear_events_drops_marks_only() {
    let mut manager = BatchObjectManager::new(100, 100);
    let id0 = manager.add(1, 1, 1, None);
    manager.clear_events();
    manager.transform(id0, 0);
    let events = convert_events(&mut manager);
    assert_eq!(events, vec![add(0), wv(0, 0), wi(0), wv(0, 0)]);
    let _ = BatchObjectEvent::Add { id: tearchan::object_manager::BatchObjectId(7) };
}

#[test]
fn objects_never_share_slots() {
    let mut manager = BatchObjectManager::new(4, 4);
    let a = manager.add(2, 3, 1, None);
    let b = manager.add(1, 2, 2, Some(1));
    let c = manager.add(3, 1, 1, Some(0));
    manager.remove(b);
    let d = manager.add(1, 1, 1, None);
    while manager.pop_event().is_some() {}
    let ids = [a, c, d];
    for i in 0..ids.len() {
        for j in 0..ids.len() {
            if i == j {
                continue;
            }
            let x = manager.get(ids[i]).unwrap();
            let y = manager.get(ids[j]).unwrap();
            let xi = x.index_pointer;
            let yi = y.index_pointer;
            assert!(xi.first + xi.len <= yi.first || yi.first + yi.len <= xi.first);
            let xv = x.vertex_pointer;
            let yv = y.vertex_pointer;
            assert!(xv.first + xv.len <= yv.first || yv.first + yv.len <= xv.first);
        }
    }
}
