use prompt_store::models::{ItemMetadata, ItemType, StoreError, TreeItem};
use prompt_store::store::Store;

fn item(name: &str, kind: ItemType) -> TreeItem {
    TreeItem {
        id: String::new(),
        name: name.to_string(),
        item_type: kind,
        children: Vec::new(),
        parent_id: None,
        content: None,
        versions: None,
        metadata: ItemMetadata { description: None, tags: None, last_modified: None },
    }
}

#[test]
fn move_reparents_a_subtree_and_updates_the_back_reference() {
    let mut store = Store::new(Vec::new());
    let a = store.add_item(None, item("a", ItemType::Provider)).unwrap();
    let b = store.add_item(None, item("b", ItemType::Provider)).unwrap();
    let child = store.add_item(Some(a.id.clone()), item("kid", ItemType::Model)).unwrap();
    let moved = store.move_item(child.id.clone(), Some(b.id.clone())).unwrap();
    assert_eq!(moved.parent_id, Some(b.id.clone()));
    assert_eq!(store.get_item(&a.id).unwrap().children.len(), 0);
    let new_b = store.get_item(&b.id).unwrap();
    assert_eq!(new_b.children.len(), 1);
    assert_eq!(new_b.children[0].id, child.id);
}

#[test]
fn move_to_root_detaches_and_clears_the_back_reference() {
    let mut store = Store::new(Vec::new());
    let a = store.add_item(None, item("a", ItemType::Provider)).unwrap();
    let child = store.add_item(Some(a.id.clone()), item("kid", ItemType::Model)).unwrap();
    let moved = store.move_item(child.id.clone(), None).unwrap();
    assert_eq!(moved.parent_id, None);
    assert_eq!(store.get_all().len(), 2);
    assert_eq!(store.get_item(&a.id).unwrap().children.len(), 0);
}

#[test]
fn move_under_own_descendant_is_rejected_as_a_cycle() {
    let mut store = Store::new(Vec::new());
    let a = store.add_item(None, item("a", ItemType::Provider)).unwrap();
    let b = store.add_item(Some(a.id.clone()), item("b", ItemType::Model)).unwrap();
    let r = store.move_item(a.id.clone(), Some(b.id.clone()));
    match r {
        Err(e) => assert_eq!(e, StoreError::CycleRejected),
        Ok(_) => panic!("expected CycleRejected"),
    }
    // the forest is unchanged
    let roots = store.get_all();
    assert_eq!(roots.len(), 1);
    assert_eq!(roots[0].id, a.id);
    assert_eq!(roots[0].children.len(), 1);
}

#[test]
fn move_under_itself_is_rejected_as_a_cycle() {
    let mut store = Store::new(Vec::new());
    let a = store.add_item(None, item("a", ItemType::Provider)).unwrap();
    match store.move_item(a.id.clone(), Some(a.id.clone())) {
        Err(e) => assert_eq!(e, StoreError::CycleRejected),
        Ok(_) => panic!("expected CycleRejected"),
    }
}

#[test]
fn move_of_missing_source_or_target_fails_with_item_not_found() {
    let mut store = Store::new(Vec::new());
    let a = store.add_item(None, item("a", ItemType::Provider)).unwrap();
    match store.move_item("missing".to_string(), None) {
        Err(e) => assert_eq!(e, StoreError::ItemNotFound),
        Ok(_) => panic!("expected ItemNotFound"),
    }
    match store.move_item(a.id.clone(), Some("missing".to_string())) {
        Err(e) => assert_eq!(e, StoreError::ItemNotFound),
        Ok(_) => panic!("expected ItemNotFound"),
    }
}
