use prompt_store::models::{ItemMetadata, ItemType, StoreError, TreeItem};
use prompt_store::store::Store;

fn item(name: &str, kind: ItemType) -> TreeItem {
    TreeItem {
        id: String::new(),
        name: name.to_string(),
        item_type: kind,
        children: Vec::new(),
        parent_id: None,
        content: None,
        versions: None,
        metadata: ItemMetadata { description: None, tags: None, last_modified: None },
    }
}

#[test]
fn add_then_get_returns_stamped_node() {
    let mut store = Store::new(Vec::new());
    let mut candidate = item("openai", ItemType::Provider);
    candidate.id = "caller-supplied".to_string();
    candidate.content = Some("body".to_string());
    candidate.parent_id = None;
    candidate.metadata.description = Some("a provider".to_string());
    candidate.metadata.tags = Some(vec!["x".to_string()]);
    candidate.metadata.last_modified = Some(7);
    let added = store.add_item(None, candidate).unwrap();
    // the store overwrites exactly the id and the timestamp
    assert!(!added.id.is_empty());
    assert_ne!(added.id, "caller-supplied");
    assert!(added.metadata.last_modified.is_some());
    assert_ne!(added.metadata.last_modified, Some(7));
    let got = store.get_item(&added.id).unwrap();
    assert_eq!(got.id, added.id);
    assert_eq!(got.name, "openai");
    assert_eq!(got.item_type, ItemType::Provider);
    assert_eq!(got.content, Some("body".to_string()));
    assert_eq!(got.parent_id, None);
    assert_eq!(got.children.len(), 0);
    assert_eq!(got.metadata.description, Some("a provider".to_string()));
    assert_eq!(got.metadata.tags, Some(vec!["x".to_string()]));
    assert_eq!(got.metadata.last_modified, added.metadata.last_modified);
}

#[test]
fn add_with_missing_parent_fails_and_leaves_forest_unchanged() {
    let mut store = Store::new(Vec::new());
    let r = store.add_item(Some("missing".to_string()), item("x", ItemType::Model));
    match r {
        Err(e) => assert_eq!(e, StoreError::ParentNotFound),
        Ok(_) => panic!("expected ParentNotFound"),
    }
    assert_eq!(store.get_all().len(), 0);
}

#[test]
fn add_under_parent_appends_child() {
    let mut store = Store::new(Vec::new());
    let root = store.add_item(None, item("root", ItemType::Provider)).unwrap();
    let child = store.add_item(Some(root.id.clone()), item("kid", ItemType::Model)).unwrap();
    let got_root = store.get_item(&root.id).unwrap();
    assert_eq!(got_root.children.len(), 1);
    assert_eq!(got_root.children[0].id, child.id);
}

#[test]
fn delete_removes_entire_subtree() {
    let mut store = Store::new(Vec::new());
    let root = store.add_item(None, item("root", ItemType::Provider)).unwrap();
    let child = store.add_item(Some(root.id.clone()), item("kid", ItemType::Model)).unwrap();
    store.delete_item(root.id.clone()).unwrap();
    assert!(store.get_item(&root.id).is_none());
    assert!(store.get_item(&child.id).is_none());
    assert_eq!(store.get_all().len(), 0);
}

#[test]
fn delete_of_missing_id_is_a_no_op() {
    let mut store = Store::new(Vec::new());
    store.add_item(None, item("root", ItemType::Provider)).unwrap();
    store.delete_item("missing".to_string()).unwrap();
    assert_eq!(store.get_all().len(), 1);
}

#[test]
fn update_replaces_name_but_retains_tags_when_patch_has_none() {
    let mut store = Store::new(Vec::new());
    let node = store.add_item(None, item("p", ItemType::Prompt)).unwrap();
    let mut with_tags = item("p", ItemType::Prompt);
    with_tags.metadata.tags = Some(vec!["a".to_string(), "b".to_string()]);
    store.update_item(node.id.clone(), with_tags).unwrap();
    let mut patch = item("", ItemType::Prompt);
    patch.metadata.tags = None;
    let updated = store.update_item(node.id.clone(), patch).unwrap();
    assert_eq!(updated.name, "");
    assert_eq!(updated.metadata.tags, Some(vec!["a".to_string(), "b".to_string()]));
    assert_eq!(updated.id, node.id);
}

#[test]
fn update_of_missing_id_fails() {
    let mut store = Store::new(Vec::new());
    let r = store.update_item("missing".to_string(), item("x", ItemType::Prompt));
    match r {
        Err(e) => assert_eq!(e, StoreError::ItemNotFound),
        Ok(_) => panic!("expected ItemNotFound"),
    }
}
