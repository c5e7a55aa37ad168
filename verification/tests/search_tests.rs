use prompt_store::models::{ItemMetadata, ItemType, SearchFilters, TreeItem};
use prompt_store::store::Store;

fn item(name: &str, kind: ItemType) -> TreeItem {
    TreeItem {
        id: String::new(),
        name: name.to_string(),
        item_type: kind,
        children: Vec::new(),
        parent_id: None,
        content: None,
        versions: None,
        metadata: ItemMetadata { description: None, tags: None, last_modified: None },
    }
}

fn prompt_with_content(name: &str, content: &str) -> TreeItem {
    let mut p = item(name, ItemType::Prompt);
    p.content = Some(content.to_string());
    p
}

#[test]
fn search_reports_overlapping_content_matches_with_columns() {
    let mut store = Store::new(Vec::new());
    store.add_item(None, prompt_with_content("p", "cat\nconcatenate\n")).unwrap();
    let results = store.search("cat".to_string(), None);
    assert_eq!(results.len(), 1);
    let matches = &results[0].matches;
    // line 1 "cat": columns 1..4; line 2 "concatenate": one occurrence at
    // offset 3, columns 4..7
    assert_eq!(matches.len(), 2);
    assert_eq!(matches[0].line_number, 1);
    assert_eq!(matches[0].start_column, 1);
    assert_eq!(matches[0].end_column, 4);
    assert_eq!(matches[0].line_content, "cat");
    assert_eq!(matches[1].line_number, 2);
    assert_eq!(matches[1].start_column, 4);
    assert_eq!(matches[1].end_column, 7);
    assert_eq!(matches[1].line_content, "concatenate");
}

#[test]
fn search_reports_every_overlapping_occurrence() {
    let mut store = Store::new(Vec::new());
    store.add_item(None, prompt_with_content("p", "aaa")).unwrap();
    let results = store.search("aa".to_string(), None);
    assert_eq!(results.len(), 1);
    let cols: Vec<(usize, usize)> =
        results[0].matches.iter().map(|m| (m.start_column, m.end_column)).collect();
    assert_eq!(cols, vec![(1, 3), (2, 4)]);
}

#[test]
fn blank_query_returns_nothing() {
    let mut store = Store::new(Vec::new());
    store.add_item(None, item("anything", ItemType::Provider)).unwrap();
    assert_eq!(store.search(String::new(), None).len(), 0);
    assert_eq!(store.search("   ".to_string(), None).len(), 0);
}

#[test]
fn name_match_is_case_insensitive_and_carries_no_spans() {
    let mut store = Store::new(Vec::new());
    store.add_item(None, item("OpenAI", ItemType::Provider)).unwrap();
    let results = store.search("openai".to_string(), None);
    assert_eq!(results.len(), 1);
    assert_eq!(results[0].item_name, "OpenAI");
    assert_eq!(results[0].matches.len(), 0);
}

#[test]
fn type_filter_restricts_results() {
    let mut store = Store::new(Vec::new());
    store.add_item(None, item("alpha", ItemType::Provider)).unwrap();
    store.add_item(None, item("alpha", ItemType::Model)).unwrap();
    let filters = SearchFilters { types: Some(vec![ItemType::Model]), date: None };
    let results = store.search("alpha".to_string(), Some(filters));
    assert_eq!(results.len(), 1);
    assert_eq!(results[0].item_type, ItemType::Model);
    // an empty type set imposes no restriction
    let open = SearchFilters { types: Some(Vec::new()), date: None };
    assert_eq!(store.search("alpha".to_string(), Some(open)).len(), 2);
}

#[test]
fn repeated_search_yields_identical_results() {
    let mut store = Store::new(Vec::new());
    store.add_item(None, prompt_with_content("notes", "cat\nconcatenate\n")).unwrap();
    let first = store.search("cat".to_string(), None);
    let second = store.search("cat".to_string(), None);
    assert_eq!(first.len(), second.len());
    for (a, b) in first.iter().zip(second.iter()) {
        assert_eq!(a.item_id, b.item_id);
        assert_eq!(a.matches.len(), b.matches.len());
        for (m, n) in a.matches.iter().zip(b.matches.iter()) {
            assert_eq!(m.line_number, n.line_number);
            assert_eq!(m.start_column, n.start_column);
            assert_eq!(m.end_column, n.end_column);
            assert_eq!(m.line_content, n.line_content);
        }
    }
}

#[test]
fn search_does_not_match_prompt_content_of_other_kinds() {
    let mut store = Store::new(Vec::new());
    let mut settings = item("settings", ItemType::Settings);
    settings.content = Some("needle".to_string());
    store.add_item(None, settings).unwrap();
    assert_eq!(store.search("needle".to_string(), None).len(), 0);
}
