use wiki_explorer::page_graph::PageGraph;
use wiki_explorer::text::{str_eq, str_lt, find_str};
use wiki_explorer::checkpoint_due;

#[test]
fn fresh_graph_is_empty() {
    let g = PageGraph::new();
    let mut it = g.iter_unknown_pages();
    assert!(it.next().is_none());
}

#[test]
fn insert_page_assigns_dense_ids() {
    let mut g = PageGraph::new();
    let r = g.insert_page("A", vec!["B", "C"]);
    let (id_a, known) = r.expect("first insertion fills the slot");
    // link targets are resolved first, so "B" and "C" take ids 0 and 1
    assert_eq!(id_a.0, 2);
    assert!(!known);
}

#[test]
fn insert_page_twice_returns_none() {
    let mut g = PageGraph::new();
    let first = g.insert_page("A", vec!["B"]);
    assert!(first.is_some());
    let second = g.insert_page("A", vec!["B"]);
    assert!(second.is_none());
}

#[test]
fn placeholder_then_fill_reports_known() {
    let mut g = PageGraph::new();
    let _ = g.get_page_id_or_insert_empty("B");
    let r = g.insert_page("B", vec![]);
    let (_, known) = r.expect("placeholder slot is empty");
    assert!(known);
}

#[test]
fn unknown_pages_reflect_updates() {
    let mut g = PageGraph::new();
    let _ = g.insert_page("A", vec!["B", "C"]);
    let mut it = g.iter_unknown_pages();
    let mut names = Vec::new();
    while let Some((name, _)) = it.next() {
        names.push(name);
    }
    assert_eq!(names, vec!["B".to_string(), "C".to_string()]);
    let _ = g.insert_page("B", vec!["A"]);
    let mut it2 = g.iter_unknown_pages();
    let mut names2 = Vec::new();
    while let Some((name, _)) = it2.next() {
        names2.push(name);
    }
    assert_eq!(names2, vec!["C".to_string()]);
}

#[test]
fn self_reference_is_still_a_new_name() {
    let mut g = PageGraph::new();
    let r = g.insert_page("A", vec!["A"]);
    let (id_a, known) = r.expect("new page");
    assert_eq!(id_a.0, 0);
    // the name was entirely new before the call, even though its own link
    // pass created the placeholder first
    assert!(!known);
    let page_a = g.page_array[id_a.0].as_ref().expect("A is known");
    assert_eq!(page_a.referenced, vec![id_a]);
}

#[test]
fn string_order_helpers() {
    assert!(str_lt("Abc", "b"));
    assert!(!str_lt("b", "Abc"));
    assert!(str_eq("same", "same"));
    assert!(!str_eq("same", "samey"));
}

#[test]
fn find_str_first_occurrence() {
    assert_eq!(find_str("abcabc", "bc"), Some(1));
    assert_eq!(find_str("abc", "zz"), None);
    assert_eq!(find_str("abc", ""), Some(0));
}

#[test]
fn checkpoint_every_eighth_page() {
    let mut hits = 0;
    for processed in 1..=16usize {
        if checkpoint_due(processed) {
            hits += 1;
        }
    }
    assert_eq!(hits, 2);
}
