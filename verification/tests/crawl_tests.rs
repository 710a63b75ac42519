use wiki_explorer::explorer::{get_reference_names, normalize_link_name, Explorer};
use wiki_explorer::page_graph::{GraphData, PageGraph, PageId};
use wiki_explorer::page_storage::{get_local_path, LoadPlan, PageState, PageStorage};

fn as_refs(names: &[String]) -> Vec<&str> {
    names.iter().map(|s| s.as_str()).collect()
}

#[test]
fn normalization_strips_namespace_and_anchor() {
    assert_eq!(normalize_link_name("Foo:Bar#Section"), "Foo");
    assert_eq!(normalize_link_name("Baz#Top"), "Baz");
    assert_eq!(normalize_link_name("Plain"), "Plain");
}

#[test]
fn extraction_finds_links_between_markers() {
    let page = "head mw-parser-output x \"/wiki/B\" y \"/wiki/C:NS#frag\" z margin-top: 1.8em tail \"/wiki/D\"";
    let names = get_reference_names(page);
    assert_eq!(names, vec!["B".to_string(), "C".to_string()]);
}

#[test]
fn extraction_without_markers_is_empty() {
    assert!(get_reference_names("no markers at all \"/wiki/B\"").is_empty());
    assert!(get_reference_names("margin-top: 1.8em before mw-parser-output").is_empty());
}

#[test]
fn graph_round_trip_empty() {
    let g = PageGraph::new();
    let d = g.to_graph_data();
    let g2 = PageGraph::from_graph_data(&d).expect("valid data");
    let d2 = g2.to_graph_data();
    assert_eq!(d.name_table, d2.name_table);
    assert_eq!(d.pages, d2.pages);
}

#[test]
fn graph_round_trip_single_page_no_links() {
    let mut g = PageGraph::new();
    let _ = g.insert_page("Solo", vec![]);
    let d = g.to_graph_data();
    assert_eq!(d.name_table, vec![("Solo".to_string(), 0u64)]);
    assert_eq!(d.pages, vec![Some(vec![])]);
    let g2 = PageGraph::from_graph_data(&d).expect("valid data");
    let d2 = g2.to_graph_data();
    assert_eq!(d.name_table, d2.name_table);
    assert_eq!(d.pages, d2.pages);
}

#[test]
fn graph_round_trip_placeholder_reference() {
    let mut g = PageGraph::new();
    let _ = g.insert_page("Root", vec!["Ghost"]);
    let d = g.to_graph_data();
    let g2 = PageGraph::from_graph_data(&d).expect("valid data");
    let d2 = g2.to_graph_data();
    assert_eq!(d.name_table, d2.name_table);
    assert_eq!(d.pages, d2.pages);
}

#[test]
fn graph_round_trip_self_reference() {
    let mut g = PageGraph::new();
    let _ = g.insert_page("Loop", vec!["Loop"]);
    let d = g.to_graph_data();
    assert_eq!(d.pages, vec![Some(vec![0u64])]);
    let g2 = PageGraph::from_graph_data(&d).expect("valid data");
    let d2 = g2.to_graph_data();
    assert_eq!(d.name_table, d2.name_table);
    assert_eq!(d.pages, d2.pages);
}

#[test]
fn decode_rejects_malformed_data() {
    // a name's id out of range
    let d = GraphData { name_table: vec![("A".to_string(), 1u64)], pages: vec![None] };
    assert!(PageGraph::from_graph_data(&d).is_none());
    // lengths differ: an id without a name
    let d = GraphData { name_table: vec![("A".to_string(), 0u64)], pages: vec![None, None] };
    assert!(PageGraph::from_graph_data(&d).is_none());
    // duplicate identifier
    let d = GraphData {
        name_table: vec![("A".to_string(), 0u64), ("B".to_string(), 0u64)],
        pages: vec![None, None],
    };
    assert!(PageGraph::from_graph_data(&d).is_none());
    // unsorted name table
    let d = GraphData {
        name_table: vec![("B".to_string(), 0u64), ("A".to_string(), 1u64)],
        pages: vec![None, None],
    };
    assert!(PageGraph::from_graph_data(&d).is_none());
    // a link identifier out of range
    let d = GraphData { name_table: vec![("A".to_string(), 0u64)], pages: vec![Some(vec![7u64])] };
    assert!(PageGraph::from_graph_data(&d).is_none());
}

#[test]
fn config_round_trip_is_idempotent() {
    let mut s = PageStorage::new();
    s.apply_config("a f\nb m\nc f\n");
    let first = s.generate_config();
    s.apply_config(&first);
    let second = s.generate_config();
    assert_eq!(first, second);
    s.apply_config(&second);
    let third = s.generate_config();
    assert_eq!(second, third);
    assert_eq!(s.get_state("a"), Some(PageState::File));
    assert_eq!(s.get_state("b"), Some(PageState::Missing));
}

#[test]
fn config_skips_malformed_lines() {
    let mut s = PageStorage::new();
    s.apply_config("nospace\nx q\nok f\n\nlate m extra\ntrail fz\n");
    assert_eq!(s.get_state("nospace"), None);
    assert_eq!(s.get_state("x"), None);
    assert_eq!(s.get_state("ok"), Some(PageState::File));
    // a record is exactly "<name> <state_char>": trailing text is not that shape
    assert_eq!(s.get_state("late"), None);
    assert_eq!(s.get_state("trail"), None);
}

#[test]
fn config_later_records_overwrite_earlier() {
    let mut s = PageStorage::new();
    s.apply_config("p f\np m\n");
    assert_eq!(s.get_state("p"), Some(PageState::Missing));
}

#[test]
fn load_plan_follows_cache_state() {
    let mut s = PageStorage::new();
    assert_eq!(s.load_page_plan("new"), LoadPlan::FetchRemote);
    s.record_fetch("gone", false, false);
    assert_eq!(s.load_page_plan("gone"), LoadPlan::Absent);
    s.record_fetch("kept", true, true);
    assert_eq!(s.load_page_plan("kept"), LoadPlan::ReadLocal);
    // fetched but not saved: the index is unchanged
    s.record_fetch("volatile", true, false);
    assert_eq!(s.load_page_plan("volatile"), LoadPlan::FetchRemote);
}

#[test]
fn local_path_uses_reversible_encoding() {
    assert_eq!(get_local_path("A"), "db/pages/pageQQ==.html");
    assert_ne!(get_local_path("A"), get_local_path("B"));
}

// One page fetch in the test harness: the same three-tier protocol the
// program runs, with the network replaced by a closure.
fn load_page<F: Fn(&str) -> Option<String>>(
    storage: &mut PageStorage,
    name: &str,
    net: F,
) -> Option<String> {
    match storage.load_page_plan(name) {
        LoadPlan::Absent => None,
        LoadPlan::ReadLocal | LoadPlan::FetchRemote => match net(name) {
            Some(content) => {
                storage.record_fetch(name, true, true);
                Some(content)
            },
            None => {
                storage.record_fetch(name, false, false);
                None
            },
        },
    }
}

#[test]
fn end_to_end_two_generations() {
    let net = |name: &str| -> Option<String> {
        match name {
            "A" => Some("mw-parser-output \"/wiki/B\" \"/wiki/C\" margin-top: 1.8em".to_string()),
            "B" => Some("mw-parser-output \"/wiki/A\" margin-top: 1.8em".to_string()),
            _ => None,
        }
    };
    let mut e = Explorer::new(PageStorage::new(), PageGraph::new());
    // generation over the root frontier
    let mut frontier = vec!["A".to_string()];
    for name in &frontier {
        let content = load_page(&mut e.page_storage, name, net);
        let _ = e.process_page(name, content.as_deref());
    }
    e.end_generation();
    assert_eq!(e.page_graph.page_array.len(), 3);
    let id_a = e.page_graph.get_page_id_or_insert_empty("A");
    let id_b = e.page_graph.get_page_id_or_insert_empty("B");
    let id_c = e.page_graph.get_page_id_or_insert_empty("C");
    let page_a = e.page_graph.page_array[id_a.0].as_ref().expect("A is known");
    assert_eq!(page_a.referenced, vec![id_b, id_c]);
    assert!(e.page_graph.page_array[id_b.0].is_none());
    // next frontier: every unknown page
    frontier.clear();
    let mut it = e.page_graph.iter_unknown_pages();
    while let Some((name, _)) = it.next() {
        frontier.push(name);
    }
    assert_eq!(frontier, vec!["B".to_string(), "C".to_string()]);
    for name in &frontier {
        let content = load_page(&mut e.page_storage, name, net);
        let _ = e.process_page(name, content.as_deref());
    }
    e.end_generation();
    let page_b = e.page_graph.page_array[id_b.0].as_ref().expect("B is known");
    assert_eq!(page_b.referenced, vec![id_a]);
    assert!(e.page_graph.page_array[id_c.0].is_none());
    assert_eq!(e.page_storage.get_state("C"), Some(PageState::Missing));
    // the frontier before the third generation holds only C
    let mut it2 = e.page_graph.iter_unknown_pages();
    let (only, only_id) = it2.next().expect("C is still unknown");
    assert_eq!(only, "C".to_string());
    assert_eq!(only_id, id_c);
    assert!(it2.next().is_none());
    // C is retried from the cache index alone: no network call is due
    assert_eq!(e.page_storage.load_page_plan("C"), LoadPlan::Absent);
    assert_eq!(e.global_generation_index, 2);
}

#[test]
fn checkpoints_every_eight_pages() {
    for (pages, expected) in [(8usize, 1usize), (9, 1), (16, 2)] {
        let mut e = Explorer::new(PageStorage::new(), PageGraph::new());
        let mut checkpoints = 0;
        for k in 0..pages {
            let name = format!("p{}", k);
            if e.process_page(&name, None) {
                checkpoints += 1;
            }
        }
        assert_eq!(checkpoints, expected, "processing {} pages", pages);
    }
}

#[test]
fn generation_cap_reached_after_four() {
    let mut e = Explorer::new(PageStorage::new(), PageGraph::new());
    for _ in 0..4 {
        assert!(!e.at_generation_cap());
        e.end_generation();
    }
    assert!(e.at_generation_cap());
}

#[test]
fn id_of_page_is_stable_across_reload() {
    let mut g = PageGraph::new();
    let _ = g.insert_page("Root", vec!["Leaf", "Branch"]);
    let id_leaf = g.get_page_id_or_insert_empty("Leaf");
    let d = g.to_graph_data();
    let mut g2 = PageGraph::from_graph_data(&d).expect("valid data");
    assert_eq!(g2.get_page_id_or_insert_empty("Leaf"), id_leaf);
    // known pages are not refetched after a reload: reinsertion is a no-op
    let names = vec!["Leaf".to_string(), "Branch".to_string()];
    assert!(g2.insert_page("Root", as_refs(&names)).is_none());
}
