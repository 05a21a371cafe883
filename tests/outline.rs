use tzextract::error::DocumentError;
use tzextract::outline::{
    bookmark_destination_to_page_index, get_destination_pages, get_top_level_bookmarks, BookmarkDestination,
    NamedDestination, OutlineAction, OutlineEntry,
};
use tzextract::pages::{get_page_references, outline_next, position_of, ObjectRef, PageNode};

fn r(id: u64) -> ObjectRef {
    ObjectRef { id, generation: 0 }
}

fn entry(title: Option<&str>, dest: Option<&str>, action: OutlineAction) -> OutlineEntry {
    OutlineEntry { title: title.map(|t| t.to_string()), dest: dest.map(|d| d.to_string()), action }
}

#[test]
fn page_tree_in_depth_first_order() {
    let tree = PageNode::Tree(vec![
        PageNode::Leaf(r(1)),
        PageNode::Tree(vec![
            PageNode::Leaf(r(2)),
            PageNode::Tree(vec![PageNode::Leaf(r(3)), PageNode::Leaf(r(4))]),
            PageNode::Leaf(r(5)),
        ]),
        PageNode::Leaf(r(6)),
        PageNode::Tree(vec![PageNode::Leaf(r(7))]),
    ]);
    let refs = get_page_references(&tree).unwrap();
    let ids: Vec<u64> = refs.iter().map(|p| p.id).collect();
    assert_eq!(ids, vec![1, 2, 3, 4, 5, 6, 7]);
}

fn chain(levels: usize) -> PageNode {
    let mut node = PageNode::Tree(vec![PageNode::Leaf(r(1))]);
    for _ in 1..levels {
        node = PageNode::Tree(vec![node]);
    }
    node
}

#[test]
fn page_tree_at_the_depth_bound() {
    assert_eq!(get_page_references(&chain(16)).unwrap().len(), 1);
}

#[test]
fn page_tree_too_deep() {
    assert_eq!(get_page_references(&chain(17)).unwrap_err(), DocumentError::TreeTooDeep);
}

#[test]
fn bookmarks_skip_unusable_entries() {
    let entries = vec![
        entry(None, Some("nowhere"), OutlineAction::Absent),
        entry(Some("Front"), Some("front"), OutlineAction::Absent),
        entry(Some("Links"), None, OutlineAction::Other),
        entry(Some("Blank"), None, OutlineAction::GotoPage(None)),
        entry(Some("Second"), None, OutlineAction::GotoPage(Some(r(9)))),
        entry(Some("Third"), None, OutlineAction::GotoNamed("third".to_string())),
        entry(Some("Nothing"), None, OutlineAction::Absent),
    ];
    let b = get_top_level_bookmarks(&entries);
    assert_eq!(b.len(), 3);
    assert_eq!((b[0].index, b[0].title.as_str()), (0, "Front"));
    assert!(matches!(&b[0].destination, BookmarkDestination::Named(n) if n == "front"));
    assert_eq!((b[1].index, b[1].title.as_str()), (1, "Second"));
    assert!(matches!(&b[1].destination, BookmarkDestination::Page(p) if *p == r(9)));
    assert_eq!((b[2].index, b[2].title.as_str()), (2, "Third"));
    assert!(matches!(&b[2].destination, BookmarkDestination::Named(n) if n == "third"));
}

#[test]
fn destination_string_wins_over_action() {
    let entries = vec![entry(Some("A"), Some("a"), OutlineAction::GotoPage(Some(r(1))))];
    let b = get_top_level_bookmarks(&entries);
    assert!(matches!(&b[0].destination, BookmarkDestination::Named(n) if n == "a"));
}

#[test]
fn destinations_resolve_to_page_indices() {
    let pages = vec![r(10), r(11), r(12)];
    let named = vec![
        NamedDestination { name: "a".to_string(), page: Some(r(11)) },
        NamedDestination { name: "b".to_string(), page: None },
        NamedDestination { name: "c".to_string(), page: Some(r(99)) },
        NamedDestination { name: "a".to_string(), page: Some(r(12)) },
    ];
    let table = get_destination_pages(&named, &pages);
    assert_eq!(table.len(), 2);
    let named_a = BookmarkDestination::Named("a".to_string());
    assert_eq!(bookmark_destination_to_page_index(&named_a, &table, &pages), Some(2));
    let named_b = BookmarkDestination::Named("b".to_string());
    assert_eq!(bookmark_destination_to_page_index(&named_b, &table, &pages), None);
    let direct = BookmarkDestination::Page(r(10));
    assert_eq!(bookmark_destination_to_page_index(&direct, &table, &pages), Some(0));
    let missing = BookmarkDestination::Page(r(13));
    assert_eq!(bookmark_destination_to_page_index(&missing, &table, &pages), None);
}

#[test]
fn position_is_the_first_occurrence() {
    let refs = vec![r(1), r(2), r(1)];
    assert_eq!(position_of(&refs, r(1)), Some(0));
    assert_eq!(position_of(&refs, r(2)), Some(1));
    assert_eq!(position_of(&refs, ObjectRef { id: 1, generation: 1 }), None);
}

#[test]
fn outline_walk_stops_on_a_cycle() {
    let visited = vec![r(1), r(2)];
    assert_eq!(outline_next(&visited, r(3)), Ok(()));
    assert_eq!(outline_next(&visited, r(1)), Err(DocumentError::OutlineTooLong));
}
