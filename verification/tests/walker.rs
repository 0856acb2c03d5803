//! Tests of the collection walker: inline lists, budget, short-circuits,
//! pagination, and failure propagation.

use ap_outbox::LinkResolver;
use ap_outbox::Node;
use ap_outbox::NodeRef;
use ap_outbox::Outbox;
use ap_outbox::ResolveError;

fn empty_node() -> Node {
    Node {
        typ: vec![],
        id: None,
        total_items: None,
        items: vec![],
        first: None,
        ordered_items: vec![],
        next: None,
        object: vec![],
        url: None,
        content: vec![],
        in_reply_to: vec![],
        attachment: vec![],
        media_type: vec![],
        sensitive: None,
    }
}

fn node_with_id(id: &str) -> Node {
    let mut n = empty_node();
    n.id = Some(id.to_string());
    n
}

fn inline(n: Node) -> NodeRef {
    NodeRef::Inline(Box::new(n))
}

fn link(href: &str) -> NodeRef {
    NodeRef::Link(href.to_string())
}

/// Resolves from a fixed table of (href, node) pairs.
struct MapResolver {
    entries: Vec<(String, Node)>,
}

impl LinkResolver for MapResolver {
    fn resolve(&self, url: &str) -> Result<Node, ResolveError> {
        for (href, node) in &self.entries {
            if href == url {
                return Ok(node.clone());
            }
        }
        Err(ResolveError { message: format!("no node behind {url}") })
    }
}

/// Fails every resolution.
struct FailResolver;

impl LinkResolver for FailResolver {
    fn resolve(&self, _url: &str) -> Result<Node, ResolveError> {
        Err(ResolveError { message: "network down".to_string() })
    }
}

/// Panics if consulted at all: asserts that no fetch happens.
struct NoFetchResolver;

impl LinkResolver for NoFetchResolver {
    fn resolve(&self, url: &str) -> Result<Node, ResolveError> {
        panic!("unexpected fetch of {url}");
    }
}

fn ids(acts: &[ap_outbox::Activity]) -> Vec<String> {
    acts.iter().map(|a| a.0.id.clone().unwrap_or_default()).collect()
}

#[test]
fn zero_budget_returns_empty() {
    let mut root = empty_node();
    root.items = vec![inline(node_with_id("a")), inline(node_with_id("b"))];
    root.ordered_items = vec![inline(node_with_id("c"))];
    root.first = Some(Box::new(link("https://pages.example/1")));
    let outbox = Outbox(root);
    let acts = outbox.activity_items(&NoFetchResolver, 0).unwrap();
    assert_eq!(acts.len(), 0);
}

#[test]
fn declared_empty_short_circuits() {
    let mut root = empty_node();
    root.total_items = Some(0);
    root.items = vec![inline(node_with_id("a"))];
    root.ordered_items = vec![inline(node_with_id("b"))];
    root.first = Some(Box::new(link("https://pages.example/1")));
    let outbox = Outbox(root);
    let acts = outbox.activity_items(&NoFetchResolver, 10).unwrap();
    assert_eq!(acts.len(), 0);
}

#[test]
fn declared_nonzero_total_does_not_short_circuit() {
    let mut root = empty_node();
    root.total_items = Some(2);
    root.items = vec![inline(node_with_id("a"))];
    let outbox = Outbox(root);
    let acts = outbox.activity_items(&NoFetchResolver, 10).unwrap();
    assert_eq!(ids(&acts), vec!["a"]);
}

#[test]
fn budget_cuts_inline_items_in_source_order() {
    let mut root = empty_node();
    root.items = vec![
        inline(node_with_id("a")),
        inline(node_with_id("b")),
        inline(node_with_id("c")),
    ];
    root.ordered_items = vec![inline(node_with_id("d")), inline(node_with_id("e"))];
    let outbox = Outbox(root);
    let acts = outbox.activity_items(&NoFetchResolver, 2).unwrap();
    assert_eq!(ids(&acts), vec!["a", "b"]);
}

#[test]
fn budget_crosses_into_ordered_items() {
    let mut root = empty_node();
    root.items = vec![inline(node_with_id("a")), inline(node_with_id("b"))];
    root.ordered_items = vec![inline(node_with_id("c")), inline(node_with_id("d"))];
    let outbox = Outbox(root);
    let acts = outbox.activity_items(&NoFetchResolver, 3).unwrap();
    assert_eq!(ids(&acts), vec!["a", "b", "c"]);
}

#[test]
fn large_budget_returns_all_inline_entries() {
    let mut root = empty_node();
    root.items = vec![inline(node_with_id("a"))];
    root.ordered_items = vec![inline(node_with_id("b"))];
    let outbox = Outbox(root);
    let acts = outbox.activity_items(&NoFetchResolver, 100).unwrap();
    assert_eq!(ids(&acts), vec!["a", "b"]);
}

#[test]
fn first_pointer_ignored_when_inline_entries_exist() {
    let mut root = empty_node();
    root.items = vec![inline(node_with_id("a"))];
    root.first = Some(Box::new(link("https://pages.example/1")));
    let outbox = Outbox(root);
    // NoFetchResolver panics on any fetch: reaching `first` would abort.
    let acts = outbox.activity_items(&NoFetchResolver, 10).unwrap();
    assert_eq!(ids(&acts), vec!["a"]);
}

#[test]
fn resolves_linked_entries_in_place() {
    let mut root = empty_node();
    root.total_items = Some(2);
    root.items = vec![inline(node_with_id("a")), link("https://objects.example/b")];
    let resolver = MapResolver {
        entries: vec![("https://objects.example/b".to_string(), node_with_id("c"))],
    };
    let outbox = Outbox(root);
    let acts = outbox.activity_items(&resolver, 5).unwrap();
    assert_eq!(ids(&acts), vec!["a", "c"]);
}

#[test]
fn failed_entry_resolution_discards_everything() {
    let mut root = empty_node();
    root.items = vec![inline(node_with_id("a")), link("https://objects.example/b")];
    let outbox = Outbox(root);
    let r = outbox.activity_items(&FailResolver, 5);
    assert!(r.is_err());
}

#[test]
fn no_first_pointer_yields_empty() {
    let root = empty_node();
    let outbox = Outbox(root);
    let acts = outbox.activity_items(&NoFetchResolver, 10).unwrap();
    assert_eq!(acts.len(), 0);
}

#[test]
fn walks_inline_page_chain_in_order() {
    let mut page2 = empty_node();
    page2.items = vec![inline(node_with_id("c"))];
    let mut page1 = empty_node();
    page1.items = vec![inline(node_with_id("a")), inline(node_with_id("b"))];
    page1.next = Some(Box::new(inline(page2)));
    let mut root = empty_node();
    root.first = Some(Box::new(inline(page1)));
    let outbox = Outbox(root);
    let acts = outbox.activity_items(&NoFetchResolver, 10).unwrap();
    assert_eq!(ids(&acts), vec!["a", "b", "c"]);
}

#[test]
fn page_budget_stops_mid_page() {
    let mut page2 = empty_node();
    page2.items = vec![inline(node_with_id("c")), inline(node_with_id("d"))];
    let mut page1 = empty_node();
    page1.items = vec![inline(node_with_id("a")), inline(node_with_id("b"))];
    page1.next = Some(Box::new(inline(page2)));
    let mut root = empty_node();
    root.first = Some(Box::new(inline(page1)));
    let outbox = Outbox(root);
    let acts = outbox.activity_items(&NoFetchResolver, 3).unwrap();
    assert_eq!(ids(&acts), vec!["a", "b", "c"]);
}

#[test]
fn walks_linked_pages_through_resolver() {
    let mut page2 = empty_node();
    page2.ordered_items = vec![inline(node_with_id("b"))];
    let mut page1 = empty_node();
    page1.items = vec![inline(node_with_id("a"))];
    page1.next = Some(Box::new(link("https://pages.example/2")));
    let mut root = empty_node();
    root.first = Some(Box::new(link("https://pages.example/1")));
    let resolver = MapResolver {
        entries: vec![
            ("https://pages.example/1".to_string(), page1),
            ("https://pages.example/2".to_string(), page2),
        ],
    };
    let outbox = Outbox(root);
    let acts = outbox.activity_items(&resolver, 10).unwrap();
    assert_eq!(ids(&acts), vec!["a", "b"]);
}

#[test]
fn empty_page_ends_walk_despite_next_pointer() {
    let mut page1 = empty_node();
    page1.next = Some(Box::new(link("https://pages.example/2")));
    let mut root = empty_node();
    root.first = Some(Box::new(inline(page1)));
    let outbox = Outbox(root);
    // The next pointer is a link; following it would panic the resolver.
    let acts = outbox.activity_items(&NoFetchResolver, 10).unwrap();
    assert_eq!(acts.len(), 0);
}

#[test]
fn page_without_next_ends_walk() {
    let mut page1 = empty_node();
    page1.items = vec![inline(node_with_id("a"))];
    let mut root = empty_node();
    root.first = Some(Box::new(inline(page1)));
    let outbox = Outbox(root);
    let acts = outbox.activity_items(&NoFetchResolver, 10).unwrap();
    assert_eq!(ids(&acts), vec!["a"]);
}

#[test]
fn failed_page_fetch_propagates() {
    let mut root = empty_node();
    root.first = Some(Box::new(link("https://pages.example/1")));
    let outbox = Outbox(root);
    let r = outbox.activity_items(&FailResolver, 10);
    assert!(r.is_err());
}

#[test]
fn walk_is_repeatable_after_failure() {
    let mut root = empty_node();
    root.items = vec![link("https://objects.example/a")];
    let outbox = Outbox(root);
    assert!(outbox.activity_items(&FailResolver, 5).is_err());
    let resolver = MapResolver {
        entries: vec![("https://objects.example/a".to_string(), node_with_id("a"))],
    };
    let acts = outbox.activity_items(&resolver, 5).unwrap();
    assert_eq!(ids(&acts), vec!["a"]);
}
