//! Unit tests for the frame tree, the navigation context and URLs.

use constellation::frame_tree::FrameTree;
use constellation::navigation::NavigationContext;
use constellation::pipeline::Pipeline;
use constellation::url::Url;

fn leaf(id: u64, parent: Option<u64>) -> FrameTree {
    FrameTree { pipeline_id: id, parent, children: Vec::new() }
}

fn sample_tree() -> FrameTree {
    // 0 -> [1 -> [3], 2]
    FrameTree {
        pipeline_id: 0,
        parent: None,
        children: vec![
            FrameTree { pipeline_id: 1, parent: Some(0), children: vec![leaf(3, Some(1))] },
            leaf(2, Some(0)),
        ],
    }
}

#[test]
fn contains_finds_every_node() {
    let t = sample_tree();
    assert!(t.contains(0));
    assert!(t.contains(1));
    assert!(t.contains(2));
    assert!(t.contains(3));
    assert!(!t.contains(4));
}

#[test]
fn all_ids_is_preorder() {
    let t = sample_tree();
    assert_eq!(t.all_ids(), vec![0, 1, 3, 2]);
}

#[test]
fn find_returns_the_subtree() {
    let t = sample_tree();
    let sub = t.find(1).unwrap();
    assert_eq!(sub.pipeline_id, 1);
    assert_eq!(sub.children.len(), 1);
    assert_eq!(sub.children[0].pipeline_id, 3);
    assert!(t.find(9).is_none());
}

#[test]
fn replace_child_swaps_subtree_and_keeps_parent() {
    let t = sample_tree();
    let replacement = leaf(7, None);
    let r = t.replace_child(1, &replacement);
    assert_eq!(r.all_ids(), vec![0, 7, 2]);
    // The new node inherits the displaced node's parent back-reference.
    assert_eq!(r.children[0].parent, Some(0));
    // No match leaves the tree unchanged.
    let same = t.replace_child(9, &replacement);
    assert_eq!(same.all_ids(), vec![0, 1, 3, 2]);
}

#[test]
fn attach_child_appends_under_source() {
    let t = sample_tree();
    let child = leaf(5, None);
    let r = t.attach_child(3, &child);
    assert_eq!(r.all_ids(), vec![0, 1, 3, 5, 2]);
    assert_eq!(r.children[0].children[0].children[0].parent, Some(3));
    // No match attaches nothing.
    let same = t.attach_child(9, &child);
    assert_eq!(same.all_ids(), vec![0, 1, 3, 2]);
}

#[test]
fn clone_tree_is_equal() {
    let t = sample_tree();
    let c = t.clone_tree();
    assert_eq!(c.all_ids(), t.all_ids());
    assert_eq!(c.children[0].parent, Some(0));
}

#[test]
fn to_sendable_snapshots_registry_records() {
    let t = sample_tree();
    let reg: Vec<Pipeline> = (0..4)
        .map(|i| Pipeline {
            id: i,
            subpage_id: None,
            url: None,
            navigation_type: None,
            script_worker: i,
        })
        .collect();
    let s = t.to_sendable(&reg);
    assert_eq!(s.pipeline.id, 0);
    assert_eq!(s.children.len(), 2);
    assert_eq!(s.children[0].pipeline.id, 1);
    assert_eq!(s.children[0].children[0].pipeline.id, 3);
    assert!(s.contains(3));
    assert!(!s.contains(9));
}

#[test]
fn navigation_back_and_forward_move_trees() {
    let mut nav = NavigationContext::new();
    let evicted = nav.load(leaf(0, None));
    assert!(evicted.is_empty());
    let evicted = nav.load(leaf(1, None));
    assert!(evicted.is_empty());
    assert_eq!(nav.previous.len(), 1);
    let dest = nav.back();
    assert_eq!(dest.pipeline_id, 0);
    assert_eq!(nav.next.len(), 1);
    assert_eq!(nav.next[0].pipeline_id, 1);
    let dest = nav.forward();
    assert_eq!(dest.pipeline_id, 1);
    assert!(nav.next.is_empty());
    assert_eq!(nav.previous.len(), 1);
}

#[test]
fn navigation_load_evicts_forward_stack() {
    let mut nav = NavigationContext::new();
    nav.load(leaf(0, None));
    nav.load(leaf(1, None));
    nav.back();
    let evicted = nav.load(leaf(2, None));
    assert_eq!(evicted.len(), 1);
    assert_eq!(evicted[0].pipeline_id, 1);
    assert!(nav.next.is_empty());
    assert_eq!(nav.current.as_ref().unwrap().pipeline_id, 2);
}

#[test]
fn navigation_contains_and_find_all() {
    let mut nav = NavigationContext::new();
    nav.load(sample_tree());
    nav.load(leaf(4, None));
    assert!(nav.contains(3));
    assert!(nav.contains(4));
    assert!(!nav.contains(9));
    let found = nav.find_all(1);
    assert_eq!(found.len(), 1);
    assert_eq!(found[0].pipeline_id, 1);
    let found = nav.find_all(9);
    assert!(found.is_empty());
}

#[test]
fn url_same_origin_checks_host_and_port() {
    let a = Url { host: b"a".to_vec(), port: Some(80), path: b"/x".to_vec() };
    let b = Url { host: b"a".to_vec(), port: Some(80), path: b"/y".to_vec() };
    let c = Url { host: b"b".to_vec(), port: Some(80), path: b"/x".to_vec() };
    let d = Url { host: b"a".to_vec(), port: Some(81), path: b"/x".to_vec() };
    let e = Url { host: b"a".to_vec(), port: None, path: b"/x".to_vec() };
    assert!(a.same_origin(&b));
    assert!(!a.same_origin(&c));
    assert!(!a.same_origin(&d));
    assert!(!a.same_origin(&e));
}

#[test]
fn url_script_detection() {
    let js = Url { host: b"a".to_vec(), port: None, path: b"/boot.js".to_vec() };
    let bare = Url { host: b"a".to_vec(), port: None, path: b".js".to_vec() };
    let html = Url { host: b"a".to_vec(), port: None, path: b"/index.html".to_vec() };
    let short = Url { host: b"a".to_vec(), port: None, path: b"js".to_vec() };
    assert!(js.is_script());
    assert!(bare.is_script());
    assert!(!html.is_script());
    assert!(!short.is_script());
}
