use squawkbus::match_tree::MatchTree;
use squawkbus::topic_tree::{TopicTree, TopicTreeError};

fn sorted(mut v: Vec<String>) -> Vec<String> {
    v.sort();
    v.dedup();
    v
}

fn strings(v: &[&str]) -> Vec<String> {
    sorted(v.iter().map(|s| s.to_string()).collect())
}

#[test]
fn topic_tree_should_not_smoke() {
    let mut manager: TopicTree = TopicTree::new();

    manager.add("home.kitchen.temperature", "1".into()).unwrap();
    manager.add("home.kitchen.?", "2".into()).unwrap();
    manager.add("home.*", "3".into()).unwrap();
    manager.add("*", "4".into()).unwrap();

    // The order of subscribers is not part of the contract: compare as sets.
    let subscribers = manager.subscribers("home.kitchen.temperature");
    assert_eq!(sorted(subscribers), strings(&["4", "3", "1", "2"]));

    let subscribers = manager.subscribers("home.kitchen.lighting");
    assert_eq!(sorted(subscribers), strings(&["4", "3", "2"]));

    let subscribers = manager.subscribers("home.lounge.temperature");
    assert_eq!(sorted(subscribers), strings(&["4", "3"]));
}

#[test]
fn match_tree_should_not_smoke() {
    let mut match_tree: MatchTree = MatchTree::new();

    match_tree.add("LSE.?").unwrap();
    match_tree.add("NYSE.?").unwrap();
    assert!(match_tree.is_match("LSE.VOD"));
    assert!(match_tree.is_match("NYSE.GS"));
    assert!(!match_tree.is_match("NASDAQ.MSFT"));

    match_tree.remove("NYSE.?");
    assert!(!match_tree.is_match("NYSE.GS"));

    match_tree.clear();
    match_tree.add("X.*").unwrap();
    assert!(match_tree.is_match("X.a"));
    assert!(match_tree.is_match("X.a.b"));
    assert!(!match_tree.is_match("Y"));
    assert!(!match_tree.is_match("Y.a"));

    match_tree.clear();
    match_tree.add("*").unwrap();
    assert!(match_tree.is_match("X"));
    assert!(match_tree.is_match("Y"));
    assert!(match_tree.is_match("a.b.c"));
}

#[test]
fn bad_patterns_are_refused() {
    let mut tree = TopicTree::new();
    assert_eq!(tree.add("", "a".into()), Err(TopicTreeError::BadPattern));
    assert_eq!(tree.add("a.*.b", "a".into()), Err(TopicTreeError::BadPattern));
    assert_eq!(tree.add("a.*", "a".into()), Ok(1));
    assert!(MatchTree::create("*.x").is_err());
    assert!(MatchTree::create("").is_err());
}

#[test]
fn counts_go_up_then_down_to_gone() {
    let mut tree = TopicTree::new();
    assert_eq!(tree.add("a.b", "s".into()), Ok(1));
    assert_eq!(tree.add("a.b", "s".into()), Ok(2));
    assert_eq!(tree.add("a.b", "s".into()), Ok(3));
    assert_eq!(tree.remove("a.b", "s", false), Some(2));
    assert_eq!(tree.remove("a.b", "s", false), Some(1));
    assert_eq!(tree.remove("a.b", "s", false), Some(0));
    assert_eq!(tree.remove("a.b", "s", false), None);
    assert!(tree.subscribers("a.b").is_empty());
    assert!(tree.topics("s").is_empty());
}

#[test]
fn remove_all_drops_every_hold() {
    let mut tree = TopicTree::new();
    tree.add("x", "s".into()).unwrap();
    tree.add("x", "s".into()).unwrap();
    tree.add("y.?", "s".into()).unwrap();
    assert_eq!(sorted(tree.topics("s")), strings(&["x", "y.?"]));
    assert_eq!(tree.remove("x", "s", true), Some(0));
    assert_eq!(tree.remove("x", "t", true), None);
    assert_eq!(sorted(tree.topics("s")), strings(&["y.?"]));
}

#[test]
fn wildcards_match_levels() {
    let mut tree = TopicTree::new();
    tree.add("home.kitchen.?", "b".into()).unwrap();
    tree.add("home.*", "c".into()).unwrap();
    assert_eq!(sorted(tree.subscribers("home.kitchen.temperature")), strings(&["b", "c"]));
    assert_eq!(sorted(tree.subscribers("home.kitchen.a.b")), strings(&["c"]));
    assert_eq!(sorted(tree.subscribers("home.a")), strings(&["c"]));
    assert!(tree.subscribers("home").is_empty());
    assert!(tree.subscribers("garage").is_empty());
}
