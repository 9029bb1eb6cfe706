use rmqtty::mqtt::{Message, Timestamp};
use rmqtty::topic::{TopicNode, TopicNodeFlat, LISTED_SUB_TOPIC_COUNT, MAX_MESSAGES};

fn msg(topic: &str, payload: &str) -> Message {
    Message {
        topic: topic.to_string(),
        payload: payload.to_string(),
        ts: Timestamp { hour: 1, minute: 2, second: 3 },
    }
}

fn names(node: &TopicNode) -> Vec<String> {
    node.children.iter().map(|c| c.0.clone()).collect()
}

fn child<'a>(node: &'a TopicNode, name: &str) -> &'a TopicNode {
    &node.children.iter().find(|c| c.0 == name).expect("child exists").1
}

fn listing(node: &TopicNode) -> Vec<TopicNodeFlat> {
    let mut out = Vec::new();
    node.flatten(&mut out, 0);
    out
}

#[test]
fn new_node_is_empty() {
    let n = TopicNode::new();
    assert_eq!(n.total_count, 0);
    assert!(n.messages.is_empty());
    assert!(n.children.is_empty());
    assert!(!n.expanded);
    assert_eq!(n.visible_count(), 0);
}

#[test]
fn insert_creates_levels_in_name_order() {
    let mut root = TopicNode::new();
    root.insert("home/kitchen", msg("home/kitchen", "1"));
    root.insert("home/attic", msg("home/attic", "2"));
    root.insert("garage", msg("garage", "3"));
    assert_eq!(root.total_count, 3);
    assert_eq!(names(&root), vec!["garage", "home"]);
    let home = child(&root, "home");
    assert_eq!(home.total_count, 2);
    assert!(home.messages.is_empty());
    assert_eq!(names(home), vec!["attic", "kitchen"]);
    assert_eq!(child(home, "kitchen").messages.back().unwrap().payload, "1");
}

#[test]
fn insert_same_topic_reuses_node() {
    let mut root = TopicNode::new();
    root.insert("a/b", msg("a/b", "x"));
    root.insert("a/b", msg("a/b", "y"));
    assert_eq!(root.children.len(), 1);
    let b = child(child(&root, "a"), "b");
    assert_eq!(b.total_count, 2);
    let payloads: Vec<&str> = b.messages.iter().map(|m| m.payload.as_str()).collect();
    assert_eq!(payloads, vec!["x", "y"]);
}

#[test]
fn insert_keeps_empty_levels() {
    let mut root = TopicNode::new();
    root.insert("a//b", msg("a//b", "1"));
    root.insert("/lead", msg("/lead", "2"));
    root.insert("", msg("", "3"));
    assert_eq!(names(&root), vec!["", "a"]);
    let a = child(&root, "a");
    assert_eq!(names(a), vec![""]);
    assert_eq!(names(child(a, "")), vec!["b"]);
    let empty = child(&root, "");
    assert_eq!(empty.total_count, 2);
    assert_eq!(empty.messages.len(), 1);
    assert_eq!(names(empty), vec!["lead"]);
}

#[test]
fn names_order_by_code_point() {
    let mut root = TopicNode::new();
    for t in ["b", "B", "a", "ab", "é", "A"] {
        root.insert(t, msg(t, "p"));
    }
    assert_eq!(names(&root), vec!["A", "B", "a", "ab", "b", "é"]);
}

#[test]
fn messages_are_capped_oldest_first() {
    let mut root = TopicNode::new();
    for i in 0..(MAX_MESSAGES + 5) {
        root.insert("t", msg("t", &i.to_string()));
    }
    let t = child(&root, "t");
    assert_eq!(t.messages.len(), MAX_MESSAGES);
    assert_eq!(t.total_count, (MAX_MESSAGES + 5) as u64);
    assert_eq!(t.messages.front().unwrap().payload, "5");
    assert_eq!(t.messages.back().unwrap().payload, (MAX_MESSAGES + 4).to_string());
}

#[test]
fn insert_leaves_other_topics() {
    let mut root = TopicNode::new();
    root.insert("a/x", msg("a/x", "1"));
    root.insert("b", msg("b", "2"));
    root.insert("a/y", msg("a/y", "3"));
    assert_eq!(child(child(&root, "a"), "x").messages.len(), 1);
    assert_eq!(child(&root, "b").messages.back().unwrap().payload, "2");
    assert_eq!(child(&root, "b").total_count, 1);
}

fn sample() -> TopicNode {
    let mut root = TopicNode::new();
    root.insert("a/x", msg("a/x", "1"));
    root.insert("a/y/z", msg("a/y/z", "2"));
    root.insert("b", msg("b", "3"));
    root
}

#[test]
fn listing_shows_only_expanded_levels() {
    let mut root = sample();
    assert_eq!(root.visible_count(), 2);
    let flat = listing(&root);
    assert_eq!(flat.len(), 2);
    assert_eq!(flat[0].label, "a");
    assert_eq!(flat[0].depth, 0);
    assert!(flat[0].has_children);
    assert!(!flat[0].expanded);
    assert_eq!(flat[0].message_count, 2);
    assert_eq!(flat[0].sub_topic_count, LISTED_SUB_TOPIC_COUNT);
    assert_eq!(flat[1].label, "b");
    assert!(!flat[1].has_children);

    let mut pos = 0;
    assert!(root.toggle_expanded(&mut pos));
    assert_eq!(pos, 0);
    assert_eq!(root.visible_count(), 4);
    let flat = listing(&root);
    let labels: Vec<&str> = flat.iter().map(|f| f.label.as_str()).collect();
    assert_eq!(labels, vec!["a", "x", "y", "b"]);
    assert_eq!(flat[1].depth, 1);
    assert!(flat[0].expanded);
}

#[test]
fn flatten_appends_after_existing_lines_with_base_depth() {
    let mut root = sample();
    let mut pos = 0;
    root.toggle_expanded(&mut pos);
    let mut out = vec![TopicNodeFlat {
        depth: 9,
        label: "keep".to_string(),
        has_children: false,
        expanded: false,
        message_count: 0,
        sub_topic_count: 0,
    }];
    root.flatten(&mut out, 3);
    assert_eq!(out.len(), 5);
    assert_eq!(out[0].label, "keep");
    assert_eq!(out[1].depth, 3);
    assert_eq!(out[2].depth, 4);
}

#[test]
fn get_node_at_follows_listing() {
    let mut root = sample();
    let mut pos = 0;
    root.toggle_expanded(&mut pos);
    let mut p = 2;
    let n = root.get_node_at(&mut p).expect("line 2 exists");
    assert_eq!(p, 0);
    assert_eq!(n.total_count, 1);
    assert_eq!(n.children.len(), 1);
    let mut p = 3;
    assert_eq!(root.get_node_at(&mut p).unwrap().messages.back().unwrap().payload, "3");
    let mut p = 10;
    assert!(root.get_node_at(&mut p).is_none());
    assert_eq!(p, 6);
}

#[test]
fn toggle_past_end_changes_nothing() {
    let mut root = sample();
    let mut c = 7;
    assert!(!root.toggle_expanded(&mut c));
    assert_eq!(c, 5);
    assert_eq!(root.visible_count(), 2);
}

#[test]
fn toggling_twice_restores_listing() {
    let mut root = sample();
    let mut c = 0;
    root.toggle_expanded(&mut c);
    let mut c = 2;
    root.toggle_expanded(&mut c);
    let before: Vec<(String, bool)> = listing(&root).iter().map(|f| (f.label.clone(), f.expanded)).collect();
    assert_eq!(before.len(), 5);
    let mut c = 2;
    assert!(root.toggle_expanded(&mut c));
    let mut c = 2;
    assert!(root.toggle_expanded(&mut c));
    let after: Vec<(String, bool)> = listing(&root).iter().map(|f| (f.label.clone(), f.expanded)).collect();
    assert_eq!(before, after);
}

#[test]
fn visible_count_matches_listing_length() {
    let mut root = sample();
    assert_eq!(root.visible_count(), listing(&root).len());
    for line in [0usize, 2, 1] {
        let mut c = line;
        root.toggle_expanded(&mut c);
        assert_eq!(root.visible_count(), listing(&root).len());
    }
}

#[test]
fn listing_line_and_node_agree() {
    let mut root = sample();
    let mut c = 0;
    root.toggle_expanded(&mut c);
    let flat = listing(&root);
    for (i, line) in flat.iter().enumerate() {
        let mut p = i;
        let node = root.get_node_at(&mut p).unwrap();
        assert_eq!(node.total_count, line.message_count);
        assert_eq!(node.expanded, line.expanded);
        assert_eq!(!node.children.is_empty(), line.has_children);
    }
}

#[test]
fn grown_tree_root_counts_its_children() {
    let mut root = TopicNode::new();
    for t in ["a/b", "a", "c/d/e", "a/b", ""] {
        root.insert(t, msg(t, "p"));
    }
    assert!(root.messages.is_empty());
    assert_eq!(root.total_count, 5);
    assert_eq!(root.children.iter().map(|c| c.1.total_count).sum::<u64>(), 5);
    fn all_counted(n: &TopicNode) -> bool {
        n.children.iter().all(|c| c.1.total_count >= 1 && all_counted(&c.1))
    }
    assert!(all_counted(&root));
}

#[test]
fn toggle_changes_visible_count_by_the_subtree() {
    let mut root = sample();
    let mut c = 0;
    root.toggle_expanded(&mut c);
    assert_eq!(root.visible_count(), 4);
    let mut c = 2;
    root.toggle_expanded(&mut c);
    assert_eq!(root.visible_count(), 5);
    let mut c = 0;
    root.toggle_expanded(&mut c);
    assert_eq!(root.visible_count(), 2);
    let mut p = 0;
    assert!(!root.get_node_at(&mut p).unwrap().expanded);
}
