use gitultra::graph::{build_graph, CommitNode, GraphError};

fn node(oid: &str, parents: &[&str], timestamp: i64) -> CommitNode {
    CommitNode {
        oid: oid.to_string(),
        author: format!("{} author", oid),
        message: format!("{} message", oid),
        parents: parents.iter().map(|p| p.to_string()).collect(),
        timestamp,
    }
}

fn oids(nodes: &[CommitNode]) -> Vec<String> {
    nodes.iter().map(|n| n.oid.clone()).collect()
}

fn same_graph(a: &[CommitNode], b: &[CommitNode]) -> bool {
    a.len() == b.len()
        && a.iter().zip(b.iter()).all(|(x, y)| {
            x.oid == y.oid
                && x.author == y.author
                && x.message == y.message
                && x.parents == y.parents
                && x.timestamp == y.timestamp
        })
}

#[test]
fn chain_of_three_is_emitted_head_first() {
    let model = vec![
        node("aa", &[], 1),
        node("bb", &["aa"], 2),
        node("cc", &["bb"], 3),
    ];
    let g = build_graph(&model, &"cc".to_string()).unwrap();
    assert_eq!(oids(&g), vec!["cc", "bb", "aa"]);
    assert_eq!(g[0].parents, vec!["bb".to_string()]);
    assert_eq!(g[1].parents, vec!["aa".to_string()]);
    assert!(g[2].parents.is_empty());
}

#[test]
fn merge_diamond_emits_common_ancestor_once_and_last() {
    let model = vec![
        node("aa", &[], 1),
        node("bb", &["aa"], 2),
        node("cc", &["aa"], 3),
        node("mm", &["bb", "cc"], 4),
    ];
    let g = build_graph(&model, &"mm".to_string()).unwrap();
    let ids = oids(&g);
    assert_eq!(ids.len(), 4);
    assert_eq!(ids[0], "mm");
    assert_eq!(ids[3], "aa");
    assert_eq!(ids.iter().filter(|i| i.as_str() == "aa").count(), 1);
    // among the unrelated branch tips the newer comes first
    assert_eq!(ids[1], "cc");
    assert_eq!(ids[2], "bb");
}

#[test]
fn repeated_builds_agree() {
    let model = vec![
        node("aa", &[], 1),
        node("bb", &["aa"], 2),
        node("cc", &["aa"], 3),
        node("mm", &["bb", "cc"], 4),
    ];
    let g1 = build_graph(&model, &"mm".to_string()).unwrap();
    let g2 = build_graph(&model, &"mm".to_string()).unwrap();
    assert!(same_graph(&g1, &g2));
}

#[test]
fn model_order_does_not_matter() {
    let model1 = vec![
        node("aa", &[], 1),
        node("bb", &["aa"], 2),
        node("cc", &["bb"], 3),
    ];
    let model2 = vec![
        node("cc", &["bb"], 3),
        node("aa", &[], 1),
        node("bb", &["aa"], 2),
    ];
    let g1 = build_graph(&model1, &"cc".to_string()).unwrap();
    let g2 = build_graph(&model2, &"cc".to_string()).unwrap();
    assert!(same_graph(&g1, &g2));
}

#[test]
fn old_parent_of_recent_merge_still_follows_its_children() {
    // an old branch tip must not be pulled ahead of its child by time
    let model = vec![
        node("aa", &[], 10),
        node("bb", &["aa"], 1),
        node("cc", &["aa"], 20),
        node("mm", &["bb", "cc"], 30),
    ];
    let g = build_graph(&model, &"mm".to_string()).unwrap();
    let ids = oids(&g);
    let pos = |x: &str| ids.iter().position(|i| i == x).unwrap();
    // every parent appears after each commit that lists it
    assert!(pos("mm") < pos("bb"));
    assert!(pos("mm") < pos("cc"));
    assert!(pos("bb") < pos("aa"));
    assert!(pos("cc") < pos("aa"));
}

#[test]
fn equal_timestamps_break_ties_by_id() {
    let model = vec![
        node("aa", &[], 1),
        node("bb", &["aa"], 5),
        node("cc", &["aa"], 5),
        node("mm", &["bb", "cc"], 9),
    ];
    let g = build_graph(&model, &"mm".to_string()).unwrap();
    let ids = oids(&g);
    // same timestamp: the lexicographically smaller id comes first
    assert_eq!(ids, vec!["mm", "bb", "cc", "aa"]);
}

#[test]
fn dangling_parent_is_surfaced() {
    let model = vec![node("cc", &["bb"], 3)];
    let r = build_graph(&model, &"cc".to_string());
    assert_eq!(r.unwrap_err(), GraphError::DanglingParent);
}

#[test]
fn missing_root_is_a_dangling_reference() {
    let model: Vec<CommitNode> = Vec::new();
    let r = build_graph(&model, &"cc".to_string());
    assert_eq!(r.unwrap_err(), GraphError::DanglingParent);
}

#[test]
fn unreachable_commits_are_not_emitted() {
    let model = vec![
        node("aa", &[], 1),
        node("bb", &["aa"], 2),
        node("zz", &[], 9),
    ];
    let g = build_graph(&model, &"bb".to_string()).unwrap();
    assert_eq!(oids(&g), vec!["bb", "aa"]);
}
