use loot::engine::change_graph::{compute_change_id, ChangeGraph, ChangeNode};
use loot::types::{Change, Oid, RepoPath, Tree, Visibility};

fn node(id: u8, parents: &[u8], path: &str, addr: u8) -> ChangeNode {
    let mut tree = Tree::new();
    tree.insert(
        RepoPath::new(path),
        (Oid([addr; 32]), Visibility::Public),
    );
    ChangeNode {
        id: Oid([id; 32]),
        parents: parents.iter().map(|&p| Oid([p; 32])).collect(),
        message: format!("c{id}"),
        tree,
        author: None,
        signature: None,
        change_id: None,
        predecessors: vec![],
    }
}

#[test]
fn single_change_is_the_head() {
    let mut g = ChangeGraph::new();
    g.insert(node(1, &[], "a", 10));
    assert_eq!(g.heads(), vec![Oid([1; 32])]);
}

#[test]
fn child_replaces_parent_as_head() {
    let mut g = ChangeGraph::new();
    g.insert(node(1, &[], "a", 10));
    g.insert(node(2, &[1], "a", 11));
    assert_eq!(g.heads(), vec![Oid([2; 32])]);
}

#[test]
fn insert_is_idempotent() {
    let mut g = ChangeGraph::new();
    g.insert(node(1, &[], "a", 10));
    g.insert(node(1, &[], "a", 10));
    assert_eq!(g.heads(), vec![Oid([1; 32])]);
}

#[test]
fn current_tree_takes_child_write_over_parent() {
    let mut g = ChangeGraph::new();
    g.insert(node(1, &[], "a", 10));
    g.insert(node(2, &[1], "a", 11));
    let tree = g.current_tree();
    assert_eq!(tree.get(&RepoPath::new("a")).unwrap().0, Oid([11; 32]));
}

#[test]
fn two_heads_when_disjoint() {
    let mut g = ChangeGraph::new();
    g.insert(node(1, &[], "a", 10));
    g.insert(node(2, &[], "b", 20));
    let mut heads = g.heads();
    heads.sort_by_key(|o| o.0[0]);
    assert_eq!(heads, vec![Oid([1; 32]), Oid([2; 32])]);
}

#[test]
fn tree_at_scopes_to_one_line_unlike_current_tree() {
    // A common base (1), then two forks: 2 writes b, 3 writes c. Both are
    // heads. current_tree() merges everything; tree_at() sees one line only.
    let mut g = ChangeGraph::new();
    g.insert(node(1, &[], "a", 10));
    g.insert(node(2, &[1], "b", 20)); // fork A
    g.insert(node(3, &[1], "c", 30)); // fork B

    let merged = g.current_tree();
    assert!(merged.contains_key(&RepoPath::new("a")));
    assert!(merged.contains_key(&RepoPath::new("b")));
    assert!(merged.contains_key(&RepoPath::new("c")), "current_tree merges all heads");

    let fork_a = g.tree_at(&Oid([2; 32]));
    assert!(fork_a.contains_key(&RepoPath::new("a")), "sees the shared base");
    assert!(fork_a.contains_key(&RepoPath::new("b")), "sees its own write");
    assert!(!fork_a.contains_key(&RepoPath::new("c")), "must NOT see the sibling fork");

    let fork_b = g.tree_at(&Oid([3; 32]));
    assert!(fork_b.contains_key(&RepoPath::new("c")));
    assert!(!fork_b.contains_key(&RepoPath::new("b")), "isolation is symmetric");
}

#[test]
fn tree_at_child_write_wins_and_unknown_head_is_empty() {
    let mut g = ChangeGraph::new();
    g.insert(node(1, &[], "a", 10));
    g.insert(node(2, &[1], "a", 11)); // child overwrites a
    assert_eq!(g.tree_at(&Oid([2; 32])).get(&RepoPath::new("a")).unwrap().0, Oid([11; 32]));
    assert!(g.tree_at(&Oid([99; 32])).is_empty(), "unknown head => empty tree");
}

#[test]
fn a_root_that_comes_after_its_child_is_no_head() {
    let mut g = ChangeGraph::new();
    g.insert(node(2, &[1], "a", 11));
    g.insert(node(1, &[], "a", 10));
    assert_eq!(g.heads(), vec![Oid([2; 32])]);
    assert_eq!(g.current_tree().get(&RepoPath::new("a")).unwrap().0, Oid([11; 32]));
}

#[test]
fn what_some_heads_reach_has_those_heads() {
    let mut g = ChangeGraph::new();
    g.insert(node(1, &[], "a", 10));
    g.insert(node(2, &[1], "b", 20));
    g.insert(node(3, &[1], "c", 30));
    g.insert(node(4, &[3], "d", 40));
    let asked = vec![Oid([3; 32]), Oid([2; 32])];
    let part = ChangeGraph::reachable_from(g.nodes(), &asked);
    assert_eq!(part.heads(), asked);
    assert_eq!(part.nodes().len(), 3);
    assert!(part.get(&Oid([4; 32])).is_none());
}

#[test]
fn a_change_on_top_of_every_head_has_the_last_word() {
    let mut g = ChangeGraph::new();
    g.insert(node(1, &[], "a", 10));
    g.insert(node(9, &[1], "a", 20));
    g.insert(node(8, &[1], "a", 30));
    // The id sorts first, yet the change comes last.
    g.insert(node(0, &[8, 9], "a", 40));
    assert_eq!(g.heads(), vec![Oid([0; 32])]);
    assert_eq!(g.current_tree().get(&RepoPath::new("a")).unwrap().0, Oid([40; 32]));
}

#[test]
fn the_shared_change_fewest_steps_away_is_the_base() {
    // 5 and 6 share 1, 2 and 3. From 6, 3 is one step away, 2 two and 1 three.
    let mut g = ChangeGraph::new();
    g.insert(node(1, &[], "a", 10));
    g.insert(node(2, &[1], "a", 20));
    g.insert(node(3, &[2], "a", 30));
    g.insert(node(4, &[1], "a", 40));
    g.insert(node(5, &[3], "a", 50));
    g.insert(node(6, &[4, 3], "a", 60));
    let base = g.common_ancestor_tree(&Oid([5; 32]), &Oid([6; 32])).unwrap();
    assert_eq!(base.get(&RepoPath::new("a")).unwrap().0, Oid([30; 32]));
    assert!(g.common_ancestor_tree(&Oid([5; 32]), &Oid([99; 32])).is_none());
}

#[test]
fn spellings_of_one_path_are_one_path() {
    let mut tree = Tree::new();
    tree.insert(RepoPath::new("a//b"), (Oid([1; 32]), Visibility::Public));
    tree.insert(RepoPath::new("a/./b/"), (Oid([2; 32]), Visibility::Public));
    assert_eq!(tree.len(), 1);
    assert_eq!(tree.get(&RepoPath::new("a/b")).unwrap().0, Oid([2; 32]));
    assert_eq!(RepoPath::new("a//b"), RepoPath::new("a/b"));
    assert_ne!(RepoPath::new("./a"), RepoPath::new("a"));
    assert_ne!(RepoPath::new("a/../b"), RepoPath::new("b"));
}

#[test]
fn a_path_keeps_its_text() {
    assert_eq!(RepoPath::new("a//b").as_str(), "a//b");
    assert_eq!(RepoPath::new("/a/./b/").as_str(), "/a/./b/");
    let mut tree = Tree::new();
    tree.insert(RepoPath::new("a//b"), (Oid([1; 32]), Visibility::Public));
    tree.insert(RepoPath::new("a/b"), (Oid([2; 32]), Visibility::Public));
    assert_eq!(tree.path_at(0).as_str(), "a//b");
    assert_eq!(tree.key_of(&RepoPath::new("a/b")).unwrap().as_str(), "a//b");
    tree.remove(&RepoPath::new("a/./b"));
    assert!(tree.is_empty());
    tree.insert(RepoPath::new("a/b"), (Oid([2; 32]), Visibility::Public));
    assert_eq!(tree.path_at(0).as_str(), "a/b");
}

fn id_of(tree: &Tree) -> Oid {
    compute_change_id(
        None,
        &Change { id: Oid([0; 32]), parents: vec![], message: "m".into(), tree: tree.clone() },
    )
}

#[test]
fn an_id_goes_by_the_text_of_its_paths() {
    let mut a = node(1, &[], "a/b", 10).tree;
    let mut b = node(1, &[], "a//b", 10).tree;
    assert!(a.agrees(&b));
    let plain = id_of(&a);
    let doubled = id_of(&b);
    assert_ne!(plain, doubled);
    a.insert(RepoPath::new("a//b"), (Oid([10; 32]), Visibility::Public));
    b.insert(RepoPath::new("a/b"), (Oid([10; 32]), Visibility::Public));
    assert_eq!(id_of(&a), plain, "the key that is there stays");
    assert_eq!(id_of(&b), doubled, "the key that is there stays");
}

#[test]
fn paths_go_by_their_components() {
    let mut tree = Tree::new();
    for p in ["a.b", "a/b", "../a", "./a", "a", "/a"] {
        tree.insert(RepoPath::new(p), (Oid([1; 32]), Visibility::Public));
    }
    let order: Vec<String> = tree.paths().iter().map(|p| p.as_str().to_string()).collect();
    let mut want: Vec<std::path::PathBuf> =
        ["a.b", "a/b", "../a", "./a", "a", "/a"].iter().map(std::path::PathBuf::from).collect();
    want.sort();
    let want: Vec<String> = want.iter().map(|p| p.display().to_string()).collect();
    assert_eq!(order, want);
}
