use searcher::{TimerTree, Timing};

fn names(scopes: &[Timing]) -> Vec<&'static str> {
    scopes.iter().map(|scope| scope.name).collect()
}

#[test]
fn new_tree_has_no_scopes() {
    let tree = TimerTree::new();
    assert!(tree.timings().is_empty());
    assert!(tree.child("search").is_none());
}

#[test]
fn closed_scope_is_filed_under_its_parent() {
    let mut tree = TimerTree::new();
    tree.open("outer");
    tree.open("first");
    tree.close();
    tree.open("second");
    tree.open("innermost");
    tree.close();
    tree.close();
    assert!(tree.timings().is_empty());
    tree.close();
    tree.open("last");
    tree.close();
    assert_eq!(names(tree.timings()), vec!["outer", "last"]);
    let outer = &tree.timings()[0];
    assert_eq!(names(&outer.children), vec!["first", "second"]);
    assert!(outer.children[0].children.is_empty());
    assert_eq!(names(&outer.children[1].children), vec!["innermost"]);
    assert!(tree.timings()[1].children.is_empty());
}

#[test]
fn siblings_may_share_a_name() {
    let mut tree = TimerTree::new();
    tree.open("search");
    for _ in 0..3 {
        tree.open("segment_search");
        tree.close();
    }
    tree.close();
    let search = tree.child("search").unwrap();
    assert_eq!(names(&search.children), vec!["segment_search"; 3]);
}

#[test]
fn child_is_the_first_scope_of_that_name() {
    let mut tree = TimerTree::new();
    tree.open("root");
    tree.open("a");
    tree.close();
    tree.open("b");
    tree.open("inside_first_b");
    tree.close();
    tree.close();
    tree.open("b");
    tree.close();
    tree.close();
    tree.open("b");
    tree.close();
    let root = tree.child("root").unwrap();
    assert_eq!(root.name(), "root");
    let b = root.child("b").unwrap();
    assert_eq!(names(&b.children), vec!["inside_first_b"]);
    assert_eq!(root.child("a").unwrap().name(), "a");
    assert!(root.child("c").is_none());
    assert!(root.child("").is_none());
    assert!(root.child("root").is_none());
    assert!(tree.child("b").unwrap().children.is_empty());
    assert!(tree.child("a").is_none());
}

#[test]
fn duration_covers_the_scopes_inside() {
    let mut tree = TimerTree::new();
    tree.open("outer");
    for _ in 0..50 {
        tree.open("inner");
        let mut spin = 0u64;
        for i in 0..2000u64 {
            spin = spin.wrapping_add(i * i);
        }
        assert!(spin > 0);
        tree.close();
    }
    tree.close();
    let outer = tree.child("outer").unwrap();
    let inside: u64 = outer.children.iter().map(|child| child.duration()).sum();
    assert!(inside <= outer.duration());
    assert_eq!(outer.duration(), outer.micros);
}
