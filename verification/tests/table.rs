use sr_router::tree::{BranchNode, LeafNode, Node, Root, Segment};

fn captured<'a>(path: &'a str, spans: &Option<Vec<(usize, usize)>>) -> Vec<&'a str> {
    match spans {
        Some(list) => list.iter().map(|&(start, end)| &path[start..end]).collect(),
        None => Vec::new(),
    }
}

#[test]
fn literal_pattern_matches_exactly_its_own_text() {
    let mut root = Root::new();
    root.insert("/foos", 7u32);
    assert_eq!(root.check("/foos"), Some((&7, None)));
    assert_eq!(root.check("/foo"), None);
    assert_eq!(root.check("/foos/"), None);
    assert_eq!(root.check("x/foos"), None);
    assert_eq!(root.check(""), None);
}

#[test]
fn trailing_wildcard_captures_the_rest() {
    let mut root = Root::new();
    root.insert("/digits/*", "digits");
    let path = "/digits/12345";
    let (handler, spans) = root.check(path).unwrap();
    assert_eq!(*handler, "digits");
    assert_eq!(spans, Some(vec![(8, 13)]));
    assert_eq!(captured(path, &spans), vec!["12345"]);
}

#[test]
fn captures_come_from_left_to_right() {
    let mut root = Root::new();
    root.insert("/a*b*c", 1u8);
    let path = "/a-X-b-Y-c";
    let (handler, spans) = root.check(path).unwrap();
    assert_eq!(*handler, 1);
    assert_eq!(spans, Some(vec![(2, 5), (6, 9)]));
    assert_eq!(captured(path, &spans), vec!["-X-", "-Y-"]);
}

#[test]
fn trailing_wildcard_needs_at_least_one_byte() {
    let mut root = Root::new();
    root.insert("/digits/*", 1u8);
    assert_eq!(root.check("/digits/"), None);
    assert_eq!(root.check("/digits"), None);
}

#[test]
fn bare_wildcard_catches_every_path_but_the_empty_one() {
    let mut root = Root::new();
    root.insert("*", 1u8);
    assert_eq!(root.check("/anything"), Some((&1, Some(vec![(0, 9)]))));
    assert_eq!(root.check(""), None);
}

#[test]
fn empty_pattern_is_never_inserted() {
    let mut root = Root::new();
    root.insert("", 1u8);
    assert!(root.children.is_empty());
    assert_eq!(root.check(""), None);
    assert_eq!(root.check("/"), None);
}

#[test]
fn inserting_no_segments_changes_nothing() {
    let mut root = Root::new();
    root.insert_inner(Vec::new(), 1u8);
    assert!(root.children.is_empty());
    root.insert("/a", 2u8);
    root.insert_inner(Vec::new(), 3u8);
    assert_eq!(root.children.len(), 1);
}

#[test]
fn first_registered_pattern_wins() {
    let mut root = Root::new();
    root.insert("/a/*", "wild");
    root.insert("/a/b", "exact");
    assert_eq!(root.check("/a/b").map(|found| *found.0), Some("wild"));

    let mut other = Root::new();
    other.insert("/a/b", "exact");
    other.insert("/a/*", "wild");
    assert_eq!(other.check("/a/b"), Some((&"exact", None)));
    assert_eq!(other.check("/a/c").map(|found| *found.0), Some("wild"));
}

#[test]
fn first_registered_pattern_wins_below_a_shared_branch() {
    let mut root = Root::new();
    root.insert("/u/*/x*", 1u8);
    root.insert("/u/*/*", 2u8);
    assert_eq!(root.children.len(), 1);
    assert_eq!(root.check("/u/7/xy"), Some((&1, Some(vec![(3, 4), (6, 7)]))));
    assert_eq!(root.check("/u/7/zz"), Some((&2, Some(vec![(3, 4), (5, 7)]))));
}

#[test]
fn equal_patterns_are_both_kept_and_the_first_wins() {
    let mut root = Root::new();
    root.insert("/same", 1u8);
    root.insert("/same", 2u8);
    assert_eq!(root.children.len(), 2);
    assert_eq!(root.check("/same"), Some((&1, None)));
}

#[test]
fn patterns_with_a_common_beginning_share_a_branch() {
    let mut root = Root::new();
    root.insert("/a*b", 1u8);
    root.insert("/a*c", 2u8);
    root.insert("/b*c", 3u8);
    assert_eq!(root.children.len(), 2);
    match &root.children[0] {
        Node::Branch(branch) => {
            assert_eq!(branch.segment, Segment::Static("/a".to_string()));
            assert_eq!(branch.children.len(), 2);
        }
        other => panic!("{:?}", other),
    }
    assert_eq!(root.check("/a1b"), Some((&1, Some(vec![(2, 3)]))));
    assert_eq!(root.check("/a1c"), Some((&2, Some(vec![(2, 3)]))));
    assert_eq!(root.check("/b1c"), Some((&3, Some(vec![(2, 3)]))));
}

#[test]
fn a_leaf_is_not_merged_into() {
    let mut root = Root::new();
    root.insert("/a", 1u8);
    root.insert("/a*", 2u8);
    assert_eq!(root.children.len(), 2);
    assert!(matches!(root.children[0], Node::Leaf(_)));
    assert!(matches!(root.children[1], Node::Branch(_)));
    assert_eq!(root.check("/a"), Some((&1, None)));
    assert_eq!(root.check("/ab"), Some((&2, Some(vec![(2, 3)]))));
}

#[test]
fn a_capture_is_not_tried_at_a_later_delimiter() {
    let mut root = Root::new();
    root.insert("/*/end", 1u8);
    assert_eq!(root.check("/a/end"), Some((&1, Some(vec![(1, 2)]))));
    assert_eq!(root.check("/a/end/end"), None);
}

#[test]
fn a_later_child_is_tried_when_an_earlier_one_fails() {
    let mut root = Root::new();
    root.insert("/x*a", 1u8);
    root.insert("/x*b", 2u8);
    assert_eq!(root.check("/x-b"), Some((&2, Some(vec![(2, 3)]))));
    assert_eq!(root.check("/x-c"), None);
}

#[test]
fn insert_can_be_chained() {
    let mut root = Root::new();
    root.insert("/a", 1u8).insert("/b", 2u8);
    assert_eq!(root.check("/a"), Some((&1, None)));
    assert_eq!(root.check("/b"), Some((&2, None)));
}

#[test]
fn default_table_is_empty() {
    let root: Root<u8> = Root::default();
    assert!(root.children.is_empty());
    assert_eq!(root.check("/"), None);
}

#[test]
fn matches_paths_beyond_ascii() {
    let mut root = Root::new();
    root.insert("/caf\u{e9}/*/menu", 1u8);
    let path = "/caf\u{e9}/\u{4e2d}\u{6587}/menu";
    let (handler, spans) = root.check(path).unwrap();
    assert_eq!(*handler, 1);
    assert_eq!(captured(path, &spans), vec!["\u{4e2d}\u{6587}"]);
}

#[test]
fn leaf_must_consume_the_path() {
    let leaf = LeafNode { segment: Segment::Static("/a".to_string()), target: 1u8 };
    assert_eq!(leaf.check("/a", 0), Some((&1, None)));
    assert_eq!(leaf.check("/ab", 0), None);
    let until = LeafNode { segment: Segment::Until("c".to_string()), target: 2u8 };
    assert_eq!(until.check("abc", 0), Some((&2, Some(vec![(0, 2)]))));
    assert_eq!(until.check("abcd", 0), None);
    let rest = LeafNode { segment: Segment::UntilEnd, target: 3u8 };
    assert_eq!(rest.check("abc", 1), Some((&3, Some(vec![(1, 3)]))));
}

#[test]
fn branch_hands_the_ranges_up_deepest_first() {
    let branch = BranchNode {
        segment: Segment::Until("/".to_string()),
        children: vec![Node::Leaf(LeafNode { segment: Segment::UntilEnd, target: 1u8 })],
    };
    assert_eq!(branch.check("ab/cd", 0), Some((&1, Some(vec![(3, 5), (0, 2)]))));
    assert_eq!(branch.check("ab/", 0), None);
    assert_eq!(branch.check("abcd", 0), None);
    assert_eq!(Node::Branch(branch).check("x/y", 0), Some((&1, Some(vec![(2, 3), (0, 1)]))));
}

#[test]
fn branch_keeps_its_range_above_a_literal_leaf() {
    let branch = BranchNode {
        segment: Segment::Until("/".to_string()),
        children: vec![Node::Leaf(LeafNode {
            segment: Segment::Static("end".to_string()),
            target: 1u8,
        })],
    };
    assert_eq!(branch.check("ab/end", 0), Some((&1, Some(vec![(0, 2)]))));
}

#[test]
fn capture_before_a_literal_end_is_kept() {
    let mut root = Root::new();
    root.insert_inner(vec![Segment::Until("/".to_string()), Segment::Static("x".to_string())], 1);
    assert_eq!(root.check("a/x"), Some((&1, Some(vec![(0, 1)]))));
    assert_eq!(root.check("a/y"), None);
}

#[test]
fn captures_above_a_literal_end_come_from_left_to_right() {
    let mut root = Root::new();
    root.insert_inner(
        vec![
            Segment::Static("/".to_string()),
            Segment::Until("/".to_string()),
            Segment::Until("-".to_string()),
            Segment::Static("end".to_string()),
        ],
        1u8,
    );
    assert_eq!(root.check("/ab/cd-end"), Some((&1, Some(vec![(1, 3), (4, 6)]))));
}

#[test]
fn literal_branches_above_a_literal_leaf_give_no_ranges() {
    let mut root = Root::new();
    root.insert_inner(
        vec![Segment::Static("/a".to_string()), Segment::Static("/b".to_string())],
        1u8,
    );
    assert_eq!(root.check("/a/b"), Some((&1, None)));
}

#[test]
fn branch_inserts_below_itself() {
    let mut branch =
        BranchNode { segment: Segment::Static("/a".to_string()), children: Vec::new() };
    branch.insert(vec![Segment::Until("/".to_string()), Segment::UntilEnd], 1u8);
    branch.insert(vec![Segment::Until("/".to_string()), Segment::Static("x".to_string())], 2u8);
    branch.insert(vec![Segment::UntilEnd], 3u8);
    branch.insert(Vec::new(), 4u8);
    assert_eq!(branch.children.len(), 2);
    assert_eq!(branch.check("/ab/c", 0), Some((&1, Some(vec![(4, 5), (2, 3)]))));
    assert_eq!(branch.check("/ab", 0), Some((&3, Some(vec![(2, 3)]))));
}

#[test]
fn node_gives_its_branch_or_leaf() {
    let mut leaf = Node::Leaf(LeafNode { segment: Segment::UntilEnd, target: 1u8 });
    assert!(leaf.as_mut_branch().is_none());
    leaf.as_mut_leaf().unwrap().target = 5;
    assert_eq!(leaf.check("x", 0), Some((&5, Some(vec![(0, 1)]))));

    let mut branch: Node<u8> =
        Node::Branch(BranchNode { segment: Segment::Static("/".to_string()), children: Vec::new() });
    assert!(branch.as_mut_leaf().is_none());
    branch.as_mut_branch().unwrap().insert(vec![Segment::UntilEnd], 9);
    assert_eq!(branch.check("/x", 0), Some((&9, Some(vec![(1, 2)]))));
}
