use puzzle_kernels::packets::{
    bytes_eq, divider_positions_product, is_in_right_order, make_divider, parse_line,
    right_order_sum, sort_nodes, Node, Rel,
};

fn parsed(text: &[u8]) -> Node {
    parse_line(&text.to_vec()).expect("well-formed input")
}

#[test]
fn leaf_vs_list_promotion_equal() {
    // Compare(leaf(5), list([leaf(5)])) = Equal
    let a = parsed(b"5");
    let b = parsed(b"[5]");
    assert!(matches!(a.compare(&b), Rel::Equal));
}

#[test]
fn leaf_vs_list_promotion_greater() {
    // Compare(leaf(5), list([leaf(4), leaf(99)])) = Greater: 5 vs 4 decides
    let a = parsed(b"5");
    let b = parsed(b"[4,99]");
    assert!(matches!(a.compare(&b), Rel::Greater));
}

#[test]
fn prefix_rule() {
    // a strict prefix is Less
    let a = parsed(b"[1,2]");
    let b = parsed(b"[1,2,3]");
    assert!(matches!(a.compare(&b), Rel::Less));
    assert!(matches!(b.compare(&a), Rel::Greater));
}

#[test]
fn comparator_transitive_on_samples() {
    let a = parsed(b"[1]");
    let b = parsed(b"[1,1]");
    let c = parsed(b"[2]");
    assert!(matches!(a.compare(&b), Rel::Less));
    assert!(matches!(b.compare(&c), Rel::Less));
    assert!(matches!(a.compare(&c), Rel::Less));
}

#[test]
fn comparator_nested_sample() {
    // from the worked example set
    let a = parsed(b"[1,1,3,1,1]");
    let b = parsed(b"[1,1,5,1,1]");
    assert!(matches!(a.compare(&b), Rel::Less));
    let a = parsed(b"[[1],[2,3,4]]");
    let b = parsed(b"[[1],4]");
    assert!(matches!(a.compare(&b), Rel::Less));
    let a = parsed(b"[9]");
    let b = parsed(b"[[8,7,6]]");
    assert!(matches!(a.compare(&b), Rel::Greater));
}

#[test]
fn parse_round_trip_compares_equal() {
    // serialize then reparse: comparator-Equal to the original
    for text in [
        &b"[1,[2,3,4]]"[..],
        b"[]",
        b"[[]]",
        b"[[4,4],4,4]",
        b"7",
        b"[1, [2, [3]], 4]",
    ] {
        let tree = parsed(text);
        let rendered = tree.to_bytes();
        let back = parse_line(&rendered).expect("rendered text reparses");
        assert!(matches!(back.compare(&tree), Rel::Equal));
        // rendering is a fixed point modulo separators
        assert_eq!(back.to_bytes(), rendered);
    }
}

#[test]
fn parse_rejects_malformed() {
    assert!(parse_line(&b"abc".to_vec()).is_none());
    assert!(parse_line(&b"".to_vec()).is_none());
    assert!(parse_line(&b"]".to_vec()).is_none());
    assert!(parse_line(&b"[1,2".to_vec()).is_none());
    // a leaf too large for an i32 is a parse error
    assert!(parse_line(&b"99999999999".to_vec()).is_none());
    assert!(parse_line(&b"2147483647".to_vec()).is_some());
}

#[test]
fn right_order_sum_example() {
    let pairs = vec![
        (parsed(b"[1,1,3,1,1]"), parsed(b"[1,1,5,1,1]")),
        (parsed(b"[[1],[2,3,4]]"), parsed(b"[[1],4]")),
        (parsed(b"9"), parsed(b"[[8,7,6]]")),
        (parsed(b"[[4,4],4,4]"), parsed(b"[[4,4],4,4,4]")),
        (parsed(b"[7,7,7,7]"), parsed(b"[7,7,7]")),
        (parsed(b"[]"), parsed(b"[3]")),
        (parsed(b"[[[]]]"), parsed(b"[[]]")),
        (
            parsed(b"[1,[2,[3,[4,[5,6,7]]]],8,9]"),
            parsed(b"[1,[2,[3,[4,[5,6,0]]]],8,9]"),
        ),
    ];
    assert_eq!(right_order_sum(&pairs), 13);
}

#[test]
fn decoder_key_example() {
    let lines: [&[u8]; 16] = [
        b"[1,1,3,1,1]",
        b"[1,1,5,1,1]",
        b"[[1],[2,3,4]]",
        b"[[1],4]",
        b"[9]",
        b"[[8,7,6]]",
        b"[[4,4],4,4]",
        b"[[4,4],4,4,4]",
        b"[7,7,7,7]",
        b"[7,7,7]",
        b"[]",
        b"[3]",
        b"[[[]]]",
        b"[[]]",
        b"[1,[2,[3,[4,[5,6,7]]]],8,9]",
        b"[1,[2,[3,[4,[5,6,0]]]],8,9]",
    ];
    let mut nodes: Vec<Node> = lines.iter().map(|l| parsed(l)).collect();
    nodes.push(make_divider(2));
    nodes.push(make_divider(6));
    let sorted = sort_nodes(nodes);
    assert_eq!(divider_positions_product(&sorted, 2, 6), 140);
}

#[test]
fn sort_orders_and_keeps_elements() {
    let nodes = vec![parsed(b"[3]"), parsed(b"[1]"), parsed(b"[2]")];
    let sorted = sort_nodes(nodes);
    assert_eq!(sorted.len(), 3);
    let texts: Vec<Vec<u8>> = sorted.iter().map(|n| n.to_bytes()).collect();
    assert_eq!(texts, vec![b"[1]".to_vec(), b"[2]".to_vec(), b"[3]".to_vec()]);
}

#[test]
fn is_in_right_order_matches_compare() {
    let a = parsed(b"[]");
    let b = parsed(b"[3]");
    assert!(is_in_right_order(&a, &b));
    assert!(!is_in_right_order(&b, &a));
    assert!(!is_in_right_order(&a, &a));
}

#[test]
fn bytes_eq_basic() {
    assert!(bytes_eq(&b"abc".to_vec(), &b"abc".to_vec()));
    assert!(!bytes_eq(&b"abc".to_vec(), &b"abd".to_vec()));
    assert!(!bytes_eq(&b"abc".to_vec(), &b"ab".to_vec()));
}

#[test]
fn node_constructors() {
    let mut list = Node::new();
    assert!(!list.is_leaf());
    let leaf = Node::new_leaf(7);
    assert!(leaf.is_leaf());
    list.add_child(leaf);
    let text = list.to_bytes();
    assert_eq!(text, b"[7]".to_vec());
}
