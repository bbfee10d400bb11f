use pi_tree::codec::DecodeError;
use pi_tree::generate::pi_digits;
use pi_tree::node::{Node, Tree};

#[test]
fn tree_generation() {
    let mut tree1 = Tree::new();
    tree1.generate(5);
    assert_eq!(tree1.traverse().len(), 20);

    let mut tree2 = Tree::new();
    tree2.generate(3);
    assert_eq!(tree2.traverse().len(), 6);
}

#[test]
fn tree_traversal() {
    let mut tree = Tree::new();
    tree.generate(5);

    assert_eq!(
        tree.traverse(),
        vec![1, 2, 3, 4, 5, 6, 7, 8, 9, 10, 11, 12, 13, 14, 15, 16, 17, 18, 19, 20]
    );
}

#[test]
fn tree_rebuild_parent() {
    let mut tree = Tree::new();
    tree.generate(3);

    let serialized = tree.save();
    let mut deserialized_tree: Tree = Tree::load(&serialized).expect("Deserialization failed");

    assert!(deserialized_tree.root.children[0].parent.is_none());

    deserialized_tree.rebuild_parent_links();

    assert!(deserialized_tree.root.children[0].parent.is_some());
}

#[test]
fn node_count_depth_six() {
    // 1 root plus the first five consumed sequence values: 4 + 1 + 5 + 9 + 2.
    let mut tree = Tree::new();
    tree.generate(6);
    assert_eq!(tree.traverse().len(), 1 + 4 + 1 + 5 + 9 + 2);
}

#[test]
fn shallow_generation_keeps_lone_root() {
    let mut tree = Tree::new();
    tree.generate(1);
    assert_eq!(tree.traverse(), vec![1]);
    assert_eq!(tree.root.children.len(), 0);

    let mut tree0 = Tree::new();
    tree0.generate(0);
    assert_eq!(tree0.traverse(), vec![1]);
    assert_eq!(tree0.root.children.len(), 0);
}

#[test]
fn save_load_keeps_traversal() {
    let mut tree = Tree::new();
    tree.generate(4);
    let before = tree.traverse();
    let bytes = tree.save();
    let loaded = Tree::load(&bytes).expect("loading saved bytes must succeed");
    assert_eq!(loaded.traverse(), before);
}

#[test]
fn load_clears_then_relink_restores_parents() {
    let mut tree = Tree::new();
    tree.generate(3);
    let bytes = tree.save();
    let mut loaded = Tree::load(&bytes).expect("loading saved bytes must succeed");

    assert!(loaded.root.parent.is_none());
    for child in loaded.root.children.iter() {
        assert!(child.parent.is_none());
        for grandchild in child.children.iter() {
            assert!(grandchild.parent.is_none());
        }
    }

    loaded.rebuild_parent_links();

    assert!(loaded.root.parent.is_none());
    for child in loaded.root.children.iter() {
        assert_eq!(child.parent, Some(loaded.root.id));
        for grandchild in child.children.iter() {
            assert_eq!(grandchild.parent, Some(child.id));
        }
    }
}

#[test]
fn relink_twice_changes_nothing() {
    let mut tree = Tree::new();
    tree.generate(4);
    let bytes = tree.save();
    let mut once = Tree::load(&bytes).expect("loading saved bytes must succeed");
    once.rebuild_parent_links();
    let first_pass: Vec<Option<usize>> = once
        .root
        .children
        .iter()
        .flat_map(|c| c.children.iter().map(|g| g.parent).chain(std::iter::once(c.parent)))
        .collect();

    once.rebuild_parent_links();
    let second_pass: Vec<Option<usize>> = once
        .root
        .children
        .iter()
        .flat_map(|c| c.children.iter().map(|g| g.parent).chain(std::iter::once(c.parent)))
        .collect();

    assert_eq!(first_pass, second_pass);
    assert_eq!(once.traverse(), tree.traverse());
}

#[test]
fn children_are_distributed_evenly() {
    // Depth 4 consumes the counts 4, 1, 5. The four first-level parents
    // share one child: counts 1, 0, 0, 0 — the spread never exceeds one.
    let mut tree = Tree::new();
    tree.generate(4);
    let counts: Vec<usize> = tree.root.children.iter().map(|c| c.children.len()).collect();
    assert_eq!(counts, vec![1, 0, 0, 0]);
    let level3: Vec<&Node> = tree.root.children.iter().flat_map(|c| c.children.iter()).collect();
    let c3: Vec<usize> = level3.iter().map(|c| c.children.len()).collect();
    assert_eq!(c3, vec![5]);
}

#[test]
fn truncated_bytes_are_rejected() {
    let empty: Vec<u8> = Vec::new();
    assert!(matches!(Tree::load(&empty), Err(DecodeError::Truncated)));

    let mut tree = Tree::new();
    tree.generate(3);
    let mut bytes = tree.save();
    bytes.pop();
    assert!(matches!(Tree::load(&bytes), Err(DecodeError::Truncated)));
}

#[test]
fn trailing_bytes_are_rejected() {
    let mut tree = Tree::new();
    tree.generate(2);
    let mut bytes = tree.save();
    bytes.push(0);
    assert!(matches!(Tree::load(&bytes), Err(DecodeError::TrailingBytes)));
}

#[test]
fn single_node_wire_format() {
    // A lone root: identifier 1 and child count 0, little-endian 64-bit.
    let tree = Tree::new();
    let bytes = tree.save();
    let mut expected = vec![1u8, 0, 0, 0, 0, 0, 0, 0];
    expected.extend_from_slice(&[0u8; 8]);
    assert_eq!(bytes, expected);
}

#[test]
fn pi_digit_sequence() {
    assert_eq!(
        pi_digits(),
        vec![1, 4, 1, 5, 9, 2, 6, 5, 3, 5, 8, 9, 7, 9, 3, 2, 3, 8, 4, 6, 2, 6, 4, 3]
    );
}

#[test]
fn node_construction_and_append() {
    let mut n = Node::new(7);
    assert_eq!(n.id, 7);
    assert!(n.children.is_empty());
    assert!(n.parent.is_none());
    let mut child = Node::new(8);
    child.parent = Some(7);
    n.append_child(child);
    assert_eq!(n.children.len(), 1);
    assert_eq!(n.children[0].id, 8);
    assert_eq!(n.children[0].parent, Some(7));
}
