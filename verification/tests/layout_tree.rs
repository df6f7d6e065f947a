use bevy_ui::layout::{Entity, NodeId};
use bevy_ui::layout_tree::{UiLayoutTree, UiNodeData, CACHE_SIZE};

fn leaf(tree: &mut UiLayoutTree, entity: u64) -> NodeId {
    tree.new_leaf(Entity(entity)).unwrap()
}

fn fill_cache(tree: &mut UiLayoutTree, node: NodeId) {
    for i in 0..CACHE_SIZE {
        *tree.cache_mut(node, i) = true;
    }
}

fn cache_is_empty(tree: &mut UiLayoutTree, node: NodeId) -> bool {
    (0..CACHE_SIZE).all(|i| !*tree.cache_mut(node, i))
}

#[test]
fn new_leaves_are_distinct_parentless_and_childless() {
    let mut tree = UiLayoutTree::new();
    let a = leaf(&mut tree, 1);
    let b = leaf(&mut tree, 2);
    assert_ne!(a, b);
    assert_ne!(a, NodeId::null());
    assert!(tree.is_childless(a));
    assert_eq!(tree.child_count(b), 0);
    assert_eq!(tree.parent(a), None);
    assert!(!tree.needs_measure(a));
    assert!(cache_is_empty(&mut tree, a));
}

#[test]
fn set_children_links_both_ways() {
    let mut tree = UiLayoutTree::new();
    let p = leaf(&mut tree, 1);
    let c1 = leaf(&mut tree, 2);
    let c2 = leaf(&mut tree, 3);
    tree.set_children(p, &[c1, c2]).unwrap();
    assert_eq!(tree.children(p), &vec![c1, c2]);
    assert_eq!(tree.child(p, 1), c2);
    assert_eq!(tree.parent(c1), Some(p));
    assert_eq!(tree.parent(c2), Some(p));
    // replacing the children unlinks the former ones
    tree.set_children(p, &[c2]).unwrap();
    assert_eq!(tree.children(p), &vec![c2]);
    assert_eq!(tree.parent(c1), None);
    assert_eq!(tree.parent(c2), Some(p));
}

#[test]
fn set_children_marks_the_parent_and_its_ancestors_dirty() {
    let mut tree = UiLayoutTree::new();
    let root = leaf(&mut tree, 1);
    let mid = leaf(&mut tree, 2);
    let low = leaf(&mut tree, 3);
    let other = leaf(&mut tree, 4);
    tree.set_children(root, &[mid]).unwrap();
    tree.set_children(mid, &[low]).unwrap();
    for n in [root, mid, low, other] {
        fill_cache(&mut tree, n);
    }
    tree.set_children(mid, &[low, other]).unwrap();
    assert!(cache_is_empty(&mut tree, mid));
    assert!(cache_is_empty(&mut tree, root));
    assert!(!cache_is_empty(&mut tree, low));
    assert!(!cache_is_empty(&mut tree, other));
}

#[test]
fn mark_dirty_clears_the_node_and_its_ancestors_only() {
    let mut tree = UiLayoutTree::new();
    let root = leaf(&mut tree, 1);
    let child = leaf(&mut tree, 2);
    let sibling = leaf(&mut tree, 3);
    tree.set_children(root, &[child, sibling]).unwrap();
    for n in [root, child, sibling] {
        fill_cache(&mut tree, n);
    }
    assert!(tree.mark_dirty(child).is_ok());
    assert!(cache_is_empty(&mut tree, child));
    assert!(cache_is_empty(&mut tree, root));
    assert!(!cache_is_empty(&mut tree, sibling));
}

#[test]
fn removing_a_node_unlists_it_from_its_parent() {
    let mut tree = UiLayoutTree::new();
    let p = leaf(&mut tree, 1);
    let a = leaf(&mut tree, 2);
    let b = leaf(&mut tree, 3);
    tree.set_children(p, &[a, b, a]).unwrap();
    assert_eq!(tree.remove(a).unwrap(), a);
    assert_eq!(tree.children(p), &vec![b]);
    assert_eq!(tree.parent(a), None);
    assert_eq!(tree.parent(b), Some(p));
    // a later leaf does not take the removed node's key
    let c = leaf(&mut tree, 4);
    assert_ne!(c, a);
}

#[test]
fn children_of_entities_go_through_the_entity_map() {
    let mut tree = UiLayoutTree::new();
    let p = leaf(&mut tree, 1);
    let a = leaf(&mut tree, 2);
    let b = leaf(&mut tree, 3);
    tree.set_entity_node(Entity(1), p);
    tree.set_entity_node(Entity(2), a);
    tree.set_entity_node(Entity(3), b);
    // entity 9 has no layout node and is skipped
    tree.update_children(p, &[Entity(3), Entity(9), Entity(2)]);
    assert_eq!(tree.children(p), &vec![b, a]);
    tree.try_remove_children(Entity(1));
    assert!(tree.is_childless(p));
    assert_eq!(tree.parent(a), None);
    // an entity without a node changes nothing
    tree.try_remove_children(Entity(9));
}

#[test]
fn the_window_gets_a_node_once() {
    let mut tree = UiLayoutTree::new();
    tree.update_window(Entity(100));
    let child = leaf(&mut tree, 1);
    tree.set_window_children(&[child]);
    let window = tree.parent(child).unwrap();
    tree.update_window(Entity(100));
    assert_eq!(tree.parent(child), Some(window));
    assert_eq!(tree.children(window), &vec![child]);
}

#[test]
fn node_data_starts_clean_and_dirtying_empties_the_cache() {
    let mut data = UiNodeData::new();
    assert!(!data.needs_measure);
    data.size_cache = [true; 7];
    data.needs_measure = true;
    data.mark_dirty();
    assert_eq!(data.size_cache, [false; 7]);
    assert!(data.needs_measure);
}

#[test]
fn an_unknown_node_has_no_parent() {
    let tree = UiLayoutTree::new();
    assert_eq!(tree.parent(NodeId(0x1_0000_0005)), None);
    assert_eq!(tree.parent(NodeId::null()), None);
}

#[test]
fn removing_a_node_leaves_its_children_without_a_parent() {
    let mut tree = UiLayoutTree::new();
    let p = leaf(&mut tree, 1);
    let c1 = leaf(&mut tree, 2);
    let c2 = leaf(&mut tree, 3);
    tree.set_children(p, &[c1, c2]).unwrap();
    assert_eq!(tree.parent(c1), Some(p));
    assert_eq!(tree.remove(p).unwrap(), p);
    assert_eq!(tree.parent(c1), None);
    assert_eq!(tree.parent(c2), None);
    assert_eq!(tree.parent(p), None);
}
