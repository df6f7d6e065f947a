use bevy_ui::layout::Entity;
use bevy_ui::stack::{sort_by_z, ui_stack_system, HierarchyNode, UiHierarchy, UiStack};

fn node(entity: u64, z_index: Option<i32>, children: Vec<usize>) -> HierarchyNode {
    HierarchyNode { entity: Entity(entity), is_ui: true, z_index, children }
}

fn stack_of(hierarchy: &UiHierarchy) -> (Vec<u64>, Vec<u32>) {
    let mut stack = UiStack { uinodes: vec![Entity(999)] };
    let mut indices = vec![u32::MAX; hierarchy.nodes.len()];
    ui_stack_system(&mut stack, hierarchy, &mut indices);
    (stack.uinodes.iter().map(|e| e.0).collect(), indices)
}

#[test]
fn children_follow_their_parent_in_z_order() {
    // 0 is the root; its children 1 (z 2), 2 (no z-index: 0) and 3 (z -1);
    // 2 has the child 4
    let hierarchy = UiHierarchy {
        nodes: vec![
            node(10, None, vec![1, 2, 3]),
            node(11, Some(2), vec![]),
            node(12, None, vec![4]),
            node(13, Some(-1), vec![]),
            node(14, None, vec![]),
        ],
        roots: vec![0],
    };
    let (order, indices) = stack_of(&hierarchy);
    assert_eq!(order, vec![10, 13, 12, 14, 11]);
    assert_eq!(indices, vec![0, 4, 2, 1, 3]);
}

#[test]
fn roots_are_ordered_by_z_index_and_ties_keep_their_order() {
    let hierarchy = UiHierarchy {
        nodes: vec![
            node(1, Some(5), vec![]),
            node(2, None, vec![]),
            node(3, Some(5), vec![]),
            node(4, Some(-3), vec![]),
        ],
        roots: vec![0, 1, 2, 3],
    };
    let (order, indices) = stack_of(&hierarchy);
    assert_eq!(order, vec![4, 2, 1, 3]);
    assert_eq!(indices, vec![2, 1, 3, 0]);
}

#[test]
fn nodes_that_are_not_ui_nodes_are_skipped_with_their_subtrees() {
    let mut hidden = node(2, None, vec![2]);
    hidden.is_ui = false;
    let hierarchy = UiHierarchy {
        nodes: vec![node(1, None, vec![1]), hidden, node(3, None, vec![])],
        roots: vec![0],
    };
    let (order, indices) = stack_of(&hierarchy);
    assert_eq!(order, vec![1]);
    // nodes not in the stack keep their index
    assert_eq!(indices, vec![0, u32::MAX, u32::MAX]);
}

#[test]
fn an_empty_hierarchy_gives_an_empty_stack() {
    let hierarchy = UiHierarchy { nodes: vec![], roots: vec![] };
    let (order, indices) = stack_of(&hierarchy);
    assert!(order.is_empty());
    assert!(indices.is_empty());
}

#[test]
fn sorting_by_z_is_stable() {
    let mut pairs = vec![(0, 3), (1, -2), (2, 3), (3, 0), (4, -2)];
    sort_by_z(&mut pairs);
    assert_eq!(pairs, vec![(1, -2), (4, -2), (3, 0), (0, 3), (2, 3)]);
}
