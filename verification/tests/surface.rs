use bevy_ui::layout::Entity;
use bevy_ui::surface::{ui_layout_system, ChildrenChange, LayoutRoot, StackNode, UiSurface};

fn styled(e: u64) -> StackNode {
    StackNode { entity: Entity(e), has_style: true, style_changed: true }
}

#[test]
fn spawn_and_despawn_ui_node() {
    let mut surface = UiSurface::new();
    let layout_entity = Entity(1);
    let ui_node = Entity(2);
    let pass = |surface: &mut UiSurface, nodes: Vec<StackNode>, children: Vec<Entity>, removed: &[Entity]| {
        let roots = vec![LayoutRoot { entity: layout_entity, context_changed: false, nodes, children }];
        ui_layout_system(surface, &[], &roots, &[], removed, &[], &[], &[]);
    };
    pass(&mut surface, vec![styled(2)], vec![ui_node], &[]);

    // `layout_entity` should have an associated root node
    let taffy_root = surface.root_node(layout_entity).expect("Window node not found.");
    // `ui_node` should have an associated layout node
    let taffy_node = surface
        .entity_node(ui_node)
        .expect("UI node entity should have an associated Taffy node after layout update");
    // `ui_node`'s node should be the only child of `taffy_root`
    assert_eq!(surface.children(taffy_root).len(), 1);
    assert!(surface.children(taffy_root).contains(&taffy_node));
    // `taffy_root` should be the parent of `ui_node`'s node
    assert_eq!(surface.parent(taffy_node), Some(taffy_root));

    let unchanged = StackNode { entity: ui_node, has_style: true, style_changed: false };
    pass(&mut surface, vec![unchanged], vec![ui_node], &[]);
    assert_eq!(surface.root_node(layout_entity), Some(taffy_root));
    assert_eq!(surface.entity_node(ui_node), Some(taffy_node));

    // `ui_node` is despawned
    pass(&mut surface, vec![], vec![], &[ui_node]);
    // `ui_node`'s associated node should be deleted
    assert!(
        surface.entity_node(ui_node).is_none(),
        "Despawned UI node has an associated Taffy node after layout update"
    );
    // `taffy_root` should have no remaining children
    assert_eq!(
        surface.children(taffy_root).len(),
        0,
        "Taffy root node has children after despawning all root UI nodes."
    );
}

#[test]
fn a_removed_layout_loses_its_root_node_and_unstyled_nodes_get_none() {
    let mut surface = UiSurface::new();
    let roots = vec![LayoutRoot {
        entity: Entity(1),
        context_changed: true,
        nodes: vec![styled(10), StackNode { entity: Entity(11), has_style: false, style_changed: true }],
        children: vec![Entity(10)],
    }];
    ui_layout_system(&mut surface, &[], &roots, &[], &[], &[], &[], &[]);
    let root = surface.root_node(Entity(1)).unwrap();
    let child = surface.entity_node(Entity(10)).unwrap();
    assert!(surface.entity_node(Entity(11)).is_none());
    assert_eq!(surface.parent(child), Some(root));
    ui_layout_system(&mut surface, &[Entity(1)], &[], &[], &[], &[], &[], &[]);
    assert!(surface.root_node(Entity(1)).is_none());
    assert_eq!(surface.parent(child), None);
}

#[test]
fn upserting_twice_keeps_the_node() {
    let mut surface = UiSurface::new();
    surface.upsert_node(Entity(5));
    let n = surface.entity_node(Entity(5)).unwrap();
    surface.upsert_node(Entity(5));
    assert_eq!(surface.entity_node(Entity(5)), Some(n));
    surface.remove_entities(&[Entity(5), Entity(6)]);
    assert!(surface.entity_node(Entity(5)).is_none());
}

#[test]
fn nested_children_and_measures_follow_the_hierarchy() {
    let mut surface = UiSurface::new();
    // root node 2 with children 3 and 4; node 4 has a child 5 and a measure
    let roots = vec![LayoutRoot {
        entity: Entity(1),
        context_changed: true,
        nodes: vec![styled(2), styled(3), styled(4), styled(5)],
        children: vec![Entity(2)],
    }];
    let changes = vec![
        ChildrenChange { entity: Entity(2), children: vec![Entity(3), Entity(4)] },
        ChildrenChange { entity: Entity(4), children: vec![Entity(5), Entity(9)] },
    ];
    ui_layout_system(&mut surface, &[], &roots, &[Entity(4)], &[], &[], &[], &changes);
    let root = surface.root_node(Entity(1)).unwrap();
    let n2 = surface.entity_node(Entity(2)).unwrap();
    let n3 = surface.entity_node(Entity(3)).unwrap();
    let n4 = surface.entity_node(Entity(4)).unwrap();
    let n5 = surface.entity_node(Entity(5)).unwrap();
    assert_eq!(surface.children(root), &vec![n2]);
    assert_eq!(surface.children(n2), &vec![n3, n4]);
    // entity 9 has no layout node and is skipped
    assert_eq!(surface.children(n4), &vec![n5]);
    assert_eq!(surface.parent(n2), Some(root));
    assert_eq!(surface.parent(n3), Some(n2));
    assert_eq!(surface.parent(n5), Some(n4));
    assert!(surface.needs_measure(n4));
    assert!(!surface.needs_measure(n3));

    // node 4 loses its children and its measure; node 2 keeps only node 4
    let roots = vec![LayoutRoot { entity: Entity(1), context_changed: false, nodes: vec![], children: vec![Entity(2)] }];
    let changes = vec![ChildrenChange { entity: Entity(2), children: vec![Entity(4)] }];
    ui_layout_system(&mut surface, &[], &roots, &[], &[], &[Entity(4)], &[Entity(4)], &changes);
    assert_eq!(surface.children(n2), &vec![n4]);
    assert!(surface.children(n4).is_empty());
    assert_eq!(surface.parent(n3), None);
    assert_eq!(surface.parent(n5), None);
    assert_eq!(surface.parent(n4), Some(n2));
    assert!(!surface.needs_measure(n4));
}

#[test]
fn removed_children_are_cleared_before_new_children_are_set() {
    let mut surface = UiSurface::new();
    let roots = vec![LayoutRoot {
        entity: Entity(1),
        context_changed: true,
        nodes: vec![styled(2), styled(3)],
        children: vec![Entity(2)],
    }];
    let changes = vec![ChildrenChange { entity: Entity(2), children: vec![Entity(3)] }];
    // the `Children` of entity 2 were removed and inserted again: the new children stand
    ui_layout_system(&mut surface, &[], &roots, &[], &[], &[], &[Entity(2)], &changes);
    let n2 = surface.entity_node(Entity(2)).unwrap();
    let n3 = surface.entity_node(Entity(3)).unwrap();
    assert_eq!(surface.children(n2), &vec![n3]);
    assert_eq!(surface.parent(n3), Some(n2));
}

#[test]
fn surface_children_and_measures_by_entity() {
    let mut surface = UiSurface::new();
    for e in 1..=3 {
        surface.upsert_node(Entity(e));
    }
    let n1 = surface.entity_node(Entity(1)).unwrap();
    let n2 = surface.entity_node(Entity(2)).unwrap();
    let n3 = surface.entity_node(Entity(3)).unwrap();
    surface.update_children(Entity(1), &[Entity(3), Entity(2)]);
    assert_eq!(surface.children(n1), &vec![n3, n2]);
    assert_eq!(surface.parent(n2), Some(n1));
    surface.update_measure(Entity(2));
    assert!(surface.needs_measure(n2));
    surface.try_remove_measure(Entity(2));
    assert!(!surface.needs_measure(n2));
    // an entity without a node is left alone
    surface.try_remove_measure(Entity(7));
    surface.try_remove_children(Entity(7));
    surface.try_remove_children(Entity(1));
    assert!(surface.children(n1).is_empty());
    assert_eq!(surface.parent(n3), None);
}
