use bevy_ui::layout::{
    compute_bounds, manage_ui_windows, Entity, NodeId, UiLayoutConfig, UiLayoutViewportNodeId, UiState, WindowsAction,
};

#[test]
fn layout_defaults() {
    assert!(UiLayoutConfig::default().use_rounding);
    assert_eq!(UiLayoutViewportNodeId::default().0, NodeId::null());
    assert_eq!(NodeId::null().0, 0x1_ffff_ffff);
    compute_bounds();
}

#[test]
fn windows_decisions() {
    let window = Entity(1);
    let mut state: Option<UiState> = None;
    assert_eq!(manage_ui_windows(None, true, true, &[], &mut state), WindowsAction::RemoveUiState);
    assert_eq!(manage_ui_windows(Some(window), false, false, &[], &mut state), WindowsAction::SpawnRoot);
    assert!(state.is_none());
    let root = Entity(7);
    state = Some(UiState { root_node: root, full_update: false });
    assert_eq!(manage_ui_windows(Some(window), false, false, &[Entity(2)], &mut state), WindowsAction::Keep);
    assert_eq!(state, Some(UiState { root_node: root, full_update: false }));
    assert_eq!(manage_ui_windows(Some(window), false, false, &[Entity(2), window], &mut state), WindowsAction::ResizeRoot(root));
    assert_eq!(state, Some(UiState { root_node: root, full_update: true }));
    let mut state = Some(UiState { root_node: root, full_update: false });
    assert_eq!(manage_ui_windows(Some(window), true, false, &[], &mut state), WindowsAction::ResizeRoot(root));
    let mut state = Some(UiState { root_node: root, full_update: false });
    assert_eq!(manage_ui_windows(Some(window), false, true, &[], &mut state), WindowsAction::ResizeRoot(root));
}
