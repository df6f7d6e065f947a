use bevy_ui::flex::{update_ui_nodes, DirtyNodes};
use bevy_ui::font_atlas::TextSettings;
use bevy_ui::layout::{Entity, UiState};

#[test]
fn dirty_nodes_hold_each_node_once() {
    let mut dirty = DirtyNodes::new();
    dirty.insert(Entity(1));
    dirty.insert(Entity(1));
    dirty.extend(&[Entity(2), Entity(1), Entity(3)]);
    assert_eq!(dirty.len(), 3);
    assert!(dirty.contains(Entity(3)));
    assert!(!dirty.contains(Entity(4)));
}

#[test]
fn an_update_dirties_new_changed_and_orphan_nodes() {
    let state = UiState { root_node: Entity(100), full_update: false };
    let mut dirty = DirtyNodes::new();
    let orphans = update_ui_nodes(
        &mut dirty,
        Some(state),
        &[Entity(1)],
        &[Entity(1), Entity(2), Entity(3), Entity(4), Entity(5), Entity(6)],
        &[Entity(2)],
        &[Entity(3)],
        &[Entity(4)],
        &[Entity(5)],
    );
    assert_eq!(orphans, vec![Entity(5)]);
    assert_eq!(dirty.len(), 5);
    assert!(!dirty.contains(Entity(6)));
    let full = UiState { root_node: Entity(100), full_update: true };
    update_ui_nodes(&mut dirty, Some(full), &[], &[Entity(6)], &[], &[], &[], &[]);
    assert!(dirty.contains(Entity(6)));
}

#[test]
fn without_a_ui_state_nothing_is_dirtied() {
    let mut dirty = DirtyNodes::new();
    let orphans = update_ui_nodes(&mut dirty, None, &[Entity(1)], &[Entity(1)], &[], &[], &[], &[Entity(1)]);
    assert!(orphans.is_empty());
    assert_eq!(dirty.len(), 0);
}

#[test]
fn text_settings_default() {
    let settings = TextSettings::default();
    assert_eq!(settings.max_font_atlases, 16);
    assert!(!settings.allow_dynamic_font_size);
}
