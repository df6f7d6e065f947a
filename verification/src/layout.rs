//! Identifiers and errors of the UI layout, and its configuration.
use vstd::prelude::*;

verus! {

/// An entity of the world, by its bits.
#[derive(PartialEq, Eq, Structural, Clone, Copy, Debug)]
pub struct Entity(pub u64);

/// A node of the layout tree, by the bits of its key.
#[derive(PartialEq, Eq, Structural, Clone, Copy, Debug)]
pub struct NodeId(pub u64);

impl NodeId {
    /// The bits of the key that stands for no node.
    pub const NULL_BITS: u64 = 0x1_ffff_ffff;

    /// The key that stands for no node.
    pub fn null() -> (r: Self)
        ensures
            r.0 == Self::NULL_BITS,
    {
        NodeId(Self::NULL_BITS)
    }
}

/// Errors of the layout tree.
#[derive(PartialEq, Eq, Structural, Clone, Copy, Debug)]
pub enum TaffyError {
    /// The parent node does not have a child at `child_index`.
    ChildIndexOutOfBounds { parent: NodeId, child_index: usize, child_count: usize },
    /// The parent node was not found.
    InvalidParentNode(NodeId),
    /// The child node was not found.
    InvalidChildNode(NodeId),
    /// The supplied node was not found.
    InvalidInputNode(NodeId),
}

/// Configuration of the layout.
pub struct UiLayoutConfig {
    /// Whether computed positions and sizes are rounded to whole pixels.
    pub use_rounding: bool,
}

impl Default for UiLayoutConfig {
    fn default() -> (r: Self)
        ensures
            r.use_rounding,
    {
        UiLayoutConfig { use_rounding: true }
    }
}

/// The layout node of a UI root's viewport.
pub struct UiLayoutViewportNodeId(pub NodeId);

impl Default for UiLayoutViewportNodeId {
    fn default() -> (r: Self)
        ensures
            r.0.0 == NodeId::NULL_BITS,
    {
        UiLayoutViewportNodeId(NodeId::null())
    }
}

/// The entity (a window or a camera) that a UI root is laid out for.
pub struct UiTarget(pub Entity);

/// The UI layout.
pub struct UiLayout {}

/// Errors of reading a node's layout.
#[derive(PartialEq, Eq, Structural, Clone, Copy, Debug)]
pub enum LayoutError {
    /// The entity has no layout node: it is styled but not in a UI hierarchy.
    InvalidHierarchy,
    /// The layout tree refused the request.
    TaffyError(TaffyError),
}

/// The state of the flex layout: its root node and whether every node must be updated.
#[derive(PartialEq, Eq, Structural, Clone, Copy, Debug)]
pub struct UiState {
    pub root_node: Entity,
    pub full_update: bool,
}

/// What the UI must do about its windows in an update.
#[derive(PartialEq, Eq, Structural, Clone, Copy, Debug)]
pub enum WindowsAction {
    /// There is no primary window: the UI state is removed.
    RemoveUiState,
    /// There is no UI state yet: a root node sized to the window is spawned, with a new UI
    /// state that asks for a full update.
    SpawnRoot,
    /// The window changed: the root node is sized to the window again and marked dirty.
    ResizeRoot(Entity),
    /// Nothing changed.
    Keep,
}

/// Some window of `resized` is `window`.
pub open spec fn resized_window(resized: Seq<Entity>, window: Entity) -> bool {
    exists|i: int| 0 <= i < resized.len() && resized[i] == window
}

/// Decides what to do about the primary window in an update: `scale_factor_changed` tells
/// whether any scale factor changed, `ui_scale_changed` whether the UI scale changed, and
/// `resized` lists the windows resized. Where the window changed, the UI state asks for a
/// full update.
pub fn manage_ui_windows(
    primary_window: Option<Entity>,
    scale_factor_changed: bool,
    ui_scale_changed: bool,
    resized: &[Entity],
    ui_state: &mut Option<UiState>,
) -> (r: WindowsAction)
    ensures
        match primary_window {
            None => r == WindowsAction::RemoveUiState && *final(ui_state) == *old(ui_state),
            Some(window) => {
                let full_update = scale_factor_changed || ui_scale_changed || resized_window(resized@, window);
                match *old(ui_state) {
                    None => r == WindowsAction::SpawnRoot && final(ui_state).is_none(),
                    Some(state) => if full_update {
                        &&& r == WindowsAction::ResizeRoot(state.root_node)
                        &&& *final(ui_state) == Some(UiState { root_node: state.root_node, full_update: true })
                    } else {
                        r == WindowsAction::Keep && *final(ui_state) == *old(ui_state)
                    },
                }
            },
        },
{
    let window = match primary_window {
        Some(w) => w,
        None => {
            return WindowsAction::RemoveUiState;
        },
    };
    let mut was_resized = false;
    let mut i: usize = 0;
    while i < resized.len()
        invariant
            i <= resized@.len(),
            was_resized == exists|j: int| 0 <= j < i && resized@[j] == window,
        decreases resized@.len() - i,
    {
        if resized[i] == window {
            was_resized = true;
        }
        i = i + 1;
    }
    let full_update = scale_factor_changed || ui_scale_changed || was_resized;
    match ui_state {
        Some(state) => {
            if full_update {
                state.full_update = true;
                WindowsAction::ResizeRoot(state.root_node)
            } else {
                WindowsAction::Keep
            }
        },
        None => WindowsAction::SpawnRoot,
    }
}

/// Errors of the flex layout.
#[derive(PartialEq, Eq, Structural, Clone, Copy, Debug)]
pub enum FlexError {
    /// The entity has no layout node: it is styled but not in a UI hierarchy.
    InvalidHierarchy,
    /// The layout tree refused the request.
    TaffyError(TaffyError),
}

/// Marks the camera that renders the UI.
pub struct UiCamera;

/// Marker enabling trackpad and mouse wheel scrolling on a node whose overflow scrolls.
#[derive(Debug, Default, Clone)]
pub struct ScrollArea;

/// Adds the scroll area observers to an app.
pub struct ScrollAreaPlugin;

/// Vertical metrics of a scaled font.
pub struct ScaledFontGeometry {}

/// The geometry of laid out text.
pub struct TextGeometry {}

/// Computes the bounds of laid out text; it has no inputs and no result.
pub fn compute_bounds() {
}

} // verus!
