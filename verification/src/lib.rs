//! The verified logic of a UI toolkit: event buffers, render batching, layout bookkeeping,
//! font atlas eviction, clipboard and text-editing decisions.
pub mod events;
pub mod sorted_nodes;
pub mod font_atlas;
pub mod clipboard;
pub mod helpers;
pub mod layout;
pub mod accessibility;
pub mod query;
pub mod render;
pub mod editor;
pub mod grid;
pub mod text_queue;
pub mod layout_tree;
pub mod stack;
pub mod flex;
pub mod surface;
