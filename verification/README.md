# bevy_ui

The decision logic of a UI toolkit, written in Verus and proved against its contracts.

`src/` is the verified library:

- `events` — double-buffered event queues, the cursors that read them, the sequential and
  batched iterators over unread events, and the batching strategy.
- `sorted_nodes` — extracted nodes kept in sorted buffers (a new one added when all hold
  nodes) and merged in stack order.
- `render` — which stack entries and atlas nodes are extracted, stable sorting of extracted items by stack
  index, batching into maximal runs of one type and texture, instance counters, gradient
  segments, the phase items, bind-group evictions and new bind groups of a queueing pass, and the
  specialization of the UI pipeline.
- `stack` — the UI stack: every UI node back to front, children in z-index order, and the
  stack index of each node.
- `layout_tree` — the layout tree's bookkeeping over a slot map: parent and child links,
  removal, new leaves, the window node, and marking a node and its ancestors dirty.
- `surface` — the layout tree together with the node of each UI entity and the root node of
  each UI root: adding and updating nodes, setting and clearing their measures, attaching
  them to their root, giving them the nodes of their children (nested to any depth, without
  cycles), removing them, and the layout pass that does all of these in turn.
- `flex` — the set of dirty nodes that an update of the UI nodes collects.
- `font_atlas` — font atlas sets, and the eviction of atlases of fonts no longer in use.
- `clipboard` — clipboard reads that hand their content out once, an in-process text
  clipboard, image conversions, and the mapping of backend errors.
- `editor` — the editing actions that a key press on a focused text field asks for.
- `grid`, `layout`, `text_queue`, `accessibility`, `query`, `helpers` — grid placement and
  overflow values, layout identifiers and window decisions, the queue of texts to lay out
  again, accessibility labels, an enumerating query, and conversion traits.

Each module states its laws as public proof functions next to the code they speak of.

`app/` holds what stays outside the library: the system clipboard, the names that the
render pipeline is specialized with, and floating-point geometry.
