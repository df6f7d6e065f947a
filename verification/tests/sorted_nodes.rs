use bevy_ui::sorted_nodes::{index_min, ExtractedUiNode, ExtractedUiNodes, ExtractedUiNodesIter};

fn node(stack_index: usize, payload: u64) -> ExtractedUiNode {
    ExtractedUiNode { stack_index, payload }
}

fn drain_all(iter: &mut ExtractedUiNodesIter) -> Vec<(usize, u64)> {
    let mut out = Vec::new();
    while let Some(n) = iter.next() {
        out.push((n.stack_index, n.payload));
    }
    out
}

#[test]
fn index_min_keeps_the_earlier_entry_on_ties() {
    assert_eq!(index_min((usize::MAX, usize::MAX), (0, &5)), (0, 5));
    assert_eq!(index_min((0, 5), (1, &3)), (1, 3));
    assert_eq!(index_min((1, 3), (2, &3)), (1, 3));
    assert_eq!(index_min((1, 3), (3, &usize::MAX)), (1, 3));
}

#[test]
fn buffers_merge_in_stack_order() {
    let mut buffers = vec![
        vec![node(1, 10), node(4, 40)],
        vec![node(2, 20), node(3, 30)],
        vec![],
        vec![node(0, 0), node(5, 50)],
    ];
    let mut iter = ExtractedUiNodesIter::new(&mut buffers);
    assert_eq!(drain_all(&mut iter), vec![(0, 0), (1, 10), (2, 20), (3, 30), (4, 40), (5, 50)]);
    assert_eq!(buffers.len(), 4);
    assert!(buffers.iter().all(|b| b.is_empty()));
}

#[test]
fn equal_stack_indices_come_from_earlier_buffers_first() {
    let mut nodes = ExtractedUiNodes { uinodes: vec![vec![node(2, 1)], vec![node(2, 2)], vec![node(1, 3)], vec![]] };
    let mut iter = nodes.into_iter();
    assert_eq!(drain_all(&mut iter), vec![(1, 3), (2, 1), (2, 2)]);
    assert!(iter.next().is_none());
    assert!(nodes.uinodes.iter().all(|b| b.is_empty()));
}

#[test]
fn next_buffer_is_the_first_empty_one() {
    let mut nodes = ExtractedUiNodes { uinodes: vec![vec![node(0, 0)], vec![], vec![node(1, 1)], vec![]] };
    nodes.next_buffer().push(node(7, 7));
    assert_eq!(nodes.uinodes[1].len(), 1);
    assert_eq!(nodes.uinodes[1][0].stack_index, 7);
    nodes.next_buffer().push(node(8, 8));
    assert_eq!(nodes.uinodes[3][0].payload, 8);
}

#[test]
fn next_buffer_adds_a_buffer_when_every_buffer_holds_nodes() {
    let mut nodes = ExtractedUiNodes::new();
    assert_eq!(nodes.uinodes.len(), 4);
    for i in 0..4 {
        nodes.next_buffer().push(node(i, i as u64));
    }
    let extra = nodes.next_buffer();
    assert!(extra.is_empty());
    extra.push(node(9, 9));
    assert_eq!(nodes.uinodes.len(), 5);
    assert!(nodes.uinodes.iter().all(|b| b.len() == 1));
    assert_eq!(nodes.uinodes[4][0].payload, 9);
    let mut iter = nodes.into_iter();
    assert_eq!(drain_all(&mut iter), vec![(0, 0), (1, 1), (2, 2), (3, 3), (9, 9)]);
}
