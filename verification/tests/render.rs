use bevy_ui::render::{
    batch_pipeline, gradient_segment_flags, prepare_batches, sort_by_stack_index, specialize, BatchType,
    ExtractedItem, InstanceCounters, ShaderDef, UiBatch, UiPipelineKey, UiPipelineSpecialization, VertexFormat,
    BORDERED, FILL_END, FILL_START, TEXTURED_QUAD,
};
use bevy_ui::render::{instance_buffer_layout, prepare_index_buffer, BindGroupLayoutKind};
use bevy_ui::render::{extract_uinodes, ColorKind, Extraction, StackEntry};
use bevy_ui::render::{extract_atlas_uinodes, push_node_with_linear_gradient, queue_uinodes, AtlasEntry, AtlasExtraction, AtlasInfo, GradientSegment, ImageEvent, PhaseItem, PipelineChoice, UNTEXTURED_QUAD};

fn item(stack_index: u32, image: u64, batch_type: BatchType) -> ExtractedItem {
    ExtractedItem { stack_index, image, batch_type }
}

#[test]
fn clipped_types_use_the_clipping_pipeline() {
    assert_eq!(batch_pipeline(BatchType::Node), (UiPipelineSpecialization::Node, false));
    assert_eq!(batch_pipeline(BatchType::CText), (UiPipelineSpecialization::Text, true));
    assert_eq!(batch_pipeline(BatchType::CRadialGradient), (UiPipelineSpecialization::RadialGradient, true));
    assert_eq!(batch_pipeline(BatchType::DashedBorder), (UiPipelineSpecialization::DashedBorder, false));
    assert_eq!(BatchType::CDashedBorder.index(), 9);
}

#[test]
fn sorting_keeps_items_of_one_stack_index_in_order() {
    let mut items = vec![
        item(3, 1, BatchType::Node),
        item(1, 2, BatchType::Text),
        item(3, 3, BatchType::Text),
        item(1, 4, BatchType::Node),
        item(0, 5, BatchType::Node),
    ];
    sort_by_stack_index(&mut items);
    let images: Vec<u64> = items.iter().map(|i| i.image).collect();
    assert_eq!(images, vec![5, 2, 4, 1, 3]);
}

#[test]
fn batches_are_maximal_runs_of_one_type_and_texture() {
    let mut items = vec![
        item(2, 7, BatchType::Node),
        item(0, 7, BatchType::Node),
        item(1, 7, BatchType::Node),
        item(3, 8, BatchType::Node),
        item(4, 8, BatchType::Text),
        item(5, 8, BatchType::Node),
    ];
    let batches = prepare_batches(&mut items);
    assert!(items.is_empty());
    assert_eq!(
        batches,
        vec![
            UiBatch { batch_type: BatchType::Node, range: 0..3, image: 7, stack_index: 0 },
            UiBatch { batch_type: BatchType::Node, range: 3..4, image: 8, stack_index: 3 },
            UiBatch { batch_type: BatchType::Text, range: 0..1, image: 8, stack_index: 4 },
            UiBatch { batch_type: BatchType::Node, range: 4..5, image: 8, stack_index: 5 },
        ]
    );
    assert!(prepare_batches(&mut Vec::new()).is_empty());
}

#[test]
fn instance_counters_count_each_type_apart() {
    let mut counters = InstanceCounters::new();
    assert_eq!(counters.increment(BatchType::Text), 1);
    assert_eq!(counters.increment(BatchType::Text), 2);
    assert_eq!(counters.increment(BatchType::Node), 1);
}

#[test]
fn gradient_segments_fill_from_the_first_and_up_to_the_last() {
    assert_eq!(gradient_segment_flags(TEXTURED_QUAD, 1), Vec::<u32>::new());
    assert_eq!(gradient_segment_flags(TEXTURED_QUAD, 2), vec![TEXTURED_QUAD | FILL_START | FILL_END]);
    assert_eq!(
        gradient_segment_flags(BORDERED, 4),
        vec![BORDERED | FILL_START, BORDERED, BORDERED | FILL_END]
    );
    assert_eq!(FILL_START | FILL_END, 192);
}

#[test]
fn specialization_of_the_pipeline() {
    let text = specialize(UiPipelineKey { hdr: true, clip: true, text: true, node: true });
    assert_eq!(text.shader_defs, vec![ShaderDef::Clip, ShaderDef::Special, ShaderDef::Text]);
    assert_eq!(text.formats.len(), 5);
    assert_eq!(text.formats[4], VertexFormat::Float32x4);
    assert!(text.hdr_target);
    let node = specialize(UiPipelineKey { hdr: false, clip: false, text: false, node: true });
    assert_eq!(node.shader_defs, vec![ShaderDef::Special, ShaderDef::Node]);
    assert_eq!(
        node.formats,
        vec![
            VertexFormat::Float32x2,
            VertexFormat::Float32x2,
            VertexFormat::Float32x4,
            VertexFormat::Float32x4,
            VertexFormat::Float32x4,
            VertexFormat::Uint32,
        ]
    );
    assert!(!node.hdr_target);
    assert_eq!(node.layouts, vec![BindGroupLayoutKind::View, BindGroupLayoutKind::Image, BindGroupLayoutKind::Clip]);
    let plain = specialize(UiPipelineKey { hdr: false, clip: true, text: false, node: false });
    assert_eq!(plain.shader_defs, vec![ShaderDef::Clip]);
    assert!(plain.formats.is_empty());
}

#[test]
fn queueing_adds_one_item_per_view_and_batch() {
    let batches = vec![
        (11u64, UiBatch { batch_type: BatchType::Node, range: 0..2, image: 7, stack_index: 3 }),
        (12u64, UiBatch { batch_type: BatchType::CText, range: 0..1, image: 8, stack_index: 5 }),
    ];
    let events = vec![ImageEvent::Created(1), ImageEvent::Modified(2), ImageEvent::Removed(3)];
    let plan = queue_uinodes(&[false, true], &batches, true, &events, &[]);
    assert_eq!(plan.evicted, vec![2, 3]);
    assert_eq!(plan.created, vec![7, 8]);
    let node = |hdr| PipelineChoice { hdr, clip: false, specialization: UiPipelineSpecialization::Node };
    let text = |hdr| PipelineChoice { hdr, clip: true, specialization: UiPipelineSpecialization::Text };
    assert_eq!(
        plan.items,
        vec![
            PhaseItem { view: 0, entity: 11, sort_key: 3, pipeline: node(false) },
            PhaseItem { view: 0, entity: 12, sort_key: 5, pipeline: text(false) },
            PhaseItem { view: 1, entity: 11, sort_key: 3, pipeline: node(true) },
            PhaseItem { view: 1, entity: 12, sort_key: 5, pipeline: text(true) },
        ]
    );
}

#[test]
fn queueing_without_a_view_binding_adds_no_item() {
    let batches = vec![(11u64, UiBatch { batch_type: BatchType::Node, range: 0..1, image: 7, stack_index: 0 })];
    let plan = queue_uinodes(&[true], &batches, false, &[ImageEvent::Removed(9)], &[]);
    assert!(plan.items.is_empty());
    assert!(plan.created.is_empty());
    assert_eq!(plan.evicted, vec![9]);
}

#[test]
fn only_images_without_a_bind_group_get_one() {
    let batch = |image| UiBatch { batch_type: BatchType::Node, range: 0..1, image, stack_index: 0 };
    let batches = vec![(1u64, batch(5)), (2u64, batch(6)), (3u64, batch(5)), (4u64, batch(7))];
    // 6 keeps its bind group; 7's is evicted by a modification and made again
    let plan = queue_uinodes(&[false, false], &batches, true, &[ImageEvent::Modified(7)], &[6, 7]);
    assert_eq!(plan.created, vec![5, 7]);
    // without a view no batch is queued and no bind group made
    let plan = queue_uinodes(&[], &batches, true, &[], &[]);
    assert!(plan.created.is_empty());
    assert!(plan.items.is_empty());
}

#[test]
fn linear_gradient_segments_carry_the_node_stack_index_and_image() {
    let mut segments: Vec<GradientSegment> = Vec::new();
    push_node_with_linear_gradient(&mut segments, 4, Some(9), 1, false, 3);
    push_node_with_linear_gradient(&mut segments, 6, None, 1, true, 2);
    let lg = ExtractedItem { stack_index: 4, image: 9, batch_type: BatchType::LinearGradient };
    let clg = ExtractedItem { stack_index: 6, image: 1, batch_type: BatchType::CLinearGradient };
    assert_eq!(
        segments,
        vec![
            GradientSegment { item: lg, flags: TEXTURED_QUAD | FILL_START, start_stop: 0, end_stop: 1 },
            GradientSegment { item: lg, flags: TEXTURED_QUAD | FILL_END, start_stop: 1, end_stop: 2 },
            GradientSegment { item: clg, flags: UNTEXTURED_QUAD | FILL_START | FILL_END, start_stop: 0, end_stop: 1 },
        ]
    );
}

#[test]
fn extraction_skips_hidden_nodes_and_images_still_loading() {
    let entry = |is_node, visible, color_visible, image: Option<u64>, image_loaded| StackEntry {
        is_node,
        visible,
        color_visible,
        image,
        image_loaded,
        kind: ColorKind::Color,
        clipped: false,
    };
    let mut gradient = entry(true, true, true, Some(5), true);
    gradient.kind = ColorKind::LinearGradient;
    gradient.clipped = true;
    let stack = vec![
        entry(true, true, true, None, false),
        entry(false, true, true, None, false),
        entry(true, false, true, None, false),
        entry(true, true, false, None, false),
        entry(true, true, true, Some(4), false),
        gradient,
    ];
    assert_eq!(
        extract_uinodes(&stack),
        vec![
            Extraction { stack_index: 0, image: None, kind: ColorKind::Color, clipped: false },
            Extraction { stack_index: 5, image: Some(5), kind: ColorKind::LinearGradient, clipped: true },
        ]
    );
}

#[test]
fn instance_attributes_are_packed_in_order() {
    let formats = [VertexFormat::Float32x2, VertexFormat::Float32x4, VertexFormat::Uint32, VertexFormat::Float32x2];
    assert_eq!(instance_buffer_layout(&formats), (vec![0, 8, 24, 28], 36));
    assert_eq!(instance_buffer_layout(&[]), (vec![], 0));
}

#[test]
fn the_index_buffer_holds_the_quad_once() {
    let mut buffer = Vec::new();
    prepare_index_buffer(&mut buffer);
    assert_eq!(buffer, vec![2, 0, 1, 1, 3, 2]);
    let mut six = vec![9, 9, 9, 9, 9, 9];
    prepare_index_buffer(&mut six);
    assert_eq!(six, vec![9, 9, 9, 9, 9, 9]);
    let mut short = vec![7];
    prepare_index_buffer(&mut short);
    assert_eq!(short, vec![2, 0, 1, 1, 3, 2]);
}

#[test]
fn atlas_nodes_are_extracted_when_visible_and_loaded() {
    let entry = |visible, atlas, texture_loaded| AtlasEntry {
        is_atlas_node: true,
        visible,
        atlas,
        index: 1,
        texture_loaded,
        plain_color: true,
        clipped: false,
    };
    let atlas = Some(AtlasInfo { texture: 42, rect_count: 3 });
    let stack = vec![
        entry(true, atlas, true),
        entry(false, atlas, true),
        entry(true, None, true),
        entry(true, atlas, false),
        AtlasEntry { is_atlas_node: false, ..entry(true, atlas, true) },
        AtlasEntry { plain_color: false, clipped: true, index: 2, ..entry(true, atlas, true) },
    ];
    assert_eq!(
        extract_atlas_uinodes(&stack),
        vec![
            AtlasExtraction { stack_index: 0, image: 42, rect_index: 1, plain_color: true, clipped: false },
            AtlasExtraction { stack_index: 5, image: 42, rect_index: 2, plain_color: false, clipped: true },
        ]
    );
}
