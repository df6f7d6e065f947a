use bevy_ui::grid::{
    try_into_grid_index, try_into_grid_span, GridPlacement, GridPlacementError, GridTrackRepetition, Overflow,
    OverflowAxis, UiImage, ZIndex,
};

#[test]
fn grid_lines_and_spans_refuse_zero() {
    assert_eq!(try_into_grid_index(0), Err(GridPlacementError::InvalidZeroIndex));
    assert_eq!(try_into_grid_index(-3), Ok(Some(-3)));
    assert_eq!(try_into_grid_span(0), Err(GridPlacementError::InvalidZeroSpan));
    assert_eq!(try_into_grid_span(4), Ok(Some(4)));
}

#[test]
fn placements_hold_what_they_are_built_with() {
    let auto = GridPlacement::auto();
    assert_eq!((auto.get_start(), auto.get_span(), auto.get_end()), (None, Some(1), None));
    assert_eq!(GridPlacement::default(), auto);
    let p = GridPlacement::span(3);
    assert_eq!((p.get_start(), p.get_span(), p.get_end()), (None, Some(3), None));
    let p = GridPlacement::start(2);
    assert_eq!((p.get_start(), p.get_span(), p.get_end()), (Some(2), Some(1), None));
    let p = GridPlacement::end(-1);
    assert_eq!((p.get_start(), p.get_span(), p.get_end()), (None, Some(1), Some(-1)));
    let p = GridPlacement::start_span(1, 2);
    assert_eq!((p.get_start(), p.get_span(), p.get_end()), (Some(1), Some(2), None));
    let p = GridPlacement::start_end(1, 4);
    assert_eq!((p.get_start(), p.get_span(), p.get_end()), (Some(1), None, Some(4)));
    let p = GridPlacement::end_span(5, 2);
    assert_eq!((p.get_start(), p.get_span(), p.get_end()), (None, Some(2), Some(5)));
}

#[test]
fn setters_change_one_value() {
    let p = GridPlacement::auto().set_start(3).set_end(6).set_span(2);
    assert_eq!((p.get_start(), p.get_span(), p.get_end()), (Some(3), Some(2), Some(6)));
}

#[test]
fn track_repetitions_from_numbers() {
    assert_eq!(GridTrackRepetition::from(3u16), GridTrackRepetition::Count(3));
    assert_eq!(GridTrackRepetition::from(7i32), GridTrackRepetition::Count(7));
    assert_eq!(GridTrackRepetition::from(70000usize), GridTrackRepetition::Count(70000u32 as u16));
}

#[test]
fn overflow_constructors() {
    assert!(Overflow::visible().is_visible());
    assert!(Overflow::default().is_visible());
    assert!(!Overflow::clip().is_visible());
    assert_eq!(Overflow::clip_x(), Overflow { x: OverflowAxis::Clip, y: OverflowAxis::Visible });
    assert_eq!(Overflow::clip_y(), Overflow { x: OverflowAxis::Visible, y: OverflowAxis::Clip });
    assert!(!Overflow::clip_y().is_visible());
    assert!(OverflowAxis::default().is_visible());
    assert!(!OverflowAxis::Clip.is_visible());
}

#[test]
fn z_index_defaults_to_local_zero() {
    assert_eq!(ZIndex::default(), ZIndex::Local(0));
}

#[test]
fn images_flip_on_request() {
    let image = UiImage::new(3);
    assert_eq!(image, UiImage { texture: 3, flip_x: false, flip_y: false });
    assert_eq!(image.with_flip_x(), UiImage { texture: 3, flip_x: true, flip_y: false });
    assert_eq!(image.with_flip_y().with_flip_x(), UiImage { texture: 3, flip_x: true, flip_y: true });
}
