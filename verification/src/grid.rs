//! Integer style values of UI nodes: grid placement, track repetition, overflow, z-index
//! and the flips of a node's image.
use vstd::prelude::*;

verus! {

/// Errors that occur when setting constraints for a [`GridPlacement`].
#[derive(Debug, Eq, PartialEq, Structural, Clone, Copy)]
pub enum GridPlacementError {
    /// Zero is not a valid grid position.
    InvalidZeroIndex,
    /// Spans cannot be zero length.
    InvalidZeroSpan,
}

/// The position of a grid item in a single axis: the line it starts at, how many tracks it
/// spans, and the line it ends at. Lines count from one; negative lines count back from the
/// end; zero is no line. A span is never zero.
#[derive(Debug, Eq, PartialEq, Structural, Clone, Copy)]
pub struct GridPlacement {
    start: Option<i16>,
    span: Option<u16>,
    end: Option<i16>,
}

/// A line or span value that is present is not zero.
pub open spec fn nonzero_i16(v: Option<i16>) -> bool {
    v matches Some(x) ==> x != 0
}

/// A span value that is present is not zero.
pub open spec fn nonzero_u16(v: Option<u16>) -> bool {
    v matches Some(x) ==> x != 0
}

/// Convert an `i16` to a grid line, failing on `0`.
pub fn try_into_grid_index(index: i16) -> (r: Result<Option<i16>, GridPlacementError>)
    ensures
        index == 0 ==> r == Err::<Option<i16>, GridPlacementError>(GridPlacementError::InvalidZeroIndex),
        index != 0 ==> r == Ok::<Option<i16>, GridPlacementError>(Some(index)),
{
    if index == 0 {
        Err(GridPlacementError::InvalidZeroIndex)
    } else {
        Ok(Some(index))
    }
}

/// Convert a `u16` to a grid span, failing on `0`.
pub fn try_into_grid_span(span: u16) -> (r: Result<Option<u16>, GridPlacementError>)
    ensures
        span == 0 ==> r == Err::<Option<u16>, GridPlacementError>(GridPlacementError::InvalidZeroSpan),
        span != 0 ==> r == Ok::<Option<u16>, GridPlacementError>(Some(span)),
{
    if span == 0 {
        Err(GridPlacementError::InvalidZeroSpan)
    } else {
        Ok(Some(span))
    }
}

impl GridPlacement {
    /// The line the item starts at, if set.
    pub closed spec fn start_spec(self) -> Option<i16> {
        self.start
    }

    /// How many tracks the item spans, if set.
    pub closed spec fn span_spec(self) -> Option<u16> {
        self.span
    }

    /// The line the item ends at, if set.
    pub closed spec fn end_spec(self) -> Option<i16> {
        self.end
    }

    /// No value present is zero.
    pub open spec fn wf(self) -> bool {
        nonzero_i16(self.start_spec()) && nonzero_u16(self.span_spec()) && nonzero_i16(
            self.end_spec(),
        )
    }

    /// Automatic placement spanning one track.
    pub fn auto() -> (r: Self)
        ensures
            r.wf(),
            r.start_spec() == None::<i16>,
            r.span_spec() == Some(1u16),
            r.end_spec() == None::<i16>,
    {
        GridPlacement { start: None, span: Some(1), end: None }
    }

    /// Automatic placement spanning `span` tracks.
    pub fn span(span: u16) -> (r: Self)
        requires
            span != 0,
        ensures
            r.wf(),
            r.start_spec() == None::<i16>,
            r.span_spec() == Some(span),
            r.end_spec() == None::<i16>,
    {
        GridPlacement { start: None, end: None, span: Some(span) }
    }

    /// Placement from line `start`, spanning one track.
    pub fn start(start: i16) -> (r: Self)
        requires
            start != 0,
        ensures
            r.wf(),
            r.start_spec() == Some(start),
            r.span_spec() == Some(1u16),
            r.end_spec() == None::<i16>,
    {
        GridPlacement { start: Some(start), span: Some(1), end: None }
    }

    /// Placement up to line `end`, spanning one track.
    pub fn end(end: i16) -> (r: Self)
        requires
            end != 0,
        ensures
            r.wf(),
            r.start_spec() == None::<i16>,
            r.span_spec() == Some(1u16),
            r.end_spec() == Some(end),
    {
        GridPlacement { start: None, span: Some(1), end: Some(end) }
    }

    /// Placement from line `start`, spanning `span` tracks.
    pub fn start_span(start: i16, span: u16) -> (r: Self)
        requires
            start != 0,
            span != 0,
        ensures
            r.wf(),
            r.start_spec() == Some(start),
            r.span_spec() == Some(span),
            r.end_spec() == None::<i16>,
    {
        GridPlacement { start: Some(start), end: None, span: Some(span) }
    }

    /// Placement from line `start` to line `end`; the span follows from them.
    pub fn start_end(start: i16, end: i16) -> (r: Self)
        requires
            start != 0,
            end != 0,
        ensures
            r.wf(),
            r.start_spec() == Some(start),
            r.span_spec() == None::<u16>,
            r.end_spec() == Some(end),
    {
        GridPlacement { start: Some(start), end: Some(end), span: None }
    }

    /// Placement up to line `end`, spanning `span` tracks.
    pub fn end_span(end: i16, span: u16) -> (r: Self)
        requires
            end != 0,
            span != 0,
        ensures
            r.wf(),
            r.start_spec() == None::<i16>,
            r.span_spec() == Some(span),
            r.end_spec() == Some(end),
    {
        GridPlacement { start: None, end: Some(end), span: Some(span) }
    }

    /// The placement with its start line set to `start`.
    pub fn set_start(self, start: i16) -> (r: Self)
        requires
            start != 0,
        ensures
            self.wf() ==> r.wf(),
            r.start_spec() == Some(start),
            r.span_spec() == self.span_spec(),
            r.end_spec() == self.end_spec(),
    {
        GridPlacement { start: Some(start), ..self }
    }

    /// The placement with its end line set to `end`.
    pub fn set_end(self, end: i16) -> (r: Self)
        requires
            end != 0,
        ensures
            self.wf() ==> r.wf(),
            r.start_spec() == self.start_spec(),
            r.span_spec() == self.span_spec(),
            r.end_spec() == Some(end),
    {
        GridPlacement { end: Some(end), ..self }
    }

    /// The placement with its span set to `span`.
    pub fn set_span(self, span: u16) -> (r: Self)
        requires
            span != 0,
        ensures
            self.wf() ==> r.wf(),
            r.start_spec() == self.start_spec(),
            r.span_spec() == Some(span),
            r.end_spec() == self.end_spec(),
    {
        GridPlacement { span: Some(span), ..self }
    }

    /// Returns the grid line at which the item should start, or `None` if not set.
    pub fn get_start(self) -> (r: Option<i16>)
        ensures
            r == self.start_spec(),
    {
        self.start
    }

    /// Returns the grid line at which the item should end, or `None` if not set.
    pub fn get_end(self) -> (r: Option<i16>)
        ensures
            r == self.end_spec(),
    {
        self.end
    }

    /// Returns the span of this grid item, or `None` if not set.
    pub fn get_span(self) -> (r: Option<u16>)
        ensures
            r == self.span_spec(),
    {
        self.span
    }
}

impl Default for GridPlacement {
    fn default() -> (r: Self)
        ensures
            r.wf(),
            r.start_spec() == None::<i16>,
            r.span_spec() == Some(1u16),
            r.end_spec() == None::<i16>,
    {
        GridPlacement::auto()
    }
}

/// How many times to repeat a repeated grid track.
#[derive(Debug, Eq, PartialEq, Structural, Clone, Copy)]
pub enum GridTrackRepetition {
    /// Repeat the track a fixed number of times.
    Count(u16),
    /// Repeat the track to fill the available space.
    AutoFill,
    /// Repeat the track to fill the available space, collapsing tracks without items.
    AutoFit,
}

impl From<u16> for GridTrackRepetition {
    /// A fixed repetition count.
    fn from(count: u16) -> (r: Self) {
        GridTrackRepetition::Count(count)
    }
}

impl vstd::std_specs::convert::FromSpecImpl<u16> for GridTrackRepetition {
    open spec fn obeys_from_spec() -> bool {
        true
    }

    open spec fn from_spec(count: u16) -> Self {
        GridTrackRepetition::Count(count)
    }
}

impl From<i32> for GridTrackRepetition {
    /// A fixed repetition count, keeping the low 16 bits of `count` as `as` does.
    fn from(count: i32) -> (r: Self) {
        GridTrackRepetition::Count(count as u16)
    }
}

impl vstd::std_specs::convert::FromSpecImpl<i32> for GridTrackRepetition {
    open spec fn obeys_from_spec() -> bool {
        true
    }

    open spec fn from_spec(count: i32) -> Self {
        GridTrackRepetition::Count(count as u16)
    }
}

impl From<usize> for GridTrackRepetition {
    /// A fixed repetition count, keeping the low 16 bits of `count` as `as` does.
    fn from(count: usize) -> (r: Self) {
        GridTrackRepetition::Count(count as u16)
    }
}

impl vstd::std_specs::convert::FromSpecImpl<usize> for GridTrackRepetition {
    open spec fn obeys_from_spec() -> bool {
        true
    }

    open spec fn from_spec(count: usize) -> Self {
        GridTrackRepetition::Count(count as u16)
    }
}

/// Whether overflowing content is shown or clipped on one axis.
#[derive(Debug, Eq, PartialEq, Structural, Clone, Copy)]
pub enum OverflowAxis {
    /// Show overflowing items.
    Visible,
    /// Hide overflowing items.
    Clip,
}

impl OverflowAxis {
    /// Overflow is visible on this axis.
    pub fn is_visible(&self) -> (r: bool)
        ensures
            r == (*self == OverflowAxis::Visible),
    {
        match self {
            OverflowAxis::Visible => true,
            OverflowAxis::Clip => false,
        }
    }
}

impl Default for OverflowAxis {
    fn default() -> (r: Self)
        ensures
            r == OverflowAxis::Visible,
    {
        OverflowAxis::Visible
    }
}

/// Whether overflowing content is shown or clipped on each axis.
#[derive(Debug, Eq, PartialEq, Structural, Clone, Copy)]
pub struct Overflow {
    pub x: OverflowAxis,
    pub y: OverflowAxis,
}

impl Overflow {
    /// Show overflowing items on both axes.
    pub fn visible() -> (r: Self)
        ensures
            r == (Overflow { x: OverflowAxis::Visible, y: OverflowAxis::Visible }),
    {
        Overflow { x: OverflowAxis::Visible, y: OverflowAxis::Visible }
    }

    /// Clip overflowing items on both axes.
    pub fn clip() -> (r: Self)
        ensures
            r == (Overflow { x: OverflowAxis::Clip, y: OverflowAxis::Clip }),
    {
        Overflow { x: OverflowAxis::Clip, y: OverflowAxis::Clip }
    }

    /// Clip overflowing items on the x axis.
    pub fn clip_x() -> (r: Self)
        ensures
            r == (Overflow { x: OverflowAxis::Clip, y: OverflowAxis::Visible }),
    {
        Overflow { x: OverflowAxis::Clip, y: OverflowAxis::Visible }
    }

    /// Clip overflowing items on the y axis.
    pub fn clip_y() -> (r: Self)
        ensures
            r == (Overflow { x: OverflowAxis::Visible, y: OverflowAxis::Clip }),
    {
        Overflow { x: OverflowAxis::Visible, y: OverflowAxis::Clip }
    }

    /// Overflow is visible on both axes.
    pub fn is_visible(&self) -> (r: bool)
        ensures
            r == (self.x == OverflowAxis::Visible && self.y == OverflowAxis::Visible),
    {
        self.x.is_visible() && self.y.is_visible()
    }
}

impl Default for Overflow {
    fn default() -> (r: Self)
        ensures
            r == (Overflow { x: OverflowAxis::Visible, y: OverflowAxis::Visible }),
    {
        Overflow::visible()
    }
}

/// The order in which a node is rendered: relative to its siblings, or to all root nodes
/// and nodes with a global z-index.
#[derive(Debug, Eq, PartialEq, Structural, Clone, Copy)]
pub enum ZIndex {
    Local(i32),
    Global(i32),
}

impl Default for ZIndex {
    fn default() -> (r: Self)
        ensures
            r == ZIndex::Local(0),
    {
        ZIndex::Local(0)
    }
}

/// The texture displayed for a UI node, by its asset id, and whether it is flipped.
#[derive(Debug, Eq, PartialEq, Structural, Clone, Copy)]
pub struct UiImage {
    pub texture: u64,
    /// Whether the image is flipped along its x-axis.
    pub flip_x: bool,
    /// Whether the image is flipped along its y-axis.
    pub flip_y: bool,
}

impl UiImage {
    /// The texture, not flipped.
    pub fn new(texture: u64) -> (r: Self)
        ensures
            r == (UiImage { texture, flip_x: false, flip_y: false }),
    {
        UiImage { texture, flip_x: false, flip_y: false }
    }

    /// The image flipped along its x-axis.
    pub fn with_flip_x(self) -> (r: Self)
        ensures
            r == (UiImage { flip_x: true, ..self }),
    {
        UiImage { flip_x: true, ..self }
    }

    /// The image flipped along its y-axis.
    pub fn with_flip_y(self) -> (r: Self)
        ensures
            r == (UiImage { flip_y: true, ..self }),
    {
        UiImage { flip_y: true, ..self }
    }
}

} // verus!
