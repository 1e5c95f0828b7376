use vstd::prelude::*;
use crate::arith::{SCALE, MAX_PIXELS, MAX_RATIO};

verus! {

/// Space kept free on each edge of the container.
#[derive(Debug, Copy, Clone, Default)]
pub struct Padding<T: Default> {
    pub left: T,
    pub right: T,
    pub top: T,
    pub bottom: T,
}

impl<T: Copy + Default> From<T> for Padding<T> {
    /// The same padding on all four edges.
    fn from(value: T) -> (r: Self)
        ensures
            r.left == value && r.right == value && r.top == value && r.bottom == value,
    {
        Padding { left: value, right: value, top: value, bottom: value }
    }
}

impl<T: Copy + Default> vstd::std_specs::convert::FromSpecImpl<T> for Padding<T> {
    open spec fn obeys_from_spec() -> bool {
        true
    }

    open spec fn from_spec(value: T) -> Self {
        Padding { left: value, right: value, top: value, bottom: value }
    }
}

/// Gaps between neighbouring items of a row and between rows.
#[derive(Debug, Copy, Clone, Default)]
pub struct Spacing<T: Default> {
    pub horizontal: T,
    pub vertical: T,
}

impl<T: Copy + Default> From<T> for Spacing<T> {
    /// The same gap in both directions.
    fn from(value: T) -> (r: Self)
        ensures
            r.horizontal == value && r.vertical == value,
    {
        Spacing { horizontal: value, vertical: value }
    }
}

impl<T: Copy + Default> vstd::std_specs::convert::FromSpecImpl<T> for Spacing<T> {
    open spec fn obeys_from_spec() -> bool {
        true
    }

    open spec fn from_spec(value: T) -> Self {
        Spacing { horizontal: value, vertical: value }
    }
}

/// How the items of a finished row are placed horizontally.
#[derive(Debug, Copy, Clone, PartialEq, Eq, Structural)]
pub enum WidowLayoutStyle {
    /// Packed from the left edge, widths as computed.
    Left,
    /// Widths nudged so that the row spans the container width exactly.
    Justify,
    /// Packed, then shifted towards the middle.
    Center,
}

impl Default for WidowLayoutStyle {
    fn default() -> (r: Self)
        ensures
            r == WidowLayoutStyle::Left,
    {
        WidowLayoutStyle::Left
    }
}

/// Options of one layout computation. Lengths are in pixels; the tolerance and
/// the forced aspect ratio are in millionths.
#[derive(Debug, Copy, Clone)]
pub struct Config {
    pub container_width: u64,
    pub container_padding: Padding<u64>,
    pub box_spacing: Spacing<u64>,
    pub target_row_height: u64,
    /// Fraction of the target height by which a row may deviate, in millionths.
    pub target_row_height_tolerance: u64,
    pub max_rows: usize,
    pub force_aspect_ratio: Option<u64>,
    pub show_widows: bool,
    pub full_width_breakout_row_cadence: Option<u64>,
    pub layout_style: WidowLayoutStyle,
    /// Set by a computation to the number of items in its widow row.
    pub widow_count: usize,
}

impl Config {
    /// Every length and ratio lies within the machine limits (`MAX_PIXELS`,
    /// `MAX_RATIO`) that keep the exact arithmetic inside 128 bits.
    pub open spec fn within_bounds(&self) -> bool {
        &&& self.container_width <= MAX_PIXELS
        &&& self.container_padding.left <= MAX_PIXELS
        &&& self.container_padding.right <= MAX_PIXELS
        &&& self.container_padding.top <= MAX_PIXELS
        &&& self.container_padding.bottom <= MAX_PIXELS
        &&& self.box_spacing.horizontal <= MAX_PIXELS
        &&& self.box_spacing.vertical <= MAX_PIXELS
        &&& self.target_row_height <= MAX_PIXELS
        &&& self.target_row_height_tolerance <= MAX_RATIO
        &&& (self.force_aspect_ratio matches Some(f) ==> f <= MAX_RATIO)
    }

    /// The configuration describes a usable container: positive target height,
    /// room left between the paddings, and a positive breakout cadence.
    pub open spec fn is_usable(&self) -> bool {
        &&& self.container_width > 0
        &&& self.target_row_height > 0
        &&& self.container_padding.left + self.container_padding.right < self.container_width
        &&& (self.full_width_breakout_row_cadence matches Some(c) ==> c > 0)
    }

    /// Width available to a row: the container width less the side paddings.
    pub open spec fn available_width(&self) -> int {
        self.container_width - self.container_padding.left - self.container_padding.right
    }

    /// The default options: a 1060 pixel container with 10 pixel padding and
    /// spacing, rows of 320 pixels give or take a quarter, widows shown.
    pub fn new() -> (r: Self)
        ensures
            r.container_width == 1060,
            r.container_padding.left == 10 && r.container_padding.right == 10,
            r.container_padding.top == 10 && r.container_padding.bottom == 10,
            r.box_spacing.horizontal == 10 && r.box_spacing.vertical == 10,
            r.target_row_height == 320,
            r.target_row_height_tolerance == SCALE / 4,
            r.max_rows == usize::MAX,
            r.force_aspect_ratio.is_none(),
            r.show_widows,
            r.full_width_breakout_row_cadence.is_none(),
            r.layout_style == WidowLayoutStyle::Justify,
            r.widow_count == 0,
            r.within_bounds(),
            r.is_usable(),
    {
        Config {
            container_width: 1060,
            container_padding: Padding::from(10u64),
            box_spacing: Spacing::from(10u64),
            target_row_height: 320,
            target_row_height_tolerance: SCALE / 4,
            max_rows: usize::MAX,
            force_aspect_ratio: None,
            show_widows: true,
            full_width_breakout_row_cadence: None,
            layout_style: WidowLayoutStyle::Justify,
            widow_count: 0,
        }
    }
}

impl Default for Config {
    fn default() -> (r: Self)
        ensures
            r.container_width == 1060,
            r.container_padding.left == 10 && r.container_padding.right == 10,
            r.container_padding.top == 10 && r.container_padding.bottom == 10,
            r.box_spacing.horizontal == 10 && r.box_spacing.vertical == 10,
            r.target_row_height == 320,
            r.target_row_height_tolerance == SCALE / 4,
            r.max_rows == usize::MAX,
            r.force_aspect_ratio.is_none(),
            r.show_widows,
            r.full_width_breakout_row_cadence.is_none(),
            r.layout_style == WidowLayoutStyle::Justify,
            r.widow_count == 0,
            r.within_bounds(),
            r.is_usable(),
    {
        Config::new()
    }
}

} // verus!
