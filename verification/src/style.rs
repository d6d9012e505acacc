//! The declarative style record attached to each layout node: flex
//! direction, justification, alignment, and size/margin dimensions.
//!
//! Dimensions are fixed-point plain integers: a `Points` value counts
//! thousandths of a logical pixel, a `Percent` value counts parts per
//! ten thousand (so `Percent(10_000)` is the whole of the parent).

use vstd::prelude::*;

verus! {

/// Main-axis direction of a flex container.
#[derive(Clone, Copy, Debug, PartialEq, Eq, Structural)]
pub enum Direction {
    Row,
    Column,
    RowReverse,
    ColumnReverse,
}

/// Distribution of children along the main axis.
#[derive(Clone, Copy, Debug, PartialEq, Eq, Structural)]
pub enum Justify {
    FlexStart,
    FlexEnd,
    Center,
    SpaceBetween,
    SpaceAround,
    SpaceEvenly,
}

/// Alignment of children across the cross axis.
#[derive(Clone, Copy, Debug, PartialEq, Eq, Structural)]
pub enum Align {
    FlexStart,
    FlexEnd,
    Center,
    Baseline,
    Stretch,
}

/// One length: fixed points, a fraction of the parent, automatic, or unset.
#[derive(Clone, Copy, Debug, PartialEq, Eq, Structural)]
pub enum Dimension {
    Points(u32),
    Percent(u32),
    Auto,
    Undefined,
}

/// A width/height pair of dimensions.
#[derive(Clone, Copy, Debug, PartialEq, Eq, Structural)]
pub struct SizeSpec {
    pub width: Dimension,
    pub height: Dimension,
}

/// Per-edge dimensions, used for margins.
#[derive(Clone, Copy, Debug, PartialEq, Eq, Structural)]
pub struct EdgeSpec {
    pub start: Dimension,
    pub end: Dimension,
    pub top: Dimension,
    pub bottom: Dimension,
}

/// The full style record carried by a layout node.
#[derive(Clone, Copy, Debug, PartialEq, Eq, Structural)]
pub struct Style {
    pub direction: Direction,
    pub justify: Justify,
    pub align: Align,
    pub size: SizeSpec,
    pub margin: EdgeSpec,
}

impl Style {
    /// The style a freshly created node starts with: everything unset,
    /// row direction, start-packed.
    pub open spec fn default_spec() -> Style {
        Style {
            direction: Direction::Row,
            justify: Justify::FlexStart,
            align: Align::Stretch,
            size: SizeSpec { width: Dimension::Auto, height: Dimension::Auto },
            margin: EdgeSpec {
                start: Dimension::Undefined,
                end: Dimension::Undefined,
                top: Dimension::Undefined,
                bottom: Dimension::Undefined,
            },
        }
    }

    /// The synthetic style given to the root window's layout node: it
    /// always fills the whole available area.
    pub open spec fn window_root_spec() -> Style {
        Style {
            size: SizeSpec {
                width: Dimension::Percent(10000),
                height: Dimension::Percent(10000),
            },
            ..Style::default_spec()
        }
    }

    /// Builds the default style.
    pub fn default_style() -> (s: Style)
        ensures
            s == Style::default_spec(),
    {
        Style {
            direction: Direction::Row,
            justify: Justify::FlexStart,
            align: Align::Stretch,
            size: SizeSpec { width: Dimension::Auto, height: Dimension::Auto },
            margin: EdgeSpec {
                start: Dimension::Undefined,
                end: Dimension::Undefined,
                top: Dimension::Undefined,
                bottom: Dimension::Undefined,
            },
        }
    }

    /// Builds the root window's full-area style.
    pub fn window_root_style() -> (s: Style)
        ensures
            s == Style::window_root_spec(),
    {
        let mut s = Style::default_style();
        s.size = SizeSpec {
            width: Dimension::Percent(10000),
            height: Dimension::Percent(10000),
        };
        s
    }
}

} // verus!
