//! Styling properties, their kind flags, and stylesheet sets.

use vstd::prelude::*;

verus! {

/// Categories of styling properties, as a bit set. When an element's classes
/// change, recomputation is tracked in these coarse groups rather than per
/// property.
#[derive(Debug, Clone, Copy, PartialEq, Eq, Structural)]
pub struct PropKindFlags {
    pub bits: u16,
}

pub const NUM_LAYERS: u16 = 1;

pub const LAYER_IMG: u16 = 1 << 1;

pub const LAYER_BOUNDS: u16 = 1 << 2;

pub const LAYER_BG_COLOR: u16 = 1 << 3;

pub const LAYER_OPACITY: u16 = 1 << 4;

pub const LAYER_CENTER: u16 = 1 << 5;

pub const LAYER_XFORM: u16 = 1 << 6;

/// Any property of decorative layers.
pub const LAYER_ALL: u16 = NUM_LAYERS | LAYER_IMG | LAYER_BOUNDS | LAYER_BG_COLOR | LAYER_OPACITY
    | LAYER_CENTER | LAYER_XFORM;

pub const CLIP_LAYER: u16 = 1 << 7;

pub const LAYOUT: u16 = 1 << 8;

pub const FONT: u16 = 1 << 9;

pub const FG_COLOR: u16 = 1 << 10;

impl PropKindFlags {
    /// Whether the two flag sets share any bit.
    pub fn intersects(&self, other: PropKindFlags) -> (r: bool)
        ensures
            r == ((self.bits & other.bits) != 0),
    {
        (self.bits & other.bits) != 0
    }
}

/// A styling property, with the index of the layer it concerns where one
/// applies.
#[derive(Debug, Clone, Copy, PartialEq, Eq, Structural)]
pub enum Prop {
    NumLayers,
    LayerImg(usize),
    LayerBgColor(usize),
    LayerMetrics(usize),
    LayerOpacity(usize),
    LayerCenter(usize),
    LayerXform(usize),
    SubviewMetrics(usize),
    MinSize,
    ClipMetrics,
    FgColor,
    Font,
}

impl Prop {
    /// The category flags a property belongs to: the groups that must be
    /// recomputed when it changes.
    pub fn kind_flags(&self) -> (r: PropKindFlags)
        ensures
            r.bits == (match *self {
                Prop::NumLayers => LAYER_ALL,
                Prop::LayerImg(_) => LAYER_IMG,
                Prop::LayerBgColor(_) => LAYER_BG_COLOR,
                Prop::LayerMetrics(_) => LAYER_BOUNDS,
                Prop::LayerOpacity(_) => LAYER_OPACITY,
                Prop::LayerCenter(_) => LAYER_CENTER,
                Prop::LayerXform(_) => LAYER_XFORM,
                Prop::SubviewMetrics(_) => LAYOUT,
                Prop::MinSize => LAYOUT,
                Prop::ClipMetrics => CLIP_LAYER,
                Prop::FgColor => FG_COLOR,
                Prop::Font => FONT,
            }),
    {
        let bits = match *self {
            Prop::NumLayers => LAYER_ALL,
            Prop::LayerImg(_) => LAYER_IMG,
            Prop::LayerBgColor(_) => LAYER_BG_COLOR,
            Prop::LayerMetrics(_) => LAYER_BOUNDS,
            Prop::LayerOpacity(_) => LAYER_OPACITY,
            Prop::LayerCenter(_) => LAYER_CENTER,
            Prop::LayerXform(_) => LAYER_XFORM,
            Prop::SubviewMetrics(_) => LAYOUT,
            Prop::MinSize => LAYOUT,
            Prop::ClipMetrics => CLIP_LAYER,
            Prop::FgColor => FG_COLOR,
            Prop::Font => FONT,
        };
        PropKindFlags { bits }
    }
}

/// One rule of a stylesheet: its priority and the categories of the
/// properties it sets.
#[derive(Debug, Clone, Copy, PartialEq, Eq, Structural)]
pub struct StyleRule {
    pub priority: i32,
    pub prop_kinds: u16,
}

/// A stylesheet: an ordered list of rules.
#[derive(Debug, Clone)]
pub struct Stylesheet {
    pub rules: Vec<StyleRule>,
}

/// A stylesheet set: the sheets active at once, in insertion order.
#[derive(Debug)]
pub struct SheetSet {
    sheets: Vec<Stylesheet>,
}

impl SheetSet {
    /// The sheets, in order.
    pub closed spec fn view(&self) -> Seq<Stylesheet> {
        self.sheets@
    }

    /// An empty set.
    pub fn new() -> (r: Self)
        ensures
            r@ == Seq::<Stylesheet>::empty(),
    {
        let r = SheetSet { sheets: Vec::new() };
        proof {
            assert(r@ =~= Seq::<Stylesheet>::empty());
        }
        r
    }

    /// How many sheets the set holds.
    pub fn len(&self) -> (r: usize)
        ensures
            r == self@.len(),
    {
        self.sheets.len()
    }
}

/// The context handed to a callback that assembles a new stylesheet set.
pub struct NewSheetSetCtx {
    sheet_set: SheetSet,
}

impl NewSheetSetCtx {
    /// The set assembled so far.
    pub closed spec fn view(&self) -> Seq<Stylesheet> {
        self.sheet_set@
    }

    /// Start assembling from an existing set.
    pub fn new(sheet_set: SheetSet) -> (r: Self)
        ensures
            r@ == sheet_set@,
    {
        NewSheetSetCtx { sheet_set }
    }

    /// Insert a new stylesheet at the end of the set.
    pub fn insert_stylesheet(&mut self, stylesheet: Stylesheet)
        ensures
            final(self)@ == old(self)@.push(stylesheet),
    {
        self.sheet_set.sheets.push(stylesheet);
    }

    /// Finish: the assembled set.
    pub fn into_sheet_set(self) -> (r: SheetSet)
        ensures
            r@ == self@,
    {
        self.sheet_set
    }
}

} // verus!
