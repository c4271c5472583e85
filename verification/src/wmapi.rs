//! Plain data types for window-manager test harnesses: a captured window
//! image and a keyboard action binding.

use vstd::prelude::*;

verus! {

/// An RGBA8 image captured from the contents of a window.
#[derive(Debug, Clone)]
pub struct WndSnapshot {
    /// The size of the image, width then height.
    pub size: [usize; 2],
    /// Image data.
    pub data: Vec<u8>,
    /// The byte offset between adjacent rows.
    pub stride: usize,
}

impl WndSnapshot {
    /// Create an empty snapshot: no pixels, zero size and stride.
    pub fn new() -> (r: Self)
        ensures
            r.size[0] == 0,
            r.size[1] == 0,
            r.data@ == Seq::<u8>::empty(),
            r.stride == 0,
    {
        let r = WndSnapshot { size: [0, 0], data: Vec::new(), stride: 0 };
        proof {
            assert(r.data@ =~= Seq::<u8>::empty());
        }
        r
    }
}

impl Default for WndSnapshot {
    /// The empty snapshot.
    fn default() -> (r: Self)
        ensures
            r.size[0] == 0,
            r.size[1] == 0,
            r.data@ == Seq::<u8>::empty(),
            r.stride == 0,
    {
        WndSnapshot::new()
    }
}

/// An identifier of an application action a key gesture can trigger.
pub type ActionId = u32;

/// Binds a key pattern, under a named source, to an action.
#[derive(Debug, Clone, Copy)]
pub struct ActionBinding {
    pub source: &'static str,
    pub pattern: &'static str,
    pub action: ActionId,
}

} // verus!
