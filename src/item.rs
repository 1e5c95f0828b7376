use vstd::prelude::*;
use crate::arith::{SCALE, MAX_PIXELS, round_div, round_div_exec};

verus! {

/// One box to lay out: its aspect ratio (width over height, in millionths)
/// and, once its row is finished, its geometry in pixels.
#[derive(Debug, Copy, Clone, PartialEq, Eq, Structural)]
pub struct LayoutItem {
    pub aspect_ratio: u64,
    pub force_aspect_ratio: Option<u64>,
    pub top: i128,
    pub left: i128,
    pub width: i128,
    pub height: i128,
}

impl LayoutItem {
    /// An item with the given aspect ratio (in millionths) and no geometry yet.
    pub fn from_ratio(aspect_ratio: u64) -> (r: Self)
        ensures
            r == (LayoutItem {
                aspect_ratio,
                force_aspect_ratio: None,
                top: 0,
                left: 0,
                width: 0,
                height: 0,
            }),
    {
        LayoutItem { aspect_ratio, force_aspect_ratio: None, top: 0, left: 0, width: 0, height: 0 }
    }

    /// An item of the given pixel size: its aspect ratio is `width / height`,
    /// rounded to the nearest millionth. An item of positive width so tall
    /// that this rounds to zero gets the smallest ratio, one millionth, so
    /// that it stays a valid item. A zero width gives a zero ratio, which a
    /// layout rejects.
    pub fn new(width: u64, height: u64) -> (r: Self)
        requires
            0 < height,
            width <= MAX_PIXELS,
        ensures
            r.aspect_ratio == if width > 0 && round_div(width * SCALE, height as int) == 0 {
                1
            } else {
                round_div(width * SCALE, height as int)
            },
            width > 0 ==> r.aspect_ratio >= 1,
            r.force_aspect_ratio.is_none(),
            r.top == 0 && r.left == 0 && r.width == 0 && r.height == 0,
    {
        proof {
            assert(width * SCALE <= 65536 * 1_000_000) by (nonlinear_arith)
                requires width <= 65536, SCALE == 1_000_000;
        }
        let num: i128 = width as i128 * SCALE as i128;
        proof {
            assert(SCALE == 1_000_000);
            assert(0 <= num <= 65536 * 1_000_000) by (nonlinear_arith)
                requires num == width * 1_000_000, width <= 65536;
            assert(num <= num * height) by (nonlinear_arith)
                requires num >= 0, height >= 1;
            crate::arith::lemma_round_div_bound(num as int, height as int, num as int);
        }
        let rounded: i128 = round_div_exec(num, height as i128);
        let ratio: i128 = if width > 0 && rounded == 0 { 1 } else { rounded };
        proof {
            assert(rounded >= 0) by (nonlinear_arith)
                requires rounded == (2 * num + height) / (2 * height), num >= 0, height >= 1;
        }
        LayoutItem::from_ratio(ratio as u64)
    }
}

} // verus!
