use vstd::prelude::*;
use crate::arith::{abs_exec, round_div_exec, floor_half_exec, SCALE, MAX_PIXELS, MAX_RATIO, MAX_ITEMS, MAX_RAW_HEIGHT, round_div, floor_half, abs, lemma_round_div_bound};
use crate::config::WidowLayoutStyle;
use crate::item::LayoutItem;

verus! {

/// Bound on the top edge of any row.
pub const MAX_TOP: i128 = 1_099_511_627_776;

/// Bound on an item width before justification.
pub open spec fn raw_width_bound() -> int {
    0x4_0000_0000_0000_0000_00
}

/// The state of one row while it is being packed and once it is finished.
/// Lengths are in pixels; `min_aspect_ratio` and `max_aspect_ratio` are the
/// fill bounds on the summed aspect ratio, multiplied by the target row
/// height (so in pixels times millionths).
#[derive(Debug)]
pub struct Row {
    pub items: Vec<LayoutItem>,
    pub left: i128,
    pub top: i128,
    pub width: i128,
    /// Zero while the row is open; the row's final height once it is finished.
    pub height: i128,
    pub spacing: i128,
    pub target_row_height: i128,
    pub target_row_height_tolerance: i128,
    pub min_aspect_ratio: i128,
    pub max_aspect_ratio: i128,
    pub edge_case_min_row_height: i128,
    pub edge_case_max_row_height: i128,
    pub layout_style: WidowLayoutStyle,
    pub is_breakout_row: bool,
}

/// A row as a mathematical value.
pub struct RowModel {
    pub items: Seq<LayoutItem>,
    pub left: int,
    pub top: int,
    pub width: int,
    pub height: int,
    pub spacing: int,
    pub target_row_height: int,
    pub target_row_height_tolerance: int,
    pub min_aspect_ratio: int,
    pub max_aspect_ratio: int,
    pub edge_case_min_row_height: int,
    pub edge_case_max_row_height: int,
    pub layout_style: WidowLayoutStyle,
    pub is_breakout_row: bool,
}

/// Sum of the aspect ratios of a sequence of items.
pub open spec fn ratio_sum(s: Seq<LayoutItem>) -> int
    decreases s.len(),
{
    if s.len() == 0 {
        0
    } else {
        ratio_sum(s.drop_last()) + s.last().aspect_ratio
    }
}

/// Width of an item at the given (unclamped) row height, before justification.
pub open spec fn raw_width(item: LayoutItem, h: int) -> int {
    round_div(item.aspect_ratio * h, SCALE as int)
}

/// Sum of the raw widths of the first `i` items.
pub open spec fn width_sum(s: Seq<LayoutItem>, h: int, i: int) -> int
    decreases i,
{
    if i <= 0 {
        0
    } else {
        width_sum(s, h, i - 1) + raw_width(s[i - 1], h)
    }
}

/// Lower fill bound of a row of the given width: a summed aspect ratio `s`
/// (in millionths) is below it when `s * target_row_height` is less than this.
pub open spec fn min_fill(width: int, tolerance: int) -> int {
    width * (SCALE - tolerance)
}

/// Upper fill bound of a row of the given width: a summed aspect ratio `s` is
/// above it when `s * target_row_height` exceeds this.
pub open spec fn max_fill(width: int, tolerance: int) -> int {
    width * (SCALE + tolerance)
}

impl RowModel {
    /// The row's derived fields agree with its parameters, and every length
    /// and ratio lies within the bounds that keep the arithmetic exact.
    pub open spec fn wf(self) -> bool {
        &&& 1 <= self.width <= MAX_PIXELS
        &&& 0 <= self.left <= MAX_PIXELS
        &&& 0 <= self.top <= MAX_TOP
        &&& 0 <= self.spacing <= MAX_PIXELS
        &&& 1 <= self.target_row_height <= MAX_PIXELS
        &&& 0 <= self.target_row_height_tolerance <= MAX_RATIO
        &&& self.min_aspect_ratio == min_fill(self.width, self.target_row_height_tolerance)
        &&& self.max_aspect_ratio == max_fill(self.width, self.target_row_height_tolerance)
        &&& self.edge_case_min_row_height == (self.target_row_height + 1) / 2
        &&& self.edge_case_max_row_height == 2 * self.target_row_height
        &&& self.items.len() <= MAX_ITEMS
        &&& forall|i: int| 0 <= i < self.items.len()
            ==> 1 <= #[trigger] self.items[i].aspect_ratio <= MAX_RATIO
        &&& 0 <= self.height
    }

    pub open spec fn is_complete(self) -> bool {
        self.height > 0
    }

    /// The row height actually used for a requested height: the request
    /// clamped to half and twice the target height. Heights are whole pixels,
    /// so the lower limit is half the target rounded up, `(T + 1) / 2`.
    pub open spec fn clamp(self, h: int) -> int {
        if h < self.edge_case_min_row_height {
            self.edge_case_min_row_height
        } else if h > self.edge_case_max_row_height {
            self.edge_case_max_row_height
        } else {
            h
        }
    }

    /// Left edge of item `i` when the items are packed from the row's left edge.
    pub open spec fn packed_left(self, h: int, i: int) -> int {
        self.left + width_sum(self.items, h, i) + i * self.spacing
    }

    /// How far the packed items overshoot the row width.
    pub open spec fn justify_error(self, h: int) -> int {
        width_sum(self.items, h, self.items.len() as int) + (self.items.len() - 1) * self.spacing
            - self.width
    }

    /// The share of the overshoot taken from the first `i + 1` items.
    pub open spec fn correction(self, h: int, i: int) -> int {
        if i < 0 {
            0
        } else {
            round_div((i + 1) * self.justify_error(h), self.items.len() as int)
        }
    }

    /// Shift applied to every item of a centred row: half the width left over
    /// after packing (rounded down to a whole pixel), plus one spacing.
    pub open spec fn center_offset(self, h: int) -> int {
        floor_half(self.width - self.packed_left(h, self.items.len() as int)) + self.spacing
    }

    pub open spec fn placed_left(self, h: int, style: WidowLayoutStyle, i: int) -> int {
        match style {
            WidowLayoutStyle::Left => self.packed_left(h, i),
            WidowLayoutStyle::Justify => self.packed_left(h, i) - self.correction(h, i - 1),
            WidowLayoutStyle::Center => self.packed_left(h, i) + self.center_offset(h),
        }
    }

    pub open spec fn placed_width(self, h: int, style: WidowLayoutStyle, i: int) -> int {
        match style {
            WidowLayoutStyle::Justify => raw_width(self.items[i], h) - (self.correction(h, i)
                - self.correction(h, i - 1)),
            _ => raw_width(self.items[i], h),
        }
    }

    /// Item `i` once the row is finished at requested height `h` in `style`.
    pub open spec fn placed(self, h: int, style: WidowLayoutStyle, i: int) -> LayoutItem {
        LayoutItem {
            top: self.top as i128,
            height: self.clamp(h) as i128,
            left: self.placed_left(h, style, i) as i128,
            width: self.placed_width(h, style, i) as i128,
            ..self.items[i]
        }
    }

    /// The row finished at requested height `h` in `style`.
    pub open spec fn completed(self, h: int, style: WidowLayoutStyle) -> RowModel {
        RowModel {
            height: self.clamp(h),
            items: Seq::new(self.items.len(), |i: int| self.placed(h, style, i)),
            ..self
        }
    }

    pub open spec fn with_item(self, item: LayoutItem) -> RowModel {
        RowModel { items: self.items.push(item), ..self }
    }

    /// Row width left for items when `n` spacings are charged.
    pub open spec fn width_less_spacing(self, n: int) -> int {
        self.width - n * self.spacing
    }

    /// The row and the acceptance flag after offering `item` to an open row.
    pub open spec fn after_add(self, item: LayoutItem) -> (RowModel, bool) {
        let n = self.items.len() as int;
        let wn = self.width_less_spacing(n);
        let s = ratio_sum(self.items) + item.aspect_ratio;
        let prev_wn = self.width_less_spacing(n - 1);
        let prev_s = ratio_sum(self.items);
        if self.is_breakout_row && n == 0 && item.aspect_ratio >= SCALE {
            (
                self.with_item(item).completed(
                    round_div(wn * SCALE, item.aspect_ratio as int),
                    WidowLayoutStyle::Justify,
                ),
                true,
            )
        } else if s * self.target_row_height < self.min_aspect_ratio {
            (self.with_item(item), true)
        } else if s * self.target_row_height > self.max_aspect_ratio && n > 0 && abs(
            s * self.target_row_height - wn * SCALE,
        ) > abs(prev_s * self.target_row_height - prev_wn * SCALE) {
            (self.completed(round_div(prev_wn * SCALE, prev_s), WidowLayoutStyle::Justify), false)
        } else {
            (
                self.with_item(item).completed(round_div(wn * SCALE, s), WidowLayoutStyle::Justify),
                true,
            )
        }
    }

    /// The widow row finished: at `row_height` when given (left-aligned), else
    /// filling the width when `fit_to_width`, else at the target height.
    pub open spec fn force_completed(self, fit_to_width: bool, row_height: Option<i128>) -> RowModel {
        match row_height {
            Some(h) => self.completed(h as int, WidowLayoutStyle::Left),
            None => if fit_to_width {
                self.completed(
                    round_div(
                        self.width_less_spacing(self.items.len() - 1) * SCALE,
                        ratio_sum(self.items),
                    ),
                    WidowLayoutStyle::Justify,
                )
            } else {
                self.completed(self.target_row_height, WidowLayoutStyle::Left)
            },
        }
    }
}

impl View for Row {
    type V = RowModel;

    open spec fn view(&self) -> RowModel {
        RowModel {
            items: self.items@,
            left: self.left as int,
            top: self.top as int,
            width: self.width as int,
            height: self.height as int,
            spacing: self.spacing as int,
            target_row_height: self.target_row_height as int,
            target_row_height_tolerance: self.target_row_height_tolerance as int,
            min_aspect_ratio: self.min_aspect_ratio as int,
            max_aspect_ratio: self.max_aspect_ratio as int,
            edge_case_min_row_height: self.edge_case_min_row_height as int,
            edge_case_max_row_height: self.edge_case_max_row_height as int,
            layout_style: self.layout_style,
            is_breakout_row: self.is_breakout_row,
        }
    }
}

/// The ratio sum grows by one item's ratio at a time, and stays within bounds.
pub proof fn lemma_ratio_sum_bounds(s: Seq<LayoutItem>)
    requires
        forall|i: int| 0 <= i < s.len() ==> 1 <= #[trigger] s[i].aspect_ratio <= MAX_RATIO,
    ensures
        s.len() <= ratio_sum(s) <= s.len() * MAX_RATIO,
    decreases s.len(),
{
    if s.len() > 0 {
        let t = s.drop_last();
        assert forall|i: int| 0 <= i < t.len() implies 1 <= #[trigger] t[i].aspect_ratio <= MAX_RATIO by {
            assert(t[i] == s[i]);
        }
        lemma_ratio_sum_bounds(t);
        assert(1 <= s[s.len() - 1].aspect_ratio);
    }
}

/// Each raw width is small when the requested height is.
pub proof fn lemma_raw_width_bound(item: LayoutItem, h: int)
    requires
        item.aspect_ratio <= MAX_RATIO,
        abs(h) <= MAX_RAW_HEIGHT,
    ensures
        abs(raw_width(item, h)) <= raw_width_bound(),
{
    let a = item.aspect_ratio * h;
    assert(abs(a) <= 0x1000_0000_0000_0000_0000_0000) by (nonlinear_arith)
        requires a == item.aspect_ratio * h, 0 <= item.aspect_ratio <= 0x1_0000_0000,
            -0x1000_0000_0000_0000 <= h <= 0x1000_0000_0000_0000;
    assert(abs(a) <= 0x2_0000_0000_0000_0000_00 * (SCALE as int));
    lemma_round_div_bound(a, SCALE as int, 0x2_0000_0000_0000_0000_00);
}

/// Packed left edges stay within a linear bound.
pub proof fn lemma_packed_left_bound(m: RowModel, h: int, i: int)
    requires
        m.wf(),
        abs(h) <= MAX_RAW_HEIGHT,
        0 <= i <= m.items.len(),
    ensures
        abs(width_sum(m.items, h, i)) <= i * (raw_width_bound()),
    decreases i,
{
    if i > 0 {
        lemma_packed_left_bound(m, h, i - 1);
        lemma_raw_width_bound(m.items[i - 1], h);
    }
}

/// Packed left edges stay well inside 128-bit range.
pub proof fn lemma_packed_left_range(m: RowModel, h: int, i: int)
    requires
        m.wf(),
        abs(h) <= MAX_RAW_HEIGHT,
        0 <= i <= m.items.len(),
    ensures
        abs(m.packed_left(h, i)) <= 0x1_0000_0000_0000_0000_0000_0000,
{
    lemma_packed_left_bound(m, h, i);
    assert(i * m.spacing <= 0x1_0000_0000_0000) by (nonlinear_arith)
        requires 0 <= i <= 0x10_0000, 0 <= m.spacing <= 0x1_0000;
    assert(i * m.spacing >= 0) by (nonlinear_arith)
        requires 0 <= i, 0 <= m.spacing;
}

/// Extending a prefix by one item adds that item's ratio.
pub proof fn lemma_ratio_sum_take(s: Seq<LayoutItem>, i: int)
    requires
        0 <= i < s.len(),
    ensures
        ratio_sum(s.take(i + 1)) == ratio_sum(s.take(i)) + s[i].aspect_ratio,
{
    assert(s.take(i + 1).drop_last() =~= s.take(i));
}

/// A row height computed from an available width and a ratio sum is small.
pub proof fn lemma_fill_height_bound(wn: int, s: int)
    requires
        abs(wn) <= 0x20_0000_0000,
        s >= 1,
    ensures
        abs(round_div(wn * SCALE, s)) <= MAX_RAW_HEIGHT,
{
    let a = wn * SCALE;
    assert(abs(a) <= 0x200_0000_0000_0000) by (nonlinear_arith)
        requires a == wn * 1_000_000, abs(wn) <= 0x20_0000_0000;
    assert(abs(a) <= abs(a) * s) by (nonlinear_arith) requires s >= 1;
    lemma_round_div_bound(a, s, abs(a));
}

/// The width left after charging `n` spacings stays small.
pub proof fn lemma_width_less_spacing_bound(m: RowModel, n: int)
    requires
        m.wf(),
        -1 <= n <= MAX_ITEMS,
    ensures
        abs(m.width_less_spacing(n)) <= 0x20_0000_0000,
{
    assert(abs(n * m.spacing) <= 0x10_0000_0000) by (nonlinear_arith)
        requires -1 <= n <= 0x10_0000, 0 <= m.spacing <= 0x1_0000;
}

/// A finished row keeps its parameters and items' ratios, and its height lies
/// between half and twice the target height.
pub proof fn lemma_completed(m: RowModel, h: int, style: WidowLayoutStyle)
    requires
        m.wf(),
        m.items.len() >= 1,
    ensures
        ({
            let c = m.completed(h, style);
            &&& c.wf()
            &&& c.is_complete()
            &&& 2 * c.height >= m.target_row_height
            &&& c.height <= 2 * m.target_row_height
            &&& c.items.len() == m.items.len()
            &&& forall|i: int| 0 <= i < m.items.len() ==> (#[trigger] c.items[i]).aspect_ratio
                == m.items[i].aspect_ratio
            &&& forall|i: int| 0 <= i < m.items.len() ==> (#[trigger] c.items[i]).height == c.height
            &&& c.top == m.top && c.left == m.left && c.width == m.width
            &&& c.spacing == m.spacing && c.target_row_height == m.target_row_height
            &&& c.is_breakout_row == m.is_breakout_row
        }),
{
    let c = m.completed(h, style);
    assert forall|i: int| 0 <= i < c.items.len() implies 1 <= #[trigger] c.items[i].aspect_ratio <= MAX_RATIO by {
        assert(c.items[i].aspect_ratio == m.items[i].aspect_ratio);
    }
}

/// What offering an item to an open row can lead to.
pub proof fn lemma_after_add(m: RowModel, item: LayoutItem)
    requires
        m.wf(),
        !m.is_complete(),
        m.items.len() < MAX_ITEMS,
        1 <= item.aspect_ratio <= MAX_RATIO,
    ensures
        ({
            let (r, ok) = m.after_add(item);
            &&& r.wf()
            &&& r.is_complete() ==> r.height <= 2 * m.target_row_height && r.items.len() >= 1
            &&& r.is_complete() ==> 2 * r.height >= m.target_row_height
            &&& r.is_complete() ==> forall|i: int| 0 <= i < r.items.len() ==> (#[trigger] r.items[i]).height == r.height
            &&& !r.is_complete() ==> ok
            &&& ok ==> r.items.len() == m.items.len() + 1
            &&& ok ==> forall|i: int| 0 <= i < m.items.len() ==> (#[trigger] r.items[i]).aspect_ratio
                == m.items[i].aspect_ratio
            &&& ok ==> r.items[m.items.len() as int].aspect_ratio == item.aspect_ratio
            &&& !ok ==> r.is_complete() && r.items.len() == m.items.len() && m.items.len() > 0
            &&& !ok ==> forall|i: int| 0 <= i < m.items.len() ==> (#[trigger] r.items[i]).aspect_ratio
                == m.items[i].aspect_ratio
            &&& m.items.len() == 0 ==> ok
            &&& r.top == m.top && r.left == m.left && r.width == m.width
            &&& r.spacing == m.spacing && r.target_row_height == m.target_row_height
            &&& r.is_breakout_row == m.is_breakout_row
        }),
{
    let w = m.with_item(item);
    assert(w.wf());
    lemma_completed(w, round_div(m.width_less_spacing(m.items.len() as int) * SCALE, item.aspect_ratio as int), WidowLayoutStyle::Justify);
    lemma_completed(w, round_div(m.width_less_spacing(m.items.len() as int) * SCALE, ratio_sum(m.items) + item.aspect_ratio), WidowLayoutStyle::Justify);
    if m.items.len() > 0 {
        lemma_completed(m, round_div(m.width_less_spacing(m.items.len() - 1) * SCALE, ratio_sum(m.items)), WidowLayoutStyle::Justify);
    }
    assert(w.items[m.items.len() as int] == item);
    assert forall|i: int| 0 <= i < m.items.len() implies w.items[i] == m.items[i] by {}
}

impl Row {
    /// Sets the fill bounds from the row's width, target height and tolerance.
    pub fn init(&mut self)
        requires
            1 <= old(self).width <= MAX_PIXELS,
            0 <= old(self).target_row_height_tolerance <= MAX_RATIO,
        ensures
            final(self)@ == (RowModel {
                min_aspect_ratio: min_fill(old(self).width as int, old(self).target_row_height_tolerance as int),
                max_aspect_ratio: max_fill(old(self).width as int, old(self).target_row_height_tolerance as int),
                ..old(self)@
            }),
    {
        let k: i128 = SCALE as i128;
        proof {
            assert(self.width * (k - self.target_row_height_tolerance) >= -0x1_0000_0000_0000_0000_0000) by (nonlinear_arith)
                requires 1 <= self.width <= 65536, 0 <= self.target_row_height_tolerance <= 0x1_0000_0000, k == 1_000_000;
            assert(self.width * (k - self.target_row_height_tolerance) <= 0x1_0000_0000_0000_0000_0000) by (nonlinear_arith)
                requires 1 <= self.width <= 65536, 0 <= self.target_row_height_tolerance <= 0x1_0000_0000, k == 1_000_000;
            assert(self.width * (k + self.target_row_height_tolerance) <= 0x1_0000_0000_0000_0000_0000) by (nonlinear_arith)
                requires 1 <= self.width <= 65536, 0 <= self.target_row_height_tolerance <= 0x1_0000_0000, k == 1_000_000;
        }
        self.min_aspect_ratio = self.width * (k - self.target_row_height_tolerance);
        self.max_aspect_ratio = self.width * (k + self.target_row_height_tolerance);
    }

    /// Finishes the row at the requested height `new_height` (whole pixels):
    /// the row height is that request clamped to half and twice the target
    /// height, each item gets the row's top and height and the width its
    /// aspect ratio gives at the requested height, items are packed left to
    /// right with the row's spacing, and then placed by `layout_style`
    /// (justified when none is given).
    pub fn complete_layout(&mut self, new_height: i128, layout_style: Option<WidowLayoutStyle>)
        requires
            old(self)@.wf(),
            old(self)@.items.len() >= 1,
            abs(new_height as int) <= MAX_RAW_HEIGHT,
        ensures
            final(self)@ == old(self)@.completed(
                new_height as int,
                match layout_style {
                    Some(s) => s,
                    None => WidowLayoutStyle::Justify,
                },
            ),
    {
        let ghost m = self@;
        let ghost h = new_height as int;
        let style = match layout_style {
            Some(s) => s,
            None => WidowLayoutStyle::Justify,
        };
        let n: usize = self.items.len();
        let clamped: i128 = if new_height < self.edge_case_min_row_height {
            self.edge_case_min_row_height
        } else if new_height > self.edge_case_max_row_height {
            self.edge_case_max_row_height
        } else {
            new_height
        };
        self.height = clamped;
        let mut x: i128 = self.left;
        let mut i: usize = 0;
        while i < n
            invariant
                m.wf(),
                abs(h) <= MAX_RAW_HEIGHT,
                h == new_height,
                clamped == m.clamp(h),
                n == m.items.len(),
                0 <= i <= n,
                self@ == (RowModel { items: self.items@, height: m.clamp(h), ..m }),
                self.items@.len() == n,
                x == m.packed_left(h, i as int),
                forall|j: int| 0 <= j < i ==> self.items@[j] == m.placed(h, WidowLayoutStyle::Left, j),
                forall|j: int| i <= j < n ==> self.items@[j] == m.items[j],
            decreases n - i,
        {
            let mut it: LayoutItem = self.items[i];
            proof {
                assert(it == m.items[i as int]);
                assert(1 <= m.items[i as int].aspect_ratio <= MAX_RATIO);
                assert(width_sum(m.items, h, i + 1) == width_sum(m.items, h, i as int) + raw_width(m.items[i as int], h));
                assert((i + 1) * m.spacing == i * m.spacing + m.spacing) by (nonlinear_arith);
                lemma_raw_width_bound(it, h);
                lemma_packed_left_range(m, h, i as int);
                lemma_packed_left_range(m, h, i + 1);
                assert(abs(it.aspect_ratio * h) <= 0x1000_0000_0000_0000_0000_0000) by (nonlinear_arith)
                    requires 0 <= it.aspect_ratio <= 0x1_0000_0000,
                        -0x1000_0000_0000_0000 <= h <= 0x1000_0000_0000_0000;
            }
            let prod: i128 = it.aspect_ratio as i128 * new_height;
            let w: i128 = round_div_exec(prod, SCALE as i128);
            it.top = self.top;
            it.height = clamped;
            it.width = w;
            it.left = x;
            self.items.set(i, it);
            x = x + w + self.spacing;
            i = i + 1;
        }
        match style {
            WidowLayoutStyle::Left => {},
            WidowLayoutStyle::Justify => {
                proof {
                    lemma_packed_left_range(m, h, n as int);
                    assert((n - 1) * m.spacing == n * m.spacing - m.spacing) by (nonlinear_arith);
                }
                let err: i128 = x - self.spacing - self.left - self.width;
                let mut prev: i128 = 0;
                let mut i: usize = 0;
                while i < n
                    invariant
                        m.wf(),
                        abs(h) <= MAX_RAW_HEIGHT,
                        n == m.items.len(),
                        n >= 1,
                        0 <= i <= n,
                        self@ == (RowModel { items: self.items@, height: m.clamp(h), ..m }),
                        self.items@.len() == n,
                        err == m.justify_error(h),
                        abs(err as int) <= 0x2_0000_0000_0000_0000_0000_0000,
                        prev == m.correction(h, i - 1),
                        abs(prev as int) <= 0x100_0000_0000_0000_0000_0000_0000_0000,
                        forall|j: int| 0 <= j < i ==> self.items@[j] == m.placed(h, WidowLayoutStyle::Justify, j),
                        forall|j: int| i <= j < n ==> self.items@[j] == m.placed(h, WidowLayoutStyle::Left, j),
                    decreases n - i,
                {
                    let ghost t = (i + 1) * err;
                    proof {
                        assert(abs(t) <= 0x40_0000_0000_0000_0000_0000_0000_0000) by (nonlinear_arith)
                            requires t == (i + 1) * err, 0 <= i < 0x10_0000,
                                abs(err as int) <= 0x2_0000_0000_0000_0000_0000_0000;
                        assert(abs(t) <= abs(t) * n) by (nonlinear_arith) requires n >= 1;
                        lemma_round_div_bound(t, n as int, abs(t));
                        lemma_packed_left_range(m, h, i as int);
                        assert(1 <= m.items[i as int].aspect_ratio <= MAX_RATIO);
                        lemma_raw_width_bound(m.items[i as int], h);
                        assert(self.items@[i as int] == m.placed(h, WidowLayoutStyle::Left, i as int));
                    }
                    let c: i128 = round_div_exec((i as i128 + 1) * err, n as i128);
                    let mut it: LayoutItem = self.items[i];
                    it.left = it.left - prev;
                    it.width = it.width - (c - prev);
                    self.items.set(i, it);
                    prev = c;
                    i = i + 1;
                }
            },
            WidowLayoutStyle::Center => {
                proof {
                    lemma_packed_left_range(m, h, n as int);
                }
                let off: i128 = floor_half_exec(self.width - x) + self.spacing;
                let mut i: usize = 0;
                while i < n
                    invariant
                        m.wf(),
                        abs(h) <= MAX_RAW_HEIGHT,
                        n == m.items.len(),
                        0 <= i <= n,
                        self@ == (RowModel { items: self.items@, height: m.clamp(h), ..m }),
                        self.items@.len() == n,
                        off == m.center_offset(h),
                        abs(off as int) <= 0x1_0000_0000_0000_0000_0000_0000,
                        forall|j: int| 0 <= j < i ==> self.items@[j] == m.placed(h, WidowLayoutStyle::Center, j),
                        forall|j: int| i <= j < n ==> self.items@[j] == m.placed(h, WidowLayoutStyle::Left, j),
                    decreases n - i,
                {
                    proof {
                        lemma_packed_left_range(m, h, i as int);
                        assert(self.items@[i as int] == m.placed(h, WidowLayoutStyle::Left, i as int));
                    }
                    let mut it: LayoutItem = self.items[i];
                    it.left = it.left + off;
                    self.items.set(i, it);
                    i = i + 1;
                }
            },
        }
        proof {
            assert(self.items@ =~= m.completed(h, style).items);
        }
    }

    /// Sum of the aspect ratios of the row's items.
    fn ratio_total(&self) -> (r: i128)
        requires
            self@.wf(),
        ensures
            r == ratio_sum(self@.items),
    {
        let mut total: i128 = 0;
        let mut i: usize = 0;
        while i < self.items.len()
            invariant
                self@.wf(),
                0 <= i <= self.items@.len(),
                total == ratio_sum(self.items@.take(i as int)),
                0 <= total <= i * MAX_RATIO,
            decreases self.items@.len() - i,
        {
            proof {
                lemma_ratio_sum_take(self.items@, i as int);
                assert(self.items@[i as int].aspect_ratio <= MAX_RATIO);
            }
            total = total + self.items[i].aspect_ratio as i128;
            i = i + 1;
        }
        proof {
            assert(self.items@.take(self.items@.len() as int) =~= self.items@);
        }
        total
    }

    /// Offers `item` to this open row. Returns whether the item was taken.
    /// A row that would be too wide with the item is finished without it when
    /// that is closer to the ideal fill, and the item is refused; otherwise
    /// the item is taken and the row is finished once its ratio sum reaches the
    /// lower fill bound. An empty breakout row takes a landscape item alone.
    pub fn add(&mut self, item: LayoutItem) -> (r: bool)
        requires
            old(self)@.wf(),
            !old(self)@.is_complete(),
            old(self)@.items.len() < MAX_ITEMS,
            1 <= item.aspect_ratio <= MAX_RATIO,
        ensures
            (final(self)@, r) == old(self)@.after_add(item),
    {
        let ghost m = self@;
        let n: usize = self.items.len();
        let prev_s: i128 = self.ratio_total();
        proof {
            lemma_ratio_sum_bounds(m.items);
            assert(n * MAX_RATIO <= 0x10_0000 * 0x1_0000_0000) by (nonlinear_arith)
                requires n <= 0x10_0000, MAX_RATIO == 0x1_0000_0000;
            lemma_width_less_spacing_bound(m, n as int);
            lemma_width_less_spacing_bound(m, n - 1);
            assert(m.with_item(item).wf());
        }
        let s: i128 = prev_s + item.aspect_ratio as i128;
        let wn: i128 = self.width - n as i128 * self.spacing;
        let k: i128 = SCALE as i128;
        if self.is_breakout_row && n == 0 && item.aspect_ratio >= SCALE {
            proof {
                lemma_fill_height_bound(wn as int, item.aspect_ratio as int);
            }
            self.items.push(item);
            let h: i128 = round_div_exec(wn * k, item.aspect_ratio as i128);
            self.complete_layout(h, Some(WidowLayoutStyle::Justify));
            return true;
        }
        proof {
            assert(s * self.target_row_height <= 0x100_0000_0000_0000_0000) by (nonlinear_arith)
                requires 0 <= s <= 0x20_0000_0000_0000, 1 <= self.target_row_height <= 0x1_0000;
            assert(s * self.target_row_height >= 0) by (nonlinear_arith)
                requires 0 <= s, 1 <= self.target_row_height;
            assert(prev_s * self.target_row_height <= 0x100_0000_0000_0000_0000) by (nonlinear_arith)
                requires 0 <= prev_s <= 0x20_0000_0000_0000, 1 <= self.target_row_height <= 0x1_0000;
            assert(prev_s * self.target_row_height >= 0) by (nonlinear_arith)
                requires 0 <= prev_s, 1 <= self.target_row_height;
        }
        if s * self.target_row_height < self.min_aspect_ratio {
            self.items.push(item);
            return true;
        }
        if s * self.target_row_height > self.max_aspect_ratio && n > 0 {
            let prev_wn: i128 = self.width - (n as i128 - 1) * self.spacing;
            let dev_new: i128 = abs_exec(s * self.target_row_height - wn * k);
            let dev_prev: i128 = abs_exec(prev_s * self.target_row_height - prev_wn * k);
            if dev_new > dev_prev {
                proof {
                    lemma_fill_height_bound(prev_wn as int, prev_s as int);
                }
                let h: i128 = round_div_exec(prev_wn * k, prev_s);
                self.complete_layout(h, Some(WidowLayoutStyle::Justify));
                return false;
            }
        }
        proof {
            lemma_fill_height_bound(wn as int, s as int);
        }
        self.items.push(item);
        let h: i128 = round_div_exec(wn * k, s);
        self.complete_layout(h, Some(WidowLayoutStyle::Justify));
        true
    }

    /// Finishes a widow row: at `row_height` when given, left-aligned; else,
    /// when `fit_to_width`, at the height at which its items fill the width,
    /// justified; else at the target height, left-aligned.
    pub fn force_complete(&mut self, fit_to_width: bool, row_height: Option<i128>)
        requires
            old(self)@.wf(),
            old(self)@.items.len() >= 1,
            row_height matches Some(h) ==> abs(h as int) <= MAX_RAW_HEIGHT,
        ensures
            final(self)@ == old(self)@.force_completed(fit_to_width, row_height),
    {
        let ghost m = self@;
        let n: usize = self.items.len();
        proof {
            lemma_width_less_spacing_bound(m, n - 1);
            lemma_ratio_sum_bounds(m.items);
        }
        let wn: i128 = self.width - (n as i128 - 1) * self.spacing;
        let current: i128 = self.ratio_total();
        match row_height {
            Some(h) => self.complete_layout(h, Some(WidowLayoutStyle::Left)),
            None => if fit_to_width {
                proof {
                    lemma_fill_height_bound(wn as int, current as int);
                }
                let h: i128 = round_div_exec(wn * SCALE as i128, current);
                self.complete_layout(h, None);
            } else {
                let t: i128 = self.target_row_height;
                self.complete_layout(t, Some(WidowLayoutStyle::Left));
            },
        }
    }

    /// Whether the row has been finished.
    pub fn is_layout_complete(&self) -> (r: bool)
        ensures
            r == self@.is_complete(),
    {
        self.height > 0
    }
}

} // verus!
