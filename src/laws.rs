use vstd::prelude::*;
use crate::arith::{SCALE, MAX_RATIO, MAX_ITEMS, MAX_RAW_HEIGHT, round_div, abs, lemma_round_div_bound, lemma_round_div_exact};
use crate::config::{Config, WidowLayoutStyle};
use crate::item::LayoutItem;
use crate::row::{RowModel, width_sum, ratio_sum, lemma_ratio_sum_bounds, lemma_width_less_spacing_bound, lemma_packed_left_bound, lemma_raw_width_bound, lemma_completed, lemma_after_add, lemma_fill_height_bound};
use crate::layout::{final_layout, LayoutModel, RunState, run, step, after_commit, finish, layout_of, prepared, prepared_all, first_invalid, ratios, run_inv, open_len, widow_reference, is_breakout_position, lemma_step, lemma_next_row, lemma_with_row};

verus! {

/// Sum of the widths of a sequence of items.
pub open spec fn total_width(s: Seq<LayoutItem>) -> int
    decreases s.len(),
{
    if s.len() == 0 {
        0
    } else {
        total_width(s.drop_last()) + s.last().width
    }
}

/// Each share of a justified row's overshoot stays well inside 128-bit range.
proof fn lemma_correction_bound(m: RowModel, h: int, i: int)
    requires
        m.wf(),
        m.items.len() >= 1,
        abs(h) <= MAX_RAW_HEIGHT,
        -1 <= i < m.items.len(),
    ensures
        abs(m.correction(h, i)) <= 0x100_0000_0000_0000_0000_0000_0000_0000,
{
    if i >= 0 {
        let n = m.items.len() as int;
        lemma_packed_left_bound(m, h, n);
        assert((n - 1) * m.spacing <= 0x1_0000_0000_0000) by (nonlinear_arith)
            requires 0 <= n - 1 <= 0x10_0000, 0 <= m.spacing <= 0x1_0000;
        assert((n - 1) * m.spacing >= 0) by (nonlinear_arith)
            requires 0 <= n - 1, 0 <= m.spacing;
        let err = m.justify_error(h);
        let t = (i + 1) * err;
        assert(abs(t) <= 0x40_0000_0000_0000_0000_0000_0000_0000) by (nonlinear_arith)
            requires t == (i + 1) * err, 0 <= i < 0x10_0000,
                abs(err) <= 0x2_0000_0000_0000_0000_0000_0000;
        assert(abs(t) <= abs(t) * n) by (nonlinear_arith) requires n >= 1;
        lemma_round_div_bound(t, n, abs(t));
    }
}

/// The widths of the first `k` items of a justified row add up to their raw
/// widths less the first `k` shares of the overshoot.
proof fn lemma_justified_prefix(m: RowModel, h: int, k: int)
    requires
        m.wf(),
        m.items.len() >= 1,
        abs(h) <= MAX_RAW_HEIGHT,
        0 <= k <= m.items.len(),
    ensures
        total_width(m.completed(h, WidowLayoutStyle::Justify).items.take(k))
            == width_sum(m.items, h, k) - m.correction(h, k - 1),
    decreases k,
{
    let c = m.completed(h, WidowLayoutStyle::Justify);
    if k > 0 {
        lemma_justified_prefix(m, h, k - 1);
        assert(c.items.take(k).drop_last() =~= c.items.take(k - 1));
        lemma_correction_bound(m, h, k - 1);
        lemma_correction_bound(m, h, k - 2);
        lemma_raw_width_bound(m.items[k - 1], h);
        assert(c.items[k - 1].width == m.placed_width(h, WidowLayoutStyle::Justify, k - 1));
    }
}

/// A justified row spans its width exactly: the item widths plus the gaps
/// between them add up to the row width.
pub proof fn lemma_justified_row_spans_width(m: RowModel, h: int)
    requires
        m.wf(),
        m.items.len() >= 1,
        abs(h) <= MAX_RAW_HEIGHT,
    ensures
        total_width(m.completed(h, WidowLayoutStyle::Justify).items) + (m.items.len() - 1) * m.spacing
            == m.width,
{
    let n = m.items.len() as int;
    let c = m.completed(h, WidowLayoutStyle::Justify);
    lemma_justified_prefix(m, h, n);
    assert(c.items.take(n) =~= c.items);
    let err = m.justify_error(h);
    assert(n * err == err * n) by (nonlinear_arith);
    lemma_round_div_exact(err, n);
}

/// A row opened at the next cadence position takes a landscape item alone,
/// finishes at once, and the item spans the whole available width.
pub proof fn lemma_breakout_row(l: LayoutModel, item: LayoutItem)
    requires
        l.bounded(),
        is_breakout_position(l.config, l.rows.len() + 1 as int),
        SCALE <= item.aspect_ratio <= MAX_RATIO,
    ensures
        ({
            let (r, ok) = l.next_row().after_add(item);
            &&& ok
            &&& r.is_complete()
            &&& r.is_breakout_row
            &&& r.items.len() == 1
            &&& r.items[0].width == l.config.available_width()
            &&& r.items[0].left == l.config.container_padding.left
        }),
{
    lemma_next_row(l);
    let m = l.next_row();
    let w = m.with_item(item);
    assert(w.wf());
    let h = round_div(m.width_less_spacing(0) * SCALE, item.aspect_ratio as int);
    lemma_fill_height_bound(m.width_less_spacing(0), item.aspect_ratio as int);
    lemma_justified_row_spans_width(w, h);
    lemma_completed(w, h, WidowLayoutStyle::Justify);
    let c = w.completed(h, WidowLayoutStyle::Justify);
    assert(c.items.drop_last() =~= Seq::<LayoutItem>::empty());
    lemma_correction_bound(w, h, -1);
    assert(width_sum(w.items, h, 0) == 0);
}

/// A layout depends on the configuration and the items alone, not on what an
/// earlier computation left in the configuration: computing twice gives the
/// same result.
pub proof fn lemma_layout_repeatable(config: Config, widow_count: usize, items: Seq<LayoutItem>)
    ensures
        layout_of(config, items) == layout_of(Config { widow_count, ..config }, items),
{
    let other = Config { widow_count, ..config };
    assert(prepared_all(config, items) =~= prepared_all(other, items));
    assert(LayoutModel::fresh(config) == LayoutModel::fresh(other));
}

/// The widow row is finished at the height of the row before it (its target
/// height if that was a breakout row, the target height if there is none),
/// and the widow count is its number of items.
pub proof fn lemma_widow_row(st: RunState, k: int)
    requires
        run_inv(st, k),
        st.current matches Some(row) && row.items.len() > 0,
        st.layout.config.show_widows,
    ensures
        ({
            let row = st.current.unwrap();
            let l = finish(st);
            &&& l.config.widow_count == row.items.len()
            &&& l.rows.last().items.len() == row.items.len()
            &&& l.rows.last().height == match widow_reference(st.layout) {
                Some(h) => h as int,
                None => st.layout.config.target_row_height as int,
            }
        }),
{
    let row = st.current.unwrap();
    let l = st.layout;
    if l.rows.len() > 0 {
        let last = l.rows.last();
        assert(last == l.rows[l.rows.len() - 1]);
    }
}

/// Every reachable state of a computation meets the state invariant.
proof fn lemma_run_inv(start: RunState, items: Seq<LayoutItem>, k: int)
    requires
        run_inv(start, 0),
        items.len() <= MAX_ITEMS,
        forall|i: int| 0 <= i < items.len() ==> 1 <= #[trigger] items[i].aspect_ratio <= MAX_RATIO,
        0 <= k <= items.len(),
    ensures
        run_inv(run(start, items.take(k)), k),
        run(start, items.take(k)).layout.config == start.layout.config,
    decreases k,
{
    if k == 0 {
        assert(items.take(0) =~= Seq::<LayoutItem>::empty());
    } else {
        lemma_run_inv(start, items, k - 1);
        assert(items.take(k).drop_last() =~= items.take(k - 1));
        lemma_step(run(start, items.take(k - 1)), items[k - 1], k - 1);
    }
}

/// The finished driver of a computation is bounded and its rows are stacked.
proof fn lemma_final_layout(config: Config, items: Seq<LayoutItem>)
    requires
        config.within_bounds(),
        config.is_usable(),
        items.len() <= MAX_ITEMS,
        forall|i: int| 0 <= i < items.len() ==> (#[trigger] items[i]).aspect_ratio <= MAX_RATIO,
        first_invalid(config, items) is None,
    ensures
        final_layout(config, items).bounded(),
        final_layout(config, items).stacked(),
        final_layout(config, items).config.target_row_height == config.target_row_height,
        final_layout(config, items).config.box_spacing == config.box_spacing,
        final_layout(config, items).config.container_padding == config.container_padding,
{
    let ready = prepared_all(config, items);
    let start = RunState { layout: LayoutModel::fresh(config), current: None, stopped: false };
    assert forall|i: int| 0 <= i < ready.len() implies 1 <= #[trigger] ready[i].aspect_ratio <= MAX_RATIO by {
        assert(ready[i] == prepared(config, items[i]));
        if prepared(config, items[i]).aspect_ratio == 0 {
            assert(exists|j: int| 0 <= j < items.len() && prepared(config, #[trigger] items[j]).aspect_ratio == 0);
        }
    }
    assert(run_inv(start, 0));
    lemma_run_inv(start, ready, ready.len() as int);
    assert(ready.take(ready.len() as int) =~= ready);
    let st = run(start, ready);
    let l = st.layout;
    match st.current {
        Some(row) => {
            if row.items.len() > 0 && l.config.show_widows {
                let h = match widow_reference(l) {
                    Some(h) => h as int,
                    None => row.target_row_height,
                };
                if l.rows.len() > 0 {
                    assert(l.rows.last() == l.rows[l.rows.len() - 1]);
                }
                lemma_completed(row, h, WidowLayoutStyle::Left);
                let l1 = LayoutModel {
                    config: Config { widow_count: row.items.len() as usize, ..l.config },
                    ..l
                };
                lemma_with_row(l1, row.force_completed(false, widow_reference(l)));
            }
        },
        None => {},
    }
}

/// Every laid-out box has a height between half and twice the target row
/// height, widow rows included.
pub proof fn lemma_boxes_within_height_limits(config: Config, items: Seq<LayoutItem>)
    requires
        config.within_bounds(),
        config.is_usable(),
        items.len() <= MAX_ITEMS,
        forall|i: int| 0 <= i < items.len() ==> (#[trigger] items[i]).aspect_ratio <= MAX_RATIO,
        first_invalid(config, items) is None,
    ensures
        forall|i: int| 0 <= i < layout_of(config, items).boxes.len() ==> {
            &&& 2 * (#[trigger] layout_of(config, items).boxes[i]).height >= config.target_row_height
            &&& layout_of(config, items).boxes[i].height <= 2 * config.target_row_height
        },
{
    lemma_final_layout(config, items);
}

/// Each committed row starts one vertical gap below the previous one, the
/// first at the top padding, and every row's height lies between half and
/// twice the target row height.
pub proof fn lemma_rows_stack(config: Config, items: Seq<LayoutItem>)
    requires
        config.within_bounds(),
        config.is_usable(),
        items.len() <= MAX_ITEMS,
        forall|i: int| 0 <= i < items.len() ==> (#[trigger] items[i]).aspect_ratio <= MAX_RATIO,
        first_invalid(config, items) is None,
    ensures
        ({
            let rows = final_layout(config, items).rows;
            let gap = config.box_spacing.vertical as int;
            &&& rows.len() > 0 ==> rows[0].top == config.container_padding.top
            &&& forall|i: int| 0 <= i < rows.len() - 1 ==> (#[trigger] rows[i + 1]).top
                == rows[i].top + rows[i].height + gap
            &&& forall|i: int| 0 <= i < rows.len() ==> 2 * (#[trigger] rows[i]).height
                >= config.target_row_height && rows[i].height <= 2 * config.target_row_height
        }),
{
    lemma_final_layout(config, items);
}

/// A row spans the available width: its item widths plus the gaps between
/// them add up to it.
pub open spec fn spans_width(r: RowModel, config: Config) -> bool {
    &&& r.width == config.available_width()
    &&& r.spacing == config.box_spacing.horizontal
    &&& total_width(r.items) + (r.items.len() - 1) * r.spacing == r.width
}

/// Every committed row spans the width, and the open row has the width and
/// spacing that the configuration gives.
pub open spec fn rows_span(st: RunState) -> bool {
    let c = st.layout.config;
    &&& forall|i: int| 0 <= i < st.layout.rows.len() ==> spans_width(#[trigger] st.layout.rows[i], c)
    &&& st.current matches Some(r) ==> r.width == c.available_width() && r.spacing
        == c.box_spacing.horizontal
}

/// A row that an offered item finishes is justified and spans its width.
proof fn lemma_after_add_spans(m: RowModel, item: LayoutItem)
    requires
        m.wf(),
        !m.is_complete(),
        m.items.len() < MAX_ITEMS,
        1 <= item.aspect_ratio <= MAX_RATIO,
    ensures
        m.after_add(item).0.is_complete() ==> total_width(m.after_add(item).0.items) + (
        m.after_add(item).0.items.len() - 1) * m.spacing == m.width,
{
    let n = m.items.len() as int;
    let w = m.with_item(item);
    assert(w.wf());
    lemma_width_less_spacing_bound(m, n);
    lemma_width_less_spacing_bound(m, n - 1);
    lemma_ratio_sum_bounds(m.items);
    let wn = m.width_less_spacing(n);
    let s = ratio_sum(m.items) + item.aspect_ratio;
    lemma_fill_height_bound(wn, item.aspect_ratio as int);
    lemma_justified_row_spans_width(w, round_div(wn * SCALE, item.aspect_ratio as int));
    lemma_fill_height_bound(wn, s);
    lemma_justified_row_spans_width(w, round_div(wn * SCALE, s));
    if n > 0 {
        let h = round_div(m.width_less_spacing(n - 1) * SCALE, ratio_sum(m.items));
        lemma_fill_height_bound(m.width_less_spacing(n - 1), ratio_sum(m.items));
        lemma_justified_row_spans_width(m, h);
    }
}

proof fn lemma_commit_spans(l: LayoutModel, r: RowModel)
    requires
        forall|i: int| 0 <= i < l.rows.len() ==> spans_width(#[trigger] l.rows[i], l.config),
        spans_width(r, l.config),
    ensures
        forall|i: int| 0 <= i < l.with_row(r).rows.len() ==> spans_width(
            #[trigger] l.with_row(r).rows[i],
            l.with_row(r).config,
        ),
{
    assert forall|i: int| 0 <= i < l.with_row(r).rows.len() implies spans_width(
        #[trigger] l.with_row(r).rows[i], l.with_row(r).config) by {
        if i < l.rows.len() {
            assert(l.with_row(r).rows[i] == l.rows[i]);
        }
    }
}

/// One step commits only rows that span the width.
proof fn lemma_step_spans(st: RunState, item: LayoutItem, k: int)
    requires
        run_inv(st, k),
        rows_span(st),
        k < MAX_ITEMS,
        1 <= item.aspect_ratio <= MAX_RATIO,
    ensures
        rows_span(step(st, item)),
{
    if !st.stopped {
        let l = st.layout;
        lemma_next_row(l);
        let row = match st.current {
            Some(r) => r,
            None => l.next_row(),
        };
        lemma_after_add(row, item);
        lemma_after_add_spans(row, item);
        let (r1, ok) = row.after_add(item);
        if r1.is_complete() {
            lemma_with_row(l, r1);
            lemma_commit_spans(l, r1);
            let st1 = after_commit(l, r1);
            lemma_next_row(st1.layout);
            if !st1.stopped && !ok {
                let m2 = st1.layout.next_row();
                lemma_after_add(m2, item);
                lemma_after_add_spans(m2, item);
                let (r2, _ok2) = m2.after_add(item);
                if r2.is_complete() {
                    lemma_with_row(st1.layout, r2);
                    lemma_commit_spans(st1.layout, r2);
                    lemma_next_row(after_commit(st1.layout, r2).layout);
                }
            }
        }
    }
}

proof fn lemma_run_spans(start: RunState, items: Seq<LayoutItem>, k: int)
    requires
        run_inv(start, 0),
        rows_span(start),
        items.len() <= MAX_ITEMS,
        forall|i: int| 0 <= i < items.len() ==> 1 <= #[trigger] items[i].aspect_ratio <= MAX_RATIO,
        0 <= k <= items.len(),
    ensures
        rows_span(run(start, items.take(k))),
    decreases k,
{
    if k == 0 {
        assert(items.take(0) =~= Seq::<LayoutItem>::empty());
    } else {
        lemma_run_spans(start, items, k - 1);
        lemma_run_inv(start, items, k - 1);
        assert(items.take(k).drop_last() =~= items.take(k - 1));
        lemma_step_spans(run(start, items.take(k - 1)), items[k - 1], k - 1);
    }
}

/// Every committed row but the widow row is justified: its item widths plus
/// the gaps between them add up exactly to the container width less the side
/// paddings. (A widow row was committed exactly when the widow count is
/// positive, and it is the last row.)
pub proof fn lemma_justified_rows_span_width(config: Config, items: Seq<LayoutItem>)
    requires
        config.within_bounds(),
        config.is_usable(),
        items.len() <= MAX_ITEMS,
        forall|i: int| 0 <= i < items.len() ==> (#[trigger] items[i]).aspect_ratio <= MAX_RATIO,
        first_invalid(config, items) is None,
    ensures
        ({
            let l = final_layout(config, items);
            forall|k: int| 0 <= k < l.rows.len() && (k < l.rows.len() - 1 || l.config.widow_count == 0)
                ==> total_width((#[trigger] l.rows[k]).items) + (l.rows[k].items.len() - 1)
                * config.box_spacing.horizontal == config.available_width()
        }),
{
    let ready = prepared_all(config, items);
    let start = RunState { layout: LayoutModel::fresh(config), current: None, stopped: false };
    assert forall|i: int| 0 <= i < ready.len() implies 1 <= #[trigger] ready[i].aspect_ratio <= MAX_RATIO by {
        assert(ready[i] == prepared(config, items[i]));
        if prepared(config, items[i]).aspect_ratio == 0 {
            assert(exists|j: int| 0 <= j < items.len() && prepared(config, #[trigger] items[j]).aspect_ratio == 0);
        }
    }
    assert(run_inv(start, 0));
    lemma_run_spans(start, ready, ready.len() as int);
    lemma_run_inv(start, ready, ready.len() as int);
    assert(ready.take(ready.len() as int) =~= ready);
    let st = run(start, ready);
    let l = final_layout(config, items);
    assert forall|k: int| 0 <= k < l.rows.len() && (k < l.rows.len() - 1 || l.config.widow_count == 0)
        implies total_width((#[trigger] l.rows[k]).items) + (l.rows[k].items.len() - 1)
        * config.box_spacing.horizontal == config.available_width() by {
        if k < st.layout.rows.len() {
            assert(l.rows[k] == st.layout.rows[k]);
            assert(spans_width(st.layout.rows[k], st.layout.config));
        }
    }
}

/// In the finished layout, a widow row is there exactly when the widow count
/// is positive; it is the last row, holds that many items, and has the height
/// of the row before it (that row's target height if it was a breakout row),
/// or the target height when it is the only row.
pub proof fn lemma_widow_row_in_layout(config: Config, items: Seq<LayoutItem>)
    requires
        config.within_bounds(),
        config.is_usable(),
        items.len() <= MAX_ITEMS,
        forall|i: int| 0 <= i < items.len() ==> (#[trigger] items[i]).aspect_ratio <= MAX_RATIO,
        first_invalid(config, items) is None,
    ensures
        ({
            let l = final_layout(config, items);
            let n = l.rows.len();
            l.config.widow_count > 0 ==> {
                &&& config.show_widows
                &&& n >= 1
                &&& l.rows[n - 1].items.len() == l.config.widow_count
                &&& l.rows[n - 1].height == if n >= 2 {
                    if l.rows[n - 2].is_breakout_row {
                        l.rows[n - 2].target_row_height
                    } else {
                        l.rows[n - 2].height
                    }
                } else {
                    config.target_row_height as int
                }
            }
        }),
{
    let ready = prepared_all(config, items);
    let start = RunState { layout: LayoutModel::fresh(config), current: None, stopped: false };
    assert forall|i: int| 0 <= i < ready.len() implies 1 <= #[trigger] ready[i].aspect_ratio <= MAX_RATIO by {
        assert(ready[i] == prepared(config, items[i]));
        if prepared(config, items[i]).aspect_ratio == 0 {
            assert(exists|j: int| 0 <= j < items.len() && prepared(config, #[trigger] items[j]).aspect_ratio == 0);
        }
    }
    assert(run_inv(start, 0));
    lemma_run_inv(start, ready, ready.len() as int);
    assert(ready.take(ready.len() as int) =~= ready);
    let st = run(start, ready);
    let l = final_layout(config, items);
    if l.config.widow_count > 0 {
        assert(st.current is Some);
        let row = st.current.unwrap();
        assert(row.items.len() > 0 && st.layout.config.show_widows);
        lemma_widow_row(st, ready.len() as int);
        let n = l.rows.len();
        assert(l.rows.last() == l.rows[n - 1]);
        if n >= 2 {
            assert(st.layout.rows.last() == st.layout.rows[n - 2]);
            assert(l.rows[n - 2] == st.layout.rows[n - 2]);
            let last = st.layout.rows.last();
            assert(last.wf());
        }
    }
}

/// A committed row is a breakout row exactly at the cadence's positions, and
/// a breakout row started by a landscape item holds that item alone, spanning
/// the available width from the left padding.
pub open spec fn breakout_ok(r: RowModel, position: int, config: Config) -> bool {
    &&& r.is_breakout_row == is_breakout_position(config, position)
    &&& r.is_breakout_row && r.items.len() > 0 && r.items[0].aspect_ratio >= SCALE ==> {
        &&& r.items.len() == 1
        &&& r.items[0].width == config.available_width()
        &&& r.items[0].left == config.container_padding.left
    }
}

pub open spec fn breakouts_ok(st: RunState) -> bool {
    let c = st.layout.config;
    &&& forall|k: int| 0 <= k < st.layout.rows.len() ==> breakout_ok(#[trigger] st.layout.rows[k], k + 1, c)
    &&& st.current matches Some(r) ==> {
        &&& r.is_breakout_row == is_breakout_position(c, st.layout.rows.len() + 1 as int)
        &&& r.left == c.container_padding.left
        &&& r.width == c.available_width()
        &&& r.is_breakout_row && r.items.len() > 0 ==> r.items[0].aspect_ratio < SCALE
    }
}

/// Offering an item to a breakout row whose first item (if any) is not
/// landscape: the row's first item afterwards is not landscape, or the item
/// was landscape and the row was empty, and the item now fills the row alone.
proof fn lemma_breakout_add(m: RowModel, item: LayoutItem)
    requires
        m.wf(),
        !m.is_complete(),
        m.items.len() < MAX_ITEMS,
        1 <= item.aspect_ratio <= MAX_RATIO,
        m.is_breakout_row,
        m.items.len() > 0 ==> m.items[0].aspect_ratio < SCALE,
    ensures
        ({
            let r = m.after_add(item).0;
            r.items.len() > 0 ==> {
                ||| r.items[0].aspect_ratio < SCALE
                ||| (r.is_complete() && r.items.len() == 1 && r.items[0].width == m.width
                    && r.items[0].left == m.left)
            }
        }),
{
    lemma_after_add(m, item);
    let n = m.items.len() as int;
    let (r, ok) = m.after_add(item);
    if n == 0 && item.aspect_ratio >= SCALE {
        let w = m.with_item(item);
        assert(w.wf());
        lemma_width_less_spacing_bound(m, 0);
        let h = round_div(m.width_less_spacing(0) * SCALE, item.aspect_ratio as int);
        lemma_fill_height_bound(m.width_less_spacing(0), item.aspect_ratio as int);
        lemma_justified_row_spans_width(w, h);
        let c = w.completed(h, WidowLayoutStyle::Justify);
        assert(c.items.drop_last() =~= Seq::<LayoutItem>::empty());
        lemma_correction_bound(w, h, -1);
        assert(width_sum(w.items, h, 0) == 0);
    } else if n == 0 {
        if r.items.len() > 0 {
            assert(ok);
            assert(r.items[0].aspect_ratio == item.aspect_ratio);
        }
    } else {
        assert(r.items[0].aspect_ratio == m.items[0].aspect_ratio);
    }
}

proof fn lemma_commit_breakouts(l: LayoutModel, r: RowModel)
    requires
        forall|k: int| 0 <= k < l.rows.len() ==> breakout_ok(#[trigger] l.rows[k], k + 1, l.config),
        breakout_ok(r, l.rows.len() + 1 as int, l.config),
    ensures
        forall|k: int| 0 <= k < l.with_row(r).rows.len() ==> breakout_ok(
            #[trigger] l.with_row(r).rows[k],
            k + 1,
            l.with_row(r).config,
        ),
{
    assert forall|k: int| 0 <= k < l.with_row(r).rows.len() implies breakout_ok(
        #[trigger] l.with_row(r).rows[k], k + 1, l.with_row(r).config) by {
        if k < l.rows.len() {
            assert(l.with_row(r).rows[k] == l.rows[k]);
        }
    }
}

/// Offering an item to the open (or a new) row keeps the breakout facts.
proof fn lemma_add_breakouts(l: LayoutModel, row: RowModel, item: LayoutItem)
    requires
        l.bounded(),
        row.wf(),
        !row.is_complete(),
        row.items.len() < MAX_ITEMS,
        1 <= item.aspect_ratio <= MAX_RATIO,
        row.is_breakout_row == is_breakout_position(l.config, l.rows.len() + 1 as int),
        row.left == l.config.container_padding.left,
        row.width == l.config.available_width(),
        row.is_breakout_row && row.items.len() > 0 ==> row.items[0].aspect_ratio < SCALE,
    ensures
        ({
            let r = row.after_add(item).0;
            &&& r.is_complete() ==> breakout_ok(r, l.rows.len() + 1 as int, l.config)
            &&& !r.is_complete() ==> r.is_breakout_row && r.items.len() > 0 ==> r.items[0].aspect_ratio
                < SCALE
        }),
{
    lemma_after_add(row, item);
    if row.is_breakout_row {
        lemma_breakout_add(row, item);
    }
}

/// One step keeps the breakout facts.
proof fn lemma_step_breakouts(st: RunState, item: LayoutItem, k: int)
    requires
        run_inv(st, k),
        breakouts_ok(st),
        k < MAX_ITEMS,
        1 <= item.aspect_ratio <= MAX_RATIO,
    ensures
        breakouts_ok(step(st, item)),
{
    if !st.stopped {
        let l = st.layout;
        lemma_next_row(l);
        let row = match st.current {
            Some(r) => r,
            None => l.next_row(),
        };
        lemma_after_add(row, item);
        lemma_add_breakouts(l, row, item);
        let (r1, ok) = row.after_add(item);
        if r1.is_complete() {
            lemma_with_row(l, r1);
            lemma_commit_breakouts(l, r1);
            let st1 = after_commit(l, r1);
            lemma_next_row(st1.layout);
            if !st1.stopped && !ok {
                let m2 = st1.layout.next_row();
                lemma_after_add(m2, item);
                lemma_add_breakouts(st1.layout, m2, item);
                let (r2, _ok2) = m2.after_add(item);
                if r2.is_complete() {
                    lemma_with_row(st1.layout, r2);
                    lemma_commit_breakouts(st1.layout, r2);
                    lemma_next_row(after_commit(st1.layout, r2).layout);
                }
            }
        }
    }
}

proof fn lemma_run_breakouts(start: RunState, items: Seq<LayoutItem>, k: int)
    requires
        run_inv(start, 0),
        breakouts_ok(start),
        items.len() <= MAX_ITEMS,
        forall|i: int| 0 <= i < items.len() ==> 1 <= #[trigger] items[i].aspect_ratio <= MAX_RATIO,
        0 <= k <= items.len(),
    ensures
        breakouts_ok(run(start, items.take(k))),
    decreases k,
{
    if k == 0 {
        assert(items.take(0) =~= Seq::<LayoutItem>::empty());
    } else {
        lemma_run_breakouts(start, items, k - 1);
        lemma_run_inv(start, items, k - 1);
        assert(items.take(k).drop_last() =~= items.take(k - 1));
        lemma_step_breakouts(run(start, items.take(k - 1)), items[k - 1], k - 1);
    }
}

/// In the finished layout, the rows at the cadence's positions (and only
/// those) are breakout rows, and each breakout row that a landscape item
/// starts holds that item alone, spanning the available width.
pub proof fn lemma_breakout_rows_in_layout(config: Config, items: Seq<LayoutItem>)
    requires
        config.within_bounds(),
        config.is_usable(),
        items.len() <= MAX_ITEMS,
        forall|i: int| 0 <= i < items.len() ==> (#[trigger] items[i]).aspect_ratio <= MAX_RATIO,
        first_invalid(config, items) is None,
    ensures
        ({
            let l = final_layout(config, items);
            forall|k: int| 0 <= k < l.rows.len() ==> breakout_ok(#[trigger] l.rows[k], k + 1, config)
        }),
{
    let ready = prepared_all(config, items);
    let start = RunState { layout: LayoutModel::fresh(config), current: None, stopped: false };
    assert forall|i: int| 0 <= i < ready.len() implies 1 <= #[trigger] ready[i].aspect_ratio <= MAX_RATIO by {
        assert(ready[i] == prepared(config, items[i]));
        if prepared(config, items[i]).aspect_ratio == 0 {
            assert(exists|j: int| 0 <= j < items.len() && prepared(config, #[trigger] items[j]).aspect_ratio == 0);
        }
    }
    assert(run_inv(start, 0));
    lemma_run_breakouts(start, ready, ready.len() as int);
    lemma_run_inv(start, ready, ready.len() as int);
    assert(ready.take(ready.len() as int) =~= ready);
    let st = run(start, ready);
    let l = final_layout(config, items);
    assert forall|k: int| 0 <= k < l.rows.len() implies breakout_ok(#[trigger] l.rows[k], k + 1, config) by {
        if k < st.layout.rows.len() {
            assert(l.rows[k] == st.layout.rows[k]);
            assert(breakout_ok(st.layout.rows[k], k + 1, st.layout.config));
        } else {
            let row = st.current.unwrap();
            let h = match widow_reference(st.layout) {
                Some(h) => h as int,
                None => row.target_row_height,
            };
            lemma_completed(row, h, WidowLayoutStyle::Left);
            assert(l.rows[k] == row.force_completed(false, widow_reference(st.layout)));
        }
    }
}

pub open spec fn open_items(st: RunState) -> Seq<LayoutItem> {
    match st.current {
        Some(r) => r.items,
        None => Seq::empty(),
    }
}

proof fn lemma_ratios_concat(a: Seq<LayoutItem>, b: Seq<LayoutItem>)
    ensures
        ratios(a + b) == ratios(a) + ratios(b),
{
    assert(ratios(a + b) =~= ratios(a) + ratios(b));
}

/// Feeding one more item, before the row limit can stop the computation,
/// keeps every item so far, in order, among the committed and open rows.
proof fn lemma_step_keeps_items(st: RunState, item: LayoutItem, k: int)
    requires
        run_inv(st, k),
        k < MAX_ITEMS,
        k < st.layout.config.max_rows,
        1 <= item.aspect_ratio <= MAX_RATIO,
        st.layout.layout_items.len() + open_len(st) == k,
    ensures
        ratios(step(st, item).layout.layout_items + open_items(step(st, item)))
            == ratios(st.layout.layout_items + open_items(st)).push(item.aspect_ratio),
        step(st, item).layout.layout_items.len() + open_len(step(st, item)) == k + 1,
{
    let l = st.layout;
    lemma_next_row(l);
    let row = match st.current {
        Some(r) => r,
        None => l.next_row(),
    };
    assert(open_items(st) == row.items);
    lemma_after_add(row, item);
    let (r1, ok) = row.after_add(item);
    lemma_ratios_concat(l.layout_items, row.items);
    if ok {
        assert(ratios(r1.items) =~= ratios(row.items).push(item.aspect_ratio));
    } else {
        assert(ratios(r1.items) =~= ratios(row.items));
    }
    lemma_ratios_concat(l.layout_items, r1.items);
    if r1.is_complete() {
        lemma_with_row(l, r1);
        let st1 = after_commit(l, r1);
        lemma_next_row(st1.layout);
        assert(open_items(st1) =~= Seq::<LayoutItem>::empty());
        assert(st1.layout.layout_items + open_items(st1) =~= st1.layout.layout_items);
        if !ok {
            let m2 = st1.layout.next_row();
            lemma_after_add(m2, item);
            let (r2, _ok2) = m2.after_add(item);
            assert(ratios(r2.items) =~= seq![item.aspect_ratio]);
            lemma_ratios_concat(st1.layout.layout_items, r2.items);
            if r2.is_complete() {
                lemma_with_row(st1.layout, r2);
                let st2 = after_commit(st1.layout, r2);
                lemma_next_row(st2.layout);
                assert(open_items(st2) =~= Seq::<LayoutItem>::empty());
                assert(st2.layout.layout_items + open_items(st2) =~= st2.layout.layout_items);
            }
        }
    }
}

/// The state after `k` items, with no row limit in reach, holds every item so
/// far, in order.
proof fn lemma_run_keeps_items(start: RunState, items: Seq<LayoutItem>, k: int)
    requires
        run_inv(start, 0),
        start.layout.layout_items.len() == 0,
        start.current is None,
        !start.stopped,
        items.len() <= MAX_ITEMS,
        items.len() <= start.layout.config.max_rows,
        forall|i: int| 0 <= i < items.len() ==> 1 <= #[trigger] items[i].aspect_ratio <= MAX_RATIO,
        0 <= k <= items.len(),
    ensures
        run_inv(run(start, items.take(k)), k),
        run(start, items.take(k)).layout.config == start.layout.config,
        ratios(run(start, items.take(k)).layout.layout_items + open_items(run(start, items.take(k))))
            == ratios(items.take(k)),
        run(start, items.take(k)).layout.layout_items.len() + open_len(run(start, items.take(k))) == k,
    decreases k,
{
    if k == 0 {
        assert(items.take(0) =~= Seq::<LayoutItem>::empty());
        assert(start.layout.layout_items + open_items(start) =~= Seq::<LayoutItem>::empty());
        assert(ratios(Seq::<LayoutItem>::empty()) =~= Seq::<u64>::empty());
    } else {
        lemma_run_keeps_items(start, items, k - 1);
        let st = run(start, items.take(k - 1));
        assert(items.take(k).drop_last() =~= items.take(k - 1));
        assert(items.take(k).last() == items[k - 1]);
        lemma_step(st, items[k - 1], k - 1);
        lemma_step_keeps_items(st, items[k - 1], k - 1);
        assert(ratios(items.take(k)) =~= ratios(items.take(k - 1)).push(items[k - 1].aspect_ratio));
    }
}

/// Every item appears in the layout exactly once, in input order, when widows
/// are shown and the row limit is not below the number of items.
pub proof fn lemma_every_item_laid_out(config: Config, items: Seq<LayoutItem>)
    requires
        config.within_bounds(),
        config.is_usable(),
        config.show_widows,
        items.len() <= config.max_rows,
        items.len() <= MAX_ITEMS,
        forall|i: int| 0 <= i < items.len() ==> (#[trigger] items[i]).aspect_ratio <= MAX_RATIO,
        first_invalid(config, items) is None,
    ensures
        layout_of(config, items).boxes.len() == items.len(),
        forall|i: int| 0 <= i < items.len() ==> (#[trigger] layout_of(config, items).boxes[i]).aspect_ratio
            == prepared(config, items[i]).aspect_ratio,
{
    let ready = prepared_all(config, items);
    let start = RunState { layout: LayoutModel::fresh(config), current: None, stopped: false };
    assert forall|i: int| 0 <= i < ready.len() implies 1 <= #[trigger] ready[i].aspect_ratio <= MAX_RATIO by {
        assert(ready[i] == prepared(config, items[i]));
        if prepared(config, items[i]).aspect_ratio == 0 {
            assert(exists|j: int| 0 <= j < items.len() && prepared(config, #[trigger] items[j]).aspect_ratio == 0);
        }
    }
    assert(start.layout.rows.len() == 0);
    assert(run_inv(start, 0));
    lemma_run_keeps_items(start, ready, ready.len() as int);
    assert(ready.take(ready.len() as int) =~= ready);
    let st = run(start, ready);
    let l = finish(st);
    match st.current {
        Some(row) => {
            if row.items.len() > 0 {
                let done = row.force_completed(false, widow_reference(st.layout));
                let h = match widow_reference(st.layout) {
                    Some(h) => h as int,
                    None => row.target_row_height,
                };
                lemma_completed(row, h, WidowLayoutStyle::Left);
                assert(ratios(done.items) =~= ratios(row.items));
                lemma_ratios_concat(st.layout.layout_items, done.items);
                lemma_ratios_concat(st.layout.layout_items, row.items);
            } else {
                assert(st.layout.layout_items + open_items(st) =~= st.layout.layout_items);
            }
        },
        None => {
            assert(st.layout.layout_items + open_items(st) =~= st.layout.layout_items);
        },
    }
    assert forall|i: int| 0 <= i < items.len() implies (#[trigger] layout_of(config, items).boxes[i]).aspect_ratio
        == prepared(config, items[i]).aspect_ratio by {
        assert(ratios(l.layout_items)[i] == ratios(ready)[i]);
        assert(ready[i] == prepared(config, items[i]));
    }
}

} // verus!
