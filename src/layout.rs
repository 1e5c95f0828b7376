use vstd::prelude::*;
use crate::arith::{SCALE, MAX_PIXELS, MAX_RATIO, MAX_ITEMS};
use crate::config::{Config, WidowLayoutStyle};
use crate::item::LayoutItem;
use crate::row::{Row, RowModel, MAX_TOP, min_fill, max_fill, lemma_after_add, lemma_completed};

verus! {

/// Why a layout could not be computed.
#[derive(Debug, Copy, Clone, PartialEq, Eq, Structural)]
pub enum LayoutError {
    /// The configuration leaves no usable container: zero width or target
    /// height, paddings that fill the width, or a zero breakout cadence.
    InvalidConfig,
    /// The item at this position has a zero aspect ratio.
    InvalidInput(usize),
}

/// The finished layout: total height, widow count, and every laid-out item
/// in input order.
#[derive(Debug)]
pub struct ComputedLayout {
    pub height: i128,
    pub widow_count: usize,
    pub boxes: Vec<LayoutItem>,
}

/// The layout driver: the configuration, the rows finished so far, the items
/// they hold in order, and the height used up so far.
#[derive(Debug)]
pub struct JustifiedLayout {
    pub container_height: i128,
    pub layout_items: Vec<LayoutItem>,
    pub rows: Vec<Row>,
    pub config: Config,
}

/// A layout driver as a mathematical value.
pub struct LayoutModel {
    pub container_height: int,
    pub layout_items: Seq<LayoutItem>,
    pub rows: Seq<RowModel>,
    pub config: Config,
}

/// The state of a computation between two items: the driver, the open row
/// if any, and whether the row limit has stopped the computation.
pub struct RunState {
    pub layout: LayoutModel,
    pub current: Option<RowModel>,
    pub stopped: bool,
}

/// The finished layout as a mathematical value.
pub struct LayoutResult {
    pub height: int,
    pub widow_count: int,
    pub boxes: Seq<LayoutItem>,
}

impl View for JustifiedLayout {
    type V = LayoutModel;

    open spec fn view(&self) -> LayoutModel {
        LayoutModel {
            container_height: self.container_height as int,
            layout_items: self.layout_items@,
            rows: self.rows@.map_values(|r: Row| r@),
            config: self.config,
        }
    }
}

pub open spec fn row_view(o: Option<Row>) -> Option<RowModel> {
    match o {
        Some(r) => Some(r@),
        None => None,
    }
}

/// The aspect ratios of a sequence of items.
pub open spec fn ratios(s: Seq<LayoutItem>) -> Seq<u64> {
    s.map_values(|x: LayoutItem| x.aspect_ratio)
}

/// Whether the row at 1-based position `position` is a breakout row.
pub open spec fn is_breakout_position(config: Config, position: int) -> bool {
    match config.full_width_breakout_row_cadence {
        Some(c) => position % (c as int) == 0,
        None => false,
    }
}

impl LayoutModel {
    /// The next row: it starts at the height used so far, spans the available
    /// width, and is a breakout row at the cadence's positions.
    pub open spec fn next_row(self) -> RowModel {
        let c = self.config;
        let w = c.available_width();
        let t = c.target_row_height as int;
        let tol = c.target_row_height_tolerance as int;
        RowModel {
            items: Seq::empty(),
            left: c.container_padding.left as int,
            top: self.container_height,
            width: w,
            height: 0,
            spacing: c.box_spacing.horizontal as int,
            target_row_height: t,
            target_row_height_tolerance: tol,
            min_aspect_ratio: min_fill(w, tol),
            max_aspect_ratio: max_fill(w, tol),
            edge_case_min_row_height: (t + 1) / 2,
            edge_case_max_row_height: 2 * t,
            layout_style: c.layout_style,
            is_breakout_row: is_breakout_position(c, self.rows.len() + 1 as int),
        }
    }

    /// The driver after committing a finished row.
    pub open spec fn with_row(self, row: RowModel) -> LayoutModel {
        LayoutModel {
            container_height: self.container_height + row.height + self.config.box_spacing.vertical,
            layout_items: self.layout_items + row.items,
            rows: self.rows.push(row),
            ..self
        }
    }

    /// Committed rows are finished, within the row height limits, and few
    /// enough that every coordinate stays in range.
    pub open spec fn bounded(self) -> bool {
        let c = self.config;
        &&& c.within_bounds()
        &&& c.is_usable()
        &&& self.rows.len() <= self.layout_items.len()
        &&& self.layout_items.len() <= MAX_ITEMS
        &&& 0 <= self.container_height <= MAX_PIXELS + self.rows.len() * (3 * MAX_PIXELS)
        &&& forall|i: int| 0 <= i < self.layout_items.len() ==> {
            &&& 2 * (#[trigger] self.layout_items[i]).height >= c.target_row_height
            &&& self.layout_items[i].height <= 2 * c.target_row_height
        }
        &&& forall|i: int| 0 <= i < self.rows.len() ==> {
            &&& (#[trigger] self.rows[i]).wf()
            &&& self.rows[i].is_complete()
            &&& self.rows[i].height <= 2 * c.target_row_height
            &&& 2 * self.rows[i].height >= c.target_row_height
            &&& self.rows[i].target_row_height == c.target_row_height
        }
    }

    /// Each committed row starts one vertical gap below the previous one, the
    /// first at the top padding, and the height used so far ends one gap below
    /// the last row.
    pub open spec fn stacked(self) -> bool {
        let gap = self.config.box_spacing.vertical as int;
        &&& self.rows.len() == 0 ==> self.container_height == self.config.container_padding.top
        &&& self.rows.len() > 0 ==> self.rows[0].top == self.config.container_padding.top
        &&& self.rows.len() > 0 ==> self.container_height == self.rows.last().top
            + self.rows.last().height + gap
        &&& forall|i: int| 0 <= i < self.rows.len() - 1 ==> (#[trigger] self.rows[i + 1]).top
            == self.rows[i].top + self.rows[i].height + gap
    }

    /// A driver with nothing laid out yet.
    pub open spec fn fresh(config: Config) -> LayoutModel {
        LayoutModel {
            container_height: config.container_padding.top as int,
            layout_items: Seq::empty(),
            rows: Seq::empty(),
            config: Config { widow_count: 0, ..config },
        }
    }
}

/// The item as laid out: with the forced aspect ratio when one is configured.
pub open spec fn prepared(config: Config, item: LayoutItem) -> LayoutItem {
    match config.force_aspect_ratio {
        Some(f) => LayoutItem { aspect_ratio: f, force_aspect_ratio: Some(f), ..item },
        None => item,
    }
}

pub open spec fn prepared_all(config: Config, items: Seq<LayoutItem>) -> Seq<LayoutItem> {
    items.map_values(|x: LayoutItem| prepared(config, x))
}

/// The state after committing a finished row: stopped when the row limit is
/// reached, else with a new open row.
pub open spec fn after_commit(l: LayoutModel, row: RowModel) -> RunState {
    let l1 = l.with_row(row);
    if l1.rows.len() >= l1.config.max_rows {
        RunState { layout: l1, current: None, stopped: true }
    } else {
        RunState { layout: l1, current: Some(l1.next_row()), stopped: false }
    }
}

/// One item fed to the computation. An item refused by a full row is offered
/// to the next row.
pub open spec fn step(st: RunState, item: LayoutItem) -> RunState {
    if st.stopped {
        st
    } else {
        let l = st.layout;
        let row = match st.current {
            Some(r) => r,
            None => l.next_row(),
        };
        let (r1, ok) = row.after_add(item);
        if !r1.is_complete() {
            RunState { current: Some(r1), ..st }
        } else {
            let st1 = after_commit(l, r1);
            if st1.stopped || ok {
                st1
            } else {
                let (r2, _ok2) = st1.layout.next_row().after_add(item);
                if !r2.is_complete() {
                    RunState { current: Some(r2), ..st1 }
                } else {
                    after_commit(st1.layout, r2)
                }
            }
        }
    }
}

/// The state after feeding a sequence of items in order.
pub open spec fn run(st: RunState, items: Seq<LayoutItem>) -> RunState
    decreases items.len(),
{
    if items.len() == 0 {
        st
    } else {
        step(run(st, items.drop_last()), items.last())
    }
}

/// Height of the row a widow row matches: the last committed row's height,
/// or its target height when it was a breakout row; none without rows.
pub open spec fn widow_reference(l: LayoutModel) -> Option<i128> {
    if l.rows.len() > 0 {
        let last = l.rows.last();
        Some(
            if last.is_breakout_row {
                last.target_row_height as i128
            } else {
                last.height as i128
            },
        )
    } else {
        None
    }
}

/// The driver after laying out the widow row, if any.
pub open spec fn finish(st: RunState) -> LayoutModel {
    let l = st.layout;
    match st.current {
        Some(row) => if row.items.len() > 0 && l.config.show_widows {
            let done = row.force_completed(false, widow_reference(l));
            LayoutModel {
                config: Config { widow_count: row.items.len() as usize, ..l.config },
                ..l
            }.with_row(done)
        } else {
            l
        },
        None => l,
    }
}

/// The driver once every item of `items` has been fed and the widow row
/// handled, starting afresh under `config`.
pub open spec fn final_layout(config: Config, items: Seq<LayoutItem>) -> LayoutModel {
    let start = RunState {
        layout: LayoutModel::fresh(config),
        current: None,
        stopped: false,
    };
    finish(run(start, prepared_all(config, items)))
}

/// The layout of `items` under `config`.
pub open spec fn layout_of(config: Config, items: Seq<LayoutItem>) -> LayoutResult {
    let l = final_layout(config, items);
    LayoutResult {
        height: l.container_height - config.box_spacing.vertical + config.container_padding.bottom,
        widow_count: l.config.widow_count as int,
        boxes: l.layout_items,
    }
}

/// Position of the first item whose aspect ratio, as laid out, is zero.
pub open spec fn first_invalid(config: Config, items: Seq<LayoutItem>) -> Option<int> {
    if exists|i: int| 0 <= i < items.len() && prepared(config, #[trigger] items[i]).aspect_ratio == 0 {
        Some(choose|i: int| 0 <= i < items.len() && prepared(config, #[trigger] items[i]).aspect_ratio == 0
            && forall|j: int| 0 <= j < i ==> prepared(config, #[trigger] items[j]).aspect_ratio != 0)
    } else {
        None
    }
}

pub open spec fn open_len(st: RunState) -> int {
    match st.current {
        Some(r) => r.items.len() as int,
        None => 0,
    }
}

/// What holds of the computation's state after `k` items.
pub open spec fn run_inv(st: RunState, k: int) -> bool {
    &&& st.layout.bounded()
    &&& st.layout.stacked()
    &&& k <= MAX_ITEMS
    &&& st.layout.layout_items.len() + open_len(st) <= k
    &&& st.stopped ==> st.current is None
    &&& st.stopped ==> st.layout.rows.len() >= st.layout.config.max_rows
    &&& st.current matches Some(c) ==> {
        &&& c.wf()
        &&& !c.is_complete()
        &&& c.top == st.layout.container_height
        &&& c.target_row_height == st.layout.config.target_row_height
    }
}

/// A new row on a bounded driver is well formed and open.
pub proof fn lemma_next_row(l: LayoutModel)
    requires
        l.bounded(),
    ensures
        l.next_row().wf(),
        !l.next_row().is_complete(),
        l.next_row().items.len() == 0,
{
    assert(l.rows.len() * (3 * MAX_PIXELS) <= 0x10_0000 * (3 * 0x1_0000)) by (nonlinear_arith)
        requires l.rows.len() <= 0x10_0000, MAX_PIXELS == 0x1_0000;
    assert(l.container_height <= MAX_TOP);
}

/// Committing a finished row keeps the driver bounded.
pub proof fn lemma_with_row(l: LayoutModel, row: RowModel)
    requires
        l.bounded(),
        row.wf(),
        row.is_complete(),
        row.height <= 2 * l.config.target_row_height,
        2 * row.height >= l.config.target_row_height,
        row.target_row_height == l.config.target_row_height,
        row.items.len() >= 1,
        l.layout_items.len() + row.items.len() <= MAX_ITEMS,
        forall|i: int| 0 <= i < row.items.len() ==> (#[trigger] row.items[i]).height == row.height,
    ensures
        l.with_row(row).bounded(),
        l.stacked() && row.top == l.container_height ==> l.with_row(row).stacked(),
{
    let l1 = l.with_row(row);
    assert((l.rows.len() + 1) * (3 * MAX_PIXELS) == l.rows.len() * (3 * MAX_PIXELS) + 3 * MAX_PIXELS) by (nonlinear_arith);
    assert(l1.rows.len() == l.rows.len() + 1);
    assert forall|i: int| 0 <= i < l1.rows.len() implies {
        &&& (#[trigger] l1.rows[i]).wf()
        &&& l1.rows[i].is_complete()
        &&& l1.rows[i].height <= 2 * l1.config.target_row_height
        &&& 2 * l1.rows[i].height >= l1.config.target_row_height
        &&& l1.rows[i].target_row_height == l1.config.target_row_height
    } by {
        if i < l.rows.len() {
            assert(l1.rows[i] == l.rows[i]);
        }
    }
    assert forall|i: int| 0 <= i < l1.layout_items.len() implies {
        &&& 2 * (#[trigger] l1.layout_items[i]).height >= l1.config.target_row_height
        &&& l1.layout_items[i].height <= 2 * l1.config.target_row_height
    } by {
        if i < l.layout_items.len() {
            assert(l1.layout_items[i] == l.layout_items[i]);
        } else {
            assert(l1.layout_items[i] == row.items[i - l.layout_items.len()]);
        }
    }
    if l.stacked() && row.top == l.container_height {
        assert forall|i: int| 0 <= i < l1.rows.len() - 1 implies (#[trigger] l1.rows[i + 1]).top
            == l1.rows[i].top + l1.rows[i].height + l1.config.box_spacing.vertical by {
            assert(l1.rows[i] == l.rows[i]);
            if i + 1 < l.rows.len() {
                assert(l1.rows[i + 1] == l.rows[i + 1]);
            } else {
                assert(l.rows.last() == l.rows[i]);
            }
        }
    }
}

/// One step keeps the state invariant.
pub proof fn lemma_step(st: RunState, item: LayoutItem, k: int)
    requires
        run_inv(st, k),
        k < MAX_ITEMS,
        1 <= item.aspect_ratio <= MAX_RATIO,
    ensures
        run_inv(step(st, item), k + 1),
        step(st, item).layout.config == st.layout.config,
{
    if !st.stopped {
        let l = st.layout;
        lemma_next_row(l);
        let row = match st.current {
            Some(r) => r,
            None => l.next_row(),
        };
        lemma_after_add(row, item);
        let (r1, ok) = row.after_add(item);
        if r1.is_complete() {
            lemma_with_row(l, r1);
            let st1 = after_commit(l, r1);
            lemma_next_row(st1.layout);
            if !st1.stopped && !ok {
                lemma_after_add(st1.layout.next_row(), item);
                let (r2, _ok2) = st1.layout.next_row().after_add(item);
                if r2.is_complete() {
                    lemma_with_row(st1.layout, r2);
                    lemma_next_row(after_commit(st1.layout, r2).layout);
                }
            }
        }
    }
}

/// A copy of a list of items.
fn copy_items(v: &Vec<LayoutItem>) -> (r: Vec<LayoutItem>)
    ensures
        r@ == v@,
{
    let mut out: Vec<LayoutItem> = Vec::new();
    let mut i: usize = 0;
    while i < v.len()
        invariant
            0 <= i <= v@.len(),
            out@ == v@.take(i as int),
        decreases v@.len() - i,
    {
        proof {
            assert(v@.take(i + 1) =~= v@.take(i as int).push(v@[i as int]));
        }
        out.push(v[i]);
        i = i + 1;
    }
    proof {
        assert(v@.take(v@.len() as int) =~= v@);
    }
    out
}

/// The items as laid out (with the forced aspect ratio when one is
/// configured), or the position of the first one whose ratio is zero.
fn prepare_items(c: &Config, items: &Vec<LayoutItem>) -> (r: Result<Vec<LayoutItem>, LayoutError>)
    ensures
        match first_invalid(*c, items@) {
            Some(i) => r == Err::<Vec<LayoutItem>, LayoutError>(LayoutError::InvalidInput(i as usize)),
            None => r matches Ok(v) && v@ == prepared_all(*c, items@),
        },
{
    let mut ready: Vec<LayoutItem> = Vec::new();
    let mut i: usize = 0;
    while i < items.len()
        invariant
            0 <= i <= items@.len(),
            ready@ == prepared_all(*c, items@.take(i as int)),
            forall|j: int| 0 <= j < i ==> prepared(*c, #[trigger] items@[j]).aspect_ratio != 0,
        decreases items@.len() - i,
    {
        let mut it: LayoutItem = items[i];
        match c.force_aspect_ratio {
            Some(f) => {
                it.aspect_ratio = f;
                it.force_aspect_ratio = Some(f);
            },
            None => {},
        }
        if it.aspect_ratio == 0 {
            proof {
                let w = first_invalid(*c, items@);
                assert(prepared(*c, items@[i as int]).aspect_ratio == 0);
                let ch = choose|x: int| 0 <= x < items@.len() && prepared(*c, #[trigger] items@[x]).aspect_ratio == 0
                    && forall|j: int| 0 <= j < x ==> prepared(*c, #[trigger] items@[j]).aspect_ratio != 0;
                assert(w == Some(ch));
                assert(ch == i) by {
                    if ch > i {
                        assert(prepared(*c, items@[i as int]).aspect_ratio != 0);
                    }
                }
            }
            return Err(LayoutError::InvalidInput(i));
        }
        proof {
            assert(items@.take(i + 1) =~= items@.take(i as int).push(items@[i as int]));
            assert(prepared_all(*c, items@.take(i + 1)) =~= prepared_all(*c, items@.take(i as int)).push(it));
        }
        ready.push(it);
        i = i + 1;
    }
    proof {
        assert(items@.take(items@.len() as int) =~= items@);
        assert(first_invalid(*c, items@) is None);
    }
    Ok(ready)
}

impl Default for JustifiedLayout {
    /// A driver with the default configuration and nothing laid out.
    fn default() -> (r: Self)
        ensures
            r@.container_height == 10,
            r@.layout_items.len() == 0,
            r@.rows.len() == 0,
            r.config.container_width == 1060,
            r.config.container_padding.left == 10 && r.config.container_padding.right == 10,
            r.config.container_padding.top == 10 && r.config.container_padding.bottom == 10,
            r.config.box_spacing.horizontal == 10 && r.config.box_spacing.vertical == 10,
            r.config.target_row_height == 320,
            r.config.target_row_height_tolerance == SCALE / 4,
            r.config.max_rows == usize::MAX,
            r.config.force_aspect_ratio.is_none(),
            r.config.show_widows,
            r.config.full_width_breakout_row_cadence.is_none(),
            r.config.layout_style == WidowLayoutStyle::Justify,
            r.config.widow_count == 0,
            r.config.within_bounds(),
            r.config.is_usable(),
    {
        let config = Config::new();
        JustifiedLayout {
            container_height: config.container_padding.top as i128,
            layout_items: Vec::new(),
            rows: Vec::new(),
            config,
        }
    }
}

impl JustifiedLayout {
    /// A driver with the given configuration and nothing laid out.
    pub fn new(config: Config) -> (r: Self)
        ensures
            r@ == (LayoutModel {
                container_height: config.container_padding.top as int,
                layout_items: Seq::empty(),
                rows: Seq::empty(),
                config,
            }),
    {
        let r = JustifiedLayout {
            container_height: config.container_padding.top as i128,
            layout_items: Vec::new(),
            rows: Vec::new(),
            config,
        };
        proof {
            assert(r@.rows =~= Seq::<RowModel>::empty());
        }
        r
    }

    /// Opens the next row below the rows committed so far.
    pub fn create_row(&self) -> (r: Row)
        requires
            self@.bounded(),
        ensures
            r@ == self@.next_row(),
    {
        proof {
            lemma_next_row(self@);
        }
        let mut is_breakout_row = false;
        match self.config.full_width_breakout_row_cadence {
            Some(cadence) => {
                if (self.rows.len() as u64 + 1) % cadence == 0 {
                    is_breakout_row = true;
                }
            },
            None => {},
        }
        let c = &self.config;
        let t: i128 = c.target_row_height as i128;
        let mut row = Row {
            items: Vec::new(),
            left: c.container_padding.left as i128,
            top: self.container_height,
            width: c.container_width as i128 - c.container_padding.left as i128 - c.container_padding.right as i128,
            height: 0,
            spacing: c.box_spacing.horizontal as i128,
            target_row_height: t,
            target_row_height_tolerance: c.target_row_height_tolerance as i128,
            min_aspect_ratio: 0,
            max_aspect_ratio: 0,
            edge_case_min_row_height: (t + 1) / 2,
            edge_case_max_row_height: 2 * t,
            layout_style: c.layout_style,
            is_breakout_row,
        };
        row.init();
        proof {
            assert(row@.items =~= self@.next_row().items);
        }
        row
    }

    /// Commits a finished row: the height used grows by the row's height and
    /// the vertical spacing, and the row's items are appended to the laid-out
    /// items. Returns the row's items.
    pub fn push_row(&mut self, row: Row) -> (r: Vec<LayoutItem>)
        requires
            old(self)@.bounded(),
            row@.wf(),
            row@.is_complete(),
            row@.height <= 2 * old(self).config.target_row_height,
            2 * row@.height >= old(self).config.target_row_height,
            row@.target_row_height == old(self).config.target_row_height,
            row@.items.len() >= 1,
            old(self)@.layout_items.len() + row@.items.len() <= MAX_ITEMS,
            forall|i: int| 0 <= i < row@.items.len() ==> (#[trigger] row@.items[i]).height == row@.height,
        ensures
            final(self)@ == old(self)@.with_row(row@),
            final(self)@.bounded(),
            r@ == row@.items,
    {
        proof {
            lemma_with_row(self@, row@);
            assert(self.rows@.len() * (3 * MAX_PIXELS) <= 0x10_0000 * (3 * 0x1_0000)) by (nonlinear_arith)
                requires self.rows@.len() <= 0x10_0000, MAX_PIXELS == 0x1_0000;
        }
        let ghost l0 = self@;
        self.container_height = self.container_height + row.height + self.config.box_spacing.vertical as i128;
        let out = copy_items(&row.items);
        let mut i: usize = 0;
        while i < out.len()
            invariant
                0 <= i <= out@.len(),
                out@ == row@.items,
                self.layout_items@ == l0.layout_items + out@.take(i as int),
                self.rows == old(self).rows,
                self.config == old(self).config,
                self.container_height == old(self).container_height + row.height + self.config.box_spacing.vertical,
            decreases out@.len() - i,
        {
            proof {
                assert(out@.take(i + 1) =~= out@.take(i as int).push(out@[i as int]));
            }
            self.layout_items.push(out[i]);
            i = i + 1;
        }
        proof {
            assert(out@.take(out@.len() as int) =~= out@);
        }
        self.rows.push(row);
        proof {
            assert(self@.rows =~= l0.rows.push(row@));
            assert(self@.layout_items =~= l0.layout_items + row@.items);
        }
        out
    }

    /// Feeds one item to the computation: offers it to the open row (or a new
    /// one), commits the row once finished, and offers a refused item to the
    /// next row. Nothing happens once the row limit has stopped the computation.
    fn feed_item(&mut self, current: Option<Row>, stopped: bool, item: LayoutItem, k: usize) -> (r: (Option<Row>, bool))
        requires
            run_inv(RunState { layout: old(self)@, current: row_view(current), stopped }, k as int),
            k < MAX_ITEMS,
            1 <= item.aspect_ratio <= MAX_RATIO,
        ensures
            (RunState { layout: final(self)@, current: row_view(r.0), stopped: r.1 })
                == step(RunState { layout: old(self)@, current: row_view(current), stopped }, item),
            final(self).config == old(self).config,
    {
        if stopped {
            return (current, stopped);
        }
        proof {
            lemma_next_row(self@);
        }
        let mut row: Row = match current {
            Some(r) => r,
            None => self.create_row(),
        };
        proof {
            lemma_after_add(row@, item);
        }
        let ok = row.add(item);
        if !row.is_layout_complete() {
            return (Some(row), false);
        }
        self.push_row(row);
        if self.rows.len() >= self.config.max_rows {
            return (None, true);
        }
        proof {
            lemma_next_row(self@);
        }
        let mut row2: Row = self.create_row();
        if ok {
            return (Some(row2), false);
        }
        proof {
            lemma_after_add(row2@, item);
        }
        let _ok2 = row2.add(item);
        if !row2.is_layout_complete() {
            return (Some(row2), false);
        }
        self.push_row(row2);
        if self.rows.len() >= self.config.max_rows {
            return (None, true);
        }
        proof {
            lemma_next_row(self@);
        }
        (Some(self.create_row()), false)
    }

    /// Handles the open row once every item has been fed: when it holds items
    /// and widows are shown, it is finished at the reference height (see
    /// `widow_reference`), its item count becomes the widow count, and it is
    /// committed.
    fn finish_widows(&mut self, current: Option<Row>, stopped: bool, Ghost(k): Ghost<int>)
        requires
            run_inv(RunState { layout: old(self)@, current: row_view(current), stopped }, k),
        ensures
            final(self)@ == finish(RunState { layout: old(self)@, current: row_view(current), stopped }),
    {
        match current {
            Some(mut row) => {
                if row.items.len() > 0 && self.config.show_widows {
                    let reference: Option<i128> = if self.rows.len() > 0 {
                        let last: &Row = &self.rows[self.rows.len() - 1];
                        proof {
                            assert(self@.rows[self@.rows.len() - 1] == last@);
                            assert(self@.rows.last() == last@);
                        }
                        if last.is_breakout_row {
                            Some(last.target_row_height)
                        } else {
                            Some(last.height)
                        }
                    } else {
                        None
                    };
                    proof {
                        lemma_completed(row@, match reference { Some(h) => h as int, None => row@.target_row_height }, WidowLayoutStyle::Left);
                    }
                    row.force_complete(false, reference);
                    self.config.widow_count = row.items.len();
                    self.push_row(row);
                }
            },
            None => {},
        }
    }

    /// Lays out `items` under this driver's configuration, starting afresh.
    /// Fails on an unusable configuration, then on the first item whose
    /// aspect ratio, as laid out, is zero; otherwise returns the layout that
    /// `layout_of` describes.
    pub fn compute_layout(&mut self, items: Vec<LayoutItem>) -> (r: Result<ComputedLayout, LayoutError>)
        requires
            old(self).config.within_bounds(),
            items@.len() <= MAX_ITEMS,
            forall|i: int| 0 <= i < items@.len() ==> (#[trigger] items@[i]).aspect_ratio <= MAX_RATIO,
        ensures
            !old(self).config.is_usable() ==> r == Err::<ComputedLayout, LayoutError>(LayoutError::InvalidConfig)
                && final(self)@ == old(self)@,
            old(self).config.is_usable() ==> match first_invalid(old(self).config, items@) {
                Some(i) => r == Err::<ComputedLayout, LayoutError>(LayoutError::InvalidInput(i as usize))
                    && final(self)@ == old(self)@,
                None => r matches Ok(res) && ({
                    let want = layout_of(old(self).config, items@);
                    let l = final_layout(old(self).config, items@);
                    &&& res.height == want.height
                    &&& res.widow_count == want.widow_count
                    &&& res.boxes@ == want.boxes
                    &&& final(self)@.rows == l.rows
                    &&& final(self)@.layout_items == l.layout_items
                    &&& final(self).config == l.config
                    &&& final(self).container_height == res.height
                    &&& final(self).config.widow_count == res.widow_count
                }),
            },
    {
        let c = self.config;
        let usable = c.container_width > 0 && c.target_row_height > 0
            && (c.container_padding.left as u128 + c.container_padding.right as u128) < c.container_width as u128
            && match c.full_width_breakout_row_cadence {
            Some(k) => k > 0,
            None => true,
        };
        if !usable {
            return Err(LayoutError::InvalidConfig);
        }
        let ready: Vec<LayoutItem> = match prepare_items(&c, &items) {
            Ok(v) => v,
            Err(e) => {
                return Err(e);
            },
        };
        self.container_height = c.container_padding.top as i128;
        self.layout_items = Vec::new();
        self.rows = Vec::new();
        self.config.widow_count = 0;
        let ghost start = RunState { layout: LayoutModel::fresh(c), current: None, stopped: false };
        proof {
            assert(self@.rows =~= Seq::<RowModel>::empty());
            assert(self@ == start.layout);
            assert forall|j: int| 0 <= j < ready@.len() implies 1 <= #[trigger] ready@[j].aspect_ratio <= MAX_RATIO by {
                assert(ready@[j] == prepared(c, items@[j]));
            }
        }
        let mut current: Option<Row> = None;
        let mut stopped: bool = false;
        let n: usize = ready.len();
        let mut i: usize = 0;
        while i < n
            invariant
                n == ready@.len(),
                n <= MAX_ITEMS,
                0 <= i <= n,
                forall|j: int| 0 <= j < n ==> 1 <= #[trigger] ready@[j].aspect_ratio <= MAX_RATIO,
                (RunState { layout: self@, current: row_view(current), stopped }) == run(start, ready@.take(i as int)),
                run_inv(RunState { layout: self@, current: row_view(current), stopped }, i as int),
                self.config == (Config { widow_count: 0, ..c }),
            decreases n - i,
        {
            let ghost st = RunState { layout: self@, current: row_view(current), stopped };
            let item: LayoutItem = ready[i];
            proof {
                assert(ready@.take(i + 1).drop_last() =~= ready@.take(i as int));
                lemma_step(st, item, i as int);
            }
            let (next, now_stopped) = self.feed_item(current, stopped, item, i);
            current = next;
            stopped = now_stopped;
            i = i + 1;
        }
        proof {
            assert(ready@.take(n as int) =~= ready@);
            assert(ready@ == prepared_all(c, items@));
        }
        self.finish_widows(current, stopped, Ghost(n as int));
        proof {
            assert(self@ == final_layout(c, items@));
        }
        self.container_height = self.container_height - c.box_spacing.vertical as i128 + c.container_padding.bottom as i128;
        let boxes = copy_items(&self.layout_items);
        Ok(ComputedLayout { height: self.container_height, widow_count: self.config.widow_count, boxes })
    }

    /// Lays out items given only by their aspect ratios (in millionths).
    pub fn compute_layout_by_ratio(&mut self, ratios: Vec<u64>) -> (r: Result<ComputedLayout, LayoutError>)
        requires
            old(self).config.within_bounds(),
            ratios@.len() <= MAX_ITEMS,
            forall|i: int| 0 <= i < ratios@.len() ==> #[trigger] ratios@[i] <= MAX_RATIO,
        ensures
            ({
                let items = ratios@.map_values(|a: u64| LayoutItem {
                    aspect_ratio: a,
                    force_aspect_ratio: None,
                    top: 0,
                    left: 0,
                    width: 0,
                    height: 0,
                });
                let l = final_layout(old(self).config, items);
                &&& !old(self).config.is_usable() ==> r == Err::<ComputedLayout, LayoutError>(LayoutError::InvalidConfig)
                    && final(self)@ == old(self)@
                &&& old(self).config.is_usable() ==> match first_invalid(old(self).config, items) {
                    Some(i) => r == Err::<ComputedLayout, LayoutError>(LayoutError::InvalidInput(i as usize))
                        && final(self)@ == old(self)@,
                    None => r matches Ok(res) && ({
                        let want = layout_of(old(self).config, items);
                        &&& res.height == want.height
                        &&& res.widow_count == want.widow_count
                        &&& res.boxes@ == want.boxes
                        &&& final(self)@.rows == l.rows
                        &&& final(self)@.layout_items == l.layout_items
                        &&& final(self).config == l.config
                        &&& final(self).container_height == res.height
                        &&& final(self).config.widow_count == res.widow_count
                    }),
                }
            }),
    {
        let ghost items = ratios@.map_values(|a: u64| LayoutItem {
            aspect_ratio: a,
            force_aspect_ratio: None,
            top: 0,
            left: 0,
            width: 0,
            height: 0,
        });
        let mut v: Vec<LayoutItem> = Vec::new();
        let mut i: usize = 0;
        while i < ratios.len()
            invariant
                0 <= i <= ratios@.len(),
                items.len() == ratios@.len(),
                forall|j: int| 0 <= j < ratios@.len() ==> #[trigger] items[j] == (LayoutItem {
                    aspect_ratio: ratios@[j],
                    force_aspect_ratio: None,
                    top: 0,
                    left: 0,
                    width: 0,
                    height: 0,
                }),
                v@ == items.take(i as int),
            decreases ratios@.len() - i,
        {
            proof {
                assert(items.take(i + 1) =~= items.take(i as int).push(items[i as int]));
            }
            v.push(LayoutItem::from_ratio(ratios[i]));
            i = i + 1;
        }
        proof {
            assert(items.take(ratios@.len() as int) =~= items);
        }
        self.compute_layout(v)
    }
}

} // verus!
