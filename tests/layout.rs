use justified_layout::arith::{abs_exec, floor_half_exec, round_div_exec};
use justified_layout::{
    ComputedLayout, Config, JustifiedLayout, LayoutError, LayoutItem, Padding, Spacing,
    WidowLayoutStyle, SCALE,
};

fn scenario_ratios() -> Vec<u64> {
    vec![500000, 1500000, 1000000, 1800000, 400000, 700000, 900000, 1100000, 1700000, 2000000, 2100000]
}

fn run(config: Config, ratios: Vec<u64>) -> ComputedLayout {
    let mut layout = JustifiedLayout::new(config);
    layout.compute_layout_by_ratio(ratios).unwrap()
}

fn geometry(c: &ComputedLayout) -> Vec<(i128, i128, i128, i128)> {
    c.boxes.iter().map(|b| (b.top, b.left, b.width, b.height)).collect()
}

#[test]
fn it_works() {
    let mut layout = JustifiedLayout::default();
    let computed = layout.compute_layout_by_ratio(scenario_ratios()).unwrap();
    println!("{:?}", computed);
    let last_box = computed.boxes[10];
    assert_eq!(last_box.aspect_ratio, 2100000);
    assert_eq!(last_box.height, 251);
    assert_eq!(last_box.left, 523);
    assert_eq!(last_box.top, 1008);
    assert_eq!(last_box.width, 527);
}

#[test]
fn scenario_full_geometry() {
    let c = run(Config::new(), scenario_ratios());
    assert_eq!(c.height, 1269);
    assert_eq!(c.widow_count, 0);
    assert_eq!(
        geometry(&c),
        vec![
            (10, 10, 170, 340),
            (10, 190, 510, 340),
            (10, 710, 340, 340),
            (360, 10, 634, 352),
            (360, 654, 140, 352),
            (360, 804, 246, 352),
            (722, 10, 248, 276),
            (722, 268, 303, 276),
            (722, 581, 469, 276),
            (1008, 10, 503, 251),
            (1008, 523, 527, 251),
        ]
    );
}

#[test]
fn every_item_once_in_order() {
    let ratios = scenario_ratios();
    let c = run(Config::new(), ratios.clone());
    assert_eq!(c.boxes.len(), ratios.len());
    for (b, r) in c.boxes.iter().zip(ratios.iter()) {
        assert_eq!(b.aspect_ratio, *r);
    }
}

#[test]
fn justified_rows_span_the_width() {
    let c = run(Config::new(), scenario_ratios());
    let mut tops: Vec<i128> = c.boxes.iter().map(|b| b.top).collect();
    tops.dedup();
    for top in tops {
        let row: Vec<&LayoutItem> = c.boxes.iter().filter(|b| b.top == top).collect();
        let widths: i128 = row.iter().map(|b| b.width).sum();
        assert_eq!(widths + (row.len() as i128 - 1) * 10, 1040);
        let last = row[row.len() - 1];
        assert_eq!(last.left + last.width, 1050);
    }
}

#[test]
fn row_heights_within_limits() {
    let ratios = vec![10000000, 200000, 3000000, 1000000, 500000, 100000, 100000, 4000000];
    let c = run(Config::new(), ratios);
    for b in c.boxes.iter() {
        assert!(b.height >= 160 && b.height <= 640);
    }
    assert_eq!((c.boxes[0].top, c.boxes[0].left, c.boxes[0].width, c.boxes[0].height), (10, 10, 1040, 160));
}

#[test]
fn rows_stack_with_vertical_spacing() {
    let c = run(Config::new(), scenario_ratios());
    let mut rows: Vec<(i128, i128)> = c.boxes.iter().map(|b| (b.top, b.height)).collect();
    rows.dedup();
    assert_eq!(rows[0].0, 10);
    for w in rows.windows(2) {
        assert_eq!(w[1].0, w[0].0 + w[0].1 + 10);
    }
    let last = rows[rows.len() - 1];
    assert_eq!(c.height, last.0 + last.1 + 10);
}

#[test]
fn computing_twice_gives_the_same_layout() {
    let mut layout = JustifiedLayout::new(Config::new());
    let a = layout.compute_layout_by_ratio(scenario_ratios()).unwrap();
    let b = layout.compute_layout_by_ratio(scenario_ratios()).unwrap();
    assert_eq!(a.height, b.height);
    assert_eq!(a.widow_count, b.widow_count);
    assert_eq!(a.boxes, b.boxes);
}

#[test]
fn breakout_rows_at_cadence() {
    let mut config = Config::new();
    config.full_width_breakout_row_cadence = Some(2);
    let c = run(config, vec![1500000, 800000, 900000, 2000000, 1000000, 1200000, 700000]);
    assert_eq!(
        geometry(&c),
        vec![
            (10, 10, 479, 319),
            (10, 499, 254, 319),
            (10, 763, 287, 319),
            (339, 10, 1040, 520),
            (869, 10, 352, 352),
            (869, 372, 422, 352),
            (869, 804, 246, 352),
        ]
    );
    assert_eq!(c.height, 1231);
}

#[test]
fn breakout_cadence_one_starts_with_full_width() {
    let mut config = Config::new();
    config.full_width_breakout_row_cadence = Some(1);
    let c = run(config, vec![2000000, 500000]);
    assert_eq!(geometry(&c), vec![(10, 10, 1040, 520), (540, 10, 160, 320)]);
    assert_eq!(c.widow_count, 1);
}

#[test]
fn widow_row_matches_previous_height() {
    let c = run(Config::new(), vec![500000, 1500000, 1000000, 1800000]);
    assert_eq!(c.widow_count, 1);
    assert_eq!(c.boxes.len(), 4);
    assert_eq!((c.boxes[3].top, c.boxes[3].left, c.boxes[3].width, c.boxes[3].height), (360, 10, 612, 340));
    assert_eq!(c.boxes[3].height, c.boxes[2].height);
    assert_eq!(c.height, 710);
}

#[test]
fn widow_without_previous_row_uses_target_height() {
    let c = run(Config::new(), vec![500000]);
    assert_eq!(c.widow_count, 1);
    assert_eq!(geometry(&c), vec![(10, 10, 160, 320)]);
    assert_eq!(c.height, 340);
}

#[test]
fn hidden_widows_are_left_out() {
    let mut config = Config::new();
    config.show_widows = false;
    let c = run(config, vec![500000, 1500000, 1000000, 1800000, 400000]);
    assert_eq!(c.widow_count, 0);
    assert_eq!(c.boxes.len(), 3);
    assert_eq!(c.height, 360);
}

#[test]
fn row_limit_stops_the_layout() {
    let mut config = Config::new();
    config.max_rows = 1;
    let c = run(config, scenario_ratios());
    assert_eq!(c.boxes.len(), 3);
    assert_eq!(c.height, 360);
}

#[test]
fn forced_aspect_ratio_applies_to_all_items() {
    let mut config = Config::new();
    config.force_aspect_ratio = Some(SCALE);
    let c = run(config, vec![10000000, 200000, 3000000, 1000000, 500000]);
    assert!(c.boxes.iter().all(|b| b.aspect_ratio == SCALE && b.force_aspect_ratio == Some(SCALE)));
    assert_eq!(
        geometry(&c),
        vec![(10, 10, 340, 340), (10, 360, 340, 340), (10, 710, 340, 340), (360, 10, 340, 340), (360, 360, 340, 340)]
    );
    assert_eq!(c.widow_count, 2);
}

#[test]
fn zero_ratio_is_invalid_input() {
    let mut layout = JustifiedLayout::new(Config::new());
    let r = layout.compute_layout_by_ratio(vec![1000000, 1500000, 0, 0]);
    assert_eq!(r.unwrap_err(), LayoutError::InvalidInput(2));
}

#[test]
fn unusable_configs_are_rejected() {
    let mut a = Config::new();
    a.container_width = 0;
    let mut b = Config::new();
    b.target_row_height = 0;
    let mut c = Config::new();
    c.container_padding = Padding::from(530);
    let mut d = Config::new();
    d.full_width_breakout_row_cadence = Some(0);
    for config in [a, b, c, d] {
        let mut layout = JustifiedLayout::new(config);
        let r = layout.compute_layout_by_ratio(vec![1000000]);
        assert_eq!(r.unwrap_err(), LayoutError::InvalidConfig);
    }
}

#[test]
fn empty_input_gives_empty_layout() {
    let c = run(Config::new(), vec![]);
    assert_eq!(c.boxes.len(), 0);
    assert_eq!(c.widow_count, 0);
    assert_eq!(c.height, 10);
}

#[test]
fn item_from_pixel_size() {
    let item = LayoutItem::new(1600, 900);
    assert_eq!(item.aspect_ratio, 1777778);
    assert_eq!(LayoutItem::new(300, 200).aspect_ratio, 1500000);
    assert_eq!(LayoutItem::from_ratio(2500000).aspect_ratio, 2500000);
    let mut layout = JustifiedLayout::new(Config::new());
    let c = layout.compute_layout(vec![LayoutItem::new(1600, 900), LayoutItem::new(900, 1600)]).unwrap();
    assert_eq!(c.boxes.len(), 2);
}

#[test]
fn defaults() {
    let c = Config::default();
    assert_eq!(c.container_width, 1060);
    assert_eq!(c.target_row_height, 320);
    assert_eq!(c.target_row_height_tolerance, 250000);
    assert_eq!(c.max_rows, usize::MAX);
    assert!(c.show_widows);
    assert_eq!(c.layout_style, WidowLayoutStyle::Justify);
    assert_eq!(WidowLayoutStyle::default(), WidowLayoutStyle::Left);
    let p: Padding<u64> = Padding::from(7);
    assert_eq!((p.left, p.right, p.top, p.bottom), (7, 7, 7, 7));
    let s: Spacing<u64> = Spacing::from(3);
    assert_eq!((s.horizontal, s.vertical), (3, 3));
    let l = JustifiedLayout::default();
    assert_eq!(l.container_height, 10);
    assert!(l.rows.is_empty() && l.layout_items.is_empty());
}

#[test]
fn row_packing_step_by_step() {
    let layout = JustifiedLayout::new(Config::new());
    let mut row = layout.create_row();
    assert_eq!((row.top, row.left, row.width, row.spacing), (10, 10, 1040, 10));
    assert_eq!((row.edge_case_min_row_height, row.edge_case_max_row_height), (160, 640));
    assert!(!row.is_breakout_row);
    assert!(row.add(LayoutItem::from_ratio(500000)));
    assert!(!row.is_layout_complete());
    assert!(row.add(LayoutItem::from_ratio(1500000)));
    assert!(row.add(LayoutItem::from_ratio(1000000)));
    assert!(row.is_layout_complete());
    assert_eq!(row.height, 340);
    assert_eq!(row.items.len(), 3);
}

#[test]
fn full_row_refuses_an_item_that_fits_worse() {
    let layout = JustifiedLayout::new(Config::new());
    let mut row = layout.create_row();
    assert!(row.add(LayoutItem::from_ratio(2000000)));
    assert!(!row.add(LayoutItem::from_ratio(3000000)));
    assert!(row.is_layout_complete());
    assert_eq!(row.items.len(), 1);
    assert_eq!(row.items[0].width, 1040);
}

#[test]
fn commit_row_moves_height_and_items() {
    let mut layout = JustifiedLayout::new(Config::new());
    let mut row = layout.create_row();
    row.add(LayoutItem::from_ratio(3250000));
    assert!(row.is_layout_complete());
    let items = layout.push_row(row);
    assert_eq!(items.len(), 1);
    assert_eq!(layout.container_height, 10 + 320 + 10);
    assert_eq!(layout.rows.len(), 1);
    assert_eq!(layout.layout_items.len(), 1);
    assert_eq!(layout.create_row().top, 340);
}

#[test]
fn left_and_center_styles() {
    let layout = JustifiedLayout::new(Config::new());
    let mut row = layout.create_row();
    row.add(LayoutItem::from_ratio(1000000));
    row.add(LayoutItem::from_ratio(500000));
    let mut left = layout.create_row();
    left.add(LayoutItem::from_ratio(1000000));
    left.add(LayoutItem::from_ratio(500000));
    left.complete_layout(200, Some(WidowLayoutStyle::Left));
    assert_eq!(left.height, 200);
    assert_eq!((left.items[0].left, left.items[0].width), (10, 200));
    assert_eq!((left.items[1].left, left.items[1].width), (220, 100));
    row.complete_layout(200, Some(WidowLayoutStyle::Center));
    // Packed width with trailing gap ends at 330; offset (1040 - 330) / 2 + 10.
    assert_eq!(row.items[0].left, 10 + 355 + 10);
    assert_eq!(row.items[1].left, 220 + 355 + 10);
}

#[test]
fn force_complete_variants() {
    let layout = JustifiedLayout::new(Config::new());
    let mut a = layout.create_row();
    a.add(LayoutItem::from_ratio(1000000));
    a.force_complete(false, None);
    assert_eq!((a.height, a.items[0].width), (320, 320));
    let mut b = layout.create_row();
    b.add(LayoutItem::from_ratio(1000000));
    b.force_complete(false, Some(300));
    assert_eq!((b.height, b.items[0].width), (300, 300));
    let mut c = layout.create_row();
    c.add(LayoutItem::from_ratio(2000000));
    c.force_complete(true, None);
    // Fitting 2.0 into 1040 pixels asks for 520, within the limits.
    assert_eq!((c.height, c.items[0].width), (520, 1040));
}

#[test]
fn clamped_heights_keep_item_widths() {
    let layout = JustifiedLayout::new(Config::new());
    let mut row = layout.create_row();
    row.add(LayoutItem::from_ratio(1000000));
    row.complete_layout(1000, Some(WidowLayoutStyle::Left));
    assert_eq!(row.height, 640);
    assert_eq!(row.items[0].width, 1000);
}

#[test]
fn rounding_helpers() {
    assert_eq!(round_div_exec(5, 2), 3);
    assert_eq!(round_div_exec(-5, 2), -3);
    assert_eq!(round_div_exec(7, 3), 2);
    assert_eq!(round_div_exec(-7, 3), -2);
    assert_eq!(round_div_exec(1040 * 1_000_000, 3_250_000), 320);
    assert_eq!(floor_half_exec(7), 3);
    assert_eq!(floor_half_exec(-3), -2);
    assert_eq!(abs_exec(-12), 12);
}

#[test]
fn very_tall_item_keeps_a_positive_ratio() {
    assert_eq!(LayoutItem::new(1, 3_000_000).aspect_ratio, 1);
    assert_eq!(LayoutItem::new(1, 1_999_999).aspect_ratio, 1);
    assert_eq!(LayoutItem::new(0, 5).aspect_ratio, 0);
    let mut layout = JustifiedLayout::new(Config::new());
    let c = layout.compute_layout(vec![LayoutItem::new(1, 3_000_000)]).unwrap();
    assert_eq!(c.boxes.len(), 1);
    assert_eq!(c.boxes[0].aspect_ratio, 1);
}

#[test]
fn driver_state_after_a_layout() {
    let mut layout = JustifiedLayout::default();
    let c = layout.compute_layout_by_ratio(scenario_ratios()).unwrap();
    assert_eq!(layout.rows.len(), 4);
    assert_eq!(layout.container_height, c.height);
    assert_eq!(layout.config.widow_count, c.widow_count);
    assert_eq!(layout.layout_items, c.boxes);

    let mut config = Config::new();
    config.full_width_breakout_row_cadence = Some(2);
    let mut layout = JustifiedLayout::new(config);
    let c = layout.compute_layout_by_ratio(vec![1000000, 1000000, 1000000, 2000000]).unwrap();
    assert_eq!(layout.rows.len(), 2);
    assert!(layout.rows[1].is_breakout_row);
    assert_eq!(layout.rows[1].items.len(), 1);
    assert_eq!((c.boxes[3].top, c.boxes[3].left, c.boxes[3].width, c.boxes[3].height), (360, 10, 1040, 520));
    assert_eq!((c.height, c.widow_count), (890, 0));

    let mut config = Config::new();
    config.show_widows = false;
    let mut layout = JustifiedLayout::new(config);
    let c = layout.compute_layout_by_ratio(vec![1000000, 1000000, 1000000, 1000000]).unwrap();
    assert_eq!((c.boxes.len(), c.widow_count, c.height), (3, 0, 360));
    assert_eq!(layout.rows.len(), 1);
}

#[test]
fn failed_layout_leaves_the_driver_alone() {
    let mut layout = JustifiedLayout::default();
    layout.compute_layout_by_ratio(scenario_ratios()).unwrap();
    let rows = layout.rows.len();
    let height = layout.container_height;
    assert_eq!(layout.compute_layout_by_ratio(vec![1000000, 0]).unwrap_err(), LayoutError::InvalidInput(1));
    assert_eq!((layout.rows.len(), layout.container_height), (rows, height));
    layout.config.target_row_height = 0;
    assert_eq!(layout.compute_layout_by_ratio(vec![1000000]).unwrap_err(), LayoutError::InvalidConfig);
    assert_eq!((layout.rows.len(), layout.container_height), (rows, height));
}
