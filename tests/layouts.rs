use river_tiler::{compute, LayoutConfig, Rect, LayoutStore};

fn rect(x: i32, y: i32, width: u32, height: u32) -> Rect {
    Rect { x, y, width, height }
}

fn default_tile() -> LayoutConfig {
    LayoutConfig::Tile { gap: 6, main_ratio: 600_000 }
}

#[test]
fn tile_three_views_example() {
    let r = compute(&default_tile(), 3, 1200, 800);
    assert_eq!(r.layout_name, "[]=");
    assert_eq!(
        r.views,
        vec![rect(0, 0, 717, 800), rect(723, 0, 477, 397), rect(723, 403, 477, 397)]
    );
}

#[test]
fn stack_three_views_example() {
    let r = compute(&LayoutConfig::Stack, 3, 1000, 700);
    assert_eq!(r.layout_name, "[[]");
    assert_eq!(
        r.views,
        vec![rect(0, 0, 970, 670), rect(15, 15, 970, 670), rect(30, 30, 970, 670)]
    );
}

#[test]
fn tile_single_view_fills_area() {
    for (gap, ratio) in [(6u32, 600_000i64), (0, 0), (500, 2_000_000), (u32::MAX, -3_000_000)] {
        let r = compute(&LayoutConfig::Tile { gap, main_ratio: ratio }, 1, 1920, 1080);
        assert_eq!(r.views, vec![rect(0, 0, 1920, 1080)]);
    }
}

#[test]
fn tile_two_views_stack_takes_full_height() {
    let r = compute(&LayoutConfig::Tile { gap: 10, main_ratio: 500_000 }, 2, 1000, 600);
    // 1000 * 0.5 - 5 = 495; stack width 1000 - 495 - 10 = 495
    assert_eq!(r.views, vec![rect(0, 0, 495, 600), rect(505, 0, 495, 600)]);
}

#[test]
fn tile_main_width_is_floored() {
    // 1001 * 0.5 - 3 = 497.5, floored to 497
    let r = compute(&default_tile_with_ratio(500_000), 2, 1001, 100);
    assert_eq!(r.views[0], rect(0, 0, 497, 100));
    assert_eq!(r.views[1], rect(503, 0, 498, 100));
}

fn default_tile_with_ratio(main_ratio: i64) -> LayoutConfig {
    LayoutConfig::Tile { gap: 6, main_ratio }
}

#[test]
fn tile_negative_main_width_saturates_to_zero() {
    let r = compute(&default_tile_with_ratio(-500_000), 2, 100, 50);
    assert_eq!(r.views[0], rect(0, 0, 0, 50));
    assert_eq!(r.views[1], rect(6, 0, 94, 50));
}

#[test]
fn tile_huge_gap_wraps_around() {
    let r = compute(&LayoutConfig::Tile { gap: 3_000_000_000, main_ratio: 600_000 }, 2, 100, 40);
    assert_eq!(r.views[0], rect(0, 0, 0, 40));
    assert_eq!(r.views[1], rect(-1_294_967_296, 0, 1_294_967_396, 40));
}

#[test]
fn no_views_gives_no_rectangles() {
    assert!(compute(&default_tile(), 0, 1200, 800).views.is_empty());
    assert!(compute(&LayoutConfig::Stack, 0, 1200, 800).views.is_empty());
}

#[test]
fn layouts_give_one_rectangle_per_view() {
    for n in 0u32..20 {
        assert_eq!(compute(&default_tile(), n, 1920, 1080).views.len(), n as usize);
        assert_eq!(compute(&LayoutConfig::Stack, n, 1920, 1080).views.len(), n as usize);
    }
}

#[test]
fn stack_too_small_area_wraps_around() {
    let r = compute(&LayoutConfig::Stack, 100, 1000, 700);
    // 1000 - 15 * 99 = -485 and 700 - 1485 = -785, both modulo 2^32
    assert_eq!(r.views[99], rect(1485, 1485, 4_294_966_811, 4_294_966_511));
}

#[test]
fn tile_many_views_spacing() {
    let r = compute(&LayoutConfig::Tile { gap: 4, main_ratio: 250_000 }, 5, 800, 400);
    // main: 800 * 0.25 - 2 = 198; stack width 800 - 198 - 4 = 598
    // stack height (400 - 4 * 3) / 4 = 97
    assert_eq!(r.views[0], rect(0, 0, 198, 400));
    for i in 0..4 {
        assert_eq!(r.views[i + 1], rect(202, (101 * i) as i32, 598, 97));
    }
}

#[test]
fn layout_names() {
    assert_eq!(default_tile().name(), "[]=");
    assert_eq!(LayoutConfig::Stack.name(), "[[]");
}

#[test]
fn request_without_command_reads_default_and_adds_nothing() {
    let store = LayoutStore::new();
    let r = store.on_layout_request(3, 1200, 800, 0b100, "DP-1");
    assert_eq!(r.layout_name, "[]=");
    assert_eq!(r.views, compute(&default_tile(), 3, 1200, 800).views);
    assert_eq!(store.rotation("DP-1", 0b100), None);
    assert_eq!(store.active_layout("DP-1", 0b100), default_tile());
}
