use river_tiler::{
    parse_command, parse_ratio, Command, CommandError, CommandOutcome, LayoutConfig,
    LayoutRotation, LayoutStore,
};

fn default_rotation() -> LayoutRotation {
    LayoutRotation {
        active: LayoutConfig::Tile { gap: 6, main_ratio: 600_000 },
        inactive: LayoutConfig::Stack,
    }
}

#[test]
fn ratio_parsing() {
    assert_eq!(parse_ratio("0.05"), Some(50_000));
    assert_eq!(parse_ratio("-0.05"), Some(-50_000));
    assert_eq!(parse_ratio("+1"), Some(1_000_000));
    assert_eq!(parse_ratio(".5"), Some(500_000));
    assert_eq!(parse_ratio("5."), Some(5_000_000));
    assert_eq!(parse_ratio("0.1234567"), Some(123_456));
    assert_eq!(parse_ratio("-0"), Some(0));
    assert_eq!(parse_ratio("9223372036854.775807"), Some(i64::MAX));
    assert_eq!(parse_ratio("-9223372036854.775808"), Some(i64::MIN));
    assert_eq!(parse_ratio("9223372036854.775808"), None);
    assert_eq!(parse_ratio("100000000000000000000"), None);
    assert_eq!(parse_ratio("000000000000000000000.25"), Some(250_000));
}

#[test]
fn ratio_parsing_rejects() {
    for text in [
        "", ".", "-", "+", "abc", "1.2.3", " 1", "1 ", "--1", "+-1", "inf", "infinity", "NaN",
        "0x10", "1e", "1e+", "e5", ".e1", "1e1.5", "1e--1", "1e 1", "1ee1",
    ] {
        assert_eq!(parse_ratio(text), None, "{text}");
    }
}

#[test]
fn ratio_parsing_with_exponent() {
    assert_eq!(parse_ratio("1e-1"), Some(100_000));
    assert_eq!(parse_ratio("1E3"), Some(1_000_000_000));
    assert_eq!(parse_ratio("1e3"), Some(1_000_000_000));
    assert_eq!(parse_ratio("2.5e-3"), Some(2_500));
    assert_eq!(parse_ratio("1.5e+2"), Some(150_000_000));
    assert_eq!(parse_ratio(".5e1"), Some(5_000_000));
    assert_eq!(parse_ratio("5.e-1"), Some(500_000));
    assert_eq!(parse_ratio("-2e-2"), Some(-20_000));
    assert_eq!(parse_ratio("1e-7"), Some(0));
    assert_eq!(parse_ratio("-1e-7"), Some(0));
    assert_eq!(parse_ratio("123456789e-14"), Some(1));
    assert_eq!(parse_ratio("1e12"), Some(1_000_000_000_000_000_000));
    assert_eq!(parse_ratio("1e13"), None);
    assert_eq!(parse_ratio("-9.223372036854775808e12"), Some(i64::MIN));
    assert_eq!(parse_ratio("9.223372036854775808e12"), None);
    assert_eq!(parse_ratio("0e999999999999999999999999"), Some(0));
    assert_eq!(parse_ratio("1e999999999999999999999999"), None);
    assert_eq!(parse_ratio("1e-999999999999999999999999"), Some(0));
    assert_eq!(parse_ratio("12345678901234567890123456789e-20"), Some(123_456_789_012_345));
}

#[test]
fn command_parsing() {
    assert_eq!(parse_command("inc_main_ratio 1e-1"), Command::IncMainRatio(100_000));
    assert_eq!(parse_command("toggle_layout"), Command::ToggleLayout);
    assert_eq!(parse_command("inc_main_ratio 0.1"), Command::IncMainRatio(100_000));
    assert_eq!(parse_command("inc_main_ratio -0.1"), Command::IncMainRatio(-100_000));
    assert_eq!(parse_command("toggle_layout "), Command::Unrecognized);
    assert_eq!(parse_command("Toggle_layout"), Command::Unrecognized);
    assert_eq!(parse_command("inc_main_ratio"), Command::Unrecognized);
    assert_eq!(parse_command("inc_main_ratio "), Command::Unrecognized);
    assert_eq!(parse_command("inc_main_ratio abc"), Command::Unrecognized);
    assert_eq!(parse_command(""), Command::Unrecognized);
}

#[test]
fn masks_with_same_lowest_bit_share_context() {
    let mut store = LayoutStore::new();
    assert_eq!(store.apply_command("eDP-1", 0b0110, "toggle_layout"), Ok(CommandOutcome::Applied));
    let r = store.on_layout_request(2, 800, 600, 0b0010, "eDP-1");
    assert_eq!(r.layout_name, "[[]");
    assert_eq!(store.rotation("eDP-1", 0b1010), store.rotation("eDP-1", 0b0110));
    // another lowest bit, or another output, is another context
    assert_eq!(store.rotation("eDP-1", 0b0100), None);
    assert_eq!(store.rotation("HDMI-A-1", 0b0010), None);
    assert_eq!(store.on_layout_request(2, 800, 600, 0b0001, "eDP-1").layout_name, "[]=");
}

#[test]
fn toggle_twice_restores_rotation() {
    let mut store = LayoutStore::new();
    store.apply_command("out", 1, "inc_main_ratio 0.1").unwrap();
    let before = store.rotation("out", 1).unwrap();
    store.apply_command("out", 1, "toggle_layout").unwrap();
    let toggled = store.rotation("out", 1).unwrap();
    assert_eq!(toggled.active, before.inactive);
    assert_eq!(toggled.inactive, before.active);
    store.apply_command("out", 1, "toggle_layout").unwrap();
    assert_eq!(store.rotation("out", 1), Some(before));
}

#[test]
fn ratio_increments_add_up() {
    let mut two_steps = LayoutStore::new();
    two_steps.apply_command("out", 4, "inc_main_ratio 0.05").unwrap();
    two_steps.apply_command("out", 4, "inc_main_ratio -0.2").unwrap();
    let mut one_step = LayoutStore::new();
    one_step.apply_command("out", 4, "inc_main_ratio -0.15").unwrap();
    assert_eq!(two_steps.rotation("out", 4), one_step.rotation("out", 4));
    assert_eq!(
        one_step.active_layout("out", 4),
        LayoutConfig::Tile { gap: 6, main_ratio: 450_000 }
    );
}

#[test]
fn exponent_increments_add_up() {
    let mut two_steps = LayoutStore::new();
    two_steps.apply_command("o", 1, "inc_main_ratio 1e-1").unwrap();
    assert_eq!(two_steps.active_layout("o", 1), LayoutConfig::Tile { gap: 6, main_ratio: 700_000 });
    two_steps.apply_command("o", 1, "inc_main_ratio 1e-1").unwrap();
    let mut one_step = LayoutStore::new();
    assert_eq!(one_step.apply_command("o", 1, "inc_main_ratio 2E-1"), Ok(CommandOutcome::Applied));
    assert_eq!(two_steps.rotation("o", 1), one_step.rotation("o", 1));
    assert_eq!(one_step.active_layout("o", 1), LayoutConfig::Tile { gap: 6, main_ratio: 800_000 });
}

#[test]
fn ratio_is_not_clamped() {
    let mut store = LayoutStore::new();
    store.apply_command("out", 1, "inc_main_ratio 1.5").unwrap();
    assert_eq!(store.active_layout("out", 1), LayoutConfig::Tile { gap: 6, main_ratio: 2_100_000 });
}

#[test]
fn increment_under_stack_keeps_ratio() {
    let mut store = LayoutStore::new();
    store.apply_command("out", 2, "toggle_layout").unwrap();
    let before = store.rotation("out", 2);
    assert_eq!(store.apply_command("out", 2, "inc_main_ratio 0.2"), Ok(CommandOutcome::Ignored));
    assert_eq!(store.rotation("out", 2), before);
    store.apply_command("out", 2, "toggle_layout").unwrap();
    assert_eq!(store.rotation("out", 2), Some(default_rotation()));
}

#[test]
fn unparsable_delta_changes_nothing() {
    let mut store = LayoutStore::new();
    store.apply_command("out", 8, "inc_main_ratio 0.1").unwrap();
    let before = store.rotation("out", 8);
    assert_eq!(store.apply_command("out", 8, "inc_main_ratio abc"), Ok(CommandOutcome::Ignored));
    assert_eq!(store.rotation("out", 8), before);
}

#[test]
fn unknown_command_creates_default_context() {
    let mut store = LayoutStore::new();
    assert_eq!(store.apply_command("out", 1, "zoom"), Ok(CommandOutcome::Ignored));
    assert_eq!(store.rotation("out", 1), Some(default_rotation()));
}

#[test]
fn overflowing_increment_is_ignored() {
    let mut store = LayoutStore::new();
    assert_eq!(
        store.apply_command("out", 1, "inc_main_ratio 9223372036853"),
        Ok(CommandOutcome::Applied)
    );
    let before = store.rotation("out", 1);
    assert_eq!(store.apply_command("out", 1, "inc_main_ratio 2"), Ok(CommandOutcome::Ignored));
    assert_eq!(store.rotation("out", 1), before);
}

#[test]
fn missing_or_empty_mask_is_refused() {
    let mut store = LayoutStore::new();
    assert_eq!(store.on_command("toggle_layout", None, "out"), Err(CommandError::MissingTagMask));
    assert_eq!(store.on_command("toggle_layout", Some(0), "out"), Err(CommandError::EmptyTagMask));
    assert_eq!(store.apply_command("out", 0, "toggle_layout"), Err(CommandError::EmptyTagMask));
    assert_eq!(store.rotation("out", 0), None);
    assert_eq!(store.on_command("toggle_layout", Some(1 << 31), "out"), Ok(CommandOutcome::Applied));
    assert_eq!(store.active_layout("out", 1 << 31), LayoutConfig::Stack);
}

#[test]
fn rotation_apply_reports_change() {
    let mut r = default_rotation();
    assert!(r.apply(Command::ToggleLayout));
    assert_eq!(r.active, LayoutConfig::Stack);
    assert!(!r.apply(Command::IncMainRatio(5)));
    assert!(!r.apply(Command::Unrecognized));
    assert_eq!(LayoutRotation::initial(), default_rotation());
}
