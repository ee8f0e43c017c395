use wlr_randr_tui::app::{App, Section, UiMode};
use wlr_randr_tui::input::{apply_done, handle, Key, Outcome};
use wlr_randr_tui::monitor::{Align, PosMode};
use wlr_randr_tui::parse::parse_output;
use wlr_randr_tui::proj::Proj;

const SAMPLE: &str = "DP-1 \"Dell\"
  Make: Dell Inc.
  Model: DELL P3425WE
  Enabled: yes
  Modes:
    3440x1440 px, 59.973000 Hz (preferred, current)
    2560x1440 px, 59.951000 Hz
    1920x1080 px, 60.000000 Hz
  Position: 0,0
  Transform: normal
  Scale: 1.000000
  Adaptive Sync: disabled
eDP-1 \"BOE\"
  Make: BOE
  Model: 0x0BCA
  Enabled: yes
  Modes:
    2880x1800 px, 60.001000 Hz (preferred, current)
    1920x1200 px, 59.950000 Hz
  Position: 897,1440
  Transform: normal
  Scale: 1.750000
  Adaptive Sync: disabled
";

fn app() -> App {
    App::new(parse_output(SAMPLE))
}

fn key(a: &mut App, k: Key) -> Outcome {
    handle(a, k, 24)
}

fn typed(a: &mut App, s: &str) {
    for c in s.chars() {
        key(a, Key::Code(c as i32));
    }
}

#[test]
fn new_app_defaults() {
    let a = app();
    assert_eq!(a.tab, 0);
    assert_eq!(a.section, Section::Settings);
    assert_eq!(a.sel_field, 0);
    assert_eq!(a.proj, Proj::Custom);
    assert_eq!(a.ui, UiMode::Normal);
    assert_eq!(a.cur_mon().name, "DP-1");
}

#[test]
fn quit_and_apply_outcomes() {
    let mut a = app();
    assert_eq!(key(&mut a, Key::Code(113)), Outcome::Quit);
    assert_eq!(key(&mut a, Key::Code(97)), Outcome::Apply);
    assert_eq!(key(&mut a, Key::Code(120)), Outcome::Continue);
}

#[test]
fn tab_cycles_sections() {
    let mut a = app();
    key(&mut a, Key::Code(9));
    assert_eq!(a.section, Section::Layout);
    key(&mut a, Key::Code(9));
    assert_eq!(a.section, Section::Tabs);
    key(&mut a, Key::Code(9));
    assert_eq!(a.section, Section::Settings);
}

#[test]
fn arrows_move_within_bounds() {
    let mut a = app();
    key(&mut a, Key::Up);
    assert_eq!(a.sel_field, 0);
    for _ in 0..10 {
        key(&mut a, Key::Down);
    }
    assert_eq!(a.sel_field, 4);
    a.section = Section::Tabs;
    key(&mut a, Key::Right);
    key(&mut a, Key::Right);
    assert_eq!(a.tab, 1);
    key(&mut a, Key::Left);
    key(&mut a, Key::Left);
    assert_eq!(a.tab, 0);
    key(&mut a, Key::Down);
    assert_eq!(a.section, Section::Settings);
}

#[test]
fn cycling_mode_and_transform() {
    let mut a = app();
    key(&mut a, Key::Left);
    assert_eq!(a.monitors[0].new_mode, 2);
    key(&mut a, Key::Right);
    assert_eq!(a.monitors[0].new_mode, 0);
    a.sel_field = 2;
    key(&mut a, Key::Left);
    assert_eq!(a.monitors[0].new_transform, "flipped-270");
    key(&mut a, Key::Right);
    key(&mut a, Key::Right);
    assert_eq!(a.monitors[0].new_transform, "90");
}

#[test]
fn cycling_scale_snaps_to_quarters() {
    let mut a = app();
    a.sel_field = 1;
    a.monitors[0].new_scale = 1_333_333;
    key(&mut a, Key::Right);
    assert_eq!(a.monitors[0].new_scale, 1_500_000);
    a.monitors[0].new_scale = 3_900_000;
    key(&mut a, Key::Right);
    assert_eq!(a.monitors[0].new_scale, 4_000_000);
    a.monitors[0].new_scale = 250_000;
    key(&mut a, Key::Left);
    assert_eq!(a.monitors[0].new_scale, 250_000);
}

#[test]
fn enter_toggles_flags() {
    let mut a = app();
    a.sel_field = 3;
    key(&mut a, Key::Enter);
    assert!(a.monitors[0].new_adaptive);
    assert!(a.monitors[0].dirty());
    key(&mut a, Key::Code(10));
    assert!(!a.monitors[0].new_adaptive);
    a.sel_field = 4;
    key(&mut a, Key::Enter);
    assert!(!a.monitors[0].new_enabled);
}

#[test]
fn mode_list_selects_a_mode() {
    let mut a = app();
    key(&mut a, Key::Enter);
    assert_eq!(a.ui, UiMode::ModeSelect { scroll: 0, hover: 0 });
    key(&mut a, Key::Down);
    key(&mut a, Key::Down);
    key(&mut a, Key::Down);
    assert_eq!(a.ui, UiMode::ModeSelect { scroll: 0, hover: 2 });
    key(&mut a, Key::Up);
    key(&mut a, Key::Enter);
    assert_eq!(a.ui, UiMode::Normal);
    assert_eq!(a.monitors[0].new_mode, 1);
    key(&mut a, Key::Enter);
    key(&mut a, Key::Code(27));
    assert_eq!(a.ui, UiMode::Normal);
    assert_eq!(a.monitors[0].new_mode, 1);
}

#[test]
fn mode_list_scrolls_on_small_screen() {
    let mut a = app();
    key(&mut a, Key::Enter);
    handle(&mut a, Key::Down, 6);
    assert_eq!(a.ui, UiMode::ModeSelect { scroll: 1, hover: 1 });
    handle(&mut a, Key::Down, 6);
    assert_eq!(a.ui, UiMode::ModeSelect { scroll: 2, hover: 2 });
    handle(&mut a, Key::Up, 6);
    assert_eq!(a.ui, UiMode::ModeSelect { scroll: 1, hover: 1 });
}

#[test]
fn scale_text_entry() {
    let mut a = app();
    a.sel_field = 1;
    key(&mut a, Key::Enter);
    assert_eq!(a.ui, UiMode::TextEdit);
    assert_eq!(a.buf, "1.0000");
    for _ in 0..6 {
        key(&mut a, Key::Backspace);
    }
    typed(&mut a, " 1.25 ");
    key(&mut a, Key::Enter);
    assert_eq!(a.monitors[0].new_scale, 1_250_000);
    assert_eq!(a.ui, UiMode::Normal);
    assert_eq!(a.buf, "");

    key(&mut a, Key::Enter);
    a.buf = "5".to_string();
    key(&mut a, Key::Enter);
    assert_eq!(a.status, "Scale: 0.25 to 4.0");
    assert!(a.status_err);
    assert_eq!(a.monitors[0].new_scale, 1_250_000);

    key(&mut a, Key::Enter);
    a.buf = "abc".to_string();
    key(&mut a, Key::Enter);
    assert_eq!(a.status, "Invalid number");
}

#[test]
fn scale_entry_checks_the_exact_value() {
    let mut a = app();
    a.sel_field = 1;
    for (text, ok) in [("4.0000001", false), ("4.000", true), ("0", false), ("-0.5", false), ("0.0000001", true)] {
        a.monitors[0].new_scale = 1_750_000;
        key(&mut a, Key::Enter);
        a.buf = text.to_string();
        key(&mut a, Key::Enter);
        assert_eq!(a.ui, UiMode::Normal);
        if ok {
            assert_eq!(a.status, "");
            assert_ne!(a.monitors[0].new_scale, 1_750_000);
        } else {
            assert_eq!(a.status, "Scale: 0.25 to 4.0");
            assert_eq!(a.monitors[0].new_scale, 1_750_000);
        }
        a.status.clear();
    }
    assert_eq!(a.monitors[0].new_scale, 0);
}

#[test]
fn scale_entry_of_infinity_or_nan_is_out_of_range() {
    let mut a = app();
    a.sel_field = 1;
    for text in ["inf", "-Infinity", "NaN", "+nan"] {
        key(&mut a, Key::Enter);
        a.buf = text.to_string();
        key(&mut a, Key::Enter);
        assert_eq!(a.status, "Scale: 0.25 to 4.0");
        assert_eq!(a.monitors[0].new_scale, 1_000_000);
    }
    key(&mut a, Key::Enter);
    a.buf = "infinite".to_string();
    key(&mut a, Key::Enter);
    assert_eq!(a.status, "Invalid number");
}

#[test]
fn scale_entry_reads_powers_of_ten() {
    let mut a = app();
    a.sel_field = 1;
    let cases: [(&str, Option<i64>); 12] = [
        ("2e0", Some(2_000_000)),
        ("25e-2", Some(250_000)),
        ("0.125E1", Some(1_250_000)),
        ("+.5e+1", None),
        ("4E0", Some(4_000_000)),
        ("1e-7", Some(0)),
        ("1e-400", Some(0)),
        ("1.5e999999999999999999999999999999", None),
        ("0e5", None),
        ("-2e0", None),
        ("40e-1", Some(4_000_000)),
        ("4.0000001e0", None),
    ];
    for (text, want) in cases {
        a.monitors[0].new_scale = 1_750_000;
        a.status.clear();
        key(&mut a, Key::Enter);
        a.buf = text.to_string();
        key(&mut a, Key::Enter);
        match want {
            Some(v) => {
                assert_eq!(a.status, "", "{}", text);
                assert_eq!(a.monitors[0].new_scale, v, "{}", text);
            }
            None => {
                assert_eq!(a.status, "Scale: 0.25 to 4.0", "{}", text);
                assert_eq!(a.monitors[0].new_scale, 1_750_000, "{}", text);
            }
        }
    }
    for text in ["1e", "e5", "1e2e3", "1e+", ".e1", "1.2.3e1"] {
        a.status.clear();
        key(&mut a, Key::Enter);
        a.buf = text.to_string();
        key(&mut a, Key::Enter);
        assert_eq!(a.status, "Invalid number", "{}", text);
    }
}

#[test]
fn layout_text_entry() {
    let mut a = app();
    a.section = Section::Layout;
    a.layout_sel = 1;
    a.monitors[1].new_pos = PosMode::RightOf("DP-1".to_string(), Align::Start);
    key(&mut a, Key::Enter);
    assert_eq!(a.buf, "3440,0");
    key(&mut a, Key::Enter);
    assert!(a.monitors[1].new_pos.same_as(&PosMode::Absolute(3440, 0)));
    key(&mut a, Key::Enter);
    a.buf = " -10 , 20".to_string();
    key(&mut a, Key::Enter);
    assert!(a.monitors[1].new_pos.same_as(&PosMode::Absolute(-10, 20)));
    key(&mut a, Key::Enter);
    a.buf = "10".to_string();
    key(&mut a, Key::Enter);
    assert_eq!(a.status, "Format: x,y  e.g. 3440,0");
    key(&mut a, Key::Enter);
    a.buf = "1,x".to_string();
    key(&mut a, Key::Enter);
    assert_eq!(a.status, "Invalid -- use: x,y");
    key(&mut a, Key::Enter);
    key(&mut a, Key::Code(7));
    typed(&mut a, "ab");
    assert_eq!(a.buf, "-10,20ab");
    key(&mut a, Key::Code(27));
    assert_eq!(a.buf, "");
    assert_eq!(a.ui, UiMode::Normal);
}

#[test]
fn layout_cycles_placements() {
    let mut a = app();
    a.section = Section::Layout;
    a.layout_sel = 1;
    key(&mut a, Key::Right);
    assert!(a.monitors[1].new_pos.same_as(&PosMode::Below("DP-1".to_string(), Align::Start)));
    key(&mut a, Key::Right);
    assert!(a.monitors[1].new_pos.same_as(&PosMode::Below("DP-1".to_string(), Align::Center)));
    key(&mut a, Key::Left);
    assert!(a.monitors[1].new_pos.same_as(&PosMode::Below("DP-1".to_string(), Align::Start)));
    key(&mut a, Key::Left);
    assert!(a.monitors[1].new_pos.same_as(&PosMode::Absolute(0, 0)));
    key(&mut a, Key::Left);
    assert!(a.monitors[1].new_pos.same_as(&PosMode::LeftOf("DP-1".to_string(), Align::Center)));
    key(&mut a, Key::Down);
    assert_eq!(a.layout_sel, 1);
    key(&mut a, Key::Up);
    assert_eq!(a.layout_sel, 0);
}

#[test]
fn projections_and_reset() {
    let mut a = app();
    key(&mut a, Key::Code(112));
    assert_eq!(a.proj, Proj::Extend);
    assert_eq!(a.status, "Projection: Extend");
    assert!(a.monitors[1].new_pos.same_as(&PosMode::Below("DP-1".to_string(), Align::Center)));
    key(&mut a, Key::Code(46));
    assert_eq!(a.proj, Proj::ExtOnly);
    assert!(!a.monitors[1].new_enabled);
    key(&mut a, Key::Code(44));
    key(&mut a, Key::Code(44));
    assert_eq!(a.proj, Proj::Custom);
    a.tab = 1;
    key(&mut a, Key::Code(114));
    assert_eq!(a.status, "Reset eDP-1");
    assert!(!a.status_err);
    assert!(!a.monitors[1].dirty());
    key(&mut a, Key::Code(27));
    assert_eq!(a.status, "");
}

#[test]
fn apply_done_keeps_selection_in_range() {
    let mut a = app();
    a.tab = 1;
    a.layout_sel = 1;
    a.proj = Proj::Extend;
    let fresh = parse_output("DP-1\n  Modes:\n    800x600 px, 60.000000 Hz\n");
    apply_done(&mut a, "done".to_string(), fresh);
    assert_eq!(a.tab, 0);
    assert_eq!(a.layout_sel, 0);
    assert_eq!(a.monitors.len(), 1);
    assert_eq!(a.proj, Proj::Custom);
    assert_eq!(a.status, "done");
    assert!(!a.status_err);
}

#[test]
fn keys_without_outputs() {
    let mut a = App::new(Vec::new());
    for s in [Section::Layout, Section::Tabs, Section::Settings] {
        assert_eq!(handle(&mut a, Key::Code(9), 24), Outcome::Continue);
        assert_eq!(a.section, s);
    }
    a.sel_field = 4;
    handle(&mut a, Key::Down, 24);
    assert_eq!(a.sel_field, 4);
    assert_eq!(a.section, Section::Settings);
    assert_eq!(a.status, "");
    assert_eq!(handle(&mut a, Key::Code('q' as i32), 24), Outcome::Quit);
}

#[test]
fn invalid_entries_without_outputs() {
    let mut a = App::new(Vec::new());
    a.section = Section::Layout;
    a.ui = UiMode::TextEdit;
    a.buf = "abc".to_string();
    handle(&mut a, Key::Code(10), 24);
    assert_eq!(a.status, "Format: x,y  e.g. 3440,0");
    assert!(a.status_err);
    assert_eq!(a.buf, "");
    assert_eq!(a.ui, UiMode::Normal);
    assert!(a.monitors.is_empty());
    a.ui = UiMode::TextEdit;
    a.buf = "a,b".to_string();
    handle(&mut a, Key::Code(10), 24);
    assert_eq!(a.status, "Invalid -- use: x,y");
    a.section = Section::Settings;
    a.sel_field = 1;
    a.ui = UiMode::TextEdit;
    a.buf = "5".to_string();
    handle(&mut a, Key::Enter, 24);
    assert_eq!(a.status, "Scale: 0.25 to 4.0");
    assert!(a.status_err);
    a.ui = UiMode::TextEdit;
    a.buf = "abc".to_string();
    handle(&mut a, Key::Enter, 24);
    assert_eq!(a.status, "Invalid number");
    assert_eq!(a.ui, UiMode::Normal);
}
