use wlr_randr_tui::decimal::push_fixed;
use wlr_randr_tui::app::{App, Section, UiMode};
use wlr_randr_tui::monitor::{Align, Mode, PosMode};
use wlr_randr_tui::parse::parse_output;
use wlr_randr_tui::ui::{
    field_line, info_line, mode_footer, mode_header, mode_row, pad, position_line, status_line,
    tab_label,
};

const SAMPLE: &str = "DP-1 \"Dell\"
  Make: Dell Inc.
  Model: DELL P3425WE
  Modes:
    3440x1440 px, 59.973000 Hz (preferred, current)
  Position: 0,0
eDP-1 \"BOE\"
  Modes:
    2880x1800 px, 60.001000 Hz (preferred, current)
  Position: 897,1440
  Scale: 1.750000
";

fn app() -> App {
    App::new(parse_output(SAMPLE))
}

#[test]
fn pad_cuts_and_fills() {
    assert_eq!(pad("abc", 5), "abc  ");
    assert_eq!(pad("abcdef", 3), "abc");
    assert_eq!(pad("", 2), "  ");
    assert_eq!(pad("é", 4), "é   ");
    assert_eq!(pad("aé", 3), "aé ");
}

#[test]
fn status_line_texts() {
    let mut a = app();
    assert_eq!(
        status_line(&a),
        " Up/Dn:field  L/R:cycle  Enter:edit  Tab:layout  a:apply  r:reset  q:quit"
    );
    a.section = Section::Tabs;
    assert_eq!(status_line(&a), " L/R:switch tab  Down/Tab:settings  a:apply  r:reset  q:quit");
    a.section = Section::Layout;
    assert_eq!(
        status_line(&a),
        " Up/Dn:monitor  L/R:cycle pos  Enter:type x,y  Tab:tabs  p:proj  a:apply  q:quit"
    );
    a.ui = UiMode::TextEdit;
    assert_eq!(status_line(&a), " Type value  Enter:confirm  Esc:cancel");
    a.ui = UiMode::ModeSelect { scroll: 0, hover: 0 };
    assert_eq!(status_line(&a), " Up/Dn:scroll  Enter:select  Esc:cancel");
    a.set_status("boom".to_string(), true);
    assert_eq!(status_line(&a), "[ERR]  boom");
    a.set_status("fine".to_string(), false);
    assert_eq!(status_line(&a), "[OK]   fine");
}

#[test]
fn settings_lines() {
    let mut a = app();
    assert_eq!(field_line(&a, 0), " >  Mode:          3440x1440 @ 59.973 Hz (preferred/current)");
    assert_eq!(field_line(&a, 1), "    Scale:         1.0000");
    assert_eq!(field_line(&a, 2), "    Transform:     normal");
    assert_eq!(field_line(&a, 3), "    Adaptive Sync: disabled");
    assert_eq!(field_line(&a, 4), "    Enabled:       yes");
    a.monitors[0].new_scale = 1_333_333;
    a.monitors[0].new_enabled = false;
    assert_eq!(field_line(&a, 1), "    Scale:         1.3333 [*]");
    assert_eq!(field_line(&a, 4), "    Enabled:       no [*]");
    a.sel_field = 1;
    a.ui = UiMode::TextEdit;
    a.buf = "2.5".to_string();
    assert_eq!(field_line(&a, 1), " >  Scale:         [2.5]_");
}

#[test]
fn field_values() {
    let mut a = app();
    a.monitors[1].new_adaptive = true;
    a.monitors[1].new_scale = 1_666_650;
    assert_eq!(a.monitors[1].field_value(3), "enabled [*]");
    // 1.66665 is a little below the tie as an f64.
    assert_eq!(a.monitors[1].field_value(1), "1.6666 [*]");
    assert_eq!(a.monitors[1].field_value(9), "");
    assert!(!a.monitors[1].field_dirty(9));
}

#[test]
fn layout_line() {
    let mut a = app();
    a.layout_sel = 1;
    assert_eq!(position_line(&a), "    eDP-1 (2/2):  x=897 y=1440");
    a.section = Section::Layout;
    a.monitors[1].new_pos = PosMode::Below("DP-1".to_string(), Align::Center);
    assert_eq!(position_line(&a), " >  eDP-1 (2/2):  Below DP-1 (center)  -> (897, 1440) [*]");
}

#[test]
fn display_texts() {
    let a = app();
    assert_eq!(info_line(&a.monitors[0]), "  DP-1  Dell Inc. DELL P3425WE  [external]");
    assert_eq!(info_line(&a.monitors[1]), "  eDP-1    [laptop]");
    assert_eq!(tab_label(&a.monitors[0]), "[DP-1 ]");
    assert_eq!(mode_header(&a.monitors[0]), " Mode for DP-1 (1 available)");
    let m = Mode { width: 1920, height: 1080, refresh: 59_999_500, preferred: false, current: true };
    assert_eq!(mode_row(&m, true), " > 1920x1080 @ 59.999 Hz (current)");
    assert_eq!(m.display(), "1920x1080 @ 59.999 Hz");
    assert_eq!(mode_footer(4, 12), " 5/12 | Up/Dn to scroll ");
    assert_eq!(PosMode::Absolute(-3, 4).display(), "x=-3 y=4");
    assert_eq!(PosMode::LeftOf("A".to_string(), Align::Start).display(), "Left of A");
    assert_eq!(Align::Center.label(), " (center)");
}

#[test]
fn decimals_written_as_f64_formatting_writes_them() {
    let mut values: Vec<i64> = vec![
        0, 1, 5, 50, 500, 1_000_000, 1_001_050, 59_998_500, 59_973_000, 1_750_000, 1_333_333,
        -1_001_050, 123_456_789, 999_999, 4_000_000, 60_000_500, 2_500, 12_500,
    ];
    let mut x: i64 = 7;
    for _ in 0..2000 {
        x = (x * 7_919 + 104_729) % 300_000_000;
        values.push(x);
        values.push(x - x % 50);
        values.push(x - x % 500 + 50);
    }
    for v in values {
        let f = v as f64 / 1_000_000.0;
        for d in 1..=6u32 {
            let mut s = String::new();
            push_fixed(&mut s, v, d);
            assert_eq!(s, format!("{:.*}", d as usize, f), "{} with {} decimals", v, d);
        }
    }
    let mut s = String::new();
    push_fixed(&mut s, 1_001_050, 4);
    assert_eq!(s, "1.0010");
    let mut s = String::new();
    push_fixed(&mut s, 59_998_500, 3);
    assert_eq!(s, "59.998");
}
