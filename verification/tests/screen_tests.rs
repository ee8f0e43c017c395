use wlr_randr_tui::app::{App, Section, UiMode};
use wlr_randr_tui::parse::parse_output;
use wlr_randr_tui::ui::{draw, draw_statusbar, field_line, pad, Piece, Style};

const SAMPLE: &str = "DP-1 \"Dell\"
  Make: Dell Inc.
  Model: DELL P3425WE
  Modes:
    3440x1440 px, 59.973000 Hz (preferred, current)
  Position: 0,0
eDP-1 \"BOE\"
  Modes:
    2880x1800 px, 60.001000 Hz (preferred, current)
  Position: 897,1440
  Scale: 1.750000
";

fn app() -> App {
    App::new(parse_output(SAMPLE))
}

fn is(p: &Piece, y: i32, x: i32, text: &str, style: Style) -> bool {
    p.y == y && p.x == x && p.text == text && p.style == style
}

#[test]
fn screen_top_to_bottom() {
    let a = app();
    let ps = draw(&a, 40, 80).expect("screen");
    assert!(is(&ps[0], 0, 0, &pad(" wlr-randr TUI", 80), Style::HeaderBold));
    assert!(is(&ps[1], 1, 0, &" ".repeat(80), Style::Plain));
    assert!(is(&ps[2], 1, 1, "[DP-1 ]", Style::Bold));
    assert!(is(&ps[3], 1, 9, "[eDP-1 ]", Style::Plain));
    assert!(is(&ps[4], 1, 70, "Tab:focus", Style::Header));
    assert!(is(&ps[5], 2, 0, &"-".repeat(80), Style::Plain));
    assert!(is(
        &ps[6],
        3,
        0,
        &pad("  DP-1  Dell Inc. DELL P3425WE  [external]", 80),
        Style::Plain
    ));
    assert!(is(&ps[7], 4, 0, &"-".repeat(80), Style::Plain));
    for f in 0..5 {
        let st = if f == 0 { Style::SelectedBold } else { Style::Plain };
        assert!(is(&ps[8 + f], 5 + f as i32, 0, &pad(&field_line(&a, f), 80), st));
    }
    assert!(is(&ps[13], 10, 0, &"-".repeat(80), Style::Plain));
    assert!(is(&ps[14], 11, 0, &" ".repeat(80), Style::Plain));
    assert!(is(&ps[15], 11, 1, "Layout  Proj:", Style::Plain));
    assert!(is(&ps[16], 11, 15, "[Extend]", Style::Plain));
    assert!(is(&ps[17], 11, 24, "[Ext Only]", Style::Plain));
    assert!(is(&ps[18], 11, 35, "[Laptop Only]", Style::Plain));
    assert!(is(&ps[19], 11, 49, "[Custom]", Style::SelectedBold));
    assert!(is(&ps[20], 11, 59, "p/,/.:cycle", Style::Header));
    assert!(is(&ps[21], 12, 0, &pad("    DP-1 (1/2):   x=0 y=0", 80), Style::Plain));
    assert!(is(&ps[22], 13, 1, "+", Style::Selected));
    let last = ps.last().unwrap();
    assert!(is(
        last,
        39,
        0,
        &pad(" Up/Dn:field  L/R:cycle  Enter:edit  Tab:layout  a:apply  r:reset  q:quit", 80),
        Style::StatusBar
    ));
    assert!(ps[22..ps.len() - 1].iter().all(|p| p.y >= 13 && p.y < 39));
}

#[test]
fn short_screen_keeps_what_fits() {
    let a = app();
    let ps = draw(&a, 8, 80).expect("screen");
    // Title, blank, two tabs, hint, rule, info, rule, fields on rows 5 and 6, status.
    assert_eq!(ps.len(), 11);
    assert_eq!(ps[9].y, 6);
    assert!(is(&ps[10], 7, 0, &pad(" Up/Dn:field  L/R:cycle  Enter:edit  Tab:layout  a:apply  r:reset  q:quit", 80), Style::StatusBar));
}

#[test]
fn narrow_screen_drops_tabs_and_hints() {
    let a = app();
    let ps = draw(&a, 8, 10).expect("screen");
    assert!(is(&ps[2], 1, 1, "[DP-1 ]", Style::Bold));
    assert_eq!(ps[3].y, 2);
}

#[test]
fn focus_moves_highlights() {
    let mut a = app();
    a.section = Section::Tabs;
    let ps = draw(&a, 40, 80).expect("screen");
    assert!(is(&ps[2], 1, 1, "[DP-1 ]", Style::SelectedBold));
    assert_eq!(ps[8].style, Style::Plain);
    a.section = Section::Layout;
    let ps = draw(&a, 40, 80).expect("screen");
    assert!(is(&ps[2], 1, 1, "[DP-1 ]", Style::Bold));
    assert!(is(&ps[21], 12, 0, &pad(" >  DP-1 (1/2):   x=0 y=0", 80), Style::SelectedBold));
}

#[test]
fn mode_list_replaces_settings() {
    let mut a = app();
    a.ui = UiMode::ModeSelect { scroll: 0, hover: 0 };
    let ps = draw(&a, 10, 60).expect("screen");
    assert!(is(&ps[6], 3, 0, &pad(" Mode for DP-1 (1 available)", 60), Style::OverlayBold));
    assert!(is(
        &ps[7],
        4,
        0,
        &pad(" > 3440x1440 @ 59.973 Hz (preferred) (current)", 60),
        Style::SelectedBold
    ));
    for i in 1..5 {
        assert!(is(&ps[7 + i], 4 + i as i32, 0, &" ".repeat(60), Style::Plain));
    }
    assert!(is(&ps[12], 9, 0, &pad(" Up/Dn:scroll  Enter:select  Esc:cancel", 60), Style::StatusBar));
    assert_eq!(ps.len(), 13);
}

#[test]
fn long_mode_list_has_a_scroll_line() {
    let text = "HDMI-A-1 \"X\"\n  Modes:\n    1920x1080 px, 60.000000 Hz (preferred, current)\n    1280x720 px, 60.000000 Hz\n    800x600 px, 60.000000 Hz\n    320x200 px, 60.000000 Hz\n  Position: 0,0\n";
    let mut a = App::new(parse_output(text));
    a.ui = UiMode::ModeSelect { scroll: 1, hover: 2 };
    let ps = draw(&a, 8, 60).expect("screen");
    // Four modes do not fit in the three rows above the status line: two rows
    // of the list (rows 4 and 5), the scroll line on row 6, then the status line.
    assert!(is(&ps[5], 3, 0, &pad(" Mode for HDMI-A-1 (4 available)", 60), Style::OverlayBold));
    assert!(is(&ps[6], 4, 0, &pad("   1280x720 @ 60.000 Hz", 60), Style::Plain));
    assert!(is(&ps[7], 5, 0, &pad(" > 800x600 @ 60.000 Hz", 60), Style::SelectedBold));
    assert!(is(&ps[8], 6, 0, &pad(" 3/4 | Up/Dn to scroll ", 60), Style::Header));
    assert_eq!(ps[9].y, 7);
    assert_eq!(ps.len(), 10);
    // A window that has fallen behind the cursor is moved to show it.
    a.ui = UiMode::ModeSelect { scroll: 0, hover: 3 };
    let ps = draw(&a, 8, 60).expect("screen");
    assert!(is(&ps[6], 4, 0, &pad("   800x600 @ 60.000 Hz", 60), Style::Plain));
    assert!(is(&ps[7], 5, 0, &pad(" > 320x200 @ 60.000 Hz", 60), Style::SelectedBold));
}

#[test]
fn mode_list_that_fits_has_no_scroll_line() {
    let text = "HDMI-A-1 \"X\"\n  Modes:\n    1920x1080 px, 60.000000 Hz (preferred, current)\n    1280x720 px, 60.000000 Hz\n    800x600 px, 60.000000 Hz\n  Position: 0,0\n";
    let mut a = App::new(parse_output(text));
    a.ui = UiMode::ModeSelect { scroll: 0, hover: 2 };
    let ps = draw(&a, 8, 60).expect("screen");
    // Exactly three modes for the three rows above the status line.
    assert!(is(&ps[6], 4, 0, &pad("   1920x1080 @ 60.000 Hz (preferred) (current)", 60), Style::Modified));
    assert!(is(&ps[7], 5, 0, &pad("   1280x720 @ 60.000 Hz", 60), Style::Plain));
    assert!(is(&ps[8], 6, 0, &pad(" > 800x600 @ 60.000 Hz", 60), Style::SelectedBold));
    assert_eq!(ps[9].y, 7);
    assert_eq!(ps.len(), 10);
}

#[test]
fn status_line_styles() {
    let mut a = app();
    a.set_status("boom".to_string(), true);
    let ps = draw_statusbar(&a, 24, 20).expect("status");
    assert_eq!(ps.len(), 1);
    assert!(is(&ps[0], 23, 0, "[ERR]  boom         ", Style::Error));
    a.set_status("fine".to_string(), false);
    let ps = draw_statusbar(&a, 24, 12).expect("status");
    assert!(is(&ps[0], 23, 0, "[OK]   fine ", Style::StatusBar));
}

#[test]
fn line_cut_inside_a_character_is_refused() {
    let mut a = app();
    a.set_status("ééé".to_string(), false);
    // "[OK]   " is 7 bytes; 8 bytes cut the first "é" in two.
    assert!(draw_statusbar(&a, 24, 8).is_none());
    assert!(draw(&a, 24, 8).is_none());
    assert!(draw_statusbar(&a, 24, 9).is_some());
}
