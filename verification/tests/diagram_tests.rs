use wlr_randr_tui::app::{App, Section};
use wlr_randr_tui::diagram::draw_layout_diagram;
use wlr_randr_tui::ui::{Piece, Style};
use wlr_randr_tui::parse::parse_output;

const SAMPLE: &str = "DP-1 \"Dell\"
  Make: Dell Inc.
  Model: DELL P3425WE
  Modes:
    3440x1440 px, 59.973000 Hz (preferred, current)
  Position: 0,0
eDP-1 \"BOE\"
  Modes:
    2880x1800 px, 60.001000 Hz (preferred, current)
  Position: 897,1440
  Scale: 1.750000
";

fn at<'a>(ps: &'a [Piece], y: i32, x: i32) -> Vec<&'a Piece> {
    ps.iter().filter(|p| p.y == y && p.x == x).collect()
}

#[test]
fn single_output_box() {
    let text = "HDMI-A-1 \"X\"\n  Modes:\n    1920x1080 px, 60.000000 Hz (preferred, current)\n  Position: 0,0\n";
    let app = App::new(parse_output(text));
    let ps = draw_layout_diagram(&app, 10, 24, 80);
    // 23 cells wide (1920 * 13 / 1080), 7 rows high (6.5 rounded away from zero),
    // the name centered on the top border.
    assert_eq!(ps.len(), 16 + 5 * 2 + 23);
    assert_eq!(at(&ps, 10, 1)[0].text, "+");
    assert_eq!(at(&ps, 10, 23)[0].text, "+");
    assert_eq!(at(&ps, 10, 3)[0].text, "-");
    assert_eq!(at(&ps, 10, 8)[0].text, "HDMI-A-1");
    assert!(at(&ps, 10, 12).is_empty());
    assert_eq!(at(&ps, 10, 16)[0].text, "-");
    assert_eq!(at(&ps, 16, 1)[0].text, "+");
    assert_eq!(at(&ps, 16, 23)[0].text, "+");
    assert_eq!(at(&ps, 12, 1)[0].text, "|");
    assert_eq!(at(&ps, 12, 23)[0].text, "|");
    assert!(at(&ps, 13, 2).is_empty());
    assert!(ps.iter().all(|p| p.style == Style::Selected));
    assert!(at(&ps, 17, 1).is_empty());
}

#[test]
fn two_outputs_scaled_to_fit() {
    let app = App::new(parse_output(SAMPLE));
    let ps = draw_layout_diagram(&app, 10, 40, 80);
    assert_eq!(ps.len(), 89 + 42);
    // The selected output is the current tab's: DP-1.
    let top = at(&ps, 10, 1);
    assert_eq!(top.len(), 1);
    assert!(top[0].style == Style::Selected);
    assert_eq!(at(&ps, 10, 40)[0].text, "+");
    assert_eq!(at(&ps, 17, 40)[0].text, "+");
    assert_eq!(at(&ps, 10, 19)[0].text, "DP-1");
    // eDP-1 at 897,1440 with its logical size 1646x1029.
    let corner = at(&ps, 27, 12);
    assert_eq!(corner[0].text, "+");
    assert!(corner[0].style == Style::Plain);
    assert_eq!(at(&ps, 27, 30)[0].text, "+");
    assert_eq!(at(&ps, 32, 30)[0].text, "+");
    assert_eq!(at(&ps, 27, 19)[0].text, "eDP-1");
}

#[test]
fn layout_selection_is_highlighted() {
    let mut app = App::new(parse_output(SAMPLE));
    app.section = Section::Layout;
    app.layout_sel = 1;
    let ps = draw_layout_diagram(&app, 10, 40, 80);
    assert_eq!(at(&ps, 10, 1)[0].style, Style::Plain);
    assert_eq!(at(&ps, 27, 12)[0].style, Style::Selected);
}

#[test]
fn no_diagram_without_room() {
    let app = App::new(parse_output(SAMPLE));
    assert_eq!(draw_layout_diagram(&app, 10, 13, 80).len(), 0);
    assert_eq!(draw_layout_diagram(&app, 10, 40, 9).len(), 0);
}

#[test]
fn nothing_on_the_status_line() {
    let app = App::new(parse_output(SAMPLE));
    // Four free rows: eDP-1's box would end on the status line, row 14.
    let ps = draw_layout_diagram(&app, 10, 15, 80);
    assert!(!ps.is_empty());
    assert!(ps.iter().all(|p| p.y < 14));
    assert!(ps.iter().any(|p| p.y == 13 && p.style == Style::Plain));
}

#[test]
fn boxes_right_of_the_screen_are_skipped() {
    let app = App::new(parse_output(SAMPLE));
    // With 10 columns DP-1 spans 8 cells; every piece stays left of column 10.
    let ps = draw_layout_diagram(&app, 10, 40, 10);
    assert!(!ps.is_empty());
    assert!(ps.iter().all(|p| p.x < 10));
}

#[test]
fn long_or_wide_names_on_the_border() {
    let text = "ééééééééééé \"X\"\n  Modes:\n    1920x1080 px, 60.000000 Hz (preferred, current)\n  Position: 0,0\n";
    let app = App::new(parse_output(text));
    let ps = draw_layout_diagram(&app, 10, 24, 80);
    // 21 cells between the corners hold the 11 characters, from column 7.
    assert_eq!(at(&ps, 10, 7)[0].text, "ééééééééééé");
    let text = "ABCDEFGHIJKLMNOPQRSTUVWXYZ \"X\"\n  Modes:\n    1920x1080 px, 60.000000 Hz (preferred, current)\n  Position: 0,0\n";
    let app = App::new(parse_output(text));
    let ps = draw_layout_diagram(&app, 10, 24, 80);
    assert_eq!(at(&ps, 10, 2)[0].text, "ABCDEFGHIJKLMNOPQRSTU");
}
