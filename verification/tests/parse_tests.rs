use wlr_randr_tui::monitor::{logical_size, resolve_abs, Align, Monitor, PosMode};
use wlr_randr_tui::parse::parse_output;
use wlr_randr_tui::scale::read_number;

const SAMPLE: &str = "DP-1 \"Dell Inc. DELL P3425WE ABC123 (DP-1)\"
  Make: Dell Inc.
  Model: DELL P3425WE
  Serial: ABC123
  Physical size: 800x335 mm
  Enabled: yes
  Modes:
    3440x1440 px, 59.973000 Hz (preferred, current)
    2560x1440 px, 59.951000 Hz
    1920x1080 px, 60.000000 Hz
  Position: 0,0
  Transform: normal
  Scale: 1.000000
  Adaptive Sync: disabled
eDP-1 \"BOE 0x0BCA (eDP-1)\"
  Make: BOE
  Model: 0x0BCA
  Physical size: 300x190 mm
  Enabled: yes
  Modes:
    2880x1800 px, 60.001000 Hz (preferred, current)
    1920x1200 px, 59.950000 Hz
  Position: 897,1440
  Transform: normal
  Scale: 1.750000
  Adaptive Sync: enabled
";

fn sample() -> Vec<Monitor> {
    parse_output(SAMPLE)
}

#[test]
fn parses_two_outputs() {
    let ms = sample();
    assert_eq!(ms.len(), 2);
    assert_eq!(ms[0].name, "DP-1");
    assert_eq!(ms[0].make, "Dell Inc.");
    assert_eq!(ms[0].model, "DELL P3425WE");
    assert!(ms[0].enabled);
    assert_eq!(ms[0].modes.len(), 3);
    assert_eq!(ms[0].modes[0].width, 3440);
    assert_eq!(ms[0].modes[0].height, 1440);
    assert_eq!(ms[0].modes[0].refresh, 59_973_000);
    assert!(ms[0].modes[0].preferred);
    assert!(ms[0].modes[0].current);
    assert!(!ms[0].modes[1].current);
    assert_eq!(ms[0].cur_mode, 0);
    assert_eq!(ms[0].position, (0, 0));
    assert_eq!(ms[0].transform, "normal");
    assert_eq!(ms[0].scale, 1_000_000);
    assert!(!ms[0].adaptive_sync);
    assert_eq!(ms[1].name, "eDP-1");
    assert_eq!(ms[1].position, (897, 1440));
    assert_eq!(ms[1].scale, 1_750_000);
    assert!(ms[1].adaptive_sync);
}

#[test]
fn parsed_outputs_have_nothing_pending() {
    for m in sample().iter() {
        assert!(!m.dirty());
        assert_eq!(m.new_mode, m.cur_mode);
        assert!(m.new_pos.is_absolute_eq(m.position));
    }
}

#[test]
fn output_without_modes_is_skipped() {
    let ms = parse_output("HDMI-A-1 \"x\"\n  Enabled: no\n  Modes:\nDP-2 \"y\"\n  Modes:\n    1024x768 px, 60.004000 Hz\n");
    assert_eq!(ms.len(), 1);
    assert_eq!(ms[0].name, "DP-2");
    assert_eq!(ms[0].cur_mode, 0);
    assert!(!ms[0].modes[0].current);
}

#[test]
fn defaults_and_malformed_values() {
    let text = "X-1\n\tEnabled: no\n\tModes:\n\t\t800x600 px, 75 Hz\n\t\tbadxline px, 1 Hz\n\t\t640x480 px, 60.0 Hz (current)\n\tPosition: 12\n\tScale: oops\n";
    let ms = parse_output(text);
    assert_eq!(ms.len(), 1);
    let m = &ms[0];
    assert!(!m.enabled);
    assert_eq!(m.modes.len(), 2);
    assert_eq!(m.modes[0].refresh, 75_000_000);
    assert_eq!(m.cur_mode, 1);
    assert_eq!(m.position, (12, 0));
    assert_eq!(m.scale, 1_000_000);
    assert_eq!(m.transform, "normal");
}

#[test]
fn windows_line_endings_and_negative_position() {
    let text = "DP-3 \"z\"\r\n  Modes:\r\n    1280x1024 px, 60.020000 Hz (current)\r\n  Position: -1280, 200\r\n";
    let ms = parse_output(text);
    assert_eq!(ms.len(), 1);
    assert_eq!(ms[0].position, (-1280, 200));
    assert_eq!(ms[0].modes[0].refresh, 60_020_000);
}

#[test]
fn empty_text_has_no_outputs() {
    assert_eq!(parse_output("").len(), 0);
    assert_eq!(parse_output("   \n\n").len(), 0);
}

#[test]
fn logical_size_divides_by_scale() {
    let ms = sample();
    assert_eq!(logical_size(&ms[0]), (3440, 1440));
    // 2880 / 1.75 = 1645.71.., 1800 / 1.75 = 1028.57..
    assert_eq!(logical_size(&ms[1]), (1646, 1029));
}

#[test]
fn laptop_centered_below_external() {
    let mut ms = sample();
    ms[1].new_pos = PosMode::Below("DP-1".to_string(), Align::Center);
    let p = resolve_abs(&ms[1].new_pos, &ms[1], &ms, 0);
    assert_eq!(p, (897, 1440));
}

#[test]
fn relative_placements_resolve() {
    let mut ms = sample();
    let cases = [
        (PosMode::Below("DP-1".to_string(), Align::Start), (0, 1440)),
        (PosMode::RightOf("DP-1".to_string(), Align::Start), (3440, 0)),
        (PosMode::RightOf("DP-1".to_string(), Align::Center), (3440, 205)),
        (PosMode::LeftOf("DP-1".to_string(), Align::Start), (-1646, 0)),
        (PosMode::Above("DP-1".to_string(), Align::Start), (0, -1029)),
        (PosMode::Above("DP-1".to_string(), Align::Center), (897, -1029)),
        (PosMode::Absolute(5, -7), (5, -7)),
    ];
    for (pos, expected) in cases.iter() {
        ms[1].new_pos = pos.duplicate();
        assert_eq!(resolve_abs(&ms[1].new_pos, &ms[1], &ms, 0), *expected);
    }
}

#[test]
fn missing_or_circular_reference_falls_back() {
    let mut ms = sample();
    ms[1].new_pos = PosMode::Below("HDMI-9".to_string(), Align::Start);
    assert_eq!(resolve_abs(&ms[1].new_pos, &ms[1], &ms, 0), (897, 1440));
    ms[0].new_pos = PosMode::RightOf("eDP-1".to_string(), Align::Start);
    ms[1].new_pos = PosMode::RightOf("DP-1".to_string(), Align::Start);
    // the chain comes back to eDP-1: it keeps its reported position
    let p = resolve_abs(&ms[1].new_pos, &ms[1], &ms, 0);
    // one step before the depth limit the cycle is not reached: DP-1's
    // reported position plus its width
    let q = resolve_abs(&ms[1].new_pos, &ms[1], &ms, 8);
    assert_eq!(q, (3440, 0));
    assert_eq!(p, (897, 1440));
    assert_eq!(resolve_abs(&ms[0].new_pos, &ms[0], &ms, 0), (0, 0));
}

#[test]
fn numbers_with_powers_of_ten() {
    let cases: [(&str, Option<i64>); 14] = [
        ("1.5e3", Some(1_500_000_000)),
        ("12.5e-1", Some(1_250_000)),
        ("6E1", Some(60_000_000)),
        ("1e13", Some(i64::MAX)),
        ("-1e20", Some(-i64::MAX)),
        ("0e99", Some(0)),
        ("-0.000e999999999999999999999999999999999999999", Some(0)),
        ("1e-7", Some(0)),
        ("5e-7", Some(1)),
        ("1e-99999999999999999999999999999999999999999999", Some(0)),
        ("59.9985e0", Some(59_998_500)),
        ("1e", None),
        ("inf", None),
        ("e3", None),
    ];
    for (text, want) in cases {
        let chars: Vec<char> = text.chars().collect();
        assert_eq!(read_number(&chars, 0, chars.len()), want, "{}", text);
    }
}

#[test]
fn report_numbers_with_powers_of_ten() {
    let text = "X-1\n  Modes:\n    1920x1080 px, 6e1 Hz (current)\n  Position: 0,0\n  Scale: 15e-1\n";
    let ms = parse_output(text);
    assert_eq!(ms.len(), 1);
    assert_eq!(ms[0].modes.len(), 1);
    assert_eq!(ms[0].modes[0].refresh, 60_000_000);
    assert_eq!(ms[0].scale, 1_500_000);
}
