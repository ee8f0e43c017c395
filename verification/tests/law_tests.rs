use wlr_randr_tui::app::{App, Section, UiMode};
use wlr_randr_tui::apply::apply_args;
use wlr_randr_tui::input::{handle, Key};
use wlr_randr_tui::monitor::{pos_cycle_list, resolve_abs, Align, PosMode};
use wlr_randr_tui::parse::parse_output;
use wlr_randr_tui::proj::{apply_proj, Proj};
use wlr_randr_tui::scale::{read_scale, ScaleEntry};

const SAMPLE: &str = "DP-1\n  Modes:\n    3440x1440 px, 59.973000 Hz (current)\n    1920x1080 px, 60.000000 Hz\n  Position: 0,0\neDP-1\n  Modes:\n    2880x1800 px, 60.001000 Hz (current)\n  Position: 897,1440\n  Scale: 1.750000\nHDMI-A-1\n  Modes:\n    1280x720 px, 60.000000 Hz (current)\n  Position: 3440,0\n";

#[test]
fn fresh_outputs_need_no_apply() {
    let ms = parse_output(SAMPLE);
    assert_eq!(ms.len(), 3);
    assert!(apply_args(&ms).is_none());
}

#[test]
fn cycle_list_shape() {
    let others = vec!["A".to_string(), "B".to_string()];
    let l = pos_cycle_list(&PosMode::Absolute(3, 4), &others);
    assert_eq!(l.len(), 17);
    assert!(l[0].same_as(&PosMode::Below("A".to_string(), Align::Start)));
    assert!(l[7].same_as(&PosMode::LeftOf("A".to_string(), Align::Center)));
    assert!(l[10].same_as(&PosMode::RightOf("B".to_string(), Align::Start)));
    assert!(l[16].same_as(&PosMode::Absolute(3, 4)));
    let l = pos_cycle_list(&PosMode::Above("B".to_string(), Align::Center), &Vec::new());
    assert_eq!(l.len(), 1);
    assert!(l[0].same_as(&PosMode::Absolute(0, 0)));
}

#[test]
fn type_then_backspace_restores_text() {
    let mut a = App::new(parse_output(SAMPLE));
    a.sel_field = 1;
    handle(&mut a, Key::Enter, 24);
    let before = a.buf.clone();
    handle(&mut a, Key::Code('7' as i32), 24);
    assert_eq!(a.buf, format!("{}7", before));
    handle(&mut a, Key::Backspace, 24);
    assert_eq!(a.buf, before);
    handle(&mut a, Key::Code(8), 24);
    handle(&mut a, Key::Code(127), 24);
    assert_eq!(a.buf, "1.00");
}

#[test]
fn scale_enter_twice_keeps_scale() {
    let mut a = App::new(parse_output(SAMPLE));
    a.tab = 1;
    a.sel_field = 1;
    handle(&mut a, Key::Enter, 24);
    assert_eq!(a.buf, "1.7500");
    handle(&mut a, Key::Enter, 24);
    assert_eq!(a.monitors[1].new_scale, 1_750_000);
    assert!(!a.monitors[1].dirty());
}

#[test]
fn layout_right_left_restores_placement() {
    let mut a = App::new(parse_output(SAMPLE));
    a.section = Section::Layout;
    a.layout_sel = 1;
    a.monitors[1].new_pos = PosMode::LeftOf("HDMI-A-1".to_string(), Align::Center);
    handle(&mut a, Key::Right, 24);
    assert!(a.monitors[1].new_pos.same_as(&PosMode::Absolute(0, 0)));
    handle(&mut a, Key::Left, 24);
    assert!(a.monitors[1].new_pos.same_as(&PosMode::LeftOf("HDMI-A-1".to_string(), Align::Center)));
}

#[test]
fn settings_right_left_restores_setting() {
    let mut a = App::new(parse_output(SAMPLE));
    a.sel_field = 2;
    a.monitors[0].new_transform = "flipped-180".to_string();
    handle(&mut a, Key::Right, 24);
    assert_eq!(a.monitors[0].new_transform, "flipped-270");
    handle(&mut a, Key::Left, 24);
    assert_eq!(a.monitors[0].new_transform, "flipped-180");
    a.sel_field = 0;
    handle(&mut a, Key::Right, 24);
    handle(&mut a, Key::Right, 24);
    assert_eq!(a.monitors[0].new_mode, 0);
}

#[test]
fn reset_clears_pending_changes() {
    let mut a = App::new(parse_output(SAMPLE));
    a.monitors[0].new_mode = 1;
    a.monitors[0].new_scale = 2_000_000;
    a.monitors[0].new_pos = PosMode::Below("eDP-1".to_string(), Align::Start);
    a.monitors[0].new_enabled = false;
    assert!(a.monitors[0].dirty());
    a.monitors[0].reset();
    assert!(!a.monitors[0].dirty());
    assert!(apply_args(&a.monitors).is_none());
}

fn reported(m: &wlr_randr_tui::monitor::Monitor) -> (String, bool, usize, usize, (i32, i32), String, i64, bool) {
    (
        m.name.clone(),
        m.enabled,
        m.modes.len(),
        m.cur_mode,
        m.position,
        m.transform.clone(),
        m.scale,
        m.adaptive_sync,
    )
}

#[test]
fn keys_only_stage_settings() {
    let mut a = App::new(parse_output(SAMPLE));
    let before: Vec<_> = a.monitors.iter().map(reported).collect();
    let keys = [
        Key::Right,
        Key::Down,
        Key::Right,
        Key::Down,
        Key::Right,
        Key::Down,
        Key::Enter,
        Key::Down,
        Key::Enter,
        Key::Code(9),
        Key::Down,
        Key::Right,
        Key::Right,
        Key::Code('p' as i32),
        Key::Code(',' as i32),
        Key::Code('r' as i32),
        Key::Enter,
        Key::Code('5' as i32),
        Key::Enter,
    ];
    for k in keys {
        handle(&mut a, k, 24);
        let now: Vec<_> = a.monitors.iter().map(reported).collect();
        assert_eq!(now, before);
    }
    assert!(apply_args(&a.monitors).is_some());
}

#[test]
fn shown_position_is_applied() {
    let mut a = App::new(parse_output(SAMPLE));
    a.monitors[1].new_pos = PosMode::Below("DP-1".to_string(), Align::Center);
    a.layout_sel = 1;
    let line = wlr_randr_tui::ui::position_line(&a);
    assert!(line.contains("-> (897, 1440)"));
    let args = apply_args(&a.monitors).expect("pending");
    let at = args.iter().position(|s| s == "eDP-1").expect("output");
    let k = at + args[at..].iter().position(|s| s == "--pos").expect("--pos");
    assert_eq!(args[k + 1], "897,1440");
    a.monitors[1].new_pos = PosMode::RightOf("DP-1".to_string(), Align::Start);
    let line = wlr_randr_tui::ui::position_line(&a);
    assert!(line.contains("-> (3440, 0)"));
    let args = apply_args(&a.monitors).expect("pending");
    let at = args.iter().position(|s| s == "eDP-1").expect("output");
    let k = at + args[at..].iter().position(|s| s == "--pos").expect("--pos");
    assert_eq!(args[k + 1], "3440,0");
}

#[test]
fn whole_layout_sent() {
    let mut a = App::new(parse_output(SAMPLE));
    a.monitors[2].new_enabled = false;
    let args = apply_args(&a.monitors).expect("pending");
    let names: Vec<&String> = args
        .iter()
        .enumerate()
        .filter(|(k, s)| *s == "--output" && k + 1 < args.len())
        .map(|(k, _)| &args[k + 1])
        .collect();
    assert_eq!(names, vec!["DP-1", "eDP-1", "HDMI-A-1"]);
    assert_eq!(args[0], "--output");
    assert_eq!(&args[args.len() - 3..], &["--output", "HDMI-A-1", "--off"]);
}

#[test]
fn r_resets_current_output_only() {
    let mut a = App::new(parse_output(SAMPLE));
    handle(&mut a, Key::Right, 24);
    assert!(a.monitors[0].dirty());
    a.monitors[1].new_enabled = false;
    handle(&mut a, Key::Code('r' as i32), 24);
    assert!(!a.monitors[0].dirty());
    assert!(a.monitors[1].dirty());
    assert_eq!(a.status, "Reset DP-1");
}

#[test]
fn tab_cycles_focus() {
    let mut a = App::new(parse_output(SAMPLE));
    assert_eq!(a.section, Section::Settings);
    handle(&mut a, Key::Code(9), 24);
    assert_eq!(a.section, Section::Layout);
    handle(&mut a, Key::Code(9), 24);
    assert_eq!(a.section, Section::Tabs);
    handle(&mut a, Key::Code(9), 24);
    assert_eq!(a.section, Section::Settings);
}

#[test]
fn mode_list_open_and_close() {
    let mut a = App::new(parse_output(SAMPLE));
    handle(&mut a, Key::Enter, 24);
    assert_eq!(a.ui, UiMode::ModeSelect { scroll: 0, hover: 0 });
    handle(&mut a, Key::Enter, 24);
    assert_eq!(a.ui, UiMode::Normal);
    assert!(apply_args(&a.monitors).is_none());
    handle(&mut a, Key::Enter, 24);
    handle(&mut a, Key::Down, 24);
    handle(&mut a, Key::Code(27), 24);
    assert_eq!(a.ui, UiMode::Normal);
    assert!(apply_args(&a.monitors).is_none());
    handle(&mut a, Key::Enter, 24);
    handle(&mut a, Key::Down, 24);
    handle(&mut a, Key::Enter, 24);
    assert_eq!(a.monitors[0].new_mode, 1);
}

#[test]
fn circular_placement_keeps_reported() {
    let mut ms = parse_output(SAMPLE);
    ms[0].new_pos = PosMode::Below("eDP-1".to_string(), Align::Start);
    ms[1].new_pos = PosMode::Below("DP-1".to_string(), Align::Center);
    assert_eq!(resolve_abs(&ms[0].new_pos, &ms[0], &ms, 0), (0, 0));
    assert_eq!(resolve_abs(&ms[1].new_pos, &ms[1], &ms, 0), (897, 1440));
    ms[2].new_pos = PosMode::RightOf("DP-1".to_string(), Align::Start);
    assert_eq!(resolve_abs(&ms[2].new_pos, &ms[2], &ms, 0), (3440, 0));
    ms[2].new_pos = PosMode::RightOf("HDMI-A-1".to_string(), Align::Start);
    assert_eq!(resolve_abs(&ms[2].new_pos, &ms[2], &ms, 0), (3440, 0));
    ms[0].new_pos = PosMode::Absolute(10, 20);
    assert_eq!(resolve_abs(&ms[1].new_pos, &ms[1], &ms, 0), (10 + 897, 20 + 1440));
}

#[test]
fn preset_twice_is_preset_once() {
    for p in Proj::all() {
        let mut once = parse_output(SAMPLE);
        apply_proj(&mut once, p);
        let mut twice = parse_output(SAMPLE);
        apply_proj(&mut twice, p);
        apply_proj(&mut twice, p);
        for (a, b) in once.iter().zip(twice.iter()) {
            assert_eq!(a.new_enabled, b.new_enabled);
            assert!(a.new_pos.same_as(&b.new_pos));
        }
    }
}

#[test]
fn scale_right_left_on_the_grid() {
    let mut a = App::new(parse_output(SAMPLE));
    a.sel_field = 1;
    for s in [250_000i64, 1_000_000, 1_750_000, 3_750_000] {
        a.monitors[0].new_scale = s;
        handle(&mut a, Key::Right, 24);
        assert_eq!(a.monitors[0].new_scale, s + 250_000);
        handle(&mut a, Key::Left, 24);
        assert_eq!(a.monitors[0].new_scale, s);
    }
}

#[test]
fn parsed_outputs_copy_reported_settings() {
    let text = "X\n  Modes:\n    800x600 px, 60.000000 Hz\n    1024x768 px, 60.000000 Hz (current)\n    640x480 px, 60.000000 Hz (current)\n  Position: 5,6\n  Transform: 90\n  Scale: 2.000000\n  Adaptive Sync: enabled\n  Enabled: no\n";
    let ms = parse_output(text);
    let m = &ms[0];
    assert_eq!(m.cur_mode, 1);
    assert_eq!(m.new_mode, 1);
    assert!(m.new_pos.same_as(&PosMode::Absolute(5, 6)));
    assert_eq!(m.new_transform, "90");
    assert_eq!(m.new_scale, 2_000_000);
    assert!(m.new_adaptive && !m.new_enabled);
    assert!(!m.dirty());
}

#[test]
fn mode_list_keeps_cursor_in_view() {
    let text = "X\n  Modes:\n    800x600 px, 60.000000 Hz (current)\n    1024x768 px, 60.000000 Hz\n    640x480 px, 60.000000 Hz\n    320x200 px, 60.000000 Hz\n";
    let mut a = App::new(parse_output(text));
    let rows = 8; // four modes, two rows of the list and the scroll line
    handle(&mut a, Key::Enter, rows);
    for k in [Key::Down, Key::Down, Key::Down, Key::Down, Key::Up, Key::Up, Key::Up, Key::Down] {
        handle(&mut a, k, rows);
        match a.ui {
            UiMode::ModeSelect { scroll, hover } => {
                assert!(scroll <= hover && hover < scroll + 2);
                assert!(4 + (hover - scroll) < rows as usize - 2);
            }
            _ => panic!("mode list closed"),
        }
    }
}

#[test]
fn typed_scale_stays_in_range() {
    let texts = [
        "3.99999999", "4.0000004", "4", "39.9999999e-1", "0.39999999999E1", "1e-9", "4.000000000000000000001",
        "400000000000000000000e-20", "0.0000005",
    ];
    for t in texts {
        let chars: Vec<char> = t.chars().collect();
        if let ScaleEntry::Value(v) = read_scale(&chars, 0, chars.len()) {
            assert!((0..=4_000_000).contains(&v), "{}", t);
        }
    }
    let chars: Vec<char> = "3.99999999".chars().collect();
    assert_eq!(read_scale(&chars, 0, chars.len()), ScaleEntry::Value(4_000_000));
    let chars: Vec<char> = "0.0000005".chars().collect();
    assert_eq!(read_scale(&chars, 0, chars.len()), ScaleEntry::Value(1));
    let chars: Vec<char> = "4.000000000000000000001".chars().collect();
    assert_eq!(read_scale(&chars, 0, chars.len()), ScaleEntry::OutOfRange);
    let chars: Vec<char> = "400000000000000000000e-20".chars().collect();
    assert_eq!(read_scale(&chars, 0, chars.len()), ScaleEntry::Value(4_000_000));
}
