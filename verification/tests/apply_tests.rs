use wlr_randr_tui::apply::{apply_args, apply_reply, build_args, no_changes_message};
use wlr_randr_tui::monitor::{Align, Mode, Monitor, PosMode};

fn mon(name: &str, w: u32, h: u32, scale: i64, pos: (i32, i32)) -> Monitor {
    Monitor {
        name: name.to_string(),
        make: String::new(),
        model: String::new(),
        enabled: true,
        modes: vec![
            Mode { width: w, height: h, refresh: 60_000_000, preferred: true, current: true },
            Mode { width: 1920, height: 1080, refresh: 59_940_000, preferred: false, current: false },
        ],
        cur_mode: 0,
        position: pos,
        transform: "normal".to_string(),
        scale,
        adaptive_sync: false,
        new_mode: 0,
        new_pos: PosMode::Absolute(pos.0, pos.1),
        new_transform: "normal".to_string(),
        new_scale: scale,
        new_adaptive: false,
        new_enabled: true,
    }
}

fn pair() -> Vec<Monitor> {
    vec![mon("DP-1", 3440, 1440, 1_000_000, (0, 0)), mon("eDP-1", 2880, 1800, 1_750_000, (897, 1440))]
}

#[test]
fn disabled_output_only_gets_off() {
    let mut ms = pair();
    ms[1].new_enabled = false;
    ms[1].new_scale = 2_000_000;
    assert_eq!(build_args(&ms[1], &ms), vec!["--output", "eDP-1", "--off"]);
}

#[test]
fn unchanged_output_still_gets_pos() {
    let ms = pair();
    assert_eq!(build_args(&ms[0], &ms), vec!["--output", "DP-1", "--pos", "0,0"]);
}

#[test]
fn every_change_is_sent() {
    let mut ms = pair();
    ms[1].enabled = false;
    ms[1].new_mode = 1;
    ms[1].new_pos = PosMode::Below("DP-1".to_string(), Align::Center);
    ms[1].new_scale = 1_500_000;
    ms[1].new_transform = "90".to_string();
    ms[1].new_adaptive = true;
    assert_eq!(
        build_args(&ms[1], &ms),
        vec![
            "--output", "eDP-1", "--on", "--mode", "1920x1080@59.940Hz", "--pos", "1080,1440",
            "--scale", "1.500000", "--transform", "90", "--adaptive-sync", "enabled",
        ]
    );
}

#[test]
fn tiny_scale_change_is_not_sent() {
    let mut ms = pair();
    ms[0].new_scale = 1_000_100;
    assert_eq!(build_args(&ms[0], &ms), vec!["--output", "DP-1", "--pos", "0,0"]);
    ms[0].new_scale = 1_000_101;
    assert_eq!(build_args(&ms[0], &ms).len(), 6);
}

#[test]
fn nothing_pending_nothing_to_apply() {
    let ms = pair();
    assert!(apply_args(&ms).is_none());
    assert_eq!(no_changes_message(), "No changes to apply");
}

#[test]
fn full_layout_is_sent_on_any_change() {
    let mut ms = pair();
    ms[1].new_adaptive = true;
    let args = apply_args(&ms).unwrap();
    assert_eq!(
        args,
        vec![
            "--output", "DP-1", "--pos", "0,0", "--output", "eDP-1", "--pos", "897,1440",
            "--adaptive-sync", "enabled",
        ]
    );
    let reply = apply_reply(&args, true, "");
    assert_eq!(
        reply,
        Ok("wlr-randr --output DP-1 --pos 0,0 --output eDP-1 --pos 897,1440 --adaptive-sync enabled".to_string())
    );
}

#[test]
fn failure_reports_trimmed_stderr() {
    let args = vec!["--output".to_string(), "X".to_string()];
    assert_eq!(apply_reply(&args, false, "  no such output\n\n"), Err("no such output".to_string()));
    assert_eq!(apply_reply(&Vec::new(), true, "x"), Ok("wlr-randr ".to_string()));
}
