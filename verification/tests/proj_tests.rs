use wlr_randr_tui::monitor::{Align, Mode, Monitor, PosMode};
use wlr_randr_tui::proj::{apply_proj, Proj};

fn mon(name: &str) -> Monitor {
    Monitor {
        name: name.to_string(),
        make: String::new(),
        model: String::new(),
        enabled: true,
        modes: vec![Mode { width: 1920, height: 1080, refresh: 60_000_000, preferred: true, current: true }],
        cur_mode: 0,
        position: (10, 20),
        transform: "normal".to_string(),
        scale: 1_000_000,
        adaptive_sync: false,
        new_mode: 0,
        new_pos: PosMode::Absolute(10, 20),
        new_transform: "normal".to_string(),
        new_scale: 1_000_000,
        new_adaptive: false,
        new_enabled: false,
    }
}

#[test]
fn step_cycles_through_presets() {
    assert_eq!(Proj::Extend.step(1), Proj::ExtOnly);
    assert_eq!(Proj::ExtOnly.step(1), Proj::LaptopOnly);
    assert_eq!(Proj::LaptopOnly.step(1), Proj::Custom);
    assert_eq!(Proj::Custom.step(1), Proj::Extend);
    assert_eq!(Proj::Extend.step(-1), Proj::Custom);
    assert_eq!(Proj::Custom.step(-5), Proj::LaptopOnly);
    assert_eq!(Proj::ExtOnly.step(i32::MAX), Proj::Extend);
    assert_eq!(Proj::ExtOnly.step(i32::MIN), Proj::ExtOnly);
    for p in Proj::all() {
        assert_eq!(p.step(3).step(-3), p);
    }
}

#[test]
fn labels() {
    let labels: Vec<&str> = Proj::all().iter().map(|p| p.label()).collect();
    assert_eq!(labels, vec!["Extend", "Ext Only", "Laptop Only", "Custom"]);
}

#[test]
fn extend_places_laptop_below_first_external() {
    let mut ms = vec![mon("eDP-1"), mon("DP-1"), mon("DP-2")];
    apply_proj(&mut ms, Proj::Extend);
    assert!(ms.iter().all(|m| m.new_enabled));
    assert!(ms[0].new_pos.same_as(&PosMode::Below("DP-1".to_string(), Align::Center)));
    assert!(ms[1].new_pos.same_as(&PosMode::Absolute(0, 0)));
    assert!(ms[2].new_pos.same_as(&PosMode::Absolute(0, 0)));
}

#[test]
fn extend_without_external_keeps_laptop_position() {
    let mut ms = vec![mon("eDP-1")];
    apply_proj(&mut ms, Proj::Extend);
    assert!(ms[0].new_enabled);
    assert!(ms[0].new_pos.same_as(&PosMode::Absolute(10, 20)));
}

#[test]
fn ext_only_and_laptop_only() {
    let mut ms = vec![mon("eDP-1"), mon("HDMI-A-1")];
    apply_proj(&mut ms, Proj::ExtOnly);
    assert!(!ms[0].new_enabled);
    assert!(ms[1].new_enabled);
    apply_proj(&mut ms, Proj::LaptopOnly);
    assert!(ms[0].new_enabled);
    assert!(!ms[1].new_enabled);
    apply_proj(&mut ms, Proj::Custom);
    assert!(ms[0].new_enabled);
    assert!(!ms[1].new_enabled);
    assert!(ms[1].is_laptop() == false && ms[0].is_laptop());
}
