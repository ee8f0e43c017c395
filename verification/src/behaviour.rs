//! What the main operations do, each stated over their inputs and results
//! in plain arithmetic and literal texts: where a placement puts an output,
//! which arguments a pending change sends, what the arrow keys and Enter do
//! in the normal view, and which differences count as pending.
use vstd::prelude::*;
use crate::app::{AppView, Section, UiMode};
use crate::apply::{apply_args_spec, build_args_spec, mode_arg};
use crate::consts::{transforms, F_ADAPTIVE, F_ENABLED, F_MODE, F_SCALE, F_TRANSFORM, N_FIELDS};
use crate::decimal::{fixed_str, int_str};
use crate::input::{clamp_scale, cleared, cycle_setting_spec, handle_spec, snap_quarter, transform_pos, Key, Outcome};
use crate::laws::{law_int_round_trip, law_placement_touches_reference, lemma_int_str};
use crate::parse::{after, step_line, BlockView};
use crate::text::{ends_with, find, starts_with};
use crate::proj::{proj_spec, Proj};
use crate::monitor::{
    chain_ends, find_monitor, logical_size_spec, ref_name, resolve_spec, Align, MonitorView, PosModeView,
};

verus! {

/// `d / 2` rounded toward zero, as Rust divides integers.
pub open spec fn half_toward_zero(d: int) -> int {
    if d >= 0 {
        d / 2
    } else {
        -((-d) / 2)
    }
}

/// Well inside the range of `i32`, where no sum or difference of two wraps.
pub open spec fn small(x: i32) -> bool {
    -0x2000_0000 < x < 0x2000_0000
}

/// Where a relative placement puts an output, given the reference output's
/// resolved position `(rx, ry)`, the reference's logical size `(rw, rh)` and
/// its own `(sw, sh)`: right of it, its left edge at `rx + rw`; left of it,
/// its right edge at `rx`; below it, its top edge at `ry + rh`; above it, its
/// bottom edge at `ry`. At the start, the other coordinate is the
/// reference's; centered, it is shifted by half the difference of the two
/// sizes (rounded toward zero), so that the two centres differ by at most
/// half a pixel.
pub proof fn law_placement_geometry(pos: PosModeView, this: MonitorView, all: Seq<MonitorView>, depth: int)
    requires
        0 <= depth <= 8,
        !(pos is Absolute),
        find_monitor(all, ref_name(pos)) < all.len(),
        chain_ends(pos, all, seq![this.name], depth),
        ({
            let r = all[find_monitor(all, ref_name(pos))];
            let rp = resolve_spec(r.new_pos, r, all, depth + 1);
            let rs = logical_size_spec(r);
            let own = logical_size_spec(this);
            small(rp.0) && small(rp.1) && small(rs.0) && small(rs.1) && small(own.0) && small(own.1)
        }),
    ensures
        ({
            let r = all[find_monitor(all, ref_name(pos))];
            let (rx, ry) = resolve_spec(r.new_pos, r, all, depth + 1);
            let (rw, rh) = logical_size_spec(r);
            let (sw, sh) = logical_size_spec(this);
            let (x, y) = resolve_spec(pos, this, all, depth);
            match pos {
                PosModeView::RightOf(_, a) => {
                    &&& x == rx + rw
                    &&& a == Align::Start ==> y == ry
                    &&& a == Align::Center ==> y == ry + half_toward_zero(rh - sh)
                    &&& a == Align::Center ==> -1 <= 2 * (y - ry) - (rh - sh) <= 1
                },
                PosModeView::LeftOf(_, a) => {
                    &&& x + sw == rx
                    &&& a == Align::Start ==> y == ry
                    &&& a == Align::Center ==> y == ry + half_toward_zero(rh - sh)
                    &&& a == Align::Center ==> -1 <= 2 * (y - ry) - (rh - sh) <= 1
                },
                PosModeView::Above(_, a) => {
                    &&& y + sh == ry
                    &&& a == Align::Start ==> x == rx
                    &&& a == Align::Center ==> x == rx + half_toward_zero(rw - sw)
                    &&& a == Align::Center ==> -1 <= 2 * (x - rx) - (rw - sw) <= 1
                },
                PosModeView::Below(_, a) => {
                    &&& y == ry + rh
                    &&& a == Align::Start ==> x == rx
                    &&& a == Align::Center ==> x == rx + half_toward_zero(rw - sw)
                    &&& a == Align::Center ==> -1 <= 2 * (x - rx) - (rw - sw) <= 1
                },
                PosModeView::Absolute(_, _) => true,
            }
        }),
{
    law_placement_touches_reference(pos, this, all, depth);
}

/// The arguments for one output name the change that each pending setting
/// makes: an output to be disabled gets `--output NAME --off` and nothing
/// more; otherwise `--on` comes third exactly when the output is off now,
/// `--mode WxH@RHz` with the pending mode comes next when the mode changes,
/// then `--pos X,Y`; and the arguments end with the last setting that
/// changes: `--adaptive-sync enabled` or `--adaptive-sync disabled` as the
/// pending flag says, else `--transform` and the pending transform, else
/// `--scale` and the pending scale with six decimals, else the position.
pub proof fn law_args_name_each_change(m: MonitorView, all: Seq<MonitorView>)
    ensures
        ({
            let a = build_args_spec(m, all);
            let n = a.len();
            let p = resolve_spec(m.new_pos, m, all, 0);
            let pos_text = int_str(p.0 as int) + ","@ + int_str(p.1 as int);
            let i = if m.enabled {
                2int
            } else {
                3int
            };
            let scale_changes = m.new_scale - m.scale > 100 || m.scale - m.new_scale > 100;
            &&& n >= 3
            &&& a[0] == "--output"@
            &&& a[1] == m.name
            &&& !m.new_enabled ==> a == seq!["--output"@, m.name, "--off"@]
            &&& m.new_enabled ==> {
                &&& (a[2] == "--on"@) == !m.enabled
                &&& m.new_mode != m.cur_mode ==> a[i] == "--mode"@ && a[i + 1] == mode_arg(
                    m.modes[m.new_mode],
                ) && a[i + 2] == "--pos"@ && a[i + 3] == pos_text
                &&& m.new_mode == m.cur_mode ==> a[i] == "--pos"@ && a[i + 1] == pos_text
                &&& m.new_adaptive != m.adaptive_sync ==> a[n - 2] == "--adaptive-sync"@ && a[n - 1] == (
                if m.new_adaptive {
                    "enabled"@
                } else {
                    "disabled"@
                })
                &&& m.new_adaptive == m.adaptive_sync && m.new_transform != m.transform ==> a[n - 2]
                    == "--transform"@ && a[n - 1] == m.new_transform
                &&& m.new_adaptive == m.adaptive_sync && m.new_transform == m.transform && scale_changes
                    ==> a[n - 2] == "--scale"@ && a[n - 1] == fixed_str(m.new_scale as int, 6)
                &&& m.new_adaptive == m.adaptive_sync && m.new_transform == m.transform && !scale_changes
                    ==> a[n - 2] == "--pos"@ && a[n - 1] == pos_text
            }
        }),
{
    reveal_strlit("--on");
    reveal_strlit("--mode");
    reveal_strlit("--pos");
    let a = build_args_spec(m, all);
    if m.new_enabled {
        let p = resolve_spec(m.new_pos, m, all, 0);
        let head = seq!["--output"@, m.name];
        let on: Seq<Seq<char>> = if !m.enabled {
            seq!["--on"@]
        } else {
            seq![]
        };
        let md: Seq<Seq<char>> = if m.new_mode != m.cur_mode {
            seq!["--mode"@, mode_arg(m.modes[m.new_mode])]
        } else {
            seq![]
        };
        let ps = seq!["--pos"@, int_str(p.0 as int) + ","@ + int_str(p.1 as int)];
        let sc: Seq<Seq<char>> = if m.field_dirty(F_SCALE as int) {
            seq!["--scale"@, fixed_str(m.new_scale as int, 6)]
        } else {
            seq![]
        };
        let tr: Seq<Seq<char>> = if m.new_transform != m.transform {
            seq!["--transform"@, m.new_transform]
        } else {
            seq![]
        };
        let ad: Seq<Seq<char>> = if m.new_adaptive != m.adaptive_sync {
            seq![
                "--adaptive-sync"@,
                if m.new_adaptive {
                    "enabled"@
                } else {
                    "disabled"@
                },
            ]
        } else {
            seq![]
        };
        assert(a == head + on + md + ps + sc + tr + ad);
        let pre = head + on + md + ps;
        assert(pre[0] == "--output"@ && pre[1] == m.name);
        assert(a[0] == pre[0] && a[1] == pre[1] && a[2] == pre[2]);
        if m.enabled {
            if m.new_mode != m.cur_mode {
                assert(pre[2] == "--mode"@);
            } else {
                assert(pre[2] == "--pos"@);
            }
            assert("--mode"@ != "--on"@ && "--pos"@ != "--on"@) by {
                assert("--mode"@[3] != "--on"@[3]);
                assert("--pos"@.len() != "--on"@.len());
            }
        }
        let i = if m.enabled {
            2int
        } else {
            3int
        };
        assert(a[i] == pre[i] && a[i + 1] == pre[i + 1]);
        if m.new_mode != m.cur_mode {
            assert(a[i + 2] == pre[i + 2] && a[i + 3] == pre[i + 3]);
        }
    } else {
        assert(a =~= seq!["--output"@, m.name, "--off"@]);
    }
}

/// In the normal view the arrows move the selection and change nothing else
/// that is kept: in the settings, Up selects the field above (staying on the
/// first) and Down the one below (staying on the last); in the layout
/// section they select the output before or after (staying at either end);
/// in the tab bar Down goes to the settings and Up stays; Left and Right in
/// the tab bar select the output before or after. Down then Up, and Right
/// then Left in the tab bar, come back to where they started, away from the
/// ends.
pub proof fn law_arrows_move_selection(a: AppView, rows: int)
    requires
        a.wf(),
        a.monitors.len() > 0,
        a.ui == UiMode::Normal,
    ensures
        ({
            let up = handle_spec(a, Key::Up, rows);
            let down = handle_spec(a, Key::Down, rows);
            let left = handle_spec(a, Key::Left, rows);
            let right = handle_spec(a, Key::Right, rows);
            let n = a.monitors.len();
            &&& up.1 == Outcome::Continue && down.1 == Outcome::Continue
            &&& up.0.monitors == a.monitors && down.0.monitors == a.monitors
            &&& up.0.tab == a.tab && down.0.tab == a.tab
            &&& up.0.ui == a.ui && down.0.ui == a.ui
            &&& a.section == Section::Settings ==> {
                &&& up.0.section == Section::Settings && down.0.section == Section::Settings
                &&& a.sel_field > 0 ==> up.0.sel_field == a.sel_field - 1
                &&& a.sel_field == 0 ==> up.0.sel_field == 0
                &&& a.sel_field + 1 < N_FIELDS ==> down.0.sel_field == a.sel_field + 1
                &&& a.sel_field + 1 == N_FIELDS ==> down.0.sel_field == a.sel_field
                &&& a.sel_field + 1 < N_FIELDS ==> handle_spec(down.0, Key::Up, rows).0.sel_field
                    == a.sel_field
                &&& up.0.layout_sel == a.layout_sel && down.0.layout_sel == a.layout_sel
            }
            &&& a.section == Section::Layout ==> {
                &&& up.0.section == Section::Layout && down.0.section == Section::Layout
                &&& a.layout_sel > 0 ==> up.0.layout_sel == a.layout_sel - 1
                &&& a.layout_sel == 0 ==> up.0.layout_sel == 0
                &&& a.layout_sel + 1 < n ==> down.0.layout_sel == a.layout_sel + 1
                &&& a.layout_sel + 1 == n ==> down.0.layout_sel == a.layout_sel
                &&& a.layout_sel + 1 < n ==> handle_spec(down.0, Key::Up, rows).0.layout_sel
                    == a.layout_sel
                &&& up.0.sel_field == a.sel_field && down.0.sel_field == a.sel_field
            }
            &&& a.section == Section::Tabs ==> {
                &&& up.0.section == Section::Tabs
                &&& down.0.section == Section::Settings
                &&& up.0.sel_field == a.sel_field && down.0.sel_field == a.sel_field
                &&& left.0.monitors == a.monitors && right.0.monitors == a.monitors
                &&& left.0.section == Section::Tabs && right.0.section == Section::Tabs
                &&& a.tab > 0 ==> left.0.tab == a.tab - 1
                &&& a.tab == 0 ==> left.0.tab == 0
                &&& a.tab + 1 < n ==> right.0.tab == a.tab + 1
                &&& a.tab + 1 == n ==> right.0.tab == a.tab
                &&& a.tab + 1 < n ==> handle_spec(right.0, Key::Left, rows).0.tab == a.tab
            }
        }),
{
}

/// In the settings, Left and Right change the selected setting of the
/// current output and nothing else: a flag (adaptive sync, enabled) is
/// turned over by either key; the mode goes to the next one (the first after
/// the last) or the one before (the last before the first); the transform
/// goes to the next or the previous name in the order normal, 90, 180, 270,
/// flipped, flipped-90, flipped-180, flipped-270, round in a circle; the
/// scale moves by a quarter within 0.25 to 4 and lands on a quarter.
pub proof fn law_left_right_change_setting(a: AppView, rows: int)
    requires
        a.wf(),
        a.monitors.len() > 0,
        a.ui == UiMode::Normal,
        a.section == Section::Settings,
    ensures
        ({
            let m = a.monitors[a.tab];
            let r = handle_spec(a, Key::Right, rows);
            let l = handle_spec(a, Key::Left, rows);
            let mr = r.0.monitors[a.tab];
            let ml = l.0.monitors[a.tab];
            let names = seq![
                "normal"@,
                "90"@,
                "180"@,
                "270"@,
                "flipped"@,
                "flipped-90"@,
                "flipped-180"@,
                "flipped-270"@,
            ];
            let len = m.modes.len();
            &&& r.1 == Outcome::Continue && l.1 == Outcome::Continue
            &&& r.0.monitors.len() == a.monitors.len() && l.0.monitors.len() == a.monitors.len()
            &&& forall|j: int| 0 <= j < a.monitors.len() && j != a.tab ==> r.0.monitors[j] == a.monitors[j]
                && l.0.monitors[j] == a.monitors[j]
            &&& r.0.sel_field == a.sel_field && l.0.sel_field == a.sel_field
            &&& r.0.tab == a.tab && l.0.tab == a.tab
            &&& a.sel_field == F_ADAPTIVE ==> mr == MonitorView { new_adaptive: !m.new_adaptive, ..m }
                && ml == MonitorView { new_adaptive: !m.new_adaptive, ..m }
            &&& a.sel_field == F_ENABLED ==> mr == MonitorView { new_enabled: !m.new_enabled, ..m } && ml
                == MonitorView { new_enabled: !m.new_enabled, ..m }
            &&& a.sel_field == F_MODE ==> {
                &&& mr == MonitorView { new_mode: mr.new_mode, ..m }
                &&& ml == MonitorView { new_mode: ml.new_mode, ..m }
                &&& m.new_mode + 1 < len ==> mr.new_mode == m.new_mode + 1
                &&& m.new_mode + 1 == len ==> mr.new_mode == 0
                &&& m.new_mode > 0 ==> ml.new_mode == m.new_mode - 1
                &&& m.new_mode == 0 ==> ml.new_mode == len - 1
            }
            &&& a.sel_field == F_TRANSFORM ==> {
                &&& mr == MonitorView { new_transform: mr.new_transform, ..m }
                &&& ml == MonitorView { new_transform: ml.new_transform, ..m }
                &&& forall|j: int| 0 <= j < 8 && m.new_transform == #[trigger] names[j] ==> mr.new_transform
                    == names[if j == 7 {
                    0
                } else {
                    j + 1
                }] && ml.new_transform == names[if j == 0 {
                    7
                } else {
                    j - 1
                }]
            }
            &&& a.sel_field == F_SCALE ==> {
                &&& mr == MonitorView { new_scale: mr.new_scale, ..m }
                &&& ml == MonitorView { new_scale: ml.new_scale, ..m }
                &&& 250_000 <= mr.new_scale <= 4_000_000 && mr.new_scale % 250_000 == 0
                &&& 250_000 <= ml.new_scale <= 4_000_000 && ml.new_scale % 250_000 == 0
                &&& m.new_scale % 250_000 == 0 && 250_000 <= m.new_scale < 4_000_000 ==> mr.new_scale
                    == m.new_scale + 250_000
                &&& m.new_scale % 250_000 == 0 && 250_000 < m.new_scale <= 4_000_000 ==> ml.new_scale
                    == m.new_scale - 250_000
            }
        }),
{
    let m = a.monitors[a.tab];
    let c = cleared(a);
    assert(handle_spec(a, Key::Right, rows).0 == cycle_setting_spec(c, 1));
    assert(handle_spec(a, Key::Left, rows).0 == cycle_setting_spec(c, -1));
    if a.sel_field == F_MODE {
        let len = m.modes.len() as int;
        let x = m.new_mode;
        assert(0 <= x < len);
        if x + 1 < len {
            assert((x + 1) % len == x + 1) by (nonlinear_arith)
                requires
                    0 <= x + 1 < len,
            ;
        } else {
            assert((x + 1) % len == 0) by (nonlinear_arith)
                requires
                    x + 1 == len,
                    len > 0,
            ;
        }
        if x > 0 {
            assert((x - 1) % len == x - 1) by (nonlinear_arith)
                requires
                    0 <= x - 1 < len,
            ;
        } else {
            assert((x - 1) % len == len - 1) by (nonlinear_arith)
                requires
                    x == 0,
                    len > 0,
            ;
        }
    } else if a.sel_field == F_TRANSFORM {
        lemma_transform_steps(m.new_transform);
    } else if a.sel_field == F_SCALE {
        lemma_quarter_step(m.new_scale + 250_000);
        lemma_quarter_step(m.new_scale - 250_000);
        if m.new_scale % 250_000 == 0 && 250_000 <= m.new_scale < 4_000_000 {
            lemma_grid(m.new_scale + 250_000);
        }
        if m.new_scale % 250_000 == 0 && 250_000 < m.new_scale <= 4_000_000 {
            lemma_grid(m.new_scale - 250_000);
        }
    }
}

/// A quarter step of the scale lands on a quarter between 0.25 and 4.
proof fn lemma_quarter_step(s: int)
    ensures
        250_000 <= snap_quarter(clamp_scale(s)) <= 4_000_000,
        snap_quarter(clamp_scale(s)) % 250_000 == 0,
{
    let t = clamp_scale(s);
    let q = (t + 125_000) / 250_000;
    assert(250_000 <= t <= 4_000_000);
    assert(1 <= q <= 16) by (nonlinear_arith)
        requires
            250_000 <= t <= 4_000_000,
            q == (t + 125_000) / 250_000,
    ;
    assert((q * 250_000) % 250_000 == 0) by (nonlinear_arith);
    assert(250_000 <= q * 250_000 <= 4_000_000) by (nonlinear_arith)
        requires
            1 <= q <= 16,
    ;
}

proof fn lemma_grid(t: int)
    requires
        250_000 <= t <= 4_000_000,
        t % 250_000 == 0,
    ensures
        snap_quarter(clamp_scale(t)) == t,
{
    let q = t / 250_000;
    assert(t == q * 250_000);
    assert((q * 250_000 + 125_000) / 250_000 == q) by (nonlinear_arith)
        requires
            q >= 0,
    ;
}

/// The transform after and before each name, in the order of the settings.
proof fn lemma_transform_steps(t: Seq<char>)
    ensures
        forall|j: int| 0 <= j < 8 && t == #[trigger] transforms()[j] ==> transforms()[(transform_pos(t) + 1) % 8]
            == transforms()[if j == 7 {
            0
        } else {
            j + 1
        }] && transforms()[(transform_pos(t) - 1) % 8] == transforms()[if j == 0 {
            7
        } else {
            j - 1
        }],
{
    reveal_strlit("normal");
    reveal_strlit("90");
    reveal_strlit("180");
    reveal_strlit("270");
    reveal_strlit("flipped");
    reveal_strlit("flipped-90");
    reveal_strlit("flipped-180");
    reveal_strlit("flipped-270");
    assert forall|j: int| 0 <= j < 8 && t == #[trigger] transforms()[j] implies transform_pos(t) == j by {
        let ts = transforms();
        assert(ts[0].len() == 6 && ts[0][0] == 'n');
        assert(ts[1][0] == '9' && ts[2][0] == '1' && ts[3][0] == '2');
        assert(ts[4][0] == 'f' && ts[5][0] == 'f' && ts[6][0] == 'f' && ts[7][0] == 'f');
        assert(ts[0] != ts[1] && ts[0] != ts[2] && ts[0] != ts[3] && ts[0] != ts[4]);
        assert(ts[0] != ts[5] && ts[0] != ts[6] && ts[0] != ts[7]);
        assert(ts[1] != ts[2] && ts[1] != ts[3] && ts[1] != ts[4] && ts[1] != ts[5]);
        assert(ts[1] != ts[6] && ts[1] != ts[7]);
        assert(ts[2] != ts[3] && ts[2] != ts[4] && ts[2] != ts[5] && ts[2] != ts[6] && ts[2] != ts[7]);
        assert(ts[3] != ts[4] && ts[3] != ts[5] && ts[3] != ts[6] && ts[3] != ts[7]);
        assert(ts[4].len() == 7 && ts[5].len() == 10);
        assert(ts[5][8] == '9' && ts[6][8] == '1' && ts[7][8] == '2');
        assert(ts[4] != ts[5] && ts[4] != ts[6] && ts[4] != ts[7]);
        assert(ts[5] != ts[6] && ts[5] != ts[7]);
        assert(ts[6] != ts[7]);
    }
    assert((7 + 1) % 8 == 0int);
    assert((0 - 1) % 8 == 7int);
}

/// In the settings, Enter turns over the selected flag (adaptive sync or
/// enabled) of the current output and changes nothing else.
pub proof fn law_enter_turns_flag_over(a: AppView, rows: int)
    requires
        a.wf(),
        a.monitors.len() > 0,
        a.ui == UiMode::Normal,
        a.section == Section::Settings,
        a.sel_field == F_ADAPTIVE || a.sel_field == F_ENABLED,
    ensures
        ({
            let m = a.monitors[a.tab];
            let r = handle_spec(a, Key::Enter, rows);
            &&& r.1 == Outcome::Continue
            &&& r.0.ui == UiMode::Normal
            &&& r.0.monitors == a.monitors.update(
                a.tab,
                if a.sel_field == F_ADAPTIVE {
                    MonitorView { new_adaptive: !m.new_adaptive, ..m }
                } else {
                    MonitorView { new_enabled: !m.new_enabled, ..m }
                },
            )
        }),
{
}

/// Every difference between a pending setting and the reported one is a
/// pending change: a changed mode, transform, adaptive-sync flag or enabled
/// flag, a scale more than a ten-thousandth away, or a placement other than
/// the reported position; such an output shows its field as changed and is
/// dirty, and with it in the list there is something to apply. An output
/// with none of these differences is not dirty.
pub proof fn law_differences_are_pending(ms: Seq<MonitorView>, i: int)
    requires
        0 <= i < ms.len(),
    ensures
        ({
            let m = ms[i];
            let differs = m.new_mode != m.cur_mode || m.new_transform != m.transform || m.new_adaptive
                != m.adaptive_sync || m.new_enabled != m.enabled || m.new_scale - m.scale > 100 || m.scale
                - m.new_scale > 100 || m.new_pos != PosModeView::Absolute(m.position.0, m.position.1);
            &&& m.new_mode != m.cur_mode ==> m.field_dirty(F_MODE as int)
            &&& m.new_transform != m.transform ==> m.field_dirty(F_TRANSFORM as int)
            &&& m.new_adaptive != m.adaptive_sync ==> m.field_dirty(F_ADAPTIVE as int)
            &&& m.new_enabled != m.enabled ==> m.field_dirty(F_ENABLED as int)
            &&& (m.new_scale - m.scale > 100 || m.scale - m.new_scale > 100) ==> m.field_dirty(F_SCALE as int)
            &&& m.dirty() == differs
            &&& differs ==> apply_args_spec(ms) is Some
        }),
{
    let m = ms[i];
    if m.new_mode != m.cur_mode {
        assert(m.field_dirty(F_MODE as int));
    }
    if m.new_transform != m.transform {
        assert(m.field_dirty(F_TRANSFORM as int));
    }
    if m.new_adaptive != m.adaptive_sync {
        assert(m.field_dirty(F_ADAPTIVE as int));
    }
    if m.new_enabled != m.enabled {
        assert(m.field_dirty(F_ENABLED as int));
    }
    if m.new_scale - m.scale > 100 || m.scale - m.new_scale > 100 {
        assert(m.field_dirty(F_SCALE as int));
    }
    if m.dirty() {
        assert(ms[i].dirty());
    }
}

/// Enter in the normal view: in the tab bar it moves to the settings; on the
/// mode it opens the mode list with the cursor on the pending mode, scrolled
/// so that up to five modes show above it; on the scale it opens the text
/// editor with the pending scale written with four decimals; on the
/// transform it changes nothing kept; in the layout section it opens the text
/// editor with the selected output's `x,y`: its fixed position, or where its
/// placement resolves. No output changes.
pub proof fn law_enter_opens_editors(a: AppView, rows: int)
    requires
        a.wf(),
        a.monitors.len() > 0,
        a.ui == UiMode::Normal,
    ensures
        ({
            let m = a.monitors[a.tab];
            let r = handle_spec(a, Key::Enter, rows);
            let ls = a.monitors[a.layout_sel];
            let p = match ls.new_pos {
                PosModeView::Absolute(x, y) => (x, y),
                _ => resolve_spec(ls.new_pos, ls, a.monitors, 0),
            };
            &&& r.1 == Outcome::Continue
            &&& r.0.sel_field == a.sel_field && r.0.tab == a.tab && r.0.layout_sel == a.layout_sel
            &&& a.section == Section::Tabs ==> r.0.section == Section::Settings && r.0.monitors == a.monitors
                && r.0.ui == UiMode::Normal
            &&& a.section == Section::Settings && a.sel_field == F_MODE ==> r.0.monitors == a.monitors
                && r.0.ui == UiMode::ModeSelect {
                scroll: if m.new_mode >= 5 {
                    (m.new_mode - 5) as usize
                } else {
                    0
                },
                hover: m.new_mode as usize,
            }
            &&& a.section == Section::Settings && a.sel_field == F_SCALE ==> r.0.monitors == a.monitors
                && r.0.ui == UiMode::TextEdit && r.0.buf == fixed_str(m.new_scale as int, 4)
            &&& a.section == Section::Settings && a.sel_field == F_TRANSFORM ==> r.0.monitors == a.monitors
                && r.0.ui == UiMode::Normal && r.0.buf == a.buf
            &&& a.section == Section::Layout ==> r.0.monitors == a.monitors && r.0.ui == UiMode::TextEdit
                && r.0.buf == int_str(p.0 as int) + ","@ + int_str(p.1 as int)
        }),
{
}

/// `q` quits and `a` asks to apply, both leaving the state as it is; a key
/// that means nothing in the normal view changes nothing.
pub proof fn law_quit_and_apply_keys(a: AppView, rows: int)
    requires
        a.ui == UiMode::Normal,
    ensures
        handle_spec(a, Key::Code(113), rows) == (a, Outcome::Quit),
        handle_spec(a, Key::Code(97), rows) == (a, Outcome::Apply),
        handle_spec(a, Key::Code(120), rows) == (a, Outcome::Continue),
        handle_spec(a, Key::Backspace, rows) == (a, Outcome::Continue),
{
}

/// The text of each setting: the scale with four decimals, the transform's
/// name, `enabled` or `disabled` for adaptive sync, `yes` or `no` for
/// enabled, each followed by ` [*]` exactly when the pending value differs
/// from the reported one.
pub proof fn law_setting_texts(m: MonitorView)
    ensures
        crate::monitor::field_value_spec(m, F_SCALE as int) == fixed_str(m.new_scale as int, 4) + (if m.new_scale
            - m.scale > 100 || m.scale - m.new_scale > 100 {
            " [*]"@
        } else {
            ""@
        }),
        crate::monitor::field_value_spec(m, F_TRANSFORM as int) == m.new_transform + (if m.new_transform
            != m.transform {
            " [*]"@
        } else {
            ""@
        }),
        crate::monitor::field_value_spec(m, F_ADAPTIVE as int) == (if m.new_adaptive {
            "enabled"@
        } else {
            "disabled"@
        }) + (if m.new_adaptive != m.adaptive_sync {
            " [*]"@
        } else {
            ""@
        }),
        crate::monitor::field_value_spec(m, F_ENABLED as int) == (if m.new_enabled {
            "yes"@
        } else {
            "no"@
        }) + (if m.new_enabled != m.enabled {
            " [*]"@
        } else {
            ""@
        }),
{
}

/// An output's logical size is its pending mode's pixels divided by its
/// pending scale, rounded to the nearest whole unit (halves up), unless that
/// passes the largest `i32`, which it then is.
pub proof fn law_logical_size_rounds(m: MonitorView)
    requires
        m.wf(),
        m.new_scale > 0,
    ensures
        ({
            let md = m.modes[m.new_mode];
            let (w, h) = logical_size_spec(m);
            let s = m.new_scale as int;
            &&& 0 <= w && 0 <= h
            &&& w < i32::MAX ==> 2 * md.width * 1_000_000 - s < 2 * w * s <= 2 * md.width * 1_000_000 + s
            &&& h < i32::MAX ==> 2 * md.height * 1_000_000 - s < 2 * h * s <= 2 * md.height * 1_000_000 + s
            &&& w == i32::MAX ==> 2 * w * s <= 2 * md.width * 1_000_000 + s
            &&& h == i32::MAX ==> 2 * h * s <= 2 * md.height * 1_000_000 + s
        }),
{
    let md = m.modes[m.new_mode];
    let s = m.new_scale as int;
    lemma_round_half_up(md.width * 1_000_000, s);
    lemma_round_half_up(md.height * 1_000_000, s);
}

proof fn lemma_round_half_up(n: int, s: int)
    requires
        n >= 0,
        s > 0,
    ensures
        ({
            let q = (2 * n + s) / (2 * s);
            &&& q >= 0
            &&& 2 * n - s < 2 * q * s <= 2 * n + s
            &&& crate::monitor::sat_i32(q) < i32::MAX ==> crate::monitor::sat_i32(q) == q
            &&& crate::monitor::sat_i32(q) == i32::MAX ==> 2 * i32::MAX * s <= 2 * n + s
        }),
{
    let q = (2 * n + s) / (2 * s);
    if q >= i32::MAX {
        assert(2 * i32::MAX * s <= 2 * q * s) by (nonlinear_arith)
            requires
                q >= i32::MAX,
                s > 0,
        ;
    }
    assert(q >= 0 && 2 * q * s <= 2 * n + s && 2 * n + s < 2 * q * s + 2 * s) by (nonlinear_arith)
        requires
            n >= 0,
            s > 0,
            q == (2 * n + s) / (2 * s),
    ;
}

/// In the text editor a printable key (codes 32 to 126) adds its character
/// at the end of the text, Backspace takes the last character away (and
/// does nothing to an empty text), and any other key but Enter and Esc
/// changes nothing; none of these changes an output.
pub proof fn law_text_editor_keys(a: AppView, c: i32, rows: int)
    requires
        a.ui == UiMode::TextEdit,
        c != 27 && c != 10,
    ensures
        ({
            let t = handle_spec(a, Key::Code(c), rows);
            let b = handle_spec(a, Key::Backspace, rows);
            &&& t.1 == Outcome::Continue && b.1 == Outcome::Continue
            &&& 32 <= c < 127 ==> t.0.buf == a.buf.push(c as char) && t.0.monitors == a.monitors
                && t.0.ui == UiMode::TextEdit
            &&& !(32 <= c < 127) && c != 127 && c != 8 ==> t.0 == a
            &&& a.buf.len() > 0 ==> b.0.buf == a.buf.subrange(0, a.buf.len() - 1)
            &&& a.buf.len() == 0 ==> b.0.buf == a.buf
            &&& b.0.monitors == a.monitors && b.0.ui == UiMode::TextEdit
            &&& handle_spec(a, Key::Up, rows).0 == a
        }),
{
}

/// In the mode list Up and Down move the cursor one mode (staying at either
/// end), Enter makes the mode under the cursor the pending mode of the
/// current output and leaves the list, and Esc leaves it with no output
/// changed.
pub proof fn law_mode_list_keys(a: AppView, rows: int)
    requires
        a.wf(),
        a.ui is ModeSelect,
    ensures
        ({
            let h = a.ui->hover;
            let n = a.monitors[a.tab].modes.len();
            let up = handle_spec(a, Key::Up, rows).0;
            let down = handle_spec(a, Key::Down, rows).0;
            let en = handle_spec(a, Key::Enter, rows).0;
            let esc = handle_spec(a, Key::Code(27), rows).0;
            &&& up.monitors == a.monitors && down.monitors == a.monitors
            &&& h > 0 ==> up.ui is ModeSelect && up.ui->hover == h - 1
            &&& h == 0 ==> up.ui == a.ui
            &&& h + 1 < n && h < usize::MAX ==> down.ui is ModeSelect && down.ui->hover == h + 1
            &&& h + 1 == n ==> down.ui == a.ui
            &&& en.ui == UiMode::Normal
            &&& en.monitors == a.monitors.update(
                a.tab,
                MonitorView { new_mode: h as int, ..a.monitors[a.tab] },
            )
            &&& esc.ui == UiMode::Normal && esc.monitors == a.monitors
        }),
{
}

/// A fixed placement resolves to its own coordinates, and a placement next
/// to an output that is not in the list stays at the output's reported
/// position.
pub proof fn law_placement_ends(pos: PosModeView, this: MonitorView, all: Seq<MonitorView>, depth: int)
    requires
        0 <= depth <= 8,
    ensures
        pos matches PosModeView::Absolute(x, y) ==> resolve_spec(pos, this, all, depth) == (x, y),
        !(pos is Absolute) && (forall|j: int| 0 <= j < all.len() ==> all[j].name != ref_name(pos))
            ==> resolve_spec(pos, this, all, depth) == this.position,
{
    crate::monitor::lemma_find_monitor(all, ref_name(pos));
    if !(pos is Absolute) && (forall|j: int| 0 <= j < all.len() ==> all[j].name != ref_name(pos)) {
        let k = find_monitor(all, ref_name(pos));
        assert(!(0 <= k < all.len()));
    }
}

/// Whether an output's name marks a laptop panel: it starts with `eDP`.
pub open spec fn laptop_name(n: Seq<char>) -> bool {
    n.len() >= 3 && n[0] == 'e' && n[1] == 'D' && n[2] == 'P'
}

/// What each projection preset does to the outputs, which keep their order
/// and all else: "Ext Only" enables exactly the outputs whose names do not
/// start with `eDP`, "Laptop Only" exactly those that do; "Extend" enables
/// all of them, fixes every other output at `(0, 0)`, and puts each `eDP`
/// output centered below the first other output when there is one;
/// "Custom" changes nothing.
pub proof fn law_presets(ms: Seq<MonitorView>)
    ensures
        ({
            let e = proj_spec(ms, Proj::ExtOnly);
            let l = proj_spec(ms, Proj::LaptopOnly);
            let x = proj_spec(ms, Proj::Extend);
            &&& e.len() == ms.len() && l.len() == ms.len() && x.len() == ms.len()
            &&& proj_spec(ms, Proj::Custom) == ms
            &&& forall|i: int| 0 <= i < ms.len() ==> #[trigger] e[i] == MonitorView {
                new_enabled: !laptop_name(ms[i].name),
                ..ms[i]
            }
            &&& forall|i: int| 0 <= i < ms.len() ==> #[trigger] l[i] == MonitorView {
                new_enabled: laptop_name(ms[i].name),
                ..ms[i]
            }
            &&& forall|i: int| 0 <= i < ms.len() && !laptop_name(ms[i].name) ==> #[trigger] x[i] == MonitorView {
                new_enabled: true,
                new_pos: PosModeView::Absolute(0, 0),
                ..ms[i]
            }
            &&& forall|i: int, j: int|
                0 <= i < ms.len() && 0 <= j < ms.len() && laptop_name(ms[i].name) && !laptop_name(ms[j].name)
                    && (forall|k: int| 0 <= k < j ==> laptop_name(#[trigger] ms[k].name)) ==> #[trigger] x[i]
                    == (MonitorView {
                    new_enabled: true,
                    new_pos: PosModeView::Below(#[trigger] ms[j].name, Align::Center),
                    ..ms[i]
                })
            &&& (forall|k: int| 0 <= k < ms.len() ==> laptop_name(#[trigger] ms[k].name)) ==> forall|i: int|
                0 <= i < ms.len() ==> #[trigger] x[i] == MonitorView { new_enabled: true, ..ms[i] }
        }),
{
    reveal_strlit("eDP");
    assert forall|n: Seq<char>| laptop_name(n) == crate::text::starts_with(n, "eDP"@) by {
        if laptop_name(n) {
            assert(n.subrange(0, 3) =~= "eDP"@);
        }
        if crate::text::starts_with(n, "eDP"@) {
            assert(n.subrange(0, 3)[0] == n[0] && n.subrange(0, 3)[1] == n[1] && n.subrange(0, 3)[2] == n[2]);
        }
    }
    crate::proj::lemma_first_external(ms);
    let fe = crate::proj::first_external(ms);
    assert forall|i: int, j: int|
        0 <= i < ms.len() && 0 <= j < ms.len() && laptop_name(ms[i].name) && !laptop_name(ms[j].name)
            && (forall|k: int| 0 <= k < j ==> laptop_name(#[trigger] ms[k].name)) implies #[trigger] proj_spec(
        ms,
        Proj::Extend,
    )[i] == (MonitorView { new_enabled: true, new_pos: PosModeView::Below(#[trigger] ms[j].name, Align::Center), ..ms[i] }) by {
        if fe < j {
            assert(laptop_name(ms[fe].name));
        }
        if j < fe {
            assert(ms[j].is_laptop());
        }
        assert(fe == j);
    }
    if forall|k: int| 0 <= k < ms.len() ==> laptop_name(#[trigger] ms[k].name) {
        if fe < ms.len() {
            assert(laptop_name(ms[fe].name));
        }
    }
}

/// With outputs in a list, there is something to apply exactly when some
/// output has a pending difference from what is reported.
pub proof fn law_apply_iff_differences(ms: Seq<MonitorView>)
    ensures
        apply_args_spec(ms) is Some <==> exists|i: int|
            0 <= i < ms.len() && {
                let m = #[trigger] ms[i];
                m.new_mode != m.cur_mode || m.new_transform != m.transform || m.new_adaptive
                    != m.adaptive_sync || m.new_enabled != m.enabled || m.new_scale - m.scale > 100
                    || m.scale - m.new_scale > 100 || m.new_pos != PosModeView::Absolute(
                    m.position.0,
                    m.position.1,
                )
            },
{
    assert forall|i: int| 0 <= i < ms.len() implies #[trigger] ms[i].dirty() == {
        let m = ms[i];
        m.new_mode != m.cur_mode || m.new_transform != m.transform || m.new_adaptive != m.adaptive_sync
            || m.new_enabled != m.enabled || m.new_scale - m.scale > 100 || m.scale - m.new_scale > 100
            || m.new_pos != PosModeView::Absolute(m.position.0, m.position.1)
    } by {
        law_differences_are_pending(ms, i);
    }
}

/// What each description line of an output in `wlr-randr`'s report sets:
/// `Make: X` the make, `Model: X` the model, `Enabled: yes` or `no` whether
/// it is on, `Position: X,Y` its position, `Transform: T` its transform,
/// `Scale: S` its scale (written with six decimals), `Adaptive Sync:
/// enabled` or `disabled` its flag.
#[verifier::spinoff_prover]
#[verifier::rlimit(80)]
pub proof fn law_report_lines(b: BlockView, x: Seq<char>, px: i32, py: i32, v: i64)
    ensures
        step_line(b, "Make: "@ + x).make == x,
        step_line(b, "Model: "@ + x).model == x,
        step_line(b, "Enabled: yes"@).enabled,
        !step_line(b, "Enabled: no"@).enabled,
        step_line(b, "Position: "@ + (int_str(px as int) + ","@ + int_str(py as int))).pos == (px, py),
        step_line(b, "Transform: "@ + x).transform == x,
        -4_503_599_627_370_496 < v < 4_503_599_627_370_496 ==> step_line(b, "Scale: "@ + fixed_str(v as int, 6)).scale
            == v,
        step_line(b, "Adaptive Sync: enabled"@).adaptive,
        !step_line(b, "Adaptive Sync: disabled"@).adaptive,
{
    reveal_strlit("Make: ");
    reveal_strlit("Model: ");
    reveal_strlit("Enabled: ");
    reveal_strlit("Enabled: yes");
    reveal_strlit("Enabled: no");
    reveal_strlit("Modes:");
    reveal_strlit("Position: ");
    reveal_strlit("Transform: ");
    reveal_strlit("Scale: ");
    reveal_strlit("Adaptive Sync: ");
    reveal_strlit("Adaptive Sync: enabled");
    reveal_strlit("Adaptive Sync: disabled");
    reveal_strlit("yes");
    reveal_strlit("enabled");
    reveal_strlit(",");
    let mk = "Make: "@ + x;
    assert(mk.subrange(0, 6) =~= "Make: "@);
    assert(after(mk, "Make: "@) =~= x);
    let md = "Model: "@ + x;
    assert(md[1] == 'o');
    assert(!starts_with(md, "Make: "@)) by {
        assert(md.subrange(0, 6)[1] != "Make: "@[1]);
    }
    assert(md.subrange(0, 7) =~= "Model: "@);
    assert(after(md, "Model: "@) =~= x);
    let ey = "Enabled: yes"@;
    assert(ey.subrange(0, 9) =~= "Enabled: "@);
    assert(ey.subrange(9, 12) =~= "yes"@);
    assert(!starts_with(ey, "Make: "@)) by {
        assert(ey.subrange(0, 6)[0] != "Make: "@[0]);
    }
    assert(!starts_with(ey, "Model: "@)) by {
        assert(ey.subrange(0, 7)[0] != "Model: "@[0]);
    }
    let en = "Enabled: no"@;
    assert(en.subrange(0, 9) =~= "Enabled: "@);
    assert(!ends_with(en, "yes"@)) by {
        assert(en.subrange(8, 11)[2] != "yes"@[2]);
    }
    assert(!starts_with(en, "Make: "@)) by {
        assert(en.subrange(0, 6)[0] != "Make: "@[0]);
    }
    assert(!starts_with(en, "Model: "@)) by {
        assert(en.subrange(0, 7)[0] != "Model: "@[0]);
    }
    // Position
    let xs = int_str(px as int);
    let ys = int_str(py as int);
    let body = xs + ","@ + ys;
    let pl = "Position: "@ + body;
    assert(pl.subrange(0, 10) =~= "Position: "@);
    assert(after(pl, "Position: "@) =~= body);
    assert(!starts_with(pl, "Make: "@)) by {
        assert(pl.subrange(0, 6)[0] != "Make: "@[0]);
    }
    assert(!starts_with(pl, "Model: "@)) by {
        assert(pl.subrange(0, 7)[0] != "Model: "@[0]);
    }
    assert(!starts_with(pl, "Enabled: "@)) by {
        assert(pl.subrange(0, 9)[0] != "Enabled: "@[0]);
    }
    assert(pl != "Modes:"@) by {
        assert(pl[0] != "Modes:"@[0]);
    }
    lemma_int_str(px as int);
    lemma_int_str(py as int);
    law_int_round_trip(px);
    law_int_round_trip(py);
    crate::laws::lemma_find_concat(xs, ","@ + ys, ',');
    assert(body =~= xs + (","@ + ys));
    assert(find(","@ + ys, ',') == 0);
    assert(body.subrange(0, xs.len() as int) =~= xs);
    assert(body.subrange(xs.len() as int + 1, body.len() as int) =~= ys);
    // Transform
    let tl = "Transform: "@ + x;
    assert(tl.subrange(0, 11) =~= "Transform: "@);
    assert(after(tl, "Transform: "@) =~= x);
    assert(!starts_with(tl, "Make: "@)) by {
        assert(tl.subrange(0, 6)[0] != "Make: "@[0]);
    }
    assert(!starts_with(tl, "Model: "@)) by {
        assert(tl.subrange(0, 7)[0] != "Model: "@[0]);
    }
    assert(!starts_with(tl, "Enabled: "@)) by {
        assert(tl.subrange(0, 9)[0] != "Enabled: "@[0]);
    }
    assert(tl != "Modes:"@) by {
        assert(tl[0] != "Modes:"@[0]);
    }
    assert(!starts_with(tl, "Position: "@)) by {
        assert(tl.subrange(0, 10)[0] != "Position: "@[0]);
    }
    // Scale
    if -4_503_599_627_370_496 < v < 4_503_599_627_370_496 {
        let fs = fixed_str(v as int, 6);
        let sl = "Scale: "@ + fs;
        assert(sl.subrange(0, 7) =~= "Scale: "@);
        assert(after(sl, "Scale: "@) =~= fs);
        assert(!starts_with(sl, "Make: "@)) by {
            assert(sl.subrange(0, 6)[0] != "Make: "@[0]);
        }
        assert(!starts_with(sl, "Model: "@)) by {
            assert(sl.subrange(0, 7)[0] != "Model: "@[0]);
        }
        assert(!starts_with(sl, "Enabled: "@)) by {
            if sl.len() >= 9 {
                assert(sl.subrange(0, 9)[0] != "Enabled: "@[0]);
            }
        }
        assert(sl != "Modes:"@) by {
            assert(sl[0] != "Modes:"@[0]);
        }
        assert(!starts_with(sl, "Position: "@)) by {
            if sl.len() >= 10 {
                assert(sl.subrange(0, 10)[0] != "Position: "@[0]);
            }
        }
        assert(!starts_with(sl, "Transform: "@)) by {
            if sl.len() >= 11 {
                assert(sl.subrange(0, 11)[0] != "Transform: "@[0]);
            }
        }
        assert(crate::decimal::pow10(0) == 1);
        crate::laws::law_fixed_round_trip(v, 6);
    }
    // Adaptive sync
    let ae = "Adaptive Sync: enabled"@;
    let ad = "Adaptive Sync: disabled"@;
    assert(ae.subrange(0, 15) =~= "Adaptive Sync: "@);
    assert(ad.subrange(0, 15) =~= "Adaptive Sync: "@);
    assert(ae.subrange(15, 22) =~= "enabled"@);
    assert(!ends_with(ad, "enabled"@)) by {
        assert(ad.subrange(16, 23)[0] != "enabled"@[0]);
    }
    assert(!starts_with(ae, "Make: "@) && !starts_with(ad, "Make: "@)) by {
        assert(ae.subrange(0, 6)[0] != "Make: "@[0]);
        assert(ad.subrange(0, 6)[0] != "Make: "@[0]);
    }
    assert(!starts_with(ae, "Model: "@) && !starts_with(ad, "Model: "@)) by {
        assert(ae.subrange(0, 7)[0] != "Model: "@[0]);
        assert(ad.subrange(0, 7)[0] != "Model: "@[0]);
    }
    assert(!starts_with(ae, "Enabled: "@) && !starts_with(ad, "Enabled: "@)) by {
        assert(ae.subrange(0, 9)[0] != "Enabled: "@[0]);
        assert(ad.subrange(0, 9)[0] != "Enabled: "@[0]);
    }
    assert(ae != "Modes:"@ && ad != "Modes:"@) by {
        assert(ae[0] != "Modes:"@[0]);
        assert(ad[0] != "Modes:"@[0]);
    }
    assert(!starts_with(ae, "Position: "@) && !starts_with(ad, "Position: "@)) by {
        assert(ae.subrange(0, 10)[0] != "Position: "@[0]);
        assert(ad.subrange(0, 10)[0] != "Position: "@[0]);
    }
    assert(!starts_with(ae, "Transform: "@) && !starts_with(ad, "Transform: "@)) by {
        assert(ae.subrange(0, 11)[0] != "Transform: "@[0]);
        assert(ad.subrange(0, 11)[0] != "Transform: "@[0]);
    }
    assert(!starts_with(ae, "Scale: "@) && !starts_with(ad, "Scale: "@)) by {
        assert(ae.subrange(0, 7)[0] != "Scale: "@[0]);
        assert(ad.subrange(0, 7)[0] != "Scale: "@[0]);
    }
}

/// What the screen's texts say of an output and of the state: a tab reads
/// `[NAME*]` when the output has a pending difference and `[NAME ]` when it
/// has none; the information line ends in `[laptop]` for an output whose name
/// starts with `eDP` and in `[external]` otherwise; a message on the status
/// line starts with `[ERR]` when it reports an error and `[OK] ` when not;
/// a settings line starts with ` >` exactly when its field is selected in the
/// settings, names its field, and shows the text being edited as `[TEXT]_`
/// while that field is edited.
#[verifier::spinoff_prover]
pub proof fn law_screen_texts(a: AppView, m: MonitorView, f: int)
    requires
        a.wf(),
        a.monitors.len() > 0,
        0 <= f < N_FIELDS,
    ensures
        ({
            let differs = m.new_mode != m.cur_mode || m.new_transform != m.transform || m.new_adaptive
                != m.adaptive_sync || m.new_enabled != m.enabled || m.new_scale - m.scale > 100 || m.scale
                - m.new_scale > 100 || m.new_pos != PosModeView::Absolute(m.position.0, m.position.1);
            let label = crate::ui::tab_label_spec(m);
            let info = crate::ui::info_spec(m);
            let st = crate::ui::status_spec(a);
            let fl = crate::ui::field_line_spec(a, f);
            let sel = a.section == Section::Settings && f == a.sel_field;
            let names = seq!["Mode"@, "Scale"@, "Transform"@, "Adaptive Sync"@, "Enabled"@];
            &&& label == "["@ + m.name + (if differs {
                "*"@
            } else {
                " "@
            }) + "]"@
            &&& laptop_name(m.name) ==> crate::text::ends_with(info, "[laptop]"@)
            &&& !laptop_name(m.name) ==> crate::text::ends_with(info, "[external]"@)
            &&& a.status.len() > 0 ==> st == (if a.status_err {
                "[ERR]"@
            } else {
                "[OK] "@
            }) + "  "@ + a.status
            &&& fl.subrange(0, 2) == (if sel {
                " >"@
            } else {
                "  "@
            })
            &&& crate::text::starts_with(fl.subrange(4, fl.len() as int), names[f] + ":"@)
            &&& sel && a.ui == UiMode::TextEdit ==> crate::text::ends_with(fl, "["@ + a.buf + "]_"@)
        }),
{
    let mm = m;
    let ls = seq![mm];
    law_differences_are_pending(ls, 0);
    reveal_strlit("eDP");
    reveal_strlit("[laptop]");
    reveal_strlit("[external]");
    reveal_strlit(" ");
    reveal_strlit(">");
    reveal_strlit(" >");
    reveal_strlit("  ");
    reveal_strlit(":");
    let info = crate::ui::info_spec(m);
    if laptop_name(m.name) {
        assert(m.name.subrange(0, 3) =~= "eDP"@);
        assert(info.subrange(info.len() - 8, info.len() as int) =~= "[laptop]"@);
    } else {
        assert(!m.is_laptop()) by {
            if m.is_laptop() {
                assert(m.name.subrange(0, 3)[0] == m.name[0]);
                assert(m.name.subrange(0, 3)[1] == m.name[1]);
                assert(m.name.subrange(0, 3)[2] == m.name[2]);
            }
        }
        assert(info.subrange(info.len() - 10, info.len() as int) =~= "[external]"@);
    }
    let fl = crate::ui::field_line_spec(a, f);
    let sel = a.section == Section::Settings && f == a.sel_field;
    let lab = crate::consts::field_names()[f] + ":"@;
    let padded = crate::ui::pad_right(lab, 14);
    let val = if sel && a.ui == UiMode::TextEdit {
        crate::ui::edited(a.buf)
    } else {
        crate::monitor::field_value_spec(a.monitors[a.tab], f)
    };
    let mk: Seq<char> = if sel {
        ">"@
    } else {
        " "@
    };
    assert(fl == " "@ + mk + "  "@ + padded + " "@ + val);
    assert(fl.subrange(0, 2) =~= " "@ + mk);
    assert(padded.len() >= lab.len() && padded.subrange(0, lab.len() as int) =~= lab) by {
        reveal(crate::ui::pad_right);
    }
    assert(fl.subrange(4, fl.len() as int) =~= padded + " "@ + val);
    assert(fl.subrange(4, fl.len() as int).subrange(0, lab.len() as int) =~= lab);
    if sel && a.ui == UiMode::TextEdit {
        assert(fl.subrange(fl.len() - val.len(), fl.len() as int) =~= val);
    }
}

/// The command line shown after an apply is `wlr-randr` and the arguments,
/// each after one space: one argument gives `wlr-randr X`, and the line for
/// two lists of arguments one after the other is the line for the first,
/// a space, and the second's arguments.
pub proof fn law_command_line(xs: Seq<Seq<char>>, ys: Seq<Seq<char>>, x: Seq<char>)
    ensures
        crate::apply::command_line(seq![x]) == "wlr-randr "@ + x,
        xs.len() > 0 && ys.len() > 0 ==> crate::apply::command_line(xs + ys) == crate::apply::command_line(xs)
            + " "@ + crate::apply::join(ys, " "@),
{
    if xs.len() > 0 && ys.len() > 0 {
        lemma_join_concat(xs, ys);
    }
}

proof fn lemma_join_concat(xs: Seq<Seq<char>>, ys: Seq<Seq<char>>)
    requires
        xs.len() > 0,
        ys.len() > 0,
    ensures
        crate::apply::join(xs + ys, " "@) == crate::apply::join(xs, " "@) + " "@ + crate::apply::join(ys, " "@),
    decreases ys.len(),
{
    let zs = xs + ys;
    assert(zs[zs.len() - 1] == ys[ys.len() - 1]);
    if ys.len() == 1 {
        assert(zs.subrange(0, zs.len() - 1) =~= xs);
    } else {
        let yl = ys.subrange(0, ys.len() - 1);
        lemma_join_concat(xs, yl);
        assert(zs.subrange(0, zs.len() - 1) =~= xs + yl);
        assert(crate::apply::join(zs, " "@) =~= crate::apply::join(xs, " "@) + " "@ + crate::apply::join(
            ys,
            " "@,
        ));
    }
}

/// After an apply the outputs read again replace the list; the selected tab
/// and the output selected in the layout section stay where they were when
/// the new list still has them and move to its last output otherwise; the
/// status line shows the message, not as an error, and the preset is Custom.
pub proof fn law_apply_done(a: AppView, msg: Seq<char>, fresh: Seq<MonitorView>)
    requires
        fresh.len() > 0,
    ensures
        ({
            let b = crate::input::apply_done_spec(a, msg, fresh);
            &&& b.monitors == fresh
            &&& a.tab < fresh.len() ==> b.tab == a.tab
            &&& a.tab >= fresh.len() ==> b.tab == fresh.len() - 1
            &&& a.layout_sel < fresh.len() ==> b.layout_sel == a.layout_sel
            &&& a.layout_sel >= fresh.len() ==> b.layout_sel == fresh.len() - 1
            &&& b.status == msg && !b.status_err
            &&& b.proj == Proj::Custom
            &&& b.section == a.section && b.sel_field == a.sel_field && b.ui == a.ui
        }),
{
}

/// Every output read from a report lists at least one mode; its reported
/// mode is the first mode marked current, or the first mode when none is;
/// and every pending setting starts as the reported one (its placement fixed
/// at its reported position).
pub proof fn law_read_outputs(s: Seq<char>)
    ensures
        forall|k: int|
            0 <= k < crate::parse::parse_spec(s).len() ==> {
                let m = #[trigger] crate::parse::parse_spec(s)[k];
                &&& m.modes.len() > 0
                &&& (exists|j: int| 0 <= j < m.modes.len() && m.modes[j].current) ==> m.modes[m.cur_mode].current
                    && forall|j: int| 0 <= j < m.cur_mode ==> !m.modes[j].current
                &&& !(exists|j: int| 0 <= j < m.modes.len() && m.modes[j].current) ==> m.cur_mode == 0
                &&& m.new_mode == m.cur_mode && m.new_transform == m.transform && m.new_scale == m.scale
                &&& m.new_adaptive == m.adaptive_sync && m.new_enabled == m.enabled
                &&& m.new_pos == PosModeView::Absolute(m.position.0, m.position.1)
            },
{
    crate::parse::law_parsed_outputs_are_clean(s);
    assert forall|k: int| 0 <= k < crate::parse::parse_spec(s).len() implies {
        let m = #[trigger] crate::parse::parse_spec(s)[k];
        &&& m.modes.len() > 0
        &&& (exists|j: int| 0 <= j < m.modes.len() && m.modes[j].current) ==> m.modes[m.cur_mode].current
            && forall|j: int| 0 <= j < m.cur_mode ==> !m.modes[j].current
        &&& !(exists|j: int| 0 <= j < m.modes.len() && m.modes[j].current) ==> m.cur_mode == 0
        &&& m.new_mode == m.cur_mode && m.new_transform == m.transform && m.new_scale == m.scale
        &&& m.new_adaptive == m.adaptive_sync && m.new_enabled == m.enabled
        &&& m.new_pos == PosModeView::Absolute(m.position.0, m.position.1)
    } by {
        let m = crate::parse::parse_spec(s)[k];
        assert(crate::parse::clean(m));
        crate::parse::lemma_current_index(m.modes);
        let ci = crate::parse::current_index(m.modes);
        if exists|j: int| 0 <= j < m.modes.len() && m.modes[j].current {
            let j = choose|j: int| 0 <= j < m.modes.len() && m.modes[j].current;
            assert(ci <= j);
        }
    }
}

} // verus!
