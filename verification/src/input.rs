//! What each key does: the transition function of the user interface.
//!
//! `handle` takes the state and a key and gives the next state and what the
//! caller must do next: go on, quit, or apply the pending settings (which runs
//! `wlr-randr` and reads the outputs again, then `App::apply_done`).
use vstd::prelude::*;
use crate::app::{App, AppView, Section, UiMode};
use crate::consts::{transform_name, transforms, F_ADAPTIVE, F_ENABLED, F_MODE, F_SCALE, F_TRANSFORM, N_FIELDS, N_TRANSFORMS};
use crate::decimal::{fixed_str, int_str, parse_i32, parse_i32_spec, push_fixed, push_int};
use crate::scale::{read_scale, scale_entry_spec, ScaleEntry};
use crate::monitor::{
    lemma_views_update,
    cycle_list_spec, pos_cycle_list, pos_views, resolve_abs, resolve_spec, views, names, Monitor,
    MonitorView, PosMode, PosModeView,
};
use crate::proj::{apply_proj, lemma_proj_keeps, proj_label, proj_spec, step_spec, Proj};
use crate::text::{chars_of, find, find_in, pop_char, push_char, push_str, trim, trim_range};

verus! {

/// A key press: the special keys of the terminal, or any other key code.
#[derive(Clone, Copy, PartialEq, Eq, Structural, Debug)]
pub enum Key {
    Up,
    Down,
    Left,
    Right,
    Enter,
    Backspace,
    Code(i32),
}

/// What the caller does after a key: go on, quit, or apply the pending settings.
#[derive(Clone, Copy, PartialEq, Eq, Structural, Debug)]
pub enum Outcome {
    Continue,
    Quit,
    Apply,
}

pub open spec fn is_enter(k: Key) -> bool {
    k == Key::Enter || k == Key::Code(10)
}

pub open spec fn with_mon(a: AppView, i: int, m: MonitorView) -> AppView {
    AppView { monitors: a.monitors.update(i, m), ..a }
}

/// The state with the status line emptied (its error flag is kept).
pub open spec fn cleared(a: AppView) -> AppView {
    AppView { status: Seq::empty(), ..a }
}

pub open spec fn clamp_scale(s: int) -> int {
    if s < 250_000 {
        250_000
    } else if s > 4_000_000 {
        4_000_000
    } else {
        s
    }
}

/// `s` (in millionths, positive) rounded to the nearest quarter, ties up.
pub open spec fn snap_quarter(s: int) -> int {
    ((s + 125_000) / 250_000) * 250_000
}

/// The position of `t` among the transform names, or `0` when it is none of them.
pub open spec fn transform_pos(t: Seq<char>) -> int {
    if t == transforms()[0] {
        0
    } else if t == transforms()[1] {
        1
    } else if t == transforms()[2] {
        2
    } else if t == transforms()[3] {
        3
    } else if t == transforms()[4] {
        4
    } else if t == transforms()[5] {
        5
    } else if t == transforms()[6] {
        6
    } else if t == transforms()[7] {
        7
    } else {
        0
    }
}

/// The selected setting of the current output moved one step in direction `dir`:
/// the next or previous mode (cyclically), the scale a quarter up or down within
/// 0.25 to 4 and snapped to quarters, the next or previous transform
/// (cyclically), or a toggled flag.
pub open spec fn cycle_setting_spec(a: AppView, dir: int) -> AppView {
    let m = a.monitors[a.tab];
    let m2 = if a.sel_field == F_MODE {
        MonitorView { new_mode: (m.new_mode + dir) % (m.modes.len() as int), ..m }
    } else if a.sel_field == F_SCALE {
        MonitorView {
            new_scale: snap_quarter(clamp_scale(m.new_scale + dir * 250_000)) as i64,
            ..m
        }
    } else if a.sel_field == F_TRANSFORM {
        MonitorView {
            new_transform: transforms()[(transform_pos(m.new_transform) + dir) % 8],
            ..m
        }
    } else if a.sel_field == F_ADAPTIVE {
        MonitorView { new_adaptive: !m.new_adaptive, ..m }
    } else if a.sel_field == F_ENABLED {
        MonitorView { new_enabled: !m.new_enabled, ..m }
    } else {
        m
    };
    with_mon(a, a.tab, m2)
}

/// The names of the outputs other than `name`, in order.
pub open spec fn others_of(ms: Seq<MonitorView>, name: Seq<char>) -> Seq<Seq<char>>
    decreases ms.len(),
{
    if ms.len() == 0 {
        seq![]
    } else {
        let r = others_of(ms.subrange(0, ms.len() - 1), name);
        if ms[ms.len() - 1].name != name {
            r.push(ms[ms.len() - 1].name)
        } else {
            r
        }
    }
}

/// The index of the first `p` in `opts`, or `opts.len()`.
pub open spec fn pos_index(opts: Seq<PosModeView>, p: PosModeView) -> int
    decreases opts.len(),
{
    if opts.len() == 0 {
        0
    } else if opts[0] == p {
        0
    } else {
        1 + pos_index(opts.subrange(1, opts.len() as int), p)
    }
}

/// The placement of the selected output in the layout section moved one step
/// in direction `dir` through `pos_cycle_list`'s options, starting from the
/// first option when the current placement is not among them.
pub open spec fn cycle_pos_spec(a: AppView, dir: int) -> AppView {
    let m = a.monitors[a.layout_sel];
    let opts = cycle_list_spec(m.new_pos, others_of(a.monitors, m.name));
    let c = pos_index(opts, m.new_pos);
    let cur = if c < opts.len() {
        c
    } else {
        0
    };
    with_mon(a, a.layout_sel, MonitorView { new_pos: opts[(cur + dir) % (opts.len() as int)], ..m })
}

/// The rows from row 4 to above the status line on a screen of `rows` rows
/// (at least one).
pub open spec fn full_rows(rows: int) -> int {
    if rows - 5 > 1 {
        rows - 5
    } else {
        1
    }
}

/// The rows of a list of `n` modes shown on a screen of `rows` rows: all the
/// rows above the status line when the list fits in them; otherwise one fewer
/// (at least one), leaving the row above the status line to the scroll line.
pub open spec fn visible_rows(rows: int, n: int) -> int {
    if n <= full_rows(rows) {
        full_rows(rows)
    } else if rows - 6 > 1 {
        rows - 6
    } else {
        1
    }
}

/// A key in the mode list: move the cursor (scrolling to keep it in view),
/// choose the mode under it, or leave.
pub open spec fn mode_select_spec(a: AppView, key: Key, rows: int) -> AppView {
    match a.ui {
        UiMode::ModeSelect { scroll, hover } => {
            let n = a.monitors[a.tab].modes.len();
            let visible = visible_rows(rows, n as int);
            if key == Key::Up {
                if hover > 0 {
                    let h = (hover - 1) as usize;
                    AppView {
                        ui: UiMode::ModeSelect {
                            scroll: if h < scroll {
                                h
                            } else {
                                scroll
                            },
                            hover: h,
                        },
                        ..a
                    }
                } else {
                    a
                }
            } else if key == Key::Down {
                if hover + 1 < n {
                    let h = (hover + 1) as usize;
                    AppView {
                        ui: UiMode::ModeSelect {
                            scroll: if h >= scroll + visible {
                                (h + 1 - visible) as usize
                            } else {
                                scroll
                            },
                            hover: h,
                        },
                        ..a
                    }
                } else {
                    a
                }
            } else if is_enter(key) {
                let m = a.monitors[a.tab];
                AppView {
                    ui: UiMode::Normal,
                    ..with_mon(a, a.tab, MonitorView { new_mode: hover as int, ..m })
                }
            } else if key == Key::Code(27) {
                AppView { ui: UiMode::Normal, ..a }
            } else {
                a
            }
        },
        _ => a,
    }
}

/// A key while a line of text is edited: Esc drops it, Enter takes it (as the
/// scale in the settings, or as `x,y` in the layout section), Backspace drops
/// the last character, and a printable ASCII key is added.
pub open spec fn text_spec(a: AppView, key: Key) -> AppView {
    if key == Key::Code(27) {
        AppView { buf: Seq::empty(), ui: UiMode::Normal, ..a }
    } else if is_enter(key) {
        let b = a.buf;
        let a1 = AppView { buf: Seq::empty(), ui: UiMode::Normal, ..a };
        if a.section == Section::Settings && a.sel_field == F_SCALE {
            match scale_entry_spec(trim(b)) {
                ScaleEntry::Value(v) => with_mon(a1, a.tab, MonitorView { new_scale: v, ..a.monitors[a.tab] }),
                ScaleEntry::OutOfRange => AppView { status: "Scale: 0.25 to 4.0"@, status_err: true, ..a1 },
                ScaleEntry::NotANumber => AppView { status: "Invalid number"@, status_err: true, ..a1 },
            }
        } else if a.section == Section::Layout {
            let k = find(b, ',');
            if k >= b.len() {
                AppView { status: "Format: x,y  e.g. 3440,0"@, status_err: true, ..a1 }
            } else {
                match (
                    parse_i32_spec(trim(b.subrange(0, k))),
                    parse_i32_spec(trim(b.subrange(k + 1, b.len() as int))),
                ) {
                    (Some(x), Some(y)) => with_mon(
                        a1,
                        a.layout_sel,
                        MonitorView {
                            new_pos: PosModeView::Absolute(x, y),
                            ..a.monitors[a.layout_sel]
                        },
                    ),
                    _ => AppView { status: "Invalid -- use: x,y"@, status_err: true, ..a1 },
                }
            }
        } else {
            a1
        }
    } else if key == Key::Backspace || key == Key::Code(127) || key == Key::Code(8) {
        AppView {
            buf: if a.buf.len() > 0 {
                a.buf.subrange(0, a.buf.len() - 1)
            } else {
                a.buf
            },
            ..a
        }
    } else {
        match key {
            Key::Code(c) => if 32 <= c < 127 {
                AppView { buf: a.buf.push(c as char), ..a }
            } else {
                a
            },
            _ => a,
        }
    }
}

/// The text offered for editing the placement of output `m`: its absolute
/// position, resolved when the placement is relative, as `x,y`.
pub open spec fn layout_buf(m: MonitorView, ms: Seq<MonitorView>) -> Seq<char> {
    let p = match m.new_pos {
        PosModeView::Absolute(x, y) => (x, y),
        _ => resolve_spec(m.new_pos, m, ms, 0),
    };
    int_str(p.0 as int) + ","@ + int_str(p.1 as int)
}

/// Switching to projection preset `p`.
pub open spec fn projected(a: AppView, p: Proj) -> AppView {
    AppView {
        proj: p,
        monitors: proj_spec(a.monitors, p),
        status: "Projection: "@ + proj_label(p),
        status_err: false,
        ..a
    }
}

/// Enter in the normal view.
pub open spec fn enter_spec(a: AppView) -> AppView {
    let c = cleared(a);
    if a.section == Section::Tabs {
        AppView { section: Section::Settings, ..c }
    } else if a.section == Section::Settings {
        let m = a.monitors[a.tab];
        if a.sel_field == F_MODE {
            AppView {
                ui: UiMode::ModeSelect {
                    scroll: if m.new_mode >= 5 {
                        (m.new_mode - 5) as usize
                    } else {
                        0
                    },
                    hover: m.new_mode as usize,
                },
                ..c
            }
        } else if a.sel_field == F_SCALE {
            AppView { buf: fixed_str(m.new_scale as int, 4), ui: UiMode::TextEdit, ..c }
        } else if a.sel_field == F_ADAPTIVE {
            with_mon(c, a.tab, MonitorView { new_adaptive: !m.new_adaptive, ..m })
        } else if a.sel_field == F_ENABLED {
            with_mon(c, a.tab, MonitorView { new_enabled: !m.new_enabled, ..m })
        } else {
            c
        }
    } else {
        AppView {
            buf: layout_buf(a.monitors[a.layout_sel], a.monitors),
            ui: UiMode::TextEdit,
            ..c
        }
    }
}

/// A key in the normal view: `q` quits, Tab moves the focus (settings, layout,
/// tabs), the arrows move within or change the focused section, Enter edits,
/// Esc returns to the normal view, `p`/`.` and `,` step the projection preset
/// forward and back, `a` asks to apply, and `r` resets the current output.
pub open spec fn normal_spec(a: AppView, key: Key) -> (AppView, Outcome) {
    if key == Key::Code(113) {
        (a, Outcome::Quit)
    } else if key == Key::Code(9) {
        (
            AppView {
                section: match a.section {
                    Section::Tabs => Section::Settings,
                    Section::Settings => Section::Layout,
                    Section::Layout => Section::Tabs,
                },
                ..cleared(a)
            },
            Outcome::Continue,
        )
    } else if key == Key::Up {
        let c = cleared(a);
        (
            match a.section {
                Section::Tabs => c,
                Section::Settings => AppView {
                    sel_field: if a.sel_field > 0 {
                        a.sel_field - 1
                    } else {
                        0
                    },
                    ..c
                },
                Section::Layout => AppView {
                    layout_sel: if a.layout_sel > 0 {
                        a.layout_sel - 1
                    } else {
                        a.layout_sel
                    },
                    ..c
                },
            },
            Outcome::Continue,
        )
    } else if key == Key::Down {
        let c = cleared(a);
        (
            match a.section {
                Section::Tabs => AppView { section: Section::Settings, ..c },
                Section::Settings => AppView {
                    sel_field: if a.sel_field + 1 < N_FIELDS {
                        a.sel_field + 1
                    } else {
                        a.sel_field
                    },
                    ..c
                },
                Section::Layout => AppView {
                    layout_sel: if a.layout_sel + 1 < a.monitors.len() {
                        a.layout_sel + 1
                    } else {
                        a.layout_sel
                    },
                    ..c
                },
            },
            Outcome::Continue,
        )
    } else if key == Key::Left {
        let c = cleared(a);
        (
            match a.section {
                Section::Tabs => AppView {
                    tab: if a.tab > 0 {
                        a.tab - 1
                    } else {
                        a.tab
                    },
                    ..c
                },
                Section::Settings => cycle_setting_spec(c, -1),
                Section::Layout => cycle_pos_spec(c, -1),
            },
            Outcome::Continue,
        )
    } else if key == Key::Right {
        let c = cleared(a);
        (
            match a.section {
                Section::Tabs => AppView {
                    tab: if a.tab + 1 < a.monitors.len() {
                        a.tab + 1
                    } else {
                        a.tab
                    },
                    ..c
                },
                Section::Settings => cycle_setting_spec(c, 1),
                Section::Layout => cycle_pos_spec(c, 1),
            },
            Outcome::Continue,
        )
    } else if is_enter(key) {
        (enter_spec(a), Outcome::Continue)
    } else if key == Key::Code(27) {
        (AppView { ui: UiMode::Normal, ..cleared(a) }, Outcome::Continue)
    } else if key == Key::Code(112) || key == Key::Code(46) {
        (projected(a, step_spec(a.proj, 1)), Outcome::Continue)
    } else if key == Key::Code(44) {
        (projected(a, step_spec(a.proj, -1)), Outcome::Continue)
    } else if key == Key::Code(97) {
        (a, Outcome::Apply)
    } else if key == Key::Code(114) {
        let m = a.monitors[a.tab];
        (
            AppView {
                status: "Reset "@ + m.name,
                status_err: false,
                ..with_mon(a, a.tab, m.reset())
            },
            Outcome::Continue,
        )
    } else {
        (a, Outcome::Continue)
    }
}

/// Whether a key reads an output in the state `a` (the current one, the one
/// selected in the layout section, or the one whose modes are listed): any
/// key in the mode list; in the text editor, Enter on a valid scale or `x,y`;
/// in the normal view, Left and Right outside the tab bar, Enter in the
/// layout section and on every setting but the transform, and `r`.
pub open spec fn reads_output(a: AppView, key: Key) -> bool {
    if a.ui == UiMode::TextEdit {
        &&& key != Key::Code(27)
        &&& is_enter(key)
        &&& {
            let b = a.buf;
            ||| a.section == Section::Settings && a.sel_field == F_SCALE && scale_entry_spec(trim(b)) is Value
            ||| !(a.section == Section::Settings && a.sel_field == F_SCALE) && a.section == Section::Layout && {
                let k = find(b, ',');
                &&& k < b.len()
                &&& parse_i32_spec(trim(b.subrange(0, k))) is Some
                &&& parse_i32_spec(trim(b.subrange(k + 1, b.len() as int))) is Some
            }
        }
    } else if a.ui is ModeSelect {
        true
    } else {
        &&& key != Key::Code(113)
        &&& key != Key::Code(9)
        &&& {
            ||| (key == Key::Left || key == Key::Right) && a.section != Section::Tabs
            ||| is_enter(key) && (a.section == Section::Layout || (a.section == Section::Settings
                && a.sel_field != F_TRANSFORM))
            ||| key == Key::Code(114)
        }
    }
}

/// The states in which a key can be handled: those with an output, and,
/// without one, the keys that read none.
pub open spec fn can_handle(a: AppView, key: Key) -> bool {
    a.wf() && (a.monitors.len() > 0 || !reads_output(a, key))
}

/// The next state and what to do next, for a key pressed on a screen of `rows` rows.
pub open spec fn handle_spec(a: AppView, key: Key, rows: int) -> (AppView, Outcome) {
    if a.ui == UiMode::TextEdit {
        (text_spec(a, key), Outcome::Continue)
    } else if a.ui is ModeSelect {
        (mode_select_spec(a, key, rows), Outcome::Continue)
    } else {
        normal_spec(a, key)
    }
}

proof fn lemma_with_mon(a: AppView, i: int, m: MonitorView)
    requires
        a.wf(),
        0 <= i < a.monitors.len(),
        m.wf(),
        m.modes == a.monitors[i].modes,
    ensures
        with_mon(a, i, m).wf(),
{
    let b = with_mon(a, i, m);
    assert forall|j: int| 0 <= j < b.monitors.len() implies (#[trigger] b.monitors[j]).wf() by {
        if j != i {
            assert(b.monitors[j] == a.monitors[j]);
        }
    }
}

fn clear_status(app: &mut App)
    ensures
        final(app)@ == cleared(old(app)@),
{
    app.status = String::new();
}

/// The position of `t` among the transform names, or `0`.
fn transform_index(t: &String) -> (r: usize)
    ensures
        r == transform_pos(t@),
        r < N_TRANSFORMS,
{
    let mut i: usize = 0;
    while i < N_TRANSFORMS
        invariant
            i <= N_TRANSFORMS,
            forall|j: int| 0 <= j < i ==> t@ != #[trigger] transforms()[j],
        decreases N_TRANSFORMS - i,
    {
        let name = String::from_str(transform_name(i));
        if *t == name {
            return i;
        }
        i = i + 1;
    }
    0
}

fn cycle_setting(app: &mut App, dir: i32)
    requires
        old(app).wf(),
        old(app).monitors.len() > 0,
        dir == 1 || dir == -1,
    ensures
        final(app)@ == cycle_setting_spec(old(app)@, dir as int),
        final(app).wf(),
{
    let t = app.tab;
    let ghost a = app@;
    let ghost ms = app.monitors@;
    assert(a.monitors[t as int] == ms[t as int]@);
    assert(a.monitors[t as int].wf());
    match app.sel_field {
        F_MODE => {
            let n = app.monitors[t].modes.len();
            let cur = app.monitors[t].new_mode;
            let next = if dir == 1 {
                if cur + 1 == n {
                    0
                } else {
                    cur + 1
                }
            } else {
                if cur == 0 {
                    n - 1
                } else {
                    cur - 1
                }
            };
            assert(next == (cur + dir) % (n as int)) by (nonlinear_arith)
                requires
                    cur < n,
                    dir == 1 || dir == -1,
                    next == if dir == 1 {
                        if cur + 1 == n {
                            0
                        } else {
                            cur + 1
                        }
                    } else {
                        if cur == 0 {
                            n - 1
                        } else {
                            cur - 1
                        }
                    },
            ;
            app.monitors[t].new_mode = next;
        },
        F_SCALE => {
            let s: i128 = app.monitors[t].new_scale as i128 + (dir as i128) * 250_000;
            let c: i128 = if s < 250_000 {
                250_000
            } else if s > 4_000_000 {
                4_000_000
            } else {
                s
            };
            let q: i128 = ((c + 125_000) / 250_000) * 250_000;
            app.monitors[t].new_scale = q as i64;
        },
        F_TRANSFORM => {
            let i = transform_index(&app.monitors[t].new_transform);
            let next = if dir == 1 {
                (i + 1) % 8
            } else {
                (i + 7) % 8
            };
            assert(next == (i + dir) % 8);
            app.monitors[t].new_transform = String::from_str(transform_name(next));
        },
        F_ADAPTIVE => {
            let b = app.monitors[t].new_adaptive;
            app.monitors[t].new_adaptive = !b;
        },
        F_ENABLED => {
            let b = app.monitors[t].new_enabled;
            app.monitors[t].new_enabled = !b;
        },
        _ => {},
    }
    proof {
        lemma_views_update(ms, t as int, app.monitors@[t as int]);
        assert(app.monitors@ == ms.update(t as int, app.monitors@[t as int]));
        assert(app@ == cycle_setting_spec(a, dir as int));
        lemma_with_mon(a, t as int, app@.monitors[t as int]);
    }
}

fn others_names(ms: &Vec<Monitor>, name: &String) -> (r: Vec<String>)
    ensures
        names(r@) == others_of(views(ms@), name@),
{
    let mut r: Vec<String> = Vec::new();
    let mut i: usize = 0;
    assert(views(ms@).subrange(0, 0) =~= Seq::<MonitorView>::empty());
    assert(names(r@) =~= Seq::<Seq<char>>::empty());
    while i < ms.len()
        invariant
            i <= ms.len(),
            names(r@) == others_of(views(ms@).subrange(0, i as int), name@),
        decreases ms.len() - i,
    {
        let ghost taken = views(ms@).subrange(0, i + 1);
        assert(taken.subrange(0, taken.len() - 1) =~= views(ms@).subrange(0, i as int));
        assert(taken[taken.len() - 1] == ms@[i as int]@);
        if ms[i].name != *name {
            let ghost before = r@;
            let n = ms[i].name.clone();
            r.push(n);
            assert(names(r@) =~= names(before).push(ms@[i as int].name@));
        }
        i = i + 1;
    }
    assert(views(ms@).subrange(0, ms.len() as int) =~= views(ms@));
    r
}

fn position_of(opts: &Vec<PosMode>, p: &PosMode) -> (r: usize)
    ensures
        r == pos_index(pos_views(opts@), p@),
{
    let ghost pv = pos_views(opts@);
    let mut k: usize = 0;
    assert(pv.subrange(0, opts.len() as int) =~= pv);
    while k < opts.len() && !opts[k].same_as(p)
        invariant
            k <= opts.len(),
            pv == pos_views(opts@),
            pos_index(pv, p@) == k + pos_index(pv.subrange(k as int, opts.len() as int), p@),
        decreases opts.len() - k,
    {
        let ghost t = pv.subrange(k as int, opts.len() as int);
        assert(t.subrange(1, t.len() as int) =~= pv.subrange(k + 1, opts.len() as int));
        assert(t[0] == opts@[k as int]@);
        k = k + 1;
    }
    proof {
        if k < opts.len() {
            assert(pv.subrange(k as int, opts.len() as int)[0] == opts@[k as int]@);
        }
    }
    k
}

proof fn lemma_cycle_list_nonempty(cur: PosModeView, others: Seq<Seq<char>>)
    ensures
        cycle_list_spec(cur, others).len() > 0,
{
    let rels = crate::monitor::rel_options_all(others);
    let abs = crate::monitor::abs_option(cur);
    if rels.contains(abs) {
        assert(rels.len() > 0);
    }
}

fn cycle_pos(app: &mut App, dir: i32)
    requires
        old(app).wf(),
        old(app).monitors.len() > 0,
        dir == 1 || dir == -1,
    ensures
        final(app)@ == cycle_pos_spec(old(app)@, dir as int),
        final(app).wf(),
{
    let ghost a = app@;
    let ghost ms = app.monitors@;
    let idx = app.layout_sel;
    assert(a.monitors[idx as int] == ms[idx as int]@);
    assert(a.monitors[idx as int].wf());
    let others = others_names(&app.monitors, &app.monitors[idx].name);
    let opts = pos_cycle_list(&app.monitors[idx].new_pos, others.as_slice());
    proof {
        lemma_cycle_list_nonempty(ms[idx as int].new_pos@, names(others@));
    }
    let c = position_of(&opts, &app.monitors[idx].new_pos);
    let cur = if c < opts.len() {
        c
    } else {
        0
    };
    let n = opts.len();
    let next = if dir == 1 {
        if cur + 1 == n {
            0
        } else {
            cur + 1
        }
    } else {
        if cur == 0 {
            n - 1
        } else {
            cur - 1
        }
    };
    assert(next == (cur + dir) % (n as int)) by (nonlinear_arith)
        requires
            cur < n,
            dir == 1 || dir == -1,
            next == if dir == 1 {
                if cur + 1 == n {
                    0
                } else {
                    cur + 1
                }
            } else {
                if cur == 0 {
                    n - 1
                } else {
                    cur - 1
                }
            },
    ;
    let p = opts[next].duplicate();
    assert(p@ == pos_views(opts@)[next as int]);
    app.monitors[idx].new_pos = p;
    proof {
        lemma_views_update(ms, idx as int, app.monitors@[idx as int]);
        assert(app.monitors@ == ms.update(idx as int, app.monitors@[idx as int]));
        assert(app@ == cycle_pos_spec(a, dir as int));
        lemma_with_mon(a, idx as int, app@.monitors[idx as int]);
    }
}

fn handle_mode_select(app: &mut App, key: Key, rows: i32)
    requires
        old(app).wf(),
        old(app).ui is ModeSelect,
    ensures
        final(app)@ == mode_select_spec(old(app)@, key, rows as int),
        final(app).wf(),
{
    let ghost a = app@;
    let ghost ms = app.monitors@;
    let t = app.tab;
    assert(a.monitors[t as int] == ms[t as int]@);
    assert(a.monitors[t as int].wf());
    let n = app.monitors[t].modes.len();
    let full: i64 = if (rows as i64) - 5 > 1 {
        (rows as i64) - 5
    } else {
        1
    };
    let visible: usize = if (n as u64) <= (full as u64) {
        full as usize
    } else if (rows as i64) - 6 > 1 {
        ((rows as i64) - 6) as usize
    } else {
        1
    };
    let (mut scroll, mut hover) = match app.ui {
        UiMode::ModeSelect { scroll, hover } => (scroll, hover),
        _ => {
            return;
        },
    };
    match key {
        Key::Up => {
            if hover > 0 {
                hover = hover - 1;
                if hover < scroll {
                    scroll = hover;
                }
            }
        },
        Key::Down => {
            if hover + 1 < n {
                hover = hover + 1;
                if hover - scroll >= visible {
                    scroll = hover + 1 - visible;
                }
            }
        },
        Key::Enter | Key::Code(10) => {
            app.monitors[t].new_mode = hover;
            app.ui = UiMode::Normal;
            proof {
                lemma_views_update(ms, t as int, app.monitors@[t as int]);
                lemma_with_mon(a, t as int, app@.monitors[t as int]);
            }
            return;
        },
        Key::Code(27) => {
            app.ui = UiMode::Normal;
            return;
        },
        _ => {},
    }
    app.ui = UiMode::ModeSelect { scroll, hover };
    assert(app@ =~= mode_select_spec(a, key, rows as int));
}

fn handle_text(app: &mut App, key: Key)
    requires
        old(app).ui == UiMode::TextEdit,
        can_handle(old(app)@, key),
    ensures
        final(app)@ == text_spec(old(app)@, key),
        final(app).wf(),
{
    let ghost a = app@;
    let ghost ms = app.monitors@;
    match key {
        Key::Code(27) => {
            app.buf = String::new();
            app.ui = UiMode::Normal;
        },
        Key::Enter | Key::Code(10) => {
            let v = chars_of(app.buf.as_str());
            app.buf = String::new();
            app.ui = UiMode::Normal;
            assert(v@.subrange(0, v.len() as int) =~= v@);
            if app.section == Section::Settings && app.sel_field == F_SCALE {
                let (lo, hi) = trim_range(&v, 0, v.len());
                match read_scale(&v, lo, hi) {
                    ScaleEntry::Value(x) => {
                        let t = app.tab;
                        assert(a.monitors[t as int] == ms[t as int]@);
                        assert(a.monitors[t as int].wf());
                        app.monitors[t].new_scale = x;
                        proof {
                            lemma_views_update(ms, t as int, app.monitors@[t as int]);
                            lemma_with_mon(a, t as int, app@.monitors[t as int]);
                        }
                    },
                    ScaleEntry::OutOfRange => {
                        app.set_status(String::from_str("Scale: 0.25 to 4.0"), true);
                    },
                    ScaleEntry::NotANumber => {
                        app.set_status(String::from_str("Invalid number"), true);
                    },
                }
            } else if app.section == Section::Layout {
                let k = find_in(&v, 0, v.len(), ',');
                if k >= v.len() {
                    app.set_status(String::from_str("Format: x,y  e.g. 3440,0"), true);
                } else {
                    assert(v@.subrange(0, k as int) =~= a.buf.subrange(0, k as int));
                    assert(v@.subrange(k + 1, v.len() as int) =~= a.buf.subrange(
                        k + 1,
                        a.buf.len() as int,
                    ));
                    let (xa, xb) = trim_range(&v, 0, k);
                    let (ya, yb) = trim_range(&v, k + 1, v.len());
                    match (parse_i32(&v, xa, xb), parse_i32(&v, ya, yb)) {
                        (Some(x), Some(y)) => {
                            let t = app.layout_sel;
                            assert(a.monitors[t as int] == ms[t as int]@);
                            assert(a.monitors[t as int].wf());
                            app.monitors[t].new_pos = PosMode::Absolute(x, y);
                            proof {
                                lemma_views_update(ms, t as int, app.monitors@[t as int]);
                                lemma_with_mon(a, t as int, app@.monitors[t as int]);
                            }
                        },
                        _ => {
                            app.set_status(String::from_str("Invalid -- use: x,y"), true);
                        },
                    }
                }
            }
        },
        Key::Backspace | Key::Code(127) | Key::Code(8) => {
            pop_char(&mut app.buf);
        },
        Key::Code(c) => {
            if c >= 32 && c < 127 {
                push_char(&mut app.buf, (c as u8) as char);
            }
        },
        _ => {},
    }
    assert(app@ =~= text_spec(a, key));
}

fn project(app: &mut App, p: Proj)
    requires
        old(app).wf(),
    ensures
        final(app)@ == projected(old(app)@, p),
        final(app).wf(),
{
    let ghost a = app@;
    app.proj = p;
    apply_proj(&mut app.monitors, p);
    let mut s = String::from_str("Projection: ");
    push_str(&mut s, p.label());
    app.set_status(s, false);
    proof {
        lemma_proj_keeps(a.monitors, p);
        assert(app@ =~= projected(a, p));
        assert forall|i: int| 0 <= i < app@.monitors.len() implies (#[trigger] app@.monitors[i]).wf() by {
            assert(a.monitors[i].wf());
        }
    }
}

fn enter(app: &mut App)
    requires
        old(app).ui == UiMode::Normal,
        can_handle(old(app)@, Key::Enter),
    ensures
        final(app)@ == enter_spec(old(app)@),
        final(app).wf(),
{
    clear_status(app);
    let ghost a = app@;
    let ghost ms = app.monitors@;
    match app.section {
        Section::Tabs => {
            app.section = Section::Settings;
        },
        Section::Settings => {
            let t = app.tab;
            proof {
                if app.sel_field != F_TRANSFORM {
                    assert(a.monitors[t as int] == ms[t as int]@);
                    assert(a.monitors[t as int].wf());
                }
            }
            match app.sel_field {
                F_MODE => {
                    let h = app.monitors[t].new_mode;
                    let scroll = if h >= 5 {
                        h - 5
                    } else {
                        0
                    };
                    app.ui = UiMode::ModeSelect { scroll, hover: h };
                },
                F_SCALE => {
                    let mut b = String::new();
                    push_fixed(&mut b, app.monitors[t].new_scale, 4);
                    app.buf = b;
                    app.ui = UiMode::TextEdit;
                },
                F_ADAPTIVE => {
                    let v = app.monitors[t].new_adaptive;
                    app.monitors[t].new_adaptive = !v;
                    proof {
                        lemma_views_update(ms, t as int, app.monitors@[t as int]);
                        lemma_with_mon(a, t as int, app@.monitors[t as int]);
                    }
                },
                F_ENABLED => {
                    let v = app.monitors[t].new_enabled;
                    app.monitors[t].new_enabled = !v;
                    proof {
                        lemma_views_update(ms, t as int, app.monitors@[t as int]);
                        lemma_with_mon(a, t as int, app@.monitors[t as int]);
                    }
                },
                _ => {},
            }
        },
        Section::Layout => {
            let l = app.layout_sel;
            assert(a.monitors[l as int] == ms[l as int]@);
            assert(a.monitors[l as int].wf());
            let mon = &app.monitors[l];
            let p = match &mon.new_pos {
                PosMode::Absolute(x, y) => (*x, *y),
                _ => {
                    proof {
                        assert forall|i: int| 0 <= i < ms.len() implies (#[trigger] ms[i]).mode_ok() by {
                            assert(a.monitors[i] == ms[i]@);
                            assert(a.monitors[i].wf());
                        }
                    }
                    proof {
                        crate::monitor::lemma_all_resolvable(mon@.new_pos, mon@, app.monitors@);
                    }
                    resolve_abs(&mon.new_pos, mon, app.monitors.as_slice(), 0)
                },
            };
            let mut b = String::new();
            push_int(&mut b, p.0 as i64);
            push_str(&mut b, ",");
            push_int(&mut b, p.1 as i64);
            app.buf = b;
            app.ui = UiMode::TextEdit;
        },
    }
    assert(app@ =~= enter_spec(old(app)@));
}

fn handle_normal(app: &mut App, key: Key) -> (r: Outcome)
    requires
        can_handle(old(app)@, key),
        old(app).ui == UiMode::Normal,
    ensures
        (final(app)@, r) == normal_spec(old(app)@, key),
        final(app).wf(),
{
    let ghost a = app@;
    let ghost ms = app.monitors@;
    match key {
        Key::Code(113) => {
            return Outcome::Quit;
        },
        Key::Code(9) => {
            app.section = match app.section {
                Section::Tabs => Section::Settings,
                Section::Settings => Section::Layout,
                Section::Layout => Section::Tabs,
            };
            clear_status(app);
        },
        Key::Up => {
            clear_status(app);
            match app.section {
                Section::Tabs => {},
                Section::Settings => {
                    if app.sel_field > 0 {
                        app.sel_field = app.sel_field - 1;
                    }
                },
                Section::Layout => {
                    if app.layout_sel > 0 {
                        app.layout_sel = app.layout_sel - 1;
                    }
                },
            }
        },
        Key::Down => {
            clear_status(app);
            match app.section {
                Section::Tabs => {
                    app.section = Section::Settings;
                },
                Section::Settings => {
                    if app.sel_field + 1 < N_FIELDS {
                        app.sel_field = app.sel_field + 1;
                    }
                },
                Section::Layout => {
                    if app.layout_sel < app.monitors.len() && app.layout_sel + 1 < app.monitors.len() {
                        app.layout_sel = app.layout_sel + 1;
                    }
                },
            }
        },
        Key::Left => {
            clear_status(app);
            match app.section {
                Section::Tabs => {
                    if app.tab > 0 {
                        app.tab = app.tab - 1;
                    }
                },
                Section::Settings => {
                    cycle_setting(app, -1);
                },
                Section::Layout => {
                    cycle_pos(app, -1);
                },
            }
        },
        Key::Right => {
            clear_status(app);
            match app.section {
                Section::Tabs => {
                    if app.tab < app.monitors.len() && app.tab + 1 < app.monitors.len() {
                        app.tab = app.tab + 1;
                    }
                },
                Section::Settings => {
                    cycle_setting(app, 1);
                },
                Section::Layout => {
                    cycle_pos(app, 1);
                },
            }
        },
        Key::Enter | Key::Code(10) => {
            enter(app);
        },
        Key::Code(27) => {
            app.ui = UiMode::Normal;
            clear_status(app);
        },
        Key::Code(112) | Key::Code(46) => {
            let p = app.proj.step(1);
            project(app, p);
        },
        Key::Code(44) => {
            let p = app.proj.step(-1);
            project(app, p);
        },
        Key::Code(97) => {
            return Outcome::Apply;
        },
        Key::Code(114) => {
            let t = app.tab;
            assert(a.monitors[t as int] == ms[t as int]@);
            assert(a.monitors[t as int].wf());
            let name = app.monitors[t].name.clone();
            app.cur_mon_mut().reset();
            proof {
                lemma_views_update(ms, t as int, app.monitors@[t as int]);
                lemma_with_mon(a, t as int, app@.monitors[t as int]);
            }
            let mut s = String::from_str("Reset ");
            push_str(&mut s, name.as_str());
            app.set_status(s, false);
        },
        _ => {},
    }
    assert(app@ =~= normal_spec(a, key).0);
    Outcome::Continue
}

/// Handles one key pressed on a screen of `rows` rows.
pub fn handle(app: &mut App, key: Key, rows: i32) -> (r: Outcome)
    requires
        can_handle(old(app)@, key),
    ensures
        (final(app)@, r) == handle_spec(old(app)@, key, rows as int),
        final(app).wf(),
{
    if app.ui == UiMode::TextEdit {
        handle_text(app, key);
        return Outcome::Continue;
    }
    if let UiMode::ModeSelect { .. } = app.ui {
        handle_mode_select(app, key, rows);
        return Outcome::Continue;
    }
    handle_normal(app, key)
}

/// The state after a successful apply: the outputs read again, the
/// selections kept within them, the preset back to custom, and `msg` shown.
pub open spec fn apply_done_spec(a: AppView, msg: Seq<char>, fresh: Seq<MonitorView>) -> AppView {
    let last = if fresh.len() > 0 {
        fresh.len() - 1
    } else {
        0
    };
    AppView {
        monitors: fresh,
        tab: if a.tab < last {
            a.tab
        } else {
            last
        },
        layout_sel: if a.layout_sel < last {
            a.layout_sel
        } else {
            last
        },
        proj: Proj::Custom,
        status: msg,
        status_err: false,
        ..a
    }
}

/// Takes in the outputs read again after `wlr-randr` applied the settings.
pub fn apply_done(app: &mut App, msg: String, fresh: Vec<Monitor>)
    ensures
        final(app)@ == apply_done_spec(old(app)@, msg@, views(fresh@)),
        old(app).wf() && old(app).ui == UiMode::Normal && crate::monitor::all_wf(fresh@)
            ==> final(app).wf(),
{
    let last = if fresh.len() > 0 {
        fresh.len() - 1
    } else {
        0
    };
    if app.tab > last {
        app.tab = last;
    }
    if app.layout_sel > last {
        app.layout_sel = last;
    }
    let ghost fv = fresh@;
    app.monitors = fresh;
    app.proj = Proj::Custom;
    app.set_status(msg, false);
    proof {
        if crate::monitor::all_wf(fv) {
            assert forall|i: int| 0 <= i < app@.monitors.len() implies (#[trigger] app@.monitors[i]).wf() by {
                assert(fv[i].wf());
            }
        }
    }
}

} // verus!
