//! The screen: every text with the row, column and style it is printed at,
//! from the title down to the status line; the terminal program only prints
//! them.
use vstd::prelude::*;
use crate::app::{App, AppView, Section, UiMode};
use crate::consts::{field_name, field_names, N_FIELDS};
use crate::decimal::{int_str, nat_str, push_int, push_nat};
use crate::monitor::{
    display_spec, field_value_spec, mode_text, resolve_abs, resolve_spec, Mode, Monitor,
    MonitorView, PosMode, PosModeView,
};
use crate::text::{chars_of, push_char, push_str};
use crate::diagram::{diagram_spec, draw_layout_diagram};
use crate::input::{full_rows, visible_rows};
use crate::proj::{proj_at, proj_label, Proj};

verus! {

/// The number of bytes that `c` takes in UTF-8.
pub open spec fn utf8_len(c: char) -> nat {
    let n = c as u32;
    if n < 0x80 {
        1
    } else if n < 0x800 {
        2
    } else if n < 0x10000 {
        3
    } else {
        4
    }
}

/// The number of bytes that `s` takes in UTF-8 (`str::len`).
pub open spec fn byte_len(s: Seq<char>) -> nat
    decreases s.len(),
{
    if s.len() == 0 {
        0
    } else {
        utf8_len(s[0]) + byte_len(s.subrange(1, s.len() as int))
    }
}

/// The longest prefix of `s` that takes at most `w` bytes.
pub open spec fn fit_prefix(s: Seq<char>, w: int) -> Seq<char>
    decreases s.len(),
{
    if s.len() == 0 || utf8_len(s[0]) > w {
        seq![]
    } else {
        seq![s[0]] + fit_prefix(s.subrange(1, s.len() as int), w - utf8_len(s[0]))
    }
}

pub open spec fn spaces(n: int) -> Seq<char> {
    Seq::new(if n > 0 {
        n as nat
    } else {
        0
    }, |i: int| ' ')
}

/// `s` padded with spaces on the right to `n` characters (`{:<n}`).
pub open spec fn pad_right(s: Seq<char>, n: int) -> Seq<char> {
    s + spaces(n - s.len())
}

/// `s` cut to `w` bytes and padded with spaces to `w` characters.
pub open spec fn pad_spec(s: Seq<char>, w: int) -> Seq<char> {
    pad_right(fit_prefix(s, w), w)
}

/// `s` can be cut at byte `w`: it is no longer, or byte `w` starts a character.
pub open spec fn pad_ok(s: Seq<char>, w: int) -> bool {
    byte_len(s) <= w || byte_len(fit_prefix(s, w)) == w
}

fn utf8_width(c: char) -> (r: usize)
    ensures
        r == utf8_len(c),
{
    let n = c as u32;
    if n < 0x80 {
        1
    } else if n < 0x800 {
        2
    } else if n < 0x10000 {
        3
    } else {
        4
    }
}

/// Appends spaces until `s`, which holds `have` characters, holds `n`.
fn fill_to(s: &mut String, have: usize, n: usize)
    requires
        old(s)@.len() == have,
    ensures
        final(s)@ == pad_right(old(s)@, n as int),
{
    let mut k = have;
    while k < n
        invariant
            s@.len() == k,
            k >= have,
            pad_right(s@, n as int) == pad_right(old(s)@, n as int),
        decreases n - k,
    {
        let ghost before = s@;
        push_char(s, ' ');
        k = k + 1;
        assert(pad_right(s@, n as int) =~= pad_right(before, n as int));
    }
    assert(pad_right(s@, n as int) =~= s@);
}

/// Cuts `s` to `w` bytes and pads it with spaces to `w` characters.
pub fn pad(s: &str, w: usize) -> (r: String)
    requires
        pad_ok(s@, w as int),
    ensures
        r@ == pad_spec(s@, w as int),
{
    let v = chars_of(s);
    let mut used: usize = 0;
    let mut i: usize = 0;
    assert(v@.subrange(0, v.len() as int) =~= v@);
    assert(v@.subrange(0, 0) =~= Seq::<char>::empty());
    while i < v.len() && utf8_width(v[i]) <= w - used
        invariant
            i <= v.len(),
            used <= w,
            fit_prefix(v@, w as int) == v@.subrange(0, i as int) + fit_prefix(
                v@.subrange(i as int, v.len() as int),
                w - used,
            ),
        decreases v.len() - i,
    {
        let ghost rest = v@.subrange(i as int, v.len() as int);
        assert(rest.subrange(1, rest.len() as int) =~= v@.subrange(i + 1, v.len() as int));
        assert(v@.subrange(0, i + 1) =~= v@.subrange(0, i as int) + seq![v@[i as int]]);
        used = used + utf8_width(v[i]);
        i = i + 1;
    }
    assert(fit_prefix(v@.subrange(i as int, v.len() as int), w - used) =~= Seq::<char>::empty());
    let mut r = String::new();
    let mut k: usize = 0;
    while k < i
        invariant
            k <= i <= v.len(),
            r@ == v@.subrange(0, k as int),
        decreases i - k,
    {
        push_char(&mut r, v[k]);
        k = k + 1;
        assert(r@ =~= v@.subrange(0, k as int));
    }
    fill_to(&mut r, i, w);
    r
}

/// The status line: the last message (marked as an error or not), or the keys
/// that the current view takes.
pub open spec fn status_spec(a: AppView) -> Seq<char> {
    if a.status.len() > 0 {
        (if a.status_err {
            "[ERR]"@
        } else {
            "[OK] "@
        }) + "  "@ + a.status
    } else if a.ui == UiMode::TextEdit {
        " Type value  Enter:confirm  Esc:cancel"@
    } else if a.ui is ModeSelect {
        " Up/Dn:scroll  Enter:select  Esc:cancel"@
    } else if a.section == Section::Tabs {
        " L/R:switch tab  Down/Tab:settings  a:apply  r:reset  q:quit"@
    } else if a.section == Section::Settings {
        " Up/Dn:field  L/R:cycle  Enter:edit  Tab:layout  a:apply  r:reset  q:quit"@
    } else {
        " Up/Dn:monitor  L/R:cycle pos  Enter:type x,y  Tab:tabs  p:proj  a:apply  q:quit"@
    }
}

pub fn status_line(app: &App) -> (r: String)
    ensures
        r@ == status_spec(app@),
{
    let mut s = String::new();
    if !app.status.as_str().is_empty() {
        push_str(&mut s, if app.status_err { "[ERR]" } else { "[OK] " });
        push_str(&mut s, "  ");
        push_str(&mut s, app.status.as_str());
    } else {
        match app.ui {
            UiMode::TextEdit => push_str(&mut s, " Type value  Enter:confirm  Esc:cancel"),
            UiMode::ModeSelect { .. } => push_str(&mut s, " Up/Dn:scroll  Enter:select  Esc:cancel"),
            UiMode::Normal => match app.section {
                Section::Tabs => push_str(
                    &mut s,
                    " L/R:switch tab  Down/Tab:settings  a:apply  r:reset  q:quit",
                ),
                Section::Settings => push_str(
                    &mut s,
                    " Up/Dn:field  L/R:cycle  Enter:edit  Tab:layout  a:apply  r:reset  q:quit",
                ),
                Section::Layout => push_str(
                    &mut s,
                    " Up/Dn:monitor  L/R:cycle pos  Enter:type x,y  Tab:tabs  p:proj  a:apply  q:quit",
                ),
            },
        }
    }
    assert(s@ =~= status_spec(app@));
    s
}

/// The label of an output's tab, marked with `*` when something is pending.
pub open spec fn tab_label_spec(m: MonitorView) -> Seq<char> {
    "["@ + m.name + (if m.dirty() {
        "*"@
    } else {
        " "@
    }) + "]"@
}

pub fn tab_label(m: &Monitor) -> (r: String)
    ensures
        r@ == tab_label_spec(m@),
{
    let mut s = String::from_str("[");
    push_str(&mut s, m.name.as_str());
    push_str(&mut s, if m.dirty() { "*" } else { " " });
    push_str(&mut s, "]");
    assert(s@ =~= tab_label_spec(m@));
    s
}

/// The line that names the current output, its make and model, and its kind.
pub open spec fn info_spec(m: MonitorView) -> Seq<char> {
    "  "@ + m.name + "  "@ + (if m.make.len() == 0 {
        ""@
    } else {
        m.make + " "@ + m.model
    }) + "  "@ + (if m.is_laptop() {
        "[laptop]"@
    } else {
        "[external]"@
    })
}

pub fn info_line(m: &Monitor) -> (r: String)
    ensures
        r@ == info_spec(m@),
{
    let mut s = String::from_str("  ");
    push_str(&mut s, m.name.as_str());
    push_str(&mut s, "  ");
    if !m.make.as_str().is_empty() {
        push_str(&mut s, m.make.as_str());
        push_str(&mut s, " ");
        push_str(&mut s, m.model.as_str());
    } else {
        push_str(&mut s, "");
    }
    push_str(&mut s, "  ");
    push_str(&mut s, if m.is_laptop() { "[laptop]" } else { "[external]" });
    assert(s@ =~= info_spec(m@));
    s
}

/// Text being edited, as shown in place of a value.
pub open spec fn edited(buf: Seq<char>) -> Seq<char> {
    "["@ + buf + "]_"@
}

/// The line of settings field `f` of the current output.
pub open spec fn field_line_spec(a: AppView, f: int) -> Seq<char> {
    let m = a.monitors[a.tab];
    let sel = a.section == Section::Settings && f == a.sel_field;
    let val = if sel && a.ui == UiMode::TextEdit {
        edited(a.buf)
    } else {
        field_value_spec(m, f)
    };
    " "@ + (if sel {
        ">"@
    } else {
        " "@
    }) + "  "@ + pad_right(field_names()[f] + ":"@, 14) + " "@ + val
}

/// Appends `t` padded with spaces on the right to `n` characters.
fn push_padded_right(s: &mut String, t: &String, n: usize)
    ensures
        final(s)@ == old(s)@ + pad_right(t@, n as int),
{
    let c = t.as_str().unicode_len();
    let mut u = t.clone();
    fill_to(&mut u, c, n);
    push_str(s, u.as_str());
}

pub fn field_line(app: &App, f: usize) -> (r: String)
    requires
        app.wf(),
        app.monitors.len() > 0,
        f < N_FIELDS,
    ensures
        r@ == field_line_spec(app@, f as int),
{
    let m = &app.monitors[app.tab];
    assert(app@.monitors[app.tab as int] == m@);
    assert(app@.monitors[app.tab as int].wf());
    let sel = app.section == Section::Settings && f == app.sel_field;
    let mut val = String::new();
    if sel && app.ui == UiMode::TextEdit {
        push_str(&mut val, "[");
        push_str(&mut val, app.buf.as_str());
        push_str(&mut val, "]_");
    } else {
        val = m.field_value(f);
    }
    let mut s = String::from_str(" ");
    push_str(&mut s, if sel { ">" } else { " " });
    push_str(&mut s, "  ");
    let mut label = String::from_str(field_name(f));
    push_str(&mut label, ":");
    push_padded_right(&mut s, &label, 14);
    push_str(&mut s, " ");
    push_str(&mut s, val.as_str());
    assert(s@ =~= field_line_spec(app@, f as int));
    s
}

/// The line of the layout section for the selected output: its placement
/// (with the resolved position for a relative one) or the text being edited.
pub open spec fn position_line_spec(a: AppView) -> Seq<char> {
    let m = a.monitors[a.layout_sel];
    let in_layout = a.section == Section::Layout;
    let pos_str = if in_layout && a.ui == UiMode::TextEdit {
        edited(a.buf)
    } else {
        match m.new_pos {
            PosModeView::Absolute(px, py) => "x="@ + int_str(px as int) + " y="@ + int_str(py as int),
            _ => {
                let p = resolve_spec(m.new_pos, m, a.monitors, 0);
                display_spec(m.new_pos) + "  -> ("@ + int_str(p.0 as int) + ", "@ + int_str(
                    p.1 as int,
                ) + ")"@
            },
        }
    };
    let nav = if a.monitors.len() > 1 {
        " ("@ + nat_str((a.layout_sel + 1) as nat) + "/"@ + nat_str(a.monitors.len()) + ")"@
    } else {
        ""@
    };
    " "@ + (if in_layout {
        ">"@
    } else {
        " "@
    }) + "  "@ + pad_right(m.name + nav + ":"@, 12) + "  "@ + pos_str + (if m.pos_dirty() {
        " [*]"@
    } else {
        ""@
    })
}

pub fn position_line(app: &App) -> (r: String)
    requires
        app.wf(),
        app.monitors.len() > 0,
    ensures
        r@ == position_line_spec(app@),
{
    let ghost a = app@;
    let m = &app.monitors[app.layout_sel];
    assert(a.monitors[app.layout_sel as int] == m@);
    assert(a.monitors[app.layout_sel as int].wf());
    let in_layout = app.section == Section::Layout;
    let mut pos_str = String::new();
    if in_layout && app.ui == UiMode::TextEdit {
        push_str(&mut pos_str, "[");
        push_str(&mut pos_str, app.buf.as_str());
        push_str(&mut pos_str, "]_");
    } else {
        match &m.new_pos {
            PosMode::Absolute(px, py) => {
                push_str(&mut pos_str, "x=");
                push_int(&mut pos_str, *px as i64);
                push_str(&mut pos_str, " y=");
                push_int(&mut pos_str, *py as i64);
            },
            _ => {
                proof {
                    assert forall|i: int| 0 <= i < app.monitors@.len() implies (
                    #[trigger] app.monitors@[i]).mode_ok() by {
                        assert(a.monitors[i] == app.monitors@[i]@);
                        assert(a.monitors[i].wf());
                    }
                }
                proof {
                    crate::monitor::lemma_all_resolvable(m@.new_pos, m@, app.monitors@);
                }
                let p = resolve_abs(&m.new_pos, m, app.monitors.as_slice(), 0);
                let d = m.new_pos.display();
                push_str(&mut pos_str, d.as_str());
                push_str(&mut pos_str, "  -> (");
                push_int(&mut pos_str, p.0 as i64);
                push_str(&mut pos_str, ", ");
                push_int(&mut pos_str, p.1 as i64);
                push_str(&mut pos_str, ")");
            },
        }
    }
    let mut label = m.name.clone();
    if app.monitors.len() > 1 {
        let ghost l0 = label@;
        push_str(&mut label, " (");
        push_nat(&mut label, (app.layout_sel + 1) as u64);
        push_str(&mut label, "/");
        push_nat(&mut label, app.monitors.len() as u64);
        push_str(&mut label, ")");
        assert(label@ =~= l0 + (" ("@ + nat_str((a.layout_sel + 1) as nat) + "/"@ + nat_str(
            a.monitors.len(),
        ) + ")"@));
    } else {
        push_str(&mut label, "");
    }
    push_str(&mut label, ":");
    let mut s = String::from_str(" ");
    push_str(&mut s, if in_layout { ">" } else { " " });
    push_str(&mut s, "  ");
    push_padded_right(&mut s, &label, 12);
    push_str(&mut s, "  ");
    push_str(&mut s, pos_str.as_str());
    push_str(&mut s, if m.pos_dirty() { " [*]" } else { "" });
    assert(s@ =~= position_line_spec(app@));
    s
}

/// The title of the mode list.
pub open spec fn mode_header_spec(m: MonitorView) -> Seq<char> {
    " Mode for "@ + m.name + " ("@ + nat_str(m.modes.len()) + " available)"@
}

pub fn mode_header(m: &Monitor) -> (r: String)
    ensures
        r@ == mode_header_spec(m@),
{
    let mut s = String::from_str(" Mode for ");
    push_str(&mut s, m.name.as_str());
    push_str(&mut s, " (");
    push_nat(&mut s, m.modes.len() as u64);
    push_str(&mut s, " available)");
    assert(s@ =~= mode_header_spec(m@));
    s
}

/// One row of the mode list, with the cursor mark when `selected`.
pub open spec fn mode_row_spec(md: Mode, selected: bool) -> Seq<char> {
    " "@ + (if selected {
        ">"@
    } else {
        " "@
    }) + " "@ + mode_text(md) + (if md.preferred {
        " (preferred)"@
    } else {
        ""@
    }) + (if md.current {
        " (current)"@
    } else {
        ""@
    })
}

pub fn mode_row(md: &Mode, selected: bool) -> (r: String)
    ensures
        r@ == mode_row_spec(*md, selected),
{
    let mut s = String::from_str(" ");
    push_str(&mut s, if selected { ">" } else { " " });
    push_str(&mut s, " ");
    let t = md.display();
    push_str(&mut s, t.as_str());
    push_str(&mut s, if md.preferred { " (preferred)" } else { "" });
    push_str(&mut s, if md.current { " (current)" } else { "" });
    assert(s@ =~= mode_row_spec(*md, selected));
    s
}

/// The line under a mode list longer than the screen.
pub open spec fn mode_footer_spec(hover: nat, n: nat) -> Seq<char> {
    " "@ + nat_str(hover + 1) + "/"@ + nat_str(n) + " | Up/Dn to scroll "@
}

pub fn mode_footer(hover: usize, n: usize) -> (r: String)
    requires
        hover < n,
    ensures
        r@ == mode_footer_spec(hover as nat, n as nat),
{
    let mut s = String::from_str(" ");
    push_nat(&mut s, (hover + 1) as u64);
    push_str(&mut s, "/");
    push_nat(&mut s, n as u64);
    push_str(&mut s, " | Up/Dn to scroll ");
    assert(s@ =~= mode_footer_spec(hover as nat, n as nat));
    s
}

pub proof fn lemma_byte_len_concat(a: Seq<char>, b: Seq<char>)
    ensures
        byte_len(a + b) == byte_len(a) + byte_len(b),
    decreases a.len(),
{
    if a.len() > 0 {
        let t = a.subrange(1, a.len() as int);
        lemma_byte_len_concat(t, b);
        assert((a + b).subrange(1, (a + b).len() as int) =~= t + b);
        assert((a + b)[0] == a[0]);
    } else {
        assert(a + b =~= b);
    }
}

pub(crate) fn width_of(c: char) -> (r: usize)
    ensures
        r == utf8_len(c),
        1 <= r <= 4,
{
    let n = c as u32;
    if n < 0x80 {
        1
    } else if n < 0x800 {
        2
    } else if n < 0x10000 {
        3
    } else {
        4
    }
}

/// How many leading characters of `v` fit in `w` bytes, and their bytes.
pub(crate) fn fit(v: &Vec<char>, w: usize) -> (r: (usize, usize))
    ensures
        r.0 <= v.len(),
        r.1 <= w,
        v@.subrange(0, r.0 as int) == fit_prefix(v@, w as int),
        r.1 == byte_len(v@.subrange(0, r.0 as int)),
        r.0 == v.len() ==> byte_len(v@) == r.1,
        r.0 < v.len() ==> byte_len(v@) > w,
{
    let mut used: usize = 0;
    let mut i: usize = 0;
    assert(v@.subrange(0, v.len() as int) =~= v@);
    assert(v@.subrange(0, 0) =~= Seq::<char>::empty());
    while i < v.len() && width_of(v[i]) <= w - used
        invariant
            i <= v.len(),
            used <= w,
            used == byte_len(v@.subrange(0, i as int)),
            byte_len(v@) == used + byte_len(v@.subrange(i as int, v.len() as int)),
            fit_prefix(v@, w as int) == v@.subrange(0, i as int) + fit_prefix(
                v@.subrange(i as int, v.len() as int),
                w - used,
            ),
        decreases v.len() - i,
    {
        let ghost rest = v@.subrange(i as int, v.len() as int);
        assert(rest.subrange(1, rest.len() as int) =~= v@.subrange(i + 1, v.len() as int));
        assert(v@.subrange(0, i + 1) =~= v@.subrange(0, i as int) + seq![v@[i as int]]);
        proof {
            let one = seq![v@[i as int]];
            lemma_byte_len_concat(v@.subrange(0, i as int), one);
            assert(one.subrange(1, 1) =~= Seq::<char>::empty());
            assert(byte_len(one.subrange(1, 1)) == 0);
            assert(byte_len(one) == utf8_len(v@[i as int]));
            lemma_byte_len_concat(one, v@.subrange(i + 1, v.len() as int));
            assert(rest =~= one + v@.subrange(i + 1, v.len() as int));
        }
        used = used + width_of(v[i]);
        i = i + 1;
    }
    assert(fit_prefix(v@.subrange(i as int, v.len() as int), w - used) =~= Seq::<char>::empty());
    assert(v@.subrange(0, i as int) + Seq::<char>::empty() =~= v@.subrange(0, i as int));
    if i == v.len() {
        assert(v@.subrange(i as int, v.len() as int) =~= Seq::<char>::empty());
    }
    (i, used)
}

/// How a text is shown: the color pair and boldness it is printed with.
#[derive(Clone, Copy, PartialEq, Eq, Structural, Debug)]
pub enum Style {
    Plain,
    Bold,
    Header,
    HeaderBold,
    Selected,
    SelectedBold,
    Modified,
    OverlayBold,
    StatusBar,
    Error,
}

/// A text printed at row `y`, column `x`, in style `style`.
pub struct PieceView {
    pub y: i32,
    pub x: i32,
    pub text: Seq<char>,
    pub style: Style,
}

/// A text printed at row `y`, column `x`, in style `style`.
pub struct Piece {
    pub y: i32,
    pub x: i32,
    pub text: String,
    pub style: Style,
}

impl View for Piece {
    type V = PieceView;

    open spec fn view(&self) -> PieceView {
        PieceView { y: self.y, x: self.x, text: self.text@, style: self.style }
    }
}

pub open spec fn piece_views(v: Seq<Piece>) -> Seq<PieceView> {
    v.map_values(|p: Piece| p@)
}

/// `p` followed by what `o` holds, or `None` when `o` is.
pub open spec fn ocat(p: Seq<PieceView>, o: Option<Seq<PieceView>>) -> Option<Seq<PieceView>> {
    match o {
        Some(r) => Some(p + r),
        None => None,
    }
}

pub proof fn lemma_ocat_assoc(a: Seq<PieceView>, e: Seq<PieceView>, o: Option<Seq<PieceView>>)
    ensures
        ocat(a, ocat(e, o)) == ocat(a + e, o),
{
    if let Some(r) = o {
        assert(a + (e + r) =~= (a + e) + r);
    }
}

pub(crate) fn text_of(t: &str) -> (r: String)
    ensures
        r@ == t@,
{
    let mut r = String::new();
    push_str(&mut r, t);
    assert(r@ =~= t@);
    r
}

/// Appends one piece.
pub(crate) fn put(out: &mut Vec<Piece>, y: i32, x: i32, text: String, style: Style)
    ensures
        piece_views(final(out)@) == piece_views(old(out)@).push(
            PieceView { y, x, text: text@, style },
        ),
{
    let ghost before = piece_views(out@);
    out.push(Piece { y, x, text, style });
    assert(piece_views(out@) =~= before.push(PieceView { y, x, text: text@, style }));
}

/// `n` copies of `c`.
pub open spec fn repeat(c: char, n: int) -> Seq<char> {
    Seq::new(if n > 0 {
        n as nat
    } else {
        0
    }, |i: int| c)
}

/// Row `y` filled with `-` across `w` columns.
pub open spec fn rule(y: i32, w: int) -> PieceView {
    PieceView { y, x: 0, text: repeat('-', w), style: Style::Plain }
}

/// A whole line of the screen: `s` cut and padded to `w` at column 0 of row
/// `y`; `None` where the cut falls inside a character.
pub open spec fn line(y: i32, s: Seq<char>, w: int, st: Style) -> Option<Seq<PieceView>> {
    if pad_ok(s, w) {
        Some(seq![PieceView { y, x: 0, text: pad_spec(s, w), style: st }])
    } else {
        None
    }
}

/// The pieces of `a` followed by those of `b`; `None` when either is.
pub open spec fn join(a: Option<Seq<PieceView>>, b: Option<Seq<PieceView>>) -> Option<Seq<PieceView>> {
    match a {
        Some(p) => ocat(p, b),
        None => None,
    }
}

/// The style of the tab of output `i`: highlighted while the tab bar has the
/// focus, bold for the current output otherwise.
pub open spec fn tab_style(a: AppView, i: int) -> Style {
    if i == a.tab && a.section == Section::Tabs {
        Style::SelectedBold
    } else if i == a.tab {
        Style::Bold
    } else {
        Style::Plain
    }
}

/// The tabs of the outputs from the `i`-th on, starting at column `x`, as
/// long as each ends before the last column of the screen.
pub open spec fn tabs_from(a: AppView, i: int, x: int, cols: int) -> Seq<PieceView>
    decreases a.monitors.len() - i,
{
    if i < 0 || i >= a.monitors.len() {
        seq![]
    } else {
        let l = tab_label_spec(a.monitors[i]);
        let nx = x + byte_len(l) + 1;
        if nx >= cols {
            seq![]
        } else {
            seq![PieceView { y: 1, x: x as i32, text: l, style: tab_style(a, i) }] + tabs_from(
                a,
                i + 1,
                nx,
                cols,
            )
        }
    }
}

/// Row 1: the tabs, and the focus hint at the right where it fits.
pub open spec fn tab_bar(a: AppView, cols: int) -> Seq<PieceView> {
    seq![PieceView { y: 1, x: 0, text: spaces(cols), style: Style::Plain }] + tabs_from(a, 0, 1, cols)
        + (if 11 < cols {
        seq![PieceView { y: 1, x: (cols - 10) as i32, text: "Tab:focus"@, style: Style::Header }]
    } else {
        seq![]
    })
}

/// The style of settings field `f`: highlighted when selected, marked when
/// its pending value differs from the reported one.
pub open spec fn field_style(a: AppView, f: int) -> Style {
    if a.section == Section::Settings && f == a.sel_field {
        Style::SelectedBold
    } else if a.monitors[a.tab].field_dirty(f) {
        Style::Modified
    } else {
        Style::Plain
    }
}

/// The settings fields from the `f`-th on, one per row from row 5, above the
/// status line.
pub open spec fn fields_from(a: AppView, f: int, rows: int, w: int) -> Option<Seq<PieceView>>
    decreases N_FIELDS - f,
{
    if f < 0 || f >= N_FIELDS || 5 + f >= rows - 1 {
        Some(seq![])
    } else {
        join(
            line((5 + f) as i32, field_line_spec(a, f), w, field_style(a, f)),
            fields_from(a, f + 1, rows, w),
        )
    }
}

/// The column of the `k`-th preset of the layout header.
pub open spec fn proj_x(k: int) -> int
    decreases k,
{
    if k <= 0 {
        15
    } else {
        proj_x(k - 1) + byte_len(proj_label(proj_at(k - 1))) + 3
    }
}

/// The presets on row `top`, the current one highlighted.
pub open spec fn proj_pieces(a: AppView, top: i32) -> Seq<PieceView> {
    Seq::new(
        4,
        |k: int|
            PieceView {
                y: top,
                x: proj_x(k) as i32,
                text: "["@ + proj_label(proj_at(k)) + "]"@,
                style: if proj_at(k) == a.proj {
                    Style::SelectedBold
                } else {
                    Style::Plain
                },
            },
    )
}

/// The header of the layout section on row `top`: the presets and the key
/// hint where it fits.
pub open spec fn layout_header(a: AppView, top: i32, cols: int) -> Seq<PieceView> {
    seq![
        PieceView { y: top, x: 0, text: spaces(cols), style: Style::Plain },
        PieceView { y: top, x: 1, text: "Layout  Proj:"@, style: Style::Plain },
    ] + proj_pieces(a, top) + (if proj_x(4) + 12 < cols {
        seq![PieceView { y: top, x: (proj_x(4) + 1) as i32, text: "p/,/.:cycle"@, style: Style::Header }]
    } else {
        seq![]
    })
}

/// The style of the position line: highlighted while the layout section has
/// the focus, marked when the pending position differs from the reported one.
pub open spec fn pos_style(a: AppView) -> Style {
    if a.section == Section::Layout {
        Style::SelectedBold
    } else if a.monitors[a.layout_sel].pos_dirty() {
        Style::Modified
    } else {
        Style::Plain
    }
}

/// The layout section from row 11: the header, the position line of the
/// selected output on row 12 and the diagram below it, above the status line.
pub open spec fn layout_section(a: AppView, rows: i32, cols: i32) -> Option<Seq<PieceView>> {
    join(
        Some(layout_header(a, 11, cols as int)),
        join(
            if 12 < rows - 1 && a.monitors.len() > 0 {
                line(12, position_line_spec(a), cols as int, pos_style(a))
            } else {
                Some(seq![])
            },
            if 13 < rows - 1 {
                Some(diagram_spec(a, 13, rows, cols))
            } else {
                Some(seq![])
            },
        ),
    )
}

/// The style of the row of mode `mi` in the mode list.
pub open spec fn mode_style(md: Mode, is_hover: bool) -> Style {
    if is_hover {
        Style::SelectedBold
    } else if md.current {
        Style::Modified
    } else {
        Style::Plain
    }
}

/// The first mode shown by a list window of `v` rows that starts at
/// `scroll`: moved down just enough to show the cursor's mode.
pub open spec fn shown_scroll(scroll: int, hover: int, v: int) -> int {
    if hover >= scroll + v {
        hover + 1 - v
    } else {
        scroll
    }
}

/// The `v` rows of the mode list from the `i`-th on, from row 4, above the
/// status line: the modes from index `scroll + i`, blank past the last one.
pub open spec fn overlay_rows(a: AppView, i: int, scroll: int, hover: int, rows: int, w: int, v: int) -> Option<
    Seq<PieceView>,
>
    decreases v - i,
{
    if i < 0 || i >= v || 4 + i >= rows - 1 {
        Some(seq![])
    } else {
        let modes = a.monitors[a.tab].modes;
        let mi = scroll + i;
        let y = (4 + i) as i32;
        join(
            if mi >= modes.len() {
                line(y, ""@, w, Style::Plain)
            } else {
                line(y, mode_row_spec(modes[mi], mi == hover), w, mode_style(modes[mi], mi == hover))
            },
            overlay_rows(a, i + 1, scroll, hover, rows, w, v),
        )
    }
}

/// The mode list that replaces the settings: its title, its rows (scrolled
/// so that the cursor's mode is among them), and, when the list does not fit
/// above the status line, the scroll line on the row above it.
pub open spec fn overlay(a: AppView, scroll: int, hover: int, rows: i32, w: int) -> Option<Seq<PieceView>> {
    let m = a.monitors[a.tab];
    let v = visible_rows(rows as int, m.modes.len() as int);
    join(
        line(3, mode_header_spec(m), w, Style::OverlayBold),
        join(
            overlay_rows(a, 0, shown_scroll(scroll, hover, v), hover, rows as int, w, v),
            if m.modes.len() > full_rows(rows as int) {
                line(rows.wrapping_sub(2), mode_footer_spec(hover as nat, m.modes.len()), w, Style::Header)
            } else {
                Some(seq![])
            },
        ),
    )
}

/// The status line, on the last row.
pub open spec fn statusbar_spec(a: AppView, rows: i32, cols: i32) -> Option<Seq<PieceView>> {
    line(
        rows.wrapping_sub(1),
        status_spec(a),
        cols as int,
        if a.status_err {
            Style::Error
        } else {
            Style::StatusBar
        },
    )
}

/// The whole screen of `rows` by `cols`, in the order in which it is
/// printed: the title, the tabs, then the mode list or the current output's
/// information, settings and layout, then the status line; `None` where a
/// line would be cut inside a character.
pub open spec fn draw_spec(a: AppView, rows: i32, cols: i32) -> Option<Seq<PieceView>> {
    let w = cols as int;
    let head = join(
        line(0, " wlr-randr TUI"@, w, Style::HeaderBold),
        Some(tab_bar(a, w).push(rule(2, w))),
    );
    let body = match a.ui {
        UiMode::ModeSelect { scroll, hover } => overlay(a, scroll as int, hover as int, rows, w),
        _ => join(
            line(3, info_spec(a.monitors[a.tab]), w, Style::Plain),
            join(
                Some(seq![rule(4, w)]),
                join(
                    fields_from(a, 0, rows as int, w),
                    join(
                        if 10 < rows - 1 {
                            Some(seq![rule(10, w)])
                        } else {
                            Some(seq![])
                        },
                        if 11 < rows - 1 {
                            layout_section(a, rows, cols)
                        } else {
                            Some(seq![])
                        },
                    ),
                ),
            ),
        ),
    };
    join(head, join(body, statusbar_spec(a, rows, cols)))
}

/// When `o` followed by the pieces of `x` is `Some(o2)`, then `o` followed
/// by `x` and `r` is `o2` followed by `r`; when it is `None`, so is the rest.
pub proof fn lemma_join_step(o: Seq<PieceView>, x: Option<Seq<PieceView>>, r: Option<Seq<PieceView>>)
    ensures
        ocat(o, x) is None ==> ocat(o, join(x, r)) is None,
        ocat(o, x) matches Some(o2) ==> ocat(o, join(x, r)) == ocat(o2, r),
{
    if let Some(p) = x {
        lemma_ocat_assoc(o, p, r);
    }
}

/// `n` copies of `c`.
fn repeated(c: char, n: usize) -> (r: String)
    ensures
        r@ == repeat(c, n as int),
{
    let mut r = String::new();
    let mut k: usize = 0;
    while k < n
        invariant
            k <= n,
            r@ == repeat(c, k as int),
        decreases n - k,
    {
        push_char(&mut r, c);
        k = k + 1;
        assert(r@ =~= repeat(c, k as int));
    }
    r
}

/// Appends the line `s` cut and padded to `w` on row `y`, or gives `false`
/// where the cut falls inside a character.
fn push_line(out: &mut Vec<Piece>, y: i32, s: &str, w: usize, st: Style) -> (ok: bool)
    ensures
        ocat(piece_views(old(out)@), line(y, s@, w as int, st)) == (if ok {
            Some(piece_views(final(out)@))
        } else {
            None
        }),
{
    let v = chars_of(s);
    let (i, used) = fit(&v, w);
    if i == v.len() || used == w {
        let t = pad(s, w);
        put(out, y, 0, t, st);
        true
    } else {
        false
    }
}

/// The number of bytes of `v` in UTF-8 where it is at most `cap`, and
/// `cap + 1` where it is more.
fn byte_count(v: &Vec<char>, cap: usize) -> (r: usize)
    requires
        cap < usize::MAX,
    ensures
        byte_len(v@) <= cap ==> r == byte_len(v@),
        byte_len(v@) > cap ==> r == cap + 1,
{
    let (i, used) = fit(v, cap);
    if i == v.len() {
        used
    } else {
        cap + 1
    }
}

/// Appends the tab bar (row 1) of a screen `cols` wide.
fn draw_tabs(out: &mut Vec<Piece>, app: &App, cols: i32)
    requires
        app.wf(),
        app.monitors.len() > 0,
        cols >= 0,
    ensures
        piece_views(final(out)@) == piece_views(old(out)@) + tab_bar(app@, cols as int),
{
    let ghost a = app@;
    let ghost base = piece_views(out@);
    put(out, 1, 0, repeated(' ', cols as usize), Style::Plain);
    assert(repeat(' ', cols as int) =~= spaces(cols as int));
    let ghost b1 = piece_views(out@);
    let mut x: i32 = 1;
    let mut i: usize = 0;
    let mut stop = false;
    assert(piece_views(out@) + tabs_from(a, 0, 1, cols as int) =~= b1 + tabs_from(a, 0, 1, cols as int));
    while i < app.monitors.len() && !stop
        invariant
            a == app@,
            a.wf(),
            a.monitors.len() > 0,
            1 <= x,
            i <= app.monitors.len(),
            cols >= 0,
            stop ==> tabs_from(a, i as int, x as int, cols as int) == Seq::<PieceView>::empty(),
            piece_views(out@) + tabs_from(a, i as int, x as int, cols as int) == b1 + tabs_from(
                a,
                0,
                1,
                cols as int,
            ),
        decreases app.monitors.len() - i, if stop {
            0int
        } else {
            1int
        },
    {
        let ghost prev = piece_views(out@);
        let m = &app.monitors[i];
        assert(a.monitors[i as int] == m@);
        let l = tab_label(m);
        let room: i32 = cols - x - 1;
        if room <= 0 {
            stop = true;
        } else {
            let n = byte_count(&chars_of(l.as_str()), room as usize);
            if n >= room as usize {
                stop = true;
            } else {
                let st = if i == app.tab && app.section == Section::Tabs {
                    Style::SelectedBold
                } else if i == app.tab {
                    Style::Bold
                } else {
                    Style::Plain
                };
                let ghost lv = l@;
                put(out, 1, x, l, st);
                let ghost nx = x + byte_len(lv) + 1;
                assert(piece_views(out@) + tabs_from(a, i + 1, nx, cols as int) =~= prev + tabs_from(
                    a,
                    i as int,
                    x as int,
                    cols as int,
                ));
                x = x + n as i32 + 1;
                i = i + 1;
            }
        }
    }
    assert(tabs_from(a, i as int, x as int, cols as int) =~= Seq::<PieceView>::empty());
    assert(piece_views(out@) =~= b1 + tabs_from(a, 0, 1, cols as int));
    if 11 < cols {
        put(out, 1, cols - 10, text_of("Tab:focus"), Style::Header);
    }
    assert(piece_views(out@) =~= base + tab_bar(a, cols as int));
}

/// Appends the settings fields from row 5, or gives `false` where a line
/// would be cut inside a character.
fn push_fields(out: &mut Vec<Piece>, app: &App, rows: i32, w: usize) -> (ok: bool)
    requires
        app.wf(),
        app.monitors.len() > 0,
    ensures
        ocat(piece_views(old(out)@), fields_from(app@, 0, rows as int, w as int)) == (if ok {
            Some(piece_views(final(out)@))
        } else {
            None
        }),
{
    let ghost a = app@;
    let ghost base = piece_views(out@);
    let m = &app.monitors[app.tab];
    assert(a.monitors[app.tab as int] == m@);
    let mut f: usize = 0;
    while f < N_FIELDS
        invariant
            a == app@,
            a.wf(),
            a.monitors.len() > 0,
            m@ == a.monitors[a.tab],
            f <= N_FIELDS,
            base == piece_views(old(out)@),
            ocat(piece_views(out@), fields_from(a, f as int, rows as int, w as int)) == ocat(
                base,
                fields_from(a, 0, rows as int, w as int),
            ),
        decreases N_FIELDS - f,
    {
        let ghost prev = piece_views(out@);
        let y: i32 = 5 + f as i32;
        if y as i64 >= rows as i64 - 1 {
            assert(prev + Seq::<PieceView>::empty() =~= prev);
            return true;
        }
        let st = if app.section == Section::Settings && f == app.sel_field {
            Style::SelectedBold
        } else if m.field_dirty(f) {
            Style::Modified
        } else {
            Style::Plain
        };
        let t = field_line(app, f);
        let ok = push_line(out, y, t.as_str(), w, st);
        proof {
            lemma_join_step(
                prev,
                line(y, t@, w as int, st),
                fields_from(a, f + 1, rows as int, w as int),
            );
        }
        if !ok {
            return false;
        }
        f = f + 1;
    }
    assert(piece_views(out@) + Seq::<PieceView>::empty() =~= piece_views(out@));
    true
}

/// Appends the mode list, or gives `false` where a line would be cut inside
/// a character.
fn draw_mode_overlay(out: &mut Vec<Piece>, app: &App, scroll: usize, hover: usize, rows: i32, w: usize) -> (ok: bool)
    requires
        app.wf(),
        app.monitors.len() > 0,
        app.ui == (UiMode::ModeSelect { scroll, hover }),
    ensures
        ocat(piece_views(old(out)@), overlay(app@, scroll as int, hover as int, rows, w as int)) == (if ok {
            Some(piece_views(final(out)@))
        } else {
            None
        }),
{
    let ghost a = app@;
    let ghost base = piece_views(out@);
    let m = &app.monitors[app.tab];
    assert(a.monitors[app.tab as int] == m@);
    let ghost mv = m@;
    let n = m.modes.len();
    let full: i64 = if rows as i64 - 5 > 1 {
        rows as i64 - 5
    } else {
        1
    };
    let visible: i64 = if n as u64 <= full as u64 {
        full
    } else if rows as i64 - 6 > 1 {
        rows as i64 - 6
    } else {
        1
    };
    assert(visible == visible_rows(rows as int, n as int));
    let first: usize = if hover - scroll >= visible as usize {
        hover + 1 - visible as usize
    } else {
        scroll
    };
    assert(first == shown_scroll(scroll as int, hover as int, visible as int));
    let ghost rows_part = overlay_rows(a, 0, first as int, hover as int, rows as int, w as int, visible as int);
    let ghost foot = if mv.modes.len() > full_rows(rows as int) {
        line(rows.wrapping_sub(2), mode_footer_spec(hover as nat, mv.modes.len()), w as int, Style::Header)
    } else {
        Some(seq![])
    };
    let h = mode_header(m);
    let ok = push_line(out, 3, h.as_str(), w, Style::OverlayBold);
    proof {
        lemma_join_step(base, line(3, mode_header_spec(mv), w as int, Style::OverlayBold), join(rows_part, foot));
    }
    if !ok {
        return false;
    }
    let ghost b1 = piece_views(out@);
    let mut i: i64 = 0;
    let mut stop = false;
    while i < visible && !stop
        invariant
            a == app@,
            a.wf(),
            a.monitors.len() > 0,
            mv == m@,
            mv == a.monitors[a.tab],
            n == mv.modes.len(),
            first <= hover < n,
            1 <= visible <= i32::MAX,
            ocat(base, overlay(a, scroll as int, hover as int, rows, w as int)) == ocat(b1, join(rows_part, foot)),
            0 <= i <= visible,
            stop ==> overlay_rows(a, i as int, first as int, hover as int, rows as int, w as int, visible as int)
                == Some(Seq::<PieceView>::empty()),
            ocat(
                piece_views(out@),
                overlay_rows(a, i as int, first as int, hover as int, rows as int, w as int, visible as int),
            ) == ocat(b1, rows_part),
            rows_part == overlay_rows(a, 0, first as int, hover as int, rows as int, w as int, visible as int),
        decreases visible - i, if stop {
            0int
        } else {
            1int
        },
    {
        let ghost prev = piece_views(out@);
        if 4 + i >= rows as i64 - 1 {
            stop = true;
        } else {
            let y: i32 = (4 + i) as i32;
            let ii = i as usize;
            let ghost rest = overlay_rows(a, i + 1, first as int, hover as int, rows as int, w as int, visible as int);
            if ii >= n - first {
                let ok = push_line(out, y, "", w, Style::Plain);
                proof {
                    lemma_join_step(prev, line(y, ""@, w as int, Style::Plain), rest);
                    lemma_join_step(b1, rows_part, foot);
                }
                if !ok {
                    return false;
                }
            } else {
                let mi = first + ii;
                let md = &m.modes[mi];
                let st = if mi == hover {
                    Style::SelectedBold
                } else if md.current {
                    Style::Modified
                } else {
                    Style::Plain
                };
                let t = mode_row(md, mi == hover);
                let ok = push_line(out, y, t.as_str(), w, st);
                proof {
                    lemma_join_step(prev, line(y, t@, w as int, st), rest);
                    lemma_join_step(b1, rows_part, foot);
                }
                if !ok {
                    return false;
                }
            }
            i = i + 1;
        }
    }
    assert(overlay_rows(a, i as int, first as int, hover as int, rows as int, w as int, visible as int) == Some(
        Seq::<PieceView>::empty(),
    ));
    assert(piece_views(out@) + Seq::<PieceView>::empty() =~= piece_views(out@));
    let ghost b2 = piece_views(out@);
    proof {
        lemma_join_step(b1, rows_part, foot);
    }
    if n as u64 > full as u64 {
        let t = mode_footer(hover, n);
        push_line(out, rows.wrapping_sub(2), t.as_str(), w, Style::Header)
    } else {
        assert(b2 + Seq::<PieceView>::empty() =~= b2);
        true
    }
}

/// Appends the status line, or gives `false` where it would be cut inside
/// a character.
fn push_statusbar(out: &mut Vec<Piece>, app: &App, rows: i32, cols: i32) -> (ok: bool)
    requires
        cols >= 0,
    ensures
        ocat(piece_views(old(out)@), statusbar_spec(app@, rows, cols)) == (if ok {
            Some(piece_views(final(out)@))
        } else {
            None
        }),
{
    let t = status_line(app);
    let st = if app.status_err {
        Style::Error
    } else {
        Style::StatusBar
    };
    push_line(out, rows.wrapping_sub(1), t.as_str(), cols as usize, st)
}

/// The status line of a screen of `rows` by `cols`; `None` where it would be
/// cut inside a character.
pub fn draw_statusbar(app: &App, rows: i32, cols: i32) -> (r: Option<Vec<Piece>>)
    requires
        cols >= 0,
    ensures
        match r {
            Some(v) => statusbar_spec(app@, rows, cols) == Some(piece_views(v@)),
            None => statusbar_spec(app@, rows, cols) is None,
        },
{
    let mut out: Vec<Piece> = Vec::new();
    let ok = push_statusbar(&mut out, app, rows, cols);
    proof {
        assert(piece_views(Seq::<Piece>::empty()) =~= Seq::<PieceView>::empty());
        if let Some(p) = statusbar_spec(app@, rows, cols) {
            assert(Seq::<PieceView>::empty() + p =~= p);
        }
    }
    if ok {
        Some(out)
    } else {
        None
    }
}

pub proof fn lemma_byte_len_at_most(s: Seq<char>)
    ensures
        byte_len(s) <= 4 * s.len(),
    decreases s.len(),
{
    if s.len() > 0 {
        lemma_byte_len_at_most(s.subrange(1, s.len() as int));
    }
}

/// Appends the layout section from row 11, or gives `false` where the
/// position line would be cut inside a character.
fn draw_layout_section(out: &mut Vec<Piece>, app: &App, rows: i32, cols: i32) -> (ok: bool)
    requires
        app.wf(),
        app.monitors.len() > 0,
        cols >= 0,
    ensures
        ocat(piece_views(old(out)@), layout_section(app@, rows, cols)) == (if ok {
            Some(piece_views(final(out)@))
        } else {
            None
        }),
{
    let ghost a = app@;
    let ghost base = piece_views(out@);
    let w = cols as usize;
    put(out, 11, 0, repeated(' ', w), Style::Plain);
    assert(repeat(' ', cols as int) =~= spaces(cols as int));
    put(out, 11, 1, text_of("Layout  Proj:"), Style::Plain);
    let ghost hb = piece_views(out@);
    let ghost projs = proj_pieces(a, 11);
    let all = Proj::all();
    let mut x: i32 = 15;
    let mut k: usize = 0;
    assert(piece_views(out@) =~= hb + projs.subrange(0, 0));
    while k < 4
        invariant
            a == app@,
            k <= 4,
            all@ == seq![Proj::Extend, Proj::ExtOnly, Proj::LaptopOnly, Proj::Custom],
            x == proj_x(k as int),
            15 <= x <= 15 + 47 * k,
            projs == proj_pieces(a, 11),
            piece_views(out@) == hb + projs.subrange(0, k as int),
        decreases 4 - k,
    {
        let p = all[k];
        assert(p == proj_at(k as int));
        let l = p.label();
        proof {
            reveal_strlit("Extend");
            reveal_strlit("Ext Only");
            reveal_strlit("Laptop Only");
            reveal_strlit("Custom");
            lemma_byte_len_at_most(l@);
        }
        assert(l@.len() <= 11);
        let mut s = text_of("[");
        push_str(&mut s, l);
        push_str(&mut s, "]");
        let st = if p == app.proj {
            Style::SelectedBold
        } else {
            Style::Plain
        };
        let ghost prev = piece_views(out@);
        let ghost sv = s@;
        put(out, 11, x, s, st);
        assert(sv == "["@ + proj_label(proj_at(k as int)) + "]"@);
        assert(projs[k as int] == PieceView { y: 11, x, text: sv, style: st });
        assert(projs.subrange(0, k + 1) =~= projs.subrange(0, k as int).push(projs[k as int]));
        assert(piece_views(out@) =~= hb + projs.subrange(0, k + 1));
        let n = byte_count(&chars_of(l), 64);
        x = x + n as i32 + 3;
        k = k + 1;
    }
    assert(projs.subrange(0, 4) =~= projs);
    if x + 12 < cols {
        put(out, 11, x + 1, text_of("p/,/.:cycle"), Style::Header);
    }
    assert(piece_views(out@) =~= base + layout_header(a, 11, cols as int));
    let ghost o1 = piece_views(out@);
    let ghost pos = if 12 < rows - 1 && a.monitors.len() > 0 {
        line(12, position_line_spec(a), cols as int, pos_style(a))
    } else {
        Some(seq![])
    };
    let ghost diag = if 13 < rows - 1 {
        Some(diagram_spec(a, 13, rows, cols))
    } else {
        Some(seq![])
    };
    proof {
        lemma_join_step(base, Some(layout_header(a, 11, cols as int)), join(pos, diag));
    }
    if rows as i64 - 1 > 12 && app.monitors.len() > 0 {
        let mon = &app.monitors[app.layout_sel];
        assert(a.monitors[app.layout_sel as int] == mon@);
        let st = if app.section == Section::Layout {
            Style::SelectedBold
        } else if mon.pos_dirty() {
            Style::Modified
        } else {
            Style::Plain
        };
        let t = position_line(app);
        let ok = push_line(out, 12, t.as_str(), w, st);
        proof {
            lemma_join_step(o1, pos, diag);
        }
        if !ok {
            return false;
        }
    } else {
        assert(o1 + Seq::<PieceView>::empty() =~= o1);
        proof {
            lemma_join_step(o1, pos, diag);
        }
    }
    let ghost o2 = piece_views(out@);
    if rows as i64 - 1 > 13 {
        let mut v = draw_layout_diagram(app, 13, rows, cols);
        let ghost vv = piece_views(v@);
        out.append(&mut v);
        assert(piece_views(out@) =~= o2 + vv);
        true
    } else {
        assert(o2 + Seq::<PieceView>::empty() =~= o2);
        true
    }
}

pub proof fn lemma_join_assoc(x: Option<Seq<PieceView>>, y: Option<Seq<PieceView>>, z: Option<Seq<PieceView>>)
    ensures
        join(join(x, y), z) == join(x, join(y, z)),
{
    if let Some(p) = x {
        if let Some(q) = y {
            lemma_ocat_assoc(p, q, z);
        }
    }
}

/// The whole screen of `rows` by `cols`, as the pieces of text to print, in
/// order; `None` where a line would be cut inside a character.
pub fn draw(app: &App, rows: i32, cols: i32) -> (r: Option<Vec<Piece>>)
    requires
        app.wf(),
        app.monitors.len() > 0,
        cols >= 0,
    ensures
        match r {
            Some(v) => draw_spec(app@, rows, cols) == Some(piece_views(v@)),
            None => draw_spec(app@, rows, cols) is None,
        },
{
    let ghost a = app@;
    let ghost wi = cols as int;
    let w = cols as usize;
    let mut out: Vec<Piece> = Vec::new();
    let ghost l0 = line(0, " wlr-randr TUI"@, wi, Style::HeaderBold);
    let ghost top = Some(tab_bar(a, wi).push(rule(2, wi)));
    let ghost status = statusbar_spec(a, rows, cols);
    let ghost body = match a.ui {
        UiMode::ModeSelect { scroll, hover } => overlay(a, scroll as int, hover as int, rows, wi),
        _ => join(
            line(3, info_spec(a.monitors[a.tab]), wi, Style::Plain),
            join(
                Some(seq![rule(4, wi)]),
                join(
                    fields_from(a, 0, rows as int, wi),
                    join(
                        if 10 < rows - 1 {
                            Some(seq![rule(10, wi)])
                        } else {
                            Some(seq![])
                        },
                        if 11 < rows - 1 {
                            layout_section(a, rows, cols)
                        } else {
                            Some(seq![])
                        },
                    ),
                ),
            ),
        ),
    };
    let ghost tail = join(body, status);
    assert(draw_spec(a, rows, cols) == join(join(l0, top), tail));
    proof {
        lemma_join_assoc(l0, top, tail);
        assert(piece_views(out@) =~= Seq::<PieceView>::empty());
        if let Some(p) = draw_spec(a, rows, cols) {
            assert(Seq::<PieceView>::empty() + p =~= p);
        }
        lemma_join_step(piece_views(out@), l0, join(top, tail));
    }
    if !push_line(&mut out, 0, " wlr-randr TUI", w, Style::HeaderBold) {
        return None;
    }
    let ghost o1 = piece_views(out@);
    draw_tabs(&mut out, app, cols);
    put(&mut out, 2, 0, repeated('-', w), Style::Plain);
    proof {
        assert(piece_views(out@) =~= o1 + tab_bar(a, wi).push(rule(2, wi)));
        lemma_join_step(o1, top, tail);
    }
    let ghost o2 = piece_views(out@);
    match app.ui {
        UiMode::ModeSelect { scroll, hover } => {
            let ok = draw_mode_overlay(&mut out, app, scroll, hover, rows, w);
            proof {
                lemma_join_step(o2, body, status);
            }
            if !ok {
                return None;
            }
        },
        _ => {
            let m = &app.monitors[app.tab];
            assert(a.monitors[app.tab as int] == m@);
            let ghost l3 = line(3, info_spec(m@), wi, Style::Plain);
            let ghost r4 = Some(seq![rule(4, wi)]);
            let ghost fl = fields_from(a, 0, rows as int, wi);
            let ghost d10 = if 10 < rows - 1 {
                Some(seq![rule(10, wi)])
            } else {
                Some(seq![])
            };
            let ghost ls = if 11 < rows - 1 {
                layout_section(a, rows, cols)
            } else {
                Some(seq![])
            };
            proof {
                lemma_join_assoc(l3, join(r4, join(fl, join(d10, ls))), status);
                lemma_join_assoc(r4, join(fl, join(d10, ls)), status);
                lemma_join_assoc(fl, join(d10, ls), status);
                lemma_join_assoc(d10, ls, status);
            }
            let t = info_line(m);
            let ok = push_line(&mut out, 3, t.as_str(), w, Style::Plain);
            proof {
                lemma_join_step(o2, l3, join(join(r4, join(fl, join(d10, ls))), status));
            }
            if !ok {
                return None;
            }
            let ghost o3 = piece_views(out@);
            put(&mut out, 4, 0, repeated('-', w), Style::Plain);
            proof {
                lemma_join_step(o3, r4, join(join(fl, join(d10, ls)), status));
            }
            let ghost o4 = piece_views(out@);
            let ok = push_fields(&mut out, app, rows, w);
            proof {
                lemma_join_step(o4, fl, join(join(d10, ls), status));
            }
            if !ok {
                return None;
            }
            let ghost o5 = piece_views(out@);
            if rows as i64 - 1 > 10 {
                put(&mut out, 10, 0, repeated('-', w), Style::Plain);
            } else {
                assert(o5 + Seq::<PieceView>::empty() =~= o5);
            }
            proof {
                lemma_join_step(o5, d10, join(ls, status));
            }
            let ghost o6 = piece_views(out@);
            if rows as i64 - 1 > 11 {
                let ok = draw_layout_section(&mut out, app, rows, cols);
                proof {
                    lemma_join_step(o6, ls, status);
                }
                if !ok {
                    return None;
                }
            } else {
                assert(o6 + Seq::<PieceView>::empty() =~= o6);
                proof {
                    lemma_join_step(o6, ls, status);
                }
            }
        },
    }
    let ok = push_statusbar(&mut out, app, rows, cols);
    if ok {
        Some(out)
    } else {
        None
    }
}
} // verus!
