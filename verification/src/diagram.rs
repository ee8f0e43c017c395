//! The layout diagram: every output drawn as a box of `+`, `-` and `|` at its
//! resolved position, scaled to fit the free rows and columns of the screen,
//! with its name centered on its top border.
use vstd::prelude::*;
use crate::app::{App, AppView, Section};
use crate::monitor::{
    logical_size, logical_size_spec, resolve_abs, resolve_spec, sat_i32, Monitor, MonitorView,
};
use crate::text::{chars_of, string_of};
use crate::ui::{piece_views, put, text_of, Piece, PieceView, Style};

verus! {

/// What the diagram needs of one output: its name, resolved position,
/// logical size, and whether it is the selected one.
pub struct ItemView {
    pub name: Seq<char>,
    pub x: i32,
    pub y: i32,
    pub w: i32,
    pub h: i32,
    pub sel: bool,
}

/// The name of the output that the diagram highlights: the one selected in
/// the layout section while that has the focus, the current tab's otherwise.
pub open spec fn sel_name(a: AppView) -> Seq<char> {
    if a.section == Section::Layout {
        a.monitors[a.layout_sel].name
    } else {
        a.monitors[a.tab].name
    }
}

pub open spec fn item_of(m: MonitorView, ms: Seq<MonitorView>, sel: Seq<char>) -> ItemView {
    let p = resolve_spec(m.new_pos, m, ms, 0);
    let s = logical_size_spec(m);
    ItemView { name: m.name, x: p.0, y: p.1, w: s.0, h: s.1, sel: m.name == sel }
}

pub open spec fn items_spec(a: AppView) -> Seq<ItemView> {
    Seq::new(a.monitors.len(), |i: int| item_of(a.monitors[i], a.monitors, sel_name(a)))
}

/// The least of `f` over `items`, or `dflt` when there is none.
pub open spec fn min_of(items: Seq<ItemView>, f: spec_fn(ItemView) -> i32, dflt: i32) -> i32
    decreases items.len(),
{
    if items.len() == 0 {
        dflt
    } else if items.len() == 1 {
        f(items[0])
    } else {
        let r = min_of(items.subrange(0, items.len() - 1), f, dflt);
        let v = f(items[items.len() - 1]);
        if r <= v {
            r
        } else {
            v
        }
    }
}

/// The greatest of `f` over `items`, or `dflt` when there is none.
pub open spec fn max_of(items: Seq<ItemView>, f: spec_fn(ItemView) -> i32, dflt: i32) -> i32
    decreases items.len(),
{
    if items.len() == 0 {
        dflt
    } else if items.len() == 1 {
        f(items[0])
    } else {
        let r = max_of(items.subrange(0, items.len() - 1), f, dflt);
        let v = f(items[items.len() - 1]);
        if r >= v {
            r
        } else {
            v
        }
    }
}

pub open spec fn left(e: ItemView) -> i32 {
    e.x
}

pub open spec fn top(e: ItemView) -> i32 {
    e.y
}

pub open spec fn right(e: ItemView) -> i32 {
    e.x.wrapping_add(e.w)
}

pub open spec fn bottom(e: ItemView) -> i32 {
    e.y.wrapping_add(e.h)
}

/// `n / d` rounded to the nearest integer, ties away from zero (`d > 0`).
pub open spec fn round_frac(n: int, d: int) -> int {
    if n >= 0 {
        (2 * n + d) / (2 * d)
    } else {
        -((2 * (-n) + d) / (2 * d))
    }
}

/// The extent of the layout and the factor `num / den` that fits it into
/// `avail_w` columns and `avail_h` rows: the smaller of the two ratios.
pub struct Fit {
    pub min_x: i32,
    pub min_y: i32,
    pub num: int,
    pub den: int,
}

/// The coordinate that extent `k` measures: left, top, right or bottom edge.
pub open spec fn coord_fn(k: int) -> spec_fn(ItemView) -> i32 {
    if k == 0 {
        |e: ItemView| left(e)
    } else if k == 1 {
        |e: ItemView| top(e)
    } else if k == 2 {
        |e: ItemView| right(e)
    } else {
        |e: ItemView| bottom(e)
    }
}

pub open spec fn fit_spec(items: Seq<ItemView>, avail_w: int, avail_h: int) -> Fit {
    let min_x = min_of(items, coord_fn(0), 0);
    let min_y = min_of(items, coord_fn(1), 0);
    let max_x = max_of(items, coord_fn(2), 1);
    let max_y = max_of(items, coord_fn(3), 1);
    let dw = max_x.wrapping_sub(min_x);
    let dh = max_y.wrapping_sub(min_y);
    let tw: int = if dw > 1 {
        dw as int
    } else {
        1
    };
    let th: int = if dh > 1 {
        dh as int
    } else {
        1
    };
    if avail_w * th <= avail_h * tw {
        Fit { min_x, min_y, num: avail_w, den: tw }
    } else {
        Fit { min_x, min_y, num: avail_h, den: th }
    }
}

/// One output's box: its name, top left corner, width and height in cells,
/// and whether it is highlighted.
pub struct BoxView {
    pub name: Seq<char>,
    pub x0: i32,
    pub y0: i32,
    pub bw: i32,
    pub bh: i32,
    pub sel: bool,
}

pub open spec fn box_of(e: ItemView, g: Fit, start_y: i32) -> BoxView {
    let bx = sat_i32(round_frac(e.x.wrapping_sub(g.min_x) * g.num, g.den));
    let by = sat_i32(round_frac(e.y.wrapping_sub(g.min_y) * g.num, g.den));
    let bw = sat_i32(round_frac(e.w * g.num, g.den));
    let bh = sat_i32(round_frac(e.h * g.num, 2 * g.den));
    BoxView {
        name: e.name,
        x0: (1i32).wrapping_add(bx),
        y0: start_y.wrapping_add(by),
        bw: if bw > 6 {
            bw
        } else {
            6
        },
        bh: if bh > 3 {
            bh
        } else {
            3
        },
        sel: e.sel,
    }
}

/// The style of a box's pieces: highlighted for the selected output.
pub open spec fn box_style(sel: bool) -> Style {
    if sel {
        Style::Selected
    } else {
        Style::Plain
    }
}

pub open spec fn right_edge(b: BoxView) -> i32 {
    b.x0.wrapping_add(b.bw).wrapping_sub(1)
}

pub open spec fn bottom_edge(b: BoxView) -> i32 {
    b.y0.wrapping_add(b.bh).wrapping_sub(1)
}

/// The name as shown on a box's top border: as many of its first characters
/// as fit between the corners.
pub open spec fn label_of(b: BoxView) -> Seq<char> {
    if b.name.len() <= b.bw - 2 {
        b.name
    } else {
        b.name.subrange(0, b.bw - 2)
    }
}

/// Where the name starts on the top border, counted from the left corner:
/// centered between the corners.
pub open spec fn label_dx(b: BoxView) -> int {
    1 + (b.bw - 2 - label_of(b).len()) / 2
}

/// The `-` of a horizontal border on row `y`, for `dx` up to `bw - 2`, but
/// for those from `lo` to before `hi`, where the name stands.
pub open spec fn dashes(b: BoxView, y: i32, dx: i32, cols: i32, lo: int, hi: int) -> Seq<PieceView>
    decreases b.bw - 1 - dx,
{
    if dx >= b.bw - 1 {
        seq![]
    } else {
        let px = b.x0.wrapping_add(dx);
        (if px < right_edge(b) && px < cols && !(lo <= dx < hi) {
            seq![PieceView { y, x: px, text: "-"@, style: box_style(b.sel) }]
        } else {
            seq![]
        }) + dashes(b, y, (dx + 1) as i32, cols, lo, hi)
    }
}

/// A horizontal border on row `y`: its left corner, `middle`, and its right
/// corner where that is on the screen.
pub open spec fn corners(b: BoxView, y: i32, cols: i32, middle: Seq<PieceView>) -> Seq<PieceView> {
    let x1 = right_edge(b);
    seq![PieceView { y, x: b.x0, text: "+"@, style: box_style(b.sel) }] + middle + (if x1 < cols && x1
        > b.x0 {
        seq![PieceView { y, x: x1, text: "+"@, style: box_style(b.sel) }]
    } else {
        seq![]
    })
}

/// The top border, with the name centered between the corners and dashes
/// around it.
pub open spec fn top_border(b: BoxView, cols: i32) -> Seq<PieceView> {
    let lo = label_dx(b);
    let hi = lo + label_of(b).len();
    let lx = b.x0.wrapping_add(lo as i32);
    corners(
        b,
        b.y0,
        cols,
        dashes(b, b.y0, 1, cols, lo, hi) + (if label_of(b).len() > 0 && lx < cols {
            seq![PieceView { y: b.y0, x: lx, text: label_of(b), style: box_style(b.sel) }]
        } else {
            seq![]
        }),
    )
}

/// The bottom border, on row `y`.
pub open spec fn bottom_border(b: BoxView, y: i32, cols: i32) -> Seq<PieceView> {
    corners(b, y, cols, dashes(b, y, 1, cols, 0, 0))
}

/// The sides of a box from row `y0 + dy` down, up to the box's last inner
/// row or the status line.
pub open spec fn sides(b: BoxView, dy: i32, rows: i32, cols: i32) -> Seq<PieceView>
    decreases b.bh - 1 - dy,
{
    if dy >= b.bh - 1 {
        seq![]
    } else {
        let y = b.y0.wrapping_add(dy);
        if y >= rows.wrapping_sub(1) {
            seq![]
        } else {
            let x1 = right_edge(b);
            seq![PieceView { y, x: b.x0, text: "|"@, style: box_style(b.sel) }] + (if x1 < cols {
                seq![PieceView { y, x: x1, text: "|"@, style: box_style(b.sel) }]
            } else {
                seq![]
            }) + sides(b, (dy + 1) as i32, rows, cols)
        }
    }
}

/// All the pieces of one box: nothing when its corner is off the screen.
pub open spec fn box_pieces(b: BoxView, rows: i32, cols: i32) -> Seq<PieceView> {
    let rl = rows.wrapping_sub(1);
    if b.y0 >= rl || b.x0 >= cols {
        seq![]
    } else {
        let y1 = bottom_edge(b);
        top_border(b, cols) + sides(b, 1, rows, cols) + (if y1 < rl && y1 > b.y0 {
            bottom_border(b, y1, cols)
        } else {
            seq![]
        })
    }
}

/// The pieces of the boxes from index `i` on.
pub open spec fn all_pieces(bs: Seq<BoxView>, i: int, rows: i32, cols: i32) -> Seq<PieceView>
    decreases bs.len() - i,
{
    if i < 0 || i >= bs.len() {
        seq![]
    } else {
        box_pieces(bs[i], rows, cols) + all_pieces(bs, i + 1, rows, cols)
    }
}

/// The diagram below row `start_y` of a screen of `rows` by `cols`: nothing
/// when fewer than three rows or ten columns are free.
pub open spec fn diagram_spec(a: AppView, start_y: i32, rows: i32, cols: i32) -> Seq<PieceView> {
    let d = rows.wrapping_sub(1).wrapping_sub(start_y);
    let avail_h: int = if d > 0 {
        d as int
    } else {
        0
    };
    if avail_h < 3 || cols < 10 {
        seq![]
    } else {
        let items = items_spec(a);
        let g = fit_spec(items, cols - 2, avail_h);
        all_pieces(Seq::new(items.len(), |i: int| box_of(items[i], g, start_y)), 0, rows, cols)
    }
}

struct Item {
    name: String,
    x: i32,
    y: i32,
    w: i32,
    h: i32,
    sel: bool,
}

impl View for Item {
    type V = ItemView;

    closed spec fn view(&self) -> ItemView {
        ItemView { name: self.name@, x: self.x, y: self.y, w: self.w, h: self.h, sel: self.sel }
    }
}

spec fn item_views(v: Seq<Item>) -> Seq<ItemView> {
    v.map_values(|e: Item| e@)
}

fn items(app: &App) -> (r: Vec<Item>)
    requires
        app.wf(),
        app.monitors.len() > 0,
    ensures
        item_views(r@) == items_spec(app@),
{
    let ghost a = app@;
    let sel = if app.section == Section::Layout {
        assert(a.monitors[app.layout_sel as int] == app.monitors@[app.layout_sel as int]@);
        app.monitors[app.layout_sel].name.clone()
    } else {
        assert(a.monitors[app.tab as int] == app.monitors@[app.tab as int]@);
        app.monitors[app.tab].name.clone()
    };
    proof {
        assert forall|i: int| 0 <= i < app.monitors@.len() implies (
        #[trigger] app.monitors@[i]).mode_ok() by {
            assert(a.monitors[i] == app.monitors@[i]@);
            assert(a.monitors[i].wf());
        }
    }
    let mut r: Vec<Item> = Vec::new();
    let mut i: usize = 0;
    while i < app.monitors.len()
        invariant
            i <= app.monitors.len(),
            a == app@,
            sel@ == sel_name(a),
            crate::monitor::all_mode_ok(app.monitors@),
            item_views(r@) == items_spec(a).subrange(0, i as int),
        decreases app.monitors.len() - i,
    {
        let m = &app.monitors[i];
        assert(a.monitors[i as int] == m@);
        proof {
            crate::monitor::lemma_all_resolvable(m@.new_pos, m@, app.monitors@);
        }
        let p = resolve_abs(&m.new_pos, m, app.monitors.as_slice(), 0);
        let sz = logical_size(m);
        let ghost before = item_views(r@);
        let e = Item { name: m.name.clone(), x: p.0, y: p.1, w: sz.0, h: sz.1, sel: m.name == sel };
        r.push(e);
        assert(item_views(r@) =~= before.push(items_spec(a)[i as int]));
        assert(items_spec(a).subrange(0, i + 1) =~= items_spec(a).subrange(0, i as int).push(
            items_spec(a)[i as int],
        ));
        i = i + 1;
    }
    assert(items_spec(a).subrange(0, app.monitors.len() as int) =~= items_spec(a));
    r
}

fn coord(e: &Item, k: u8) -> (r: i32)
    ensures
        r == coord_fn(k as int)(e@),
{
    if k == 0 {
        e.x
    } else if k == 1 {
        e.y
    } else if k == 2 {
        e.x.wrapping_add(e.w)
    } else {
        e.y.wrapping_add(e.h)
    }
}

/// The least (`most == false`) or greatest value of coordinate `k`.
fn extreme(v: &Vec<Item>, k: u8, most: bool, dflt: i32) -> (r: i32)
    ensures
        !most ==> r == min_of(item_views(v@), coord_fn(k as int), dflt),
        most ==> r == max_of(item_views(v@), coord_fn(k as int), dflt),
{
    let ghost f = coord_fn(k as int);
    let ghost iv = item_views(v@);
    if v.len() == 0 {
        return dflt;
    }
    let mut acc = coord(&v[0], k);
    let mut i: usize = 1;
    assert(iv.subrange(0, 1).len() == 1);
    assert(iv.subrange(0, 1)[0] == v@[0]@);
    while i < v.len()
        invariant
            1 <= i <= v.len(),
            iv == item_views(v@),
            f == coord_fn(k as int),
            !most ==> acc == min_of(iv.subrange(0, i as int), f, dflt),
            most ==> acc == max_of(iv.subrange(0, i as int), f, dflt),
        decreases v.len() - i,
    {
        let c = coord(&v[i], k);
        let ghost t = iv.subrange(0, i + 1);
        assert(t.subrange(0, t.len() - 1) =~= iv.subrange(0, i as int));
        assert(t[t.len() - 1] == v@[i as int]@);
        if most {
            if c > acc {
                acc = c;
            }
        } else {
            if c < acc {
                acc = c;
            }
        }
        i = i + 1;
    }
    assert(iv.subrange(0, v.len() as int) =~= iv);
    acc
}

/// The name as shown on the top border of a box `space` cells wide between
/// its corners, and its length in characters.
fn label(name: &String, space: usize) -> (r: (String, usize))
    ensures
        r.0@ == (if name@.len() <= space {
            name@
        } else {
            name@.subrange(0, space as int)
        }),
        r.1 == r.0@.len(),
{
    let v = chars_of(name.as_str());
    let k = if v.len() <= space {
        v.len()
    } else {
        space
    };
    assert(v@.subrange(0, v.len() as int) =~= v@);
    (string_of(&v, 0, k), k)
}

/// `n / d` rounded to the nearest integer, ties away from zero, clamped to `i32`.
fn round_sat(n: i128, d: i128) -> (r: i32)
    requires
        0 < d <= 0x1_0000_0000,
        -0x1_0000_0000_0000_0000 <= n <= 0x1_0000_0000_0000_0000,
    ensures
        r == sat_i32(round_frac(n as int, d as int)),
{
    let q: i128 = if n >= 0 {
        (2 * n + d) / (2 * d)
    } else {
        0 - ((2 * (0 - n) + d) / (2 * d))
    };
    if q > 0x7fff_ffff {
        i32::MAX
    } else if q < -0x8000_0000 {
        i32::MIN
    } else {
        q as i32
    }
}

/// The extent of the layout and the scale factor, as `fit_spec` gives them.
fn fit_of(v: &Vec<Item>, avail_w: i64, avail_h: i64) -> (r: (i32, i32, i64, i64))
    requires
        0 <= avail_w <= i32::MAX,
        0 <= avail_h <= i32::MAX,
    ensures
        fit_spec(item_views(v@), avail_w as int, avail_h as int) == (Fit {
            min_x: r.0,
            min_y: r.1,
            num: r.2 as int,
            den: r.3 as int,
        }),
        0 <= r.2 <= i32::MAX,
        1 <= r.3 <= i32::MAX,
{
    let min_x = extreme(v, 0, false, 0);
    let min_y = extreme(v, 1, false, 0);
    let max_x = extreme(v, 2, true, 1);
    let max_y = extreme(v, 3, true, 1);
    let dw = max_x.wrapping_sub(min_x);
    let dh = max_y.wrapping_sub(min_y);
    let tw: i64 = if dw > 1 {
        dw as i64
    } else {
        1
    };
    let th: i64 = if dh > 1 {
        dh as i64
    } else {
        1
    };
    assert(avail_w * th <= i32::MAX * i32::MAX) by (nonlinear_arith)
        requires
            0 <= avail_w <= i32::MAX,
            1 <= th <= i32::MAX,
    ;
    assert(avail_h * tw <= i32::MAX * i32::MAX) by (nonlinear_arith)
        requires
            0 <= avail_h <= i32::MAX,
            1 <= tw <= i32::MAX,
    ;
    if avail_w * th <= avail_h * tw {
        (min_x, min_y, avail_w, tw)
    } else {
        (min_x, min_y, avail_h, th)
    }
}

/// One output's box, with its name.
struct Bx {
    name: String,
    x0: i32,
    y0: i32,
    bw: i32,
    bh: i32,
    sel: bool,
}

impl View for Bx {
    type V = BoxView;

    closed spec fn view(&self) -> BoxView {
        BoxView { name: self.name@, x0: self.x0, y0: self.y0, bw: self.bw, bh: self.bh, sel: self.sel }
    }
}

fn box_for(e: &Item, min_x: i32, min_y: i32, num: i64, den: i64, start_y: i32) -> (r: Bx)
    requires
        0 <= num <= i32::MAX,
        1 <= den <= i32::MAX,
    ensures
        r@ == box_of(e@, Fit { min_x, min_y, num: num as int, den: den as int }, start_y),
{
    let nm = num as i128;
    let dn = den as i128;
    let ex = e.x.wrapping_sub(min_x) as i128;
    let ey = e.y.wrapping_sub(min_y) as i128;
    let ew = e.w as i128;
    let eh = e.h as i128;
    assert(-0x8000_0000 * 0x7fff_ffff <= ex * nm <= 0x7fff_ffff * 0x7fff_ffff) by (nonlinear_arith)
        requires -0x8000_0000 <= ex <= 0x7fff_ffff, 0 <= nm <= 0x7fff_ffff;
    assert(-0x8000_0000 * 0x7fff_ffff <= ey * nm <= 0x7fff_ffff * 0x7fff_ffff) by (nonlinear_arith)
        requires -0x8000_0000 <= ey <= 0x7fff_ffff, 0 <= nm <= 0x7fff_ffff;
    assert(-0x8000_0000 * 0x7fff_ffff <= ew * nm <= 0x7fff_ffff * 0x7fff_ffff) by (nonlinear_arith)
        requires -0x8000_0000 <= ew <= 0x7fff_ffff, 0 <= nm <= 0x7fff_ffff;
    assert(-0x8000_0000 * 0x7fff_ffff <= eh * nm <= 0x7fff_ffff * 0x7fff_ffff) by (nonlinear_arith)
        requires -0x8000_0000 <= eh <= 0x7fff_ffff, 0 <= nm <= 0x7fff_ffff;
    let bx = round_sat(ex * nm, dn);
    let by = round_sat(ey * nm, dn);
    let bw = round_sat(ew * nm, dn);
    let bh = round_sat(eh * nm, 2 * dn);
    Bx {
        name: e.name.clone(),
        x0: (1i32).wrapping_add(bx),
        y0: start_y.wrapping_add(by),
        bw: if bw > 6 {
            bw
        } else {
            6
        },
        bh: if bh > 3 {
            bh
        } else {
            3
        },
        sel: e.sel,
    }
}

fn style_of(sel: bool) -> (r: Style)
    ensures
        r == box_style(sel),
{
    if sel {
        Style::Selected
    } else {
        Style::Plain
    }
}

/// Appends the dashes of a horizontal border of `b` on row `y`, leaving out
/// those from `lo` to before `hi`.
fn push_dashes(out: &mut Vec<Piece>, b: &Bx, y: i32, cols: i32, lo: i32, hi: i32)
    requires
        b.bw >= 6,
    ensures
        piece_views(final(out)@) == piece_views(old(out)@) + dashes(b@, y, 1, cols, lo as int, hi as int),
{
    let ghost base = piece_views(out@);
    let ghost bv = b@;
    let x1 = b.x0.wrapping_add(b.bw).wrapping_sub(1);
    let mut dx: i32 = 1;
    assert(piece_views(out@) + dashes(bv, y, 1, cols, lo as int, hi as int) =~= base + dashes(
        bv,
        y,
        1,
        cols,
        lo as int,
        hi as int,
    ));
    while dx < b.bw - 1
        invariant
            bv == b@,
            b.bw >= 6,
            1 <= dx,
            x1 == right_edge(bv),
            piece_views(out@) + dashes(bv, y, dx, cols, lo as int, hi as int) == base + dashes(
                bv,
                y,
                1,
                cols,
                lo as int,
                hi as int,
            ),
        decreases b.bw - dx,
    {
        let ghost prev = piece_views(out@);
        let px = b.x0.wrapping_add(dx);
        if px < x1 && px < cols && !(lo <= dx && dx < hi) {
            put(out, y, px, text_of("-"), style_of(b.sel));
            assert(piece_views(out@) + dashes(bv, y, (dx + 1) as i32, cols, lo as int, hi as int)
                =~= prev + dashes(bv, y, dx, cols, lo as int, hi as int));
        } else {
            assert(dashes(bv, y, dx, cols, lo as int, hi as int) =~= dashes(
                bv,
                y,
                (dx + 1) as i32,
                cols,
                lo as int,
                hi as int,
            ));
        }
        dx = dx + 1;
    }
    assert(dashes(bv, y, dx, cols, lo as int, hi as int) =~= Seq::<PieceView>::empty());
    assert(piece_views(out@) =~= base + dashes(bv, y, 1, cols, lo as int, hi as int));
}

/// Appends the top border of `b`, with its name.
fn push_top(out: &mut Vec<Piece>, b: &Bx, cols: i32)
    requires
        b.bw >= 6,
    ensures
        piece_views(final(out)@) == piece_views(old(out)@) + top_border(b@, cols),
{
    let ghost base = piece_views(out@);
    let ghost bv = b@;
    let x1 = b.x0.wrapping_add(b.bw).wrapping_sub(1);
    put(out, b.y0, b.x0, text_of("+"), style_of(b.sel));
    let (t, n) = label(&b.name, (b.bw - 2) as usize);
    assert(t@ == label_of(bv));
    let lo: i32 = 1 + (b.bw - 2 - n as i32) / 2;
    let hi: i32 = lo + n as i32;
    assert(lo == label_dx(bv));
    push_dashes(out, b, b.y0, cols, lo, hi);
    let lx = b.x0.wrapping_add(lo);
    if n > 0 && lx < cols {
        put(out, b.y0, lx, t, style_of(b.sel));
    }
    if x1 < cols && x1 > b.x0 {
        put(out, b.y0, x1, text_of("+"), style_of(b.sel));
    }
    assert(piece_views(out@) =~= base + top_border(bv, cols));
}

/// Appends the bottom border of `b` on row `y`.
fn push_bottom(out: &mut Vec<Piece>, b: &Bx, y: i32, cols: i32)
    requires
        b.bw >= 6,
    ensures
        piece_views(final(out)@) == piece_views(old(out)@) + bottom_border(b@, y, cols),
{
    let ghost base = piece_views(out@);
    let ghost bv = b@;
    let x1 = b.x0.wrapping_add(b.bw).wrapping_sub(1);
    put(out, y, b.x0, text_of("+"), style_of(b.sel));
    push_dashes(out, b, y, cols, 0, 0);
    if x1 < cols && x1 > b.x0 {
        put(out, y, x1, text_of("+"), style_of(b.sel));
    }
    assert(piece_views(out@) =~= base + bottom_border(bv, y, cols));
}

/// Appends the sides of `b`.
fn push_sides(out: &mut Vec<Piece>, b: &Bx, rows: i32, cols: i32)
    requires
        b.bw >= 6,
        b.bh >= 3,
    ensures
        piece_views(final(out)@) == piece_views(old(out)@) + sides(b@, 1, rows, cols),
{
    let ghost base = piece_views(out@);
    let ghost bv = b@;
    let x1 = b.x0.wrapping_add(b.bw).wrapping_sub(1);
    let mut dy: i32 = 1;
    assert(piece_views(out@) + sides(bv, 1, rows, cols) =~= base + sides(bv, 1, rows, cols));
    while dy < b.bh - 1
        invariant
            bv == b@,
            b.bw >= 6,
            b.bh >= 3,
            1 <= dy,
            base == piece_views(old(out)@),
            x1 == right_edge(bv),
            piece_views(out@) + sides(bv, dy, rows, cols) == base + sides(bv, 1, rows, cols),
        decreases b.bh - dy,
    {
        let ghost prev = piece_views(out@);
        let y = b.y0.wrapping_add(dy);
        if y >= rows.wrapping_sub(1) {
            assert(y == bv.y0.wrapping_add(dy));
            assert(sides(bv, dy, rows, cols) == Seq::<PieceView>::empty());
            assert(prev + Seq::<PieceView>::empty() =~= prev);
            return;
        }
        put(out, y, b.x0, text_of("|"), style_of(b.sel));
        if x1 < cols {
            put(out, y, x1, text_of("|"), style_of(b.sel));
        }
        assert(piece_views(out@) + sides(bv, (dy + 1) as i32, rows, cols) =~= prev + sides(
            bv,
            dy,
            rows,
            cols,
        ));
        dy = dy + 1;
    }
    assert(sides(bv, dy, rows, cols) =~= Seq::<PieceView>::empty());
    assert(piece_views(out@) =~= base + sides(bv, 1, rows, cols));
}

/// Appends all the pieces of `b`.
fn push_box(out: &mut Vec<Piece>, b: &Bx, rows: i32, cols: i32)
    requires
        b.bw >= 6,
        b.bh >= 3,
    ensures
        piece_views(final(out)@) == piece_views(old(out)@) + box_pieces(b@, rows, cols),
{
    let ghost base = piece_views(out@);
    let ghost bv = b@;
    let rl = rows.wrapping_sub(1);
    if b.y0 >= rl || b.x0 >= cols {
        assert(base + Seq::<PieceView>::empty() =~= base);
        return;
    }
    let y1 = b.y0.wrapping_add(b.bh).wrapping_sub(1);
    push_top(out, b, cols);
    push_sides(out, b, rows, cols);
    if y1 < rl && y1 > b.y0 {
        push_bottom(out, b, y1, cols);
    }
    assert(piece_views(out@) =~= base + box_pieces(bv, rows, cols));
}

/// The diagram of the layout below row `start_y` of a screen of `rows` by
/// `cols`, as the pieces of text to print.
pub fn draw_layout_diagram(app: &App, start_y: i32, rows: i32, cols: i32) -> (r: Vec<Piece>)
    requires
        app.wf(),
        app.monitors.len() > 0,
    ensures
        piece_views(r@) == diagram_spec(app@, start_y, rows, cols),
{
    let d = rows.wrapping_sub(1).wrapping_sub(start_y);
    let avail_h: i64 = if d > 0 {
        d as i64
    } else {
        0
    };
    let mut out: Vec<Piece> = Vec::new();
    if avail_h < 3 || cols < 10 {
        assert(piece_views(out@) =~= Seq::<PieceView>::empty());
        return out;
    }
    let v = items(app);
    let (min_x, min_y, num, den) = fit_of(&v, (cols - 2) as i64, avail_h);
    let ghost iv = item_views(v@);
    let ghost g = Fit { min_x, min_y, num: num as int, den: den as int };
    let ghost bs = Seq::new(iv.len(), |i: int| box_of(iv[i], g, start_y));
    assert(iv == items_spec(app@));
    assert(g == fit_spec(iv, cols - 2, avail_h as int));
    assert(diagram_spec(app@, start_y, rows, cols) == all_pieces(bs, 0, rows, cols));
    assert(piece_views(out@) + all_pieces(bs, 0, rows, cols) =~= all_pieces(bs, 0, rows, cols));
    let mut i: usize = 0;
    while i < v.len()
        invariant
            i <= v.len(),
            iv == item_views(v@),
            iv.len() == v.len(),
            bs == Seq::new(iv.len(), |i: int| box_of(iv[i], g, start_y)),
            g == (Fit { min_x, min_y, num: num as int, den: den as int }),
            0 <= num <= i32::MAX,
            1 <= den <= i32::MAX,
            diagram_spec(app@, start_y, rows, cols) == all_pieces(bs, 0, rows, cols),
            piece_views(out@) + all_pieces(bs, i as int, rows, cols) == all_pieces(bs, 0, rows, cols),
        decreases v.len() - i,
    {
        let b = box_for(&v[i], min_x, min_y, num, den, start_y);
        assert(b@ == bs[i as int]);
        let ghost prev = piece_views(out@);
        push_box(&mut out, &b, rows, cols);
        assert(piece_views(out@) + all_pieces(bs, i + 1, rows, cols) =~= prev + all_pieces(
            bs,
            i as int,
            rows,
            cols,
        ));
        i = i + 1;
    }
    assert(piece_views(out@) + Seq::<PieceView>::empty() =~= piece_views(out@));
    out
}

proof fn lemma_round_frac_mono(n1: int, n2: int, d: int)
    requires
        0 <= n1 <= n2,
        d > 0,
    ensures
        0 <= round_frac(n1, d) <= round_frac(n2, d),
{
    vstd::arithmetic::div_mod::lemma_div_is_ordered(2 * n1 + d, 2 * n2 + d, 2 * d);
    vstd::arithmetic::div_mod::lemma_div_pos_is_pos(2 * n1 + d, 2 * d);
}

proof fn lemma_round_frac_bound(n: int, d: int, k: int)
    requires
        0 <= n,
        d > 0,
        k >= 0,
        n <= k * d,
    ensures
        round_frac(n, d) <= k,
{
    let q = (2 * n + d) / (2 * d);
    let r = (2 * n + d) % (2 * d);
    vstd::arithmetic::div_mod::lemma_fundamental_div_mod(2 * n + d, 2 * d);
    assert(0 <= r < 2 * d);
    assert(q * (2 * d) + r == 2 * n + d);
    assert(q <= k) by (nonlinear_arith)
        requires
            q * (2 * d) + r == 2 * n + d,
            0 <= r,
            n <= k * d,
            d > 0,
    ;
}

/// One coordinate of a box: `v - lo` scaled by `num / den`, rounded and
/// clamped, then moved by `base` (`i32` arithmetic wraps).
proof fn lemma_box_coord(v1: i32, v2: i32, lo: i32, num: int, den: int, base: i32)
    requires
        den > 0,
        num >= 0,
        lo <= v1 <= v2,
        v2 - lo <= i32::MAX,
        0 <= base < i32::MAX,
        (v2 - lo) * num <= (i32::MAX - 1 - base) * den,
    ensures
        base.wrapping_add(sat_i32(round_frac(v1.wrapping_sub(lo) * num, den))) <= base.wrapping_add(
            sat_i32(round_frac(v2.wrapping_sub(lo) * num, den)),
        ),
        v1 == lo ==> base.wrapping_add(sat_i32(round_frac(v1.wrapping_sub(lo) * num, den))) == base,
{
    let d1 = v1 - lo;
    let d2 = v2 - lo;
    assert(v1.wrapping_sub(lo) == d1);
    assert(v2.wrapping_sub(lo) == d2);
    assert(d1 * num <= d2 * num) by (nonlinear_arith)
        requires
            0 <= d1 <= d2,
            num >= 0,
    ;
    assert(0 <= d1 * num) by (nonlinear_arith)
        requires
            0 <= d1,
            num >= 0,
    ;
    lemma_round_frac_mono(d1 * num, d2 * num, den);
    lemma_round_frac_bound(d2 * num, den, i32::MAX - 1 - base);
    let r1 = round_frac(d1 * num, den);
    let r2 = round_frac(d2 * num, den);
    if d1 == 0 {
        assert(d1 * num == 0) by (nonlinear_arith)
            requires
                d1 == 0,
        ;
        vstd::arithmetic::div_mod::lemma_basic_div(den, 2 * den);
        assert(r1 == 0);
    }
    assert(sat_i32(r1) == r1);
    assert(sat_i32(r2) == r2);
    assert(base.wrapping_add(r1 as i32) == base + r1);
    assert(base.wrapping_add(r2 as i32) == base + r2);
}

/// The diagram keeps the order of the resolved positions: an output left of
/// (or above) another has its box's corner left of (or above) the other's,
/// and the leftmost (topmost) output's box starts at column 1 (row
/// `start_y`), as long as the scaled extent fits in the rows and columns of
/// `i32`; every box is at least six cells wide and three rows high.
pub proof fn law_boxes_keep_order(e1: ItemView, e2: ItemView, g: Fit, start_y: i32)
    requires
        g.den > 0,
        g.num >= 0,
        start_y >= 0,
    ensures
        box_of(e1, g, start_y).bw >= 6,
        box_of(e1, g, start_y).bh >= 3,
        g.min_x <= e1.x <= e2.x && e2.x - g.min_x <= i32::MAX && (e2.x - g.min_x) * g.num <= (
        i32::MAX - 2) * g.den ==> {
            &&& box_of(e1, g, start_y).x0 <= box_of(e2, g, start_y).x0
            &&& e1.x == g.min_x ==> box_of(e1, g, start_y).x0 == 1
        },
        g.min_y <= e1.y <= e2.y && e2.y - g.min_y <= i32::MAX && (e2.y - g.min_y) * g.num <= (
        i32::MAX - 1 - start_y) * g.den ==> {
            &&& box_of(e1, g, start_y).y0 <= box_of(e2, g, start_y).y0
            &&& e1.y == g.min_y ==> box_of(e1, g, start_y).y0 == start_y
        },
{
    if g.min_x <= e1.x <= e2.x && e2.x - g.min_x <= i32::MAX && (e2.x - g.min_x) * g.num <= (i32::MAX
        - 2) * g.den {
        lemma_box_coord(e1.x, e2.x, g.min_x, g.num, g.den, 1);
    }
    if g.min_y <= e1.y <= e2.y && e2.y - g.min_y <= i32::MAX && (e2.y - g.min_y) * g.num <= (i32::MAX
        - 1 - start_y) * g.den {
        assert(0 <= (e2.y - g.min_y) * g.num) by (nonlinear_arith)
            requires
                e2.y - g.min_y >= 0,
                g.num >= 0,
        ;
        assert(start_y < i32::MAX) by (nonlinear_arith)
            requires
                0 <= (e2.y - g.min_y) * g.num <= (i32::MAX - 1 - start_y) * g.den,
                g.den > 0,
        ;
        lemma_box_coord(e1.y, e2.y, g.min_y, g.num, g.den, start_y);
    }
}
} // verus!
