//! Outputs, their modes and pending settings, and where each output is placed.
use vstd::prelude::*;
use crate::consts::{F_ADAPTIVE, F_ENABLED, F_MODE, F_SCALE, F_TRANSFORM, N_FIELDS};
use crate::decimal::{fixed_str, int_str, nat_str, push_fixed, push_int, push_nat};
use crate::text::{chars_of, push_str, range_starts_with, starts_with};

verus! {

/// How a relatively placed output lines up on the axis across its placement.
#[derive(Clone, Copy, PartialEq, Eq, Structural, Debug)]
pub enum Align {
    Start,
    Center,
}

pub open spec fn align_label(a: Align) -> Seq<char> {
    match a {
        Align::Start => ""@,
        Align::Center => " (center)"@,
    }
}

impl Align {
    pub fn label(&self) -> (r: &'static str)
        ensures
            r@ == align_label(*self),
    {
        match self {
            Align::Start => "",
            Align::Center => " (center)",
        }
    }
}

/// Where an output goes: next to another output (named), aligned at the
/// start or centered on the axis across, or at absolute layout coordinates.
#[derive(Debug)]
pub enum PosMode {
    RightOf(String, Align),
    LeftOf(String, Align),
    Above(String, Align),
    Below(String, Align),
    Absolute(i32, i32),
}

/// A placement with the name of the reference output as characters.
pub enum PosModeView {
    RightOf(Seq<char>, Align),
    LeftOf(Seq<char>, Align),
    Above(Seq<char>, Align),
    Below(Seq<char>, Align),
    Absolute(i32, i32),
}

impl View for PosMode {
    type V = PosModeView;

    open spec fn view(&self) -> PosModeView {
        match self {
            PosMode::RightOf(n, a) => PosModeView::RightOf(n@, *a),
            PosMode::LeftOf(n, a) => PosModeView::LeftOf(n@, *a),
            PosMode::Above(n, a) => PosModeView::Above(n@, *a),
            PosMode::Below(n, a) => PosModeView::Below(n@, *a),
            PosMode::Absolute(x, y) => PosModeView::Absolute(*x, *y),
        }
    }
}

/// The text shown for a placement.
pub open spec fn display_spec(p: PosModeView) -> Seq<char> {
    match p {
        PosModeView::RightOf(n, a) => "Right of "@ + n + align_label(a),
        PosModeView::LeftOf(n, a) => "Left of "@ + n + align_label(a),
        PosModeView::Above(n, a) => "Above "@ + n + align_label(a),
        PosModeView::Below(n, a) => "Below "@ + n + align_label(a),
        PosModeView::Absolute(x, y) => "x="@ + int_str(x as int) + " y="@ + int_str(y as int),
    }
}

impl PosMode {
    pub fn display(&self) -> (r: String)
        ensures
            r@ == display_spec(self@),
    {
        let mut s = String::new();
        match self {
            PosMode::RightOf(n, a) => {
                push_str(&mut s, "Right of ");
                push_str(&mut s, n.as_str());
                push_str(&mut s, a.label());
            },
            PosMode::LeftOf(n, a) => {
                push_str(&mut s, "Left of ");
                push_str(&mut s, n.as_str());
                push_str(&mut s, a.label());
            },
            PosMode::Above(n, a) => {
                push_str(&mut s, "Above ");
                push_str(&mut s, n.as_str());
                push_str(&mut s, a.label());
            },
            PosMode::Below(n, a) => {
                push_str(&mut s, "Below ");
                push_str(&mut s, n.as_str());
                push_str(&mut s, a.label());
            },
            PosMode::Absolute(x, y) => {
                push_str(&mut s, "x=");
                push_int(&mut s, *x as i64);
                push_str(&mut s, " y=");
                push_int(&mut s, *y as i64);
            },
        }
        assert(s@ =~= display_spec(self@));
        s
    }

    pub fn is_absolute_eq(&self, pos: (i32, i32)) -> (r: bool)
        ensures
            r == (self@ == PosModeView::Absolute(pos.0, pos.1)),
    {
        match self {
            PosMode::Absolute(x, y) => *x == pos.0 && *y == pos.1,
            _ => false,
        }
    }

    /// Whether two placements are the same.
    pub fn same_as(&self, other: &PosMode) -> (r: bool)
        ensures
            r == (self@ == other@),
    {
        match (self, other) {
            (PosMode::RightOf(n, a), PosMode::RightOf(m, b)) => *n == *m && *a == *b,
            (PosMode::LeftOf(n, a), PosMode::LeftOf(m, b)) => *n == *m && *a == *b,
            (PosMode::Above(n, a), PosMode::Above(m, b)) => *n == *m && *a == *b,
            (PosMode::Below(n, a), PosMode::Below(m, b)) => *n == *m && *a == *b,
            (PosMode::Absolute(x, y), PosMode::Absolute(u, w)) => *x == *u && *y == *w,
            _ => false,
        }
    }

    /// A copy of this placement.
    pub fn duplicate(&self) -> (r: PosMode)
        ensures
            r@ == self@,
    {
        match self {
            PosMode::RightOf(n, a) => PosMode::RightOf(n.clone(), *a),
            PosMode::LeftOf(n, a) => PosMode::LeftOf(n.clone(), *a),
            PosMode::Above(n, a) => PosMode::Above(n.clone(), *a),
            PosMode::Below(n, a) => PosMode::Below(n.clone(), *a),
            PosMode::Absolute(x, y) => PosMode::Absolute(*x, *y),
        }
    }
}

/// A display mode. `refresh` is in millionths of a hertz.
#[derive(Clone, Copy, PartialEq, Eq, Structural, Debug)]
pub struct Mode {
    pub width: u32,
    pub height: u32,
    pub refresh: i64,
    pub preferred: bool,
    pub current: bool,
}

/// `WIDTHxHEIGHT @ R.RRR Hz`.
pub open spec fn mode_text(m: Mode) -> Seq<char> {
    nat_str(m.width as nat) + "x"@ + nat_str(m.height as nat) + " @ "@ + fixed_str(
        m.refresh as int,
        3,
    ) + " Hz"@
}

impl Mode {
    pub fn display(&self) -> (r: String)
        ensures
            r@ == mode_text(*self),
    {
        let mut s = String::new();
        push_nat(&mut s, self.width as u64);
        push_str(&mut s, "x");
        push_nat(&mut s, self.height as u64);
        push_str(&mut s, " @ ");
        push_fixed(&mut s, self.refresh, 3);
        push_str(&mut s, " Hz");
        assert(s@ =~= mode_text(*self));
        s
    }
}

/// An output as reported, with its pending (not yet applied) settings.
/// `scale` and `new_scale` are in millionths.
#[derive(Debug)]
pub struct Monitor {
    pub name: String,
    pub make: String,
    pub model: String,
    pub enabled: bool,
    pub modes: Vec<Mode>,
    pub cur_mode: usize,
    pub position: (i32, i32),
    pub transform: String,
    pub scale: i64,
    pub adaptive_sync: bool,
    pub new_mode: usize,
    pub new_pos: PosMode,
    pub new_transform: String,
    pub new_scale: i64,
    pub new_adaptive: bool,
    pub new_enabled: bool,
}

/// A monitor with its texts as characters.
pub struct MonitorView {
    pub name: Seq<char>,
    pub make: Seq<char>,
    pub model: Seq<char>,
    pub enabled: bool,
    pub modes: Seq<Mode>,
    pub cur_mode: int,
    pub position: (i32, i32),
    pub transform: Seq<char>,
    pub scale: i64,
    pub adaptive_sync: bool,
    pub new_mode: int,
    pub new_pos: PosModeView,
    pub new_transform: Seq<char>,
    pub new_scale: i64,
    pub new_adaptive: bool,
    pub new_enabled: bool,
}

impl View for Monitor {
    type V = MonitorView;

    open spec fn view(&self) -> MonitorView {
        MonitorView {
            name: self.name@,
            make: self.make@,
            model: self.model@,
            enabled: self.enabled,
            modes: self.modes@,
            cur_mode: self.cur_mode as int,
            position: self.position,
            transform: self.transform@,
            scale: self.scale,
            adaptive_sync: self.adaptive_sync,
            new_mode: self.new_mode as int,
            new_pos: self.new_pos@,
            new_transform: self.new_transform@,
            new_scale: self.new_scale,
            new_adaptive: self.new_adaptive,
            new_enabled: self.new_enabled,
        }
    }
}

/// The views of a sequence of monitors.
pub open spec fn views(s: Seq<Monitor>) -> Seq<MonitorView> {
    s.map_values(|m: Monitor| m@)
}

impl MonitorView {
    /// The pending mode indexes a mode.
    pub open spec fn mode_ok(self) -> bool {
        0 <= self.new_mode < self.modes.len()
    }

    /// Both the reported and the pending mode index a mode.
    pub open spec fn wf(self) -> bool {
        0 <= self.cur_mode < self.modes.len() && 0 <= self.new_mode < self.modes.len()
    }

    pub open spec fn is_laptop(self) -> bool {
        starts_with(self.name, "eDP"@)
    }

    /// Whether pending settings field `f` differs from the reported one.
    pub open spec fn field_dirty(self, f: int) -> bool {
        if f == F_MODE {
            self.new_mode != self.cur_mode
        } else if f == F_SCALE {
            self.new_scale - self.scale > 100 || self.scale - self.new_scale > 100
        } else if f == F_TRANSFORM {
            self.new_transform != self.transform
        } else if f == F_ADAPTIVE {
            self.new_adaptive != self.adaptive_sync
        } else if f == F_ENABLED {
            self.new_enabled != self.enabled
        } else {
            false
        }
    }

    /// Whether the pending placement is other than the reported position.
    pub open spec fn pos_dirty(self) -> bool {
        self.new_pos != PosModeView::Absolute(self.position.0, self.position.1)
    }

    /// Whether anything pending differs from what is reported.
    pub open spec fn dirty(self) -> bool {
        self.pos_dirty() || exists|f: int| 0 <= f < N_FIELDS && #[trigger] self.field_dirty(f)
    }

    /// The monitor with every pending setting set back to the reported one.
    pub open spec fn reset(self) -> MonitorView {
        MonitorView {
            new_mode: self.cur_mode,
            new_pos: PosModeView::Absolute(self.position.0, self.position.1),
            new_transform: self.transform,
            new_scale: self.scale,
            new_adaptive: self.adaptive_sync,
            new_enabled: self.enabled,
            ..self
        }
    }
}

pub open spec fn mark(b: bool) -> Seq<char> {
    if b {
        " [*]"@
    } else {
        ""@
    }
}

/// The markers of a mode in the settings: ` (preferred/current)` for a mode
/// that is both, ` (preferred)` or ` (current)` for one that is one of them.
pub open spec fn mode_marks(md: Mode) -> Seq<char> {
    if md.preferred && md.current {
        " (preferred/current)"@
    } else if md.preferred {
        " (preferred)"@
    } else if md.current {
        " (current)"@
    } else {
        ""@
    }
}

/// The text shown for settings field `f` of a monitor.
pub open spec fn field_value_spec(m: MonitorView, f: int) -> Seq<char> {
    if f == F_MODE {
        let md = m.modes[m.new_mode];
        mode_text(md) + mode_marks(md) + mark(m.field_dirty(f))
    } else if f == F_SCALE {
        fixed_str(m.new_scale as int, 4) + mark(m.field_dirty(f))
    } else if f == F_TRANSFORM {
        m.new_transform + mark(m.field_dirty(f))
    } else if f == F_ADAPTIVE {
        (if m.new_adaptive {
            "enabled"@
        } else {
            "disabled"@
        }) + mark(m.field_dirty(f))
    } else if f == F_ENABLED {
        (if m.new_enabled {
            "yes"@
        } else {
            "no"@
        }) + mark(m.field_dirty(f))
    } else {
        Seq::empty()
    }
}

impl Monitor {
    pub open spec fn wf(&self) -> bool {
        self@.wf()
    }

    pub open spec fn mode_ok(&self) -> bool {
        self@.mode_ok()
    }

    pub fn is_laptop(&self) -> (r: bool)
        ensures
            r == self@.is_laptop(),
    {
        let v = chars_of(self.name.as_str());
        let p = chars_of("eDP");
        assert(v@.subrange(0, v.len() as int) =~= v@);
        range_starts_with(&v, 0, v.len(), &p)
    }

    pub fn field_dirty(&self, f: usize) -> (r: bool)
        ensures
            r == self@.field_dirty(f as int),
    {
        match f {
            F_MODE => self.new_mode != self.cur_mode,
            F_SCALE => {
                let d = (self.new_scale as i128) - (self.scale as i128);
                d > 100 || d < -100
            },
            F_TRANSFORM => self.new_transform != self.transform,
            F_ADAPTIVE => self.new_adaptive != self.adaptive_sync,
            F_ENABLED => self.new_enabled != self.enabled,
            _ => false,
        }
    }

    pub fn pos_dirty(&self) -> (r: bool)
        ensures
            r == self@.pos_dirty(),
    {
        !self.new_pos.is_absolute_eq(self.position)
    }

    pub fn dirty(&self) -> (r: bool)
        ensures
            r == self@.dirty(),
    {
        if self.pos_dirty() {
            return true;
        }
        let mut f: usize = 0;
        while f < N_FIELDS
            invariant
                f <= N_FIELDS,
                forall|g: int| 0 <= g < f ==> !#[trigger] self@.field_dirty(g),
            decreases N_FIELDS - f,
        {
            if self.field_dirty(f) {
                return true;
            }
            f = f + 1;
        }
        false
    }

    pub fn reset(&mut self)
        ensures
            final(self)@ == old(self)@.reset(),
    {
        self.new_mode = self.cur_mode;
        self.new_pos = PosMode::Absolute(self.position.0, self.position.1);
        self.new_transform = self.transform.clone();
        self.new_scale = self.scale;
        self.new_adaptive = self.adaptive_sync;
        self.new_enabled = self.enabled;
    }

    pub fn field_value(&self, f: usize) -> (r: String)
        requires
            f == F_MODE ==> self.mode_ok(),
        ensures
            r@ == field_value_spec(self@, f as int),
    {
        let mut s = String::new();
        match f {
            F_MODE => {
                let md = self.modes[self.new_mode];
                let t = md.display();
                push_str(&mut s, t.as_str());
                push_str(
                    &mut s,
                    if md.preferred && md.current {
                        " (preferred/current)"
                    } else if md.preferred {
                        " (preferred)"
                    } else if md.current {
                        " (current)"
                    } else {
                        ""
                    },
                );
            },
            F_SCALE => {
                push_fixed(&mut s, self.new_scale, 4);
            },
            F_TRANSFORM => {
                push_str(&mut s, self.new_transform.as_str());
            },
            F_ADAPTIVE => {
                push_str(&mut s, if self.new_adaptive { "enabled" } else { "disabled" });
            },
            F_ENABLED => {
                push_str(&mut s, if self.new_enabled { "yes" } else { "no" });
            },
            _ => {
                assert(s@ =~= field_value_spec(self@, f as int));
                return s;
            },
        }
        push_str(&mut s, if self.field_dirty(f) { " [*]" } else { "" });
        assert(s@ =~= field_value_spec(self@, f as int));
        s
    }
}

pub proof fn lemma_views_update(s: Seq<Monitor>, i: int, m: Monitor)
    requires
        0 <= i < s.len(),
    ensures
        views(s.update(i, m)) == views(s).update(i, m@),
{
    assert(views(s.update(i, m)) =~= views(s).update(i, m@));
}

/// `n / d` rounded to the nearest integer, ties away from zero (for `n >= 0`, `d != 0`).
pub open spec fn round_div(n: int, d: int) -> int {
    if d > 0 {
        (2 * n + d) / (2 * d)
    } else {
        -((2 * n - d) / (-2 * d))
    }
}

/// `x` clamped to the range of `i32`.
pub open spec fn sat_i32(x: int) -> i32 {
    if x > i32::MAX {
        i32::MAX
    } else if x < i32::MIN {
        i32::MIN
    } else {
        x as i32
    }
}

/// `px` pixels at scale `scale` (in millionths), rounded to whole layout
/// units: a zero scale gives the largest `i32` for a nonzero length and `0` for
/// a zero one.
pub open spec fn scaled_dim(px: u32, scale: i64) -> i32 {
    if scale == 0 {
        if px == 0 {
            0
        } else {
            i32::MAX
        }
    } else {
        sat_i32(round_div(px * 1_000_000, scale as int))
    }
}

/// Logical size of an output: the pending mode's pixels divided by the pending scale.
pub open spec fn logical_size_spec(m: MonitorView) -> (i32, i32) {
    let md = m.modes[m.new_mode];
    (scaled_dim(md.width, m.new_scale), scaled_dim(md.height, m.new_scale))
}

fn scaled(px: u32, scale: i64) -> (r: i32)
    ensures
        r == scaled_dim(px, scale),
{
    if scale == 0 {
        if px == 0 {
            0
        } else {
            i32::MAX
        }
    } else {
        let n: i128 = (px as i128) * 1_000_000;
        let d: i128 = scale as i128;
        let q: i128 = if d > 0 {
            (2 * n + d) / (2 * d)
        } else {
            0 - ((2 * n - d) / (0 - 2 * d))
        };
        if q > 0x7fff_ffff {
            i32::MAX
        } else if q < -0x8000_0000 {
            i32::MIN
        } else {
            q as i32
        }
    }
}

/// Logical size = mode pixels ÷ scale factor (compositor layout coordinates).
pub fn logical_size(m: &Monitor) -> (r: (i32, i32))
    requires
        m.mode_ok(),
    ensures
        r == logical_size_spec(m@),
{
    let md = m.modes[m.new_mode];
    (scaled(md.width, m.new_scale), scaled(md.height, m.new_scale))
}

/// The index of the first monitor named `name`, or `all.len()` when none is.
pub open spec fn find_monitor(all: Seq<MonitorView>, name: Seq<char>) -> int
    decreases all.len(),
{
    if all.len() == 0 {
        0
    } else if all[0].name == name {
        0
    } else {
        1 + find_monitor(all.subrange(1, all.len() as int), name)
    }
}

pub proof fn lemma_find_monitor(all: Seq<MonitorView>, name: Seq<char>)
    ensures
        0 <= find_monitor(all, name) <= all.len(),
        find_monitor(all, name) < all.len() ==> all[find_monitor(all, name)].name == name,
        forall|j: int| 0 <= j < find_monitor(all, name) ==> all[j].name != name,
    decreases all.len(),
{
    if all.len() > 0 && all[0].name != name {
        let t = all.subrange(1, all.len() as int);
        lemma_find_monitor(t, name);
        assert forall|j: int| 0 <= j < find_monitor(all, name) implies all[j].name != name by {
            if j > 0 {
                assert(all[j] == t[j - 1]);
            }
        }
    }
}

fn find_monitor_index(all: &[Monitor], name: &String) -> (k: usize)
    ensures
        k == find_monitor(views(all@), name@),
{
    let mut k: usize = 0;
    assert(views(all@).subrange(0, all.len() as int) =~= views(all@));
    while k < all.len() && all[k].name != *name
        invariant
            k <= all.len(),
            find_monitor(views(all@), name@) == k + find_monitor(
                views(all@).subrange(k as int, all.len() as int),
                name@,
            ),
        decreases all.len() - k,
    {
        let ghost t = views(all@).subrange(k as int, all.len() as int);
        assert(t.subrange(1, t.len() as int) =~= views(all@).subrange(k + 1, all.len() as int));
        assert(t[0] == all@[k as int]@);
        k = k + 1;
    }
    proof {
        if k < all.len() {
            assert(views(all@).subrange(k as int, all.len() as int)[0] == all@[k as int]@);
        }
    }
    k
}

/// The name of the output that a relative placement refers to.
pub open spec fn ref_name(p: PosModeView) -> Seq<char> {
    match p {
        PosModeView::RightOf(n, _) => n,
        PosModeView::LeftOf(n, _) => n,
        PosModeView::Above(n, _) => n,
        PosModeView::Below(n, _) => n,
        PosModeView::Absolute(_, _) => Seq::empty(),
    }
}

/// `x / 2` rounded toward zero, as Rust's `/` on `i32` does.
pub open spec fn half(x: i32) -> i32 {
    if x >= 0 {
        (x / 2) as i32
    } else {
        (-((-x) / 2)) as i32
    }
}

/// The shift that centers a `small` extent on a `big` one, or `0` at the start.
pub open spec fn offset(a: Align, big: i32, small: i32) -> i32 {
    if a == Align::Center {
        half(big.wrapping_sub(small))
    } else {
        0
    }
}

/// Where a placement puts an output of size `own`, given the reference output's
/// position `rp` and size `rs` (`i32` arithmetic wraps).
pub open spec fn place(p: PosModeView, rp: (i32, i32), rs: (i32, i32), own: (i32, i32)) -> (i32, i32) {
    match p {
        PosModeView::RightOf(_, a) => (rp.0.wrapping_add(rs.0), rp.1.wrapping_add(offset(a, rs.1, own.1))),
        PosModeView::LeftOf(_, a) => (rp.0.wrapping_sub(own.0), rp.1.wrapping_add(offset(a, rs.1, own.1))),
        PosModeView::Above(_, a) => (rp.0.wrapping_add(offset(a, rs.0, own.0)), rp.1.wrapping_sub(own.1)),
        PosModeView::Below(_, a) => (rp.0.wrapping_add(offset(a, rs.0, own.0)), rp.1.wrapping_add(rs.1)),
        PosModeView::Absolute(x, y) => (x, y),
    }
}

/// Whether following the placement `pos` through `all`, `depth` steps in,
/// never comes back to an output already met (`seen` holds the names of the
/// outputs met so far) before it ends: at an absolute placement, at a
/// reference to a missing output, or at the ninth step.
pub open spec fn chain_ends(pos: PosModeView, all: Seq<MonitorView>, seen: Seq<Seq<char>>, depth: int) -> bool
    decreases 9 - depth,
{
    if depth > 8 {
        true
    } else {
        match pos {
            PosModeView::Absolute(_, _) => true,
            _ => {
                let n = ref_name(pos);
                let k = find_monitor(all, n);
                if k < 0 || k >= all.len() {
                    true
                } else if seen.contains(n) {
                    false
                } else {
                    chain_ends(all[k].new_pos, all, seen.push(n), depth + 1)
                }
            },
        }
    }
}

/// The position reached by following `pos` through the reference outputs:
/// each relative placement is put next to its reference output's position;
/// a reference to a missing output (or a chain past nine steps) stops at the
/// output's reported position.
pub open spec fn follow_spec(pos: PosModeView, this: MonitorView, all: Seq<MonitorView>, depth: int) -> (i32, i32)
    decreases 9 - depth,
{
    if depth > 8 {
        this.position
    } else {
        match pos {
            PosModeView::Absolute(x, y) => (x, y),
            _ => {
                let k = find_monitor(all, ref_name(pos));
                if k < 0 || k >= all.len() {
                    this.position
                } else {
                    let rm = all[k];
                    place(
                        pos,
                        follow_spec(rm.new_pos, rm, all, depth + 1),
                        logical_size_spec(rm),
                        logical_size_spec(this),
                    )
                }
            },
        }
    }
}

/// The absolute position of an output placed by `pos`: the position that
/// following its chain of reference outputs gives, or the output's reported
/// position when the chain comes back to an output already on it.
pub open spec fn resolve_spec(pos: PosModeView, this: MonitorView, all: Seq<MonitorView>, depth: int) -> (i32, i32) {
    if chain_ends(pos, all, seq![this.name], depth) {
        follow_spec(pos, this, all, depth)
    } else {
        this.position
    }
}

/// The outputs whose modes following `pos` reads (the output itself and each
/// reference output, for every relative step) have their pending mode.
pub open spec fn chain_modes_ok(pos: PosModeView, this: MonitorView, all: Seq<MonitorView>, depth: int) -> bool
    decreases 9 - depth,
{
    if depth > 8 {
        true
    } else {
        match pos {
            PosModeView::Absolute(_, _) => true,
            _ => {
                let k = find_monitor(all, ref_name(pos));
                if k < 0 || k >= all.len() {
                    true
                } else {
                    this.mode_ok() && all[k].mode_ok() && chain_modes_ok(all[k].new_pos, all[k], all, depth + 1)
                }
            },
        }
    }
}

/// What resolving `pos` needs: the modes it reads, when it follows the chain.
pub open spec fn resolvable(pos: PosModeView, this: MonitorView, all: Seq<MonitorView>, depth: int) -> bool {
    chain_ends(pos, all, seq![this.name], depth) ==> chain_modes_ok(pos, this, all, depth)
}

pub proof fn lemma_resolvable(pos: PosModeView, this: MonitorView, all: Seq<MonitorView>, depth: int)
    requires
        this.mode_ok(),
        forall|i: int| 0 <= i < all.len() ==> (#[trigger] all[i]).mode_ok(),
    ensures
        chain_modes_ok(pos, this, all, depth),
        resolvable(pos, this, all, depth),
    decreases 9 - depth,
{
    if depth <= 8 && !(pos is Absolute) {
        let k = find_monitor(all, ref_name(pos));
        lemma_find_monitor(all, ref_name(pos));
        if 0 <= k < all.len() {
            lemma_resolvable(all[k].new_pos, all[k], all, depth + 1);
        }
    }
}

pub open spec fn all_wf(all: Seq<Monitor>) -> bool {
    forall|i: int| 0 <= i < all.len() ==> (#[trigger] all[i]).wf()
}

/// Every pending mode indexes a mode.
pub open spec fn all_mode_ok(all: Seq<Monitor>) -> bool {
    forall|i: int| 0 <= i < all.len() ==> (#[trigger] all[i]).mode_ok()
}

pub proof fn lemma_all_resolvable(pos: PosModeView, this: MonitorView, all: Seq<Monitor>)
    requires
        this.mode_ok(),
        all_mode_ok(all),
    ensures
        resolvable(pos, this, views(all), 0),
{
    assert forall|i: int| 0 <= i < views(all).len() implies (#[trigger] views(all)[i]).mode_ok() by {
        assert(views(all)[i] == all[i]@);
        assert(all[i].mode_ok());
    }
    lemma_resolvable(pos, this, views(all), 0);
}

fn half_exec(x: i32) -> (r: i32)
    ensures
        r == half(x),
{
    if x >= 0 {
        x / 2
    } else {
        0 - ((0 - (x as i64)) / 2) as i32
    }
}

fn offset_exec(a: Align, big: i32, small: i32) -> (r: i32)
    ensures
        r == offset(a, big, small),
{
    if a == Align::Center {
        half_exec(big.wrapping_sub(small))
    } else {
        0
    }
}

/// Whether `seen` holds `n`.
fn seen_has(seen: &Vec<String>, n: &String) -> (r: bool)
    ensures
        r == names(seen@).contains(n@),
{
    let mut i: usize = 0;
    while i < seen.len()
        invariant
            i <= seen.len(),
            forall|j: int| 0 <= j < i ==> names(seen@)[j] != n@,
        decreases seen.len() - i,
    {
        if seen[i] == *n {
            assert(names(seen@)[i as int] == n@);
            return true;
        }
        i = i + 1;
    }
    false
}

fn chain_ends_exec(pos: &PosMode, all: &[Monitor], seen: &mut Vec<String>, depth: u8) -> (r: bool)
    ensures
        r == chain_ends(pos@, views(all@), names(old(seen)@), depth as int),
        final(seen)@ == old(seen)@,
    decreases 9 - depth,
{
    if depth > 8 {
        return true;
    }
    let name = match pos {
        PosMode::Absolute(_, _) => {
            return true;
        },
        PosMode::RightOf(n, _) => n,
        PosMode::LeftOf(n, _) => n,
        PosMode::Above(n, _) => n,
        PosMode::Below(n, _) => n,
    };
    let k = find_monitor_index(all, name);
    proof {
        lemma_find_monitor(views(all@), name@);
    }
    if k >= all.len() {
        return true;
    }
    if seen_has(seen, name) {
        return false;
    }
    let ghost before = seen@;
    seen.push(name.clone());
    assert(names(seen@) =~= names(before).push(name@));
    assert(views(all@)[k as int] == all@[k as int]@);
    let r = chain_ends_exec(&all[k].new_pos, all, seen, depth + 1);
    seen.pop();
    assert(seen@ =~= before);
    r
}

/// The position reached by following `pos` through the reference outputs.
fn follow(pos: &PosMode, this: &Monitor, all: &[Monitor], depth: u8) -> (r: (i32, i32))
    requires
        chain_modes_ok(pos@, this@, views(all@), depth as int),
    ensures
        r == follow_spec(pos@, this@, views(all@), depth as int),
    decreases 9 - depth,
{
    if depth > 8 {
        return this.position;
    }
    let name = match pos {
        PosMode::Absolute(x, y) => {
            return (*x, *y);
        },
        PosMode::RightOf(n, _) => n,
        PosMode::LeftOf(n, _) => n,
        PosMode::Above(n, _) => n,
        PosMode::Below(n, _) => n,
    };
    let k = find_monitor_index(all, name);
    proof {
        lemma_find_monitor(views(all@), name@);
    }
    if k >= all.len() {
        return this.position;
    }
    let rm = &all[k];
    assert(views(all@)[k as int] == rm@);
    let rp = follow(&rm.new_pos, rm, all, depth + 1);
    let (rw, rh) = logical_size(rm);
    let (sw, sh) = logical_size(this);
    match pos {
        PosMode::RightOf(_, a) => (rp.0.wrapping_add(rw), rp.1.wrapping_add(offset_exec(*a, rh, sh))),
        PosMode::LeftOf(_, a) => (rp.0.wrapping_sub(sw), rp.1.wrapping_add(offset_exec(*a, rh, sh))),
        PosMode::Above(_, a) => (rp.0.wrapping_add(offset_exec(*a, rw, sw)), rp.1.wrapping_sub(sh)),
        PosMode::Below(_, a) => (rp.0.wrapping_add(offset_exec(*a, rw, sw)), rp.1.wrapping_add(rh)),
        PosMode::Absolute(x, y) => (*x, *y),
    }
}

/// Recursively resolve a PosMode to absolute (x, y) layout coordinates.
/// Falls back to the monitor's reported position on circular reference or missing ref.
pub fn resolve_abs(pos: &PosMode, this: &Monitor, all: &[Monitor], depth: u8) -> (r: (i32, i32))
    requires
        resolvable(pos@, this@, views(all@), depth as int),
    ensures
        r == resolve_spec(pos@, this@, views(all@), depth as int),
{
    let mut seen: Vec<String> = Vec::new();
    seen.push(this.name.clone());
    assert(names(seen@) =~= seq![this@.name]);
    if chain_ends_exec(pos, all, &mut seen, depth) {
        follow(pos, this, all, depth)
    } else {
        this.position
    }
}

/// The eight relative placements next to output `o`, in cycling order.
pub open spec fn rel_options(o: Seq<char>) -> Seq<PosModeView> {
    seq![
        PosModeView::Below(o, Align::Start),
        PosModeView::Below(o, Align::Center),
        PosModeView::RightOf(o, Align::Start),
        PosModeView::RightOf(o, Align::Center),
        PosModeView::Above(o, Align::Start),
        PosModeView::Above(o, Align::Center),
        PosModeView::LeftOf(o, Align::Start),
        PosModeView::LeftOf(o, Align::Center),
    ]
}

/// The relative placements next to each of `others`, in order.
pub open spec fn rel_options_all(others: Seq<Seq<char>>) -> Seq<PosModeView>
    decreases others.len(),
{
    if others.len() == 0 {
        seq![]
    } else {
        rel_options_all(others.subrange(0, others.len() - 1)) + rel_options(others[others.len() - 1])
    }
}

/// The absolute option offered while cycling: the current absolute placement,
/// or the origin when the current placement is relative.
pub open spec fn abs_option(cur: PosModeView) -> PosModeView {
    match cur {
        PosModeView::Absolute(x, y) => PosModeView::Absolute(x, y),
        _ => PosModeView::Absolute(0, 0),
    }
}

/// The ordered list of placements to cycle through.
pub open spec fn cycle_list_spec(cur: PosModeView, others: Seq<Seq<char>>) -> Seq<PosModeView> {
    let rels = rel_options_all(others);
    if rels.contains(abs_option(cur)) {
        rels
    } else {
        rels.push(abs_option(cur))
    }
}

pub open spec fn names(s: Seq<String>) -> Seq<Seq<char>> {
    s.map_values(|n: String| n@)
}

pub open spec fn pos_views(s: Seq<PosMode>) -> Seq<PosModeView> {
    s.map_values(|p: PosMode| p@)
}

/// Build the ordered list of position options for cycling through in the UI.
pub fn pos_cycle_list(cur: &PosMode, others: &[String]) -> (r: Vec<PosMode>)
    ensures
        pos_views(r@) == cycle_list_spec(cur@, names(others@)),
{
    let mut opts: Vec<PosMode> = Vec::new();
    let mut i: usize = 0;
    assert(names(others@).subrange(0, 0) =~= Seq::<Seq<char>>::empty());
    assert(pos_views(opts@) =~= Seq::<PosModeView>::empty());
    while i < others.len()
        invariant
            i <= others.len(),
            pos_views(opts@) == rel_options_all(names(others@).subrange(0, i as int)),
        decreases others.len() - i,
    {
        let o = &others[i];
        let ghost before = pos_views(opts@);
        opts.push(PosMode::Below(o.clone(), Align::Start));
        opts.push(PosMode::Below(o.clone(), Align::Center));
        opts.push(PosMode::RightOf(o.clone(), Align::Start));
        opts.push(PosMode::RightOf(o.clone(), Align::Center));
        opts.push(PosMode::Above(o.clone(), Align::Start));
        opts.push(PosMode::Above(o.clone(), Align::Center));
        opts.push(PosMode::LeftOf(o.clone(), Align::Start));
        opts.push(PosMode::LeftOf(o.clone(), Align::Center));
        let ghost taken = names(others@).subrange(0, i + 1);
        assert(taken.subrange(0, taken.len() - 1) =~= names(others@).subrange(0, i as int));
        assert(taken[taken.len() - 1] == o@);
        assert(pos_views(opts@) =~= before + rel_options(o@));
        i = i + 1;
    }
    assert(names(others@).subrange(0, others.len() as int) =~= names(others@));
    let abs = match cur {
        PosMode::Absolute(x, y) => PosMode::Absolute(*x, *y),
        _ => PosMode::Absolute(0, 0),
    };
    let mut found = false;
    let mut j: usize = 0;
    while j < opts.len()
        invariant
            j <= opts.len(),
            abs@ == abs_option(cur@),
            found == exists|k: int| 0 <= k < j && pos_views(opts@)[k] == abs@,
        decreases opts.len() - j,
    {
        let ghost pv = pos_views(opts@);
        assert(pv[j as int] == opts@[j as int]@);
        let hit = opts[j].same_as(&abs);
        proof {
            if found {
                let k0 = choose|k: int| 0 <= k < j && pv[k] == abs@;
                assert(0 <= k0 < j + 1 && pv[k0] == abs@);
            }
            if hit {
                assert(0 <= j < j + 1 && pv[j as int] == abs@);
            }
            if !found && !hit {
                assert forall|k: int| 0 <= k < j + 1 implies pv[k] != abs@ by {
                    if k < j {
                    }
                }
            }
        }
        found = found || hit;
        j = j + 1;
    }
    assert(found == pos_views(opts@).contains(abs@));
    if !found {
        let ghost before = pos_views(opts@);
        opts.push(abs);
        assert(pos_views(opts@) =~= before.push(abs_option(cur@)));
    }
    opts
}

} // verus!
