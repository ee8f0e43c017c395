//! Reading the text that `wlr-randr` prints into outputs.
//!
//! Each output starts at an unindented line whose first word is its name;
//! the lines indented by two spaces or a tab that follow describe it.
use vstd::prelude::*;
use crate::decimal::{parse_i32, parse_i32_spec, parse_u32, parse_u32_spec};
use crate::scale::{number_spec, read_number};
use crate::monitor::{Mode, Monitor, MonitorView, PosMode, PosModeView, views};
use crate::text::{
    chars_of, contains, ends_with, find, find_in, line_ranges, lines, pieces, range_contains,
    range_ends_with, range_starts_with, split, split_ranges, starts_with, string_of, trim,
    trim_range, word_ranges, words,
};

verus! {

/// What `parse_mode` reads from a mode line such as
/// `3440x1440 px, 59.973000 Hz (preferred, current)`: the first word is
/// `WIDTHxHEIGHT`, the third the refresh rate; there must be four words at least.
pub open spec fn parse_mode_spec(t: Seq<char>) -> Option<Mode> {
    let w = words(t);
    if w.len() < 4 {
        None
    } else {
        let d = split(w[0], 'x');
        if d.len() != 2 {
            None
        } else {
            match (parse_u32_spec(d[0]), parse_u32_spec(d[1]), number_spec(w[2])) {
                (Some(width), Some(height), Some(refresh)) => Some(
                    Mode {
                        width,
                        height,
                        refresh,
                        preferred: contains(t, "preferred"@),
                        current: contains(t, "current"@),
                    },
                ),
                _ => None,
            }
        }
    }
}

/// What is gathered about one output while reading its lines.
pub struct BlockView {
    pub name: Seq<char>,
    pub make: Seq<char>,
    pub model: Seq<char>,
    pub enabled: bool,
    pub modes: Seq<Mode>,
    pub pos: (i32, i32),
    pub transform: Seq<char>,
    pub scale: i64,
    pub adaptive: bool,
    pub in_modes: bool,
}

/// The defaults for an output named `name`.
pub open spec fn new_block(name: Seq<char>) -> BlockView {
    BlockView {
        name,
        make: seq![],
        model: seq![],
        enabled: true,
        modes: seq![],
        pos: (0, 0),
        transform: "normal"@,
        scale: 1_000_000,
        adaptive: false,
        in_modes: false,
    }
}

/// `t` without its first `p.len()` characters.
pub open spec fn after(t: Seq<char>, p: Seq<char>) -> Seq<char> {
    t.subrange(p.len() as int, t.len() as int)
}

/// The position in `X,Y`: each part trimmed and read as `i32`, `0` where that fails.
pub open spec fn position_spec(s: Seq<char>) -> (i32, i32) {
    let k = find(s, ',');
    let x = match parse_i32_spec(trim(s.subrange(0, k))) {
        Some(x) => x,
        None => 0,
    };
    let y = if k < s.len() {
        match parse_i32_spec(trim(s.subrange(k + 1, s.len() as int))) {
            Some(y) => y,
            None => 0,
        }
    } else {
        0
    };
    (x, y)
}

/// The effect of one trimmed description line `t` of an output.
pub open spec fn step_line(b: BlockView, t: Seq<char>) -> BlockView {
    if starts_with(t, "Make: "@) {
        BlockView { make: after(t, "Make: "@), in_modes: false, ..b }
    } else if starts_with(t, "Model: "@) {
        BlockView { model: after(t, "Model: "@), in_modes: false, ..b }
    } else if starts_with(t, "Enabled: "@) {
        BlockView { enabled: ends_with(t, "yes"@), in_modes: false, ..b }
    } else if t == "Modes:"@ {
        BlockView { in_modes: true, ..b }
    } else if starts_with(t, "Position: "@) {
        BlockView { pos: position_spec(after(t, "Position: "@)), in_modes: false, ..b }
    } else if starts_with(t, "Transform: "@) {
        BlockView { transform: after(t, "Transform: "@), in_modes: false, ..b }
    } else if starts_with(t, "Scale: "@) {
        BlockView {
            scale: match number_spec(trim(after(t, "Scale: "@))) {
                Some(s) => s,
                None => 1_000_000,
            },
            in_modes: false,
            ..b
        }
    } else if starts_with(t, "Adaptive Sync: "@) {
        BlockView { adaptive: ends_with(t, "enabled"@), in_modes: false, ..b }
    } else if b.in_modes && contains(t, "px,"@) {
        match parse_mode_spec(t) {
            Some(m) => BlockView { modes: b.modes.push(m), ..b },
            None => b,
        }
    } else {
        b
    }
}

/// The index of the first current mode, or `modes.len()` when none is current.
pub open spec fn current_index(modes: Seq<Mode>) -> int
    decreases modes.len(),
{
    if modes.len() == 0 {
        0
    } else if modes[0].current {
        0
    } else {
        1 + current_index(modes.subrange(1, modes.len() as int))
    }
}

/// The index of the first current mode, or `0` when none is current.
pub open spec fn first_current(modes: Seq<Mode>) -> int {
    if current_index(modes) < modes.len() {
        current_index(modes)
    } else {
        0
    }
}

pub proof fn lemma_current_index(modes: Seq<Mode>)
    ensures
        0 <= current_index(modes) <= modes.len(),
        current_index(modes) < modes.len() ==> modes[current_index(modes)].current,
        forall|j: int| 0 <= j < current_index(modes) ==> !modes[j].current,
    decreases modes.len(),
{
    if modes.len() > 0 && !modes[0].current {
        let t = modes.subrange(1, modes.len() as int);
        lemma_current_index(t);
        assert forall|j: int| 0 <= j < current_index(modes) implies !modes[j].current by {
            if j > 0 {
                assert(modes[j] == t[j - 1]);
            }
        }
    }
}

/// The output described by a finished block; its pending settings are the reported ones.
pub open spec fn monitor_of(b: BlockView) -> MonitorView {
    let cur = first_current(b.modes);
    MonitorView {
        name: b.name,
        make: b.make,
        model: b.model,
        enabled: b.enabled,
        modes: b.modes,
        cur_mode: cur,
        position: b.pos,
        transform: b.transform,
        scale: b.scale,
        adaptive_sync: b.adaptive,
        new_mode: cur,
        new_pos: PosModeView::Absolute(b.pos.0, b.pos.1),
        new_transform: b.transform,
        new_scale: b.scale,
        new_adaptive: b.adaptive,
        new_enabled: b.enabled,
    }
}

/// The outputs a finished block yields: none when it lists no mode.
pub open spec fn finish(cur: Option<BlockView>) -> Seq<MonitorView> {
    match cur {
        Some(b) => if b.modes.len() == 0 {
            seq![]
        } else {
            seq![monitor_of(b)]
        },
        None => seq![],
    }
}

/// A description line of the current output: indented by two spaces or a tab.
pub open spec fn indented(l: Seq<char>) -> bool {
    starts_with(l, "  "@) || starts_with(l, "\t"@)
}

/// The outputs described by `ls[i..]`, with `cur` the output being read.
/// A line that is not a description line ends the current output; it starts a
/// new one named by its first word unless it is empty, begins with a space or
/// has no word.
pub open spec fn parse_lines(ls: Seq<Seq<char>>, i: int, cur: Option<BlockView>) -> Seq<MonitorView>
    decreases ls.len() - i,
{
    if i < 0 || i >= ls.len() {
        finish(cur)
    } else if cur is Some && indented(ls[i]) {
        parse_lines(ls, i + 1, Some(step_line(cur->0, trim(ls[i]))))
    } else {
        let l = ls[i];
        let next = if starts_with(l, " "@) || l.len() == 0 || words(l).len() == 0 {
            None
        } else {
            Some(new_block(words(l)[0]))
        };
        finish(cur) + parse_lines(ls, i + 1, next)
    }
}

/// The outputs in the text `s`, in order.
pub open spec fn parse_spec(s: Seq<char>) -> Seq<MonitorView> {
    parse_lines(lines(s), 0, None)
}

/// The lines of one output read so far.
struct Block {
    name: String,
    make: String,
    model: String,
    enabled: bool,
    modes: Vec<Mode>,
    pos: (i32, i32),
    transform: String,
    scale: i64,
    adaptive: bool,
    in_modes: bool,
}

impl View for Block {
    type V = BlockView;

    closed spec fn view(&self) -> BlockView {
        BlockView {
            name: self.name@,
            make: self.make@,
            model: self.model@,
            enabled: self.enabled,
            modes: self.modes@,
            pos: self.pos,
            transform: self.transform@,
            scale: self.scale,
            adaptive: self.adaptive,
            in_modes: self.in_modes,
        }
    }
}

fn block_new(name: String) -> (b: Block)
    ensures
        b@ == new_block(name@),
{
    Block {
        name,
        make: String::new(),
        model: String::new(),
        enabled: true,
        modes: Vec::new(),
        pos: (0, 0),
        transform: String::from_str("normal"),
        scale: 1_000_000,
        adaptive: false,
        in_modes: false,
    }
}

/// Reads a mode line `v[a..b]` (already trimmed).
fn parse_mode(v: &Vec<char>, a: usize, b: usize) -> (r: Option<Mode>)
    requires
        a <= b <= v.len(),
    ensures
        r == parse_mode_spec(v@.subrange(a as int, b as int)),
{
    let ghost t = v@.subrange(a as int, b as int);
    let w = word_ranges(v, a, b);
    if w.len() < 4 {
        return None;
    }
    let (w0a, w0b) = w[0];
    let (w2a, w2b) = w[2];
    assert(pieces(v@, w@)[0] == v@.subrange(w0a as int, w0b as int));
    assert(pieces(v@, w@)[2] == v@.subrange(w2a as int, w2b as int));
    let d = split_ranges(v, w0a, w0b, 'x');
    if d.len() != 2 {
        return None;
    }
    let (d0a, d0b) = d[0];
    let (d1a, d1b) = d[1];
    assert(pieces(v@, d@)[0] == v@.subrange(d0a as int, d0b as int));
    assert(pieces(v@, d@)[1] == v@.subrange(d1a as int, d1b as int));
    let width = parse_u32(v, d0a, d0b);
    let height = parse_u32(v, d1a, d1b);
    let refresh = read_number(v, w2a, w2b);
    match (width, height, refresh) {
        (Some(width), Some(height), Some(refresh)) => {
            let preferred = range_contains(v, a, b, &chars_of("preferred"));
            let current = range_contains(v, a, b, &chars_of("current"));
            Some(Mode { width, height, refresh, preferred, current })
        },
        _ => None,
    }
}

/// Reads `X,Y` from `v[a..b]`.
fn parse_position(v: &Vec<char>, a: usize, b: usize) -> (r: (i32, i32))
    requires
        a <= b <= v.len(),
    ensures
        r == position_spec(v@.subrange(a as int, b as int)),
{
    let ghost s = v@.subrange(a as int, b as int);
    let k = find_in(v, a, b, ',');
    assert(v@.subrange(a as int, k as int) =~= s.subrange(0, k - a));
    let (xa, xb) = trim_range(v, a, k);
    let x = match parse_i32(v, xa, xb) {
        Some(x) => x,
        None => 0,
    };
    let y = if k < b {
        assert(v@.subrange(k + 1, b as int) =~= s.subrange(k - a + 1, s.len() as int));
        let (ya, yb) = trim_range(v, k + 1, b);
        match parse_i32(v, ya, yb) {
            Some(y) => y,
            None => 0,
        }
    } else {
        0
    };
    (x, y)
}

/// Whether `v[a..b]` begins with the literal `p`, and where the rest starts.
fn prefixed(v: &Vec<char>, a: usize, b: usize, p: &str) -> (r: (bool, usize))
    requires
        a <= b <= v.len(),
    ensures
        r.0 == starts_with(v@.subrange(a as int, b as int), p@),
        r.0 ==> a <= r.1 <= b && v@.subrange(r.1 as int, b as int) == after(
            v@.subrange(a as int, b as int),
            p@,
        ),
{
    let pv = chars_of(p);
    let ok = range_starts_with(v, a, b, &pv);
    if ok {
        assert(v@.subrange(a + pv.len(), b as int) =~= after(v@.subrange(a as int, b as int), p@));
        (true, a + pv.len())
    } else {
        (false, a)
    }
}

/// Applies the trimmed description line `v[a..b]` to the output being read.
fn step_block(blk: &mut Block, v: &Vec<char>, a: usize, b: usize)
    requires
        a <= b <= v.len(),
    ensures
        final(blk)@ == step_line(old(blk)@, v@.subrange(a as int, b as int)),
{
    let ghost t = v@.subrange(a as int, b as int);
    let (ok, c) = prefixed(v, a, b, "Make: ");
    if ok {
        blk.make = string_of(v, c, b);
        blk.in_modes = false;
        return;
    }
    let (ok, c) = prefixed(v, a, b, "Model: ");
    if ok {
        blk.model = string_of(v, c, b);
        blk.in_modes = false;
        return;
    }
    let (ok, _) = prefixed(v, a, b, "Enabled: ");
    if ok {
        blk.enabled = range_ends_with(v, a, b, &chars_of("yes"));
        blk.in_modes = false;
        return;
    }
    let mv = chars_of("Modes:");
    if b - a == mv.len() && range_starts_with(v, a, b, &mv) {
        assert(t =~= t.subrange(0, mv.len() as int));
        blk.in_modes = true;
        return;
    }
    proof {
        if t == "Modes:"@ {
            assert(t.subrange(0, mv.len() as int) =~= t);
        }
    }
    let (ok, c) = prefixed(v, a, b, "Position: ");
    if ok {
        blk.in_modes = false;
        blk.pos = parse_position(v, c, b);
        return;
    }
    let (ok, c) = prefixed(v, a, b, "Transform: ");
    if ok {
        blk.transform = string_of(v, c, b);
        blk.in_modes = false;
        return;
    }
    let (ok, c) = prefixed(v, a, b, "Scale: ");
    if ok {
        let (sa, sb) = trim_range(v, c, b);
        blk.scale = match read_number(v, sa, sb) {
            Some(s) => s,
            None => 1_000_000,
        };
        blk.in_modes = false;
        return;
    }
    let (ok, _) = prefixed(v, a, b, "Adaptive Sync: ");
    if ok {
        blk.adaptive = range_ends_with(v, a, b, &chars_of("enabled"));
        blk.in_modes = false;
        return;
    }
    if blk.in_modes && range_contains(v, a, b, &chars_of("px,")) {
        match parse_mode(v, a, b) {
            Some(m) => {
                blk.modes.push(m);
            },
            None => {},
        }
    }
}

spec fn opt_view(c: Option<Block>) -> Option<BlockView> {
    match c {
        Some(b) => Some(b@),
        None => None,
    }
}

/// Appends the output that a finished block yields, if any.
fn finish_block(b: Block, out: &mut Vec<Monitor>)
    ensures
        views(final(out)@) == views(old(out)@) + finish(Some(b@)),
{
    let ghost bv = b@;
    let ghost before = views(out@);
    if b.modes.len() == 0 {
        assert(views(out@) =~= before + finish(Some(bv)));
        return;
    }
    proof {
        lemma_current_index(bv.modes);
    }
    let mut k: usize = 0;
    while k < b.modes.len() && !b.modes[k].current
        invariant
            k <= b.modes.len(),
            b.modes@ == bv.modes,
            forall|j: int| 0 <= j < k ==> !bv.modes[j].current,
            current_index(bv.modes) >= k,
        decreases b.modes.len() - k,
    {
        proof {
            lemma_current_index(bv.modes);
        }
        k = k + 1;
    }
    proof {
        lemma_current_index(bv.modes);
        if k < b.modes.len() {
            assert(current_index(bv.modes) == k) by {
                if current_index(bv.modes) > k {
                    assert(!bv.modes[k as int].current);
                }
            }
        } else {
            assert(current_index(bv.modes) == k);
        }
    }
    let cur = if k < b.modes.len() {
        k
    } else {
        0
    };
    let m = Monitor {
        name: b.name,
        make: b.make,
        model: b.model,
        enabled: b.enabled,
        modes: b.modes,
        cur_mode: cur,
        position: b.pos,
        transform: b.transform.clone(),
        scale: b.scale,
        adaptive_sync: b.adaptive,
        new_mode: cur,
        new_pos: PosMode::Absolute(b.pos.0, b.pos.1),
        new_transform: b.transform,
        new_scale: b.scale,
        new_adaptive: b.adaptive,
        new_enabled: b.enabled,
    };
    assert(m@ == monitor_of(bv));
    out.push(m);
    assert(views(out@) =~= before + finish(Some(bv)));
}

pub fn parse_output(text: &str) -> (r: Vec<Monitor>)
    ensures
        views(r@) == parse_spec(text@),
{
    let v = chars_of(text);
    let lr = line_ranges(&v);
    let ghost ls = lines(v@);
    let mut result: Vec<Monitor> = Vec::new();
    let mut cur: Option<Block> = None;
    let mut i: usize = 0;
    assert(views(result@) =~= Seq::<MonitorView>::empty());
    assert(Seq::<MonitorView>::empty() + parse_lines(ls, 0, None) =~= parse_spec(text@));
    while i < lr.len()
        invariant
            i <= lr.len(),
            ls == pieces(v@, lr@),
            ls == lines(v@),
            v@ == text@,
            crate::text::ranges_within(lr@, 0, v.len() as int),
            views(result@) + parse_lines(ls, i as int, opt_view(cur)) == parse_spec(text@),
        decreases lr.len() - i,
    {
        let (lo, hi) = lr[i];
        let ghost l = ls[i as int];
        assert(l == v@.subrange(lo as int, hi as int));
        let ind = range_starts_with(&v, lo, hi, &chars_of("  ")) || range_starts_with(
            &v,
            lo,
            hi,
            &chars_of("\t"),
        );
        if cur.is_some() && ind {
            let (a, b) = trim_range(&v, lo, hi);
            match cur {
                Some(mut bk) => {
                    let ghost before = bk@;
                    step_block(&mut bk, &v, a, b);
                    assert(bk@ == step_line(before, trim(l)));
                    cur = Some(bk);
                },
                None => {},
            }
        } else {
            let ghost prev = opt_view(cur);
            let ghost before = views(result@);
            match cur {
                Some(bk) => {
                    finish_block(bk, &mut result);
                },
                None => {
                    assert(views(result@) =~= before + finish(prev));
                },
            }
            cur = None;
            let sp = range_starts_with(&v, lo, hi, &chars_of(" "));
            if !sp && lo < hi {
                let w = word_ranges(&v, lo, hi);
                if w.len() > 0 {
                    let (wa, wb) = w[0];
                    assert(pieces(v@, w@)[0] == v@.subrange(wa as int, wb as int));
                    cur = Some(block_new(string_of(&v, wa, wb)));
                }
            }
            assert(views(result@) + parse_lines(ls, i + 1, opt_view(cur)) =~= before + (finish(prev)
                + parse_lines(ls, i + 1, opt_view(cur))));
        }
        i = i + 1;
    }
    let ghost before = views(result@);
    let ghost prev = opt_view(cur);
    match cur {
        Some(bk) => {
            finish_block(bk, &mut result);
        },
        None => {
            assert(views(result@) =~= before + finish(prev));
        },
    }
    result
}

/// Well formed, its reported mode the first current one, and every pending
/// setting a copy of the reported one.
pub open spec fn clean(m: MonitorView) -> bool {
    &&& m.wf()
    &&& !m.dirty()
    &&& m.modes.len() > 0
    &&& m.cur_mode == first_current(m.modes)
    &&& m.new_mode == m.cur_mode
    &&& m.new_pos == PosModeView::Absolute(m.position.0, m.position.1)
    &&& m.new_transform == m.transform
    &&& m.new_scale == m.scale
    &&& m.new_adaptive == m.adaptive_sync
    &&& m.new_enabled == m.enabled
}

proof fn lemma_finish_clean(cur: Option<BlockView>)
    ensures
        forall|k: int| 0 <= k < finish(cur).len() ==> clean(#[trigger] finish(cur)[k]),
{
    if let Some(b) = cur {
        if b.modes.len() > 0 {
            lemma_current_index(b.modes);
            let m = monitor_of(b);
            assert forall|f: int| 0 <= f < crate::consts::N_FIELDS implies !#[trigger] m.field_dirty(
                f,
            ) by {}
            assert(finish(cur)[0] == m);
        }
    }
}

proof fn lemma_parse_lines_clean(ls: Seq<Seq<char>>, i: int, cur: Option<BlockView>)
    ensures
        forall|k: int|
            0 <= k < parse_lines(ls, i, cur).len() ==> clean(#[trigger] parse_lines(ls, i, cur)[k]),
    decreases ls.len() - i,
{
    lemma_finish_clean(cur);
    if i < 0 || i >= ls.len() {
    } else if cur is Some && indented(ls[i]) {
        lemma_parse_lines_clean(ls, i + 1, Some(step_line(cur->0, trim(ls[i]))));
        assert(parse_lines(ls, i, cur) == parse_lines(ls, i + 1, Some(step_line(cur->0, trim(ls[i])))));
    } else {
        let l = ls[i];
        let next = if starts_with(l, " "@) || l.len() == 0 || words(l).len() == 0 {
            None
        } else {
            Some(new_block(words(l)[0]))
        };
        lemma_parse_lines_clean(ls, i + 1, next);
        let a = finish(cur);
        let b = parse_lines(ls, i + 1, next);
        assert(parse_lines(ls, i, cur) == a + b);
        assert forall|k: int| 0 <= k < (a + b).len() implies clean(#[trigger] (a + b)[k]) by {
            if k < a.len() {
                assert((a + b)[k] == a[k]);
            } else {
                assert((a + b)[k] == b[k - a.len()]);
            }
        }
    }
}

/// Every output read from `wlr-randr`'s text has a mode list that its
/// reported and pending mode index, its reported mode is the first one marked
/// current (the first one when none is), and nothing is pending: each pending
/// setting is a copy of the reported one.
pub proof fn law_parsed_outputs_are_clean(s: Seq<char>)
    ensures
        forall|k: int| 0 <= k < parse_spec(s).len() ==> clean(#[trigger] parse_spec(s)[k]),
        forall|k: int| 0 <= k < parse_spec(s).len() ==> (#[trigger] parse_spec(s)[k]).wf(),
        forall|k: int| 0 <= k < parse_spec(s).len() ==> !(#[trigger] parse_spec(s)[k]).dirty(),
{
    lemma_parse_lines_clean(lines(s), 0, None);
}

} // verus!
