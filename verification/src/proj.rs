//! Projection presets: one key switches all outputs to a common arrangement.
use vstd::prelude::*;
use crate::monitor::{Align, Monitor, MonitorView, PosMode, PosModeView, views};

verus! {

#[derive(Clone, Copy, PartialEq, Eq, Structural, Debug)]
pub enum Proj {
    Extend,
    ExtOnly,
    LaptopOnly,
    Custom,
}

/// The position of a preset in the cycling order.
pub open spec fn proj_index(p: Proj) -> int {
    match p {
        Proj::Extend => 0,
        Proj::ExtOnly => 1,
        Proj::LaptopOnly => 2,
        Proj::Custom => 3,
    }
}

/// The preset at position `i` of the cycling order (`0 <= i < 4`).
pub open spec fn proj_at(i: int) -> Proj {
    if i == 0 {
        Proj::Extend
    } else if i == 1 {
        Proj::ExtOnly
    } else if i == 2 {
        Proj::LaptopOnly
    } else {
        Proj::Custom
    }
}

pub open spec fn proj_label(p: Proj) -> Seq<char> {
    match p {
        Proj::Extend => "Extend"@,
        Proj::ExtOnly => "Ext Only"@,
        Proj::LaptopOnly => "Laptop Only"@,
        Proj::Custom => "Custom"@,
    }
}

/// The preset `d` steps further in the cycle of the four presets.
pub open spec fn step_spec(p: Proj, d: int) -> Proj {
    proj_at((proj_index(p) + d) % 4)
}

impl Proj {
    pub fn label(self) -> (r: &'static str)
        ensures
            r@ == proj_label(self),
    {
        match self {
            Proj::Extend => "Extend",
            Proj::ExtOnly => "Ext Only",
            Proj::LaptopOnly => "Laptop Only",
            Proj::Custom => "Custom",
        }
    }

    fn index(self) -> (r: u64)
        ensures
            r == proj_index(self),
    {
        match self {
            Proj::Extend => 0,
            Proj::ExtOnly => 1,
            Proj::LaptopOnly => 2,
            Proj::Custom => 3,
        }
    }

    /// The preset at position `i` of the cycling order.
    pub fn at(i: u64) -> (r: Proj)
        requires
            i < 4,
        ensures
            r == proj_at(i as int),
    {
        if i == 0 {
            Proj::Extend
        } else if i == 1 {
            Proj::ExtOnly
        } else if i == 2 {
            Proj::LaptopOnly
        } else {
            Proj::Custom
        }
    }

    /// All presets, in cycling order.
    pub fn all() -> (r: Vec<Proj>)
        ensures
            r@ == seq![Proj::Extend, Proj::ExtOnly, Proj::LaptopOnly, Proj::Custom],
    {
        vec![Proj::Extend, Proj::ExtOnly, Proj::LaptopOnly, Proj::Custom]
    }

    pub fn step(self, d: i32) -> (r: Proj)
        ensures
            r == step_spec(self, d as int),
    {
        let i = self.index();
        let x: u64 = ((i as i64) + (d as i64) + 0x2_0000_0000) as u64;
        proof {
            assert(((proj_index(self) + d) + 0x2_0000_0000) % 4 == (proj_index(self) + d) % 4)
                by (nonlinear_arith);
        }
        Proj::at(x % 4)
    }
}

/// The index of the first output that is not a laptop panel, or the length.
pub open spec fn first_external(ms: Seq<MonitorView>) -> int
    decreases ms.len(),
{
    if ms.len() == 0 {
        0
    } else if !ms[0].is_laptop() {
        0
    } else {
        1 + first_external(ms.subrange(1, ms.len() as int))
    }
}

/// What a preset makes of the pending settings of each output.
pub open spec fn proj_spec(ms: Seq<MonitorView>, proj: Proj) -> Seq<MonitorView> {
    match proj {
        Proj::Extend => Seq::new(
            ms.len(),
            |i: int|
                {
                    let m = MonitorView { new_enabled: true, ..ms[i] };
                    if !m.is_laptop() {
                        MonitorView { new_pos: PosModeView::Absolute(0, 0), ..m }
                    } else if first_external(ms) < ms.len() {
                        MonitorView {
                            new_pos: PosModeView::Below(ms[first_external(ms)].name, Align::Center),
                            ..m
                        }
                    } else {
                        m
                    }
                },
        ),
        Proj::ExtOnly => Seq::new(
            ms.len(),
            |i: int| MonitorView { new_enabled: !ms[i].is_laptop(), ..ms[i] },
        ),
        Proj::LaptopOnly => Seq::new(
            ms.len(),
            |i: int| MonitorView { new_enabled: ms[i].is_laptop(), ..ms[i] },
        ),
        Proj::Custom => ms,
    }
}

/// A preset changes only the pending placement and enabled flag of each output.
pub proof fn lemma_proj_keeps(ms: Seq<MonitorView>, proj: Proj)
    ensures
        proj_spec(ms, proj).len() == ms.len(),
        forall|i: int|
            0 <= i < ms.len() ==> {
                let m = #[trigger] proj_spec(ms, proj)[i];
                &&& m.name == ms[i].name
                &&& m.make == ms[i].make
                &&& m.model == ms[i].model
                &&& m.modes == ms[i].modes
                &&& m.cur_mode == ms[i].cur_mode
                &&& m.new_mode == ms[i].new_mode
                &&& m.position == ms[i].position
                &&& m.enabled == ms[i].enabled
                &&& m.transform == ms[i].transform
                &&& m.new_transform == ms[i].new_transform
                &&& m.scale == ms[i].scale
                &&& m.new_scale == ms[i].new_scale
                &&& m.adaptive_sync == ms[i].adaptive_sync
                &&& m.new_adaptive == ms[i].new_adaptive
            },
{
}

pub(crate) proof fn lemma_first_external(ms: Seq<MonitorView>)
    ensures
        0 <= first_external(ms) <= ms.len(),
        first_external(ms) < ms.len() ==> !ms[first_external(ms)].is_laptop(),
        forall|j: int| 0 <= j < first_external(ms) ==> ms[j].is_laptop(),
    decreases ms.len(),
{
    if ms.len() > 0 && ms[0].is_laptop() {
        let t = ms.subrange(1, ms.len() as int);
        lemma_first_external(t);
        assert forall|j: int| 0 <= j < first_external(ms) implies ms[j].is_laptop() by {
            if j > 0 {
                assert(ms[j] == t[j - 1]);
            }
        }
    }
}

/// The name of the first output that is not a laptop panel.
fn first_external_name(mons: &Vec<Monitor>) -> (r: Option<String>)
    ensures
        first_external(views(mons@)) < mons.len() <==> r is Some,
        r matches Some(n) ==> n@ == views(mons@)[first_external(views(mons@))].name,
{
    let mut i: usize = 0;
    while i < mons.len()
        invariant
            i <= mons.len(),
            forall|j: int| 0 <= j < i ==> (#[trigger] views(mons@)[j]).is_laptop(),
        decreases mons.len() - i,
    {
        assert(views(mons@)[i as int] == mons@[i as int]@);
        proof {
            lemma_first_external(views(mons@));
        }
        if !mons[i].is_laptop() {
            assert(first_external(views(mons@)) == i) by {
                if first_external(views(mons@)) < i {
                    assert(views(mons@)[first_external(views(mons@))].is_laptop());
                }
            }
            return Some(mons[i].name.clone());
        }
        i = i + 1;
    }
    proof {
        lemma_first_external(views(mons@));
        if first_external(views(mons@)) < mons.len() {
            assert(views(mons@)[first_external(views(mons@))].is_laptop());
        }
    }
    None
}

/// Sets the pending placement and enabled flag of output `i`.
fn set_pending(mons: &mut Vec<Monitor>, i: usize, pos: Option<PosMode>, enabled: bool)
    requires
        i < old(mons).len(),
    ensures
        final(mons).len() == old(mons).len(),
        views(final(mons)@) == views(old(mons)@).update(
            i as int,
            match pos {
                Some(p) => MonitorView { new_pos: p@, new_enabled: enabled, ..old(mons)@[i as int]@ },
                None => MonitorView { new_enabled: enabled, ..old(mons)@[i as int]@ },
            },
        ),
{
    let ghost prev = mons@;
    mons[i].new_enabled = enabled;
    match pos {
        Some(p) => {
            mons[i].new_pos = p;
        },
        None => {},
    }
    assert(forall|j: int| 0 <= j < prev.len() && j != i ==> mons@[j] == prev[j]);
    assert(views(mons@) =~= views(prev).update(
        i as int,
        match pos {
            Some(p) => MonitorView { new_pos: p@, new_enabled: enabled, ..prev[i as int]@ },
            None => MonitorView { new_enabled: enabled, ..prev[i as int]@ },
        },
    ));
}

/// Applies a projection preset to the pending settings of all outputs.
pub fn apply_proj(mons: &mut Vec<Monitor>, proj: Proj)
    ensures
        views(final(mons)@) == proj_spec(views(old(mons)@), proj),
{
    let first_ext = first_external_name(mons);
    let ghost ms = views(old(mons)@);
    let n = mons.len();
    match proj {
        Proj::Extend => {
            let mut i: usize = 0;
            while i < n
                invariant
                    n == mons.len() == ms.len(),
                    i <= n,
                    proj == Proj::Extend,
                    first_external(ms) < n <==> first_ext is Some,
                    first_ext matches Some(e) ==> first_external(ms) < n && e@ == ms[first_external(
                        ms,
                    )].name,
                    forall|j: int| 0 <= j < i ==> views(mons@)[j] == proj_spec(ms, proj)[j],
                    forall|j: int| i <= j < n ==> views(mons@)[j] == ms[j],
                decreases n - i,
            {
                assert(views(mons@)[i as int] == mons@[i as int]@);
                let laptop = mons[i].is_laptop();
                let pos = if !laptop {
                    Some(PosMode::Absolute(0, 0))
                } else {
                    match &first_ext {
                        Some(e) => Some(PosMode::Below(e.clone(), Align::Center)),
                        None => None,
                    }
                };
                let ghost before = mons@;
                assert(before[i as int]@ == ms[i as int]);
                set_pending(mons, i, pos, true);
                assert(views(mons@)[i as int] == proj_spec(ms, proj)[i as int]);
                i = i + 1;
            }
        },
        Proj::ExtOnly => {
            let mut i: usize = 0;
            while i < n
                invariant
                    n == mons.len() == ms.len(),
                    i <= n,
                    proj == Proj::ExtOnly,
                    forall|j: int| 0 <= j < i ==> views(mons@)[j] == proj_spec(ms, proj)[j],
                    forall|j: int| i <= j < n ==> views(mons@)[j] == ms[j],
                decreases n - i,
            {
                assert(views(mons@)[i as int] == mons@[i as int]@);
                let laptop = mons[i].is_laptop();
                let ghost before = mons@;
                assert(before[i as int]@ == ms[i as int]);
                set_pending(mons, i, None, !laptop);
                assert(views(mons@)[i as int] == proj_spec(ms, proj)[i as int]);
                i = i + 1;
            }
        },
        Proj::LaptopOnly => {
            let mut i: usize = 0;
            while i < n
                invariant
                    n == mons.len() == ms.len(),
                    i <= n,
                    proj == Proj::LaptopOnly,
                    forall|j: int| 0 <= j < i ==> views(mons@)[j] == proj_spec(ms, proj)[j],
                    forall|j: int| i <= j < n ==> views(mons@)[j] == ms[j],
                decreases n - i,
            {
                assert(views(mons@)[i as int] == mons@[i as int]@);
                let laptop = mons[i].is_laptop();
                let ghost before = mons@;
                assert(before[i as int]@ == ms[i as int]);
                set_pending(mons, i, None, laptop);
                assert(views(mons@)[i as int] == proj_spec(ms, proj)[i as int]);
                i = i + 1;
            }
        },
        Proj::Custom => {},
    }
    assert(views(mons@) =~= proj_spec(ms, proj));
}


/// Outputs with the same names, in order, have their first external output at
/// the same index.
proof fn lemma_first_external_names(x: Seq<MonitorView>, y: Seq<MonitorView>)
    requires
        x.len() == y.len(),
        forall|i: int| 0 <= i < x.len() ==> (#[trigger] x[i]).name == y[i].name,
    ensures
        first_external(x) == first_external(y),
    decreases x.len(),
{
    if x.len() > 0 {
        let tx = x.subrange(1, x.len() as int);
        let ty = y.subrange(1, y.len() as int);
        assert forall|i: int| 0 <= i < tx.len() implies (#[trigger] tx[i]).name == ty[i].name by {
            assert(tx[i] == x[i + 1]);
            assert(ty[i] == y[i + 1]);
        }
        lemma_first_external_names(tx, ty);
        assert(x[0].name == y[0].name);
    }
}

/// Switching to a preset twice is switching to it once.
pub proof fn law_proj_twice(ms: Seq<MonitorView>, p: Proj)
    ensures
        proj_spec(proj_spec(ms, p), p) == proj_spec(ms, p),
{
    let once = proj_spec(ms, p);
    lemma_proj_keeps(ms, p);
    lemma_first_external_names(once, ms);
    lemma_first_external(ms);
    let twice = proj_spec(once, p);
    assert forall|i: int| 0 <= i < ms.len() implies #[trigger] twice[i] == once[i] by {
        assert(once[i].is_laptop() == ms[i].is_laptop());
        if p == Proj::Extend && first_external(ms) < ms.len() {
            assert(once[first_external(ms)].name == ms[first_external(ms)].name);
        }
    }
    assert(twice =~= once);
}
} // verus!
