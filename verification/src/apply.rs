//! The `wlr-randr` command line that applies the pending settings.
use vstd::prelude::*;
use crate::consts::F_SCALE;
use crate::decimal::{fixed_str, int_str, nat_str, push_fixed, push_int, push_nat};
use crate::monitor::{
    names, resolvable, resolve_abs, resolve_spec, views, Mode, Monitor, MonitorView,
};
use crate::text::{push_str, trim, trim_range, chars_of, string_of};

verus! {

/// `WIDTHxHEIGHT@R.RRRHz`, the argument of `--mode`.
pub open spec fn mode_arg(md: Mode) -> Seq<char> {
    nat_str(md.width as nat) + "x"@ + nat_str(md.height as nat) + "@"@ + fixed_str(
        md.refresh as int,
        3,
    ) + "Hz"@
}

/// The `wlr-randr` arguments for one output: `--output NAME`, then `--off` for
/// an output to be disabled; otherwise `--on` when it is off now, `--mode` when
/// the mode changes, always `--pos` with the resolved position, and `--scale`,
/// `--transform` and `--adaptive-sync` when those change.
pub open spec fn build_args_spec(m: MonitorView, all: Seq<MonitorView>) -> Seq<Seq<char>> {
    let head = seq!["--output"@, m.name];
    if !m.new_enabled {
        head.push("--off"@)
    } else {
        let p = resolve_spec(m.new_pos, m, all, 0);
        head + (if !m.enabled {
            seq!["--on"@]
        } else {
            seq![]
        }) + (if m.new_mode != m.cur_mode {
            seq!["--mode"@, mode_arg(m.modes[m.new_mode])]
        } else {
            seq![]
        }) + seq!["--pos"@, int_str(p.0 as int) + ","@ + int_str(p.1 as int)] + (if m.field_dirty(
            F_SCALE as int,
        ) {
            seq!["--scale"@, fixed_str(m.new_scale as int, 6)]
        } else {
            seq![]
        }) + (if m.new_transform != m.transform {
            seq!["--transform"@, m.new_transform]
        } else {
            seq![]
        }) + (if m.new_adaptive != m.adaptive_sync {
            seq![
                "--adaptive-sync"@,
                if m.new_adaptive {
                    "enabled"@
                } else {
                    "disabled"@
                },
            ]
        } else {
            seq![]
        })
    }
}

fn lit(s: &str) -> (r: String)
    ensures
        r@ == s@,
{
    String::from_str(s)
}

fn push_lit(a: &mut Vec<String>, s: &str)
    ensures
        names(final(a)@) == names(old(a)@).push(s@),
{
    let ghost before = a@;
    a.push(String::from_str(s));
    assert(names(a@) =~= names(before).push(s@));
}

fn push_string(a: &mut Vec<String>, s: String)
    ensures
        names(final(a)@) == names(old(a)@).push(s@),
{
    let ghost before = a@;
    a.push(s);
    assert(names(a@) =~= names(before).push(s@));
}

/// What building an output's arguments reads: for an output to be enabled,
/// its pending mode when that changes, and the modes that resolving its
/// placement reads.
pub open spec fn args_ok(m: MonitorView, all: Seq<MonitorView>) -> bool {
    m.new_enabled ==> (m.new_mode != m.cur_mode ==> m.mode_ok()) && resolvable(m.new_pos, m, all, 0)
}

/// Every output's arguments can be built.
pub open spec fn all_args_ok(ms: Seq<MonitorView>) -> bool {
    forall|i: int| 0 <= i < ms.len() ==> args_ok(#[trigger] ms[i], ms)
}

pub fn build_args(m: &Monitor, all: &[Monitor]) -> (r: Vec<String>)
    requires
        args_ok(m@, views(all@)),
    ensures
        names(r@) == build_args_spec(m@, views(all@)),
{
    let mut a: Vec<String> = Vec::new();
    assert(names(a@) =~= Seq::<Seq<char>>::empty());
    push_lit(&mut a, "--output");
    push_string(&mut a, m.name.clone());
    if !m.new_enabled {
        push_lit(&mut a, "--off");
        assert(names(a@) =~= build_args_spec(m@, views(all@)));
        return a;
    }
    let ghost head = names(a@);
    if !m.enabled {
        push_lit(&mut a, "--on");
    }
    let ghost s1 = names(a@);
    if m.new_mode != m.cur_mode {
        let md = m.modes[m.new_mode];
        push_lit(&mut a, "--mode");
        let mut t = String::new();
        push_nat(&mut t, md.width as u64);
        push_str(&mut t, "x");
        push_nat(&mut t, md.height as u64);
        push_str(&mut t, "@");
        push_fixed(&mut t, md.refresh, 3);
        push_str(&mut t, "Hz");
        assert(t@ =~= mode_arg(md));
        push_string(&mut a, t);
    }
    let ghost s2 = names(a@);
    // Always emit --pos — partial omission lets the compositor decide, which causes wrong layouts.
    let abs = resolve_abs(&m.new_pos, m, all, 0);
    push_lit(&mut a, "--pos");
    let mut t = String::new();
    push_int(&mut t, abs.0 as i64);
    push_str(&mut t, ",");
    push_int(&mut t, abs.1 as i64);
    push_string(&mut a, t);
    let ghost s3 = names(a@);
    if m.field_dirty(F_SCALE) {
        push_lit(&mut a, "--scale");
        let mut t = String::new();
        push_fixed(&mut t, m.new_scale, 6);
        push_string(&mut a, t);
    }
    let ghost s4 = names(a@);
    if m.new_transform != m.transform {
        push_lit(&mut a, "--transform");
        push_string(&mut a, m.new_transform.clone());
    }
    let ghost s5 = names(a@);
    if m.new_adaptive != m.adaptive_sync {
        push_lit(&mut a, "--adaptive-sync");
        push_lit(&mut a, if m.new_adaptive { "enabled" } else { "disabled" });
    }
    assert(names(a@) =~= build_args_spec(m@, views(all@)));
    a
}

/// The arguments for all of `ms`, in order, each output placed within `all`.
pub open spec fn all_args(ms: Seq<MonitorView>, all: Seq<MonitorView>) -> Seq<Seq<char>>
    decreases ms.len(),
{
    if ms.len() == 0 {
        seq![]
    } else {
        all_args(ms.subrange(0, ms.len() - 1), all) + build_args_spec(ms[ms.len() - 1], all)
    }
}

pub open spec fn any_dirty(ms: Seq<MonitorView>) -> bool {
    exists|i: int| 0 <= i < ms.len() && (#[trigger] ms[i]).dirty()
}

/// Nothing when no output has pending changes; otherwise the complete
/// layout, the arguments for every output.
pub open spec fn apply_args_spec(ms: Seq<MonitorView>) -> Option<Seq<Seq<char>>> {
    if any_dirty(ms) {
        Some(all_args(ms, ms))
    } else {
        None
    }
}

/// The `wlr-randr` arguments that apply all pending changes, or `None` when
/// there is nothing to apply. Every output is always sent, never a partial
/// update, so that the compositor gets a consistent picture of all outputs.
pub fn apply_args(monitors: &Vec<Monitor>) -> (r: Option<Vec<String>>)
    requires
        all_args_ok(views(monitors@)),
    ensures
        match r {
            None => apply_args_spec(views(monitors@)) is None,
            Some(a) => apply_args_spec(views(monitors@)) == Some(names(a@)),
        },
{
    let ghost ms = views(monitors@);
    let mut i: usize = 0;
    let mut found = false;
    while i < monitors.len()
        invariant
            i <= monitors.len(),
            ms == views(monitors@),
            !found ==> forall|j: int| 0 <= j < i ==> !(#[trigger] ms[j]).dirty(),
            found ==> any_dirty(ms),
        decreases monitors.len() - i,
    {
        assert(ms[i as int] == monitors@[i as int]@);
        if monitors[i].dirty() {
            found = true;
        }
        i = i + 1;
    }
    if !found {
        return None;
    }
    let mut a: Vec<String> = Vec::new();
    let mut k: usize = 0;
    assert(names(a@) =~= Seq::<Seq<char>>::empty());
    assert(ms.subrange(0, 0) =~= Seq::<MonitorView>::empty());
    while k < monitors.len()
        invariant
            k <= monitors.len(),
            ms == views(monitors@),
            all_args_ok(ms),
            names(a@) == all_args(ms.subrange(0, k as int), ms),
        decreases monitors.len() - k,
    {
        assert(ms[k as int] == monitors@[k as int]@);
        assert(args_ok(ms[k as int], ms));
        let b = build_args(&monitors[k], monitors.as_slice());
        let ghost before = names(a@);
        let mut j: usize = 0;
        while j < b.len()
            invariant
                j <= b.len(),
                names(a@) == before + names(b@).subrange(0, j as int),
            decreases b.len() - j,
        {
            let ghost prev = a@;
            let x = b[j].clone();
            assert(x@ == names(b@)[j as int]);
            a.push(x);
            assert(names(a@) =~= names(prev).push(x@));
            assert(names(a@) =~= before + names(b@).subrange(0, j + 1));
            j = j + 1;
        }
        assert(names(b@).subrange(0, b.len() as int) =~= names(b@));
        let ghost taken = ms.subrange(0, k + 1);
        assert(taken.subrange(0, taken.len() - 1) =~= ms.subrange(0, k as int));
        assert(taken[taken.len() - 1] == monitors@[k as int]@);
        k = k + 1;
    }
    assert(ms.subrange(0, monitors.len() as int) =~= ms);
    Some(a)
}

/// `words` separated by `sep`.
pub open spec fn join(words: Seq<Seq<char>>, sep: Seq<char>) -> Seq<char>
    decreases words.len(),
{
    if words.len() == 0 {
        seq![]
    } else if words.len() == 1 {
        words[0]
    } else {
        join(words.subrange(0, words.len() - 1), sep) + sep + words[words.len() - 1]
    }
}

/// The command line shown after a successful apply.
pub open spec fn command_line(args: Seq<Seq<char>>) -> Seq<char> {
    "wlr-randr "@ + join(args, " "@)
}

/// What an apply reports, given whether `wlr-randr` succeeded and what it
/// wrote to standard error: the command line, or the trimmed error output.
pub fn apply_reply(args: &Vec<String>, success: bool, stderr: &str) -> (r: Result<String, String>)
    ensures
        success ==> (r matches Ok(c) && c@ == command_line(names(args@))),
        !success ==> (r matches Err(e) && e@ == trim(stderr@)),
{
    if success {
        let mut c = String::from_str("wlr-randr ");
        let ghost start = c@;
        let mut i: usize = 0;
        assert(names(args@).subrange(0, 0) =~= Seq::<Seq<char>>::empty());
        while i < args.len()
            invariant
                i <= args.len(),
                c@ == start + join(names(args@).subrange(0, i as int), " "@),
            decreases args.len() - i,
        {
            let ghost taken = names(args@).subrange(0, i + 1);
            assert(taken.subrange(0, taken.len() - 1) =~= names(args@).subrange(0, i as int));
            if i > 0 {
                push_str(&mut c, " ");
            } else {
                assert(taken =~= seq![args@[0]@]);
            }
            push_str(&mut c, args[i].as_str());
            assert(c@ =~= start + join(taken, " "@));
            i = i + 1;
        }
        assert(names(args@).subrange(0, args.len() as int) =~= names(args@));
        Ok(c)
    } else {
        let v = chars_of(stderr);
        let (a, b) = trim_range(&v, 0, v.len());
        assert(v@.subrange(0, v.len() as int) =~= v@);
        Err(string_of(&v, a, b))
    }
}

/// The message when nothing is pending.
pub fn no_changes_message() -> (r: String)
    ensures
        r@ == "No changes to apply"@,
{
    lit("No changes to apply")
}

} // verus!
