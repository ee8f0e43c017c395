//! Properties of the library as a whole, each proved over the specifications
//! that the functions' contracts use.
use vstd::prelude::*;
use crate::apply::{all_args, apply_args_spec, any_dirty, build_args_spec, mode_arg};
use crate::consts::N_FIELDS;
use crate::monitor::{Align, abs_option, cycle_list_spec, rel_options, rel_options_all, MonitorView, PosModeView};
use crate::parse::{law_parsed_outputs_are_clean, parse_spec};
use crate::proj::{lemma_proj_keeps, proj_index, proj_spec, step_spec, Proj};
use crate::app::{AppView, Section, UiMode};
use crate::decimal::{dec_frac, in_scale_range, f64_limit, f64_units, half_even, scale_up, all_digits, digit_char, digit_val, digits_val, fixed_str, frac_val, int_str, is_digit, nat_str, padded_str, parse_fixed_spec, parse_i32_spec, pow10, rounds_up};
use crate::input::{can_handle, full_rows, snap_quarter, visible_rows, cycle_pos_spec, others_of, pos_index, cleared, cycle_setting_spec, handle_spec, is_enter, layout_buf, normal_spec, text_spec, transform_pos, with_mon, Key};
use crate::consts::{transforms, F_MODE, F_SCALE, F_TRANSFORM};
use crate::monitor::{chain_ends, logical_size_spec, place, display_spec, find_monitor, lemma_find_monitor, ref_name, resolve_spec, Mode};
use crate::scale::{decimal_scale, scale_entry_spec, ScaleEntry};
use crate::text::{contains, find, is_ws, occurs_at, trim};
use crate::diagram::items_spec;
use crate::ui::{draw_spec, fit_prefix, join, line, mode_header_spec, mode_footer_spec, mode_row_spec, mode_style, overlay, overlay_rows, pad_right, pad_spec, position_line_spec, rule, shown_scroll, statusbar_spec, tab_bar, utf8_len, PieceView, Style};

verus! {

/// Resetting an output leaves nothing pending on it, and keeps it well formed.
pub proof fn law_reset_clears(m: MonitorView)
    ensures
        !m.reset().dirty(),
        m.wf() ==> m.reset().wf(),
{
    let r = m.reset();
    assert forall|f: int| 0 <= f < N_FIELDS implies !#[trigger] r.field_dirty(f) by {}
}

/// Right after reading the outputs there is nothing to apply.
pub proof fn law_fresh_outputs_need_no_apply(s: Seq<char>)
    ensures
        apply_args_spec(parse_spec(s)) is None,
{
    law_parsed_outputs_are_clean(s);
    let ms = parse_spec(s);
    assert(!any_dirty(ms)) by {
        assert forall|i: int| 0 <= i < ms.len() implies !(#[trigger] ms[i]).dirty() by {}
    }
}

/// Stepping the projection preset `d` places forward and then `d` back
/// returns to the same preset.
pub proof fn law_step_back_and_forth(p: Proj, d: int)
    ensures
        step_spec(step_spec(p, d), -d) == p,
{
    let i = proj_index(p);
    let j = (i + d) % 4;
    assert(0 <= j < 4);
    assert(proj_index(step_spec(p, d)) == j);
    assert((j - d) % 4 == i) by (nonlinear_arith)
        requires
            j == (i + d) % 4,
            0 <= i < 4,
    ;
}

/// The four presets form a cycle: four steps forward return to the start.
pub proof fn law_step_cycle(p: Proj)
    ensures
        step_spec(p, 4) == p,
        step_spec(step_spec(step_spec(step_spec(p, 1), 1), 1), 1) == p,
{
}

/// The arguments for an output always start with `--output NAME`; an output
/// to be switched off gets exactly `--off` after that, and any other output
/// always gets `--pos`.
pub proof fn law_args_shape(m: MonitorView, all: Seq<MonitorView>)
    ensures
        build_args_spec(m, all).len() >= 3,
        build_args_spec(m, all)[0] == "--output"@,
        build_args_spec(m, all)[1] == m.name,
        !m.new_enabled ==> build_args_spec(m, all) == seq!["--output"@, m.name, "--off"@],
        m.new_enabled ==> build_args_spec(m, all).contains("--pos"@),
{
    let b = build_args_spec(m, all);
    if m.new_enabled {
        let on: Seq<Seq<char>> = if !m.enabled {
            seq!["--on"@]
        } else {
            seq![]
        };
        let mode: Seq<Seq<char>> = if m.new_mode != m.cur_mode {
            seq!["--mode"@, crate::apply::mode_arg(m.modes[m.new_mode])]
        } else {
            seq![]
        };
        let k: int = (2 + on.len() + mode.len()) as int;
        assert(b[k] == "--pos"@);
    }
}

proof fn lemma_rel_options_all(others: Seq<Seq<char>>)
    ensures
        rel_options_all(others).len() == 8 * others.len(),
        forall|j: int, k: int|
            0 <= j < others.len() && 0 <= k < 8 ==> rel_options_all(others)[8 * j + k]
                == #[trigger] rel_options(others[j])[k],
        forall|i: int|
            0 <= i < rel_options_all(others).len() ==> !(#[trigger] rel_options_all(
                others,
            )[i] is Absolute),
    decreases others.len(),
{
    if others.len() > 0 {
        let n = others.len();
        let pre = others.subrange(0, n - 1);
        let last = others[n - 1];
        lemma_rel_options_all(pre);
        let a = rel_options_all(pre);
        let r = rel_options_all(others);
        assert(r == a + rel_options(last));
        assert forall|j: int, k: int| 0 <= j < n && 0 <= k < 8 implies r[8 * j + k]
            == #[trigger] rel_options(others[j])[k] by {
            if j < n - 1 {
                assert(8 * j + k < 8 * (n - 1)) by (nonlinear_arith)
                    requires
                        j < n - 1,
                        k < 8,
                ;
                assert(pre[j] == others[j]);
                assert(r[8 * j + k] == a[8 * j + k]);
            } else {
                assert(8 * j + k - 8 * (n - 1) == k);
                assert(r[8 * j + k] == rel_options(last)[k]);
            }
        }
        assert forall|i: int| 0 <= i < r.len() implies !(#[trigger] r[i] is Absolute) by {
            if i < a.len() {
                assert(r[i] == a[i]);
            } else {
                assert(r[i] == rel_options(last)[i - a.len()]);
            }
        }
    }
}

/// The placements offered while cycling are, for each other output in order,
/// below, right of, above and left of it (each at the start, then centered),
/// and finally one absolute position: the current one, or the origin when the
/// current placement is relative.
pub proof fn law_cycle_list_shape(cur: PosModeView, others: Seq<Seq<char>>)
    ensures
        cycle_list_spec(cur, others).len() == 8 * others.len() + 1,
        cycle_list_spec(cur, others)[8 * others.len() as int] == abs_option(cur),
        forall|j: int, k: int|
            0 <= j < others.len() && 0 <= k < 8 ==> cycle_list_spec(cur, others)[8 * j + k]
                == #[trigger] rel_options(others[j])[k],
{
    lemma_rel_options_all(others);
    let rels = rel_options_all(others);
    assert(!rels.contains(abs_option(cur))) by {
        if rels.contains(abs_option(cur)) {
            let i = choose|i: int| 0 <= i < rels.len() && rels[i] == abs_option(cur);
            assert(rels[i] is Absolute);
        }
    }
    assert forall|j: int, k: int| 0 <= j < others.len() && 0 <= k < 8 implies cycle_list_spec(
        cur,
        others,
    )[8 * j + k] == #[trigger] rel_options(others[j])[k] by {
        assert(8 * j + k < 8 * others.len()) by (nonlinear_arith)
            requires
                j < others.len(),
                k < 8,
        ;
    }
}

/// While editing text, typing a printable character and then Backspace leaves
/// everything as it was.
pub proof fn law_type_then_backspace(a: AppView, c: i32)
    requires
        32 <= c < 127,
    ensures
        text_spec(text_spec(a, Key::Code(c)), Key::Backspace) == a,
{
    let b = text_spec(a, Key::Code(c));
    assert(b.buf == a.buf.push(c as char));
    assert(b.buf.subrange(0, b.buf.len() - 1) =~= a.buf);
}

/// Leaving the text editor with Esc drops the text and changes no setting.
pub proof fn law_escape_discards(a: AppView)
    ensures
        text_spec(a, Key::Code(27)).monitors == a.monitors,
        text_spec(a, Key::Code(27)).buf.len() == 0,
        text_spec(a, Key::Code(27)).ui == UiMode::Normal,
{
}

proof fn lemma_nat_str(n: nat)
    ensures
        nat_str(n).len() > 0,
        all_digits(nat_str(n)),
        digits_val(nat_str(n)) == n,
    decreases n,
{
    assert(digit_val(crate::decimal::digit_char(n % 10)) == n % 10);
    if n >= 10 {
        lemma_nat_str(n / 10);
        let s = nat_str(n);
        let p = nat_str(n / 10);
        assert(s == p.push(crate::decimal::digit_char(n % 10)));
        assert(s.subrange(0, s.len() - 1) =~= p);
        assert forall|i: int| 0 <= i < s.len() implies is_digit(#[trigger] s[i]) by {
            if i < p.len() {
                assert(s[i] == p[i]);
            }
        }
        assert(s[s.len() - 1] == crate::decimal::digit_char(n % 10));
        assert(digits_val(s) == digits_val(p) * 10 + n % 10);
    } else {
        let s = nat_str(n);
        assert(s.subrange(0, 0) =~= Seq::<char>::empty());
        assert(digits_val(s) == digits_val(Seq::<char>::empty()) * 10 + n % 10);
    }
}

pub(crate) proof fn lemma_int_str(x: int)
    ensures
        int_str(x).len() > 0,
        !is_ws(int_str(x)[0]),
        !is_ws(int_str(x)[int_str(x).len() - 1]),
        forall|i: int| 0 <= i < int_str(x).len() ==> #[trigger] int_str(x)[i] != ',',
        int_str(x)[0] != '+',
        x >= 0 ==> int_str(x)[0] != '-',
        x < 0 ==> int_str(x)[0] == '-' && int_str(x).subrange(1, int_str(x).len() as int)
            == nat_str((-x) as nat),
        x >= 0 ==> int_str(x) == nat_str(x as nat),
{
    let n: nat = if x < 0 {
        (-x) as nat
    } else {
        x as nat
    };
    lemma_nat_str(n);
    let d = nat_str(n);
    assert(is_digit(d[0]));
    assert(is_digit(d[d.len() - 1]));
    if x < 0 {
        let s = int_str(x);
        assert(s == seq!['-'] + d);
        assert(s.subrange(1, s.len() as int) =~= d);
        assert forall|i: int| 0 <= i < s.len() implies #[trigger] s[i] != ',' by {
            if i > 0 {
                assert(s[i] == d[i - 1]);
                assert(is_digit(d[i - 1]));
            }
        }
    } else {
        assert forall|i: int| 0 <= i < d.len() implies #[trigger] d[i] != ',' by {
            assert(is_digit(d[i]));
        }
    }
}

proof fn lemma_trim_noop(s: Seq<char>)
    requires
        s.len() > 0,
        !is_ws(s[0]),
        !is_ws(s[s.len() - 1]),
    ensures
        trim(s) == s,
{
}

/// Reading back the decimal form of an `i32` gives the same number.
pub proof fn law_int_round_trip(x: i32)
    ensures
        parse_i32_spec(int_str(x as int)) == Some(x),
        parse_i32_spec(trim(int_str(x as int))) == Some(x),
{
    lemma_int_str(x as int);
    lemma_trim_noop(int_str(x as int));
    let s = int_str(x as int);
    if x < 0 {
        lemma_nat_str((-x) as nat);
    } else {
        lemma_nat_str(x as nat);
    }
}

pub(crate) proof fn lemma_find_concat(s1: Seq<char>, s2: Seq<char>, c: char)
    requires
        forall|i: int| 0 <= i < s1.len() ==> #[trigger] s1[i] != c,
    ensures
        find(s1 + s2, c) == s1.len() + find(s2, c),
    decreases s1.len(),
{
    if s1.len() > 0 {
        let t = s1.subrange(1, s1.len() as int);
        assert forall|i: int| 0 <= i < t.len() implies #[trigger] t[i] != c by {
            assert(t[i] == s1[i + 1]);
        }
        lemma_find_concat(t, s2, c);
        assert((s1 + s2).subrange(1, (s1 + s2).len() as int) =~= t + s2);
    } else {
        assert(s1 + s2 =~= s2);
    }
}

/// In the layout section, Enter offers the selected output's position as
/// `x,y`, and a second Enter that confirms it unchanged pins the output at that
/// very position: its placement becomes absolute there, and nothing else
/// changes but the status line and the edited text, which end empty.
pub proof fn law_layout_enter_twice(a: AppView, rows: int)
    requires
        a.wf(),
        a.monitors.len() > 0,
        a.ui == UiMode::Normal,
        a.section == Section::Layout,
    ensures
        ({
            let m = a.monitors[a.layout_sel];
            let p = match m.new_pos {
                PosModeView::Absolute(x, y) => (x, y),
                _ => resolve_spec(m.new_pos, m, a.monitors, 0),
            };
            handle_spec(handle_spec(a, Key::Enter, rows).0, Key::Enter, rows).0 == with_mon(
                AppView { status: Seq::empty(), buf: Seq::empty(), ..a },
                a.layout_sel,
                MonitorView { new_pos: PosModeView::Absolute(p.0, p.1), ..m },
            )
        }),
{
    let m = a.monitors[a.layout_sel];
    let p = match m.new_pos {
        PosModeView::Absolute(x, y) => (x, y),
        _ => resolve_spec(m.new_pos, m, a.monitors, 0),
    };
    let b = handle_spec(a, Key::Enter, rows).0;
    let xs = int_str(p.0 as int);
    let ys = int_str(p.1 as int);
    assert(b.buf == layout_buf(m, a.monitors));
    assert(b.buf == xs + ","@ + ys);
    reveal_strlit(",");
    assert(","@ =~= seq![',']);
    lemma_int_str(p.0 as int);
    lemma_int_str(p.1 as int);
    assert(xs + ","@ + ys =~= xs + (seq![','] + ys));
    lemma_find_concat(xs, seq![','] + ys, ',');
    let k = find(b.buf, ',');
    assert(k == xs.len());
    assert(b.buf.subrange(0, k) =~= xs);
    assert(b.buf.subrange(k + 1, b.buf.len() as int) =~= ys);
    law_int_round_trip(p.0);
    law_int_round_trip(p.1);
    let c = handle_spec(b, Key::Enter, rows).0;
    assert(c =~= with_mon(
        AppView { status: Seq::empty(), buf: Seq::empty(), ..a },
        a.layout_sel,
        MonitorView { new_pos: PosModeView::Absolute(p.0, p.1), ..m },
    ));
}

proof fn lemma_fit_prefix_len(s: Seq<char>, w: int)
    ensures
        fit_prefix(s, w).len() <= if w > 0 {
            w
        } else {
            0
        },
    decreases s.len(),
{
    if s.len() > 0 && utf8_len(s[0]) <= w {
        lemma_fit_prefix_len(s.subrange(1, s.len() as int), w - utf8_len(s[0]));
    }
}

/// Padding gives exactly the width asked for, in characters.
pub proof fn law_pad_width(s: Seq<char>, w: int)
    requires
        w >= 0,
    ensures
        pad_spec(s, w).len() == w,
{
    lemma_fit_prefix_len(s, w);
}

/// For every output, exactly one of the presets "Ext Only" and "Laptop Only"
/// enables it; "Extend" enables all of them.
pub proof fn law_presets_split_outputs(ms: Seq<MonitorView>)
    ensures
        forall|i: int|
            0 <= i < ms.len() ==> #[trigger] proj_spec(ms, Proj::ExtOnly)[i].new_enabled != proj_spec(
                ms,
                Proj::LaptopOnly,
            )[i].new_enabled,
        forall|i: int| 0 <= i < ms.len() ==> #[trigger] proj_spec(ms, Proj::Extend)[i].new_enabled,
{
}

proof fn lemma_transform_pos(j: int)
    requires
        0 <= j < 8,
    ensures
        transform_pos(transforms()[j]) == j,
{
    reveal_strlit("normal");
    reveal_strlit("90");
    reveal_strlit("180");
    reveal_strlit("270");
    reveal_strlit("flipped");
    reveal_strlit("flipped-90");
    reveal_strlit("flipped-180");
    reveal_strlit("flipped-270");
    let t = transforms();
    assert(t[0].len() == 6 && t[1].len() == 2 && t[2].len() == 3 && t[3].len() == 3);
    assert(t[4].len() == 7 && t[5].len() == 10 && t[6].len() == 11 && t[7].len() == 11);
    assert(t[2][0] != t[3][0]);
    assert(t[6][8] != t[7][8]);
    assert(t[0] != t[1] && t[0] != t[2] && t[0] != t[3] && t[0] != t[4] && t[0] != t[5] && t[0]
        != t[6] && t[0] != t[7]);
    assert(t[1] != t[2] && t[1] != t[3] && t[1] != t[4] && t[1] != t[5] && t[1] != t[6] && t[1]
        != t[7]);
    assert(t[2] != t[3] && t[2] != t[4] && t[2] != t[5] && t[2] != t[6] && t[2] != t[7]);
    assert(t[3] != t[4] && t[3] != t[5] && t[3] != t[6] && t[3] != t[7]);
    assert(t[4] != t[5] && t[4] != t[6] && t[4] != t[7]);
    assert(t[5] != t[6] && t[5] != t[7]);
    assert(t[6] != t[7]);
}

/// In the settings, Right and then Left give back the selected setting as it
/// was (the mode, the transform when it is one of the known names, or a
/// flag); only the status line is emptied. The scale is excluded: it is
/// clamped and snapped to quarters.
pub proof fn law_settings_right_left(a: AppView, rows: int)
    requires
        a.wf(),
        a.monitors.len() > 0,
        a.ui == UiMode::Normal,
        a.section == Section::Settings,
        a.sel_field != F_SCALE,
        a.sel_field == F_TRANSFORM ==> transforms().contains(a.monitors[a.tab].new_transform),
    ensures
        handle_spec(handle_spec(a, Key::Right, rows).0, Key::Left, rows).0 == cleared(a),
{
    let m = a.monitors[a.tab];
    assert(m.wf());
    let b = handle_spec(a, Key::Right, rows).0;
    assert(b == cycle_setting_spec(cleared(a), 1));
    let c = handle_spec(b, Key::Left, rows).0;
    assert(c == cycle_setting_spec(cleared(b), -1));
    let m1 = b.monitors[a.tab];
    let m2 = c.monitors[a.tab];
    if a.sel_field == F_MODE {
        let n = m.modes.len() as int;
        assert(((m.new_mode + 1) % n - 1) % n == m.new_mode) by (nonlinear_arith)
            requires
                0 <= m.new_mode < n,
        ;
        assert(m2 == m);
    } else if a.sel_field == F_TRANSFORM {
        let j = choose|j: int| 0 <= j < transforms().len() && transforms()[j] == m.new_transform;
        lemma_transform_pos(j);
        lemma_transform_pos((j + 1) % 8);
        assert(((j + 1) % 8 - 1) % 8 == j);
        assert(m2 == m);
    } else {
        assert(m2 == m);
    }
    assert(c.monitors =~= a.monitors);
    assert(c =~= cleared(a));
}

proof fn lemma_padded_str(n: nat, d: nat)
    requires
        n < pow10(d),
    ensures
        padded_str(n, d).len() == d,
        all_digits(padded_str(n, d)),
        digits_val(padded_str(n, d)) == n,
    decreases d,
{
    let s = padded_str(n, d);
    if d == 0 {
        assert(n == 0);
    } else {
        assert(n / 10 < pow10((d - 1) as nat)) by (nonlinear_arith)
            requires
                n < pow10(d),
                pow10(d) == 10 * pow10((d - 1) as nat),
        ;
        lemma_padded_str(n / 10, (d - 1) as nat);
        let p = padded_str(n / 10, (d - 1) as nat);
        assert(s == p.push(digit_char(n % 10)));
        assert(s.subrange(0, s.len() - 1) =~= p);
        assert(digit_val(digit_char(n % 10)) == n % 10);
        assert forall|i: int| 0 <= i < s.len() implies is_digit(#[trigger] s[i]) by {
            if i < p.len() {
                assert(s[i] == p[i]);
            }
        }
        assert(digits_val(s) == digits_val(p) * 10 + n % 10);
    }
}

proof fn lemma_frac_val(f: Seq<char>, k: nat)
    requires
        f.len() <= k,
    ensures
        frac_val(f, k) == digits_val(f) * pow10((k - f.len()) as nat),
    decreases k,
{
    if k > f.len() {
        lemma_frac_val(f, (k - 1) as nat);
        let x = digits_val(f);
        let p = pow10((k - 1 - f.len()) as nat);
        assert(frac_val(f, k) == frac_val(f, (k - 1) as nat) * 10);
        assert(pow10((k - f.len()) as nat) == 10 * p);
        assert((x * p) * 10 == x * (10 * p)) by (nonlinear_arith);
    } else {
        lemma_frac_val_prefix(f, k);
        assert(f.subrange(0, k as int) =~= f);
        assert(k - f.len() == 0);
        assert(pow10(0) == 1);
        assert(digits_val(f) * pow10(0) == digits_val(f));
    }
}

proof fn lemma_frac_val_prefix(f: Seq<char>, k: nat)
    requires
        k <= f.len(),
    ensures
        frac_val(f, k) == digits_val(f.subrange(0, k as int)),
    decreases k,
{
    if k > 0 {
        lemma_frac_val_prefix(f, (k - 1) as nat);
        let t = f.subrange(0, k as int);
        assert(t.subrange(0, t.len() - 1) =~= f.subrange(0, k - 1));
    } else {
        assert(f.subrange(0, 0) =~= Seq::<char>::empty());
    }
}

/// Reading `[-]DIGITS.DIGITS` with at most six decimals.
#[verifier::spinoff_prover]
#[verifier::rlimit(30)]
proof fn lemma_parse_decimal_text(is: Seq<char>, fs: Seq<char>, neg: bool)
    requires
        is.len() > 0,
        all_digits(is),
        all_digits(fs),
        fs.len() <= 6,
        digits_val(is) * 1_000_000 + digits_val(fs) * pow10((6 - fs.len()) as nat) <= i64::MAX,
    ensures
        ({
            let abs = digits_val(is) * 1_000_000 + digits_val(fs) * pow10((6 - fs.len()) as nat);
            parse_fixed_spec((if neg {
                seq!['-']
            } else {
                Seq::<char>::empty()
            }) + is + seq!['.'] + fs) == Some((if neg {
                -abs
            } else {
                abs as int
            }) as i64)
        }),
        dec_frac((if neg {
            seq!['-']
        } else {
            Seq::<char>::empty()
        }) + is + seq!['.'] + fs) == fs,
{
    let body = is + seq!['.'] + fs;
    let s = (if neg {
        seq!['-']
    } else {
        Seq::<char>::empty()
    }) + body;
    assert forall|i: int| 0 <= i < is.len() implies #[trigger] is[i] != '.' by {
        assert(is_digit(is[i]));
    }
    lemma_find_concat(is, seq!['.'] + fs, '.');
    assert(body =~= is + (seq!['.'] + fs));
    assert(is_digit(is[0]));
    if neg {
        assert(s.subrange(1, s.len() as int) =~= body);
    } else {
        assert(s =~= body);
        assert(body[0] == is[0]);
    }
    let b = body;
    let k = find(b, '.');
    assert(k == is.len());
    assert(b.subrange(0, k) =~= is);
    assert(b.subrange(k + 1, b.len() as int) =~= fs);
    lemma_frac_val(fs, 6);
    assert(!rounds_up(fs));
    let ghost neg_s = s.len() > 0 && s[0] == '-';
    assert(neg_s == neg);
    let ghost b2 = if s.len() > 0 && (s[0] == '+' || s[0] == '-') {
        s.subrange(1, s.len() as int)
    } else {
        s
    };
    assert(b2 == body);
    let ghost fp = if k < b.len() {
        b.subrange(k + 1, b.len() as int)
    } else {
        Seq::<char>::empty()
    };
    assert(fp == fs);
    assert(frac_val(fs, 6) == digits_val(fs) * pow10((6 - fs.len()) as nat));
    assert((if neg {
        seq!['-']
    } else {
        Seq::<char>::empty()
    }) + is + seq!['.'] + fs =~= s);
}

proof fn lemma_pow10_split(d: nat)
    requires
        1 <= d <= 6,
    ensures
        pow10(d) * pow10((6 - d) as nat) == 1_000_000,
        pow10((6 - d) as nat) >= 1,
        pow10(d) >= 1,
{
    reveal_with_fuel(pow10, 7);
    let e = (6 - d) as nat;
    if d == 1 {
        assert(pow10(d) == 10 && pow10(e) == 100_000);
        assert(pow10(d) * pow10(e) == 1_000_000) by (nonlinear_arith)
            requires
                pow10(d) == 10 && pow10(e) == 100_000,
        ;
    } else if d == 2 {
        assert(pow10(d) == 100 && pow10(e) == 10_000);
        assert(pow10(d) * pow10(e) == 1_000_000) by (nonlinear_arith)
            requires
                pow10(d) == 100 && pow10(e) == 10_000,
        ;
    } else if d == 3 {
        assert(pow10(d) == 1000 && pow10(e) == 1000);
        assert(pow10(d) * pow10(e) == 1_000_000) by (nonlinear_arith)
            requires
                pow10(d) == 1000 && pow10(e) == 1000,
        ;
    } else if d == 4 {
        assert(pow10(d) == 10_000 && pow10(e) == 100);
        assert(pow10(d) * pow10(e) == 1_000_000) by (nonlinear_arith)
            requires
                pow10(d) == 10_000 && pow10(e) == 100,
        ;
    } else if d == 5 {
        assert(pow10(d) == 100_000 && pow10(e) == 10);
        assert(pow10(d) * pow10(e) == 1_000_000) by (nonlinear_arith)
            requires
                pow10(d) == 100_000 && pow10(e) == 10,
        ;
    } else {
        assert(pow10(d) == 1_000_000 && pow10(e) == 1);
        assert(pow10(d) * pow10(e) == 1_000_000) by (nonlinear_arith)
            requires
                pow10(d) == 1_000_000 && pow10(e) == 1,
        ;
    }
}

/// The parts of `fixed_str(v, d)` for a value with at most `d` decimals.
proof fn lemma_fixed_parts(a: nat, d: nat)
    requires
        1 <= d <= 6,
        a % pow10((6 - d) as nat) == 0,
    ensures
        ({
            let p = pow10((6 - d) as nat);
            let q = (a + p / 2) / p;
            &&& (q / pow10(d)) * 1_000_000 + (q % pow10(d)) * p == a
            &&& q % pow10(d) < pow10(d)
        }),
{
    lemma_pow10_split(d);
    let p = pow10((6 - d) as nat);
    let pd = pow10(d);
    let q = (a + p / 2) / p;
    assert(q * p == a) by (nonlinear_arith)
        requires
            a % p == 0,
            p >= 1,
            q == (a + p / 2) / p,
    ;
    let ii = q / pd;
    let ff = q % pd;
    assert(ii * pd + ff == q && ff < pd) by (nonlinear_arith)
        requires
            pd > 0,
            ii == q / pd,
            ff == q % pd,
    ;
    assert(ii * 1_000_000 + ff * p == a) by (nonlinear_arith)
        requires
            ii * pd + ff == q,
            q * p == a,
            pd * p == 1_000_000,
    ;
}

/// Writing a fixed-point value with `d` decimals and reading it back gives
/// the same value when it has no more than `d` decimals. With six decimals,
/// as `--scale` writes a scale, every value comes back; with four, as the
/// scale is offered for editing, every scale of at most four decimals does.
pub proof fn law_fixed_round_trip(v: i64, d: nat)
    requires
        1 <= d <= 6,
        -4_503_599_627_370_496 < v < 4_503_599_627_370_496,
        (if v < 0 {
            -v
        } else {
            v as int
        }) % (pow10((6 - d) as nat) as int) == 0,
    ensures
        parse_fixed_spec(fixed_str(v as int, d)) == Some(v),
        parse_fixed_spec(trim(fixed_str(v as int, d))) == Some(v),
        trim(fixed_str(v as int, d)) == fixed_str(v as int, d),
        dec_frac(fixed_str(v as int, d)).len() == d,
{
    lemma_pow10_split(d);
    let a: nat = if v < 0 {
        (-v) as nat
    } else {
        v as nat
    };
    let p = pow10((6 - d) as nat);
    let pd = pow10(d);
    lemma_fixed_parts(a, d);
    lemma_f64_units_exact(a, d);
    let q = (a + p / 2) / p;
    let ii = q / pd;
    let ff = q % pd;
    lemma_nat_str(ii);
    lemma_padded_str(ff, d);
    let is = nat_str(ii);
    let fs = padded_str(ff, d);
    let s = fixed_str(v as int, d);
    assert(s == (if v < 0 {
        seq!['-']
    } else {
        Seq::<char>::empty()
    }) + is + seq!['.'] + fs);
    lemma_parse_decimal_text(is, fs, v < 0);
    assert(s.len() > 0);
    assert(is_digit(is[0]));
    if v >= 0 {
        assert(s[0] == is[0]);
    }
    assert(s[s.len() - 1] == fs[fs.len() - 1]);
    assert(is_digit(fs[fs.len() - 1]));
    lemma_trim_noop(s);
}

/// For a decimal of at most six decimals, the exact range test on its text
/// agrees with the range test on the millionths it is read as.
proof fn lemma_short_frac_range(s: Seq<char>, v: i64)
    requires
        parse_fixed_spec(s) == Some(v),
        -i64::MAX < v < i64::MAX,
        dec_frac(s).len() <= 6,
    ensures
        in_scale_range(s) <==> 0 < v <= 4_000_000,
{
    let neg = s.len() > 0 && s[0] == '-';
    let b = if s.len() > 0 && (s[0] == '+' || s[0] == '-') {
        s.subrange(1, s.len() as int)
    } else {
        s
    };
    let k = find(b, '.');
    let ip = b.subrange(0, k);
    let fp = dec_frac(s);
    let len = fp.len();
    assert(!rounds_up(fp));
    lemma_frac_val(fp, 6);
    let e = (6 - len) as nat;
    let p = pow10(e);
    let pl = pow10(len);
    if len == 0 {
        reveal_with_fuel(pow10, 7);
        assert(pl == 1 && p == 1_000_000);
    } else {
        lemma_pow10_split(len);
    }
    assert(pl * p == 1_000_000 && p >= 1 && pl >= 1);
    let ii = digits_val(ip);
    let ff = digits_val(fp);
    let abs = ii * 1_000_000 + ff * p;
    let n = ii * pl + ff;
    assert(n * p == abs) by (nonlinear_arith)
        requires
            pl * p == 1_000_000,
            n == ii * pl + ff,
            abs == ii * 1_000_000 + ff * p,
    ;
    assert(abs <= i64::MAX);
    assert((0 < n) == (0 < abs)) by (nonlinear_arith)
        requires
            n * p == abs,
            p >= 1,
            n >= 0,
    ;
    assert((n <= 4 * pl) == (abs <= 4_000_000)) by (nonlinear_arith)
        requires
            n * p == abs,
            p >= 1,
            pl * p == 1_000_000,
    ;
}

proof fn lemma_digits_val_concat(g: Seq<char>, h: Seq<char>)
    ensures
        digits_val(g + h) == digits_val(g) * pow10(h.len()) + digits_val(h),
    decreases h.len(),
{
    if h.len() == 0 {
        assert(g + h =~= g);
        assert(pow10(0) == 1);
        assert(digits_val(g) * 1 == digits_val(g));
    } else {
        let hl = h.subrange(0, h.len() - 1);
        lemma_digits_val_concat(g, hl);
        let s = g + h;
        assert(s.subrange(0, s.len() - 1) =~= g + hl);
        assert(s[s.len() - 1] == h[h.len() - 1]);
        let gv = digits_val(g);
        let p = pow10(hl.len());
        let x = digits_val(hl);
        let dl = digit_val(h[h.len() - 1]);
        assert(pow10(h.len()) == 10 * p);
        assert((gv * p + x) * 10 + dl == gv * (10 * p) + (x * 10 + dl)) by (nonlinear_arith);
    }
}

/// A decimal whose exact value lies in the accepted range is read as at most
/// 4 000 000 millionths, and at least 0.
proof fn lemma_decimal_scale_bounds(t: Seq<char>)
    ensures
        decimal_scale(t) matches ScaleEntry::Value(v) ==> 0 <= v <= 4_000_000,
{
    reveal(decimal_scale);
    if let Some(v) = parse_fixed_spec(t) {
        if in_scale_range(t) {
            let b = if t.len() > 0 && (t[0] == '+' || t[0] == '-') {
                t.subrange(1, t.len() as int)
            } else {
                t
            };
            let k = find(b, '.');
            let ip = b.subrange(0, k);
            let fp = dec_frac(t);
            let f = fp.len();
            let ii = digits_val(ip);
            let ff = digits_val(fp);
            crate::decimal::lemma_pow10_pos(f);
            if f <= 6 {
                lemma_frac_val(fp, 6);
                let e = (6 - f) as nat;
                let p = pow10(e);
                let pl = pow10(f);
                if f == 0 {
                    reveal_with_fuel(pow10, 7);
                    assert(pl == 1 && p == 1_000_000);
                    assert(pl * p == 1_000_000) by (nonlinear_arith)
                        requires
                            pl == 1,
                            p == 1_000_000,
                    ;
                } else {
                    lemma_pow10_split(f);
                }
                assert(!rounds_up(fp));
                assert((ii * pl + ff) * p == ii * 1_000_000 + ff * p) by (nonlinear_arith)
                    requires
                        pl * p == 1_000_000,
                ;
                assert((ii * pl + ff) * p <= 4_000_000) by (nonlinear_arith)
                    requires
                        ii * pl + ff <= 4 * pl,
                        pl * p == 1_000_000,
                        p >= 1,
                ;
            } else {
                let g = fp.subrange(0, 6);
                let h = fp.subrange(6, f as int);
                assert(g + h =~= fp);
                lemma_digits_val_concat(g, h);
                lemma_frac_val_prefix(fp, 6);
                assert(fp.subrange(0, 6) == g);
                let gv = digits_val(g);
                let hv = digits_val(h);
                let q = pow10(h.len());
                crate::decimal::lemma_pow10_pos(h.len());
                assert(all_digits(h)) by {
                    assert forall|i: int| 0 <= i < h.len() implies is_digit(#[trigger] h[i]) by {
                        assert(h[i] == fp[i + 6]);
                    }
                }
                crate::decimal::lemma_digits_val_bound(h);
                reveal_with_fuel(pow10, 7);
                assert(pow10(6) == 1_000_000);
                lemma_pow10_sum(6, h.len());
                assert(pow10(f) == 1_000_000 * q);
                assert((ii * 1_000_000 + gv) * q + hv <= 4_000_000 * q) by (nonlinear_arith)
                    requires
                        ii * pow10(f) + ff <= 4 * pow10(f),
                        pow10(f) == 1_000_000 * q,
                        ff == gv * q + hv,
                ;
                assert(ii * 1_000_000 + gv <= 4_000_000) by (nonlinear_arith)
                    requires
                        (ii * 1_000_000 + gv) * q + hv <= 4_000_000 * q,
                        q >= 1,
                        hv >= 0,
                ;
                if ii * 1_000_000 + gv == 4_000_000 {
                    assert(hv == 0) by (nonlinear_arith)
                        requires
                            (ii * 1_000_000 + gv) * q + hv <= 4_000_000 * q,
                            ii * 1_000_000 + gv == 4_000_000,
                            hv >= 0,
                    ;
                    assert(h[0] == fp[6]);
                    assert(digit_val(h[0]) == 0);
                    assert(!rounds_up(fp));
                }
            }
        }
    }
}

proof fn lemma_pow10_sum(a: nat, b: nat)
    ensures
        pow10(a + b) == pow10(a) * pow10(b),
    decreases b,
{
    if b > 0 {
        lemma_pow10_sum(a, (b - 1) as nat);
        let x = pow10(a);
        let y = pow10((b - 1) as nat);
        assert(pow10(a + b) == 10 * pow10((a + b - 1) as nat));
        assert(10 * (x * y) == x * (10 * y)) by (nonlinear_arith);
    } else {
        assert(pow10(0) == 1);
        assert(pow10(a) * 1 == pow10(a));
    }
}

/// A scale read from typed text, in any of the forms it takes, lies between
/// 0 and 4 (in millionths: at most 4 000 000).
pub proof fn law_typed_scale_in_range(s: Seq<char>)
    ensures
        scale_entry_spec(s) matches ScaleEntry::Value(v) ==> 0 <= v <= 4_000_000,
{
    let k = crate::scale::exp_at(s);
    let m = s.subrange(0, k);
    let x = s.subrange(k + 1, s.len() as int);
    lemma_decimal_scale_bounds(s);
    lemma_decimal_scale_bounds(crate::scale::shift_point(m, crate::scale::exp_val(x)));
}

/// In the settings, Enter on the scale offers it with four decimals, and a
/// second Enter that confirms it unchanged keeps the scale, when it has at
/// most four decimals and lies in the accepted range (above 0, at most 4);
/// only the status line and the edited text end empty.
pub proof fn law_scale_enter_twice(a: AppView, rows: int)
    requires
        a.wf(),
        a.monitors.len() > 0,
        a.ui == UiMode::Normal,
        a.section == Section::Settings,
        a.sel_field == F_SCALE,
        0 < a.monitors[a.tab].new_scale <= 4_000_000,
        a.monitors[a.tab].new_scale % 100 == 0,
    ensures
        handle_spec(handle_spec(a, Key::Enter, rows).0, Key::Enter, rows).0 == (AppView {
            status: Seq::empty(),
            buf: Seq::empty(),
            ..a
        }),
{
    let m = a.monitors[a.tab];
    let v = m.new_scale;
    assert(pow10(2) == 100) by {
        reveal_with_fuel(pow10, 3);
    }
    law_fixed_round_trip(v, 4);
    lemma_short_frac_range(fixed_str(v as int, 4), v);
    reveal(decimal_scale);
    assert(scale_entry_spec(fixed_str(v as int, 4)) == ScaleEntry::Value(v));
    let b = handle_spec(a, Key::Enter, rows).0;
    assert(b.buf == fixed_str(v as int, 4));
    let c = handle_spec(b, Key::Enter, rows).0;
    assert(c.monitors =~= a.monitors);
    assert(c =~= AppView { status: Seq::empty(), buf: Seq::empty(), ..a });
}

pub open spec fn no_dups<A>(s: Seq<A>) -> bool {
    forall|i: int, j: int| 0 <= i < j < s.len() ==> s[i] != s[j]
}

proof fn lemma_pos_index(opts: Seq<PosModeView>, i: int)
    requires
        no_dups(opts),
        0 <= i < opts.len(),
    ensures
        pos_index(opts, opts[i]) == i,
    decreases opts.len(),
{
    if i > 0 {
        let t = opts.subrange(1, opts.len() as int);
        assert(opts[0] != opts[i]);
        assert(t[i - 1] == opts[i]);
        assert forall|x: int, y: int| 0 <= x < y < t.len() implies t[x] != t[y] by {
            assert(t[x] == opts[x + 1] && t[y] == opts[y + 1]);
        }
        lemma_pos_index(t, i - 1);
    }
}

proof fn lemma_others(ms: Seq<MonitorView>, name: Seq<char>)
    requires
        forall|i: int, j: int| 0 <= i < j < ms.len() ==> ms[i].name != ms[j].name,
    ensures
        no_dups(others_of(ms, name)),
        forall|x: Seq<char>| #[trigger] others_of(ms, name).contains(x) <==> (x != name && exists|i: int|
            0 <= i < ms.len() && ms[i].name == x),
    decreases ms.len(),
{
    let o = others_of(ms, name);
    if ms.len() > 0 {
        let pre = ms.subrange(0, ms.len() - 1);
        let last = ms[ms.len() - 1];
        assert forall|i: int, j: int| 0 <= i < j < pre.len() implies pre[i].name != pre[j].name by {
            assert(pre[i] == ms[i] && pre[j] == ms[j]);
        }
        lemma_others(pre, name);
        let r = others_of(pre, name);
        assert forall|x: Seq<char>| #[trigger] o.contains(x) <==> (x != name && exists|i: int|
            0 <= i < ms.len() && ms[i].name == x) by {
            if o.contains(x) {
                let k = choose|k: int| 0 <= k < o.len() && o[k] == x;
                if k < r.len() {
                    assert(r.contains(x));
                    let i = choose|i: int| 0 <= i < pre.len() && pre[i].name == x;
                    assert(ms[i].name == x);
                } else {
                    assert(ms[ms.len() - 1].name == x);
                }
            }
            if x != name && exists|i: int| 0 <= i < ms.len() && ms[i].name == x {
                let i = choose|i: int| 0 <= i < ms.len() && ms[i].name == x;
                if i < ms.len() - 1 {
                    assert(pre[i].name == x);
                    assert(r.contains(x));
                    let k = choose|k: int| 0 <= k < r.len() && r[k] == x;
                    assert(o[k] == x);
                } else {
                    assert(o[o.len() - 1] == x);
                }
            }
        }
        assert forall|i: int, j: int| 0 <= i < j < o.len() implies o[i] != o[j] by {
            if j < r.len() {
            } else {
                assert(o[j] == last.name);
                assert(r.contains(o[i]));
                let p = choose|p: int| 0 <= p < pre.len() && pre[p].name == o[i];
                assert(ms[p].name != ms[ms.len() - 1].name);
            }
        }
    }
}

proof fn lemma_rel_options_distinct(others: Seq<Seq<char>>)
    requires
        no_dups(others),
    ensures
        no_dups(rel_options_all(others)),
        forall|i: int|
            0 <= i < rel_options_all(others).len() ==> others.contains(
                ref_name(#[trigger] rel_options_all(others)[i]),
            ),
{
    lemma_rel_options_all(others);
    let r = rel_options_all(others);
    assert forall|i: int| 0 <= i < r.len() implies others.contains(ref_name(#[trigger] r[i])) by {
        let j = i / 8;
        let k = i % 8;
        assert(i == 8 * j + k);
        assert(r[8 * j + k] == rel_options(others[j])[k]);
        assert(ref_name(rel_options(others[j])[k]) == others[j]);
    }
    assert forall|i: int, i2: int| 0 <= i < i2 < r.len() implies r[i] != r[i2] by {
        let j = i / 8;
        let k = i % 8;
        let j2 = i2 / 8;
        let k2 = i2 % 8;
        assert(i == 8 * j + k && i2 == 8 * j2 + k2);
        assert(r[8 * j + k] == rel_options(others[j])[k]);
        assert(r[8 * j2 + k2] == rel_options(others[j2])[k2]);
        assert(ref_name(rel_options(others[j])[k]) == others[j]);
        assert(ref_name(rel_options(others[j2])[k2]) == others[j2]);
        if j != j2 {
            assert(others[j] != others[j2]);
        } else {
            assert(k != k2);
        }
    }
}

/// The options offered for a relative placement that is next to another
/// output: the relative ones, then the origin; without repetition; with the
/// placement itself at index `ci`.
#[verifier::spinoff_prover]
proof fn lemma_current_option(p: PosModeView, others: Seq<Seq<char>>) -> (ci: int)
    requires
        no_dups(others),
        !(p is Absolute),
        others.contains(ref_name(p)),
    ensures
        0 <= ci < 8 * others.len(),
        cycle_list_spec(p, others) == rel_options_all(others).push(PosModeView::Absolute(0, 0)),
        no_dups(cycle_list_spec(p, others)),
        cycle_list_spec(p, others)[ci] == p,
        pos_index(cycle_list_spec(p, others), p) == ci,
{
    lemma_rel_options_distinct(others);
    lemma_rel_options_all(others);
    let rels = rel_options_all(others);
    let n = others.len();
    let opts = cycle_list_spec(p, others);
    lemma_no_absolute_among(rels);
    assert(opts == rels.push(PosModeView::Absolute(0, 0)));
    assert(no_dups(opts)) by {
        assert forall|i: int, j: int| 0 <= i < j < opts.len() implies opts[i] != opts[j] by {
            if j < rels.len() {
                assert(opts[i] == rels[i] && opts[j] == rels[j]);
            } else {
                assert(opts[i] == rels[i]);
                assert(!(rels[i] is Absolute));
            }
        }
    }
    let r = ref_name(p);
    let oj = choose|oj: int| 0 <= oj < others.len() && others[oj] == r;
    let k: int = match p {
        PosModeView::Below(_, al) => if al == Align::Start {
            0
        } else {
            1
        },
        PosModeView::RightOf(_, al) => if al == Align::Start {
            2
        } else {
            3
        },
        PosModeView::Above(_, al) => if al == Align::Start {
            4
        } else {
            5
        },
        PosModeView::LeftOf(_, al) => if al == Align::Start {
            6
        } else {
            7
        },
        PosModeView::Absolute(_, _) => 0,
    };
    assert(rel_options(others[oj])[k] == p);
    let ci = 8 * oj + k;
    assert(ci < 8 * n) by (nonlinear_arith)
        requires
            oj < n,
            0 <= k < 8,
            ci == 8 * oj + k,
    ;
    assert(opts[ci] == p);
    lemma_pos_index(opts, ci);
    ci
}

proof fn lemma_no_absolute_among(rels: Seq<PosModeView>)
    requires
        forall|i: int| 0 <= i < rels.len() ==> !(#[trigger] rels[i] is Absolute),
    ensures
        !rels.contains(PosModeView::Absolute(0, 0)),
{
    if rels.contains(PosModeView::Absolute(0, 0)) {
        let i = choose|i: int| 0 <= i < rels.len() && rels[i] == PosModeView::Absolute(0, 0);
        assert(rels[i] is Absolute);
    }
}

/// In the layout section, Right and then Left give back the selected output's
/// placement next to another output, when the outputs have distinct names;
/// only the status line is emptied.
#[verifier::rlimit(40)]
pub proof fn law_layout_right_left(a: AppView, rows: int)
    requires
        a.wf(),
        a.monitors.len() > 0,
        a.ui == UiMode::Normal,
        a.section == Section::Layout,
        forall|i: int, j: int|
            0 <= i < j < a.monitors.len() ==> a.monitors[i].name != a.monitors[j].name,
        !(a.monitors[a.layout_sel].new_pos is Absolute),
        exists|j: int|
            0 <= j < a.monitors.len() && j != a.layout_sel && a.monitors[j].name == ref_name(
                a.monitors[a.layout_sel].new_pos,
            ),
    ensures
        handle_spec(handle_spec(a, Key::Right, rows).0, Key::Left, rows).0 == cleared(a),
{
    let ms = a.monitors;
    let sel = a.layout_sel;
    let m = ms[sel];
    let others = others_of(ms, m.name);
    lemma_others(ms, m.name);
    let r = ref_name(m.new_pos);
    let jj = choose|j: int| 0 <= j < ms.len() && j != sel && ms[j].name == r;
    assert(r != m.name);
    assert(others.contains(r));
    let ci = lemma_current_option(m.new_pos, others);
    lemma_rel_options_all(others);
    let opts = cycle_list_spec(m.new_pos, others);
    let len = opts.len() as int;
    assert(len == 8 * others.len() + 1);
    let ni = (ci + 1) % len;
    assert(ni == ci + 1) by (nonlinear_arith)
        requires
            0 <= ci,
            ci + 1 < len,
            ni == (ci + 1) % len,
    ;
    let b = handle_spec(a, Key::Right, rows).0;
    assert(b == cycle_pos_spec(cleared(a), 1));
    let m1 = b.monitors[sel];
    assert(m1 == MonitorView { new_pos: opts[ni], ..m });
    assert(b.monitors == ms.update(sel, m1));
    lemma_others_same(ms, sel, m1, m.name);
    assert(others_of(b.monitors, m1.name) == others);
    lemma_pos_index(opts, ni);
    let opts2 = cycle_list_spec(m1.new_pos, others);
    lemma_rel_options_distinct(others);
    lemma_no_absolute_among(rel_options_all(others));
    assert(abs_option(m1.new_pos) == PosModeView::Absolute(0, 0));
    assert(opts2 == opts);
    let c = handle_spec(b, Key::Left, rows).0;
    assert(c == cycle_pos_spec(cleared(b), -1));
    assert((ni - 1) % len == ci) by (nonlinear_arith)
        requires
            0 <= ci,
            ci + 1 < len,
            ni == ci + 1,
    ;
    assert(c.monitors =~= ms);
    assert(c =~= cleared(a));
}

proof fn lemma_others_same(ms: Seq<MonitorView>, sel: int, m1: MonitorView, name: Seq<char>)
    requires
        0 <= sel < ms.len(),
        m1.name == ms[sel].name,
    ensures
        others_of(ms.update(sel, m1), name) == others_of(ms, name),
    decreases ms.len(),
{
    if ms.len() > 0 {
        let u = ms.update(sel, m1);
        let pre = ms.subrange(0, ms.len() - 1);
        let upre = u.subrange(0, u.len() - 1);
        if sel < ms.len() - 1 {
            assert(upre =~= pre.update(sel, m1));
            lemma_others_same(pre, sel, m1, name);
        } else {
            assert(upre =~= pre);
        }
    }
}

/// What `wlr-randr` reported of an output, as opposed to what is pending.
pub open spec fn reported(m: MonitorView) -> (
    Seq<char>,
    Seq<char>,
    Seq<char>,
    bool,
    Seq<Mode>,
    int,
    (i32, i32),
    Seq<char>,
    i64,
    bool,
) {
    (m.name, m.make, m.model, m.enabled, m.modes, m.cur_mode, m.position, m.transform, m.scale, m.adaptive_sync)
}

/// The outputs of `x` and `y` are as many, and `wlr-randr` reported the same
/// of each.
pub open spec fn same_reports(x: Seq<MonitorView>, y: Seq<MonitorView>) -> bool {
    &&& x.len() == y.len()
    &&& forall|i: int| 0 <= i < x.len() ==> reported(#[trigger] x[i]) == reported(y[i])
}

proof fn lemma_with_mon_reports(a: AppView, i: int, m: MonitorView)
    requires
        0 <= i < a.monitors.len(),
        reported(m) == reported(a.monitors[i]),
    ensures
        same_reports(with_mon(a, i, m).monitors, a.monitors),
{
    assert forall|j: int| 0 <= j < a.monitors.len() implies reported(
        #[trigger] with_mon(a, i, m).monitors[j],
    ) == reported(a.monitors[j]) by {
        if j != i {
            assert(with_mon(a, i, m).monitors[j] == a.monitors[j]);
        }
    }
}

proof fn lemma_text_stages(a: AppView, key: Key)
    requires
        can_handle(a, key),
    ensures
        same_reports(text_spec(a, key).monitors, a.monitors),
{
    if a.monitors.len() > 0 {
        let a1 = AppView { buf: Seq::empty(), ui: UiMode::Normal, ..a };
        if is_enter(key) && key != Key::Code(27) {
            let b = a.buf;
            if a.section == Section::Settings && a.sel_field == F_SCALE {
                if let ScaleEntry::Value(v) = scale_entry_spec(trim(b)) {
                    lemma_with_mon_reports(a1, a.tab, MonitorView { new_scale: v, ..a.monitors[a.tab] });
                }
            } else if a.section == Section::Layout {
                let k = find(b, ',');
                if k < b.len() {
                    if let (Some(x), Some(y)) = (
                        parse_i32_spec(trim(b.subrange(0, k))),
                        parse_i32_spec(trim(b.subrange(k + 1, b.len() as int))),
                    ) {
                        lemma_with_mon_reports(
                            a1,
                            a.layout_sel,
                            MonitorView { new_pos: PosModeView::Absolute(x, y), ..a.monitors[a.layout_sel] },
                        );
                    }
                }
            }
        }
    }
}

proof fn lemma_normal_stages(a: AppView, key: Key)
    requires
        can_handle(a, key),
        a.ui == UiMode::Normal,
    ensures
        same_reports(normal_spec(a, key).0.monitors, a.monitors),
{
    lemma_proj_keeps(a.monitors, step_spec(a.proj, 1));
    lemma_proj_keeps(a.monitors, step_spec(a.proj, -1));
    if a.monitors.len() > 0 {
        let c = cleared(a);
        if key == Key::Left || key == Key::Right {
            let dir: int = if key == Key::Left {
                -1
            } else {
                1
            };
            if a.section == Section::Settings {
                let m = c.monitors[c.tab];
                let m2 = cycle_setting_spec(c, dir).monitors[c.tab];
                assert(cycle_setting_spec(c, dir) == with_mon(c, c.tab, m2));
                lemma_with_mon_reports(c, c.tab, m2);
            } else if a.section == Section::Layout {
                let m2 = cycle_pos_spec(c, dir).monitors[c.layout_sel];
                assert(cycle_pos_spec(c, dir) == with_mon(c, c.layout_sel, m2));
                lemma_with_mon_reports(c, c.layout_sel, m2);
            }
        } else if is_enter(key) && key != Key::Code(113) && key != Key::Code(9) {
            if a.section == Section::Settings {
                let m = a.monitors[a.tab];
                lemma_with_mon_reports(c, a.tab, MonitorView { new_adaptive: !m.new_adaptive, ..m });
                lemma_with_mon_reports(c, a.tab, MonitorView { new_enabled: !m.new_enabled, ..m });
            }
        } else if key == Key::Code(112) || key == Key::Code(46) || key == Key::Code(44) {
            lemma_proj_keeps(a.monitors, step_spec(a.proj, 1));
            lemma_proj_keeps(a.monitors, step_spec(a.proj, -1));
        } else if key == Key::Code(114) {
            lemma_with_mon_reports(a, a.tab, a.monitors[a.tab].reset());
        }
    }
    if a.monitors.len() == 0 {
        let r = normal_spec(a, key).0;
        if key == Key::Code(112) || key == Key::Code(46) || key == Key::Code(44) {
            assert(same_reports(r.monitors, a.monitors));
        } else if is_enter(key) {
            assert(a.section == Section::Tabs || a.sel_field == F_TRANSFORM);
            assert(r.monitors == a.monitors);
        } else if key == Key::Left || key == Key::Right {
            assert(a.section == Section::Tabs);
            assert(r.monitors == a.monitors);
        } else {
            assert(r.monitors == a.monitors);
        }
    }
}

/// Keys only stage settings: no key changes the outputs or what `wlr-randr`
/// reported of them; that changes only when they are read again after an apply.
pub proof fn law_keys_only_stage(a: AppView, key: Key, rows: int)
    requires
        can_handle(a, key),
    ensures
        same_reports(handle_spec(a, key, rows).0.monitors, a.monitors),
{
    if a.ui == UiMode::TextEdit {
        lemma_text_stages(a, key);
    } else if a.ui is ModeSelect {
        if let UiMode::ModeSelect { scroll, hover } = a.ui {
            let m = a.monitors[a.tab];
            lemma_with_mon_reports(a, a.tab, MonitorView { new_mode: hover as int, ..m });
        }
    } else {
        lemma_normal_stages(a, key);
    }
}

/// `p` is the part of `s` between `a` and `b`.
proof fn lemma_occurs_between(a: Seq<char>, p: Seq<char>, b: Seq<char>)
    ensures
        contains(a + p + b, p),
{
    assert((a + p + b).subrange(a.len() as int, (a.len() + p.len()) as int) =~= p);
    assert(occurs_at(a + p + b, p, a.len() as int));
}

/// What is shown is what is applied: for the output selected in the layout
/// section, unless its position is being typed, the position line shows the
/// coordinates it resolves to (`x=X y=Y` for an absolute placement,
/// `-> (X, Y)` for a relative one), the diagram draws its box there, and,
/// when it is to be enabled, its arguments hold `--pos X,Y`.
pub proof fn law_shown_position_is_applied(a: AppView)
    requires
        a.wf(),
        a.monitors.len() > 0,
        !(a.section == Section::Layout && a.ui == UiMode::TextEdit),
    ensures
        ({
            let m = a.monitors[a.layout_sel];
            let p = resolve_spec(m.new_pos, m, a.monitors, 0);
            let args = build_args_spec(m, a.monitors);
            let line = position_line_spec(a);
            &&& m.new_pos is Absolute ==> contains(line, "x="@ + int_str(p.0 as int) + " y="@ + int_str(p.1 as int))
            &&& !(m.new_pos is Absolute) ==> contains(
                line,
                "-> ("@ + int_str(p.0 as int) + ", "@ + int_str(p.1 as int) + ")"@,
            )
            &&& items_spec(a)[a.layout_sel].x == p.0
            &&& items_spec(a)[a.layout_sel].y == p.1
            &&& m.new_enabled ==> exists|k: int|
                0 <= k && k + 1 < args.len() && #[trigger] args[k] == "--pos"@ && args[k + 1] == int_str(p.0 as int)
                    + ","@ + int_str(p.1 as int)
        }),
{
    let m = a.monitors[a.layout_sel];
    let p = resolve_spec(m.new_pos, m, a.monitors, 0);
    let in_layout = a.section == Section::Layout;
    let nav = if a.monitors.len() > 1 {
        " ("@ + nat_str((a.layout_sel + 1) as nat) + "/"@ + nat_str(a.monitors.len()) + ")"@
    } else {
        ""@
    };
    let pre = " "@ + (if in_layout {
        ">"@
    } else {
        " "@
    }) + "  "@ + pad_right(m.name + nav + ":"@, 12) + "  "@;
    let post = if m.pos_dirty() {
        " [*]"@
    } else {
        ""@
    };
    match m.new_pos {
        PosModeView::Absolute(px, py) => {
            let shown = "x="@ + int_str(px as int) + " y="@ + int_str(py as int);
            assert(position_line_spec(a) =~= pre + shown + post);
            lemma_occurs_between(pre, shown, post);
        },
        _ => {
            let shown = "-> ("@ + int_str(p.0 as int) + ", "@ + int_str(p.1 as int) + ")"@;
            let d = display_spec(m.new_pos) + "  "@;
            reveal_strlit("  -> (");
            reveal_strlit("  ");
            reveal_strlit("-> (");
            assert("  -> ("@ =~= "  "@ + "-> ("@);
            assert(position_line_spec(a) =~= (pre + d) + shown + post);
            lemma_occurs_between(pre + d, shown, post);
        },
    }
    if m.new_enabled {
        let head = seq!["--output"@, m.name];
        let on = if !m.enabled {
            seq!["--on"@]
        } else {
            seq![]
        };
        let mode = if m.new_mode != m.cur_mode {
            seq!["--mode"@, mode_arg(m.modes[m.new_mode])]
        } else {
            seq![]
        };
        let before = head + on + mode;
        let args = build_args_spec(m, a.monitors);
        let k = before.len() as int;
        assert(args.subrange(0, k + 2) =~= before + seq!["--pos"@, int_str(p.0 as int) + ","@ + int_str(p.1 as int)]);
        assert(args[k] == args.subrange(0, k + 2)[k]);
        assert(args[k + 1] == args.subrange(0, k + 2)[k + 1]);
    }
}

/// The arguments for the `j`-th output stand, in one piece, right after those
/// of the outputs before it.
proof fn lemma_all_args_block(ms: Seq<MonitorView>, all: Seq<MonitorView>, j: int)
    requires
        0 <= j < ms.len(),
    ensures
        ({
            let o = all_args(ms.subrange(0, j), all).len() as int;
            let b = build_args_spec(ms[j], all);
            o + b.len() <= all_args(ms, all).len() && all_args(ms, all).subrange(o, o + b.len()) == b
        }),
    decreases ms.len(),
{
    let last = ms.len() - 1;
    let front = ms.subrange(0, last);
    assert(all_args(ms, all) == all_args(front, all) + build_args_spec(ms[last], all));
    if j == last {
        assert(ms.subrange(0, j) =~= front);
        let o = all_args(front, all).len() as int;
        let b = build_args_spec(ms[j], all);
        assert(all_args(ms, all).subrange(o, o + b.len()) =~= b);
    } else {
        lemma_all_args_block(front, all, j);
        assert(front.subrange(0, j) =~= ms.subrange(0, j));
        assert(front[j] == ms[j]);
        let o = all_args(ms.subrange(0, j), all).len() as int;
        let b = build_args_spec(ms[j], all);
        assert(all_args(ms, all).subrange(o, o + b.len()) =~= all_args(front, all).subrange(o, o + b.len()));
    }
}

proof fn lemma_build_args_head(m: MonitorView, all: Seq<MonitorView>)
    ensures
        build_args_spec(m, all).len() >= 2,
        build_args_spec(m, all)[0] == "--output"@,
        build_args_spec(m, all)[1] == m.name,
{
    let b = build_args_spec(m, all);
    assert(b.subrange(0, 2) =~= seq!["--output"@, m.name]);
    assert(b[0] == b.subrange(0, 2)[0]);
    assert(b[1] == b.subrange(0, 2)[1]);
}

/// `args` holds `--output NAME` at index `o`.
pub open spec fn output_at(args: Seq<Seq<char>>, o: int, name: Seq<char>) -> bool {
    &&& 0 <= o
    &&& o + 1 < args.len()
    &&& args[o] == "--output"@
    &&& args[o + 1] == name
}

proof fn lemma_output_at(ms: Seq<MonitorView>, i: int)
    requires
        0 <= i < ms.len(),
    ensures
        output_at(all_args(ms, ms), all_args(ms.subrange(0, i), ms).len() as int, ms[i].name),
{
    lemma_all_args_block(ms, ms, i);
    lemma_build_args_head(ms[i], ms);
    let o = all_args(ms.subrange(0, i), ms).len() as int;
    let b = build_args_spec(ms[i], ms);
    let args = all_args(ms, ms);
    assert(args[o] == args.subrange(o, o + b.len())[0]);
    assert(args[o + 1] == args.subrange(o, o + b.len())[1]);
}

/// The whole layout is always sent: when anything is pending, the arguments
/// are those of every output, in order, each starting with `--output NAME`.
pub proof fn law_whole_layout_sent(ms: Seq<MonitorView>)
    requires
        any_dirty(ms),
    ensures
        apply_args_spec(ms) == Some(all_args(ms, ms)),
        forall|i: int|
            #![trigger ms[i]]
            0 <= i < ms.len() ==> output_at(all_args(ms, ms), all_args(ms.subrange(0, i), ms).len() as int, ms[i].name),
{
    assert forall|i: int| 0 <= i < ms.len() implies output_at(
        all_args(ms, ms),
        all_args(ms.subrange(0, i), ms).len() as int,
        ms[i].name,
    ) by {
        lemma_output_at(ms, i);
    }
}

/// `r` in the normal view leaves nothing pending on the current output and
/// changes no other output.
pub proof fn law_r_resets_current(a: AppView, rows: int)
    requires
        a.wf(),
        a.monitors.len() > 0,
        a.ui == UiMode::Normal,
    ensures
        !handle_spec(a, Key::Code(114), rows).0.monitors[a.tab].dirty(),
        forall|i: int|
            0 <= i < a.monitors.len() && i != a.tab ==> #[trigger] handle_spec(a, Key::Code(114), rows).0.monitors[i]
                == a.monitors[i],
{
    law_reset_clears(a.monitors[a.tab]);
}

/// Tab moves the focus from the settings to the layout, from the layout to
/// the tabs and from the tabs to the settings, so three Tabs bring it back.
pub proof fn law_tab_cycles_focus(a: AppView, rows: int)
    requires
        a.ui == UiMode::Normal,
    ensures
        ({
            let b = handle_spec(a, Key::Code(9), rows).0;
            let c = handle_spec(b, Key::Code(9), rows).0;
            let d = handle_spec(c, Key::Code(9), rows).0;
            &&& a.section == Section::Settings ==> b.section == Section::Layout
            &&& a.section == Section::Layout ==> b.section == Section::Tabs
            &&& a.section == Section::Tabs ==> b.section == Section::Settings
            &&& d == cleared(a)
        }),
{
}

/// In the settings, Enter on the mode opens the mode list with the cursor on
/// the pending mode; then Enter, which takes the mode under the cursor, or
/// Esc, which leaves the list, both return to the normal view with every
/// output as it was.
pub proof fn law_mode_list_open_and_close(a: AppView, rows: int, close: Key)
    requires
        a.wf(),
        a.monitors.len() > 0,
        a.ui == UiMode::Normal,
        a.section == Section::Settings,
        a.sel_field == F_MODE,
        a.monitors[a.tab].new_mode <= usize::MAX,
        close == Key::Enter || close == Key::Code(27),
    ensures
        ({
            let b = handle_spec(a, Key::Enter, rows).0;
            let c = handle_spec(b, close, rows).0;
            &&& b.ui == (UiMode::ModeSelect {
                scroll: b.ui->scroll,
                hover: a.monitors[a.tab].new_mode as usize,
            })
            &&& c.ui == UiMode::Normal
            &&& c.monitors == a.monitors
        }),
{
    let b = handle_spec(a, Key::Enter, rows).0;
    let m = a.monitors[a.tab];
    assert(b.monitors == a.monitors);
    if close == Key::Enter {
        let c = handle_spec(b, close, rows).0;
        assert(MonitorView { new_mode: (m.new_mode as usize) as int, ..m } == m);
        assert(c.monitors =~= a.monitors.update(a.tab, m));
        assert(a.monitors.update(a.tab, m) =~= a.monitors);
    }
}

/// Two outputs placed relative to each other form a circular reference: each
/// keeps its reported position (the outputs' names being distinct).
pub proof fn law_mutual_placements_keep_reported(all: Seq<MonitorView>, i: int, j: int)
    requires
        0 <= i < all.len(),
        0 <= j < all.len(),
        i != j,
        forall|p: int, q: int| 0 <= p < q < all.len() ==> all[p].name != all[q].name,
        !(all[i].new_pos is Absolute),
        !(all[j].new_pos is Absolute),
        ref_name(all[i].new_pos) == all[j].name,
        ref_name(all[j].new_pos) == all[i].name,
    ensures
        resolve_spec(all[i].new_pos, all[i], all, 0) == all[i].position,
{
    let a = all[i];
    let b = all[j];
    lemma_find_monitor(all, b.name);
    lemma_find_monitor(all, a.name);
    let kb = find_monitor(all, b.name);
    let ka = find_monitor(all, a.name);
    assert(kb == j) by {
        if kb < j {
            assert(all[kb].name == b.name);
        } else if kb > j {
            assert(all[j].name != b.name);
        }
    }
    assert(ka == i) by {
        if ka < i {
            assert(all[ka].name == a.name);
        } else if ka > i {
            assert(all[i].name != a.name);
        }
    }
    assert(a.name != b.name) by {
        if i < j {
        } else {
        }
    }
    let s1 = seq![a.name].push(b.name);
    assert(s1[0] == a.name);
    assert(s1.contains(a.name));
    assert(!seq![a.name].contains(b.name)) by {
        if seq![a.name].contains(b.name) {
            let w = choose|w: int| 0 <= w < 1 && seq![a.name][w] == b.name;
            assert(seq![a.name][w] == a.name);
        }
    }
    assert(seq![a.name].push(b.name) == s1);
    assert(!crate::monitor::chain_ends(b.new_pos, all, s1, 1));
    assert(!crate::monitor::chain_ends(a.new_pos, all, seq![a.name], 0));
}


proof fn lemma_snap_on_grid(t: int)
    requires
        t >= 0,
        t % 250_000 == 0,
    ensures
        snap_quarter(t) == t,
{
    let q = t / 250_000;
    assert(t == q * 250_000);
    assert((q * 250_000 + 125_000) / 250_000 == q) by (nonlinear_arith)
        requires
            q >= 0,
    ;
}

/// In the settings, Right and then Left on the scale give it back when it
/// lies on the quarter grid between 0.25 and 3.75; only the status line is
/// emptied.
pub proof fn law_scale_right_left(a: AppView, rows: int)
    requires
        a.wf(),
        a.monitors.len() > 0,
        a.ui == UiMode::Normal,
        a.section == Section::Settings,
        a.sel_field == F_SCALE,
        a.monitors[a.tab].new_scale % 250_000 == 0,
        250_000 <= a.monitors[a.tab].new_scale <= 3_750_000,
    ensures
        handle_spec(handle_spec(a, Key::Right, rows).0, Key::Left, rows).0 == cleared(a),
{
    let m = a.monitors[a.tab];
    let s = m.new_scale as int;
    lemma_snap_on_grid(s + 250_000);
    lemma_snap_on_grid(s);
    let b = handle_spec(a, Key::Right, rows).0;
    let m1 = MonitorView { new_scale: (s + 250_000) as i64, ..m };
    assert(b == with_mon(cleared(a), a.tab, m1));
    let c = handle_spec(b, Key::Left, rows).0;
    assert(b.monitors[a.tab] == m1);
    assert(c == with_mon(cleared(b), a.tab, MonitorView { new_scale: s as i64, ..m1 }));
    assert(MonitorView { new_scale: s as i64, ..m1 } == m);
    assert(c.monitors =~= a.monitors);
}

/// The mode list keeps the cursor in view: when the cursor is within the rows
/// shown, Up and Down keep it within them, on a mode of the output, on the
/// screen when that has at least seven rows, and above the scroll line when
/// there is one and the screen has at least eight rows.
pub proof fn law_mode_list_window(a: AppView, key: Key, rows: int)
    requires
        a.wf(),
        a.ui is ModeSelect,
        a.ui->hover < a.ui->scroll + visible_rows(rows, a.monitors[a.tab].modes.len() as int),
        a.monitors[a.tab].modes.len() <= usize::MAX,
        key == Key::Up || key == Key::Down,
    ensures
        ({
            let b = handle_spec(a, key, rows).0;
            &&& b.ui is ModeSelect
            &&& b.ui->scroll <= b.ui->hover < b.ui->scroll + visible_rows(
                rows,
                a.monitors[a.tab].modes.len() as int,
            )
            &&& b.ui->hover < a.monitors[a.tab].modes.len()
            &&& b.monitors == a.monitors
            &&& rows >= 7 ==> 4 + (b.ui->hover - b.ui->scroll) < rows - 1
            &&& rows >= 8 && a.monitors[a.tab].modes.len() > full_rows(rows) ==> 4 + (b.ui->hover
                - b.ui->scroll) < rows - 2
        }),
{
    let scroll = a.ui->scroll;
    let hover = a.ui->hover;
    let n = a.monitors[a.tab].modes.len();
    let v = visible_rows(rows, n as int);
    assert(v >= 1);
    let b = handle_spec(a, key, rows).0;
    assert(b == crate::input::mode_select_spec(a, key, rows));
    if key == Key::Up {
        if hover > 0 {
            let h = (hover - 1) as usize;
            assert(b.ui == UiMode::ModeSelect { scroll: if h < scroll { h } else { scroll }, hover: h });
        } else {
            assert(b == a);
        }
    } else {
        if hover + 1 < n {
            let h = (hover + 1) as usize;
            let s2: int = if h >= scroll + v { h + 1 - v } else { scroll as int };
            assert(0 <= s2 <= h);
            assert(b.ui == UiMode::ModeSelect { scroll: s2 as usize, hover: h });
        } else {
            assert(b == a);
        }
    }
}

/// Following a chain with fewer names already met cannot come back to one.
proof fn lemma_chain_ends_fewer_seen(
    pos: PosModeView,
    all: Seq<MonitorView>,
    s1: Seq<Seq<char>>,
    s2: Seq<Seq<char>>,
    depth: int,
)
    requires
        chain_ends(pos, all, s1, depth),
        forall|n: Seq<char>| s2.contains(n) ==> s1.contains(n),
    ensures
        chain_ends(pos, all, s2, depth),
    decreases 9 - depth,
{
    if depth <= 8 && !(pos is Absolute) {
        let n = ref_name(pos);
        let k = find_monitor(all, n);
        if 0 <= k < all.len() {
            assert forall|x: Seq<char>| s2.push(n).contains(x) implies s1.push(n).contains(x) by {
                if x != n {
                    let w = choose|w: int| 0 <= w < s2.push(n).len() && s2.push(n)[w] == x;
                    assert(s2[w] == x);
                    assert(s1.contains(x));
                    let v = choose|v: int| 0 <= v < s1.len() && s1[v] == x;
                    assert(s1.push(n)[v] == x);
                } else {
                    assert(s1.push(n)[s1.len() as int] == n);
                }
            }
            lemma_chain_ends_fewer_seen(all[k].new_pos, all, s1.push(n), s2.push(n), depth + 1);
        }
    }
}

/// An output placed next to another touches it: where its chain does not come
/// back to an output already on it, its position is the placement applied to
/// the reference output's own resolved position and the two logical sizes
/// (right of: its left edge on the reference's right edge; below: its top
/// edge on the reference's bottom edge; and so on, at the start or centered).
pub proof fn law_placement_touches_reference(pos: PosModeView, this: MonitorView, all: Seq<MonitorView>, depth: int)
    requires
        0 <= depth <= 8,
        !(pos is Absolute),
        find_monitor(all, ref_name(pos)) < all.len(),
        chain_ends(pos, all, seq![this.name], depth),
    ensures
        ({
            let r = all[find_monitor(all, ref_name(pos))];
            resolve_spec(pos, this, all, depth) == place(
                pos,
                resolve_spec(r.new_pos, r, all, depth + 1),
                logical_size_spec(r),
                logical_size_spec(this),
            )
        }),
{
    lemma_find_monitor(all, ref_name(pos));
    let k = find_monitor(all, ref_name(pos));
    let r = all[k];
    let n = ref_name(pos);
    assert(!seq![this.name].contains(n));
    assert(chain_ends(r.new_pos, all, seq![this.name].push(n), depth + 1));
    assert forall|x: Seq<char>| seq![r.name].contains(x) implies seq![this.name].push(n).contains(x) by {
        let w = choose|w: int| 0 <= w < 1 && seq![r.name][w] == x;
        assert(x == r.name);
        assert(seq![this.name].push(n)[1] == n);
    }
    lemma_chain_ends_fewer_seen(r.new_pos, all, seq![this.name].push(n), seq![r.name], depth + 1);
}

/// The row of the cursor in a mode list drawn `w` wide.
pub open spec fn cursor_piece(a: AppView, rows: int, w: int) -> PieceView {
    let m = a.monitors[a.tab];
    let v = visible_rows(rows, m.modes.len() as int);
    let s = shown_scroll(a.ui->scroll as int, a.ui->hover as int, v);
    PieceView {
        y: (4 + a.ui->hover - s) as i32,
        x: 0,
        text: pad_spec(mode_row_spec(m.modes[a.ui->hover as int], true), w),
        style: Style::SelectedBold,
    }
}

proof fn lemma_join_some(x: Option<Seq<PieceView>>, y: Option<Seq<PieceView>>)
    requires
        join(x, y) is Some,
    ensures
        x is Some,
        y is Some,
        join(x, y)->0 == x->0 + y->0,
{
}

proof fn lemma_contains_in(p: Seq<PieceView>, q: Seq<PieceView>, e: PieceView)
    ensures
        p.contains(e) ==> (p + q).contains(e),
        q.contains(e) ==> (p + q).contains(e),
{
    if p.contains(e) {
        let k = choose|k: int| 0 <= k < p.len() && p[k] == e;
        assert((p + q)[k] == e);
    }
    if q.contains(e) {
        let k = choose|k: int| 0 <= k < q.len() && q[k] == e;
        assert((p + q)[p.len() + k] == e);
    }
}

proof fn lemma_overlay_row_drawn(a: AppView, i: int, s: int, hover: int, rows: int, w: int, v: int, j: int)
    requires
        overlay_rows(a, i, s, hover, rows, w, v) is Some,
        0 <= i <= j < v,
        4 + j < rows - 1,
        s + j == hover,
        0 <= hover < a.monitors[a.tab].modes.len(),
    ensures
        overlay_rows(a, i, s, hover, rows, w, v)->0.contains(
            PieceView {
                y: (4 + j) as i32,
                x: 0,
                text: pad_spec(mode_row_spec(a.monitors[a.tab].modes[hover], true), w),
                style: Style::SelectedBold,
            },
        ),
    decreases v - i,
{
    let modes = a.monitors[a.tab].modes;
    let mi = s + i;
    let y = (4 + i) as i32;
    let here = if mi >= modes.len() {
        line(y, ""@, w, Style::Plain)
    } else {
        line(y, mode_row_spec(modes[mi], mi == hover), w, mode_style(modes[mi], mi == hover))
    };
    let rest = overlay_rows(a, i + 1, s, hover, rows, w, v);
    assert(overlay_rows(a, i, s, hover, rows, w, v) == join(here, rest));
    lemma_join_some(here, rest);
    let e = PieceView {
        y: (4 + j) as i32,
        x: 0,
        text: pad_spec(mode_row_spec(modes[hover], true), w),
        style: Style::SelectedBold,
    };
    if i == j {
        assert(here->0[0] == e);
        assert(here->0.contains(e));
        lemma_contains_in(here->0, rest->0, e);
    } else {
        lemma_overlay_row_drawn(a, i + 1, s, hover, rows, w, v, j);
        lemma_contains_in(here->0, rest->0, e);
    }
}

/// The mode list shows the cursor: on a screen of at least seven rows, the
/// screen drawn while the mode list is open holds the cursor's line, marked
/// and highlighted, among the rows of the list.
pub proof fn law_cursor_line_drawn(a: AppView, rows: i32, cols: i32)
    requires
        a.wf(),
        a.ui is ModeSelect,
        rows >= 7,
        cols >= 0,
        draw_spec(a, rows, cols) is Some,
    ensures
        draw_spec(a, rows, cols)->0.contains(cursor_piece(a, rows as int, cols as int)),
        4 <= cursor_piece(a, rows as int, cols as int).y < rows - 1,
{
    let w = cols as int;
    let m = a.monitors[a.tab];
    let n = m.modes.len() as int;
    let v = visible_rows(rows as int, n);
    let scroll = a.ui->scroll as int;
    let hover = a.ui->hover as int;
    let s = shown_scroll(scroll, hover, v);
    let j = hover - s;
    assert(0 <= j < v);
    assert(v <= rows - 5);
    let head = join(line(0, " wlr-randr TUI"@, w, Style::HeaderBold), Some(tab_bar(a, w).push(rule(2, w))));
    let body = overlay(a, scroll, hover, rows, w);
    let status = statusbar_spec(a, rows, cols);
    assert(draw_spec(a, rows, cols) == join(head, join(body, status)));
    lemma_join_some(head, join(body, status));
    lemma_join_some(body, status);
    let hd = line(3, mode_header_spec(m), w, Style::OverlayBold);
    let rp = overlay_rows(a, 0, s, hover, rows as int, w, v);
    let ft = if m.modes.len() > full_rows(rows as int) {
        line(rows.wrapping_sub(2), mode_footer_spec(hover as nat, m.modes.len()), w, Style::Header)
    } else {
        Some(seq![])
    };
    assert(body == join(hd, join(rp, ft)));
    lemma_join_some(hd, join(rp, ft));
    lemma_join_some(rp, ft);
    lemma_overlay_row_drawn(a, 0, s, hover, rows as int, w, v, j);
    let e = cursor_piece(a, rows as int, w);
    lemma_contains_in(rp->0, ft->0, e);
    lemma_contains_in(hd->0, join(rp, ft)->0, e);
    lemma_contains_in(body->0, status->0, e);
    lemma_contains_in(head->0, join(body, status)->0, e);
}

pub open spec fn two_pow(n: nat) -> nat
    decreases n,
{
    if n == 0 {
        1
    } else {
        2 * two_pow((n - 1) as nat)
    }
}

proof fn lemma_scale_up(a: nat, p: nat, fuel: nat)
    requires
        p >= 1,
        a * p * two_pow(fuel) >= f64_limit(),
    ensures
        scale_up(a, p, fuel) >= 1,
        a * scale_up(a, p, fuel) >= f64_limit(),
    decreases fuel,
{
    if a * p < f64_limit() {
        if fuel == 0 {
            assert(two_pow(0) == 1);
            assert(a * p * 1 == a * p);
        } else {
            assert(a * (2 * p) * two_pow((fuel - 1) as nat) == a * p * two_pow(fuel)) by (nonlinear_arith)
                requires
                    two_pow(fuel) == 2 * two_pow((fuel - 1) as nat),
            ;
            lemma_scale_up(a, 2 * p, (fuel - 1) as nat);
        }
    }
}

/// `n / p` rounds to `z` when `n` is within less than half of `p` from `z * p`.
proof fn lemma_half_even_near(n: nat, p: nat, z: nat)
    requires
        p > 0,
        2 * (n - z * p) < p,
        2 * (z * p - n) < p,
    ensures
        half_even(n, p) == z,
{
    if n >= z * p {
        vstd::arithmetic::div_mod::lemma_fundamental_div_mod_converse(n as int, p as int, z as int, n - z * p);
    } else {
        assert(z >= 1) by (nonlinear_arith)
            requires
                n < z * p,
        ;
        assert((z - 1) * p == z * p - p) by (nonlinear_arith);
        vstd::arithmetic::div_mod::lemma_fundamental_div_mod_converse(
            n as int,
            p as int,
            z - 1,
            n - (z - 1) * p,
        );
    }
}

/// Within half a unit of `10^-6` of `z * k` millionths, the value scaled by
/// `p > 10^6` rounds to `z` units of `10^-d` (`pd * k == 10^6`).
proof fn lemma_near_units(t: nat, m: nat, a: nat, p: nat, z: nat, k: nat, pd: nat)
    requires
        2 * (m * 1_000_000 - t) <= 1_000_000,
        2 * (t - m * 1_000_000) <= 1_000_000,
        t == a * p,
        a == z * k,
        pd * k == 1_000_000,
        p > 1_000_000,
        k >= 1,
    ensures
        half_even(m * pd, p) == z,
{
    assert(pd <= 1_000_000) by (nonlinear_arith)
        requires
            pd * k == 1_000_000,
            k >= 1,
    ;
    let n = m * pd;
    assert(2 * (n - z * p) < p && 2 * (z * p - n) < p) by (nonlinear_arith)
        requires
            2 * (m * 1_000_000 - t) <= 1_000_000,
            2 * (t - m * 1_000_000) <= 1_000_000,
            t == a * p,
            a == z * k,
            n == m * pd,
            pd * k == 1_000_000,
            pd <= 1_000_000,
            p > 1_000_000,
            k >= 1,
    ;
    lemma_half_even_near(n, p, z);
}

/// The nearest integer to `t / 10^6` is within half of `10^6` of `t`.
proof fn lemma_half_even_close(t: nat)
    ensures
        2 * (half_even(t, 1_000_000) * 1_000_000 - t) <= 1_000_000,
        2 * (t - half_even(t, 1_000_000) * 1_000_000) <= 1_000_000,
{
    let q0 = t / 1_000_000;
    let r0 = t % 1_000_000;
    vstd::arithmetic::div_mod::lemma_fundamental_div_mod(t as int, 1_000_000);
    let m = half_even(t, 1_000_000);
    assert(2 * (m * 1_000_000 - t) <= 1_000_000 && 2 * (t - m * 1_000_000) <= 1_000_000) by (nonlinear_arith)
        requires
            t == q0 * 1_000_000 + r0,
            0 <= r0 < 1_000_000,
            (m == q0 && 2 * r0 <= 1_000_000) || (m == q0 + 1 && 2 * r0 >= 1_000_000),
    ;
}

/// Written with `d` decimals, a value of at most `d` decimals and less than
/// `2^52` millionths is written exactly: the nearest `f64` is close enough.
#[verifier::spinoff_prover]
proof fn lemma_f64_units_exact(a: nat, d: nat)
    requires
        1 <= d <= 6,
        a % pow10((6 - d) as nat) == 0,
        a < 4_503_599_627_370_496,
    ensures
        f64_units(a, d) == (a + pow10((6 - d) as nat) / 2) / pow10((6 - d) as nat),
        f64_units(a, d) == a / pow10((6 - d) as nat),
{
    lemma_pow10_split(d);
    let k = pow10((6 - d) as nat);
    let pd = pow10(d);
    let z = a / k;
    vstd::arithmetic::div_mod::lemma_fundamental_div_mod(a as int, k as int);
    assert(a == z * k);
    assert((a + k / 2) / k == z) by {
        vstd::arithmetic::div_mod::lemma_fundamental_div_mod_converse(
            (a + k / 2) as int,
            k as int,
            z as int,
            (k / 2) as int,
        );
    }
    if a > 0 {
        assert(two_pow(80) == 1_208_925_819_614_629_174_706_176) by {
            reveal_with_fuel(two_pow, 81);
        }
        assert(a * 1 * two_pow(80) >= f64_limit()) by (nonlinear_arith)
            requires
                a >= 1,
                two_pow(80) == 1_208_925_819_614_629_174_706_176,
                f64_limit() == 4_503_599_627_370_496_000_000,
        ;
        lemma_scale_up(a, 1, 80);
        let p = scale_up(a, 1, 80);
        assert(p > 1_000_000) by (nonlinear_arith)
            requires
                a * p >= 4_503_599_627_370_496_000_000,
                a < 4_503_599_627_370_496,
        ;
        let t = a * p;
        lemma_half_even_close(t);
        let m = half_even(t, 1_000_000);
        lemma_near_units(t, m, a, p, z, k, pd);
        assert(f64_units(a, d) == half_even(m * pd, p));
    }
}
} // verus!
