//! The settings fields and the transform names.
use vstd::prelude::*;

verus! {

pub const N_FIELDS: usize = 5;

pub const F_MODE: usize = 0;

pub const F_SCALE: usize = 1;

pub const F_TRANSFORM: usize = 2;

pub const F_ADAPTIVE: usize = 3;

pub const F_ENABLED: usize = 4;

/// The output transforms, in the order in which the settings cycle through them.
pub open spec fn transforms() -> Seq<Seq<char>> {
    seq![
        "normal"@,
        "90"@,
        "180"@,
        "270"@,
        "flipped"@,
        "flipped-90"@,
        "flipped-180"@,
        "flipped-270"@,
    ]
}

pub const N_TRANSFORMS: usize = 8;

/// The `i`-th transform name.
pub fn transform_name(i: usize) -> (r: &'static str)
    requires
        i < N_TRANSFORMS,
    ensures
        r@ == transforms()[i as int],
{
    match i {
        0 => "normal",
        1 => "90",
        2 => "180",
        3 => "270",
        4 => "flipped",
        5 => "flipped-90",
        6 => "flipped-180",
        _ => "flipped-270",
    }
}

/// The labels of the settings fields, by field index.
pub open spec fn field_names() -> Seq<Seq<char>> {
    seq!["Mode"@, "Scale"@, "Transform"@, "Adaptive Sync"@, "Enabled"@]
}

/// The label of settings field `f`.
pub fn field_name(f: usize) -> (r: &'static str)
    requires
        f < N_FIELDS,
    ensures
        r@ == field_names()[f as int],
{
    match f {
        0 => "Mode",
        1 => "Scale",
        2 => "Transform",
        3 => "Adaptive Sync",
        _ => "Enabled",
    }
}

} // verus!
