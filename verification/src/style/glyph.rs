//! Glyphs that draw a stack as a graph.

use vstd::prelude::*;

verus! {

pub const CHAIN: &'static str = "│";

pub const TEE: &'static str = "├─";

pub const ELBOW: &'static str = "└─";

pub const CURRENT: &'static str = "●";

pub const ACTIVE: &'static str = "○";

pub const MERGED: &'static str = "✓";

pub const ARROW: &'static str = "→";

pub const WARN: &'static str = "▲";

} // verus!
