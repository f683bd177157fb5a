//! Blend modes and the CPU compositor handle.

use vstd::prelude::*;
use crate::strs::str_eq;

verus! {

/// Supported blend modes for layer compositing.
#[derive(Clone, Copy, Debug, PartialEq, Eq, Structural)]
pub enum BlendMode {
    Normal,
    Screen,
    Add,
    Subtract,
    Multiply,
    Divide,
    Difference,
}

/// The blend mode a layer's blend-mode name selects; unknown names mean `Normal`.
pub open spec fn spec_blend_mode_of(name: Seq<char>) -> BlendMode {
    if name == "screen"@ {
        BlendMode::Screen
    } else if name == "add"@ {
        BlendMode::Add
    } else if name == "subtract"@ {
        BlendMode::Subtract
    } else if name == "multiply"@ {
        BlendMode::Multiply
    } else if name == "divide"@ {
        BlendMode::Divide
    } else if name == "difference"@ {
        BlendMode::Difference
    } else {
        BlendMode::Normal
    }
}

/// The blend mode a layer's blend-mode name selects; unknown names mean `Normal`.
pub fn blend_mode_of(name: &str) -> (r: BlendMode)
    ensures
        r == spec_blend_mode_of(name@),
{
    if str_eq(name, "screen") {
        BlendMode::Screen
    } else if str_eq(name, "add") {
        BlendMode::Add
    } else if str_eq(name, "subtract") {
        BlendMode::Subtract
    } else if str_eq(name, "multiply") {
        BlendMode::Multiply
    } else if str_eq(name, "divide") {
        BlendMode::Divide
    } else if str_eq(name, "difference") {
        BlendMode::Difference
    } else {
        BlendMode::Normal
    }
}

/// CPU compositor - simple alpha blending on CPU.
#[derive(Clone, Copy, Debug)]
pub struct CpuCompositor;

} // verus!
