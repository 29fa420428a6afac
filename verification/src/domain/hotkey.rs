//! Key combinations.

use vstd::prelude::*;

verus! {

#[derive(Clone, Copy, Debug, PartialEq, Eq, Structural)]
pub enum HotkeyModifier {
    Control,
    Alt,
    Shift,
    Win,
}

/// Modifier keys and a virtual-key code.
#[derive(Clone, Debug)]
pub struct HotkeyConfig {
    pub modifiers: Vec<HotkeyModifier>,
    pub virtual_key: u32,
}

} // verus!
