use vstd::prelude::*;

verus! {

/// Frame delimiter byte: opens and closes every frame.
pub const END: u8 = 0xC0;

/// Escape marker byte: announces one of the two escaped substitutes.
pub const ESC: u8 = 0xDB;

/// Stand-in for a literal `END` byte inside payload data.
pub const ESC_END: u8 = 0xDC;

/// Stand-in for a literal `ESC` byte inside payload data.
pub const ESC_ESC: u8 = 0xDD;

} // verus!
