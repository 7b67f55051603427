//! The byte that says what a response holds.

use vstd::prelude::*;

verus! {

pub const OK: u8 = 0x00;

pub const OFFSET: u8 = 0x01;

pub const PAYLOAD: u8 = 0x02;

} // verus!
