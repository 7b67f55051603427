//! The byte that says what a frame is.

use vstd::prelude::*;

verus! {

pub const PRODUCE: u8 = 0x01;

pub const FETCH: u8 = 0x02;

pub const CREATE_TOPIC: u8 = 0x03;

pub const COMMIT_OFFSET: u8 = 0x04;

pub const RESPONSE: u8 = 0x80;

pub const ERROR: u8 = 0x81;

} // verus!
