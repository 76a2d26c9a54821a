//! The three-bit type tags of value records, written LSB-first.

use vstd::prelude::*;

verus! {

pub const NULL: u8 = 0;

pub const BOOL_FALSE: u8 = 1;

pub const BOOL_TRUE: u8 = 2;

pub const INT: u8 = 3;

pub const FLOAT: u8 = 4;

pub const STRING: u8 = 5;

pub const OBJECT: u8 = 6;

pub const ARRAY: u8 = 7;

} // verus!
