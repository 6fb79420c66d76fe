//! Verified parsing and ordering of C++20 module dependency files in the
//! P1689 (revision 5) JSON format.
#![allow(unused_imports)]

pub mod util;
pub mod stream;
pub mod number;
pub mod string;
pub mod json;
pub mod r5;
pub mod order;
pub mod compiler;
pub mod message;
pub mod testing;
pub mod datagen;
