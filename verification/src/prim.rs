//! Modular arithmetic on the primitive unsigned integers.

pub mod width128;
pub mod width16;
pub mod width32;
pub mod width64;
pub mod width8;
pub mod word;
