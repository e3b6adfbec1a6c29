//! Key-value tables keyed by text, with two collision strategies:
//! separate chaining (`closedaddressing`) and bounded linear probing with
//! growth on saturation (`openaddressing`).

pub mod digest;
pub mod closedaddressing;
pub mod openaddressing;
