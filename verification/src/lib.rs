//! Fuzzy-logic combination operators on scalar degrees of truth.
//!
//! A degree of truth is an IEEE 754 binary32 number, held as its bit pattern
//! in a [`truth::Truth`]. Three families of binary operators are offered:
//! Zadeh's selection operators, Einstein's bounded product and sum, and
//! Werner's weighted blend of minimum and mean. Every operator answers `None`
//! when an operand or the computed result is not a finite number.
//!
//! All arithmetic is carried out on the bit patterns with integers only, and
//! every result is proved to be the correctly rounded one (round to nearest,
//! ties to even).
pub mod arithmetic;
pub mod einstein;
pub mod laws;
pub mod rounding;
pub mod truth;
pub mod werner;
pub mod zadeh;
