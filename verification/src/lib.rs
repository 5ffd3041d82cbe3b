//! Height-field synthesis for sheet-metal stamping dies.
//!
//! A black-and-white input bitmap marks where a sheet is punched through
//! (sample value 0). From it the library derives two grayscale height
//! fields: the negative form (a smooth distance-field fade around the
//! marks) and the positive form (the counter-die surface a sheet of known
//! thickness must ride over, obtained by a radius-bounded neighbor scan
//! with a right-triangle clearance rule).
//!
//! All geometry is carried out in exact integer arithmetic: physical
//! lengths are micrometres, pixel distances are squared pixel offsets,
//! and square roots are integer square roots. Every function of the
//! engine is verified against a contract that pins its result down.

pub mod distance_field;
pub mod fade;
pub mod grid;
pub mod math;
pub mod neighbors;
pub mod offset_synthesis;
pub mod paths;
