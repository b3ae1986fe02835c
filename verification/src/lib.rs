//! VSOP2013 planetary ephemeris data engine.
//!
//! Stores piecewise-Chebyshev coefficient tables for the nine major
//! bodies and locates, for a planet and a Julian date, the coefficient
//! block from which position and velocity are evaluated.  Times and
//! coefficients are carried as the raw 64-bit encodings of the
//! nonnegative IEEE-754 values found in the distribution files; for
//! such values the unsigned order of the encodings coincides with the
//! numeric order, so every containment test below is an integer
//! comparison.

pub mod planet;
pub mod header;
pub mod planet_data;
pub mod partial;
pub mod store;
pub mod codec;

pub use planet::Planet;
pub use header::{Header, TableDescriptor};
pub use planet_data::Table;
pub use partial::PartialVsop2013;
pub use store::Vsop2013;
