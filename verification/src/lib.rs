//! A static, space-efficient Ribbon filter: keys known up front are folded
//! into a banded linear system over GF(2), which is solved once and then
//! queried many times. A successful build answers "present" for every key
//! it was built from.


pub mod builder;
pub mod error;
pub mod filter;
pub mod gf2;
pub mod hashing;
pub mod inputs;
pub mod laws;
pub mod params;
pub mod rows;
pub mod system;

pub use builder::{RibbonBuilder, Scratch};
pub use error::{BuildError, ConstructionFailure, ParamError};
pub use filter::{ReprError, RibbonFilter, RIBBON_FILTER_FORMAT_VERSION};
pub use params::{Mode, Params};
