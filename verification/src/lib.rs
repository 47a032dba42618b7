//! Plus codes: short alphanumeric names for cells of a latitude/longitude grid.
//!
//! A coordinate is held in fixed point, in units of 1e-7 degree, so that every
//! cell boundary and every cell centre of a ten-digit code is an exact integer.
//!
//! `encode` writes the code of a coordinate, `decode` reads back the centre of
//! the cell that a code names, and `roundtrip` proves that the two agree to
//! within half a cell.

pub mod decode;
pub mod degrees;
pub mod encode;
pub mod roundtrip;
pub mod strings;
pub mod utils;

pub use decode::decode;
pub use encode::encode;
pub use utils::parse_coordinate;
pub use utils::Coordinate;
pub use utils::Error;
