//! Parses package coordinates with version-range qualifiers, and picks the
//! newest published version for each qualifier.
pub mod coordinates;
mod semver_api;
mod text;
pub mod versions;

pub use coordinates::{parse_coordinates, parse_version, Coordinates, ParseError, VersionCheck};
pub use versions::Versions;
