//! Splits a set of tar layers into one archive of the entries that all of
//! them share and one archive per layer of what is left.
//!
//! The engine works on archives in memory. [`commonise_tars`] reads them,
//! finds the header records that every archive holds with the same content,
//! and writes the shared layer and the layers of what is left.

pub mod archive;
pub mod commonise;
pub mod error;
pub mod header;
pub mod headermap;
pub mod index;
pub mod layer;
pub mod order;
pub mod path;
pub mod pax;
pub mod registry;
pub mod shared;
pub mod util;

pub use commonise::{commonise_entries, commonise_tars, Failure, Layers, Report};
pub use archive::Rejected;
pub use error::Error;
pub use header::HashableHeader;
pub use layer::Misplaced;
