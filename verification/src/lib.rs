//! Convert a ZIP archive containing a macOS .app bundle into an unsigned DMG
//! disk image.
//!
//! ```text
//! ZIP → parse entries → filesystem image → GPT layout → DMG container
//! ```
//!
//! This library holds what is decided and computed on the way: which entries
//! an archive has, what is created on the volume and in which order, how large
//! the image is, the Finder layout, the partition table, the license
//! resources, and what the command line asks for. Reading and writing files is
//! left to the program.
pub mod apfs;
pub mod bud1;
pub mod bytes;
pub mod decorations;
pub mod dmg;
pub mod ds_store;
pub mod estimate;
pub mod eula;
pub mod gpt;
pub mod options;
pub mod plist_blob;
pub mod sparse;
pub mod text;
pub mod tree;
pub mod volume;
pub mod zip_reader;

pub use decorations::{DmgDecorations, DmgDecorationsBuilder};
pub use gpt::{build_gpt_layout, GptLayout};
pub use zip_reader::{ZipEntries, ZipEntry};
