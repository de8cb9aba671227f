//! Row-level image diffing: two rasters are aligned scanline by scanline along
//! a longest common subsequence, and the alignment is drawn as one raster in
//! which removed and added rows are tinted.
//!
//! - [`rows`] cuts a pixel buffer into rows and gives each a token.
//! - [`table`] builds the table of longest-common-subsequence lengths.
//! - [`edit`] sets the common ends of two sequences aside and walks the
//!   table of what is left into an edit script of the entries of [`ops`].
//! - [`laws`], [`trimming`] and [`identity`] prove what holds of every edit
//!   script and of every diff.
//! - [`blend`] tints a pixel, and [`render`] draws an edit script with the
//!   rasters of [`canvas`].
//! - [`naming`] names the file of a diff.

pub mod blend;
pub mod canvas;
pub mod edit;
pub mod identity;
pub mod laws;
pub mod naming;
pub mod ops;
pub mod render;
pub mod rows;
pub mod table;
pub mod trimming;

pub use blend::{blend, BlendRate, BLACK, GREEN, RED};
pub use edit::{common_prefix, common_suffix, lcs_diff};
pub use naming::{add_suffix_to_file_name, suffixed_name};
pub use ops::DiffOp;
pub use render::{composite, diff, diff_slice, try_diff, DiffError};
pub use rows::{decode_row, extract_rows, DecodeFailure, RowToken};
pub use table::{create_table, gen_lcs};
