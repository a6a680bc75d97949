//! Extraction of variable assignments from ebuild-style build recipes and of
//! package facts from a vardb-style directory layout.
//!
//! The core is a line-oriented scanner over a recipe document: it skips
//! comments and shell function bodies, collects scalar, quoted and array
//! assignments (which may span several lines), resolves self- and
//! cross-references between variables, and yields a case-insensitive store
//! of variable values. Parsing is total: malformed input never causes a
//! failure, only a best-effort result.

pub mod ebuild;
pub mod pkg;
pub mod text;

pub use ebuild::EbuildData;
pub use pkg::{PkgFacts, VarDbPkg, first_line, parse_package_dir, split_package_version};

