//! Goldplated Photos — the verified core: album paths, gallery frontmatter,
//! edit geometry, sync keys and the other rules the catalog and the gallery
//! share.

pub mod text;
pub mod model;
pub mod publish;
pub mod round_trip;
pub mod error;
pub mod albums;
pub mod album_rules;
pub mod paths;
pub mod media;
pub mod order;
pub mod encoding;
pub mod develop;
pub mod full;
pub mod sync;
pub mod remote;
pub mod lightroom;
pub mod catalog;
pub mod cli;
pub mod import;
