//! The data model of a bag and the text formats that carry it.

pub mod builder;
pub mod chars;
pub mod consts;
pub mod decimal;
pub mod declaration;
pub mod error;
pub mod info;
pub mod manifest;
pub mod manifest_file;
pub mod order;
pub mod oxum;
pub mod payload;
pub mod rebag;
pub mod tag;
pub mod validation;
pub mod version;

pub use builder::{BuildState, Outcome, Step};
pub use declaration::{read_bag_declaration, write_bag_declaration, BagDeclaration};
pub use error::{Error, Result};
pub use info::{is_repeatable, read_bag_info, write_bag_info, BagInfo};
pub use manifest::{
    payload_manifest_name, tag_manifest_name, DigestAlgorithm, Manifest, ManifestEntry,
};
pub use manifest_file::{manifest_lines, parse_manifest_line, read_manifest, write_manifest};
pub use oxum::PayloadOxum;
pub use payload::{build_manifest, payload_oxum, sort_files, PayloadFile};
pub use rebag::{rebag_action, RebagAction};
pub use tag::{parse_tag_line, read_tag_file, tag_file_lines, write_tag_file, Tag, TagList};
pub use validation::{verify, verify_among, PathStatus, ReportEntry, ValidationReport};
pub use version::BagItVersion;
