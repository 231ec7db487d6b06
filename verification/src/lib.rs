//! BagIt tag files, bag metadata and manifests, with machine-checked contracts.

pub mod bagit;
