//! What can go wrong while reading or assembling a bag's metadata.

use vstd::prelude::*;

verus! {

#[derive(Debug)]
pub enum Error {
    /// A mandatory tag is absent from a tag file.
    MissingTag { tag: String },
    /// The declared BagIt version is not the supported one.
    UnsupportedVersion { version: String },
    /// The declared tag-file encoding is not the supported one.
    UnsupportedEncoding { encoding: String },
    /// A label or a value breaks the rules for tags.
    InvalidTag { label: String, details: String },
    /// A line of a tag file does not follow the line grammar.
    InvalidTagLine { details: String },
    /// A line of a tag file was rejected; `num` counts lines from 1.
    MalformedLine { path: String, num: u64, details: String },
    /// A line of a manifest does not hold a digest and a path; `num` counts lines from 1.
    MalformedManifestLine { manifest: String, num: u64, details: String },
    /// A manifest lists the same path twice.
    DuplicatePath { manifest: String, path: String },
    /// A payload file's digest differs from the one its manifest lists.
    DigestMismatch { path: String, expected: String, actual: String },
    /// A manifest lists a payload file that is not there.
    MissingPayloadFile { path: String },
    /// A payload file is there that no manifest lists.
    UnexpectedPayloadFile { path: String },
}

/// The mathematical content of an [`Error`].
pub enum ErrorView {
    MissingTag { tag: Seq<char> },
    UnsupportedVersion { version: Seq<char> },
    UnsupportedEncoding { encoding: Seq<char> },
    InvalidTag { label: Seq<char>, details: Seq<char> },
    InvalidTagLine { details: Seq<char> },
    MalformedLine { path: Seq<char>, num: nat, details: Seq<char> },
    MalformedManifestLine { manifest: Seq<char>, num: nat, details: Seq<char> },
    DuplicatePath { manifest: Seq<char>, path: Seq<char> },
    DigestMismatch { path: Seq<char>, expected: Seq<char>, actual: Seq<char> },
    MissingPayloadFile { path: Seq<char> },
    UnexpectedPayloadFile { path: Seq<char> },
}

impl View for Error {
    type V = ErrorView;

    open spec fn view(&self) -> ErrorView {
        match *self {
            Error::MissingTag { tag } => ErrorView::MissingTag { tag: tag@ },
            Error::UnsupportedVersion { version } => ErrorView::UnsupportedVersion {
                version: version@,
            },
            Error::UnsupportedEncoding { encoding } => ErrorView::UnsupportedEncoding {
                encoding: encoding@,
            },
            Error::InvalidTag { label, details } => ErrorView::InvalidTag {
                label: label@,
                details: details@,
            },
            Error::InvalidTagLine { details } => ErrorView::InvalidTagLine { details: details@ },
            Error::MalformedLine { path, num, details } => ErrorView::MalformedLine {
                path: path@,
                num: num as nat,
                details: details@,
            },
            Error::MalformedManifestLine { manifest, num, details } => {
                ErrorView::MalformedManifestLine {
                    manifest: manifest@,
                    num: num as nat,
                    details: details@,
                }
            },
            Error::DuplicatePath { manifest, path } => ErrorView::DuplicatePath {
                manifest: manifest@,
                path: path@,
            },
            Error::DigestMismatch { path, expected, actual } => ErrorView::DigestMismatch {
                path: path@,
                expected: expected@,
                actual: actual@,
            },
            Error::MissingPayloadFile { path } => ErrorView::MissingPayloadFile { path: path@ },
            Error::UnexpectedPayloadFile { path } => ErrorView::UnexpectedPayloadFile {
                path: path@,
            },
        }
    }
}

pub type Result<T, E = Error> = std::result::Result<T, E>;

/// The mathematical content of a result: its value or its error, each by its view.
pub open spec fn result_view<T: View>(r: Result<T>) -> std::result::Result<T::V, ErrorView> {
    match r {
        Ok(v) => Ok(v@),
        Err(e) => Err(e@),
    }
}

} // verus!
