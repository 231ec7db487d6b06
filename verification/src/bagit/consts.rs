//! Names and reserved labels fixed by the BagIt format.

use vstd::prelude::*;

use crate::bagit::version::BagItVersion;

verus! {

pub open spec fn spec_bagit_1_0() -> BagItVersion {
    BagItVersion { major: 1, minor: 0 }
}

/// Version 1.0 of the format, the one that is supported.
#[verifier::when_used_as_spec(spec_bagit_1_0)]
pub fn bagit_1_0() -> (version: BagItVersion)
    ensures
        version == spec_bagit_1_0(),
{
    BagItVersion { major: 1, minor: 0 }
}

pub open spec fn spec_bagit_default_version() -> BagItVersion {
    spec_bagit_1_0()
}

/// The version that a new bag declares.
#[verifier::when_used_as_spec(spec_bagit_default_version)]
pub fn bagit_default_version() -> (version: BagItVersion)
    ensures
        version == spec_bagit_default_version(),
{
    bagit_1_0()
}

pub const UTF_8: &'static str = "UTF-8";

// Filenames
pub const BAGIT_TXT: &'static str = "bagit.txt";

pub const BAG_INFO_TXT: &'static str = "bag-info.txt";

pub const FETCH_TXT: &'static str = "fetch.txt";

pub const DATA: &'static str = "data";

pub const PAYLOAD_MANIFEST_PREFIX: &'static str = "manifest";

pub const TAG_MANIFEST_PREFIX: &'static str = "tagmanifest";

// bagit.txt tag labels
pub const LABEL_BAGIT_VERSION: &'static str = "BagIt-Version";

pub const LABEL_FILE_ENCODING: &'static str = "Tag-File-Character-Encoding";

// bag-info.txt reserved labels
pub const LABEL_BAGGING_DATE: &'static str = "Bagging-Date";

pub const LABEL_PAYLOAD_OXUM: &'static str = "Payload-Oxum";

pub const LABEL_SOFTWARE_AGENT: &'static str = "Software-Agent";

pub const LABEL_SOURCE_ORGANIZATION: &'static str = "Source-Organization";

pub const LABEL_ORGANIZATION_ADDRESS: &'static str = "Organization-Address";

pub const LABEL_CONTACT_NAME: &'static str = "Contact-Name";

pub const LABEL_CONTACT_PHONE: &'static str = "Contact-Phone";

pub const LABEL_CONTACT_EMAIL: &'static str = "Contact-Email";

pub const LABEL_EXTERNAL_DESCRIPTION: &'static str = "External-Description";

pub const LABEL_EXTERNAL_IDENTIFIER: &'static str = "External-Identifier";

pub const LABEL_BAG_SIZE: &'static str = "Bag-Size";

pub const LABEL_BAG_GROUP_IDENTIFIER: &'static str = "Bag-Group-Identifier";

pub const LABEL_BAG_COUNT: &'static str = "Bag-Count";

pub const LABEL_INTERNAL_SENDER_IDENTIFIER: &'static str = "Internal-Sender-Identifier";

pub const LABEL_INTERNAL_SENDER_DESCRIPTION: &'static str = "Internal-Sender-Description";

pub const LABEL_BAGIT_PROFILE_IDENTIFIER: &'static str = "BagIt-Profile-Identifier";

} // verus!
