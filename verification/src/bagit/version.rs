//! The version number of the BagIt format that a bag declares.

use vstd::prelude::*;
use vstd::string::StringExecFns;

use crate::bagit::chars::{lemma_split_joined, split_at_first, split_once};
use crate::bagit::decimal::{
    decimal, is_digit, lemma_decimal_digits, lemma_parse_decimal, parse_decimal, parse_u64,
    push_decimal,
};

verus! {

/// A version of the BagIt format: a major and a minor number.
#[derive(Debug, Clone, Copy, PartialEq, Eq, Structural)]
pub struct BagItVersion {
    pub major: u8,
    pub minor: u8,
}

/// How a version is written: the two numbers in decimal, a full stop between them.
pub open spec fn version_text(version: BagItVersion) -> Seq<char> {
    decimal(version.major as nat).push('.') + decimal(version.minor as nat)
}

/// What a text reads as: a version, if it is two decimal numerals of at most 255 with the
/// text's first full stop between them.
pub open spec fn parse_version(text: Seq<char>) -> Option<BagItVersion> {
    match split_at_first(text, '.') {
        Some((major, minor)) => match (parse_decimal(major), parse_decimal(minor)) {
            (Some(major), Some(minor)) => if major <= u8::MAX && minor <= u8::MAX {
                Some(BagItVersion { major: major as u8, minor: minor as u8 })
            } else {
                None
            },
            _ => None,
        },
        None => None,
    }
}

/// Reading what a version is written as gives the version back.
pub proof fn lemma_parse_version_text(version: BagItVersion)
    ensures
        parse_version(version_text(version)) == Some(version),
{
    let major = decimal(version.major as nat);
    lemma_decimal_digits(version.major as nat);
    lemma_parse_decimal(version.major as nat);
    lemma_parse_decimal(version.minor as nat);
    assert(!major.contains('.')) by {
        if major.contains('.') {
            let i = choose|i: int| 0 <= i < major.len() && major[i] == '.';
            assert(is_digit(major[i]));
        }
    }
    lemma_split_joined(major, '.', decimal(version.minor as nat));
}

impl BagItVersion {
    pub fn new(major: u8, minor: u8) -> (version: BagItVersion)
        ensures
            version == (BagItVersion { major, minor }),
    {
        BagItVersion { major, minor }
    }

    /// Reads a version written as `<major>.<minor>`.
    pub fn parse(text: &str) -> (r: Option<BagItVersion>)
        ensures
            r == parse_version(text@),
    {
        if let Some((major, minor)) = split_once(text, '.') {
            match (parse_u64(major), parse_u64(minor)) {
                (Some(major), Some(minor)) => {
                    if major <= 255 && minor <= 255 {
                        Some(BagItVersion { major: major as u8, minor: minor as u8 })
                    } else {
                        None
                    }
                },
                _ => None,
            }
        } else {
            None
        }
    }

    /// The version as a bag declares it, such as `1.0`.
    pub fn to_string(&self) -> (text: String)
        ensures
            text@ == version_text(*self),
    {
        let mut text = String::new();
        push_decimal(&mut text, self.major as u64);
        proof {
            reveal_strlit(".");
            assert("."@ =~= seq!['.']);
        }
        text.append(".");
        push_decimal(&mut text, self.minor as u64);
        assert(text@ =~= version_text(*self));
        text
    }
}

} // verus!
