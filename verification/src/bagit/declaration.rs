//! The bag declaration: the two tags of `bagit.txt`.

use vstd::prelude::*;

use crate::bagit::chars::same_text;
use crate::bagit::consts::{
    bagit_1_0, bagit_default_version, LABEL_BAGIT_VERSION, LABEL_FILE_ENCODING, UTF_8,
};
use crate::bagit::error::{result_view, Error, ErrorView, Result};
use crate::bagit::tag::{
    colon_free_labels, first_with_label, label_is, lemma_eq_ignore_ascii_case_symmetric,
    lemma_filter_push, lemma_tag_lines_roundtrip, lines_text, new_tag, parse_lines,
    read_tag_file, tag_lines, valid_tags, write_tag_file, TagList, TagView,
};
use crate::bagit::version::{
    lemma_parse_version_text, parse_version, version_text, BagItVersion,
};

verus! {

/// What a bag declares of itself: the format's version and the encoding of its tag files.
#[derive(Debug)]
pub struct BagDeclaration {
    version: BagItVersion,
    encoding: String,
}

/// The mathematical content of a [`BagDeclaration`].
pub struct BagDeclarationView {
    pub version: BagItVersion,
    pub encoding: Seq<char>,
}

/// The one declaration that is supported: version 1.0 and UTF-8.
pub open spec fn supported_declaration() -> BagDeclarationView {
    BagDeclarationView { version: bagit_1_0(), encoding: UTF_8@ }
}

/// What `version` and `encoding` make: the declaration, or the first value that is not
/// supported.
pub open spec fn declaration_with(version: BagItVersion, encoding: Seq<char>) -> std::result::Result<
    BagDeclarationView,
    ErrorView,
> {
    if version != bagit_1_0() {
        Err(ErrorView::UnsupportedVersion { version: version_text(version) })
    } else if encoding != UTF_8@ {
        Err(ErrorView::UnsupportedEncoding { encoding })
    } else {
        Ok(BagDeclarationView { version, encoding })
    }
}

/// The tags of a declaration: its version, then its encoding.
pub open spec fn declaration_tags(declaration: BagDeclarationView) -> Seq<TagView> {
    seq![
        TagView { label: LABEL_BAGIT_VERSION@, value: version_text(declaration.version) },
        TagView { label: LABEL_FILE_ENCODING@, value: declaration.encoding },
    ]
}

/// What a tag list declares: both tags are looked up by label, whatever its case, and the
/// first of each counts.
pub open spec fn declaration_from_tags(tags: Seq<TagView>) -> std::result::Result<
    BagDeclarationView,
    ErrorView,
> {
    match first_with_label(tags, LABEL_BAGIT_VERSION@) {
        None => Err(ErrorView::MissingTag { tag: LABEL_BAGIT_VERSION@ }),
        Some(version_tag) => match parse_version(version_tag.value) {
            None => Err(ErrorView::UnsupportedVersion { version: version_tag.value }),
            Some(version) => match first_with_label(tags, LABEL_FILE_ENCODING@) {
                None => Err(ErrorView::MissingTag { tag: LABEL_FILE_ENCODING@ }),
                Some(encoding_tag) => declaration_with(version, encoding_tag.value),
            },
        },
    }
}

impl View for BagDeclaration {
    type V = BagDeclarationView;

    closed spec fn view(&self) -> BagDeclarationView {
        BagDeclarationView { version: self.version, encoding: self.encoding@ }
    }
}

/// The tags of the supported declaration are valid tags.
pub proof fn lemma_declaration_tags_valid()
    ensures
        new_tag(LABEL_BAGIT_VERSION@, version_text(bagit_1_0())) is Ok,
        new_tag(LABEL_FILE_ENCODING@, UTF_8@) is Ok,
{
    reveal_strlit("BagIt-Version");
    reveal_strlit("Tag-File-Character-Encoding");
    reveal_strlit("UTF-8");
    assert(version_text(bagit_1_0()) =~= seq!['1', '.', '0']);
}

/// The tag file written for the supported declaration reads back to that declaration.
pub proof fn lemma_declaration_roundtrip(path: Seq<char>)
    ensures
        parse_lines(tag_lines(declaration_tags(supported_declaration())), path) == Ok::<
            Seq<TagView>,
            ErrorView,
        >(declaration_tags(supported_declaration())),
        declaration_from_tags(declaration_tags(supported_declaration())) == Ok::<
            BagDeclarationView,
            ErrorView,
        >(supported_declaration()),
{
    let declaration = supported_declaration();
    let tags = declaration_tags(declaration);
    let version_tag = tags[0];
    let encoding_tag = tags[1];
    lemma_declaration_tags_valid();
    reveal_strlit("BagIt-Version");
    reveal_strlit("Tag-File-Character-Encoding");
    assert(valid_tags(tags));
    assert(colon_free_labels(tags)) by {
        assert(!version_tag.label.contains(':'));
        assert(!encoding_tag.label.contains(':'));
    }
    lemma_tag_lines_roundtrip(tags, path);

    lemma_eq_ignore_ascii_case_symmetric(LABEL_BAGIT_VERSION@, LABEL_FILE_ENCODING@);
    lemma_eq_ignore_ascii_case_symmetric(LABEL_FILE_ENCODING@, LABEL_BAGIT_VERSION@);
    let none = Seq::<TagView>::empty();
    assert(tags =~= none.push(version_tag).push(encoding_tag));
    assert(none.filter(label_is(LABEL_BAGIT_VERSION@)) =~= none
        && none.filter(label_is(LABEL_FILE_ENCODING@)) =~= none) by {
        reveal(Seq::filter);
    }
    lemma_filter_push(none, version_tag, label_is(LABEL_BAGIT_VERSION@));
    lemma_filter_push(none.push(version_tag), encoding_tag, label_is(LABEL_BAGIT_VERSION@));
    lemma_filter_push(none, version_tag, label_is(LABEL_FILE_ENCODING@));
    lemma_filter_push(none.push(version_tag), encoding_tag, label_is(LABEL_FILE_ENCODING@));
    assert(first_with_label(tags, LABEL_BAGIT_VERSION@) == Some(version_tag));
    assert(first_with_label(tags, LABEL_FILE_ENCODING@) == Some(encoding_tag));
    lemma_parse_version_text(bagit_1_0());
}

impl BagDeclaration {
    #[verifier::type_invariant]
    closed spec fn well_formed(&self) -> bool {
        self@ == supported_declaration()
    }

    pub fn new() -> (declaration: BagDeclaration)
        ensures
            declaration@ == supported_declaration(),
    {
        BagDeclaration { version: bagit_default_version(), encoding: UTF_8.to_owned() }
    }

    pub fn with_values(version: BagItVersion, encoding: &str) -> (res: Result<BagDeclaration>)
        ensures
            result_view(res) == declaration_with(version, encoding@),
    {
        if bagit_1_0() != version {
            return Err(Error::UnsupportedVersion { version: version.to_string() });
        }

        if !same_text(UTF_8, encoding) {
            return Err(Error::UnsupportedEncoding { encoding: encoding.to_owned() });
        }

        Ok(BagDeclaration { version, encoding: encoding.to_owned() })
    }

    pub fn version(&self) -> (version: BagItVersion)
        ensures
            version == self@.version,
            self@ == supported_declaration(),
    {
        proof {
            use_type_invariant(self);
        }
        self.version
    }

    pub fn encoding(&self) -> (encoding: &str)
        ensures
            encoding@ == self@.encoding,
            self@ == supported_declaration(),
    {
        proof {
            use_type_invariant(self);
        }
        self.encoding.as_str()
    }

    pub fn to_tags(&self) -> (tags: TagList)
        ensures
            tags@ == declaration_tags(self@),
            self@ == supported_declaration(),
    {
        proof {
            use_type_invariant(self);
            lemma_declaration_tags_valid();
        }
        let mut tags = TagList::with_capacity(2);
        // Neither call can fail: a declaration holds the supported values only
        let version = self.version.to_string();
        let added = tags.add_tag(LABEL_BAGIT_VERSION, version.as_str());
        assert(added is Ok);
        let added = tags.add_tag(LABEL_FILE_ENCODING, self.encoding.as_str());
        assert(added is Ok);
        assert(tags@ =~= declaration_tags(self@));
        tags
    }

    /// Reads a declaration out of the tags of `bagit.txt`.
    pub fn from_tags(tags: &TagList) -> (res: Result<BagDeclaration>)
        ensures
            result_view(res) == declaration_from_tags(tags@),
    {
        let version_tag = match tags.get_tag(LABEL_BAGIT_VERSION) {
            Some(tag) => tag,
            None => {
                return Err(Error::MissingTag { tag: LABEL_BAGIT_VERSION.to_owned() });
            },
        };
        let version = match BagItVersion::parse(version_tag.value()) {
            Some(version) => version,
            None => {
                return Err(Error::UnsupportedVersion { version: version_tag.value().to_owned() });
            },
        };

        let encoding_tag = match tags.get_tag(LABEL_FILE_ENCODING) {
            Some(tag) => tag,
            None => {
                return Err(Error::MissingTag { tag: LABEL_FILE_ENCODING.to_owned() });
            },
        };
        let encoding = encoding_tag.value();

        BagDeclaration::with_values(version, encoding)
    }
}

impl Default for BagDeclaration {
    fn default() -> (declaration: BagDeclaration)
        ensures
            declaration@ == supported_declaration(),
    {
        BagDeclaration::new()
    }
}

/// The text of `bagit.txt` for `bag_declaration`.
pub fn write_bag_declaration(bag_declaration: &BagDeclaration) -> (text: String)
    ensures
        text@ == lines_text(tag_lines(declaration_tags(bag_declaration@))),
        bag_declaration@ == supported_declaration(),
{
    write_tag_file(&bag_declaration.to_tags())
}

/// Reads a bag declaration out of the lines of the `bagit.txt` at `path`.
pub fn read_bag_declaration(lines: &Vec<String>, path: &str) -> (res: Result<BagDeclaration>)
    ensures
        result_view(res) == match parse_lines(lines.deep_view(), path@) {
            Ok(tags) => declaration_from_tags(tags),
            Err(e) => Err(e),
        },
{
    let tags = read_tag_file(lines, path)?;
    BagDeclaration::from_tags(&tags)
}

} // verus!
