//! Bag metadata: the tags of `bag-info.txt`, reserved and otherwise.

use vstd::prelude::*;

use crate::bagit::chars::{eq_ignore_ascii_case, matches_ignore_case, to_chars};
use crate::bagit::consts::{
    LABEL_BAGGING_DATE, LABEL_BAGIT_PROFILE_IDENTIFIER, LABEL_BAG_COUNT,
    LABEL_BAG_GROUP_IDENTIFIER, LABEL_BAG_SIZE, LABEL_CONTACT_EMAIL, LABEL_CONTACT_NAME,
    LABEL_CONTACT_PHONE, LABEL_EXTERNAL_DESCRIPTION, LABEL_EXTERNAL_IDENTIFIER,
    LABEL_INTERNAL_SENDER_DESCRIPTION, LABEL_INTERNAL_SENDER_IDENTIFIER,
    LABEL_ORGANIZATION_ADDRESS, LABEL_PAYLOAD_OXUM, LABEL_SOFTWARE_AGENT,
    LABEL_SOURCE_ORGANIZATION,
};
use crate::bagit::error::{result_view, ErrorView, Result};
use crate::bagit::tag::{
    first_with_label, has_label, label_is, lemma_eq_ignore_ascii_case_symmetric,
    lemma_eq_ignore_ascii_case_transitive, lemma_filter_push, lemma_with_label_after_without,
    lemma_with_label_of_without, lines_text, new_tag, valid_label, valid_value, parse_lines, read_tag_file, tag_lines,
    tag_option_view, tag_views, valid_tags, with_label, without_label, write_tag_file, Tag,
    TagList, TagView,
};

verus! {

/// The tags of `bag-info.txt`. A reserved label that may occur only once replaces what was
/// there; every other label adds to it.
#[derive(Debug)]
pub struct BagInfo {
    tags: TagList,
}

/// True for the reserved labels that a bag may carry only once, whatever their case.
pub open spec fn non_repeatable(label: Seq<char>) -> bool {
    ||| eq_ignore_ascii_case(LABEL_BAGGING_DATE@, label)
    ||| eq_ignore_ascii_case(LABEL_PAYLOAD_OXUM@, label)
    ||| eq_ignore_ascii_case(LABEL_SOFTWARE_AGENT@, label)
    ||| eq_ignore_ascii_case(LABEL_BAG_SIZE@, label)
    ||| eq_ignore_ascii_case(LABEL_BAG_GROUP_IDENTIFIER@, label)
    ||| eq_ignore_ascii_case(LABEL_BAG_COUNT@, label)
}

/// True for every label that may occur more than once: the other reserved labels, and
/// every label that is not reserved.
pub open spec fn repeatable(label: Seq<char>) -> bool {
    !non_repeatable(label)
}

/// The outcome of adding a tag without touching what is there: the tags with the new one
/// at their end, or the tags as they were and the reason the tag was refused.
pub open spec fn append_tag(tags: Seq<TagView>, label: Seq<char>, value: Seq<char>) -> (
    Seq<TagView>,
    Option<ErrorView>,
) {
    match new_tag(label, value) {
        Ok(tag) => (tags.push(tag), None),
        Err(e) => (tags, Some(e)),
    }
}

/// The outcome of replacing the tags that carry `label`: they leave first, then the new tag
/// is added as `append_tag` does. They have left even where the new tag was refused.
pub open spec fn set_tag(tags: Seq<TagView>, label: Seq<char>, value: Seq<char>) -> (
    Seq<TagView>,
    Option<ErrorView>,
) {
    append_tag(without_label(tags, label), label, value)
}

/// The outcome of `BagInfo::add_tag`.
pub open spec fn put_tag(tags: Seq<TagView>, label: Seq<char>, value: Seq<char>) -> (
    Seq<TagView>,
    Option<ErrorView>,
) {
    if repeatable(label) {
        append_tag(tags, label, value)
    } else {
        set_tag(tags, label, value)
    }
}

/// True when `res` and `tags` are the outcome `expected`.
pub open spec fn added(res: Result<()>, tags: Seq<TagView>, expected: (
    Seq<TagView>,
    Option<ErrorView>,
)) -> bool {
    &&& tags == expected.0
    &&& match res {
        Ok(_) => expected.1 is None,
        Err(e) => expected.1 == Some(e@),
    }
}

/// True when each label that may occur only once is carried by one tag at most.
pub open spec fn single_valued(tags: Seq<TagView>) -> bool {
    forall|label: Seq<char>|
        non_repeatable(label) ==> (#[trigger] with_label(tags, label)).len() <= 1
}

/// With no tags, every label is single.
pub proof fn lemma_empty_single_valued()
    ensures
        single_valued(Seq::<TagView>::empty()),
{
    reveal(Seq::filter);
    assert forall|label: Seq<char>| non_repeatable(label) implies (#[trigger] with_label(
        Seq::<TagView>::empty(),
        label,
    )).len() <= 1 by {
        assert(with_label(Seq::<TagView>::empty(), label) =~= Seq::<TagView>::empty());
    }
}

/// A label equal up to case to one that may occur only once may itself occur only once.
pub proof fn lemma_non_repeatable_ignores_case(a: Seq<char>, b: Seq<char>)
    requires
        non_repeatable(a),
        eq_ignore_ascii_case(a, b),
    ensures
        non_repeatable(b),
{
    if eq_ignore_ascii_case(LABEL_BAGGING_DATE@, a) {
        lemma_eq_ignore_ascii_case_transitive(LABEL_BAGGING_DATE@, a, b);
    }
    if eq_ignore_ascii_case(LABEL_PAYLOAD_OXUM@, a) {
        lemma_eq_ignore_ascii_case_transitive(LABEL_PAYLOAD_OXUM@, a, b);
    }
    if eq_ignore_ascii_case(LABEL_SOFTWARE_AGENT@, a) {
        lemma_eq_ignore_ascii_case_transitive(LABEL_SOFTWARE_AGENT@, a, b);
    }
    if eq_ignore_ascii_case(LABEL_BAG_SIZE@, a) {
        lemma_eq_ignore_ascii_case_transitive(LABEL_BAG_SIZE@, a, b);
    }
    if eq_ignore_ascii_case(LABEL_BAG_GROUP_IDENTIFIER@, a) {
        lemma_eq_ignore_ascii_case_transitive(LABEL_BAG_GROUP_IDENTIFIER@, a, b);
    }
    if eq_ignore_ascii_case(LABEL_BAG_COUNT@, a) {
        lemma_eq_ignore_ascii_case_transitive(LABEL_BAG_COUNT@, a, b);
    }
}

/// Adding a label that may occur more than once keeps the others single.
pub proof fn lemma_append_keeps_single_valued(
    tags: Seq<TagView>,
    label: Seq<char>,
    value: Seq<char>,
)
    requires
        single_valued(tags),
        repeatable(label),
    ensures
        single_valued(append_tag(tags, label, value).0),
{
    let after = append_tag(tags, label, value).0;
    assert forall|other: Seq<char>| non_repeatable(other) implies (#[trigger] with_label(
        after,
        other,
    )).len() <= 1 by {
        assert(with_label(tags, other).len() <= 1);
        if new_tag(label, value) is Ok {
            let tag = TagView { label, value };
            lemma_filter_push(tags, tag, label_is(other));
            if has_label(tag, other) {
                lemma_eq_ignore_ascii_case_symmetric(label, other);
                lemma_non_repeatable_ignores_case(other, label);
            }
        }
    }
}

/// Replacing the tags of a label keeps every label single that was, and makes this one
/// single.
pub proof fn lemma_set_keeps_single_valued(tags: Seq<TagView>, label: Seq<char>, value: Seq<char>)
    requires
        single_valued(tags),
    ensures
        single_valued(set_tag(tags, label, value).0),
{
    let kept = without_label(tags, label);
    let after = set_tag(tags, label, value).0;
    assert forall|other: Seq<char>| non_repeatable(other) implies (#[trigger] with_label(
        after,
        other,
    )).len() <= 1 by {
        assert(with_label(tags, other).len() <= 1);
        lemma_with_label_after_without(tags, label, other);
        if eq_ignore_ascii_case(label, other) {
            lemma_with_label_of_without(tags, label, other);
        }
        if new_tag(label, value) is Ok {
            lemma_filter_push(kept, TagView { label, value }, label_is(other));
        }
    }
}

/// `BagInfo::add_tag` keeps every label single that may occur only once.
pub proof fn lemma_put_keeps_single_valued(tags: Seq<TagView>, label: Seq<char>, value: Seq<char>)
    requires
        single_valued(tags),
    ensures
        single_valued(put_tag(tags, label, value).0),
{
    if repeatable(label) {
        lemma_append_keeps_single_valued(tags, label, value);
    } else {
        lemma_set_keeps_single_valued(tags, label, value);
    }
}

/// Every reserved label is a valid label.
pub proof fn lemma_reserved_labels_valid()
    ensures
        valid_label(LABEL_BAGGING_DATE@),
        valid_label(LABEL_PAYLOAD_OXUM@),
        valid_label(LABEL_SOFTWARE_AGENT@),
        valid_label(LABEL_SOURCE_ORGANIZATION@),
        valid_label(LABEL_ORGANIZATION_ADDRESS@),
        valid_label(LABEL_CONTACT_NAME@),
        valid_label(LABEL_CONTACT_PHONE@),
        valid_label(LABEL_CONTACT_EMAIL@),
        valid_label(LABEL_EXTERNAL_DESCRIPTION@),
        valid_label(LABEL_EXTERNAL_IDENTIFIER@),
        valid_label(LABEL_BAG_SIZE@),
        valid_label(LABEL_BAG_GROUP_IDENTIFIER@),
        valid_label(LABEL_BAG_COUNT@),
        valid_label(LABEL_INTERNAL_SENDER_IDENTIFIER@),
        valid_label(LABEL_INTERNAL_SENDER_DESCRIPTION@),
        valid_label(LABEL_BAGIT_PROFILE_IDENTIFIER@),
{
    reveal_strlit("Bagging-Date");
    reveal_strlit("Payload-Oxum");
    reveal_strlit("Software-Agent");
    reveal_strlit("Source-Organization");
    reveal_strlit("Organization-Address");
    reveal_strlit("Contact-Name");
    reveal_strlit("Contact-Phone");
    reveal_strlit("Contact-Email");
    reveal_strlit("External-Description");
    reveal_strlit("External-Identifier");
    reveal_strlit("Bag-Size");
    reveal_strlit("Bag-Group-Identifier");
    reveal_strlit("Bag-Count");
    reveal_strlit("Internal-Sender-Identifier");
    reveal_strlit("Internal-Sender-Description");
    reveal_strlit("BagIt-Profile-Identifier");
}

/// The reserved labels that may occur more than once.
pub proof fn lemma_repeatable_reserved_labels()
    ensures
        repeatable(LABEL_SOURCE_ORGANIZATION@),
        repeatable(LABEL_ORGANIZATION_ADDRESS@),
        repeatable(LABEL_CONTACT_NAME@),
        repeatable(LABEL_CONTACT_PHONE@),
        repeatable(LABEL_CONTACT_EMAIL@),
        repeatable(LABEL_EXTERNAL_DESCRIPTION@),
        repeatable(LABEL_EXTERNAL_IDENTIFIER@),
        repeatable(LABEL_INTERNAL_SENDER_IDENTIFIER@),
        repeatable(LABEL_INTERNAL_SENDER_DESCRIPTION@),
        repeatable(LABEL_BAGIT_PROFILE_IDENTIFIER@),
{
    reveal_strlit("Bagging-Date");
    reveal_strlit("Payload-Oxum");
    reveal_strlit("Software-Agent");
    reveal_strlit("Bag-Size");
    reveal_strlit("Bag-Group-Identifier");
    reveal_strlit("Bag-Count");
    reveal_strlit("Source-Organization");
    reveal_strlit("Organization-Address");
    reveal_strlit("Contact-Name");
    reveal_strlit("Contact-Phone");
    reveal_strlit("Contact-Email");
    reveal_strlit("External-Description");
    reveal_strlit("External-Identifier");
    reveal_strlit("Internal-Sender-Identifier");
    reveal_strlit("Internal-Sender-Description");
    reveal_strlit("BagIt-Profile-Identifier");
    // Where two labels are of one length, their first letters tell them apart.
    assert(LABEL_BAGGING_DATE@[0] == 'B');
    assert(LABEL_PAYLOAD_OXUM@[0] == 'P');
    assert(LABEL_BAG_GROUP_IDENTIFIER@[0] == 'B');
}

/// Adding a label that may occur only once for a second time leaves one tag with that
/// label, the second one, whatever stood there before and whatever the case of the
/// labels' letters.
pub proof fn lemma_non_repeatable_added_twice(
    tags: Seq<TagView>,
    first_label: Seq<char>,
    first_value: Seq<char>,
    label: Seq<char>,
    value: Seq<char>,
)
    requires
        non_repeatable(label),
        eq_ignore_ascii_case(first_label, label),
        new_tag(label, value) is Ok,
    ensures
        with_label(put_tag(put_tag(tags, first_label, first_value).0, label, value).0, label)
            == seq![TagView { label, value }],
{
    let once = put_tag(tags, first_label, first_value).0;
    let kept = without_label(once, label);
    let tag = TagView { label, value };
    lemma_eq_ignore_ascii_case_symmetric(label, label);
    lemma_with_label_of_without(once, label, label);
    lemma_filter_push(kept, tag, label_is(label));
    assert(Seq::<TagView>::empty().push(tag) =~= seq![tag]);
}

/// Adding a label that may occur more than once twice leaves both tags, in the order of
/// the calls, behind the tags that carried the label before.
pub proof fn lemma_repeatable_added_twice(
    tags: Seq<TagView>,
    label: Seq<char>,
    first: Seq<char>,
    second: Seq<char>,
)
    requires
        repeatable(label),
        new_tag(label, first) is Ok,
        new_tag(label, second) is Ok,
    ensures
        with_label(put_tag(put_tag(tags, label, first).0, label, second).0, label) == with_label(
            tags,
            label,
        ) + seq![TagView { label, value: first }, TagView { label, value: second }],
{
    let one = TagView { label, value: first };
    let two = TagView { label, value: second };
    lemma_eq_ignore_ascii_case_symmetric(label, label);
    lemma_filter_push(tags, one, label_is(label));
    lemma_filter_push(tags.push(one), two, label_is(label));
    assert(with_label(tags, label).push(one).push(two) =~= with_label(tags, label) + seq![
        one,
        two,
    ]);
}

impl View for BagInfo {
    type V = Seq<TagView>;

    closed spec fn view(&self) -> Seq<TagView> {
        self.tags@
    }
}

/// Tells whether `label` may occur more than once.
pub fn is_repeatable(label: &str) -> (r: bool)
    ensures
        r == repeatable(label@),
{
    let wanted = to_chars(label);
    !(matches_ignore_case(LABEL_BAGGING_DATE, &wanted) || matches_ignore_case(
        LABEL_PAYLOAD_OXUM,
        &wanted,
    ) || matches_ignore_case(LABEL_SOFTWARE_AGENT, &wanted) || matches_ignore_case(
        LABEL_BAG_SIZE,
        &wanted,
    ) || matches_ignore_case(LABEL_BAG_GROUP_IDENTIFIER, &wanted) || matches_ignore_case(
        LABEL_BAG_COUNT,
        &wanted,
    ))
}

impl BagInfo {
    pub fn new() -> (info: BagInfo)
        ensures
            info@ == Seq::<TagView>::empty(),
            single_valued(info@),
    {
        proof {
            lemma_empty_single_valued();
        }
        BagInfo { tags: TagList::new() }
    }

    /// Bag info without tags, with room for `capacity` of them. The room is a matter of
    /// allocation only: whatever it is, no tag is there, so every label is single.
    pub fn with_capacity(capacity: usize) -> (info: BagInfo)
        ensures
            info@ == Seq::<TagView>::empty(),
            single_valued(info@),
    {
        proof {
            lemma_empty_single_valued();
        }
        BagInfo { tags: TagList::with_capacity(capacity) }
    }

    pub fn with_tags(tags: TagList) -> (info: BagInfo)
        ensures
            info@ == tags@,
    {
        BagInfo { tags }
    }

    /// The tags, in insertion order.
    pub fn tags(&self) -> (tags: &TagList)
        ensures
            tags@ == self@,
    {
        &self.tags
    }

    /// Gives the tags up, in insertion order.
    pub fn into_tags(self) -> (tags: TagList)
        ensures
            tags@ == self@,
    {
        self.tags
    }

    pub fn add_tag(&mut self, label: &str, value: &str) -> (res: Result<()>)
        ensures
            added(res, final(self)@, put_tag(old(self)@, label@, value@)),
            res is Ok <==> valid_label(label@) && valid_value(value@),
            single_valued(old(self)@) ==> single_valued(final(self)@),
    {
        let repeatable = is_repeatable(label);

        if repeatable {
            self.add_repeatable(label, value)
        } else {
            self.add_non_repeatable(label, value)
        }
    }

    /// Returns the first tag that's found that matches the specified label.
    /// Labels are case insensitive.
    pub fn get_tag(&self, label: &str) -> (found: Option<&Tag>)
        ensures
            tag_option_view(found) == first_with_label(self@, label@),
    {
        self.tags.get_tag(label)
    }

    /// Returns all of the tags that match the specified label. Labels are case insensitive.
    pub fn get_tags(&self, label: &str) -> (found: Vec<&Tag>)
        ensures
            tag_views(found@) == with_label(self@, label@),
    {
        self.tags.get_tags(label)
    }

    pub fn add_bagging_date(&mut self, value: &str) -> (res: Result<()>)
        ensures
            added(res, final(self)@, set_tag(old(self)@, LABEL_BAGGING_DATE@, value@)),
            res is Ok <==> valid_value(value@),
            single_valued(old(self)@) ==> single_valued(final(self)@),
    {
        proof {
            lemma_reserved_labels_valid();
        }
        self.add_non_repeatable(LABEL_BAGGING_DATE, value)
    }

    pub fn bagging_date(&self) -> (found: Option<&Tag>)
        ensures
            tag_option_view(found) == first_with_label(self@, LABEL_BAGGING_DATE@),
    {
        self.get_tag(LABEL_BAGGING_DATE)
    }

    pub fn add_payload_oxum(&mut self, value: &str) -> (res: Result<()>)
        ensures
            added(res, final(self)@, set_tag(old(self)@, LABEL_PAYLOAD_OXUM@, value@)),
            res is Ok <==> valid_value(value@),
            single_valued(old(self)@) ==> single_valued(final(self)@),
    {
        proof {
            lemma_reserved_labels_valid();
        }
        self.add_non_repeatable(LABEL_PAYLOAD_OXUM, value)
    }

    pub fn payload_oxum(&self) -> (found: Option<&Tag>)
        ensures
            tag_option_view(found) == first_with_label(self@, LABEL_PAYLOAD_OXUM@),
    {
        self.get_tag(LABEL_PAYLOAD_OXUM)
    }

    pub fn add_software_agent(&mut self, value: &str) -> (res: Result<()>)
        ensures
            added(res, final(self)@, set_tag(old(self)@, LABEL_SOFTWARE_AGENT@, value@)),
            res is Ok <==> valid_value(value@),
            single_valued(old(self)@) ==> single_valued(final(self)@),
    {
        proof {
            lemma_reserved_labels_valid();
        }
        self.add_non_repeatable(LABEL_SOFTWARE_AGENT, value)
    }

    pub fn software_agent(&self) -> (found: Option<&Tag>)
        ensures
            tag_option_view(found) == first_with_label(self@, LABEL_SOFTWARE_AGENT@),
    {
        self.get_tag(LABEL_SOFTWARE_AGENT)
    }

    pub fn add_source_organization(&mut self, value: &str) -> (res: Result<()>)
        ensures
            added(res, final(self)@, append_tag(old(self)@, LABEL_SOURCE_ORGANIZATION@, value@)),
            res is Ok <==> valid_value(value@),
            single_valued(old(self)@) ==> single_valued(final(self)@),
    {
        proof {
            lemma_reserved_labels_valid();
            lemma_repeatable_reserved_labels();
        }
        self.add_repeatable(LABEL_SOURCE_ORGANIZATION, value)
    }

    pub fn source_organization(&self) -> (found: Vec<&Tag>)
        ensures
            tag_views(found@) == with_label(self@, LABEL_SOURCE_ORGANIZATION@),
    {
        self.get_tags(LABEL_SOURCE_ORGANIZATION)
    }

    pub fn add_organization_address(&mut self, value: &str) -> (res: Result<()>)
        ensures
            added(res, final(self)@, append_tag(old(self)@, LABEL_ORGANIZATION_ADDRESS@, value@)),
            res is Ok <==> valid_value(value@),
            single_valued(old(self)@) ==> single_valued(final(self)@),
    {
        proof {
            lemma_reserved_labels_valid();
            lemma_repeatable_reserved_labels();
        }
        self.add_repeatable(LABEL_ORGANIZATION_ADDRESS, value)
    }

    pub fn organization_address(&self) -> (found: Vec<&Tag>)
        ensures
            tag_views(found@) == with_label(self@, LABEL_ORGANIZATION_ADDRESS@),
    {
        self.get_tags(LABEL_ORGANIZATION_ADDRESS)
    }

    pub fn add_contact_name(&mut self, value: &str) -> (res: Result<()>)
        ensures
            added(res, final(self)@, append_tag(old(self)@, LABEL_CONTACT_NAME@, value@)),
            res is Ok <==> valid_value(value@),
            single_valued(old(self)@) ==> single_valued(final(self)@),
    {
        proof {
            lemma_reserved_labels_valid();
            lemma_repeatable_reserved_labels();
        }
        self.add_repeatable(LABEL_CONTACT_NAME, value)
    }

    pub fn contact_name(&self) -> (found: Vec<&Tag>)
        ensures
            tag_views(found@) == with_label(self@, LABEL_CONTACT_NAME@),
    {
        self.get_tags(LABEL_CONTACT_NAME)
    }

    pub fn add_contact_phone(&mut self, value: &str) -> (res: Result<()>)
        ensures
            added(res, final(self)@, append_tag(old(self)@, LABEL_CONTACT_PHONE@, value@)),
            res is Ok <==> valid_value(value@),
            single_valued(old(self)@) ==> single_valued(final(self)@),
    {
        proof {
            lemma_reserved_labels_valid();
            lemma_repeatable_reserved_labels();
        }
        self.add_repeatable(LABEL_CONTACT_PHONE, value)
    }

    pub fn contact_phone(&self) -> (found: Vec<&Tag>)
        ensures
            tag_views(found@) == with_label(self@, LABEL_CONTACT_PHONE@),
    {
        self.get_tags(LABEL_CONTACT_PHONE)
    }

    pub fn add_contact_email(&mut self, value: &str) -> (res: Result<()>)
        ensures
            added(res, final(self)@, append_tag(old(self)@, LABEL_CONTACT_EMAIL@, value@)),
            res is Ok <==> valid_value(value@),
            single_valued(old(self)@) ==> single_valued(final(self)@),
    {
        proof {
            lemma_reserved_labels_valid();
            lemma_repeatable_reserved_labels();
        }
        self.add_repeatable(LABEL_CONTACT_EMAIL, value)
    }

    pub fn contact_email(&self) -> (found: Vec<&Tag>)
        ensures
            tag_views(found@) == with_label(self@, LABEL_CONTACT_EMAIL@),
    {
        self.get_tags(LABEL_CONTACT_EMAIL)
    }

    pub fn add_external_description(&mut self, value: &str) -> (res: Result<()>)
        ensures
            added(res, final(self)@, append_tag(old(self)@, LABEL_EXTERNAL_DESCRIPTION@, value@)),
            res is Ok <==> valid_value(value@),
            single_valued(old(self)@) ==> single_valued(final(self)@),
    {
        proof {
            lemma_reserved_labels_valid();
            lemma_repeatable_reserved_labels();
        }
        self.add_repeatable(LABEL_EXTERNAL_DESCRIPTION, value)
    }

    pub fn external_description(&self) -> (found: Vec<&Tag>)
        ensures
            tag_views(found@) == with_label(self@, LABEL_EXTERNAL_DESCRIPTION@),
    {
        self.get_tags(LABEL_EXTERNAL_DESCRIPTION)
    }

    pub fn add_external_identifier(&mut self, value: &str) -> (res: Result<()>)
        ensures
            added(res, final(self)@, append_tag(old(self)@, LABEL_EXTERNAL_IDENTIFIER@, value@)),
            res is Ok <==> valid_value(value@),
            single_valued(old(self)@) ==> single_valued(final(self)@),
    {
        proof {
            lemma_reserved_labels_valid();
            lemma_repeatable_reserved_labels();
        }
        self.add_repeatable(LABEL_EXTERNAL_IDENTIFIER, value)
    }

    pub fn external_identifier(&self) -> (found: Vec<&Tag>)
        ensures
            tag_views(found@) == with_label(self@, LABEL_EXTERNAL_IDENTIFIER@),
    {
        self.get_tags(LABEL_EXTERNAL_IDENTIFIER)
    }

    pub fn add_bag_size(&mut self, value: &str) -> (res: Result<()>)
        ensures
            added(res, final(self)@, set_tag(old(self)@, LABEL_BAG_SIZE@, value@)),
            res is Ok <==> valid_value(value@),
            single_valued(old(self)@) ==> single_valued(final(self)@),
    {
        proof {
            lemma_reserved_labels_valid();
        }
        self.add_non_repeatable(LABEL_BAG_SIZE, value)
    }

    pub fn bag_size(&self) -> (found: Option<&Tag>)
        ensures
            tag_option_view(found) == first_with_label(self@, LABEL_BAG_SIZE@),
    {
        self.get_tag(LABEL_BAG_SIZE)
    }

    pub fn add_bag_group_identifier(&mut self, value: &str) -> (res: Result<()>)
        ensures
            added(res, final(self)@, set_tag(old(self)@, LABEL_BAG_GROUP_IDENTIFIER@, value@)),
            res is Ok <==> valid_value(value@),
            single_valued(old(self)@) ==> single_valued(final(self)@),
    {
        proof {
            lemma_reserved_labels_valid();
        }
        self.add_non_repeatable(LABEL_BAG_GROUP_IDENTIFIER, value)
    }

    pub fn bag_group_identifier(&self) -> (found: Option<&Tag>)
        ensures
            tag_option_view(found) == first_with_label(self@, LABEL_BAG_GROUP_IDENTIFIER@),
    {
        self.get_tag(LABEL_BAG_GROUP_IDENTIFIER)
    }

    pub fn add_bag_count(&mut self, value: &str) -> (res: Result<()>)
        ensures
            added(res, final(self)@, set_tag(old(self)@, LABEL_BAG_COUNT@, value@)),
            res is Ok <==> valid_value(value@),
            single_valued(old(self)@) ==> single_valued(final(self)@),
    {
        proof {
            lemma_reserved_labels_valid();
        }
        self.add_non_repeatable(LABEL_BAG_COUNT, value)
    }

    pub fn bag_count(&self) -> (found: Option<&Tag>)
        ensures
            tag_option_view(found) == first_with_label(self@, LABEL_BAG_COUNT@),
    {
        self.get_tag(LABEL_BAG_COUNT)
    }

    pub fn add_internal_sender_identifier(&mut self, value: &str) -> (res: Result<()>)
        ensures
            added(res, final(self)@, append_tag(old(self)@, LABEL_INTERNAL_SENDER_IDENTIFIER@, value@)),
            res is Ok <==> valid_value(value@),
            single_valued(old(self)@) ==> single_valued(final(self)@),
    {
        proof {
            lemma_reserved_labels_valid();
            lemma_repeatable_reserved_labels();
        }
        self.add_repeatable(LABEL_INTERNAL_SENDER_IDENTIFIER, value)
    }

    pub fn internal_sender_identifier(&self) -> (found: Vec<&Tag>)
        ensures
            tag_views(found@) == with_label(self@, LABEL_INTERNAL_SENDER_IDENTIFIER@),
    {
        self.get_tags(LABEL_INTERNAL_SENDER_IDENTIFIER)
    }

    pub fn add_internal_sender_description(&mut self, value: &str) -> (res: Result<()>)
        ensures
            added(res, final(self)@, append_tag(old(self)@, LABEL_INTERNAL_SENDER_DESCRIPTION@, value@)),
            res is Ok <==> valid_value(value@),
            single_valued(old(self)@) ==> single_valued(final(self)@),
    {
        proof {
            lemma_reserved_labels_valid();
            lemma_repeatable_reserved_labels();
        }
        self.add_repeatable(LABEL_INTERNAL_SENDER_DESCRIPTION, value)
    }

    pub fn internal_sender_description(&self) -> (found: Vec<&Tag>)
        ensures
            tag_views(found@) == with_label(self@, LABEL_INTERNAL_SENDER_DESCRIPTION@),
    {
        self.get_tags(LABEL_INTERNAL_SENDER_DESCRIPTION)
    }

    pub fn add_bagit_profile_identifier(&mut self, value: &str) -> (res: Result<()>)
        ensures
            added(res, final(self)@, append_tag(old(self)@, LABEL_BAGIT_PROFILE_IDENTIFIER@, value@)),
            res is Ok <==> valid_value(value@),
            single_valued(old(self)@) ==> single_valued(final(self)@),
    {
        proof {
            lemma_reserved_labels_valid();
            lemma_repeatable_reserved_labels();
        }
        self.add_repeatable(LABEL_BAGIT_PROFILE_IDENTIFIER, value)
    }

    pub fn bagit_profile_identifier(&self) -> (found: Vec<&Tag>)
        ensures
            tag_views(found@) == with_label(self@, LABEL_BAGIT_PROFILE_IDENTIFIER@),
    {
        self.get_tags(LABEL_BAGIT_PROFILE_IDENTIFIER)
    }

    /// Adds a new tag by first removing all existing tags with the same label.
    fn add_non_repeatable(&mut self, label: &str, value: &str) -> (res: Result<()>)
        ensures
            added(res, final(self)@, set_tag(old(self)@, label@, value@)),
            single_valued(old(self)@) ==> single_valued(final(self)@),
    {
        proof {
            if single_valued(old(self)@) {
                lemma_set_keeps_single_valued(old(self)@, label@, value@);
            }
        }
        self.tags.remove_tags(label);
        self.tags.add_tag(label, value)
    }

    /// Adds a new tag but does not remove any existing tags with the same label
    fn add_repeatable(&mut self, label: &str, value: &str) -> (res: Result<()>)
        ensures
            added(res, final(self)@, append_tag(old(self)@, label@, value@)),
            repeatable(label@) && single_valued(old(self)@) ==> single_valued(final(self)@),
    {
        proof {
            if repeatable(label@) && single_valued(old(self)@) {
                lemma_append_keeps_single_valued(old(self)@, label@, value@);
            }
        }
        self.tags.add_tag(label, value)
    }
}

impl Default for BagInfo {
    fn default() -> (info: BagInfo)
        ensures
            info@ == Seq::<TagView>::empty(),
    {
        BagInfo::new()
    }
}

impl From<TagList> for BagInfo {
    fn from(tags: TagList) -> (info: BagInfo) {
        BagInfo { tags }
    }
}

impl vstd::std_specs::convert::FromSpecImpl<TagList> for BagInfo {
    open spec fn obeys_from_spec() -> bool {
        true
    }

    closed spec fn from_spec(tags: TagList) -> BagInfo {
        BagInfo { tags }
    }
}

impl From<BagInfo> for TagList {
    fn from(info: BagInfo) -> (tags: TagList) {
        info.tags
    }
}

impl vstd::std_specs::convert::FromSpecImpl<BagInfo> for TagList {
    open spec fn obeys_from_spec() -> bool {
        true
    }

    closed spec fn from_spec(info: BagInfo) -> TagList {
        info.tags
    }
}

/// Bag info made from a tag list holds the list's tags.
pub proof fn lemma_info_from_tags(tags: TagList)
    ensures
        <BagInfo as vstd::std_specs::convert::FromSpec<TagList>>::from_spec(tags)@ == tags@,
{
}

/// A tag list made from bag info holds the info's tags.
pub proof fn lemma_tags_from_info(info: BagInfo)
    ensures
        <TagList as vstd::std_specs::convert::FromSpec<BagInfo>>::from_spec(info)@ == info@,
{
}

/// The text of `bag-info.txt` for `bag_info`.
pub fn write_bag_info(bag_info: &BagInfo) -> (text: String)
    ensures
        text@ == lines_text(tag_lines(bag_info@)),
        valid_tags(bag_info@),
{
    write_tag_file(bag_info.tags())
}

/// Reads bag info out of the lines of the `bag-info.txt` at `path`.
pub fn read_bag_info(lines: &Vec<String>, path: &str) -> (res: Result<BagInfo>)
    ensures
        result_view(res) == parse_lines(lines.deep_view(), path@),
{
    let tags = read_tag_file(lines, path)?;
    Ok(BagInfo::with_tags(tags))
}

} // verus!
