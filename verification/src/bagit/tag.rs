//! Tags, tag lists and the line grammar of tag files.

use vstd::prelude::*;
use vstd::string::StringExecFns;

use crate::bagit::chars::{
    ascii_fold, contains_line_break, ends_with_space_or_tab, eq_ignore_ascii_case,
    has_line_break, leading_space_or_tab, lemma_split_joined, matches_ignore_case, skip_first,
    split_at_first, split_once, starts_with_space_or_tab, to_chars, trailing_space_or_tab,
};
use crate::bagit::chars::LF;
use crate::bagit::error::{result_view, Error, ErrorView, Result};

verus! {

/// A label and its value, as one line of a tag file carries them.
#[derive(Debug)]
pub struct Tag {
    label: String,
    value: String,
}

/// The mathematical content of a [`Tag`].
pub struct TagView {
    pub label: Seq<char>,
    pub value: Seq<char>,
}

pub const DETAILS_LABEL_WHITESPACE: &'static str = "Label must not start or end with whitespace";

pub const DETAILS_LABEL_LINE_BREAK: &'static str = "Label must not contain CR or LF characters";

pub const DETAILS_VALUE_LINE_BREAK: &'static str = "Value must not contain CR or LF characters";

pub const DETAILS_MISSING_SEPARATOR: &'static str =
    "Value part must start with one whitespace character";

pub const DETAILS_MISSING_COLON: &'static str = "Missing colon separating the label and value";

/// A label is valid when no space or tab stands at either end and no line break inside.
pub open spec fn valid_label(label: Seq<char>) -> bool {
    &&& !leading_space_or_tab(label)
    &&& !trailing_space_or_tab(label)
    &&& !has_line_break(label)
}

/// A value is valid when it holds no line break.
pub open spec fn valid_value(value: Seq<char>) -> bool {
    !has_line_break(value)
}

pub open spec fn valid_tag(tag: TagView) -> bool {
    valid_label(tag.label) && valid_value(tag.value)
}

/// The error, if any, that rejects `label`.
pub open spec fn label_fault(label: Seq<char>) -> Option<ErrorView> {
    if leading_space_or_tab(label) || trailing_space_or_tab(label) {
        Some(ErrorView::InvalidTag { label, details: DETAILS_LABEL_WHITESPACE@ })
    } else if has_line_break(label) {
        Some(ErrorView::InvalidTag { label, details: DETAILS_LABEL_LINE_BREAK@ })
    } else {
        None
    }
}

/// The error, if any, that rejects `value` as the value of `label`.
pub open spec fn value_fault(label: Seq<char>, value: Seq<char>) -> Option<ErrorView> {
    if has_line_break(value) {
        Some(ErrorView::InvalidTag { label, details: DETAILS_VALUE_LINE_BREAK@ })
    } else {
        None
    }
}

/// What constructing a tag from `label` and `value` gives.
pub open spec fn new_tag(label: Seq<char>, value: Seq<char>) -> std::result::Result<
    TagView,
    ErrorView,
> {
    match label_fault(label) {
        Some(e) => Err(e),
        None => match value_fault(label, value) {
            Some(e) => Err(e),
            None => Ok(TagView { label, value }),
        },
    }
}

/// What one line of a tag file parses to.
pub open spec fn parse_line(line: Seq<char>) -> std::result::Result<TagView, ErrorView> {
    match split_at_first(line, ':') {
        None => Err(ErrorView::InvalidTagLine { details: DETAILS_MISSING_COLON@ }),
        Some((label, rest)) => if !leading_space_or_tab(rest) {
            Err(ErrorView::InvalidTagLine { details: DETAILS_MISSING_SEPARATOR@ })
        } else {
            new_tag(label, rest.skip(1))
        },
    }
}

/// The line that carries `tag`: label, colon, one space, value.
pub open spec fn tag_line(tag: TagView) -> Seq<char> {
    tag.label + seq![':', ' '] + tag.value
}

/// The reason that a rejected line gives.
pub open spec fn fault_details(e: ErrorView) -> Seq<char> {
    match e {
        ErrorView::InvalidTag { label, details } => details,
        ErrorView::InvalidTagLine { details } => details,
        _ => Seq::empty(),
    }
}

/// True when line `i` of `lines` is rejected and every line before it parses.
pub open spec fn is_first_bad_line(lines: Seq<Seq<char>>, i: int) -> bool {
    &&& 0 <= i < lines.len()
    &&& parse_line(lines[i]) is Err
    &&& forall|j: int| 0 <= j < i ==> parse_line(#[trigger] lines[j]) is Ok
}

pub open spec fn all_lines_parse(lines: Seq<Seq<char>>) -> bool {
    forall|j: int| 0 <= j < lines.len() ==> parse_line(#[trigger] lines[j]) is Ok
}

/// What the lines of the tag file at `path` parse to: every tag in order, or the first
/// rejected line with its number, counted from 1.
pub open spec fn parse_lines(lines: Seq<Seq<char>>, path: Seq<char>) -> std::result::Result<
    Seq<TagView>,
    ErrorView,
> {
    if all_lines_parse(lines) {
        Ok(Seq::new(lines.len(), |i: int| parse_line(lines[i])->Ok_0))
    } else {
        let bad = choose|i: int| is_first_bad_line(lines, i);
        Err(
            ErrorView::MalformedLine {
                path,
                num: (bad + 1) as nat,
                details: fault_details(parse_line(lines[bad])->Err_0),
            },
        )
    }
}

/// The lines that carry `tags`, one per tag and in their order.
pub open spec fn tag_lines(tags: Seq<TagView>) -> Seq<Seq<char>> {
    Seq::new(tags.len(), |i: int| tag_line(tags[i]))
}

/// The text of `lines`, each followed by a line feed.
pub open spec fn lines_text(lines: Seq<Seq<char>>) -> Seq<char>
    decreases lines.len(),
{
    if lines.len() == 0 {
        Seq::empty()
    } else {
        lines_text(lines.drop_last()) + lines.last().push(LF)
    }
}

/// True when no label of `tags` holds a colon.
pub open spec fn colon_free_labels(tags: Seq<TagView>) -> bool {
    forall|i: int| 0 <= i < tags.len() ==> !(#[trigger] tags[i]).label.contains(':')
}

/// The line written for a valid tag parses back to that tag, provided that its label holds
/// no colon: a line is split at its first colon, so a colon inside a label would end the
/// label early.
pub proof fn lemma_tag_line_roundtrip(tag: TagView)
    requires
        valid_tag(tag),
        !tag.label.contains(':'),
    ensures
        parse_line(tag_line(tag)) == Ok::<TagView, ErrorView>(tag),
{
    let rest = seq![' '] + tag.value;
    lemma_split_joined(tag.label, ':', rest);
    assert(tag_line(tag) =~= tag.label.push(':') + rest);
    assert(rest.skip(1) =~= tag.value);
}

/// Reading the lines written for a list of valid tags gives the list back, provided that
/// no label holds a colon.
pub proof fn lemma_tag_lines_roundtrip(tags: Seq<TagView>, path: Seq<char>)
    requires
        valid_tags(tags),
        colon_free_labels(tags),
    ensures
        parse_lines(tag_lines(tags), path) == Ok::<Seq<TagView>, ErrorView>(tags),
{
    let lines = tag_lines(tags);
    assert forall|j: int| 0 <= j < lines.len() implies parse_line(#[trigger] lines[j]) == Ok::<
        TagView,
        ErrorView,
    >(tags[j]) by {
        lemma_tag_line_roundtrip(tags[j]);
    }
    assert(Seq::new(lines.len(), |i: int| parse_line(lines[i])->Ok_0) =~= tags);
}

/// True when `tag` carries `label`, whatever the case of its ASCII letters.
pub open spec fn has_label(tag: TagView, label: Seq<char>) -> bool {
    eq_ignore_ascii_case(tag.label, label)
}

pub open spec fn label_is(label: Seq<char>) -> spec_fn(TagView) -> bool {
    |tag: TagView| has_label(tag, label)
}

pub open spec fn label_is_not(label: Seq<char>) -> spec_fn(TagView) -> bool {
    |tag: TagView| !has_label(tag, label)
}

/// The tags of `tags` that carry `label`, in their order.
pub open spec fn with_label(tags: Seq<TagView>, label: Seq<char>) -> Seq<TagView> {
    tags.filter(label_is(label))
}

/// The tags of `tags` that do not carry `label`, in their order.
pub open spec fn without_label(tags: Seq<TagView>, label: Seq<char>) -> Seq<TagView> {
    tags.filter(label_is_not(label))
}

/// The first tag of `tags` that carries `label`.
pub open spec fn first_with_label(tags: Seq<TagView>, label: Seq<char>) -> Option<TagView> {
    let found = with_label(tags, label);
    if found.len() > 0 {
        Some(found.first())
    } else {
        None
    }
}

/// True when every tag of `tags` is valid.
pub open spec fn valid_tags(tags: Seq<TagView>) -> bool {
    forall|i: int| 0 <= i < tags.len() ==> valid_tag(#[trigger] tags[i])
}

/// The views of borrowed tags, in their order.
pub open spec fn tag_views(tags: Seq<&Tag>) -> Seq<TagView> {
    Seq::new(tags.len(), |i: int| tags[i]@)
}

/// The views of tags, in their order.
pub open spec fn owned_tag_views(tags: Seq<Tag>) -> Seq<TagView> {
    tags.map_values(|tag: Tag| tag@)
}

pub open spec fn tag_option_view(tag: Option<&Tag>) -> Option<TagView> {
    match tag {
        Some(t) => Some(t@),
        None => None,
    }
}

/// Filtering a sequence that ends in `x` filters what stands before it, and keeps `x` or not.
pub proof fn lemma_filter_push<A>(s: Seq<A>, x: A, pred: spec_fn(A) -> bool)
    ensures
        s.push(x).filter(pred) == if pred(x) {
            s.filter(pred).push(x)
        } else {
            s.filter(pred)
        },
{
    reveal(Seq::filter);
    assert(s.push(x).drop_last() =~= s);
}

/// Filtering one more element of `s`.
pub proof fn lemma_filter_take_next<A>(s: Seq<A>, i: int, pred: spec_fn(A) -> bool)
    requires
        0 <= i < s.len(),
    ensures
        s.take(i + 1).filter(pred) == if pred(s[i]) {
            s.take(i).filter(pred).push(s[i])
        } else {
            s.take(i).filter(pred)
        },
{
    assert(s.take(i + 1) =~= s.take(i).push(s[i]));
    lemma_filter_push(s.take(i), s[i], pred);
}

/// Equality up to the case of ASCII letters holds of a text and itself, and both ways round.
pub proof fn lemma_eq_ignore_ascii_case_symmetric(a: Seq<char>, b: Seq<char>)
    ensures
        eq_ignore_ascii_case(a, a),
        eq_ignore_ascii_case(a, b) == eq_ignore_ascii_case(b, a),
{
    if eq_ignore_ascii_case(a, b) {
        assert forall|i: int| 0 <= i < b.len() implies ascii_fold(#[trigger] b[i]) == ascii_fold(
            a[i],
        ) by {
            assert(ascii_fold(a[i]) == ascii_fold(b[i]));
        }
    }
    if eq_ignore_ascii_case(b, a) {
        assert forall|i: int| 0 <= i < a.len() implies ascii_fold(#[trigger] a[i]) == ascii_fold(
            b[i],
        ) by {
            assert(ascii_fold(b[i]) == ascii_fold(a[i]));
        }
    }
}

/// Two labels that are equal up to case are carried by the same tags.
pub proof fn lemma_eq_ignore_ascii_case_transitive(a: Seq<char>, b: Seq<char>, c: Seq<char>)
    requires
        eq_ignore_ascii_case(a, b),
        eq_ignore_ascii_case(b, c),
    ensures
        eq_ignore_ascii_case(a, c),
{
    assert forall|i: int| 0 <= i < a.len() implies ascii_fold(#[trigger] a[i]) == ascii_fold(
        c[i],
    ) by {
        assert(ascii_fold(a[i]) == ascii_fold(b[i]));
        assert(ascii_fold(b[i]) == ascii_fold(c[i]));
    }
}

/// Once the tags that carry a label have left, no tag carries that label, nor one equal to
/// it up to case.
pub proof fn lemma_with_label_of_without(tags: Seq<TagView>, removed: Seq<char>, label: Seq<char>)
    requires
        eq_ignore_ascii_case(removed, label),
    ensures
        with_label(without_label(tags, removed), label) == Seq::<TagView>::empty(),
    decreases tags.len(),
{
    reveal(Seq::filter);
    if tags.len() > 0 {
        let init = tags.drop_last();
        let last = tags.last();
        lemma_with_label_of_without(init, removed, label);
        assert(tags =~= init.push(last));
        lemma_filter_push(init, last, label_is_not(removed));
        if !has_label(last, removed) {
            lemma_filter_push(without_label(init, removed), last, label_is(label));
            if has_label(last, label) {
                lemma_eq_ignore_ascii_case_symmetric(removed, label);
                lemma_eq_ignore_ascii_case_transitive(last.label, label, removed);
            }
        }
    }
}

/// Tags that carry `label` are no more after other tags have left.
pub proof fn lemma_with_label_after_without(
    tags: Seq<TagView>,
    removed: Seq<char>,
    label: Seq<char>,
)
    ensures
        with_label(without_label(tags, removed), label).len() <= with_label(tags, label).len(),
    decreases tags.len(),
{
    reveal(Seq::filter);
    if tags.len() > 0 {
        let init = tags.drop_last();
        let last = tags.last();
        lemma_with_label_after_without(init, removed, label);
        assert(tags =~= init.push(last));
        lemma_filter_push(init, last, label_is_not(removed));
        lemma_filter_push(init, last, label_is(label));
        if !has_label(last, removed) {
            lemma_filter_push(without_label(init, removed), last, label_is(label));
        }
    }
}

impl View for Tag {
    type V = TagView;

    closed spec fn view(&self) -> TagView {
        TagView { label: self.label@, value: self.value@ }
    }
}

impl Tag {
    #[verifier::type_invariant]
    closed spec fn well_formed(&self) -> bool {
        valid_tag(self@)
    }

    /// Creates a tag and validates that their parts are valid
    pub fn new(label: &str, value: &str) -> (res: Result<Tag>)
        ensures
            result_view(res) == new_tag(label@, value@),
            res is Ok <==> valid_label(label@) && valid_value(value@),
    {
        Tag::validate_label(label)?;
        Tag::validate_value(label, value)?;

        Ok(Tag { label: label.to_owned(), value: value.to_owned() })
    }

    /// Rejects a label that starts or ends with a space or a tab, or holds a line break.
    pub fn validate_label(label: &str) -> (res: Result<()>)
        ensures
            match res {
                Ok(_) => label_fault(label@) is None,
                Err(e) => label_fault(label@) == Some(e@),
            },
            res is Err <==> !valid_label(label@),
            res matches Err(e) ==> e is InvalidTag,
    {
        if starts_with_space_or_tab(label) || ends_with_space_or_tab(label) {
            return Err(
                Error::InvalidTag {
                    label: label.to_owned(),
                    details: DETAILS_LABEL_WHITESPACE.to_owned(),
                },
            );
        } else if contains_line_break(label) {
            return Err(
                Error::InvalidTag {
                    label: label.to_owned(),
                    details: DETAILS_LABEL_LINE_BREAK.to_owned(),
                },
            );
        }
        Ok(())
    }

    /// Rejects a value that holds a line break.
    pub fn validate_value(label: &str, value: &str) -> (res: Result<()>)
        ensures
            match res {
                Ok(_) => value_fault(label@, value@) is None,
                Err(e) => value_fault(label@, value@) == Some(e@),
            },
            res is Err <==> !valid_value(value@),
            res matches Err(e) ==> e is InvalidTag,
    {
        // CR/LF will only appear in a value when serialized
        if contains_line_break(value) {
            return Err(
                Error::InvalidTag {
                    label: label.to_owned(),
                    details: DETAILS_VALUE_LINE_BREAK.to_owned(),
                },
            );
        }
        Ok(())
    }

    pub fn label(&self) -> (r: &str)
        ensures
            r@ == self@.label,
            valid_label(r@),
    {
        proof {
            use_type_invariant(self);
        }
        self.label.as_str()
    }

    pub fn value(&self) -> (r: &str)
        ensures
            r@ == self@.value,
            valid_value(r@),
    {
        proof {
            use_type_invariant(self);
        }
        self.value.as_str()
    }

    /// The line of a tag file that carries this tag, without its line terminator.
    pub fn to_line(&self) -> (line: String)
        ensures
            line@ == tag_line(self@),
            valid_tag(self@),
    {
        proof {
            use_type_invariant(self);
            reveal_strlit(": ");
            assert(": "@ =~= seq![':', ' ']);
        }
        let mut line = self.label.clone();
        line.append(": ");
        line.append(self.value.as_str());
        line
    }
}

/// An ordered collection of tags; a label may occur more than once.
#[derive(Debug)]
pub struct TagList {
    tags: Vec<Tag>,
}

impl View for TagList {
    type V = Seq<TagView>;

    closed spec fn view(&self) -> Seq<TagView> {
        owned_tag_views(self.tags@)
    }
}

impl TagList {
    pub fn new() -> (list: TagList)
        ensures
            list@ == Seq::<TagView>::empty(),
    {
        let list = TagList { tags: Vec::new() };
        assert(list@ =~= Seq::<TagView>::empty());
        list
    }

    pub fn with_capacity(capacity: usize) -> (list: TagList)
        ensures
            list@ == Seq::<TagView>::empty(),
    {
        let list = TagList { tags: Vec::with_capacity(capacity) };
        assert(list@ =~= Seq::<TagView>::empty());
        list
    }

    /// The number of tags.
    pub fn len(&self) -> (n: usize)
        ensures
            n == self@.len(),
    {
        self.tags.len()
    }

    /// The tags, in insertion order.
    pub fn tags(&self) -> (tags: &Vec<Tag>)
        ensures
            owned_tag_views(tags@) == self@,
    {
        &self.tags
    }

    /// Gives the tags up, in insertion order.
    pub fn into_tags(self) -> (tags: Vec<Tag>)
        ensures
            owned_tag_views(tags@) == self@,
    {
        self.tags
    }

    /// The tag at `index`, counted from 0 in insertion order.
    pub fn get(&self, index: usize) -> (r: Option<&Tag>)
        ensures
            match r {
                Some(tag) => index < self@.len() && tag@ == self@[index as int],
                None => index >= self@.len(),
            },
    {
        if index < self.tags.len() {
            Some(&self.tags[index])
        } else {
            None
        }
    }

    /// Returns all of the tags with the provided label. It uses a case insensitive match.
    pub fn get_tags(&self, label: &str) -> (found: Vec<&Tag>)
        ensures
            tag_views(found@) == with_label(self@, label@),
    {
        let wanted = to_chars(label);
        let mut found: Vec<&Tag> = Vec::new();
        let mut i: usize = 0;
        while i < self.tags.len()
            invariant
                i <= self.tags.len(),
                wanted@ == label@,
                tag_views(found@) == with_label(self@.take(i as int), label@),
            decreases self.tags.len() - i,
        {
            let tag = &self.tags[i];
            proof {
                lemma_filter_take_next(self@, i as int, label_is(label@));
            }
            if matches_ignore_case(tag.label.as_str(), &wanted) {
                let ghost before = found@;
                found.push(tag);
                assert(tag_views(found@) =~= tag_views(before).push(tag@));
            }
            i = i + 1;
        }
        assert(self@.take(i as int) =~= self@);
        found
    }

    /// Returns the first tag with the provided label. It uses a case insensitive match.
    pub fn get_tag(&self, label: &str) -> (found: Option<&Tag>)
        ensures
            tag_option_view(found) == first_with_label(self@, label@),
    {
        let wanted = to_chars(label);
        let mut i: usize = 0;
        while i < self.tags.len()
            invariant
                i <= self.tags.len(),
                wanted@ == label@,
                with_label(self@.take(i as int), label@).len() == 0,
            decreases self.tags.len() - i,
        {
            let tag = &self.tags[i];
            proof {
                lemma_filter_take_next(self@, i as int, label_is(label@));
            }
            if matches_ignore_case(tag.label.as_str(), &wanted) {
                proof {
                    let head = self@.take(i + 1);
                    let tail = self@.skip(i + 1);
                    assert(self@ =~= head + tail);
                    Seq::filter_distributes_over_add(head, tail, label_is(label@));
                }
                return Some(tag);
            }
            i = i + 1;
        }
        assert(self@.take(i as int) =~= self@);
        None
    }

    pub fn add(&mut self, tag: Tag)
        ensures
            final(self)@ == old(self)@.push(tag@),
    {
        self.tags.push(tag);
        assert(self@ =~= old(self)@.push(tag@));
    }

    pub fn add_tag(&mut self, label: &str, value: &str) -> (res: Result<()>)
        ensures
            match new_tag(label@, value@) {
                Ok(tag) => res is Ok && final(self)@ == old(self)@.push(tag),
                Err(e) => res matches Err(err) && err@ == e && final(self)@ == old(self)@,
            },
            res is Ok <==> valid_label(label@) && valid_value(value@),
    {
        self.add(Tag::new(label, value)?);
        Ok(())
    }

    /// Removes all of the tags with the provided label. It uses a case insensitive match.
    pub fn remove_tags(&mut self, label: &str)
        ensures
            final(self)@ == without_label(old(self)@, label@),
    {
        let wanted = to_chars(label);
        let ghost orig = self@;
        let ghost mut seen: int = 0;
        let mut i: usize = 0;
        proof {
            assert(orig.take(0).filter(label_is_not(label@)) =~= Seq::<TagView>::empty()) by {
                reveal(Seq::filter);
            }
            assert(self@ =~= without_label(orig.take(0), label@) + orig.skip(0));
        }
        while i < self.tags.len()
            invariant
                wanted@ == label@,
                0 <= seen <= orig.len(),
                i == without_label(orig.take(seen), label@).len(),
                self.tags@.len() == i + orig.len() - seen,
                self@ == without_label(orig.take(seen), label@) + orig.skip(seen),
            decreases self.tags.len() - i,
        {
            let ghost before = self@;
            proof {
                lemma_filter_take_next(orig, seen, label_is_not(label@));
                assert(before[i as int] == orig.skip(seen)[0]);
            }
            if matches_ignore_case(self.tags[i].label.as_str(), &wanted) {
                self.tags.remove(i);
                proof {
                    assert(self@ =~= before.remove(i as int));
                    seen = seen + 1;
                    assert(self@ =~= without_label(orig.take(seen), label@) + orig.skip(seen));
                }
            } else {
                i = i + 1;
                proof {
                    seen = seen + 1;
                    assert(self@ =~= without_label(orig.take(seen), label@) + orig.skip(seen));
                }
            }
        }
        proof {
            assert(orig.take(seen) =~= orig);
            assert(self@ =~= without_label(orig, label@));
        }
    }
}

impl Default for TagList {
    fn default() -> (list: TagList)
        ensures
            list@ == Seq::<TagView>::empty(),
    {
        TagList::new()
    }
}

/// The lines of a tag file that holds `tags`, without their line terminators.
pub fn tag_file_lines(tags: &TagList) -> (lines: Vec<String>)
    ensures
        lines.deep_view() == tag_lines(tags@),
        valid_tags(tags@),
{
    let mut lines: Vec<String> = Vec::new();
    let mut i: usize = 0;
    while i < tags.tags.len()
        invariant
            i <= tags.tags.len(),
            lines.deep_view() == tag_lines(tags@.take(i as int)),
            forall|j: int| 0 <= j < i ==> valid_tag(#[trigger] tags@[j]),
        decreases tags.tags.len() - i,
    {
        let line = tags.tags[i].to_line();
        let ghost before = lines.deep_view();
        lines.push(line);
        assert(lines.deep_view() =~= before.push(line@));
        assert(tag_lines(tags@.take(i + 1)) =~= tag_lines(tags@.take(i as int)).push(line@));
        i = i + 1;
    }
    assert(tags@.take(i as int) =~= tags@);
    lines
}

/// The text of a tag file that holds `tags`: one line per tag, in their order.
pub fn write_tag_file(tags: &TagList) -> (text: String)
    ensures
        text@ == lines_text(tag_lines(tags@)),
        valid_tags(tags@),
{
    let mut text = String::new();
    let mut i: usize = 0;
    while i < tags.tags.len()
        invariant
            i <= tags.tags.len(),
            text@ == lines_text(tag_lines(tags@.take(i as int))),
            forall|j: int| 0 <= j < i ==> valid_tag(#[trigger] tags@[j]),
        decreases tags.tags.len() - i,
    {
        // A value stands on one line: it is not folded, however long it is.
        let line = tags.tags[i].to_line();
        proof {
            reveal_strlit("\n");
            assert("\n"@ =~= seq![LF]);
            let before = tag_lines(tags@.take(i as int));
            let after = tag_lines(tags@.take(i + 1));
            assert(after.drop_last() =~= before);
            assert(after.last() == line@);
        }
        text.append(line.as_str());
        text.append("\n");
        assert(text@ =~= lines_text(tag_lines(tags@.take(i as int))) + line@.push(LF));
        i = i + 1;
    }
    assert(tags@.take(i as int) =~= tags@);
    text
}

/// Parses the lines of the tag file at `path`, stopping at the first line that is rejected.
pub fn read_tag_file(lines: &Vec<String>, path: &str) -> (res: Result<TagList>)
    ensures
        result_view(res) == parse_lines(lines.deep_view(), path@),
{
    let mut tags = TagList::new();
    let mut i: usize = 0;

    // Every line has to hold a tag: an empty line has no colon and is rejected.
    while i < lines.len()
        invariant
            i <= lines.len(),
            tags@.len() == i,
            forall|j: int| 0 <= j < i ==> parse_line(#[trigger] lines.deep_view()[j]) is Ok,
            forall|j: int|
                0 <= j < i ==> #[trigger] tags@[j] == parse_line(lines.deep_view()[j])->Ok_0,
        decreases lines.len() - i,
    {
        assert(lines.deep_view()[i as int] == lines[i as int]@);
        match parse_tag_line(lines[i].as_str()) {
            Ok(tag) => tags.add(tag),
            Err(e) => {
                proof {
                    assert(is_first_bad_line(lines.deep_view(), i as int));
                    let bad = choose|k: int| is_first_bad_line(lines.deep_view(), k);
                    assert(bad == i) by {
                        if bad < i {
                            assert(parse_line(lines.deep_view()[bad]) is Ok);
                        }
                        if i < bad {
                            assert(parse_line(lines.deep_view()[i as int]) is Ok);
                        }
                    }
                }
                let details = match e {
                    Error::InvalidTag { details, label: _ } => details,
                    Error::InvalidTagLine { details } => details,
                    _ => unreached::<String>(),
                };
                return Err(
                    Error::MalformedLine { details, path: path.to_owned(), num: (i + 1) as u64 },
                );
            },
        }
        i = i + 1;
    }
    assert(tags@ =~= Seq::new(
        lines.deep_view().len(),
        |k: int| parse_line(lines.deep_view()[k])->Ok_0,
    ));
    Ok(tags)
}

/// Parses one line of a tag file: a label, a colon, one space or tab, and the value.
pub fn parse_tag_line(line: &str) -> (res: Result<Tag>)
    ensures
        result_view(res) == parse_line(line@),
        res matches Err(e) ==> e is InvalidTag || e is InvalidTagLine,
{
    if let Some((label, value)) = split_once(line, ':') {
        if !starts_with_space_or_tab(value) {
            Err(Error::InvalidTagLine { details: DETAILS_MISSING_SEPARATOR.to_owned() })
        } else {
            let trim_value = skip_first(value);
            Tag::new(label, trim_value)
        }
    } else {
        Err(Error::InvalidTagLine { details: DETAILS_MISSING_COLON.to_owned() })
    }
}

} // verus!
