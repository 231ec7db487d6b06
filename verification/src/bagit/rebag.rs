//! Rebagging: a manifest that is there already is kept as long as it lists what the
//! payload holds, and written anew otherwise.

use vstd::prelude::*;

use crate::bagit::manifest::{lists, EntryView, Manifest};
use crate::bagit::validation::{
    all_match, is_unlisted, lemma_unmodified_payload, listed_entry, listed_report, same_files,
    unexpected_report, validation, verify,
};

verus! {

/// What rebagging does with a manifest.
#[derive(Debug, Clone, Copy, PartialEq, Eq, Structural)]
pub enum RebagAction {
    /// The manifest lists what the payload holds: nothing is written.
    Keep,
    /// A file was added, removed or changed: the manifest is written anew, whole.
    Rewrite,
}

/// A report in which every entry is `Match` is the report of a payload that holds what the
/// manifest lists, and nothing else.
pub proof fn lemma_all_match_same_files(expected: Seq<EntryView>, actual: Seq<EntryView>)
    requires
        all_match(validation(expected, actual)),
    ensures
        same_files(expected, actual),
{
    let report = validation(expected, actual);
    let listed = listed_report(expected, actual);
    let extra = unexpected_report(expected, Seq::empty(), actual);
    assert forall|i: int| 0 <= i < expected.len() implies crate::bagit::manifest::digest_at(
        actual,
        (#[trigger] expected[i]).relative_path,
    ) == Some(expected[i].digest) by {
        assert(report[i] == listed_entry(expected[i], actual));
        assert(report[i].status is Match);
    }
    if extra.len() > 0 {
        let at = listed.len() as int;
        assert(report[at] == extra[0]);
        assert(report[at].status is Match);
        assert(false);
    }
    assert forall|j: int| 0 <= j < actual.len() implies lists(
        expected,
        (#[trigger] actual[j]).relative_path,
    ) by {
        if !lists(expected, actual[j].relative_path) {
            let unlisted = is_unlisted(expected, Seq::empty());
            assert(unlisted(actual[j]));
            actual.lemma_filter_contains(unlisted, j);
            assert(actual.filter(unlisted).len() > 0);
        }
    }
}

/// Decides what to do with the manifest `existing`, given the manifest `rebuilt` of what
/// the payload holds now.
pub fn rebag_action(existing: &Manifest, rebuilt: &Manifest) -> (action: RebagAction)
    ensures
        action == if same_files(existing@.entries, rebuilt@.entries) {
            RebagAction::Keep
        } else {
            RebagAction::Rewrite
        },
{
    let report = verify(existing, rebuilt);
    proof {
        if same_files(existing@.entries, rebuilt@.entries) {
            lemma_unmodified_payload(existing@.entries, Seq::empty(), rebuilt@.entries);
        }
        if all_match(report@) {
            lemma_all_match_same_files(existing@.entries, rebuilt@.entries);
        }
    }
    if report.is_valid() {
        RebagAction::Keep
    } else {
        RebagAction::Rewrite
    }
}

} // verus!
