//! Validation: what a bag's manifest lists, held against what its payload holds.

use vstd::prelude::*;

use crate::bagit::chars::same_text;
use crate::bagit::error::{Error, ErrorView};
use crate::bagit::manifest::{
    digest_at, distinct_paths, entry_views, lemma_digest_at, lists, EntryView, Manifest,
};
use crate::bagit::tag::lemma_filter_take_next;

verus! {

/// What validation found of one path.
#[derive(Debug)]
pub enum PathStatus {
    /// The file is there and its digest is the listed one.
    Match,
    /// The file is there and its digest is not the listed one.
    Mismatch { expected: String, actual: String },
    /// The manifest lists the file and it is not there.
    Missing,
    /// The file is there and the manifest does not list it.
    Unexpected,
}

/// The mathematical content of a [`PathStatus`].
pub enum PathStatusView {
    Match,
    Mismatch { expected: Seq<char>, actual: Seq<char> },
    Missing,
    Unexpected,
}

impl View for PathStatus {
    type V = PathStatusView;

    open spec fn view(&self) -> PathStatusView {
        match *self {
            PathStatus::Match => PathStatusView::Match,
            PathStatus::Mismatch { expected, actual } => PathStatusView::Mismatch {
                expected: expected@,
                actual: actual@,
            },
            PathStatus::Missing => PathStatusView::Missing,
            PathStatus::Unexpected => PathStatusView::Unexpected,
        }
    }
}

/// One line of a validation report: a path and what was found of it.
#[derive(Debug)]
pub struct ReportEntry {
    pub relative_path: String,
    pub status: PathStatus,
}

/// The mathematical content of a [`ReportEntry`].
pub struct ReportEntryView {
    pub relative_path: Seq<char>,
    pub status: PathStatusView,
}

impl View for ReportEntry {
    type V = ReportEntryView;

    open spec fn view(&self) -> ReportEntryView {
        ReportEntryView { relative_path: self.relative_path@, status: self.status@ }
    }
}

/// What validation found: every path of the manifest in the manifest's order, then every
/// path of the payload that the manifest does not list.
#[derive(Debug)]
pub struct ValidationReport {
    entries: Vec<ReportEntry>,
}

impl View for ValidationReport {
    type V = Seq<ReportEntryView>;

    closed spec fn view(&self) -> Seq<ReportEntryView> {
        report_views(self.entries@)
    }
}

/// The views of report entries, in their order.
pub open spec fn report_views(entries: Seq<ReportEntry>) -> Seq<ReportEntryView> {
    Seq::new(entries.len(), |i: int| entries[i]@)
}

/// What is found of a listed file, given the files that are there.
pub open spec fn status_of(entry: EntryView, actual: Seq<EntryView>) -> PathStatusView {
    match digest_at(actual, entry.relative_path) {
        None => PathStatusView::Missing,
        Some(digest) => if digest == entry.digest {
            PathStatusView::Match
        } else {
            PathStatusView::Mismatch { expected: entry.digest, actual: digest }
        },
    }
}

/// The report's entry for a listed file.
pub open spec fn listed_entry(entry: EntryView, actual: Seq<EntryView>) -> ReportEntryView {
    ReportEntryView { relative_path: entry.relative_path, status: status_of(entry, actual) }
}

/// The report's entry for a file that is not listed.
pub open spec fn unexpected_entry(entry: EntryView) -> ReportEntryView {
    ReportEntryView { relative_path: entry.relative_path, status: PathStatusView::Unexpected }
}

/// True when one of the manifests `others` lists `path`.
pub open spec fn lists_any(others: Seq<Seq<EntryView>>, path: Seq<char>) -> bool {
    exists|k: int| 0 <= k < others.len() && lists(#[trigger] others[k], path)
}

/// True of the files that neither `expected` nor one of `others` lists.
pub open spec fn is_unlisted(expected: Seq<EntryView>, others: Seq<Seq<EntryView>>) -> spec_fn(
    EntryView,
) -> bool {
    |entry: EntryView|
        !lists(expected, entry.relative_path) && !lists_any(others, entry.relative_path)
}

/// The entries of manifests, manifest by manifest.
pub open spec fn entries_of_all(manifests: Seq<Manifest>) -> Seq<Seq<EntryView>> {
    Seq::new(manifests.len(), |k: int| manifests[k]@.entries)
}

/// The report on the listed files, in the manifest's order.
pub open spec fn listed_report(expected: Seq<EntryView>, actual: Seq<EntryView>) -> Seq<
    ReportEntryView,
> {
    Seq::new(expected.len(), |i: int| listed_entry(expected[i], actual))
}

/// The report on the files that are there and that no manifest lists, in the payload's
/// order.
pub open spec fn unexpected_report(
    expected: Seq<EntryView>,
    others: Seq<Seq<EntryView>>,
    actual: Seq<EntryView>,
) -> Seq<ReportEntryView> {
    actual.filter(is_unlisted(expected, others)).map_values(
        |entry: EntryView| unexpected_entry(entry),
    )
}

/// The whole report on one manifest of a bag that has the payload manifests `others`
/// beside it: the listed files first, then the files that no manifest lists.
pub open spec fn validation_among(
    expected: Seq<EntryView>,
    others: Seq<Seq<EntryView>>,
    actual: Seq<EntryView>,
) -> Seq<ReportEntryView> {
    listed_report(expected, actual) + unexpected_report(expected, others, actual)
}

/// The whole report on the one payload manifest of a bag.
pub open spec fn validation(expected: Seq<EntryView>, actual: Seq<EntryView>) -> Seq<
    ReportEntryView,
> {
    validation_among(expected, Seq::empty(), actual)
}

/// True when every entry of the report is `Match`.
pub open spec fn all_match(report: Seq<ReportEntryView>) -> bool {
    forall|i: int| 0 <= i < report.len() ==> (#[trigger] report[i]).status is Match
}

/// The error that an entry of a report stands for, if it is not `Match`.
pub open spec fn entry_failure(entry: ReportEntryView) -> Option<ErrorView> {
    match entry.status {
        PathStatusView::Match => None,
        PathStatusView::Mismatch { expected, actual } => Some(
            ErrorView::DigestMismatch { path: entry.relative_path, expected, actual },
        ),
        PathStatusView::Missing => Some(
            ErrorView::MissingPayloadFile { path: entry.relative_path },
        ),
        PathStatusView::Unexpected => Some(
            ErrorView::UnexpectedPayloadFile { path: entry.relative_path },
        ),
    }
}

pub open spec fn is_failure() -> spec_fn(ReportEntryView) -> bool {
    |entry: ReportEntryView| !(entry.status is Match)
}

/// The errors that a report stands for, in the report's order.
pub open spec fn failures_of(report: Seq<ReportEntryView>) -> Seq<ErrorView> {
    report.filter(is_failure()).map_values(|entry: ReportEntryView| entry_failure(entry)->0)
}

/// The views of errors, in their order.
pub open spec fn error_views(errors: Seq<Error>) -> Seq<ErrorView> {
    Seq::new(errors.len(), |i: int| errors[i]@)
}

/// True when the payload holds what the manifest lists and nothing else: every listed file
/// is there with its listed digest, and every file that is there is listed.
pub open spec fn same_files(expected: Seq<EntryView>, actual: Seq<EntryView>) -> bool {
    &&& forall|i: int|
        0 <= i < expected.len() ==> digest_at(actual, (#[trigger] expected[i]).relative_path)
            == Some(expected[i].digest)
    &&& forall|j: int|
        0 <= j < actual.len() ==> lists(expected, (#[trigger] actual[j]).relative_path)
}

/// The report in which every listed file is `Match`.
pub open spec fn matching_report(expected: Seq<EntryView>) -> Seq<ReportEntryView> {
    Seq::new(
        expected.len(),
        |i: int|
            ReportEntryView {
                relative_path: expected[i].relative_path,
                status: PathStatusView::Match,
            },
    )
}

/// Where every file that is there is listed, the report holds no `Unexpected` entry.
pub proof fn lemma_nothing_unexpected(
    expected: Seq<EntryView>,
    others: Seq<Seq<EntryView>>,
    actual: Seq<EntryView>,
)
    requires
        forall|j: int|
            0 <= j < actual.len() ==> lists(expected, (#[trigger] actual[j]).relative_path),
    ensures
        unexpected_report(expected, others, actual) == Seq::<ReportEntryView>::empty(),
    decreases actual.len(),
{
    reveal(Seq::filter);
    let unlisted = is_unlisted(expected, others);
    if actual.len() > 0 {
        let init = actual.drop_last();
        assert forall|j: int| 0 <= j < init.len() implies lists(
            expected,
            (#[trigger] init[j]).relative_path,
        ) by {
            assert(init[j] == actual[j]);
        }
        lemma_nothing_unexpected(expected, others, init);
        assert(lists(expected, actual[actual.len() - 1].relative_path));
        assert(actual.filter(unlisted) == init.filter(unlisted));
        assert(init.filter(unlisted) =~= Seq::<EntryView>::empty()) by {
            assert(unexpected_report(expected, others, init).len() == 0);
        }
    }
    assert(unexpected_report(expected, others, actual) =~= Seq::<ReportEntryView>::empty());
}

/// Validating a payload that holds what the manifest lists, and nothing else, reports
/// every listed file as `Match` and reports nothing more.
pub proof fn lemma_unmodified_payload(
    expected: Seq<EntryView>,
    others: Seq<Seq<EntryView>>,
    actual: Seq<EntryView>,
)
    requires
        same_files(expected, actual),
    ensures
        validation_among(expected, others, actual) == matching_report(expected),
        all_match(validation_among(expected, others, actual)),
{
    lemma_nothing_unexpected(expected, others, actual);
    assert(listed_report(expected, actual) =~= matching_report(expected));
    assert(validation_among(expected, others, actual) =~= matching_report(expected));
}

/// A file's digest among entries from which another file was taken out.
proof fn lemma_digest_at_after_remove(actual: Seq<EntryView>, k: int, j: int)
    requires
        distinct_paths(actual),
        0 <= k < actual.len(),
        0 <= j < actual.len(),
    ensures
        distinct_paths(actual.remove(k)),
        j != k ==> digest_at(actual.remove(k), actual[j].relative_path) == Some(
            actual[j].digest,
        ),
        j == k ==> digest_at(actual.remove(k), actual[j].relative_path) is None,
{
    let rest = actual.remove(k);
    assert forall|a: int, b: int| 0 <= a < b < rest.len() implies (
    #[trigger] rest[a]).relative_path != (#[trigger] rest[b]).relative_path by {
        let a0 = if a < k {
            a
        } else {
            a + 1
        };
        let b0 = if b < k {
            b
        } else {
            b + 1
        };
        assert(rest[a] == actual[a0]);
        assert(rest[b] == actual[b0]);
    }
    if j != k {
        let at = if j < k {
            j
        } else {
            j - 1
        };
        assert(rest[at] == actual[j]);
        lemma_digest_at(rest, at);
    } else {
        if lists(rest, actual[k].relative_path) {
            let a = choose|a: int|
                0 <= a < rest.len() && (#[trigger] rest[a]).relative_path
                    == actual[k].relative_path;
            let a0 = if a < k {
                a
            } else {
                a + 1
            };
            assert(rest[a] == actual[a0]);
            if a0 < k {
                assert(actual[a0].relative_path != actual[k].relative_path);
            } else {
                assert(actual[k].relative_path != actual[a0].relative_path);
            }
        }
    }
}

/// After one file has been deleted from a payload that held what the manifest lists,
/// validation reports that file as `Missing`, every other listed file as `Match`, and
/// nothing more.
pub proof fn lemma_deleted_file(
    expected: Seq<EntryView>,
    others: Seq<Seq<EntryView>>,
    actual: Seq<EntryView>,
    k: int,
)
    requires
        distinct_paths(expected),
        distinct_paths(actual),
        same_files(expected, actual),
        0 <= k < actual.len(),
    ensures
        exists|m: int|
            0 <= m < expected.len() && (#[trigger] expected[m]).relative_path
                == actual[k].relative_path && validation_among(
                expected,
                others,
                actual.remove(k),
            ) == matching_report(expected).update(
                m,
                ReportEntryView {
                    relative_path: actual[k].relative_path,
                    status: PathStatusView::Missing,
                },
            ),
{
    let gone = actual[k].relative_path;
    let rest = actual.remove(k);
    assert(lists(expected, gone));
    let m = choose|m: int| 0 <= m < expected.len() && (#[trigger] expected[m]).relative_path == gone;
    let report = matching_report(expected).update(
        m,
        ReportEntryView { relative_path: gone, status: PathStatusView::Missing },
    );
    assert forall|j: int| 0 <= j < rest.len() implies lists(
        expected,
        (#[trigger] rest[j]).relative_path,
    ) by {
        let j0 = if j < k {
            j
        } else {
            j + 1
        };
        assert(rest[j] == actual[j0]);
    }
    lemma_nothing_unexpected(expected, others, rest);
    assert forall|i: int| 0 <= i < expected.len() implies listed_entry(expected[i], rest)
        == report[i] by {
        let path = expected[i].relative_path;
        assert(digest_at(actual, path) == Some(expected[i].digest));
        let j = choose|j: int|
            0 <= j < actual.len() && (#[trigger] actual[j]).relative_path == path;
        lemma_digest_at(actual, j);
        lemma_digest_at_after_remove(actual, k, j);
        if i != m {
            if i < m {
                assert(expected[i].relative_path != expected[m].relative_path);
            } else {
                assert(expected[m].relative_path != expected[i].relative_path);
            }
        }
    }
    assert(validation_among(expected, others, rest) =~= report);
}

/// After the bytes of one file have changed in a payload that held what the manifest
/// lists, so that its digest is another, validation reports that file as `Mismatch` with
/// the listed digest and the new one, every other listed file as `Match`, and nothing more.
pub proof fn lemma_modified_file(
    expected: Seq<EntryView>,
    others: Seq<Seq<EntryView>>,
    actual: Seq<EntryView>,
    k: int,
    digest: Seq<char>,
)
    requires
        distinct_paths(expected),
        distinct_paths(actual),
        same_files(expected, actual),
        0 <= k < actual.len(),
        digest != actual[k].digest,
    ensures
        exists|m: int|
            0 <= m < expected.len() && (#[trigger] expected[m]).relative_path
                == actual[k].relative_path && validation_among(
                expected,
                others,
                actual.update(k, EntryView { digest, ..actual[k] }),
            ) == matching_report(expected).update(
                m,
                ReportEntryView {
                    relative_path: actual[k].relative_path,
                    status: PathStatusView::Mismatch { expected: expected[m].digest, actual: digest },
                },
            ),
{
    let changed = actual[k].relative_path;
    let now = actual.update(k, EntryView { digest, ..actual[k] });
    assert(lists(expected, changed));
    let m = choose|m: int|
        0 <= m < expected.len() && (#[trigger] expected[m]).relative_path == changed;
    let report = matching_report(expected).update(
        m,
        ReportEntryView {
            relative_path: changed,
            status: PathStatusView::Mismatch { expected: expected[m].digest, actual: digest },
        },
    );
    assert forall|a: int, b: int| 0 <= a < b < now.len() implies (#[trigger] now[a]).relative_path
        != (#[trigger] now[b]).relative_path by {
        assert(now[a].relative_path == actual[a].relative_path);
        assert(now[b].relative_path == actual[b].relative_path);
    }
    assert forall|j: int| 0 <= j < now.len() implies lists(
        expected,
        (#[trigger] now[j]).relative_path,
    ) by {
        assert(now[j].relative_path == actual[j].relative_path);
    }
    lemma_nothing_unexpected(expected, others, now);
    assert forall|i: int| 0 <= i < expected.len() implies listed_entry(expected[i], now)
        == report[i] by {
        let path = expected[i].relative_path;
        assert(digest_at(actual, path) == Some(expected[i].digest));
        let j = choose|j: int|
            0 <= j < actual.len() && (#[trigger] actual[j]).relative_path == path;
        lemma_digest_at(actual, j);
        assert(now[j].relative_path == path);
        lemma_digest_at(now, j);
        if i != m {
            if i < m {
                assert(expected[i].relative_path != expected[m].relative_path);
            } else {
                assert(expected[m].relative_path != expected[i].relative_path);
            }
            if j == k {
                assert(false);
            }
        } else {
            if j < k {
                assert(actual[j].relative_path != actual[k].relative_path);
            }
            if k < j {
                assert(actual[k].relative_path != actual[j].relative_path);
            }
        }
    }
    assert(validation_among(expected, others, now) =~= report);
}

impl ValidationReport {
    /// The report's entries, in their order.
    pub fn entries(&self) -> (entries: &Vec<ReportEntry>)
        ensures
            report_views(entries@) == self@,
    {
        &self.entries
    }

    /// Tells whether the payload is what the manifest lists: every entry is `Match`.
    pub fn is_valid(&self) -> (valid: bool)
        ensures
            valid == all_match(self@),
    {
        let mut i: usize = 0;
        while i < self.entries.len()
            invariant
                i <= self.entries.len(),
                forall|j: int| 0 <= j < i ==> (#[trigger] self@[j]).status is Match,
            decreases self.entries.len() - i,
        {
            match self.entries[i].status {
                PathStatus::Match => {},
                _ => {
                    assert(!(self@[i as int].status is Match));
                    return false;
                },
            }
            i = i + 1;
        }
        true
    }

    /// The errors that the report stands for: one for each entry that is not `Match`.
    pub fn failures(&self) -> (errors: Vec<Error>)
        ensures
            error_views(errors@) == failures_of(self@),
    {
        let mut errors: Vec<Error> = Vec::new();
        let mut i: usize = 0;
        proof {
            reveal(Seq::filter);
            assert(self@.take(0).filter(is_failure()) =~= Seq::empty());
            assert(error_views(errors@) =~= failures_of(self@.take(0)));
        }
        while i < self.entries.len()
            invariant
                i <= self.entries.len(),
                error_views(errors@) == failures_of(self@.take(i as int)),
            decreases self.entries.len() - i,
        {
            let entry = &self.entries[i];
            let ghost before = error_views(errors@);
            proof {
                lemma_filter_take_next(self@, i as int, is_failure());
                assert(self@[i as int] == entry@);
            }
            match &entry.status {
                PathStatus::Match => {},
                PathStatus::Mismatch { expected, actual } => {
                    errors.push(
                        Error::DigestMismatch {
                            path: entry.relative_path.clone(),
                            expected: expected.clone(),
                            actual: actual.clone(),
                        },
                    );
                    assert(error_views(errors@) =~= before.push(entry_failure(entry@)->0));
                },
                PathStatus::Missing => {
                    errors.push(Error::MissingPayloadFile { path: entry.relative_path.clone() });
                    assert(error_views(errors@) =~= before.push(entry_failure(entry@)->0));
                },
                PathStatus::Unexpected => {
                    errors.push(Error::UnexpectedPayloadFile { path: entry.relative_path.clone() });
                    assert(error_views(errors@) =~= before.push(entry_failure(entry@)->0));
                },
            }
            proof {
                let kept = self@.take(i as int).filter(is_failure());
                if !(entry@.status is Match) {
                    assert(kept.push(entry@).map_values(
                        |entry: ReportEntryView| entry_failure(entry)->0,
                    ) =~= kept.map_values(|entry: ReportEntryView| entry_failure(entry)->0).push(
                        entry_failure(entry@)->0,
                    ));
                }
            }
            i = i + 1;
        }
        assert(self@.take(i as int) =~= self@);
        errors
    }
}

/// Tells whether one of `manifests` lists `path`.
fn any_lists(manifests: &Vec<Manifest>, path: &str) -> (r: bool)
    ensures
        r == lists_any(entries_of_all(manifests@), path@),
{
    let mut k: usize = 0;
    while k < manifests.len()
        invariant
            k <= manifests.len(),
            forall|j: int| 0 <= j < k ==> !lists(#[trigger] entries_of_all(manifests@)[j], path@),
        decreases manifests.len() - k,
    {
        assert(entries_of_all(manifests@)[k as int] == manifests[k as int]@.entries);
        if manifests[k].digest_of(path).is_some() {
            return true;
        }
        k = k + 1;
    }
    false
}

/// Holds what the manifest `expected` lists against `actual`, the manifest of what the
/// payload holds now. Files are told apart by their paths and compared by their digests.
/// A file that `expected` does not list is `Unexpected` only if none of `others`, the
/// bag's other payload manifests, lists it either.
pub fn verify_among(expected: &Manifest, others: &Vec<Manifest>, actual: &Manifest) -> (report:
    ValidationReport)
    ensures
        report@ == validation_among(expected@.entries, entries_of_all(others@), actual@.entries),
{
    let listed = expected.entries();
    let found = actual.entries();
    let ghost exp = expected@.entries;
    let ghost act = actual@.entries;
    let ghost rest = entries_of_all(others@);
    let mut entries: Vec<ReportEntry> = Vec::new();
    let mut i: usize = 0;
    while i < listed.len()
        invariant
            i <= listed.len(),
            entry_views(listed@) == exp,
            act == actual@.entries,
            report_views(entries@) == listed_report(exp, act).take(i as int),
        decreases listed.len() - i,
    {
        let entry = &listed[i];
        assert(exp[i as int] == entry@);
        let status = match actual.digest_of(entry.relative_path.as_str()) {
            None => PathStatus::Missing,
            Some(digest) => {
                if same_text(digest, entry.digest.as_str()) {
                    PathStatus::Match
                } else {
                    PathStatus::Mismatch {
                        expected: entry.digest.clone(),
                        actual: digest.to_owned(),
                    }
                }
            },
        };
        let ghost before = report_views(entries@);
        entries.push(ReportEntry { relative_path: entry.relative_path.clone(), status });
        assert(report_views(entries@) =~= before.push(listed_entry(exp[i as int], act)));
        assert(listed_report(exp, act).take(i + 1) =~= listed_report(exp, act).take(
            i as int,
        ).push(listed_entry(exp[i as int], act)));
        i = i + 1;
    }
    assert(listed_report(exp, act).take(i as int) =~= listed_report(exp, act));
    let mut j: usize = 0;
    proof {
        reveal(Seq::filter);
        assert(act.take(0).filter(is_unlisted(exp, rest)) =~= Seq::empty());
        assert(report_views(entries@) =~= listed_report(exp, act) + unexpected_report(
            exp,
            rest,
            act.take(0),
        ));
    }
    while j < found.len()
        invariant
            j <= found.len(),
            entry_views(found@) == act,
            exp == expected@.entries,
            rest == entries_of_all(others@),
            report_views(entries@) == listed_report(exp, act) + unexpected_report(
                exp,
                rest,
                act.take(j as int),
            ),
        decreases found.len() - j,
    {
        let entry = &found[j];
        assert(act[j as int] == entry@);
        proof {
            lemma_filter_take_next(act, j as int, is_unlisted(exp, rest));
        }
        let path = entry.relative_path.as_str();
        if expected.digest_of(path).is_none() && !any_lists(others, path) {
            let ghost before = report_views(entries@);
            entries.push(
                ReportEntry {
                    relative_path: entry.relative_path.clone(),
                    status: PathStatus::Unexpected,
                },
            );
            proof {
                let kept = act.take(j as int).filter(is_unlisted(exp, rest));
                assert(report_views(entries@) =~= before.push(unexpected_entry(entry@)));
                assert(kept.push(entry@).map_values(|entry: EntryView| unexpected_entry(entry))
                    =~= kept.map_values(|entry: EntryView| unexpected_entry(entry)).push(
                    unexpected_entry(entry@),
                ));
            }
        }
        j = j + 1;
    }
    assert(act.take(j as int) =~= act);
    ValidationReport { entries }
}

/// Holds what the one payload manifest of a bag lists against `actual`, the manifest of
/// what the payload holds now.
pub fn verify(expected: &Manifest, actual: &Manifest) -> (report: ValidationReport)
    ensures
        report@ == validation(expected@.entries, actual@.entries),
{
    let others: Vec<Manifest> = Vec::new();
    assert(entries_of_all(others@) =~= Seq::<Seq<EntryView>>::empty());
    verify_among(expected, &others, actual)
}

} // verus!
