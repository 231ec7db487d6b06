//! Manifest files: one line per file, its digest and its path.

use vstd::prelude::*;
use vstd::string::StrSliceExecFns;
use vstd::string::StringExecFns;

use crate::bagit::chars::{is_space_or_tab, same_text, space_or_tab, LF};
use crate::bagit::error::{result_view, Error, ErrorView, Result};
use crate::bagit::manifest::{
    distinct_paths, entry_views, valid_manifest, DigestAlgorithm, EntryView, Manifest,
    ManifestEntry, ManifestView,
};
use crate::bagit::tag::lines_text;

verus! {

pub const DETAILS_MANIFEST_LINE: &'static str =
    "Line must hold a digest, whitespace and a path";

/// True when `i` is the position of the first space or tab of `line`.
pub open spec fn is_digest_end(line: Seq<char>, i: int) -> bool {
    &&& 0 <= i < line.len()
    &&& space_or_tab(line[i])
    &&& forall|j: int| 0 <= j < i ==> !space_or_tab(#[trigger] line[j])
}

/// True when `k` is where the spaces and tabs that begin at `from` end.
pub open spec fn is_path_start(line: Seq<char>, from: int, k: int) -> bool {
    &&& from <= k <= line.len()
    &&& forall|j: int| from <= j < k ==> space_or_tab(#[trigger] line[j])
    &&& k < line.len() ==> !space_or_tab(line[k])
}

/// The digest and the path of a manifest line. The digest runs up to the first space or
/// tab; the path begins where the spaces and tabs behind the digest end, and runs to the
/// end of the line. Neither may be empty.
pub open spec fn split_manifest_line(line: Seq<char>) -> Option<(Seq<char>, Seq<char>)> {
    if exists|i: int| is_digest_end(line, i) {
        let end = choose|i: int| is_digest_end(line, i);
        let start = choose|k: int| is_path_start(line, end, k);
        if end == 0 || start == line.len() {
            None
        } else {
            Some((line.take(end), line.skip(start)))
        }
    } else {
        None
    }
}

/// The line that carries an entry: digest, one space, path.
pub open spec fn entry_line(entry: EntryView) -> Seq<char> {
    entry.digest.push(' ') + entry.relative_path
}

/// The lines that carry `entries`, one per entry and in their order.
pub open spec fn entry_lines(entries: Seq<EntryView>) -> Seq<Seq<char>> {
    Seq::new(entries.len(), |i: int| entry_line(entries[i]))
}

/// An entry can be written on a line and read back when its digest is not empty and holds
/// no space or tab, and its path is not empty and begins with neither.
pub open spec fn writable_entry(entry: EntryView) -> bool {
    &&& entry.digest.len() > 0
    &&& forall|i: int| 0 <= i < entry.digest.len() ==> !space_or_tab(#[trigger] entry.digest[i])
    &&& entry.relative_path.len() > 0
    &&& !space_or_tab(entry.relative_path[0])
}

pub open spec fn writable_entries(entries: Seq<EntryView>) -> bool {
    forall|i: int| 0 <= i < entries.len() ==> writable_entry(#[trigger] entries[i])
}

/// The entry on line `i`, if the line holds one.
pub open spec fn line_entry(lines: Seq<Seq<char>>, algorithm: DigestAlgorithm, i: int) -> Option<
    EntryView,
> {
    match split_manifest_line(lines[i]) {
        Some((digest, relative_path)) => Some(EntryView { relative_path, digest, algorithm }),
        None => None,
    }
}

/// The path of a manifest line, if the line holds a digest and a path.
pub open spec fn line_path(line: Seq<char>) -> Option<Seq<char>> {
    match split_manifest_line(line) {
        Some((digest, path)) => Some(path),
        None => None,
    }
}

/// True when the path of line `i` stands on an earlier line too.
pub open spec fn repeats_path(lines: Seq<Seq<char>>, i: int) -> bool {
    exists|j: int|
        0 <= j < i && line_path(lines[i]) is Some && #[trigger] line_path(lines[j]) == line_path(
            lines[i],
        )
}

/// The error, if any, that line `i` of the manifest named `manifest` gives.
pub open spec fn manifest_line_fault(lines: Seq<Seq<char>>, manifest: Seq<char>, i: int) -> Option<
    ErrorView,
> {
    match split_manifest_line(lines[i]) {
        None => Some(
            ErrorView::MalformedManifestLine {
                manifest,
                num: (i + 1) as nat,
                details: DETAILS_MANIFEST_LINE@,
            },
        ),
        Some((digest, path)) => if repeats_path(lines, i) {
            Some(ErrorView::DuplicatePath { manifest, path })
        } else {
            None
        },
    }
}

pub open spec fn is_first_faulty_line(lines: Seq<Seq<char>>, manifest: Seq<char>, i: int) -> bool {
    &&& 0 <= i < lines.len()
    &&& manifest_line_fault(lines, manifest, i) is Some
    &&& forall|j: int| 0 <= j < i ==> #[trigger] manifest_line_fault(lines, manifest, j) is None
}

pub open spec fn no_faulty_line(lines: Seq<Seq<char>>, manifest: Seq<char>) -> bool {
    forall|j: int|
        0 <= j < lines.len() ==> #[trigger] manifest_line_fault(lines, manifest, j) is None
}

/// What the lines of the manifest named `manifest` parse to: an entry per line in their
/// order, or the error of the first line that gives one.
pub open spec fn parse_manifest(
    lines: Seq<Seq<char>>,
    algorithm: DigestAlgorithm,
    manifest: Seq<char>,
) -> std::result::Result<ManifestView, ErrorView> {
    if no_faulty_line(lines, manifest) {
        Ok(
            ManifestView {
                algorithm,
                entries: Seq::new(lines.len(), |i: int| line_entry(lines, algorithm, i)->0),
            },
        )
    } else {
        let bad = choose|i: int| is_first_faulty_line(lines, manifest, i);
        Err(manifest_line_fault(lines, manifest, bad)->0)
    }
}

/// The position of the first space or tab of `s`.
fn find_space_or_tab(s: &str) -> (r: Option<usize>)
    ensures
        match r {
            Some(i) => is_digest_end(s@, i as int),
            None => forall|j: int| 0 <= j < s@.len() ==> !space_or_tab(#[trigger] s@[j]),
        },
{
    let n = s.unicode_len();
    let mut i: usize = 0;
    for c in it: s.chars()
        invariant
            it.seq() == s@,
            n == s@.len(),
            i == it.index(),
            forall|j: int| 0 <= j < i ==> !space_or_tab(#[trigger] s@[j]),
    {
        if is_space_or_tab(c) {
            return Some(i);
        }
        i = i + 1;
    }
    None
}

/// The position where the spaces and tabs of `s` that begin at `from` end.
fn skip_spaces_and_tabs(s: &str, from: usize) -> (k: usize)
    requires
        from <= s@.len(),
    ensures
        is_path_start(s@, from as int, k as int),
{
    let n = s.unicode_len();
    let mut i: usize = 0;
    for c in it: s.chars()
        invariant
            it.seq() == s@,
            n == s@.len(),
            i == it.index(),
            forall|j: int| from <= j < i ==> space_or_tab(#[trigger] s@[j]),
    {
        if i >= from && !is_space_or_tab(c) {
            return i;
        }
        i = i + 1;
    }
    i
}

/// Splits a manifest line into its digest and its path.
pub fn parse_manifest_line(line: &str) -> (r: Option<(&str, &str)>)
    ensures
        match r {
            Some((digest, path)) => split_manifest_line(line@) == Some((digest@, path@)),
            None => split_manifest_line(line@) is None,
        },
{
    match find_space_or_tab(line) {
        Some(end) => {
            let start = skip_spaces_and_tabs(line, end);
            let len = line.unicode_len();
            proof {
                lemma_manifest_line_split(line@, end as int, start as int);
            }
            if end == 0 || start == len {
                None
            } else {
                let digest = line.substring_char(0, end);
                let path = line.substring_char(start, len);
                assert(digest@ == line@.take(end as int));
                assert(path@ == line@.skip(start as int));
                Some((digest, path))
            }
        },
        None => {
            assert forall|i: int| !is_digest_end(line@, i) by {}
            None
        },
    }
}

/// The end of the digest and the start of the path are the only positions that are so.
pub proof fn lemma_manifest_line_split(line: Seq<char>, end: int, start: int)
    requires
        is_digest_end(line, end),
        is_path_start(line, end, start),
    ensures
        (choose|i: int| is_digest_end(line, i)) == end,
        (choose|k: int| is_path_start(line, end, k)) == start,
{
    let e = choose|i: int| is_digest_end(line, i);
    assert(is_digest_end(line, e));
    if e < end {
        assert(!space_or_tab(line[e]));
    }
    if end < e {
        assert(!space_or_tab(line[end]));
    }
    let k = choose|k: int| is_path_start(line, end, k);
    assert(is_path_start(line, end, k));
    if k < start {
        assert(space_or_tab(line[k]));
    }
    if start < k {
        assert(space_or_tab(line[start]));
    }
}

/// The line written for an entry splits back into the entry's digest and path, provided
/// that the entry can be written.
pub proof fn lemma_entry_line_roundtrip(entry: EntryView)
    requires
        writable_entry(entry),
    ensures
        split_manifest_line(entry_line(entry)) == Some((entry.digest, entry.relative_path)),
{
    let line = entry_line(entry);
    let end = entry.digest.len() as int;
    assert(line[end] == ' ');
    assert forall|j: int| 0 <= j < end implies !space_or_tab(#[trigger] line[j]) by {
        assert(line[j] == entry.digest[j]);
    }
    assert(is_digest_end(line, end));
    assert(line[end + 1] == entry.relative_path[0]);
    assert(is_path_start(line, end, end + 1));
    lemma_manifest_line_split(line, end, end + 1);
    assert(line.take(end) =~= entry.digest);
    assert(line.skip(end + 1) =~= entry.relative_path);
}

/// Reading the lines written for a valid manifest gives the manifest back, provided that
/// its entries can be written.
pub proof fn lemma_manifest_roundtrip(manifest: ManifestView, name: Seq<char>)
    requires
        valid_manifest(manifest),
        writable_entries(manifest.entries),
    ensures
        parse_manifest(entry_lines(manifest.entries), manifest.algorithm, name) == Ok::<
            ManifestView,
            ErrorView,
        >(manifest),
{
    let entries = manifest.entries;
    let lines = entry_lines(entries);
    assert forall|i: int| 0 <= i < lines.len() implies split_manifest_line(#[trigger] lines[i])
        == Some((entries[i].digest, entries[i].relative_path)) by {
        lemma_entry_line_roundtrip(entries[i]);
    }
    assert forall|i: int| 0 <= i < lines.len() implies #[trigger] manifest_line_fault(
        lines,
        name,
        i,
    ) is None by {
        assert(split_manifest_line(lines[i]) is Some);
        if repeats_path(lines, i) {
            let j = choose|j: int|
                0 <= j < i && line_path(lines[i]) is Some && #[trigger] line_path(lines[j])
                    == line_path(lines[i]);
            assert(split_manifest_line(lines[j]) is Some);
            assert(entries[j].relative_path == entries[i].relative_path);
        }
    }
    let parsed = Seq::new(lines.len(), |i: int| line_entry(lines, manifest.algorithm, i)->0);
    assert forall|i: int| 0 <= i < entries.len() implies parsed[i] == entries[i] by {
        assert(split_manifest_line(lines[i]) is Some);
        assert(entries[i].algorithm == manifest.algorithm);
    }
    assert(parsed =~= entries);
}

/// The files of a bag with their digests, all made with one algorithm; no path occurs

/// The error of the first line that gives one, if a line does. Every line is held
/// against all lines before it.
fn first_fault(lines: &Vec<String>, manifest: &str) -> (r: Option<Error>)
    ensures
        match r {
            Some(e) => !no_faulty_line(lines.deep_view(), manifest@) && Some(e@)
                == manifest_line_fault(
                lines.deep_view(),
                manifest@,
                choose|i: int| is_first_faulty_line(lines.deep_view(), manifest@, i),
            ),
            None => no_faulty_line(lines.deep_view(), manifest@),
        },
{
    let ghost all = lines.deep_view();
    let mut paths: Vec<&str> = Vec::new();
    let mut i: usize = 0;
    while i < lines.len()
        invariant
            i <= lines.len(),
            all == lines.deep_view(),
            paths@.len() == i,
            forall|j: int| 0 <= j < i ==> #[trigger] manifest_line_fault(all, manifest@, j) is None,
            forall|j: int| 0 <= j < i ==> line_path(all[j]) == Some((#[trigger] paths@[j])@),
        decreases lines.len() - i,
    {
        assert(all[i as int] == lines[i as int]@);
        let path = match parse_manifest_line(lines[i].as_str()) {
            Some((_, path)) => path,
            None => {
                proof {
                    lemma_first_faulty_line(all, manifest@, i as int);
                }
                return Some(
                    Error::MalformedManifestLine {
                        manifest: manifest.to_owned(),
                        num: (i + 1) as u64,
                        details: DETAILS_MANIFEST_LINE.to_owned(),
                    },
                );
            },
        };
        let mut j: usize = 0;
        while j < i
            invariant
                j <= i,
                i < lines.len(),
                paths@.len() == i,
                all == lines.deep_view(),
                line_path(all[i as int]) == Some(path@),
                forall|k: int|
                    0 <= k < i ==> #[trigger] manifest_line_fault(all, manifest@, k) is None,
                forall|k: int| 0 <= k < i ==> line_path(all[k]) == Some((#[trigger] paths@[k])@),
                forall|k: int| 0 <= k < j ==> #[trigger] line_path(all[k]) != Some(path@),
            decreases i - j,
        {
            if same_text(paths[j], path) {
                proof {
                    assert(line_path(all[j as int]) == line_path(all[i as int]));
                    assert(repeats_path(all, i as int));
                    lemma_first_faulty_line(all, manifest@, i as int);
                }
                return Some(
                    Error::DuplicatePath { manifest: manifest.to_owned(), path: path.to_owned() },
                );
            }
            j = j + 1;
        }
        assert(!repeats_path(all, i as int));
        paths.push(path);
        i = i + 1;
    }
    None
}

/// Parses the lines of the manifest named `manifest`, stopping at the first line that is
/// malformed or repeats a path.
pub fn read_manifest(lines: &Vec<String>, algorithm: DigestAlgorithm, manifest: &str) -> (res:
    Result<Manifest>)
    ensures
        result_view(res) == parse_manifest(lines.deep_view(), algorithm, manifest@),
{
    let ghost all = lines.deep_view();
    let mut entries: Vec<ManifestEntry> = Vec::new();
    let mut well_formed = true;
    let mut i: usize = 0;
    while well_formed && i < lines.len()
        invariant
            i <= lines.len(),
            all == lines.deep_view(),
            well_formed ==> entries@.len() == i,
            well_formed ==> forall|j: int|
                0 <= j < i ==> (#[trigger] entries@[j])@ == line_entry(all, algorithm, j)->0,
            well_formed ==> forall|j: int|
                0 <= j < i ==> #[trigger] split_manifest_line(all[j]) is Some,
            !well_formed ==> !no_faulty_line(all, manifest@),
        decreases lines.len() - i + if well_formed { 1int } else { 0int },
    {
        assert(all[i as int] == lines[i as int]@);
        match parse_manifest_line(lines[i].as_str()) {
            Some((digest, path)) => {
                entries.push(
                    ManifestEntry {
                        relative_path: path.to_owned(),
                        digest: digest.to_owned(),
                        algorithm,
                    },
                );
                i = i + 1;
            },
            None => {
                assert(manifest_line_fault(all, manifest@, i as int) is Some);
                well_formed = false;
            },
        }
    }
    if well_formed {
        let ghost views = entry_views(entries@);
        proof {
            assert(views =~= Seq::new(all.len(), |k: int| line_entry(all, algorithm, k)->0));
            assert forall|k: int| 0 <= k < views.len() implies (#[trigger] views[k]).algorithm
                == algorithm by {
                assert(split_manifest_line(all[k]) is Some);
                assert(entries@[k]@ == line_entry(all, algorithm, k)->0);
            }
            lemma_faults_are_repeats(all, algorithm, manifest@);
        }
        // With every line well-formed, a path that occurs twice is all that is left to
        // look for: putting the paths in order finds it without holding every line
        // against every other.
        if let Some(read) = Manifest::from_entries(algorithm, entries) {
            return Ok(read);
        }
    }
    // A line is faulty: the exact error is that of the first such line.
    match first_fault(lines, manifest) {
        Some(e) => Err(e),
        None => unreached(),
    }
}

/// Where every line holds a digest and a path, a line is faulty when two lines share a
/// path, and only then.
proof fn lemma_faults_are_repeats(
    lines: Seq<Seq<char>>,
    algorithm: DigestAlgorithm,
    manifest: Seq<char>,
)
    requires
        forall|j: int| 0 <= j < lines.len() ==> #[trigger] split_manifest_line(lines[j]) is Some,
    ensures
        no_faulty_line(lines, manifest) <==> distinct_paths(
            Seq::new(lines.len(), |k: int| line_entry(lines, algorithm, k)->0),
        ),
{
    let entries = Seq::new(lines.len(), |k: int| line_entry(lines, algorithm, k)->0);
    if distinct_paths(entries) {
        assert forall|i: int| 0 <= i < lines.len() implies #[trigger] manifest_line_fault(
            lines,
            manifest,
            i,
        ) is None by {
            assert(split_manifest_line(lines[i]) is Some);
            if repeats_path(lines, i) {
                let j = choose|j: int|
                    0 <= j < i && line_path(lines[i]) is Some && #[trigger] line_path(lines[j])
                        == line_path(lines[i]);
                assert(split_manifest_line(lines[j]) is Some);
                assert(entries[j].relative_path == entries[i].relative_path);
            }
        }
    }
    if no_faulty_line(lines, manifest) {
        assert forall|a: int, b: int| 0 <= a < b < entries.len() implies (
        #[trigger] entries[a]).relative_path != (#[trigger] entries[b]).relative_path by {
            assert(manifest_line_fault(lines, manifest, b) is None);
            assert(split_manifest_line(lines[a]) is Some);
            assert(split_manifest_line(lines[b]) is Some);
            if entries[a].relative_path == entries[b].relative_path {
                assert(line_path(lines[a]) == line_path(lines[b]));
                assert(repeats_path(lines, b));
            }
        }
    }
}


/// A faulty line behind lines that are not is the first faulty line.
proof fn lemma_first_faulty_line(lines: Seq<Seq<char>>, manifest: Seq<char>, i: int)
    requires
        0 <= i < lines.len(),
        manifest_line_fault(lines, manifest, i) is Some,
        forall|j: int| 0 <= j < i ==> #[trigger] manifest_line_fault(lines, manifest, j) is None,
    ensures
        !no_faulty_line(lines, manifest),
        (choose|k: int| is_first_faulty_line(lines, manifest, k)) == i,
{
    assert(is_first_faulty_line(lines, manifest, i));
    let bad = choose|k: int| is_first_faulty_line(lines, manifest, k);
    if bad < i {
        assert(manifest_line_fault(lines, manifest, bad) is None);
    }
    if i < bad {
        assert(manifest_line_fault(lines, manifest, i) is None);
    }
}

/// The lines of a manifest file, without their line terminators.
pub fn manifest_lines(manifest: &Manifest) -> (lines: Vec<String>)
    ensures
        lines.deep_view() == entry_lines(manifest@.entries),
{
    let entries = manifest.entries();
    let mut lines: Vec<String> = Vec::new();
    let mut i: usize = 0;
    while i < entries.len()
        invariant
            i <= entries.len(),
            entry_views(entries@) == manifest@.entries,
            lines.deep_view() == entry_lines(manifest@.entries.take(i as int)),
        decreases entries.len() - i,
    {
        let entry = &entries[i];
        assert(manifest@.entries[i as int] == entry@);
        proof {
            reveal_strlit(" ");
        }
        let mut line = entry.digest.clone();
        line.append(" ");
        line.append(entry.relative_path.as_str());
        assert(line@ =~= entry_line(entry@));
        let ghost before = lines.deep_view();
        lines.push(line);
        assert(lines.deep_view() =~= before.push(line@));
        assert(entry_lines(manifest@.entries.take(i + 1)) =~= entry_lines(
            manifest@.entries.take(i as int),
        ).push(line@));
        i = i + 1;
    }
    assert(manifest@.entries.take(i as int) =~= manifest@.entries);
    lines
}

/// The text of a manifest file: one line per entry, in their order.
pub fn write_manifest(manifest: &Manifest) -> (text: String)
    ensures
        text@ == lines_text(entry_lines(manifest@.entries)),
{
    let entries = manifest.entries();
    let mut text = String::new();
    let mut i: usize = 0;
    while i < entries.len()
        invariant
            i <= entries.len(),
            entry_views(entries@) == manifest@.entries,
            text@ == lines_text(entry_lines(manifest@.entries.take(i as int))),
        decreases entries.len() - i,
    {
        let entry = &entries[i];
        assert(manifest@.entries[i as int] == entry@);
        proof {
            reveal_strlit(" ");
            reveal_strlit("\n");
            let before = entry_lines(manifest@.entries.take(i as int));
            let after = entry_lines(manifest@.entries.take(i + 1));
            assert(after.drop_last() =~= before);
            assert(after.last() == entry_line(entry@));
        }
        let ghost start = text@;
        text.append(entry.digest.as_str());
        text.append(" ");
        text.append(entry.relative_path.as_str());
        text.append("\n");
        assert(text@ =~= start + entry_line(entry@).push(LF));
        i = i + 1;
    }
    assert(manifest@.entries.take(i as int) =~= manifest@.entries);
    text
}

} // verus!
