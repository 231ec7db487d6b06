//! The payload as a walk of its directory finds it, and the manifest made of it.

use vstd::prelude::*;
use vstd::seq_lib::lemma_multiset_commutative;

use vstd::relations::{sorted_by, total_ordering};
use vstd::seq_lib::lemma_sorted_unique;

use crate::bagit::error::{result_view, Error, ErrorView, Result};
use crate::bagit::manifest::{
    ascending_paths, entry_views, DigestAlgorithm, EntryView, Manifest, ManifestEntry,
    ManifestView,
};
use crate::bagit::order::{
    is_text_before, lemma_text_before_transitive, lemma_text_order, text_before,
};
use crate::bagit::oxum::{oxum_of_sizes, total_size, PayloadOxum};

verus! {

/// One file of the payload: its path relative to the payload's root with `/` between its
/// parts, its size in bytes, and the digest of its bytes in hexadecimal.
#[derive(Debug)]
pub struct PayloadFile {
    pub relative_path: String,
    pub size: u64,
    pub digest: String,
}

/// The mathematical content of a [`PayloadFile`].
pub struct PayloadFileView {
    pub relative_path: Seq<char>,
    pub size: u64,
    pub digest: Seq<char>,
}

impl View for PayloadFile {
    type V = PayloadFileView;

    open spec fn view(&self) -> PayloadFileView {
        PayloadFileView {
            relative_path: self.relative_path@,
            size: self.size,
            digest: self.digest@,
        }
    }
}

/// The views of files, in their order.
pub open spec fn file_views(files: Seq<PayloadFile>) -> Seq<PayloadFileView> {
    files.map_values(|file: PayloadFile| file@)
}

/// The order of files: by path; among files of one path by digest, and among those by size.
/// Of two files, the first is at most the second when it is the same or stands before it.
pub open spec fn file_at_most(a: PayloadFileView, b: PayloadFileView) -> bool {
    if a.relative_path != b.relative_path {
        text_before(a.relative_path, b.relative_path)
    } else if a.digest != b.digest {
        text_before(a.digest, b.digest)
    } else {
        a.size <= b.size
    }
}

pub open spec fn file_order() -> spec_fn(PayloadFileView, PayloadFileView) -> bool {
    |a: PayloadFileView, b: PayloadFileView| file_at_most(a, b)
}

/// The order of files holds of every file and itself, one way or the other of every two,
/// both ways of no two that differ, and through a file in between.
pub proof fn lemma_file_at_most(a: PayloadFileView, b: PayloadFileView, c: PayloadFileView)
    ensures
        file_at_most(a, a),
        file_at_most(a, b) || file_at_most(b, a),
        file_at_most(a, b) && file_at_most(b, a) ==> a == b,
        file_at_most(a, b) && file_at_most(b, c) ==> file_at_most(a, c),
{
    lemma_text_order(a.relative_path, b.relative_path);
    lemma_text_order(b.relative_path, c.relative_path);
    lemma_text_order(a.relative_path, c.relative_path);
    lemma_text_order(a.digest, b.digest);
    lemma_text_order(b.digest, c.digest);
    lemma_text_order(a.digest, c.digest);
    if file_at_most(a, b) && file_at_most(b, c) {
        if a.relative_path != b.relative_path && b.relative_path != c.relative_path {
            lemma_text_before_transitive(a.relative_path, b.relative_path, c.relative_path);
        } else if a.relative_path == b.relative_path && b.relative_path == c.relative_path {
            if a.digest != b.digest && b.digest != c.digest {
                lemma_text_before_transitive(a.digest, b.digest, c.digest);
            }
        }
    }
}

/// The order of files is a total order.
pub proof fn lemma_file_order_total()
    ensures
        total_ordering(file_order()),
{
    let order = file_order();
    assert forall|x: PayloadFileView| #[trigger] order(x, x) by {
        lemma_file_at_most(x, x, x);
    }
    assert forall|x: PayloadFileView, y: PayloadFileView| #[trigger]
        order(x, y) && #[trigger] order(y, x) implies x == y by {
        lemma_file_at_most(x, y, x);
    }
    assert forall|x: PayloadFileView, y: PayloadFileView, z: PayloadFileView| #[trigger]
        order(x, y) && #[trigger] order(y, z) implies order(x, z) by {
        lemma_file_at_most(x, y, z);
    }
    assert forall|x: PayloadFileView, y: PayloadFileView| #[trigger]
        order(x, y) || #[trigger] order(y, x) by {
        lemma_file_at_most(x, y, x);
    }
}

/// True when no file stands behind one that comes later in the order of files.
pub open spec fn ascending(files: Seq<PayloadFileView>) -> bool {
    forall|i: int, j: int|
        0 <= i < j < files.len() ==> file_at_most(#[trigger] files[i], #[trigger] files[j])
}

/// True when no file stands before one that comes later in the order of files.
spec fn descending(files: Seq<PayloadFileView>) -> bool {
    forall|i: int, j: int|
        0 <= i < j < files.len() ==> file_at_most(#[trigger] files[j], #[trigger] files[i])
}

/// True when every file of `low` is at most every file of `high`.
spec fn all_at_most(low: Seq<PayloadFileView>, high: Seq<PayloadFileView>) -> bool {
    forall|i: int, j: int|
        0 <= i < low.len() && 0 <= j < high.len() ==> file_at_most(
            #[trigger] low[i],
            #[trigger] high[j],
        )
}

/// Tells whether `a` is `b` or stands before it in the order of files.
fn is_file_at_most(a: &PayloadFile, b: &PayloadFile) -> (r: bool)
    ensures
        r == file_at_most(a@, b@),
{
    if a.relative_path != b.relative_path {
        is_text_before(a.relative_path.as_str(), b.relative_path.as_str())
    } else if a.digest != b.digest {
        is_text_before(a.digest.as_str(), b.digest.as_str())
    } else {
        a.size <= b.size
    }
}

/// The files in the opposite order.
fn reverse_files(files: Vec<PayloadFile>) -> (out: Vec<PayloadFile>)
    ensures
        file_views(out@) == file_views(files@).reverse(),
{
    let mut files = files;
    let ghost orig = file_views(files@);
    let mut out: Vec<PayloadFile> = Vec::new();
    while files.len() > 0
        invariant
            file_views(files@) == orig.take(files.len() as int),
            files.len() <= orig.len(),
            out.len() == orig.len() - files.len(),
            forall|i: int|
                0 <= i < out.len() ==> (#[trigger] file_views(out@)[i]) == orig[orig.len() - 1 - i],
        decreases files.len(),
    {
        let ghost before = file_views(out@);
        let ghost rest = file_views(files@);
        let file = files.pop().unwrap();
        assert(file@ == rest[rest.len() - 1]);
        assert(file_views(files@) =~= orig.take(files.len() as int));
        out.push(file);
        assert(file_views(out@) =~= before.push(file@));
    }
    assert(file_views(out@) =~= orig.reverse());
    out
}

/// Merges two ascending runs of files into one.
fn merge_files(left: Vec<PayloadFile>, right: Vec<PayloadFile>) -> (out: Vec<PayloadFile>)
    requires
        ascending(file_views(left@)),
        ascending(file_views(right@)),
    ensures
        ascending(file_views(out@)),
        file_views(out@).to_multiset() == file_views(left@).to_multiset().add(
            file_views(right@).to_multiset(),
        ),
{
    broadcast use vstd::seq_lib::group_to_multiset_ensures;
    broadcast use vstd::multiset::group_multiset_axioms;

    let mut left = left;
    let mut right = right;
    let ghost l0 = file_views(left@);
    let ghost r0 = file_views(right@);
    let ghost total = l0.to_multiset().add(r0.to_multiset());
    // The merged files, last first: the two runs are taken from their ends.
    let mut merged: Vec<PayloadFile> = Vec::new();
    proof {
        assert(l0.take(left.len() as int) =~= l0);
        assert(r0.take(right.len() as int) =~= r0);
        assert(file_views(merged@) =~= Seq::<PayloadFileView>::empty());
        assert(file_views(merged@).to_multiset().add(l0.to_multiset()).add(r0.to_multiset())
            =~= total);
    }
    while left.len() > 0 || right.len() > 0
        invariant
            left.len() <= l0.len(),
            right.len() <= r0.len(),
            file_views(left@) == l0.take(left.len() as int),
            file_views(right@) == r0.take(right.len() as int),
            ascending(l0),
            ascending(r0),
            descending(file_views(merged@)),
            all_at_most(file_views(left@), file_views(merged@)),
            all_at_most(file_views(right@), file_views(merged@)),
            file_views(merged@).to_multiset().add(file_views(left@).to_multiset()).add(
                file_views(right@).to_multiset(),
            ) == total,
            total == l0.to_multiset().add(r0.to_multiset()),
        decreases left.len() + right.len(),
    {
        let ghost done = file_views(merged@);
        let ghost lv = file_views(left@);
        let ghost rv = file_views(right@);
        let from_left = if left.len() == 0 {
            false
        } else if right.len() == 0 {
            true
        } else {
            is_file_at_most(&right[right.len() - 1], &left[left.len() - 1])
        };
        if from_left {
            let file = left.pop().unwrap();
            proof {
                let m = lv.len() - 1;
                assert(file@ == lv[m]);
                assert(file_views(left@) =~= lv.remove(m));
                assert(file_views(left@) =~= l0.take(left.len() as int));
                assert forall|i: int| 0 <= i < rv.len() implies file_at_most(
                    #[trigger] rv[i],
                    file@,
                ) by {
                    let last = rv[rv.len() - 1];
                    assert(rv[i] == r0[i]);
                    assert(last == r0[rv.len() - 1]);
                    lemma_file_at_most(rv[i], last, file@);
                }
                assert forall|i: int| 0 <= i < m implies file_at_most(#[trigger] lv[i], file@) by {
                    assert(lv[i] == l0[i]);
                    assert(lv[m] == l0[m]);
                }
            }
            merged.push(file);
            proof {
                assert(file_views(merged@) =~= done.push(file@));
                lemma_merge_step(done, lv, rv, file@);
                assert(file_views(merged@).to_multiset().add(
                    file_views(left@).to_multiset(),
                ).add(file_views(right@).to_multiset()) =~= total);
            }
        } else {
            let file = right.pop().unwrap();
            proof {
                let m = rv.len() - 1;
                assert(file@ == rv[m]);
                assert(file_views(right@) =~= rv.remove(m));
                assert(file_views(right@) =~= r0.take(right.len() as int));
                assert forall|i: int| 0 <= i < lv.len() implies file_at_most(
                    #[trigger] lv[i],
                    file@,
                ) by {
                    let last = lv[lv.len() - 1];
                    assert(lv[i] == l0[i]);
                    assert(last == l0[lv.len() - 1]);
                    lemma_file_at_most(file@, last, file@);
                    lemma_file_at_most(lv[i], last, file@);
                }
                assert forall|i: int| 0 <= i < m implies file_at_most(#[trigger] rv[i], file@) by {
                    assert(rv[i] == r0[i]);
                    assert(rv[m] == r0[m]);
                }
            }
            merged.push(file);
            proof {
                assert(file_views(merged@) =~= done.push(file@));
                lemma_merge_step(done, rv, lv, file@);
                let kept = done.push(file@).to_multiset().add(rv.remove(rv.len() - 1).to_multiset());
                assert(kept == done.to_multiset().add(rv.to_multiset()));
                assert(file_views(merged@).to_multiset().add(
                    file_views(left@).to_multiset(),
                ).add(file_views(right@).to_multiset()) =~= kept.add(lv.to_multiset()));
                assert(kept.add(lv.to_multiset()) =~= total);
            }
        }
    }
    let out = reverse_files(merged);
    proof {
        let done = file_views(merged@);
        done.lemma_reverse_to_multiset();
        assert(file_views(left@) =~= Seq::<PayloadFileView>::empty());
        assert(file_views(right@) =~= Seq::<PayloadFileView>::empty());
        assert(done.to_multiset() =~= total);
        assert forall|i: int, j: int| 0 <= i < j < done.len() implies file_at_most(
            #[trigger] done.reverse()[i],
            #[trigger] done.reverse()[j],
        ) by {
            let a = done.len() - 1 - j;
            let b = done.len() - 1 - i;
            assert(file_at_most(done[b], done[a]));
        }
    }
    out
}

/// Moving the last file of a run behind the merged files keeps the files that there are,
/// and keeps the merged files in descending order when no file left is above it.
proof fn lemma_merge_step(
    done: Seq<PayloadFileView>,
    run: Seq<PayloadFileView>,
    other: Seq<PayloadFileView>,
    file: PayloadFileView,
)
    requires
        run.len() > 0,
        file == run[run.len() - 1],
        descending(done),
        all_at_most(run, done),
        all_at_most(other, done),
    ensures
        descending(done.push(file)),
        done.push(file).to_multiset().add(run.remove(run.len() - 1).to_multiset())
            =~= done.to_multiset().add(run.to_multiset()),
{
    broadcast use vstd::seq_lib::group_to_multiset_ensures;
    broadcast use vstd::multiset::group_multiset_axioms;

    let next = done.push(file);
    assert forall|i: int, j: int| 0 <= i < j < next.len() implies file_at_most(
        #[trigger] next[j],
        #[trigger] next[i],
    ) by {
        if j == done.len() {
            assert(next[i] == done[i]);
            assert(file_at_most(run[run.len() - 1], done[i]));
        } else {
            assert(next[i] == done[i]);
            assert(next[j] == done[j]);
        }
    }
    assert(run.to_multiset().count(file) > 0);
}

/// The files in the order of files.
pub fn sort_files(files: Vec<PayloadFile>) -> (out: Vec<PayloadFile>)
    ensures
        file_views(out@) == file_views(files@).sort_by(file_order()),
{
    let ghost all = file_views(files@);
    let out = merge_sort(files);
    proof {
        let sorted = file_views(out@);
        lemma_file_order_total();
        all.lemma_sort_by_ensures(file_order());
        assert(sorted_by(sorted, file_order())) by {
            assert forall|i: int, j: int| 0 <= i < j < sorted.len() implies #[trigger]
                file_order()(sorted[i], sorted[j]) by {
                assert(file_at_most(sorted[i], sorted[j]));
            }
        }
        lemma_sorted_unique(sorted, all.sort_by(file_order()), file_order());
    }
    out
}

fn merge_sort(files: Vec<PayloadFile>) -> (out: Vec<PayloadFile>)
    ensures
        ascending(file_views(out@)),
        file_views(out@).to_multiset() == file_views(files@).to_multiset(),
    decreases files@.len(),
{
    if files.len() <= 1 {
        return files;
    }
    let ghost all = file_views(files@);
    let mut left = files;
    let mid = left.len() / 2;
    let right = left.split_off(mid);
    proof {
        assert(all =~= file_views(left@) + file_views(right@));
        lemma_multiset_commutative(file_views(left@), file_views(right@));
    }
    let left = merge_sort(left);
    let right = merge_sort(right);
    merge_files(left, right)
}

/// The manifest entry of a file.
pub open spec fn entry_of(file: PayloadFileView, algorithm: DigestAlgorithm) -> EntryView {
    EntryView { relative_path: file.relative_path, digest: file.digest, algorithm }
}

/// The manifest entries of files, in their order.
pub open spec fn entries_of(files: Seq<PayloadFileView>, algorithm: DigestAlgorithm) -> Seq<
    EntryView,
> {
    files.map_values(|file: PayloadFileView| entry_of(file, algorithm))
}

/// True when no two files share a path.
pub open spec fn distinct_file_paths(files: Seq<PayloadFileView>) -> bool {
    forall|i: int, j: int|
        0 <= i < j < files.len() ==> (#[trigger] files[i]).relative_path != (
        #[trigger] files[j]).relative_path
}

/// True when the files at `i` and behind it share a path.
pub open spec fn repeats_at(files: Seq<PayloadFileView>, i: int) -> bool {
    &&& 0 <= i
    &&& i + 1 < files.len()
    &&& files[i].relative_path == files[i + 1].relative_path
}

pub open spec fn is_first_repeat(files: Seq<PayloadFileView>, i: int) -> bool {
    &&& repeats_at(files, i)
    &&& forall|j: int| 0 <= j < i ==> !#[trigger] repeats_at(files, j)
}

pub open spec fn no_repeat(files: Seq<PayloadFileView>) -> bool {
    forall|i: int| !#[trigger] repeats_at(files, i)
}

/// The manifest of a payload: its files in the order of files, whatever order they were
/// found in. Where a path occurs twice there is no manifest, and the error names the first
/// such path in the order of paths.
pub open spec fn built_manifest(
    files: Seq<PayloadFileView>,
    algorithm: DigestAlgorithm,
    manifest: Seq<char>,
) -> std::result::Result<ManifestView, ErrorView> {
    let sorted = files.sort_by(file_order());
    if no_repeat(sorted) {
        Ok(ManifestView { algorithm, entries: entries_of(sorted, algorithm) })
    } else {
        let first = choose|i: int| is_first_repeat(sorted, i);
        Err(ErrorView::DuplicatePath { manifest, path: sorted[first].relative_path })
    }
}

/// The sizes of files, in their order.
pub open spec fn sizes_of(files: Seq<PayloadFileView>) -> Seq<u64> {
    files.map_values(|file: PayloadFileView| file.size)
}

/// Among files in ascending order, two that share a path have none of another path between
/// them.
pub proof fn lemma_shared_path_repeats(files: Seq<PayloadFileView>, a: int, b: int)
    requires
        ascending(files),
        0 <= a < b < files.len(),
        files[a].relative_path == files[b].relative_path,
    ensures
        repeats_at(files, a),
{
    if a + 1 < b {
        let x = files[a];
        let y = files[a + 1];
        let z = files[b];
        assert(file_at_most(x, y));
        assert(file_at_most(y, z));
        lemma_text_order(x.relative_path, y.relative_path);
    }
}

/// What stands in a sequence stands in every sequence of the same elements.
proof fn lemma_found_in<A>(s: Seq<A>, t: Seq<A>, i: int) -> (at: int)
    requires
        s.to_multiset() == t.to_multiset(),
        0 <= i < s.len(),
    ensures
        0 <= at < t.len(),
        t[at] == s[i],
{
    vstd::seq_lib::to_multiset_contains(s, s[i]);
    vstd::seq_lib::to_multiset_contains(t, s[i]);
    assert(s.contains(s[i]));
    choose|at: int| 0 <= at < t.len() && t[at] == s[i]
}

/// Two files of one path in a sequence are two files of one path in every sequence of the
/// same files.
proof fn lemma_shared_path_in(
    s: Seq<PayloadFileView>,
    t: Seq<PayloadFileView>,
    i: int,
    j: int,
) -> (at: (int, int))
    requires
        s.to_multiset() == t.to_multiset(),
        0 <= i < j < s.len(),
        s[i].relative_path == s[j].relative_path,
    ensures
        0 <= at.0 < at.1 < t.len(),
        t[at.0].relative_path == t[at.1].relative_path,
{
    if s[i] != s[j] {
        let a = lemma_found_in(s, t, i);
        let b = lemma_found_in(s, t, j);
        if a < b {
            (a, b)
        } else {
            (b, a)
        }
    } else {
        lemma_twice_in(s, t, i, j);
        choose|a: int, b: int| 0 <= a < b < t.len() && #[trigger] t[a] == #[trigger] t[b]
    }
}

/// A payload has a manifest when no two of its files share a path, and only then.
pub proof fn lemma_built_iff_distinct(
    files: Seq<PayloadFileView>,
    algorithm: DigestAlgorithm,
    manifest: Seq<char>,
)
    ensures
        built_manifest(files, algorithm, manifest) is Ok <==> distinct_file_paths(files),
{
    let sorted = files.sort_by(file_order());
    lemma_file_order_total();
    files.lemma_sort_by_ensures(file_order());
    assert(ascending(sorted)) by {
        assert forall|i: int, j: int| 0 <= i < j < sorted.len() implies file_at_most(
            #[trigger] sorted[i],
            #[trigger] sorted[j],
        ) by {
            assert(file_order()(sorted[i], sorted[j]));
        }
    }
    if distinct_file_paths(files) && !no_repeat(sorted) {
        let i = choose|i: int| repeats_at(sorted, i);
        assert(repeats_at(sorted, i));
        let (p, q) = lemma_shared_path_in(sorted, files, i, i + 1);
        assert(files[p].relative_path != files[q].relative_path);
    }
    if no_repeat(sorted) && !distinct_file_paths(files) {
        let (p, q) = choose|p: int, q: int|
            0 <= p < q < files.len() && (#[trigger] files[p]).relative_path == (
            #[trigger] files[q]).relative_path;
        let (a, b) = lemma_shared_path_in(files, sorted, p, q);
        lemma_shared_path_repeats(sorted, a, b);
        assert(repeats_at(sorted, a));
    }
}

/// What stands twice in a sequence stands twice in every sequence of the same elements.
proof fn lemma_twice_in<A>(s: Seq<A>, t: Seq<A>, i: int, j: int)
    requires
        s.to_multiset() == t.to_multiset(),
        0 <= i < j < s.len(),
        s[i] == s[j],
    ensures
        exists|a: int, b: int| 0 <= a < b < t.len() && #[trigger] t[a] == #[trigger] t[b],
{
    broadcast use vstd::multiset::group_multiset_axioms;

    assert(!s.no_duplicates());
    if forall|x: A| s.to_multiset().contains(x) ==> s.to_multiset().count(x) == 1 {
        s.lemma_multiset_has_no_duplicates_conv();
    }
    if t.no_duplicates() {
        t.lemma_multiset_has_no_duplicates();
    }
    assert(!t.no_duplicates());
    let (a, b) = choose|a: int, b: int|
        0 <= a < t.len() && 0 <= b < t.len() && a != b && t[a] == t[b];
    if a < b {
        assert(t[a] == t[b]);
    } else {
        assert(t[b] == t[a]);
    }
}

/// The manifest of a payload lists the files of the payload, each once, made with the
/// manifest's algorithm and with their paths ascending.
pub proof fn lemma_built_manifest_sorted(
    files: Seq<PayloadFileView>,
    algorithm: DigestAlgorithm,
    manifest: Seq<char>,
)
    ensures
        files.sort_by(file_order()).to_multiset() == files.to_multiset(),
        built_manifest(files, algorithm, manifest) matches Ok(made) ==> {
            &&& made.algorithm == algorithm
            &&& made.entries == entries_of(files.sort_by(file_order()), algorithm)
            &&& ascending_paths(made.entries)
        },
{
    let sorted = files.sort_by(file_order());
    lemma_file_order_total();
    files.lemma_sort_by_ensures(file_order());
    if no_repeat(sorted) {
        let entries = entries_of(sorted, algorithm);
        assert(ascending(sorted)) by {
            assert forall|i: int, j: int| 0 <= i < j < sorted.len() implies file_at_most(
                #[trigger] sorted[i],
                #[trigger] sorted[j],
            ) by {
                assert(file_order()(sorted[i], sorted[j]));
            }
        }
        assert forall|a: int, b: int| 0 <= a < b < entries.len() implies text_before(
            (#[trigger] entries[a]).relative_path,
            (#[trigger] entries[b]).relative_path,
        ) by {
            if sorted[a].relative_path == sorted[b].relative_path {
                lemma_shared_path_repeats(sorted, a, b);
            }
            assert(file_at_most(sorted[a], sorted[b]));
        }
    }
}

/// Taking a file out of the payload takes its size off the total.
proof fn lemma_total_size_remove(sizes: Seq<u64>, k: int)
    requires
        0 <= k < sizes.len(),
    ensures
        total_size(sizes) == total_size(sizes.remove(k)) + sizes[k],
    decreases sizes.len(),
{
    if k == sizes.len() - 1 {
        assert(sizes.remove(k) =~= sizes.drop_last());
    } else {
        lemma_total_size_remove(sizes.drop_last(), k);
        assert(sizes.remove(k).drop_last() =~= sizes.drop_last().remove(k));
        assert(sizes.remove(k).last() == sizes.last());
    }
}

/// The sizes of the same files add up to the same total.
proof fn lemma_total_size_ignores_order(found: Seq<PayloadFileView>, again: Seq<PayloadFileView>)
    requires
        found.to_multiset() == again.to_multiset(),
    ensures
        found.len() == again.len(),
        total_size(sizes_of(found)) == total_size(sizes_of(again)),
    decreases found.len(),
{
    vstd::seq_lib::to_multiset_len(found);
    vstd::seq_lib::to_multiset_len(again);
    if found.len() > 0 {
        let last = found.len() - 1;
        let at = lemma_found_in(found, again, last);
        vstd::seq_lib::to_multiset_remove(found, last);
        vstd::seq_lib::to_multiset_remove(again, at);
        lemma_total_size_ignores_order(found.remove(last), again.remove(at));
        lemma_total_size_remove(sizes_of(found), last);
        lemma_total_size_remove(sizes_of(again), at);
        assert(sizes_of(found).remove(last) =~= sizes_of(found.remove(last)));
        assert(sizes_of(again).remove(at) =~= sizes_of(again.remove(at)));
    }
}

/// The size of a payload is the same in whatever order its files were found.
pub proof fn lemma_oxum_ignores_order(found: Seq<PayloadFileView>, again: Seq<PayloadFileView>)
    requires
        found.to_multiset() == again.to_multiset(),
    ensures
        oxum_of_sizes(sizes_of(found)) == oxum_of_sizes(sizes_of(again)),
{
    lemma_total_size_ignores_order(found, again);
}

/// The manifest of a payload is the same in whatever order its files were found.
pub proof fn lemma_build_ignores_order(
    found: Seq<PayloadFileView>,
    again: Seq<PayloadFileView>,
    algorithm: DigestAlgorithm,
    manifest: Seq<char>,
)
    requires
        found.to_multiset() == again.to_multiset(),
    ensures
        built_manifest(found, algorithm, manifest) == built_manifest(again, algorithm, manifest),
{
    lemma_file_order_total();
    found.lemma_sort_by_ensures(file_order());
    again.lemma_sort_by_ensures(file_order());
    lemma_sorted_unique(found.sort_by(file_order()), again.sort_by(file_order()), file_order());
}

/// Makes the manifest named `manifest` of the files of a payload, given in any order.
pub fn build_manifest(files: Vec<PayloadFile>, algorithm: DigestAlgorithm, manifest: &str) -> (res:
    Result<Manifest>)
    ensures
        result_view(res) == built_manifest(file_views(files@), algorithm, manifest@),
        res is Ok <==> distinct_file_paths(file_views(files@)),
        res matches Ok(made) ==> ascending_paths(made@.entries),
{
    let ghost found = file_views(files@);
    let sorted = sort_files(files);
    let ghost views = file_views(sorted@);
    proof {
        lemma_built_iff_distinct(found, algorithm, manifest@);
        lemma_file_order_total();
        found.lemma_sort_by_ensures(file_order());
        assert(ascending(views)) by {
            assert forall|i: int, j: int| 0 <= i < j < views.len() implies file_at_most(
                #[trigger] views[i],
                #[trigger] views[j],
            ) by {
                assert(file_order()(views[i], views[j]));
            }
        }
    }
    let mut entries: Vec<ManifestEntry> = Vec::new();
    let mut i: usize = 0;
    while i < sorted.len()
        invariant
            i <= sorted.len(),
            views == file_views(sorted@),
            found == file_views(files@),
            views == found.sort_by(file_order()),
            built_manifest(found, algorithm, manifest@) is Ok <==> distinct_file_paths(found),
            ascending(views),
            forall|j: int| 0 <= j && j + 1 < i ==> !#[trigger] repeats_at(views, j),
            entries@.len() == i,
            forall|j: int| 0 <= j < i ==> (#[trigger] entries@[j])@ == entry_of(views[j], algorithm),
        decreases sorted.len() - i,
    {
        let file = &sorted[i];
        assert(views[i as int] == file@);
        if i > 0 && sorted[i - 1].relative_path == file.relative_path {
            proof {
                let at = i - 1;
                assert(views[at] == sorted@[at]@);
                assert(is_first_repeat(views, at));
                let first = choose|k: int| is_first_repeat(views, k);
                if first < at {
                    assert(!repeats_at(views, first));
                }
                if at < first {
                    assert(!repeats_at(views, at));
                }
            }
            return Err(
                Error::DuplicatePath {
                    manifest: manifest.to_owned(),
                    path: file.relative_path.clone(),
                },
            );
        }
        entries.push(
            ManifestEntry {
                relative_path: file.relative_path.clone(),
                digest: file.digest.clone(),
                algorithm,
            },
        );
        i = i + 1;
    }
    proof {
        let made = entry_views(entries@);
        assert(made =~= entries_of(views, algorithm));
        assert(no_repeat(views));
        assert forall|a: int, b: int| 0 <= a < b < made.len() implies text_before(
            (#[trigger] made[a]).relative_path,
            (#[trigger] made[b]).relative_path,
        ) by {
            if views[a].relative_path == views[b].relative_path {
                lemma_shared_path_repeats(views, a, b);
            }
            assert(file_at_most(views[a], views[b]));
        }
    }
    Ok(Manifest::from_sorted_entries(algorithm, entries))
}

/// The size of a payload: the sizes of its files added up, and their number.
pub fn payload_oxum(files: &Vec<PayloadFile>) -> (r: Option<PayloadOxum>)
    ensures
        r == oxum_of_sizes(sizes_of(file_views(files@))),
{
    let mut sizes: Vec<u64> = Vec::new();
    let mut i: usize = 0;
    while i < files.len()
        invariant
            i <= files.len(),
            sizes@ == sizes_of(file_views(files@)).take(i as int),
        decreases files.len() - i,
    {
        sizes.push(files[i].size);
        assert(sizes@ =~= sizes_of(file_views(files@)).take(i + 1));
        i = i + 1;
    }
    assert(sizes@ =~= sizes_of(file_views(files@)));
    PayloadOxum::of_sizes(&sizes)
}

} // verus!
