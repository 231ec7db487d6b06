//! Manifests: the files of a bag and their digests, one manifest per digest algorithm.

use vstd::prelude::*;
use vstd::string::StringExecFns;

use crate::bagit::consts::{PAYLOAD_MANIFEST_PREFIX, TAG_MANIFEST_PREFIX};
use crate::bagit::order::{
    is_text_before, lemma_text_before_transitive, lemma_text_order, text_before,
};
use crate::bagit::payload::{
    file_at_most, file_order, file_views, lemma_file_order_total, sort_files, PayloadFile,
    PayloadFileView,
};

verus! {

/// The digest algorithms that a manifest may be made with.
#[derive(Debug, Clone, Copy, PartialEq, Eq, Structural)]
pub enum DigestAlgorithm {
    Md5,
    Sha1,
    Sha256,
    Sha512,
}

/// The name of an algorithm as manifest file names carry it.
pub open spec fn algorithm_name(algorithm: DigestAlgorithm) -> Seq<char> {
    match algorithm {
        DigestAlgorithm::Md5 => "md5"@,
        DigestAlgorithm::Sha1 => "sha1"@,
        DigestAlgorithm::Sha256 => "sha256"@,
        DigestAlgorithm::Sha512 => "sha512"@,
    }
}

/// The name of a manifest file: the prefix, a hyphen, the algorithm and `.txt`.
pub open spec fn manifest_file_name(prefix: Seq<char>, algorithm: DigestAlgorithm) -> Seq<char> {
    prefix + "-"@ + algorithm_name(algorithm) + ".txt"@
}

impl DigestAlgorithm {
    pub fn name(&self) -> (name: &'static str)
        ensures
            name@ == algorithm_name(*self),
    {
        match self {
            DigestAlgorithm::Md5 => "md5",
            DigestAlgorithm::Sha1 => "sha1",
            DigestAlgorithm::Sha256 => "sha256",
            DigestAlgorithm::Sha512 => "sha512",
        }
    }
}

fn file_name(prefix: &str, algorithm: DigestAlgorithm) -> (name: String)
    ensures
        name@ == manifest_file_name(prefix@, algorithm),
{
    let mut name = prefix.to_owned();
    name.append("-");
    name.append(algorithm.name());
    name.append(".txt");
    name
}

/// The name of the payload manifest made with `algorithm`, such as `manifest-md5.txt`.
pub fn payload_manifest_name(algorithm: DigestAlgorithm) -> (name: String)
    ensures
        name@ == manifest_file_name(PAYLOAD_MANIFEST_PREFIX@, algorithm),
{
    file_name(PAYLOAD_MANIFEST_PREFIX, algorithm)
}

/// The name of the tag manifest made with `algorithm`, such as `tagmanifest-md5.txt`.
pub fn tag_manifest_name(algorithm: DigestAlgorithm) -> (name: String)
    ensures
        name@ == manifest_file_name(TAG_MANIFEST_PREFIX@, algorithm),
{
    file_name(TAG_MANIFEST_PREFIX, algorithm)
}

/// One file of a bag: its path relative to the bag's payload, and its digest in hexadecimal.
#[derive(Debug)]
pub struct ManifestEntry {
    pub relative_path: String,
    pub digest: String,
    pub algorithm: DigestAlgorithm,
}

/// The mathematical content of a [`ManifestEntry`].
pub struct EntryView {
    pub relative_path: Seq<char>,
    pub digest: Seq<char>,
    pub algorithm: DigestAlgorithm,
}

impl View for ManifestEntry {
    type V = EntryView;

    open spec fn view(&self) -> EntryView {
        EntryView {
            relative_path: self.relative_path@,
            digest: self.digest@,
            algorithm: self.algorithm,
        }
    }
}

/// The mathematical content of a [`Manifest`].
pub struct ManifestView {
    pub algorithm: DigestAlgorithm,
    pub entries: Seq<EntryView>,
}

/// True when no two entries share a path.
pub open spec fn distinct_paths(entries: Seq<EntryView>) -> bool {
    forall|i: int, j: int|
        0 <= i < j < entries.len() ==> (#[trigger] entries[i]).relative_path != (
        #[trigger] entries[j]).relative_path
}

/// True when every entry was made with `algorithm`.
pub open spec fn made_with(entries: Seq<EntryView>, algorithm: DigestAlgorithm) -> bool {
    forall|i: int| 0 <= i < entries.len() ==> (#[trigger] entries[i]).algorithm == algorithm
}

/// A manifest is valid when its entries were made with its algorithm and no path occurs
/// twice.
pub open spec fn valid_manifest(manifest: ManifestView) -> bool {
    &&& made_with(manifest.entries, manifest.algorithm)
    &&& distinct_paths(manifest.entries)
}

/// The views of entries, in their order.
pub open spec fn entry_views(entries: Seq<ManifestEntry>) -> Seq<EntryView> {
    Seq::new(entries.len(), |i: int| entries[i]@)
}

/// True when some entry has the path `path`.
pub open spec fn lists(entries: Seq<EntryView>, path: Seq<char>) -> bool {
    exists|i: int| 0 <= i < entries.len() && (#[trigger] entries[i]).relative_path == path
}

/// The digest that `entries` list for `path`, if they list the path. Where no path occurs
/// twice, one entry at most has it.
pub open spec fn digest_at(entries: Seq<EntryView>, path: Seq<char>) -> Option<Seq<char>> {
    if lists(entries, path) {
        let i = choose|i: int|
            0 <= i < entries.len() && (#[trigger] entries[i]).relative_path == path;
        Some(entries[i].digest)
    } else {
        None
    }
}

pub open spec fn text_option_view(text: Option<&str>) -> Option<Seq<char>> {
    match text {
        Some(t) => Some(t@),
        None => None,
    }
}

/// Among entries with distinct paths, the digest listed for an entry's path is that entry's.
pub proof fn lemma_digest_at(entries: Seq<EntryView>, i: int)
    requires
        distinct_paths(entries),
        0 <= i < entries.len(),
    ensures
        digest_at(entries, entries[i].relative_path) == Some(entries[i].digest),
{
    let path = entries[i].relative_path;
    let k = choose|k: int| 0 <= k < entries.len() && (#[trigger] entries[k]).relative_path == path;
    if k < i {
        assert(entries[k].relative_path != entries[i].relative_path);
    }
    if i < k {
        assert(entries[i].relative_path != entries[k].relative_path);
    }
}

/// True when the position `i` stands in `order`.
spec fn indexed(order: Seq<usize>, i: int) -> bool {
    exists|k: int| 0 <= k < order.len() && #[trigger] order[k] == i
}

/// The path of the entry whose position stands at place `k` of `order`.
spec fn path_at(entries: Seq<EntryView>, order: Seq<usize>, k: int) -> Seq<char> {
    entries[order[k] as int].relative_path
}

/// True when `order` holds the position of every entry, in the order of the entries'
/// paths, none of which occurs twice.
spec fn is_path_index(entries: Seq<EntryView>, order: Seq<usize>) -> bool {
    &&& order.len() == entries.len()
    &&& forall|k: int| 0 <= k < order.len() ==> (#[trigger] order[k]) < entries.len()
    &&& forall|a: int, b: int|
        0 <= a < b < order.len() ==> text_before(
            #[trigger] path_at(entries, order, a),
            #[trigger] path_at(entries, order, b),
        )
    &&& forall|i: int| 0 <= i < entries.len() ==> #[trigger] indexed(order, i)
}

/// True when the paths of the entries ascend, each standing before the next.
pub open spec fn ascending_paths(entries: Seq<EntryView>) -> bool {
    forall|a: int, b: int|
        0 <= a < b < entries.len() ==> text_before(
            (#[trigger] entries[a]).relative_path,
            (#[trigger] entries[b]).relative_path,
        )
}

/// Entries that have an index by path have distinct paths.
proof fn lemma_indexed_paths_distinct(entries: Seq<EntryView>, order: Seq<usize>)
    requires
        is_path_index(entries, order),
    ensures
        distinct_paths(entries),
{
    assert forall|i: int, j: int| 0 <= i < j < entries.len() implies (
    #[trigger] entries[i]).relative_path != (#[trigger] entries[j]).relative_path by {
        assert(indexed(order, i));
        assert(indexed(order, j));
        let a = choose|k: int| 0 <= k < order.len() && #[trigger] order[k] == i;
        let b = choose|k: int| 0 <= k < order.len() && #[trigger] order[k] == j;
        lemma_text_order(entries[i].relative_path, entries[j].relative_path);
        if a < b {
            assert(text_before(path_at(entries, order, a), path_at(entries, order, b)));
        } else {
            assert(text_before(path_at(entries, order, b), path_at(entries, order, a)));
        }
    }
}

/// The file that stands for the entry at position `i` when entries are put in order: its
/// path, and its position in place of its size.
spec fn key_of(entries: Seq<EntryView>, i: int) -> PayloadFileView {
    PayloadFileView { relative_path: entries[i].relative_path, size: i as u64, digest: Seq::empty() }
}

spec fn keys_of(entries: Seq<EntryView>) -> Seq<PayloadFileView> {
    Seq::new(entries.len(), |i: int| key_of(entries, i))
}

/// The positions of `entries` in the order of their paths, unless a path occurs twice.
fn index_by_path(entries: &Vec<ManifestEntry>) -> (r: Option<Vec<usize>>)
    ensures
        match r {
            Some(order) => is_path_index(entry_views(entries@), order@),
            None => !distinct_paths(entry_views(entries@)),
        },
{
    let ghost views = entry_views(entries@);
    let mut keys: Vec<PayloadFile> = Vec::new();
    let mut i: usize = 0;
    while i < entries.len()
        invariant
            i <= entries.len(),
            views == entry_views(entries@),
            file_views(keys@) == keys_of(views).take(i as int),
        decreases entries.len() - i,
    {
        let ghost before = file_views(keys@);
        let key = PayloadFile {
            relative_path: entries[i].relative_path.clone(),
            size: i as u64,
            digest: String::new(),
        };
        assert(key@ == key_of(views, i as int));
        keys.push(key);
        assert(file_views(keys@) =~= before.push(key_of(views, i as int)));
        assert(keys_of(views).take(i + 1) =~= keys_of(views).take(i as int).push(
            key_of(views, i as int),
        ));
        i = i + 1;
    }
    assert(keys_of(views).take(i as int) =~= keys_of(views));
    let sorted = sort_files(keys);
    let ghost found = file_views(sorted@);
    proof {
        lemma_file_order_total();
        keys_of(views).lemma_sort_by_ensures(file_order());
        assert forall|a: int, b: int| 0 <= a < b < found.len() implies file_at_most(
            #[trigger] found[a],
            #[trigger] found[b],
        ) by {
            assert(file_order()(found[a], found[b]));
        }
        vstd::seq_lib::to_multiset_len(found);
        vstd::seq_lib::to_multiset_len(keys_of(views));
    }
    let mut order: Vec<usize> = Vec::new();
    let mut k: usize = 0;
    while k < sorted.len()
        invariant
            k <= sorted.len(),
            sorted.len() == entries.len(),
            views == entry_views(entries@),
            found == file_views(sorted@),
            found.to_multiset() == keys_of(views).to_multiset(),
            forall|a: int, b: int|
                0 <= a < b < found.len() ==> file_at_most(#[trigger] found[a], #[trigger] found[b]),
            order@.len() == k,
            forall|a: int| 0 <= a < k ==> found[a] == key_of(views, (#[trigger] order@[a]) as int),
            forall|a: int| 0 <= a < k ==> (#[trigger] order@[a]) < views.len(),
            forall|a: int|
                0 <= a && a + 1 < k ==> (#[trigger] found[a]).relative_path != found[a
                    + 1].relative_path,
        decreases sorted.len() - k,
    {
        let key = &sorted[k];
        assert(found[k as int] == key@);
        proof {
            let at = lemma_key_found(views, found, k as int);
            assert(key.size == at);
        }
        if k > 0 && sorted[k - 1].relative_path == key.relative_path {
            proof {
                let a = order@[k - 1] as int;
                let b = key.size as int;
                assert(found[k - 1] == sorted@[k - 1]@);
                assert(found[k - 1] == key_of(views, a));
                assert(found[k as int] == key_of(views, b));
                assert(views[a].relative_path == views[b].relative_path);
                lemma_keys_differ(views, found, k - 1, k as int);
                if a < b {
                    assert(views[a].relative_path == views[b].relative_path);
                } else {
                    assert(views[b].relative_path == views[a].relative_path);
                }
            }
            return None;
        }
        order.push(key.size as usize);
        k = k + 1;
    }
    proof {
        let order = order@;
        assert forall|a: int, b: int| 0 <= a < b < order.len() implies text_before(
            #[trigger] path_at(views, order, a),
            #[trigger] path_at(views, order, b),
        ) by {
            assert(found[a] == key_of(views, order[a] as int));
            assert(found[b] == key_of(views, order[b] as int));
            if found[a].relative_path == found[b].relative_path {
                crate::bagit::payload::lemma_shared_path_repeats(found, a, b);
                assert(found[a].relative_path != found[a + 1].relative_path);
            }
            assert(file_at_most(found[a], found[b]));
        }
        assert forall|i: int| 0 <= i < views.len() implies #[trigger] indexed(order, i) by {
            let at = lemma_key_indexed(views, found, i);
            assert(found[at] == key_of(views, order[at] as int));
        }
    }
    Some(order)
}

/// Every file among the sorted keys is the key of an entry: the one whose position it
/// carries.
proof fn lemma_key_found(entries: Seq<EntryView>, found: Seq<PayloadFileView>, k: int) -> (at:
    int)
    requires
        found.to_multiset() == keys_of(entries).to_multiset(),
        0 <= k < found.len(),
        entries.len() <= usize::MAX,
    ensures
        0 <= at < entries.len(),
        at == found[k].size,
        found[k] == key_of(entries, at),
{
    let keys = keys_of(entries);
    vstd::seq_lib::to_multiset_contains(found, found[k]);
    vstd::seq_lib::to_multiset_contains(keys, found[k]);
    assert(found.contains(found[k]));
    let at = choose|at: int| 0 <= at < keys.len() && keys[at] == found[k];
    at
}

/// The key of every entry stands among the sorted keys.
proof fn lemma_key_indexed(entries: Seq<EntryView>, found: Seq<PayloadFileView>, i: int) -> (at:
    int)
    requires
        found.to_multiset() == keys_of(entries).to_multiset(),
        0 <= i < entries.len(),
    ensures
        0 <= at < found.len(),
        found[at] == key_of(entries, i),
{
    let keys = keys_of(entries);
    vstd::seq_lib::to_multiset_contains(found, keys[i]);
    vstd::seq_lib::to_multiset_contains(keys, keys[i]);
    assert(keys.contains(keys[i]));
    let at = choose|at: int| 0 <= at < found.len() && found[at] == keys[i];
    at
}

/// No key stands twice among the sorted keys: the keys carry distinct positions.
proof fn lemma_keys_differ(entries: Seq<EntryView>, found: Seq<PayloadFileView>, a: int, b: int)
    requires
        found.to_multiset() == keys_of(entries).to_multiset(),
        0 <= a < b < found.len(),
        entries.len() <= usize::MAX,
    ensures
        found[a] != found[b],
{
    broadcast use vstd::multiset::group_multiset_axioms;

    let keys = keys_of(entries);
    assert(keys.no_duplicates()) by {
        assert forall|i: int, j: int| 0 <= i < keys.len() && 0 <= j < keys.len() && i
            != j implies keys[i] != keys[j] by {
            assert(keys[i].size == i);
            assert(keys[j].size == j);
        }
    }
    keys.lemma_multiset_has_no_duplicates();
    if forall|x: PayloadFileView|
        found.to_multiset().contains(x) ==> found.to_multiset().count(x) == 1 {
        found.lemma_multiset_has_no_duplicates_conv();
    }
}

/// The files of a bag with their digests, all made with one algorithm; no path occurs
/// twice.
#[derive(Debug)]
pub struct Manifest {
    algorithm: DigestAlgorithm,
    entries: Vec<ManifestEntry>,
    /// The positions of the entries in the order of their paths: what a path is looked up by.
    by_path: Vec<usize>,
}

impl View for Manifest {
    type V = ManifestView;

    closed spec fn view(&self) -> ManifestView {
        ManifestView { algorithm: self.algorithm, entries: entry_views(self.entries@) }
    }
}

impl Manifest {
    #[verifier::type_invariant]
    closed spec fn well_formed(&self) -> bool {
        &&& made_with(self@.entries, self.algorithm)
        &&& is_path_index(self@.entries, self.by_path@)
    }

    /// A manifest without entries.
    pub fn new(algorithm: DigestAlgorithm) -> (manifest: Manifest)
        ensures
            manifest@ == (ManifestView { algorithm, entries: Seq::empty() }),
    {
        let manifest = Manifest { algorithm, entries: Vec::new(), by_path: Vec::new() };
        assert(manifest@.entries =~= Seq::empty());
        manifest
    }

    /// A manifest of `entries`, unless one of them was made with another algorithm or two
    /// of them share a path.
    pub fn from_entries(algorithm: DigestAlgorithm, entries: Vec<ManifestEntry>) -> (r: Option<
        Manifest,
    >)
        ensures
            match r {
                Some(manifest) => manifest@ == (ManifestView {
                    algorithm,
                    entries: entry_views(entries@),
                }) && valid_manifest(manifest@),
                None => !valid_manifest(ManifestView { algorithm, entries: entry_views(entries@) }),
            },
    {
        let mut i: usize = 0;
        while i < entries.len()
            invariant
                i <= entries.len(),
                forall|j: int| 0 <= j < i ==> (#[trigger] entry_views(entries@)[j]).algorithm
                    == algorithm,
            decreases entries.len() - i,
        {
            if entries[i].algorithm != algorithm {
                assert(entry_views(entries@)[i as int].algorithm != algorithm);
                return None;
            }
            i = i + 1;
        }
        match index_by_path(&entries) {
            Some(by_path) => {
                proof {
                    lemma_indexed_paths_distinct(entry_views(entries@), by_path@);
                }
                Some(Manifest { algorithm, entries, by_path })
            },
            None => None,
        }
    }

    /// A manifest of `entries`, whose paths are known to ascend.
    pub(crate) fn from_sorted_entries(algorithm: DigestAlgorithm, entries: Vec<ManifestEntry>) -> (manifest:
        Manifest)
        requires
            made_with(entry_views(entries@), algorithm),
            ascending_paths(entry_views(entries@)),
        ensures
            manifest@ == (ManifestView { algorithm, entries: entry_views(entries@) }),
    {
        let ghost views = entry_views(entries@);
        let mut by_path: Vec<usize> = Vec::new();
        let mut i: usize = 0;
        while i < entries.len()
            invariant
                i <= entries.len(),
                by_path@.len() == i,
                forall|k: int| 0 <= k < i ==> (#[trigger] by_path@[k]) == k,
            decreases entries.len() - i,
        {
            by_path.push(i);
            i = i + 1;
        }
        proof {
            assert forall|a: int, b: int| 0 <= a < b < by_path@.len() implies text_before(
                #[trigger] path_at(views, by_path@, a),
                #[trigger] path_at(views, by_path@, b),
            ) by {
                assert(by_path@[a] == a);
                assert(by_path@[b] == b);
            }
            assert forall|i: int| 0 <= i < views.len() implies #[trigger] indexed(by_path@, i) by {
                assert(by_path@[i] == i);
            }
        }
        Manifest { algorithm, entries, by_path }
    }

    pub fn algorithm(&self) -> (algorithm: DigestAlgorithm)
        ensures
            algorithm == self@.algorithm,
    {
        self.algorithm
    }

    /// The number of entries.
    pub fn len(&self) -> (n: usize)
        ensures
            n == self@.entries.len(),
    {
        self.entries.len()
    }

    /// The entries, in the order of the manifest's lines.
    pub fn entries(&self) -> (entries: &Vec<ManifestEntry>)
        ensures
            entry_views(entries@) == self@.entries,
            valid_manifest(self@),
    {
        proof {
            use_type_invariant(self);
            lemma_indexed_paths_distinct(self@.entries, self.by_path@);
        }
        &self.entries
    }

    /// The position of the entry that has the path `path`.
    pub fn position_of(&self, path: &str) -> (r: Option<usize>)
        ensures
            valid_manifest(self@),
            match r {
                Some(i) => i < self@.entries.len() && self@.entries[i as int].relative_path
                    == path@,
                None => !lists(self@.entries, path@),
            },
    {
        proof {
            use_type_invariant(self);
            lemma_indexed_paths_distinct(self@.entries, self.by_path@);
        }
        let ghost views = self@.entries;
        let ghost order = self.by_path@;
        let mut low: usize = 0;
        let mut high: usize = self.by_path.len();
        while low < high
            invariant
                low <= high <= self.by_path.len(),
                valid_manifest(self@),
                views == self@.entries,
                views == entry_views(self.entries@),
                order == self.by_path@,
                is_path_index(views, order),
                forall|k: int| 0 <= k < low ==> text_before(#[trigger] path_at(views, order, k), path@),
                forall|k: int|
                    high <= k < order.len() ==> text_before(
                        path@,
                        #[trigger] path_at(views, order, k),
                    ),
            decreases high - low,
        {
            let middle = low + (high - low) / 2;
            let at = self.by_path[middle];
            assert(order[middle as int] < views.len());
            let candidate = self.entries[at].relative_path.as_str();
            assert(candidate@ == path_at(views, order, middle as int));
            if is_text_before(candidate, path) {
                proof {
                    assert forall|k: int| 0 <= k < middle + 1 implies text_before(
                        #[trigger] path_at(views, order, k),
                        path@,
                    ) by {
                        if k < middle {
                            lemma_text_before_transitive(
                                path_at(views, order, k),
                                path_at(views, order, middle as int),
                                path@,
                            );
                        }
                    }
                }
                low = middle + 1;
            } else if is_text_before(path, candidate) {
                proof {
                    assert forall|k: int| middle <= k < order.len() implies text_before(
                        path@,
                        #[trigger] path_at(views, order, k),
                    ) by {
                        if middle < k {
                            lemma_text_before_transitive(
                                path@,
                                path_at(views, order, middle as int),
                                path_at(views, order, k),
                            );
                        }
                    }
                }
                high = middle;
            } else {
                proof {
                    lemma_text_order(candidate@, path@);
                }
                return Some(at);
            }
        }
        proof {
            if lists(views, path@) {
                let i = choose|i: int|
                    0 <= i < views.len() && (#[trigger] views[i]).relative_path == path@;
                assert(indexed(order, i));
                let k = choose|k: int| 0 <= k < order.len() && #[trigger] order[k] == i;
                assert(path_at(views, order, k) == path@);
                lemma_text_order(path@, path@);
            }
        }
        None
    }

    /// The digest that the manifest lists for `path`.
    pub fn digest_of(&self, path: &str) -> (digest: Option<&str>)
        ensures
            text_option_view(digest) == digest_at(self@.entries, path@),
            valid_manifest(self@),
    {
        match self.position_of(path) {
            Some(i) => {
                proof {
                    lemma_digest_at(self@.entries, i as int);
                }
                Some(self.entries[i].digest.as_str())
            },
            None => None,
        }
    }
}

} // verus!
