use bagr::bagit::{
    manifest_lines, parse_manifest_line, payload_manifest_name, read_manifest,
    tag_manifest_name, write_manifest, DigestAlgorithm, Error, Manifest, ManifestEntry,
};

fn lines(text: &[&str]) -> Vec<String> {
    text.iter().map(|l| l.to_string()).collect()
}

fn entries(manifest: &Manifest) -> Vec<(String, String)> {
    manifest.entries().iter().map(|e| (e.relative_path.clone(), e.digest.clone())).collect()
}

fn pair(path: &str, digest: &str) -> (String, String) {
    (path.to_string(), digest.to_string())
}

#[test]
fn algorithm_names_are_lower_case() {
    assert_eq!(DigestAlgorithm::Md5.name(), "md5");
    assert_eq!(DigestAlgorithm::Sha1.name(), "sha1");
    assert_eq!(DigestAlgorithm::Sha256.name(), "sha256");
    assert_eq!(DigestAlgorithm::Sha512.name(), "sha512");
}

#[test]
fn manifest_files_are_named_after_their_algorithm() {
    assert_eq!(payload_manifest_name(DigestAlgorithm::Md5), "manifest-md5.txt");
    assert_eq!(payload_manifest_name(DigestAlgorithm::Sha256), "manifest-sha256.txt");
    assert_eq!(tag_manifest_name(DigestAlgorithm::Sha1), "tagmanifest-sha1.txt");
    assert_eq!(tag_manifest_name(DigestAlgorithm::Sha512), "tagmanifest-sha512.txt");
}

#[test]
fn manifest_line_is_digest_whitespace_path() {
    assert_eq!(parse_manifest_line("abc123 data/file.txt"), Some(("abc123", "data/file.txt")));
    assert_eq!(parse_manifest_line("abc123\tdata/file.txt"), Some(("abc123", "data/file.txt")));
    assert_eq!(
        parse_manifest_line("abc123  \t  data/file.txt"),
        Some(("abc123", "data/file.txt"))
    );
}

#[test]
fn path_of_a_manifest_line_may_hold_spaces() {
    assert_eq!(
        parse_manifest_line("abc123 data/my file.txt"),
        Some(("abc123", "data/my file.txt"))
    );
    assert_eq!(parse_manifest_line("abc123 data/trailing "), Some(("abc123", "data/trailing ")));
}

#[test]
fn manifest_line_without_two_fields_is_malformed() {
    assert_eq!(parse_manifest_line(""), None);
    assert_eq!(parse_manifest_line("abc123"), None);
    assert_eq!(parse_manifest_line("abc123 "), None);
    assert_eq!(parse_manifest_line("abc123 \t "), None);
    assert_eq!(parse_manifest_line(" abc123 data/file.txt"), None);
    assert_eq!(parse_manifest_line("\tdata/file.txt"), None);
    assert_eq!(parse_manifest_line(" "), None);
}

#[test]
fn new_manifest_is_empty() {
    let manifest = Manifest::new(DigestAlgorithm::Sha256);
    assert_eq!(manifest.algorithm(), DigestAlgorithm::Sha256);
    assert_eq!(manifest.len(), 0);
    assert!(manifest.entries().is_empty());
    assert_eq!(manifest.digest_of("data/a"), None);
    assert_eq!(write_manifest(&manifest), "");
}

#[test]
fn manifest_is_read_in_the_order_of_its_lines() {
    let manifest = read_manifest(
        &lines(&["bbb data/b.txt", "aaa  data/a.txt", "ccc\tdata/c d.txt"]),
        DigestAlgorithm::Md5,
        "manifest-md5.txt",
    )
    .unwrap();
    assert_eq!(manifest.algorithm(), DigestAlgorithm::Md5);
    assert_eq!(manifest.len(), 3);
    assert_eq!(
        entries(&manifest),
        vec![pair("data/b.txt", "bbb"), pair("data/a.txt", "aaa"), pair("data/c d.txt", "ccc")]
    );
    assert!(manifest.entries().iter().all(|e| e.algorithm == DigestAlgorithm::Md5));
    assert_eq!(manifest.digest_of("data/a.txt"), Some("aaa"));
    assert_eq!(manifest.digest_of("data/c d.txt"), Some("ccc"));
    assert_eq!(manifest.digest_of("data/A.txt"), None);
}

#[test]
fn empty_manifest_file_reads_to_an_empty_manifest() {
    let manifest = read_manifest(&Vec::new(), DigestAlgorithm::Sha1, "manifest-sha1.txt").unwrap();
    assert_eq!(manifest.len(), 0);
}

#[test]
fn malformed_manifest_line_is_reported_with_its_number() {
    match read_manifest(
        &lines(&["aaa data/a.txt", "bbb", "ccc data/c.txt"]),
        DigestAlgorithm::Md5,
        "manifest-md5.txt",
    ) {
        Err(Error::MalformedManifestLine { manifest, num, details }) => {
            assert_eq!(manifest, "manifest-md5.txt");
            assert_eq!(num, 2);
            assert_eq!(details, "Line must hold a digest, whitespace and a path");
        }
        other => panic!("unexpected result: {:?}", other),
    }
}

#[test]
fn repeated_path_is_a_duplicate() {
    match read_manifest(
        &lines(&["aaa data/a.txt", "bbb data/b.txt", "ccc data/a.txt"]),
        DigestAlgorithm::Md5,
        "manifest-md5.txt",
    ) {
        Err(Error::DuplicatePath { manifest, path }) => {
            assert_eq!(manifest, "manifest-md5.txt");
            assert_eq!(path, "data/a.txt");
        }
        other => panic!("unexpected result: {:?}", other),
    }
}

#[test]
fn same_digest_under_two_paths_is_no_duplicate() {
    let manifest = read_manifest(
        &lines(&["aaa data/a.txt", "aaa data/b.txt"]),
        DigestAlgorithm::Md5,
        "manifest-md5.txt",
    )
    .unwrap();
    assert_eq!(manifest.len(), 2);
}

#[test]
fn the_first_faulty_line_decides_the_error() {
    assert!(matches!(
        read_manifest(
            &lines(&["aaa data/a.txt", "bbb data/a.txt", "broken"]),
            DigestAlgorithm::Md5,
            "m",
        ),
        Err(Error::DuplicatePath { .. })
    ));
    assert!(matches!(
        read_manifest(
            &lines(&["aaa data/a.txt", "broken", "bbb data/a.txt"]),
            DigestAlgorithm::Md5,
            "m",
        ),
        Err(Error::MalformedManifestLine { num: 2, .. })
    ));
}

#[test]
fn manifest_is_written_as_digest_space_path() {
    let manifest = read_manifest(
        &lines(&["bbb\tdata/b.txt", "aaa   data/a b.txt"]),
        DigestAlgorithm::Md5,
        "manifest-md5.txt",
    )
    .unwrap();
    assert_eq!(write_manifest(&manifest), "bbb data/b.txt\naaa data/a b.txt\n");
    assert_eq!(manifest_lines(&manifest), lines(&["bbb data/b.txt", "aaa data/a b.txt"]));
}

#[test]
fn written_manifest_reads_back() {
    let manifest = read_manifest(
        &lines(&["0f343b0931126a20f133d67c2b018a3b data/a.txt", "d41d8cd9 data/dir/b c.bin"]),
        DigestAlgorithm::Md5,
        "manifest-md5.txt",
    )
    .unwrap();
    let back =
        read_manifest(&manifest_lines(&manifest), DigestAlgorithm::Md5, "manifest-md5.txt").unwrap();
    assert_eq!(entries(&back), entries(&manifest));
    assert_eq!(back.algorithm(), manifest.algorithm());
}

fn entry(path: &str, digest: &str, algorithm: DigestAlgorithm) -> ManifestEntry {
    ManifestEntry { relative_path: path.to_string(), digest: digest.to_string(), algorithm }
}

#[test]
fn manifest_is_made_of_entries_in_their_order() {
    let manifest = Manifest::from_entries(
        DigestAlgorithm::Sha1,
        vec![
            entry("data/m", "mm", DigestAlgorithm::Sha1),
            entry("data/a", "aa", DigestAlgorithm::Sha1),
            entry("data/z", "zz", DigestAlgorithm::Sha1),
        ],
    )
    .unwrap();
    assert_eq!(
        entries(&manifest),
        vec![pair("data/m", "mm"), pair("data/a", "aa"), pair("data/z", "zz")]
    );
    assert_eq!(manifest.algorithm(), DigestAlgorithm::Sha1);
    assert!(Manifest::from_entries(DigestAlgorithm::Md5, Vec::new()).is_some());
}

#[test]
fn entries_that_share_a_path_make_no_manifest() {
    assert!(Manifest::from_entries(
        DigestAlgorithm::Sha1,
        vec![
            entry("data/a", "aa", DigestAlgorithm::Sha1),
            entry("data/b", "bb", DigestAlgorithm::Sha1),
            entry("data/a", "cc", DigestAlgorithm::Sha1),
        ],
    )
    .is_none());
}

#[test]
fn entries_of_another_algorithm_make_no_manifest() {
    assert!(Manifest::from_entries(
        DigestAlgorithm::Sha1,
        vec![
            entry("data/a", "aa", DigestAlgorithm::Sha1),
            entry("data/b", "bb", DigestAlgorithm::Md5),
        ],
    )
    .is_none());
}

#[test]
fn every_path_is_found_at_its_position() {
    let mut lines = Vec::new();
    let mut paths = Vec::new();
    let mut seed: u32 = 7;
    while paths.len() < 300 {
        seed = seed.wrapping_mul(1664525).wrapping_add(1013904223);
        let path = format!("data/{}/f{}.bin", (seed >> 8) % 17, (seed >> 16) % 1000);
        if !paths.contains(&path) {
            lines.push(format!("d{} {}", paths.len(), path));
            paths.push(path);
        }
    }
    let manifest = read_manifest(&lines, DigestAlgorithm::Md5, "manifest-md5.txt").unwrap();
    for (i, path) in paths.iter().enumerate() {
        assert_eq!(manifest.position_of(path), Some(i));
        assert_eq!(manifest.digest_of(path), Some(format!("d{}", i).as_str()));
    }
    assert_eq!(manifest.position_of("data/0/missing"), None);
    assert_eq!(manifest.position_of(""), None);
    assert_eq!(manifest.position_of("data/"), None);
    assert_eq!(manifest.position_of("zzz"), None);
}

#[test]
fn the_first_repeated_line_is_reported_among_many() {
    let mut lines: Vec<String> = (0..200).map(|i| format!("d{} data/f{}", i, i)).collect();
    lines[150] = "x data/f3".to_string();
    lines[120] = "y data/f77".to_string();
    lines[199] = "broken".to_string();
    match read_manifest(&lines, DigestAlgorithm::Md5, "manifest-md5.txt") {
        Err(Error::DuplicatePath { path, .. }) => assert_eq!(path, "data/f77"),
        other => panic!("unexpected result: {:?}", other),
    }
    lines[100] = "broken".to_string();
    match read_manifest(&lines, DigestAlgorithm::Md5, "manifest-md5.txt") {
        Err(Error::MalformedManifestLine { num, .. }) => assert_eq!(num, 101),
        other => panic!("unexpected result: {:?}", other),
    }
}
