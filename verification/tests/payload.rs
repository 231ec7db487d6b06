use bagr::bagit::{
    build_manifest, payload_oxum, sort_files, write_manifest, DigestAlgorithm, Error,
    PayloadFile, PayloadOxum,
};

fn file(path: &str, size: u64, digest: &str) -> PayloadFile {
    PayloadFile { relative_path: path.to_string(), size, digest: digest.to_string() }
}

fn paths(files: &[PayloadFile]) -> Vec<String> {
    files.iter().map(|f| f.relative_path.clone()).collect()
}

#[test]
fn files_are_sorted_by_path() {
    let sorted = sort_files(vec![
        file("data/c.txt", 3, "cc"),
        file("data/a.txt", 1, "aa"),
        file("data/b/z.txt", 2, "bb"),
        file("data/B.txt", 4, "dd"),
        file("data/a", 5, "ee"),
    ]);
    assert_eq!(
        paths(&sorted),
        vec!["data/B.txt", "data/a", "data/a.txt", "data/b/z.txt", "data/c.txt"]
    );
    assert_eq!(sorted[1].size, 5);
    assert_eq!(sorted[1].digest, "ee");
}

#[test]
fn sorting_nothing_or_one_file_changes_nothing() {
    assert!(sort_files(Vec::new()).is_empty());
    let one = sort_files(vec![file("data/a", 1, "aa")]);
    assert_eq!(paths(&one), vec!["data/a"]);
}

#[test]
fn files_of_one_path_are_sorted_by_digest_then_size() {
    let sorted = sort_files(vec![
        file("data/a", 2, "bb"),
        file("data/a", 9, "aa"),
        file("data/a", 1, "bb"),
        file("data/a", 1, "bb"),
    ]);
    let keys: Vec<(String, u64)> = sorted.iter().map(|f| (f.digest.clone(), f.size)).collect();
    assert_eq!(
        keys,
        vec![
            ("aa".to_string(), 9),
            ("bb".to_string(), 1),
            ("bb".to_string(), 1),
            ("bb".to_string(), 2)
        ]
    );
}

#[test]
fn sorting_agrees_with_the_order_of_strings() {
    let mut names: Vec<String> = Vec::new();
    let mut seed: u32 = 12345;
    for _ in 0..200 {
        seed = seed.wrapping_mul(1103515245).wrapping_add(12345);
        let len = 1 + (seed >> 16) % 6;
        let mut name = String::from("data/");
        for _ in 0..len {
            seed = seed.wrapping_mul(1103515245).wrapping_add(12345);
            name.push(['a', 'b', '/', '-', 'Z', 'é'][((seed >> 16) % 6) as usize]);
        }
        if !names.contains(&name) {
            names.push(name);
        }
    }
    let files: Vec<PayloadFile> = names.iter().map(|n| file(n, 1, "d")).collect();
    let sorted = sort_files(files);
    let mut expected = names.clone();
    expected.sort();
    assert_eq!(paths(&sorted), expected);
}

#[test]
fn manifest_lists_the_files_in_the_order_of_their_paths() {
    let manifest = build_manifest(
        vec![file("data/b.txt", 10, "bbb"), file("data/a.txt", 20, "aaa")],
        DigestAlgorithm::Sha256,
        "manifest-sha256.txt",
    )
    .unwrap();
    assert_eq!(manifest.algorithm(), DigestAlgorithm::Sha256);
    assert_eq!(manifest.len(), 2);
    assert_eq!(manifest.entries()[0].relative_path, "data/a.txt");
    assert_eq!(manifest.entries()[0].digest, "aaa");
    assert_eq!(manifest.entries()[0].algorithm, DigestAlgorithm::Sha256);
    assert_eq!(manifest.entries()[1].relative_path, "data/b.txt");
    assert_eq!(write_manifest(&manifest), "aaa data/a.txt\nbbb data/b.txt\n");
}

#[test]
fn manifest_of_an_empty_payload_is_empty() {
    let manifest = build_manifest(Vec::new(), DigestAlgorithm::Md5, "manifest-md5.txt").unwrap();
    assert_eq!(manifest.len(), 0);
    assert_eq!(write_manifest(&manifest), "");
}

#[test]
fn manifest_is_the_same_in_whatever_order_the_files_were_found() {
    let found = vec![
        file("data/x/1", 1, "d1"),
        file("data/a", 2, "d2"),
        file("data/m.bin", 3, "d3"),
        file("data/x/0", 4, "d4"),
    ];
    let again =
        vec![file("data/m.bin", 3, "d3"), file("data/x/0", 4, "d4"), file("data/x/1", 1, "d1"), file(
            "data/a",
            2,
            "d2",
        )];
    let first = build_manifest(found, DigestAlgorithm::Md5, "manifest-md5.txt").unwrap();
    let second = build_manifest(again, DigestAlgorithm::Md5, "manifest-md5.txt").unwrap();
    assert_eq!(write_manifest(&first), write_manifest(&second));
    assert_eq!(write_manifest(&first), "d2 data/a\nd3 data/m.bin\nd4 data/x/0\nd1 data/x/1\n");
}

#[test]
fn path_found_twice_is_a_duplicate() {
    match build_manifest(
        vec![
            file("data/z", 1, "d1"),
            file("data/b", 2, "d2"),
            file("data/a", 3, "d3"),
            file("data/z", 4, "d4"),
            file("data/b", 2, "d2"),
        ],
        DigestAlgorithm::Md5,
        "manifest-md5.txt",
    ) {
        Err(Error::DuplicatePath { manifest, path }) => {
            assert_eq!(manifest, "manifest-md5.txt");
            assert_eq!(path, "data/b");
        }
        other => panic!("unexpected result: {:?}", other),
    }
}

#[test]
fn oxum_of_two_files_totaling_1234_bytes_is_1234_2() {
    let files = vec![file("data/a.txt", 1000, "aaa"), file("data/b.txt", 234, "bbb")];
    let oxum = payload_oxum(&files).unwrap();
    assert_eq!(oxum, PayloadOxum::new(1234, 2));
    assert_eq!(oxum.to_string(), "1234.2");
}

#[test]
fn oxum_of_an_empty_payload() {
    assert_eq!(payload_oxum(&Vec::new()), Some(PayloadOxum::new(0, 0)));
}

#[test]
fn oxum_that_does_not_fit_64_bits() {
    let files = vec![file("data/a", u64::MAX, "a"), file("data/b", 1, "b")];
    assert_eq!(payload_oxum(&files), None);
}
