use bagr::bagit::{
    build_manifest, read_manifest, rebag_action, verify, verify_among, DigestAlgorithm, Error,
    Manifest, PathStatus, PayloadFile, RebagAction, ValidationReport,
};

fn listed(lines: &[&str]) -> Manifest {
    let lines: Vec<String> = lines.iter().map(|l| l.to_string()).collect();
    read_manifest(&lines, DigestAlgorithm::Md5, "manifest-md5.txt").unwrap()
}

fn found(files: &[(&str, &str)]) -> Manifest {
    let files: Vec<PayloadFile> = files
        .iter()
        .map(|(path, digest)| PayloadFile {
            relative_path: path.to_string(),
            size: 1,
            digest: digest.to_string(),
        })
        .collect();
    build_manifest(files, DigestAlgorithm::Md5, "manifest-md5.txt").unwrap()
}

fn summary(report: &ValidationReport) -> Vec<(String, String)> {
    report
        .entries()
        .iter()
        .map(|e| {
            let status = match &e.status {
                PathStatus::Match => "match".to_string(),
                PathStatus::Mismatch { expected, actual } => {
                    format!("mismatch {} {}", expected, actual)
                }
                PathStatus::Missing => "missing".to_string(),
                PathStatus::Unexpected => "unexpected".to_string(),
            };
            (e.relative_path.clone(), status)
        })
        .collect()
}

fn pair(path: &str, status: &str) -> (String, String) {
    (path.to_string(), status.to_string())
}

#[test]
fn unmodified_bag_reports_every_file_as_match() {
    let expected = listed(&["bbb data/b", "aaa data/a", "ccc data/c"]);
    let actual = found(&[("data/c", "ccc"), ("data/a", "aaa"), ("data/b", "bbb")]);
    let report = verify(&expected, &actual);
    assert_eq!(
        summary(&report),
        vec![pair("data/b", "match"), pair("data/a", "match"), pair("data/c", "match")]
    );
    assert!(report.is_valid());
    assert!(report.failures().is_empty());
}

#[test]
fn empty_bag_is_valid() {
    let report = verify(&listed(&[]), &found(&[]));
    assert!(report.entries().is_empty());
    assert!(report.is_valid());
}

#[test]
fn deleted_file_is_reported_missing_once() {
    let expected = listed(&["aaa data/a", "bbb data/b", "ccc data/c"]);
    let actual = found(&[("data/a", "aaa"), ("data/c", "ccc")]);
    let report = verify(&expected, &actual);
    assert_eq!(
        summary(&report),
        vec![pair("data/a", "match"), pair("data/b", "missing"), pair("data/c", "match")]
    );
    assert!(!report.is_valid());
    let failures = report.failures();
    assert_eq!(failures.len(), 1);
    match &failures[0] {
        Error::MissingPayloadFile { path } => assert_eq!(path, "data/b"),
        other => panic!("unexpected failure: {:?}", other),
    }
}

#[test]
fn modified_file_is_reported_as_mismatch_with_both_digests() {
    let expected = listed(&["aaa data/a", "bbb data/b", "ccc data/c"]);
    let actual = found(&[("data/a", "aaa"), ("data/b", "fff"), ("data/c", "ccc")]);
    let report = verify(&expected, &actual);
    assert_eq!(
        summary(&report),
        vec![pair("data/a", "match"), pair("data/b", "mismatch bbb fff"), pair("data/c", "match")]
    );
    assert!(!report.is_valid());
    let failures = report.failures();
    assert_eq!(failures.len(), 1);
    match &failures[0] {
        Error::DigestMismatch { path, expected, actual } => {
            assert_eq!(path, "data/b");
            assert_eq!(expected, "bbb");
            assert_eq!(actual, "fff");
        }
        other => panic!("unexpected failure: {:?}", other),
    }
}

#[test]
fn unlisted_file_is_reported_unexpected_behind_the_listed_files() {
    let expected = listed(&["bbb data/b", "aaa data/a"]);
    let actual = found(&[("data/a", "aaa"), ("data/b", "bbb"), ("data/0", "000"), ("data/z", "zzz")]);
    let report = verify(&expected, &actual);
    assert_eq!(
        summary(&report),
        vec![
            pair("data/b", "match"),
            pair("data/a", "match"),
            pair("data/0", "unexpected"),
            pair("data/z", "unexpected")
        ]
    );
    let failures = report.failures();
    assert_eq!(failures.len(), 2);
    match &failures[1] {
        Error::UnexpectedPayloadFile { path } => assert_eq!(path, "data/z"),
        other => panic!("unexpected failure: {:?}", other),
    }
}

#[test]
fn digests_are_compared_as_they_are_written() {
    let expected = listed(&["ABC data/a"]);
    let actual = found(&[("data/a", "abc")]);
    assert_eq!(summary(&verify(&expected, &actual)), vec![pair("data/a", "mismatch ABC abc")]);
}

#[test]
fn every_kind_of_finding_in_one_report() {
    let expected = listed(&["aaa data/a", "bbb data/b", "ccc data/c"]);
    let actual = found(&[("data/a", "aaa"), ("data/b", "xxx"), ("data/d", "ddd")]);
    let report = verify(&expected, &actual);
    assert_eq!(
        summary(&report),
        vec![
            pair("data/a", "match"),
            pair("data/b", "mismatch bbb xxx"),
            pair("data/c", "missing"),
            pair("data/d", "unexpected")
        ]
    );
    assert_eq!(report.failures().len(), 3);
}

#[test]
fn file_that_another_manifest_lists_is_not_unexpected() {
    let expected = listed(&["aaa data/a"]);
    let other = listed(&["xxx data/a", "yyy data/b"]);
    let actual = found(&[("data/a", "aaa"), ("data/b", "bbb"), ("data/c", "ccc")]);
    let report = verify_among(&expected, &vec![other], &actual);
    assert_eq!(summary(&report), vec![pair("data/a", "match"), pair("data/c", "unexpected")]);
    let report = verify_among(&expected, &Vec::new(), &actual);
    assert_eq!(
        summary(&report),
        vec![pair("data/a", "match"), pair("data/b", "unexpected"), pair("data/c", "unexpected")]
    );
}

#[test]
fn a_manifest_may_stand_among_the_others() {
    let all = vec![listed(&["aaa data/a"]), listed(&["yyy data/b"])];
    let actual = found(&[("data/a", "aaa"), ("data/b", "bbb"), ("data/c", "ccc")]);
    let report = verify_among(&all[0], &all, &actual);
    assert_eq!(summary(&report), vec![pair("data/a", "match"), pair("data/c", "unexpected")]);
    let report = verify_among(&all[1], &all, &actual);
    assert_eq!(
        summary(&report),
        vec![pair("data/b", "mismatch yyy bbb"), pair("data/c", "unexpected")]
    );
}

#[test]
fn validation_leaves_the_manifest_as_it_was() {
    let expected = listed(&["aaa data/a", "bbb data/b"]);
    let actual = found(&[("data/a", "zzz")]);
    let _ = verify(&expected, &actual);
    assert_eq!(expected.len(), 2);
    assert_eq!(expected.digest_of("data/a"), Some("aaa"));
    assert_eq!(expected.digest_of("data/b"), Some("bbb"));
}

#[test]
fn rebagging_keeps_a_manifest_that_lists_what_is_there() {
    let existing = listed(&["bbb data/b", "aaa data/a"]);
    let rebuilt = found(&[("data/a", "aaa"), ("data/b", "bbb")]);
    assert_eq!(rebag_action(&existing, &rebuilt), RebagAction::Keep);
    assert_eq!(rebag_action(&listed(&[]), &found(&[])), RebagAction::Keep);
}

#[test]
fn rebagging_rewrites_after_any_change() {
    let existing = listed(&["aaa data/a", "bbb data/b"]);
    assert_eq!(
        rebag_action(&existing, &found(&[("data/a", "aaa")])),
        RebagAction::Rewrite
    );
    assert_eq!(
        rebag_action(&existing, &found(&[("data/a", "aaa"), ("data/b", "ccc")])),
        RebagAction::Rewrite
    );
    assert_eq!(
        rebag_action(&existing, &found(&[("data/a", "aaa"), ("data/b", "bbb"), ("data/c", "ccc")])),
        RebagAction::Rewrite
    );
    assert_eq!(rebag_action(&existing, &found(&[])), RebagAction::Rewrite);
}
