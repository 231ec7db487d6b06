use bagr::bagit::{
    parse_tag_line, read_tag_file, tag_file_lines, write_tag_file, Error, Tag, TagList,
};

fn invalid_tag_details(result: Result<Tag, Error>) -> (String, String) {
    match result {
        Err(Error::InvalidTag { label, details }) => (label, details),
        other => panic!("expected InvalidTag, got {:?}", other),
    }
}

#[test]
fn tag_new_keeps_label_and_value() {
    let tag = Tag::new("Contact-Name", "Ada Lovelace").unwrap();
    assert_eq!(tag.label(), "Contact-Name");
    assert_eq!(tag.value(), "Ada Lovelace");
}

#[test]
fn tag_new_accepts_empty_parts_and_inner_whitespace() {
    let tag = Tag::new("", "").unwrap();
    assert_eq!(tag.label(), "");
    assert_eq!(tag.value(), "");
    let tag = Tag::new("two words", " padded value\t").unwrap();
    assert_eq!(tag.label(), "two words");
    assert_eq!(tag.value(), " padded value\t");
}

#[test]
fn tag_new_accepts_a_colon_in_the_label() {
    let tag = Tag::new("a:b", "c").unwrap();
    assert_eq!(tag.label(), "a:b");
}

#[test]
fn label_with_leading_space_is_invalid() {
    let (label, details) = invalid_tag_details(Tag::new(" Label", "v"));
    assert_eq!(label, " Label");
    assert_eq!(details, "Label must not start or end with whitespace");
}

#[test]
fn label_with_leading_tab_is_invalid() {
    let (_, details) = invalid_tag_details(Tag::new("\tLabel", "v"));
    assert_eq!(details, "Label must not start or end with whitespace");
}

#[test]
fn label_with_trailing_space_or_tab_is_invalid() {
    let (_, details) = invalid_tag_details(Tag::new("Label ", "v"));
    assert_eq!(details, "Label must not start or end with whitespace");
    let (_, details) = invalid_tag_details(Tag::new("Label\t", "v"));
    assert_eq!(details, "Label must not start or end with whitespace");
}

#[test]
fn label_with_line_break_is_invalid() {
    let (label, details) = invalid_tag_details(Tag::new("La\nbel", "v"));
    assert_eq!(label, "La\nbel");
    assert_eq!(details, "Label must not contain CR or LF characters");
    let (_, details) = invalid_tag_details(Tag::new("La\rbel", "v"));
    assert_eq!(details, "Label must not contain CR or LF characters");
}

#[test]
fn whitespace_at_the_ends_is_reported_before_a_line_break() {
    let (_, details) = invalid_tag_details(Tag::new(" La\nbel", "v"));
    assert_eq!(details, "Label must not start or end with whitespace");
}

#[test]
fn value_with_line_break_is_invalid() {
    let (label, details) = invalid_tag_details(Tag::new("Label", "one\ntwo"));
    assert_eq!(label, "Label");
    assert_eq!(details, "Value must not contain CR or LF characters");
    let (_, details) = invalid_tag_details(Tag::new("Label", "one\rtwo"));
    assert_eq!(details, "Value must not contain CR or LF characters");
}

#[test]
fn validate_label_and_value_agree_with_new() {
    assert!(Tag::validate_label("Bagging-Date").is_ok());
    assert!(Tag::validate_label("Bagging-Date ").is_err());
    assert!(Tag::validate_label("Bagging\r-Date").is_err());
    assert!(Tag::validate_value("Bagging-Date", "2024-01-01").is_ok());
    assert!(Tag::validate_value("Bagging-Date", "2024\n01").is_err());
}

#[test]
fn non_ascii_text_is_counted_in_characters() {
    let tag = parse_tag_line("Größe: 12 µm").unwrap();
    assert_eq!(tag.label(), "Größe");
    assert_eq!(tag.value(), "12 µm");
}

#[test]
fn line_with_space_after_colon_parses() {
    let tag = parse_tag_line("Bagging-Date: 2024-01-01").unwrap();
    assert_eq!(tag.label(), "Bagging-Date");
    assert_eq!(tag.value(), "2024-01-01");
}

#[test]
fn line_with_tab_after_colon_parses() {
    let tag = parse_tag_line("Bagging-Date:\t2024-01-01").unwrap();
    assert_eq!(tag.label(), "Bagging-Date");
    assert_eq!(tag.value(), "2024-01-01");
}

#[test]
fn line_without_space_after_colon_is_rejected() {
    match parse_tag_line("Bagging-Date:2024-01-01") {
        Err(Error::InvalidTagLine { details }) => {
            assert_eq!(details, "Value part must start with one whitespace character")
        }
        other => panic!("unexpected result: {:?}", other),
    }
}

#[test]
fn line_that_ends_with_the_colon_is_rejected() {
    match parse_tag_line("Bagging-Date:") {
        Err(Error::InvalidTagLine { details }) => {
            assert_eq!(details, "Value part must start with one whitespace character")
        }
        other => panic!("unexpected result: {:?}", other),
    }
}

#[test]
fn line_without_colon_is_rejected() {
    match parse_tag_line("Bagging-Date 2024-01-01") {
        Err(Error::InvalidTagLine { details }) => {
            assert_eq!(details, "Missing colon separating the label and value")
        }
        other => panic!("unexpected result: {:?}", other),
    }
    assert!(matches!(parse_tag_line(""), Err(Error::InvalidTagLine { .. })));
}

#[test]
fn only_one_separator_is_stripped() {
    let tag = parse_tag_line("Label:  two spaces").unwrap();
    assert_eq!(tag.value(), " two spaces");
}

#[test]
fn line_is_split_at_its_first_colon() {
    let tag = parse_tag_line("Label: 12:30:00").unwrap();
    assert_eq!(tag.label(), "Label");
    assert_eq!(tag.value(), "12:30:00");
}

#[test]
fn line_with_whitespace_before_colon_is_an_invalid_tag() {
    match parse_tag_line("Label : value") {
        Err(Error::InvalidTag { label, details }) => {
            assert_eq!(label, "Label ");
            assert_eq!(details, "Label must not start or end with whitespace");
        }
        other => panic!("unexpected result: {:?}", other),
    }
}

#[test]
fn to_line_writes_label_colon_space_value() {
    let tag = Tag::new("Bagging-Date", "2024-01-01").unwrap();
    assert_eq!(tag.to_line(), "Bagging-Date: 2024-01-01");
}

#[test]
fn tag_list_starts_empty() {
    assert_eq!(TagList::new().len(), 0);
    assert_eq!(TagList::with_capacity(8).len(), 0);
    assert_eq!(TagList::default().len(), 0);
    assert!(TagList::new().get(0).is_none());
}

#[test]
fn tag_list_keeps_insertion_order() {
    let mut tags = TagList::new();
    tags.add(Tag::new("B", "1").unwrap());
    tags.add_tag("A", "2").unwrap();
    tags.add_tag("B", "3").unwrap();
    assert_eq!(tags.len(), 3);
    let labels: Vec<&str> = tags.tags().iter().map(|t| t.label()).collect();
    assert_eq!(labels, vec!["B", "A", "B"]);
    assert_eq!(tags.get(1).unwrap().value(), "2");
    assert!(tags.get(3).is_none());
    let owned = tags.into_tags();
    assert_eq!(owned.len(), 3);
    assert_eq!(owned[2].value(), "3");
}

#[test]
fn add_tag_rejects_invalid_tags_and_leaves_the_list() {
    let mut tags = TagList::new();
    tags.add_tag("A", "1").unwrap();
    assert!(matches!(tags.add_tag("A ", "2"), Err(Error::InvalidTag { .. })));
    assert!(matches!(tags.add_tag("A", "2\n"), Err(Error::InvalidTag { .. })));
    assert_eq!(tags.len(), 1);
    assert_eq!(tags.get(0).unwrap().value(), "1");
}

#[test]
fn get_tag_returns_first_match_ignoring_case() {
    let mut tags = TagList::new();
    tags.add_tag("Other", "x").unwrap();
    tags.add_tag("contact-name", "first").unwrap();
    tags.add_tag("Contact-Name", "second").unwrap();
    assert_eq!(tags.get_tag("CONTACT-NAME").unwrap().value(), "first");
    assert_eq!(tags.get_tag("Contact-Name").unwrap().label(), "contact-name");
    assert!(tags.get_tag("Contact").is_none());
    assert!(tags.get_tag("Contact-Names").is_none());
}

#[test]
fn get_tags_returns_all_matches_in_order() {
    let mut tags = TagList::new();
    tags.add_tag("Contact-Name", "a").unwrap();
    tags.add_tag("Other", "x").unwrap();
    tags.add_tag("CONTACT-name", "b").unwrap();
    let found = tags.get_tags("contact-name");
    let values: Vec<&str> = found.iter().map(|t| t.value()).collect();
    assert_eq!(values, vec!["a", "b"]);
    assert!(tags.get_tags("Missing").is_empty());
}

#[test]
fn case_is_ignored_for_ascii_letters_only() {
    let mut tags = TagList::new();
    tags.add_tag("É", "upper").unwrap();
    assert!(tags.get_tag("é").is_none());
    assert!(tags.get_tag("É").is_some());
    tags.add_tag("[", "bracket").unwrap();
    assert!(tags.get_tag("{").is_none());
    tags.add_tag("@", "at").unwrap();
    assert!(tags.get_tag("`").is_none());
}

#[test]
fn remove_tags_removes_every_match_and_keeps_the_rest() {
    let mut tags = TagList::new();
    tags.add_tag("A", "1").unwrap();
    tags.add_tag("B", "2").unwrap();
    tags.add_tag("a", "3").unwrap();
    tags.add_tag("C", "4").unwrap();
    tags.add_tag("A", "5").unwrap();
    tags.remove_tags("a");
    let values: Vec<&str> = tags.tags().iter().map(|t| t.value()).collect();
    assert_eq!(values, vec!["2", "4"]);
    tags.remove_tags("missing");
    assert_eq!(tags.len(), 2);
    tags.remove_tags("B");
    tags.remove_tags("C");
    assert_eq!(tags.len(), 0);
}

#[test]
fn read_tag_file_parses_every_line() {
    let lines = vec![
        "Source-Organization: Spengler University".to_string(),
        "Bagging-Date: 2024-01-01".to_string(),
    ];
    let tags = read_tag_file(&lines, "bag-info.txt").unwrap();
    assert_eq!(tags.len(), 2);
    assert_eq!(tags.get(0).unwrap().label(), "Source-Organization");
    assert_eq!(tags.get(1).unwrap().value(), "2024-01-01");
    assert_eq!(read_tag_file(&Vec::new(), "bag-info.txt").unwrap().len(), 0);
}

#[test]
fn read_tag_file_reports_the_first_bad_line_with_its_number() {
    let lines = vec![
        "Good: 1".to_string(),
        "Bagging-Date:2024-01-01".to_string(),
        "no colon at all".to_string(),
    ];
    match read_tag_file(&lines, "some/dir/bag-info.txt").unwrap_err() {
        Error::MalformedLine { path, num, details } => {
            assert_eq!(path, "some/dir/bag-info.txt");
            assert_eq!(num, 2);
            assert_eq!(details, "Value part must start with one whitespace character");
        }
        other => panic!("unexpected error: {:?}", other),
    }
}

#[test]
fn read_tag_file_reports_invalid_tags_as_malformed_lines() {
    let lines = vec!["Label : value".to_string()];
    match read_tag_file(&lines, "bagit.txt").unwrap_err() {
        Error::MalformedLine { path, num, details } => {
            assert_eq!(path, "bagit.txt");
            assert_eq!(num, 1);
            assert_eq!(details, "Label must not start or end with whitespace");
        }
        other => panic!("unexpected error: {:?}", other),
    }
    let lines = vec!["Good: 1".to_string(), "".to_string()];
    match read_tag_file(&lines, "bagit.txt").unwrap_err() {
        Error::MalformedLine { num, details, .. } => {
            assert_eq!(num, 2);
            assert_eq!(details, "Missing colon separating the label and value");
        }
        other => panic!("unexpected error: {:?}", other),
    }
}

#[test]
fn write_tag_file_ends_every_line_with_a_line_feed() {
    let mut tags = TagList::new();
    tags.add_tag("A", "1").unwrap();
    tags.add_tag("B", "two words").unwrap();
    assert_eq!(write_tag_file(&tags), "A: 1\nB: two words\n");
    assert_eq!(write_tag_file(&TagList::new()), "");
    assert_eq!(tag_file_lines(&tags), vec!["A: 1".to_string(), "B: two words".to_string()]);
}

#[test]
fn written_lines_read_back_to_the_same_tags() {
    let mut tags = TagList::new();
    tags.add_tag("Source-Organization", "Spengler University").unwrap();
    tags.add_tag("Contact-Name", " leading space kept").unwrap();
    tags.add_tag("", "empty label").unwrap();
    tags.add_tag("Empty-Value", "").unwrap();
    tags.add_tag("Time", "12:30").unwrap();
    let back = read_tag_file(&tag_file_lines(&tags), "bag-info.txt").unwrap();
    assert_eq!(back.len(), tags.len());
    for i in 0..tags.len() {
        assert_eq!(back.get(i).unwrap().label(), tags.get(i).unwrap().label());
        assert_eq!(back.get(i).unwrap().value(), tags.get(i).unwrap().value());
    }
}

#[test]
fn a_colon_in_a_label_does_not_read_back() {
    let mut tags = TagList::new();
    tags.add_tag("a: b", "c").unwrap();
    let back = read_tag_file(&tag_file_lines(&tags), "bag-info.txt").unwrap();
    assert_eq!(back.get(0).unwrap().label(), "a");
    assert_eq!(back.get(0).unwrap().value(), "b: c");
}
