use bagr::bagit::{
    is_repeatable, read_bag_info, write_bag_info, BagInfo, Error, TagList,
};

fn values(info: &BagInfo) -> Vec<(String, String)> {
    info.tags().tags().iter().map(|t| (t.label().to_string(), t.value().to_string())).collect()
}

fn pair(label: &str, value: &str) -> (String, String) {
    (label.to_string(), value.to_string())
}

#[test]
fn new_bag_info_is_empty() {
    assert_eq!(BagInfo::new().tags().len(), 0);
    assert_eq!(BagInfo::with_capacity(4).tags().len(), 0);
    assert_eq!(BagInfo::default().tags().len(), 0);
}

#[test]
fn reserved_labels_are_classified() {
    for label in [
        "Bagging-Date",
        "Payload-Oxum",
        "Software-Agent",
        "Bag-Size",
        "Bag-Group-Identifier",
        "Bag-Count",
    ] {
        assert!(!is_repeatable(label), "{} may occur only once", label);
        assert!(!is_repeatable(&label.to_uppercase()));
        assert!(!is_repeatable(&label.to_lowercase()));
    }
    for label in [
        "Source-Organization",
        "Organization-Address",
        "Contact-Name",
        "Contact-Phone",
        "Contact-Email",
        "External-Description",
        "External-Identifier",
        "Internal-Sender-Identifier",
        "Internal-Sender-Description",
        "BagIt-Profile-Identifier",
    ] {
        assert!(is_repeatable(label), "{} may occur more than once", label);
    }
    assert!(is_repeatable("My-Own-Label"));
    assert!(is_repeatable(""));
    assert!(is_repeatable("Bagging-Dates"));
}

#[test]
fn non_repeatable_label_added_twice_leaves_the_second() {
    let mut info = BagInfo::new();
    info.add_tag("Bagging-Date", "2024-01-01").unwrap();
    info.add_tag("Bagging-Date", "2024-02-02").unwrap();
    let found = info.get_tags("Bagging-Date");
    assert_eq!(found.len(), 1);
    assert_eq!(found[0].value(), "2024-02-02");
    assert_eq!(info.get_tag("Bagging-Date").unwrap().value(), "2024-02-02");
}

#[test]
fn non_repeatable_label_replaces_whatever_its_case() {
    let mut info = BagInfo::new();
    info.add_tag("bagging-date", "2024-01-01").unwrap();
    info.add_tag("Other", "kept").unwrap();
    info.add_tag("BAGGING-DATE", "2024-02-02").unwrap();
    assert_eq!(values(&info), vec![pair("Other", "kept"), pair("BAGGING-DATE", "2024-02-02")]);
}

#[test]
fn repeatable_label_added_twice_leaves_both() {
    let mut info = BagInfo::new();
    info.add_tag("Contact-Name", "Ada").unwrap();
    info.add_tag("Contact-Name", "Grace").unwrap();
    let found = info.get_tags("Contact-Name");
    assert_eq!(found.len(), 2);
    assert_eq!(found[0].value(), "Ada");
    assert_eq!(found[1].value(), "Grace");
    assert_eq!(info.get_tag("contact-name").unwrap().value(), "Ada");
}

#[test]
fn unknown_labels_are_repeatable() {
    let mut info = BagInfo::new();
    info.add_tag("My-Label", "1").unwrap();
    info.add_tag("my-label", "2").unwrap();
    assert_eq!(info.get_tags("MY-LABEL").len(), 2);
}

#[test]
fn add_tag_rejects_invalid_tags() {
    let mut info = BagInfo::new();
    info.add_tag("Contact-Name", "Ada").unwrap();
    assert!(matches!(info.add_tag("Contact-Name", "a\nb"), Err(Error::InvalidTag { .. })));
    assert!(matches!(info.add_tag(" Contact-Name", "x"), Err(Error::InvalidTag { .. })));
    assert_eq!(values(&info), vec![pair("Contact-Name", "Ada")]);
}

#[test]
fn refused_value_of_a_non_repeatable_label_still_removes_the_old_tags() {
    let mut info = BagInfo::new();
    info.add_bagging_date("2024-01-01").unwrap();
    info.add_contact_name("Ada").unwrap();
    assert!(matches!(info.add_bagging_date("2024\n02"), Err(Error::InvalidTag { .. })));
    assert_eq!(values(&info), vec![pair("Contact-Name", "Ada")]);
    assert!(info.bagging_date().is_none());
}

#[test]
fn typed_accessors_of_single_labels() {
    let mut info = BagInfo::new();
    info.add_bagging_date("2024-01-01").unwrap();
    info.add_payload_oxum("1234.2").unwrap();
    info.add_software_agent("bagr v0.1").unwrap();
    info.add_bag_size("1.2 KB").unwrap();
    info.add_bag_group_identifier("group-1").unwrap();
    info.add_bag_count("1 of 2").unwrap();
    assert_eq!(info.bagging_date().unwrap().value(), "2024-01-01");
    assert_eq!(info.payload_oxum().unwrap().value(), "1234.2");
    assert_eq!(info.software_agent().unwrap().value(), "bagr v0.1");
    assert_eq!(info.bag_size().unwrap().value(), "1.2 KB");
    assert_eq!(info.bag_group_identifier().unwrap().value(), "group-1");
    assert_eq!(info.bag_count().unwrap().value(), "1 of 2");
    assert_eq!(info.bagging_date().unwrap().label(), "Bagging-Date");
    assert_eq!(info.payload_oxum().unwrap().label(), "Payload-Oxum");
    assert_eq!(info.software_agent().unwrap().label(), "Software-Agent");
    assert_eq!(info.bag_size().unwrap().label(), "Bag-Size");
    assert_eq!(info.bag_group_identifier().unwrap().label(), "Bag-Group-Identifier");
    assert_eq!(info.bag_count().unwrap().label(), "Bag-Count");
    info.add_payload_oxum("99.1").unwrap();
    info.add_software_agent("bagr v0.2").unwrap();
    info.add_bag_size("2 KB").unwrap();
    info.add_bag_group_identifier("group-2").unwrap();
    info.add_bag_count("2 of 2").unwrap();
    assert_eq!(info.payload_oxum().unwrap().value(), "99.1");
    assert_eq!(info.software_agent().unwrap().value(), "bagr v0.2");
    assert_eq!(info.bag_size().unwrap().value(), "2 KB");
    assert_eq!(info.bag_group_identifier().unwrap().value(), "group-2");
    assert_eq!(info.bag_count().unwrap().value(), "2 of 2");
    assert_eq!(info.tags().len(), 6);
}

#[test]
fn typed_accessors_of_repeated_labels() {
    let mut info = BagInfo::new();
    info.add_source_organization("Org A").unwrap();
    info.add_source_organization("Org B").unwrap();
    info.add_organization_address("1 Main St").unwrap();
    info.add_organization_address("2 Main St").unwrap();
    info.add_contact_name("Ada").unwrap();
    info.add_contact_name("Grace").unwrap();
    info.add_contact_phone("+1 555 0100").unwrap();
    info.add_contact_phone("+1 555 0101").unwrap();
    info.add_contact_email("ada@example.org").unwrap();
    info.add_contact_email("grace@example.org").unwrap();
    info.add_external_description("first").unwrap();
    info.add_external_description("second").unwrap();
    info.add_external_identifier("id-1").unwrap();
    info.add_external_identifier("id-2").unwrap();
    info.add_internal_sender_identifier("in-1").unwrap();
    info.add_internal_sender_identifier("in-2").unwrap();
    info.add_internal_sender_description("desc 1").unwrap();
    info.add_internal_sender_description("desc 2").unwrap();
    info.add_bagit_profile_identifier("https://example.org/p1").unwrap();
    info.add_bagit_profile_identifier("https://example.org/p2").unwrap();

    fn vals(tags: Vec<&bagr::bagit::Tag>) -> Vec<String> {
        tags.iter().map(|t| t.value().to_string()).collect()
    }
    assert_eq!(vals(info.source_organization()), vec!["Org A", "Org B"]);
    assert_eq!(vals(info.organization_address()), vec!["1 Main St", "2 Main St"]);
    assert_eq!(vals(info.contact_name()), vec!["Ada", "Grace"]);
    assert_eq!(vals(info.contact_phone()), vec!["+1 555 0100", "+1 555 0101"]);
    assert_eq!(vals(info.contact_email()), vec!["ada@example.org", "grace@example.org"]);
    assert_eq!(vals(info.external_description()), vec!["first", "second"]);
    assert_eq!(vals(info.external_identifier()), vec!["id-1", "id-2"]);
    assert_eq!(vals(info.internal_sender_identifier()), vec!["in-1", "in-2"]);
    assert_eq!(vals(info.internal_sender_description()), vec!["desc 1", "desc 2"]);
    assert_eq!(
        vals(info.bagit_profile_identifier()),
        vec!["https://example.org/p1", "https://example.org/p2"]
    );
    assert_eq!(info.source_organization()[0].label(), "Source-Organization");
    assert_eq!(info.organization_address()[0].label(), "Organization-Address");
    assert_eq!(info.contact_name()[0].label(), "Contact-Name");
    assert_eq!(info.contact_phone()[0].label(), "Contact-Phone");
    assert_eq!(info.contact_email()[0].label(), "Contact-Email");
    assert_eq!(info.external_description()[0].label(), "External-Description");
    assert_eq!(info.external_identifier()[0].label(), "External-Identifier");
    assert_eq!(info.internal_sender_identifier()[0].label(), "Internal-Sender-Identifier");
    assert_eq!(info.internal_sender_description()[0].label(), "Internal-Sender-Description");
    assert_eq!(info.bagit_profile_identifier()[0].label(), "BagIt-Profile-Identifier");
    assert_eq!(info.tags().len(), 20);
}

#[test]
fn typed_accessors_are_empty_without_tags() {
    let info = BagInfo::new();
    assert!(info.bagging_date().is_none());
    assert!(info.payload_oxum().is_none());
    assert!(info.contact_name().is_empty());
    assert!(info.get_tag("Anything").is_none());
    assert!(info.get_tags("Anything").is_empty());
}

#[test]
fn with_tags_keeps_repeated_single_labels_as_they_are() {
    let mut tags = TagList::new();
    tags.add_tag("Bagging-Date", "2024-01-01").unwrap();
    tags.add_tag("Bagging-Date", "2024-02-02").unwrap();
    let mut info = BagInfo::with_tags(tags);
    assert_eq!(info.get_tags("Bagging-Date").len(), 2);
    assert_eq!(info.bagging_date().unwrap().value(), "2024-01-01");
    info.add_bagging_date("2024-03-03").unwrap();
    assert_eq!(values(&info), vec![pair("Bagging-Date", "2024-03-03")]);
}

#[test]
fn conversions_keep_the_tags() {
    let mut tags = TagList::new();
    tags.add_tag("A", "1").unwrap();
    let info: BagInfo = tags.into();
    assert_eq!(values(&info), vec![pair("A", "1")]);
    let back: TagList = TagList::from(info);
    assert_eq!(back.len(), 1);
    assert_eq!(back.get(0).unwrap().value(), "1");
    let mut info = BagInfo::new();
    info.add_tag("B", "2").unwrap();
    assert_eq!(info.into_tags().get(0).unwrap().label(), "B");
}

#[test]
fn bag_info_is_written_in_insertion_order() {
    let mut info = BagInfo::new();
    info.add_source_organization("Spengler University").unwrap();
    info.add_bagging_date("2024-01-01").unwrap();
    info.add_payload_oxum("1234.2").unwrap();
    assert_eq!(
        write_bag_info(&info),
        "Source-Organization: Spengler University\nBagging-Date: 2024-01-01\nPayload-Oxum: 1234.2\n"
    );
}

#[test]
fn bag_info_is_read_as_it_stands() {
    let lines = vec![
        "Bagging-Date: 2024-01-01".to_string(),
        "Bagging-Date: 2024-02-02".to_string(),
        "My-Label: mine".to_string(),
    ];
    let info = read_bag_info(&lines, "bag-info.txt").unwrap();
    assert_eq!(
        values(&info),
        vec![
            pair("Bagging-Date", "2024-01-01"),
            pair("Bagging-Date", "2024-02-02"),
            pair("My-Label", "mine")
        ]
    );
    match read_bag_info(&vec!["broken".to_string()], "x/bag-info.txt") {
        Err(Error::MalformedLine { path, num, .. }) => {
            assert_eq!(path, "x/bag-info.txt");
            assert_eq!(num, 1);
        }
        other => panic!("unexpected result: {:?}", other),
    }
}
