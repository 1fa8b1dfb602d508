use repo_manifest::topics::{
    arch_of_dir, fetch_descriptions, is_topic_name, merge_names, Descriptions, PullRequest,
    TopicManifest, PAGE_SIZE,
};

fn pull(branch: &str, body: &[u8]) -> PullRequest {
    PullRequest {
        branch: branch.to_string(),
        body: body.to_vec(),
    }
}

#[test]
fn short_page_is_the_last() {
    let mut d = Descriptions::new();
    let pulls = vec![
        pull("zsync-update", b"Topic Description\n---\n\nNew zsync\n\nPackage(s) Affected\n"),
        pull("no-desc", b"just text"),
    ];
    assert_eq!(fetch_descriptions(&mut d, 1, pulls), None);
    assert_eq!(d.entries.len(), 1);
    assert_eq!(d.get(&"zsync-update".to_string()), Some(&"New zsync\n".to_string()));
    assert_eq!(d.get(&"no-desc".to_string()), None);
}

#[test]
fn full_page_asks_for_the_next() {
    let mut d = Descriptions::new();
    let pulls: Vec<PullRequest> = (0..PAGE_SIZE)
        .map(|i| pull(&format!("b{}", i), b"Topic Description\n-\n\nx\nPackage(s) Affected"))
        .collect();
    assert_eq!(fetch_descriptions(&mut d, 3, pulls), Some(4));
    assert_eq!(d.entries.len(), PAGE_SIZE);
    assert_eq!(d.get(&"b7".to_string()), Some(&"x".to_string()));
}

#[test]
fn later_description_replaces_earlier() {
    let mut d = Descriptions::new();
    d.insert("t".to_string(), "old".to_string());
    d.insert("u".to_string(), "other".to_string());
    d.insert("t".to_string(), "new".to_string());
    assert_eq!(d.entries.len(), 2);
    assert_eq!(d.get(&"t".to_string()), Some(&"new".to_string()));
    assert_eq!(d.get(&"u".to_string()), Some(&"other".to_string()));
}

#[test]
fn invalid_utf8_in_description_is_replaced() {
    let mut d = Descriptions::new();
    let pulls = vec![pull("b", b"Topic Description\n-\n\na\xffb\nPackage(s) Affected")];
    fetch_descriptions(&mut d, 1, pulls);
    assert_eq!(d.get(&"b".to_string()), Some(&"a\u{FFFD}b".to_string()));
}

#[test]
fn description_attached_by_topic_name() {
    let mut d = Descriptions::new();
    d.insert("topic-a".to_string(), "about a".to_string());
    let mut m = TopicManifest {
        name: "topic-a".to_string(),
        description: None,
        date: 7,
        arch: vec!["amd64".to_string()],
        packages: vec!["zsync".to_string()],
    };
    m.attach_description(&d);
    assert_eq!(m.description, Some("about a".to_string()));
    assert_eq!(m.date, 7);
    let mut other = TopicManifest {
        name: "topic-b".to_string(),
        description: None,
        date: 0,
        arch: vec![],
        packages: vec![],
    };
    other.attach_description(&d);
    assert_eq!(other.description, None);
}

#[test]
fn stable_is_no_topic() {
    assert!(!is_topic_name(b"stable"));
    assert!(is_topic_name(b"stable-next"));
    assert!(is_topic_name(b"zsync-update"));
}

#[test]
fn arch_from_directory_name() {
    assert_eq!(arch_of_dir(b"binary-amd64"), Some(&b"amd64"[..]));
    assert_eq!(arch_of_dir(b"binary-"), Some(&b""[..]));
    assert_eq!(arch_of_dir(b"source"), None);
    assert_eq!(arch_of_dir(b"binar"), None);
}

#[test]
fn names_merged_without_repeats() {
    let mut all: Vec<Vec<u8>> = vec![b"zsync".to_vec()];
    let names: Vec<&[u8]> = vec![b"rsync", b"zsync", b"curl", b"rsync"];
    merge_names(&mut all, &names);
    assert_eq!(all, vec![b"zsync".to_vec(), b"rsync".to_vec(), b"curl".to_vec()]);
}
