use dlldeps::{ClassMap, DepRecord, Failure, FailureKind, Identity};

fn names(list: &[&str]) -> Vec<String> {
    list.iter().map(|n| n.to_string()).collect()
}

#[test]
fn new_map_is_empty() {
    let map = ClassMap::new();
    assert_eq!(map.len(), 0);
    assert!(!map.contains(&Identity::resolved("/a")));
    assert_eq!(map.get(&Identity::resolved("/a")), None);
    assert_eq!(map.position(&Identity::resolved("/a")), None);
}

#[test]
fn insert_if_absent_keeps_the_first_record() {
    let mut map = ClassMap::new();
    assert!(map.insert_if_absent(Identity::resolved("/a"), DepRecord::Queued));
    assert!(map.insert_if_absent(Identity::unresolved("b"), DepRecord::NotFound));
    assert!(!map.insert_if_absent(Identity::resolved("/a"), DepRecord::Found(Vec::new())));
    assert_eq!(map.len(), 2);
    assert_eq!(map.get(&Identity::resolved("/a")), Some(&DepRecord::Queued));
    assert_eq!(map.position(&Identity::unresolved("b")), Some(1));
    assert_eq!(map.entry(0).id, Identity::resolved("/a"));
    assert_eq!(map.entry(1).record, DepRecord::NotFound);
}

#[test]
fn settle_replaces_a_queued_record_in_place() {
    let mut map = ClassMap::new();
    map.insert_if_absent(Identity::resolved("/a"), DepRecord::Queued);
    map.insert_if_absent(Identity::resolved("/b"), DepRecord::Queued);
    assert!(map.settle(&Identity::resolved("/a"), DepRecord::Found(names(&["x"]))));
    assert_eq!(map.len(), 2);
    assert_eq!(map.position(&Identity::resolved("/a")), Some(0));
    assert_eq!(map.get(&Identity::resolved("/a")), Some(&DepRecord::Found(names(&["x"]))));
    assert_eq!(map.get(&Identity::resolved("/b")), Some(&DepRecord::Queued));
}

#[test]
fn settle_never_changes_a_terminal_record() {
    let mut map = ClassMap::new();
    map.insert_if_absent(Identity::resolved("/a"), DepRecord::Queued);
    assert!(map.settle(&Identity::resolved("/a"), DepRecord::Found(names(&["x"]))));
    let failure = Failure::new(FailureKind::Parse, "invalid data".to_string());
    assert!(!map.settle(&Identity::resolved("/a"), DepRecord::Invalid(failure)));
    assert!(!map.settle(&Identity::resolved("/a"), DepRecord::Queued));
    assert_eq!(map.get(&Identity::resolved("/a")), Some(&DepRecord::Found(names(&["x"]))));
}

#[test]
fn settle_does_not_queue_and_does_not_insert() {
    let mut map = ClassMap::new();
    map.insert_if_absent(Identity::resolved("/a"), DepRecord::Queued);
    assert!(!map.settle(&Identity::resolved("/a"), DepRecord::Queued));
    assert!(!map.settle(&Identity::resolved("/b"), DepRecord::NotFound));
    assert_eq!(map.len(), 1);
    assert_eq!(map.get(&Identity::resolved("/a")), Some(&DepRecord::Queued));
}

#[test]
fn identities_compare_by_kind_and_text() {
    let a = Identity::resolved("/lib/a.dll");
    assert!(a.same(&Identity::resolved("/lib/a.dll")));
    assert!(!a.same(&Identity::resolved("/lib/b.dll")));
    assert!(!a.same(&Identity::unresolved("/lib/a.dll")));
    assert!(a.is_resolved());
    assert!(!Identity::unresolved("a.dll").is_resolved());
    assert_eq!(a.text(), "/lib/a.dll");
    assert_eq!(Identity::unresolved("a.dll").text(), "a.dll");
    assert_eq!(a.duplicate(), a);
}

#[test]
fn records_know_whether_they_are_terminal() {
    let failure = Failure::new(FailureKind::NameDecode, "bad".to_string());
    assert!(!DepRecord::Queued.is_terminal());
    assert!(DepRecord::NotFound.is_terminal());
    assert!(DepRecord::Found(Vec::new()).is_terminal());
    assert!(DepRecord::Invalid(failure.duplicate()).is_terminal());
    assert_eq!(failure.duplicate(), failure);
    assert_eq!(failure.kind, FailureKind::NameDecode);
    assert_eq!(failure.detail, "bad");
    let found = DepRecord::Found(names(&["a", "b"]));
    assert_eq!(found.duplicate(), found);
}
