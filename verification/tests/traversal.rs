use dlldeps::{Action, Builder, ClassMap, DepRecord, Event, Failure, FailureKind, Identity};

/// A file system in memory: canonical paths with what reading each gives.
struct Disk {
    files: Vec<(String, Result<Vec<String>, Failure>)>,
}

impl Disk {
    fn new() -> Disk {
        Disk { files: Vec::new() }
    }

    fn module(mut self, path: &str, names: &[&str]) -> Disk {
        let names = names.iter().map(|n| n.to_string()).collect();
        self.files.push((path.to_string(), Ok(names)));
        self
    }

    fn broken(mut self, path: &str, kind: FailureKind, detail: &str) -> Disk {
        self.files.push((path.to_string(), Err(Failure::new(kind, detail.to_string()))));
        self
    }

    fn canonicalize(&self, path: &str) -> Option<String> {
        self.files.iter().find(|(p, _)| p == path).map(|(p, _)| p.clone())
    }

    fn read(&self, path: &str) -> Result<Vec<String>, Failure> {
        let (_, outcome) = self.files.iter().find(|(p, _)| p == path).unwrap();
        match outcome {
            Ok(names) => Ok(names.clone()),
            Err(failure) => Err(failure.duplicate()),
        }
    }
}

/// Runs a traversal to its end and returns it with the requests it made.
fn drive(disk: &Disk, inputs: &[&str], dirs: &[&str]) -> (Builder, Vec<Action>) {
    let inputs = inputs.iter().map(|s| s.to_string()).collect();
    let dirs = dirs.iter().map(|s| s.to_string()).collect();
    let mut builder = Builder::new(inputs, dirs);
    let mut asked = Vec::new();
    loop {
        let action = builder.action();
        let event = match &action {
            Action::Canonicalize { path } => Event::Located(disk.canonicalize(path)),
            Action::Load { path } => Event::Imports(disk.read(path)),
            Action::Probe { dir, name } => {
                Event::Located(disk.canonicalize(&format!("{}/{}", dir, name)))
            }
            Action::Finish => {
                asked.push(action);
                break;
            }
        };
        asked.push(action);
        builder.step(event);
        assert!(asked.len() < 10_000);
    }
    (builder, asked)
}

fn record<'a>(map: &'a ClassMap, id: &Identity) -> &'a DepRecord {
    map.get(id).unwrap()
}

fn path(text: &str) -> Identity {
    Identity::resolved(text)
}

fn name(text: &str) -> Identity {
    Identity::unresolved(text)
}

fn found(names: &[&str]) -> DepRecord {
    DepRecord::Found(names.iter().map(|n| n.to_string()).collect())
}

fn loads_of(asked: &[Action], wanted: &str) -> usize {
    asked
        .iter()
        .filter(|a| matches!(a, Action::Load { path } if path == wanted))
        .count()
}

#[test]
fn module_with_one_found_and_one_missing_dependency() {
    let disk = Disk::new().module("/app/a.exe", &["b.dll", "c.dll"]).module("/lib/b.dll", &[]);
    let (builder, _) = drive(&disk, &["/app/a.exe"], &["/lib", "/opt"]);
    let map = builder.map();
    assert_eq!(map.len(), 3);
    assert_eq!(record(map, &path("/app/a.exe")), &found(&["b.dll", "c.dll"]));
    assert_eq!(record(map, &path("/lib/b.dll")), &found(&[]));
    assert_eq!(record(map, &name("c.dll")), &DepRecord::NotFound);
    assert!(builder.missing().is_empty());
    assert!(builder.is_finished());
}

#[test]
fn invalid_module_is_recorded_and_queues_nothing() {
    let disk = Disk::new().broken("/app/d.dll", FailureKind::Parse, "unknown magic number");
    let (builder, asked) = drive(&disk, &["/app/d.dll"], &["/lib"]);
    let map = builder.map();
    assert_eq!(map.len(), 1);
    assert_eq!(
        record(map, &path("/app/d.dll")),
        &DepRecord::Invalid(Failure::new(FailureKind::Parse, "unknown magic number".to_string()))
    );
    assert_eq!(
        asked,
        vec![
            Action::Canonicalize { path: "/app/d.dll".to_string() },
            Action::Load { path: "/app/d.dll".to_string() },
            Action::Finish,
        ]
    );
}

#[test]
fn unreadable_module_does_not_stop_the_others() {
    let disk = Disk::new()
        .module("/app/a.exe", &["x.dll", "y.dll"])
        .broken("/lib/x.dll", FailureKind::Io, "permission denied")
        .module("/lib/y.dll", &["z.dll"]);
    let (builder, _) = drive(&disk, &["/app/a.exe"], &["/lib"]);
    let map = builder.map();
    assert_eq!(map.len(), 4);
    assert_eq!(
        record(map, &path("/lib/x.dll")),
        &DepRecord::Invalid(Failure::new(FailureKind::Io, "permission denied".to_string()))
    );
    assert_eq!(record(map, &path("/lib/y.dll")), &found(&["z.dll"]));
    assert_eq!(record(map, &name("z.dll")), &DepRecord::NotFound);
}

#[test]
fn cycle_is_traversed_once() {
    let disk = Disk::new()
        .module("/lib/a.dll", &["b.dll"])
        .module("/lib/b.dll", &["c.dll", "a.dll"])
        .module("/lib/c.dll", &["a.dll", "c.dll"]);
    let (builder, asked) = drive(&disk, &["/lib/a.dll"], &["/lib"]);
    let map = builder.map();
    assert_eq!(map.len(), 3);
    assert_eq!(loads_of(&asked, "/lib/a.dll"), 1);
    assert_eq!(loads_of(&asked, "/lib/b.dll"), 1);
    assert_eq!(loads_of(&asked, "/lib/c.dll"), 1);
    assert_eq!(record(map, &path("/lib/a.dll")), &found(&["b.dll"]));
    assert_eq!(record(map, &path("/lib/b.dll")), &found(&["c.dll", "a.dll"]));
    assert_eq!(record(map, &path("/lib/c.dll")), &found(&["a.dll", "c.dll"]));
}

#[test]
fn module_that_imports_itself_is_read_once() {
    let disk = Disk::new().module("/lib/a.dll", &["a.dll"]);
    let (builder, asked) = drive(&disk, &["/lib/a.dll"], &["/lib"]);
    assert_eq!(builder.map().len(), 1);
    assert_eq!(loads_of(&asked, "/lib/a.dll"), 1);
}

#[test]
fn no_record_is_left_queued() {
    let disk = Disk::new()
        .module("/a", &["b", "c", "d"])
        .module("/x/b", &["c", "e"])
        .module("/y/c", &["b"])
        .broken("/y/d", FailureKind::Parse, "bounds check failed");
    let (builder, _) = drive(&disk, &["/a"], &["/x", "/y"]);
    let map = builder.map();
    assert_eq!(map.len(), 5);
    for i in 0..map.len() {
        assert!(map.entry(i).record.is_terminal());
        assert_eq!(
            map.entry(i).id.is_resolved(),
            map.entry(i).record != DepRecord::NotFound
        );
    }
}

#[test]
fn rerun_gives_the_same_classification() {
    let disk = Disk::new()
        .module("/a", &["b", "c", "missing"])
        .module("/x/b", &["c"])
        .module("/y/c", &[])
        .module("/x/c", &["b"]);
    let (first, asked_first) = drive(&disk, &["/a", "/nowhere"], &["/x", "/y"]);
    let (second, asked_second) = drive(&disk, &["/a", "/nowhere"], &["/x", "/y"]);
    assert_eq!(first.map(), second.map());
    assert_eq!(first.missing(), second.missing());
    assert_eq!(asked_first, asked_second);
}

#[test]
fn module_without_dependencies_is_found_empty() {
    let disk = Disk::new().module("/lib/leaf.dll", &[]);
    let (builder, asked) = drive(&disk, &["/lib/leaf.dll"], &["/lib"]);
    assert_eq!(record(builder.map(), &path("/lib/leaf.dll")), &DepRecord::Found(Vec::new()));
    assert_eq!(asked.len(), 3);
}

#[test]
fn missing_input_is_noted_and_not_classified() {
    let disk = Disk::new().module("/app/a.exe", &[]);
    let (builder, asked) = drive(&disk, &["/gone.exe", "/app/a.exe"], &["/lib"]);
    let map = builder.map();
    assert_eq!(map.len(), 1);
    assert!(!map.contains(&path("/gone.exe")));
    assert!(!map.contains(&name("/gone.exe")));
    assert_eq!(builder.missing(), &vec!["/gone.exe".to_string()]);
    assert_eq!(loads_of(&asked, "/gone.exe"), 0);
}

#[test]
fn only_missing_inputs_finish_with_an_empty_classification() {
    let disk = Disk::new();
    let (builder, asked) = drive(&disk, &["/one", "/two"], &["/lib"]);
    assert_eq!(builder.map().len(), 0);
    assert_eq!(builder.missing(), &vec!["/one".to_string(), "/two".to_string()]);
    assert_eq!(
        asked,
        vec![
            Action::Canonicalize { path: "/one".to_string() },
            Action::Canonicalize { path: "/two".to_string() },
            Action::Finish,
        ]
    );
}

#[test]
fn earlier_directory_wins() {
    let disk = Disk::new()
        .module("/app/a.exe", &["b.dll"])
        .module("/first/b.dll", &[])
        .module("/second/b.dll", &["never.dll"]);
    let (builder, asked) = drive(&disk, &["/app/a.exe"], &["/first", "/second"]);
    let map = builder.map();
    assert_eq!(map.len(), 2);
    assert!(map.contains(&path("/first/b.dll")));
    assert!(!map.contains(&path("/second/b.dll")));
    assert!(!asked.contains(&Action::Probe {
        dir: "/second".to_string(),
        name: "b.dll".to_string()
    }));

    let (builder, _) = drive(&disk, &["/app/a.exe"], &["/second", "/first"]);
    let map = builder.map();
    assert!(map.contains(&path("/second/b.dll")));
    assert!(!map.contains(&path("/first/b.dll")));
    assert_eq!(record(map, &name("never.dll")), &DepRecord::NotFound);
}

#[test]
fn directories_are_asked_in_order_until_one_holds_the_name() {
    let disk = Disk::new().module("/a", &["n"]).module("/d3/n", &[]);
    let (_, asked) = drive(&disk, &["/a"], &["/d1", "/d2", "/d3", "/d4"]);
    assert_eq!(
        asked,
        vec![
            Action::Canonicalize { path: "/a".to_string() },
            Action::Load { path: "/a".to_string() },
            Action::Probe { dir: "/d1".to_string(), name: "n".to_string() },
            Action::Probe { dir: "/d2".to_string(), name: "n".to_string() },
            Action::Probe { dir: "/d3".to_string(), name: "n".to_string() },
            Action::Load { path: "/d3/n".to_string() },
            Action::Finish,
        ]
    );
}

#[test]
fn without_directories_every_name_is_not_found() {
    let disk = Disk::new().module("/a", &["x", "y", "x"]);
    let (builder, asked) = drive(&disk, &["/a"], &[]);
    let map = builder.map();
    assert_eq!(map.len(), 3);
    assert_eq!(record(map, &path("/a")), &found(&["x", "y", "x"]));
    assert_eq!(record(map, &name("x")), &DepRecord::NotFound);
    assert_eq!(record(map, &name("y")), &DepRecord::NotFound);
    assert_eq!(asked.len(), 3);
}

#[test]
fn no_inputs_finish_at_once() {
    let builder = Builder::new(Vec::new(), vec!["/lib".to_string()]);
    assert!(builder.is_finished());
    assert_eq!(builder.action(), Action::Finish);
    assert_eq!(builder.map().len(), 0);
}

#[test]
fn repeated_input_is_queued_once() {
    let disk = Disk::new().module("/a", &[]).module("/b", &[]);
    let (builder, asked) = drive(&disk, &["/a", "/b", "/a"], &[]);
    assert_eq!(builder.map().len(), 2);
    assert_eq!(loads_of(&asked, "/a"), 1);
    assert_eq!(loads_of(&asked, "/b"), 1);
}

#[test]
fn the_module_queued_last_is_read_first() {
    let disk = Disk::new().module("/a", &[]).module("/b", &[]);
    let (builder, asked) = drive(&disk, &["/a", "/b"], &[]);
    assert_eq!(asked[2], Action::Load { path: "/b".to_string() });
    assert_eq!(asked[3], Action::Load { path: "/a".to_string() });
    assert_eq!(builder.map().entry(0).id, path("/a"));
    assert_eq!(builder.map().entry(1).id, path("/b"));
}

#[test]
fn unresolved_name_shared_by_two_modules_is_recorded_once() {
    let disk = Disk::new().module("/a", &["b", "gone"]).module("/lib/b", &["gone"]);
    let (builder, _) = drive(&disk, &["/a"], &["/lib"]);
    let map = builder.map();
    assert_eq!(map.len(), 3);
    assert_eq!(record(map, &name("gone")), &DepRecord::NotFound);
}

#[test]
fn a_path_and_a_bare_name_with_the_same_text_are_two_identities() {
    let disk = Disk::new().module("x", &["x"]);
    let (builder, _) = drive(&disk, &["x"], &["/lib"]);
    let map = builder.map();
    assert_eq!(map.len(), 2);
    assert_eq!(record(map, &path("x")), &found(&["x"]));
    assert_eq!(record(map, &name("x")), &DepRecord::NotFound);
}

#[test]
fn event_that_answers_nothing_is_ignored() {
    let mut builder = Builder::new(vec!["/a".to_string()], Vec::new());
    builder.step(Event::Imports(Ok(vec!["x".to_string()])));
    assert_eq!(builder.action(), Action::Canonicalize { path: "/a".to_string() });
    assert_eq!(builder.map().len(), 0);
    builder.step(Event::Located(Some("/a".to_string())));
    assert_eq!(builder.action(), Action::Load { path: "/a".to_string() });
    builder.step(Event::Located(None));
    builder.step(Event::Located(Some("/b".to_string())));
    assert_eq!(builder.action(), Action::Load { path: "/a".to_string() });
    assert_eq!(builder.map().len(), 1);
    assert_eq!(record(builder.map(), &path("/a")), &DepRecord::Queued);
    builder.step(Event::Imports(Ok(Vec::new())));
    assert!(builder.is_finished());
    builder.step(Event::Located(Some("/c".to_string())));
    builder.step(Event::Imports(Ok(vec!["x".to_string()])));
    assert!(builder.is_finished());
    assert_eq!(builder.map().len(), 1);
    assert_eq!(record(builder.map(), &path("/a")), &DepRecord::Found(Vec::new()));
}

#[test]
fn into_map_gives_the_classification() {
    let disk = Disk::new().module("/a", &["b"]);
    let (builder, _) = drive(&disk, &["/a"], &["/lib"]);
    let map = builder.into_map();
    assert_eq!(map.len(), 2);
    assert_eq!(map.entry(0).id, path("/a"));
    assert_eq!(map.entry(1).id, name("b"));
}

#[test]
fn unreadable_file_is_an_io_failure() {
    let event = Event::loaded(Err("permission denied".to_string()));
    assert_eq!(
        event,
        Event::Imports(Err(Failure::new(FailureKind::Io, "permission denied".to_string())))
    );
}

#[test]
fn bytes_that_are_no_image_are_a_parse_failure() {
    let bytes = vec![0u8; 16];
    let event = Event::loaded(Ok(&bytes));
    assert_eq!(
        event,
        Event::Imports(Err(Failure::new(FailureKind::Parse, "bounds check failed".to_string())))
    );
}

#[test]
fn missing_input_changes_nothing_but_the_notices() {
    let disk = Disk::new()
        .module("/a", &["b", "gone"])
        .module("/lib/b", &["a"])
        .module("/c", &[]);
    let dirs = ["/lib", "/"];
    let (without, asked_without) = drive(&disk, &["/a", "/c"], &dirs);
    for inputs in [["/x", "/a", "/c"], ["/a", "/x", "/c"], ["/a", "/c", "/x"]] {
        let (with, asked_with) = drive(&disk, &inputs, &dirs);
        assert_eq!(with.map(), without.map());
        assert_eq!(with.missing(), &vec!["/x".to_string()]);
        let others: Vec<&Action> = asked_with
            .iter()
            .filter(|a| **a != Action::Canonicalize { path: "/x".to_string() })
            .collect();
        let expected: Vec<&Action> = asked_without.iter().collect();
        assert_eq!(others, expected);
        assert_eq!(asked_with.len(), asked_without.len() + 1);
    }
}

#[test]
fn classification_is_what_can_be_reached() {
    let disk = Disk::new()
        .module("/a", &["b", "gone"])
        .module("/lib/b", &["c"])
        .module("/lib/c", &["b"])
        .module("/lib/unused", &["a"])
        .module("/other/b", &["unused"])
        .broken("/lib/d", FailureKind::Parse, "invalid data");
    let (builder, _) = drive(&disk, &["/a", "/lib/d"], &["/lib", "/other"]);
    let map = builder.map();
    let mut keys: Vec<String> = (0..map.len())
        .map(|i| format!("{}:{}", map.entry(i).id.is_resolved(), map.entry(i).id.text()))
        .collect();
    keys.sort();
    assert_eq!(
        keys,
        vec!["false:gone", "true:/a", "true:/lib/b", "true:/lib/c", "true:/lib/d"]
    );
    assert_eq!(record(map, &path("/lib/c")), &found(&["b"]));
    assert!(!map.contains(&path("/lib/unused")));
    assert!(!map.contains(&path("/other/b")));
}
