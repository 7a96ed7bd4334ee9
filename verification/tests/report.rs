use dlldeps::{
    missing_notice, render, render_missing, ClassMap, DepRecord, Failure, FailureKind, Identity,
    Options,
};

fn sample() -> ClassMap {
    let mut map = ClassMap::new();
    map.insert_if_absent(
        Identity::resolved("/app/a.exe"),
        DepRecord::Found(vec!["b.dll".to_string(), "c.dll".to_string()]),
    );
    map.insert_if_absent(Identity::unresolved("c.dll"), DepRecord::NotFound);
    map.insert_if_absent(Identity::resolved("/lib/b.dll"), DepRecord::Found(Vec::new()));
    map.insert_if_absent(
        Identity::resolved("/lib/d.dll"),
        DepRecord::Invalid(Failure::new(FailureKind::Parse, "unknown magic number".to_string())),
    );
    map.insert_if_absent(Identity::resolved("/lib/q.dll"), DepRecord::Queued);
    map
}

#[test]
fn short_report_lists_every_terminal_record() {
    let lines = render(&sample(), Options { show_long: false, found_only: false });
    assert_eq!(
        lines,
        vec![
            "/app/a.exe",
            "c.dll (NOTFOUND)",
            "/lib/b.dll",
            "/lib/d.dll (Error: unknown magic number)",
        ]
    );
}

#[test]
fn long_report_lists_the_names_under_each_found_module() {
    let lines = render(&sample(), Options { show_long: true, found_only: false });
    assert_eq!(
        lines,
        vec![
            "/app/a.exe",
            " -> b.dll",
            " -> c.dll",
            "c.dll (NOTFOUND)",
            "/lib/b.dll",
            "/lib/d.dll (Error: unknown magic number)",
        ]
    );
}

#[test]
fn found_only_leaves_out_the_unresolved_and_nothing_else() {
    let lines = render(&sample(), Options { show_long: false, found_only: true });
    assert_eq!(
        lines,
        vec!["/app/a.exe", "/lib/b.dll", "/lib/d.dll (Error: unknown magic number)"]
    );
    let long = render(&sample(), Options { show_long: true, found_only: true });
    assert_eq!(
        long,
        vec![
            "/app/a.exe",
            " -> b.dll",
            " -> c.dll",
            "/lib/b.dll",
            "/lib/d.dll (Error: unknown magic number)",
        ]
    );
}

#[test]
fn found_only_equals_the_report_without_the_unresolved_entries() {
    let mut filtered = ClassMap::new();
    let full = sample();
    for i in 0..full.len() {
        let entry = full.entry(i);
        if entry.record != DepRecord::NotFound {
            filtered.insert_if_absent(entry.id.duplicate(), entry.record.duplicate());
        }
    }
    for show_long in [false, true] {
        assert_eq!(
            render(&full, Options { show_long, found_only: true }),
            render(&filtered, Options { show_long, found_only: false })
        );
    }
}

#[test]
fn empty_classification_gives_no_lines() {
    let lines = render(&ClassMap::new(), Options { show_long: true, found_only: false });
    assert!(lines.is_empty());
}

#[test]
fn missing_input_notice() {
    assert_eq!(missing_notice("gone.exe"), "File Not Found: gone.exe");
    assert_eq!(
        render_missing(&vec!["a".to_string(), "b c".to_string()]),
        vec!["File Not Found: a", "File Not Found: b c"]
    );
    assert!(render_missing(&Vec::new()).is_empty());
}
