use unzipper::entry::Entry;
use unzipper::plan::{
    format_comment_line, format_directory_line, format_file_line, plan_archive, plan_entry,
    Action, Host,
};

fn entry(name: &str, comment: &str, size: u64, mode: Option<u32>) -> Entry {
    Entry {
        name: name.to_string(),
        enclosed: Some(name.to_string()),
        comment: comment.to_string(),
        size,
        unix_mode: mode,
    }
}

#[test]
fn report_lines_have_the_exact_format() {
    assert_eq!(format_comment_line(0, "readme"), "File 0 comment: readme");
    assert_eq!(format_directory_line(12, "d"), "File 12 extracted to \"d\"");
    assert_eq!(format_file_line(1, "d/f", 0), "File 1 extracted to \"d/f\" (0 bytes)");
    assert_eq!(
        format_file_line(305, "a b/c", 4294967296),
        "File 305 extracted to \"a b/c\" (4294967296 bytes)"
    );
}

#[test]
fn single_file_plan() {
    let plan = plan_entry(0, &entry("hello.txt", "", 3, None), Host::Posix);
    assert_eq!(
        plan,
        vec![
            Action::Print("File 0 extracted to \"hello.txt\" (3 bytes)".to_string()),
            Action::EnsureParent("hello.txt".to_string()),
            Action::WriteFile { path: "hello.txt".to_string(), index: 0 },
        ]
    );
}

#[test]
fn nested_file_asks_for_its_parent_before_it_is_written() {
    let plan = plan_entry(0, &entry("a/b/c.txt", "", 1, None), Host::Posix);
    assert_eq!(plan.len(), 3);
    assert_eq!(plan[1], Action::EnsureParent("a/b/c.txt".to_string()));
    assert_eq!(plan[2], Action::WriteFile { path: "a/b/c.txt".to_string(), index: 0 });
}

#[test]
fn explicit_directory_then_file() {
    let entries = vec![entry("d/", "", 0, None), entry("d/f", "", 0, None)];
    let plan = plan_archive(&entries, Host::Other);
    assert_eq!(
        plan,
        vec![
            Action::Print("File 0 extracted to \"d\"".to_string()),
            Action::CreateDirAll("d".to_string()),
            Action::Print("File 1 extracted to \"d/f\" (0 bytes)".to_string()),
            Action::EnsureParent("d/f".to_string()),
            Action::WriteFile { path: "d/f".to_string(), index: 1 },
        ]
    );
}

#[test]
fn comment_is_reported_before_the_extraction_line() {
    let plan = plan_entry(0, &entry("note.txt", "readme", 1, None), Host::Posix);
    assert_eq!(plan[0], Action::Print("File 0 comment: readme".to_string()));
    assert_eq!(plan[1], Action::Print("File 0 extracted to \"note.txt\" (1 bytes)".to_string()));
    assert_eq!(plan.len(), 4);
}

#[test]
fn empty_comment_gives_no_comment_line() {
    let plan = plan_entry(4, &entry("note.txt", "", 1, None), Host::Posix);
    for action in &plan {
        if let Action::Print(line) = action {
            assert!(!line.contains("comment"));
        }
    }
}

#[test]
fn mode_is_applied_last_on_posix() {
    let plan = plan_entry(0, &entry("run.sh", "", 10, Some(0o755)), Host::Posix);
    assert_eq!(plan.len(), 4);
    assert_eq!(plan[3], Action::SetMode { path: "run.sh".to_string(), mode: 0o755 });
}

#[test]
fn mode_is_applied_to_directories_too() {
    let plan = plan_entry(2, &entry("bin/", "", 0, Some(0o700)), Host::Posix);
    assert_eq!(
        plan,
        vec![
            Action::Print("File 2 extracted to \"bin\"".to_string()),
            Action::CreateDirAll("bin".to_string()),
            Action::SetMode { path: "bin".to_string(), mode: 0o700 },
        ]
    );
}

#[test]
fn mode_is_left_alone_on_other_hosts() {
    let plan = plan_entry(0, &entry("run.sh", "", 10, Some(0o755)), Host::Other);
    assert_eq!(plan.len(), 3);
    assert!(plan.iter().all(|a| !matches!(a, Action::SetMode { .. })));
}

#[test]
fn entry_without_enclosed_name_is_skipped_silently() {
    let mut e = entry("../escape", "look at me", 5, Some(0o644));
    e.enclosed = None;
    assert_eq!(plan_entry(0, &e, Host::Posix), Vec::<Action>::new());
}

#[test]
fn unsafe_enclosed_name_is_skipped_silently() {
    for name in ["../escape", "/abs", "a/../../b", "nul\0byte"] {
        let e = entry(name, "c", 5, Some(0o644));
        assert_eq!(plan_entry(7, &e, Host::Posix), Vec::<Action>::new());
    }
}

#[test]
fn unsafe_entry_does_not_disturb_the_next() {
    let entries = vec![entry("../escape", "", 1, None), entry("ok.txt", "", 2, None)];
    let plan = plan_archive(&entries, Host::Posix);
    assert_eq!(
        plan,
        vec![
            Action::Print("File 1 extracted to \"ok.txt\" (2 bytes)".to_string()),
            Action::EnsureParent("ok.txt".to_string()),
            Action::WriteFile { path: "ok.txt".to_string(), index: 1 },
        ]
    );
}

#[test]
fn later_entry_of_the_same_name_is_written_later() {
    let entries = vec![entry("same", "", 1, None), entry("same", "", 2, None)];
    let plan = plan_archive(&entries, Host::Posix);
    let writes: Vec<usize> = plan
        .iter()
        .filter_map(|a| match a {
            Action::WriteFile { index, .. } => Some(*index),
            _ => None,
        })
        .collect();
    assert_eq!(writes, vec![0, 1]);
}

#[test]
fn planning_is_repeatable() {
    let entries = vec![entry("a/", "x", 0, Some(0o755)), entry("a/b", "", 9, None)];
    assert_eq!(plan_archive(&entries, Host::Posix), plan_archive(&entries, Host::Posix));
}

#[test]
fn empty_archive_has_an_empty_plan() {
    assert_eq!(plan_archive(&Vec::new(), Host::Posix), Vec::<Action>::new());
}

#[test]
fn directory_is_told_by_the_declared_name() {
    assert!(entry("d/", "", 0, None).is_dir());
    assert!(!entry("d", "", 0, None).is_dir());
    assert!(!entry("", "", 0, None).is_dir());
    let mut e = entry("d/", "", 0, None);
    e.enclosed = Some("d".to_string());
    assert!(e.is_dir());
    assert_eq!(e.resolve(), Some("d".to_string()));
}

#[test]
fn entries_in_another_order_plan_the_same_filesystem_steps() {
    let a = entry("a/", "", 0, Some(0o755));
    let b = entry("a/b.txt", "", 2, None);
    let c = entry("c.txt", "note", 5, Some(0o600));
    let one = plan_archive(&vec![a.clone(), b.clone(), c.clone()], Host::Posix);
    let two = plan_archive(&vec![c, b, a], Host::Posix);
    let places = |plan: &Vec<Action>| -> Vec<String> {
        let mut out: Vec<String> = plan
            .iter()
            .filter_map(|step| match step {
                Action::Print(_) => None,
                Action::CreateDirAll(p) => Some(format!("dir {}", p)),
                Action::EnsureParent(p) => Some(format!("parent {}", p)),
                Action::WriteFile { path, .. } => Some(format!("file {}", path)),
                Action::SetMode { path, mode } => Some(format!("mode {} {:o}", path, mode)),
            })
            .collect();
        out.sort();
        out
    };
    assert_eq!(places(&one), places(&two));
    assert_eq!(
        places(&one),
        vec![
            "dir a",
            "file a/b.txt",
            "file c.txt",
            "mode a 755",
            "mode c.txt 600",
            "parent a/b.txt",
            "parent c.txt",
        ]
    );
}

#[test]
fn comment_line_belongs_to_its_own_entry_only() {
    let entries = vec![entry("one", "first", 1, None), entry("eleven", "", 2, None)];
    let plan = plan_archive(&entries, Host::Posix);
    let lines: Vec<&String> = plan
        .iter()
        .filter_map(|step| match step {
            Action::Print(line) => Some(line),
            _ => None,
        })
        .collect();
    assert_eq!(lines.len(), 3);
    assert_eq!(lines[0], "File 0 comment: first");
    assert!(lines.iter().all(|line| !line.starts_with("File 1 comment: ")));
}

#[test]
fn resolved_path_of_an_entry_resolves_to_itself() {
    let e = entry("x/./y/../z.txt", "", 1, None);
    let path = e.resolve().unwrap();
    assert_eq!(path, "x/z.txt");
    let again = entry(&path, "", 1, None);
    assert_eq!(again.resolve(), Some(path));
}
