use ignore_builder::args::Change;
use ignore_builder::gitignore::GitIgnore;
use ignore_builder::ignore_groups::IgnoreGroups;
use ignore_builder::Error;

const CATALOG: &str = "# Rust\nItem(target/)\nComment(build output)\nItem(Cargo.lock)\n\n# Node\nItem(node_modules/)\nDependency(Logs)\n\n# Logs\nItem(*.log)\n";

const OPEN: &str = "#==========================================[";
const CLOSE: &str = "]==========================================#";

fn header(name: &str) -> String {
    format!("{} {} {}\n", OPEN, name, CLOSE)
}

fn catalog() -> IgnoreGroups {
    IgnoreGroups::parse(CATALOG).unwrap()
}

#[test]
fn added_group_renders_items_and_comment_runs() {
    let igs = catalog();
    let mut store = GitIgnore::new();
    store.add_group(igs.get("Rust").unwrap(), false, &igs).unwrap();
    assert!(store.has_group("Rust"));
    let text = store.serialize();
    let expected = format!(
        "{}target/\n\n# build output\nCargo.lock\n\n",
        header("Rust")
    );
    assert_eq!(text, expected);
}

#[test]
fn dependencies_expand_into_their_own_sections() {
    let igs = catalog();
    let mut store = GitIgnore::new();
    store.add_group(igs.get("Node").unwrap(), false, &igs).unwrap();
    assert!(store.has_group("Node"));
    assert!(store.has_group("Logs"));
    let text = store.serialize();
    let expected = format!(
        "{}*.log\n\n{}node_modules/\n\n",
        header("Logs"),
        header("Node")
    );
    assert_eq!(text, expected);
}

#[test]
fn adding_twice_without_force_keeps_the_body() {
    let igs = catalog();
    let mut store = GitIgnore::new();
    store.add_group(igs.get("Logs").unwrap(), false, &igs).unwrap();
    store.add_item("kept-line");
    let before = store.serialize();
    store.add_group(igs.get("Logs").unwrap(), false, &igs).unwrap();
    assert!(store.has_group("Logs"));
    assert_eq!(store.serialize(), before);
}

#[test]
fn adding_twice_with_force_rerenders_the_body() {
    let igs = catalog();
    let mut store = GitIgnore::new();
    store.add_group(igs.get("Logs").unwrap(), false, &igs).unwrap();
    store.remove_item("*.log");
    let gutted = store.serialize();
    assert_eq!(gutted, format!("{}\n\n", header("Logs")));
    store.add_group(igs.get("Logs").unwrap(), true, &igs).unwrap();
    assert_eq!(store.serialize(), format!("{}*.log\n\n", header("Logs")));
}

#[test]
fn add_item_is_idempotent() {
    let mut store = GitIgnore::new();
    store.add_item("secret.txt");
    store.add_item("secret.txt");
    let text = store.serialize();
    assert_eq!(text.matches("secret.txt").count(), 1);
    assert_eq!(text, format!("{}\nsecret.txt\n\n", header("_")));
}

#[test]
fn add_item_dedups_against_group_bodies_too() {
    let igs = catalog();
    let mut store = GitIgnore::new();
    store.add_group(igs.get("Logs").unwrap(), false, &igs).unwrap();
    store.add_item("*.log");
    assert!(!store.has_group("_"));
    store.add_item("*.log  ");
    assert!(store.has_group("_"));
}

#[test]
fn remove_item_erases_substring_matches() {
    let igs = catalog();
    let mut store = GitIgnore::new();
    store.add_group(igs.get("Rust").unwrap(), false, &igs).unwrap();
    store.remove_item("get");
    let text = store.serialize();
    assert!(text.contains("tar/\n"));
    assert!(!text.contains("target/"));
}

#[test]
fn remove_group_on_absent_name_fails_and_leaves_store_unmodified() {
    let igs = catalog();
    let mut store = GitIgnore::new();
    store.add_group(igs.get("Rust").unwrap(), false, &igs).unwrap();
    let before = store.serialize();
    let e = store.remove_group("Node").unwrap_err();
    assert!(matches!(e, Error::GroupNotFound(n) if n == "Node"));
    assert_eq!(store.serialize(), before);
    store.remove_group("Rust").unwrap();
    assert!(!store.has_group("Rust"));
    assert_eq!(store.serialize(), "");
}

#[test]
fn round_trip_preserves_sections_and_lines() {
    let igs = catalog();
    let mut store = GitIgnore::new();
    store.add_group(igs.get("Rust").unwrap(), false, &igs).unwrap();
    store.add_group(igs.get("Node").unwrap(), false, &igs).unwrap();
    store.add_item("loose-entry");
    let once = store.serialize();
    let reloaded = GitIgnore::load(&once).unwrap();
    assert_eq!(reloaded.serialize(), once);
    let again = GitIgnore::load(&reloaded.serialize()).unwrap();
    assert_eq!(again.serialize(), once);
    for name in ["Rust", "Logs", "Node", "_"] {
        assert!(reloaded.has_group(name));
    }
}

#[test]
fn load_reads_sections_and_rejects_stray_lines() {
    let text = format!("{}a\nb\n\n{}c\n\n", header("One"), header("Two"));
    let store = GitIgnore::load(&text).unwrap();
    assert!(store.has_group("One"));
    assert!(store.has_group("Two"));
    assert!(!store.has_group("Three"));
    let e = GitIgnore::load("stray line\n").unwrap_err();
    assert!(matches!(e, Error::CorruptFile));
    assert_eq!(
        e.message(),
        ".gitignore has been corrupted. Please run --clear, -cl to clear and restart."
    );
}

#[test]
fn load_of_empty_text_gives_empty_store() {
    let store = GitIgnore::load("").unwrap();
    assert_eq!(store.serialize(), "");
}

#[test]
fn load_strips_carriage_returns_at_line_ends() {
    let text = format!("{}one\r\ntwo\r\n\r\n", header("Win"));
    let store = GitIgnore::load(&text).unwrap();
    assert!(store.has_group("Win"));
    assert_eq!(store.serialize(), format!("{}one\ntwo\n\n", header("Win")));
}

#[test]
fn dependency_cycle_is_detected_not_recursed() {
    let igs = IgnoreGroups::parse("# A\nDependency(B)\n# B\nDependency(A)\n").unwrap();
    let mut store = GitIgnore::new();
    let e = store.add_group(igs.get("A").unwrap(), false, &igs).unwrap_err();
    assert!(matches!(e, Error::DependencyCycle(n) if n == "A"));
}

#[test]
fn missing_dependency_is_an_unknown_group_error() {
    let igs = IgnoreGroups::parse("# A\nDependency(Nowhere)\n").unwrap();
    let mut store = GitIgnore::new();
    let e = store.add_group(igs.get("A").unwrap(), false, &igs).unwrap_err();
    assert!(matches!(e, Error::UnknownGroup(n) if n == "Nowhere"));
}

#[test]
fn apply_changes_runs_in_order_and_reports_duplicates() {
    let igs = catalog();
    let mut store = GitIgnore::new();
    let changes = vec![
        Change::AddG("Rust".to_string()),
        Change::AddI("loose".to_string()),
    ];
    store.apply_changes(&changes, &igs).unwrap();
    assert!(store.has_group("Rust"));
    assert!(store.has_group("_"));
    let again = vec![Change::AddG("Rust".to_string())];
    let e = store.apply_changes(&again, &igs).unwrap_err();
    assert!(matches!(e, Error::GroupAlreadyExists(ref n) if n == "Rust"));
    assert_eq!(
        e.message(),
        "Group 'Rust' already exists in .gitignore. Perhaps use --force-add, -fa."
    );
    let removal = vec![Change::RemoveG("Rust".to_string())];
    store.apply_changes(&removal, &igs).unwrap();
    assert!(!store.has_group("Rust"));
}

#[test]
fn apply_changes_unknown_group_error_carries_the_name() {
    let igs = catalog();
    let mut store = GitIgnore::new();
    let changes = vec![Change::AddG("Zig".to_string())];
    let e = store.apply_changes(&changes, &igs).unwrap_err();
    assert!(matches!(e, Error::UnknownGroup(n) if n == "Zig"));
}
