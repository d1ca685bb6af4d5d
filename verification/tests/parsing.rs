use ignore_builder::args::Args;
use ignore_builder::args::Change;
use ignore_builder::ignore_groups::IgnoreGroups;
use ignore_builder::Error;

fn strs(tokens: &[&str]) -> Vec<String> {
    tokens.iter().map(|t| t.to_string()).collect()
}

#[test]
fn version_alone_sets_flag_and_no_changes() {
    let a = Args::parse(&strs(&["-v"])).unwrap();
    assert!(a.version);
    assert!(a.changes.is_empty());
    assert!(!a.create);
    assert!(!a.help);
    assert!(!a.clear);
    assert!(a.list.is_none());
}

#[test]
fn version_with_other_arguments_is_exclusivity_error() {
    let e = Args::parse(&strs(&["-v", "-a", "X"])).unwrap_err();
    assert!(matches!(e, Error::MustBeAlone(_, _)));
}

#[test]
fn clear_and_help_are_exclusive_too() {
    assert!(matches!(
        Args::parse(&strs(&["-cl", "extra"])).unwrap_err(),
        Error::MustBeAlone(_, _)
    ));
    assert!(matches!(
        Args::parse(&strs(&["--help", "x"])).unwrap_err(),
        Error::MustBeAlone(_, _)
    ));
}

#[test]
fn list_collects_following_tokens_as_filters() {
    let a = Args::parse(&strs(&["-l", "foo"])).unwrap();
    assert_eq!(a.list, Some(vec!["foo".to_string()]));
    assert!(!a.list_exhaustive);
}

#[test]
fn list_absorbs_flag_shaped_tokens_once_engaged() {
    let a = Args::parse(&strs(&["-l", "foo", "-a", "bar"])).unwrap();
    assert_eq!(
        a.list,
        Some(vec!["foo".to_string(), "-a".to_string(), "bar".to_string()])
    );
    assert!(a.changes.is_empty());
}

#[test]
fn list_must_be_first() {
    let e = Args::parse(&strs(&["-a", "X", "-l"])).unwrap_err();
    assert!(matches!(e, Error::MustBeFirst(_, _)));
    let e = Args::parse(&strs(&["x", "-le"])).unwrap_err();
    assert!(matches!(e, Error::UnknownCommand(_)));
}

#[test]
fn list_exhaustive_sets_its_flag() {
    let a = Args::parse(&strs(&["-le", "rust"])).unwrap();
    assert!(a.list_exhaustive);
    assert_eq!(a.list, Some(vec!["rust".to_string()]));
}

#[test]
fn two_adds_keep_input_order() {
    let a = Args::parse(&strs(&["-a", "X", "-a", "Y"])).unwrap();
    assert_eq!(a.changes.len(), 2);
    assert!(matches!(&a.changes[0], Change::AddG(n) if n == "X"));
    assert!(matches!(&a.changes[1], Change::AddG(n) if n == "Y"));
}

#[test]
fn no_arguments_is_an_error() {
    let e = Args::parse(&Vec::new()).unwrap_err();
    assert!(matches!(e, Error::NoCommand));
    assert_eq!(e.message(), "Must enter command --help, -h for help.");
}

#[test]
fn unknown_leading_token_is_an_error() {
    let e = Args::parse(&strs(&["frobnicate"])).unwrap_err();
    assert!(matches!(e, Error::UnknownCommand(t) if t == "frobnicate"));
}

#[test]
fn create_acts_like_add_and_sets_create() {
    let a = Args::parse(&strs(&["-c", "Rust"])).unwrap();
    assert!(a.create);
    assert!(matches!(&a.changes[0], Change::AddG(n) if n == "Rust"));
}

#[test]
fn mixed_modes_collect_into_the_right_lists() {
    let a = Args::parse(&strs(&["-a", "X", "-ri", "p", "-ai", "q", "-r", "Y", "-fa", "Z"])).unwrap();
    assert_eq!(a.changes.len(), 5);
    assert!(matches!(&a.changes[0], Change::AddG(n) if n == "X"));
    assert!(matches!(&a.changes[1], Change::RemoveI(n) if n == "p"));
    assert!(matches!(&a.changes[2], Change::AddI(n) if n == "q"));
    assert!(matches!(&a.changes[3], Change::RemoveG(n) if n == "Y"));
    assert!(matches!(&a.changes[4], Change::AddGF(n) if n == "Z"));
}

const CATALOG: &str = "# Rust\nItem(target/)\nComment(build output)\nItem(Cargo.lock)\n\n# Node\nItem(node_modules/)\nDependency(Logs)\n\n# Logs\nItem(*.log)\n";

#[test]
fn catalog_parses_groups_and_typed_entries() {
    let c = IgnoreGroups::parse(CATALOG).unwrap();
    let g = c.get("Rust").unwrap();
    assert_eq!(g.name, "Rust");
    assert_eq!(g.items.len(), 3);
    let d = c.get("Node").unwrap();
    assert_eq!(d.items.len(), 2);
}

#[test]
fn catalog_lookup_of_missing_group_fails() {
    let c = IgnoreGroups::parse(CATALOG).unwrap();
    let e = c.get("Haskell").unwrap_err();
    assert!(matches!(e, Error::UnknownGroup(n) if n == "Haskell"));
}

#[test]
fn catalog_rejects_unrecognized_lines() {
    let e = IgnoreGroups::parse("# A\nwhat is this\n").unwrap_err();
    assert!(matches!(e, Error::CorruptCatalog(l) if l == "what is this"));
}

#[test]
fn catalog_rejects_entry_before_any_group() {
    let e = IgnoreGroups::parse("Item(x)\n# A\n").unwrap_err();
    assert!(matches!(e, Error::CorruptCatalog(_)));
}

#[test]
fn list_with_no_filters_returns_all_names_sorted() {
    let c = IgnoreGroups::parse(CATALOG).unwrap();
    let names = c.filter(&Vec::new());
    assert_eq!(names, vec!["Logs", "Node", "Rust"]);
}

#[test]
fn list_filters_by_lowercase_containment() {
    let c = IgnoreGroups::parse(CATALOG).unwrap();
    let names = c.filter(&vec!["rust".to_string()]);
    assert_eq!(names, vec!["Rust"]);
    let names = c.filter(&vec!["o".to_string()]);
    assert_eq!(names, vec!["Logs", "Node"]);
    let names = c.filter(&vec![" RU ".to_string()]);
    assert_eq!(names, vec!["Rust"]);
}

#[test]
fn doc_renders_colored_entry_forms() {
    let c = IgnoreGroups::parse("# A\nItem(x)\n").unwrap();
    let g = c.get("A").unwrap();
    assert_eq!(g.items[0].doc(), "\u{1b}[32mItem(x)\u{1b}[39m");
}

#[test]
fn help_lines_are_padded_to_the_column() {
    let mut s = String::new();
    Args::add_command_to_string(&mut s, "--add", "-a", Some("GROUPS"), "Adds.", 30);
    assert_eq!(s, "    --add, -a [GROUPS]            Adds.\n");
    let mut t = String::new();
    Args::add_command_to_string(&mut t, "--a-very-long-flag-name-here", "-x", None, "Info.", 10);
    assert_eq!(t, "    --a-very-long-flag-name-here, -x Info.\n");
}
