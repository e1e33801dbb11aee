use hoard::hash::FileHash;
use hoard::index::{Index, Object};
use hoard::state::{resolve, ChangeType, State};

const H1: &str = "ba7816bf8f01cfea414140de5dae2223b00361a396177a9cb410ff61f20015ad";
const H2: &str = "e3b0c44298fc1c149afbf4c8996fb92427ae41e4649b934ca495991b7852b855";

fn hash(s: &str) -> FileHash {
    FileHash::from_str(&s.to_string()).unwrap()
}

fn object(name: &str, h: &str, ino: u64) -> Object {
    Object::new(format!("/r/.hoard/objects/{}/{}", &h[0..2], &h[2..]), hash(h), name.to_string(), ino)
}

fn state(entries: &[(&str, &[&str])], extra: &[&str]) -> State {
    State::new(
        entries
            .iter()
            .map(|(n, ps)| (n.to_string(), ps.iter().map(|p| p.to_string()).collect()))
            .collect(),
        extra.iter().map(|p| p.to_string()).collect(),
    )
}

fn names(ns: &[&str]) -> Vec<String> {
    ns.iter().map(|n| n.to_string()).collect()
}

#[test]
fn change_execute_create() {
    let index = Index::new(vec![object("a", H1, 1)]);
    let desired = state(&[("a", &["x/a", "y/a"])], &[]);
    let actual = state(&[("a", &["x/a"])], &[]);
    let changes = resolve(&desired, &actual, &index);
    assert_eq!(changes.len(), 1);
    assert_eq!(changes[0].path(), "y/a");
    match changes[0].kind() {
        ChangeType::Create(o) => assert_eq!(o.name(), "a"),
        other => panic!("unexpected change {:?}", other),
    }
}

#[test]
fn change_execute_delete() {
    let index = Index::new(vec![object("a", H1, 1)]);
    let desired = state(&[("a", &["x/a"])], &[]);
    let actual = state(&[("a", &["x/a", "z/a"])], &[]);
    let changes = resolve(&desired, &actual, &index);
    assert_eq!(changes.len(), 1);
    assert_eq!(changes[0].path(), "z/a");
    match changes[0].kind() {
        ChangeType::Delete(o) => assert_eq!(o.name(), "a"),
        other => panic!("unexpected change {:?}", other),
    }
}

#[test]
fn change_execute_modify() {
    let index = Index::new(vec![object("new", H1, 1), object("old", H2, 2)]);
    let desired = state(&[("new", &["p"]), ("old", &["q"])], &[]);
    let actual = state(&[("old", &["p", "q"]), ("new", &[])], &[]);
    let changes = resolve(&desired, &actual, &index);
    assert_eq!(changes.len(), 1);
    assert_eq!(changes[0].path(), "p");
    match changes[0].kind() {
        ChangeType::Modify(o, n) => {
            assert_eq!(o.name(), "old");
            assert_eq!(n.name(), "new");
            assert_eq!(n.hash().as_str(), H1);
        }
        other => panic!("unexpected change {:?}", other),
    }
}

#[test]
fn diff_cancels_identical_placement() {
    let index = Index::new(vec![object("a", H1, 1)]);
    let desired = state(&[("a", &["pathA"])], &[]);
    let actual = state(&[("a", &["pathA"])], &[]);
    assert!(resolve(&desired, &actual, &index).is_empty());
}

#[test]
fn diff_ignore_wins_and_order_is_by_path() {
    let index = Index::new(vec![object("a", H1, 1), object("b", H2, 2)]);
    let desired = state(&[("a", &["m", "c"]), ("b", &["b"])], &[]);
    let actual = state(&[("a", &[]), ("b", &["z"])], &["m"]);
    let changes = resolve(&desired, &actual, &index);
    let paths: Vec<&str> = changes.iter().map(|c| c.path()).collect();
    assert_eq!(paths, vec!["b", "c", "m", "z"]);
    assert!(matches!(changes[0].kind(), ChangeType::Create(_)));
    assert!(matches!(changes[1].kind(), ChangeType::Create(_)));
    assert!(matches!(changes[2].kind(), ChangeType::Ignore));
    assert!(matches!(changes[3].kind(), ChangeType::Delete(_)));
}

#[test]
fn diff_skips_names_unknown_to_one_side() {
    let index = Index::new(vec![object("a", H1, 1), object("b", H2, 2)]);
    let desired = state(&[("a", &["x"]), ("b", &["y"])], &[]);
    let actual = state(&[("a", &[])], &[]);
    let changes = resolve(&desired, &actual, &index);
    assert_eq!(changes.len(), 1);
    assert_eq!(changes[0].path(), "x");
}

#[test]
fn state_from_path_extra() {
    let files: Vec<(String, u64)> = vec![
        ("root/a".to_string(), 11),
        ("root/b".to_string(), 12),
        ("root/c/d".to_string(), 13),
        ("root/c/e".to_string(), 14),
    ];
    let index = Index::new(vec![]);
    let result = State::from_files(&files, &index);
    assert_eq!(result.inner().len(), 0);
    assert_eq!(result.extra().len(), 4);
}

#[test]
fn state_from_path_empty() {
    let files: Vec<(String, u64)> = vec![];
    let index = Index::new(vec![]);
    let result = State::from_files(&files, &index);
    assert!(result.inner().is_empty());
    assert!(result.extra().is_empty());
}

#[test]
fn state_from_files_groups_by_name() {
    let files: Vec<(String, u64)> = vec![
        ("r/x/a".to_string(), 1),
        ("r/other".to_string(), 9),
        ("r/y/a".to_string(), 1),
        ("r/b".to_string(), 2),
    ];
    let index = Index::new(vec![object("a", H1, 1), object("b", H2, 2)]);
    let result = State::from_files(&files, &index);
    assert_eq!(
        result.inner(),
        &vec![
            ("a".to_string(), vec!["r/x/a".to_string(), "r/y/a".to_string()]),
            ("b".to_string(), vec!["r/b".to_string()]),
        ]
    );
    assert_eq!(result.extra(), &vec!["r/other".to_string()]);
}

#[test]
fn state_from_file_duplicates() {
    let text = r#"{"item1": ["p/1", "shared"], "item2": ["shared"], "item3": ["p/3"], "item4": ["p/4"]}"#;
    let result = State::from_manifest(text, &names(&["item1", "item2", "item3", "item4"]));
    assert!(result.is_err());
}

#[test]
fn state_from_file_invalid() {
    let result = State::from_manifest("{ not json", &names(&[]));
    assert!(result.is_err());
    assert!(matches!(result, Err(hoard::error::HoardError::Parse)));
}

#[test]
fn state_from_file_no_objects() {
    let text = r#"{"item1": ["p/1"], "item2": ["p/2"]}"#;
    let result = State::from_manifest(text, &names(&[])).unwrap();
    assert!(result.inner().is_empty());
}

#[test]
fn state_from_file_success() {
    let text = r#"{"item1": ["p/1"], "item2": ["p/2", "q/2"], "item3": ["p/3"], "item4": ["p/4"]}"#;
    let result = State::from_manifest(text, &names(&["item1", "item2", "item3", "item4"])).unwrap();
    assert_eq!(result.inner().len(), 4);
}

#[test]
fn manifest_ambiguity_names_both_claimants() {
    let text = r#"{"item-name-1": ["path1/item-name-1"], "item-name-2": ["path1/item-name-1", "path3/x"]}"#;
    let result = State::from_manifest(text, &names(&["item-name-1", "item-name-2"]));
    match result {
        Err(hoard::error::HoardError::AmbiguousManifest(conf)) => {
            assert_eq!(conf.len(), 1);
            assert_eq!(conf[0].0, "path1/item-name-1");
            let mut claimants = conf[0].1.clone();
            claimants.sort();
            assert_eq!(claimants, vec!["item-name-1".to_string(), "item-name-2".to_string()]);
        }
        _ => panic!("expected an ambiguous manifest"),
    }
}

#[test]
fn manifest_unknown_names_are_dropped() {
    let text = r#"{"known": ["a"], "unknown": ["a"]}"#;
    let result = State::from_manifest(text, &names(&["known"])).unwrap();
    assert_eq!(result.inner(), &vec![("known".to_string(), vec!["a".to_string()])]);
}

#[test]
fn state_from_files_lists_each_path_once() {
    let files: Vec<(String, u64)> = vec![
        ("r/a".to_string(), 1),
        ("r/a".to_string(), 1),
        ("r/x".to_string(), 9),
        ("r/x".to_string(), 9),
    ];
    let index = Index::new(vec![object("a", H1, 1), object("b", H2, 2)]);
    let result = State::from_files(&files, &index);
    assert_eq!(result.inner(), &vec![("a".to_string(), vec!["r/a".to_string()])]);
    assert_eq!(result.extra(), &vec!["r/x".to_string()]);
}
