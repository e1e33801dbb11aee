use hoard::hash::{FileHash, FileObject};
use hoard::index::{Index, Object};
use hoard::repo::Repository;
use hoard::store::{link, LinkAction, ObjectStore, PutStep};

const ABC: &str = "ba7816bf8f01cfea414140de5dae2223b00361a396177a9cb410ff61f20015ad";
const EMPTY: &str = "e3b0c44298fc1c149afbf4c8996fb92427ae41e4649b934ca495991b7852b855";

#[test]
fn parse_accepts_lowercase_hex_of_length_64() {
    let ok = FileHash::from_str(&ABC.to_string()).unwrap();
    assert_eq!(ok.as_str(), ABC);
    assert!(FileHash::from_str(&ABC.to_uppercase()).is_err());
    assert!(FileHash::from_str(&ABC[..63].to_string()).is_err());
    assert!(FileHash::from_str(&format!("{}0", ABC)).is_err());
    assert!(FileHash::from_str(&ABC.replace('b', "g")).is_err());
    assert!(FileHash::from_str(&String::new()).is_err());
}

#[test]
fn hash_of_content() {
    assert_eq!(FileHash::of(b"abc").as_str(), ABC);
    assert_eq!(FileHash::of(b"").as_str(), EMPTY);
    assert_eq!(FileHash::of(b"same bytes"), FileHash::of(b"same bytes"));
    assert_ne!(FileHash::of(b"one"), FileHash::of(b"two"));
}

#[test]
fn storage_path_splits_after_two_digits() {
    let h = FileHash::from_str(&ABC.to_string()).unwrap();
    assert_eq!(h.as_path(), format!("ba/{}", &ABC[2..]));
}

#[test]
fn hash_from_store_path() {
    let p = format!("/r/.hoard/objects/ba/{}", &ABC[2..]);
    assert_eq!(FileHash::from_path(&p).unwrap().as_str(), ABC);
    assert!(FileHash::from_path("/r/photos/cat.jpg").is_none());
    assert!(FileHash::from_path(ABC).is_none());
    assert_eq!(FileHash::from_path_or_content("/r/photos/cat.jpg", b"abc").as_str(), ABC);
    assert_eq!(FileHash::from_path_or_content(&p, b"other").as_str(), ABC);
}

#[test]
fn file_object_from_path() {
    let p = format!("objects/ba/{}", &ABC[2..]);
    let o = FileObject::new(&p).unwrap();
    assert_eq!(o.hash().as_str(), ABC);
    assert_eq!(o.path(), &p);
    assert!(FileObject::new("objects/ba").is_err());
}

#[test]
fn ingest_is_idempotent() {
    let mut store = ObjectStore::new("/tmp/r");
    let h = FileHash::from_str(&ABC.to_string()).unwrap();
    assert!(matches!(store.put(7, None), PutStep::NeedHash));
    match store.put(7, Some(h.clone())) {
        PutStep::Link { dst, hash } => {
            assert_eq!(dst, format!("/tmp/r/.hoard/objects/ba/{}", &ABC[2..]));
            assert_eq!(hash.as_str(), ABC);
        }
        other => panic!("unexpected step {:?}", other),
    }
    match store.put(7, None) {
        PutStep::Done(hash) => assert_eq!(hash.as_str(), ABC),
        other => panic!("unexpected step {:?}", other),
    }
    assert!(store.get_by_ino(&7).is_some());
    assert!(store.get_by_hash(&h).is_some());
}

#[test]
fn ingest_dedups_by_content() {
    let mut store = ObjectStore::new("/tmp/r");
    let h = FileHash::from_str(&ABC.to_string()).unwrap();
    assert!(matches!(store.put(1, Some(h.clone())), PutStep::Link { .. }));
    match store.put(2, Some(h.clone())) {
        PutStep::Done(hash) => assert_eq!(hash.as_str(), ABC),
        other => panic!("unexpected step {:?}", other),
    }
    assert!(store.get_by_ino(&2).is_none());
}

#[test]
fn store_loads_existing_objects() {
    let mut store = ObjectStore::new("/r");
    let p = format!("/r/.hoard/objects/e3/{}", &EMPTY[2..]);
    assert!(store.load(&p, 40).is_ok());
    assert!(store.load("/r/.hoard/objects/not-a-hash", 41).is_err());
    assert_eq!(store.get_by_ino(&40).unwrap().hash().as_str(), EMPTY);
    match store.put(99, Some(FileHash::from_str(&EMPTY.to_string()).unwrap())) {
        PutStep::Done(hash) => assert_eq!(hash.as_str(), EMPTY),
        other => panic!("unexpected step {:?}", other),
    }
}

#[test]
fn link_is_idempotent() {
    let first = link(5, None);
    assert_eq!(first, LinkAction::Create);
    assert!(first.created());
    let second = link(5, Some(5));
    assert_eq!(second, LinkAction::Keep);
    assert!(!second.created());
    let replaced = link(5, Some(6));
    assert_eq!(replaced, LinkAction::Replace);
    assert!(!replaced.created());
}

#[test]
fn fresh_repository_scenario() {
    let dirs = Repository::init("/tmp/r");
    assert_eq!(dirs, vec!["/tmp/r/.hoard/objects/by-hash".to_string(), "/tmp/r/.hoard/objects/by-name".to_string()]);
    let repo = Repository::load("/tmp/r");
    assert!(repo.check_inside("/tmp/r/file.txt").is_ok());
    let content = b"0123456789";
    let h = FileHash::of(content);
    let mut store = ObjectStore::new(repo.root());
    match store.put(100, Some(h.clone())) {
        PutStep::Link { dst, .. } => {
            let expected = format!("/tmp/r/.hoard/objects/{}/{}", &h.as_str()[..2], &h.as_str()[2..]);
            assert_eq!(dst, expected);
            assert_eq!(FileHash::from_path(&dst).unwrap(), h);
        }
        other => panic!("unexpected step {:?}", other),
    }
}

#[test]
fn paths_outside_repository_are_refused() {
    let repo = Repository::load("/tmp/r");
    assert!(repo.contains("/tmp/r"));
    assert!(repo.contains("/tmp/r/a/b"));
    assert!(!repo.contains("/tmp/rr/a"));
    assert!(!repo.contains("/tmp"));
    assert_eq!(repo.check_inside("/etc/passwd"), Err(hoard::error::HoardError::PathOutsideRepository));
}

#[test]
fn apply_removes_orphan_duplicate() {
    let files = vec![
        ("/r/copy".to_string(), 3),
        ("/r/docs/canonical".to_string(), 3),
        ("/r/other".to_string(), 4),
    ];
    let keep = vec!["/r/docs/canonical".to_string()];
    assert_eq!(Repository::plan_apply(&files, &keep), vec![0]);
    let none: Vec<String> = vec![];
    assert_eq!(Repository::plan_apply(&files, &none), vec![1]);
}

#[test]
fn index_lookups_prefer_later_entries() {
    let h = FileHash::from_str(&ABC.to_string()).unwrap();
    let index = Index::new(vec![
        Object::new("p1".to_string(), h.clone(), "a".to_string(), 1),
        Object::new("p2".to_string(), h.clone(), "a".to_string(), 2),
    ]);
    assert_eq!(index.by_name("a").unwrap().path(), "p2");
    assert_eq!(index.by_ino(1).unwrap().path(), "p1");
    assert_eq!(index.by_hash(&h).unwrap().path(), "p2");
    assert!(index.by_name("b").is_none());
    assert!(index.by_ino(3).is_none());
}

#[test]
fn ingest_dedups_against_a_tracked_object() {
    let mut store = ObjectStore::new("/r");
    let p = format!("/r/.hoard/objects/e3/{}", &EMPTY[2..]);
    store.load(&p, 40).unwrap();
    let h = FileHash::from_str(&EMPTY.to_string()).unwrap();
    match store.put(40, Some(h.clone())) {
        PutStep::Done(hash) => assert_eq!(hash.as_str(), EMPTY),
        other => panic!("unexpected step {:?}", other),
    }
    match store.put(41, Some(h.clone())) {
        PutStep::Done(hash) => assert_eq!(hash.as_str(), EMPTY),
        other => panic!("unexpected step {:?}", other),
    }
    assert!(store.get_by_ino(&41).is_none());
}
