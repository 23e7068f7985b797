//! The session index: caching, lookup, and change detection.

use ark_tags::database::Database;
use ark_tags::id::Id;
use ark_tags::index::{Index, IndexError};
use ark_tags::location::{Config, Location};
use ark_tags::model::Model;

fn id(size: u64, hash: u32) -> Id {
    Id { size, hash }
}

#[test]
fn lookup_before_provide_is_an_error() {
    let idx = Index::new();
    match idx.id(&"a/b.txt".to_string()) {
        Err(IndexError::NotIndexed { path }) => assert_eq!(path, "a/b.txt"),
        Ok(_) => panic!("expected NotIndexed"),
    }
}

#[test]
fn provide_then_lookup() {
    let mut idx = Index::new();
    let first = idx.provide(&"a/b.txt".to_string(), id(10, 1));
    assert_eq!(first, None);
    assert_eq!(idx.id(&"a/b.txt".to_string()), Ok(id(10, 1)));
}

#[test]
fn reprovide_reports_previous_id() {
    // the caller detects changed content from the previous identity
    let mut idx = Index::new();
    idx.provide(&"a".to_string(), id(10, 1));
    let prev = idx.provide(&"a".to_string(), id(10, 2));
    assert_eq!(prev, Some(id(10, 1)));
    assert_eq!(idx.id(&"a".to_string()), Ok(id(10, 2)));
}

#[test]
fn reverse_lookup_is_last_writer_wins() {
    let mut idx = Index::new();
    idx.provide(&"a".to_string(), id(10, 1));
    idx.provide(&"b".to_string(), id(10, 1));
    assert_eq!(idx.path(id(10, 1)), Some("b".to_string()));
    assert_eq!(idx.path(id(99, 9)), None);
}

#[test]
fn model_assembles_its_parts() {
    let cfg = Config {
        data_name: ".tags.data".to_string(),
    };
    let mut index = Index::new();
    index.provide(&"a".to_string(), id(1, 1));
    let database = Database::new(Vec::new()).unwrap();
    let location = Location::root("root".to_string(), Vec::new(), &cfg);
    let model = Model::new(index, database, location);
    assert_eq!(model.index.id(&"a".to_string()), Ok(id(1, 1)));
    assert_eq!(model.location.depth, 0);
    assert!(!model.database.contains_tag(&"t".to_string()));
}

#[test]
fn distinct_paths_keep_distinct_ids() {
    let mut idx = Index::new();
    idx.provide(&"a".to_string(), id(1, 1));
    idx.provide(&"b".to_string(), id(2, 2));
    assert_eq!(idx.id(&"a".to_string()), Ok(id(1, 1)));
    assert_eq!(idx.id(&"b".to_string()), Ok(id(2, 2)));
}
