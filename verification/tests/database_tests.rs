//! The tag database: loading, insertion, intersection filtering, and
//! sieving.

use ark_tags::bucket::Bucket;
use ark_tags::database::{Database, DbError, ScannedBucket};
use ark_tags::id::Id;

fn id(size: u64, hash: u32) -> Id {
    Id { size, hash }
}

fn fresh() -> Database {
    Database::new(Vec::new()).unwrap()
}

#[test]
fn load_from_scan() {
    let scanned = vec![
        ScannedBucket {
            tag: "work".to_string(),
            entries: vec!["s3_h30".to_string()],
        },
        ScannedBucket {
            tag: "vacation".to_string(),
            entries: vec!["s1_h10".to_string(), "s2_h20".to_string()],
        },
    ];
    let db = Database::new(scanned).unwrap();
    let flags = db
        .filter(&vec![id(1, 10), id(2, 20), id(3, 30)], &vec!["vacation".to_string()])
        .unwrap();
    assert_eq!(flags, vec![true, true, false]);
}

#[test]
fn load_rejects_malformed_entry() {
    let scanned = vec![ScannedBucket {
        tag: "work".to_string(),
        entries: vec!["s3_h30".to_string(), "not-an-id".to_string()],
    }];
    match Database::new(scanned) {
        Err(DbError::MalformedEntry { tag, entry }) => {
            assert_eq!(tag, "work");
            assert_eq!(entry, "not-an-id");
        }
        other => panic!("expected MalformedEntry, got {:?}", other.is_ok()),
    }
}

#[test]
fn load_rejects_illegal_tag() {
    let scanned = vec![ScannedBucket {
        tag: "a/b".to_string(),
        entries: vec!["s1_h1".to_string()],
    }];
    match Database::new(scanned) {
        Err(DbError::IllegalTag { tag }) => assert_eq!(tag, "a/b"),
        other => panic!("expected IllegalTag, got {:?}", other.is_ok()),
    }
}

#[test]
fn load_rejects_duplicate_tag() {
    let scanned = vec![
        ScannedBucket {
            tag: "work".to_string(),
            entries: vec!["s1_h1".to_string()],
        },
        ScannedBucket {
            tag: "work".to_string(),
            entries: vec!["s2_h2".to_string()],
        },
    ];
    match Database::new(scanned) {
        Err(DbError::DuplicateTag { tag }) => assert_eq!(tag, "work"),
        other => panic!("expected DuplicateTag, got {:?}", other.is_ok()),
    }
}

#[test]
fn insert_reports_new_tag_then_existing() {
    // the full scenario: a fresh store, two inserts into one tag, a filter
    let mut db = fresh();
    let x = id(1024, 305419896);
    let y = id(2048, 7);
    let z = id(1, 1);

    let first = db.insert(&vec![x], &"beach".to_string()).unwrap();
    assert!(first.new_tag);
    assert_eq!(first.added, vec![x]);
    assert_eq!(first.added[0].encode(), "s1024_h305419896");

    let second = db.insert(&vec![y], &"beach".to_string()).unwrap();
    assert!(!second.new_tag);
    assert_eq!(second.added, vec![y]);

    let flags = db
        .filter(&vec![x, y, z], &vec!["beach".to_string()])
        .unwrap();
    assert_eq!(flags, vec![true, true, false]);
}

#[test]
fn insert_is_idempotent() {
    // inserting {X} into an existing tag twice: the bucket and the set of
    // marker files to create stay as they were, and is_new_tag is false
    // both times
    let mut db = fresh();
    let x = id(5, 50);
    db.insert(&vec![id(9, 90)], &"t".to_string()).unwrap();

    let first = db.insert(&vec![x], &"t".to_string()).unwrap();
    assert!(!first.new_tag);
    assert_eq!(first.added, vec![x]);

    let second = db.insert(&vec![x], &"t".to_string()).unwrap();
    assert!(!second.new_tag);
    assert_eq!(second.added, Vec::<Id>::new());

    let flags = db.filter(&vec![x], &vec!["t".to_string()]).unwrap();
    assert_eq!(flags, vec![true]);
}

#[test]
fn insert_deduplicates_input() {
    let mut db = fresh();
    let x = id(5, 50);
    let out = db.insert(&vec![x, x, x], &"t".to_string()).unwrap();
    assert_eq!(out.added, vec![x]);
}

#[test]
fn insert_empty_into_missing_tag_fails() {
    let mut db = fresh();
    match db.insert(&Vec::new(), &"t".to_string()) {
        Err(DbError::EmptyInsert) => {}
        other => panic!("expected EmptyInsert, got {:?}", other.is_ok()),
    }
    // but inserting nothing into an existing tag is a no-op
    db.insert(&vec![id(1, 1)], &"t".to_string()).unwrap();
    let out = db.insert(&Vec::new(), &"t".to_string()).unwrap();
    assert!(!out.new_tag);
    assert!(out.added.is_empty());
}

#[test]
fn insert_rejects_illegal_tag() {
    let mut db = fresh();
    for bad in ["", "a/b", ".", ".."] {
        match db.insert(&vec![id(1, 1)], &bad.to_string()) {
            Err(DbError::IllegalTag { tag }) => assert_eq!(tag, bad),
            other => panic!("expected IllegalTag for {:?}, got {:?}", bad, other.is_ok()),
        }
    }
}

#[test]
fn filter_empty_tags_matches_everything() {
    // the identity filter: no constraint means no exclusion
    let mut db = fresh();
    db.insert(&vec![id(1, 1)], &"t".to_string()).unwrap();
    let ids = vec![id(1, 1), id(2, 2), id(3, 3)];
    let flags = db.filter(&ids, &Vec::new()).unwrap();
    assert_eq!(flags, vec![true, true, true]);
}

#[test]
fn filter_is_an_intersection() {
    // X carries both tags; A only the first; B only the second
    let mut db = fresh();
    let x = id(1, 1);
    let a = id(2, 2);
    let b = id(3, 3);
    db.insert(&vec![x, a], &"t1".to_string()).unwrap();
    db.insert(&vec![x, b], &"t2".to_string()).unwrap();

    let both = vec!["t1".to_string(), "t2".to_string()];
    let flags = db.filter(&vec![x, a, b], &both).unwrap();
    assert_eq!(flags, vec![true, false, false]);
}

#[test]
fn filter_unknown_tag_is_an_error() {
    let mut db = fresh();
    db.insert(&vec![id(1, 1)], &"known".to_string()).unwrap();
    match db.filter(&vec![id(1, 1)], &vec!["known".to_string(), "missing".to_string()]) {
        Err(DbError::UnknownTag { tag }) => assert_eq!(tag, "missing"),
        other => panic!("expected UnknownTag, got {:?}", other.is_ok()),
    }
}

#[test]
fn sieve_marks_overlapping_tags() {
    // buckets vacation={A,B}, work={C}: sieve({A,C}) highlights both,
    // sieve({B}) only vacation
    let mut db = fresh();
    let a = id(1, 10);
    let b = id(2, 20);
    let c = id(3, 30);
    db.insert(&vec![a, b], &"vacation".to_string()).unwrap();
    db.insert(&vec![c], &"work".to_string()).unwrap();

    // tags are listed in sorted order: vacation before work
    assert_eq!(db.sieve(&vec![a, c]), vec![true, true]);
    assert_eq!(db.sieve(&vec![b]), vec![true, false]);
    assert_eq!(db.sieve(&Vec::new()), vec![false, false]);
}

#[test]
fn sieved_tags_pairs_names_in_sorted_order() {
    let mut db = fresh();
    let a = id(1, 10);
    let c = id(3, 30);
    db.insert(&vec![c], &"work".to_string()).unwrap();
    db.insert(&vec![a], &"vacation".to_string()).unwrap();

    let tagged = db.sieved_tags(&vec![a]);
    assert_eq!(tagged.len(), 2);
    assert_eq!(tagged[0].tag, "vacation");
    assert!(tagged[0].highlighted);
    assert_eq!(tagged[1].tag, "work");
    assert!(!tagged[1].highlighted);
}

#[test]
fn filter_and_sieve_composition() {
    // the refresh a tag-filtered listing runs: filter, keep, sieve the rest
    let mut db = fresh();
    let a = id(1, 10);
    let b = id(2, 20);
    let c = id(3, 30);
    db.insert(&vec![a, b], &"vacation".to_string()).unwrap();
    db.insert(&vec![c], &"work".to_string()).unwrap();

    let (flags, kept, sieve) = db
        .filter_and_sieve(&vec![a, b, c], &vec!["vacation".to_string()])
        .unwrap();
    assert_eq!(flags, vec![true, true, false]);
    assert_eq!(kept, vec![a, b]);
    // with only vacation's files left, work has nothing to highlight
    assert_eq!(sieve, vec![true, false]);
}

#[test]
fn contains_tag_reflects_inserts() {
    let mut db = fresh();
    assert!(!db.contains_tag(&"t".to_string()));
    db.insert(&vec![id(1, 1)], &"t".to_string()).unwrap();
    assert!(db.contains_tag(&"t".to_string()));
}

#[test]
fn bucket_membership_and_insert_all() {
    let mut b = Bucket::init("t".to_string(), id(1, 1));
    assert!(b.contains(id(1, 1)));
    assert!(!b.contains(id(2, 2)));
    let added = b.insert_all(&vec![id(1, 1), id(2, 2)]);
    assert_eq!(added, vec![id(2, 2)]);
    assert_eq!(b.values().len(), 2);
    assert_eq!(b.tag(), "t");
}
