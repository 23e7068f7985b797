//! Locations, entry visibility, ordering labels, and filter application.

use ark_tags::apply_filter;
use ark_tags::location::{Config, Entry, Location, Order};

fn cfg() -> Config {
    Config {
        data_name: ".tags.data".to_string(),
    }
}

fn entry(name: &str, is_dir: bool) -> Entry {
    Entry {
        name: name.to_string(),
        path: format!("root/{}", name),
        is_dir,
    }
}

#[test]
fn listing_hides_dot_files_and_the_data_dir() {
    let raw = vec![
        entry("a.txt", false),
        entry(".hidden", false),
        entry(".tags.data", true),
        entry("sub", true),
    ];
    let loc = Location::root("root".to_string(), raw, &cfg());
    let names: Vec<&str> = loc.entries.iter().map(|e| e.name.as_str()).collect();
    assert_eq!(names, vec!["a.txt", "sub"]);
}

#[test]
fn descend_and_ascend_track_depth_and_path() {
    let raw = vec![entry("sub", true), entry("f", false)];
    let root = Location::root("root".to_string(), raw, &cfg());
    assert_eq!(root.depth, 0);

    let below = root.descend(0, vec![entry("g", false)], &cfg());
    assert_eq!(below.depth, 1);
    assert_eq!(below.path, "root/sub");
    assert_eq!(below.entries.len(), 1);

    let back = below.ascend("root".to_string(), vec![entry("sub", true)], &cfg());
    assert_eq!(back.depth, 0);
    assert_eq!(back.path, "root");
}

#[test]
fn order_catalogue() {
    let all = Order::all();
    assert_eq!(all.len(), 5);
    assert_eq!(all[0], (Order::AsIs, "no order"));
    assert_eq!(all[1], (Order::BySize, "by size"));
    assert_eq!(all[2], (Order::ByCreatedDate, "by creation"));
    assert_eq!(all[3], (Order::ByModifiedDate, "by modification"));
    assert_eq!(all[4], (Order::ByAccessedDate, "by last access"));
}

#[test]
fn apply_filter_keeps_flagged_elements() {
    let elements = vec![10u32, 20, 30, 40];
    let flags = vec![true, false, true, false];
    assert_eq!(apply_filter(&elements, &flags), vec![10, 30]);
}

#[test]
fn apply_filter_stops_at_shorter_input() {
    let elements = vec![1u8, 2, 3];
    assert_eq!(apply_filter(&elements, &vec![true]), vec![1]);
    assert_eq!(apply_filter(&elements, &Vec::new()), Vec::<u8>::new());
    assert_eq!(
        apply_filter(&vec![9u8], &vec![true, true, true]),
        vec![9]
    );
}
