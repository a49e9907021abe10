//! Tests of the keyed markup store and its file change detection.

use base64::Engine;
use svg_render::store::{drawable_lines, Svg};

#[test]
fn new_store_is_empty() {
    let svg = Svg::new();
    assert_eq!(svg.len(), 0);
}

#[test]
fn add_and_get_round_trip() {
    let mut svg = Svg::new();
    svg.add("square".to_string(), vec!["<rect/>".to_string()]);
    let got = svg.clone().get("square").unwrap();
    assert_eq!(got, vec!["<rect/>".to_string()]);
    assert_eq!(svg.clone().len(), 1);
    assert!(svg.get("circle").is_none());
}

#[test]
fn add_replaces_an_existing_key() {
    let mut svg = Svg::new();
    svg.add("a".to_string(), vec!["one".to_string()]);
    svg.add("a".to_string(), vec!["two".to_string()]);
    assert_eq!(svg.clone().len(), 1);
    assert_eq!(svg.get("a").unwrap(), vec!["two".to_string()]);
}

#[test]
fn remove_deletes_only_its_key() {
    let mut svg = Svg::new();
    svg.add("a".to_string(), vec!["1".to_string()]);
    svg.add("b".to_string(), vec!["2".to_string()]);
    svg.remove("a");
    assert_eq!(svg.clone().len(), 1);
    assert!(svg.clone().get("a").is_none());
    assert!(svg.get("b").is_some());
}

#[test]
fn keys_come_out_sorted() {
    let mut svg = Svg::new();
    svg.add("mango".to_string(), vec![]);
    svg.add("apple".to_string(), vec![]);
    svg.add("peach".to_string(), vec![]);
    assert_eq!(
        svg.keys(),
        vec!["apple".to_string(), "mango".to_string(), "peach".to_string()]
    );
}

#[test]
fn as_hashmap_exposes_all_entries() {
    let mut svg = Svg::new();
    svg.add("a".to_string(), vec!["x".to_string()]);
    svg.add("b".to_string(), vec!["y".to_string()]);
    let entries = svg.as_hashmap();
    assert_eq!(entries.len(), 2);
    assert_eq!(entries[0].0, "a");
    assert_eq!(entries[1].1, vec!["y".to_string()]);
}

#[test]
fn drawable_lines_keeps_only_element_starts() {
    let text = "<path d=\"M 0 0\"/>\nplain text\n<rect x=\"1\"/>\n<line x1=\"0\"/>\n<circle/>";
    let lines = drawable_lines(text);
    assert_eq!(
        lines,
        vec![
            "<path d=\"M 0 0\"/>".to_string(),
            "<rect x=\"1\"/>".to_string(),
            "<line x1=\"0\"/>".to_string(),
        ]
    );
}

#[test]
fn load_file_strips_the_suffix_and_keeps_lines() {
    let mut svg = Svg::new();
    svg.load_file("shapes.svg", "<path d=\"M 0 0\"/>\n<junk/>");
    assert_eq!(
        svg.get("shapes").unwrap(),
        vec!["<path d=\"M 0 0\"/>".to_string()]
    );
}

#[test]
fn refresh_ignores_files_never_imported() {
    let mut svg = Svg::new();
    assert!(!svg.refresh("ghost.svg", "<path/>"));
    assert_eq!(svg.len(), 0);
}

#[test]
fn refresh_detects_changed_contents() {
    let mut svg = Svg::new();
    let old_digest = base64::engine::general_purpose::STANDARD_NO_PAD.encode("old".as_bytes());
    svg.import("art.svg".to_string(), old_digest);
    let changed = svg.refresh("art.svg", "<rect x=\"1\"/>");
    assert!(changed);
    assert_eq!(svg.get("art").unwrap(), vec!["<rect x=\"1\"/>".to_string()]);
}

#[test]
fn refresh_leaves_unchanged_contents_alone() {
    let mut svg = Svg::new();
    let contents = "<rect x=\"1\"/>";
    let digest = base64::engine::general_purpose::STANDARD_NO_PAD.encode(contents.as_bytes());
    svg.import("art.svg".to_string(), digest);
    let changed = svg.refresh("art.svg", contents);
    assert!(!changed);
    assert_eq!(svg.len(), 0);
}

#[test]
fn refresh_twice_settles() {
    let mut svg = Svg::new();
    let contents = "<line x1=\"0\"/>";
    svg.load_file("a.svg", contents);
    assert!(!svg.refresh("a.svg", contents));
    assert_eq!(svg.get("a").unwrap(), vec!["<line x1=\"0\"/>".to_string()]);
}
