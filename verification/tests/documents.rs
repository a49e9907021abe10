//! Tests of whole-document rendering: extraction, record order, fill
//! records, diagnostics, idempotence and failure modes.

use svg_render::model::{PathError, SvgError};
use svg_render::render::{compose_document, render_svg};

fn doc(body: &str) -> String {
    let mut s = String::new();
    s.push_str("<?xml version=\"1.0\" encoding=\"utf-8\"?>");
    s.push_str("<svg viewBox=\"0 0 100 100\" xmlns=\"http://www.w3.org/2000/svg\">");
    s.push_str(body);
    s.push_str("</svg>");
    s
}

const STROKED: &str = "stroke: rgb(255, 0, 0); stroke-width: 1; fill: none;";
const FILLED: &str = "stroke: rgb(255, 0, 0); stroke-width: 1; fill: rgb(0, 0, 255);";

#[test]
fn one_path_renders_one_record() {
    let text = doc(&format!(
        "<path d=\"M 10.000 20.000 L 30.000 40.000\" style=\"{STROKED}\"/>"
    ));
    let out = render_svg(&text).unwrap();
    assert_eq!(out.records.len(), 1);
    assert_eq!(out.issues.len(), 0);
    let rec = &out.records[0];
    assert!(!rec.is_fill);
    assert_eq!(rec.style, STROKED);
    assert_eq!(rec.points.len(), 2);
    assert_eq!(rec.points[0].x, 10_000_000);
    assert_eq!(rec.points[0].y, 80_000_000);
    assert_eq!(rec.points[1].x, 30_000_000);
    assert_eq!(rec.points[1].y, 60_000_000);
}

#[test]
fn fill_record_follows_its_outline() {
    let text = doc(&format!(
        "<rect x=\"25.000\" y=\"25.000\" width=\"50.000\" height=\"50.000\" style=\"{FILLED}\"/>"
    ));
    let out = render_svg(&text).unwrap();
    assert_eq!(out.records.len(), 2);
    assert!(!out.records[0].is_fill);
    assert!(out.records[1].is_fill);
    assert_eq!(out.records[0].points.len(), 5);
    assert_eq!(out.records[1].points.len(), 49 * 49);
    for c in &out.records[1].points {
        assert!(25_000_000 < c.x && c.x < 75_000_000);
        assert!(25_000_000 < c.y && c.y < 75_000_000);
    }
}

#[test]
fn rect_without_fill_renders_outline_only() {
    let text = doc(&format!(
        "<rect x=\"25.000\" y=\"25.000\" width=\"50.000\" height=\"50.000\" style=\"{STROKED}\"/>"
    ));
    let out = render_svg(&text).unwrap();
    assert_eq!(out.records.len(), 1);
    assert!(!out.records[0].is_fill);
    let p = &out.records[0].points;
    assert_eq!(p.len(), 5);
    assert_eq!((p[0].x, p[0].y), (25_000_000, 75_000_000));
    assert_eq!((p[1].x, p[1].y), (75_000_000, 75_000_000));
    assert_eq!((p[2].x, p[2].y), (75_000_000, 25_000_000));
    assert_eq!((p[3].x, p[3].y), (25_000_000, 25_000_000));
    assert_eq!((p[4].x, p[4].y), (25_000_000, 75_000_000));
}

#[test]
fn line_renders_two_connected_points() {
    let text = doc(&format!(
        "<line x1=\"25.000\" y1=\"25.000\" x2=\"75.000\" y2=\"75.000\" style=\"{STROKED}\"/>"
    ));
    let out = render_svg(&text).unwrap();
    assert_eq!(out.records.len(), 1);
    let p = &out.records[0].points;
    assert_eq!(p.len(), 2);
    assert_eq!((p[0].x, p[0].y), (25_000_000, 75_000_000));
    assert_eq!((p[1].x, p[1].y), (75_000_000, 25_000_000));
    assert!(p[0].connect && p[1].connect);
}

#[test]
fn records_keep_document_order() {
    let text = doc(&format!(
        "<line x1=\"1.000\" y1=\"1.000\" x2=\"2.000\" y2=\"2.000\" style=\"{STROKED}\"/>\
         <path d=\"M 1.000 1.000 L 2.000 2.000\" style=\"{STROKED}\"/>\
         <rect x=\"1.000\" y=\"1.000\" width=\"2.000\" height=\"2.000\" style=\"{STROKED}\"/>"
    ));
    let out = render_svg(&text).unwrap();
    assert_eq!(out.records.len(), 3);
    assert_eq!(out.records[0].points.len(), 2);
    assert_eq!(out.records[1].points.len(), 2);
    assert_eq!(out.records[2].points.len(), 5);
}

#[test]
fn rendering_twice_is_identical() {
    let text = doc(&format!(
        "<path d=\"M 25.000 25.000 A 10.000 10.000 90.000 0 0 50.000 50.000\" style=\"{STROKED}\"/>\
         <rect x=\"25.000\" y=\"25.000\" width=\"50.000\" height=\"50.000\" style=\"{FILLED}\"/>"
    ));
    let a = render_svg(&text).unwrap();
    let b = render_svg(&text).unwrap();
    assert_eq!(a.records.len(), b.records.len());
    for (ra, rb) in a.records.iter().zip(b.records.iter()) {
        assert_eq!(ra.points, rb.points);
        assert_eq!(ra.style, rb.style);
        assert_eq!(ra.is_fill, rb.is_fill);
    }
    assert_eq!(a.issues, b.issues);
}

#[test]
fn zero_viewbox_width_is_degenerate_geometry() {
    let text = "<svg viewBox=\"0 0 0 100\"></svg>";
    assert_eq!(render_svg(text).unwrap_err(), SvgError::DegenerateGeometry);
}

#[test]
fn zero_viewbox_height_is_degenerate_geometry() {
    let text = "<svg viewBox=\"0 0 100 0\"></svg>";
    assert_eq!(render_svg(text).unwrap_err(), SvgError::DegenerateGeometry);
}

#[test]
fn missing_viewbox_is_malformed() {
    let text = "<svg width=\"100\"></svg>";
    assert_eq!(render_svg(text).unwrap_err(), SvgError::MalformedDocument);
}

#[test]
fn short_viewbox_is_malformed() {
    let text = "<svg viewBox=\"0 0 100\"></svg>";
    assert_eq!(render_svg(text).unwrap_err(), SvgError::MalformedDocument);
}

#[test]
fn unreadable_markup_is_malformed() {
    assert_eq!(render_svg("this is not markup").unwrap_err(), SvgError::MalformedDocument);
    assert_eq!(render_svg("<svg viewBox=\"0 0 1 1\">").unwrap_err(), SvgError::MalformedDocument);
}

#[test]
fn document_without_svg_root_is_malformed() {
    let text = "<rect x=\"1\" y=\"1\" width=\"1\" height=\"1\"/>";
    assert_eq!(render_svg(text).unwrap_err(), SvgError::MalformedDocument);
}

#[test]
fn a_bad_element_is_skipped_with_a_diagnostic() {
    let text = doc(&format!(
        "<path d=\"M 1.000 ?\" style=\"{STROKED}\"/>\
         <line x1=\"1.000\" y1=\"1.000\" x2=\"2.000\" y2=\"2.000\" style=\"{STROKED}\"/>"
    ));
    let out = render_svg(&text).unwrap();
    assert_eq!(out.records.len(), 1);
    assert_eq!(out.issues.len(), 1);
    assert_eq!(out.issues[0].element, 0);
    assert_eq!(out.issues[0].error, PathError::BadNumber);
}

#[test]
fn rect_with_missing_attributes_is_skipped() {
    let text = doc(&format!("<rect x=\"1.000\" style=\"{STROKED}\"/>"));
    let out = render_svg(&text).unwrap();
    assert_eq!(out.records.len(), 0);
    assert_eq!(out.issues.len(), 1);
    assert_eq!(out.issues[0].error, PathError::BadNumber);
}

#[test]
fn unknown_elements_are_ignored() {
    let text = doc(&format!(
        "<g><circle r=\"5\"/></g>\
         <line x1=\"1.000\" y1=\"1.000\" x2=\"2.000\" y2=\"2.000\" style=\"{STROKED}\"/>"
    ));
    let out = render_svg(&text).unwrap();
    assert_eq!(out.records.len(), 1);
    assert_eq!(out.issues.len(), 0);
}

#[test]
fn composed_documents_render_like_hand_built_ones() {
    let line = format!("<path d=\"M 10.000 20.000 L 30.000 40.000\" style=\"{STROKED}\"/>");
    let composed = compose_document(&vec![line.clone()]);
    assert_eq!(composed, doc(&line));
    let out = render_svg(&composed).unwrap();
    assert_eq!(out.records.len(), 1);
    assert_eq!(out.records[0].points.len(), 2);
}

#[test]
fn viewbox_scales_coordinates() {
    let text = "<svg viewBox=\"0 0 200 50\">\
        <line x1=\"100.000\" y1=\"25.000\" x2=\"200.000\" y2=\"50.000\" style=\"s\"/></svg>";
    let out = render_svg(text).unwrap();
    let p = &out.records[0].points;
    assert_eq!((p[0].x, p[0].y), (50_000_000, 50_000_000));
    assert_eq!((p[1].x, p[1].y), (100_000_000, 0));
}
