//! Tests of the path interpreter: sampling counts, closure, subpath
//! breaks and the straight-line round trip.

use svg_render::model::{FxPoint, PathError};
use svg_render::path::draw_path;

const W: i64 = 100_000_000;
const H: i64 = 100_000_000;

fn outline(d: &str) -> Vec<FxPoint> {
    draw_path(d, "", "stroke: rgb(0, 0, 0); fill: none;", W, H)
        .unwrap()
        .0
}

#[test]
fn straight_line_round_trip() {
    let pts = outline("M 10.000 20.000 L 30.000 40.000");
    assert_eq!(pts.len(), 2);
    assert_eq!(pts[0], FxPoint { x: 10_000_000, y: 80_000_000, connect: true });
    assert_eq!(pts[1], FxPoint { x: 30_000_000, y: 60_000_000, connect: true });
}

#[test]
fn cubic_samples_exactly_one_hundred_points() {
    let pts = outline("M 0.000 0.000 C 10.000 10.000 20.000 10.000 30.000 0.000");
    assert_eq!(pts.len(), 1 + 100);
}

#[test]
fn quadratic_samples_exactly_one_hundred_points() {
    let pts = outline("M 0.000 0.000 Q 10.000 10.000 20.000 0.000");
    assert_eq!(pts.len(), 1 + 100);
}

#[test]
fn smooth_curves_sample_exactly_one_hundred_points() {
    let pts = outline(
        "M 0.000 0.000 C 10.000 10.000 20.000 10.000 30.000 0.000 S 50.000 10.000 60.000 0.000",
    );
    assert_eq!(pts.len(), 1 + 100 + 100);
    let pts = outline("M 0.000 0.000 Q 10.000 10.000 20.000 0.000 T 40.000 0.000");
    assert_eq!(pts.len(), 1 + 100 + 100);
}

#[test]
fn arc_samples_one_hundred_and_one_points() {
    let pts = outline("M 25.000 25.000 A 10.000 10.000 90.000 0 0 50.000 50.000");
    assert_eq!(pts.len(), 1 + 101);
}

#[test]
fn closing_returns_to_the_first_point() {
    let pts = outline(
        "M 25.000 25.000 L 75.000 25.000 L 75.000 75.000 L 25.000 75.000 Z",
    );
    let first = pts[0];
    let last = pts[pts.len() - 1];
    assert_eq!(first.x, last.x);
    assert_eq!(first.y, last.y);
    assert!(last.connect);
}

#[test]
fn second_move_is_a_pen_up_break() {
    let pts = outline("M 10.000 10.000 L 20.000 10.000 M 30.000 30.000 L 40.000 40.000");
    assert_eq!(pts.len(), 4);
    assert!(pts[0].connect);
    assert!(pts[1].connect);
    assert!(!pts[2].connect);
    assert!(pts[3].connect);
}

#[test]
fn horizontal_and_vertical_inherit_the_other_axis() {
    let pts = outline("M 50.000 75.000 V 25.000 M 25.000 50.000 H 75.000");
    assert_eq!(pts.len(), 4);
    // V keeps x, changes y
    assert_eq!(pts[1].x, 50_000_000);
    assert_eq!(pts[1].y, 75_000_000);
    // H keeps y, changes x
    assert_eq!(pts[3].x, 75_000_000);
    assert_eq!(pts[3].y, 50_000_000);
}

#[test]
fn arc_endpoints_match_within_tolerance() {
    let pts = outline("M 25.000 25.000 A 10.000 10.000 90.000 0 0 50.000 50.000");
    let first_arc = pts[1];
    let last_arc = pts[pts.len() - 1];
    assert!((first_arc.x - 25_000_000).abs() <= 1_000, "x0 {}", first_arc.x);
    assert!((first_arc.y - 75_000_000).abs() <= 1_000, "y0 {}", first_arc.y);
    assert!((last_arc.x - 50_000_000).abs() <= 1_000, "x1 {}", last_arc.x);
    assert!((last_arc.y - 50_000_000).abs() <= 1_000, "y1 {}", last_arc.y);
}

#[test]
fn circular_arc_stays_on_the_circle() {
    // rx = ry and no rotation: every sample keeps the corrected radius
    let pts = outline("M 25.000 25.000 A 10.000 10.000 0.000 0 1 50.000 50.000");
    assert_eq!(pts.len(), 1 + 101);
    let first_arc = pts[1];
    let last_arc = pts[pts.len() - 1];
    assert!((first_arc.x - 25_000_000).abs() <= 1_000);
    assert!((first_arc.y - 75_000_000).abs() <= 1_000);
    assert!((last_arc.x - 50_000_000).abs() <= 1_000);
    assert!((last_arc.y - 50_000_000).abs() <= 1_000);
}

#[test]
fn unknown_commands_are_ignored() {
    let pts = outline("M 10.000 10.000 X 5.000 L 20.000 10.000");
    assert_eq!(pts.len(), 2);
}

#[test]
fn too_few_arguments_is_an_error() {
    let r = draw_path("M 1.000", "", "", W, H);
    assert_eq!(r.unwrap_err(), PathError::MissingArgs);
}

#[test]
fn close_before_any_move_is_an_error() {
    let r = draw_path("Z", "", "", W, H);
    assert_eq!(r.unwrap_err(), PathError::NoSubpathStart);
}

#[test]
fn zero_radius_arc_is_degenerate() {
    let r = draw_path("M 0.000 0.000 A 0.000 10.000 0.000 0 0 10.000 10.000", "", "", W, H);
    assert_eq!(r.unwrap_err(), PathError::DegenerateArc);
}

#[test]
fn bad_transform_fails_the_element() {
    let r = draw_path("M 0.000 0.000", "matrix(1)", "", W, H);
    assert_eq!(r.unwrap_err(), PathError::BadTransform);
}

#[test]
fn path_fill_cells_stay_inside_the_outline_box() {
    let (pts, fill) = draw_path(
        "M 25.000 25.000 L 75.000 25.000 L 75.000 75.000 L 25.000 75.000 Z",
        "",
        "stroke: rgb(0, 0, 0); fill: rgb(9, 9, 9);",
        W,
        H,
    )
    .unwrap();
    assert!(!pts.is_empty());
    let fill = fill.expect("a fill-styled path rasterizes its interior");
    assert_eq!(fill.len(), 49 * 49);
    for c in &fill {
        assert!(25_000_000 < c.x && c.x < 75_000_000);
        assert!(25_000_000 < c.y && c.y < 75_000_000);
        assert!(c.connect);
    }
}

#[test]
fn no_fill_style_means_no_fill_points() {
    let (_, fill) = draw_path(
        "M 25.000 25.000 L 75.000 75.000",
        "",
        "stroke: rgb(0, 0, 0); fill: none;",
        W,
        H,
    )
    .unwrap();
    assert!(fill.is_none());
}

#[test]
fn translate_shifts_every_point() {
    let pts = draw_path(
        "M 10.000 10.000 L 20.000 20.000",
        "translate(5, 5)",
        "",
        W,
        H,
    )
    .unwrap()
    .0;
    assert_eq!(pts[0], FxPoint { x: 15_000_000, y: 85_000_000, connect: true });
    assert_eq!(pts[1], FxPoint { x: 25_000_000, y: 75_000_000, connect: true });
}
