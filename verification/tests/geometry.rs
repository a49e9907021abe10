//! Unit tests for the numeric, tokenizing and transform layers.

use svg_render::model::{PathError, Transform};
use svg_render::num::parse_fixed;
use svg_render::path::tokenize_path;
use svg_render::transform::{apply_transform, parse_transform};
use svg_render::trig::{cos_fx, sin_fx, sqrt_fx, tan_fx};
use svg_render::bezier::{cubic_bezier_curve, quadratic_bezier_curve};

#[test]
fn parse_plain_numbers() {
    assert_eq!(parse_fixed("50.000"), Some(50_000_000));
    assert_eq!(parse_fixed("0"), Some(0));
    assert_eq!(parse_fixed("-1.5"), Some(-1_500_000));
    assert_eq!(parse_fixed(".5"), Some(500_000));
    assert_eq!(parse_fixed("5."), Some(5_000_000));
    assert_eq!(parse_fixed("+2"), Some(2_000_000));
    assert_eq!(parse_fixed("123.456789"), Some(123_456_789));
}

#[test]
fn parse_truncates_extra_fraction_digits() {
    assert_eq!(parse_fixed("1.0000019"), Some(1_000_001));
    assert_eq!(parse_fixed("-1.0000019"), Some(-1_000_001));
}

#[test]
fn parse_rejects_non_numbers() {
    assert_eq!(parse_fixed(""), None);
    assert_eq!(parse_fixed("-"), None);
    assert_eq!(parse_fixed("."), None);
    assert_eq!(parse_fixed("1e5"), None);
    assert_eq!(parse_fixed("--1"), None);
    assert_eq!(parse_fixed("1.2.3"), None);
    assert_eq!(parse_fixed("nan"), None);
    assert_eq!(parse_fixed("1234567890123"), None);
}

#[test]
fn tokenize_groups_commands_and_arguments() {
    let groups = tokenize_path("M 1 2 L 3 4").unwrap();
    assert_eq!(groups.len(), 2);
    assert_eq!(groups[0].cmd, "M");
    assert_eq!(groups[0].args, vec![1_000_000, 2_000_000]);
    assert_eq!(groups[1].cmd, "L");
    assert_eq!(groups[1].args, vec![3_000_000, 4_000_000]);
}

#[test]
fn tokenize_rejects_trailing_separator() {
    assert_eq!(tokenize_path("M 1 2 ").unwrap_err(), PathError::EmptyToken);
    assert_eq!(tokenize_path("").unwrap_err(), PathError::EmptyToken);
    assert_eq!(tokenize_path("M  1").unwrap_err(), PathError::EmptyToken);
}

#[test]
fn tokenize_rejects_leading_arguments() {
    assert_eq!(tokenize_path("1 2 M 3 4").unwrap_err(), PathError::MissingCommand);
}

#[test]
fn tokenize_rejects_bad_numbers() {
    assert_eq!(tokenize_path("M 1 ?").unwrap_err(), PathError::BadNumber);
    assert_eq!(tokenize_path("M 1 2.3.4").unwrap_err(), PathError::BadNumber);
}

#[test]
fn transform_empty_is_identity() {
    assert_eq!(parse_transform(""), Ok(Transform::Identity));
}

#[test]
fn transform_recognized_forms() {
    assert_eq!(
        parse_transform("rotate(90)"),
        Ok(Transform::Rotate(90_000_000))
    );
    assert_eq!(
        parse_transform("translate(10, 5)"),
        Ok(Transform::Translate(10_000_000, 5_000_000))
    );
    assert_eq!(
        parse_transform("translate(10)"),
        Ok(Transform::Translate(10_000_000, 0))
    );
    assert_eq!(
        parse_transform("scale(2)"),
        Ok(Transform::Scale(2_000_000, 2_000_000))
    );
    assert_eq!(
        parse_transform("scale(2 3)"),
        Ok(Transform::Scale(2_000_000, 3_000_000))
    );
    assert_eq!(
        parse_transform("matrix(1, 0, 0, 1, 5, 5)"),
        Ok(Transform::Matrix(1_000_000, 0, 0, 1_000_000, 5_000_000, 5_000_000))
    );
    assert_eq!(parse_transform("skewX(45)"), Ok(Transform::SkewX(45_000_000)));
    assert_eq!(parse_transform("skewY(45)"), Ok(Transform::SkewY(45_000_000)));
}

#[test]
fn transform_unrecognized_is_kept_distinguishable() {
    assert_eq!(parse_transform("frobnicate(3)"), Ok(Transform::Unsupported));
    assert_eq!(parse_transform("none"), Ok(Transform::Unsupported));
}

#[test]
fn transform_malformed_arguments_are_errors() {
    assert_eq!(parse_transform("matrix(1, 2)"), Err(PathError::BadTransform));
    assert_eq!(parse_transform("rotate()"), Err(PathError::BadTransform));
    assert_eq!(parse_transform("rotate(x)"), Err(PathError::BadTransform));
    assert_eq!(parse_transform("rotate(90"), Err(PathError::BadTransform));
}

#[test]
fn apply_translate_divides_by_scales() {
    // a 200-wide viewBox halves every source unit
    let t = parse_transform("translate(10, 20)").unwrap();
    let (x, y) = apply_transform(&t, 1_000_000, 2_000_000, 200_000_000, 100_000_000);
    assert_eq!(x, 1_000_000 + 5_000_000);
    assert_eq!(y, 2_000_000 + 20_000_000);
}

#[test]
fn apply_matrix_uses_untransformed_inputs_for_both_axes() {
    // y' must come from the untransformed x: with b = 1 and d = 0,
    // y' equals the untransformed x exactly
    let t = parse_transform("matrix(0, 1, 0, 0, 0, 0)").unwrap();
    let (x, y) = apply_transform(&t, 3_000_000, 7_000_000, 100_000_000, 100_000_000);
    assert_eq!(x, 0);
    assert_eq!(y, 3_000_000);
}

#[test]
fn apply_rotate_quarter_turn() {
    let t = parse_transform("rotate(90)").unwrap();
    let (x, y) = apply_transform(&t, 1_000_000, 0, 100_000_000, 100_000_000);
    assert!(x.abs() <= 10, "x was {x}");
    assert!((y - 1_000_000).abs() <= 10, "y was {y}");
}

#[test]
fn trig_exact_anchors() {
    assert_eq!(sin_fx(0), 0);
    assert_eq!(cos_fx(0), 1_000_000);
    assert!((sin_fx(1_570_796) - 1_000_000).abs() <= 10);
    assert!(cos_fx(1_570_796).abs() <= 10);
    assert!(tan_fx(785_398).abs() - 1_000_000 <= 10);
    assert_eq!(sqrt_fx(4_000_000), 2_000_000);
    assert_eq!(sqrt_fx(0), 0);
    assert_eq!(sqrt_fx(-5), 0);
}

#[test]
fn bezier_endpoints_and_midpoint() {
    let s = (0, 0);
    let c = (50_000_000, 100_000_000);
    let e = (100_000_000, 0);
    let p0 = quadratic_bezier_curve(s, c, e, 0);
    assert_eq!(p0, (0, 0));
    let mid = quadratic_bezier_curve(s, c, e, 50);
    assert_eq!(mid.0, 50_000_000);
    assert_eq!(mid.1, 50_000_000);
    let c1 = (0, 100_000_000);
    let c2 = (100_000_000, 100_000_000);
    let q0 = cubic_bezier_curve(s, c1, c2, e, 0);
    assert_eq!(q0, (0, 0));
    let qm = cubic_bezier_curve(s, c1, c2, e, 50);
    assert_eq!(qm.0, 50_000_000);
    assert_eq!(qm.1, 75_000_000);
}
