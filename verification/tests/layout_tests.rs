use mako_rs::config::{MAX_BUFFER_HEIGHT, MIN_HEIGHT};
use mako_rs::layout::{clamp_height, fit_lines_to_height, NotificationLayout};
use mako_rs::text::ELLIPSIS;

fn at_most(n: usize) -> impl Fn(&str) -> bool {
    move |s: &str| s.chars().count() <= n
}

fn strings(v: &[&str]) -> Vec<String> {
    v.iter().map(|s| s.to_string()).collect()
}

fn cut(s: &str) -> String {
    format!("{}{}", s, ELLIPSIS)
}

#[test]
fn height_is_clamped() {
    assert_eq!(clamp_height(10), MIN_HEIGHT);
    assert_eq!(clamp_height(80), 80);
    assert_eq!(clamp_height(500), 500);
    assert_eq!(clamp_height(5000), MAX_BUFFER_HEIGHT);
    assert_eq!(clamp_height(i32::MIN), MIN_HEIGHT);
}

#[test]
fn layout_keeps_lines_and_clamps_height() {
    let l = NotificationLayout::new(strings(&["s"]), strings(&["b1", "b2"]), 12);
    assert_eq!(l.summary_lines, strings(&["s"]));
    assert_eq!(l.body_lines, strings(&["b1", "b2"]));
    assert_eq!(l.height, MIN_HEIGHT);
}

#[test]
fn everything_kept_when_there_is_room() {
    let (s, b) = fit_lines_to_height(
        strings(&["a", "b"]),
        strings(&["c"]),
        2,
        1,
        &at_most(10),
        &at_most(10),
    );
    assert_eq!(s, strings(&["a", "b"]));
    assert_eq!(b, strings(&["c"]));
}

#[test]
fn long_summary_is_cut_and_body_dropped() {
    let (s, b) = fit_lines_to_height(
        strings(&["one", "two", "three"]),
        strings(&["body"]),
        2,
        5,
        &at_most(3),
        &at_most(10),
    );
    assert_eq!(s, strings(&["one", &cut("tw")]));
    assert!(b.is_empty());
}

#[test]
fn no_room_for_summary_drops_all() {
    let (s, b) = fit_lines_to_height(
        strings(&["one"]),
        strings(&["body"]),
        0,
        5,
        &at_most(10),
        &at_most(10),
    );
    assert!(s.is_empty());
    assert!(b.is_empty());
}

#[test]
fn no_body_keeps_summary() {
    let (s, b) = fit_lines_to_height(strings(&["x"]), Vec::new(), 3, 0, &at_most(10), &at_most(10));
    assert_eq!(s, strings(&["x"]));
    assert!(b.is_empty());
}

#[test]
fn long_body_is_cut() {
    let (s, b) = fit_lines_to_height(
        strings(&["sum"]),
        strings(&["l1", "l2", "l3"]),
        1,
        2,
        &at_most(10),
        &at_most(2),
    );
    assert_eq!(s, strings(&["sum"]));
    assert_eq!(b, strings(&["l1", &cut("l")]));
}

#[test]
fn no_room_for_body_ends_summary_with_ellipsis() {
    let (s, b) = fit_lines_to_height(
        strings(&["sum"]),
        strings(&["l1"]),
        1,
        0,
        &at_most(10),
        &at_most(10),
    );
    assert_eq!(s, strings(&[&cut("sum")]));
    assert!(b.is_empty());
}
