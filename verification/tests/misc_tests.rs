use mako_rs::server::{get_capabilities, get_server_information};
use mako_rs::timeout::resolve_timeout;

#[test]
fn positive_timeout_is_taken_as_is() {
    assert_eq!(resolve_timeout(1500, None), Some(1500));
    assert_eq!(resolve_timeout(1, Some(2)), Some(1));
    assert_eq!(resolve_timeout(i32::MAX, None), Some(i32::MAX as u32));
}

#[test]
fn zero_timeout_means_never() {
    assert_eq!(resolve_timeout(0, None), None);
    assert_eq!(resolve_timeout(0, Some(0)), None);
}

#[test]
fn server_decides_by_urgency() {
    assert_eq!(resolve_timeout(-1, None), Some(5000));
    assert_eq!(resolve_timeout(-1, Some(0)), Some(5000));
    assert_eq!(resolve_timeout(-1, Some(1)), Some(5000));
    assert_eq!(resolve_timeout(-1, Some(2)), None);
    assert_eq!(resolve_timeout(i32::MIN, Some(200)), None);
}

#[test]
fn capabilities_and_information() {
    assert_eq!(get_capabilities(), vec!["body"]);
    assert_eq!(get_server_information(), ("rust-mako", "ar175", "0.1.0", "1.2"));
}
