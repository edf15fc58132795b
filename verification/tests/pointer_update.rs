use mzjd::{parse_index, parse_pointer, render_index, render_pointer, UpdateService};

#[test]
fn parse_empty_pointer_is_root() {
    let segs = parse_pointer("").unwrap();
    assert!(segs.is_empty());
}

#[test]
fn parse_pointer_splits_segments() {
    let segs = parse_pointer("/a/b/0").unwrap();
    assert_eq!(segs, vec!["a".to_string(), "b".to_string(), "0".to_string()]);
}

#[test]
fn parse_pointer_keeps_empty_segments() {
    let segs = parse_pointer("/").unwrap();
    assert_eq!(segs, vec!["".to_string()]);
    let segs = parse_pointer("//x").unwrap();
    assert_eq!(segs, vec!["".to_string(), "x".to_string()]);
}

#[test]
fn parse_pointer_without_leading_slash_fails() {
    assert!(parse_pointer("a/b").is_none());
    assert!(parse_pointer("x").is_none());
}

#[test]
fn render_pointer_round_trip() {
    let segs = vec!["a".to_string(), "b".to_string(), "3".to_string()];
    let s = render_pointer(&segs);
    assert_eq!(s, "/a/b/3");
    assert_eq!(parse_pointer(&s).unwrap(), segs);
    assert_eq!(render_pointer(&Vec::new()), "");
}

#[test]
fn parse_index_accepts_plain_decimals() {
    assert_eq!(parse_index("0"), Some(0));
    assert_eq!(parse_index("42"), Some(42));
    assert_eq!(parse_index("9007"), Some(9007));
}

#[test]
fn parse_index_rejects_malformed_segments() {
    assert_eq!(parse_index(""), None);
    assert_eq!(parse_index("a"), None);
    assert_eq!(parse_index("01"), None);
    assert_eq!(parse_index("-1"), None);
    assert_eq!(parse_index("1x"), None);
    // A value beyond usize is not an index either.
    assert_eq!(parse_index("99999999999999999999999999"), None);
}

#[test]
fn render_index_writes_decimal() {
    assert_eq!(render_index(0), "0");
    assert_eq!(render_index(7), "7");
    assert_eq!(render_index(120), "120");
}

#[test]
fn update_service_reset_on_marker_change() {
    let svc = UpdateService { marker: "main-v2".to_string(), index: Vec::new() };
    assert!(svc.needs_reset(&"main-v1".to_string()));
    assert!(!svc.needs_reset(&"main-v2".to_string()));
}

#[test]
fn update_service_pending_from_counter() {
    let svc = UpdateService {
        marker: "m".to_string(),
        index: vec!["u0".to_string(), "u1".to_string(), "u2".to_string()],
    };
    assert_eq!(svc.pending(0), vec!["u0".to_string(), "u1".to_string(), "u2".to_string()]);
    assert_eq!(svc.pending(2), vec!["u2".to_string()]);
    assert_eq!(svc.pending(3), Vec::<String>::new());
    assert_eq!(svc.pending(10), Vec::<String>::new());
}
