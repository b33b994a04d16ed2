use git_graph::checkout::{checkout_failure, checkout_target};
use git_graph::diff::{diff_targets, get_diff};
use git_graph::model::{DeltaInfo, GraphError};

fn delta(old: Option<&str>, new: Option<&str>, ob: Option<&[u8]>, nb: Option<&[u8]>) -> DeltaInfo {
    DeltaInfo {
        old_path: old.map(|s| s.to_string()),
        new_path: new.map(|s| s.to_string()),
        old_blob: ob.map(|b| b.to_vec()),
        new_blob: nb.map(|b| b.to_vec()),
    }
}

const HEX: &str = "0123456789abcdef0123456789abcdef01234567";

#[test]
fn diff_entries_carry_whole_texts() {
    let ds = vec![
        delta(Some("a.txt"), Some("a.txt"), Some(b"one\n"), Some(b"two\n")),
        delta(Some("new.txt"), Some("new.txt"), None, Some(b"hello")),
        delta(Some("gone.txt"), Some("gone.txt"), Some(b"bye"), None),
        delta(Some("old.txt"), None, Some(b"x"), None),
        delta(None, None, None, None),
    ];
    let r = get_diff(&ds);
    let got: Vec<(&str, &str, &str)> =
        r.files.iter().map(|f| (f.path.as_str(), f.old_content.as_str(), f.new_content.as_str())).collect();
    assert_eq!(
        got,
        vec![
            ("a.txt", "one\n", "two\n"),
            ("new.txt", "", "hello"),
            ("gone.txt", "bye", ""),
            ("old.txt", "x", ""),
            ("unknown", "", ""),
        ]
    );
}

#[test]
fn diff_decodes_invalid_utf8_lossily() {
    let ds = vec![delta(Some("b.bin"), Some("b.bin"), Some(&[0x66, 0xff, 0x6f]), Some("é".as_bytes()))];
    let r = get_diff(&ds);
    assert_eq!(r.files[0].old_content, "f\u{fffd}o");
    assert_eq!(r.files[0].new_content, "é");
}

#[test]
fn diff_swaps_sides() {
    let ds = vec![
        delta(Some("a"), Some("a"), Some(b"1"), Some(b"2")),
        delta(Some("b"), Some("b"), None, Some(b"3")),
    ];
    let back: Vec<DeltaInfo> = ds
        .iter()
        .map(|d| DeltaInfo {
            old_path: d.new_path.clone(),
            new_path: d.old_path.clone(),
            old_blob: d.new_blob.clone(),
            new_blob: d.old_blob.clone(),
        })
        .collect();
    let r1 = get_diff(&ds);
    let r2 = get_diff(&back);
    assert_eq!(r1.files.len(), r2.files.len());
    for (a, b) in r1.files.iter().zip(r2.files.iter()) {
        assert_eq!(a.path, b.path);
        assert_eq!(a.old_content, b.new_content);
        assert_eq!(a.new_content, b.old_content);
    }
}

#[test]
fn diff_refuses_working_copy() {
    assert!(matches!(diff_targets(HEX, "working-copy"), Err(GraphError::DiffWithWorkingCopy)));
    assert!(matches!(diff_targets("working-copy", HEX), Err(GraphError::DiffWithWorkingCopy)));
    assert!(matches!(diff_targets("working-copy", "zz"), Err(GraphError::DiffWithWorkingCopy)));
    let e = diff_targets(HEX, "working-copy").err().unwrap();
    assert_eq!(e.message(), "Cannot diff with working-copy. Please select real commits.");
}

#[test]
fn diff_ids_must_parse() {
    match diff_targets("xyz", HEX) {
        Err(GraphError::InvalidId { id, .. }) => assert_eq!(id, "xyz"),
        _ => panic!("expected an invalid id"),
    }
    match diff_targets(HEX, "") {
        Err(GraphError::InvalidId { id, .. }) => assert_eq!(id, ""),
        _ => panic!("expected an invalid id"),
    }
    let long = format!("{}0", HEX);
    assert!(matches!(diff_targets(&long, HEX), Err(GraphError::InvalidId { .. })));
    let (a, b) = diff_targets(HEX, "ABC").ok().unwrap();
    assert_eq!(a.to_string(), HEX);
    assert_eq!(b.to_string(), "abc0000000000000000000000000000000000000");
}

#[test]
fn checkout_refuses_working_copy_and_bad_ids() {
    let e = checkout_target("working-copy").err().unwrap();
    assert!(matches!(e, GraphError::CheckoutWorkingCopy));
    assert_eq!(e.message(), "Cannot checkout working-copy");
    let e = checkout_target("g00d").err().unwrap();
    match &e {
        GraphError::InvalidId { id, reason } => {
            assert_eq!(id, "g00d");
            assert!(!reason.is_empty());
            assert_eq!(e.message(), format!("Invalid commit ID 'g00d': {}", reason));
        }
        _ => panic!("expected an invalid id"),
    }
    assert_eq!(checkout_target(HEX).ok().unwrap().to_string(), HEX);
}

#[test]
fn checkout_failures_are_classified() {
    let e = checkout_failure("1 conflict prevents checkout");
    assert!(matches!(e, GraphError::WouldOverwrite));
    assert_eq!(
        e.message(),
        "Cannot checkout: You have uncommitted changes that would be overwritten. Please commit or stash your changes first."
    );
    assert!(matches!(checkout_failure("the index is dirty"), GraphError::WouldOverwrite));
    let e = checkout_failure("object not found");
    match &e {
        GraphError::CheckoutFailed { reason } => assert_eq!(reason, "object not found"),
        _ => panic!("expected a plain failure"),
    }
    assert_eq!(e.message(), "Failed to checkout commit: object not found");
    assert!(matches!(checkout_failure(""), GraphError::CheckoutFailed { .. }));
}
