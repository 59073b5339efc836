use helix_lsp::changeset::{apply, Operation};
use helix_lsp::framing::parse_content_length;
use helix_lsp::message::{
    method_call_kind, notification_kind, MethodCallKind, NotificationKind, PendingRequests,
};

#[test]
fn method_names_pick_handlers() {
    assert_eq!(
        method_call_kind("window/workDoneProgress/create"),
        Some(MethodCallKind::WorkDoneProgressCreate)
    );
    assert_eq!(method_call_kind("workspace/configuration"), None);
    assert_eq!(notification_kind("initialized"), Some(NotificationKind::Initialized));
    assert_eq!(
        notification_kind("textDocument/publishDiagnostics"),
        Some(NotificationKind::PublishDiagnostics)
    );
    assert_eq!(notification_kind("window/showMessage"), Some(NotificationKind::ShowMessage));
    assert_eq!(notification_kind("window/logMessage"), Some(NotificationKind::LogMessage));
    assert_eq!(notification_kind("$/progress"), Some(NotificationKind::ProgressMessage));
    assert_eq!(notification_kind("telemetry/event"), None);
    assert_eq!(notification_kind(""), None);
}

#[test]
fn responses_in_reverse_order_reach_their_own_requests() {
    let n: u64 = 41;
    let mut pending: PendingRequests<&str> = PendingRequests::new();
    pending.insert(n, "first caller");
    pending.insert(n + 1, "second caller");
    assert!(pending.contains(n) && pending.contains(n + 1));
    // the response to the later request arrives first
    assert_eq!(pending.take(n + 1), Some("second caller"));
    assert_eq!(pending.take(n), Some("first caller"));
    // each response is delivered once
    assert_eq!(pending.take(n), None);
    assert!(!pending.contains(n + 1));
}

#[test]
fn content_length_headers() {
    assert_eq!(parse_content_length(b"Content-Length: 123"), Some(123));
    assert_eq!(parse_content_length(b"Content-Length: 0"), Some(0));
    assert_eq!(parse_content_length(b"Content-Length: "), None);
    assert_eq!(parse_content_length(b"Content-Length: 12a"), None);
    assert_eq!(parse_content_length(b"Content-Type: application/json"), None);
    assert_eq!(parse_content_length(b"content-length: 5"), None);
    assert_eq!(parse_content_length(b"Content-Length: 99999999999999999999999"), None);
}

#[test]
fn operations_apply_to_old_text() {
    let old: Vec<char> = "abc".chars().collect();
    let ops = vec![
        Operation::Retain(1),
        Operation::Delete(1),
        Operation::Insert("xy".to_string()),
        Operation::Retain(1),
    ];
    assert_eq!(apply(&old, &ops), Some("axyc".chars().collect()));
    // too short and too long
    assert_eq!(apply(&old, &[Operation::Retain(2)]), None);
    assert_eq!(apply(&old, &[Operation::Retain(2), Operation::Delete(2)]), None);
    assert_eq!(apply(&[], &[Operation::Insert("z".to_string())]), Some(vec!['z']));
}
