use helix_lsp::changeset::Operation;
use helix_lsp::client::{
    formatting_edits, Client, Phase, ProviderCapability, ServerCapabilities, TextDocumentSyncCapability,
    TextDocumentSyncKind, TextDocumentSyncOptions, TextDocumentSyncSaveOptions,
};
use helix_lsp::lsp;
use helix_lsp::{Error, OffsetEncoding};

fn chars(s: &str) -> Vec<char> {
    s.chars().collect()
}

fn caps(sync: Option<TextDocumentSyncCapability>) -> ServerCapabilities {
    ServerCapabilities {
        text_document_sync: sync,
        document_formatting_provider: None,
        document_range_formatting_provider: None,
    }
}

fn ready(c: ServerCapabilities) -> Client {
    let mut client = Client::new(3);
    assert!(client.set_capabilities(c).is_ok());
    client
}

#[test]
fn new_connection_state() {
    let client = Client::new(7);
    assert_eq!(client.id(), 7);
    assert_eq!(client.offset_encoding(), OffsetEncoding::Utf8);
    assert!(!client.is_initialized());
    assert_eq!(client.requests_issued(), 0);
}

#[test]
fn request_ids_are_consecutive_and_distinct() {
    let mut client = Client::new(0);
    let first = client.next_request_id();
    let second = client.next_request_id();
    assert_eq!(second, first + 1);
    assert_ne!(first, second);
    assert_eq!(client.requests_issued(), 2);
}

#[test]
fn not_ready_before_handshake() {
    // no handshake completed: every gated call reports that, none answers
    // with a default
    let client = Client::new(1);
    assert!(matches!(client.capabilities(), Err(Error::NotInitialized)));
    assert!(matches!(client.supports_formatting(), Err(Error::NotInitialized)));
    assert!(matches!(client.supports_range_formatting(), Err(Error::NotInitialized)));
    assert!(matches!(client.text_document_did_save(&chars("x")), Err(Error::NotInitialized)));
    let r = client.text_document_did_change(&chars("a"), &chars("a"), &[Operation::Retain(1)]);
    assert!(matches!(r, Err(Error::NotInitialized)));
}

#[test]
fn capabilities_are_set_once() {
    let mut client = Client::new(1);
    let first = caps(Some(TextDocumentSyncCapability::Kind(TextDocumentSyncKind::Full)));
    let second = caps(None);
    assert!(client.set_capabilities(first).is_ok());
    assert!(client.is_initialized());
    assert_eq!(client.set_capabilities(second), Err(second));
    assert_eq!(*client.capabilities().unwrap(), first);
}

#[test]
fn formatting_without_support_gives_no_edits() {
    let client = ready(caps(None));
    assert!(matches!(client.supports_formatting(), Ok(false)));
    assert!(matches!(client.supports_range_formatting(), Ok(false)));
    assert!(formatting_edits(None).is_empty());
}

#[test]
fn formatting_with_support() {
    let mut c = caps(None);
    c.document_formatting_provider = Some(ProviderCapability::Options);
    c.document_range_formatting_provider = Some(ProviderCapability::Flag(true));
    let client = ready(c);
    assert!(matches!(client.supports_formatting(), Ok(true)));
    assert!(matches!(client.supports_range_formatting(), Ok(true)));
    let mut c = caps(None);
    c.document_formatting_provider = Some(ProviderCapability::Flag(false));
    assert!(matches!(ready(c).supports_formatting(), Ok(false)));
    let edit = lsp::TextEdit {
        range: lsp::Range::new(lsp::Position::new(0, 0), lsp::Position::new(0, 1)),
        new_text: "z".to_string(),
    };
    let edits = formatting_edits(Some(vec![edit]));
    assert_eq!(edits.len(), 1);
    assert_eq!(edits[0].new_text, "z");
}

#[test]
fn did_change_follows_sync_kind() {
    let old = chars("abc");
    let new = chars("axc");
    let ops = vec![
        Operation::Retain(1),
        Operation::Delete(1),
        Operation::Insert("x".to_string()),
        Operation::Retain(1),
    ];
    let none = ready(caps(None));
    assert!(matches!(none.text_document_did_change(&old, &new, &ops), Ok(None)));
    let off = ready(caps(Some(TextDocumentSyncCapability::Kind(TextDocumentSyncKind::Disabled))));
    assert!(matches!(off.text_document_did_change(&old, &new, &ops), Ok(None)));
    let full = ready(caps(Some(TextDocumentSyncCapability::Kind(TextDocumentSyncKind::Full))));
    let events = full.text_document_did_change(&old, &new, &ops).unwrap().unwrap();
    assert_eq!(events.len(), 1);
    assert_eq!(events[0].range, None);
    assert_eq!(events[0].text, "axc");
    let incremental = ready(caps(Some(TextDocumentSyncCapability::Options(
        TextDocumentSyncOptions { change: Some(TextDocumentSyncKind::Incremental), save: None },
    ))));
    let events = incremental.text_document_did_change(&old, &new, &ops).unwrap().unwrap();
    assert_eq!(events.len(), 1);
    assert_eq!(events[0].text, "x");
    let no_change = ready(caps(Some(TextDocumentSyncCapability::Options(
        TextDocumentSyncOptions { change: None, save: None },
    ))));
    assert!(matches!(no_change.text_document_did_change(&old, &new, &ops), Ok(None)));
}

#[test]
fn did_save_follows_save_options() {
    let text = chars("body");
    let with = |save| {
        ready(caps(Some(TextDocumentSyncCapability::Options(TextDocumentSyncOptions {
            change: None,
            save,
        }))))
    };
    assert!(matches!(ready(caps(None)).text_document_did_save(&text), Ok(None)));
    assert!(matches!(with(None).text_document_did_save(&text), Ok(None)));
    assert!(matches!(
        with(Some(TextDocumentSyncSaveOptions::Supported(false))).text_document_did_save(&text),
        Ok(None)
    ));
    assert!(matches!(
        with(Some(TextDocumentSyncSaveOptions::Supported(true))).text_document_did_save(&text),
        Ok(Some(None))
    ));
    let r = with(Some(TextDocumentSyncSaveOptions::SaveOptions { include_text: Some(true) }))
        .text_document_did_save(&text)
        .unwrap();
    assert_eq!(r, Some(Some("body".to_string())));
    let r = with(Some(TextDocumentSyncSaveOptions::SaveOptions { include_text: None }))
        .text_document_did_save(&text)
        .unwrap();
    assert_eq!(r, Some(None));
}

#[test]
fn lifecycle_gates_calls() {
    let mut client = Client::new(2);
    assert_eq!(client.phase(), Phase::Spawned);
    assert!(client.begin_initialize());
    assert_eq!(client.phase(), Phase::Initializing);
    assert!(!client.begin_initialize());
    assert!(matches!(client.supports_formatting(), Err(Error::NotInitialized)));
    assert!(client.set_capabilities(caps(None)).is_ok());
    assert_eq!(client.phase(), Phase::Ready);
    assert!(matches!(client.supports_formatting(), Ok(false)));
    client.begin_shutdown();
    assert_eq!(client.phase(), Phase::ShuttingDown);
    assert!(matches!(client.capabilities(), Err(Error::StreamClosed)));
    assert!(matches!(client.text_document_did_save(&chars("x")), Err(Error::StreamClosed)));
    client.mark_exited();
    assert_eq!(client.phase(), Phase::Exited);
    client.begin_shutdown();
    assert_eq!(client.phase(), Phase::Exited);
    assert!(matches!(client.supports_range_formatting(), Err(Error::StreamClosed)));
}
