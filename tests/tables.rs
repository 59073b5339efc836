use helix_lsp::editor::{Action, Config, LineNumber};
use helix_lsp::progress::{LspProgressMap, ProgressStatus, ProgressToken};
use helix_lsp::registry::{Lookup, Registry};
use helix_lsp::Error;
use lsp_types::{WorkDoneProgress, WorkDoneProgressReport};

fn report(message: &str) -> WorkDoneProgress {
    WorkDoneProgress::Report(WorkDoneProgressReport {
        cancellable: None,
        message: Some(message.to_string()),
        percentage: Some(50),
    })
}

#[test]
fn progress_lifecycle_returns_last_report() {
    let mut map = LspProgressMap::new();
    let token = ProgressToken::String("build".to_string());
    assert!(!map.is_progressing(1));
    map.create(1, token.clone());
    assert!(map.is_created(1, &token));
    assert!(map.is_progressing(1));
    assert!(matches!(map.progress(1, &token), Some(ProgressStatus::Created)));
    let prior = map.update(1, token.clone(), report("half"));
    assert!(matches!(prior, Some(ProgressStatus::Created)));
    let prior = map.update(1, token.clone(), report("more"));
    match prior {
        Some(ProgressStatus::Started(p)) => assert_eq!(p, report("half")),
        _ => panic!("expected the earlier report"),
    }
    match map.end_progress(1, &token) {
        Some(ProgressStatus::Started(p)) => assert_eq!(p, report("more")),
        _ => panic!("expected the last report"),
    }
    assert!(!map.is_created(1, &token));
    assert!(!map.is_progressing(1));
    // the server keeps its (now empty) entry
    assert_eq!(map.progress_map(1).map(|v| v.len()), Some(0));
}

#[test]
fn progress_untracked_and_separate() {
    let mut map = LspProgressMap::new();
    assert!(map.end_progress(4, &ProgressToken::Number(1)).is_none());
    map.create(4, ProgressToken::Number(1));
    assert!(map.end_progress(4, &ProgressToken::Number(2)).is_none());
    assert!(map.end_progress(5, &ProgressToken::Number(1)).is_none());
    // a number token and a string token are different tokens
    assert!(map.progress(4, &ProgressToken::String("1".to_string())).is_none());
    assert!(map.progress_map(5).is_none());
    map.create(5, ProgressToken::Number(1));
    assert_eq!(map.progress_map(4).map(|v| v.len()), Some(1));
    assert!(map.update(5, ProgressToken::Number(9), report("x")).is_none());
    assert_eq!(map.progress_map(5).map(|v| v.len()), Some(2));
    // creating again overwrites
    map.create(5, ProgressToken::Number(9));
    assert!(matches!(map.progress(5, &ProgressToken::Number(9)), Some(ProgressStatus::Created)));
}

#[test]
fn progress_status_payload() {
    assert!(ProgressStatus::Created.progress().is_none());
    let s = ProgressStatus::Started(report("r"));
    assert_eq!(s.progress(), Some(&report("r")));
}

#[test]
fn registry_reserves_and_finds() {
    let mut reg: Registry<&'static str> = Registry::new();
    let rust = "source.rust".to_string();
    let toml = "source.toml".to_string();
    assert!(matches!(reg.get(&rust, false), Err(Error::LspNotDefined)));
    assert_eq!(reg.next_id(), 0);
    let id = match reg.get(&rust, true) {
        Ok(Lookup::Start(id)) => id,
        _ => panic!("expected a fresh id"),
    };
    assert_eq!(id, 0);
    reg.register(rust.clone(), id, "rust-analyzer");
    assert!(matches!(reg.get(&rust, true), Ok(Lookup::Existing(0))));
    let id2 = match reg.get(&toml, true) {
        Ok(Lookup::Start(id)) => id,
        _ => panic!("expected a fresh id"),
    };
    assert_eq!(id2, 1);
    reg.register(toml, id2, "taplo");
    assert_eq!(reg.get_by_id(0), Some(&"rust-analyzer"));
    assert_eq!(reg.get_by_id(1), Some(&"taplo"));
    assert_eq!(reg.get_by_id(2), None);
    let mut all: Vec<&str> = reg.iter_clients().into_iter().copied().collect();
    all.sort();
    assert_eq!(all, vec!["rust-analyzer", "taplo"]);
}

#[test]
fn config_defaults() {
    let c = Config::default();
    assert_eq!(c.scrolloff, 5);
    assert_eq!(c.scroll_lines, 3);
    assert!(c.mouse);
    assert_eq!(c.shell, vec!["sh".to_string(), "-c".to_string()]);
    assert_eq!(c.line_number, LineNumber::Absolute);
    assert!(c.middle_click_paste && c.smart_case && c.auto_pairs);
    assert_ne!(Action::Load, Action::Replace);
}
