use dial9_trace_format::events::TaskId;
use dial9_trace_format::profiling::{CpuFlushState, SchedEventConfig, SymbolLookup};
use dial9_trace_format::search::{search_target, SearchError, SearchParams};

#[test]
fn task_id_conversions() {
    let id = TaskId::from_u32(7);
    assert_eq!(id.to_u64(), 7);
    assert_eq!(id.id(), 7);
    assert_eq!(TaskId::default().id(), 0);
}

#[test]
fn sched_event_config_default() {
    assert!(!SchedEventConfig::default().include_kernel);
}

fn params(q: Option<&str>, bucket: Option<&str>) -> SearchParams {
    SearchParams { q: q.map(|s| s.to_string()), bucket: bucket.map(|s| s.to_string()) }
}

#[test]
fn search_prefix_and_bucket() {
    let dflt_bucket = Some("traces".to_string());
    let dflt_prefix = Some("prod".to_string());
    assert_eq!(
        search_target(&params(Some("svc"), None), &dflt_bucket, &dflt_prefix).unwrap(),
        ("traces".to_string(), "prod/svc".to_string())
    );
    assert_eq!(
        search_target(&params(None, Some("other")), &dflt_bucket, &dflt_prefix).unwrap(),
        ("other".to_string(), "prod".to_string())
    );
    assert_eq!(
        search_target(&params(Some("svc"), Some("b")), &None, &None).unwrap(),
        ("b".to_string(), "svc".to_string())
    );
    assert_eq!(
        search_target(&params(None, Some("b")), &None, &None).unwrap(),
        ("b".to_string(), String::new())
    );
    assert_eq!(
        search_target(&params(Some("svc"), None), &None, &dflt_prefix).unwrap_err(),
        SearchError::BucketRequired
    );
}

fn lookup(addr: u64) -> SymbolLookup {
    if addr == 0x10 {
        SymbolLookup { name: Some("main".into()), file: Some("src/main.rs".into()), line: Some(12) }
    } else if addr == 0x20 {
        SymbolLookup { name: None, file: Some("lib.rs".into()), line: None }
    } else {
        SymbolLookup { name: None, file: None, line: None }
    }
}

#[test]
fn callframes_defined_once_per_file() {
    let mut state = CpuFlushState::new();
    assert!(state.resolve_cpu_event_symbols(&[0x10], lookup).is_empty());
    state.inline_callframe_symbols = true;
    let defs = state.resolve_cpu_event_symbols(&[0x10, 0x20, 0x10, 0x30], lookup);
    let got: Vec<(u64, String, Option<String>)> =
        defs.into_iter().map(|d| (d.address, d.symbol, d.location)).collect();
    assert_eq!(
        got,
        vec![
            (0x10, "main".to_string(), Some("src/main.rs:12".to_string())),
            (0x20, "0x20".to_string(), Some("lib.rs".to_string())),
            (0x30, "0x30".to_string(), None),
        ]
    );
    assert!(state.resolve_cpu_event_symbols(&[0x10, 0x30], lookup).is_empty());
    state.on_rotate();
    let again = state.resolve_cpu_event_symbols(&[0x30], lookup);
    assert_eq!(again.len(), 1);
    assert_eq!(again[0].symbol, "0x30");
}
