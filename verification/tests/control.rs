use std::collections::HashMap;

use karma::config::placeholder_map;
use karma::decode::LabelSpace;
use karma::pipeline::{redact_decoded, DecodeError};
use karma::quick_panel::{app_to_restore, clipboard_offer, toggle_action, QuickToggle};
use karma::server_control::{get_server_status, start_server, stop_server, ServerCommandError};
use karma::server_state::{ServerLifecycleStatus, ServerStateManager};
use karma::settings::{get_settings, AppSettings, StoredSettings};

fn nothing_stored() -> StoredSettings {
    StoredSettings {
        server_enabled: None,
        server_host: None,
        server_port: None,
        server_auto_start: None,
        server_log_limit: None,
        model_path: None,
        auto_copy_result: None,
        save_history: None,
        history_limit: None,
        app_language: None,
        global_shortcut: None,
    }
}

#[test]
fn settings_fall_back_to_defaults() {
    let s = get_settings(None);
    assert_eq!(s.server_port, 8000);
    assert_eq!(s.server_host, "127.0.0.1");
    assert_eq!(s.global_shortcut, "command+shift+k");
    let t = get_settings(Some(nothing_stored()));
    assert_eq!(t.history_limit, 1000);
    assert!(t.save_history);
    assert_eq!(t.app_language, "en");
    assert_eq!(t.model_path, "");
}

#[test]
fn stored_settings_win_and_numbers_are_cut() {
    let mut st = nothing_stored();
    st.server_port = Some(9000);
    st.server_host = Some("0.0.0.0".to_string());
    st.save_history = Some(false);
    st.history_limit = Some(5);
    st.model_path = Some("/models/opf".to_string());
    let s = get_settings(Some(st));
    assert_eq!(s.server_port, 9000);
    assert_eq!(s.server_host, "0.0.0.0");
    assert!(!s.save_history);
    assert_eq!(s.history_limit, 5);
    assert_eq!(s.model_path, "/models/opf");
    assert_eq!(s.server_log_limit, 100);
    let mut st = nothing_stored();
    st.server_port = Some(70000);
    st.server_log_limit = Some((1u64 << 32) + 7);
    let s = get_settings(Some(st));
    assert_eq!(s.server_port, 70000u64 as u16);
    assert_eq!(s.server_port, 4464);
    assert_eq!(s.server_log_limit, 7);
}

#[test]
fn start_and_stop_commands() {
    let mut s = ServerStateManager::new();
    assert_eq!(stop_server(&mut s), Err(ServerCommandError::NotRunning));
    assert_eq!(start_server(&mut s), Ok(()));
    assert_eq!(s.status(), ServerLifecycleStatus::Starting);
    assert_eq!(start_server(&mut s), Err(ServerCommandError::AlreadyActive));
    s.set_running();
    assert_eq!(stop_server(&mut s), Err(ServerCommandError::ShutdownFailed));
    assert_eq!(s.status(), ServerLifecycleStatus::Running);
    let (tx, mut rx) = tokio::sync::oneshot::channel::<()>();
    s.set_shutdown_handle(tx);
    assert_eq!(stop_server(&mut s), Ok(()));
    assert_eq!(s.status(), ServerLifecycleStatus::Stopping);
    assert!(rx.try_recv().is_ok());
    assert_eq!(ServerCommandError::AlreadyActive.message(), "Server is already active");
    assert_eq!(ServerCommandError::NotRunning.message(), "Server is not running");
    assert_eq!(ServerCommandError::ShutdownFailed.message(), "Failed to send shutdown signal");
}

#[test]
fn server_status_line() {
    let settings = AppSettings::default();
    let st = get_server_status(None, &settings, false);
    assert!(!st.running);
    assert_eq!(st.status, ServerLifecycleStatus::Stopped);
    assert_eq!((st.host.as_str(), st.port), ("127.0.0.1", 8000));
    let mut s = ServerStateManager::new();
    s.set_running();
    let st = get_server_status(Some(&s), &settings, true);
    assert!(st.running && st.model_loaded);
    assert_eq!(st.status, ServerLifecycleStatus::Running);
}

#[test]
fn quick_panel_toggles() {
    assert_eq!(toggle_action(false, None), QuickToggle::Create);
    assert_eq!(toggle_action(true, Some(true)), QuickToggle::Hide);
    assert_eq!(toggle_action(true, Some(false)), QuickToggle::Present);
    assert_eq!(toggle_action(true, None), QuickToggle::Present);
    assert_eq!(clipboard_offer(Some("  \n".to_string())), None);
    assert_eq!(clipboard_offer(Some(" hi ".to_string())), Some(" hi ".to_string()));
    assert_eq!(clipboard_offer(None), None);
    assert_eq!(app_to_restore(Some(42), 7), 42);
    assert_eq!(app_to_restore(Some(7), 7), 0);
    assert_eq!(app_to_restore(None, 7), 0);
}

fn space() -> LabelSpace {
    let m: HashMap<String, String> = [
        ("0", "O"),
        ("1", "B-private_email"),
        ("2", "I-private_email"),
        ("3", "E-private_email"),
        ("4", "S-private_person"),
        ("5", "S"),
    ]
    .iter()
    .map(|(k, v)| (k.to_string(), v.to_string()))
    .collect();
    LabelSpace::from_id2label(&m).unwrap()
}

#[test]
fn decoded_path_redacts_text() {
    let text = "Mail Ann at a@b.c now".to_string();
    let offsets = vec![(0, 4), (4, 8), (8, 11), (11, 13), (13, 15), (15, 17), (17, 21)];
    let path = vec![0, 4, 0, 1, 2, 3, 0];
    let r = redact_decoded(&text, &offsets, &path, &space(), &placeholder_map()).unwrap();
    assert_eq!(r.redacted_text, "Mail [PERSON] at [EMAIL] now");
    assert_eq!(r.detected_spans.len(), 2);
    assert_eq!(r.detected_spans[1].text, "a@b.c");
    assert_eq!(
        r.summary,
        vec![("private_person".to_string(), 1), ("private_email".to_string(), 1)]
    );
    let accented = "Zoé Ann".to_string();
    let r = redact_decoded(&accented, &vec![(0, 4), (4, 8)], &vec![0, 4], &space(), &placeholder_map()).unwrap();
    assert_eq!(r.redacted_text, "Zoé [PERSON]");
    assert_eq!((r.detected_spans[0].start, r.detected_spans[0].end), (4, 7));
    let empty = redact_decoded(&text, &Vec::new(), &Vec::new(), &space(), &placeholder_map()).unwrap();
    assert_eq!(empty.redacted_text, text);
}

#[test]
fn decoded_path_errors() {
    let text = "ab".to_string();
    let pm = placeholder_map();
    assert_eq!(
        redact_decoded(&text, &vec![(0, 1)], &vec![9], &space(), &pm).err(),
        Some(DecodeError::LabelOutOfRange)
    );
    assert_eq!(
        redact_decoded(&text, &vec![(0, 3)], &vec![4], &space(), &pm).err(),
        Some(DecodeError::OffsetOutOfRange)
    );
    // an offset past the end of a token outside every span is not read
    let r = redact_decoded(&text, &vec![(0, 1), (5, 9)], &vec![4, 0], &space(), &pm).unwrap();
    assert_eq!(r.redacted_text, "[PERSON]b");
    assert_eq!(
        redact_decoded(&text, &vec![(0, 1)], &vec![0, 4], &space(), &pm).err(),
        Some(DecodeError::TokenOutOfRange)
    );
    assert_eq!(
        redact_decoded(&text, &vec![(0, 1)], &vec![5], &space(), &pm).err(),
        Some(DecodeError::EntityOutOfRange)
    );
}

#[test]
fn named_labels_never_leave_a_span_unnamed() {
    let m: HashMap<String, String> = [("0", "O"), ("1", "B-url"), ("2", "I-url"), ("3", "E-url"), ("4", "S-secret")]
        .iter()
        .map(|(k, v)| (k.to_string(), v.to_string()))
        .collect();
    let space = LabelSpace::from_id2label(&m).unwrap();
    let text = "abc".to_string();
    let offsets = vec![(0, 1), (1, 2), (2, 3)];
    for a in 0..5 {
        for b in 0..5 {
            for c in 0..5 {
                let r = redact_decoded(&text, &offsets, &vec![a, b, c], &space, &placeholder_map());
                assert!(r.is_ok(), "path {:?}", (a, b, c));
            }
        }
    }
}
