use std::str::FromStr;

use karma::config::{
    default_original_max_pos, default_sliding_window, resolve_model_dir, ModelConfig, ModelDirError,
    ModelInfo,
};
use karma::history::{fetch_limit, split_page};
use karma::model_state::{ModelManager, ModelState, ModelStatus};
use karma::schemas::HealthResponse;
use karma::server_state::{ServerLifecycleStatus, ServerStateManager};
use karma::settings::AppSettings;
use karma::tokenize::tokenize;
use tokenizers::Tokenizer;

#[test]
fn server_lifecycle() {
    let mut s = ServerStateManager::new();
    assert_eq!(s.status(), ServerLifecycleStatus::Stopped);
    assert!(!s.is_active() && !s.is_running());
    s.set_starting();
    assert!(s.is_active() && !s.is_running());
    s.set_running();
    assert!(s.is_active() && s.is_running());
    s.set_stopping();
    assert_eq!(s.status(), ServerLifecycleStatus::Stopping);
    assert!(s.is_active() && s.is_running());
    s.set_stopped();
    assert!(!s.is_active() && !s.is_running());
    s.set_error();
    assert_eq!(s.status(), ServerLifecycleStatus::Error);
    assert!(!s.is_active());
}

#[test]
fn server_log_ids_count_up() {
    let mut s = ServerStateManager::new();
    assert_eq!(s.next_log_id(), 1);
    assert_eq!(s.next_log_id(), 2);
    assert_eq!(s.next_log_id(), 3);
}

#[test]
fn server_shutdown_fires_once() {
    let mut s = ServerStateManager::new();
    assert!(!s.trigger_shutdown());
    let (tx, mut rx) = tokio::sync::oneshot::channel::<()>();
    s.set_shutdown_handle(tx);
    assert!(s.trigger_shutdown());
    assert_eq!(rx.try_recv(), Ok(()));
    assert!(!s.trigger_shutdown());
}

#[test]
fn model_status_flow() {
    let path = "/models/opf".to_string();
    let mut m = ModelManager::new(&path, true);
    assert_eq!(m.status, ModelStatus::Loading);
    assert!(m.is_available());
    m.set_error();
    assert!(!m.is_available());
    assert_eq!(m.get_state().status, "error");
    m.set_loading();
    m.set_loaded();
    assert!(m.is_available());
    assert_eq!(m.get_state().status, "loaded");
    m.set_model_path(&"/elsewhere".to_string(), false);
    assert_eq!(m.get_state().status, "not_found");
    assert_eq!(m.model_dir(), "/elsewhere");
    assert!(!m.is_available());
    m.set_model_path(&"/other".to_string(), true);
    assert_eq!(m.get_state().status, "ready");
    m.delete_model();
    assert_eq!(m.status, ModelStatus::NotFound);
    let fresh = ModelManager::new(&String::new(), false);
    assert_eq!(fresh.get_state().status, "not_found");
    let d = ModelState::default();
    assert_eq!(d.status, "not_found");
    assert_eq!(d.model_path, "");
}

#[test]
fn settings_defaults() {
    let s = AppSettings::default();
    assert!(!s.server_enabled);
    assert_eq!(s.server_host, "127.0.0.1");
    assert_eq!(s.server_port, 8000);
    assert!(!s.server_auto_start);
    assert_eq!(s.server_log_limit, 100);
    assert_eq!(s.model_path, "");
    assert!(!s.auto_copy_result);
    assert!(s.save_history);
    assert_eq!(s.history_limit, 1000);
    assert_eq!(s.app_language, "en");
    assert_eq!(s.global_shortcut, "command+shift+k");
}

#[test]
fn history_pages() {
    assert_eq!(fetch_limit(20), 21);
    let (page, more) = split_page(vec![5, 4, 3, 2], 3);
    assert_eq!(page, vec![5, 4, 3]);
    assert!(more);
    let (page, more) = split_page(vec![5, 4, 3], 3);
    assert_eq!(page, vec![5, 4, 3]);
    assert!(!more);
    let (page, more) = split_page(Vec::<i64>::new(), 0);
    assert!(page.is_empty() && !more);
}

#[test]
fn model_dir_resolution() {
    assert_eq!(resolve_model_dir("/m/opf", true, false).unwrap(), "/m/opf");
    assert_eq!(resolve_model_dir("/m/opf/model.safetensors", false, true).unwrap(), "/m/opf");
    assert!(matches!(resolve_model_dir("", false, true), Err(ModelDirError::NoParent)));
    match resolve_model_dir("/nope", false, false) {
        Err(ModelDirError::NotFound(p)) => assert_eq!(p, "/nope"),
        _ => panic!("expected NotFound"),
    }
}

#[test]
fn config_defaults_and_info() {
    assert_eq!(default_original_max_pos(), 4096);
    assert_eq!(default_sliding_window(), 128);
    assert_eq!(ModelConfig::model_name("/models/opf-bf16"), "opf-bf16");
    assert_eq!(ModelConfig::model_name("/models/opf-bf16/"), "opf-bf16");
    assert_eq!(ModelConfig::model_name("/"), "unknown");
    let mut id2label = std::collections::HashMap::new();
    id2label.insert("0".to_string(), "O".to_string());
    id2label.insert("1".to_string(), "S-secret".to_string());
    let cfg = ModelConfig {
        architectures: vec![],
        hidden_size: 640,
        intermediate_size: 0,
        num_hidden_layers: 0,
        num_attention_heads: 0,
        num_key_value_heads: 0,
        head_dim: 0,
        vocab_size: 200_000,
        num_local_experts: 0,
        num_experts_per_tok: 0,
        sliding_window: 128,
        max_position_embeddings: 4096,
        id2label,
    };
    assert_eq!(cfg.architecture(), "unknown");
    assert_eq!(cfg.num_labels(), 2);
    let info = ModelInfo::from_config("opf".to_string(), &cfg);
    assert_eq!(info.name, "opf");
    assert_eq!(info.architecture, "unknown");
    assert_eq!(info.num_labels, 2);
    assert_eq!(info.hidden_size, 640);
    assert_eq!(info.vocab_size, 200_000);
    assert_eq!(info.max_position_embeddings, 4096);
    let cfg2 = ModelConfig { architectures: vec!["OpenAIPrivacyFilter".to_string()], ..cfg };
    assert_eq!(cfg2.architecture(), "OpenAIPrivacyFilter");
}

#[test]
fn health_is_ok() {
    let h = HealthResponse::ok(true);
    assert_eq!(h.status, "ok");
    assert!(h.model_loaded);
}

fn word_tokenizer() -> Tokenizer {
    let json = r#"{
        "version": "1.0",
        "truncation": null,
        "padding": null,
        "added_tokens": [],
        "normalizer": null,
        "pre_tokenizer": {"type": "WhitespaceSplit"},
        "post_processor": null,
        "decoder": null,
        "model": {"type": "WordLevel", "vocab": {"[UNK]": 0, "héllo": 1, "world": 2}, "unk_token": "[UNK]"}
    }"#;
    Tokenizer::from_str(json).unwrap()
}

#[test]
fn tokenize_gives_byte_offsets() {
    let tok = word_tokenizer();
    let t = tokenize(&tok, &"héllo  world x".to_string()).unwrap();
    assert_eq!(t.ids, vec![1, 2, 0]);
    assert_eq!(t.offsets, vec![(0, 6), (8, 13), (14, 15)]);
    let empty = tokenize(&tok, &String::new()).unwrap();
    assert!(empty.ids.is_empty() && empty.offsets.is_empty());
}

