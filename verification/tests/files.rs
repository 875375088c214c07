use karma::model_files::{
    has_extension, has_model_files, keep_weight_key, name_before, pick_onnx_model,
    sorted_with_extension, starts_with_text,
};

fn names(list: &[&str]) -> Vec<String> {
    list.iter().map(|s| s.to_string()).collect()
}

#[test]
fn extensions_as_path_reads_them() {
    assert!(has_extension("model.onnx", "onnx"));
    assert!(has_extension("a.b.safetensors", "safetensors"));
    assert!(!has_extension("model.onnx.bak", "onnx"));
    assert!(!has_extension(".onnx", "onnx"));
    assert!(has_extension(".x.onnx", "onnx"));
    assert!(!has_extension("onnx", "onnx"));
    assert!(has_extension("weights.", ""));
    assert!(!has_extension("..", ""));
    assert!(!has_extension("model.ONNX", "onnx"));
}

#[test]
fn names_order_by_code_point() {
    assert!(name_before("a", "b"));
    assert!(name_before("ab", "abc"));
    assert!(!name_before("abc", "ab"));
    assert!(!name_before("abc", "abc"));
    assert!(name_before("B", "a"));
    assert!(name_before("", "a"));
    assert!(name_before("z", "é"));
}

#[test]
fn onnx_model_prefers_model_onnx() {
    let list = names(&["b.onnx", "config.json", "model.onnx", "a.onnx"]);
    assert_eq!(pick_onnx_model(&list), Some(2));
}

#[test]
fn onnx_model_else_first_by_name() {
    let list = names(&["c.onnx", "tokenizer.json", "b.onnx", "model_q4.onnx"]);
    assert_eq!(pick_onnx_model(&list), Some(2));
    let list = names(&["config.json", "model.safetensors"]);
    assert_eq!(pick_onnx_model(&list), None);
    assert_eq!(pick_onnx_model(&Vec::new()), None);
}

#[test]
fn weight_files_sorted_and_filtered() {
    let list = names(&[
        "model-00002.safetensors",
        "config.json",
        "model-00001.safetensors",
        "tokenizer.json",
        "model-00010.safetensors",
    ]);
    assert_eq!(
        sorted_with_extension(&list, "safetensors"),
        names(&["model-00001.safetensors", "model-00002.safetensors", "model-00010.safetensors"])
    );
    assert!(sorted_with_extension(&names(&["config.json"]), "safetensors").is_empty());
}

#[test]
fn checkpoint_copies_are_dropped() {
    assert!(!keep_weight_key("original.embed.weight"));
    assert!(keep_weight_key("embed.weight"));
    assert!(keep_weight_key("original"));
    assert!(keep_weight_key("layers.original.weight"));
    assert!(starts_with_text("original.x", "original."));
    assert!(starts_with_text("abc", ""));
    assert!(!starts_with_text("ab", "abc"));
}

#[test]
fn model_directory_completeness() {
    let full = names(&["config.json", "tokenizer.json", "model.safetensors"]);
    assert!(has_model_files(true, true, &full));
    assert!(!has_model_files(false, true, &full));
    assert!(!has_model_files(true, false, &full));
    assert!(!has_model_files(true, true, &names(&["config.json", "tokenizer.json"])));
}
