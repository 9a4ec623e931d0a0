use aether::models::{
    embedding_attention_type, embedding_context_tokens, embedding_gpu_enabled,
    embedding_model_score, embedding_pooling_type, env_flag_enabled, friendly_model_label,
    huggingface_download_error, is_chat_model, is_embedding_model, is_gguf_model,
    is_mmproj_model, local_gpu_enabled, managed_model_spec, model_label, pick_model_by_hints,
    selected_model_downloads, strip_gguf_extension, AttentionKind, ModelFile, PoolingKind,
    dedupe_model_paths, pick_chat_model, pick_embedding_model, pick_selected_model, ModelChoice,
    auto_thread_count, chat_batch_token_limit, chat_context_tokens, embedding_batch_size,
    embedding_batch_token_limit, plan_embedding_batches,
};
use aether::search::Platform;

fn file(name: &str) -> ModelFile {
    ModelFile {
        path: format!("/models/{name}"),
        file_name: Some(name.to_string()),
        is_file: true,
    }
}

#[test]
fn labels_drop_the_gguf_extension() {
    assert_eq!(strip_gguf_extension("model.gguf"), "model");
    assert_eq!(strip_gguf_extension("MODEL.GGUF"), "MODEL");
    assert_eq!(strip_gguf_extension("model.bin"), "model.bin");
    assert_eq!(model_label(&file("gemma-3.gguf")), "gemma-3");
    let nameless = ModelFile { path: "/".to_string(), file_name: None, is_file: false };
    assert_eq!(model_label(&nameless), "/");
    assert_eq!(friendly_model_label(&file("gemma-4-E2B_q4_0-it.gguf")), "AiON LiTE");
    assert_eq!(friendly_model_label(&file("Qwen3-Embedding-0.6B-Q8_0.gguf")), "AiON MiST");
    assert_eq!(friendly_model_label(&file("other.gguf")), "other");
}

#[test]
fn models_are_classified_by_name() {
    assert!(is_gguf_model(&file("chat.GGUF")));
    assert!(!is_gguf_model(&file("chat.bin")));
    assert!(!is_gguf_model(&file(".gguf")));
    assert!(is_mmproj_model(&file("mmproj-model.gguf")));
    assert!(!is_gguf_model(&file("mmproj-model.gguf")));
    assert!(is_embedding_model(&file("Qwen3-Embedding-0.6B.gguf")));
    assert!(!is_chat_model(&file("Qwen3-Embedding-0.6B.gguf")));
    assert!(is_chat_model(&file("gemma-3.gguf")));
    let dir = ModelFile { path: "/m/x.gguf".to_string(), file_name: Some("x.gguf".to_string()), is_file: false };
    assert!(!is_gguf_model(&dir));
}

#[test]
fn qwen3_embeddings_pool_last_and_attend_causally() {
    let qwen = file("Qwen3-Embedding-0.6B-Q8_0.gguf");
    assert_eq!(embedding_pooling_type(&qwen), PoolingKind::Last);
    assert_eq!(embedding_attention_type(&qwen), AttentionKind::Causal);
    let other = file("nomic-embed.gguf");
    assert_eq!(embedding_pooling_type(&other), PoolingKind::Mean);
    assert_eq!(embedding_attention_type(&other), AttentionKind::Unspecified);
}

#[test]
fn embedding_scores_prefer_qwen3_and_precision() {
    assert_eq!(embedding_model_score(&file("Qwen3-Embedding-0.6B-Q8_0.gguf")), 1000 + 650 + 150);
    assert_eq!(embedding_model_score(&file("embed-bf16.gguf")), 1400);
    assert_eq!(embedding_model_score(&file("embed-f16.bin")), 300);
}

#[test]
fn hints_are_tried_in_order() {
    let models = vec![file("qwen-chat.gguf"), file("gemma-3.gguf"), file("gemma-embed.gguf")];
    assert_eq!(
        pick_model_by_hints(&models, &["Gemma", "qwen"], false),
        Some("/models/gemma-3.gguf".to_string())
    );
    assert_eq!(
        pick_model_by_hints(&models, &["gemma"], true),
        Some("/models/gemma-embed.gguf".to_string())
    );
    assert_eq!(pick_model_by_hints(&models, &["llama"], false), None);
}

#[test]
fn runtime_flags() {
    assert!(env_flag_enabled(Some("TRUE"), false));
    assert!(env_flag_enabled(Some("on"), false));
    assert!(!env_flag_enabled(Some("0"), true));
    assert!(env_flag_enabled(None, true));
    assert!(local_gpu_enabled(None, &Platform::MacOs { major_version: 15 }));
    assert!(!local_gpu_enabled(None, &Platform::Linux));
    assert!(!embedding_gpu_enabled(None));
    assert!(embedding_gpu_enabled(Some("yes")));
    assert_eq!(embedding_context_tokens(0), 2048);
    assert_eq!(embedding_context_tokens(3000), 3016);
    assert_eq!(embedding_context_tokens(100_000), 8192);
    assert_eq!(embedding_context_tokens(usize::MAX), 8192);
}

#[test]
fn managed_downloads() {
    let mist = managed_model_spec("mist").expect("mist");
    assert_eq!(
        mist.source_url(),
        "https://huggingface.co/Qwen/Qwen3-Embedding-0.6B-GGUF/resolve/370f27d7550e0def9b39c1f16d3fbaa13aa67728/Qwen3-Embedding-0.6B-Q8_0.gguf?download=true"
    );
    assert_eq!(
        managed_model_spec("huge").err(),
        Some("Unknown AiON model selection: huge".to_string())
    );
    let picked = selected_model_downloads(&[
        " LITE ".to_string(),
        "".to_string(),
        "lite".to_string(),
        "wise".to_string(),
    ])
    .expect("known models");
    let ids: Vec<&str> = picked.iter().map(|s| s.id).collect();
    assert_eq!(ids, vec!["mist", "lite", "wise"]);
    assert_eq!(
        selected_model_downloads(&["nope".to_string()]).err(),
        Some("Unknown AiON model selection: nope".to_string())
    );
    let lite = managed_model_spec("lite").unwrap();
    assert_eq!(
        huggingface_download_error(&lite, 404),
        "Could not download AiON LiTE from official Hugging Face source google/gemma-4-E2B-it-qat-q4_0-gguf/gemma-4-E2B_q4_0-it.gguf (404)."
    );
    assert!(huggingface_download_error(&lite, 401).contains("read token"));
}

fn missing(path: &str) -> ModelFile {
    ModelFile { path: path.to_string(), file_name: None, is_file: false }
}

#[test]
fn a_model_setting_selects_by_path_label_or_part_of_the_label() {
    let models = vec![file("gemma-3-4b.gguf"), file("Qwen3-Embedding-0.6B.gguf")];
    let given = missing("gemma");
    assert_eq!(pick_selected_model(&models, "  ", &given, false), None);
    assert_eq!(pick_selected_model(&models, "/models/gemma-3-4b.gguf", &missing("x"), false), Some(ModelChoice::Listed(0)));
    assert_eq!(pick_selected_model(&models, "gemma-3-4b", &given, false), Some(ModelChoice::Listed(0)));
    assert_eq!(pick_selected_model(&models, "QWEN3", &given, true), Some(ModelChoice::Listed(1)));
    // The first model named must be of the wanted kind.
    assert_eq!(pick_selected_model(&models, "gemma", &given, true), None);
    let direct = file("custom.gguf");
    assert_eq!(pick_selected_model(&models, "/models/custom.gguf", &direct, false), Some(ModelChoice::Given));
}

#[test]
fn the_embedding_model_defaults_to_the_best_scoring_one() {
    let models = vec![
        file("nomic-embed-q8.gguf"),
        file("Qwen3-Embedding-0.6B-Q8_0.gguf"),
        file("gemma-3.gguf"),
        file("Qwen3-Embedding-0.6B-q8_0.gguf"),
    ];
    let none = missing("");
    // Equal scores: the later one wins.
    assert_eq!(pick_embedding_model(&models, None, &none), Some(ModelChoice::Listed(3)));
    assert_eq!(pick_embedding_model(&models, Some("nomic"), &missing("nomic")), Some(ModelChoice::Listed(0)));
    assert_eq!(pick_embedding_model(&[file("gemma-3.gguf")], None, &none), None);
}

#[test]
fn the_chat_model_prefers_gemma_then_any_chat_model() {
    let none = missing("");
    let models = vec![file("llama-3.gguf"), file("qwen-2.gguf"), file("gemma-3-1b.gguf")];
    assert_eq!(pick_chat_model(&models, None, &none), Some(ModelChoice::Listed(2)));
    let models = vec![file("Qwen3-Embedding.gguf"), file("llama-3.gguf")];
    assert_eq!(pick_chat_model(&models, None, &none), Some(ModelChoice::Listed(1)));
    assert_eq!(pick_chat_model(&models, Some("llama"), &missing("llama")), Some(ModelChoice::Listed(1)));
    assert_eq!(pick_chat_model(&[], None, &none), None);
}

#[test]
fn the_model_catalog_drops_repeats_and_sorts_by_label() {
    let models = vec![file("b-model.gguf"), file("A-model.gguf"), file("b-model.gguf"), file("c.gguf")];
    let catalog = dedupe_model_paths(models);
    let labels = catalog.iter().map(model_label).collect::<Vec<_>>();
    assert_eq!(labels, vec!["A-model", "b-model", "c"]);
}

#[test]
fn tuning_settings_parse_then_clamp() {
    assert_eq!(chat_context_tokens(None, false), 8192);
    assert_eq!(chat_context_tokens(None, true), 3072);
    assert_eq!(chat_context_tokens(Some("+4096"), false), 4096);
    assert_eq!(chat_context_tokens(Some("100"), false), 1024);
    assert_eq!(chat_context_tokens(Some("999999"), true), 65536);
    // Beyond u32: not a u32, so the default stands.
    assert_eq!(chat_context_tokens(Some("5000000000"), false), 8192);
    assert_eq!(chat_context_tokens(Some("lots"), true), 3072);
    assert_eq!(chat_context_tokens(Some("-5"), false), 8192);
    assert_eq!(chat_batch_token_limit(None), 2048);
    assert_eq!(chat_batch_token_limit(Some("9000")), 8192);
    assert_eq!(embedding_batch_size(Some("0")), 1);
    assert_eq!(embedding_batch_size(Some("+")), 8);
    assert_eq!(embedding_batch_size(Some("12")), 12);
    assert_eq!(embedding_batch_token_limit(Some(" 600")), 2048);
    assert_eq!(auto_thread_count(Some(16), false), 12);
    assert_eq!(auto_thread_count(Some(3), false), 2);
    assert_eq!(auto_thread_count(Some(8), true), 7);
    assert_eq!(auto_thread_count(None, false), 6);
}

#[test]
fn embedding_batches_fill_up_to_their_limits() {
    assert_eq!(
        plan_embedding_batches(&[100, 200, 300, 50, 600, 10], 3, 500),
        vec![(0, 2, 300), (2, 4, 350), (4, 5, 600), (5, 6, 10)]
    );
    assert_eq!(
        plan_embedding_batches(&[1, 1, 1, 1, 1], 2, 8192),
        vec![(0, 2, 2), (2, 4, 2), (4, 5, 1)]
    );
    assert_eq!(plan_embedding_batches(&[], 16, 512), Vec::<(usize, usize, usize)>::new());
}
