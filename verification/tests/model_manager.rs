use whisper_diarize_rs::model_manager::{
    belongs_to_model, download_percent, encoder_archive_file, encoder_dir_name, is_stale_name,
    model_name_of, plausible_size, repo_dir_name, should_stop, url_filename, whisper_model_file,
};

#[test]
fn file_name_of_a_url() {
    assert_eq!(
        url_filename("https://host/releases/download/v0.1.0/segmentation-3.0.onnx"),
        Some("segmentation-3.0.onnx".to_string())
    );
    assert_eq!(url_filename("plain"), Some("plain".to_string()));
    assert_eq!(url_filename("dir/"), Some(String::new()));
    assert_eq!(url_filename(""), Some(String::new()));
    assert_eq!(url_filename("/a/b"), Some("b".to_string()));
}

#[test]
fn files_of_a_model() {
    assert_eq!(whisper_model_file("small.en"), "ggml-small.en.bin");
    assert_eq!(encoder_dir_name("tiny"), "ggml-tiny-encoder.mlmodelc");
    assert_eq!(encoder_archive_file("tiny"), "ggml-tiny-encoder.mlmodelc.zip");
    assert!(belongs_to_model("ggml-base.bin", "base"));
    assert!(belongs_to_model("ggml-base-encoder.mlmodelc", "base"));
    assert!(belongs_to_model("ggml-base-encoder.mlmodelc.zip", "base"));
    assert!(!belongs_to_model("ggml-base.en.bin", "base"));
    assert!(!belongs_to_model("base.bin", "base"));
}

#[test]
fn leftovers_of_downloads() {
    assert!(is_stale_name("ggml-base.bin.lock"));
    assert!(is_stale_name("abc.incomplete"));
    assert!(is_stale_name("x.part"));
    assert!(is_stale_name(".lock"));
    assert!(!is_stale_name("lock"));
    assert!(!is_stale_name("ggml-base.bin"));
    assert!(!is_stale_name("x.parts"));
    assert!(!is_stale_name(""));
}

#[test]
fn model_names_from_file_names() {
    assert_eq!(model_name_of("ggml-base.bin"), Some("base".to_string()));
    assert_eq!(model_name_of("ggml-large-v3-turbo.bin"), Some("large-v3-turbo".to_string()));
    assert_eq!(model_name_of("ggml-.bin"), None);
    assert_eq!(model_name_of("ggml-base.bin.lock"), None);
    assert_eq!(model_name_of("model-base.bin"), None);
    assert_eq!(model_name_of("ggml-silero-v5.1.2.bin"), Some("silero-v5.1.2".to_string()));
    assert_eq!(model_name_of(""), None);
}

#[test]
fn cache_directory_of_a_repository() {
    assert_eq!(repo_dir_name("ggerganov/whisper.cpp"), Some("models--ggerganov--whisper.cpp".to_string()));
    assert_eq!(repo_dir_name("a/b/c"), Some("models--a--b/c".to_string()));
    assert_eq!(repo_dir_name("owner"), None);
    assert_eq!(repo_dir_name("/repo"), None);
    assert_eq!(repo_dir_name("owner/"), None);
    assert_eq!(repo_dir_name(""), None);
}

#[test]
fn size_and_progress_of_downloads() {
    assert!(plausible_size(100_000));
    assert!(!plausible_size(99_999));
    assert_eq!(download_percent(0, 100, 0, 0), 0);
    assert_eq!(download_percent(70, 20, 5, 0), 70);
    assert_eq!(download_percent(0, 100, 1, 3), 33);
    assert_eq!(download_percent(70, 20, 1, 2), 80);
    assert_eq!(download_percent(0, 70, 1_000, 1_000), 70);
}

#[test]
fn downloads_stop_when_cancelled_or_superseded() {
    assert!(!should_stop(false, false, 4, 4));
    assert!(should_stop(true, false, 4, 4));
    assert!(should_stop(false, true, 4, 4));
    assert!(should_stop(false, false, 3, 4));
}
