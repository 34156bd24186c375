use audin::nn::model::moonshine_base::{
    DECODER_CHECKPOINT_URL, DECODER_FILENAME, ENCODER_CHECKPOINT_URL, ENCODER_FILENAME,
    INTRA_THREADS,
};
use audin::utils::cache::ensure_file;
use audin::utils::network::Download;

#[test]
fn decoder_url_points_to_onnx_community() {
    assert!(DECODER_CHECKPOINT_URL.starts_with("https://huggingface.co/onnx-community/"));
    assert!(DECODER_CHECKPOINT_URL.ends_with(".onnx"));
}

#[test]
fn encoder_url_points_to_onnx_community() {
    assert!(ENCODER_CHECKPOINT_URL.starts_with("https://huggingface.co/onnx-community/"));
    assert!(ENCODER_CHECKPOINT_URL.ends_with(".onnx"));
}

#[test]
fn filenames_match_url_suffix() {
    assert!(DECODER_CHECKPOINT_URL.ends_with(DECODER_FILENAME));
    assert!(ENCODER_CHECKPOINT_URL.ends_with(ENCODER_FILENAME));
}

#[test]
fn decoder_and_encoder_are_distinct() {
    assert_ne!(DECODER_CHECKPOINT_URL, ENCODER_CHECKPOINT_URL);
    assert_ne!(DECODER_FILENAME, ENCODER_FILENAME);
}

#[test]
fn sessions_use_four_threads() {
    assert_eq!(INTRA_THREADS, 4);
}

#[test]
fn cached_file_is_not_downloaded() {
    let plan = ensure_file(DECODER_CHECKPOINT_URL, DECODER_FILENAME, true);
    assert_eq!(plan.filename, DECODER_FILENAME);
    assert_eq!(plan.download, None);
}

#[test]
fn missing_file_is_downloaded() {
    let plan = ensure_file(ENCODER_CHECKPOINT_URL, ENCODER_FILENAME, false);
    assert_eq!(plan.filename, ENCODER_FILENAME);
    assert_eq!(plan.download.as_deref(), Some(ENCODER_CHECKPOINT_URL));
}

#[test]
fn download_position_counts_bytes() {
    let mut download = Download::new(Some(10_000));
    assert_eq!(download.total_size(), 10_000);
    assert_eq!(download.on_read(8_192), Some(8_192));
    assert_eq!(download.on_read(1_808), Some(10_000));
    assert_eq!(download.on_read(0), None);
    assert_eq!(Download::new(None).total_size(), 0);
}
