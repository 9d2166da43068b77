use express_trainer::downloader::{both_plans_failed, check_complete, download_steps, mirrors_failed, range_header, still_incomplete, vad_urls};
use express_trainer::downloader::{
    gh_asset_urls, hf_file_urls, is_fp32_weight, missing_of, parse_content_range_total, parse_download_scope,
    progress_due, required_model_files, resume_decision, sense_voice_model_files, DownloadScope, ResumeDecision,
    HF_SENSE_REPO, PARA_DIR_NAME, PROGRESS_EMIT_STEP, SENSE_ARCHIVE, SENSE_DIR_NAME,
};

#[test]
fn gh_asset_urls_prefers_proxy_then_direct() {
    let urls = gh_asset_urls("silero_vad.onnx");
    assert_eq!(urls.len(), 2);
    assert_eq!(
        urls[0],
        "https://ghfast.top/https://github.com/k2-fsa/sherpa-onnx/releases/download/asr-models/silero_vad.onnx"
    );
    assert_eq!(urls[1], "https://github.com/k2-fsa/sherpa-onnx/releases/download/asr-models/silero_vad.onnx");
}

#[test]
fn hf_file_urls_covers_official_and_mirror() {
    let urls = hf_file_urls("csukuangfj/vad", "silero_vad.onnx");
    assert_eq!(
        urls,
        vec![
            "https://huggingface.co/csukuangfj/vad/resolve/main/silero_vad.onnx".to_string(),
            "https://hf-mirror.com/csukuangfj/vad/resolve/main/silero_vad.onnx".to_string(),
        ]
    );
}

#[test]
fn sense_voice_urls_follow_same_mirror_order() {
    let urls = gh_asset_urls(SENSE_ARCHIVE);
    assert_eq!(
        urls[0],
        "https://ghfast.top/https://github.com/k2-fsa/sherpa-onnx/releases/download/asr-models/sherpa-onnx-sense-voice-zh-en-ja-ko-yue-2024-07-17.tar.bz2"
    );
    assert_eq!(
        urls[1],
        "https://github.com/k2-fsa/sherpa-onnx/releases/download/asr-models/sherpa-onnx-sense-voice-zh-en-ja-ko-yue-2024-07-17.tar.bz2"
    );
    let urls = hf_file_urls(HF_SENSE_REPO, "model.int8.onnx");
    assert_eq!(
        urls,
        vec![
            "https://huggingface.co/csukuangfj/sherpa-onnx-sense-voice-zh-en-ja-ko-yue-2024-07-17/resolve/main/model.int8.onnx".to_string(),
            "https://hf-mirror.com/csukuangfj/sherpa-onnx-sense-voice-zh-en-ja-ko-yue-2024-07-17/resolve/main/model.int8.onnx".to_string(),
        ]
    );
}

#[test]
fn progress_due_requires_half_mib_step() {
    assert!(!progress_due(0, 0));
    assert!(!progress_due(PROGRESS_EMIT_STEP - 1, 0));
    assert!(progress_due(PROGRESS_EMIT_STEP, 0));
    assert!(!progress_due(PROGRESS_EMIT_STEP + 10, PROGRESS_EMIT_STEP));
    assert!(progress_due(2 * PROGRESS_EMIT_STEP, PROGRESS_EMIT_STEP));
}

#[test]
fn parse_content_range_total_variants() {
    assert_eq!(parse_content_range_total("bytes 100-999/2000"), Some(2000));
    assert_eq!(parse_content_range_total("bytes 0-0/123"), Some(123));
    assert_eq!(parse_content_range_total("bytes */123"), Some(123));
    assert_eq!(parse_content_range_total("bytes 100-999/*"), None);
    assert_eq!(parse_content_range_total("garbage"), None);
    assert_eq!(parse_content_range_total("bytes 1-2/abc"), None);
}

#[test]
fn content_range_total_edge_values() {
    assert_eq!(parse_content_range_total("bytes 0-0/18446744073709551615"), Some(u64::MAX));
    assert_eq!(parse_content_range_total("bytes 0-0/18446744073709551616"), None);
    assert_eq!(parse_content_range_total("bytes 0-0/+7"), Some(7));
    assert_eq!(parse_content_range_total("bytes 0-0/"), None);
    assert_eq!(parse_content_range_total("  42  "), Some(42));
}

#[test]
fn resume_decision_append_vs_restart() {
    assert_eq!(resume_decision(100, 206, Some(2000)), ResumeDecision::Append { offset: 100 });
    assert_eq!(resume_decision(2000, 206, Some(2000)), ResumeDecision::Append { offset: 2000 });
    assert_eq!(resume_decision(100, 200, Some(2000)), ResumeDecision::Restart);
    assert_eq!(resume_decision(100, 206, None), ResumeDecision::Restart);
    assert_eq!(resume_decision(3000, 206, Some(2000)), ResumeDecision::Restart);
    assert_eq!(resume_decision(0, 206, Some(2000)), ResumeDecision::Restart);
    assert_eq!(resume_decision(0, 200, Some(2000)), ResumeDecision::Restart);
}

#[test]
fn parse_download_scope_defaults_full_and_rejects_unknown_values() {
    assert_eq!(parse_download_scope(None).unwrap(), DownloadScope::Full);
    assert_eq!(parse_download_scope(Some("full")).unwrap(), DownloadScope::Full);
    assert_eq!(parse_download_scope(Some("requiredOnly")).unwrap(), DownloadScope::RequiredOnly);
    for bad in ["", "FULL", "RequiredOnly", "required-only", "skip", "sense"] {
        assert!(parse_download_scope(Some(bad)).is_err(), "scope 白名单应拒绝：{bad}");
    }
    assert!(DownloadScope::Full.includes_sense_voice());
    assert!(!DownloadScope::RequiredOnly.includes_sense_voice());
}

#[test]
fn model_file_lists_and_missing_filter() {
    let required = required_model_files();
    assert_eq!(required.len(), 4);
    assert_eq!(required[0], "silero_vad.onnx");
    assert_eq!(required[1], format!("{PARA_DIR_NAME}/tokens.txt"));
    let sense = sense_voice_model_files();
    assert_eq!(sense, vec![format!("{SENSE_DIR_NAME}/tokens.txt"), format!("{SENSE_DIR_NAME}/model.int8.onnx")]);
    let missing = missing_of(required.clone(), &[true, false, true, false]);
    assert_eq!(missing, vec![required[1].clone(), required[3].clone()]);
    assert!(missing_of(sense, &[true, true]).is_empty());
}

#[test]
fn only_non_int8_onnx_files_are_stripped() {
    assert!(is_fp32_weight(Some("encoder.onnx"), Some("onnx")));
    assert!(!is_fp32_weight(Some("encoder.int8.onnx"), Some("onnx")));
    assert!(!is_fp32_weight(Some("tokens.txt"), Some("txt")));
    assert!(!is_fp32_weight(None, Some("onnx")));
    assert!(!is_fp32_weight(Some("model"), None));
}

#[test]
fn range_header_resumes_after_the_partial_bytes() {
    assert_eq!(range_header(0), None);
    assert_eq!(range_header(1024).unwrap(), "bytes=1024-");
}

#[test]
fn completeness_check_keeps_partial_for_retry() {
    assert!(check_complete(10, 0).is_ok());
    assert!(check_complete(10, 10).is_ok());
    assert_eq!(check_complete(7, 10).unwrap_err(), "下载不完整（7/10 字节），已保留断点，可重试续传");
}

#[test]
fn mirror_errors_are_listed_per_source() {
    let e = mirrors_failed(&[
        ("https://a/x".to_string(), "HTTP 404".to_string()),
        ("https://b/x".to_string(), "请求失败: timeout".to_string()),
    ]);
    assert_eq!(e, "https://a/x → HTTP 404；https://b/x → 请求失败: timeout");
    assert_eq!(mirrors_failed(&[]), "");
    assert_eq!(both_plans_failed("A", "B"), "GitHub 归档与 HuggingFace 镜像均失败。\n归档: A\n镜像: B");
    assert_eq!(still_incomplete(&["a".to_string(), "b".to_string()]), "下载完成但模型仍不完整：a，b");
    let urls = vad_urls();
    assert_eq!(urls.len(), 4);
    assert!(urls[0].starts_with("https://ghfast.top/"));
    assert_eq!(urls[3], "https://hf-mirror.com/csukuangfj/vad/resolve/main/silero_vad.onnx");
}

#[test]
fn download_steps_follow_what_is_missing() {
    let para_file = format!("{PARA_DIR_NAME}/tokens.txt");
    let s = download_steps(false, false, &[para_file.clone()], DownloadScope::Full, 2);
    assert!(s.vad && s.paraformer && s.sense_voice);
    let s = download_steps(false, true, &["silero_vad.onnx".to_string()], DownloadScope::RequiredOnly, 2);
    assert!(!s.vad && !s.paraformer && !s.sense_voice);
    let s = download_steps(true, false, &[para_file], DownloadScope::Full, 0);
    assert!(!s.vad && !s.paraformer && !s.sense_voice);
}

#[test]
fn part_path_appends_suffix() {
    assert_eq!(express_trainer::downloader::part_path("models/silero_vad.onnx"), "models/silero_vad.onnx.part");
    assert_eq!(express_trainer::downloader::part_path("models/paraformer.tar.bz2"), "models/paraformer.tar.bz2.part");
}
