use express_trainer::session::{
    feed_frames_per_chunk, pick_final_text, pre_roll_samples, push_pre_roll, sentence_start_ms, should_emit_partial,
    stream_step, trim_segment_to_cap, final_sentence,
    SessionClock, SessionRecorder, StreamStep, MAX_RECORD_SECONDS, PARTIAL_TRANSCRIPT_INTERVAL_MS, SAMPLE_RATE,
};

#[test]
fn content_clock_converts_fed_samples_to_content_ms() {
    let mut clock = SessionClock::Content { fed_samples: 0 };
    assert_eq!(clock.now_ms(), 0);
    clock.advance(16_000);
    assert_eq!(clock.now_ms(), 1_000);
    clock.advance(8_000);
    assert_eq!(clock.now_ms(), 1_500);
    for _ in 0..272 {
        clock.advance(16_000);
    }
    assert_eq!(clock.now_ms(), 273_500);
}

#[test]
fn content_clock_only_advances_for_16k_samples() {
    let mut clock = SessionClock::Content { fed_samples: 100 };
    clock.advance(441);
    assert_eq!(clock.now_ms(), (100 + 441) * 1000 / 16_000);
}

#[test]
fn wall_clock_counts_from_session_start() {
    let clock = SessionClock::Wall { started: std::time::Instant::now() };
    let a = clock.now_ms();
    let b = clock.now_ms();
    assert!(b >= a);
}

#[test]
fn sentence_start_ms_pushes_back_by_sample_duration() {
    assert_eq!(sentence_start_ms(10_000, 16_000), 9_000);
    assert_eq!(sentence_start_ms(10_000, 9_600), 9_400);
    assert_eq!(sentence_start_ms(500, 16_000), 0);
}

#[test]
fn feed_frames_per_chunk_matches_chunk_duration() {
    assert_eq!(feed_frames_per_chunk(16_000, 100), 1_600);
    assert_eq!(feed_frames_per_chunk(44_100, 100), 4_410);
    assert_eq!(feed_frames_per_chunk(48_000, 100), 4_800);
    assert_eq!(feed_frames_per_chunk(8_000, 100), 800);
    assert_eq!(feed_frames_per_chunk(1, 100), 1);
}

#[test]
fn should_emit_partial_truth_table_and_max_speed_skips() {
    assert_eq!(PARTIAL_TRANSCRIPT_INTERVAL_MS, 300);
    let hot = PARTIAL_TRANSCRIPT_INTERVAL_MS + 10;
    let cold = 100;
    assert!(should_emit_partial(false, true, hot));
    assert!(!should_emit_partial(false, true, cold));
    assert!(!should_emit_partial(false, false, hot));
    assert!(!should_emit_partial(true, true, hot));
    assert!(!should_emit_partial(true, true, 10_000));
    assert!(!should_emit_partial(true, false, hot));
}

#[test]
fn recorder_accumulates_converted_samples_under_cap() {
    let empty = SessionRecorder::new();
    assert_eq!(empty.finish(), None);
    // The recorder receives 16-bit samples already converted from the
    // pipeline's floats (0.0, 0.5, -0.5, then 2.0 clamped).
    let cap = SAMPLE_RATE * MAX_RECORD_SECONDS;
    let mut rec = SessionRecorder::new();
    rec.push_pcm_with_cap(&[0, 16384, -16384], cap);
    rec.push_pcm_with_cap(&[32767], cap);
    assert_eq!(rec.finish().unwrap(), vec![0, 16384, -16384, 32767]);
}

#[test]
fn recorder_marks_truncated_over_cap() {
    assert_eq!(MAX_RECORD_SECONDS, 30 * 60);
    assert_eq!(SAMPLE_RATE * MAX_RECORD_SECONDS, 28_800_000);
    let mut rec = SessionRecorder::new();
    rec.push_pcm_with_cap(&[0, 3276], 4);
    rec.push_pcm_with_cap(&[1, 2, 3], 4);
    rec.push_pcm_with_cap(&[1], 4);
    assert_eq!(rec.finish(), None);
}

#[test]
fn stream_step_truth_table() {
    assert_eq!(stream_step(false, false), StreamStep::BufferPreRoll);
    assert_eq!(stream_step(true, false), StreamStep::CreateStream);
    assert_eq!(stream_step(true, true), StreamStep::FeedStream);
    assert_eq!(stream_step(false, true), StreamStep::Hold);
    assert_eq!(pre_roll_samples(), 9_600);
}

#[test]
fn pick_final_text_prefers_offline_then_stream_then_fallback() {
    assert_eq!(pick_final_text(Some("高精稿".into()), Some("流稿".into()), "兜底".into()), "高精稿");
    assert_eq!(pick_final_text(Some("  ".into()), Some("流稿".into()), "兜底".into()), "流稿");
    assert_eq!(pick_final_text(Some(String::new()), None, "兜底".into()), "兜底");
    assert_eq!(pick_final_text(None, Some("流稿".into()), "兜底".into()), "流稿");
    assert_eq!(pick_final_text(None, None, "兜底".into()), "兜底");
}

#[test]
fn trim_segment_keeps_newest_samples_up_to_cap() {
    let mut buf: Vec<f32> = (0..100).map(|i| i as f32).collect();
    trim_segment_to_cap(&mut buf, 40);
    assert_eq!(buf.len(), 40);
    assert_eq!(buf[0], 60.0);
    assert_eq!(buf[39], 99.0);
}

#[test]
fn trim_segment_is_no_op_when_under_cap() {
    let mut buf: Vec<f32> = (0..30).map(|i| i as f32).collect();
    trim_segment_to_cap(&mut buf, 40);
    assert_eq!(buf.len(), 30);
    assert_eq!(buf[0], 0.0);
}

#[test]
fn pre_roll_keeps_only_recent_window() {
    assert_eq!(pre_roll_samples(), 9_600);
    let mut buf: Vec<f32> = Vec::new();
    push_pre_roll(&mut buf, &(0..4_000).map(|i| i as f32).collect::<Vec<_>>(), 9_600);
    assert_eq!(buf.len(), 4_000);
    push_pre_roll(&mut buf, &(4_000..12_000).map(|i| i as f32).collect::<Vec<_>>(), 9_600);
    assert_eq!(buf.len(), 9_600);
    assert_eq!(buf[0], 2_400.0);
    assert_eq!(*buf.last().unwrap(), 11_999.0);
    let mut small = vec![1.0, 2.0];
    push_pre_roll(&mut small, &[3.0], 9_600);
    assert_eq!(small, vec![1.0, 2.0, 3.0]);
}

#[test]
fn trim_segment_to_zero_cap_empties_the_buffer() {
    let mut buf: Vec<i16> = vec![1, 2, 3];
    trim_segment_to_cap(&mut buf, 0);
    assert!(buf.is_empty());
}

#[test]
fn final_sentence_trims_corrects_and_numbers() {
    use_corrections();
}

fn use_corrections() {
    let map = express_trainer::settings::parse_correction_map("只是->知识");
    let s = final_sentence(4, Some("  我聊聊只是管理 ".to_string()), None, String::new(), &map, 10_000, 32_000).unwrap();
    assert_eq!(s.id, 5);
    assert_eq!(s.text, "我聊聊知识管理");
    assert_eq!(s.end_ms, 10_000);
    assert_eq!(s.start_ms, 8_000);
    // blank offline text falls back to the stream text
    let s = final_sentence(0, Some("   ".into()), Some("流式".into()), "兜底".into(), &[], 500, 16_000).unwrap();
    assert_eq!(s.text, "流式");
    assert_eq!(s.start_ms, 0);
    // an empty result makes no sentence
    assert!(final_sentence(0, None, None, "  ".into(), &[], 500, 100).is_none());
}

#[test]
fn stop_slot_claims_are_exclusive_and_generations_increase() {
    let mut slot: Option<express_trainer::StopSignal> = None;
    let mut counter: u64 = 0;
    let (tx, _rx) = std::sync::mpsc::channel::<()>();
    assert_eq!(express_trainer::claim_stop_slot(&mut slot, &mut counter, tx.clone()), Ok(1));
    assert_eq!(express_trainer::claim_stop_slot(&mut slot, &mut counter, tx.clone()).unwrap_err(), "会话已在进行中");
    assert_eq!(counter, 1);
    // the first session's exit frees the slot; a stale exit of generation 1 leaves generation 2 alone
    assert!(express_trainer::session_exit_cleanup(&mut slot, 1));
    assert_eq!(express_trainer::claim_stop_slot(&mut slot, &mut counter, tx), Ok(2));
    assert!(!express_trainer::session_exit_cleanup(&mut slot, 1));
    assert_eq!(slot.as_ref().map(|s| s.generation), Some(2));
}

#[test]
fn launch_check_refuses_running_then_missing_models() {
    assert_eq!(express_trainer::launch_check(true, false).unwrap_err(), "会话已在进行中");
    assert!(express_trainer::launch_check(false, false).unwrap_err().contains("识别模型未就绪"));
    assert!(express_trainer::launch_check(false, true).is_ok());
}
