use code_editor::video::{
    ActivityEvent, DecodingState, FrameMetadata, Gesture, PlaybackState, PlaybackStep, Video, VideoAction,
    VideoCommand, VideoRef, VideoSet,
};

fn frame(timestamp: u128, is_eos: bool) -> Option<FrameMetadata> {
    Some(FrameMetadata { timestamp, is_eos })
}

#[test]
fn begin_playback_starts_the_decoder_once() {
    let mut video = Video::new(false, false, false);
    assert_eq!(video.begin_playback(true), VideoCommand::InitializeDecoding);
    assert_eq!(video.playback_state, PlaybackState::Playing);
    assert_eq!(video.decoding_state, DecodingState::Initializing);
    assert_eq!(video.begin_playback(true), VideoCommand::Nothing);
}

#[test]
fn missing_source_is_reported() {
    let mut video = Video::new(false, false, false);
    assert_eq!(video.initialize_decoding(false), VideoCommand::ReportMissingSource);
    assert_eq!(video.decoding_state, DecodingState::NotStarted);
}

#[test]
fn show_preview_once() {
    let mut video = Video::new(false, false, false);
    assert_eq!(video.show_preview(true), VideoCommand::InitializeDecoding);
    assert_eq!(video.playback_state, PlaybackState::Previewing);
    assert_eq!(video.show_preview(true), VideoCommand::Nothing);
    assert!(video.maybe_show_preview());
    assert!(!video.maybe_show_preview());
}

#[test]
fn frame_interval_is_rounded_up() {
    let mut video = Video::new(false, false, false);
    video.handle_decoding_initialized(30);
    assert_eq!(video.frame_ts_interval, 33334);
    assert_eq!(video.decoding_state, DecodingState::Decoding);
    video.handle_decoding_initialized(25);
    assert_eq!(video.frame_ts_interval, 40000);
}

#[test]
fn playback_shows_due_frames() {
    let mut video = Video::new(false, false, false);
    video.begin_playback(true);
    video.handle_decoding_initialized(25);
    assert_eq!(video.maybe_advance_playback(1000, None), PlaybackStep::Idle);
    assert_eq!(video.maybe_advance_playback(1000, frame(0, false)), PlaybackStep::ShowFrame { first: true, last: false });
    assert_eq!(video.start_time, Some(1000));
    assert_eq!(video.next_frame_ts, 40000);
    assert_eq!(video.maybe_advance_playback(20000, frame(40000, false)), PlaybackStep::Idle);
    assert_eq!(video.maybe_advance_playback(41000, frame(40000, true)), PlaybackStep::ShowFrame { first: false, last: true });
    assert_eq!(video.playback_state, PlaybackState::Finished);
    assert_eq!(video.start_time, None);
    assert_eq!(video.next_frame_ts, 0);
}

#[test]
fn looping_playback_restarts() {
    let mut video = Video::new(true, false, false);
    video.begin_playback(true);
    video.handle_decoding_initialized(25);
    video.maybe_advance_playback(5, frame(0, false));
    assert_eq!(video.maybe_advance_playback(50000, frame(40000, true)), PlaybackStep::ShowFrame { first: false, last: false });
    assert_eq!(video.playback_state, PlaybackState::Playing);
    assert_eq!(video.start_time, None);
}

#[test]
fn pause_and_resume_shift_the_clock() {
    let mut video = Video::new(false, false, false);
    video.begin_playback(true);
    video.handle_decoding_initialized(25);
    video.maybe_advance_playback(100, frame(0, false));
    video.pause_playback(500);
    assert_eq!(video.playback_state, PlaybackState::Paused);
    video.pause_playback(700);
    assert_eq!(video.pause_time, Some(500));
    video.resume_playback(900);
    assert_eq!(video.playback_state, PlaybackState::Playing);
    assert_eq!(video.pause_time, None);
    assert_eq!(video.total_pause_duration, 400);
    assert_eq!(video.start_time, Some(500));
}

#[test]
fn hold_to_pause_gestures() {
    let mut video = Video::new(false, true, false);
    video.begin_playback(true);
    video.handle_gesture(Gesture::FingerDown, 10);
    assert_eq!(video.playback_state, PlaybackState::Paused);
    video.handle_gesture(Gesture::FingerUp, 30);
    assert_eq!(video.playback_state, PlaybackState::Playing);
    let mut other = Video::new(false, false, false);
    other.begin_playback(true);
    other.handle_gesture(Gesture::FingerDown, 10);
    assert_eq!(other.playback_state, PlaybackState::Playing);
}

#[test]
fn activity_events_pause_and_resume() {
    let mut video = Video::new(false, false, false);
    video.begin_playback(true);
    video.handle_activity_event(ActivityEvent::Pause, 3);
    assert_eq!(video.playback_state, PlaybackState::Paused);
    video.handle_activity_event(ActivityEvent::Resume, 4);
    assert_eq!(video.playback_state, PlaybackState::Playing);
}

#[test]
fn end_playback_cleans_up() {
    let mut video = Video::new(false, false, false);
    video.begin_playback(true);
    assert_eq!(video.end_playback(), VideoCommand::CleanupDecoding);
    assert_eq!(video.playback_state, PlaybackState::Finished);
    assert_eq!(video.decoding_state, DecodingState::NotStarted);
    assert_eq!(video.end_playback(), VideoCommand::Nothing);
}

#[test]
fn buffer_watermarks() {
    let mut video = Video::new(false, false, false);
    assert!(Video::is_buffer_running_low(5));
    assert!(!Video::is_buffer_running_low(6));
    assert!(!video.should_fetch(0));
    video.available_to_fetch = true;
    assert!(video.should_fetch(0));
    assert!(!video.should_request_decoding(0));
    video.decoding_state = DecodingState::ChunkFinished;
    assert!(video.should_request_decoding(0));
    assert!(!video.should_request_decoding(10));
    assert!(video.cleanup_decoding());
    assert!(!video.cleanup_decoding());
}

#[test]
fn video_ref_forwards_to_the_video() {
    let mut empty = VideoRef(None);
    assert_eq!(empty.begin_playback(true), VideoCommand::Nothing);
    assert_eq!(empty.show_preview(true), VideoCommand::Nothing);
    assert_eq!(empty.end_playback(), VideoCommand::Nothing);
    empty.pause_playback(1);
    empty.resume_playback(2);
    assert_eq!(empty, VideoRef(None));

    let mut video = VideoRef(Some(Video::new(false, false, false)));
    assert_eq!(video.begin_decoding(true), VideoCommand::InitializeDecoding);
    assert_eq!(video.begin_decoding(true), VideoCommand::Nothing);
    assert_eq!(video.show_preview(true), VideoCommand::Nothing);
    assert_eq!(video.begin_playback(true), VideoCommand::Nothing);
    video.pause_playback(5);
    assert_eq!(video.0.unwrap().playback_state, PlaybackState::Paused);
    video.resume_playback(6);
    assert_eq!(video.0.unwrap().playback_state, PlaybackState::Playing);
    assert_eq!(video.end_playback(), VideoCommand::CleanupDecoding);
    let set = VideoSet(vec![video]);
    assert_eq!(set.0.len(), 1);
    assert_eq!(VideoAction::Nothing, VideoAction::Nothing);
}
