use vstd::prelude::*;

verus! {

/// How many frames are decoded at a time.
pub const MAX_FRAMES_TO_DECODE: usize = 20;

/// Below this many buffered frames, more are fetched.
pub const FRAME_BUFFER_LOW_WATER_MARK: usize = 6;

/// How far the decoder has got.
#[derive(Clone, Copy, Debug, PartialEq, Eq, Structural)]
pub enum DecodingState {
    NotStarted,
    Initializing,
    Initialized,
    Decoding,
    ChunkFinished,
}

/// Where the playback is.
#[derive(Clone, Copy, Debug, PartialEq, Eq, Structural)]
pub enum PlaybackState {
    NotStarted,
    Previewing,
    Playing,
    Paused,
    Finished,
}

/// What the embedding has to do after a call.
#[derive(Clone, Copy, Debug, PartialEq, Eq, Structural)]
pub enum VideoCommand {
    Nothing,
    /// Hand the video's data to the decoder.
    InitializeDecoding,
    /// The video's data could not be found: report it.
    ReportMissingSource,
    /// Stop the decoder and drop the buffered frames.
    CleanupDecoding,
}

/// A pointer gesture on the video.
#[derive(Clone, Copy, Debug, PartialEq, Eq, Structural)]
pub enum Gesture {
    FingerDown,
    FingerUp,
    Other,
}

/// The application went to the background or came back.
#[derive(Clone, Copy, Debug, PartialEq, Eq, Structural)]
pub enum ActivityEvent {
    Pause,
    Resume,
}

/// The frame at the front of the buffer.
#[derive(Clone, Copy, Debug, PartialEq, Eq, Structural)]
pub struct FrameMetadata {
    /// When the frame is due, in microseconds from the start of the video.
    pub timestamp: u128,
    /// Whether it is the last frame.
    pub is_eos: bool,
}

/// What a tick of the playback clock did.
#[derive(Clone, Copy, Debug, PartialEq, Eq, Structural)]
pub enum PlaybackStep {
    /// No frame is due, or none is buffered.
    Idle,
    /// The frame at the front of the buffer is shown; `first` when the clock
    /// starts with it, `last` when the playback finishes with it.
    ShowFrame { first: bool, last: bool },
}

/// What the video widget decides, with times in microseconds on a clock of
/// the embedding's choice.
#[derive(Clone, Copy, Debug, PartialEq, Eq, Structural)]
pub struct Video {
    pub is_looping: bool,
    pub hold_to_pause: bool,
    pub autoplay: bool,
    pub playback_state: PlaybackState,
    pub pause_time: Option<u128>,
    pub total_pause_duration: u128,
    pub is_current_texture_preview: bool,
    pub next_frame_ts: u128,
    /// The time between two frames, rounded up.
    pub frame_ts_interval: u128,
    pub start_time: Option<u128>,
    pub decoding_state: DecodingState,
    pub available_to_fetch: bool,
}

/// `a + b`, or the largest value when that does not fit.
pub open spec fn saturating_sum(a: u128, b: u128) -> u128 {
    if a + b > u128::MAX {
        u128::MAX
    } else {
        (a + b) as u128
    }
}

/// `a - b`, or 0 when `b` is larger.
pub open spec fn saturating_difference(a: u128, b: u128) -> u128 {
    if a < b {
        0
    } else {
        (a - b) as u128
    }
}

/// A million divided by the frame rate, rounded up; the largest value for a
/// rate of 0.
pub open spec fn spec_frame_interval(frame_rate: u128) -> u128 {
    if frame_rate == 0 {
        u128::MAX
    } else {
        ((1000000 + frame_rate - 1) / (frame_rate as int)) as u128
    }
}

impl Video {
    /// A paused video knows when it was paused.
    pub open spec fn wf(self) -> bool {
        self.playback_state == PlaybackState::Paused ==> self.pause_time is Some
    }

    /// A video that has neither decoded nor played anything.
    pub fn new(is_looping: bool, hold_to_pause: bool, autoplay: bool) -> (v: Self)
        ensures
            v.is_looping == is_looping,
            v.hold_to_pause == hold_to_pause,
            v.autoplay == autoplay,
            v.playback_state == PlaybackState::NotStarted,
            v.decoding_state == DecodingState::NotStarted,
            v.pause_time is None,
            v.wf(),
            v.start_time is None,
            v.total_pause_duration == 0,
            v.next_frame_ts == 0,
            v.frame_ts_interval == 0,
            !v.is_current_texture_preview,
            !v.available_to_fetch,
    {
        Video {
            is_looping,
            hold_to_pause,
            autoplay,
            playback_state: PlaybackState::NotStarted,
            pause_time: None,
            total_pause_duration: 0,
            is_current_texture_preview: false,
            next_frame_ts: 0,
            frame_ts_interval: 0,
            start_time: None,
            decoding_state: DecodingState::NotStarted,
            available_to_fetch: false,
        }
    }

    /// Starts the decoder unless it has been started: with the video's data
    /// at hand, the decoder is initialized; without, that is reported.
    pub fn initialize_decoding(&mut self, source_found: bool) -> (c: VideoCommand)
        ensures
            old(self).wf() ==> final(self).wf(),
            old(self).decoding_state != DecodingState::NotStarted ==> c == VideoCommand::Nothing
                && *final(self) == *old(self),
            old(self).decoding_state == DecodingState::NotStarted && source_found ==> c
                == VideoCommand::InitializeDecoding && *final(self) == (Video {
                decoding_state: DecodingState::Initializing,
                ..*old(self)
            }),
            old(self).decoding_state == DecodingState::NotStarted && !source_found ==> c
                == VideoCommand::ReportMissingSource && *final(self) == *old(self),
    {
        if self.decoding_state == DecodingState::NotStarted {
            if source_found {
                self.decoding_state = DecodingState::Initializing;
                VideoCommand::InitializeDecoding
            } else {
                VideoCommand::ReportMissingSource
            }
        } else {
            VideoCommand::Nothing
        }
    }

    /// The decoder reports it is ready, at `frame_rate` frames a second: the
    /// video starts decoding and frames are due every `1_000_000 /
    /// frame_rate` microseconds, rounded up.
    pub fn handle_decoding_initialized(&mut self, frame_rate: usize)
        ensures
            old(self).wf() ==> final(self).wf(),
            *final(self) == (Video {
                decoding_state: DecodingState::Decoding,
                frame_ts_interval: spec_frame_interval(frame_rate as u128),
                ..*old(self)
            }),
    {
        self.decoding_state = DecodingState::Initialized;
        let rate = frame_rate as u128;
        self.frame_ts_interval = if rate == 0 {
            u128::MAX
        } else {
            (1000000 + rate - 1) / rate
        };
        self.decoding_state = DecodingState::Decoding;
    }

    /// On a tick: whether the preview frame is to be shown now.
    pub fn maybe_show_preview(&mut self) -> (show: bool)
        ensures
            old(self).wf() ==> final(self).wf(),
            show == (old(self).playback_state == PlaybackState::Previewing
                && !old(self).is_current_texture_preview),
            show ==> *final(self) == (Video { is_current_texture_preview: true, ..*old(self) }),
            !show ==> *final(self) == *old(self),
    {
        if self.playback_state == PlaybackState::Previewing && !self.is_current_texture_preview {
            self.is_current_texture_preview = true;
            true
        } else {
            false
        }
    }

    /// On a tick at `now`, while playing: shows the buffered frame at the
    /// front when it is due (or when the clock has not started), starts the
    /// clock with the first frame, and after the last one restarts (when
    /// looping) or finishes.
    pub fn maybe_advance_playback(&mut self, now: u128, next_frame: Option<FrameMetadata>) -> (step:
        PlaybackStep)
        ensures
            old(self).wf() ==> final(self).wf(),
            ({
                let o = *old(self);
                let video_time = match o.start_time {
                    Some(start) => saturating_difference(now, start),
                    None => 0,
                };
                let due = video_time >= o.next_frame_ts || o.start_time is None;
                if o.playback_state != PlaybackState::Playing || !due || next_frame is None {
                    step == PlaybackStep::Idle && *final(self) == o
                } else {
                    let frame = next_frame->0;
                    let first = o.start_time is None;
                    let last = frame.is_eos && !o.is_looping;
                    &&& step == (PlaybackStep::ShowFrame { first, last })
                    &&& *final(self) == (if frame.is_eos {
                        Video {
                            next_frame_ts: 0,
                            start_time: None,
                            playback_state: if o.is_looping {
                                PlaybackState::Playing
                            } else {
                                PlaybackState::Finished
                            },
                            ..o
                        }
                    } else {
                        Video {
                            next_frame_ts: saturating_sum(frame.timestamp, o.frame_ts_interval),
                            start_time: if first {
                                Some(now)
                            } else {
                                o.start_time
                            },
                            ..o
                        }
                    })
                }
            }),
    {
        if self.playback_state != PlaybackState::Playing {
            return PlaybackStep::Idle;
        }
        let video_time = match self.start_time {
            Some(start_time) => now.saturating_sub(start_time),
            None => 0,
        };
        if video_time >= self.next_frame_ts || self.start_time.is_none() {
            let frame = match next_frame {
                Some(frame) => frame,
                None => return PlaybackStep::Idle,
            };
            let first = self.start_time.is_none();
            if first {
                self.start_time = Some(now);
            }
            if frame.is_eos {
                self.next_frame_ts = 0;
                self.start_time = None;
                if !self.is_looping {
                    self.playback_state = PlaybackState::Finished;
                }
            } else {
                self.next_frame_ts = frame.timestamp.saturating_add(self.frame_ts_interval);
            }
            PlaybackStep::ShowFrame { first, last: frame.is_eos && !self.is_looping }
        } else {
            PlaybackStep::Idle
        }
    }

    /// A finger on the video pauses it and lifting it resumes it, when the
    /// video is held to pause.
    pub fn handle_gesture(&mut self, gesture: Gesture, now: u128)
        ensures
            old(self).wf() ==> final(self).wf(),
            old(self).hold_to_pause && gesture == Gesture::FingerDown ==> *final(self) == old(self).paused_at(
                now,
            ),
            old(self).hold_to_pause && gesture == Gesture::FingerUp ==> *final(self) == old(self).resumed_at(
                now,
            ),
            !old(self).hold_to_pause || gesture == Gesture::Other ==> *final(self) == *old(self),
    {
        if self.hold_to_pause {
            match gesture {
                Gesture::FingerDown => self.pause_playback(now),
                Gesture::FingerUp => self.resume_playback(now),
                Gesture::Other => {},
            }
        }
    }

    /// The application pausing pauses the video, and its resuming resumes it.
    pub fn handle_activity_event(&mut self, event: ActivityEvent, now: u128)
        ensures
            old(self).wf() ==> final(self).wf(),
            event == ActivityEvent::Pause ==> *final(self) == old(self).paused_at(now),
            event == ActivityEvent::Resume ==> *final(self) == old(self).resumed_at(now),
    {
        match event {
            ActivityEvent::Pause => self.pause_playback(now),
            ActivityEvent::Resume => self.resume_playback(now),
        }
    }

    /// Previews the video, starting the decoder if needed.
    pub fn show_preview(&mut self, source_found: bool) -> (c: VideoCommand)
        ensures
            old(self).wf() ==> final(self).wf(),
            old(self).playback_state == PlaybackState::Previewing ==> c == VideoCommand::Nothing
                && *final(self) == *old(self),
            old(self).playback_state != PlaybackState::Previewing ==> c == old(self).decoding_command(
                source_found,
            ) && *final(self) == (Video {
                playback_state: PlaybackState::Previewing,
                decoding_state: old(self).decoding_after(source_found),
                ..*old(self)
            }),
    {
        if self.playback_state != PlaybackState::Previewing {
            let command = if self.decoding_state == DecodingState::NotStarted {
                self.initialize_decoding(source_found)
            } else {
                VideoCommand::Nothing
            };
            self.playback_state = PlaybackState::Previewing;
            command
        } else {
            VideoCommand::Nothing
        }
    }

    /// Plays the video, starting the decoder if needed.
    pub fn begin_playback(&mut self, source_found: bool) -> (c: VideoCommand)
        ensures
            old(self).wf() ==> final(self).wf(),
            c == old(self).decoding_command(source_found),
            *final(self) == (Video {
                playback_state: PlaybackState::Playing,
                decoding_state: old(self).decoding_after(source_found),
                ..*old(self)
            }),
    {
        let command = if self.decoding_state == DecodingState::NotStarted {
            self.initialize_decoding(source_found)
        } else {
            VideoCommand::Nothing
        };
        self.playback_state = PlaybackState::Playing;
        command
    }

    /// What starting the decoder asks of the embedding.
    pub open spec fn decoding_command(self, source_found: bool) -> VideoCommand {
        if self.decoding_state != DecodingState::NotStarted {
            VideoCommand::Nothing
        } else if source_found {
            VideoCommand::InitializeDecoding
        } else {
            VideoCommand::ReportMissingSource
        }
    }

    /// The decoding state after starting the decoder.
    pub open spec fn decoding_after(self, source_found: bool) -> DecodingState {
        if self.decoding_state == DecodingState::NotStarted && source_found {
            DecodingState::Initializing
        } else {
            self.decoding_state
        }
    }

    /// The video after pausing at `now`: a paused video stays as it is.
    pub open spec fn paused_at(self, now: u128) -> Video {
        if self.playback_state == PlaybackState::Paused {
            self
        } else {
            Video { pause_time: Some(now), playback_state: PlaybackState::Paused, ..self }
        }
    }

    /// The video after resuming at `now`: the time spent paused is added to
    /// the total and the clock moves on by it.
    pub open spec fn resumed_at(self, now: u128) -> Video {
        match self.pause_time {
            Some(pause_time) => {
                let pause_duration = saturating_difference(now, pause_time);
                Video {
                    pause_time: None,
                    total_pause_duration: saturating_sum(self.total_pause_duration, pause_duration),
                    start_time: match self.start_time {
                        Some(start_time) => Some(saturating_sum(start_time, pause_duration)),
                        None => None,
                    },
                    playback_state: PlaybackState::Playing,
                    ..self
                }
            },
            None => Video { playback_state: PlaybackState::Playing, ..self },
        }
    }

    pub fn pause_playback(&mut self, now: u128)
        ensures
            old(self).wf() ==> final(self).wf(),
            *final(self) == old(self).paused_at(now),
    {
        if self.playback_state != PlaybackState::Paused {
            self.pause_time = Some(now);
            self.playback_state = PlaybackState::Paused;
        }
    }

    pub fn resume_playback(&mut self, now: u128)
        ensures
            old(self).wf() ==> final(self).wf(),
            *final(self) == old(self).resumed_at(now),
    {
        if let Some(pause_time) = self.pause_time.take() {
            let pause_duration = now.saturating_sub(pause_time);
            self.total_pause_duration = self.total_pause_duration.saturating_add(pause_duration);
            if let Some(start_time) = self.start_time {
                self.start_time = Some(start_time.saturating_add(pause_duration));
            }
        }
        self.playback_state = PlaybackState::Playing;
    }

    /// Finishes the playback and stops the decoder.
    pub fn end_playback(&mut self) -> (c: VideoCommand)
        ensures
            old(self).wf() ==> final(self).wf(),
            c == (if old(self).decoding_state != DecodingState::NotStarted {
                VideoCommand::CleanupDecoding
            } else {
                VideoCommand::Nothing
            }),
            *final(self) == (Video {
                playback_state: PlaybackState::Finished,
                start_time: None,
                next_frame_ts: 0,
                decoding_state: DecodingState::NotStarted,
                ..*old(self)
            }),
    {
        self.playback_state = PlaybackState::Finished;
        self.start_time = None;
        self.next_frame_ts = 0;
        if self.cleanup_decoding() {
            VideoCommand::CleanupDecoding
        } else {
            VideoCommand::Nothing
        }
    }

    /// Whether more decoded frames are to be fetched, with `buffered` frames
    /// in the buffer.
    pub fn should_fetch(&self, buffered: usize) -> (b: bool)
        ensures
            b == (self.available_to_fetch && buffered < FRAME_BUFFER_LOW_WATER_MARK),
    {
        self.available_to_fetch && Self::is_buffer_running_low(buffered)
    }

    /// Whether the decoder is to decode another chunk.
    pub fn should_request_decoding(&self, buffered: usize) -> (b: bool)
        ensures
            b == (self.decoding_state == DecodingState::ChunkFinished && buffered
                < FRAME_BUFFER_LOW_WATER_MARK),
    {
        match self.decoding_state {
            DecodingState::ChunkFinished => Self::is_buffer_running_low(buffered),
            _ => false,
        }
    }

    pub fn is_buffer_running_low(buffered: usize) -> (b: bool)
        ensures
            b == (buffered < FRAME_BUFFER_LOW_WATER_MARK),
    {
        buffered < FRAME_BUFFER_LOW_WATER_MARK
    }

    /// Marks the decoder as stopped; whether it had been started, and so has
    /// to be cleaned up.
    pub fn cleanup_decoding(&mut self) -> (b: bool)
        ensures
            old(self).wf() ==> final(self).wf(),
            b == (old(self).decoding_state != DecodingState::NotStarted),
            *final(self) == (Video { decoding_state: DecodingState::NotStarted, ..*old(self) }),
    {
        if self.decoding_state != DecodingState::NotStarted {
            self.decoding_state = DecodingState::NotStarted;
            true
        } else {
            false
        }
    }
}

/// A handle to a video widget, which may designate none.
#[derive(Clone, Copy, Debug, PartialEq, Eq, Structural)]
pub struct VideoRef(pub Option<Video>);

impl VideoRef {
    /// The video, if any, is consistent.
    pub open spec fn wf(self) -> bool {
        match self.0 {
            Some(v) => v.wf(),
            None => true,
        }
    }

    pub fn begin_decoding(&mut self, source_found: bool) -> (c: VideoCommand)
        ensures
            old(self).wf() ==> final(self).wf(),
            match old(self).0 {
                Some(v) => final(self).0 == Some(v.decoding_started(source_found)) && c == v.decoding_command(
                    source_found,
                ),
                None => final(self).0 is None && c == VideoCommand::Nothing,
            },
    {
        match &mut self.0 {
            Some(inner) => inner.initialize_decoding(source_found),
            None => VideoCommand::Nothing,
        }
    }

    /// Previews the video; it starts the decoder if that has not been done.
    pub fn show_preview(&mut self, source_found: bool) -> (c: VideoCommand)
        ensures
            old(self).wf() ==> final(self).wf(),
            match old(self).0 {
                Some(v) => if v.playback_state == PlaybackState::Previewing {
                    final(self).0 == Some(v) && c == VideoCommand::Nothing
                } else {
                    final(self).0 == Some(
                        Video {
                            playback_state: PlaybackState::Previewing,
                            ..v.decoding_started(source_found)
                        },
                    ) && c == v.decoding_command(source_found)
                },
                None => final(self).0 is None && c == VideoCommand::Nothing,
            },
    {
        match &mut self.0 {
            Some(inner) => inner.show_preview(source_found),
            None => VideoCommand::Nothing,
        }
    }

    /// Plays the video; it starts the decoder if that has not been done.
    pub fn begin_playback(&mut self, source_found: bool) -> (c: VideoCommand)
        ensures
            old(self).wf() ==> final(self).wf(),
            match old(self).0 {
                Some(v) => final(self).0 == Some(
                    Video { playback_state: PlaybackState::Playing, ..v.decoding_started(source_found) },
                ) && c == v.decoding_command(source_found),
                None => final(self).0 is None && c == VideoCommand::Nothing,
            },
    {
        match &mut self.0 {
            Some(inner) => inner.begin_playback(source_found),
            None => VideoCommand::Nothing,
        }
    }

    pub fn pause_playback(&mut self, now: u128)
        ensures
            old(self).wf() ==> final(self).wf(),
            final(self).0 == match old(self).0 {
                Some(v) => Some(v.paused_at(now)),
                None => None,
            },
    {
        match &mut self.0 {
            Some(inner) => inner.pause_playback(now),
            None => {},
        }
    }

    pub fn resume_playback(&mut self, now: u128)
        ensures
            old(self).wf() ==> final(self).wf(),
            final(self).0 == match old(self).0 {
                Some(v) => Some(v.resumed_at(now)),
                None => None,
            },
    {
        match &mut self.0 {
            Some(inner) => inner.resume_playback(now),
            None => {},
        }
    }

    /// Finishes the playback and stops the decoder.
    pub fn end_playback(&mut self) -> (c: VideoCommand)
        ensures
            old(self).wf() ==> final(self).wf(),
            match old(self).0 {
                Some(v) => final(self).0 == Some(
                    Video {
                        playback_state: PlaybackState::Finished,
                        start_time: None,
                        next_frame_ts: 0,
                        decoding_state: DecodingState::NotStarted,
                        ..v
                    },
                ) && c == (if v.decoding_state != DecodingState::NotStarted {
                    VideoCommand::CleanupDecoding
                } else {
                    VideoCommand::Nothing
                }),
                None => final(self).0 is None && c == VideoCommand::Nothing,
            },
    {
        match &mut self.0 {
            Some(inner) => inner.end_playback(),
            None => VideoCommand::Nothing,
        }
    }
}

impl Video {
    /// The video after starting the decoder.
    pub open spec fn decoding_started(self, source_found: bool) -> Video {
        Video { decoding_state: self.decoding_after(source_found), ..self }
    }
}

/// A set of video widgets.
#[derive(Clone, Debug)]
pub struct VideoSet(pub Vec<VideoRef>);

/// What a video widget reports to its parent.
#[derive(Clone, Copy, Debug, PartialEq, Eq, Structural)]
pub enum VideoAction {
    Nothing,
}

/// Resuming after a pause gives a playing video whose clock has moved on by
/// the time spent paused, with that time added to the total.
pub proof fn lemma_pause_then_resume(v: Video, paused: u128, resumed: u128)
    requires
        v.playback_state == PlaybackState::Playing,
        paused <= resumed,
        v.total_pause_duration + (resumed - paused) <= u128::MAX,
        v.start_time matches Some(s) ==> s + (resumed - paused) <= u128::MAX,
    ensures
        ({
            let w = v.paused_at(paused).resumed_at(resumed);
            &&& w.playback_state == PlaybackState::Playing
            &&& w.pause_time is None
            &&& w.total_pause_duration == v.total_pause_duration + (resumed - paused)
            &&& w.start_time == match v.start_time {
                Some(s) => Some((s + (resumed - paused)) as u128),
                None => None,
            }
            &&& w.next_frame_ts == v.next_frame_ts
            &&& w.decoding_state == v.decoding_state
        }),
{
}

/// Pausing twice is pausing once: the first pause time is kept.
pub proof fn lemma_pause_idempotent(v: Video, first: u128, second: u128)
    ensures
        v.paused_at(first).paused_at(second) == v.paused_at(first),
{
}

/// A consistent video is paused after a pause, knows when it was paused, and
/// stays consistent; a video that was playing is paused at that moment.
pub proof fn lemma_pause_keeps_time(v: Video, now: u128)
    requires
        v.wf(),
    ensures
        v.paused_at(now).playback_state == PlaybackState::Paused,
        v.paused_at(now).pause_time is Some,
        v.paused_at(now).wf(),
        v.playback_state != PlaybackState::Paused ==> v.paused_at(now).pause_time == Some(now),
{
}

/// The decoder is initialized at most once: once started, starting it again
/// asks nothing.
pub proof fn lemma_decoding_started_once(v: Video, first: bool, second: bool)
    requires
        v.decoding_command(first) == VideoCommand::InitializeDecoding,
    ensures
        v.decoding_started(first).decoding_command(second) == VideoCommand::Nothing,
        v.decoding_started(first).decoding_started(second) == v.decoding_started(first),
{
}

} // verus!
