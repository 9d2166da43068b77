//! Session pipeline decisions: what to do with each audio block, which
//! final text wins, the recording buffer with its cap, and the sentence clock.
use vstd::prelude::*;
use crate::text::{trim, trim_string};
use crate::rules::Sentence;

verus! {

/// Sample rate of the recognition pipeline.
pub const SAMPLE_RATE: usize = 16000;

/// Longest recording kept, in seconds (30 minutes).
pub const MAX_RECORD_SECONDS: usize = 1800;

/// Minimum spacing of live partial transcripts.
pub const PARTIAL_TRANSCRIPT_INTERVAL_MS: u64 = 300;

/// Directory of the optional offline high-accuracy model.
pub const SENSE_VOICE_DIR: &'static str = "sherpa-onnx-sense-voice-zh-en-ja-ko-yue-2024-07-17";

/// Directory of the streaming model.
pub const PARA_DIR: &'static str = "sherpa-onnx-streaming-paraformer-bilingual-zh-en";

/// Block length of file playback, in ms.
pub const FILE_FEED_CHUNK_MS: u64 = 100;

/// Pre-roll buffer size: 0.6 s of 16 kHz audio.
pub fn pre_roll_samples() -> (r: usize)
    ensures
        r == 9600,
{
    SAMPLE_RATE * 6 / 10
}

/// What to do with one audio block.
#[derive(Debug, Clone, Copy, PartialEq, Eq, Structural)]
pub enum StreamStep {
    /// Silence and no stream: roll the pre-roll buffer.
    BufferPreRoll,
    /// First speech block: open a stream, feed the pre-roll, then the block.
    CreateStream,
    /// Speech with a stream open: feed it.
    FeedStream,
    /// Speech ended but the stream is still open: feed nothing.
    Hold,
}

pub fn stream_step(vad_detected: bool, stream_alive: bool) -> (r: StreamStep)
    ensures
        r == (if !vad_detected && !stream_alive {
            StreamStep::BufferPreRoll
        } else if vad_detected && !stream_alive {
            StreamStep::CreateStream
        } else if vad_detected {
            StreamStep::FeedStream
        } else {
            StreamStep::Hold
        }),
{
    match (vad_detected, stream_alive) {
        (false, false) => StreamStep::BufferPreRoll,
        (true, false) => StreamStep::CreateStream,
        (true, true) => StreamStep::FeedStream,
        (false, true) => StreamStep::Hold,
    }
}

/// The final text of a segment: the offline engine's unless blank, else the
/// stream's, else the one-shot fallback.
pub open spec fn final_text(offline: Option<Seq<char>>, stream: Option<Seq<char>>, fallback: Seq<char>) -> Seq<char> {
    if offline is Some && trim(offline->0).len() > 0 {
        offline->0
    } else if stream is Some {
        stream->0
    } else {
        fallback
    }
}

pub fn pick_final_text(offline_text: Option<String>, stream_text: Option<String>, fallback_text: String) -> (r: String)
    ensures
        r@ == final_text(
            match offline_text {
                Some(t) => Some(t@),
                None => None,
            },
            match stream_text {
                Some(t) => Some(t@),
                None => None,
            },
            fallback_text@,
        ),
{
    match offline_text {
        Some(t) => {
            if !trim_string(t.as_str()).as_str().is_empty() {
                return t;
            }
        },
        None => {},
    }
    match stream_text {
        Some(t) => t,
        None => fallback_text,
    }
}

/// Whether to emit a partial transcript: only while speech is detected, at
/// most every 300 ms, and never at maximum playback speed.
pub fn should_emit_partial(max_speed: bool, detected: bool, elapsed_ms: u64) -> (r: bool)
    ensures
        r == (detected && !max_speed && elapsed_ms >= 300),
{
    detected && !max_speed && elapsed_ms >= PARTIAL_TRANSCRIPT_INTERVAL_MS
}

/// Start of a final sentence: its end moved back by the segment's duration
/// (16 samples per ms), not below zero.
pub fn sentence_start_ms(end_ms: u64, sample_count: usize) -> (r: u64)
    ensures
        r == (if end_ms >= sample_count / 16 {
            end_ms - sample_count / 16
        } else {
            0
        }),
{
    end_ms.saturating_sub(sample_count as u64 / 16)
}

/// Frames per playback block at the source rate; at least one.
pub fn feed_frames_per_chunk(sample_rate: u32, chunk_ms: u64) -> (r: usize)
    requires
        sample_rate * chunk_ms <= u64::MAX,
    ensures
        r == (if sample_rate * chunk_ms / 1000 >= 1 {
            sample_rate * chunk_ms / 1000
        } else {
            1
        }) as usize,
{
    let n = (sample_rate as u64) * chunk_ms / 1000;
    let m = if n >= 1 {
        n
    } else {
        1
    };
    m as usize
}

/// Recording of a session: 16-bit samples, dropped as a whole once the cap
/// is passed.
pub struct SessionRecorder {
    samples: Vec<i16>,
    capped: bool,
}

impl SessionRecorder {
    pub closed spec fn kept(&self) -> Seq<i16> {
        self.samples@
    }

    pub closed spec fn is_capped(&self) -> bool {
        self.capped
    }

    pub fn new() -> (r: Self)
        ensures
            r.kept() == Seq::<i16>::empty(),
            !r.is_capped(),
    {
        SessionRecorder { samples: Vec::new(), capped: false }
    }

    /// Adds converted samples unless that would pass `cap`; passing it marks
    /// the recording truncated and no later block is kept.
    pub fn push_pcm_with_cap(&mut self, pcm: &[i16], cap: usize)
        ensures
            old(self).is_capped() ==> final(self).kept() == old(self).kept() && final(self).is_capped(),
            !old(self).is_capped() && old(self).kept().len() + pcm@.len() > cap ==> final(self).kept()
                == old(self).kept() && final(self).is_capped(),
            !old(self).is_capped() && old(self).kept().len() + pcm@.len() <= cap ==> final(self).kept()
                == old(self).kept() + pcm@ && !final(self).is_capped(),
    {
        if self.capped {
            return;
        }
        if pcm.len() > cap || self.samples.len() > cap - pcm.len() {
            self.capped = true;
            return;
        }
        let mut i: usize = 0;
        let ghost start = self.samples@;
        while i < pcm.len()
            invariant
                i <= pcm@.len(),
                self.samples@ == start + pcm@.subrange(0, i as int),
                !self.capped,
            decreases pcm@.len() - i,
        {
            self.samples.push(pcm[i]);
            i = i + 1;
            assert(self.samples@ =~= start + pcm@.subrange(0, i as int));
        }
        assert(pcm@.subrange(0, pcm@.len() as int) =~= pcm@);
    }

    /// The samples of an untruncated, non-empty recording.
    pub fn finish(self) -> (r: Option<Vec<i16>>)
        ensures
            match r {
                Some(v) => !self.is_capped() && self.kept().len() > 0 && v@ == self.kept(),
                None => self.is_capped() || self.kept().len() == 0,
            },
    {
        if self.capped || self.samples.len() == 0 {
            None
        } else {
            Some(self.samples)
        }
    }
}

#[verifier::external_type_specification]
#[verifier::external_body]
pub struct ExInstant(std::time::Instant);

/// Milliseconds since `started` (`Instant::elapsed`), cut to 64 bits.
/// Nothing is stated of the value: it is the wall clock.
#[verifier::external_body]
fn elapsed_ms(started: &std::time::Instant) -> u64 {
    started.elapsed().as_millis() as u64
}

/// Sentence clock: the wall clock for the microphone, the content position
/// (16 kHz samples fed so far) for file playback.
pub enum SessionClock {
    Wall { started: std::time::Instant },
    Content { fed_samples: u64 },
}

impl SessionClock {
    /// Current time in ms; for file playback `fed_samples * 1000 / 16000`.
    pub fn now_ms(&self) -> (r: u64)
        requires
            *self matches SessionClock::Content { fed_samples } ==> fed_samples * 1000 <= u64::MAX,
        ensures
            *self matches SessionClock::Content { fed_samples } ==> r == fed_samples * 1000 / 16000,
    {
        match self {
            SessionClock::Wall { started } => elapsed_ms(started),
            SessionClock::Content { fed_samples } => *fed_samples * 1000 / 16000,
        }
    }

    /// Records more 16 kHz samples fed; only the content clock moves.
    pub fn advance(&mut self, samples_16k: usize)
        requires
            *old(self) matches SessionClock::Content { fed_samples } ==> fed_samples + samples_16k
                <= u64::MAX,
        ensures
            match *old(self) {
                SessionClock::Content { fed_samples } => *final(self) == SessionClock::Content {
                    fed_samples: (fed_samples + samples_16k) as u64,
                },
                SessionClock::Wall { started } => *final(self) == SessionClock::Wall { started },
            },
    {
        match self {
            SessionClock::Content { fed_samples } => {
                *fed_samples = *fed_samples + samples_16k as u64;
            },
            SessionClock::Wall { .. } => {},
        }
    }
}

} // verus!

verus! {

/// The newest `cap` items of `s` (all of them when there are fewer).
pub open spec fn newest<T>(s: Seq<T>, cap: nat) -> Seq<T> {
    if s.len() > cap {
        s.subrange(s.len() - cap, s.len() as int)
    } else {
        s
    }
}

fn copy_tail<T: Copy>(all: &Vec<T>, from: usize) -> (r: Vec<T>)
    requires
        from <= all@.len(),
    ensures
        r@ == all@.subrange(from as int, all@.len() as int),
{
    let mut r: Vec<T> = Vec::new();
    let mut i = from;
    while i < all.len()
        invariant
            from <= i <= all@.len(),
            r@ == all@.subrange(from as int, i as int),
        decreases all@.len() - i,
    {
        r.push(all[i]);
        assert(r@ =~= all@.subrange(from as int, i + 1));
        i = i + 1;
    }
    r
}

/// Keeps the live buffer from growing without bound during long silences:
/// only the newest `cap_samples` samples stay.
pub fn trim_segment_to_cap<T: Copy>(segment: &mut Vec<T>, cap_samples: usize)
    ensures
        final(segment)@ == newest(old(segment)@, cap_samples as nat),
{
    if segment.len() > cap_samples {
        let kept = copy_tail(segment, segment.len() - cap_samples);
        *segment = kept;
    }
}

/// The pre-roll buffer: the new samples appended, then only the newest
/// `cap` kept (the oldest dropped first).
pub fn push_pre_roll<T: Copy>(buf: &mut Vec<T>, samples: &[T], cap: usize)
    ensures
        final(buf)@ == newest(old(buf)@ + samples@, cap as nat),
{
    let mut i: usize = 0;
    let ghost start = buf@;
    while i < samples.len()
        invariant
            i <= samples@.len(),
            start == old(buf)@,
            buf@ == start + samples@.subrange(0, i as int),
        decreases samples@.len() - i,
    {
        buf.push(samples[i]);
        assert(buf@ =~= start + samples@.subrange(0, i + 1));
        i = i + 1;
    }
    assert(samples@.subrange(0, samples@.len() as int) =~= samples@);
    trim_segment_to_cap(buf, cap);
}

} // verus!

verus! {

pub open spec fn opt_text(o: Option<String>) -> Option<Seq<char>> {
    match o {
        Some(t) => Some(t@),
        None => None,
    }
}

/// The text a segment becomes: the chosen final text (see [`final_text`]),
/// trimmed and corrected.
pub open spec fn segment_text(
    offline: Option<Seq<char>>,
    stream: Option<Seq<char>>,
    fallback: Seq<char>,
    corrections: Seq<(Seq<char>, Seq<char>)>,
) -> Seq<char> {
    crate::settings::corrected(trim(final_text(offline, stream, fallback)), corrections)
}

/// The final sentence of a segment: its text (see [`segment_text`]) with
/// the next id, ending now and starting the segment's duration earlier;
/// none when the text comes out empty (the id is then not used).
pub fn final_sentence(
    last_id: u64,
    offline_text: Option<String>,
    stream_text: Option<String>,
    fallback_text: String,
    corrections: &[crate::settings::Correction],
    end_ms: u64,
    sample_count: usize,
) -> (r: Option<Sentence>)
    requires
        last_id < u64::MAX,
    ensures
        ({
            let t = segment_text(
                opt_text(offline_text),
                opt_text(stream_text),
                fallback_text@,
                corrections@.map_values(|c: crate::settings::Correction| (c.from@, c.to@)),
            );
            if t.len() == 0 {
                r is None
            } else {
                r matches Some(s) && s.id == last_id + 1 && s.text@ == t && s.end_ms == end_ms && s.start_ms == (if end_ms
                    >= sample_count / 16 {
                    end_ms - sample_count / 16
                } else {
                    0
                })
            }
        }),
{
    let picked = pick_final_text(offline_text, stream_text, fallback_text);
    let trimmed = trim_string(picked.as_str());
    let text = crate::settings::apply_corrections(trimmed.as_str(), corrections);
    if text.as_str().is_empty() {
        return None;
    }
    Some(Sentence { id: last_id + 1, text, start_ms: sentence_start_ms(end_ms, sample_count), end_ms })
}

} // verus!

verus! {

/// What to do with the recogniser stream for one audio block.
#[derive(Debug, Clone, PartialEq, Eq)]
pub enum StreamAction<T> {
    /// Nothing goes to a stream (silence is kept as pre-roll, or the segment
    /// is being cut).
    Nothing,
    /// A new stream is opened and fed these samples: the pre-roll, then the
    /// block.
    Open(Vec<T>),
    /// The open stream is fed the block.
    Feed,
}

/// The segment-stream bookkeeping: whether a recogniser stream is open and
/// the pre-roll of recent silence kept for the next segment's start.
pub struct SegmentFeed<T> {
    open: bool,
    pre_roll: Vec<T>,
}

impl<T: Copy> SegmentFeed<T> {
    pub closed spec fn is_open(&self) -> bool {
        self.open
    }

    pub closed spec fn kept(&self) -> Seq<T> {
        self.pre_roll@
    }

    pub fn new() -> (r: Self)
        ensures
            !r.is_open(),
            r.kept() == Seq::<T>::empty(),
    {
        SegmentFeed { open: false, pre_roll: Vec::new() }
    }

    pub fn is_alive(&self) -> (r: bool)
        ensures
            r == self.is_open(),
    {
        self.open
    }

    /// One audio block: silence without a stream rolls the pre-roll (the
    /// newest `cap` samples); the first voiced block opens a stream fed the
    /// pre-roll and the block; later voiced blocks feed the stream; silence
    /// while a stream is open (the segment is being cut) does nothing.
    pub fn push(&mut self, vad_detected: bool, samples: &[T], cap: usize) -> (r: StreamAction<T>)
        ensures
            !vad_detected && !old(self).is_open() ==> r == StreamAction::<T>::Nothing && !final(self).is_open()
                && final(self).kept() == newest(old(self).kept() + samples@, cap as nat),
            vad_detected && !old(self).is_open() ==> (r matches StreamAction::Open(v) && v@ == old(self).kept() + samples@)
                && final(self).is_open() && final(self).kept() == old(self).kept(),
            vad_detected && old(self).is_open() ==> r == StreamAction::<T>::Feed && final(self).is_open()
                && final(self).kept() == old(self).kept(),
            !vad_detected && old(self).is_open() ==> r == StreamAction::<T>::Nothing && final(self).is_open()
                && final(self).kept() == old(self).kept(),
    {
        match stream_step(vad_detected, self.open) {
            StreamStep::BufferPreRoll => {
                push_pre_roll(&mut self.pre_roll, samples, cap);
                StreamAction::Nothing
            },
            StreamStep::CreateStream => {
                let mut first = copy_tail(&self.pre_roll, 0);
                let mut i: usize = 0;
                let ghost start = first@;
                assert(start =~= self.pre_roll@);
                while i < samples.len()
                    invariant
                        i <= samples@.len(),
                        first@ == start + samples@.subrange(0, i as int),
                    decreases samples@.len() - i,
                {
                    first.push(samples[i]);
                    assert(first@ =~= start + samples@.subrange(0, i + 1));
                    i = i + 1;
                }
                assert(samples@.subrange(0, samples@.len() as int) =~= samples@);
                self.open = true;
                StreamAction::Open(first)
            },
            StreamStep::FeedStream => StreamAction::Feed,
            StreamStep::Hold => StreamAction::Nothing,
        }
    }

    /// The segment ended: returns whether a stream was open (its final text
    /// is then read); the stream closes and the pre-roll starts empty.
    pub fn finish(&mut self) -> (r: bool)
        ensures
            r == old(self).is_open(),
            !final(self).is_open(),
            final(self).kept() == Seq::<T>::empty(),
    {
        let was = self.open;
        self.open = false;
        self.pre_roll = Vec::new();
        was
    }
}

} // verus!
