//! The transport: what is playing, what is loaded, and what the user is told.

use vstd::prelude::*;
use vstd::string::*;

use crate::dsp::engine::Params;
use crate::frame::FFT_SIZE;
use crate::math::SampleMath;

verus! {

/// Where the sound comes from.
#[derive(Clone, Copy, Debug, PartialEq, Eq, Structural)]
pub enum SourceKind {
    Idle,
    File,
    Mic,
}

impl Default for SourceKind {
    fn default() -> (k: Self)
        ensures
            k == SourceKind::Idle,
    {
        SourceKind::Idle
    }
}

/// What the user is told.
#[derive(Clone, Debug)]
pub struct Status<S> {
    pub message: String,
    pub source: SourceKind,
    pub loaded_name: Option<String>,
    pub loaded_duration: S,
}

impl<S: Copy> Status<S> {
    /// Nothing is loaded, nothing plays, nothing to say.
    pub fn default<M: SampleMath<S>>(m: &M) -> (s: Self)
        ensures
            s.message@ == Seq::<char>::empty(),
            s.source == SourceKind::Idle,
            s.loaded_name is None,
            call_ensures(M::ratio, (m, 0i32, 1u32), s.loaded_duration),
    {
        Status {
            message: String::new(),
            source: SourceKind::Idle,
            loaded_name: None,
            loaded_duration: m.ratio(0, 1),
        }
    }
}

/// Sources that are no longer used, and are to be stopped and disconnected.
pub struct Released<F, K, T> {
    pub file: Option<F>,
    pub mic: Option<K>,
    pub stream: Option<T>,
}

/// What is left to do after the play button.
#[derive(Clone, Copy, Debug, PartialEq, Eq, Structural)]
pub enum PlayNext {
    /// There is nothing to play.
    Nothing,
    /// The loaded buffer is to be started.
    Start,
}

/// What is left to do after the microphone button.
#[derive(Clone, Copy, Debug, PartialEq, Eq, Structural)]
pub enum MicNext {
    /// The microphone was live, and is so no more.
    Off,
    /// The microphone is to be asked for.
    Request,
}

/// How far a file has come on its way in.
#[derive(Clone, Copy, Debug, PartialEq, Eq, Structural)]
pub enum LoadStep {
    /// The file is read.
    Read,
    /// What was read is taken for bytes.
    Cast,
    /// The bytes are handed to the decoder.
    Decode,
    /// The decoder is waited for.
    Await,
    /// What it gave is taken for audio.
    Check,
    /// The file is in.
    Done,
}

/// Why a file did not come in.
#[derive(Clone, Copy, Debug, PartialEq, Eq, Structural)]
pub enum LoadFailure {
    Unreadable,
    NotBytes,
    Undecodable,
    NotAudio,
}

impl LoadStep {
    /// The step after this one, or why there is none, by whether this one went
    /// well. Nothing can fail once the file is in.
    pub open spec fn after(self, went_well: bool) -> Result<LoadStep, LoadFailure> {
        match self {
            LoadStep::Read => if went_well {
                Ok(LoadStep::Cast)
            } else {
                Err(LoadFailure::Unreadable)
            },
            LoadStep::Cast => if went_well {
                Ok(LoadStep::Decode)
            } else {
                Err(LoadFailure::NotBytes)
            },
            LoadStep::Decode => if went_well {
                Ok(LoadStep::Await)
            } else {
                Err(LoadFailure::Undecodable)
            },
            LoadStep::Await => if went_well {
                Ok(LoadStep::Check)
            } else {
                Err(LoadFailure::Undecodable)
            },
            LoadStep::Check => if went_well {
                Ok(LoadStep::Done)
            } else {
                Err(LoadFailure::NotAudio)
            },
            LoadStep::Done => Ok(LoadStep::Done),
        }
    }

    /// The step after this one, or why there is none.
    pub fn next(self, went_well: bool) -> (r: Result<LoadStep, LoadFailure>)
        ensures
            r == self.after(went_well),
    {
        match self {
            LoadStep::Read => if went_well {
                Ok(LoadStep::Cast)
            } else {
                Err(LoadFailure::Unreadable)
            },
            LoadStep::Cast => if went_well {
                Ok(LoadStep::Decode)
            } else {
                Err(LoadFailure::NotBytes)
            },
            LoadStep::Decode => if went_well {
                Ok(LoadStep::Await)
            } else {
                Err(LoadFailure::Undecodable)
            },
            LoadStep::Await => if went_well {
                Ok(LoadStep::Check)
            } else {
                Err(LoadFailure::Undecodable)
            },
            LoadStep::Check => if went_well {
                Ok(LoadStep::Done)
            } else {
                Err(LoadFailure::NotAudio)
            },
            LoadStep::Done => Ok(LoadStep::Done),
        }
    }
}

impl LoadFailure {
    /// What the user is told.
    pub open spec fn text(self) -> Seq<char> {
        match self {
            LoadFailure::Unreadable => "failed to read file"@,
            LoadFailure::NotBytes => "not an ArrayBuffer"@,
            LoadFailure::Undecodable => "decode failed"@,
            LoadFailure::NotAudio => "decoded value not AudioBuffer"@,
        }
    }

    /// What the user is told.
    pub fn message(self) -> (s: &'static str)
        ensures
            s@ == self.text(),
    {
        match self {
            LoadFailure::Unreadable => "failed to read file",
            LoadFailure::NotBytes => "not an ArrayBuffer",
            LoadFailure::Undecodable => "decode failed",
            LoadFailure::NotAudio => "decoded value not AudioBuffer",
        }
    }
}

/// Whether a file was picked: there is a list of files, and it is not empty.
pub fn file_was_picked(count: Option<u32>) -> (picked: bool)
    ensures
        picked == match count {
            Some(n) => n > 0,
            None => false,
        },
{
    match count {
        Some(n) => n > 0,
        None => false,
    }
}

/// `r` is the level that a byte of the analyser stands for: a share of 255.
pub open spec fn byte_level<S, M: SampleMath<S>>(m: &M, byte: u8, r: S) -> bool {
    exists|part: S, whole: S|
        call_ensures(M::count, (m, byte as usize), part) && call_ensures(
            M::ratio,
            (m, 255i32, 1u32),
            whole,
        ) && #[trigger] call_ensures(M::quot, (m, part, whole), r)
}

/// The state of the transport, over the handles of whatever makes the sound: a
/// decoded buffer `B`, a playing file `F`, a connected microphone `K` and its
/// stream `T`.
pub struct Audio<S, B, F, K, T> {
    pub file_source: Option<F>,
    pub mic_source: Option<K>,
    pub mic_stream: Option<T>,
    pub loaded_buffer: Option<B>,
    pub params: Params<S>,
    pub peak: S,
    pub status: Status<S>,
    pub sample_rate: S,
    pub fft_size: u32,
}

impl<S: Copy, B, F, K, T> Audio<S, B, F, K, T> {
    /// The source that is told is there: nothing is connected where there is
    /// none, a file where it is a file, a microphone and its stream where it is
    /// the microphone. What is loaded has a name, and what has a name is loaded.
    pub open spec fn wf(&self) -> bool {
        &&& (self.loaded_buffer is Some) == (self.status.loaded_name is Some)
        &&& match self.status.source {
            SourceKind::Idle => {
                &&& self.file_source is None
                &&& self.mic_source is None
                &&& self.mic_stream is None
            },
            SourceKind::File => self.file_source is Some,
            SourceKind::Mic => self.mic_source is Some && self.mic_stream is Some,
        }
    }

    /// What is loaded, the settings and the meter are the same.
    pub open spec fn same_media(&self, other: &Self) -> bool {
        &&& self.loaded_buffer == other.loaded_buffer
        &&& self.status.loaded_name == other.status.loaded_name
        &&& self.status.loaded_duration == other.status.loaded_duration
        &&& self.same_setup(other)
    }

    /// The settings and the meter are the same.
    pub open spec fn same_setup(&self, other: &Self) -> bool {
        &&& self.params == other.params
        &&& self.peak == other.peak
        &&& self.sample_rate == other.sample_rate
        &&& self.fft_size == other.fft_size
    }

    /// What is connected, and what is told of it, is the same.
    pub open spec fn same_source(&self, other: &Self) -> bool {
        &&& self.file_source == other.file_source
        &&& self.mic_source == other.mic_source
        &&& self.mic_stream == other.mic_stream
        &&& self.status.source == other.status.source
    }

    /// Nothing is connected any more, and `out` is what was.
    pub open spec fn let_go(&self, before: &Self, out: Released<F, K, T>) -> bool {
        &&& self.same_media(before)
        &&& self.status.source == SourceKind::Idle
        &&& self.file_source is None
        &&& self.mic_source is None
        &&& self.mic_stream is None
        &&& out.file == before.file_source
        &&& out.mic == before.mic_source
        &&& out.stream == before.mic_stream
    }

    /// The file plays as `src`, and nothing else has changed but the message.
    pub open spec fn plays(&self, before: &Self, src: F) -> bool {
        &&& self.same_media(before)
        &&& self.file_source == Some(src)
        &&& self.mic_source == before.mic_source
        &&& self.mic_stream == before.mic_stream
        &&& self.status.source == SourceKind::File
    }

    /// A transport at rest, with the default settings.
    pub fn new<M: SampleMath<S>>(m: &M, sample_rate: S) -> (a: Self)
        ensures
            a.wf(),
            a.status.source == SourceKind::Idle,
            a.status.message@ == Seq::<char>::empty(),
            a.status.loaded_name is None,
            call_ensures(M::ratio, (m, 0i32, 1u32), a.status.loaded_duration),
            a.loaded_buffer is None,
            call_ensures(M::ratio, (m, 0i32, 1u32), a.peak),
            a.sample_rate == sample_rate,
            a.fft_size == FFT_SIZE,
            a.params.is_default(m),
    {
        Audio {
            file_source: None,
            mic_source: None,
            mic_stream: None,
            loaded_buffer: None,
            params: Params::default(m),
            peak: m.ratio(0, 1),
            status: Status::default(m),
            sample_rate,
            fft_size: 2048,
        }
    }

    /// The sample rate.
    pub fn sample_rate(&self) -> (sr: S)
        ensures
            sr == self.sample_rate,
    {
        self.sample_rate
    }

    /// The size of the transform that the spectrum is drawn from.
    pub fn fft_size(&self) -> (n: usize)
        ensures
            n == self.fft_size,
    {
        self.fft_size as usize
    }

    /// Whether there is something to play.
    pub fn has_file(&self) -> (b: bool)
        ensures
            b == (self.loaded_buffer is Some),
    {
        self.loaded_buffer.is_some()
    }

    /// The name of what is loaded.
    pub fn loaded_name(&self) -> (name: Option<String>)
        ensures
            name == self.status.loaded_name,
    {
        match &self.status.loaded_name {
            Some(name) => Some(name.clone()),
            None => None,
        }
    }

    /// How long it is, in seconds.
    pub fn loaded_duration(&self) -> (d: S)
        ensures
            d == self.status.loaded_duration,
    {
        self.status.loaded_duration
    }

    /// Where the sound comes from.
    pub fn current_source(&self) -> (k: SourceKind)
        ensures
            k == self.status.source,
    {
        self.status.source
    }

    /// What the user is told.
    pub fn status_message(&self) -> (s: String)
        ensures
            s == self.status.message,
    {
        self.status.message.clone()
    }

    /// The level of the meter.
    pub fn peak(&self) -> (p: S)
        ensures
            p == self.peak,
    {
        self.peak
    }

    /// Takes on new settings: all of them, and nothing else changes.
    pub fn set_params(&mut self, params: Params<S>)
        requires
            old(self).wf(),
        ensures
            final(self).wf(),
            final(self).params == params,
            *final(self) == (Audio { params, ..*old(self) }),
    {
        self.params = params;
    }

    /// Lets go of whatever is connected.
    pub fn stop(&mut self) -> (out: Released<F, K, T>)
        requires
            old(self).wf(),
        ensures
            final(self).wf(),
            final(self).let_go(old(self), out),
            final(self).status.message@ == "stopped"@,
    {
        let file = self.file_source.take();
        let mic = self.mic_source.take();
        let stream = self.mic_stream.take();
        self.status.source = SourceKind::Idle;
        self.status.message = "stopped".to_owned();
        Released { file, mic, stream }
    }

    /// The play button: lets go of whatever is connected. If something is
    /// loaded, it is to be started, and [`Audio::file_started`] told once it
    /// plays.
    pub fn play_file(&mut self) -> (r: (Released<F, K, T>, PlayNext))
        requires
            old(self).wf(),
        ensures
            final(self).wf(),
            final(self).let_go(old(self), r.0),
            match old(self).loaded_buffer {
                Some(_) => r.1 == PlayNext::Start && final(self).status.message@ == "stopped"@,
                None => r.1 == PlayNext::Nothing && final(self).status.message@
                    == "no file loaded"@,
            },
    {
        let out = self.stop();
        if self.loaded_buffer.is_some() {
            (out, PlayNext::Start)
        } else {
            self.status.message = "no file loaded".to_owned();
            (out, PlayNext::Nothing)
        }
    }

    /// The loaded buffer plays, as `src`.
    pub fn file_started(&mut self, src: F)
        requires
            old(self).wf(),
        ensures
            final(self).wf(),
            final(self).plays(old(self), src),
            final(self).status.message@ == "playing file"@,
    {
        self.file_source = Some(src);
        self.status.source = SourceKind::File;
        self.status.message = "playing file".to_owned();
    }

    /// Makes way for a microphone that is about to be asked for.
    pub fn begin_mic_request(&mut self) -> (out: Released<F, K, T>)
        requires
            old(self).wf(),
        ensures
            final(self).wf(),
            final(self).let_go(old(self), out),
            final(self).status.message@ == "stopped"@,
    {
        self.stop()
    }

    /// The microphone button: lets go of whatever is connected, and asks for the
    /// microphone unless it was live.
    pub fn toggle_mic(&mut self) -> (r: (Released<F, K, T>, MicNext))
        requires
            old(self).wf(),
        ensures
            final(self).wf(),
            final(self).let_go(old(self), r.0),
            final(self).status.message@ == "stopped"@,
            r.1 == if old(self).status.source == SourceKind::Mic {
                MicNext::Off
            } else {
                MicNext::Request
            },
    {
        if self.status.source == SourceKind::Mic {
            (self.stop(), MicNext::Off)
        } else {
            (self.begin_mic_request(), MicNext::Request)
        }
    }

    /// The microphone is connected.
    pub fn attach_mic_stream(&mut self, src: K, stream: T)
        requires
            old(self).wf(),
        ensures
            final(self).wf(),
            final(self).same_media(old(self)),
            final(self).file_source == old(self).file_source,
            final(self).mic_source == Some(src),
            final(self).mic_stream == Some(stream),
            final(self).status.source == SourceKind::Mic,
            final(self).status.message@ == "microphone live"@,
    {
        self.mic_source = Some(src);
        self.mic_stream = Some(stream);
        self.status.source = SourceKind::Mic;
        self.status.message = "microphone live".to_owned();
    }

    /// Copies the current frequency-domain magnitudes into `out`, as levels from 0
    /// to 1, where `bytes` is what the analyser gives.
    pub fn read_spectrum<M: SampleMath<S>>(&self, m: &M, bytes: &[u8], out: &mut Vec<S>)
        ensures
            final(out)@.len() == bytes@.len(),
            forall|i: int|
                0 <= i < bytes@.len() ==> byte_level(m, bytes@[i], #[trigger] final(out)@[i]),
    {
        out.clear();
        let n = bytes.len();
        let mut i: usize = 0;
        while i < n
            invariant
                n == bytes@.len(),
                i <= n,
                out@.len() == i,
                forall|j: int| 0 <= j < i ==> byte_level(m, bytes@[j], #[trigger] out@[j]),
            decreases n - i,
        {
            let part = m.count(bytes[i] as usize);
            let whole = m.ratio(255, 1);
            let r = m.quot(part, whole);
            assert(call_ensures(M::quot, (m, part, whole), r));
            assert(byte_level(m, bytes@[i as int], r));
            out.push(r);
            i = i + 1;
        }
    }

    /// A file of the given name is on its way in.
    pub fn load_begun(&mut self, name: &str)
        requires
            old(self).wf(),
        ensures
            final(self).wf(),
            final(self).same_media(old(self)),
            final(self).same_source(old(self)),
            final(self).status.message@ == "decoding "@ + name@ + "…"@,
    {
        let mut message = "decoding ".to_owned();
        message.append(name);
        message.append("…");
        self.status.message = message;
    }

    /// A file did not come in. What was loaded before stays.
    pub fn load_failed(&mut self, why: LoadFailure)
        requires
            old(self).wf(),
        ensures
            final(self).wf(),
            final(self).same_media(old(self)),
            final(self).same_source(old(self)),
            final(self).status.message@ == why.text(),
    {
        self.status.message = why.message().to_owned();
    }

    /// A file is in. `seconds` is its duration as shown to the user.
    pub fn load_done(&mut self, name: String, duration: S, seconds: &str, buffer: B)
        requires
            old(self).wf(),
        ensures
            final(self).wf(),
            final(self).same_setup(old(self)),
            final(self).same_source(old(self)),
            final(self).loaded_buffer == Some(buffer),
            final(self).status.loaded_name == Some(name),
            final(self).status.loaded_duration == duration,
            final(self).status.message@ == "loaded ("@ + seconds@ + "s) — press play"@,
    {
        let mut message = "loaded (".to_owned();
        message.append(seconds);
        message.append("s) — press play");
        self.status.message = message;
        self.status.loaded_name = Some(name);
        self.status.loaded_duration = duration;
        self.loaded_buffer = Some(buffer);
    }
}

/// Where loading has come to after a number of steps that went as told, or why
/// it stopped.
pub open spec fn loaded_to(from: LoadStep, went: Seq<bool>) -> Result<LoadStep, LoadFailure>
    decreases went.len(),
{
    if went.len() == 0 {
        Ok(from)
    } else {
        match loaded_to(from, went.drop_last()) {
            Ok(step) => step.after(went.last()),
            Err(why) => Err(why),
        }
    }
}

/// A file comes in if and only if each of its five steps goes well: once there
/// were that many, it is in, or it never will be.
pub proof fn law_loading_needs_every_step(went: Seq<bool>)
    requires
        went.len() >= 5,
    ensures
        loaded_to(LoadStep::Read, went) == Ok::<LoadStep, LoadFailure>(LoadStep::Done) <==> (
        forall|k: int| 0 <= k < 5 ==> went[k]),
        loaded_to(LoadStep::Read, went) is Ok <==> (forall|k: int| 0 <= k < 5 ==> went[k]),
    decreases went.len(),
{
    if went.len() > 5 {
        law_loading_needs_every_step(went.drop_last());
        assert(forall|k: int| 0 <= k < 5 ==> went.drop_last()[k] == went[k]);
    } else {
        reveal_with_fuel(loaded_to, 6);
        let d4 = went.drop_last();
        let d3 = d4.drop_last();
        let d2 = d3.drop_last();
        let d1 = d2.drop_last();
        assert(d4.last() == went[3] && d3.last() == went[2]);
        assert(d2.last() == went[1] && d1.last() == went[0]);
        assert(went.last() == went[4]);
        assert((forall|k: int| 0 <= k < 5 ==> went[k]) <==> went[0] && went[1] && went[2]
            && went[3] && went[4]);
    }
}

/// A file that is started after the play button plays alone: no microphone is
/// connected.
pub proof fn law_file_plays_alone<S: Copy, B, F, K, T>(
    pre: Audio<S, B, F, K, T>,
    out: Released<F, K, T>,
    mid: Audio<S, B, F, K, T>,
    src: F,
    post: Audio<S, B, F, K, T>,
)
    requires
        pre.wf(),
        mid.let_go(&pre, out),
        post.plays(&mid, src),
    ensures
        post.file_source == Some(src),
        post.mic_source is None,
        post.mic_stream is None,
{
}

/// Whoever lets go twice has nothing left to release the second time.
pub proof fn law_letting_go_twice<S: Copy, B, F, K, T>(
    pre: Audio<S, B, F, K, T>,
    out: Released<F, K, T>,
    mid: Audio<S, B, F, K, T>,
    again: Released<F, K, T>,
    post: Audio<S, B, F, K, T>,
)
    requires
        mid.let_go(&pre, out),
        post.let_go(&mid, again),
    ensures
        again.file is None,
        again.mic is None,
        again.stream is None,
        post.same_media(&pre),
        post.same_source(&mid),
{
}

} // verus!
