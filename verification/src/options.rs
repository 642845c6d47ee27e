//! What the pipeline needs besides the audio itself, and what the engines make
//! of it.

use vstd::prelude::*;

use crate::diarize::SpeakerProfile;
use crate::paths::{extension_of, file_extension, PathStyle};
use crate::prompt::DEFAULT_PROMPT;
use crate::text::{chars_of, same_ignoring_case, same_text, to_ascii_lower};

verus! {

/// Which inference engine a speech model runs on.
#[derive(Debug, Clone, Copy, PartialEq, Eq, Structural)]
pub enum Engine {
    /// ggml Whisper models (`ggml-*.bin`) via whisper.cpp.
    Whisper,
    /// GGUF models (NVIDIA Parakeet, Qwen3-ASR) via transcribe.cpp.
    TranscribeCpp,
}

/// The engine that a model file runs on.
pub open spec fn engine_of(model: Seq<char>, style: PathStyle) -> Engine {
    match extension_of(model, style) {
        Some(ext) => if to_ascii_lower(ext) == to_ascii_lower("gguf"@) {
            Engine::TranscribeCpp
        } else {
            Engine::Whisper
        },
        None => Engine::Whisper,
    }
}

impl Engine {
    /// Picked from the model file: whisper.cpp's models are `.bin`, the
    /// transcribe.cpp ones are `.gguf`.
    pub fn for_model(model: &str, style: PathStyle) -> (r: Engine)
        ensures
            r == engine_of(model@, style),
    {
        let chars = chars_of(model);
        let gguf = chars_of("gguf");
        match file_extension(&chars, style) {
            Some(ext) => if same_ignoring_case(ext, &gguf) {
                Engine::TranscribeCpp
            } else {
                Engine::Whisper
            },
            None => Engine::Whisper,
        }
    }
}

/// Everything the pipeline needs besides the audio itself.
pub struct Options<E> {
    pub model: String,
    pub language: String,
    pub beam_size: Option<i32>,
    pub translate: bool,
    pub threads: Option<i32>,
    pub prompt: String,
    pub timestamps: bool,
    pub diarize: Option<DiarizeModels<E>>,
    /// Enrolled speaker names. When these appear in the prompt (via the
    /// context notes), whisper sometimes mimics a script format and prefixes its
    /// own output with "Name:" — such prefixes are stripped from the
    /// transcription text.
    pub known_speakers: Vec<String>,
    /// Text the prompt was built from (context notes and vocabulary). Names
    /// mentioned here are treated like [`Options::known_speakers`] for prefix
    /// stripping, since they're what whisper mimics.
    pub context: String,
    /// Silero VAD model for whisper.cpp. When set, silence and noise are skipped
    /// before decoding, which stops whisper hallucinating text for them;
    /// timestamps still refer to the whole recording. None decodes everything.
    pub vad_model: Option<String>,
}

impl<E> Default for Options<E> {
    fn default() -> (r: Self)
        ensures
            r.model@ == "models/ggml-large-v3-turbo.bin"@,
            r.language@ == "auto"@,
            r.beam_size is None,
            !r.translate,
            r.threads is None,
            r.prompt@ == DEFAULT_PROMPT@,
            !r.timestamps,
            r.diarize is None,
            r.known_speakers@.len() == 0,
            r.context@.len() == 0,
            r.vad_model is None,
    {
        Options {
            model: "models/ggml-large-v3-turbo.bin".to_owned(),
            language: "auto".to_owned(),
            beam_size: None,
            translate: false,
            threads: None,
            prompt: DEFAULT_PROMPT.to_owned(),
            timestamps: false,
            diarize: None,
            known_speakers: Vec::new(),
            context: String::new(),
            vad_model: None,
        }
    }
}

/// What telling speakers apart needs.
pub struct DiarizeModels<E> {
    pub segmentation_model: String,
    pub embedding_model: String,
    pub max_speakers: usize,
    /// Voices at least this similar are one speaker.
    pub threshold: i32,
    /// Enrolled voices; diarized speakers matching one are named in the
    /// transcript instead of being numbered.
    pub profiles: Vec<SpeakerProfile<E>>,
}

/// The similarity 0.5.
pub const DEFAULT_THRESHOLD: i32 = 0x3f00_0000;

impl<E> Default for DiarizeModels<E> {
    fn default() -> (r: Self)
        ensures
            r.segmentation_model@ == "models/segmentation-3.0.onnx"@,
            r.embedding_model@ == "models/wespeaker_en_voxceleb_CAM++.onnx"@,
            r.max_speakers == MAX_SPEAKERS,
            r.threshold == DEFAULT_THRESHOLD,
            r.profiles@.len() == 0,
    {
        DiarizeModels {
            segmentation_model: "models/segmentation-3.0.onnx".to_owned(),
            embedding_model: "models/wespeaker_en_voxceleb_CAM++.onnx".to_owned(),
            max_speakers: MAX_SPEAKERS,
            threshold: DEFAULT_THRESHOLD,
            profiles: Vec::new(),
        }
    }
}

/// How many speakers are told apart where no number was chosen.
pub const MAX_SPEAKERS: usize = 8;

/// How many speakers are told apart at most.
pub fn speaker_limit(chosen: Option<usize>) -> (r: usize)
    ensures
        r == match chosen {
            Some(n) => n,
            None => MAX_SPEAKERS,
        },
{
    match chosen {
        Some(n) => n,
        None => MAX_SPEAKERS,
    }
}

/// How whisper picks tokens.
#[derive(Debug, Clone, Copy, PartialEq, Eq, Structural)]
pub enum Sampling {
    BeamSearch { beam_size: i32 },
    Greedy { best_of: i32 },
}

impl<E> Options<E> {
    /// How whisper picks tokens: by beam search where a width of more than one
    /// was asked for.
    pub fn sampling(&self) -> (r: Sampling)
        ensures
            r == match self.beam_size {
                Some(n) => if n > 1 {
                    Sampling::BeamSearch { beam_size: n }
                } else {
                    Sampling::Greedy { best_of: 5 }
                },
                None => Sampling::Greedy { best_of: 5 },
            },
    {
        match self.beam_size {
            Some(n) => if n > 1 {
                Sampling::BeamSearch { beam_size: n }
            } else {
                Sampling::Greedy { best_of: 5 }
            },
            None => Sampling::Greedy { best_of: 5 },
        }
    }

    /// Refuse what only whisper can do. The error says what that is.
    pub fn check_transcribe_cpp(&self) -> (r: Result<(), String>)
        ensures
            r is Ok <==> !self.translate && !(self.beam_size matches Some(n) && n > 1),
            r matches Err(message) ==> message@ == if self.translate {
                "translation needs a Whisper model; this one only transcribes"@
            } else {
                "beam search is a Whisper option; this model decodes greedily"@
            },
    {
        if self.translate {
            return Err("translation needs a Whisper model; this one only transcribes".to_owned());
        }
        match self.beam_size {
            Some(n) => {
                if n > 1 {
                    return Err(
                        "beam search is a Whisper option; this model decodes greedily".to_owned(),
                    );
                }
            },
            None => {},
        }
        Ok(())
    }

    /// The language to decode, none to detect it.
    pub fn fixed_language(&self) -> (r: Option<String>)
        ensures
            r is None <==> self.language@ == "auto"@,
            r matches Some(language) ==> language@ == self.language@,
    {
        let chars = chars_of(self.language.as_str());
        let auto = chars_of("auto");
        if same_text(&chars, &auto) {
            None
        } else {
            Some(self.language.clone())
        }
    }

    /// CPU threads for decoding: what the user asked for, else up to 8 of the
    /// cores, or 4 where their number is not known.
    pub fn thread_count(&self, cores: Option<usize>) -> (r: i32)
        ensures
            r == match self.threads {
                Some(n) => n as int,
                None => match cores {
                    Some(n) => if n < 8 {
                        n as int
                    } else {
                        8
                    },
                    None => 4,
                },
            },
    {
        match self.threads {
            Some(n) => n,
            None => match cores {
                Some(n) => if n < 8 {
                    n as i32
                } else {
                    8
                },
                None => 4,
            },
        }
    }
}

/// A model whose file has the extension `gguf`, in any case, runs on the one engine
/// and every other on the other.
pub proof fn law_gguf_models_have_their_engine(model: Seq<char>, style: PathStyle)
    ensures
        engine_of(model, style) == Engine::TranscribeCpp <==> (extension_of(model, style) matches Some(
            ext,
        ) && ext.len() == 4 && (ext[0] == 'g' || ext[0] == 'G') && (ext[1] == 'g' || ext[1] == 'G')
            && (ext[2] == 'u' || ext[2] == 'U') && (ext[3] == 'f' || ext[3] == 'F')),
        engine_of(model, style) == Engine::TranscribeCpp || engine_of(model, style)
            == Engine::Whisper,
{
    reveal_strlit("gguf");
    match extension_of(model, style) {
        Some(ext) => {
            let (a, b) = (to_ascii_lower(ext), to_ascii_lower("gguf"@));
            if a == b {
                assert(a.len() == 4);
                assert(a[0] == b[0] && a[1] == b[1] && a[2] == b[2] && a[3] == b[3]);
            } else if ext.len() == 4 && (ext[0] == 'g' || ext[0] == 'G') && (ext[1] == 'g' || ext[1]
                == 'G') && (ext[2] == 'u' || ext[2] == 'U') && (ext[3] == 'f' || ext[3] == 'F') {
                assert(a =~= b);
            }
        },
        None => {},
    }
}

} // verus!
