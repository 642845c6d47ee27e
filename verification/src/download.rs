//! The models that can be downloaded.

use vstd::prelude::*;

use crate::numerals::{decimal, push_number};
use crate::options::{engine_of, Engine};
use crate::paths::PathStyle;
use crate::text::{chars_of, same_text};

verus! {

/// A speech-to-text model.
#[derive(Debug, Clone, Copy)]
pub struct SpeechModel {
    pub name: &'static str,
    pub size: &'static str,
    /// Caveat shown in the model picker, e.g. a language restriction.
    pub note: &'static str,
    /// Local filename under models/.
    pub file: &'static str,
    pub url: &'static str,
}

/// A speaker-diarization model.
#[derive(Debug, Clone, Copy)]
pub struct DiarizationModel {
    /// Local filename under models/.
    pub file: &'static str,
    pub url: &'static str,
}

/// The model that is used until another one is picked.
pub const DEFAULT_MODEL: &'static str = "large-v3-turbo";

/// Chat model used by the Summarize button: Llama 3.2 3B Instruct,
/// Q4_K_M-quantized. Small enough to run on CPU at usable speed while still
/// producing solid meeting summaries.
pub const SUMMARY_MODEL_FILE: &'static str = "Llama-3.2-3B-Instruct-Q4_K_M.gguf";

pub const SUMMARY_MODEL_URL: &'static str = "https://huggingface.co/bartowski/Llama-3.2-3B-Instruct-GGUF/resolve/main/Llama-3.2-3B-Instruct-Q4_K_M.gguf";

pub const SUMMARY_MODEL_SIZE: &'static str = "2.0 GB";

/// whisper.cpp's built-in voice activity detection model (Silero v5.1.2, under
/// 1 MB). With it, whisper only decodes stretches that contain speech, which
/// removes the hallucinated sentences it otherwise invents for silence and
/// background noise in long recordings.
pub const VAD_MODEL_FILE: &'static str = "ggml-silero-v5.1.2.bin";

pub const VAD_MODEL_URL: &'static str = "https://huggingface.co/ggml-org/whisper-vad/resolve/main/ggml-silero-v5.1.2.bin";

/// Speech-to-text models, downloadable from Hugging Face. The `.bin` files are
/// Whisper models run by whisper.cpp: large-v3-turbo is the best multilingual
/// accuracy/speed tradeoff, distil-large-v3.5 is faster and slightly more
/// accurate but English-only, and the small ones trade accuracy for speed and
/// disk space. The `.gguf` entry is NVIDIA's Parakeet, run by transcribe.cpp:
/// more accurate than any Whisper on English and an order of magnitude faster,
/// but limited to 25 European languages and unable to take the
/// vocabulary/context prompt.
pub open spec fn speech_table() -> Seq<SpeechModel> {
    seq![
        SpeechModel {
            name: "tiny",
            size: "75 MB",
            note: "",
            file: "ggml-tiny.bin",
            url: "https://huggingface.co/ggerganov/whisper.cpp/resolve/main/ggml-tiny.bin",
        },
        SpeechModel {
            name: "base",
            size: "142 MB",
            note: "",
            file: "ggml-base.bin",
            url: "https://huggingface.co/ggerganov/whisper.cpp/resolve/main/ggml-base.bin",
        },
        SpeechModel {
            name: "small",
            size: "466 MB",
            note: "",
            file: "ggml-small.bin",
            url: "https://huggingface.co/ggerganov/whisper.cpp/resolve/main/ggml-small.bin",
        },
        SpeechModel {
            name: "medium",
            size: "1.5 GB",
            note: "",
            file: "ggml-medium.bin",
            url: "https://huggingface.co/ggerganov/whisper.cpp/resolve/main/ggml-medium.bin",
        },
        SpeechModel {
            name: "large-v3-turbo",
            size: "1.6 GB",
            note: "",
            file: "ggml-large-v3-turbo.bin",
            url: "https://huggingface.co/ggerganov/whisper.cpp/resolve/main/ggml-large-v3-turbo.bin",
        },
        SpeechModel {
            name: "large-v3",
            size: "2.9 GB",
            note: "",
            file: "ggml-large-v3.bin",
            url: "https://huggingface.co/ggerganov/whisper.cpp/resolve/main/ggml-large-v3.bin",
        },
        SpeechModel {
            name: "distil-large-v3.5",
            size: "1.5 GB",
            note: "English only",
            file: "ggml-distil-large-v3.5.bin",
            url: "https://huggingface.co/distil-whisper/distil-large-v3.5-ggml/resolve/main/ggml-model.bin",
        },
        SpeechModel {
            name: "parakeet-tdt-0.6b-v3",
            size: "705 MB",
            note: "25 European languages, fastest, ignores vocabulary/context",
            file: "parakeet-tdt-0.6b-v3-Q8_0.gguf",
            url: "https://huggingface.co/handy-computer/parakeet-tdt-0.6b-v3-gguf/resolve/main/parakeet-tdt-0.6b-v3-Q8_0.gguf",
        },
    ]
}

/// The models to pick from, in order.
pub fn speech_models() -> (r: Vec<SpeechModel>)
    ensures
        r@ == speech_table(),
{
    let mut out: Vec<SpeechModel> = Vec::new();
    out.push(
        SpeechModel {
            name: "tiny",
            size: "75 MB",
            note: "",
            file: "ggml-tiny.bin",
            url: "https://huggingface.co/ggerganov/whisper.cpp/resolve/main/ggml-tiny.bin",
        },
    );
    out.push(
        SpeechModel {
            name: "base",
            size: "142 MB",
            note: "",
            file: "ggml-base.bin",
            url: "https://huggingface.co/ggerganov/whisper.cpp/resolve/main/ggml-base.bin",
        },
    );
    out.push(
        SpeechModel {
            name: "small",
            size: "466 MB",
            note: "",
            file: "ggml-small.bin",
            url: "https://huggingface.co/ggerganov/whisper.cpp/resolve/main/ggml-small.bin",
        },
    );
    out.push(
        SpeechModel {
            name: "medium",
            size: "1.5 GB",
            note: "",
            file: "ggml-medium.bin",
            url: "https://huggingface.co/ggerganov/whisper.cpp/resolve/main/ggml-medium.bin",
        },
    );
    out.push(
        SpeechModel {
            name: "large-v3-turbo",
            size: "1.6 GB",
            note: "",
            file: "ggml-large-v3-turbo.bin",
            url: "https://huggingface.co/ggerganov/whisper.cpp/resolve/main/ggml-large-v3-turbo.bin",
        },
    );
    out.push(
        SpeechModel {
            name: "large-v3",
            size: "2.9 GB",
            note: "",
            file: "ggml-large-v3.bin",
            url: "https://huggingface.co/ggerganov/whisper.cpp/resolve/main/ggml-large-v3.bin",
        },
    );
    out.push(
        SpeechModel {
            name: "distil-large-v3.5",
            size: "1.5 GB",
            note: "English only",
            file: "ggml-distil-large-v3.5.bin",
            url: "https://huggingface.co/distil-whisper/distil-large-v3.5-ggml/resolve/main/ggml-model.bin",
        },
    );
    out.push(
        SpeechModel {
            name: "parakeet-tdt-0.6b-v3",
            size: "705 MB",
            note: "25 European languages, fastest, ignores vocabulary/context",
            file: "parakeet-tdt-0.6b-v3-Q8_0.gguf",
            url: "https://huggingface.co/handy-computer/parakeet-tdt-0.6b-v3-gguf/resolve/main/parakeet-tdt-0.6b-v3-Q8_0.gguf",
        },
    );
    out
}

/// Whether the model at `i` is the first one of that name.
pub open spec fn named(i: int, name: Seq<char>) -> bool {
    &&& 0 <= i < speech_table().len()
    &&& speech_table()[i].name@ == name
    &&& forall|j: int| 0 <= j < i ==> (#[trigger] speech_table()[j]).name@ != name
}

/// The model of that name, if it is offered.
pub fn model_by_name(name: &str) -> (r: Option<SpeechModel>)
    ensures
        r is Some <==> exists|i: int| #[trigger] named(i, name@),
        r matches Some(model) ==> exists|i: int| #[trigger]
            named(i, name@) && model == speech_table()[i],
{
    let all = speech_models();
    let wanted = chars_of(name);
    let mut i: usize = 0;
    while i < all.len()
        invariant
            i <= all@.len(),
            all@ == speech_table(),
            wanted@ == name@,
            forall|j: int| 0 <= j < i ==> (#[trigger] speech_table()[j]).name@ != name@,
        decreases all.len() - i,
    {
        let theirs = chars_of(all[i].name);
        if same_text(&theirs, &wanted) {
            proof {
                assert(named(i as int, name@));
            }
            return Some(all[i]);
        }
        i += 1;
    }
    proof {
        assert forall|k: int| !#[trigger] named(k, name@) by {
            if 0 <= k < speech_table().len() {
                assert(speech_table()[k].name@ != name@);
            }
        }
    }
    None
}

/// Speaker-diarization ONNX models (pyannote segmentation + wespeaker embeddings,
/// ~34 MB total), mirrored by the pyannote-rs project.
pub fn diarization_models() -> (r: Vec<DiarizationModel>)
    ensures
        r@ == seq![
            DiarizationModel {
                file: "segmentation-3.0.onnx",
                url: "https://github.com/thewh1teagle/pyannote-rs/releases/download/v0.1.0/segmentation-3.0.onnx",
            },
            DiarizationModel {
                file: "wespeaker_en_voxceleb_CAM++.onnx",
                url: "https://github.com/thewh1teagle/pyannote-rs/releases/download/v0.1.0/wespeaker_en_voxceleb_CAM++.onnx",
            },
        ],
{
    let mut out: Vec<DiarizationModel> = Vec::new();
    out.push(
        DiarizationModel {
            file: "segmentation-3.0.onnx",
            url: "https://github.com/thewh1teagle/pyannote-rs/releases/download/v0.1.0/segmentation-3.0.onnx",
        },
    );
    out.push(
        DiarizationModel {
            file: "wespeaker_en_voxceleb_CAM++.onnx",
            url: "https://github.com/thewh1teagle/pyannote-rs/releases/download/v0.1.0/wespeaker_en_voxceleb_CAM++.onnx",
        },
    );
    out
}

/// Whether a model takes the vocabulary/context prompt: only Whisper does. A
/// model that is not offered is taken for one that does.
pub fn takes_prompt(name: &str) -> (r: bool)
    ensures
        r == !(exists|i: int| #[trigger]
            named(i, name@) && engine_of(speech_table()[i].file@, PathStyle::Slashes)
                != Engine::Whisper),
{
    match model_by_name(name) {
        Some(model) => {
            let ghost at = choose|i: int| #[trigger] named(i, name@) && model == speech_table()[i];
            let r = match Engine::for_model(model.file, PathStyle::Slashes) {
                Engine::Whisper => true,
                Engine::TranscribeCpp => false,
            };
            proof {
                assert(named(at, name@));
                assert forall|i: int| #[trigger] named(i, name@) implies i == at by {
                    if i < at {
                        assert(speech_table()[i].name@ != name@);
                    } else if at < i {
                        assert(speech_table()[at].name@ != name@);
                    }
                }
            }
            r
        },
        None => true,
    }
}

/// Check a download once its source has ended: an error where bytes are missing
/// or too many, as far as their number is known.
pub fn check_complete(done: u64, total: Option<u64>) -> (r: Result<(), String>)
    ensures
        r is Err <==> (total matches Some(n) && done != n),
        r matches Err(message) ==> message@ == "incomplete download: got "@ + decimal(done as nat)
            + " of "@ + decimal(total->Some_0 as nat) + " bytes"@,
{
    match total {
        Some(n) => {
            if done != n {
                let mut out = "incomplete download: got ".to_owned();
                push_number(&mut out, done);
                out.push_str(" of ");
                push_number(&mut out, n);
                out.push_str(" bytes");
                return Err(out);
            }
            Ok(())
        },
        None => Ok(()),
    }
}

/// Every name is that of one model only.
pub proof fn law_names_tell_models_apart(i: int, j: int)
    requires
        0 <= i < speech_table().len(),
        0 <= j < speech_table().len(),
        speech_table()[i].name@ == speech_table()[j].name@,
    ensures
        i == j,
{
    reveal_strlit("tiny");
    reveal_strlit("base");
    reveal_strlit("small");
    reveal_strlit("medium");
    reveal_strlit("large-v3-turbo");
    reveal_strlit("large-v3");
    reveal_strlit("distil-large-v3.5");
    reveal_strlit("parakeet-tdt-0.6b-v3");
    let table = speech_table();
    assert(table.len() == 8);
    assert(table[0].name@.len() == 4 && table[0].name@[0] == 't');
    assert(table[1].name@.len() == 4 && table[1].name@[0] == 'b');
    assert(table[2].name@.len() == 5);
    assert(table[3].name@.len() == 6);
    assert(table[4].name@.len() == 14);
    assert(table[5].name@.len() == 8);
    assert(table[6].name@.len() == 17);
    assert(table[7].name@.len() == 20);
}

} // verus!
