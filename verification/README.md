# transcribe

Local transcription of recordings and meetings. The library in `src/` holds the
rules, written in Verus and proved against their contracts; the program in `app/`
holds what talks to devices, files, the network and the models.

- `segments`, `spans`: decoded speech as timed text, and recordings cut into chunks
- `prompt`, `prefixes`, `assembly`: from vocabulary and decoded segments to a
  transcript with speaker labels and timestamps
- `turns`, `clusters`, `diarize`, `speakers`: who speaks when, and under which name
- `gate`, `segmenter`, `listening`, `session`: a live input grouped into meetings,
  and what is done with them
- `transcripts`, `filing`: meetings as files, and the list of them
- `summarize`: what the chat model is asked, and what its answer says
- `options`, `download`, `settings`, `paths`, `recording`, `applog`, `calendar`:
  models, options and places
- `desk`, `panel`: the window's state, without the drawing
- `text`, `numerals`, `ranking`: what the others are written in

Audio samples and voice fingerprints are opaque to the library. Levels and
similarities, which are floating point, come in as integers that order as they do
(`diarize::score_of_bits`). Public proof functions whose names start with `law_`
state what holds across several functions.
