# audin

Streaming speech transcription. The library in `src/` is verified with Verus; the
program in `app/` does the I/O around it.

- `pipeline::stream`: cuts a stream of audio into overlapping chunks and assembles
  the texts of the chunks into one transcription. The speech model is a function
  that the caller hands in; or the caller runs it, and is told each time what to
  transcribe next.
- `pipeline::text`: words, and the removal of words that two consecutive chunks
  share.
- `pipeline::stream_laws`: what holds of whole streams.
- `utils::pcm`: 16-bit PCM decoding, of whole buffers and of reads of any length,
  and downmixing.
- `utils::audio`: RIFF/WAV parsing; `utils::wav_laws`: what holds of it.
- `utils::cache`, `utils::network`: which files to download, and how far a
  download has come.
- `nn::model::moonshine_base`: where the model files are.

Samples are integers in the library: the amplitude of a 16-bit sample `s` is
`s / 32768`. The program converts to floating point, resamples, and runs the model.
