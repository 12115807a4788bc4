# tts_taps

Speech taps for a streaming hub: text normalization and chunking for the
Supertonic ONNX models, the tensor layouts the models read, and the plain
decisions of the SAM and fixed-recording taps.

- `src/` is the library, written in Verus: `text` (normalization and language
  tags), `chunk` and `chunk_laws` (splitting long texts and what every chunk
  satisfies), `processor` (token rows and masks), `style` (voice style
  batches), `config` (latent layout), `audio` (chunk size per language and
  joining waveforms), `assets` (the steps that fetch the model files) and
  `tap` (replies to the hub).
- `app/` is the executable around it: environment, files, ONNX sessions,
  random noise, WAV encoding, worker threads and the hub connection.
- `tests/` runs the library on concrete inputs.
