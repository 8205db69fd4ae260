# synclyr2metadata

Embeds lyrics from [LRCLIB](https://lrclib.net), or from local `.lrc` files, into the metadata of
FLAC, MP3, OGG (Vorbis/Opus) and MP4/M4A files.

## Layout

- `src/` is the library. It is verified with Verus: every function states in its contract what it
  returns, and the laws of a module are proof functions whose names start with `law_`.
  - `metadata/` parses and rewrites the tags of each audio format, on the bytes of a file.
  - `json`, `http_client` and `lrclib` hold the JSON parser, the HTTP messages, redirects and
    retries, and the lookup strategy with its scoring.
  - `sync`, `walk`, `fs_util`, `cli`, `lidarr`, `logger` and `report` hold the decisions and texts
    of the program.
  - `text` and `bytes` hold what the others build on.
- `app/` is the program around it: sockets and TLS, files, threads and output.
- `tests/` runs the library on concrete values.

## What is not proved

A few functions of the standard library (decoding UTF-8, adding a character to a text, turning a
number into a character) and the syntax check of TLS server names by `rustls` are trusted to do
what their contracts say. Their doc comments tell what that is.
