# ambient

Local-first capture, transcription and attribution of conversations.

- `src/` is the library: sessions and their edits, transcripts and exports, the
  recogniser's and diarizer's decisions, the menu bar's states, the API and the MCP
  server. It is verified with Verus, down to the calls it makes into the standard
  library and into `serde_json`: what those do is stated and trusted, not proved.
  Each such item says so above it. They stand in `text` (comparing, pushing,
  lowercasing and classifying characters), `attribution` (quoting), `config`
  (reading a number), `json` and `roster` (reading and writing JSON) and `mcp`
  (decoding bytes).
- `app/` is the program around it: files, models, audio devices and, on macOS, the
  menu bar and the window.
- `tests/` runs the library on concrete values.

A few modules to start from:

| module | what it holds |
| --- | --- |
| `transcript`, `attribution`, `bleed` | what a session says, who said it, and which lines are echoes |
| `recording`, `claim`, `shelf`, `live` | how a session comes to be, who owns it, and how it survives a crash |
| `state`, `menubar`, `queue`, `settings`, `window` | what the app is doing and what it shows |
| `vad`, `asr`, `diarize` | speech, words and speakers out of what the models say |
| `wer`, `der`, `assignment`, `bench` | how far a result is from the truth |
| `api`, `mcp`, `json`, `export`, `markdown` | what goes in and out |

Sound and model outputs are floating point and stay in `app/`; the library works on
integers that order as they do.
