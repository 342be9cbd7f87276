# llmcli

The verified core of a small terminal frontend for [Ollama](https://ollama.com), and the program
around it.

- `src/` is the library, verified with Verus.
  - `text`: characters and strings, trimming, numbers, padding, searching.
  - `editor`: a line editor on UTF-8 text, by characters, with its redrawing.
  - `input`: the reading of a line, byte by byte: keys, control sequences, bracketed paste.
  - `terminal`: the settings of raw mode, and the watch for the escape key.
  - `media`: which files are images or audio, and how they are sent.
  - `model_cap`: what a model can do, and which models can chat.
  - `ollama`: messages and requests, the lines of a streamed reply, and what is shown of it.
  - `session`: the state of a chat, its commands, its history, and what is printed.
  - `cli`: the command line, and the choice of a model.
- `app/` is the program: the terminal, the files and the server.
- `tests/` runs the library on concrete values.

Every public function states in its contract what it returns or changes. The public proof
functions named `law_..` state what holds of several of them together.
