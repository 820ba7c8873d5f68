# go_webui

A Go (baduk) board that plays against, and is analysed by, KataGo engines reached over SSH
(or running on the device), written as a verified library with a thin application around it.

## Layout

- `src/` — the library, verified with Verus:
  - `color`, `grid`, `board`, `stones`, `liberties`, `game`: the rules (groups, liberties,
    captures, suicide) and the game tree of moves with its navigation (back, forward,
    branches, pass, removal of the last move) and the snapshot the board display shows.
  - `coords`: GTP vertices (`Q16`) and board points.
  - `text`, `tokens`, `floats`: whitespace, trimming, decimal numbers, splitting text, and
    the shape of floating-point number texts.
  - `analysis`: reading the streamed `kata-analyze` lines into candidate moves.
  - `session`: what each line an engine sends leads to (a reply, an analysis event).
  - `engine`: the GTP commands that keep engines in step with the game, reading `genmove`
    replies, which profile plays which colour, how a profile is connected.
  - `transport`: the SSH command line, the host key decision (trust on first use, then
    refuse a changed key), cutting channel output into lines, disconnection
    reasons.
  - `profile`, `store`, `error`, `local_keys`, `plugin`: server profiles and their store,
    the error type, the SSH keys of the machine, and the on-device engine's messages.
- `tests/` — tests of the library.
- `app/` — the Tauri application: windows and commands, files, SSH connections, the
  asynchronous GTP sessions, and serializable copies of the library's types.
