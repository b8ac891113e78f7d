# tmux-leap

Hint overlays for tmux panes: regex matches in every pane of the active
window get short letter hints; typing a hint copies, pastes, opens or jumps
to the match.

The logic is a Verus library under `src/`, every function of it carrying a
contract that Verus proves:

- `display_width`, `text`, `table`, `sort`: terminal column widths, string
  helpers, small association tables and a stable insertion sort.
- `hint::huffman`: Huffman-coded hints over a keyboard alphabet, with the
  laws that there are as many hints as asked, shortest first, and that no
  hint is a prefix of another; the hint cache file format and its round trip.
- `hinter`: scanning panes with the configured patterns, resolving
  overlapping matches, giving out hints (reused for equal texts outside jump
  mode) and drawing each pane's overlay frame.
- `view`, `state`: the input state machine of a hint session, with laws on
  typing a hint letter by letter and on multi-select.
- `tmux`, `match_formatter`, `action_runner`, `config`, `cmd`: tmux style
  strings, the tmux command lines the tool runs, the actions taken on a
  selected match, the configuration read from `@leap-*` options and the
  steps of the `start` and `load-config` commands.

Calls into `regex`, `unicode-width`, `dirs` and `which` go through the
trusted wrappers in `src/outside.rs`, whose contracts state what those crates
document.

`app/` is the binary around the library: argument parsing (clap), JSON
(serde), running tmux, the input socket and writing frames to terminals.
