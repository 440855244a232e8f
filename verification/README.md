# unbind

Finds the processes that listen on local TCP ports and frees the ports:
`unbind list [--json]`, `unbind find PORT`, `unbind kill PORT [--force]`,
and, without a command, an interactive terminal view.

The library in `src/` is verified with Verus:

- `text` — whitespace, decimal numbers, trimming, padding and substring
  search over character sequences;
- `ports` — the parser of `lsof` output (field format and table), the
  removal of repeated entries, and the commands that `ps` names;
- `process` — which PIDs can be signalled, and the messages when not;
- `cli` — what `list` and `find` print, and the steps of `kill` as a state
  machine;
- `tui` — the state of the terminal view and what each key does.

`app/` is the program around it: arguments (clap), running `lsof` and `ps`,
signals (nix), JSON (serde), and the terminal (crossterm, ratatui).
