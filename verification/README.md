# ctf

A small capture-the-flag console, verified with Verus.

- `src/parser.rs` — the command-line grammar: words separated by single spaces,
  quoted words, and `--key=value` / `--key value` arguments collected in order.
- `src/commands/` — the command handler (`whoami`, `login`, `logout`, `clear`,
  `exit`) and the `help`, `test` and `challenge` commands.
- `src/console.rs` — the console's line editor as a state machine from a key to the
  new line, the history, and the screen actions to perform.
- `src/sock.rs` — the telnet session's line editor and option negotiation, from a
  chunk of received bytes to the new line and the bytes to send back.
- `src/guess.rs` — the number-guessing game's judging of a typed guess.
- `src/index_map.rs`, `src/text.rs` — the ordered argument map and character-level
  string helpers.
- `app/` — the curses window, the TCP session, challenge files, and the guessing
  game's input and output (`app reverseme`).
