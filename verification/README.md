# tak_core

A verified library for the board game Tak: the rules, their notations, a
search engine's board, a board display's state, and the bookkeeping of a
publish/subscribe server. Every function in `src/` is proved by Verus
against its contract, except its trusted items: the wrappers in `time`
that read the system clock (`system_now`, `since_epoch`,
`duration_millis`, which promise nothing of the values), and the contract
given to `String::push` in `text`.

## Layout

- `src/` — the library:
  - rules: `coord`, `board`, `moves`, `roads`, `board_query`, `movegen`,
    `game`, `time`, `history`;
  - notations: `text`, `tps`, `board_text`, `action` (PTN moves), `ptn`;
  - display: `ui` (moves being entered, tiles), `ui_state` (what is drawn);
  - engine: `takumi` (bitboards, placing), `takumi_spread` (spreads),
    `takumi_road`, `takumi_text`, `takumi_read` (positions as text),
    `takumi_movegen` (move generation and drop tables), `takumi_play`
    (playing and taking back moves, perft), `takumi_search` (time use and
    the transposition table);
  - publish/subscribe: `topic` (topic filters), `client_info`, `pubsub`;
  - forms: `forms` (user names, passwords, time controls as text).
- `tests/` — tests run against the compiled library.
- `app/` — a command-line perft driver and a display wrapper that calls
  listeners on each redraw.

Laws the library states and proves include: taking back a placement or a
move restores the board (`board_query`, `moves`, `takumi`,
`takumi_spread`, `takumi_play`); TPS and PTN text read back to what was
written (`tps::law_tps_round_trip`, `action::law_ptn_round_trip`,
`board_text::law_board_tps_round_trip`); packed
drops unpack to the drops (`takumi_movegen::law_encode_decode`); the
generated partitions are partitions (`movegen::law_partitions_sound`); a
placement is generated exactly when placing it succeeds
(`movegen::law_placements_generated`); a game's PTN header reads back to
its settings (`game::law_header_round_trip`); playing an engine move makes
one board (`takumi_play::law_make_deterministic`), so a perft count is
unique (`takumi_play::law_perft_count_unique`).
