# chronobot

Dice rolls and the rules around them for games of Chronomutants, as a
verified library (`src/`) and the program around it (`app/`).

- `src/chrono/`: die-face outcomes (`axes`), their totals (`tally`), rows of
  the dice table (`dice`), the table and rolling pools of dice, with every partial total checked
  (`table`), and
  roll requests typed in chat (`request`).
- `src/commands/roll.rs`: the `roll` command and dice pools written `NdM`.
- `src/bot.rs`: which commands a chat message calls.
- `src/command_set.rs`, `src/command_context.rs`: the rules by which the
  `CommandSet` and `CommandContext` derives find each variant's delegate and
  the field that holds the subcommands, over plain models of the input.
- `src/log.rs`, `src/env.rs`, `src/util.rs`, `src/tables.rs`, `src/naming.rs`:
  log line text, reading `.env` entries and the auth token check, choosing where a file is read from,
  picking table values, and identifier and field names.
- `src/text.rs`: the character-level parsing shared by all of the above.
- `app/`: the command line, the Discord bot, file and environment access.
