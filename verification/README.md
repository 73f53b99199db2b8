# badger

A system cleaner for Arch Linux machines, as a library whose behaviour is
stated in contracts and proved by Verus.

Badger finds what can go (package caches, build output, old snapshots,
leftovers of programs that are gone), says what it would do, and does it only
when it is told to. Four promises hold of every run:

- It plans by default. A preview changes nothing, and a preview wins over
  `--yes` (`commands::shared::law_dry_run_wins`, `commands::clean::run_groups`).
- The whitelist wins. A path on it is offered greyed out and never selectable
  (`scan::law_offered_paths_are_deletable_and_whitelist_wins`).
- Only what passed every safety test right before is deleted, also behind
  `sudo`, and only what passed them is moved to the trash
  (`exec::law_only_cleared_paths_are_deleted`,
  `privilege::law_the_helper_deletes_only_what_is_cleared`,
  `analyze::trash::law_a_move_is_cleared_and_described`,
  `safety::protected::law_protected_paths_are_never_deletable`).
- Every deletion and every command of a run that acts on findings is handed to
  the journal with the time and with what came of it. The journal is read when
  the run is over, and one that gives back what it was handed tells of all that
  was skipped or went wrong, and of nothing that other runs did
  (`exec::law_every_act_is_on_record`,
  `exec::law_every_selected_act_is_on_record`,
  `commands::shared::law_nothing_is_left_untold`,
  `commands::clean::law_a_run_is_told_in_full` and its like for the other
  commands).

## Layout

- `src/` is the library. It decides: which rules apply (`rules`, `scan`,
  `purge`), what may be deleted (`safety`), which steps are taken and in what
  order (`exec`, `privilege`), how much things take (`analyze`), and what is
  said about it (`commands`, `output`). It reads and writes no file and starts
  no process.
- `app/` is the program around it: arguments, files, processes, the terminal.
  It shows the library the machine as plain values (`host::Host`) and lends it
  hands (`runner::Shell`, `exec::Hands`, `privilege::HelperHands`,
  `analyze::trash::TrashHands`) and a journal (`safety::journal::AuditLog`).
  Each of them remembers what it was asked and what it answered; of the answers
  the library takes nothing for granted. `offline::Offline` is a machine that
  answers nothing.
- `tests/` runs the library on made-up machines.

Contracts speak of views: texts are sequences of characters, and a type that
holds more has a `..Model` beside it. Whatever talks to the world keeps a log
of what it asked and what it was told, and the contracts say how that log
grows. Theorems about several functions together are named `law_..`.
