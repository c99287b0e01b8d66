# plex

Storage-drift detection and repair, account presence and self-healing for a Plex
Media Server.

- `src/` is the library. Everything that decides lives here, with contracts that
  Verus proves: the prefix rewrites that bring drifted paths back under a live
  root, the report on an instance, the SQL and the guest commands, the steps of a
  check and of a repair, the verdict on a server's announce, and the ladder that
  ends in a restart. Functions named `law_...` state what holds across them.
- `tests/` runs the library on concrete values.
- `app/` is the plugin program: it runs the commands, talks HTTP, reads the clock
  and gives results their wire format.

One call is taken on trust, that of `String::from_utf8_lossy` on the output of a
command (`storage/guest.rs`).

What the database engine makes of the SQL text is not modelled: the contracts fix
the text, and the laws on applying a plan speak of paths as sequences of segments.
