# wrangler_cmd

Compact summaries of what `wrangler deploy` and `wrangler pages deploy` print.

- `src/text.rs`: the text model (characters, trim, lines, words, joins,
  decimal numbers) with the executable helpers proved against it.
- `src/ansi.rs`: removal of terminal escape sequences.
- `src/report.rs`: error lines and failure reports shared by both commands.
- `src/deploy.rs`: reading `wrangler deploy` output, its binding types, and
  its summary.
- `src/pages.rs`: reading `wrangler pages deploy` output and its summary.
- `app/lib.rs`: runs `wrangler` and prints the summaries.

Every function in `src/` is verified with Verus; its contract states the
result exactly, over the spec functions of the same module.
