# closure_store

The storage logic of an org-mode vault, written in Verus with every
function's behaviour stated as a contract and proved.

`src/` is the verified library:

- `index` — the block-id index and the inverted backlink index, rebuilt
  per file, with the change token that moves on every mutation.
- `clock` — opening, closing and cancelling `CLOCK:` entries in a
  headline's `:LOGBOOK:`, and finding the running clock.
- `civil` — clock stamps, weekdays, minute spans and agenda dates.
- `outline` — re-levelling a subtree's headings, finding an `:ID:`.
- `tree` — a document's outline tree and the paths under a headline.
- `entry` — captured entries, archive files, refiling, link keys.
- `keywords` — the `#+TODO:` declaration at the top of a file.
- `command`, `form` — the `cmd=…&id=…&arg=…` wire and its decoding.
- `tool` — the text tool line and its replies.
- `headlines` — counts, distinct keywords, tags and titles, levels and
  title lookup over the vault's headlines and files.
- `agenda`, `order` — sorting agenda rows (stably) and windowing them,
  deadlines from their warning period on; text order.
- `files` — which files a vault loads, watcher events, reload plans,
  tangling with noweb references, evaluation backends.
- `stats`, `ring`, `clipboard`, `text`, `error` — statistics, the kill
  ring, the clipboard bridge, the character model, errors.

`app/` is the I/O around it: the directory walk, the file watcher, the
platform clipboard tools, and an error type with `std::error::Error`.

What is not here: the `Vault` type itself — opening a vault, undo and
redo, keeping documents in step with disk, and code-block evaluation.
Those are built on the project's document-model crates (`closure_core`,
`closure_org`, `closure_config`, `closure_cron`, `closure_eval`), which
are not available to this build. What those operations decide is here
as functions over plain values: the reload plan, the refile guard and
re-levelling, capture and archive texts, clocking in and out, the form
and tool wires, and the indices.

The vault's maps keyed by text (block id to file, link to backlinks) are
vectors of pairs with a no-duplicate-keys invariant: vstd's
specifications of `HashMap` and `BTreeSet` hold only for key types it
knows to obey its key models (primitive integers and `bool`), not for
`String`. A sorted, deduplicated `Vec` stands in for a `BTreeSet` of
strings for the same reason.
