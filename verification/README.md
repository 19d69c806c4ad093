# daytoday

The verified core of a personal knowledge base: notes, clips, questions with a
version history, flashcards, a task board and attachments, kept in one store
and synchronised over WebDAV, optionally encrypted.

- `src/` is the library, verified with Verus: the data model and its merge
  rules (`models`), the edits each command makes to the store (`commands`,
  `attachments`), what a sync does to the store and reports (`sync`), the
  upkeep on load (`storage`), the encrypted payload format (`crypto`), gzip and
  text conversions (`codec`), the sync payloads and the PROPFIND reader
  (`webdav`), and the AI endpoint address (`ai`).
- `app/` is the unverified shell around it: the serde forms of the types, the
  store on disk, the HTTP requests, and the commands that tie them together.
- `tests/` exercises the library on concrete values.
