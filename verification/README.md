# http-lsp

A language server that sends the HTTP requests written in `.http` and `.rest`
documents and shows each response in a document of its own.

- `src/` is the library, verified with Verus: how a document is read (`request`,
  `documents`), what takes the place of its variables (`pattern`, `variables`,
  `clock`), what is sent and how a response is shown (`session`, `response`), and
  what holds of all of it (`laws`).
- `app/` is the server around it: the protocol, the network, files and processes.
- `tests/` runs the library on concrete values.

What the library believes without proof stands in its `external_body` functions,
each of which hands one task to another crate and says what that crate gives back,
and in one contract for `String::push`.
