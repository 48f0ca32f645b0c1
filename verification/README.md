# server_status

A small server-status service. Monitored servers connect to an agent port,
log in with a `username:password` line, and then report their status; every
report is published to browsers as a server-sent event.

- `src/` is the verified library (Verus): the server list and its credential
  check (`server_config`), the per-connection login protocol (`session`), the
  text of the status events (`serverstatus`), the choice of static files
  (`static_files`), and byte/character helpers (`text`).
- `app/` is the program around it: the HTTP routes, the agent socket loop,
  the status channel, and reading `config.json`.
- `tests/` runs the library on concrete inputs.
