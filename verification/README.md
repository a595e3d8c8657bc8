# rua-list

A small HTTP proxy that relays SMS requests only for whitelisted phone numbers,
with its decision logic verified by Verus.

- `src/` — the verified library:
  - `whitelist.rs`: the exact and wildcard lists, the admission decision, the replies.
  - `http_head.rs`: cleaning a request head (dropping illegal header lines),
    reading `Content-Length`, attaching a body.
  - `config.rs`: command-line arguments, configuration defaults, addresses.
  - `latency.rs`: the text logged for each answered request.
  - `error.rs`: error kinds and their messages.
  - `text.rs`: character-level helpers (splitting at `\r\n`, trimming,
    number parsing and printing) with their specifications.
- `app/` — the program: argument parsing, reading the configuration file, the
  axum server, the HTTP client, logging, and the raw TCP head-cleaning proxy.
- `tests/` — tests of the library.
