# example-cli

A command-line tool and WASI HTTP service: it greets, fetches a URL, runs a shell
command, serves HTTP, and runs Google Cloud token and bucket commands.

`src/` is a Verus library that holds what the commands decide and compute, each
function with its contract:

- `serve/io.rs`: HTTP/1.1 framing. `RequestReader` reads a request off a stream
  chunk by chunk; its outcome is a function of the bytes received
  (`read_outcome`), and once decided it does not change with more bytes
  (`lemma_outcome_settled`). `response_bytes` gives the exact bytes of a response.
- `gcloud.rs`: the reports printed for the cloud's answers, with tokens masked to
  their first four bytes (`lemma_mask_shows_only_a_prefix`).
- `command.rs`, `serve.rs`: the messages and addresses of the other commands.
- `text.rs`: Unicode white space, trimming, word splitting, decimal rendering.

`app/` is the program around it: argument parsing, the HTTP client and server,
the shell, the host calls, and printing.
